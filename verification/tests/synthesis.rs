use minimodal_rs::errors::MiniModalError;
use minimodal_rs::json::JsonValue;
use minimodal_rs::server::format_code;
use minimodal_rs::server::prepare_invocation;
use minimodal_rs::server::synthesize_invocation;
use minimodal_rs::server::ArgumentBinding;
use minimodal_rs::server::InvocationRequest;
use minimodal_rs::utils::declare_values_from_json;
use minimodal_rs::utils::deserialize_inputs;
use minimodal_rs::utils::serialize_inputs;
use minimodal_rs::utils::wrap_code_for_check;

fn args2() -> Vec<(String, String)> {
    vec![
        ("int_field".to_string(), "i32".to_string()),
        ("string_field".to_string(), "String".to_string()),
    ]
}

fn inputs2() -> JsonValue {
    JsonValue::Obj(vec![
        ("int_field".to_string(), JsonValue::Int(42)),
        ("string_field".to_string(), JsonValue::Str("hello".to_string())),
    ])
}

#[test]
fn test_declare_values_from_json() {
    let decls = declare_values_from_json(&inputs2(), &args2()).expect("all keys present");
    assert_eq!(
        decls,
        "let int_field: i32 = serde_json::from_value(serde_json::json!(42)).unwrap();\n\
         let string_field: String = serde_json::from_value(serde_json::json!(\"hello\")).unwrap();"
    );
}

#[test]
fn test_declare_values_not_an_object() {
    let e = declare_values_from_json(&JsonValue::Int(5), &args2()).unwrap_err();
    assert!(matches!(e, MiniModalError::SerializationError(_)));
    assert_eq!(e.message(), "json is not an object");
}

#[test]
fn test_declare_values_missing_key() {
    let json = JsonValue::Obj(vec![("int_field".to_string(), JsonValue::Int(42))]);
    let e = declare_values_from_json(&json, &args2()).unwrap_err();
    assert!(matches!(e, MiniModalError::SerializationError(_)));
    assert_eq!(e.message(), "key string_field not found in json");
}

#[test]
fn test_binding_order_does_not_matter() {
    // the same name-to-value binding, members permuted
    let a = JsonValue::Obj(vec![
        ("int_field".to_string(), JsonValue::Int(42)),
        ("string_field".to_string(), JsonValue::Str("hello".to_string())),
    ]);
    let b = JsonValue::Obj(vec![
        ("string_field".to_string(), JsonValue::Str("hello".to_string())),
        ("int_field".to_string(), JsonValue::Int(42)),
    ]);
    let da = declare_values_from_json(&a, &args2()).unwrap();
    let db = declare_values_from_json(&b, &args2()).unwrap();
    assert_eq!(da, db);
}

#[test]
fn test_serialize_inputs() {
    let text = serialize_inputs(vec![
        ("a".to_string(), JsonValue::Int(2)),
        ("b".to_string(), JsonValue::Int(3)),
    ]);
    assert_eq!(text, "{\"a\":2,\"b\":3}");
}

#[test]
fn test_deserialize_inputs() {
    let v = deserialize_inputs("{\"a\":2}").expect("valid blob");
    assert_eq!(minimodal_rs::codec::to_json_text(&v), "{\"a\":2}");
    let e = deserialize_inputs("{\"a\":2} trailing").unwrap_err();
    assert!(matches!(e, MiniModalError::SerializationError(_)));
    assert_eq!(e.message(), "inputs are not a single json document");
}

#[test]
fn test_format_code_exact() {
    let code = "async fn add(a: i32, b: i32) -> Result<i32, String> { Ok(a + b) }";
    let decls = "let a: i32 = serde_json::from_value(serde_json::json!(2)).unwrap();";
    let args = vec![("a".to_string(), "i32".to_string()), ("b".to_string(), "i32".to_string())];
    let program = format_code(code, decls, &args, "Result<i32, String>", "add");
    let expected = format!(
        "{}\n\n#[tokio::main(flavor = \"current_thread\")]\nasync fn main() {{\n    {}\n    let result: {} = {}({}).await;\n    let json_result = match result {{\n        Ok(value) => serde_json::json!({{\"success\": value}}),\n        Err(e) => serde_json::json!({{\"error\": e.to_string()}}),\n    }};\n    println!(\"RESULT_START{{}}RESULT_END\", json_result);\n}}\n",
        code, decls, "Result<i32, String>", "add", "a, b"
    );
    assert_eq!(program, expected);
}

#[test]
fn test_prepare_invocation_declares_and_calls() {
    let code = "async fn add(a: i32, b: i32) -> Result<i32, String> { Ok(a + b) }";
    let args = vec![("a".to_string(), "i32".to_string()), ("b".to_string(), "i32".to_string())];
    let program =
        prepare_invocation(code, "{\"a\":2,\"b\":3}", &args, "add", "Result<i32, String>")
            .expect("complete request");
    assert!(program.contains(code));
    assert!(program.contains("let a: i32 = serde_json::from_value(serde_json::json!(2)).unwrap();"));
    assert!(program.contains("let b: i32 = serde_json::from_value(serde_json::json!(3)).unwrap();"));
    assert!(program.contains("add(a, b).await"));
    assert!(program.contains("RESULT_START"));
    assert!(program.contains("RESULT_END"));
}

#[test]
fn test_prepare_invocation_missing_binding() {
    // an invocation that omits a required binding fails before anything runs
    let code = "async fn add(a: i32, b: i32) -> Result<i32, String> { Ok(a + b) }";
    let args = vec![("a".to_string(), "i32".to_string()), ("b".to_string(), "i32".to_string())];
    let e = prepare_invocation(code, "{\"a\":2}", &args, "add", "Result<i32, String>")
        .unwrap_err();
    assert!(matches!(e, MiniModalError::SerializationError(_)));
    assert_eq!(e.message(), "key b not found in json");
}

#[test]
fn test_wrap_code_for_check() {
    let wrapped = wrap_code_for_check("let x: i32 = 1;");
    assert_eq!(
        wrapped,
        "use serde_json;\nfn main() -> Result<(), Box<dyn std::error::Error>> {\nlet x: i32 = 1;\nOk(())\n}\n"
    );
}

#[test]
fn test_synthesize_invocation_from_bindings() {
    let code = "async fn add(a: i32, b: i32) -> Result<i32, String> { Ok(a + b) }";
    let req = InvocationRequest {
        function_id: "add".to_string(),
        output_type_name: "Result<i32, String>".to_string(),
        bindings: vec![
            ArgumentBinding {
                name: "a".to_string(),
                declared_type: "i32".to_string(),
                value: JsonValue::Int(2),
            },
            ArgumentBinding {
                name: "b".to_string(),
                declared_type: "i32".to_string(),
                value: JsonValue::Int(3),
            },
        ],
    };
    let program = synthesize_invocation(code, req);
    let same = prepare_invocation(code, "{\"a\":2,\"b\":3}", &vec![
        ("a".to_string(), "i32".to_string()),
        ("b".to_string(), "i32".to_string()),
    ], "add", "Result<i32, String>")
    .expect("complete request");
    assert_eq!(program, same);
}

#[test]
fn test_inputs_round_trip() {
    // a serialized argument object reads back as the same object
    let text = serialize_inputs(vec![
        ("n".to_string(), JsonValue::Int(i64::MIN)),
        ("s".to_string(), JsonValue::Str("tab\there".to_string())),
        ("flags".to_string(), JsonValue::Arr(vec![JsonValue::Bool(true), JsonValue::Null])),
    ]);
    let back = deserialize_inputs(&text).expect("own output must parse");
    assert_eq!(minimodal_rs::codec::to_json_text(&back), text);
}
