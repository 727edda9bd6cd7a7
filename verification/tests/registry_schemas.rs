use minimodal_rs::errors::MiniModalError;
use minimodal_rs::json::JsonValue;
use minimodal_rs::registry::check_schema;
use minimodal_rs::registry::validate_bindings;
use minimodal_rs::registry::FunctionRegistry;
use minimodal_rs::registry::FunctionSchema;
use minimodal_rs::registry::TypeSchema;

fn add_schema() -> FunctionSchema {
    FunctionSchema {
        function_id: "add".to_string(),
        arg_descriptors: vec![
            ("a".to_string(), "i32".to_string(), TypeSchema::Int),
            ("b".to_string(), "i32".to_string(), TypeSchema::Int),
        ],
        output_type_name: "Result<i32, String>".to_string(),
    }
}

#[test]
fn test_check_schema_primitives() {
    assert!(check_schema(&JsonValue::Null, &TypeSchema::Null));
    assert!(check_schema(&JsonValue::Bool(true), &TypeSchema::Bool));
    assert!(check_schema(&JsonValue::Int(3), &TypeSchema::Int));
    assert!(check_schema(&JsonValue::Str("x".to_string()), &TypeSchema::Str));
    assert!(!check_schema(&JsonValue::Int(3), &TypeSchema::Str));
    assert!(!check_schema(&JsonValue::Null, &TypeSchema::Int));
}

#[test]
fn test_check_schema_list() {
    let ints = TypeSchema::List(Box::new(TypeSchema::Int));
    assert!(check_schema(&JsonValue::Arr(vec![]), &ints));
    assert!(check_schema(&JsonValue::Arr(vec![JsonValue::Int(1), JsonValue::Int(2)]), &ints));
    assert!(!check_schema(
        &JsonValue::Arr(vec![JsonValue::Int(1), JsonValue::Bool(true)]),
        &ints
    ));
    assert!(!check_schema(&JsonValue::Int(1), &ints));
}

#[test]
fn test_check_schema_record() {
    let rec = TypeSchema::Record(vec![
        ("x".to_string(), TypeSchema::Int),
        ("tags".to_string(), TypeSchema::List(Box::new(TypeSchema::Str))),
    ]);
    let good = JsonValue::Obj(vec![
        ("x".to_string(), JsonValue::Int(1)),
        ("tags".to_string(), JsonValue::Arr(vec![JsonValue::Str("a".to_string())])),
        ("extra".to_string(), JsonValue::Null),
    ]);
    assert!(check_schema(&good, &rec));
    let missing = JsonValue::Obj(vec![("x".to_string(), JsonValue::Int(1))]);
    assert!(!check_schema(&missing, &rec));
    let wrong = JsonValue::Obj(vec![
        ("x".to_string(), JsonValue::Str("no".to_string())),
        ("tags".to_string(), JsonValue::Arr(vec![])),
    ]);
    assert!(!check_schema(&wrong, &rec));
}

#[test]
fn test_registry_lookup() {
    let mut registry = FunctionRegistry::new();
    registry.register(add_schema());
    let found = registry.lookup("add").expect("registered");
    assert_eq!(found.output_type_name, "Result<i32, String>");
    assert!(registry.lookup("missing").is_none());
}

#[test]
fn test_validate_bindings_accepts() {
    let json = JsonValue::Obj(vec![
        ("a".to_string(), JsonValue::Int(2)),
        ("b".to_string(), JsonValue::Int(3)),
    ]);
    assert!(validate_bindings(&json, &add_schema()).is_ok());
}

#[test]
fn test_validate_bindings_refuses_shape() {
    let json = JsonValue::Obj(vec![
        ("a".to_string(), JsonValue::Int(2)),
        ("b".to_string(), JsonValue::Str("three".to_string())),
    ]);
    let e = validate_bindings(&json, &add_schema()).unwrap_err();
    assert!(matches!(e, MiniModalError::SerializationError(_)));
    assert_eq!(e.message(), "argument b does not match its declared shape");
}

#[test]
fn test_validate_bindings_refuses_missing() {
    let json = JsonValue::Obj(vec![("a".to_string(), JsonValue::Int(2))]);
    let e = validate_bindings(&json, &add_schema()).unwrap_err();
    assert!(matches!(e, MiniModalError::SerializationError(_)));
    assert_eq!(e.message(), "key b not found in json");
}
