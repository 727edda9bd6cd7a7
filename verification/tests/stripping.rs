use minimodal_rs::args::MacroArgs;
use minimodal_rs::errors::MiniModalError;
use minimodal_rs::parse_file::remove_function;
use minimodal_rs::parse_file::remove_macro;
use minimodal_rs::parse_file::strip_entry_code;
use minimodal_rs::parse_file::MacroRemover;

#[test]
fn test_remove_macro_simple() {
    let out = remove_macro("#[function]\nfn test() {}\n", vec!["function".to_string()]);
    assert_eq!(out, "fn test() {}\n");
}

#[test]
fn test_remove_macro_with_arguments() {
    let out = remove_macro(
        "#[function(arg1, arg2 = \"value\")]\nfn test() {}\n",
        vec!["function".to_string()],
    );
    assert_eq!(out, "fn test() {}\n");
}

#[test]
fn test_remove_macro_keeps_others() {
    let out = remove_macro(
        "#[function]\n#[derive(Debug)]\nfn test() {}\n",
        vec!["function".to_string()],
    );
    assert_eq!(out, "#[derive(Debug)]\nfn test() {}\n");
}

#[test]
fn test_remove_macro_nonexistent_changes_nothing() {
    let src = "#[existing_macro]\nfn test() {}\n";
    let out = remove_macro(src, vec!["non_existent_macro".to_string()]);
    assert_eq!(out, src);
}

#[test]
fn test_remove_macro_multiple_occurrences() {
    let out = remove_macro(
        "#[function]\nfn test1() {}\n#[function]\nfn test2() {}\n",
        vec!["function".to_string()],
    );
    assert_eq!(out, "fn test1() {}\nfn test2() {}\n");
}

#[test]
fn test_macro_remover_struct() {
    let remover = MacroRemover { target_macros: vec!["mount".to_string()] };
    assert_eq!(remover.strip("#[mount]\nfn go() {}\n"), "fn go() {}\n");
}

#[test]
fn test_remove_function_block() {
    let src = "fn main() {\n    start();\n}\nfn keep() {}\n";
    assert_eq!(remove_function(src, "main"), "fn keep() {}\n");
}

#[test]
fn test_remove_function_single_line() {
    let src = "fn main() { run(); }\nfn keep() {}\n";
    assert_eq!(remove_function(src, "main"), "fn keep() {}\n");
}

#[test]
fn test_remove_function_nested_braces() {
    let src = "async fn main() {\n    if a {\n        b();\n    }\n}\nfn other() {}\n";
    assert_eq!(remove_function(src, "main"), "fn other() {}\n");
}

#[test]
fn test_remove_function_leaves_other_names() {
    let src = "fn maintain() { x(); }\n";
    assert_eq!(remove_function(src, "main"), src);
}

#[test]
fn test_strip_entry_code() {
    let src = "#[function]\nasync fn lala(a: i32) -> i32 { a }\n#[tokio::main]\nasync fn main() {\n    lala(1);\n}\n";
    let out = strip_entry_code(src);
    assert_eq!(out, "async fn lala(a: i32) -> i32 { a }\n#[tokio::main]\n");
}

#[test]
fn test_macro_args_parse() {
    assert_eq!(MacroArgs::parse("").expect("empty list"), MacroArgs { debug: false });
    assert_eq!(MacroArgs::parse("debug").expect("bare flag"), MacroArgs { debug: true });
    assert_eq!(MacroArgs::parse("debug = true").expect("explicit"), MacroArgs { debug: true });
    assert_eq!(MacroArgs::parse("debug = false").expect("explicit"), MacroArgs { debug: false });
    let e = MacroArgs::parse("verbose").unwrap_err();
    assert!(matches!(e, MiniModalError::OtherError(_)));
    assert_eq!(e.message(), "unrecognized attribute arguments");
}

#[test]
fn test_error_messages() {
    assert_eq!(MiniModalError::CompileError("c".to_string()).message(), "c");
    assert_eq!(MiniModalError::FunctionError("f".to_string()).message(), "f");
    assert_eq!(MiniModalError::ServerError("s".to_string()).message(), "s");
    assert_eq!(MiniModalError::OtherError("o".to_string()).message(), "o");
    assert_eq!(MiniModalError::ConnectionError("n".to_string()).message(), "n");
    assert_eq!(MiniModalError::SerializationError("z".to_string()).message(), "z");
}
