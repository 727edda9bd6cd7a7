use minimodal_rs::errors::MiniModalError;
use minimodal_rs::json::JsonValue;
use minimodal_rs::server::collect_run_events;
use minimodal_rs::server::extract_result;
use minimodal_rs::server::immediate_failure_events;
use minimodal_rs::server::InvocationEnvelope;
use minimodal_rs::server::MiniModalService;
use minimodal_rs::server::StreamEvent;

fn log_text(e: &StreamEvent) -> &str {
    match e {
        StreamEvent::LogLine(l) => l,
        StreamEvent::Terminal(_) => panic!("expected a log line"),
    }
}

fn terminal(e: &StreamEvent) -> &InvocationEnvelope {
    match e {
        StreamEvent::Terminal(env) => env,
        StreamEvent::LogLine(_) => panic!("expected the terminal event"),
    }
}

#[test]
fn test_success_envelope() {
    let r = extract_result(true, "RESULT_START{\"success\":5}RESULT_END\n", "");
    match r {
        InvocationEnvelope::Success(JsonValue::Int(5)) => {},
        other => panic!("expected Success(5), got {:?}", other),
    }
}

#[test]
fn test_error_envelope() {
    let r = extract_result(true, "RESULT_START{\"error\":\"boom\"}RESULT_END\n", "");
    match r {
        InvocationEnvelope::Failure(msg) => assert_eq!(msg, "\"boom\""),
        other => panic!("expected Failure, got {:?}", other),
    }
}

#[test]
fn test_success_wins_over_error_key() {
    let r = extract_result(true, "RESULT_START{\"success\":1,\"error\":\"x\"}RESULT_END", "");
    assert!(matches!(r, InvocationEnvelope::Success(JsonValue::Int(1))));
}

#[test]
fn test_missing_end_marker_reads_to_end() {
    let r = extract_result(true, "RESULT_START{\"success\":1}", "");
    assert!(matches!(r, InvocationEnvelope::Success(JsonValue::Int(1))));
}

#[test]
fn test_build_failure() {
    let r = extract_result(false, "some partial output\n", "error[E0425]: not found\n");
    match r {
        InvocationEnvelope::Failure(msg) => {
            assert_eq!(msg, "cargo run failed: error[E0425]: not found\n");
        },
        other => panic!("expected Failure, got {:?}", other),
    }
}

#[test]
fn test_malformed_output_is_protocol_failure() {
    // the process wrote arbitrary non-sentinel output and exited 0
    let events = collect_run_events(true, "hello\nworld\n", "");
    assert_eq!(events.len(), 3);
    assert_eq!(log_text(&events[0]), "hello");
    assert_eq!(log_text(&events[1]), "world");
    match terminal(&events[2]) {
        InvocationEnvelope::Failure(msg) => {
            assert_eq!(msg, "no result envelope in output: hello\nworld\n");
        },
        other => panic!("expected Failure, got {:?}", other),
    }
}

#[test]
fn test_malformed_envelope_is_protocol_failure() {
    let out = "RESULT_STARTnot jsonRESULT_END";
    let r = extract_result(true, out, "");
    match r {
        InvocationEnvelope::Failure(msg) => {
            assert_eq!(msg, format!("invalid result envelope: {}", out));
        },
        other => panic!("expected Failure, got {:?}", other),
    }
}

#[test]
fn test_log_lines_precede_single_terminal() {
    let out = "step one\r\nstep two\nRESULT_START{\"success\":true}RESULT_END\n";
    let events = collect_run_events(true, out, "");
    assert_eq!(events.len(), 3);
    assert_eq!(log_text(&events[0]), "step one");
    assert_eq!(log_text(&events[1]), "step two");
    assert!(matches!(terminal(&events[2]), InvocationEnvelope::Success(JsonValue::Bool(true))));
    // the terminal event is the last and only result event
    for e in events.iter().take(events.len() - 1) {
        assert!(matches!(e, StreamEvent::LogLine(_)));
    }
}

#[test]
fn test_partial_line_before_envelope_is_dropped() {
    let out = "kept line\nnoise RESULT_START{\"error\":\"e\"}RESULT_END";
    let events = collect_run_events(true, out, "");
    assert_eq!(events.len(), 2);
    assert_eq!(log_text(&events[0]), "kept line");
    match terminal(&events[1]) {
        InvocationEnvelope::Failure(msg) => assert_eq!(msg, "\"e\""),
        other => panic!("expected Failure, got {:?}", other),
    }
}

#[test]
fn test_refused_invocation_yields_no_log_lines() {
    // a synthesis refusal produces a stream with zero log lines
    let e = MiniModalError::SerializationError("key b not found in json".to_string());
    let events = immediate_failure_events(&e);
    assert_eq!(events.len(), 1);
    match terminal(&events[0]) {
        InvocationEnvelope::Failure(msg) => assert_eq!(msg, "key b not found in json"),
        other => panic!("expected Failure, got {:?}", other),
    }
}

#[test]
fn test_whole_invocation_round_trip() {
    // synthesize a driver for add(2, 3), then read the output such a driver
    // prints back through extraction: the envelope returns the value
    let service = MiniModalService::new("shadow".to_string());
    let code = "async fn add(a: i32, b: i32) -> Result<i32, String> { Ok(a + b) }";
    let args = vec![("a".to_string(), "i32".to_string()), ("b".to_string(), "i32".to_string())];
    let (name, path, program) = service
        .run_function_prepare(code, "{\"a\":2,\"b\":3}", &args, "add", "Result<i32, String>")
        .expect("complete request");
    assert_eq!(name.len(), 36);
    assert_eq!(path, format!("shadow/src/bin/{}.rs", name));
    assert!(program.contains("add(a, b).await"));
    let simulated_stdout = "RESULT_START{\"success\":5}RESULT_END\n";
    let events = collect_run_events(true, simulated_stdout, "");
    assert_eq!(events.len(), 1);
    assert!(matches!(terminal(&events[0]), InvocationEnvelope::Success(JsonValue::Int(5))));
}

#[test]
fn test_distinct_entry_names_give_distinct_paths() {
    let service = MiniModalService::new("shadow".to_string());
    let code = "async fn f() -> Result<i32, String> { Ok(0) }";
    let args: Vec<(String, String)> = vec![];
    let (n1, p1, _) = service
        .run_function_prepare(code, "{}", &args, "f", "Result<i32, String>")
        .expect("first");
    let (n2, p2, _) = service
        .run_function_prepare(code, "{}", &args, "f", "Result<i32, String>")
        .expect("second");
    // fresh uuids: overwhelmingly distinct, and then so are the paths
    assert_ne!(n1, n2);
    assert_ne!(p1, p2);
}
