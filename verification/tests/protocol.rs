//! The wire format and the helper-process bridge, exercised on concrete
//! values.

use task_bridge::invoke::{
    get_python_executable, interpret_exit, resolve_script, resolve_spawn, InvokeError, TaskRequest,
};
use task_bridge::json::{parse_record, serialize_record, JsonRecord, JsonValue};

fn record(fields: &[(&str, JsonValue)]) -> JsonRecord {
    let mut rec = JsonRecord::empty();
    for (key, value) in fields {
        rec.push_field(key.as_bytes().to_vec(), value.clone());
    }
    rec
}

fn txt(s: &str) -> JsonValue {
    JsonValue::Txt(s.as_bytes().to_vec())
}

#[test]
fn serializes_canonical_bytes() {
    let rec = record(&[
        ("status", txt("ok")),
        ("completed", JsonValue::Num(5)),
        ("total", JsonValue::Num(10)),
        ("extra", JsonValue::Null),
        ("done", JsonValue::Truth(true)),
    ]);
    let bytes = serialize_record(&rec);
    assert_eq!(
        bytes,
        b"{\"status\":\"ok\",\"completed\":5,\"total\":10,\"extra\":null,\"done\":true}".to_vec()
    );
}

#[test]
fn round_trips_through_parse() {
    let rec = record(&[
        ("status", txt("downloading")),
        ("completed", JsonValue::Num(123456789)),
        ("total", JsonValue::Num(u64::MAX)),
        ("flag", JsonValue::Truth(false)),
    ]);
    let bytes = serialize_record(&rec);
    let back = parse_record(&bytes).expect("canonical bytes must parse");
    assert_eq!(back, rec);
}

#[test]
fn parses_empty_record() {
    let rec = parse_record(b"{}").expect("empty object");
    assert_eq!(rec.fields.len(), 0);
    assert_eq!(serialize_record(&rec), b"{}".to_vec());
}

#[test]
fn tolerates_whitespace_between_tokens() {
    let rec = parse_record(b"{ \"a\" : 1 , \"b\" : \"x\" }").expect("spaced tokens");
    assert_eq!(rec.get(b"a"), Some(&JsonValue::Num(1)));
    assert_eq!(rec.get(b"b"), Some(&txt("x")));
    // a pretty-printed document, as a helper's formatter writes it
    let rec = parse_record(b"{\n  \"status\": \"ok\",\n  \"total\": 3\n}").expect("pretty print");
    assert_eq!(rec.get(b"status"), Some(&txt("ok")));
    assert_eq!(rec.get(b"total"), Some(&JsonValue::Num(3)));
    let rec = parse_record(b"{ }").expect("spaced empty object");
    assert_eq!(rec.fields.len(), 0);
}

#[test]
fn rejects_noise() {
    assert!(parse_record(b"").is_none());
    assert!(parse_record(b"   ").is_none());
    assert!(parse_record(b"{\"a\":1").is_none());
    assert!(parse_record(b"{\"a\":1}x").is_none());
    assert!(parse_record(b"[1,2]").is_none());
    assert!(parse_record(b"{\"a\":[1]}").is_none());
}

#[test]
fn rejects_leading_zero_and_overflow() {
    assert!(parse_record(b"{\"n\":01}").is_none());
    assert!(parse_record(b"{\"n\":18446744073709551616}").is_none());
    let rec = parse_record(b"{\"n\":18446744073709551615}").expect("a full machine word fits");
    assert_eq!(rec.get(b"n"), Some(&JsonValue::Num(u64::MAX)));
}

#[test]
fn resolves_quote_and_backslash_escapes() {
    let rec = parse_record(b"{\"a\":\"b\\\"c\"}").expect("an escaped quote");
    assert_eq!(rec.get(b"a"), Some(&txt("b\"c")));
    let rec = parse_record(b"{\"a\\\\b\":\"x\"}").expect("an escaped backslash in the key");
    assert_eq!(rec.get(b"a\\b"), Some(&txt("x")));
    let spiky = record(&[("k", txt("say \"hi\" \\ bye"))]);
    let bytes = serialize_record(&spiky);
    assert_eq!(bytes, b"{\"k\":\"say \\\"hi\\\" \\\\ bye\"}".to_vec());
    assert_eq!(parse_record(&bytes), Some(spiky));
}

#[test]
fn resolves_standard_escapes() {
    let rec = parse_record(b"{\"a\":\"b\\nc\\td\"}").expect("named control escapes");
    assert_eq!(rec.get(b"a"), Some(&JsonValue::Txt(b"b\nc\td".to_vec())));
    // the escaped solidus and unicode escapes of single-byte code points,
    // as other producers write angle brackets and control bytes
    let rec = parse_record(b"{\"a\":\"x\\/y \\u003cm\\u003E \\u000a\"}").expect("solidus, hex");
    assert_eq!(rec.get(b"a"), Some(&JsonValue::Txt(b"x/y <m> \n".to_vec())));
    // a string carrying a control byte serializes back with its escape
    let rec = record(&[("k", JsonValue::Txt(b"one\ntwo\x01".to_vec()))]);
    let bytes = serialize_record(&rec);
    assert_eq!(bytes, b"{\"k\":\"one\\ntwo\\u0001\"}".to_vec());
    assert_eq!(parse_record(&bytes), Some(rec));
}

#[test]
fn rejects_other_escapes_and_raw_control_bytes() {
    // a raw line break inside a string, an unknown escape, a truncated
    // escape, and a unicode escape naming a code point above one byte
    assert!(parse_record(b"{\"a\":\"b\nc\"}").is_none());
    assert!(parse_record(b"{\"a\":\"b\\qc\"}").is_none());
    assert!(parse_record(b"{\"a\":\"b\\\"}").is_none());
    assert!(parse_record(b"{\"a\":\"b\\u00\"}").is_none());
    assert!(parse_record(b"{\"a\":\"b\\u0100c\"}").is_none());
}

#[test]
fn lookup_takes_first_occurrence() {
    let rec = parse_record(b"{\"a\":1,\"b\":2,\"a\":3}").expect("duplicate keys still parse");
    assert_eq!(rec.get(b"a"), Some(&JsonValue::Num(1)));
    assert_eq!(rec.get(b"b"), Some(&JsonValue::Num(2)));
    assert_eq!(rec.get(b"missing"), None);
}

#[test]
fn builds_positional_arguments() {
    let req = TaskRequest {
        action: b"transcribe".to_vec(),
        operands: vec![b"/tmp/a.wav".to_vec()],
        options: Some(record(&[("model", txt("base")), ("format", txt("srt"))])),
    };
    let args = req.build_args();
    assert_eq!(
        args,
        vec![
            b"transcribe".to_vec(),
            b"/tmp/a.wav".to_vec(),
            b"{\"model\":\"base\",\"format\":\"srt\"}".to_vec(),
        ]
    );
}

#[test]
fn resolves_first_existing_interpreter() {
    let candidates = vec![b"/a/python".to_vec(), b"/b/python".to_vec()];
    let exe = get_python_executable(&candidates, &vec![false, true], &b"python".to_vec());
    assert_eq!(exe, b"/b/python".to_vec());
    let exe = get_python_executable(&candidates, &vec![false, false], &b"python".to_vec());
    assert_eq!(exe, b"python".to_vec());
    let script = resolve_script(&candidates, &vec![true, false]).unwrap();
    assert_eq!(script, b"/a/python".to_vec());
    assert!(resolve_script(&candidates, &vec![false, false]).is_none());
}

#[test]
fn spawn_failure_short_circuits() {
    // no interpreter candidate exists and the bare command is unresolvable:
    // the invoker fails before any plan to spawn exists, so a driver that
    // spawns only what a plan names cannot have created a child process
    let req = TaskRequest { action: b"check-models".to_vec(), operands: vec![], options: None };
    let outcome = resolve_spawn(
        &req,
        &vec![b"/a/python".to_vec()],
        &vec![false],
        &b"python".to_vec(),
        false,
        &vec![b"helper.py".to_vec()],
        &vec![false],
    );
    match outcome {
        Err(InvokeError::SpawnFailure) => {}
        other => panic!("expected a spawn failure, got {:?}", other),
    }
}

#[test]
fn spawn_plan_runs_script_with_arguments() {
    let req = TaskRequest {
        action: b"denoise".to_vec(),
        operands: vec![b"in.wav".to_vec(), b"out.wav".to_vec()],
        options: None,
    };
    let plan = resolve_spawn(
        &req,
        &vec![b"/venv/python".to_vec()],
        &vec![true],
        &b"python".to_vec(),
        true,
        &vec![b"/x/helper.py".to_vec(), b"/y/helper.py".to_vec()],
        &vec![false, true],
    )
    .expect("everything resolvable");
    assert_eq!(plan.program, b"/venv/python".to_vec());
    assert_eq!(
        plan.args,
        vec![
            b"/y/helper.py".to_vec(),
            b"denoise".to_vec(),
            b"in.wav".to_vec(),
            b"out.wav".to_vec(),
        ]
    );
}

#[test]
fn successful_exit_with_schema_output_succeeds() {
    let rec = record(&[("success", JsonValue::Truth(true)), ("message", txt("done"))]);
    let stdout = serialize_record(&rec);
    let result = interpret_exit(true, &stdout, &Vec::new());
    assert!(result.success);
    assert_eq!(result.payload, Some(rec));
    assert_eq!(result.error, None);
}

#[test]
fn surrounding_whitespace_on_stdout_is_tolerated() {
    let rec = record(&[("success", JsonValue::Truth(true))]);
    let mut stdout = serialize_record(&rec);
    stdout.push(b'\n');
    let result = interpret_exit(true, &stdout, &Vec::new());
    assert!(result.success);
    assert_eq!(result.payload, Some(rec));
}

#[test]
fn successful_exit_with_bad_output_is_parse_failure() {
    let stdout = b"warning: half a record {\"success\":".to_vec();
    let result = interpret_exit(true, &stdout, &Vec::new());
    assert!(!result.success);
    assert_eq!(result.payload, None);
    let mut expected = b"parse failure: ".to_vec();
    expected.extend_from_slice(&stdout);
    assert_eq!(result.error, Some(expected));
}

#[test]
fn failing_exit_reports_both_streams() {
    let result = interpret_exit(false, &b"partial out".to_vec(), &b"boom".to_vec());
    assert!(!result.success);
    assert_eq!(result.payload, None);
    assert_eq!(result.error, Some(b"boom\npartial out".to_vec()));
}
