//! The streaming runner: line splitting, record classification, ordering
//! and the early stop.

use task_bridge::json::parse_record;
use task_bridge::stream::{
    process_line, record_to_progress, run_stream, LineSplitter, LineStep, RunnerState,
};

#[test]
fn splits_lines_across_chunks() {
    let mut splitter = LineSplitter::new();
    let first = splitter.push_chunk(b"a\nb");
    assert_eq!(first, vec![b"a".to_vec()]);
    let second = splitter.push_chunk(b"c\nd\n");
    assert_eq!(second, vec![b"bc".to_vec(), b"d".to_vec()]);
    let third = splitter.push_chunk(b"tail");
    assert_eq!(third, Vec::<Vec<u8>>::new());
}

#[test]
fn extracts_progress_fields() {
    let rec = parse_record(b"{\"status\":\"pulling\",\"completed\":25,\"total\":50}").unwrap();
    let p = record_to_progress(&rec).expect("a protocol record");
    assert_eq!(p.status, b"pulling".to_vec());
    assert_eq!(p.completed, Some(25));
    assert_eq!(p.total, Some(50));
    assert_eq!(p.error, None);
}

#[test]
fn missing_status_disqualifies() {
    let rec = parse_record(b"{\"completed\":25}").unwrap();
    assert!(record_to_progress(&rec).is_none());
    let rec = parse_record(b"{\"status\":7}").unwrap();
    assert!(record_to_progress(&rec).is_none());
    let rec = parse_record(b"{\"status\":\"x\",\"total\":\"many\"}").unwrap();
    assert!(record_to_progress(&rec).is_none());
}

#[test]
fn null_counts_mean_absent() {
    let rec = parse_record(b"{\"status\":\"x\",\"completed\":null,\"error\":null}").unwrap();
    let p = record_to_progress(&rec).unwrap();
    assert_eq!(p.completed, None);
    assert_eq!(p.error, None);
}

#[test]
fn computes_whole_percent() {
    match process_line(b"{\"status\":\"pulling\",\"completed\":25,\"total\":50}") {
        LineStep::Forward(e) => {
            assert_eq!(e.percent, 50);
            assert_eq!(e.downloaded, 25);
            assert_eq!(e.total, 50);
            assert_eq!(e.status, b"pulling".to_vec());
        }
        other => panic!("expected a forwarded event, got {:?}", other),
    }
}

#[test]
fn absent_counts_report_zero_progress() {
    match process_line(b"{\"status\":\"verifying\"}") {
        LineStep::Forward(e) => {
            assert_eq!(e.percent, 0);
            assert_eq!(e.downloaded, 0);
            assert_eq!(e.total, 0);
        }
        other => panic!("expected a forwarded event, got {:?}", other),
    }
}

#[test]
fn zero_total_reports_zero_progress() {
    match process_line(b"{\"status\":\"x\",\"completed\":3,\"total\":0}") {
        LineStep::Forward(e) => assert_eq!(e.percent, 0),
        other => panic!("expected a forwarded event, got {:?}", other),
    }
}

#[test]
fn unparsable_lines_are_skipped() {
    assert_eq!(process_line(b""), LineStep::Skip);
    assert_eq!(process_line(b"   "), LineStep::Skip);
    assert_eq!(process_line(b"not json"), LineStep::Skip);
}

#[test]
fn escaped_terminal_errors_are_not_lost() {
    // a remote error whose message carries unicode escapes, as some
    // producers write angle brackets, still fires the terminal failure
    match process_line(b"{\"status\":\"x\",\"error\":\"bad \\u003cmodel\\u003e tag\"}") {
        LineStep::Terminal(e) => assert_eq!(e, b"bad <model> tag".to_vec()),
        other => panic!("expected a terminal step, got {:?}", other),
    }
}

#[test]
fn error_field_is_terminal() {
    match process_line(b"{\"status\":\"x\",\"error\":\"model not found\"}") {
        LineStep::Terminal(e) => assert_eq!(e, b"model not found".to_vec()),
        other => panic!("expected a terminal step, got {:?}", other),
    }
    // an empty error field is not terminal
    match process_line(b"{\"status\":\"x\",\"error\":\"\"}") {
        LineStep::Forward(_) => {}
        other => panic!("expected a forwarded event, got {:?}", other),
    }
}

#[test]
fn early_stop_on_line_three() {
    // five lines; the third carries an error: lines one and two are
    // forwarded, line three fires the terminal failure, four and five are
    // never examined
    let lines = vec![
        b"{\"status\":\"a\",\"completed\":1,\"total\":4}".to_vec(),
        b"{\"status\":\"b\",\"completed\":2,\"total\":4}".to_vec(),
        b"{\"status\":\"c\",\"error\":\"disk full\"}".to_vec(),
        b"{\"status\":\"d\",\"completed\":3,\"total\":4}".to_vec(),
        b"{\"status\":\"e\",\"completed\":4,\"total\":4}".to_vec(),
    ];
    let run = run_stream(&lines);
    assert_eq!(run.events.len(), 2);
    assert_eq!(run.events[0].status, b"a".to_vec());
    assert_eq!(run.events[0].percent, 25);
    assert_eq!(run.events[1].status, b"b".to_vec());
    assert_eq!(run.events[1].percent, 50);
    assert_eq!(run.failure, Some(b"disk full".to_vec()));
    assert_eq!(run.lines_examined, 3);
}

#[test]
fn clean_stream_forwards_everything_in_order() {
    let lines = vec![
        b"{\"status\":\"one\"}".to_vec(),
        b"garbage".to_vec(),
        b"{\"status\":\"two\"}".to_vec(),
    ];
    let run = run_stream(&lines);
    assert_eq!(run.failure, None);
    assert_eq!(run.lines_examined, 3);
    let statuses: Vec<&[u8]> = run.events.iter().map(|e| e.status.as_slice()).collect();
    assert_eq!(statuses, vec![b"one".as_slice(), b"two".as_slice()]);
}

#[test]
fn runner_state_ignores_lines_after_terminal() {
    let mut state = RunnerState::new();
    assert!(state.step(b"{\"status\":\"a\"}").is_some());
    match state.step(b"{\"status\":\"b\",\"error\":\"gone\"}") {
        Some(LineStep::Terminal(_)) => {}
        other => panic!("expected the terminal step, got {:?}", other),
    }
    assert!(state.step(b"{\"status\":\"c\"}").is_none());
    assert!(state.step(b"anything at all").is_none());
}
