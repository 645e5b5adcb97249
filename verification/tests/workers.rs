//! The polling watcher, the audio worker, cancellation, shortcuts, and the
//! smaller helpers around them.

use task_bridge::cancel::CancellationToken;
use task_bridge::dates::{parse_modified_time, parse_unsigned};
use task_bridge::encode::{art_data_url, png_data_url, split_data_url};
use task_bridge::media::{batch_summary, command_is_forbidden, is_audio_extension};
use task_bridge::media::{BatchItemResult, ConversionResult};
use task_bridge::ollama::{ollama_download_url, ollama_status, should_emit_progress};
use task_bridge::ollama::InstallPlatform;
use task_bridge::player::{apply_command, run_worker, AudioCommand, SinkCall, SinkState};
use task_bridge::player::WorkerChannel;
use task_bridge::poll::{cleanup_target, newest_index, poll_step, simulate_poll};
use task_bridge::poll::{PollConfig, PollDecision, PollOutcome};
use task_bridge::shortcuts::ShortcutState;

#[test]
fn polling_succeeds_within_one_interval() {
    // interval 50 ms, budget 1000 ms; the predicate turns true at the
    // sample 300 ms in: the watcher returns success at exactly that
    // checkpoint, no earlier and within one interval of the change
    let cfg = PollConfig { initial_delay_ms: 0, interval_ms: 50, budget_ms: 1000 };
    let mut samples = vec![false; 6];
    samples.push(true);
    let run = simulate_poll(&cfg, &samples);
    assert_eq!(run.outcome, PollOutcome::Succeeded);
    assert_eq!(run.finish_ms, 300);
    assert!(run.finish_ms <= 350);
    assert_eq!(run.samples_taken, 7);
}

#[test]
fn polling_times_out_near_the_budget() {
    let cfg = PollConfig { initial_delay_ms: 0, interval_ms: 50, budget_ms: 1000 };
    let run = simulate_poll(&cfg, &vec![false; 200]);
    assert_eq!(run.outcome, PollOutcome::TimedOut);
    assert!(run.finish_ms >= 1000 && run.finish_ms < 1050);
    let cfg = PollConfig { initial_delay_ms: 1000, interval_ms: 500, budget_ms: 60_000 };
    let run = simulate_poll(&cfg, &Vec::new());
    assert_eq!(run.outcome, PollOutcome::TimedOut);
    assert!(run.finish_ms >= 60_000 && run.finish_ms < 60_500);
}

#[test]
fn poll_step_orders_its_checks() {
    let cfg = PollConfig { initial_delay_ms: 0, interval_ms: 50, budget_ms: 1000 };
    assert_eq!(poll_step(&cfg, 1000, true), PollDecision::TimedOut);
    assert_eq!(poll_step(&cfg, 999, true), PollDecision::Succeeded);
    assert_eq!(poll_step(&cfg, 999, false), PollDecision::SleepRetry);
}

#[test]
fn cleanup_picks_only_a_fresh_newest_artifact() {
    let created = vec![100u64, 500, 300];
    assert_eq!(newest_index(&created), Some(1));
    assert_eq!(newest_index(&Vec::new()), None);
    // ties keep the earliest index
    assert_eq!(newest_index(&vec![7u64, 7]), Some(0));
    assert_eq!(cleanup_target(&created, 505, 10), Some(1));
    assert_eq!(cleanup_target(&created, 600, 10), None);
    assert_eq!(cleanup_target(&Vec::new(), 600, 10), None);
}

#[test]
fn worker_observes_commands_in_submission_order() {
    // Play(A), SetVolume, Pause, Stop submitted in that order reach the
    // sink as exactly that call sequence
    let cmds = vec![
        AudioCommand::Play(b"a.mp3".to_vec()),
        AudioCommand::SetVolume(500),
        AudioCommand::Pause,
        AudioCommand::Stop,
    ];
    let oks = vec![true, true, true, true];
    let (calls, end) = run_worker(SinkState::new(), &cmds, &oks);
    assert_eq!(
        calls,
        vec![
            SinkCall::Append(b"a.mp3".to_vec()),
            SinkCall::Play,
            SinkCall::SetVolume(500),
            SinkCall::Pause,
            SinkCall::Stop,
        ]
    );
    assert_eq!(end.queued, 0);
    assert!(end.paused);
    assert_eq!(end.volume, 500);
}

#[test]
fn play_displaces_a_queued_source() {
    let mut st = SinkState::new();
    let first = apply_command(&mut st, &AudioCommand::Play(b"one.ogg".to_vec()), true);
    assert_eq!(first, vec![SinkCall::Append(b"one.ogg".to_vec()), SinkCall::Play]);
    let second = apply_command(&mut st, &AudioCommand::Play(b"two.ogg".to_vec()), true);
    assert_eq!(
        second,
        vec![SinkCall::Stop, SinkCall::Append(b"two.ogg".to_vec()), SinkCall::Play]
    );
}

#[test]
fn failed_decode_is_contained() {
    let mut st = SinkState::new();
    let calls = apply_command(&mut st, &AudioCommand::Play(b"broken.flac".to_vec()), false);
    assert_eq!(calls, Vec::<SinkCall>::new());
    assert_eq!(st.queued, 0);
    // the loop goes on: the next command still works
    let calls = apply_command(&mut st, &AudioCommand::SetVolume(250), true);
    assert_eq!(calls, vec![SinkCall::SetVolume(250)]);
}

#[test]
fn channel_is_first_in_first_out_under_flood() {
    let mut channel = WorkerChannel::new();
    for k in 0..100u64 {
        channel.send(AudioCommand::Seek(k));
    }
    assert_eq!(channel.len(), 100);
    for k in 0..100u64 {
        match channel.recv() {
            Some(AudioCommand::Seek(t)) => assert_eq!(t, k),
            other => panic!("expected seek {}, got {:?}", k, other),
        }
    }
    assert!(channel.recv().is_none());
}

#[test]
fn cancellation_is_a_plain_flag() {
    let mut token = CancellationToken::new();
    assert!(!token.is_cancelled());
    assert!(token.may_start_work());
    token.cancel();
    assert!(token.is_cancelled());
    assert!(!token.may_start_work());
    token.reset();
    assert!(!token.is_cancelled());
}

#[test]
fn shortcut_registry_registers_and_replaces() {
    let mut state = ShortcutState::new();
    let r = state.register_shortcut(
        false,
        "capture".to_string(),
        "Ctrl+Shift+S".to_string(),
        "capture the screen".to_string(),
    );
    assert!(r.success);
    assert_eq!(r.shortcut_id, "capture");
    assert_eq!(state.count(), 1);
    let c = state.get_shortcut("capture").expect("just registered");
    assert_eq!(c.accelerator, "Ctrl+Shift+S");
    assert!(c.enabled);
    // the platform manager says the accelerator is taken: nothing changes
    let r = state.register_shortcut(
        true,
        "other".to_string(),
        "Ctrl+Shift+S".to_string(),
        "a second binding".to_string(),
    );
    assert!(!r.success);
    assert_eq!(r.error, Some("Ctrl+Shift+S".to_string()));
    assert_eq!(state.count(), 1);
    // re-registering an identifier replaces its configuration
    let r = state.register_shortcut(
        false,
        "capture".to_string(),
        "Ctrl+Alt+S".to_string(),
        "capture, rebound".to_string(),
    );
    assert!(r.success);
    assert_eq!(state.count(), 1);
    assert_eq!(state.get_shortcut("capture").unwrap().accelerator, "Ctrl+Alt+S");
    // removal
    let taken = state.take("capture").expect("still registered");
    assert_eq!(taken.accelerator, "Ctrl+Alt+S");
    assert!(state.get_shortcut("capture").is_none());
    assert!(state.take("capture").is_none());
    assert_eq!(state.clear_all(), 0);
}

#[test]
fn batch_summary_partitions_outcomes() {
    let ok = ConversionResult { success: true, output_path: None, error: None, file_size: None };
    let bad = ConversionResult { success: false, output_path: None, error: None, file_size: None };
    let items = vec![
        BatchItemResult { input: "a".to_string(), result: ok.clone() },
        BatchItemResult { input: "b".to_string(), result: bad.clone() },
        BatchItemResult { input: "c".to_string(), result: ok.clone() },
    ];
    let summary = batch_summary(items);
    assert!(!summary.success);
    assert_eq!(summary.total, 3);
    assert_eq!(summary.success_count, 2);
    assert_eq!(summary.fail_count, 1);
    let all_ok = batch_summary(vec![BatchItemResult { input: "a".to_string(), result: ok }]);
    assert!(all_ok.success);
}

#[test]
fn recognizes_audio_extensions_case_blind() {
    assert!(is_audio_extension(b"mp3"));
    assert!(is_audio_extension(b"MP3"));
    assert!(is_audio_extension(b"FlAc"));
    assert!(is_audio_extension(b"m4a"));
    assert!(!is_audio_extension(b"txt"));
    assert!(!is_audio_extension(b"mp4"));
    assert!(!is_audio_extension(b""));
}

#[test]
fn destructive_converter_commands_are_refused() {
    assert!(!command_is_forbidden(b"ffmpeg -i in.mp4 -c copy out.mkv"));
    assert!(command_is_forbidden(b"rm -rf target"));
    assert!(command_is_forbidden(b"FORMAT C: /q"));
    assert!(command_is_forbidden(b"echo x && rmdir build"));
    // the guard matches whole words: 'rm' glued to text passes
    assert!(!command_is_forbidden(b"transform.mp4"));
}

#[test]
fn status_probes_are_gated() {
    let s = ollama_status(true, true, Some("0.1.17".to_string()));
    assert!(s.installed && s.running);
    assert_eq!(s.version, Some("0.1.17".to_string()));
    let s = ollama_status(false, true, Some("0.1.17".to_string()));
    assert!(!s.running);
    assert_eq!(s.version, None);
    let s = ollama_status(true, false, None);
    assert!(s.installed && !s.running && s.version.is_none());
}

#[test]
fn installer_source_follows_platform() {
    assert_eq!(
        ollama_download_url(&InstallPlatform::Windows),
        "https://ollama.com/download/OllamaSetup.exe"
    );
    assert_eq!(ollama_download_url(&InstallPlatform::Linux), "https://ollama.com/install.sh");
}

#[test]
fn progress_events_come_once_per_hundredth() {
    assert!(should_emit_progress(10, 1000));
    assert!(!should_emit_progress(15, 1000));
    assert!(should_emit_progress(1000, 1000));
    // a tiny total reports on every chunk
    assert!(should_emit_progress(3, 50));
}

#[test]
fn reads_legacy_and_rfc3339_times() {
    assert_eq!(parse_modified_time(b"/Date(1634567890123)/"), 1634567890);
    assert_eq!(parse_modified_time(b"/Date(oops)/"), 0);
    assert_eq!(parse_modified_time(b"2023-10-27T10:00:00Z"), 1698400800);
    assert_eq!(parse_modified_time(b"1996-12-19T16:39:57-08:00"), 851042397);
    assert_eq!(parse_modified_time(b"not a date"), 0);
    // before the epoch reports zero
    assert_eq!(parse_modified_time(b"1969-12-31T00:00:00Z"), 0);
}

#[test]
fn unsigned_parser_reads_digits() {
    assert_eq!(parse_unsigned(b"0"), Some(0));
    assert_eq!(parse_unsigned(b"0042"), Some(42));
    assert_eq!(parse_unsigned(b"18446744073709551615"), Some(u64::MAX));
    assert_eq!(parse_unsigned(b"18446744073709551616"), None);
    assert_eq!(parse_unsigned(b""), None);
    assert_eq!(parse_unsigned(b"12a"), None);
}

#[test]
fn data_urls_carry_the_real_encoding() {
    // the transform is the base64 crate's: handing the payload back
    // unchanged would not produce these bytes
    assert_eq!(png_data_url(&b"abc".to_vec()), b"data:image/png;base64,YWJj".to_vec());
    assert_eq!(png_data_url(&b"ab".to_vec()), b"data:image/png;base64,YWI=".to_vec());
    assert_eq!(
        art_data_url(&None, &b"abc".to_vec()),
        b"data:image/jpeg;base64,YWJj".to_vec()
    );
    assert_eq!(
        art_data_url(&Some(b"image/png".to_vec()), &b"abc".to_vec()),
        b"data:image/png;base64,YWJj".to_vec()
    );
}

#[test]
fn data_urls_split_at_the_first_comma() {
    let url = png_data_url(&b"abc".to_vec());
    let (head, payload) = split_data_url(&url).expect("a data URL has a comma");
    assert_eq!(head, b"data:image/png;base64".to_vec());
    assert_eq!(payload, b"YWJj".to_vec());
    // later commas belong to the payload
    let (_, payload) = split_data_url(b"data:text/plain,a,b").unwrap();
    assert_eq!(payload, b"a,b".to_vec());
    assert!(split_data_url(b"no comma here").is_none());
}
