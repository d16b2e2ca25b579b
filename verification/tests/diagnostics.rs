use moba_launcher_core::diagnostics::{
    default_upload, delivery_outcome, error_limit_windows, event, exit_record, journal_lines,
    launch_context, manifest_file_hash, native_report, needs_rotation, now, session_from_seed,
    session_text, sentry_endpoint, start_record, text_lines, whole_lines_from, within_limit,
    DeliveryState, Record, Reply, ResolutionChoice, DSN, MAX_FILE_BYTES,
    MAX_HOURLY_EVENTS, MAX_SENT_IDS,
};
use moba_launcher_core::diagnostics::{
    collect_native_reports, native_log_is_current, native_log_lines, retained_ids, NativeScan,
    MAX_NATIVE_REPORTS,
};
use std::cell::{Cell, RefCell};
use moba_launcher_core::scrub::scrub;
use moba_launcher_core::updater::{FileEntry, Manifest};
use serde_json::Value;

fn record() -> Record {
    Record {
        schema: 1,
        id: "session-1".into(),
        timestamp: 1789296000,
        client_version: "test-1".into(),
        build: "abc".into(),
        kind: "lua_error".into(),
        component: "MobaMinimap".into(),
        message: "nil value".into(),
        context: "map=901 minimap=260x260".into(),
        trace: "MobaMinimap.lua:42".into(),
        upload: default_upload(),
    }
}

fn record_json(r: &Record) -> String {
    let mut map = serde_json::Map::new();
    map.insert("schema".into(), Value::from(r.schema));
    map.insert("id".into(), Value::from(r.id.clone()));
    map.insert("timestamp".into(), Value::from(r.timestamp));
    map.insert("client_version".into(), Value::from(r.client_version.clone()));
    map.insert("build".into(), Value::from(r.build.clone()));
    map.insert("kind".into(), Value::from(r.kind.clone()));
    map.insert("component".into(), Value::from(r.component.clone()));
    map.insert("message".into(), Value::from(r.message.clone()));
    map.insert("context".into(), Value::from(r.context.clone()));
    map.insert("trace".into(), Value::from(r.trace.clone()));
    map.insert("upload".into(), Value::from(r.upload));
    Value::Object(map).to_string()
}

// Decodes one journal line the way the relay does: every field but `upload` is required,
// and unknown fields are refused.
fn decode_record(line: &[u8]) -> Option<Record> {
    let value: Value = serde_json::from_slice(line).ok()?;
    let object = value.as_object()?;
    let known = [
        "schema", "id", "timestamp", "client_version", "build", "kind", "component", "message",
        "context", "trace", "upload",
    ];
    if object.keys().any(|k| !known.contains(&k.as_str())) {
        return None;
    }
    let text = |key: &str| object.get(key).and_then(Value::as_str).map(str::to_owned);
    Some(Record {
        schema: u32::try_from(object.get("schema")?.as_u64()?).ok()?,
        id: text("id")?,
        timestamp: object.get("timestamp")?.as_u64()?,
        client_version: text("client_version")?,
        build: text("build")?,
        kind: text("kind")?,
        component: text("component")?,
        message: text("message")?,
        context: text("context")?,
        trace: text("trace")?,
        upload: match object.get("upload") {
            Some(v) => v.as_bool()?,
            None => default_upload(),
        },
    })
}

fn read_records(bytes: Vec<u8>) -> Vec<Record> {
    let bytes = within_limit(bytes, MAX_FILE_BYTES);
    journal_lines(&bytes)
        .iter()
        .filter_map(|line| decode_record(line))
        .filter(|r| r.valid())
        .collect()
}

fn tag<'a>(tags: &'a [(String, String)], key: &str) -> Option<&'a str> {
    tags.iter().find(|(k, _)| k == key).map(|(_, v)| v.as_str())
}

#[test]
fn events_preserve_client_version_and_group_errors_without_player_identity() {
    let e = event(&record(), "0.3.0");
    assert_eq!(e.release, "rivals-beyond-client@test-1");
    assert_eq!(e.client_build, "abc");
    assert_eq!(e.ui_context, "map=901 minimap=260x260");
    assert!(tag(&e.context_tags, "user").is_none());
    assert_eq!(e.event_id, event(&record(), "0.3.0").event_id);
    assert_eq!(e.exception.as_ref().unwrap().0, "LuaError");
}

#[test]
fn transport_only_accepts_known_bounded_records_and_complete_lines() {
    let mut r = record();
    assert!(r.valid());
    r.kind = "chat".into();
    assert!(!r.valid());
    r = record();
    r.message = "x".repeat(2049);
    assert!(!r.valid());
    r = record();
    r.schema = 2;
    assert!(!r.valid());
    let line = record_json(&record());
    let journal = format!("{}\n{{\"incomplete", line);
    assert_eq!(read_records(journal.into_bytes()).len(), 1);
    let oversized = "x".repeat(MAX_FILE_BYTES as usize + 1);
    assert!(read_records(oversized.into_bytes()).is_empty());
}

#[test]
fn reports_scrub_emails_urls_credentials_and_local_user_paths() {
    let text = scrub("error user@example.com https://x.test/?token=secret C:\\Users\\Alice\\file token=abc password hunter2 Interface\\FrameXML\\MobaUI.lua:42");
    for private in ["user@example", "x.test", "Alice", "abc", "hunter2"] {
        assert!(!text.contains(private));
    }
    assert!(text.contains("MobaUI.lua:42"));
}

#[test]
fn scrub_keeps_harmless_words_and_line_structure() {
    assert_eq!(scrub("a  b\nc"), "a b\nc");
    assert_eq!(scrub("secret\nvalue next"), "[filtered]\n[filtered] next");
    assert_eq!(scrub("token=abc next"), "[filtered] next");
    assert_eq!(scrub(""), "");
}

#[test]
fn event_fields_follow_the_record() {
    let mut r = record();
    r.client_version = "local".into();
    r.kind = "native_warning".into();
    r.id = "abc-def-start".into();
    r.context = "os=windows map=1 nope=2 map=2 resolution=1920x1080 monitor=C:/Users/x".into();
    let e = event(&r, "0.3.0");
    assert_eq!(e.environment, "development");
    assert_eq!(e.level, "warning");
    assert_eq!(e.session, "abc-def");
    assert!(e.exception.is_none());
    assert_eq!(e.event_id.len(), 32);
    assert_eq!(e.launcher_version, "0.3.0");
    assert_eq!(e.platform, "other");
    assert_eq!(e.logger, "rivals.client");
    assert_eq!(e.fingerprint, vec!["native_warning".to_string(), "MobaMinimap".into(), "nil value".into()]);
    assert_eq!(
        e.context_tags,
        vec![
            ("os".to_string(), "windows".to_string()),
            ("map".into(), "2".into()),
            ("resolution".into(), "1920x1080".into()),
            ("monitor".into(), "[filtered]".into()),
        ]
    );
    assert_eq!(session_text("nodash"), "nodash");
    let mut crash = record();
    crash.kind = "client_crash".into();
    assert_eq!(event(&crash, "x").exception.unwrap().0, "ClientError");
    assert_eq!(event(&record(), "x").environment, "production");
}

#[test]
fn delivery_outcomes_for_every_reply() {
    assert_eq!(delivery_outcome(&None), (false, 60));
    let bad = Reply { success: false, rate_limits: vec![10], retry_after: Some("soon".into()) };
    assert_eq!(delivery_outcome(&Some(bad)), (false, 60));
    let big = Reply { success: false, rate_limits: vec![10, 300], retry_after: Some("5".into()) };
    assert_eq!(delivery_outcome(&Some(big)), (false, 300));
    assert_eq!(error_limit_windows("60::organization, 30:transaction:org"), vec!["60".to_string()]);
    assert_eq!(error_limit_windows("  45:error;default:key  ,x"), vec!["45".to_string()]);
    assert!(error_limit_windows("").is_empty());
}

#[test]
fn hour_rollover_and_id_bounds() {
    let mut state = DeliveryState { sent: Vec::new(), retry_at: 0, hour: 0, sent_this_hour: 7 };
    assert!(state.begin_flush(7200));
    assert_eq!(state.hour, 2);
    assert_eq!(state.sent_this_hour, 0);
    let mut many: Vec<String> = (0..MAX_SENT_IDS + 3).map(|i| format!("{:032x}", i)).collect();
    many.insert(0, "not-an-id".into());
    let kept = retained_ids(many);
    assert_eq!(kept.len(), MAX_SENT_IDS);
    assert_eq!(kept[0], format!("{:032x}", 3));
    assert!(!needs_rotation(0, 10));
    assert!(needs_rotation(MAX_FILE_BYTES, 1));
    assert!(!needs_rotation(MAX_FILE_BYTES - 1, 1));
    assert!(now() > 0);
}

#[test]
fn sentry_endpoint_comes_from_the_dsn() {
    assert_eq!(
        sentry_endpoint(DSN).unwrap(),
        "https://o4512077726285824.ingest.de.sentry.io/api/4512077733036112/envelope/"
    );
    assert_eq!(sentry_endpoint("unix:/run/x").unwrap_err(), "Missing Sentry host");
    assert!(sentry_endpoint("not a url").is_err());
}

#[test]
fn journal_lines_keep_only_complete_bounded_lines() {
    let lines = journal_lines(b"a\n\nb");
    assert_eq!(lines, vec![b"a\n".to_vec(), b"\n".to_vec()]);
    let long = vec![b'x'; 40000];
    let mut bytes = long.clone();
    bytes.push(b'\n');
    bytes.extend_from_slice(b"ok\n");
    assert_eq!(journal_lines(&bytes), vec![b"ok\n".to_vec()]);
    assert_eq!(within_limit(vec![1, 2, 3], 2), Vec::<u8>::new());
    assert_eq!(within_limit(vec![1, 2], 2), vec![1, 2]);
}


#[test]
fn native_messages_are_clipped_at_a_character_boundary() {
    let mut session = record();
    session.id = format!("{}-start", session_from_seed("seed"));
    let line = format!("ERROR: {}", "é".repeat(1500));
    let (r, _) = native_report(&line, &session, 1, &Vec::new()).unwrap();
    assert_eq!(r.message.len(), 2048);
    assert_eq!(r.message.chars().count(), 1024);
    let tail = whole_lines_from(b"partial\nERROR: recent failure\n".to_vec(), 10);
    assert_eq!(tail, b"ERROR: recent failure\n".to_vec());
    assert_eq!(whole_lines_from(b"no newline".to_vec(), 3), Vec::<u8>::new());
    assert_eq!(whole_lines_from(b"kept".to_vec(), 0), b"kept".to_vec());
}

fn manifest() -> Manifest {
    Manifest {
        schema_version: 1,
        locales: Vec::new(),
        sequence: 42,
        client_version: "test-42".into(),
        object_base_url: String::new(),
        file_count: 1,
        total_size: 0,
        files: vec![FileEntry { path: "data/patch-z.mpq".into(), locale: None, size: 0, sha256: "ab".repeat(32) }],
    }
}

#[test]
fn launches_record_version_resolution_duration_and_exit_code() {
    let m = manifest();
    let resolution = ResolutionChoice {
        monitor: Some((2560, 1440)),
        configured: Some((2560, 1440)),
        source: "monitor".into(),
        hardware_detection_disabled: true,
    };
    let context = launch_context("windows", false, &m, &resolution);
    assert!(context.contains("monitor=2560x1440 resolution_configured=2560x1440 resolution_source=monitor"));
    assert!(context.contains(&format!("patch={}", "ab".repeat(32))));
    assert!(context.contains("outline=unknown"));
    assert!(context.starts_with("os=windows backend=d3d9 "));
    assert!(context.contains("manifest_sequence=42"));
    assert_eq!(manifest_file_hash(&m, "Data/PATCH-Z.MPQ"), "ab".repeat(32));
    let session = session_from_seed("launch");
    let start = start_record(&session, 10, &m, context, false);
    assert_eq!(start.kind, "game_started");
    assert_eq!(start.client_version, "test-42");
    assert_eq!(start.build, "unknown");
    assert!(!start.upload);
    let launch = event(&start, "x");
    assert_eq!(tag(&launch.context_tags, "monitor"), Some("2560x1440"));
    assert_eq!(tag(&launch.context_tags, "resolution_configured"), Some("2560x1440"));
    assert_eq!(tag(&launch.context_tags, "resolution_source"), Some("monitor"));
    assert_eq!(tag(&launch.context_tags, "hw_detect_disabled"), Some("true"));
    let crash = exit_record(&start, &session, 20, false, 10, Some(7));
    assert_eq!(crash.kind, "client_crash");
    assert!(crash.context.contains("exit_code=0x00000007"));
    assert!(crash.context.contains("duration_seconds=10"));
    assert_eq!(crash.id, format!("{session}-exit"));
    let exited = exit_record(&start, &session, 20, true, 3, None);
    assert_eq!(exited.kind, "game_exited");
    assert_eq!(exited.message, "Game exited");
    assert!(exited.context.ends_with("exit_code=signal"));
    let negative = exit_record(&start, &session, 20, false, 3, Some(-1));
    assert!(negative.context.ends_with("exit_code=0xffffffff"));
    assert_eq!(session.len(), 24);
    assert!(session.bytes().all(|b| b.is_ascii_digit() || (b'a'..=b'f').contains(&b)));
    assert_ne!(session_from_seed("a"), session_from_seed("b"));
}

#[test]
fn a_long_native_log_tail_starts_at_a_whole_line_and_decodes_lossily() {
    let mut bytes = b"INFO: o".to_vec();
    bytes.extend_from_slice(b"ld\nERROR: recent failure\n");
    let lines = native_log_lines(bytes, 7);
    assert_eq!(lines, vec!["ERROR: recent failure".to_string()]);
    let lines = native_log_lines(vec![b'a', 0xff, b'\n', b'b'], 0);
    assert_eq!(lines, vec!["a\u{fffd}".to_string(), "b".to_string()]);
}

#[test]
fn a_stale_native_log_is_never_attributed_to_a_later_launch() {
    assert!(native_log_is_current(100, 100));
    assert!(native_log_is_current(101, 100));
    assert!(!native_log_is_current(99, 100));
}

fn copy_record(r: &Record) -> Record {
    Record {
        schema: r.schema,
        id: r.id.clone(),
        timestamp: r.timestamp,
        client_version: r.client_version.clone(),
        build: r.build.clone(),
        kind: r.kind.clone(),
        component: r.component.clone(),
        message: r.message.clone(),
        context: r.context.clone(),
        trace: r.trace.clone(),
        upload: r.upload,
    }
}

fn collect(
    text: &[u8],
    start: u64,
    session: &Record,
    modified: u64,
    seen: &mut Vec<String>,
    journal: &RefCell<Vec<Record>>,
) -> NativeScan {
    let lines = native_log_lines(text.to_vec(), start);
    collect_native_reports(&lines, session, modified, seen, |r| {
        journal.borrow_mut().push(copy_record(r));
        true
    })
}

#[test]
fn only_native_warning_and_error_lines_are_collected_once_for_the_current_launch() {
    let mut session = record();
    session.id = format!("{}-start", session_from_seed("seed"));
    session.timestamp = now();
    let modified = session.timestamp;
    let log = b"INFO: started\nplayer chat\n[12:00:00] ERROR: outline failed\n[12:00:01] ERROR: outline failed\nWARN: texture missing\n";
    let journal = RefCell::new(Vec::new());
    let mut seen = Vec::new();
    for _ in 0..2 {
        collect(log, 0, &session, modified, &mut seen, &journal);
    }
    let records = journal.borrow();
    assert_eq!(records.len(), 2);
    assert_eq!(records[0].kind, "native_error");
    assert_eq!(records[0].message, "outline failed");
    assert_eq!(records[1].kind, "native_warning");
    assert_eq!(records[1].message, "texture missing");
    assert!(records.iter().all(|r| r.client_version == session.client_version && r.upload == session.upload));
    assert!(!records.iter().any(|r| r.message.contains("chat")));
    assert_eq!(seen.len(), 2);
    drop(records);
    session.timestamp += 100;
    let scan = collect(log, 0, &session, modified, &mut Vec::new(), &journal);
    assert!(scan.appended.is_empty());
    assert_eq!(journal.borrow().len(), 2, "Never attribute a stale native log to a later launch");
}

#[test]
fn a_long_native_log_keeps_its_recent_errors_without_reading_the_entire_file() {
    let mut session = record();
    session.id = format!("{}-start", session_from_seed("long"));
    session.timestamp = now();
    let content = format!("{}\nERROR: recent failure\n", "INFO: old\n".repeat(MAX_FILE_BYTES as usize));
    let bytes = content.into_bytes();
    let start = bytes.len() as u64 - MAX_FILE_BYTES;
    let tail = &bytes[start as usize..];
    let journal = RefCell::new(Vec::new());
    collect(tail, start, &session, session.timestamp, &mut Vec::new(), &journal);
    assert_eq!(journal.borrow().len(), 1);
    assert_eq!(journal.borrow()[0].message, "recent failure");
}

fn reply(success: bool, rate_limit_header: Option<&str>, retry_after: Option<&str>) -> Reply {
    Reply {
        success,
        rate_limits: rate_limit_header
            .map(|h| error_limit_windows(h).iter().map(|w| w.parse::<f64>().unwrap().ceil() as u64).collect())
            .unwrap_or_default(),
        retry_after: retry_after.map(str::to_owned),
    }
}

fn new_state() -> DeliveryState {
    DeliveryState { sent: Vec::new(), retry_at: 0, hour: 0, sent_this_hour: 0 }
}

#[test]
fn sentry_quota_headers_pause_even_successful_delivery_and_hourly_limits_keep_backlog_local() {
    let mut state = new_state();
    let posts = Cell::new(0);
    let records = vec![record()];
    state.flush(1000, &records, "x", |_, _| {
        posts.set(posts.get() + 1);
        Some(reply(true, Some("90:error:organization:quota"), None))
    }, |_| true);
    assert_eq!(posts.get(), 1);
    assert_eq!(state.retry_at, 1090);
    assert_eq!(state.sent.len(), 1);
    let mut another = record();
    another.id = "session-2".into();
    let records = vec![record(), another];
    state.sent_this_hour = MAX_HOURLY_EVENTS;
    let made = state.flush(1100, &records, "x", |_, _| {
        posts.set(posts.get() + 1);
        None
    }, |_| true);
    assert_eq!(made.len(), 0);
    assert_eq!(posts.get(), 1);
    assert_eq!(state.sent.len(), 1);
    assert_eq!(state.retry_at, 1090, "The per-hour cap must prevent a network attempt");
}

#[test]
fn successful_delivery_is_persisted_and_failed_delivery_retries_after_backoff() {
    let mut state = new_state();
    let records = vec![record()];
    state.flush(1000, &records, "x", |_, _| Some(reply(false, None, Some("120"))), |_| true);
    assert!(state.sent.is_empty());
    assert!(state.retry_at >= 1120);
    let release = RefCell::new(String::new());
    let saved = RefCell::new(Vec::new());
    state.flush(1120, &records, "x", |_, e| {
        *release.borrow_mut() = e.release.clone();
        Some(reply(true, None, None))
    }, |s| {
        *saved.borrow_mut() = s.sent.clone();
        true
    });
    assert_eq!(*release.borrow(), "rivals-beyond-client@test-1");
    assert_eq!(state.sent.len(), 1);
    let mut reloaded = DeliveryState { sent: retained_ids(saved.borrow().clone()), retry_at: 0, hour: 0, sent_this_hour: 0 };
    assert_eq!(reloaded.sent.len(), 1);
    let posts = Cell::new(0);
    reloaded.flush(2000, &records, "x", |_, _| {
        posts.set(posts.get() + 1);
        None
    }, |_| true);
    assert_eq!(posts.get(), 0);
    assert_eq!(reloaded.retry_at, 0, "Already delivered events must not be posted again");
}

#[test]
fn opted_out_records_are_never_uploaded_after_opt_in() {
    let mut state = new_state();
    let mut r = record();
    r.upload = false;
    let posts = Cell::new(0);
    state.flush(1000, &vec![r], "x", |_, _| {
        posts.set(posts.get() + 1);
        None
    }, |_| true);
    assert_eq!(posts.get(), 0);
    assert!(state.sent.is_empty());
    assert_eq!(state.retry_at, 0);
}

#[test]
fn a_flush_posts_at_most_a_batch_and_stops_at_the_first_failure() {
    let mut records = Vec::new();
    for i in 0..6 {
        let mut r = record();
        r.id = format!("session-{i}");
        records.push(r);
    }
    let mut state = new_state();
    assert_eq!(state.flush(10, &records, "x", |_, _| Some(reply(true, None, None)), |_| true).len(), 4);
    assert_eq!(state.sent.len(), 4);
    assert_eq!(state.flush(11, &records, "x", |_, _| None, |_| true).len(), 1);
    assert_eq!(state.retry_at, 71);
    let mut late = new_state();
    late.sent_this_hour = MAX_HOURLY_EVENTS - 1;
    assert_eq!(late.flush(20, &records, "x", |_, _| Some(reply(true, None, None)), |_| true).len(), 1);
    let mut unsaved = new_state();
    assert_eq!(unsaved.flush(20, &records, "x", |_, _| Some(reply(true, None, None)), |_| false).len(), 1);
}

#[test]
fn a_failed_post_is_saved_with_its_back_off() {
    let mut state = new_state();
    let records = vec![record()];
    let saved = RefCell::new(Vec::new());
    let log = state.flush(1000, &records, "x", |_, _| Some(reply(false, None, Some("120"))), |s| {
        saved.borrow_mut().push((s.retry_at, s.sent.len()));
        true
    });
    assert_eq!(log.len(), 1);
    assert_eq!(log[0].index, 0);
    assert!(log[0].saved);
    assert!(!log[0].reply.as_ref().unwrap().success);
    assert_eq!(*saved.borrow(), vec![(1120, 0)]);
    assert_eq!(state.retry_at, 1120);
}

#[test]
fn a_flush_posts_the_newest_records_first_and_skips_delivered_ones() {
    let mut records = Vec::new();
    for i in 0..3 {
        let mut r = record();
        r.id = format!("session-{i}");
        records.push(r);
    }
    records[1].upload = false;
    let mut state = new_state();
    let order = RefCell::new(Vec::new());
    let log = state.flush(50, &records, "x", |r, _| {
        order.borrow_mut().push(r.id.clone());
        Some(reply(true, None, None))
    }, |_| true);
    let indices: Vec<usize> = log.iter().map(|p| p.index).collect();
    assert_eq!(indices, vec![2, 0]);
    assert_eq!(*order.borrow(), vec!["session-2".to_string(), "session-0".to_string()]);
    assert_eq!(state.sent_this_hour, 2);
    assert_eq!(state.retry_at, 0);
    let again = state.flush(60, &records, "x", |_, _| Some(reply(true, None, None)), |_| true);
    assert!(again.is_empty());
    assert_eq!(state.sent.len(), 2);
}

#[test]
fn a_flush_in_a_new_hour_restarts_the_hourly_count() {
    let mut state = new_state();
    state.sent_this_hour = MAX_HOURLY_EVENTS;
    let records = vec![record()];
    let log = state.flush(7200, &records, "x", |_, _| Some(reply(true, None, None)), |_| true);
    assert_eq!(log.len(), 1);
    assert_eq!(state.hour, 2);
    assert_eq!(state.sent_this_hour, 1);
}

#[test]
fn native_reports_stop_at_a_launch_id_without_a_prefix() {
    let mut session = record();
    session.id = "short".into();
    session.timestamp = 10;
    let journal = RefCell::new(Vec::new());
    let mut seen = Vec::new();
    let scan = collect(b"INFO: fine\nERROR: broken\n", 0, &session, 10, &mut seen, &journal);
    assert!(scan.session_id_unfit);
    assert!(scan.appended.is_empty());
    assert!(journal.borrow().is_empty());
    assert!(seen.is_empty());
    let quiet = collect(b"INFO: fine\n", 0, &session, 10, &mut seen, &journal);
    assert!(!quiet.session_id_unfit);
}

#[test]
fn native_reports_stop_once_enough_are_remembered() {
    let mut session = record();
    session.id = format!("{}-start", session_from_seed("cap"));
    session.timestamp = 10;
    let journal = RefCell::new(Vec::new());
    let mut seen: Vec<String> = (0..MAX_NATIVE_REPORTS).map(|i| format!("{i}")).collect();
    let scan = collect(b"ERROR: broken\n", 0, &session, 10, &mut seen, &journal);
    assert!(scan.appended.is_empty());
    assert_eq!(seen.len(), MAX_NATIVE_REPORTS);
    let mut fresh = Vec::new();
    let text: String = (0..30).map(|i| format!("WARN: problem {i}\n")).collect();
    let scan = collect(text.as_bytes(), 0, &session, 10, &mut fresh, &journal);
    assert_eq!(scan.appended.len(), MAX_NATIVE_REPORTS);
    assert_eq!(fresh.len(), MAX_NATIVE_REPORTS);
    assert_eq!(scan.appended[3].line, 3);
    assert_eq!(scan.appended[3].record.message, "problem 3");
}

#[test]
fn native_reports_not_written_are_tried_again() {
    let mut session = record();
    session.id = format!("{}-start", session_from_seed("retry"));
    session.timestamp = 10;
    let lines = native_log_lines(b"ERROR: disk full\n".to_vec(), 0);
    let mut seen = Vec::new();
    let scan = collect_native_reports(&lines, &session, 10, &mut seen, |_| false);
    assert_eq!(scan.appended.len(), 1);
    assert!(!scan.appended[0].written);
    assert!(seen.is_empty());
    let scan = collect_native_reports(&lines, &session, 10, &mut seen, |_| true);
    assert_eq!(scan.appended.len(), 1);
    assert_eq!(seen.len(), 1);
}
