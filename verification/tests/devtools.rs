use beacon_core::devtools::{
    captured_body_bytes, clear_logs, env_level, clear_requests, evict_bodies_over_budget, format_body, format_bytes, format_duration,
    level_from_env, log_len, log_snapshot, record, record_resource, requests, FailureKind, Initiator, LogBuffer,
    LogLevel, LogLevelFilter, NetRequest, Phase, RequestLog, RequestState, ResourceEvent, ResourceKind,
    BODY_BUDGET, CAPACITY, REQUEST_CAPACITY,
};
use beacon_core::tab::TabId;

#[test]
fn durations_pick_a_readable_unit() {
    assert_eq!(format_duration(0), "0µs");
    assert_eq!(format_duration(999), "999µs");
    assert_eq!(format_duration(1_000), "1.0ms");
    assert_eq!(format_duration(1_000), "1.0ms");
    assert_eq!(format_duration(4_466_000), "4.47s");
}

#[test]
fn the_buffer_keeps_the_newest_lines() {
    let mut logs = LogBuffer::new();
    clear_logs(&mut logs);
    for i in 0..10 {
        record(&mut logs, LogLevel::Info, "test", &format!("line {i}"), i);
    }
    let snapshot = log_snapshot(&logs, 3);
    assert_eq!(snapshot.len(), 3);
    // Oldest first within the window, so a pane can append rather than prepend.
    assert_eq!(snapshot[0].message, "line 7");
    assert_eq!(snapshot[2].message, "line 9");
    clear_logs(&mut logs);
}

/// Build `count` rows each carrying `size` bytes of body, as the fold would.
fn rows_with_bodies(count: usize, size: usize) -> Vec<NetRequest> {
    (0..count)
        .map(|i| NetRequest {
            id: uuid::Uuid::new_v4().as_u128(),
            tab: None,
            url: format!("https://example.test/{i}"),
            kind: "image".into(),
            initiator: "parser".into(),
            state: RequestState::Finished,
            status: Some(200),
            content_type: None,
            content_length: None,
            received_bytes: size as u64,
            elapsed_us: None,
            dns_us: None,
            connect_us: None,
            headers_ms: None,
            error: None,
            failure: None,
            method: None,
            request_headers: Vec::new(),
            headers: Vec::new(),
            body: Some(vec![0u8; size]),
            body_truncated: false,
            body_evicted: false,
            redirects: Vec::new(),
            started_ms: i as u64,
        })
        .collect()
}

#[test]
fn bodies_inside_the_budget_are_left_alone() {
    let mut rows = rows_with_bodies(4, 1024);
    evict_bodies_over_budget(&mut rows);
    assert!(rows.iter().all(|r| r.body.is_some()));
    assert!(rows.iter().all(|r| !r.body_evicted));
}

#[test]
fn going_over_the_budget_drops_the_oldest_bodies_first() {
    // Three over: the budget divides evenly, so the arithmetic is not the thing on trial.
    let size = BODY_BUDGET / 4;
    let mut rows = rows_with_bodies(7, size);
    evict_bodies_over_budget(&mut rows);

    let held: usize = rows.iter().filter_map(|r| r.body.as_ref().map(Vec::len)).sum();
    assert!(held <= BODY_BUDGET, "back under the budget ({held} bytes)");

    // The survivors are the newest, and the evicted ones say so.
    let evicted: Vec<usize> = rows.iter().enumerate().filter(|(_, r)| r.body.is_none()).map(|(i, _)| i).collect();
    assert_eq!(evicted, vec![0, 1, 2], "oldest first");
    assert!(rows[..3].iter().all(|r| r.body_evicted));
    assert!(rows[3..].iter().all(|r| !r.body_evicted));
}

#[test]
fn eviction_keeps_the_rows_it_empties() {
    let mut rows = rows_with_bodies(6, BODY_BUDGET / 2);
    let before = rows.len();
    evict_bodies_over_budget(&mut rows);
    assert_eq!(rows.len(), before, "a request stays in the list without its body");
}

#[test]
fn asking_for_more_than_there_is_yields_what_there_is() {
    let mut logs = LogBuffer::new();
    clear_logs(&mut logs);
    record(&mut logs, LogLevel::Warn, "test", "only one", 0);
    assert_eq!(log_snapshot(&logs, 1000).len(), 1);
    assert_eq!(log_len(&logs), 1);
    clear_logs(&mut logs);
    assert!(log_snapshot(&logs, 10).is_empty());
}

/// A row in flight, with whatever the network has reported about it so far.
fn in_flight(dns_us: Option<u64>, connect_us: Option<u64>, headers_ms: Option<u64>) -> NetRequest {
    let mut row = rows_with_bodies(1, 0).remove(0);
    row.state = RequestState::Running;
    row.dns_us = dns_us;
    row.connect_us = connect_us;
    row.headers_ms = headers_ms;
    row
}

#[test]
fn a_request_is_placed_by_the_last_thing_that_reported() {
    assert_eq!(in_flight(None, None, None).phase(), Phase::Opening);
    assert_eq!(in_flight(Some(900), None, None).phase(), Phase::Connecting);
    assert_eq!(in_flight(Some(900), Some(4_000), None).phase(), Phase::Waiting);
    assert_eq!(in_flight(Some(900), Some(4_000), Some(12)).phase(), Phase::Receiving);
}

/// Both have been running for ages, and they are different problems.
#[test]
fn a_silent_server_and_a_stalled_transfer_do_not_look_alike() {
    assert_ne!(
        in_flight(Some(900), Some(4_000), None).phase(),
        in_flight(Some(900), Some(4_000), Some(12)).phase()
    );
}

/// A pooled connection reports no setup at all, which looks exactly like a name that
/// has not resolved yet. Neither is claimed: both are "opening".
#[test]
fn a_reused_connection_is_not_mistaken_for_a_stalled_lookup() {
    assert_eq!(in_flight(None, None, None).phase(), Phase::Opening);
}

#[test]
fn a_finished_request_is_in_no_phase() {
    let mut row = in_flight(Some(900), Some(4_000), Some(12));
    row.state = RequestState::Finished;
    assert_eq!(row.phase(), Phase::Done);
}

#[test]
fn a_failure_the_engine_did_not_classify_gets_no_label() {
    let mut row = in_flight(None, None, None);
    row.state = RequestState::Failed;
    assert_eq!(row.failure_label(), None);

    row.failure = Some(FailureKind::Tls);
    assert_eq!(row.failure_label(), Some("TLS"));
    assert!(row.failure_hint().is_some());
}

// Own tests.

#[test]
fn a_full_buffer_drops_its_oldest_quarter() {
    let mut logs = LogBuffer::new();
    for i in 0..CAPACITY as u64 {
        record(&mut logs, LogLevel::Debug, "t", &format!("{i}"), i);
    }
    assert_eq!(log_len(&logs), CAPACITY);
    record(&mut logs, LogLevel::Error, "t", "newest", 0);
    assert_eq!(log_len(&logs), CAPACITY - CAPACITY / 4 + 1);
    let all = log_snapshot(&logs, CAPACITY);
    assert_eq!(all[0].message, format!("{}", CAPACITY / 4));
    assert_eq!(all.last().unwrap().message, "newest");
    assert_eq!(all.last().unwrap().level, LogLevel::Error);
}

#[test]
fn an_unset_log_level_means_warnings() {
    assert_eq!(level_from_env(None), LogLevelFilter::Warn);
    assert_eq!(level_from_env(Some(LogLevelFilter::Trace)), LogLevelFilter::Trace);
}

#[test]
fn labels_name_states_and_phases() {
    assert_eq!(RequestState::Running.label(), "loading");
    assert_eq!(RequestState::Finished.label(), "done");
    assert_eq!(Phase::Waiting.label(), "waiting");
    assert_eq!(Phase::Done.hint(), "not in flight");
}

#[test]
fn byte_counts_pick_a_readable_unit() {
    assert_eq!(format_bytes(0), "0 B");
    assert_eq!(format_bytes(1023), "1023 B");
    assert_eq!(format_bytes(1024), "1.0 kB");
    assert_eq!(format_bytes(1280), "1.2 kB");
    assert_eq!(format_bytes(1536), "1.5 kB");
    assert_eq!(format_bytes(1048575), "1024.0 kB");
    assert_eq!(format_bytes(1048576), "1.0 MB");
    assert_eq!(format_bytes(16 * 1024 * 1024), "16.0 MB");
    assert_eq!(format_bytes(u64::MAX), "17592186044416.0 MB");
}

/// The integer formatting agrees with Rust formatting the same value as a float.
#[test]
fn byte_counts_agree_with_float_formatting() {
    fn float_formatted(bytes: u64) -> String {
        if bytes >= 1024 * 1024 {
            format!("{:.1} MB", bytes as f64 / (1024.0 * 1024.0))
        } else if bytes >= 1024 {
            format!("{:.1} kB", bytes as f64 / 1024.0)
        } else {
            format!("{bytes} B")
        }
    }
    let mut samples: Vec<u64> = (0..5000).collect();
    samples.extend((0..5000).map(|i| 1024 * 1024 - 2500 + i));
    samples.extend((0..64).map(|k| 1u64 << k));
    samples.extend((0..64).map(|k| (1u64 << k).wrapping_sub(1)));
    samples.extend((1..64).map(|k| (1u64 << k) + (1u64 << (k - 1))));
    let mut x: u64 = 0x9E37_79B9_7F4A_7C15;
    for _ in 0..20000 {
        x ^= x << 13;
        x ^= x >> 7;
        x ^= x << 17;
        samples.push(x >> (x % 60));
        samples.push(x);
    }
    for b in samples {
        assert_eq!(format_bytes(b), float_formatted(b), "for {b}");
    }
}

#[test]
fn text_bodies_read_as_text() {
    assert_eq!(format_body(b"hello", false), "hello");
    assert_eq!(
        format_body("h\u{e9}llo".as_bytes(), true),
        "h\u{e9}llo\n\n\u{2026} truncated: only the start of the body is captured.\n"
    );
    assert_eq!(format_body(b"", false), "");
}

#[test]
fn binary_bodies_are_described() {
    let body = [0xffu8, 0x00, 0x10, 0xab];
    assert_eq!(
        format_body(&body, false),
        "Not valid UTF-8 -- binary, or text cut mid-character by the preview window.\n\n                 4 B captured\n\nFirst bytes:\nff 00 10 ab\n"
    );
    assert!(!format_body(&body, false).contains(", and the body continues"));
    let long: Vec<u8> = (0..100u8).map(|i| i | 0x80).collect();
    let text = format_body(&long, true);
    assert!(text.contains("100 B captured, and the body continues"));
    let head = text.split("First bytes:\n").nth(1).unwrap();
    assert_eq!(head.trim_end().split(' ').count(), 64);
    assert!(head.starts_with("80 81 82"));
}

#[test]
fn requests_fold_into_one_row_each() {
    let mut log = RequestLog::new();
    let tab = TabId::from_uuid(7);
    record_resource(
        &mut log,
        Some(tab),
        ResourceEvent::Started {
            request_id: 1,
            url: "https://a.test/".into(),
            kind: ResourceKind::Document,
            initiator: Initiator::Navigation,
        },
        100,
    );
    record_resource(&mut log, Some(tab), ResourceEvent::DnsResolved { request_id: 1, elapsed_us: 5 }, 101);
    record_resource(
        &mut log,
        Some(tab),
        ResourceEvent::BodyPreview { request_id: 1, url: "https://a.test/".into(), body: vec![1, 2, 3], truncated: false },
        102,
    );
    record_resource(
        &mut log,
        None,
        ResourceEvent::Finished { request_id: 1, url: "https://a.test/".into(), received_bytes: 3, elapsed_us: Some(9) },
        103,
    );
    let rows = requests(&log, Some(tab));
    assert_eq!(rows.len(), 1);
    assert_eq!(rows[0].state, RequestState::Finished);
    assert_eq!(rows[0].kind, "document");
    assert_eq!(rows[0].initiator, "navigation");
    assert_eq!(rows[0].dns_us, Some(5));
    assert_eq!(rows[0].started_ms, 100);
    assert_eq!(rows[0].phase(), Phase::Done);
    assert_eq!(captured_body_bytes(&log), 3);
    assert!(requests(&log, Some(TabId::from_uuid(8))).is_empty());
    clear_requests(&mut log);
    assert!(requests(&log, None).is_empty());
}

#[test]
fn the_requested_level_comes_from_the_first_variable_that_parses() {
    assert_eq!(env_level(Some("DeBuG"), None), Some(LogLevelFilter::Debug));
    assert_eq!(env_level(None, Some("trace")), Some(LogLevelFilter::Trace));
    assert_eq!(env_level(Some("off"), Some("trace")), Some(LogLevelFilter::Off));
    // A set but unreadable BEACON_LOG gives way to RUST_LOG.
    assert_eq!(env_level(Some("loud"), Some("trace")), Some(LogLevelFilter::Trace));
    assert_eq!(env_level(Some("verbose-please"), Some("info")), Some(LogLevelFilter::Info));
    assert_eq!(env_level(Some("loud"), Some("louder")), None);
    assert_eq!(env_level(None, None), None);
    assert_eq!(env_level(Some("warning"), None), None);
}

/// The integer formatting of durations agrees with Rust formatting the float.
#[test]
fn durations_agree_with_float_formatting() {
    fn float_formatted(microseconds: u64) -> String {
        if microseconds >= 1_000_000 {
            format!("{:.2}s", microseconds as f64 / 1_000_000.0)
        } else if microseconds >= 1_000 {
            format!("{:.1}ms", microseconds as f64 / 1_000.0)
        } else {
            format!("{microseconds}µs")
        }
    }
    let mut samples: Vec<u64> = (0..1_000_000).step_by(7).collect();
    samples.extend(1_000..3_000);
    samples.extend((0..20_000).map(|i| 1_000_000 + i * 5));
    samples.extend((0..64).map(|k| 1u64 << k));
    samples.extend((1..64).map(|k| (1u64 << k) - 1));
    samples.extend([u64::MAX, u64::MAX - 1, 9_007_199_254_740_993, 1_005_000, 1_015_000, 1_250, 1_150, 1_050]);
    let mut x: u64 = 0x2545_F491_4F6C_DD1D;
    for _ in 0..50_000 {
        x ^= x << 13;
        x ^= x >> 7;
        x ^= x << 17;
        samples.push(x >> (x % 64));
    }
    for m in samples {
        assert_eq!(format_duration(m), float_formatted(m), "for {m}");
    }
}

#[test]
fn the_request_list_drops_its_oldest_quarter_when_full() {
    let mut log = RequestLog::new();
    for i in 0..=REQUEST_CAPACITY as u128 {
        record_resource(&mut log, None, ResourceEvent::Progress { request_id: i, received_bytes: 1 }, 0);
    }
    let rows = requests(&log, None);
    assert_eq!(rows.len(), REQUEST_CAPACITY - REQUEST_CAPACITY / 4 + 1);
    assert_eq!(rows[0].id, (REQUEST_CAPACITY / 4) as u128);
    assert_eq!(rows.last().unwrap().id, REQUEST_CAPACITY as u128);
    assert_eq!(rows.last().unwrap().received_bytes, 1);
}

#[test]
fn eviction_drops_only_as_many_bodies_as_it_must() {
    // Five quarters of the budget, one byte over: the oldest body alone has to go, and a
    // row without a body in front of it is left as it was.
    let mut rows = rows_with_bodies(6, BODY_BUDGET / 4);
    rows[0].body = None;
    rows[5].body = Some(vec![0u8; 1]);
    evict_bodies_over_budget(&mut rows);
    assert!(!rows[0].body_evicted);
    assert!(rows[1].body.is_none() && rows[1].body_evicted);
    assert!(rows[2..].iter().all(|r| r.body.is_some() && !r.body_evicted));
}

#[test]
fn every_request_keeps_exactly_one_row() {
    let mut log = RequestLog::new();
    for round in 0..3u128 {
        for id in 0..=REQUEST_CAPACITY as u128 {
            record_resource(
                &mut log,
                None,
                ResourceEvent::Started {
                    request_id: id * (round + 1) % (REQUEST_CAPACITY as u128 + 7),
                    url: format!("https://a.test/{id}"),
                    kind: ResourceKind::Image,
                    initiator: Initiator::Parser,
                },
                id as u64,
            );
        }
    }
    let rows = requests(&log, None);
    assert!(rows.len() <= REQUEST_CAPACITY);
    let mut ids: Vec<u128> = rows.iter().map(|r| r.id).collect();
    ids.sort();
    ids.dedup();
    assert_eq!(ids.len(), rows.len());
}
