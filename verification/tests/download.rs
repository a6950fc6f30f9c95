use beacon_core::download::{DownloadEntry, DownloadState, Downloads};

fn downloads_with_one() -> (Downloads, u64) {
    let mut d = Downloads::new();
    let id = d.next_id();
    d.start(id, "file.zip".into(), "/tmp/file.zip".into());
    (d, id)
}

/// The share complete a frontend draws, from the verified (received, total) pair.
fn fraction(entry: &DownloadEntry) -> Option<f64> {
    entry.progress().map(|(received, total)| received as f64 / total as f64)
}

#[test]
fn ids_are_unique_and_never_zero() {
    let mut d = Downloads::new();
    let a = d.next_id();
    let b = d.next_id();
    assert_ne!(a, b);
    assert!(a > 0);
}

#[test]
fn progress_updates_the_named_entry() {
    let (mut d, id) = downloads_with_one();
    assert!(d.update(id, |mut e| {
        e.received = 512;
        e.total = Some(1024);
        e
    }));
    let entry = d.get(id).unwrap();
    assert_eq!(entry.received, 512);
    assert_eq!(entry.progress(), Some((512, 1024)));
    assert_eq!(fraction(entry), Some(0.5));
}

#[test]
fn progress_for_an_unknown_id_is_ignored_not_fatal() {
    let (mut d, id) = downloads_with_one();
    assert!(!d.update(id + 999, |mut e| {
        e.received = 1;
        e
    }));
    assert_eq!(d.get(id).unwrap().received, 0);
}

#[test]
fn a_download_of_unknown_size_has_no_fraction() {
    let (d, id) = downloads_with_one();
    assert_eq!(d.get(id).unwrap().progress(), None);
    assert_eq!(fraction(d.get(id).unwrap()), None);
}

#[test]
fn a_zero_length_download_has_no_fraction_rather_than_dividing_by_zero() {
    let (mut d, id) = downloads_with_one();
    d.update(id, |mut e| {
        e.total = Some(0);
        e
    });
    assert_eq!(d.get(id).unwrap().progress(), None);
    assert_eq!(fraction(d.get(id).unwrap()), None);
}

#[test]
fn overshooting_the_reported_total_clamps_at_one() {
    let (mut d, id) = downloads_with_one();
    d.update(id, |mut e| {
        e.total = Some(100);
        e.received = 150;
        e
    });
    assert_eq!(d.get(id).unwrap().progress(), Some((100, 100)));
    assert_eq!(fraction(d.get(id).unwrap()), Some(1.0));
}

#[test]
fn failure_is_recorded_with_its_reason() {
    let (mut d, id) = downloads_with_one();
    d.update(id, |mut e| {
        e.state = DownloadState::Failed("connection reset".into());
        e
    });
    assert_eq!(d.get(id).unwrap().state, DownloadState::Failed("connection reset".into()));
}

#[test]
fn a_started_download_is_running_with_nothing_received() {
    let (d, id) = downloads_with_one();
    let entry = d.get(id).unwrap();
    assert_eq!(entry.id, id);
    assert_eq!(entry.filename, "file.zip");
    assert_eq!(entry.path, "/tmp/file.zip");
    assert_eq!(entry.received, 0);
    assert_eq!(entry.total, None);
    assert_eq!(entry.state, DownloadState::Running);
    assert_eq!(d.entries().len(), 1);
    assert!(!d.is_empty());
}

#[test]
fn an_update_touches_only_its_entry() {
    let mut d = Downloads::new();
    let a = d.next_id();
    d.start(a, "a".into(), "/tmp/a".into());
    let b = d.next_id();
    d.start(b, "b".into(), "/tmp/b".into());
    d.update(b, |mut e| {
        e.received = 7;
        e
    });
    assert_eq!(d.get(a).unwrap().received, 0);
    assert_eq!(d.get(b).unwrap().received, 7);
    assert!(d.get(b + 1).is_none());
}
