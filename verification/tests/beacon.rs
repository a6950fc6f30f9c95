use std::cell::RefCell;

use beacon_core::beacon::{Beacon, CursorShape, EngineCommand, EngineEvent, NavigationEvent};
use beacon_core::command::BeaconCommand;
use beacon_core::download::DownloadState;
use beacon_core::event::{BeaconEvent, Cursor, LoadFraction};
use beacon_core::platform::{NullPlatform, Platform};
use beacon_core::tab::{EngineTabId, GosubTab, GosubTabManager, HistoryEntry, HistoryEntryId, HistorySnapshot, TabId};
use url::Url;

/// A Beacon with one tab, bound to an engine tab and active.
fn beacon_with_tab() -> (Beacon<NullPlatform>, TabId, EngineTabId) {
    let mut manager = GosubTabManager::new();
    let tab = GosubTab::new(Url::parse("https://example.com/").unwrap().into(), "Example");
    let tab_id = tab.id();
    manager.add_tab(tab, None);
    manager.set_active(tab_id);
    let mut beacon = Beacon::new(manager, NullPlatform);
    let engine_id = EngineTabId::new();
    beacon.bind_engine_tab(engine_id, tab_id);
    (beacon, tab_id, engine_id)
}

fn nav(tab_id: EngineTabId, event: NavigationEvent) -> EngineEvent {
    EngineEvent::Navigation { tab_id, event }
}

/// The fraction a progress bar shows for a reported load state.
fn bar(fraction: LoadFraction) -> f64 {
    match fraction {
        LoadFraction::Started => 0.05,
        LoadFraction::Bytes { received, expected } => (received as f64 / expected as f64).clamp(0.05, 0.98),
        LoadFraction::Unknown => 0.5,
    }
}

#[test]
fn events_for_an_unknown_engine_tab_are_dropped() {
    let (mut beacon, _, _) = beacon_with_tab();
    let stranger = EngineTabId::new();
    let out = beacon.on_engine_event(EngineEvent::TitleChanged {
        tab_id: stranger,
        title: "nope".into(),
    });
    assert!(out.is_empty());
}

#[test]
fn a_title_change_reaches_the_tab_and_the_strip() {
    let (mut beacon, tab_id, engine_id) = beacon_with_tab();
    let out = beacon.on_engine_event(EngineEvent::TitleChanged {
        tab_id: engine_id,
        title: "Hello".into(),
    });
    assert!(out.contains(&BeaconEvent::TitleChanged(tab_id, "Hello".into())));
    assert!(out.contains(&BeaconEvent::TabsChanged));
    let title = beacon.tabs().get_tab(tab_id).unwrap().title().to_string();
    assert_eq!(title, "Hello");
}

#[test]
fn progress_with_a_known_length_reports_that_fraction() {
    let (mut beacon, tab_id, engine_id) = beacon_with_tab();
    let out = beacon.on_engine_event(nav(
        engine_id,
        NavigationEvent::Progress {
            received_bytes: 500,
            expected_length: Some(1000),
        },
    ));
    assert_eq!(out, vec![BeaconEvent::LoadProgress(tab_id, Some(LoadFraction::Bytes { received: 500, expected: 1000 }))]);
    assert_eq!(bar(LoadFraction::Bytes { received: 500, expected: 1000 }), 0.5);
}

#[test]
fn progress_without_a_length_parks_midway_rather_than_reporting_nothing() {
    let (mut beacon, tab_id, engine_id) = beacon_with_tab();
    let out = beacon.on_engine_event(nav(
        engine_id,
        NavigationEvent::Progress {
            received_bytes: 500,
            expected_length: None,
        },
    ));
    assert_eq!(out, vec![BeaconEvent::LoadProgress(tab_id, Some(LoadFraction::Unknown))]);
    assert_eq!(bar(LoadFraction::Unknown), 0.5);
}

#[test]
fn a_zero_length_response_does_not_divide_by_zero() {
    let (mut beacon, tab_id, engine_id) = beacon_with_tab();
    let out = beacon.on_engine_event(nav(
        engine_id,
        NavigationEvent::Progress {
            received_bytes: 0,
            expected_length: Some(0),
        },
    ));
    assert_eq!(out, vec![BeaconEvent::LoadProgress(tab_id, Some(LoadFraction::Unknown))]);
    assert_eq!(bar(LoadFraction::Unknown), 0.5);
}

#[test]
fn progress_for_a_background_tab_is_not_reported() {
    let (mut beacon, _, engine_id) = beacon_with_tab();
    // A second tab takes over as active, so the first is now in the background.
    let other = GosubTab::new(Url::parse("https://other.example/").unwrap().into(), "Other");
    let other_id = other.id();
    {
        let m = beacon.tabs_mut();
        m.add_tab(other, None);
        m.set_active(other_id);
    }
    let out = beacon.on_engine_event(nav(
        engine_id,
        NavigationEvent::Progress {
            received_bytes: 1,
            expected_length: Some(2),
        },
    ));
    assert!(out.is_empty(), "a background tab must not move the address bar: {out:?}");
}

#[test]
fn finishing_a_load_clears_progress_and_stops_the_spinner() {
    let (mut beacon, tab_id, engine_id) = beacon_with_tab();
    beacon.tabs().get_tab(tab_id).unwrap();
    let url: String = Url::parse("https://example.com/page").unwrap().into();
    let out = beacon.on_engine_event(nav(engine_id, NavigationEvent::Finished { url: url.clone() }));
    assert!(out.contains(&BeaconEvent::LoadProgress(tab_id, None)));
    assert!(out.contains(&BeaconEvent::UrlChanged(tab_id, url)));
    assert!(out.contains(&BeaconEvent::LoadingChanged(tab_id, false)));
    assert!(!beacon.tabs().get_tab(tab_id).unwrap().is_loading());
}

#[test]
fn a_favicon_lands_on_the_tab_as_bytes() {
    let (mut beacon, tab_id, engine_id) = beacon_with_tab();
    let out = beacon.on_engine_event(EngineEvent::FavIconChanged {
        tab_id: engine_id,
        favicon: vec![1, 2, 3],
    });
    assert!(out.contains(&BeaconEvent::FaviconChanged(tab_id)));
    let tabs = beacon.tabs();
    assert_eq!(tabs.get_tab(tab_id).unwrap().favicon(), Some(&[1u8, 2, 3][..]));
}

#[test]
fn a_crash_marks_the_tab_and_forgets_its_engine_id() {
    let (mut beacon, tab_id, engine_id) = beacon_with_tab();
    let out = beacon.on_engine_event(EngineEvent::TabCrashed {
        tab_id: engine_id,
        error: "boom".into(),
    });
    assert!(out.contains(&BeaconEvent::TabCrashed(tab_id, "boom".into())));
    assert!(beacon.tab_for_engine(engine_id).is_none());
    let tabs = beacon.tabs();
    assert_eq!(tabs.get_tab(tab_id).unwrap().crashed(), Some("boom"));
}

#[test]
fn a_crashed_tabs_later_events_are_dropped_rather_than_misrouted() {
    let (mut beacon, _, engine_id) = beacon_with_tab();
    beacon.on_engine_event(EngineEvent::TabCrashed {
        tab_id: engine_id,
        error: "boom".into(),
    });
    let out = beacon.on_engine_event(EngineEvent::TitleChanged {
        tab_id: engine_id,
        title: "ghost".into(),
    });
    assert!(out.is_empty());
}

#[test]
fn hover_is_reported_for_the_active_tab() {
    let (mut beacon, tab_id, engine_id) = beacon_with_tab();
    let out = beacon.on_engine_event(EngineEvent::HoverUrl {
        tab_id: engine_id,
        url: Some("https://link.example/".into()),
    });
    assert_eq!(out, vec![BeaconEvent::HoverUrl(tab_id, Some("https://link.example/".into()))]);
}

#[test]
fn a_cursor_shape_crosses_the_seam_without_a_toolkit_name() {
    let (mut beacon, tab_id, engine_id) = beacon_with_tab();
    let out = beacon.on_engine_event(EngineEvent::CursorChanged {
        tab_id: engine_id,
        cursor: CursorShape::Pointer,
    });
    assert_eq!(out, vec![BeaconEvent::CursorChanged(tab_id, Cursor::Pointer)]);
}

#[test]
fn pinning_a_tab_goes_through_the_manager_and_redraws_the_strip() {
    let (mut beacon, tab_id, _) = beacon_with_tab();
    let out = beacon.apply(BeaconCommand::PinTab(tab_id));
    assert_eq!(out, vec![BeaconEvent::TabsChanged]);
    assert!(beacon.tabs().get_tab(tab_id).unwrap().is_pinned());

    let out = beacon.apply(BeaconCommand::UnpinTab(tab_id));
    assert_eq!(out, vec![BeaconEvent::TabsChanged]);
    assert!(!beacon.tabs().get_tab(tab_id).unwrap().is_pinned());
}

#[test]
fn a_navigation_command_with_no_active_tab_does_nothing() {
    let manager = GosubTabManager::new();
    let mut beacon = Beacon::new(manager, NullPlatform);
    assert!(beacon.apply(BeaconCommand::Back).is_empty());
    assert!(beacon.apply(BeaconCommand::Reload { ignore_cache: false }).is_empty());
}

#[test]
fn a_tab_without_an_engine_handle_reports_rather_than_pretending_to_navigate() {
    // The tab in this fixture was never given an engine tab, which is the state a tab is
    // in between being created and the engine catching up.
    let (mut beacon, tab_id, _) = beacon_with_tab();
    let out = beacon.apply(BeaconCommand::Back);
    assert!(matches!(out.as_slice(), [BeaconEvent::Log(_)]), "expected a log line, got {out:?}");
    // ...and it must not be left looking like a load is under way.
    assert!(!beacon.tabs().get_tab(tab_id).unwrap().is_loading());
}

// Own tests.

/// A Beacon whose active tab has an engine tab attached.
fn beacon_with_attached_tab() -> (Beacon<NullPlatform>, TabId, EngineTabId) {
    let mut manager = GosubTabManager::new();
    let engine_id = EngineTabId::new();
    let mut tab = GosubTab::new("https://example.com/".into(), "Example");
    tab.set_tab_handle(engine_id);
    let tab_id = tab.id();
    manager.add_tab(tab, None);
    manager.set_active(tab_id);
    let mut beacon = Beacon::new(manager, NullPlatform);
    beacon.bind_engine_tab(engine_id, tab_id);
    (beacon, tab_id, engine_id)
}

#[test]
fn navigation_gestures_queue_the_engine_command_and_start_the_spinner() {
    let (mut beacon, tab_id, engine_id) = beacon_with_attached_tab();
    let out = beacon.apply(BeaconCommand::Back);
    assert_eq!(out, vec![BeaconEvent::LoadingChanged(tab_id, true), BeaconEvent::TabsChanged]);
    assert!(beacon.tabs().get_tab(tab_id).unwrap().is_loading());
    beacon.apply(BeaconCommand::GoToHistoryEntry(HistoryEntryId(3)));
    beacon.apply(BeaconCommand::Reload { ignore_cache: true });
    beacon.apply(BeaconCommand::Stop);
    assert_eq!(
        beacon.take_engine_commands(),
        vec![
            (engine_id, EngineCommand::GoBack),
            (engine_id, EngineCommand::GoForward { entry: Some(HistoryEntryId(3)) }),
            (engine_id, EngineCommand::Reload { ignore_cache: true }),
            (engine_id, EngineCommand::CancelNavigation),
        ]
    );
    assert!(beacon.take_engine_commands().is_empty());
}

#[test]
fn a_history_change_moves_the_address_and_the_back_state() {
    let (mut beacon, tab_id, engine_id) = beacon_with_tab();
    let history = HistorySnapshot {
        entries: vec![
            HistoryEntry { id: HistoryEntryId(0), url: "https://a.test/".into() },
            HistoryEntry { id: HistoryEntryId(1), url: "https://b.test/".into() },
        ],
        current: Some(HistoryEntryId(0)),
        can_go_back: false,
        forward: vec![HistoryEntry { id: HistoryEntryId(1), url: "https://b.test/".into() }],
    };
    let out = beacon.on_engine_event(nav(engine_id, NavigationEvent::HistoryChanged { history }));
    assert_eq!(out, vec![BeaconEvent::UrlChanged(tab_id, "https://a.test/".into()), BeaconEvent::NavStateChanged(tab_id)]);
    let tab = beacon.tabs().get_tab(tab_id).unwrap();
    assert_eq!(tab.url(), "https://a.test/");
    assert!(!tab.history().can_go_back());
    assert!(tab.history().can_go_forward());
}

#[test]
fn download_events_update_the_list_and_log() {
    let (mut beacon, tab_id, engine_id) = beacon_with_tab();
    let out = beacon.on_engine_event(EngineEvent::DownloadRequested {
        tab_id: engine_id,
        url: "https://a.test/f.zip".into(),
        suggested_filename: "f.zip".into(),
        total_bytes: Some(10),
    });
    assert_eq!(
        out,
        vec![
            BeaconEvent::Log("Download offered: f.zip (10 bytes)".into()),
            BeaconEvent::DownloadOffered {
                tab_id,
                url: "https://a.test/f.zip".into(),
                suggested_filename: "f.zip".into(),
                total_bytes: Some(10),
            },
        ]
    );
    let id = beacon.downloads_mut().next_id();
    beacon.downloads_mut().start(id, "f.zip".into(), "/tmp/f.zip".into());
    let out = beacon.on_engine_event(EngineEvent::DownloadProgress { id, received_bytes: 4, total_bytes: Some(10) });
    assert_eq!(out, vec![BeaconEvent::DownloadChanged(id)]);
    assert_eq!(beacon.downloads().get(id).unwrap().progress(), Some((4, 10)));
    let out = beacon.on_engine_event(EngineEvent::DownloadFinished { id, path: "/tmp/f.zip".into(), received_bytes: 10 });
    assert_eq!(
        out,
        vec![BeaconEvent::Log(format!("Download #{id} finished: /tmp/f.zip (10 bytes)")), BeaconEvent::DownloadChanged(id)]
    );
    assert_eq!(beacon.downloads().get(id).unwrap().state, DownloadState::Finished);
    let out = beacon.on_engine_event(EngineEvent::DownloadFailed { id: id + 1, error: "reset".into() });
    assert_eq!(out, vec![BeaconEvent::Log(format!("Download #{} FAILED: reset", id + 1)), BeaconEvent::DownloadChanged(id + 1)]);
    assert_eq!(beacon.downloads().entries().len(), 1);
}

#[test]
fn a_failed_navigation_is_reported_with_its_address() {
    let (mut beacon, tab_id, engine_id) = beacon_with_tab();
    let out = beacon.on_engine_event(nav(
        engine_id,
        NavigationEvent::Failed { url: "https://x.test/".into(), error: "refused".into() },
    ));
    assert_eq!(
        out,
        vec![
            BeaconEvent::LoadProgress(tab_id, None),
            BeaconEvent::NavigationFailed(tab_id, "https://x.test/".into(), "refused".into()),
        ]
    );
    let out = beacon.on_engine_event(nav(
        engine_id,
        NavigationEvent::FailedUrl { url: "bad url".into(), error: "no scheme".into() },
    ));
    assert_eq!(out, vec![BeaconEvent::Log("Cannot load bad url: no scheme".into())]);
    let out = beacon.on_engine_event(EngineEvent::Redraw);
    assert_eq!(out, vec![BeaconEvent::Redraw]);
}

struct RecordingPlatform {
    calls: RefCell<Vec<String>>,
}

impl Platform for RecordingPlatform {
    fn copy_text(&self, text: &str) {
        self.calls.borrow_mut().push(format!("copy {text}"));
    }

    fn open_path(&self, path: &str) {
        self.calls.borrow_mut().push(format!("open {path}"));
    }
}

#[test]
fn clipboard_and_open_requests_reach_the_platform() {
    let mut beacon = Beacon::new(GosubTabManager::new(), RecordingPlatform { calls: RefCell::new(Vec::new()) });
    assert!(beacon.apply(BeaconCommand::CopyText("hello".into())).is_empty());
    let id = beacon.downloads_mut().next_id();
    beacon.downloads_mut().start(id, "f".into(), "/tmp/f".into());
    // Not finished yet: nothing to open.
    beacon.apply(BeaconCommand::OpenDownload(id));
    assert_eq!(beacon.finished_download_path(id), None);
    beacon.downloads_mut().update(id, |mut e| {
        e.state = DownloadState::Finished;
        e
    });
    assert_eq!(beacon.finished_download_path(id), Some("/tmp/f".to_string()));
    beacon.apply(BeaconCommand::OpenDownload(id));
    assert_eq!(*beacon.platform().calls.borrow(), vec!["copy hello".to_string(), "open /tmp/f".to_string()]);
}

#[test]
fn engine_events_leave_the_strip_as_it_was() {
    let (mut beacon, tab_id, engine_id) = beacon_with_tab();
    let other = GosubTab::new("https://other.example/".into(), "Other");
    beacon.tabs_mut().add_tab(other, None);
    let before = beacon.tabs().order();
    beacon.on_engine_event(EngineEvent::TitleChanged { tab_id: engine_id, title: "t".into() });
    beacon.on_engine_event(nav(engine_id, NavigationEvent::Finished { url: "https://example.com/x".into() }));
    beacon.on_engine_event(EngineEvent::TabCrashed { tab_id: engine_id, error: "e".into() });
    assert_eq!(beacon.tabs().order(), before);
    assert_eq!(beacon.active(), Some(tab_id));
    assert!(!beacon.tabs().get_tab(tab_id).unwrap().is_pinned());
}

#[test]
fn pin_and_unpin_gestures_keep_every_tab_once() {
    let (mut beacon, tab_id, _) = beacon_with_tab();
    let other = GosubTab::new("https://other.example/".into(), "Other");
    let other_id = beacon.tabs_mut().add_tab(other, None);
    beacon.apply(BeaconCommand::PinTab(other_id));
    assert_eq!(beacon.tabs().order(), vec![other_id, tab_id]);
    assert_eq!(beacon.tabs().pinned_tab_order(), vec![other_id]);
    beacon.apply(BeaconCommand::UnpinTab(other_id));
    assert_eq!(beacon.tabs().order(), vec![other_id, tab_id]);
    assert!(beacon.tabs().pinned_tab_order().is_empty());
    assert_eq!(beacon.tabs().tab_count(), 2);
}

#[test]
fn the_last_tab_cannot_be_closed() {
    let (mut beacon, tab_id, engine_id) = beacon_with_attached_tab();
    assert!(!beacon.close_tab(tab_id));
    assert_eq!(beacon.tabs().tab_count(), 1);
    assert_eq!(beacon.tab_for_engine(engine_id), Some(tab_id));
    assert!(beacon.closed().is_empty());
    assert!(beacon.take_engine_commands().is_empty());
}

#[test]
fn closing_a_tab_remembers_it_and_tells_the_engine() {
    let (mut beacon, first, engine_id) = beacon_with_attached_tab();
    let second = beacon
        .tabs_mut()
        .add_tab(GosubTab::new(Url::parse("https://second.test/").unwrap().into(), "Second"), None);
    beacon.mru_mut().touch(second);
    beacon.mru_mut().touch(first);
    assert!(beacon.close_tab(first));
    assert_eq!(beacon.tabs().tab_count(), 1);
    assert_eq!(beacon.tabs().order(), vec![second]);
    assert_eq!(beacon.tab_for_engine(engine_id), None);
    assert_eq!(beacon.take_engine_commands(), vec![(engine_id, EngineCommand::CloseTab)]);
    assert!(!beacon.mru().contains(first));
    assert!(beacon.mru().contains(second));
    let closed = beacon.closed_mut().pop().unwrap();
    assert_eq!(closed.url, "https://example.com/");
    assert_eq!(closed.position, Some(0));
    // An unknown tab is not closed either.
    assert!(!beacon.close_tab(first));
}

#[test]
fn closing_a_tab_without_an_engine_tab_sends_nothing() {
    let (mut beacon, first, engine_id) = beacon_with_tab();
    let second = beacon
        .tabs_mut()
        .add_tab(GosubTab::new(Url::parse("https://second.test/").unwrap().into(), "Second"), None);
    assert!(beacon.close_tab(second));
    assert!(beacon.take_engine_commands().is_empty());
    assert_eq!(beacon.tab_for_engine(engine_id), Some(first));
    assert_eq!(beacon.closed_mut().pop().unwrap().position, Some(1));
}
