use beacon_core::tab::{GosubTab, GosubTabManager, TabCommand, TabId};
use std::str::FromStr;
use url::Url;

fn blank(title: &str) -> GosubTab {
    GosubTab::new(Url::parse("about:blank").unwrap().into(), title)
}

#[test]
fn tab_test_tab_id() {
    let id = TabId::new();
    let id_str = id.to_string();
    let id_parsed = TabId::from_str(&id_str).unwrap();

    assert_eq!(id, id_parsed);
}

#[test]
fn tab_test_tab_manager() {
    let mut manager = GosubTabManager::new();
    let tab = blank("New tab");
    let tab_id = manager.add_tab(tab, None);

    assert_eq!(manager.tab_count(), 1);
    assert_eq!(manager.get_tab(tab_id).unwrap().url(), "about:blank");
    assert_eq!(manager.get_tab(tab_id).unwrap().title(), "New tab");

    manager.remove_tab(tab_id);
    assert_eq!(manager.tab_count(), 0);
}

#[test]
fn tab_test_tab_manager_remove() {
    let mut manager = GosubTabManager::new();
    let tab1 = blank("New tab 1");
    let tab2 = blank("New tab 2");
    let tab3 = blank("New tab 3");

    let tab1_id = manager.add_tab(tab1, None);
    let tab2_id = manager.add_tab(tab2, None);
    let tab3_id = manager.add_tab(tab3, None);

    assert_eq!(manager.tab_count(), 3);

    manager.remove_tab(tab2_id);
    assert_eq!(manager.tab_count(), 2);
    assert_eq!(manager.order(), vec![tab1_id, tab3_id]);
}

/// Closing a pinned tab must emit `TabCommand::Close` and leave the order lists consistent.
#[test]
fn tab_removing_a_pinned_tab_emits_close() {
    let mut manager = GosubTabManager::new();
    let mut pinned = blank("pinned");
    pinned.set_pinned(true);
    let plain = blank("plain");

    let pinned_id = manager.add_tab(pinned, None);
    let plain_id = manager.add_tab(plain, None);
    assert_eq!(manager.tab_count(), 2);

    let _ = manager.commands(); // drain setup commands
    manager.remove_tab(pinned_id);

    assert_eq!(manager.tab_count(), 1, "the pinned tab must be gone");
    assert!(
        manager
            .commands()
            .iter()
            .any(|c| matches!(c, TabCommand::Close(id) if *id == pinned_id)),
        "closing a pinned tab must emit TabCommand::Close so the UI tears down its chip and page"
    );
    assert_eq!(manager.order(), vec![plain_id]);
    assert!(manager.get_tab(pinned_id).is_none());
}

/// Fixture: strip order is [P1 P2 U1 U2 U3], pinned tabs first (see `order`).
fn strip() -> (GosubTabManager, Vec<TabId>) {
    let mut m = GosubTabManager::new();
    let mut ids = Vec::new();
    for (n, pinned) in [("P1", true), ("P2", true), ("U1", false), ("U2", false), ("U3", false)] {
        let mut tab = blank(n);
        tab.set_pinned(pinned);
        ids.push(m.add_tab(tab, None));
    }
    (m, ids)
}

/// The emitted `Insert` position must be a strip index, not an index into the tab's own
/// list.
#[test]
fn add_tab_emits_a_strip_index_not_a_list_index() {
    let (mut m, _ids) = strip(); // [P1 P2 U1 U2 U3]
    let _ = m.commands(); // drain setup commands

    let new = blank("new");
    let new_id = m.add_tab(new, None);

    // Appended at the end of the strip: 2 pinned + 3 unpinned => index 5.
    assert_eq!(m.order().last(), Some(&new_id), "new tab should be last in the strip");
    let pos = m.commands().iter().find_map(|c| match c {
        TabCommand::Insert(id, p) if *id == new_id => Some(*p),
        _ => None,
    });
    assert_eq!(pos, Some(5), "emitted position must be the strip index, not the unpinned index (2)");
    assert_eq!(m.order().iter().position(|id| *id == new_id), Some(5));
}

/// A caller-supplied position is a strip index too.
#[test]
fn add_tab_accepts_a_strip_index_for_its_position() {
    let (mut m, ids) = strip(); // [P1 P2 U1 U2 U3]
    let (p1, p2, u1) = (ids[0], ids[1], ids[2]);

    // Strip index 3 is "just after U1", the second unpinned slot.
    let new = blank("new");
    let new_id = m.add_tab(new, Some(3));

    assert_eq!(m.order()[0], p1);
    assert_eq!(m.order()[1], p2);
    assert_eq!(m.order()[2], u1);
    assert_eq!(m.order()[3], new_id, "should land at the requested strip position");
    assert!(!m.get_tab(new_id).unwrap().is_pinned());
}

/// A strip index pointing into the pinned run clamps to the first unpinned slot.
#[test]
fn add_tab_clamps_a_position_inside_the_pinned_run() {
    let (mut m, ids) = strip(); // [P1 P2 U1 U2 U3]
    let (p1, p2) = (ids[0], ids[1]);

    let new = blank("new");
    let new_id = m.add_tab(new, Some(0)); // would be among the pinned tabs

    assert_eq!(m.order()[0], p1, "pinned tabs keep the front of the strip");
    assert_eq!(m.order()[1], p2);
    assert_eq!(m.order()[2], new_id, "clamped to the first unpinned slot");
    assert!(!m.get_tab(new_id).unwrap().is_pinned());
}

#[test]
fn reorder_moves_within_the_unpinned_list() {
    let (mut m, ids) = strip();
    let (p1, p2, u1, u2, u3) = (ids[0], ids[1], ids[2], ids[3], ids[4]);
    assert_eq!(m.order(), vec![p1, p2, u1, u2, u3]);

    // Strip index 4 is U3's slot: move U1 to the end of the unpinned run.
    m.reorder(u1, 4);
    assert_eq!(m.order(), vec![p1, p2, u2, u3, u1]);
}

#[test]
fn reorder_clamps_at_the_pinned_boundary_instead_of_pinning() {
    let (mut m, ids) = strip();
    let (p1, p2, u1, u2, u3) = (ids[0], ids[1], ids[2], ids[3], ids[4]);

    // Drag U3 to the very front of the strip: it stops at the first unpinned slot.
    m.reorder(u3, 0);
    assert_eq!(m.order(), vec![p1, p2, u3, u1, u2]);
    assert!(!m.get_tab(u3).unwrap().is_pinned());

    // Symmetrically, a pinned tab dragged past the end stays inside the pinned run.
    m.reorder(p1, 4);
    assert_eq!(m.order(), vec![p2, p1, u3, u1, u2]);
    assert!(m.get_tab(p1).unwrap().is_pinned());
}

#[test]
fn reorder_to_the_current_slot_emits_nothing() {
    let (mut m, ids) = strip();
    let u2 = ids[3];
    let before = m.order();
    let _ = m.commands(); // drain the Insert commands from setup
    m.reorder(u2, 3); // U2 is already at strip index 3
    assert_eq!(m.order(), before);
    assert!(m.commands().is_empty(), "a no-op reorder must not emit a Move");
}

#[test]
fn tab_reorder_of_an_unknown_tab_is_a_noop() {
    let mut manager = GosubTabManager::new();
    let tab = blank("only");
    let tab_id = manager.add_tab(tab, None);

    // An id that was never added, and one that has just been removed.
    manager.reorder(TabId::new(), 0);
    manager.remove_tab(tab_id);
    manager.reorder(tab_id, 0);

    assert_eq!(manager.tab_count(), 0);
}

#[test]
fn tab_test_pinned_tabs() {
    let mut manager = GosubTabManager::new();
    let tab1 = blank("New tab 1");
    let tab2 = blank("New tab 2");
    let mut tab3 = blank("New tab 3");
    tab3.set_pinned(true);
    let tab4 = blank("New tab 4");
    let mut tab5 = blank("New tab 5");
    tab5.set_pinned(true);
    let tab6 = blank("New tab 6");

    let tab1_id = manager.add_tab(tab1, None);
    let tab2_id = manager.add_tab(tab2, None);
    let tab3_id = manager.add_tab(tab3, None);
    let tab4_id = manager.add_tab(tab4, None);
    let tab5_id = manager.add_tab(tab5, None);
    let tab6_id = manager.add_tab(tab6, None);

    // Since some tabs are pinned, this is the ordering: [ 3 5 1 2 4 6 ]
    assert_eq!(manager.pinned_tab_order(), vec![tab3_id, tab5_id]);
    assert_eq!(manager.unpinned_tab_order(), vec![tab1_id, tab2_id, tab4_id, tab6_id]);

    assert!(manager.is_most_left_unpinned_tab(tab1_id));
    assert!(!manager.is_most_left_unpinned_tab(tab2_id));
    assert!(manager.is_most_right_tab(tab6_id));
    assert!(!manager.is_most_right_tab(tab5_id));
}

#[test]
fn tab_test_closable_tabs_left_of_skips_pinned_tabs() {
    let mut manager = GosubTabManager::new();
    let tab1 = blank("New tab 1");
    let tab2 = blank("New tab 2");
    let mut tab3 = blank("New tab 3");
    tab3.set_pinned(true);
    let tab4 = blank("New tab 4");
    let mut tab5 = blank("New tab 5");
    tab5.set_pinned(true);
    let tab6 = blank("New tab 6");

    let tab1_id = manager.add_tab(tab1, None);
    let tab2_id = manager.add_tab(tab2, None);
    let tab3_id = manager.add_tab(tab3, None);
    let tab4_id = manager.add_tab(tab4, None);
    let tab5_id = manager.add_tab(tab5, None);
    let tab6_id = manager.add_tab(tab6, None);

    // Visible ordering is [ 3 5 1 2 4 6 ], with 3 and 5 pinned.
    assert_eq!(manager.order(), vec![tab3_id, tab5_id, tab1_id, tab2_id, tab4_id, tab6_id]);

    // Only the unpinned tabs to the left are closed; the pinned ones are spared.
    assert_eq!(manager.closable_tabs_left_of(tab4_id), vec![tab1_id, tab2_id]);
    assert_eq!(manager.closable_tabs_left_of(tab6_id), vec![tab1_id, tab2_id, tab4_id]);

    // Leftmost unpinned tab has only pinned tabs before it, so nothing is closable.
    assert!(manager.closable_tabs_left_of(tab1_id).is_empty());

    // The tab itself is never included.
    assert!(!manager.closable_tabs_left_of(tab4_id).contains(&tab4_id));
}

// Concrete cases of the strip laws.

#[test]
fn pinning_and_unpinning_cross_the_boundary() {
    let (mut m, ids) = strip(); // [P1 P2 U1 U2 U3]
    let (p1, p2, u1, u2, u3) = (ids[0], ids[1], ids[2], ids[3], ids[4]);
    let _ = m.commands();
    m.pin_tab(u2);
    assert_eq!(m.order(), vec![p1, p2, u2, u1, u3]);
    assert_eq!(m.commands(), vec![TabCommand::Update(u2), TabCommand::Move(u2, 2)]);
    assert!(m.get_tab(u2).unwrap().is_pinned());
    m.unpin_tab(p1);
    assert_eq!(m.order(), vec![p2, u2, p1, u1, u3]);
    assert_eq!(m.commands(), vec![TabCommand::Update(p1), TabCommand::Move(p1, 2)]);
    assert!(!m.get_tab(p1).unwrap().is_pinned());
}

#[test]
fn removing_the_active_tab_activates_a_neighbour() {
    let (mut m, ids) = strip(); // [P1 P2 U1 U2 U3]
    m.set_active(ids[3]);
    let _ = m.commands();
    m.remove_tab(ids[3]);
    assert_eq!(m.order(), vec![ids[0], ids[1], ids[2], ids[4]]);
    let commands = m.commands();
    assert!(commands.contains(&TabCommand::Close(ids[3])));
    assert_eq!(m.tab_count(), 4);
}

#[test]
fn updating_a_tab_keeps_the_strip_and_queues_an_update() {
    let (mut m, ids) = strip();
    let before = m.order();
    let _ = m.commands();
    let mut tab = m.get_tab(ids[2]).unwrap();
    tab.set_title("renamed");
    m.update_tab(ids[2], &tab);
    assert_eq!(m.order(), before);
    assert_eq!(m.get_tab(ids[2]).unwrap().title(), "renamed");
    assert_eq!(m.commands(), vec![TabCommand::Update(ids[2])]);
}

#[test]
fn a_tab_id_reads_back_from_its_text() {
    let id = TabId::from_uuid(0x0123_4567_89ab_cdef_0123_4567_89ab_cdef);
    let text = id.to_string();
    assert_eq!(text, "01234567-89ab-cdef-0123-456789abcdef");
    assert_eq!(TabId::parse(&text), Ok(id));
    assert!(TabId::parse("not a uuid").is_err());
    assert_eq!(TabId::from_parsed_uuid(Some(5)), Ok(TabId(5)));
    assert!(TabId::from_parsed_uuid(None).is_err());
}

#[test]
fn fresh_ids_are_version_four_uuids() {
    for _ in 0..100 {
        let id = TabId::new();
        assert_eq!((id.0 >> 76) & 0xf, 4);
        assert_eq!((id.0 >> 62) & 3, 2);
        assert_eq!(uuid::Uuid::from_u128(id.0).get_version_num(), 4);
        let engine = beacon_core::tab::EngineTabId::new();
        assert_eq!((engine.0 >> 76) & 0xf, 4);
        assert_eq!((engine.0 >> 62) & 3, 2);
    }
}

#[test]
fn pinning_a_pinned_tab_lists_it_once() {
    let (mut m, ids) = strip(); // [P1 P2 U1 U2 U3]
    let _ = m.commands();
    m.pin_tab(ids[0]);
    assert_eq!(m.order(), ids);
    assert_eq!(m.order().len(), m.tab_count());
    assert_eq!(m.commands(), vec![TabCommand::Update(ids[0])]);
    assert!(m.get_tab(ids[0]).unwrap().is_pinned());
    m.unpin_tab(ids[4]);
    assert_eq!(m.order(), ids);
    assert_eq!(m.commands(), vec![TabCommand::Update(ids[4])]);
}

#[test]
fn the_rightmost_of_an_all_pinned_strip_is_the_last_pinned_tab() {
    let mut m = GosubTabManager::new();
    let mut p1 = blank("p1");
    p1.set_pinned(true);
    let mut p2 = blank("p2");
    p2.set_pinned(true);
    let a = m.add_tab(p1, None);
    let b = m.add_tab(p2, None);
    assert_eq!(m.order(), vec![a, b]);
    assert!(m.is_most_right_tab(b));
    assert!(!m.is_most_right_tab(a));
}
