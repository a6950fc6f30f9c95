use beacon_core::state::{ClosedTab, ClosedTabs, MruList, CLOSED_TAB_LIMIT};
use beacon_core::tab::TabId;

fn ids(n: usize) -> Vec<TabId> {
    (0..n).map(|_| TabId::new()).collect()
}

#[test]
fn touch_moves_to_the_front_without_duplicating() {
    let t = ids(3);
    let mut mru = MruList::new();
    for id in &t {
        mru.touch(*id);
    }
    mru.touch(t[2]);
    assert_eq!(mru.len(), 3);
    assert_eq!(mru.step(0), Some(t[2]));
}

#[test]
fn a_new_tab_enters_at_the_back_so_it_is_cycleable() {
    let t = ids(2);
    let mut mru = MruList::new();
    mru.touch(t[0]);
    mru.insert_unused(t[1]);
    // Two entries is enough to cycle.
    assert_eq!(mru.step(1), Some(t[1]));
}

#[test]
fn insert_unused_does_not_demote_a_tab_already_listed() {
    let t = ids(2);
    let mut mru = MruList::new();
    mru.touch(t[0]);
    mru.touch(t[1]);
    mru.insert_unused(t[1]);
    assert_eq!(mru.len(), 2);
    assert_eq!(mru.step(0), Some(t[1]));
}

#[test]
fn cycling_walks_past_the_second_tab() {
    let t = ids(3);
    let mut mru = MruList::new();
    for id in t.iter().rev() {
        mru.touch(*id);
    }
    // order is now [t0, t1, t2]
    assert_eq!(mru.step(1), Some(t[1]));
    assert_eq!(mru.step(1), Some(t[2]));
    // ...and wraps rather than stopping.
    assert_eq!(mru.step(1), Some(t[0]));
}

#[test]
fn activating_during_a_cycle_does_not_reorder() {
    let t = ids(3);
    let mut mru = MruList::new();
    for id in t.iter().rev() {
        mru.touch(*id);
    }
    mru.step(1);
    // The frontend activates the tab it stepped to; that must not promote it.
    mru.touch(t[1]);
    assert_eq!(mru.step(1), Some(t[2]));
}

#[test]
fn stepping_backwards_wraps_to_the_end() {
    let t = ids(3);
    let mut mru = MruList::new();
    for id in t.iter().rev() {
        mru.touch(*id);
    }
    assert_eq!(mru.step(-1), Some(t[2]));
}

#[test]
fn commit_promotes_the_landed_tab_and_ends_the_cycle() {
    let t = ids(3);
    let mut mru = MruList::new();
    for id in t.iter().rev() {
        mru.touch(*id);
    }
    mru.step(1);
    assert!(mru.is_cycling());
    mru.commit(Some(t[1]));
    assert!(!mru.is_cycling());
    assert_eq!(mru.step(0), Some(t[1]));
}

#[test]
fn commit_without_a_cycle_in_flight_changes_nothing() {
    let t = ids(2);
    let mut mru = MruList::new();
    mru.touch(t[1]);
    mru.touch(t[0]);
    mru.commit(Some(t[1]));
    assert_eq!(mru.step(0), Some(t[0]));
}

#[test]
fn fewer_than_two_tabs_cannot_cycle() {
    let mut mru = MruList::new();
    assert_eq!(mru.step(1), None);
    mru.touch(TabId::new());
    assert_eq!(mru.step(1), None);
}

#[test]
fn forgetting_down_to_one_tab_asks_the_caller_to_cancel() {
    let t = ids(3);
    let mut mru = MruList::new();
    for id in &t {
        mru.touch(*id);
    }
    mru.step(1);
    assert!(!mru.forget(t[0]));
    assert!(mru.forget(t[1]));
    assert!(!mru.is_cycling());
}

#[test]
fn closed_tabs_pop_newest_first_and_keep_their_position() {
    let mut closed = ClosedTabs::new();
    assert!(closed.is_empty());
    closed.push("https://a.example/".into(), Some(2));
    closed.push("https://b.example/".into(), None);
    assert_eq!(
        closed.pop(),
        Some(ClosedTab {
            url: "https://b.example/".into(),
            position: None
        })
    );
    assert_eq!(
        closed.pop(),
        Some(ClosedTab {
            url: "https://a.example/".into(),
            position: Some(2)
        })
    );
    assert!(closed.pop().is_none());
}

#[test]
fn closed_tabs_discard_the_oldest_past_the_limit() {
    let mut closed = ClosedTabs::new();
    for i in 0..CLOSED_TAB_LIMIT + 5 {
        closed.push(format!("https://example.com/{i}"), None);
    }
    let mut seen = 0;
    while let Some(tab) = closed.pop() {
        seen += 1;
        // The five oldest are gone, so nothing below /5 survives.
        let n: usize = tab.url.rsplit('/').next().unwrap().parse().unwrap();
        assert!(n >= 5, "kept an entry that should have been dropped: {n}");
    }
    assert_eq!(seen, CLOSED_TAB_LIMIT);
}

// Concrete cases of the laws about the recently-used list and the closed-tab stack.

#[test]
fn touching_twice_keeps_each_tab_once() {
    let t = ids(4);
    let mut mru = MruList::new();
    for id in &t {
        mru.touch(*id);
        mru.touch(*id);
    }
    mru.touch(t[1]);
    assert_eq!(mru.len(), 4);
    assert!(t.iter().all(|id| mru.contains(*id)));
    assert_eq!(mru.step(0), Some(t[1]));
}

#[test]
fn forgetting_an_unknown_tab_changes_nothing() {
    let t = ids(3);
    let mut mru = MruList::new();
    mru.touch(t[0]);
    mru.touch(t[1]);
    assert!(!mru.forget(t[2]));
    assert_eq!(mru.len(), 2);
    assert!(mru.contains(t[0]) && mru.contains(t[1]));
    // Down to one tab, there is nothing left to cycle through.
    assert!(mru.forget(t[0]));
}

#[test]
fn cancelling_a_cycle_keeps_the_order() {
    let t = ids(3);
    let mut mru = MruList::new();
    for id in t.iter().rev() {
        mru.touch(*id);
    }
    mru.step(1);
    mru.cancel();
    assert!(!mru.is_cycling());
    assert_eq!(mru.step(0), Some(t[0]));
}

#[test]
fn the_closed_stack_holds_exactly_its_limit() {
    let mut closed = ClosedTabs::new();
    for i in 0..CLOSED_TAB_LIMIT {
        closed.push(format!("u{i}"), Some(i));
    }
    let mut popped = Vec::new();
    while let Some(tab) = closed.pop() {
        popped.push(tab.position.unwrap());
    }
    let expected: Vec<usize> = (0..CLOSED_TAB_LIMIT).rev().collect();
    assert_eq!(popped, expected);
}
