//! Browser state that is neither a tab nor a widget: which tab to reach next, and which
//! ones can be brought back.

use vstd::prelude::*;
use crate::tab::TabId;

verus! {

/// `s` with every occurrence of `x` taken out, order otherwise kept.
pub open spec fn without(s: Seq<TabId>, x: TabId) -> Seq<TabId>
    decreases s.len(),
{
    if s.len() == 0 {
        s
    } else if s.last() == x {
        without(s.drop_last(), x)
    } else {
        without(s.drop_last(), x).push(s.last())
    }
}

/// Removing `x` keeps exactly the other elements, and never leaves `x` behind.
pub proof fn lemma_without_contents(s: Seq<TabId>, x: TabId)
    ensures
        !without(s, x).contains(x),
        forall|y: TabId| y != x ==> (#[trigger] without(s, x).contains(y) <==> s.contains(y)),
        without(s, x).len() <= s.len(),
        s.contains(x) ==> without(s, x).len() < s.len(),
        !s.contains(x) ==> without(s, x) == s,
    decreases s.len(),
{
    if s.len() > 0 {
        lemma_without_contents(s.drop_last(), x);
        assert(s == s.drop_last().push(s.last()));
        let d = s.drop_last();
        let w = without(d, x);
        assert forall|y: TabId| y != x implies (#[trigger] without(s, x).contains(y) <==> s.contains(y)) by {
            if s.contains(y) {
                let k = choose|k: int| 0 <= k < s.len() && s[k] == y;
                if k < s.len() - 1 {
                    assert(d[k] == y);
                    assert(d.contains(y));
                    assert(w.contains(y));
                    let m = choose|m: int| 0 <= m < w.len() && w[m] == y;
                    if s.last() != x {
                        assert(w.push(s.last())[m] == y);
                    }
                } else {
                    assert(w.push(s.last())[w.len() as int] == y);
                }
            }
            if without(s, x).contains(y) {
                let k = choose|k: int| 0 <= k < without(s, x).len() && without(s, x)[k] == y;
                if s.last() == x {
                    assert(w.contains(y));
                } else if k < w.len() {
                    assert(w[k] == y);
                    assert(w.contains(y));
                } else {
                    assert(s[s.len() - 1] == y);
                }
                if w.contains(y) {
                    assert(d.contains(y));
                    let m = choose|m: int| 0 <= m < d.len() && d[m] == y;
                    assert(s[m] == y);
                }
            }
        }
        if !s.contains(x) {
            assert(!s.drop_last().contains(x)) by {
                if s.drop_last().contains(x) {
                    let k = choose|k: int| 0 <= k < s.drop_last().len() && s.drop_last()[k] == x;
                    assert(s[k] == x);
                }
            }
        }
        if s.contains(x) && s.last() != x {
            let k = choose|k: int| 0 <= k < s.len() && s[k] == x;
            assert(s.drop_last()[k] == x);
        }
    }
}

/// Whether no element occurs twice.
pub open spec fn distinct(s: Seq<TabId>) -> bool {
    forall|i: int, j: int| 0 <= i < j < s.len() ==> s[i] != s[j]
}

} // verus!

verus! {

/// Removes every `x` from `v`, keeping the order of the rest.
pub(crate) fn remove_all(v: &Vec<TabId>, x: TabId) -> (res: Vec<TabId>)
    ensures
        res@ == without(v@, x),
{
    let mut res: Vec<TabId> = Vec::new();
    let mut i: usize = 0;
    while i < v.len()
        invariant
            i <= v.len(),
            res@ == without(v@.take(i as int), x),
        decreases v.len() - i,
    {
        assert(v@.take(i as int + 1).drop_last() =~= v@.take(i as int));
        if v[i] != x {
            res.push(v[i]);
        }
        i += 1;
    }
    assert(v@.take(v.len() as int) =~= v@);
    res
}

/// Whether `x` occurs in `v`.
pub(crate) fn vec_contains(v: &Vec<TabId>, x: TabId) -> (res: bool)
    ensures
        res == v@.contains(x),
{
    let mut i: usize = 0;
    while i < v.len()
        invariant
            i <= v.len(),
            forall|k: int| 0 <= k < i ==> v@[k] != x,
        decreases v.len() - i,
    {
        if v[i] == x {
            assert(v@[i as int] == x);
            return true;
        }
        i += 1;
    }
    false
}

/// Tabs in most-recently-used order, most recent first, plus the state of an in-flight
/// Ctrl+Tab cycle.
///
/// The list is deliberately *not* reordered while cycling: repeated presses have to walk
/// to the third tab and beyond rather than bouncing between the first two. The cycle ends
/// when the caller's settle timer fires and calls [`MruList::commit`].
#[derive(Debug, Clone)]
pub struct MruList {
    order: Vec<TabId>,
    /// Position within `order` while a cycle is in flight; `None` when not cycling.
    cycle: Option<usize>,
}

impl MruList {
    /// The tabs, most recently used first.
    pub closed spec fn order(&self) -> Seq<TabId> {
        self.order@
    }

    /// Where an in-flight cycle stands in [`Self::order`]; `None` when not cycling.
    pub closed spec fn cycle(&self) -> Option<usize> {
        self.cycle
    }

    /// Where the next step starts from: the cycle position, or the front of the list.
    pub open spec fn cycle_from(&self) -> int {
        match self.cycle() {
            Some(c) => c as int,
            None => 0,
        }
    }

    pub fn new() -> (res: Self)
        ensures
            res.order() == Seq::<TabId>::empty(),
            res.cycle() is None,
    {
        MruList { order: Vec::new(), cycle: None }
    }

    pub fn len(&self) -> (res: usize)
        ensures
            res == self.order().len(),
    {
        self.order.len()
    }

    pub fn is_empty(&self) -> (res: bool)
        ensures
            res == (self.order().len() == 0),
    {
        self.order.len() == 0
    }

    pub fn contains(&self, tab_id: TabId) -> (res: bool)
        ensures
            res == self.order().contains(tab_id),
    {
        vec_contains(&self.order, tab_id)
    }

    pub fn is_cycling(&self) -> (res: bool)
        ensures
            res == self.cycle() is Some,
    {
        self.cycle.is_some()
    }

    /// Add a freshly opened tab at the *back*: it is reachable by cycling, but it has not
    /// been used yet. A tab already listed keeps its place.
    pub fn insert_unused(&mut self, tab_id: TabId)
        ensures
            final(self).cycle() == old(self).cycle(),
            final(self).order() == if old(self).order().contains(tab_id) {
                old(self).order()
            } else {
                old(self).order().push(tab_id)
            },
    {
        if !self.contains(tab_id) {
            self.order.push(tab_id);
        }
    }

    /// Move `tab_id` to the front (inserting it if new). Ignored while cycling, since
    /// activating tabs is exactly what cycling does.
    pub fn touch(&mut self, tab_id: TabId)
        ensures
            final(self).cycle() == old(self).cycle(),
            final(self).order() == if old(self).cycle() is Some {
                old(self).order()
            } else {
                seq![tab_id] + without(old(self).order(), tab_id)
            },
    {
        if self.is_cycling() {
            return;
        }
        let mut rest = remove_all(&self.order, tab_id);
        rest.insert(0, tab_id);
        assert(rest@ =~= seq![tab_id] + without(old(self).order(), tab_id));
        self.order = rest;
    }

    /// Drop a closed tab. Returns `true` when the caller must also abandon its settle
    /// timer, because there is no longer enough left to cycle through.
    pub fn forget(&mut self, tab_id: TabId) -> (res: bool)
        ensures
            final(self).order() == without(old(self).order(), tab_id),
            res == (final(self).order().len() < 2),
            final(self).cycle() == if res { None } else { old(self).cycle() },
    {
        self.order = remove_all(&self.order, tab_id);
        if self.order.len() < 2 {
            self.cancel();
            return true;
        }
        false
    }

    /// Ctrl+Tab (`+1`) / Ctrl+Shift+Tab (`-1`): the tab to activate next, or `None` when
    /// there is nothing to cycle between. The step wraps around at either end.
    pub fn step(&mut self, direction: i32) -> (res: Option<TabId>)
        ensures
            old(self).order().len() < 2 ==> res is None && final(self).order() == old(self).order() && final(self).cycle() == old(self).cycle(),
            old(self).order().len() >= 2 ==> {
                let next = step_index(old(self).cycle_from(), direction as int, old(self).order().len() as int);
                &&& final(self).order() == old(self).order()
                &&& final(self).cycle() == Some(next as usize)
                &&& res == Some(old(self).order()[next])
            },
    {
        let len = self.order.len();
        if len < 2 {
            return None;
        }
        let from: i128 = match self.cycle {
            Some(c) => c as i128,
            None => 0,
        };
        let sum: i128 = from + direction as i128;
        let n: i128 = len as i128;
        let r: i128 = if sum >= 0 {
            sum % n
        } else {
            let m: i128 = (-sum) % n;
            if m == 0 { 0 } else { n - m }
        };
        proof {
            lemma_euclid_mod(sum as int, n as int, r as int);
        }
        let next = r as usize;
        self.cycle = Some(next);
        Some(self.order[next])
    }

    /// End the cycle, promoting whichever tab it landed on. A no-op when no cycle was in
    /// flight, so a stray settle timer cannot reorder the list.
    pub fn commit(&mut self, active: Option<TabId>)
        ensures
            final(self).cycle() is None,
            final(self).order() == match (old(self).cycle(), active) {
                (Some(_), Some(tab_id)) => seq![tab_id] + without(old(self).order(), tab_id),
                _ => old(self).order(),
            },
    {
        if self.cycle.is_none() {
            return;
        }
        self.cycle = None;
        if let Some(tab_id) = active {
            self.touch(tab_id);
        }
    }

    /// Abandon a cycle without promoting anything.
    pub fn cancel(&mut self)
        ensures
            final(self).order() == old(self).order(),
            final(self).cycle() is None,
    {
        self.cycle = None;
    }
}

/// The remainder computed by [`MruList::step`] from truncating division is the Euclidean one.
/// Where a cycling step lands among `len` tabs: `direction` places on from `from`,
/// wrapping around at either end.
pub open spec fn step_index(from: int, direction: int, len: int) -> int {
    (from + direction) % len
}

/// Cycling wraps at both ends: a forward step from the last tab lands on the first, a
/// backward step from the first (or from a fresh cycle, which starts there) on the last,
/// every step lands on a tab, and a backward step undoes a forward one.
pub proof fn stepping_wraps_around(len: int, c: int)
    requires
        len >= 2,
        0 <= c < len,
    ensures
        step_index(len - 1, 1, len) == 0,
        step_index(0, -1, len) == len - 1,
        0 <= step_index(c, 1, len) < len,
        0 <= step_index(c, -1, len) < len,
        step_index(step_index(c, 1, len), -1, len) == c,
{
    assert((len - 1 + 1) % len == 0) by (nonlinear_arith)
        requires len >= 2;
    assert((0 + -1) % len == len - 1) by (nonlinear_arith)
        requires len >= 2;
    if c + 1 < len {
        assert((c + 1) % len == c + 1) by (nonlinear_arith)
            requires len >= 2, 0 <= c, c + 1 < len;
        assert((c + 1 + -1) % len == c) by (nonlinear_arith)
            requires len >= 2, 0 <= c < len;
    } else {
        assert(c == len - 1);
    }
}

proof fn lemma_euclid_mod(sum: int, n: int, r: int)
    requires
        n > 0,
        sum >= 0 ==> r == sum % n,
        sum < 0 ==> {
            let m = (-sum) % n;
            r == if m == 0 { 0 } else { n - m }
        },
    ensures
        r == sum % n,
        0 <= r < n,
{
    if sum >= 0 {
        vstd::arithmetic::div_mod::lemma_mod_pos_bound(sum, n);
    } else {
        let m = (-sum) % n;
        vstd::arithmetic::div_mod::lemma_fundamental_div_mod(-sum, n);
        vstd::arithmetic::div_mod::lemma_mod_pos_bound(-sum, n);
        let q = (-sum) / n;
        assert(-sum == n * q + m);
        if m == 0 {
            assert(sum == (-q) * n + 0) by (nonlinear_arith)
                requires -sum == n * q + m, m == 0;
            vstd::arithmetic::div_mod::lemma_fundamental_div_mod_converse_mod(sum, n, -q, 0);
        } else {
            assert(sum == (-q - 1) * n + (n - m)) by (nonlinear_arith)
                requires -sum == n * q + m;
            vstd::arithmetic::div_mod::lemma_fundamental_div_mod_converse_mod(sum, n, -q - 1, n - m);
        }
    }
}

} // verus!

verus! {

/// How many closed tabs are remembered for Ctrl+Shift+T.
pub const CLOSED_TAB_LIMIT: usize = 25;

/// A tab that was closed, and where it sat in the strip.
#[derive(Debug, Clone, PartialEq, Eq)]
pub struct ClosedTab {
    pub url: String,
    /// Strip position to restore it to; `None` reopens at the end.
    pub position: Option<usize>,
}

/// What a closed tab is remembered as: its address and its strip position.
pub struct ClosedTabView {
    pub url: Seq<char>,
    pub position: Option<usize>,
}

impl View for ClosedTab {
    type V = ClosedTabView;

    open spec fn view(&self) -> ClosedTabView {
        ClosedTabView { url: self.url@, position: self.position }
    }
}

/// Recently closed tabs, newest last; Ctrl+Shift+T pops the stack.
#[derive(Debug, Clone)]
pub struct ClosedTabs {
    stack: Vec<ClosedTab>,
}

impl View for ClosedTabs {
    type V = Seq<ClosedTabView>;

    closed spec fn view(&self) -> Seq<ClosedTabView> {
        self.stack@.map_values(|t: ClosedTab| t@)
    }
}

/// What remembering one more closed tab leaves: the stack with it on top, the oldest
/// entries dropped from the bottom until no more than [`CLOSED_TAB_LIMIT`] remain.
pub open spec fn pushed_closed(stack: Seq<ClosedTabView>, tab: ClosedTabView) -> Seq<ClosedTabView> {
    let full = stack.push(tab);
    if full.len() > CLOSED_TAB_LIMIT {
        full.skip(full.len() - CLOSED_TAB_LIMIT)
    } else {
        full
    }
}

impl ClosedTabs {
    pub fn new() -> (res: Self)
        ensures
            res@ == Seq::<ClosedTabView>::empty(),
    {
        ClosedTabs { stack: Vec::new() }
    }

    pub fn is_empty(&self) -> (res: bool)
        ensures
            res == (self@.len() == 0),
    {
        self.stack.len() == 0
    }

    /// Remember a closed tab, discarding the oldest once the limit is reached.
    pub fn push(&mut self, url: String, position: Option<usize>)
        ensures
            final(self)@ == pushed_closed(old(self)@, ClosedTabView { url: url@, position }),
    {
        let ghost tab = ClosedTabView { url: url@, position };
        self.stack.push(ClosedTab { url, position });
        assert(self@ =~= old(self)@.push(tab));
        let overflow: usize = if self.stack.len() > CLOSED_TAB_LIMIT {
            self.stack.len() - CLOSED_TAB_LIMIT
        } else {
            0
        };
        let ghost full = self.stack@;
        let mut dropped: usize = 0;
        while dropped < overflow
            invariant
                overflow <= full.len(),
                dropped <= overflow,
                self.stack@ == full.skip(dropped as int),
            decreases overflow - dropped,
        {
            self.stack.remove(0);
            assert(self.stack@ =~= full.skip(dropped as int + 1));
            dropped += 1;
        }
        assert(self@ =~= full.map_values(|t: ClosedTab| t@).skip(overflow as int));
    }

    /// The most recently closed tab.
    pub fn pop(&mut self) -> (res: Option<ClosedTab>)
        ensures
            old(self)@.len() == 0 ==> res is None && final(self)@ == old(self)@,
            old(self)@.len() > 0 ==> {
                &&& res matches Some(t) && t@ == old(self)@.last()
                &&& final(self)@ == old(self)@.drop_last()
            },
    {
        let res = self.stack.pop();
        proof {
            if old(self)@.len() > 0 {
                assert(self@ =~= old(self)@.drop_last());
            }
        }
        res
    }
}

} // verus!

verus! {

/// Inserting an element adds exactly that element.
pub proof fn lemma_insert_contains(s: Seq<TabId>, i: int, x: TabId)
    requires
        0 <= i <= s.len(),
    ensures
        forall|y: TabId| #[trigger] s.insert(i, x).contains(y) <==> (s.contains(y) || y == x),
{
    let t = s.insert(i, x);
    assert forall|y: TabId| #[trigger] t.contains(y) <==> (s.contains(y) || y == x) by {
        if t.contains(y) {
            let k = choose|k: int| 0 <= k < t.len() && t[k] == y;
            if k < i {
                assert(s[k] == y);
            } else if k > i {
                assert(s[k - 1] == y);
            }
        }
        if s.contains(y) {
            let k = choose|k: int| 0 <= k < s.len() && s[k] == y;
            if k < i {
                assert(t[k] == y);
            } else {
                assert(t[k + 1] == y);
            }
        }
        if y == x {
            assert(t[i] == y);
        }
    }
}

/// Inserting a new element keeps a sequence free of repeats.
pub proof fn lemma_insert_distinct(s: Seq<TabId>, i: int, x: TabId)
    requires
        0 <= i <= s.len(),
        distinct(s),
        !s.contains(x),
    ensures
        distinct(s.insert(i, x)),
{
    let t = s.insert(i, x);
    assert forall|a: int, b: int| 0 <= a < b < t.len() implies t[a] != t[b] by {
        if a == i {
            assert(s[b - 1] == t[b]);
        } else if b == i {
            assert(s[a] == t[a]);
        } else {
            let sa = if a < i { a } else { a - 1 };
            let sb = if b < i { b } else { b - 1 };
            assert(s[sa] == t[a]);
            assert(s[sb] == t[b]);
        }
    }
}

/// Removing a position from a sequence without repeats removes exactly that element.
pub proof fn lemma_remove_distinct(s: Seq<TabId>, i: int)
    requires
        0 <= i < s.len(),
        distinct(s),
    ensures
        distinct(s.remove(i)),
        forall|y: TabId| #[trigger] s.remove(i).contains(y) <==> (s.contains(y) && y != s[i]),
{
    let t = s.remove(i);
    assert forall|a: int, b: int| 0 <= a < b < t.len() implies t[a] != t[b] by {
        let sa = if a < i { a } else { a + 1 };
        let sb = if b < i { b } else { b + 1 };
        assert(s[sa] == t[a]);
        assert(s[sb] == t[b]);
    }
    assert forall|y: TabId| #[trigger] t.contains(y) <==> (s.contains(y) && y != s[i]) by {
        if t.contains(y) {
            let k = choose|k: int| 0 <= k < t.len() && t[k] == y;
            let sk = if k < i { k } else { k + 1 };
            assert(s[sk] == y);
        }
        if s.contains(y) && y != s[i] {
            let k = choose|k: int| 0 <= k < s.len() && s[k] == y;
            if k < i {
                assert(t[k] == y);
            } else {
                assert(t[k - 1] == y);
            }
        }
    }
}

/// Taking an element out everywhere keeps a sequence free of repeats.
pub proof fn lemma_without_distinct(s: Seq<TabId>, x: TabId)
    requires
        distinct(s),
    ensures
        distinct(without(s, x)),
    decreases s.len(),
{
    if s.len() > 0 {
        let d = s.drop_last();
        assert(distinct(d));
        lemma_without_distinct(d, x);
        if s.last() != x {
            lemma_without_contents(d, x);
            assert(!d.contains(s.last())) by {
                if d.contains(s.last()) {
                    let k = choose|k: int| 0 <= k < d.len() && d[k] == s.last();
                    assert(s[k] == s[s.len() - 1]);
                }
            }
            let w = without(d, x);
            assert forall|a: int, b: int| 0 <= a < b < w.push(s.last()).len() implies w.push(s.last())[a]
                != w.push(s.last())[b] by {
                if b == w.len() {
                    assert(w.contains(w[a]));
                }
            }
        }
    }
}

} // verus!

verus! {

/// Taking out an element that occurs once shortens a sequence by exactly one.
pub proof fn lemma_without_len(s: Seq<TabId>, x: TabId)
    requires
        distinct(s),
        s.contains(x),
    ensures
        without(s, x).len() == s.len() - 1,
    decreases s.len(),
{
    let d = s.drop_last();
    if s.last() == x {
        assert(!d.contains(x)) by {
            if d.contains(x) {
                let k = choose|k: int| 0 <= k < d.len() && d[k] == x;
                assert(s[k] == s[s.len() - 1]);
            }
        }
        lemma_without_contents(d, x);
    } else {
        let k = choose|k: int| 0 <= k < s.len() && s[k] == x;
        assert(d[k] == x);
        lemma_without_len(d, x);
    }
}

/// Every way the recently-used list changes keeps each tab in it at most once: adding an
/// unused tab at the back (only when absent), moving a tab to the front (`touch`, and the
/// promotion `commit` makes), and forgetting a tab.
pub proof fn mru_lists_each_tab_once(order: Seq<TabId>, tab: TabId)
    requires
        distinct(order),
    ensures
        !order.contains(tab) ==> distinct(order.push(tab)),
        distinct(seq![tab] + without(order, tab)),
        distinct(without(order, tab)),
{
    lemma_without_distinct(order, tab);
    lemma_without_contents(order, tab);
    if !order.contains(tab) {
        lemma_insert_distinct(order, order.len() as int, tab);
        assert(order.insert(order.len() as int, tab) =~= order.push(tab));
    }
    lemma_insert_distinct(without(order, tab), 0, tab);
    assert(without(order, tab).insert(0, tab) =~= seq![tab] + without(order, tab));
}

/// Touching a tab puts it first, keeps the others in their order, and never duplicates it:
/// the list grows only when the tab was not in it yet.
pub proof fn touch_moves_to_the_front(order: Seq<TabId>, tab: TabId)
    requires
        distinct(order),
    ensures
        ({
            let touched = seq![tab] + without(order, tab);
            &&& touched[0] == tab
            &&& touched.drop_first() == without(order, tab)
            &&& forall|y: TabId| #[trigger] touched.contains(y) <==> (order.contains(y) || y == tab)
            &&& touched.len() == if order.contains(tab) { order.len() } else { order.len() + 1 }
        }),
{
    lemma_without_contents(order, tab);
    let touched = seq![tab] + without(order, tab);
    assert(touched.drop_first() =~= without(order, tab));
    assert(touched =~= without(order, tab).insert(0, tab));
    lemma_insert_contains(without(order, tab), 0, tab);
    if order.contains(tab) {
        lemma_without_len(order, tab);
    }
}

/// The newest closed tab is always the one a pop returns, and at most
/// [`CLOSED_TAB_LIMIT`] are remembered: the oldest go first. Below the limit, popping
/// what was just pushed leaves the stack as it was.
pub proof fn closed_tabs_keep_the_newest(stack: Seq<ClosedTabView>, tab: ClosedTabView)
    ensures
        pushed_closed(stack, tab).last() == tab,
        stack.len() < CLOSED_TAB_LIMIT ==> pushed_closed(stack, tab).drop_last() == stack,
        pushed_closed(stack, tab).len() == if stack.len() + 1 > CLOSED_TAB_LIMIT {
            CLOSED_TAB_LIMIT as int
        } else {
            stack.len() + 1int
        },
        pushed_closed(stack, tab).len() <= CLOSED_TAB_LIMIT,
        forall|i: int| 0 <= i < pushed_closed(stack, tab).len() - 1 ==> #[trigger] pushed_closed(stack, tab)[i]
            == stack[stack.len() - (pushed_closed(stack, tab).len() - 1) + i],
{
    if stack.len() < CLOSED_TAB_LIMIT {
        assert(stack.push(tab).drop_last() =~= stack);
    }
}

} // verus!
