//! Tabs as the browser shell sees them, and the strip that orders them.

use vstd::prelude::*;

verus! {

/// The hex digit at nibble `k` (0 to 31, most significant first) of a UUID's text.
pub open spec fn uuid_nibble(value: u128, k: int) -> char {
    crate::devtools::hex_digit(((value >> ((124 - 4 * k) as u128)) & 0xf) as nat)
}

/// The character at index `i` (0 to 35) of a UUID's text: hyphens at 8, 13, 18 and 23,
/// hex digits elsewhere.
pub open spec fn uuid_char(value: u128, i: int) -> char {
    if i == 8 || i == 13 || i == 18 || i == 23 {
        '-'
    } else if i < 8 {
        uuid_nibble(value, i)
    } else if i < 13 {
        uuid_nibble(value, i - 1)
    } else if i < 18 {
        uuid_nibble(value, i - 2)
    } else if i < 23 {
        uuid_nibble(value, i - 3)
    } else {
        uuid_nibble(value, i - 4)
    }
}

/// The text `uuid::Uuid`'s `Display` writes for the UUID with this 128-bit value: its 32
/// lower-case hex digits, most significant first, grouped 8-4-4-4-12 by hyphens.
pub open spec fn uuid_text(value: u128) -> Seq<char> {
    Seq::new(36, |i: int| uuid_char(value, i))
}

/// The 128-bit value `uuid::Uuid::parse_str` reads from this text, or `None` where it
/// refuses the text.
pub uninterp spec fn uuid_parse(text: Seq<char>) -> Option<u128>;

/// Whether a 128-bit UUID value is a random (version 4) UUID: version nibble 4, and the
/// RFC 4122 variant (top two bits of the clock-sequence byte `10`).
pub open spec fn is_random_uuid(value: u128) -> bool {
    (value >> 76u128) & 0xf == 4 && (value >> 62u128) & 3 == 2
}

/// `uuid::Uuid::new_v4`, as its 128-bit value. The bits are random; claimed only what
/// `new_v4` forces on them: the version 4 nibble and the RFC 4122 variant bits.
#[verifier::external_body]
fn random_uuid() -> (res: u128)
    ensures
        is_random_uuid(res),
{
    uuid::Uuid::new_v4().as_u128()
}

/// `uuid::Uuid::from_u128(value).to_string()`. Claimed: the text is the hyphenated
/// lower-case form `uuid_text` of the value.
#[verifier::external_body]
fn format_uuid(value: u128) -> (res: String)
    ensures
        res@ == uuid_text(value),
{
    uuid::Uuid::from_u128(value).to_string()
}

/// `uuid::Uuid::parse_str`, as the parsed 128-bit value. Claimed: the result is the named
/// `uuid_parse` of the text, and the text `Display` writes for a UUID parses back to that
/// UUID (the parser accepts the hyphenated form that `Display` produces).
#[verifier::external_body]
fn parse_uuid(text: &str) -> (res: Option<u128>)
    ensures
        res == uuid_parse(text@),
        forall|value: u128| text@ == uuid_text(value) ==> res == Some(value),
{
    match uuid::Uuid::parse_str(text) {
        Ok(uuid) => Some(uuid.as_u128()),
        Err(_) => None,
    }
}

/// A tab, as the browser knows it: the 128-bit value of a random (version 4) UUID.
#[derive(Debug, Clone, Copy, PartialEq, Eq, Hash, Structural)]
pub struct TabId(pub u128);

/// Text that is not a UUID was given where a tab id was expected.
#[derive(Debug, Clone, Copy, PartialEq, Eq, Structural)]
pub struct ParseTabIdError;

impl TabId {
    /// A fresh id from a random UUID.
    pub fn new() -> (res: TabId)
        ensures
            is_random_uuid(res.0),
    {
        TabId(random_uuid())
    }

    /// The id whose UUID has this 128-bit value.
    pub fn from_uuid(uuid: u128) -> (res: TabId)
        ensures
            res.0 == uuid,
    {
        TabId(uuid)
    }

    /// The UUID in its hyphenated lower-case text form.
    pub fn to_string(&self) -> (res: String)
        ensures
            res@ == uuid_text(self.0),
    {
        format_uuid(self.0)
    }

    /// Read an id back from any text form the UUID parser accepts; the form
    /// [`Self::to_string`] writes always reads back as the same id.
    pub fn parse(text: &str) -> (res: Result<TabId, ParseTabIdError>)
        ensures
            res == match uuid_parse(text@) {
                Some(value) => Ok(TabId(value)),
                None => Err(ParseTabIdError),
            },
            forall|id: TabId| text@ == uuid_text(id.0) ==> res == Ok::<TabId, ParseTabIdError>(id),
    {
        TabId::from_parsed_uuid(parse_uuid(text))
    }

    /// The id for what the UUID parser made of some text: its value, or the error when the
    /// parser refused the text.
    pub fn from_parsed_uuid(parsed: Option<u128>) -> (res: Result<TabId, ParseTabIdError>)
        ensures
            res == match parsed {
                Some(value) => Ok(TabId(value)),
                None => Err(ParseTabIdError),
            },
    {
        match parsed {
            Some(value) => Ok(TabId(value)),
            None => Err(ParseTabIdError),
        }
    }
}

impl std::str::FromStr for TabId {
    type Err = ParseTabIdError;

    fn from_str(s: &str) -> (res: Result<Self, Self::Err>)
        ensures
            res == match uuid_parse(s@) {
                Some(value) => Ok(TabId(value)),
                None => Err(ParseTabIdError),
            },
            forall|id: TabId| s@ == uuid_text(id.0) ==> res == Ok::<TabId, ParseTabIdError>(id),
    {
        TabId::parse(s)
    }
}

/// The engine's own identifier of a tab: the 128-bit value of its UUID.
#[derive(Debug, Clone, Copy, PartialEq, Eq, Hash, Structural)]
pub struct EngineTabId(pub u128);

impl EngineTabId {
    /// A fresh id from a random UUID, as the engine mints them.
    pub fn new() -> (res: EngineTabId)
        ensures
            is_random_uuid(res.0),
    {
        EngineTabId(random_uuid())
    }
}

} // verus!

verus! {

/// The engine's identifier of an entry in a tab's session history: its index in
/// [`HistorySnapshot::entries`].
#[derive(Debug, Clone, Copy, PartialEq, Eq, Hash, Structural)]
pub struct HistoryEntryId(pub usize);

/// One entry of a tab's session history.
#[derive(Debug, Clone, PartialEq, Eq)]
pub struct HistoryEntry {
    pub id: HistoryEntryId,
    pub url: String,
}

pub struct HistoryEntryView {
    pub id: HistoryEntryId,
    pub url: Seq<char>,
}

impl View for HistoryEntry {
    type V = HistoryEntryView;

    open spec fn view(&self) -> HistoryEntryView {
        HistoryEntryView { id: self.id, url: self.url@ }
    }
}

/// What the engine last said about a tab's session history (a tree: back is the parent,
/// forward the children).
#[derive(Debug, Clone, PartialEq, Eq)]
pub struct HistorySnapshot {
    /// Every entry, indexed by its id.
    pub entries: Vec<HistoryEntry>,
    /// The entry the tab is showing, if any.
    pub current: Option<HistoryEntryId>,
    pub can_go_back: bool,
    /// The forward branches of the current entry, preferred first.
    pub forward: Vec<HistoryEntry>,
}

pub struct HistorySnapshotView {
    pub entries: Seq<HistoryEntryView>,
    pub current: Option<HistoryEntryId>,
    pub can_go_back: bool,
    pub forward: Seq<HistoryEntryView>,
}

impl View for HistorySnapshot {
    type V = HistorySnapshotView;

    open spec fn view(&self) -> HistorySnapshotView {
        HistorySnapshotView {
            entries: self.entries@.map_values(|e: HistoryEntry| e@),
            current: self.current,
            can_go_back: self.can_go_back,
            forward: self.forward@.map_values(|e: HistoryEntry| e@),
        }
    }
}

/// The address of the entry a snapshot says is current, when that entry exists.
pub open spec fn current_url(s: HistorySnapshotView) -> Option<Seq<char>> {
    match s.current {
        Some(id) => if id.0 < s.entries.len() {
            Some(s.entries[id.0 as int].url)
        } else {
            None
        },
        None => None,
    }
}

fn copy_entry(e: &HistoryEntry) -> (res: HistoryEntry)
    ensures
        res@ == e@,
{
    HistoryEntry { id: e.id, url: e.url.clone() }
}

fn copy_entries(v: &Vec<HistoryEntry>) -> (res: Vec<HistoryEntry>)
    ensures
        res@.map_values(|e: HistoryEntry| e@) == v@.map_values(|e: HistoryEntry| e@),
{
    let mut res: Vec<HistoryEntry> = Vec::new();
    let mut i: usize = 0;
    while i < v.len()
        invariant
            i <= v.len(),
            res@.len() == i,
            forall|k: int| 0 <= k < i ==> #[trigger] res@[k]@ == v@[k]@,
        decreases v.len() - i,
    {
        res.push(copy_entry(&v[i]));
        i += 1;
    }
    assert(res@.map_values(|e: HistoryEntry| e@) =~= v@.map_values(|e: HistoryEntry| e@));
    res
}

impl HistorySnapshot {
    /// A copy with the same contents.
    pub fn duplicate(&self) -> (res: HistorySnapshot)
        ensures
            res@ == self@,
    {
        HistorySnapshot {
            entries: copy_entries(&self.entries),
            current: self.current,
            can_go_back: self.can_go_back,
            forward: copy_entries(&self.forward),
        }
    }

    /// The address of the current entry, when the snapshot names one that exists.
    pub fn current_url(&self) -> (res: Option<String>)
        ensures
            match res {
                Some(u) => current_url(self@) == Some(u@),
                None => current_url(self@) is None,
            },
    {
        match self.current {
            Some(id) => if id.0 < self.entries.len() {
                Some(self.entries[id.0].url.clone())
            } else {
                None
            },
            None => None,
        }
    }
}

/// The forward branches a mirrored history offers; none before the first snapshot.
pub open spec fn forward_of(h: Option<HistorySnapshotView>) -> Seq<HistoryEntryView> {
    match h {
        Some(s) => s.forward,
        None => Seq::empty(),
    }
}

/// Session history lives in the engine; the shell only mirrors the latest snapshot it was
/// sent so the back/forward buttons and the forward-branch menu can update without a
/// round-trip. Empty until the first snapshot arrives.
#[derive(Debug, Clone)]
pub struct History {
    snapshot: Option<HistorySnapshot>,
}

impl View for History {
    type V = Option<HistorySnapshotView>;

    closed spec fn view(&self) -> Option<HistorySnapshotView> {
        match self.snapshot {
            Some(s) => Some(s@),
            None => None,
        }
    }
}

impl History {
    pub fn new() -> (res: History)
        ensures
            res@ is None,
    {
        History { snapshot: None }
    }

    pub fn duplicate(&self) -> (res: History)
        ensures
            res@ == self@,
    {
        match &self.snapshot {
            Some(s) => History { snapshot: Some(s.duplicate()) },
            None => History { snapshot: None },
        }
    }

    pub fn update(&mut self, snapshot: HistorySnapshot)
        ensures
            final(self)@ == Some(snapshot@),
    {
        self.snapshot = Some(snapshot);
    }

    pub fn can_go_back(&self) -> (res: bool)
        ensures
            res == (self@ matches Some(s) && s.can_go_back),
    {
        match &self.snapshot {
            Some(s) => s.can_go_back,
            None => false,
        }
    }

    pub fn can_go_forward(&self) -> (res: bool)
        ensures
            res == (self@ matches Some(s) && s.forward.len() > 0),
    {
        match &self.snapshot {
            Some(s) => s.forward.len() > 0,
            None => false,
        }
    }

    /// Forward branches of the current entry (preferred first), as `(id, url)` pairs.
    pub fn forward_children(&self) -> (res: Vec<(HistoryEntryId, String)>)
        ensures
            res@.len() == forward_of(self@).len(),
            forall|i: int| 0 <= i < res@.len() ==> (#[trigger] res@[i]).0 == forward_of(self@)[i].id
                && res@[i].1@ == forward_of(self@)[i].url,
    {
        let mut res: Vec<(HistoryEntryId, String)> = Vec::new();
        match &self.snapshot {
            Some(s) => {
                let mut i: usize = 0;
                while i < s.forward.len()
                    invariant
                        self.snapshot == Some(*s),
                        i <= s.forward.len(),
                        res@.len() == i,
                        forall|k: int| 0 <= k < i ==> #[trigger] res@[k].0 == s.forward@[k].id
                            && res@[k].1@ == s.forward@[k].url@,
                    decreases s.forward.len() - i,
                {
                    res.push((s.forward[i].id, s.forward[i].url.clone()));
                    i += 1;
                }
            },
            None => {},
        }
        assert forall|i: int| 0 <= i < res@.len() implies (#[trigger] res@[i]).0 == forward_of(self@)[i].id
            && res@[i].1@ == forward_of(self@)[i].url by {
            if let Some(s) = &self.snapshot {
                assert(forward_of(self@)[i] == s.forward@[i]@);
            }
        }
        res
    }
}

} // verus!

verus! {

/// Everything a tab holds, as values.
pub struct GosubTabView {
    pub loading: bool,
    pub id: TabId,
    pub pinned: bool,
    pub private: bool,
    pub url: Seq<char>,
    pub history: Option<HistorySnapshotView>,
    pub crashed: Option<Seq<char>>,
    pub title: Seq<char>,
    pub favicon: Option<Seq<u8>>,
    pub content: Seq<char>,
    pub engine_tab: Option<EngineTabId>,
}

/// One tab of the strip: what it shows, and the shell-side state the engine knows nothing
/// about.
#[derive(Debug, Clone)]
pub struct GosubTab {
    /// Tab is currently loading
    loading: bool,
    /// Id of the tab
    id: TabId,
    /// Tab is pinned and cannot be moved from the leftmost position
    pinned: bool,
    /// Tab content is private and not saved in history
    private: bool,
    /// The address loaded into the tab, in its serialized form.
    url: String,
    /// Mirror of the engine's session history for this tab (back/forward state)
    history: History,
    /// Panic message when the engine worker for this tab crashed.
    crashed: Option<String>,
    /// Title of the tab
    title: String,
    /// The tab's favicon, exactly as the engine fetched it: an encoded image, usually
    /// PNG or ICO. Decoding needs a toolkit, so it is left to the frontend.
    favicon: Option<Vec<u8>>,
    /// Actual content (HTML) of the tab
    content: String,
    /// The engine-side tab that drives navigation and rendering, once one is attached.
    engine_tab: Option<EngineTabId>,
}

pub open spec fn opt_string_view(o: Option<String>) -> Option<Seq<char>> {
    match o {
        Some(s) => Some(s@),
        None => None,
    }
}

pub open spec fn opt_bytes_view(o: Option<Vec<u8>>) -> Option<Seq<u8>> {
    match o {
        Some(v) => Some(v@),
        None => None,
    }
}

impl View for GosubTab {
    type V = GosubTabView;

    closed spec fn view(&self) -> GosubTabView {
        GosubTabView {
            loading: self.loading,
            id: self.id,
            pinned: self.pinned,
            private: self.private,
            url: self.url@,
            history: self.history@,
            crashed: opt_string_view(self.crashed),
            title: self.title@,
            favicon: opt_bytes_view(self.favicon),
            content: self.content@,
            engine_tab: self.engine_tab,
        }
    }
}

fn copy_bytes(v: &Vec<u8>) -> (res: Vec<u8>)
    ensures
        res@ == v@,
{
    let mut res: Vec<u8> = Vec::new();
    let mut i: usize = 0;
    while i < v.len()
        invariant
            i <= v.len(),
            res@ == v@.take(i as int),
        decreases v.len() - i,
    {
        res.push(v[i]);
        assert(res@ =~= v@.take(i as int + 1));
        i += 1;
    }
    assert(v@.take(v.len() as int) =~= v@);
    res
}

impl GosubTab {
    /// A fresh, unpinned, idle tab showing `url` under `title`.
    pub fn new(url: String, title: &str) -> (res: GosubTab)
        ensures
            res@.url == url@,
            res@.title == title@,
            !res@.loading,
            !res@.pinned,
            !res@.private,
            res@.history is None,
            res@.crashed is None,
            res@.favicon is None,
            res@.content == Seq::<char>::empty(),
            res@.engine_tab is None,
    {
        GosubTab {
            loading: false,
            id: TabId::new(),
            pinned: false,
            private: false,
            url,
            history: History::new(),
            crashed: None,
            title: title.to_string(),
            favicon: None,
            content: String::new(),
            engine_tab: None,
        }
    }

    /// A copy with the same contents.
    pub fn duplicate(&self) -> (res: GosubTab)
        ensures
            res@ == self@,
    {
        let crashed = match &self.crashed {
            Some(c) => Some(c.clone()),
            None => None,
        };
        let favicon = match &self.favicon {
            Some(f) => Some(copy_bytes(f)),
            None => None,
        };
        GosubTab {
            loading: self.loading,
            id: self.id,
            pinned: self.pinned,
            private: self.private,
            url: self.url.clone(),
            history: self.history.duplicate(),
            crashed,
            title: self.title.clone(),
            favicon,
            content: self.content.clone(),
            engine_tab: self.engine_tab,
        }
    }

    /// The engine tab backing this one, if one has been attached.
    pub fn tab_handle(&self) -> (res: Option<EngineTabId>)
        ensures
            res == self@.engine_tab,
    {
        self.engine_tab
    }

    /// The engine-side tab id, if one has been attached.
    pub fn engine_tab_id(&self) -> (res: Option<EngineTabId>)
        ensures
            res == self@.engine_tab,
    {
        self.engine_tab
    }

    /// Whether this tab is backed by an engine tab yet.
    pub fn has_engine_tab(&self) -> (res: bool)
        ensures
            res == self@.engine_tab is Some,
    {
        self.engine_tab.is_some()
    }

    pub fn set_tab_handle(&mut self, handle: EngineTabId)
        ensures
            final(self)@ == (GosubTabView { engine_tab: Some(handle), ..old(self)@ }),
    {
        self.engine_tab = Some(handle);
    }

    /// Panic message when the tab's engine worker crashed; `None` while healthy.
    pub fn crashed(&self) -> (res: Option<&str>)
        ensures
            match res {
                Some(s) => self@.crashed == Some(s@),
                None => self@.crashed is None,
            },
    {
        match &self.crashed {
            Some(c) => Some(c.as_str()),
            None => None,
        }
    }

    pub fn set_crashed(&mut self, error: Option<String>)
        ensures
            final(self)@ == (GosubTabView { crashed: opt_string_view(error), ..old(self)@ }),
    {
        self.crashed = error;
    }

    pub fn is_loading(&self) -> (res: bool)
        ensures
            res == self@.loading,
    {
        self.loading
    }

    pub fn set_loading(&mut self, loading: bool)
        ensures
            final(self)@ == (GosubTabView { loading, ..old(self)@ }),
    {
        self.loading = loading;
    }

    pub fn id(&self) -> (res: TabId)
        ensures
            res == self@.id,
    {
        self.id
    }

    pub fn url(&self) -> (res: &str)
        ensures
            res@ == self@.url,
    {
        self.url.as_str()
    }

    pub fn title(&self) -> (res: &str)
        ensures
            res@ == self@.title,
    {
        self.title.as_str()
    }

    pub fn set_pinned(&mut self, pinned: bool)
        ensures
            final(self)@ == (GosubTabView { pinned, ..old(self)@ }),
    {
        self.pinned = pinned;
    }

    pub fn is_pinned(&self) -> (res: bool)
        ensures
            res == self@.pinned,
    {
        self.pinned
    }

    pub fn set_private(&mut self, private: bool)
        ensures
            final(self)@ == (GosubTabView { private, ..old(self)@ }),
    {
        self.private = private;
    }

    pub fn set_content(&mut self, content: &str)
        ensures
            final(self)@ == (GosubTabView { content: content@, ..old(self)@ }),
    {
        self.content = content.to_string();
    }

    pub fn content(&self) -> (res: &str)
        ensures
            res@ == self@.content,
    {
        self.content.as_str()
    }

    pub fn set_url(&mut self, url: String)
        ensures
            final(self)@ == (GosubTabView { url: url@, ..old(self)@ }),
    {
        self.url = url;
    }

    pub fn history(&self) -> (res: &History)
        ensures
            res@ == self@.history,
    {
        &self.history
    }

    /// The mirrored session history, to bring up to date.
    pub fn history_mut(&mut self) -> (res: &mut History)
        ensures
            res@ == old(self)@.history,
            final(self)@ == (GosubTabView { history: final(res)@, ..old(self)@ }),
    {
        &mut self.history
    }

    pub fn set_title(&mut self, title: &str)
        ensures
            final(self)@ == (GosubTabView { title: title@, ..old(self)@ }),
    {
        self.title = title.to_string();
    }

    pub fn favicon(&self) -> (res: Option<&[u8]>)
        ensures
            match res {
                Some(b) => self@.favicon == Some(b@),
                None => self@.favicon is None,
            },
    {
        match &self.favicon {
            Some(f) => Some(f.as_slice()),
            None => None,
        }
    }

    pub fn set_favicon(&mut self, favicon: Option<Vec<u8>>)
        ensures
            final(self)@ == (GosubTabView { favicon: opt_bytes_view(favicon), ..old(self)@ }),
    {
        self.favicon = favicon;
    }
}

} // verus!

verus! {

broadcast use vstd::std_specs::hash::group_hash_axioms;

/// What the strip view is told to do on its next refresh.
#[derive(Debug, Clone, Copy, PartialEq, Eq, Structural)]
pub enum TabCommand {
    /// Close the tab.
    Close(TabId),
    /// Close every tab.
    CloseAll,
    /// The tab has been moved to the given strip position.
    Move(TabId, u32),
    /// The tab (or its content) changed.
    Update(TabId),
    /// A new tab sits at the given strip position.
    Insert(TabId, u32),
    /// Make the tab the active one.
    Activate(TabId),
}

/// The tabs, and the two runs of the strip: pinned tabs first, then the unpinned ones.
pub struct StripView {
    /// Every known tab, by the value of its id.
    pub tabs: Map<u128, GosubTabView>,
    pub pinned: Seq<TabId>,
    pub unpinned: Seq<TabId>,
}

/// The lowest position of `x` in `s`, if it occurs.
pub open spec fn first_index(s: Seq<TabId>, x: TabId) -> Option<int>
    decreases s.len(),
{
    if s.len() == 0 {
        None
    } else {
        match first_index(s.drop_last(), x) {
            Some(k) => Some(k),
            None => if s.last() == x {
                Some(s.len() - 1)
            } else {
                None
            },
        }
    }
}

pub proof fn lemma_first_index(s: Seq<TabId>, x: TabId)
    ensures
        match first_index(s, x) {
            Some(k) => 0 <= k < s.len() && s[k] == x && forall|j: int| 0 <= j < k ==> s[j] != x,
            None => !s.contains(x),
        },
    decreases s.len(),
{
    if s.len() > 0 {
        lemma_first_index(s.drop_last(), x);
        assert forall|j: int| 0 <= j < s.len() - 1 implies s.drop_last()[j] == s[j] by {}
        if first_index(s, x) is None {
            assert forall|j: int| 0 <= j < s.len() implies s[j] != x by {
                if j < s.len() - 1 {
                    assert(s.drop_last()[j] == s[j]);
                }
            }
        }
    }
}

/// The order the strip shows: pinned tabs first.
pub open spec fn strip_order(s: StripView) -> Seq<TabId> {
    s.pinned + s.unpinned
}

/// Where a tab added at strip `position` goes within its own run: clamped into that run,
/// appended when no position is given.
pub open spec fn add_local_index(s: StripView, pinned: bool, position: Option<usize>) -> int {
    let list_len = if pinned { s.pinned.len() as int } else { s.unpinned.len() as int };
    match position {
        None => list_len,
        Some(strip) => if pinned {
            if strip < s.pinned.len() { strip as int } else { s.pinned.len() as int }
        } else {
            let wanted = if strip >= s.pinned.len() { strip - s.pinned.len() } else { 0 };
            if wanted < list_len { wanted } else { list_len }
        },
    }
}

/// The strip after pinning `id`: flagged pinned, at the end of the pinned run. A tab
/// already in the pinned run stays where it is, so it is never listed twice.
pub open spec fn strip_after_pin(s: StripView, id: TabId) -> StripView {
    if s.pinned.contains(id) {
        StripView { tabs: s.tabs.insert(id.0, GosubTabView { pinned: true, ..s.tabs[id.0] }), ..s }
    } else {
        StripView {
            tabs: s.tabs.insert(id.0, GosubTabView { pinned: true, ..s.tabs[id.0] }),
            pinned: s.pinned.push(id),
            unpinned: crate::state::without(s.unpinned, id),
        }
    }
}

/// What pinning `id` tells the strip view: the tab changed, and, when it moved, its new
/// strip index (the end of the pinned run).
pub open spec fn pin_commands(s: StripView, id: TabId) -> Seq<TabCommand> {
    if s.pinned.contains(id) {
        seq![TabCommand::Update(id)]
    } else {
        seq![TabCommand::Update(id), TabCommand::Move(id, s.pinned.len() as u32)]
    }
}

/// The strip after unpinning `id`: flagged unpinned, at the front of the unpinned run. A
/// tab already in the unpinned run stays where it is.
pub open spec fn strip_after_unpin(s: StripView, id: TabId) -> StripView {
    if s.unpinned.contains(id) {
        StripView { tabs: s.tabs.insert(id.0, GosubTabView { pinned: false, ..s.tabs[id.0] }), ..s }
    } else {
        StripView {
            tabs: s.tabs.insert(id.0, GosubTabView { pinned: false, ..s.tabs[id.0] }),
            pinned: crate::state::without(s.pinned, id),
            unpinned: seq![id] + s.unpinned,
        }
    }
}

/// What unpinning `id` tells the strip view: the tab changed, and, when it moved, its new
/// strip index (the front of the unpinned run).
pub open spec fn unpin_commands(s: StripView, id: TabId) -> Seq<TabCommand> {
    if s.unpinned.contains(id) {
        seq![TabCommand::Update(id)]
    } else {
        seq![TabCommand::Update(id), TabCommand::Move(id, strip_after_unpin(s, id).pinned.len() as u32)]
    }
}

/// The strip position a tab added at `position` ends up at.
pub open spec fn add_strip_index(s: StripView, pinned: bool, position: Option<usize>) -> int {
    if pinned {
        add_local_index(s, pinned, position)
    } else {
        s.pinned.len() + add_local_index(s, pinned, position)
    }
}

/// The strip after adding `tab` at `position`.
pub open spec fn strip_after_add(s: StripView, tab: GosubTabView, position: Option<usize>) -> StripView {
    let local = add_local_index(s, tab.pinned, position);
    StripView {
        tabs: s.tabs.insert(tab.id.0, tab),
        pinned: if tab.pinned { s.pinned.insert(local, tab.id) } else { s.pinned },
        unpinned: if tab.pinned { s.unpinned } else { s.unpinned.insert(local, tab.id) },
    }
}

/// The tab that takes focus once the one at `index` has left `order`: the one before
/// it, or else whichever shifted into its place.
pub open spec fn neighbour_of(order: Seq<TabId>, index: int) -> Option<TabId> {
    if index == 0 {
        if order.len() > 0 { Some(order[0]) } else { None }
    } else if 0 <= index - 1 < order.len() {
        Some(order[index - 1])
    } else {
        None
    }
}

/// The strip after closing `id`: gone from the tabs and from whichever run held it.
pub open spec fn strip_after_remove(s: StripView, id: TabId) -> StripView {
    StripView {
        tabs: s.tabs.remove(id.0),
        pinned: match first_index(s.pinned, id) {
            Some(i) => s.pinned.remove(i),
            None => s.pinned,
        },
        unpinned: match first_index(s.pinned, id) {
            Some(_) => s.unpinned,
            None => match first_index(s.unpinned, id) {
                Some(i) => s.unpinned.remove(i),
                None => s.unpinned,
            },
        },
    }
}

/// The commands closing `id` emits: `Close`, then `Activate` of the tab that takes over
/// focus; nothing when the tab was in neither run.
pub open spec fn remove_commands(s: StripView, id: TabId) -> Seq<TabCommand> {
    if first_index(s.pinned, id) is None && first_index(s.unpinned, id) is None {
        Seq::empty()
    } else {
        match remove_next(s, id) {
            Some(t) => seq![TabCommand::Close(id), TabCommand::Activate(t)],
            None => seq![TabCommand::Close(id)],
        }
    }
}

/// The tab that takes focus when `id` is closed: its neighbour in its own run, or else the
/// nearest tab of the other run.
pub open spec fn remove_next(s: StripView, id: TabId) -> Option<TabId> {
    let after = strip_after_remove(s, id);
    match first_index(s.pinned, id) {
        Some(i) => match neighbour_of(after.pinned, i) {
            Some(t) => Some(t),
            None => if s.unpinned.len() > 0 { Some(s.unpinned[0]) } else { None },
        },
        None => match first_index(s.unpinned, id) {
            Some(i) => match neighbour_of(after.unpinned, i) {
                Some(t) => Some(t),
                None => if s.pinned.len() > 0 { Some(s.pinned.last()) } else { None },
            },
            None => None,
        },
    }
}

/// Where a reorder of `id` to strip `position` moves it: `(pinned run?, from, to)` within
/// its own run, or `None` when nothing moves (unknown tab, a run that does not hold it, or
/// the slot it already has).
pub open spec fn reorder_move(s: StripView, id: TabId, position: usize) -> Option<(bool, int, int)> {
    if !s.tabs.contains_key(id.0) {
        None
    } else {
        let pinned = s.tabs[id.0].pinned;
        let list = if pinned { s.pinned } else { s.unpinned };
        match first_index(list, id) {
            None => None,
            Some(from) => {
                let wanted = if pinned {
                    position as int
                } else if position >= s.pinned.len() {
                    position - s.pinned.len()
                } else {
                    0
                };
                let target = if wanted < list.len() - 1 { wanted } else { list.len() - 1 };
                if target == from { None } else { Some((pinned, from, target)) }
            },
        }
    }
}

/// The strip after a reorder: the tab taken out of its run and put back at the target.
pub open spec fn strip_after_reorder(s: StripView, id: TabId, position: usize) -> StripView {
    match reorder_move(s, id, position) {
        None => s,
        Some((pinned, from, to)) => StripView {
            tabs: s.tabs,
            pinned: if pinned { s.pinned.remove(from).insert(to, id) } else { s.pinned },
            unpinned: if pinned { s.unpinned } else { s.unpinned.remove(from).insert(to, id) },
        },
    }
}

/// The commands a reorder emits: one `Move` to the tab's new strip index, if it moved.
pub open spec fn reorder_commands(s: StripView, id: TabId, position: usize) -> Seq<TabCommand> {
    match reorder_move(s, id, position) {
        None => Seq::empty(),
        Some((pinned, _from, to)) => {
            let global = if pinned { to } else { s.pinned.len() + to };
            seq![TabCommand::Move(id, global as u32)]
        },
    }
}

/// The unpinned known tabs in `prefix`, in order: what "Close Tabs to Left" closes.
pub open spec fn closable(prefix: Seq<TabId>, tabs: Map<u128, GosubTabView>) -> Seq<TabId>
    decreases prefix.len(),
{
    if prefix.len() == 0 {
        Seq::empty()
    } else {
        let rest = closable(prefix.drop_last(), tabs);
        let last = prefix.last();
        if tabs.contains_key(last.0) && !tabs[last.0].pinned {
            rest.push(last)
        } else {
            rest
        }
    }
}

/// The part of `order` before the first `id` (all of it when `id` is absent).
pub open spec fn before(order: Seq<TabId>, id: TabId) -> Seq<TabId> {
    match first_index(order, id) {
        Some(k) => order.take(k),
        None => order,
    }
}

/// Finds the first position of `x` in `v`.
pub(crate) fn position_of(v: &Vec<TabId>, x: TabId) -> (res: Option<usize>)
    ensures
        match first_index(v@, x) {
            Some(k) => 0 <= k < v@.len() && res == Some(k as usize),
            None => res is None,
        },
        match res {
            Some(k) => k < v@.len() && v@[k as int] == x && first_index(v@, x) == Some(k as int),
            None => !v@.contains(x) && first_index(v@, x) is None,
        },
{
    proof { lemma_first_index(v@, x); }
    let mut i: usize = 0;
    while i < v.len()
        invariant
            i <= v.len(),
            first_index(v@.take(i as int), x) is None,
        decreases v.len() - i,
    {
        assert(v@.take(i as int + 1).drop_last() =~= v@.take(i as int));
        if v[i] == x {
            assert(first_index(v@.take(i as int + 1), x) == Some(i as int));
            proof { lemma_first_index_prefix(v@, x, i as int + 1); }
            return Some(i);
        }
        i += 1;
    }
    assert(v@.take(v.len() as int) =~= v@);
    None
}

/// The tab that takes focus once the one at `index` has left `order`.
fn neighbour(order: &Vec<TabId>, index: usize) -> (res: Option<TabId>)
    ensures
        res == neighbour_of(order@, index as int),
{
    if index == 0 {
        if order.len() > 0 { Some(order[0]) } else { None }
    } else if index - 1 < order.len() {
        Some(order[index - 1])
    } else {
        None
    }
}

/// A first occurrence found in a prefix is the first occurrence in the whole sequence.
proof fn lemma_first_index_prefix(s: Seq<TabId>, x: TabId, n: int)
    requires
        0 <= n <= s.len(),
        first_index(s.take(n), x) is Some,
    ensures
        first_index(s, x) == first_index(s.take(n), x),
    decreases s.len() - n,
{
    if n < s.len() {
        assert(s.take(n + 1).drop_last() =~= s.take(n));
        lemma_first_index_prefix(s, x, n + 1);
    } else {
        assert(s.take(n) =~= s);
    }
}

/// All known tabs, and the order the strip shows them in.
pub struct GosubTabManager {
    // All known tabs in the system, by the value of their id.
    tabs: std::collections::HashMap<u128, GosubTab>,
    // Actual ordering of the pinned tabs in the strip.
    pinned_tab_order: Vec<TabId>,
    // Actual ordering of the unpinned tabs in the strip.
    unpinned_tab_order: Vec<TabId>,
    // list of commands to execute on the next strip update
    commands: Vec<TabCommand>,
    // The tab most recently made active.
    active: Option<TabId>,
}

impl Default for GosubTabManager {
    /// An empty manager, as [`GosubTabManager::new`] makes.
    fn default() -> (res: Self)
        ensures
            res.strip().tabs == Map::<u128, GosubTabView>::empty(),
            res.strip().pinned == Seq::<TabId>::empty(),
            res.strip().unpinned == Seq::<TabId>::empty(),
            res.pending() == Seq::<TabCommand>::empty(),
            res.active_tab() is None,
    {
        GosubTabManager::new()
    }
}

impl GosubTabManager {
    /// The tabs and both runs of the strip.
    pub closed spec fn strip(&self) -> StripView {
        StripView {
            tabs: self.tabs@.map_values(|t: GosubTab| t@),
            pinned: self.pinned_tab_order@,
            unpinned: self.unpinned_tab_order@,
        }
    }

    /// The commands queued for the strip view, oldest first.
    pub closed spec fn pending(&self) -> Seq<TabCommand> {
        self.commands@
    }

    /// The tab most recently made active, if any.
    pub closed spec fn active_tab(&self) -> Option<TabId> {
        self.active
    }

    /// The pinned run of the strip, left to right.
    pub fn pinned_tab_order(&self) -> (res: &[TabId])
        ensures
            res@ == self.strip().pinned,
    {
        self.pinned_tab_order.as_slice()
    }

    /// The unpinned run of the strip, left to right.
    pub fn unpinned_tab_order(&self) -> (res: &[TabId])
        ensures
            res@ == self.strip().unpinned,
    {
        self.unpinned_tab_order.as_slice()
    }

    /// The tab the user is looking at: the one most recently made active.
    pub fn active(&self) -> (res: Option<TabId>)
        ensures
            res == self.active_tab(),
    {
        self.active
    }

    pub fn new() -> (res: Self)
        ensures
            res.strip().tabs == Map::<u128, GosubTabView>::empty(),
            res.strip().pinned == Seq::<TabId>::empty(),
            res.strip().unpinned == Seq::<TabId>::empty(),
            res.pending() == Seq::<TabCommand>::empty(),
            res.active_tab() is None,
    {
        let res = GosubTabManager {
            tabs: std::collections::HashMap::new(),
            unpinned_tab_order: Vec::new(),
            pinned_tab_order: Vec::new(),
            commands: Vec::new(),
            active: None,
        };
        assert(res.strip().tabs =~= Map::<u128, GosubTabView>::empty());
        res
    }

    pub fn get_by_tab(&self, tab_id: TabId) -> (res: Option<&GosubTab>)
        ensures
            match res {
                Some(t) => self.strip().tabs.contains_key(tab_id.0) && self.strip().tabs[tab_id.0] == t@,
                None => !self.strip().tabs.contains_key(tab_id.0),
            },
    {
        self.tabs.get(&tab_id.0)
    }

    /// Hand over the queued commands, leaving the queue empty.
    pub fn commands(&mut self) -> (res: Vec<TabCommand>)
        ensures
            final(self).active_tab() == old(self).active_tab(),
            res@ == old(self).pending(),
            final(self).pending() == Seq::<TabCommand>::empty(),
            final(self).strip() == old(self).strip(),
    {
        let mut taken: Vec<TabCommand> = Vec::new();
        std::mem::swap(&mut taken, &mut self.commands);
        taken
    }

    pub fn tab_count(&self) -> (res: usize)
        ensures
            res == self.strip().tabs.len(),
    {
        assert(self.strip().tabs.dom() =~= self.tabs@.dom());
        self.tabs.len()
    }

    /// Whether the tab is the leftmost unpinned tab.
    pub fn is_most_left_unpinned_tab(&self, tab_id: TabId) -> (res: bool)
        ensures
            res == (self.strip().unpinned.len() > 0 && self.strip().unpinned[0] == tab_id),
    {
        self.unpinned_tab_order.len() > 0 && self.unpinned_tab_order[0] == tab_id
    }

    /// Whether the tab is the rightmost tab of the strip (the last pinned tab when every
    /// tab is pinned).
    pub fn is_most_right_tab(&self, tab_id: TabId) -> (res: bool)
        ensures
            res == (strip_order(self.strip()).len() > 0 && strip_order(self.strip()).last() == tab_id),
    {
        let n = self.unpinned_tab_order.len();
        if n > 0 {
            self.unpinned_tab_order[n - 1] == tab_id
        } else {
            let p = self.pinned_tab_order.len();
            assert(strip_order(self.strip()) =~= self.strip().pinned);
            p > 0 && self.pinned_tab_order[p - 1] == tab_id
        }
    }

    pub fn set_active(&mut self, tab_id: TabId)
        ensures
            final(self).strip() == old(self).strip(),
            final(self).pending() == old(self).pending().push(TabCommand::Activate(tab_id)),
            final(self).active_tab() == Some(tab_id),
    {
        self.commands.push(TabCommand::Activate(tab_id));
        self.active = Some(tab_id);
    }

    pub fn notify_tab_changed(&mut self, tab_id: TabId)
        ensures
            final(self).active_tab() == old(self).active_tab(),
            final(self).strip() == old(self).strip(),
            final(self).pending() == old(self).pending().push(TabCommand::Update(tab_id)),
    {
        self.commands.push(TabCommand::Update(tab_id));
    }

    /// Store `tab` under `tab_id` and tell the view it changed.
    pub fn update_tab(&mut self, tab_id: TabId, tab: &GosubTab)
        ensures
            final(self).active_tab() == old(self).active_tab(),
            final(self).strip() == (StripView { tabs: old(self).strip().tabs.insert(tab_id.0, tab@), ..old(self).strip() }),
            final(self).pending() == old(self).pending().push(TabCommand::Update(tab_id)),
    {
        self.tabs.insert(tab_id.0, tab.duplicate());
        assert(self.strip().tabs =~= old(self).strip().tabs.insert(tab_id.0, tab@));
        self.notify_tab_changed(tab_id);
    }

    pub fn get_tab(&self, tab_id: TabId) -> (res: Option<GosubTab>)
        ensures
            match res {
                Some(t) => self.strip().tabs.contains_key(tab_id.0) && self.strip().tabs[tab_id.0] == t@,
                None => !self.strip().tabs.contains_key(tab_id.0),
            },
    {
        match self.tabs.get(&tab_id.0) {
            Some(tab) => Some(tab.duplicate()),
            None => None,
        }
    }

    /// Pin a tab: it moves to the end of the pinned run. A tab that is already pinned
    /// keeps its place; only its `Update` is sent.
    pub fn pin_tab(&mut self, tab_id: TabId)
        requires
            old(self).strip().tabs.contains_key(tab_id.0),
        ensures
            final(self).active_tab() == old(self).active_tab(),
            final(self).strip() == strip_after_pin(old(self).strip(), tab_id),
            final(self).pending() == old(self).pending() + pin_commands(old(self).strip(), tab_id),
    {
        let mut tab = match self.tabs.get(&tab_id.0) {
            Some(t) => t.duplicate(),
            None => {
                assert(false);
                return;
            },
        };
        tab.set_pinned(true);
        let ghost tv = tab@;
        self.tabs.insert(tab_id.0, tab);
        assert(self.strip().tabs =~= old(self).strip().tabs.insert(tab_id.0, tv));

        if crate::state::vec_contains(&self.pinned_tab_order, tab_id) {
            self.commands.push(TabCommand::Update(tab_id));
            assert(self.pending() =~= old(self).pending() + pin_commands(old(self).strip(), tab_id));
            return;
        }
        self.unpinned_tab_order = crate::state::remove_all(&self.unpinned_tab_order, tab_id);
        self.pinned_tab_order.push(tab_id);

        // The tab has moved to the end of the pinned run.
        self.commands.push(TabCommand::Update(tab_id));
        let last = self.pinned_tab_order.len() - 1;
        self.commands.push(TabCommand::Move(tab_id, last as u32));
        assert(self.pending() =~= old(self).pending() + pin_commands(old(self).strip(), tab_id));
    }

    /// Unpin a tab: it moves to the front of the unpinned run. A tab that is already
    /// unpinned keeps its place; only its `Update` is sent.
    pub fn unpin_tab(&mut self, tab_id: TabId)
        requires
            old(self).strip().tabs.contains_key(tab_id.0),
        ensures
            final(self).active_tab() == old(self).active_tab(),
            final(self).strip() == strip_after_unpin(old(self).strip(), tab_id),
            final(self).pending() == old(self).pending() + unpin_commands(old(self).strip(), tab_id),
    {
        let mut tab = match self.tabs.get(&tab_id.0) {
            Some(t) => t.duplicate(),
            None => {
                assert(false);
                return;
            },
        };
        tab.set_pinned(false);
        let ghost tv = tab@;
        self.tabs.insert(tab_id.0, tab);
        assert(self.strip().tabs =~= old(self).strip().tabs.insert(tab_id.0, tv));

        if crate::state::vec_contains(&self.unpinned_tab_order, tab_id) {
            self.commands.push(TabCommand::Update(tab_id));
            assert(self.pending() =~= old(self).pending() + unpin_commands(old(self).strip(), tab_id));
            return;
        }
        self.pinned_tab_order = crate::state::remove_all(&self.pinned_tab_order, tab_id);
        self.unpinned_tab_order.insert(0, tab_id);
        assert(self.unpinned_tab_order@ =~= seq![tab_id] + old(self).strip().unpinned);

        // The tab has moved to the front of the unpinned run.
        self.commands.push(TabCommand::Update(tab_id));
        let first = self.pinned_tab_order.len();
        self.commands.push(TabCommand::Move(tab_id, first as u32));
        assert(self.pending() =~= old(self).pending() + unpin_commands(old(self).strip(), tab_id));
    }

    /// Add `tab`, optionally at `position`, an index into the visible strip (see
    /// [`Self::order`]); `None` appends. Pinned tabs occupy the front of the strip, so a
    /// position pointing into the other run is clamped to the nearest slot of the tab's own
    /// run. The `Insert` command carries the strip index the tab ended up at.
    pub fn add_tab(&mut self, tab: GosubTab, position: Option<usize>) -> (res: TabId)
        requires
            old(self).strip().pinned.len() + old(self).strip().unpinned.len() < usize::MAX,
        ensures
            final(self).active_tab() == old(self).active_tab(),
            res == tab@.id,
            final(self).strip() == strip_after_add(old(self).strip(), tab@, position),
            final(self).pending() == old(self).pending().push(TabCommand::Insert(
                tab@.id,
                add_strip_index(old(self).strip(), tab@.pinned, position) as u32,
            )),
    {
        let tab_id = tab.id();
        let pinned = tab.is_pinned();
        let pinned_len = self.pinned_tab_order.len();
        let unpinned_len = self.unpinned_tab_order.len();

        // Strip index -> index within the run this tab belongs to.
        let local: usize = match position {
            None => if pinned { pinned_len } else { unpinned_len },
            Some(strip) => if pinned {
                if strip < pinned_len { strip } else { pinned_len }
            } else {
                let wanted = if strip >= pinned_len { strip - pinned_len } else { 0 };
                if wanted < unpinned_len { wanted } else { unpinned_len }
            },
        };
        if pinned {
            self.pinned_tab_order.insert(local, tab_id);
        } else {
            self.unpinned_tab_order.insert(local, tab_id);
        }

        // Report the resting place as a strip index, matching what the view consumes.
        let global: usize = if pinned { local } else { pinned_len + local };
        self.commands.push(TabCommand::Insert(tab_id, global as u32));

        let ghost tv = tab@;
        self.tabs.insert(tab_id.0, tab);
        assert(self.strip().tabs =~= old(self).strip().tabs.insert(tv.id.0, tv));
        tab_id
    }

    /// Close a tab: it leaves the tabs and whichever run held it, and the tab before it
    /// (or else the one that shifted into its place, or else the nearest tab of the other
    /// run) is activated.
    pub fn remove_tab(&mut self, tab_id: TabId)
        ensures
            final(self).active_tab() == if remove_commands(old(self).strip(), tab_id).len() == 2 {
                remove_next(old(self).strip(), tab_id)
            } else {
                old(self).active_tab()
            },
            final(self).strip() == strip_after_remove(old(self).strip(), tab_id),
            final(self).pending() == old(self).pending() + remove_commands(old(self).strip(), tab_id),
    {
        let from_pinned = position_of(&self.pinned_tab_order, tab_id);
        let from_unpinned = position_of(&self.unpinned_tab_order, tab_id);
        let ghost s = old(self).strip();
        let ghost after = strip_after_remove(s, tab_id);
        assert(from_unpinned matches Some(i) ==> first_index(s.unpinned, tab_id) == Some(i as int));
        assert(from_pinned matches Some(i) ==> first_index(s.pinned, tab_id) == Some(i as int));

        let next_active: Option<TabId> = match from_pinned {
            Some(index) => {
                self.pinned_tab_order.remove(index);
                let n = neighbour(&self.pinned_tab_order, index);
                match n {
                    Some(t) => Some(t),
                    None => if self.unpinned_tab_order.len() > 0 {
                        Some(self.unpinned_tab_order[0])
                    } else {
                        None
                    },
                }
            },
            None => match from_unpinned {
                Some(index) => {
                    self.unpinned_tab_order.remove(index);
                    assert(first_index(s.pinned, tab_id) is None);
                    assert(first_index(s.unpinned, tab_id) == Some(index as int));
                    let n = neighbour(&self.unpinned_tab_order, index);
                    match n {
                        Some(t) => Some(t),
                        None => {
                            let p = self.pinned_tab_order.len();
                            if p > 0 {
                                Some(self.pinned_tab_order[p - 1])
                            } else {
                                None
                            }
                        },
                    }
                },
                // In neither run: there is no chip or page to tear down.
                None => {
                    self.tabs.remove(&tab_id.0);
                    assert(self.strip().tabs =~= s.tabs.remove(tab_id.0));
                    assert(self.pending() =~= old(self).pending() + remove_commands(s, tab_id));
                    return;
                },
            },
        };

        assert(next_active == remove_next(s, tab_id));
        self.commands.push(TabCommand::Close(tab_id));
        if let Some(new_active_tab) = next_active {
            self.set_active(new_active_tab);
        }
        self.tabs.remove(&tab_id.0);
        assert(self.strip().tabs =~= s.tabs.remove(tab_id.0));
        assert(self.pending() =~= old(self).pending() + remove_commands(s, tab_id));
    }

    /// The tabs "Close Tabs to Left" should close: every known unpinned tab before
    /// `tab_id` in the visible order. Pinned tabs are skipped rather than closed.
    pub fn closable_tabs_left_of(&self, tab_id: TabId) -> (res: Vec<TabId>)
        ensures
            res@ == closable(before(strip_order(self.strip()), tab_id), self.strip().tabs),
    {
        let order = self.order();
        let found = position_of(&order, tab_id);
        let stop: usize = match found {
            Some(k) => k,
            None => order.len(),
        };
        proof {
            match first_index(order@, tab_id) {
                Some(k) => assert(before(order@, tab_id) == order@.take(stop as int)),
                None => assert(before(order@, tab_id) =~= order@.take(stop as int)),
            }
        }
        let mut res: Vec<TabId> = Vec::new();
        let mut i: usize = 0;
        while i < stop
            invariant
                stop <= order.len(),
                i <= stop,
                res@ == closable(order@.take(i as int), self.strip().tabs),
            decreases stop - i,
        {
            let id = order[i];
            assert(order@.take(i as int + 1).drop_last() =~= order@.take(i as int));
            match self.tabs.get(&id.0) {
                Some(tab) => {
                    if !tab.is_pinned() {
                        res.push(id);
                    }
                },
                None => {},
            }
            i += 1;
        }
        res
    }

    /// Move `tab_id` to `position`, an index into the visible strip. Reordering never
    /// moves a tab across the pinned boundary: a target past either end of the tab's own
    /// run clamps to that run's nearest slot. Unknown tabs, and moves to the slot the tab
    /// already has, change nothing and emit nothing.
    pub fn reorder(&mut self, tab_id: TabId, position: usize)
        ensures
            final(self).active_tab() == old(self).active_tab(),
            final(self).strip() == strip_after_reorder(old(self).strip(), tab_id, position),
            final(self).pending() == old(self).pending() + reorder_commands(old(self).strip(), tab_id, position),
    {
        let ghost s = old(self).strip();
        let pinned = match self.tabs.get(&tab_id.0) {
            Some(tab) => {
                assert(s.tabs.contains_key(tab_id.0));
                assert(s.tabs[tab_id.0] == tab@);
                tab.is_pinned()
            },
            None => {
                assert(self.pending() =~= old(self).pending() + reorder_commands(s, tab_id, position));
                return;
            },
        };
        let pinned_len = self.pinned_tab_order.len();
        let from = if pinned {
            position_of(&self.pinned_tab_order, tab_id)
        } else {
            position_of(&self.unpinned_tab_order, tab_id)
        };
        let from = match from {
            Some(f) => f,
            None => {
                // The pinned flag disagrees with run membership.
                assert(self.pending() =~= old(self).pending() + reorder_commands(s, tab_id, position));
                return;
            },
        };
        let len = if pinned { pinned_len } else { self.unpinned_tab_order.len() };
        let wanted: usize = if pinned {
            position
        } else if position >= pinned_len {
            position - pinned_len
        } else {
            0
        };
        let local_target: usize = if wanted < len - 1 { wanted } else { len - 1 };
        if local_target == from {
            assert(self.pending() =~= old(self).pending() + reorder_commands(s, tab_id, position));
            return;
        }
        if pinned {
            self.pinned_tab_order.remove(from);
            self.pinned_tab_order.insert(local_target, tab_id);
        } else {
            self.unpinned_tab_order.remove(from);
            self.unpinned_tab_order.insert(local_target, tab_id);
        }

        // Report the resting place as a strip index, matching what the view expects.
        let global: u128 = if pinned { local_target as u128 } else { pinned_len as u128 + local_target as u128 };
        self.commands.push(TabCommand::Move(tab_id, global as u32));
        assert(self.pending() =~= old(self).pending() + reorder_commands(s, tab_id, position));
    }

    /// The strip as shown: pinned tabs first, then the unpinned ones.
    pub fn order(&self) -> (res: Vec<TabId>)
        ensures
            res@ == strip_order(self.strip()),
    {
        let mut order: Vec<TabId> = Vec::new();
        let mut i: usize = 0;
        while i < self.pinned_tab_order.len()
            invariant
                i <= self.pinned_tab_order.len(),
                order@ == self.pinned_tab_order@.take(i as int),
            decreases self.pinned_tab_order.len() - i,
        {
            order.push(self.pinned_tab_order[i]);
            assert(order@ =~= self.pinned_tab_order@.take(i as int + 1));
            i += 1;
        }
        let mut j: usize = 0;
        while j < self.unpinned_tab_order.len()
            invariant
                j <= self.unpinned_tab_order.len(),
                order@ == self.pinned_tab_order@ + self.unpinned_tab_order@.take(j as int),
            decreases self.unpinned_tab_order.len() - j,
        {
            order.push(self.unpinned_tab_order[j]);
            assert(order@ =~= self.pinned_tab_order@ + self.unpinned_tab_order@.take(j as int + 1));
            j += 1;
        }
        assert(order@ =~= self.pinned_tab_order@ + self.unpinned_tab_order@);
        order
    }
}

} // verus!

verus! {

use crate::state::{distinct, without, lemma_insert_contains, lemma_insert_distinct, lemma_remove_distinct,
    lemma_without_contents, lemma_without_distinct};

/// The strip's invariant: every known tab sits in exactly one run, once, in the run its
/// pinned flag names, and each tab is stored under its own id.
pub open spec fn strip_consistent(s: StripView) -> bool {
    &&& distinct(s.pinned)
    &&& distinct(s.unpinned)
    &&& forall|id: TabId| s.pinned.contains(id) ==> !s.unpinned.contains(id)
    &&& forall|k: u128| #[trigger] s.tabs.contains_key(k) <==> (s.pinned.contains(TabId(k)) || s.unpinned.contains(TabId(k)))
    &&& forall|k: u128| #[trigger] s.tabs.contains_key(k) ==> s.tabs[k].id == TabId(k)
    &&& forall|k: u128| #[trigger] s.tabs.contains_key(k) ==> (s.tabs[k].pinned <==> s.pinned.contains(TabId(k)))
}

/// Adding a tab whose id is new keeps the strip consistent, and the tab lands at exactly
/// the strip index the `Insert` command reports, on the side of the pinned boundary its
/// flag names.
pub proof fn add_tab_lands_where_it_says(s: StripView, tab: GosubTabView, position: Option<usize>)
    requires
        strip_consistent(s),
        !s.tabs.contains_key(tab.id.0),
    ensures
        strip_consistent(strip_after_add(s, tab, position)),
        0 <= add_strip_index(s, tab.pinned, position) < strip_order(strip_after_add(s, tab, position)).len(),
        strip_order(strip_after_add(s, tab, position))[add_strip_index(s, tab.pinned, position)] == tab.id,
        tab.pinned ==> add_strip_index(s, tab.pinned, position) < strip_after_add(s, tab, position).pinned.len(),
        !tab.pinned ==> add_strip_index(s, tab.pinned, position) >= strip_after_add(s, tab, position).pinned.len(),
{
    let a = strip_after_add(s, tab, position);
    let local = add_local_index(s, tab.pinned, position);
    let id = tab.id;
    assert(!s.pinned.contains(id) && !s.unpinned.contains(id));
    if tab.pinned {
        lemma_insert_contains(s.pinned, local, id);
        lemma_insert_distinct(s.pinned, local, id);
        assert(strip_order(a)[local] == a.pinned[local]);
    } else {
        lemma_insert_contains(s.unpinned, local, id);
        lemma_insert_distinct(s.unpinned, local, id);
        assert(strip_order(a)[s.pinned.len() + local] == a.unpinned[local]);
    }
    assert forall|k: u128| #[trigger] a.tabs.contains_key(k) <==> (a.pinned.contains(TabId(k)) || a.unpinned.contains(TabId(k))) by {
        if k != id.0 {
            assert(TabId(k) != id);
        }
    }
    assert forall|k: u128| #[trigger] a.tabs.contains_key(k) ==> (a.tabs[k].pinned <==> a.pinned.contains(TabId(k))) by {
        if k != id.0 {
            assert(TabId(k) != id);
        }
    }
}

/// Closing a tab keeps the strip consistent; the tab is gone from the tabs and from the
/// strip, and every other tab stays where it was in the order.
pub proof fn remove_tab_leaves_the_others(s: StripView, id: TabId)
    requires
        strip_consistent(s),
    ensures
        strip_consistent(strip_after_remove(s, id)),
        !strip_after_remove(s, id).tabs.contains_key(id.0),
        !strip_order(strip_after_remove(s, id)).contains(id),
        forall|y: TabId| y != id ==> (#[trigger] strip_order(strip_after_remove(s, id)).contains(y)
            <==> strip_order(s).contains(y)),
{
    let a = strip_after_remove(s, id);
    lemma_first_index(s.pinned, id);
    lemma_first_index(s.unpinned, id);
    match first_index(s.pinned, id) {
        Some(i) => {
            lemma_remove_distinct(s.pinned, i);
            assert(!s.unpinned.contains(id));
        },
        None => match first_index(s.unpinned, id) {
            Some(i) => {
                lemma_remove_distinct(s.unpinned, i);
            },
            None => {},
        },
    }
    lemma_order_contains(s);
    lemma_order_contains(a);
    assert forall|k: u128| #[trigger] a.tabs.contains_key(k) <==> (a.pinned.contains(TabId(k)) || a.unpinned.contains(TabId(k))) by {
        if k != id.0 {
            assert(TabId(k) != id);
        } else {
            assert(TabId(k) == id);
        }
    }
    assert forall|k: u128| #[trigger] a.tabs.contains_key(k) ==> (a.tabs[k].pinned <==> a.pinned.contains(TabId(k))) by {
        if k != id.0 {
            assert(TabId(k) != id);
        }
    }
}

/// Membership of the strip order is membership of either run.
pub proof fn lemma_order_contains(s: StripView)
    ensures
        forall|y: TabId| #[trigger] strip_order(s).contains(y) <==> (s.pinned.contains(y) || s.unpinned.contains(y)),
{
    let o = strip_order(s);
    assert forall|y: TabId| #[trigger] o.contains(y) <==> (s.pinned.contains(y) || s.unpinned.contains(y)) by {
        if o.contains(y) {
            let k = choose|k: int| 0 <= k < o.len() && o[k] == y;
            if k < s.pinned.len() {
                assert(s.pinned[k] == y);
            } else {
                assert(s.unpinned[k - s.pinned.len()] == y);
            }
        }
        if s.pinned.contains(y) {
            let k = choose|k: int| 0 <= k < s.pinned.len() && s.pinned[k] == y;
            assert(o[k] == y);
        }
        if s.unpinned.contains(y) {
            let k = choose|k: int| 0 <= k < s.unpinned.len() && s.unpinned[k] == y;
            assert(o[s.pinned.len() + k] == y);
        }
    }
}

} // verus!

verus! {

/// Pinning keeps the strip consistent and lists every tab exactly once: an unpinned tab
/// leaves the unpinned run and becomes the last pinned tab, which is the strip index its
/// `Move` command reports; a tab that is already pinned stays where it is.
pub proof fn pin_tab_lists_each_tab_once(s: StripView, id: TabId)
    requires
        strip_consistent(s),
        s.tabs.contains_key(id.0),
    ensures
        strip_consistent(strip_after_pin(s, id)),
        strip_after_pin(s, id).tabs[id.0].pinned,
        strip_after_pin(s, id).tabs.dom() == s.tabs.dom(),
        strip_order(strip_after_pin(s, id)).len() == strip_order(s).len(),
        !s.tabs[id.0].pinned ==> strip_order(strip_after_pin(s, id))[s.pinned.len() as int] == id,
        s.tabs[id.0].pinned ==> strip_order(strip_after_pin(s, id)) == strip_order(s),
{
    let a = strip_after_pin(s, id);
    if s.pinned.contains(id) {
        assert(s.tabs[id.0].id == id);
        assert(GosubTabView { pinned: true, ..s.tabs[id.0] } == s.tabs[id.0]);
        assert(a.tabs =~= s.tabs);
        return;
    }
    assert(s.unpinned.contains(id));
    lemma_without_contents(s.unpinned, id);
    lemma_without_distinct(s.unpinned, id);
    crate::state::lemma_without_len(s.unpinned, id);
    lemma_insert_distinct(s.pinned, s.pinned.len() as int, id);
    lemma_insert_contains(s.pinned, s.pinned.len() as int, id);
    assert(s.pinned.insert(s.pinned.len() as int, id) =~= a.pinned);
    assert(strip_order(a)[s.pinned.len() as int] == a.pinned[s.pinned.len() as int]);
    assert forall|k: u128| #[trigger] a.tabs.contains_key(k) <==> (a.pinned.contains(TabId(k)) || a.unpinned.contains(TabId(k))) by {
        if k != id.0 {
            assert(TabId(k) != id);
        }
    }
    assert forall|k: u128| #[trigger] a.tabs.contains_key(k) ==> (a.tabs[k].pinned <==> a.pinned.contains(TabId(k))) by {
        if k != id.0 {
            assert(TabId(k) != id);
        }
    }
    assert(a.tabs.dom() =~= s.tabs.dom());
}

/// Unpinning keeps the strip consistent and lists every tab exactly once: a pinned tab
/// leaves the pinned run and becomes the first unpinned tab, which is the strip index its
/// `Move` command reports; a tab that is already unpinned stays where it is.
pub proof fn unpin_tab_lists_each_tab_once(s: StripView, id: TabId)
    requires
        strip_consistent(s),
        s.tabs.contains_key(id.0),
    ensures
        strip_consistent(strip_after_unpin(s, id)),
        !strip_after_unpin(s, id).tabs[id.0].pinned,
        strip_after_unpin(s, id).tabs.dom() == s.tabs.dom(),
        strip_order(strip_after_unpin(s, id)).len() == strip_order(s).len(),
        s.tabs[id.0].pinned ==> strip_order(strip_after_unpin(s, id))[strip_after_unpin(s, id).pinned.len() as int] == id,
        !s.tabs[id.0].pinned ==> strip_order(strip_after_unpin(s, id)) == strip_order(s),
{
    let a = strip_after_unpin(s, id);
    if s.unpinned.contains(id) {
        assert(!s.pinned.contains(id));
        assert(s.tabs[id.0].id == id);
        assert(GosubTabView { pinned: false, ..s.tabs[id.0] } == s.tabs[id.0]);
        assert(a.tabs =~= s.tabs);
        return;
    }
    assert(s.pinned.contains(id));
    lemma_without_contents(s.pinned, id);
    lemma_without_distinct(s.pinned, id);
    crate::state::lemma_without_len(s.pinned, id);
    lemma_insert_distinct(s.unpinned, 0, id);
    lemma_insert_contains(s.unpinned, 0, id);
    assert(s.unpinned.insert(0, id) =~= a.unpinned);
    assert(strip_order(a)[a.pinned.len() as int] == a.unpinned[0]);
    assert forall|k: u128| #[trigger] a.tabs.contains_key(k) <==> (a.pinned.contains(TabId(k)) || a.unpinned.contains(TabId(k))) by {
        if k != id.0 {
            assert(TabId(k) != id);
        }
    }
    assert forall|k: u128| #[trigger] a.tabs.contains_key(k) ==> (a.tabs[k].pinned <==> a.pinned.contains(TabId(k))) by {
        if k != id.0 {
            assert(TabId(k) != id);
        }
    }
    assert(a.tabs.dom() =~= s.tabs.dom());
}

/// Reordering a tab the manager does not hold (never added, or already removed) changes
/// nothing and tells the view nothing, whatever the position.
pub proof fn reordering_an_unknown_tab_changes_nothing(s: StripView, id: TabId, position: usize)
    requires
        !s.tabs.contains_key(id.0),
    ensures
        strip_after_reorder(s, id, position) == s,
        reorder_commands(s, id, position) == Seq::<TabCommand>::empty(),
{
}

/// Reordering never changes which tabs exist, which are pinned, or which run holds a tab;
/// the strip stays consistent, and a tab that moves lands at the strip index its `Move`
/// command reports.
pub proof fn reorder_stays_on_its_side(s: StripView, id: TabId, position: usize)
    requires
        strip_consistent(s),
    ensures
        strip_consistent(strip_after_reorder(s, id, position)),
        strip_after_reorder(s, id, position).tabs == s.tabs,
        forall|y: TabId| #[trigger] strip_after_reorder(s, id, position).pinned.contains(y) <==> s.pinned.contains(y),
        forall|y: TabId| #[trigger] strip_after_reorder(s, id, position).unpinned.contains(y) <==> s.unpinned.contains(y),
        strip_after_reorder(s, id, position).pinned.len() == s.pinned.len(),
        reorder_move(s, id, position) matches Some((pinned, from, to)) ==> {
            let global = if pinned { to } else { s.pinned.len() + to };
            strip_order(strip_after_reorder(s, id, position))[global] == id
        },
{
    let a = strip_after_reorder(s, id, position);
    match reorder_move(s, id, position) {
        None => {},
        Some((pinned, from, to)) => {
            let list = if pinned { s.pinned } else { s.unpinned };
            lemma_first_index(list, id);
            lemma_remove_distinct(list, from);
            let r = list.remove(from);
            assert(!r.contains(id));
            lemma_insert_distinct(r, to, id);
            lemma_insert_contains(r, to, id);
            let moved = r.insert(to, id);
            assert forall|y: TabId| #[trigger] moved.contains(y) <==> list.contains(y) by {}
            if pinned {
                assert(strip_order(a)[to] == moved[to]);
            } else {
                assert(strip_order(a)[s.pinned.len() + to] == moved[to]);
            }
        },
    }
}

/// Storing a tab again under its own id, with its pinned flag unchanged, keeps the strip
/// consistent and changes no run.
pub proof fn update_tab_keeps_the_strip(s: StripView, id: TabId, tab: GosubTabView)
    requires
        strip_consistent(s),
        s.tabs.contains_key(id.0),
        tab.id == id,
        tab.pinned == s.tabs[id.0].pinned,
    ensures
        strip_consistent(StripView { tabs: s.tabs.insert(id.0, tab), ..s }),
{
    let a = StripView { tabs: s.tabs.insert(id.0, tab), ..s };
    assert forall|k: u128| #[trigger] a.tabs.contains_key(k) <==> (a.pinned.contains(TabId(k)) || a.unpinned.contains(TabId(k))) by {
        if k != id.0 {
            assert(TabId(k) != id);
        }
    }
}

} // verus!

verus! {

proof fn lemma_closable(prefix: Seq<TabId>, tabs: Map<u128, GosubTabView>)
    ensures
        forall|y: TabId| #[trigger] closable(prefix, tabs).contains(y) ==> prefix.contains(y)
            && tabs.contains_key(y.0) && !tabs[y.0].pinned,
    decreases prefix.len(),
{
    if prefix.len() > 0 {
        let d = prefix.drop_last();
        lemma_closable(d, tabs);
        let c = closable(prefix, tabs);
        assert forall|y: TabId| #[trigger] c.contains(y) implies prefix.contains(y) && tabs.contains_key(y.0)
            && !tabs[y.0].pinned by {
            let k = choose|k: int| 0 <= k < c.len() && c[k] == y;
            if k < closable(d, tabs).len() {
                assert(closable(d, tabs).contains(y));
                let m = choose|m: int| 0 <= m < d.len() && d[m] == y;
                assert(prefix[m] == y);
            } else {
                assert(prefix[prefix.len() - 1] == y);
            }
        }
    }
}

/// "Close Tabs to Left" only ever names known, unpinned tabs that sit before the tab in
/// the strip, and never the tab itself.
pub proof fn closable_tabs_are_unpinned_and_to_the_left(s: StripView, id: TabId)
    ensures
        forall|y: TabId| #[trigger] closable(before(strip_order(s), id), s.tabs).contains(y) ==> {
            &&& y != id
            &&& s.tabs.contains_key(y.0)
            &&& !s.tabs[y.0].pinned
            &&& strip_order(s).contains(y)
        },
{
    let o = strip_order(s);
    let p = before(o, id);
    lemma_first_index(o, id);
    lemma_closable(p, s.tabs);
    assert forall|y: TabId| #[trigger] closable(p, s.tabs).contains(y) implies y != id && o.contains(y) by {
        let m = choose|m: int| 0 <= m < p.len() && p[m] == y;
        assert(o[m] == y);
    }
}

} // verus!

verus! {

proof fn lemma_first_index_distinct(run: Seq<TabId>, i: int)
    requires
        distinct(run),
        0 <= i < run.len(),
    ensures
        first_index(run, run[i]) == Some(i),
{
    lemma_first_index(run, run[i]);
    match first_index(run, run[i]) {
        Some(k) => {
            if k != i {
                if k < i {
                    assert(run[k] != run[i]);
                } else {
                    assert(run[i] != run[k]);
                }
            }
        },
        None => {
            assert(run.contains(run[i]));
        },
    }
}

/// Closing a tab hands focus to a tab of its own run when that run holds another: the
/// one just before it, or, when it was first in its run, the one that moved up into its
/// place. The close is reported, followed by that activation.
pub proof fn closing_focuses_the_neighbour_in_its_run(s: StripView, id: TabId, pinned: bool, i: int)
    requires
        strip_consistent(s),
        0 <= i < (if pinned { s.pinned } else { s.unpinned }).len(),
        (if pinned { s.pinned } else { s.unpinned })[i] == id,
        (if pinned { s.pinned } else { s.unpinned }).len() >= 2,
    ensures
        ({
            let run = if pinned { s.pinned } else { s.unpinned };
            let next = if i > 0 { run[i - 1] } else { run[1] };
            &&& remove_next(s, id) == Some(next)
            &&& remove_commands(s, id) == seq![TabCommand::Close(id), TabCommand::Activate(next)]
            &&& next != id
            &&& strip_after_remove(s, id).tabs.contains_key(next.0)
        }),
{
    let run = if pinned { s.pinned } else { s.unpinned };
    let next = if i > 0 { run[i - 1] } else { run[1] };
    lemma_first_index_distinct(run, i);
    if pinned {
        assert(s.pinned.contains(id));
    } else {
        assert(s.unpinned.contains(id));
        assert(!s.pinned.contains(id));
        lemma_first_index(s.pinned, id);
    }
    let after = strip_after_remove(s, id);
    let rest = run.remove(i);
    if i > 0 {
        assert(rest[i - 1] == run[i - 1]);
        assert(run[i - 1] != run[i]);
    } else {
        assert(rest[0] == run[1]);
        assert(run[0] != run[1]);
    }
    assert(run.contains(next));
    if pinned {
        assert(s.pinned.contains(next));
    } else {
        assert(s.unpinned.contains(next));
    }
    assert(s.tabs.contains_key(TabId(next.0).0));
    assert(next.0 != id.0);
}

/// Closing a tab while others remain always hands focus to one of them: the tab named
/// by the `Activate` command is still in the strip and is never the closed one.
pub proof fn focus_never_goes_to_a_closed_tab(s: StripView, id: TabId)
    requires
        strip_consistent(s),
        s.tabs.contains_key(id.0),
        s.pinned.len() + s.unpinned.len() >= 2,
    ensures
        remove_next(s, id) matches Some(t) && t != id && strip_after_remove(s, id).tabs.contains_key(t.0),
        remove_commands(s, id) == seq![TabCommand::Close(id), TabCommand::Activate(remove_next(s, id)->0)],
{
    assert(s.pinned.contains(TabId(id.0)) || s.unpinned.contains(TabId(id.0)));
    assert(TabId(id.0) == id);
    if s.pinned.contains(id) {
        let i = choose|i: int| 0 <= i < s.pinned.len() && s.pinned[i] == id;
        if s.pinned.len() >= 2 {
            closing_focuses_the_neighbour_in_its_run(s, id, true, i);
        } else {
            lemma_first_index_distinct(s.pinned, i);
            assert(i == 0);
            assert(s.pinned.remove(0).len() == 0);
            assert(s.unpinned.len() >= 1);
            let t = s.unpinned[0];
            assert(s.unpinned.contains(t));
            assert(t != id);
            assert(s.tabs.contains_key(TabId(t.0).0));
        }
    } else {
        assert(s.unpinned.contains(id));
        lemma_first_index(s.pinned, id);
        let i = choose|i: int| 0 <= i < s.unpinned.len() && s.unpinned[i] == id;
        if s.unpinned.len() >= 2 {
            closing_focuses_the_neighbour_in_its_run(s, id, false, i);
        } else {
            lemma_first_index_distinct(s.unpinned, i);
            assert(i == 0);
            assert(s.unpinned.remove(0).len() == 0);
            assert(s.pinned.len() >= 1);
            let t = s.pinned.last();
            assert(s.pinned.contains(t));
            assert(t != id);
            assert(s.tabs.contains_key(TabId(t.0).0));
        }
    }
}

} // verus!

verus! {

/// Adding a tab inserts it into the strip and moves nothing else: the strip afterwards is
/// the strip before with the new tab at one index, and that index is the requested strip
/// position held inside the tab's own run: the end of its run when no position is given,
/// at most the end of the pinned run for a pinned tab, and between the end of the pinned
/// run and the end of the strip for an unpinned one.
pub proof fn adding_a_tab_moves_no_other(s: StripView, tab: GosubTabView, position: Option<usize>)
    ensures
        ({
            let k = add_strip_index(s, tab.pinned, position);
            let p = s.pinned.len() as int;
            let n = (s.pinned.len() + s.unpinned.len()) as int;
            &&& strip_order(strip_after_add(s, tab, position)) == strip_order(s).insert(k, tab.id)
            &&& k == match position {
                None => if tab.pinned { p } else { n },
                Some(q) => if tab.pinned {
                    if q < p { q as int } else { p }
                } else {
                    if q < p { p } else if q > n { n } else { q as int }
                },
            }
        }),
{
    let a = strip_after_add(s, tab, position);
    let local = add_local_index(s, tab.pinned, position);
    let k = add_strip_index(s, tab.pinned, position);
    if tab.pinned {
        assert(a.pinned == s.pinned.insert(local, tab.id));
        assert(strip_order(a) =~= strip_order(s).insert(k, tab.id));
    } else {
        assert(a.unpinned == s.unpinned.insert(local, tab.id));
        assert(strip_order(a) =~= strip_order(s).insert(k, tab.id));
    }
}

/// Closing a tab takes it out of the strip and moves nothing else: the strip afterwards
/// is the strip before without the entry at the closed tab's index.
pub proof fn closing_a_tab_moves_no_other(s: StripView, id: TabId, k: int)
    requires
        strip_consistent(s),
        0 <= k < strip_order(s).len(),
        strip_order(s)[k] == id,
    ensures
        strip_order(strip_after_remove(s, id)) == strip_order(s).remove(k),
{
    let o = strip_order(s);
    if k < s.pinned.len() {
        assert(s.pinned[k] == id);
        lemma_first_index_distinct(s.pinned, k);
        assert(strip_order(strip_after_remove(s, id)) =~= o.remove(k));
    } else {
        let j = k - s.pinned.len();
        assert(s.unpinned[j] == id);
        assert(s.unpinned.contains(id));
        assert(!s.pinned.contains(id));
        lemma_first_index(s.pinned, id);
        lemma_first_index_distinct(s.unpinned, j);
        assert(strip_order(strip_after_remove(s, id)) =~= o.remove(k));
    }
}

} // verus!

verus! {

/// Reordering moves only the one tab: the strip afterwards is the strip before with the
/// tab taken out of its index and put back at the requested strip position, held inside
/// its own run (at most the last pinned slot for a pinned tab; between the first
/// unpinned slot and the end of the strip for an unpinned one).
pub proof fn reordering_moves_only_that_tab(s: StripView, id: TabId, g: int, position: usize)
    requires
        strip_consistent(s),
        0 <= g < strip_order(s).len(),
        strip_order(s)[g] == id,
    ensures
        ({
            let p = s.pinned.len() as int;
            let n = strip_order(s).len() as int;
            let t = if g < p {
                if position < p - 1 { position as int } else { p - 1 }
            } else {
                if position < p { p } else if position > n - 1 { n - 1 } else { position as int }
            };
            strip_order(strip_after_reorder(s, id, position)) == strip_order(s).remove(g).insert(t, id)
        }),
{
    let o = strip_order(s);
    let p = s.pinned.len() as int;
    assert(TabId(id.0) == id);
    if g < p {
        assert(s.pinned[g] == id);
        assert(s.pinned.contains(id));
        assert(s.tabs.contains_key(id.0));
        lemma_first_index_distinct(s.pinned, g);
    } else {
        let j = g - p;
        assert(s.unpinned[j] == id);
        assert(s.unpinned.contains(id));
        assert(!s.pinned.contains(id));
        assert(s.tabs.contains_key(id.0));
        lemma_first_index_distinct(s.unpinned, j);
    }
    let n = o.len() as int;
    let t = if g < p {
        if position < p - 1 { position as int } else { p - 1 }
    } else {
        if position < p { p } else if position > n - 1 { n - 1 } else { position as int }
    };
    match reorder_move(s, id, position) {
        None => {
            assert(o.remove(g).insert(t, id) =~= o);
        },
        Some((pinned, from, to)) => {
            assert(strip_order(strip_after_reorder(s, id, position)) =~= o.remove(g).insert(t, id));
        },
    }
}

} // verus!
