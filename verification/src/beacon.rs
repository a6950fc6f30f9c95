//! The browser's reaction to the engine and to the user.
//!
//! [`Beacon`] owns the tab manager, the mapping between engine tabs and ours, the download
//! list and the recently-used / recently-closed state. [`Beacon::on_engine_event`] takes
//! one engine event, updates the tabs, and says what changed in terms a frontend can draw;
//! [`Beacon::apply`] carries out a frontend gesture. Commands for the engine are queued,
//! and the frontend sends them (talking to the engine is asynchronous).

use vstd::prelude::*;
use crate::command::BeaconCommand;
use crate::download::{entry_index, DownloadEntry, DownloadState, Downloads};
use crate::event::{events_view, BeaconEvent, BeaconEventView, Cursor, LoadFraction};
use crate::platform::Platform;
use crate::state::{without, pushed_closed, ClosedTabView, ClosedTabs, MruList};
use crate::tab::{
    current_url, EngineTabId, GosubTab, GosubTabManager, GosubTabView, HistoryEntryId, HistorySnapshot,
    StripView, TabCommand, TabId, opt_string_view, strip_after_pin, strip_after_unpin, strip_consistent,
    pin_commands, unpin_commands, first_index, strip_order, strip_after_remove, remove_commands, remove_next,
};
use crate::text::{decimal, push_decimal};

verus! {

broadcast use vstd::std_specs::hash::group_hash_axioms;

/// The pointer shape the engine reports.
#[derive(Debug, Clone, Copy, PartialEq, Eq, Structural)]
pub enum CursorShape {
    Pointer,
    Text,
    Default,
}

/// What the engine reports about one tab's navigation.
#[derive(Debug, Clone)]
pub enum NavigationEvent {
    Started,
    Progress { received_bytes: u64, expected_length: Option<u64> },
    HistoryChanged { history: HistorySnapshot },
    /// Load ended without a page change (stop button, download offer).
    Cancelled,
    Failed { url: String, error: String },
    FailedUrl { url: String, error: String },
    Finished { url: String },
    /// Anything else the engine says about a navigation, which the browser ignores.
    Other,
}

/// What the engine reports, with its values.
#[derive(Debug, Clone)]
pub enum EngineEvent {
    Redraw,
    Navigation { tab_id: EngineTabId, event: NavigationEvent },
    FavIconChanged { tab_id: EngineTabId, favicon: Vec<u8> },
    TitleChanged { tab_id: EngineTabId, title: String },
    HoverUrl { tab_id: EngineTabId, url: Option<String> },
    CursorChanged { tab_id: EngineTabId, cursor: CursorShape },
    TabCrashed { tab_id: EngineTabId, error: String },
    DownloadRequested { tab_id: EngineTabId, url: String, suggested_filename: String, total_bytes: Option<u64> },
    DownloadProgress { id: u64, received_bytes: u64, total_bytes: Option<u64> },
    DownloadFinished { id: u64, path: String, received_bytes: u64 },
    DownloadFailed { id: u64, error: String },
    /// Anything else the engine reports, which the browser ignores.
    Other,
}

/// What the browser asks an engine tab to do.
#[derive(Debug, Clone, Copy, PartialEq, Eq, Structural)]
pub enum EngineCommand {
    GoBack,
    GoForward { entry: Option<HistoryEntryId> },
    Reload { ignore_cache: bool },
    CancelNavigation,
    /// The tab was closed in the shell; the engine can drop it.
    CloseTab,
}

/// Everything the browser state holds, as values.
pub struct BeaconState {
    pub strip: StripView,
    pub pending: Seq<TabCommand>,
    pub active: Option<TabId>,
    /// Engine tab id value -> our tab.
    pub bindings: Map<u128, TabId>,
    pub downloads: Seq<DownloadEntry>,
    /// Commands queued for the engine, oldest first.
    pub outbox: Seq<(EngineTabId, EngineCommand)>,
}

/// The state after read-modify-writing one tab through the manager (which queues an
/// `Update` for the view); unchanged if the tab is gone.
pub open spec fn with_tab(st: BeaconState, id: TabId, f: spec_fn(GosubTabView) -> GosubTabView) -> BeaconState {
    if st.strip.tabs.contains_key(id.0) {
        BeaconState {
            strip: StripView { tabs: st.strip.tabs.insert(id.0, f(st.strip.tabs[id.0])), ..st.strip },
            pending: st.pending.push(TabCommand::Update(id)),
            ..st
        }
    } else {
        st
    }
}

/// The download list after applying `f` to the entry with this id, if there is one.
pub open spec fn with_download(list: Seq<DownloadEntry>, id: u64, f: spec_fn(DownloadEntry) -> DownloadEntry) -> Seq<DownloadEntry> {
    match entry_index(list, id) {
        Some(k) => list.update(k, f(list[k])),
        None => list,
    }
}

pub open spec fn crash_log(error: Seq<char>) -> Seq<char> {
    "Tab crashed: "@ + error
}

pub open spec fn offer_log(name: Seq<char>, total: Option<u64>) -> Seq<char> {
    "Download offered: "@ + name + match total {
        Some(b) => " ("@ + decimal(b as nat) + " bytes)"@,
        None => Seq::empty(),
    }
}

pub open spec fn finished_log(id: u64, path: Seq<char>, received: u64) -> Seq<char> {
    "Download #"@ + decimal(id as nat) + " finished: "@ + path + " ("@ + decimal(received as nat) + " bytes)"@
}

pub open spec fn failed_log(id: u64, error: Seq<char>) -> Seq<char> {
    "Download #"@ + decimal(id as nat) + " FAILED: "@ + error
}

pub open spec fn cannot_load_log(url: Seq<char>, error: Seq<char>) -> Seq<char> {
    "Cannot load "@ + url + ": "@ + error
}

/// The progress a load reports: the received share of a known, non-zero length, else
/// "unknown".
pub open spec fn progress_fraction(received: u64, expected: Option<u64>) -> LoadFraction {
    match expected {
        Some(total) => if total > 0 {
            LoadFraction::Bytes { received, expected: total }
        } else {
            LoadFraction::Unknown
        },
        None => LoadFraction::Unknown,
    }
}

/// The browser state after a navigation event for our tab `our`.
pub open spec fn after_navigation(st: BeaconState, our: TabId, event: NavigationEvent) -> BeaconState {
    match event {
        NavigationEvent::HistoryChanged { history } => with_tab(
            st,
            our,
            |t: GosubTabView| GosubTabView {
                history: Some(history@),
                url: match current_url(history@) {
                    Some(u) => u,
                    None => t.url,
                },
                ..t
            },
        ),
        NavigationEvent::Finished { url } => with_tab(
            st,
            our,
            |t: GosubTabView| GosubTabView { loading: false, title: url@, ..t },
        ),
        _ => st,
    }
}

/// What a navigation event for our tab `our` tells the frontend. Load progress is only
/// reported for the active tab: a background tab must not move the address bar.
pub open spec fn navigation_events(st: BeaconState, our: TabId, event: NavigationEvent) -> Seq<BeaconEventView> {
    let is_active = st.active == Some(our);
    let cleared = if is_active {
        seq![BeaconEventView::LoadProgress(our, None)]
    } else {
        Seq::empty()
    };
    match event {
        NavigationEvent::Started => if is_active {
            seq![BeaconEventView::LoadProgress(our, Some(LoadFraction::Started))]
        } else {
            Seq::empty()
        },
        NavigationEvent::Progress { received_bytes, expected_length } => if is_active {
            seq![BeaconEventView::LoadProgress(our, Some(progress_fraction(received_bytes, expected_length)))]
        } else {
            Seq::empty()
        },
        NavigationEvent::HistoryChanged { history } => match current_url(history@) {
            Some(u) => seq![BeaconEventView::UrlChanged(our, u), BeaconEventView::NavStateChanged(our)],
            None => seq![BeaconEventView::NavStateChanged(our)],
        },
        NavigationEvent::Cancelled => cleared,
        NavigationEvent::Failed { url, error } => cleared.push(BeaconEventView::NavigationFailed(our, url@, error@)),
        NavigationEvent::FailedUrl { url, error } => seq![BeaconEventView::Log(cannot_load_log(url@, error@))],
        NavigationEvent::Finished { url } => cleared + seq![
            BeaconEventView::UrlChanged(our, url@),
            BeaconEventView::LoadingChanged(our, false),
            BeaconEventView::TabsChanged,
            BeaconEventView::NavStateChanged(our),
        ],
        NavigationEvent::Other => Seq::empty(),
    }
}

/// Our tab for an engine tab, if we still have one.
pub open spec fn bound(st: BeaconState, engine: EngineTabId) -> Option<TabId> {
    if st.bindings.contains_key(engine.0) {
        Some(st.bindings[engine.0])
    } else {
        None
    }
}

/// A download entry after a progress report.
pub open spec fn progressed(e: DownloadEntry, received: u64, total: Option<u64>) -> DownloadEntry {
    DownloadEntry { received, total, ..e }
}

/// A download entry after the engine reported it complete.
pub open spec fn finished(e: DownloadEntry, received: u64) -> DownloadEntry {
    DownloadEntry { received, state: DownloadState::Finished, ..e }
}

/// A download entry after the engine reported it failed.
pub open spec fn failed(e: DownloadEntry, error: String) -> DownloadEntry {
    DownloadEntry { state: DownloadState::Failed(error), ..e }
}

/// The browser state after an engine event. Events for engine tabs we no longer know are
/// dropped: the engine and the shell close tabs independently.
pub open spec fn after_engine_event(st: BeaconState, evt: EngineEvent) -> BeaconState {
    match evt {
        EngineEvent::Navigation { tab_id, event } => match bound(st, tab_id) {
            Some(our) => after_navigation(st, our, event),
            None => st,
        },
        EngineEvent::FavIconChanged { tab_id, favicon } => match bound(st, tab_id) {
            Some(our) => with_tab(st, our, |t: GosubTabView| GosubTabView { favicon: Some(favicon@), ..t }),
            None => st,
        },
        EngineEvent::TitleChanged { tab_id, title } => match bound(st, tab_id) {
            Some(our) => with_tab(st, our, |t: GosubTabView| GosubTabView { title: title@, ..t }),
            None => st,
        },
        EngineEvent::TabCrashed { tab_id, error } => match bound(st, tab_id) {
            Some(our) => with_tab(
                BeaconState { bindings: st.bindings.remove(tab_id.0), ..st },
                our,
                |t: GosubTabView| GosubTabView { loading: false, crashed: Some(error@), ..t },
            ),
            None => st,
        },
        EngineEvent::DownloadProgress { id, received_bytes, total_bytes } => BeaconState {
            downloads: with_download(
                st.downloads,
                id,
                |e: DownloadEntry| progressed(e, received_bytes, total_bytes),
            ),
            ..st
        },
        EngineEvent::DownloadFinished { id, received_bytes, .. } => BeaconState {
            downloads: with_download(
                st.downloads,
                id,
                |e: DownloadEntry| finished(e, received_bytes),
            ),
            ..st
        },
        EngineEvent::DownloadFailed { id, error } => BeaconState {
            downloads: with_download(
                st.downloads,
                id,
                |e: DownloadEntry| failed(e, error),
            ),
            ..st
        },
        _ => st,
    }
}

/// What an engine event tells the frontend.
pub open spec fn engine_events(st: BeaconState, evt: EngineEvent) -> Seq<BeaconEventView> {
    match evt {
        EngineEvent::Redraw => seq![BeaconEventView::Redraw],
        EngineEvent::Navigation { tab_id, event } => match bound(st, tab_id) {
            Some(our) => navigation_events(st, our, event),
            None => Seq::empty(),
        },
        EngineEvent::FavIconChanged { tab_id, .. } => match bound(st, tab_id) {
            Some(our) => seq![BeaconEventView::FaviconChanged(our), BeaconEventView::TabsChanged],
            None => Seq::empty(),
        },
        EngineEvent::TitleChanged { tab_id, title } => match bound(st, tab_id) {
            Some(our) => seq![BeaconEventView::TitleChanged(our, title@), BeaconEventView::TabsChanged],
            None => Seq::empty(),
        },
        EngineEvent::HoverUrl { tab_id, url } => match bound(st, tab_id) {
            Some(our) => seq![BeaconEventView::HoverUrl(our, opt_string_view(url))],
            None => Seq::empty(),
        },
        EngineEvent::CursorChanged { tab_id, cursor } => match bound(st, tab_id) {
            Some(our) => seq![BeaconEventView::CursorChanged(
                our,
                match cursor {
                    CursorShape::Pointer => Cursor::Pointer,
                    CursorShape::Text => Cursor::Text,
                    CursorShape::Default => Cursor::Default,
                },
            )],
            None => Seq::empty(),
        },
        EngineEvent::TabCrashed { tab_id, error } => match bound(st, tab_id) {
            Some(our) => seq![
                BeaconEventView::Log(crash_log(error@)),
                BeaconEventView::TabCrashed(our, error@),
                BeaconEventView::TabsChanged,
                BeaconEventView::NavStateChanged(our),
            ],
            None => Seq::empty(),
        },
        EngineEvent::DownloadRequested { tab_id, url, suggested_filename, total_bytes } => match bound(st, tab_id) {
            Some(our) => seq![
                BeaconEventView::Log(offer_log(suggested_filename@, total_bytes)),
                BeaconEventView::DownloadOffered {
                    tab_id: our,
                    url: url@,
                    suggested_filename: suggested_filename@,
                    total_bytes,
                },
            ],
            None => Seq::empty(),
        },
        EngineEvent::DownloadProgress { id, .. } => seq![BeaconEventView::DownloadChanged(id)],
        EngineEvent::DownloadFinished { id, path, received_bytes } => seq![
            BeaconEventView::Log(finished_log(id, path@, received_bytes)),
            BeaconEventView::DownloadChanged(id),
        ],
        EngineEvent::DownloadFailed { id, error } => seq![
            BeaconEventView::Log(failed_log(id, error@)),
            BeaconEventView::DownloadChanged(id),
        ],
        EngineEvent::Other => Seq::empty(),
    }
}


fn crash_text(error: &str) -> (res: String)
    ensures
        res@ == crash_log(error@),
{
    let mut s = String::new();
    s.append("Tab crashed: ");
    s.append(error);
    s
}

fn offer_text(name: &str, total: Option<u64>) -> (res: String)
    ensures
        res@ == offer_log(name@, total),
{
    let mut s = String::new();
    s.append("Download offered: ");
    s.append(name);
    match total {
        Some(b) => {
            s.append(" (");
            push_decimal(&mut s, b);
            s.append(" bytes)");
        },
        None => {},
    }
    assert(s@ =~= offer_log(name@, total));
    s
}

fn finished_text(id: u64, path: &str, received: u64) -> (res: String)
    ensures
        res@ == finished_log(id, path@, received),
{
    let mut s = String::new();
    s.append("Download #");
    push_decimal(&mut s, id);
    s.append(" finished: ");
    s.append(path);
    s.append(" (");
    push_decimal(&mut s, received);
    s.append(" bytes)");
    assert(s@ =~= finished_log(id, path@, received));
    s
}

fn failed_text(id: u64, error: &str) -> (res: String)
    ensures
        res@ == failed_log(id, error@),
{
    let mut s = String::new();
    s.append("Download #");
    push_decimal(&mut s, id);
    s.append(" FAILED: ");
    s.append(error);
    assert(s@ =~= failed_log(id, error@));
    s
}

fn cannot_load_text(url: &str, error: &str) -> (res: String)
    ensures
        res@ == cannot_load_log(url@, error@),
{
    let mut s = String::new();
    s.append("Cannot load ");
    s.append(url);
    s.append(": ");
    s.append(error);
    assert(s@ =~= cannot_load_log(url@, error@));
    s
}

/// What `Downloads::update` leaves behind is `with_download`.
proof fn lemma_download_update(
    before: Seq<DownloadEntry>,
    after: Seq<DownloadEntry>,
    id: u64,
    f: spec_fn(DownloadEntry) -> DownloadEntry,
)
    requires
        match entry_index(before, id) {
            Some(k) => after.len() == before.len() && after[k] == f(before[k]) && forall|j: int|
                0 <= j < before.len() && j != k ==> after[j] == before[j],
            None => after == before,
        },
    ensures
        after == with_download(before, id, f),
{
    crate::download::lemma_entry_index(before, id);
    match entry_index(before, id) {
        Some(k) => {
            assert(after =~= before.update(k, f(before[k])));
        },
        None => {},
    }
}

/// The engine command a navigation gesture stands for; `None` for the other commands.
pub open spec fn engine_command_for(command: BeaconCommand) -> Option<EngineCommand> {
    match command {
        BeaconCommand::Back => Some(EngineCommand::GoBack),
        BeaconCommand::Forward(entry) => Some(EngineCommand::GoForward { entry }),
        BeaconCommand::GoToHistoryEntry(entry) => Some(EngineCommand::GoForward { entry: Some(entry) }),
        BeaconCommand::Reload { ignore_cache } => Some(EngineCommand::Reload { ignore_cache }),
        BeaconCommand::Stop => Some(EngineCommand::CancelNavigation),
        _ => None,
    }
}

pub open spec fn no_handle_log() -> Seq<char> {
    "Tab has no engine handle yet"@
}

/// The browser state after asking the active tab's engine tab to carry out `command`: the
/// tab is marked loading and the command queued, but only when the tab has an engine tab
/// to receive it (else nothing would ever come back to clear the spinner).
pub open spec fn after_send(st: BeaconState, command: EngineCommand) -> BeaconState {
    match st.active {
        Some(a) => if st.strip.tabs.contains_key(a.0) {
            match st.strip.tabs[a.0].engine_tab {
                Some(handle) => BeaconState {
                    outbox: st.outbox.push((handle, command)),
                    ..with_tab(st, a, |t: GosubTabView| GosubTabView { loading: true, ..t })
                },
                None => st,
            }
        } else {
            st
        },
        None => st,
    }
}

/// What asking the active tab's engine tab for something tells the frontend.
pub open spec fn send_events(st: BeaconState) -> Seq<BeaconEventView> {
    match st.active {
        Some(a) => if st.strip.tabs.contains_key(a.0) {
            match st.strip.tabs[a.0].engine_tab {
                Some(_) => seq![BeaconEventView::LoadingChanged(a, true), BeaconEventView::TabsChanged],
                None => seq![BeaconEventView::Log(no_handle_log())],
            }
        } else {
            Seq::empty()
        },
        None => Seq::empty(),
    }
}

/// The path of a download that can be opened: a finished one.
pub open spec fn openable_path(list: Seq<DownloadEntry>, id: u64) -> Option<Seq<char>> {
    match entry_index(list, id) {
        Some(k) => if list[k].state is Finished {
            Some(list[k].path@)
        } else {
            None
        },
        None => None,
    }
}

/// The browser state after a frontend command.
pub open spec fn after_command(st: BeaconState, command: BeaconCommand) -> BeaconState {
    match command {
        BeaconCommand::PinTab(id) => BeaconState {
            strip: strip_after_pin(st.strip, id),
            pending: st.pending + pin_commands(st.strip, id),
            ..st
        },
        BeaconCommand::UnpinTab(id) => BeaconState {
            strip: strip_after_unpin(st.strip, id),
            pending: st.pending + unpin_commands(st.strip, id),
            ..st
        },
        BeaconCommand::CopyText(_) => st,
        BeaconCommand::OpenDownload(_) => st,
        _ => match engine_command_for(command) {
            Some(c) => after_send(st, c),
            None => st,
        },
    }
}

/// What a frontend command tells the frontend.
pub open spec fn command_events(st: BeaconState, command: BeaconCommand) -> Seq<BeaconEventView> {
    match command {
        BeaconCommand::PinTab(_) => seq![BeaconEventView::TabsChanged],
        BeaconCommand::UnpinTab(_) => seq![BeaconEventView::TabsChanged],
        BeaconCommand::CopyText(_) => Seq::empty(),
        BeaconCommand::OpenDownload(_) => Seq::empty(),
        _ => send_events(st),
    }
}

/// What the browser has asked of the desktop, in order.
pub enum PlatformRequest {
    /// Text put on the clipboard.
    CopyText(Seq<char>),
    /// A file opened in the desktop's default application.
    OpenPath(Seq<char>),
}

/// What a frontend command asks of the desktop: the clipboard text, or the path of a
/// finished download to open; nothing for the other commands, or for a download that
/// has not finished.
pub open spec fn platform_requests_for(st: BeaconState, command: BeaconCommand) -> Seq<PlatformRequest> {
    match command {
        BeaconCommand::CopyText(text) => seq![PlatformRequest::CopyText(text@)],
        BeaconCommand::OpenDownload(id) => match openable_path(st.downloads, id) {
            Some(path) => seq![PlatformRequest::OpenPath(path)],
            None => Seq::empty(),
        },
        _ => Seq::empty(),
    }
}

/// Whether closing `id` goes ahead: the tab exists and is not the last one (a window
/// always keeps a tab).
pub open spec fn closable(st: BeaconState, id: TabId) -> bool {
    st.strip.tabs.contains_key(id.0) && st.strip.tabs.len() > 1
}

/// The browser state after closing `id`: the tab leaves the strip (the manager picks the
/// next active tab), and a tab backed by an engine tab is unbound from it, with the
/// engine told to close it.
pub open spec fn after_close(st: BeaconState, id: TabId) -> BeaconState {
    if !closable(st, id) {
        st
    } else {
        let handle = st.strip.tabs[id.0].engine_tab;
        BeaconState {
            strip: strip_after_remove(st.strip, id),
            pending: st.pending + remove_commands(st.strip, id),
            active: if remove_commands(st.strip, id).len() == 2 { remove_next(st.strip, id) } else { st.active },
            bindings: match handle {
                Some(h) => st.bindings.remove(h.0),
                None => st.bindings,
            },
            outbox: match handle {
                Some(h) => st.outbox.push((h, EngineCommand::CloseTab)),
                None => st.outbox,
            },
            ..st
        }
    }
}

/// What a close remembers for reopening: the tab's address, and where it stood in the
/// strip.
pub open spec fn closed_entry(st: BeaconState, id: TabId) -> ClosedTabView {
    ClosedTabView {
        url: st.strip.tabs[id.0].url,
        position: match first_index(strip_order(st.strip), id) {
            Some(k) => Some(k as usize),
            None => None,
        },
    }
}

/// The browser state the frontend and the engine share.
pub struct Beacon<P: Platform> {
    tabs: GosubTabManager,
    /// Engine tab id value -> our tab id, for routing engine events.
    engine_tabs: std::collections::HashMap<u128, TabId>,
    downloads: Downloads,
    mru: MruList,
    closed: ClosedTabs,
    /// Commands for the engine, waiting for the frontend to send them.
    outbox: Vec<(EngineTabId, EngineCommand)>,
    platform: P,
    /// Everything handed to `platform` so far.
    handed: Ghost<Seq<PlatformRequest>>,
}

impl<P: Platform> Beacon<P> {
    /// The whole state, as values.
    pub closed spec fn state(&self) -> BeaconState {
        BeaconState {
            strip: self.tabs.strip(),
            pending: self.tabs.pending(),
            active: self.tabs.active_tab(),
            bindings: self.engine_tabs@,
            downloads: self.downloads.list(),
            outbox: self.outbox@,
        }
    }

    pub closed spec fn mru_state(&self) -> MruList {
        self.mru
    }

    pub closed spec fn closed_state(&self) -> ClosedTabs {
        self.closed
    }

    pub closed spec fn next_download_id(&self) -> u64 {
        self.downloads.upcoming_id()
    }

    /// What has been asked of the desktop so far, oldest first.
    pub closed spec fn platform_requests(&self) -> Seq<PlatformRequest> {
        self.handed@
    }

    /// The desktop services this browser was given.
    pub closed spec fn desktop(&self) -> P {
        self.platform
    }

    pub fn new(tabs: GosubTabManager, platform: P) -> (res: Self)
        ensures
            res.state().strip == tabs.strip(),
            res.state().pending == tabs.pending(),
            res.state().active == tabs.active_tab(),
            res.state().bindings == Map::<u128, TabId>::empty(),
            res.state().downloads == Seq::<DownloadEntry>::empty(),
            res.state().outbox == Seq::<(EngineTabId, EngineCommand)>::empty(),
            res.next_download_id() == 1,
            res.mru_state().order() == Seq::<TabId>::empty(),
            res.mru_state().cycle() is None,
            res.closed_state()@ == Seq::<crate::state::ClosedTabView>::empty(),
            res.platform_requests() == Seq::<PlatformRequest>::empty(),
            res.desktop() == platform,
    {
        Beacon {
            tabs,
            engine_tabs: std::collections::HashMap::new(),
            downloads: Downloads::new(),
            mru: MruList::new(),
            closed: ClosedTabs::new(),
            outbox: Vec::new(),
            platform,
            handed: Ghost(Seq::empty()),
        }
    }

    pub fn tabs(&self) -> (res: &GosubTabManager)
        ensures
            res.strip() == self.state().strip,
            res.pending() == self.state().pending,
            res.active_tab() == self.state().active,
    {
        &self.tabs
    }

    pub fn downloads(&self) -> (res: &Downloads)
        ensures
            res.list() == self.state().downloads,
            res.upcoming_id() == self.next_download_id(),
    {
        &self.downloads
    }

    pub fn mru(&self) -> (res: &MruList)
        ensures
            *res == self.mru_state(),
    {
        &self.mru
    }

    pub fn closed(&self) -> (res: &ClosedTabs)
        ensures
            *res == self.closed_state(),
    {
        &self.closed
    }

    /// The tab manager, for the frontend to add, remove, reorder and activate tabs.
    pub fn tabs_mut(&mut self) -> (res: &mut GosubTabManager)
        ensures
            res.strip() == old(self).state().strip,
            res.pending() == old(self).state().pending,
            res.active_tab() == old(self).state().active,
            final(self).state() == (BeaconState {
                strip: final(res).strip(),
                pending: final(res).pending(),
                active: final(res).active_tab(),
                ..old(self).state()
            }),
            final(self).mru_state() == old(self).mru_state(),
            final(self).closed_state() == old(self).closed_state(),
            final(self).next_download_id() == old(self).next_download_id(),
            final(self).platform_requests() == old(self).platform_requests(),
            final(self).desktop() == old(self).desktop(),
    {
        &mut self.tabs
    }

    pub fn downloads_mut(&mut self) -> (res: &mut Downloads)
        ensures
            res.list() == old(self).state().downloads,
            res.upcoming_id() == old(self).next_download_id(),
            final(self).state() == (BeaconState { downloads: final(res).list(), ..old(self).state() }),
            final(self).next_download_id() == final(res).upcoming_id(),
            final(self).platform_requests() == old(self).platform_requests(),
            final(self).desktop() == old(self).desktop(),
            final(self).mru_state() == old(self).mru_state(),
            final(self).closed_state() == old(self).closed_state(),
    {
        &mut self.downloads
    }

    pub fn mru_mut(&mut self) -> (res: &mut MruList)
        ensures
            *res == old(self).mru_state(),
            final(self).mru_state() == *final(res),
            final(self).state() == old(self).state(),
            final(self).closed_state() == old(self).closed_state(),
            final(self).next_download_id() == old(self).next_download_id(),
            final(self).platform_requests() == old(self).platform_requests(),
            final(self).desktop() == old(self).desktop(),
    {
        &mut self.mru
    }

    pub fn closed_mut(&mut self) -> (res: &mut ClosedTabs)
        ensures
            *res == old(self).closed_state(),
            final(self).closed_state() == *final(res),
            final(self).state() == old(self).state(),
            final(self).mru_state() == old(self).mru_state(),
            final(self).next_download_id() == old(self).next_download_id(),
            final(self).platform_requests() == old(self).platform_requests(),
            final(self).desktop() == old(self).desktop(),
    {
        &mut self.closed
    }

    /// The desktop services this browser was given.
    pub fn platform(&self) -> (res: &P)
        ensures
            *res == self.desktop(),
    {
        &self.platform
    }

    /// Remember that `engine_id` backs `tab_id`.
    pub fn bind_engine_tab(&mut self, engine_id: EngineTabId, tab_id: TabId)
        ensures
            final(self).state() == (BeaconState {
                bindings: old(self).state().bindings.insert(engine_id.0, tab_id),
                ..old(self).state()
            }),
            final(self).mru_state() == old(self).mru_state(),
            final(self).closed_state() == old(self).closed_state(),
            final(self).next_download_id() == old(self).next_download_id(),
            final(self).platform_requests() == old(self).platform_requests(),
            final(self).desktop() == old(self).desktop(),
    {
        self.engine_tabs.insert(engine_id.0, tab_id);
    }

    pub fn unbind_engine_tab(&mut self, engine_id: EngineTabId)
        ensures
            final(self).state() == (BeaconState {
                bindings: old(self).state().bindings.remove(engine_id.0),
                ..old(self).state()
            }),
            final(self).mru_state() == old(self).mru_state(),
            final(self).closed_state() == old(self).closed_state(),
            final(self).next_download_id() == old(self).next_download_id(),
            final(self).platform_requests() == old(self).platform_requests(),
            final(self).desktop() == old(self).desktop(),
    {
        self.engine_tabs.remove(&engine_id.0);
    }

    /// Close a tab, unless it is the last one or unknown (then nothing changes and the
    /// result is `false`). Its address and strip position are remembered so that it can
    /// be reopened; an engine tab behind it is unbound and told to close; it leaves the
    /// recently-used order.
    pub fn close_tab(&mut self, tab_id: TabId) -> (res: bool)
        ensures
            res == closable(old(self).state(), tab_id),
            final(self).state() == after_close(old(self).state(), tab_id),
            res ==> final(self).closed_state()@ == pushed_closed(
                old(self).closed_state()@,
                closed_entry(old(self).state(), tab_id),
            ),
            !res ==> final(self).closed_state() == old(self).closed_state(),
            res ==> final(self).mru_state().order() == without(old(self).mru_state().order(), tab_id),
            res ==> final(self).mru_state().cycle() == if final(self).mru_state().order().len() < 2 {
                None
            } else {
                old(self).mru_state().cycle()
            },
            !res ==> final(self).mru_state() == old(self).mru_state(),
            final(self).next_download_id() == old(self).next_download_id(),
            final(self).platform_requests() == old(self).platform_requests(),
            final(self).desktop() == old(self).desktop(),
    {
        let ghost st = self.state();
        if self.tabs.tab_count() <= 1 {
            return false;
        }
        let tab = match self.tabs.get_tab(tab_id) {
            Some(t) => t,
            None => {
                return false;
            },
        };
        match tab.tab_handle() {
            Some(handle) => {
                self.engine_tabs.remove(&handle.0);
                self.outbox.push((handle, EngineCommand::CloseTab));
            },
            None => {},
        }
        // Remember it before it goes, so it can be brought back.
        let order = self.tabs.order();
        let position = crate::tab::position_of(&order, tab_id);
        let mut url = String::new();
        url.append(tab.url());
        self.closed.push(url, position);
        self.tabs.remove_tab(tab_id);
        self.mru.forget(tab_id);
        proof {
            let fin = self.state();
            let want = after_close(st, tab_id);
            assert(fin.bindings =~= want.bindings);
            assert(fin.outbox =~= want.outbox);
        }
        true
    }

    /// Our tab id for an engine tab, if we still have one.
    pub fn tab_for_engine(&self, engine_id: EngineTabId) -> (res: Option<TabId>)
        ensures
            res == bound(self.state(), engine_id),
    {
        match self.engine_tabs.get(&engine_id.0) {
            Some(id) => Some(*id),
            None => None,
        }
    }

    /// The tab the user is looking at.
    pub fn active(&self) -> (res: Option<TabId>)
        ensures
            res == self.state().active,
    {
        self.tabs.active()
    }

    /// Turn one engine event into what the frontend should reflect, applying any tab
    /// and download changes on the way. Events for engine tabs we no longer know are
    /// dropped rather than treated as errors: the engine and the shell close tabs
    /// independently, so in-flight events for a closed tab are normal.
    pub fn on_engine_event(&mut self, evt: EngineEvent) -> (res: Vec<BeaconEvent>)
        ensures
            final(self).state() == after_engine_event(old(self).state(), evt),
            events_view(res@) == engine_events(old(self).state(), evt),
            final(self).mru_state() == old(self).mru_state(),
            final(self).closed_state() == old(self).closed_state(),
            final(self).next_download_id() == old(self).next_download_id(),
            final(self).platform_requests() == old(self).platform_requests(),
            final(self).desktop() == old(self).desktop(),
    {
        let ghost st = self.state();
        let mut out: Vec<BeaconEvent> = Vec::new();
        match evt {
            EngineEvent::Redraw => {
                out.push(BeaconEvent::Redraw);
            },
            EngineEvent::Navigation { tab_id, event } => match self.tab_for_engine(tab_id) {
                Some(our) => {
                    out = self.on_navigation(our, event);
                },
                None => {},
            },
            EngineEvent::FavIconChanged { tab_id, favicon } => match self.tab_for_engine(tab_id) {
                Some(our) => {
                    match self.tabs.get_tab(our) {
                        Some(mut tab) => {
                            tab.set_favicon(Some(favicon));
                            self.store_tab(our, &tab);
                        },
                        None => {},
                    }
                    out.push(BeaconEvent::FaviconChanged(our));
                    out.push(BeaconEvent::TabsChanged);
                },
                None => {},
            },
            EngineEvent::TitleChanged { tab_id, title } => match self.tab_for_engine(tab_id) {
                Some(our) => {
                    match self.tabs.get_tab(our) {
                        Some(mut tab) => {
                            tab.set_title(title.as_str());
                            self.store_tab(our, &tab);
                        },
                        None => {},
                    }
                    out.push(BeaconEvent::TitleChanged(our, title));
                    out.push(BeaconEvent::TabsChanged);
                },
                None => {},
            },
            EngineEvent::HoverUrl { tab_id, url } => match self.tab_for_engine(tab_id) {
                Some(our) => {
                    out.push(BeaconEvent::HoverUrl(our, url));
                },
                None => {},
            },
            EngineEvent::CursorChanged { tab_id, cursor } => match self.tab_for_engine(tab_id) {
                Some(our) => {
                    let shape = match cursor {
                        CursorShape::Pointer => Cursor::Pointer,
                        CursorShape::Text => Cursor::Text,
                        CursorShape::Default => Cursor::Default,
                    };
                    out.push(BeaconEvent::CursorChanged(our, shape));
                },
                None => {},
            },
            // The tab's engine worker died. The tab stays in the strip, marked crashed, so
            // the frontend can offer to reload it rather than taking the browser down.
            EngineEvent::TabCrashed { tab_id, error } => match self.tab_for_engine(tab_id) {
                Some(our) => {
                    self.unbind_engine_tab(tab_id);
                    match self.tabs.get_tab(our) {
                        Some(mut tab) => {
                            tab.set_loading(false);
                            tab.set_crashed(Some(error.clone()));
                            self.store_tab(our, &tab);
                        },
                        None => {},
                    }
                    out.push(BeaconEvent::Log(crash_text(error.as_str())));
                    out.push(BeaconEvent::TabCrashed(our, error));
                    out.push(BeaconEvent::TabsChanged);
                    out.push(BeaconEvent::NavStateChanged(our));
                },
                None => {},
            },
            EngineEvent::DownloadRequested { tab_id, url, suggested_filename, total_bytes } => match self.tab_for_engine(tab_id) {
                Some(our) => {
                    out.push(BeaconEvent::Log(offer_text(suggested_filename.as_str(), total_bytes)));
                    out.push(BeaconEvent::DownloadOffered { tab_id: our, url, suggested_filename, total_bytes });
                },
                None => {},
            },
            EngineEvent::DownloadProgress { id, received_bytes, total_bytes } => {
                let ghost before = self.downloads.list();
                self.downloads.update(
                    id,
                    move |e: DownloadEntry| -> (r: DownloadEntry) ensures r == progressed(e, received_bytes, total_bytes) {
                            let mut e = e;
                            e.received = received_bytes;
                            e.total = total_bytes;
                            e
                        },
                );
                proof {
                    lemma_download_update(
                        before,
                        self.downloads.list(),
                        id,
                        |e: DownloadEntry| progressed(e, received_bytes, total_bytes),
                    );
                }
                out.push(BeaconEvent::DownloadChanged(id));
            },
            EngineEvent::DownloadFinished { id, path, received_bytes } => {
                let ghost before = self.downloads.list();
                self.downloads.update(
                    id,
                    move |e: DownloadEntry| -> (r: DownloadEntry) ensures r == finished(e, received_bytes) {
                            let mut e = e;
                            e.received = received_bytes;
                            e.state = DownloadState::Finished;
                            e
                        },
                );
                proof {
                    lemma_download_update(
                        before,
                        self.downloads.list(),
                        id,
                        |e: DownloadEntry| finished(e, received_bytes),
                    );
                }
                out.push(BeaconEvent::Log(finished_text(id, path.as_str(), received_bytes)));
                out.push(BeaconEvent::DownloadChanged(id));
            },
            EngineEvent::DownloadFailed { id, error } => {
                let ghost before = self.downloads.list();
                let failure = error.clone();
                self.downloads.update(
                    id,
                    move |e: DownloadEntry| -> (r: DownloadEntry) ensures r == failed(e, failure) {
                            let mut e = e;
                            e.state = DownloadState::Failed(failure);
                            e
                        },
                );
                proof {
                    lemma_download_update(
                        before,
                        self.downloads.list(),
                        id,
                        |e: DownloadEntry| failed(e, error),
                    );
                }
                out.push(BeaconEvent::Log(failed_text(id, error.as_str())));
                out.push(BeaconEvent::DownloadChanged(id));
            },
            EngineEvent::Other => {},
        }
        assert(events_view(out@) =~= engine_events(st, evt));
        out
    }

    /// Carry out a frontend gesture. A pin or unpin names a tab the manager knows.
    pub fn apply(&mut self, command: BeaconCommand) -> (res: Vec<BeaconEvent>)
        requires
            command matches BeaconCommand::PinTab(id) ==> old(self).state().strip.tabs.contains_key(id.0),
            command matches BeaconCommand::UnpinTab(id) ==> old(self).state().strip.tabs.contains_key(id.0),
        ensures
            final(self).state() == after_command(old(self).state(), command),
            events_view(res@) == command_events(old(self).state(), command),
            final(self).platform_requests() == old(self).platform_requests() + platform_requests_for(
                old(self).state(),
                command,
            ),
            final(self).desktop() == old(self).desktop(),
            final(self).mru_state() == old(self).mru_state(),
            final(self).closed_state() == old(self).closed_state(),
            final(self).next_download_id() == old(self).next_download_id(),
    {
        match command {
            BeaconCommand::Back => self.send_to_active(EngineCommand::GoBack),
            BeaconCommand::Forward(entry) => self.send_to_active(EngineCommand::GoForward { entry }),
            BeaconCommand::GoToHistoryEntry(entry) => self.send_to_active(
                EngineCommand::GoForward { entry: Some(entry) },
            ),
            BeaconCommand::Reload { ignore_cache } => self.send_to_active(EngineCommand::Reload { ignore_cache }),
            BeaconCommand::Stop => self.send_to_active(EngineCommand::CancelNavigation),
            BeaconCommand::CopyText(text) => {
                self.platform.copy_text(text.as_str());
                self.handed = Ghost(self.handed@.push(PlatformRequest::CopyText(text@)));
                assert(events_view(Seq::empty()) =~= Seq::<BeaconEventView>::empty());
                Vec::new()
            },
            BeaconCommand::OpenDownload(id) => {
                match self.finished_download_path(id) {
                    Some(path) => {
                        self.platform.open_path(path.as_str());
                        self.handed = Ghost(self.handed@.push(PlatformRequest::OpenPath(path@)));
                    },
                    None => {
                        assert(self.handed@ + platform_requests_for(old(self).state(), command) =~= self.handed@);
                    },
                }
                Vec::new()
            },
            BeaconCommand::PinTab(tab_id) => {
                self.tabs.pin_tab(tab_id);
                let mut out: Vec<BeaconEvent> = Vec::new();
                out.push(BeaconEvent::TabsChanged);
                assert(events_view(out@) =~= seq![BeaconEventView::TabsChanged]);
                out
            },
            BeaconCommand::UnpinTab(tab_id) => {
                self.tabs.unpin_tab(tab_id);
                let mut out: Vec<BeaconEvent> = Vec::new();
                out.push(BeaconEvent::TabsChanged);
                assert(events_view(out@) =~= seq![BeaconEventView::TabsChanged]);
                out
            },
        }
    }

    /// The path to open for a download: only a finished one has a file worth opening.
    pub fn finished_download_path(&self, id: u64) -> (res: Option<String>)
        ensures
            opt_string_view(res) == openable_path(self.state().downloads, id),
    {
        match self.downloads.get(id) {
            Some(entry) => match &entry.state {
                DownloadState::Finished => Some(entry.path.clone()),
                _ => None,
            },
            None => None,
        }
    }

    /// Send an engine command to the active tab, marking it loading on the way.
    ///
    /// The engine owns session history, so back/forward/reload are just asks: it answers
    /// with `HistoryChanged` and the usual navigation events, which come back through
    /// [`Self::on_engine_event`].
    fn send_to_active(&mut self, command: EngineCommand) -> (res: Vec<BeaconEvent>)
        ensures
            final(self).state() == after_send(old(self).state(), command),
            events_view(res@) == send_events(old(self).state()),
            final(self).mru_state() == old(self).mru_state(),
            final(self).closed_state() == old(self).closed_state(),
            final(self).next_download_id() == old(self).next_download_id(),
            final(self).platform_requests() == old(self).platform_requests(),
            final(self).desktop() == old(self).desktop(),
    {
        let ghost st = self.state();
        let mut out: Vec<BeaconEvent> = Vec::new();
        let tab_id = match self.active() {
            Some(t) => t,
            None => {
                return out;
            },
        };
        let mut tab = match self.tabs.get_tab(tab_id) {
            Some(t) => t,
            None => {
                return out;
            },
        };
        // Check for the engine tab before marking the tab loading: a tab with none would
        // otherwise spin forever, since nothing would come back to clear it.
        let handle = match tab.tab_handle() {
            Some(h) => h,
            None => {
                let mut text = String::new();
                text.append("Tab has no engine handle yet");
                out.push(BeaconEvent::Log(text));
                assert(events_view(out@) =~= send_events(st));
                return out;
            },
        };
        tab.set_loading(true);
        self.store_tab(tab_id, &tab);
        self.outbox.push((handle, command));
        out.push(BeaconEvent::LoadingChanged(tab_id, true));
        out.push(BeaconEvent::TabsChanged);
        assert(events_view(out@) =~= send_events(st));
        out
    }

    /// Store `tab` under `tab_id` through the manager, which queues an `Update`.
    fn store_tab(&mut self, tab_id: TabId, tab: &GosubTab)
        ensures
            final(self).state() == (BeaconState {
                strip: StripView { tabs: old(self).state().strip.tabs.insert(tab_id.0, tab@), ..old(self).state().strip },
                pending: old(self).state().pending.push(TabCommand::Update(tab_id)),
                ..old(self).state()
            }),
            final(self).mru_state() == old(self).mru_state(),
            final(self).closed_state() == old(self).closed_state(),
            final(self).next_download_id() == old(self).next_download_id(),
            final(self).platform_requests() == old(self).platform_requests(),
            final(self).desktop() == old(self).desktop(),
    {
        self.tabs.update_tab(tab_id, tab);
    }

    fn is_active(&self, tab_id: TabId) -> (res: bool)
        ensures
            res == (self.state().active == Some(tab_id)),
    {
        match self.tabs.active() {
            Some(a) => a.0 == tab_id.0,
            None => false,
        }
    }

    fn on_navigation(&mut self, our: TabId, event: NavigationEvent) -> (res: Vec<BeaconEvent>)
        ensures
            final(self).state() == after_navigation(old(self).state(), our, event),
            events_view(res@) == navigation_events(old(self).state(), our, event),
            final(self).mru_state() == old(self).mru_state(),
            final(self).closed_state() == old(self).closed_state(),
            final(self).next_download_id() == old(self).next_download_id(),
            final(self).platform_requests() == old(self).platform_requests(),
            final(self).desktop() == old(self).desktop(),
    {
        let ghost st = self.state();
        let is_active = self.is_active(our);
        let mut out: Vec<BeaconEvent> = Vec::new();
        match event {
            NavigationEvent::Started => {
                if is_active {
                    // A small non-zero sliver, so the bar shows something the moment a
                    // load begins.
                    out.push(BeaconEvent::LoadProgress(our, Some(LoadFraction::Started)));
                }
            },
            NavigationEvent::Progress { received_bytes, expected_length } => {
                if is_active {
                    let fraction = match expected_length {
                        Some(total) => if total > 0 {
                            LoadFraction::Bytes { received: received_bytes, expected: total }
                        } else {
                            LoadFraction::Unknown
                        },
                        // Unknown length: park mid-way rather than pretending precision.
                        None => LoadFraction::Unknown,
                    };
                    out.push(BeaconEvent::LoadProgress(our, Some(fraction)));
                }
            },
            NavigationEvent::HistoryChanged { history } => {
                // On a back/forward traversal the tab's address is the entry moved to, even
                // while it is still loading.
                let url = history.current_url();
                match self.tabs.get_tab(our) {
                    Some(mut tab) => {
                        tab.history_mut().update(history);
                        match &url {
                            Some(u) => tab.set_url(u.clone()),
                            None => {},
                        }
                        self.store_tab(our, &tab);
                    },
                    None => {},
                }
                match url {
                    Some(u) => out.push(BeaconEvent::UrlChanged(our, u)),
                    None => {},
                }
                out.push(BeaconEvent::NavStateChanged(our));
            },
            NavigationEvent::Cancelled => {
                if is_active {
                    out.push(BeaconEvent::LoadProgress(our, None));
                }
            },
            NavigationEvent::Failed { url, error } => {
                if is_active {
                    out.push(BeaconEvent::LoadProgress(our, None));
                }
                out.push(BeaconEvent::NavigationFailed(our, url, error));
            },
            NavigationEvent::FailedUrl { url, error } => {
                out.push(BeaconEvent::Log(cannot_load_text(url.as_str(), error.as_str())));
            },
            NavigationEvent::Finished { url } => {
                // Session history is recorded by the engine, which follows up with a
                // `HistoryChanged`; the favicon arrives as its own event.
                match self.tabs.get_tab(our) {
                    Some(mut tab) => {
                        tab.set_loading(false);
                        tab.set_title(url.as_str());
                        self.store_tab(our, &tab);
                    },
                    None => {},
                }
                if is_active {
                    out.push(BeaconEvent::LoadProgress(our, None));
                }
                out.push(BeaconEvent::UrlChanged(our, url));
                out.push(BeaconEvent::LoadingChanged(our, false));
                out.push(BeaconEvent::TabsChanged);
                out.push(BeaconEvent::NavStateChanged(our));
            },
            NavigationEvent::Other => {},
        }
        assert(events_view(out@) =~= navigation_events(st, our, event));
        out
    }

    /// Hand over the commands queued for the engine, leaving the queue empty.
    pub fn take_engine_commands(&mut self) -> (res: Vec<(EngineTabId, EngineCommand)>)
        ensures
            res@ == old(self).state().outbox,
            final(self).state() == (BeaconState {
                outbox: Seq::<(EngineTabId, EngineCommand)>::empty(),
                ..old(self).state()
            }),
            final(self).mru_state() == old(self).mru_state(),
            final(self).closed_state() == old(self).closed_state(),
            final(self).next_download_id() == old(self).next_download_id(),
            final(self).platform_requests() == old(self).platform_requests(),
            final(self).desktop() == old(self).desktop(),
    {
        let mut taken: Vec<(EngineTabId, EngineCommand)> = Vec::new();
        std::mem::swap(&mut taken, &mut self.outbox);
        taken
    }
}

} // verus!

verus! {

/// The engine tab an event is about, for the events that are about one.
pub open spec fn addressed_tab(evt: EngineEvent) -> Option<EngineTabId> {
    match evt {
        EngineEvent::Navigation { tab_id, .. } => Some(tab_id),
        EngineEvent::FavIconChanged { tab_id, .. } => Some(tab_id),
        EngineEvent::TitleChanged { tab_id, .. } => Some(tab_id),
        EngineEvent::HoverUrl { tab_id, .. } => Some(tab_id),
        EngineEvent::CursorChanged { tab_id, .. } => Some(tab_id),
        EngineEvent::TabCrashed { tab_id, .. } => Some(tab_id),
        EngineEvent::DownloadRequested { tab_id, .. } => Some(tab_id),
        _ => None,
    }
}

/// An event about an engine tab the browser does not know changes nothing and tells the
/// frontend nothing: the engine and the shell close tabs independently, so events still
/// in flight for a closed tab are normal.
pub proof fn events_for_unknown_engine_tabs_are_dropped(st: BeaconState, evt: EngineEvent)
    requires
        addressed_tab(evt) matches Some(t) && bound(st, t) is None,
    ensures
        after_engine_event(st, evt) == st,
        engine_events(st, evt) == Seq::<BeaconEventView>::empty(),
{
}

/// A crash forgets the engine tab, so every later event about it is dropped rather than
/// misrouted; the tab itself stays in the strip, marked crashed and no longer loading.
pub proof fn a_crash_forgets_the_engine_tab(st: BeaconState, tab_id: EngineTabId, error: String, later: EngineEvent)
    requires
        bound(st, tab_id) is Some,
        addressed_tab(later) == Some(tab_id),
    ensures
        ({
            let our = bound(st, tab_id).unwrap();
            let after = after_engine_event(st, EngineEvent::TabCrashed { tab_id, error });
            &&& bound(after, tab_id) is None
            &&& after.strip.tabs.dom() == st.strip.tabs.dom()
            &&& after.strip.pinned == st.strip.pinned
            &&& after.strip.unpinned == st.strip.unpinned
            &&& st.strip.tabs.contains_key(our.0) ==> after.strip.tabs[our.0].crashed == Some(error@)
                && !after.strip.tabs[our.0].loading
            &&& after_engine_event(after, later) == after
            &&& engine_events(after, later) == Seq::<BeaconEventView>::empty()
        }),
{
    let our = bound(st, tab_id).unwrap();
    let after = after_engine_event(st, EngineEvent::TabCrashed { tab_id, error });
    assert(after.strip.tabs.dom() =~= st.strip.tabs.dom());
    assert(!after.bindings.contains_key(tab_id.0));
}

/// Load progress of a tab in the background is not reported: it must not move the
/// address bar.
pub proof fn background_loads_are_not_reported(st: BeaconState, our: TabId, received: u64, expected: Option<u64>)
    requires
        st.active != Some(our),
    ensures
        navigation_events(st, our, NavigationEvent::Started) == Seq::<BeaconEventView>::empty(),
        navigation_events(st, our, NavigationEvent::Progress { received_bytes: received, expected_length: expected })
            == Seq::<BeaconEventView>::empty(),
        navigation_events(st, our, NavigationEvent::Cancelled) == Seq::<BeaconEventView>::empty(),
{
}

/// A navigation gesture with no active tab does nothing.
pub proof fn navigation_needs_an_active_tab(st: BeaconState, command: BeaconCommand)
    requires
        engine_command_for(command) is Some,
        st.active is None,
    ensures
        after_command(st, command) == st,
        command_events(st, command) == Seq::<BeaconEventView>::empty(),
{
}

/// A navigation gesture for a tab with no engine tab yet is reported, and leaves the tab
/// as it was: not loading, since nothing would come back to clear the spinner.
pub proof fn a_tab_without_an_engine_tab_only_reports(st: BeaconState, command: BeaconCommand)
    requires
        engine_command_for(command) is Some,
        st.active matches Some(a) && st.strip.tabs.contains_key(a.0) && st.strip.tabs[a.0].engine_tab is None,
    ensures
        after_command(st, command) == st,
        command_events(st, command) == seq![BeaconEventView::Log(no_handle_log())],
{
}

/// A navigation gesture for the active tab queues exactly the engine command it stands
/// for, addressed to that tab's engine tab, and marks the tab loading.
pub proof fn navigation_reaches_the_engine_tab(st: BeaconState, command: BeaconCommand)
    requires
        engine_command_for(command) is Some,
        st.active matches Some(a) && st.strip.tabs.contains_key(a.0) && st.strip.tabs[a.0].engine_tab is Some,
    ensures
        ({
            let a = st.active.unwrap();
            let after = after_command(st, command);
            &&& after.outbox == st.outbox.push((st.strip.tabs[a.0].engine_tab.unwrap(), engine_command_for(command).unwrap()))
            &&& after.strip.tabs[a.0].loading
            &&& after.strip.tabs.dom() == st.strip.tabs.dom()
            &&& after.bindings == st.bindings
            &&& after.downloads == st.downloads
        }),
{
    let a = st.active.unwrap();
    let after = after_command(st, command);
    assert(after.strip.tabs.dom() =~= st.strip.tabs.dom());
}

} // verus!

verus! {

/// Rewriting one tab's fields (never its id or pinned flag) leaves the strip's shape alone.
proof fn lemma_with_tab_keeps_the_strip(st: BeaconState, id: TabId, f: spec_fn(GosubTabView) -> GosubTabView)
    requires
        forall|t: GosubTabView| #[trigger] f(t).id == t.id && f(t).pinned == t.pinned,
    ensures
        ({
            let after = with_tab(st, id, f);
            &&& after.strip.pinned == st.strip.pinned
            &&& after.strip.unpinned == st.strip.unpinned
            &&& after.strip.tabs.dom() == st.strip.tabs.dom()
            &&& forall|k: u128| #[trigger] after.strip.tabs.contains_key(k) ==> after.strip.tabs[k].id
                == st.strip.tabs[k].id && after.strip.tabs[k].pinned == st.strip.tabs[k].pinned
            &&& after.active == st.active
            &&& after.bindings == st.bindings
            &&& after.downloads == st.downloads
        }),
{
    let after = with_tab(st, id, f);
    if st.strip.tabs.contains_key(id.0) {
        assert(after.strip.tabs.dom() =~= st.strip.tabs.dom());
        let t = st.strip.tabs[id.0];
        assert(f(t).id == t.id && f(t).pinned == t.pinned);
    }
}

/// Nothing the engine reports reshapes the strip: every tab stays, in its run and its
/// place, with its id and pinned flag, and the active tab stays active. So an engine event
/// never breaks the strip's consistency.
pub proof fn engine_events_keep_the_strip(st: BeaconState, evt: EngineEvent)
    ensures
        ({
            let after = after_engine_event(st, evt);
            &&& after.strip.pinned == st.strip.pinned
            &&& after.strip.unpinned == st.strip.unpinned
            &&& after.strip.tabs.dom() == st.strip.tabs.dom()
            &&& forall|k: u128| #[trigger] after.strip.tabs.contains_key(k) ==> after.strip.tabs[k].id
                == st.strip.tabs[k].id && after.strip.tabs[k].pinned == st.strip.tabs[k].pinned
            &&& after.active == st.active
            &&& (strip_consistent(st.strip) ==> strip_consistent(after.strip))
        }),
{
    let after = after_engine_event(st, evt);
    match evt {
        EngineEvent::Navigation { tab_id, event } => match bound(st, tab_id) {
            Some(our) => match event {
                NavigationEvent::HistoryChanged { history } => lemma_with_tab_keeps_the_strip(
                    st,
                    our,
                    |t: GosubTabView| GosubTabView {
                        history: Some(history@),
                        url: match current_url(history@) {
                            Some(u) => u,
                            None => t.url,
                        },
                        ..t
                    },
                ),
                NavigationEvent::Finished { url } => lemma_with_tab_keeps_the_strip(
                    st,
                    our,
                    |t: GosubTabView| GosubTabView { loading: false, title: url@, ..t },
                ),
                _ => {},
            },
            None => {},
        },
        EngineEvent::FavIconChanged { tab_id, favicon } => match bound(st, tab_id) {
            Some(our) => lemma_with_tab_keeps_the_strip(
                st,
                our,
                |t: GosubTabView| GosubTabView { favicon: Some(favicon@), ..t },
            ),
            None => {},
        },
        EngineEvent::TitleChanged { tab_id, title } => match bound(st, tab_id) {
            Some(our) => lemma_with_tab_keeps_the_strip(st, our, |t: GosubTabView| GosubTabView { title: title@, ..t }),
            None => {},
        },
        EngineEvent::TabCrashed { tab_id, error } => match bound(st, tab_id) {
            Some(our) => lemma_with_tab_keeps_the_strip(
                BeaconState { bindings: st.bindings.remove(tab_id.0), ..st },
                our,
                |t: GosubTabView| GosubTabView { loading: false, crashed: Some(error@), ..t },
            ),
            None => {},
        },
        _ => {},
    }
    if strip_consistent(st.strip) {
        assert forall|k: u128| #[trigger] after.strip.tabs.contains_key(k) implies after.strip.tabs[k].id == TabId(k)
            && (after.strip.tabs[k].pinned <==> after.strip.pinned.contains(TabId(k))) by {
            assert(st.strip.tabs.contains_key(k));
        }
        assert forall|k: u128| #[trigger] after.strip.tabs.contains_key(k) <==> (after.strip.pinned.contains(TabId(k))
            || after.strip.unpinned.contains(TabId(k))) by {
            assert(after.strip.tabs.contains_key(k) == st.strip.tabs.contains_key(k));
        }
    }
}

/// Every gesture keeps the strip consistent, pinning and unpinning included (of a tab
/// that exists, as those commands require).
pub proof fn commands_keep_the_strip_consistent(st: BeaconState, command: BeaconCommand)
    requires
        strip_consistent(st.strip),
        command matches BeaconCommand::PinTab(id) ==> st.strip.tabs.contains_key(id.0),
        command matches BeaconCommand::UnpinTab(id) ==> st.strip.tabs.contains_key(id.0),
    ensures
        strip_consistent(after_command(st, command).strip),
{
    let after = after_command(st, command);
    match command {
        BeaconCommand::PinTab(id) => crate::tab::pin_tab_lists_each_tab_once(st.strip, id),
        BeaconCommand::UnpinTab(id) => crate::tab::unpin_tab_lists_each_tab_once(st.strip, id),
        BeaconCommand::CopyText(_) => {},
        BeaconCommand::OpenDownload(_) => {},
        _ => {
            match st.active {
                Some(a) => if st.strip.tabs.contains_key(a.0) {
                    match st.strip.tabs[a.0].engine_tab {
                        Some(handle) => {
                            lemma_with_tab_keeps_the_strip(st, a, |t: GosubTabView| GosubTabView { loading: true, ..t });
                            assert forall|k: u128| #[trigger] after.strip.tabs.contains_key(k) implies after.strip.tabs[k].id
                                == TabId(k) && (after.strip.tabs[k].pinned <==> after.strip.pinned.contains(TabId(k))) by {
                                assert(st.strip.tabs.contains_key(k));
                            }
                            assert forall|k: u128| #[trigger] after.strip.tabs.contains_key(k) <==> (
                            after.strip.pinned.contains(TabId(k)) || after.strip.unpinned.contains(TabId(k))) by {
                                assert(after.strip.tabs.contains_key(k) == st.strip.tabs.contains_key(k));
                            }
                        },
                        None => {},
                    }
                } else {
                },
                None => {},
            }
        },
    }
}

/// Closing keeps the strip consistent and never empties the window: a close that goes
/// ahead takes exactly that tab away and leaves at least one, and one that does not go
/// ahead changes nothing.
pub proof fn closing_never_empties_the_window(st: BeaconState, id: TabId)
    requires
        strip_consistent(st.strip),
        st.strip.tabs.dom().finite(),
    ensures
        strip_consistent(after_close(st, id).strip),
        closable(st, id) ==> after_close(st, id).strip.tabs.len() == st.strip.tabs.len() - 1,
        closable(st, id) ==> after_close(st, id).strip.tabs.len() >= 1,
        closable(st, id) ==> !after_close(st, id).strip.tabs.contains_key(id.0),
        !closable(st, id) ==> after_close(st, id) == st,
{
    if closable(st, id) {
        crate::tab::remove_tab_leaves_the_others(st.strip, id);
        assert(st.strip.tabs.remove(id.0).dom() =~= st.strip.tabs.dom().remove(id.0));
        vstd::set::axiom_set_remove_len(st.strip.tabs.dom(), id.0);
    }
}

/// Opening a download reaches the desktop only for a finished download, and then with
/// exactly that download's path; a running or failed one opens nothing.
pub proof fn only_finished_downloads_are_opened(st: BeaconState, id: u64)
    ensures
        ({
            let asked = platform_requests_for(st, BeaconCommand::OpenDownload(id));
            match entry_index(st.downloads, id) {
                Some(k) => if st.downloads[k].state is Finished {
                    asked == seq![PlatformRequest::OpenPath(st.downloads[k].path@)]
                } else {
                    asked == Seq::<PlatformRequest>::empty()
                },
                None => asked == Seq::<PlatformRequest>::empty(),
            }
        }),
{
}

} // verus!

verus! {

/// Every load that ends clears the active tab's progress bar. A stopped (cancelled) load
/// of the active tab reports exactly a cleared progress and changes nothing else; a failed
/// or finished one reports the same clearing first. A background tab's stop reports
/// nothing, since its progress was never shown.
pub proof fn a_load_that_ends_clears_the_progress_bar(
    st: BeaconState,
    tab_id: EngineTabId,
    our: TabId,
    url: String,
    error: String,
)
    requires
        bound(st, tab_id) == Some(our),
    ensures
        st.active == Some(our) ==> engine_events(st, EngineEvent::Navigation { tab_id, event: NavigationEvent::Cancelled })
            == seq![BeaconEventView::LoadProgress(our, None)],
        st.active != Some(our) ==> engine_events(st, EngineEvent::Navigation { tab_id, event: NavigationEvent::Cancelled })
            == Seq::<BeaconEventView>::empty(),
        after_engine_event(st, EngineEvent::Navigation { tab_id, event: NavigationEvent::Cancelled }) == st,
        st.active == Some(our) ==> ({
            let out = engine_events(st, EngineEvent::Navigation { tab_id, event: NavigationEvent::Failed { url, error } });
            out.len() > 0 && out[0] == BeaconEventView::LoadProgress(our, None)
        }),
        st.active == Some(our) ==> ({
            let out = engine_events(st, EngineEvent::Navigation { tab_id, event: NavigationEvent::Finished { url } });
            out.len() > 0 && out[0] == BeaconEventView::LoadProgress(our, None)
        }),
{
}

/// Each navigation gesture reaches the active tab's engine tab as its own command, queued
/// after whatever was already waiting: Back as `GoBack`, Forward as `GoForward` with the
/// same entry, a history jump as `GoForward` to that entry, Reload as `Reload` with the
/// same cache choice, Stop as `CancelNavigation`.
pub proof fn gestures_queue_their_own_engine_command(st: BeaconState, a: TabId, handle: EngineTabId, entry: Option<HistoryEntryId>, target: HistoryEntryId, ignore_cache: bool)
    requires
        st.active == Some(a),
        st.strip.tabs.contains_key(a.0),
        st.strip.tabs[a.0].engine_tab == Some(handle),
    ensures
        after_command(st, BeaconCommand::Back).outbox == st.outbox.push((handle, EngineCommand::GoBack)),
        after_command(st, BeaconCommand::Forward(entry)).outbox == st.outbox.push((handle, EngineCommand::GoForward { entry })),
        after_command(st, BeaconCommand::GoToHistoryEntry(target)).outbox == st.outbox.push(
            (handle, EngineCommand::GoForward { entry: Some(target) }),
        ),
        after_command(st, BeaconCommand::Reload { ignore_cache }).outbox == st.outbox.push(
            (handle, EngineCommand::Reload { ignore_cache }),
        ),
        after_command(st, BeaconCommand::Stop).outbox == st.outbox.push((handle, EngineCommand::CancelNavigation)),
{
}

/// Only Back goes back: whatever the state, any other command leaves the queued engine
/// commands as they were, or adds one that is not `GoBack`.
pub proof fn only_back_goes_back(st: BeaconState, command: BeaconCommand)
    requires
        !(command is Back),
    ensures
        ({
            let q = after_command(st, command).outbox;
            &&& st.outbox.len() <= q.len() <= st.outbox.len() + 1
            &&& q.take(st.outbox.len() as int) == st.outbox
            &&& q.len() > st.outbox.len() ==> q.last().1 != EngineCommand::GoBack
        }),
{
    let q = after_command(st, command).outbox;
    if q.len() > st.outbox.len() {
        assert(q.take(st.outbox.len() as int) =~= st.outbox);
    } else {
        assert(q.take(st.outbox.len() as int) =~= st.outbox);
    }
}

/// A failed download is shown as failed, with the engine's error, and nothing else
/// about it, about the other downloads or about the rest of the browser changes. A failure
/// for a download not in the list changes nothing.
pub proof fn a_failed_download_shows_its_error(st: BeaconState, id: u64, error: String)
    ensures
        ({
            let after = after_engine_event(st, EngineEvent::DownloadFailed { id, error });
            let d = after.downloads;
            &&& after == BeaconState { downloads: d, ..st }
            &&& d.len() == st.downloads.len()
            &&& match entry_index(st.downloads, id) {
                Some(k) => {
                    &&& d[k].state == DownloadState::Failed(error)
                    &&& d[k].id == st.downloads[k].id
                    &&& d[k].filename == st.downloads[k].filename
                    &&& d[k].path == st.downloads[k].path
                    &&& d[k].received == st.downloads[k].received
                    &&& d[k].total == st.downloads[k].total
                    &&& forall|j: int| 0 <= j < d.len() && j != k ==> d[j] == st.downloads[j]
                },
                None => d == st.downloads,
            }
        }),
{
    crate::download::lemma_entry_index(st.downloads, id);
}

/// Download reports reach their entry and nothing else: progress sets the bytes received
/// and the expected total and leaves the state; a finish marks the entry finished with its
/// final byte count. Every other entry, and the rest of the browser, is unchanged; a
/// report for a download not in the list changes nothing. Either is announced for its id.
pub proof fn download_reports_reach_their_entry(st: BeaconState, id: u64, received: u64, total: Option<u64>, path: String)
    ensures
        ({
            let pa = after_engine_event(st, EngineEvent::DownloadProgress { id, received_bytes: received, total_bytes: total });
            let fa = after_engine_event(st, EngineEvent::DownloadFinished { id, path, received_bytes: received });
            let p = pa.downloads;
            let f = fa.downloads;
            &&& pa == BeaconState { downloads: p, ..st }
            &&& fa == BeaconState { downloads: f, ..st }
            &&& p.len() == st.downloads.len()
            &&& f.len() == st.downloads.len()
            &&& engine_events(st, EngineEvent::DownloadProgress { id, received_bytes: received, total_bytes: total })
                == seq![BeaconEventView::DownloadChanged(id)]
            &&& engine_events(st, EngineEvent::DownloadFinished { id, path, received_bytes: received }).last()
                == BeaconEventView::DownloadChanged(id)
            &&& match entry_index(st.downloads, id) {
                Some(k) => {
                    &&& p[k].received == received
                    &&& p[k].total == total
                    &&& p[k].state == st.downloads[k].state
                    &&& p[k].id == st.downloads[k].id
                    &&& p[k].path == st.downloads[k].path
                    &&& f[k].state == DownloadState::Finished
                    &&& f[k].received == received
                    &&& f[k].total == st.downloads[k].total
                    &&& f[k].id == st.downloads[k].id
                    &&& f[k].path == st.downloads[k].path
                    &&& forall|j: int| 0 <= j < p.len() && j != k ==> p[j] == st.downloads[j] && f[j] == st.downloads[j]
                },
                None => p == st.downloads && f == st.downloads,
            }
        }),
{
    crate::download::lemma_entry_index(st.downloads, id);
}

/// What the engine says about a tab lands on that tab: a new title becomes its title, a
/// new icon its icon, and a crash marks it crashed with the error, stops its spinner and
/// forgets its engine tab. Each is announced for that tab.
pub proof fn tab_reports_reach_their_tab(st: BeaconState, tab_id: EngineTabId, our: TabId, title: String, favicon: Vec<u8>, error: String)
    requires
        bound(st, tab_id) == Some(our),
        st.strip.tabs.contains_key(our.0),
    ensures
        after_engine_event(st, EngineEvent::TitleChanged { tab_id, title }).strip.tabs[our.0].title == title@,
        engine_events(st, EngineEvent::TitleChanged { tab_id, title })[0] == BeaconEventView::TitleChanged(our, title@),
        after_engine_event(st, EngineEvent::FavIconChanged { tab_id, favicon }).strip.tabs[our.0].favicon == Some(favicon@),
        engine_events(st, EngineEvent::FavIconChanged { tab_id, favicon })[0] == BeaconEventView::FaviconChanged(our),
        ({
            let c = after_engine_event(st, EngineEvent::TabCrashed { tab_id, error });
            &&& c.strip.tabs[our.0].crashed == Some(error@)
            &&& !c.strip.tabs[our.0].loading
            &&& bound(c, tab_id) is None
            &&& engine_events(st, EngineEvent::TabCrashed { tab_id, error }).contains(BeaconEventView::TabCrashed(our, error@))
        }),
{
    let out = engine_events(st, EngineEvent::TabCrashed { tab_id, error });
    assert(out[1] == BeaconEventView::TabCrashed(our, error@));
}

/// A navigation of the active tab starts its progress bar when it starts; a finished one
/// stops the tab's spinner, shows the address it ended at, and is announced with it; a
/// failed one is announced with its address and error, after clearing the progress.
pub proof fn navigations_of_the_active_tab_are_reported(st: BeaconState, tab_id: EngineTabId, our: TabId, url: String, error: String)
    requires
        bound(st, tab_id) == Some(our),
        st.active == Some(our),
        st.strip.tabs.contains_key(our.0),
    ensures
        engine_events(st, EngineEvent::Navigation { tab_id, event: NavigationEvent::Started })
            == seq![BeaconEventView::LoadProgress(our, Some(LoadFraction::Started))],
        !after_engine_event(st, EngineEvent::Navigation { tab_id, event: NavigationEvent::Finished { url } }).strip.tabs[our.0].loading,
        engine_events(st, EngineEvent::Navigation { tab_id, event: NavigationEvent::Finished { url } })
            .contains(BeaconEventView::UrlChanged(our, url@)),
        engine_events(st, EngineEvent::Navigation { tab_id, event: NavigationEvent::Failed { url, error } })
            == seq![BeaconEventView::LoadProgress(our, None), BeaconEventView::NavigationFailed(our, url@, error@)],
{
    let out = engine_events(st, EngineEvent::Navigation { tab_id, event: NavigationEvent::Finished { url } });
    assert(out[1] == BeaconEventView::UrlChanged(our, url@));
    assert(engine_events(st, EngineEvent::Navigation { tab_id, event: NavigationEvent::Failed { url, error } })
        =~= seq![BeaconEventView::LoadProgress(our, None), BeaconEventView::NavigationFailed(our, url@, error@)]);
}

/// A close remembers what reopening needs: the closed tab's address, and the index in
/// the strip where it stood. A tab backed by an engine tab has that engine tab told to
/// close and forgotten; a tab without one sends nothing to the engine.
pub proof fn closing_remembers_the_tab(st: BeaconState, id: TabId)
    requires
        strip_consistent(st.strip),
        closable(st, id),
        strip_order(st.strip).len() <= usize::MAX,
    ensures
        closed_entry(st, id).url == st.strip.tabs[id.0].url,
        closed_entry(st, id).position matches Some(p) && (p as int) < strip_order(st.strip).len()
            && strip_order(st.strip)[p as int] == id,
        st.strip.tabs[id.0].engine_tab matches Some(h) ==> after_close(st, id).outbox == st.outbox.push(
            (h, EngineCommand::CloseTab),
        ) && bound(after_close(st, id), h) is None,
        st.strip.tabs[id.0].engine_tab is None ==> after_close(st, id).outbox == st.outbox,
{
    crate::tab::lemma_order_contains(st.strip);
    assert(st.strip.pinned.contains(TabId(id.0)) || st.strip.unpinned.contains(TabId(id.0)));
    assert(TabId(id.0) == id);
    crate::tab::lemma_first_index(strip_order(st.strip), id);
}

} // verus!
