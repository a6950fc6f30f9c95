//! What a frontend redraws from: the browser telling its host that something changed,
//! about *what happened*, never about what to draw.

use vstd::prelude::*;
use crate::tab::TabId;

verus! {

/// The pointer shape the page wants, independent of any toolkit's cursor names.
#[derive(Debug, Clone, Copy, PartialEq, Eq, Structural)]
pub enum Cursor {
    Default,
    Pointer,
    Text,
}

/// How far a load has got, for a progress bar. A frontend turns it into a fraction:
/// `Started` is a small non-zero sliver (so the bar shows something the moment a load
/// begins), `Bytes` the received share of the expected length held between 5% and 98%,
/// and `Unknown` (no length given) parks mid-way rather than pretending precision.
#[derive(Debug, Clone, Copy, PartialEq, Eq, Structural)]
pub enum LoadFraction {
    Started,
    Bytes { received: u64, expected: u64 },
    Unknown,
}

/// Something the frontend should reflect.
#[derive(Debug, Clone, PartialEq, Eq)]
pub enum BeaconEvent {
    /// A new frame is ready; repaint the page areas.
    Redraw,
    /// The tab strip needs rebuilding (a tab appeared, closed, or changed).
    TabsChanged,
    /// `tab_id` is now the tab the user is looking at.
    ActiveTabChanged(TabId),
    /// The page reported a new title.
    TitleChanged(TabId, String),
    /// The tab's address changed: a navigation committed, or history moved.
    UrlChanged(TabId, String),
    /// The tab started or stopped loading.
    LoadingChanged(TabId, bool),
    /// Load progress, or `None` when no load is in flight and any progress indication
    /// should be cleared.
    LoadProgress(TabId, Option<LoadFraction>),
    /// The tab's favicon bytes changed; read them off the tab.
    FaviconChanged(TabId),
    /// Back/forward availability changed for this tab.
    NavStateChanged(TabId),
    /// A navigation failed: the tab, the address, and what went wrong.
    NavigationFailed(TabId, String, String),
    /// The tab's engine worker died; the tab is now marked crashed.
    TabCrashed(TabId, String),
    /// The pointer is over a link (or left one).
    HoverUrl(TabId, Option<String>),
    /// The pointer shape for what is under the cursor.
    CursorChanged(TabId, Cursor),
    /// A download was offered; the frontend should ask the user where to put it.
    DownloadOffered { tab_id: TabId, url: String, suggested_filename: String, total_bytes: Option<u64> },
    /// A download's row changed (progress, finished or failed).
    DownloadChanged(u64),
    /// Something worth showing in the log pane.
    Log(String),
}

/// A [`BeaconEvent`], with its text as character sequences.
pub enum BeaconEventView {
    Redraw,
    TabsChanged,
    ActiveTabChanged(TabId),
    TitleChanged(TabId, Seq<char>),
    UrlChanged(TabId, Seq<char>),
    LoadingChanged(TabId, bool),
    LoadProgress(TabId, Option<LoadFraction>),
    FaviconChanged(TabId),
    NavStateChanged(TabId),
    NavigationFailed(TabId, Seq<char>, Seq<char>),
    TabCrashed(TabId, Seq<char>),
    HoverUrl(TabId, Option<Seq<char>>),
    CursorChanged(TabId, Cursor),
    DownloadOffered { tab_id: TabId, url: Seq<char>, suggested_filename: Seq<char>, total_bytes: Option<u64> },
    DownloadChanged(u64),
    Log(Seq<char>),
}

impl View for BeaconEvent {
    type V = BeaconEventView;

    open spec fn view(&self) -> BeaconEventView {
        match self {
            BeaconEvent::Redraw => BeaconEventView::Redraw,
            BeaconEvent::TabsChanged => BeaconEventView::TabsChanged,
            BeaconEvent::ActiveTabChanged(t) => BeaconEventView::ActiveTabChanged(*t),
            BeaconEvent::TitleChanged(t, s) => BeaconEventView::TitleChanged(*t, s@),
            BeaconEvent::UrlChanged(t, s) => BeaconEventView::UrlChanged(*t, s@),
            BeaconEvent::LoadingChanged(t, b) => BeaconEventView::LoadingChanged(*t, *b),
            BeaconEvent::LoadProgress(t, p) => BeaconEventView::LoadProgress(*t, *p),
            BeaconEvent::FaviconChanged(t) => BeaconEventView::FaviconChanged(*t),
            BeaconEvent::NavStateChanged(t) => BeaconEventView::NavStateChanged(*t),
            BeaconEvent::NavigationFailed(t, u, e) => BeaconEventView::NavigationFailed(*t, u@, e@),
            BeaconEvent::TabCrashed(t, e) => BeaconEventView::TabCrashed(*t, e@),
            BeaconEvent::HoverUrl(t, u) => BeaconEventView::HoverUrl(*t, crate::tab::opt_string_view(*u)),
            BeaconEvent::CursorChanged(t, c) => BeaconEventView::CursorChanged(*t, *c),
            BeaconEvent::DownloadOffered { tab_id, url, suggested_filename, total_bytes } =>
                BeaconEventView::DownloadOffered {
                    tab_id: *tab_id,
                    url: url@,
                    suggested_filename: suggested_filename@,
                    total_bytes: *total_bytes,
                },
            BeaconEvent::DownloadChanged(id) => BeaconEventView::DownloadChanged(*id),
            BeaconEvent::Log(s) => BeaconEventView::Log(s@),
        }
    }
}

/// The views of a list of events.
pub open spec fn events_view(events: Seq<BeaconEvent>) -> Seq<BeaconEventView> {
    events.map_values(|e: BeaconEvent| e@)
}

} // verus!
