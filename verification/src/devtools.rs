//! What a developer panel shows: the log, and the network requests the engine made.
//!
//! The buffers here are plain values; a frontend (or the process-wide logger) owns them
//! and reads snapshots, so nothing hands out a reference into a live buffer.

use vstd::prelude::*;
use crate::tab::TabId;
use crate::text::{decimal, digit, digit_char, push_char, push_decimal, push_decimal_wide};
use vstd::arithmetic::div_mod::{lemma_div_denominator, lemma_fundamental_div_mod};
use vstd::arithmetic::power2::{lemma2_to64, lemma2_to64_rest, lemma_pow2_pos, lemma_pow2_strictly_increases, lemma_pow2_unfold, pow2};
use vstd::utf8::{decode_utf8, valid_utf8};

verus! {

/// How loud a record is, as the `log` facade ranks them.
#[derive(Debug, Clone, Copy, PartialEq, Eq, Structural)]
pub enum LogLevel {
    Error,
    Warn,
    Info,
    Debug,
    Trace,
}

/// The most verbose level let through, or nothing at all.
#[derive(Debug, Clone, Copy, PartialEq, Eq, Structural)]
pub enum LogLevelFilter {
    Off,
    Error,
    Warn,
    Info,
    Debug,
    Trace,
}

/// One captured record.
#[derive(Clone, Debug)]
pub struct LogLine {
    pub level: LogLevel,
    /// The emitting crate or module: what a busy log is usefully filtered by.
    pub target: String,
    pub message: String,
    /// Milliseconds since the Unix epoch. Stored rather than formatted: what a timestamp
    /// should look like is the frontend's business.
    pub timestamp_ms: u64,
}

pub struct LogLineView {
    pub level: LogLevel,
    pub target: Seq<char>,
    pub message: Seq<char>,
    pub timestamp_ms: u64,
}

impl View for LogLine {
    type V = LogLineView;

    open spec fn view(&self) -> LogLineView {
        LogLineView {
            level: self.level,
            target: self.target@,
            message: self.message@,
            timestamp_ms: self.timestamp_ms,
        }
    }
}

/// Enough to cover a page load and its network chatter; older lines fall off the front.
pub const CAPACITY: usize = 4000;

/// The captured log, oldest first.
#[derive(Clone, Debug)]
pub struct LogBuffer {
    lines: Vec<LogLine>,
}

/// The buffer after one more line: when full, the oldest quarter is dropped first (rather
/// than one line at a time, so a busy load does not shift the whole buffer per record).
pub open spec fn pushed_line(lines: Seq<LogLineView>, line: LogLineView) -> Seq<LogLineView> {
    if lines.len() >= CAPACITY {
        lines.skip((CAPACITY / 4) as int).push(line)
    } else {
        lines.push(line)
    }
}

impl View for LogBuffer {
    type V = Seq<LogLineView>;

    closed spec fn view(&self) -> Seq<LogLineView> {
        self.lines@.map_values(|l: LogLine| l@)
    }
}

impl LogBuffer {
    pub fn new() -> (res: LogBuffer)
        ensures
            res@ == Seq::<LogLineView>::empty(),
    {
        let res = LogBuffer { lines: Vec::new() };
        assert(res@ =~= Seq::<LogLineView>::empty());
        res
    }
}

fn copy_line(l: &LogLine) -> (res: LogLine)
    ensures
        res@ == l@,
{
    LogLine {
        level: l.level,
        target: l.target.clone(),
        message: l.message.clone(),
        timestamp_ms: l.timestamp_ms,
    }
}

fn push(buffer: &mut LogBuffer, line: LogLine)
    ensures
        final(buffer)@ == pushed_line(old(buffer)@, line@),
{
    let ghost before = buffer.lines@;
    if buffer.lines.len() >= CAPACITY {
        let kept = buffer.lines.split_off(CAPACITY / 4);
        buffer.lines = kept;
        assert(buffer.lines@.map_values(|l: LogLine| l@) =~= before.map_values(|l: LogLine| l@).skip(
            (CAPACITY / 4) as int,
        ));
    }
    let ghost mid = buffer.lines@;
    buffer.lines.push(line);
    assert(buffer.lines@.map_values(|l: LogLine| l@) =~= mid.map_values(|l: LogLine| l@).push(line@));
}

/// Add a line to the buffer: a frontend's own running commentary ("Visiting ...",
/// "Zoom: 150%"), which belongs in the same pane as the engine's records.
pub fn record(buffer: &mut LogBuffer, level: LogLevel, target: &str, message: &str, timestamp_ms: u64)
    ensures
        final(buffer)@ == pushed_line(
            old(buffer)@,
            LogLineView { level, target: target@, message: message@, timestamp_ms },
        ),
{
    push(
        buffer,
        LogLine { level, target: target.to_string(), message: message.to_string(), timestamp_ms },
    );
}

/// The newest `max` records, oldest first.
pub fn log_snapshot(buffer: &LogBuffer, max: usize) -> (res: Vec<LogLine>)
    ensures
        res@.map_values(|l: LogLine| l@) == buffer@.skip(
            if buffer@.len() > max { buffer@.len() - max } else { 0 },
        ),
{
    let n = buffer.lines.len();
    let start: usize = if n > max { n - max } else { 0 };
    let mut res: Vec<LogLine> = Vec::new();
    let mut i: usize = start;
    while i < n
        invariant
            n == buffer.lines.len(),
            start <= i <= n,
            res@.len() == i - start,
            forall|k: int| 0 <= k < res@.len() ==> #[trigger] res@[k]@ == buffer.lines@[start + k]@,
        decreases n - i,
    {
        res.push(copy_line(&buffer.lines[i]));
        i += 1;
    }
    assert(res@.map_values(|l: LogLine| l@) =~= buffer@.skip(start as int));
    res
}

/// How many records are held.
pub fn log_len(buffer: &LogBuffer) -> (res: usize)
    ensures
        res == buffer@.len(),
{
    buffer.lines.len()
}

pub fn clear_logs(buffer: &mut LogBuffer)
    ensures
        final(buffer)@ == Seq::<LogLineView>::empty(),
{
    buffer.lines.clear();
    assert(buffer@ =~= Seq::<LogLineView>::empty());
}

/// Whether `text` spells a level name whose lower-case and upper-case letters are `lower`
/// and `upper`, in any mix of cases.
pub open spec fn spells(text: Seq<char>, lower: Seq<char>, upper: Seq<char>) -> bool {
    text.len() == lower.len() && forall|i: int| 0 <= i < text.len() ==> text[i] == lower[i] || text[i] == upper[i]
}

/// The level a name denotes, as the `log` facade reads one: `off`, `error`, `warn`,
/// `info`, `debug` or `trace`, ignoring ASCII case.
pub open spec fn level_named(text: Seq<char>) -> Option<LogLevelFilter> {
    if spells(text, "off"@, "OFF"@) {
        Some(LogLevelFilter::Off)
    } else if spells(text, "error"@, "ERROR"@) {
        Some(LogLevelFilter::Error)
    } else if spells(text, "warn"@, "WARN"@) {
        Some(LogLevelFilter::Warn)
    } else if spells(text, "info"@, "INFO"@) {
        Some(LogLevelFilter::Info)
    } else if spells(text, "debug"@, "DEBUG"@) {
        Some(LogLevelFilter::Debug)
    } else if spells(text, "trace"@, "TRACE"@) {
        Some(LogLevelFilter::Trace)
    } else {
        None
    }
}

/// `log::LevelFilter`'s `FromStr`. Claimed: it accepts exactly the six level names,
/// compared ignoring ASCII case, and gives the level named.
#[verifier::external_body]
fn parse_level_filter(text: &str) -> (res: Option<LogLevelFilter>)
    ensures
        res == level_named(text@),
{
    match text.parse::<log::LevelFilter>() {
        Ok(log::LevelFilter::Off) => Some(LogLevelFilter::Off),
        Ok(log::LevelFilter::Error) => Some(LogLevelFilter::Error),
        Ok(log::LevelFilter::Warn) => Some(LogLevelFilter::Warn),
        Ok(log::LevelFilter::Info) => Some(LogLevelFilter::Info),
        Ok(log::LevelFilter::Debug) => Some(LogLevelFilter::Debug),
        Ok(log::LevelFilter::Trace) => Some(LogLevelFilter::Trace),
        Err(_) => None,
    }
}

/// The level asked for by `BEACON_LOG` or `RUST_LOG` (given here by their values),
/// whichever is set and parses, `BEACON_LOG` first. `None` rather than a default, so a
/// frontend with its own considered levels can leave them alone unless the user asked for
/// more.
pub fn env_level(beacon_log: Option<&str>, rust_log: Option<&str>) -> (res: Option<LogLevelFilter>)
    ensures
        res == match beacon_log {
            Some(v) if level_named(v@) is Some => level_named(v@),
            _ => match rust_log {
                Some(v) => level_named(v@),
                None => None,
            },
        },
{
    let first = match beacon_log {
        Some(value) => parse_level_filter(value),
        None => None,
    };
    match first {
        Some(level) => Some(level),
        None => match rust_log {
            Some(value) => parse_level_filter(value),
            None => None,
        },
    }
}

/// The level a frontend with no opinion of its own should use: what `BEACON_LOG` or
/// `RUST_LOG` asked for (`requested`, when either is set and parses), else warnings only.
pub fn level_from_env(requested: Option<LogLevelFilter>) -> (res: LogLevelFilter)
    ensures
        res == match requested {
            Some(level) => level,
            None => LogLevelFilter::Warn,
        },
{
    match requested {
        Some(level) => level,
        None => LogLevelFilter::Warn,
    }
}

// ── network ──────────────────────────────────────────────────────────────────

/// Where a request got to.
#[derive(Clone, Copy, Debug, PartialEq, Eq, Structural)]
pub enum RequestState {
    Queued,
    Running,
    Finished,
    Failed,
    Cancelled,
}

impl RequestState {
    pub fn label(&self) -> (res: &'static str)
        ensures
            res@ == match *self {
                RequestState::Queued => "queued"@,
                RequestState::Running => "loading"@,
                RequestState::Finished => "done"@,
                RequestState::Failed => "failed"@,
                RequestState::Cancelled => "cancelled"@,
            },
    {
        match self {
            RequestState::Queued => "queued",
            RequestState::Running => "loading",
            RequestState::Finished => "done",
            RequestState::Failed => "failed",
            RequestState::Cancelled => "cancelled",
        }
    }
}

/// How far an unfinished request got, so a slow load can be told from a stuck one.
#[derive(Clone, Copy, Debug, PartialEq, Eq, Structural)]
pub enum Phase {
    /// Not dispatched yet.
    Queued,
    /// Dispatched, and nothing has come back ("no news yet", not "connecting").
    Opening,
    /// Resolution finished and the connection has not.
    Connecting,
    /// On the wire, with no response headers yet.
    Waiting,
    /// Headers arrived, body still coming.
    Receiving,
    /// Nothing in flight: the request finished, failed or was cancelled.
    Done,
}

impl Phase {
    pub fn label(&self) -> (res: &'static str)
        ensures
            res@ == match *self {
                Phase::Queued => "queued"@,
                Phase::Opening => "opening"@,
                Phase::Connecting => "connecting"@,
                Phase::Waiting => "waiting"@,
                Phase::Receiving => "receiving"@,
                Phase::Done => "done"@,
            },
    {
        match self {
            Phase::Queued => "queued",
            Phase::Opening => "opening",
            Phase::Connecting => "connecting",
            Phase::Waiting => "waiting",
            Phase::Receiving => "receiving",
            Phase::Done => "done",
        }
    }

    /// What a developer looking at a stuck request should suspect.
    pub fn hint(&self) -> (res: &'static str)
        ensures
            res@ == match *self {
                Phase::Queued => "not sent yet: waiting behind other requests"@,
                Phase::Opening => "no response from the connection attempt: DNS, or a host that never answers"@,
                Phase::Connecting => "the host resolves but is not accepting the connection"@,
                Phase::Waiting => "the server took the request and has not started replying"@,
                Phase::Receiving => "the response started but the body has not finished arriving"@,
                Phase::Done => "not in flight"@,
            },
    {
        match self {
            Phase::Queued => "not sent yet: waiting behind other requests",
            Phase::Opening => "no response from the connection attempt: DNS, or a host that never answers",
            Phase::Connecting => "the host resolves but is not accepting the connection",
            Phase::Waiting => "the server took the request and has not started replying",
            Phase::Receiving => "the response started but the body has not finished arriving",
            Phase::Done => "not in flight",
        }
    }
}

/// What kind of failure a request met, when the engine could tell.
#[derive(Clone, Copy, Debug, PartialEq, Eq, Structural)]
pub enum FailureKind {
    Blocked,
    Tls,
    Timeout,
    Connect,
    Transfer,
    Redirect,
    Cancelled,
    Other,
}

} // verus!

verus! {

/// One request the engine made, folded together from the events it emitted about it.
#[derive(Clone, Debug)]
pub struct NetRequest {
    /// The engine's request id (the 128-bit value of its UUID); later events match on it.
    pub id: u128,
    /// Which tab asked. `None` before anything says.
    pub tab: Option<TabId>,
    pub url: String,
    /// `document`, `stylesheet`, `script`, `image`, `font`, ...
    pub kind: String,
    /// What caused it: `navigation`, `parser`, `script`, `css`.
    pub initiator: String,
    pub state: RequestState,
    pub status: Option<u16>,
    pub content_type: Option<String>,
    /// What the server said it would send, which is not always what arrived.
    pub content_length: Option<u64>,
    pub received_bytes: u64,
    /// Microseconds: a cache hit finishes well inside a millisecond.
    pub elapsed_us: Option<u64>,
    pub error: Option<String>,
    /// What kind of failure it was, when the engine could tell.
    pub failure: Option<FailureKind>,
    /// The method actually sent. `None` until the request line is reported.
    pub method: Option<String>,
    /// The headers the net stack set on the way out.
    pub request_headers: Vec<(String, String)>,
    /// Every response header, for the detail view.
    pub headers: Vec<(String, String)>,
    /// The first bytes of the response body, when body capture was on. Raw bytes.
    pub body: Option<Vec<u8>>,
    /// Whether the body continued past the captured preview.
    pub body_truncated: bool,
    /// Whether a body was captured and then dropped to stay inside the total budget.
    pub body_evicted: bool,
    /// Redirect chain, as `status -> location` steps.
    pub redirects: Vec<(u16, String)>,
    /// When it was first seen, in milliseconds since the epoch.
    pub started_ms: u64,
    /// How long name resolution took, when this request opened a connection.
    pub dns_us: Option<u64>,
    /// How long the connection took to establish (encloses `dns_us`).
    pub connect_us: Option<u64>,
    /// When the response headers arrived, same clock as `started_ms`.
    pub headers_ms: Option<u64>,
}

pub struct NetRequestView {
    pub id: u128,
    pub tab: Option<TabId>,
    pub url: Seq<char>,
    pub kind: Seq<char>,
    pub initiator: Seq<char>,
    pub state: RequestState,
    pub status: Option<u16>,
    pub content_type: Option<Seq<char>>,
    pub content_length: Option<u64>,
    pub received_bytes: u64,
    pub elapsed_us: Option<u64>,
    pub error: Option<Seq<char>>,
    pub failure: Option<FailureKind>,
    pub method: Option<Seq<char>>,
    pub request_headers: Seq<(Seq<char>, Seq<char>)>,
    pub headers: Seq<(Seq<char>, Seq<char>)>,
    pub body: Option<Seq<u8>>,
    pub body_truncated: bool,
    pub body_evicted: bool,
    pub redirects: Seq<(u16, Seq<char>)>,
    pub started_ms: u64,
    pub dns_us: Option<u64>,
    pub connect_us: Option<u64>,
    pub headers_ms: Option<u64>,
}

pub open spec fn headers_view(h: Seq<(String, String)>) -> Seq<(Seq<char>, Seq<char>)> {
    h.map_values(|p: (String, String)| (p.0@, p.1@))
}

pub open spec fn redirects_view(r: Seq<(u16, String)>) -> Seq<(u16, Seq<char>)> {
    r.map_values(|p: (u16, String)| (p.0, p.1@))
}

impl View for NetRequest {
    type V = NetRequestView;

    open spec fn view(&self) -> NetRequestView {
        NetRequestView {
            id: self.id,
            tab: self.tab,
            url: self.url@,
            kind: self.kind@,
            initiator: self.initiator@,
            state: self.state,
            status: self.status,
            content_type: crate::tab::opt_string_view(self.content_type),
            content_length: self.content_length,
            received_bytes: self.received_bytes,
            elapsed_us: self.elapsed_us,
            error: crate::tab::opt_string_view(self.error),
            failure: self.failure,
            method: crate::tab::opt_string_view(self.method),
            request_headers: headers_view(self.request_headers@),
            headers: headers_view(self.headers@),
            body: crate::tab::opt_bytes_view(self.body),
            body_truncated: self.body_truncated,
            body_evicted: self.body_evicted,
            redirects: redirects_view(self.redirects@),
            started_ms: self.started_ms,
            dns_us: self.dns_us,
            connect_us: self.connect_us,
            headers_ms: self.headers_ms,
        }
    }
}

/// Where a request has got to, derived only from what was reported. With no connection
/// timing there is no telling a name that will not resolve from a pooled connection being
/// reused, so both are `Opening`.
pub open spec fn phase_of(r: NetRequestView) -> Phase {
    match r.state {
        RequestState::Queued => Phase::Queued,
        RequestState::Finished | RequestState::Failed | RequestState::Cancelled => Phase::Done,
        RequestState::Running => if r.headers_ms is Some {
            Phase::Receiving
        } else if r.connect_us is Some {
            Phase::Waiting
        } else if r.dns_us is Some {
            Phase::Connecting
        } else {
            Phase::Opening
        },
    }
}

impl NetRequest {
    pub fn phase(&self) -> (res: Phase)
        ensures
            res == phase_of(self@),
    {
        match self.state {
            RequestState::Queued => Phase::Queued,
            RequestState::Finished | RequestState::Failed | RequestState::Cancelled => Phase::Done,
            RequestState::Running => {
                if self.headers_ms.is_some() {
                    Phase::Receiving
                } else if self.connect_us.is_some() {
                    Phase::Waiting
                } else if self.dns_us.is_some() {
                    Phase::Connecting
                } else {
                    Phase::Opening
                }
            },
        }
    }

    /// A short name for why it failed, for a status column; `None` when the engine did
    /// not classify the failure.
    pub fn failure_label(&self) -> (res: Option<&'static str>)
        ensures
            match self.failure {
                None => res is None,
                Some(kind) => res matches Some(l) && l@ == match kind {
                    FailureKind::Blocked => "blocked"@,
                    FailureKind::Tls => "TLS"@,
                    FailureKind::Timeout => "timeout"@,
                    FailureKind::Connect => "no connection"@,
                    FailureKind::Transfer => "transfer broke"@,
                    FailureKind::Redirect => "bad redirect"@,
                    FailureKind::Cancelled => "cancelled"@,
                    FailureKind::Other => "failed"@,
                },
            },
    {
        match self.failure {
            None => None,
            Some(kind) => Some(match kind {
                FailureKind::Blocked => "blocked",
                FailureKind::Tls => "TLS",
                FailureKind::Timeout => "timeout",
                FailureKind::Connect => "no connection",
                FailureKind::Transfer => "transfer broke",
                FailureKind::Redirect => "bad redirect",
                FailureKind::Cancelled => "cancelled",
                FailureKind::Other => "failed",
            }),
        }
    }

    /// What that failure means, in the words someone debugging a dead page needs.
    pub fn failure_hint(&self) -> (res: Option<&'static str>)
        ensures
            match self.failure {
                None => res is None,
                Some(kind) => res matches Some(l) && l@ == match kind {
                    FailureKind::Blocked => "refused by policy before it was sent -- mixed content, or a URL the embedder disallows"@,
                    FailureKind::Tls => "the TLS handshake failed: an expired, untrusted or mismatched certificate"@,
                    FailureKind::Timeout => "no answer within the time limit"@,
                    FailureKind::Connect => "no connection was established: the name did not resolve, or nothing accepted it"@,
                    FailureKind::Transfer => "the connection worked and then broke part way through"@,
                    FailureKind::Redirect => "a redirect could not be followed: too many hops, or an invalid target"@,
                    FailureKind::Cancelled => "something gave up on the request"@,
                    FailureKind::Other => "the network stack did not say what went wrong"@,
                },
            },
    {
        match self.failure {
            None => None,
            Some(kind) => Some(match kind {
                FailureKind::Blocked => "refused by policy before it was sent -- mixed content, or a URL the embedder disallows",
                FailureKind::Tls => "the TLS handshake failed: an expired, untrusted or mismatched certificate",
                FailureKind::Timeout => "no answer within the time limit",
                FailureKind::Connect => "no connection was established: the name did not resolve, or nothing accepted it",
                FailureKind::Transfer => "the connection worked and then broke part way through",
                FailureKind::Redirect => "a redirect could not be followed: too many hops, or an invalid target",
                FailureKind::Cancelled => "something gave up on the request",
                FailureKind::Other => "the network stack did not say what went wrong",
            }),
        }
    }
}

} // verus!

verus! {

/// How many bytes of captured bodies are kept in total, across all requests. Past it,
/// the oldest bodies are dropped while their rows stay.
pub const BODY_BUDGET: usize = 16777216;

pub open spec fn body_len(r: NetRequestView) -> int {
    match r.body {
        Some(b) => b.len() as int,
        None => 0,
    }
}

/// Bytes of captured bodies held by these rows.
pub open spec fn body_total(rs: Seq<NetRequestView>) -> int
    decreases rs.len(),
{
    if rs.len() == 0 {
        0
    } else {
        body_total(rs.drop_last()) + body_len(rs.last())
    }
}

/// A row whose body was dropped to stay inside the budget, and says so.
pub open spec fn evicted(r: NetRequestView) -> NetRequestView {
    NetRequestView { body: None, body_evicted: true, ..r }
}

/// Walk the rows oldest first, dropping bodies while `total` is over the budget.
pub open spec fn evict_from(rs: Seq<NetRequestView>, total: int) -> Seq<NetRequestView>
    decreases rs.len(),
{
    if rs.len() == 0 || total <= BODY_BUDGET {
        rs
    } else if rs[0].body is Some {
        seq![evicted(rs[0])] + evict_from(rs.drop_first(), total - body_len(rs[0]))
    } else {
        seq![rs[0]] + evict_from(rs.drop_first(), total)
    }
}

/// The rows after bringing the captured bodies back under [`BODY_BUDGET`].
pub open spec fn evict_over_budget(rs: Seq<NetRequestView>) -> Seq<NetRequestView> {
    evict_from(rs, body_total(rs))
}

proof fn lemma_body_total_front(rs: Seq<NetRequestView>)
    requires
        rs.len() > 0,
    ensures
        body_total(rs) == body_len(rs[0]) + body_total(rs.drop_first()),
    decreases rs.len(),
{
    if rs.len() > 1 {
        lemma_body_total_front(rs.drop_last());
        assert(rs.drop_last().drop_first() =~= rs.drop_first().drop_last());
        assert(rs.drop_first().last() == rs.last());
        assert(rs.drop_last()[0] == rs[0]);
        assert(body_total(rs.drop_first()) == body_total(rs.drop_first().drop_last()) + body_len(
            rs.drop_first().last(),
        ));
    } else {
        assert(rs.drop_first().len() == 0);
        assert(rs.drop_last().len() == 0);
        assert(rs.last() == rs[0]);
        assert(body_total(rs.drop_first()) == 0);
        assert(body_total(rs.drop_last()) == 0);
    }
}

proof fn lemma_body_total_nonneg(rs: Seq<NetRequestView>)
    ensures
        body_total(rs) >= 0,
    decreases rs.len(),
{
    if rs.len() > 0 {
        lemma_body_total_nonneg(rs.drop_last());
    }
}

/// Sum of the captured body sizes.
fn bodies_held(requests: &Vec<NetRequest>) -> (res: u128)
    ensures
        res == body_total(requests@.map_values(|r: NetRequest| r@)),
{
    let mut total: u128 = 0;
    let mut i: usize = 0;
    while i < requests.len()
        invariant
            i <= requests.len(),
            total == body_total(requests@.take(i as int).map_values(|r: NetRequest| r@)),
            total <= i * 18446744073709551615,
        decreases requests.len() - i,
    {
        assert(requests@.take(i as int + 1).map_values(|r: NetRequest| r@).drop_last()
            =~= requests@.take(i as int).map_values(|r: NetRequest| r@));
        match &requests[i].body {
            Some(b) => {
                total = total + b.len() as u128;
            },
            None => {},
        }
        i += 1;
    }
    assert(requests@.take(requests.len() as int) =~= requests@);
    total
}

/// Drop the oldest captured bodies until the total is back under [`BODY_BUDGET`]. Rows are
/// kept: a request whose body was evicted is still part of the page's history, and says
/// its body was evicted rather than never captured.
pub fn evict_bodies_over_budget(requests: &mut Vec<NetRequest>)
    ensures
        final(requests)@.map_values(|r: NetRequest| r@) == evict_over_budget(
            old(requests)@.map_values(|r: NetRequest| r@),
        ),
{
    let ghost orig = requests@.map_values(|r: NetRequest| r@);
    let mut total: u128 = bodies_held(requests);
    let budget: u128 = BODY_BUDGET as u128;
    let n = requests.len();
    let mut i: usize = 0;
    assert(orig.skip(0) =~= orig);
    assert(requests@.map_values(|r: NetRequest| r@).take(0) =~= Seq::<NetRequestView>::empty());
    while i < n && total > budget
        invariant
            n == requests@.len(),
            n == orig.len(),
            i <= n,
            budget == BODY_BUDGET,
            total == body_total(orig.skip(i as int)),
            requests@.map_values(|r: NetRequest| r@).skip(i as int) == orig.skip(i as int),
            requests@.map_values(|r: NetRequest| r@).take(i as int) + evict_from(orig.skip(i as int), total as int)
                == evict_over_budget(orig),
        decreases n - i,
    {
        let ghost before = requests@.map_values(|r: NetRequest| r@);
        let ghost rest = orig.skip(i as int);
        proof {
            lemma_body_total_front(rest);
            lemma_body_total_nonneg(rest.drop_first());
            assert(rest[0] == orig[i as int]);
            assert(rest.drop_first() =~= orig.skip(i as int + 1));
            assert(before[i as int] == orig[i as int]);
        }
        let size: Option<usize> = match &requests[i].body {
            Some(b) => Some(b.len()),
            None => None,
        };
        match size {
            Some(len) => {
                requests[i].body = None;
                requests[i].body_evicted = true;
                total = total - len as u128;
                proof {
                    let after = requests@.map_values(|r: NetRequest| r@);
                    assert(after[i as int] == evicted(orig[i as int]));
                    assert(after.take(i as int + 1) =~= before.take(i as int).push(evicted(orig[i as int])));
                    assert(after.skip(i as int + 1) =~= before.skip(i as int + 1));
                    assert(before.skip(i as int + 1) =~= before.skip(i as int).drop_first());
                }
            },
            None => {
                proof {
                    let after = requests@.map_values(|r: NetRequest| r@);
                    assert(after.take(i as int + 1) =~= before.take(i as int).push(orig[i as int]));
                    assert(after.skip(i as int + 1) =~= before.skip(i as int).drop_first());
                }
            },
        }
        i += 1;
    }
    proof {
        let fin = requests@.map_values(|r: NetRequest| r@);
        if i == n {
            assert(orig.skip(i as int).len() == 0);
            assert(fin.take(i as int) =~= fin);
        } else {
            assert(fin =~= fin.take(i as int) + fin.skip(i as int));
        }
    }
}

/// After eviction the bodies held fit the budget, every row is still there with only its
/// body dropped (and marked as evicted) or untouched, and bodies go oldest first: a row
/// keeps its body only if every row after it that had one kept it too.
pub proof fn eviction_keeps_rows_and_fits_the_budget(rs: Seq<NetRequestView>)
    ensures
        body_total(evict_over_budget(rs)) <= BODY_BUDGET,
        evict_over_budget(rs).len() == rs.len(),
        forall|i: int| 0 <= i < rs.len() ==> #[trigger] evict_over_budget(rs)[i] == rs[i]
            || (rs[i].body is Some && evict_over_budget(rs)[i] == evicted(rs[i])),
        forall|i: int, j: int| 0 <= i < j < rs.len() && rs[i].body is Some && #[trigger] evict_over_budget(rs)[j]
            == evicted(rs[j]) && rs[j].body is Some ==> #[trigger] evict_over_budget(rs)[i] == evicted(rs[i]),
{
    lemma_evict_from(rs, body_total(rs));
}

proof fn lemma_evict_from(rs: Seq<NetRequestView>, total: int)
    requires
        total == body_total(rs),
    ensures
        body_total(evict_from(rs, total)) <= BODY_BUDGET,
        evict_from(rs, total).len() == rs.len(),
        forall|i: int| 0 <= i < rs.len() ==> #[trigger] evict_from(rs, total)[i] == rs[i]
            || (rs[i].body is Some && evict_from(rs, total)[i] == evicted(rs[i])),
        forall|i: int, j: int| 0 <= i < j < rs.len() && rs[i].body is Some && #[trigger] evict_from(rs, total)[j]
            == evicted(rs[j]) && rs[j].body is Some ==> #[trigger] evict_from(rs, total)[i] == evicted(rs[i]),
    decreases rs.len(),
{
    let e = evict_from(rs, total);
    if rs.len() == 0 || total <= BODY_BUDGET {
        assert forall|i: int, j: int| 0 <= i < j < rs.len() && rs[i].body is Some && #[trigger] e[j]
            == evicted(rs[j]) && rs[j].body is Some implies #[trigger] e[i] == evicted(rs[i]) by {
            assert(e[j].body is None);
        }
    } else {
        let rest = rs.drop_first();
        lemma_body_total_front(rs);
        let t2 = if rs[0].body is Some { total - body_len(rs[0]) } else { total };
        lemma_evict_from(rest, t2);
        let er = evict_from(rest, t2);
        let head = if rs[0].body is Some { evicted(rs[0]) } else { rs[0] };
        assert(e == seq![head] + er);
        assert(e.drop_first() =~= er);
        lemma_body_total_front(e);
        assert(e[0] == head);
        assert forall|i: int| 0 <= i < rs.len() implies #[trigger] e[i] == rs[i]
            || (rs[i].body is Some && e[i] == evicted(rs[i])) by {
            if i > 0 {
                assert(e[i] == er[i - 1]);
                assert(rest[i - 1] == rs[i]);
            }
        }
        assert forall|i: int, j: int| 0 <= i < j < rs.len() && rs[i].body is Some && #[trigger] e[j]
            == evicted(rs[j]) && rs[j].body is Some implies #[trigger] e[i] == evicted(rs[i]) by {
            assert(e[j] == er[j - 1]);
            assert(rest[j - 1] == rs[j]);
            if i > 0 {
                assert(e[i] == er[i - 1]);
                assert(rest[i - 1] == rs[i]);
            }
        }
    }
}

/// The row eviction leaves at index `j`: its body goes exactly when it has one and the
/// bodies from `j` onward are over the budget.
pub open spec fn evicted_row(rs: Seq<NetRequestView>, j: int) -> NetRequestView {
    if rs[j].body is Some && body_total(rs.skip(j)) > BODY_BUDGET {
        evicted(rs[j])
    } else {
        rs[j]
    }
}

proof fn lemma_evict_exact(rs: Seq<NetRequestView>, total: int)
    requires
        total == body_total(rs),
    ensures
        forall|j: int| 0 <= j < rs.len() ==> #[trigger] evict_from(rs, total)[j] == evicted_row(rs, j),
    decreases rs.len(),
{
    let e = evict_from(rs, total);
    lemma_evict_from(rs, total);
    if rs.len() == 0 {
    } else if total <= BODY_BUDGET {
        assert forall|j: int| 0 <= j < rs.len() implies #[trigger] e[j] == evicted_row(rs, j) by {
            lemma_body_total_skip(rs, j);
        }
    } else {
        let rest = rs.drop_first();
        lemma_body_total_front(rs);
        let t2 = if rs[0].body is Some { total - body_len(rs[0]) } else { total };
        lemma_evict_exact(rest, t2);
        let er = evict_from(rest, t2);
        let head = if rs[0].body is Some { evicted(rs[0]) } else { rs[0] };
        assert(e == seq![head] + er);
        assert forall|j: int| 0 <= j < rs.len() implies #[trigger] e[j] == evicted_row(rs, j) by {
            if j == 0 {
                assert(rs.skip(0) =~= rs);
            } else {
                assert(e[j] == er[j - 1]);
                assert(er[j - 1] == evicted_row(rest, j - 1));
                assert(rest[j - 1] == rs[j]);
                assert(rest.skip(j - 1) =~= rs.skip(j));
            }
        }
    }
}

/// Eviction drops exactly the oldest bodies it must, and nothing else: a row's body goes
/// exactly when the row has one and the bodies from that row onward are over the budget.
/// Those rows are a prefix of the rows with bodies (the totals only shrink going newer),
/// the least one after which the rest fit; when everything already fits, nothing changes.
pub proof fn eviction_drops_exactly_the_oldest_over_budget(rs: Seq<NetRequestView>)
    ensures
        evict_over_budget(rs).len() == rs.len(),
        forall|j: int| 0 <= j < rs.len() ==> #[trigger] evict_over_budget(rs)[j] == evicted_row(rs, j),
        body_total(evict_over_budget(rs)) <= BODY_BUDGET,
        body_total(rs) <= BODY_BUDGET ==> evict_over_budget(rs) == rs,
        forall|i: int, j: int| 0 <= i < j < rs.len() ==> #[trigger] body_total(rs.skip(j)) <= #[trigger] body_total(rs.skip(i)),
{
    lemma_evict_from(rs, body_total(rs));
    lemma_evict_exact(rs, body_total(rs));
    assert forall|i: int, j: int| 0 <= i < j < rs.len() implies #[trigger] body_total(rs.skip(j)) <= #[trigger] body_total(rs.skip(i)) by {
        lemma_body_total_skip(rs.skip(i), j - i);
        assert(rs.skip(i).skip(j - i) =~= rs.skip(j));
    }
}

} // verus!

verus! {

/// What a request fetched.
#[derive(Clone, Copy, Debug, PartialEq, Eq, Structural)]
pub enum ResourceKind {
    Document,
    Stylesheet,
    Script { blocking: bool },
    Image,
    Font,
    Media,
    Xhr,
    Fetch,
    WebSocket,
    Other,
}

/// What caused a request.
#[derive(Clone, Copy, Debug, PartialEq, Eq, Structural)]
pub enum Initiator {
    Navigation,
    Parser,
    Script,
    CSS,
    Other,
}

/// One thing the engine reported about a request, by the request's id (the 128-bit value
/// of its UUID).
#[derive(Clone, Debug)]
pub enum ResourceEvent {
    Queued { request_id: u128, url: String, kind: ResourceKind, initiator: Initiator },
    Started { request_id: u128, url: String, kind: ResourceKind, initiator: Initiator },
    RequestSent { request_id: u128, url: String, method: String, headers: Vec<(String, String)> },
    BodyPreview { request_id: u128, url: String, body: Vec<u8>, truncated: bool },
    DnsResolved { request_id: u128, elapsed_us: u64 },
    Connected { request_id: u128, elapsed_us: u64 },
    Redirected { request_id: u128, to: String, status: u16 },
    Headers {
        request_id: u128,
        url: String,
        status: u16,
        content_length: Option<u64>,
        content_type: Option<String>,
        headers: Vec<(String, String)>,
    },
    Progress { request_id: u128, received_bytes: u64 },
    Finished { request_id: u128, url: String, received_bytes: u64, elapsed_us: Option<u64> },
    Failed { request_id: u128, url: String, kind: FailureKind, error: String },
    /// `reason` is the engine's cancellation reason, in its debug form.
    Cancelled { request_id: u128, url: String, reason: String },
}

pub open spec fn event_request(e: ResourceEvent) -> u128 {
    match e {
        ResourceEvent::Queued { request_id, .. } => request_id,
        ResourceEvent::Started { request_id, .. } => request_id,
        ResourceEvent::RequestSent { request_id, .. } => request_id,
        ResourceEvent::BodyPreview { request_id, .. } => request_id,
        ResourceEvent::DnsResolved { request_id, .. } => request_id,
        ResourceEvent::Connected { request_id, .. } => request_id,
        ResourceEvent::Redirected { request_id, .. } => request_id,
        ResourceEvent::Headers { request_id, .. } => request_id,
        ResourceEvent::Progress { request_id, .. } => request_id,
        ResourceEvent::Finished { request_id, .. } => request_id,
        ResourceEvent::Failed { request_id, .. } => request_id,
        ResourceEvent::Cancelled { request_id, .. } => request_id,
    }
}

/// The address a row is created with when this event is the first seen of its request.
pub open spec fn event_url(e: ResourceEvent) -> Seq<char> {
    match e {
        ResourceEvent::Queued { url, .. } => url@,
        ResourceEvent::Started { url, .. } => url@,
        ResourceEvent::RequestSent { url, .. } => url@,
        ResourceEvent::BodyPreview { url, .. } => url@,
        ResourceEvent::Redirected { to, .. } => to@,
        ResourceEvent::Headers { url, .. } => url@,
        ResourceEvent::Finished { url, .. } => url@,
        ResourceEvent::Failed { url, .. } => url@,
        ResourceEvent::Cancelled { url, .. } => url@,
        _ => Seq::empty(),
    }
}

pub open spec fn kind_text(kind: ResourceKind) -> Seq<char> {
    match kind {
        ResourceKind::Document => "document"@,
        ResourceKind::Stylesheet => "stylesheet"@,
        ResourceKind::Script { blocking } => if blocking { "script (blocking)"@ } else { "script"@ },
        ResourceKind::Image => "image"@,
        ResourceKind::Font => "font"@,
        ResourceKind::Media => "media"@,
        ResourceKind::Xhr => "xhr"@,
        ResourceKind::Fetch => "fetch"@,
        ResourceKind::WebSocket => "websocket"@,
        ResourceKind::Other => "other"@,
    }
}

pub open spec fn initiator_text(initiator: Initiator) -> Seq<char> {
    match initiator {
        Initiator::Navigation => "navigation"@,
        Initiator::Parser => "parser"@,
        Initiator::Script => "script"@,
        Initiator::CSS => "css"@,
        Initiator::Other => "other"@,
    }
}

fn kind_label(kind: ResourceKind) -> (res: String)
    ensures
        res@ == kind_text(kind),
{
    let text = match kind {
        ResourceKind::Document => "document",
        ResourceKind::Stylesheet => "stylesheet",
        ResourceKind::Script { blocking } => if blocking { "script (blocking)" } else { "script" },
        ResourceKind::Image => "image",
        ResourceKind::Font => "font",
        ResourceKind::Media => "media",
        ResourceKind::Xhr => "xhr",
        ResourceKind::Fetch => "fetch",
        ResourceKind::WebSocket => "websocket",
        ResourceKind::Other => "other",
    };
    text.to_string()
}

fn initiator_label(initiator: Initiator) -> (res: String)
    ensures
        res@ == initiator_text(initiator),
{
    let text = match initiator {
        Initiator::Navigation => "navigation",
        Initiator::Parser => "parser",
        Initiator::Script => "script",
        Initiator::CSS => "css",
        Initiator::Other => "other",
    };
    text.to_string()
}

/// The row a request gets when it is first seen.
pub open spec fn fresh_row(id: u128, url: Seq<char>, tab: Option<TabId>, now_ms: u64) -> NetRequestView {
    NetRequestView {
        id,
        tab,
        url,
        kind: "other"@,
        initiator: "other"@,
        state: RequestState::Queued,
        status: None,
        content_type: None,
        content_length: None,
        received_bytes: 0,
        elapsed_us: None,
        error: None,
        failure: None,
        method: None,
        request_headers: Seq::empty(),
        headers: Seq::empty(),
        body: None,
        body_truncated: false,
        body_evicted: false,
        redirects: Seq::empty(),
        started_ms: now_ms,
        dns_us: None,
        connect_us: None,
        headers_ms: None,
    }
}

/// How one event changes its request's row.
pub open spec fn apply_event(r: NetRequestView, e: ResourceEvent, now_ms: u64) -> NetRequestView {
    match e {
        ResourceEvent::Queued { kind, initiator, .. } => NetRequestView {
            kind: kind_text(kind),
            initiator: initiator_text(initiator),
            state: RequestState::Queued,
            ..r
        },
        ResourceEvent::Started { url, kind, initiator, .. } => NetRequestView {
            url: url@,
            kind: kind_text(kind),
            initiator: initiator_text(initiator),
            state: RequestState::Running,
            ..r
        },
        ResourceEvent::RequestSent { method, headers, .. } => NetRequestView {
            method: Some(method@),
            request_headers: headers_view(headers@),
            ..r
        },
        ResourceEvent::BodyPreview { body, truncated, .. } => NetRequestView {
            body: Some(body@),
            body_truncated: truncated,
            ..r
        },
        ResourceEvent::DnsResolved { elapsed_us, .. } => NetRequestView { dns_us: Some(elapsed_us), ..r },
        ResourceEvent::Connected { elapsed_us, .. } => NetRequestView { connect_us: Some(elapsed_us), ..r },
        ResourceEvent::Redirected { to, status, .. } => NetRequestView {
            redirects: r.redirects.push((status, to@)),
            url: to@,
            ..r
        },
        ResourceEvent::Headers { status, content_length, content_type, headers, .. } => NetRequestView {
            headers_ms: if r.headers_ms is Some { r.headers_ms } else { Some(now_ms) },
            status: Some(status),
            content_length,
            content_type: crate::tab::opt_string_view(content_type),
            headers: headers_view(headers@),
            state: RequestState::Running,
            ..r
        },
        ResourceEvent::Progress { received_bytes, .. } => NetRequestView { received_bytes, ..r },
        ResourceEvent::Finished { received_bytes, elapsed_us, .. } => NetRequestView {
            received_bytes,
            elapsed_us,
            state: RequestState::Finished,
            ..r
        },
        ResourceEvent::Failed { kind, error, .. } => NetRequestView {
            error: Some(error@),
            failure: Some(kind),
            state: RequestState::Failed,
            ..r
        },
        ResourceEvent::Cancelled { reason, .. } => NetRequestView {
            error: Some(reason@),
            state: RequestState::Cancelled,
            ..r
        },
    }
}

/// Plenty for a page load; oldest requests fall off the front, a quarter at a time.
pub const REQUEST_CAPACITY: usize = 1000;

/// The first row for this request id, if there is one.
pub open spec fn row_index(rs: Seq<NetRequestView>, id: u128) -> Option<int>
    decreases rs.len(),
{
    if rs.len() == 0 {
        None
    } else {
        match row_index(rs.drop_last(), id) {
            Some(k) => Some(k),
            None => if rs.last().id == id { Some(rs.len() - 1) } else { None },
        }
    }
}

/// The rows once a row for the event's request exists: untouched when it already had
/// one; otherwise a fresh row is appended, after the oldest quarter is dropped if full.
pub open spec fn rows_with(rs: Seq<NetRequestView>, e: ResourceEvent, tab: Option<TabId>, now_ms: u64) -> Seq<NetRequestView> {
    match row_index(rs, event_request(e)) {
        Some(_) => rs,
        None => {
            let base = if rs.len() >= REQUEST_CAPACITY { rs.skip((REQUEST_CAPACITY / 4) as int) } else { rs };
            base.push(fresh_row(event_request(e), event_url(e), tab, now_ms))
        },
    }
}

/// Where the event's request's row sits once it exists.
pub open spec fn row_position(rs: Seq<NetRequestView>, e: ResourceEvent) -> int {
    match row_index(rs, event_request(e)) {
        Some(k) => k,
        None => (if rs.len() >= REQUEST_CAPACITY { rs.len() - REQUEST_CAPACITY / 4 } else { rs.len() as int }),
    }
}

/// The request log after folding in one event: the request's row is found or made, the
/// event applied to it, and a new body preview brings the captured bodies back under
/// budget.
pub open spec fn folded(rs: Seq<NetRequestView>, e: ResourceEvent, tab: Option<TabId>, now_ms: u64) -> Seq<NetRequestView> {
    let with = rows_with(rs, e, tab, now_ms);
    let k = row_position(rs, e);
    let updated = with.update(k, apply_event(with[k], e, now_ms));
    if e is BodyPreview { evict_over_budget(updated) } else { updated }
}

proof fn lemma_row_index(rs: Seq<NetRequestView>, id: u128)
    ensures
        match row_index(rs, id) {
            Some(k) => 0 <= k < rs.len() && rs[k].id == id,
            None => forall|j: int| 0 <= j < rs.len() ==> rs[j].id != id,
        },
    decreases rs.len(),
{
    if rs.len() > 0 {
        lemma_row_index(rs.drop_last(), id);
        assert forall|j: int| 0 <= j < rs.len() - 1 implies rs.drop_last()[j] == rs[j] by {}
    }
}

proof fn lemma_row_index_prefix(s: Seq<NetRequestView>, id: u128, n: int)
    requires
        0 <= n <= s.len(),
        row_index(s.take(n), id) is Some,
    ensures
        row_index(s, id) == row_index(s.take(n), id),
    decreases s.len() - n,
{
    if n < s.len() {
        assert(s.take(n + 1).drop_last() =~= s.take(n));
        lemma_row_index_prefix(s, id, n + 1);
    } else {
        assert(s.take(n) =~= s);
    }
}

/// The request ids of the rows, in order.
pub open spec fn request_ids(rs: Seq<NetRequestView>) -> Seq<u128> {
    rs.map_values(|r: NetRequestView| r.id)
}

/// Whether no two rows are for the same request.
pub open spec fn ids_distinct(rs: Seq<NetRequestView>) -> bool {
    forall|i: int, j: int| 0 <= i < j < rs.len() ==> #[trigger] rs[i].id != #[trigger] rs[j].id
}

/// Folding an event in keeps the log within [`REQUEST_CAPACITY`] and one row per
/// request: an event for a request already logged leaves the ids as they were; one for a
/// new request appends its id, after the oldest quarter falls off the front of a full log.
pub proof fn folding_keeps_one_row_per_request(rs: Seq<NetRequestView>, e: ResourceEvent, tab: Option<TabId>, now_ms: u64)
    requires
        rs.len() <= REQUEST_CAPACITY,
        ids_distinct(rs),
    ensures
        folded(rs, e, tab, now_ms).len() <= REQUEST_CAPACITY,
        ids_distinct(folded(rs, e, tab, now_ms)),
        request_ids(folded(rs, e, tab, now_ms)) == match row_index(rs, event_request(e)) {
            Some(_) => request_ids(rs),
            None => request_ids(
                if rs.len() >= REQUEST_CAPACITY { rs.skip((REQUEST_CAPACITY / 4) as int) } else { rs },
            ).push(event_request(e)),
        },
{
    let id = event_request(e);
    let with = rows_with(rs, e, tab, now_ms);
    let k = row_position(rs, e);
    let updated = with.update(k, apply_event(with[k], e, now_ms));
    lemma_row_index(rs, id);
    let expected = match row_index(rs, id) {
        Some(_) => request_ids(rs),
        None => request_ids(
            if rs.len() >= REQUEST_CAPACITY { rs.skip((REQUEST_CAPACITY / 4) as int) } else { rs },
        ).push(id),
    };
    assert(0 <= k < with.len());
    assert(apply_event(with[k], e, now_ms).id == with[k].id);
    assert(request_ids(updated) =~= request_ids(with));
    match row_index(rs, id) {
        Some(_) => {
            assert(request_ids(with) =~= expected);
            assert(ids_distinct(updated)) by {
                assert forall|i: int, j: int| 0 <= i < j < updated.len() implies #[trigger] updated[i].id
                    != #[trigger] updated[j].id by {
                    assert(updated[i].id == rs[i].id);
                    assert(updated[j].id == rs[j].id);
                }
            }
        },
        None => {
            let base = if rs.len() >= REQUEST_CAPACITY { rs.skip((REQUEST_CAPACITY / 4) as int) } else { rs };
            assert(with == base.push(fresh_row(id, event_url(e), tab, now_ms)));
            assert(request_ids(with) =~= expected);
            assert forall|i: int| 0 <= i < base.len() implies #[trigger] base[i].id != id by {
                if rs.len() >= REQUEST_CAPACITY {
                    assert(base[i] == rs[i + REQUEST_CAPACITY / 4]);
                }
            }
            assert(ids_distinct(updated)) by {
                assert forall|i: int, j: int| 0 <= i < j < updated.len() implies #[trigger] updated[i].id
                    != #[trigger] updated[j].id by {
                    assert(updated[i].id == with[i].id);
                    assert(updated[j].id == with[j].id);
                    if rs.len() >= REQUEST_CAPACITY {
                        assert(base[i] == rs[i + REQUEST_CAPACITY / 4]);
                        if j < base.len() {
                            assert(base[j] == rs[j + REQUEST_CAPACITY / 4]);
                        }
                    }
                }
            }
        },
    }
    if e is BodyPreview {
        eviction_keeps_rows_and_fits_the_budget(updated);
        let ev = evict_over_budget(updated);
        assert forall|i: int| 0 <= i < ev.len() implies #[trigger] ev[i].id == updated[i].id by {
            assert(ev[i] == updated[i] || ev[i] == evicted(updated[i]));
        }
        assert(request_ids(ev) =~= request_ids(updated));
        assert(ids_distinct(ev)) by {
            assert forall|i: int, j: int| 0 <= i < j < ev.len() implies #[trigger] ev[i].id
                != #[trigger] ev[j].id by {
                assert(ev[i].id == updated[i].id);
                assert(ev[j].id == updated[j].id);
            }
        }
    }
}

/// Every request seen this session, oldest first (the order the page fetched things).
#[derive(Debug)]
pub struct RequestLog {
    requests: Vec<NetRequest>,
}

/// The rows of a request log as values.
pub open spec fn rows_view(v: Seq<NetRequest>) -> Seq<NetRequestView> {
    v.map_values(|r: NetRequest| r@)
}

impl View for RequestLog {
    type V = Seq<NetRequestView>;

    closed spec fn view(&self) -> Seq<NetRequestView> {
        rows_view(self.requests@)
    }
}

impl RequestLog {
    /// The captured bodies fit the budget; every operation keeps it so.
    pub open spec fn wf(&self) -> bool {
        body_total(self@) <= BODY_BUDGET
    }

    /// Every request log keeps its captured bodies inside the budget.
    #[verifier::type_invariant]
    spec fn bodies_fit(self) -> bool {
        body_total(rows_view(self.requests@)) <= BODY_BUDGET
    }

    pub fn new() -> (res: RequestLog)
        ensures
            res@ == Seq::<NetRequestView>::empty(),
            res.wf(),
    {
        let requests: Vec<NetRequest> = Vec::new();
        assert(rows_view(requests@) =~= Seq::<NetRequestView>::empty());
        let res = RequestLog { requests };
        assert(res@ =~= Seq::<NetRequestView>::empty());
        res
    }
}

impl Clone for RequestLog {
    /// A copy holding the same rows.
    fn clone(&self) -> (res: Self)
        ensures
            res@ == self@,
    {
        proof {
            use_type_invariant(self);
        }
        let mut rows: Vec<NetRequest> = Vec::new();
        let mut i: usize = 0;
        while i < self.requests.len()
            invariant
                i <= self.requests.len(),
                rows_view(rows@) == rows_view(self.requests@).take(i as int),
            decreases self.requests.len() - i,
        {
            let ghost before = rows@;
            rows.push(copy_request(&self.requests[i]));
            assert(rows_view(rows@) =~= rows_view(before).push(self.requests@[i as int]@));
            assert(rows_view(rows@) =~= rows_view(self.requests@).take(i as int + 1));
            i += 1;
        }
        assert(rows_view(self.requests@).take(self.requests.len() as int) =~= rows_view(self.requests@));
        RequestLog { requests: rows }
    }
}

/// Find the row for a request id, or make one. Events do not always arrive in the order
/// the engine emitted them, so any of them may be a row's first sight.
fn row_in(rows: &mut Vec<NetRequest>, id: u128, url: &str, tab: Option<TabId>, now_ms: u64) -> (res: usize)
    ensures
        res < rows_view(final(rows)@).len(),
        rows_view(final(rows)@)[res as int].id == id,
        match row_index(rows_view(old(rows)@), id) {
            Some(k) => res == k && rows_view(final(rows)@) == rows_view(old(rows)@),
            None => {
                let base = if rows_view(old(rows)@).len() >= REQUEST_CAPACITY {
                    rows_view(old(rows)@).skip((REQUEST_CAPACITY / 4) as int)
                } else {
                    rows_view(old(rows)@)
                };
                &&& rows_view(final(rows)@) == base.push(fresh_row(id, url@, tab, now_ms))
                &&& res == base.len()
            },
        },
{
    let ghost rs = rows_view(rows@);
    let mut i: usize = 0;
    while i < rows.len()
        invariant
            i <= rows.len(),
            rows_view(rows@) == rs,
            row_index(rs.take(i as int), id) is None,
        decreases rows.len() - i,
    {
        assert(rs.take(i as int + 1).drop_last() =~= rs.take(i as int));
        if rows[i].id == id {
            assert(rs[i as int].id == id);
            proof { lemma_row_index_prefix(rs, id, i as int + 1); }
            return i;
        }
        i += 1;
    }
    assert(rs.take(rs.len() as int) =~= rs);
    if rows.len() >= REQUEST_CAPACITY {
        let kept = rows.split_off(REQUEST_CAPACITY / 4);
        *rows = kept;
        assert(rows_view(rows@) =~= rs.skip((REQUEST_CAPACITY / 4) as int));
    }
    let ghost base = rows_view(rows@);
    let row = NetRequest {
        id,
        tab,
        url: url.to_string(),
        kind: "other".to_string(),
        initiator: "other".to_string(),
        state: RequestState::Queued,
        status: None,
        content_type: None,
        content_length: None,
        received_bytes: 0,
        elapsed_us: None,
        error: None,
        failure: None,
        method: None,
        request_headers: Vec::new(),
        headers: Vec::new(),
        body: None,
        body_truncated: false,
        body_evicted: false,
        redirects: Vec::new(),
        dns_us: None,
        connect_us: None,
        headers_ms: None,
        started_ms: now_ms,
    };
    assert(headers_view(row.request_headers@) =~= Seq::<(Seq<char>, Seq<char>)>::empty());
    assert(headers_view(row.headers@) =~= Seq::<(Seq<char>, Seq<char>)>::empty());
    assert(redirects_view(row.redirects@) =~= Seq::<(u16, Seq<char>)>::empty());
    assert(row@ == fresh_row(id, url@, tab, now_ms));
    rows.push(row);
    assert(rows_view(rows@) =~= base.push(fresh_row(id, url@, tab, now_ms)));
    rows.len() - 1
}

} // verus!

verus! {

proof fn lemma_body_total_update(s: Seq<NetRequestView>, k: int, r: NetRequestView)
    requires
        0 <= k < s.len(),
    ensures
        body_total(s.update(k, r)) == body_total(s) - body_len(s[k]) + body_len(r),
    decreases s.len(),
{
    let t = s.update(k, r);
    if k == s.len() - 1 {
        assert(t.drop_last() =~= s.drop_last());
    } else {
        lemma_body_total_update(s.drop_last(), k, r);
        assert(t.drop_last() =~= s.drop_last().update(k, r));
    }
}

proof fn lemma_body_total_skip(s: Seq<NetRequestView>, n: int)
    requires
        0 <= n <= s.len(),
    ensures
        body_total(s.skip(n)) <= body_total(s),
    decreases n,
{
    if n > 0 {
        lemma_body_total_skip(s, n - 1);
        let t = s.skip(n - 1);
        lemma_body_total_front(t);
        assert(t.drop_first() =~= s.skip(n));
        lemma_body_total_nonneg(t.drop_first());
    } else {
        assert(s.skip(0) =~= s);
    }
}

/// Fold one engine resource event into the rows of a request log.
fn fold_into(rows: &mut Vec<NetRequest>, tab: Option<TabId>, event: ResourceEvent, now_ms: u64)
    requires
        body_total(rows_view(old(rows)@)) <= BODY_BUDGET,
    ensures
        rows_view(final(rows)@) == folded(rows_view(old(rows)@), event, tab, now_ms),
        body_total(rows_view(final(rows)@)) <= BODY_BUDGET,
{
    let ghost rs = rows_view(rows@);
    let ghost e = event;
    let id: u128 = match &event {
        ResourceEvent::Queued { request_id, .. } => *request_id,
        ResourceEvent::Started { request_id, .. } => *request_id,
        ResourceEvent::RequestSent { request_id, .. } => *request_id,
        ResourceEvent::BodyPreview { request_id, .. } => *request_id,
        ResourceEvent::DnsResolved { request_id, .. } => *request_id,
        ResourceEvent::Connected { request_id, .. } => *request_id,
        ResourceEvent::Redirected { request_id, .. } => *request_id,
        ResourceEvent::Headers { request_id, .. } => *request_id,
        ResourceEvent::Progress { request_id, .. } => *request_id,
        ResourceEvent::Finished { request_id, .. } => *request_id,
        ResourceEvent::Failed { request_id, .. } => *request_id,
        ResourceEvent::Cancelled { request_id, .. } => *request_id,
    };
    proof { reveal_strlit(""); }
    let url: &str = match &event {
        ResourceEvent::Queued { url, .. } => url.as_str(),
        ResourceEvent::Started { url, .. } => url.as_str(),
        ResourceEvent::RequestSent { url, .. } => url.as_str(),
        ResourceEvent::BodyPreview { url, .. } => url.as_str(),
        ResourceEvent::Redirected { to, .. } => to.as_str(),
        ResourceEvent::Headers { url, .. } => url.as_str(),
        ResourceEvent::Finished { url, .. } => url.as_str(),
        ResourceEvent::Failed { url, .. } => url.as_str(),
        ResourceEvent::Cancelled { url, .. } => url.as_str(),
        _ => "",
    };
    assert(url@ == event_url(e));
    let i = row_in(rows, id, url, tab, now_ms);
    let ghost with = rows_view(rows@);
    proof {
        lemma_row_index(rs, id);
        assert(with == rows_with(rs, e, tab, now_ms));
        assert(i as int == row_position(rs, e));
        // A new row carries no body, and dropping old rows only sheds bodies.
        match row_index(rs, id) {
            Some(_) => {},
            None => {
                let base = if rs.len() >= REQUEST_CAPACITY { rs.skip((REQUEST_CAPACITY / 4) as int) } else { rs };
                lemma_body_total_skip(rs, if rs.len() >= REQUEST_CAPACITY { (REQUEST_CAPACITY / 4) as int } else { 0 });
                assert(rs.skip(0) =~= rs);
                assert(with.drop_last() =~= base);
            },
        }
    }
    let ghost target = apply_event(with[i as int], e, now_ms);
    let mut preview = false;
    match event {
        ResourceEvent::Queued { kind, initiator, .. } => {
            rows[i].kind = kind_label(kind);
            rows[i].initiator = initiator_label(initiator);
            rows[i].state = RequestState::Queued;
        },
        ResourceEvent::Started { url, kind, initiator, .. } => {
            rows[i].url = url;
            rows[i].kind = kind_label(kind);
            rows[i].initiator = initiator_label(initiator);
            rows[i].state = RequestState::Running;
        },
        ResourceEvent::RequestSent { method, headers, .. } => {
            rows[i].method = Some(method);
            // A redirect sends a second request line for the same row; the last one is
            // the one whose response the row ends up describing.
            rows[i].request_headers = headers;
        },
        ResourceEvent::BodyPreview { body, truncated, .. } => {
            rows[i].body = Some(body);
            rows[i].body_truncated = truncated;
            preview = true;
        },
        ResourceEvent::DnsResolved { elapsed_us, .. } => {
            rows[i].dns_us = Some(elapsed_us);
        },
        ResourceEvent::Connected { elapsed_us, .. } => {
            rows[i].connect_us = Some(elapsed_us);
        },
        ResourceEvent::Redirected { to, status, .. } => {
            let ghost before = rows@[i as int].redirects@;
            rows[i].redirects.push((status, to.clone()));
            assert(redirects_view(rows@[i as int].redirects@) =~= redirects_view(before).push((status, to@)));
            // The row follows the redirect: what matters is where the bytes finally came
            // from; the chain is kept for the detail view.
            rows[i].url = to;
        },
        ResourceEvent::Headers { status, content_length, content_type, headers, .. } => {
            if rows[i].headers_ms.is_none() {
                rows[i].headers_ms = Some(now_ms);
            }
            rows[i].status = Some(status);
            rows[i].content_length = content_length;
            rows[i].content_type = content_type;
            rows[i].headers = headers;
            rows[i].state = RequestState::Running;
        },
        ResourceEvent::Progress { received_bytes, .. } => {
            rows[i].received_bytes = received_bytes;
        },
        ResourceEvent::Finished { received_bytes, elapsed_us, .. } => {
            rows[i].received_bytes = received_bytes;
            rows[i].elapsed_us = elapsed_us;
            rows[i].state = RequestState::Finished;
        },
        ResourceEvent::Failed { kind, error, .. } => {
            rows[i].error = Some(error);
            rows[i].failure = Some(kind);
            rows[i].state = RequestState::Failed;
        },
        ResourceEvent::Cancelled { reason, .. } => {
            rows[i].error = Some(reason);
            rows[i].state = RequestState::Cancelled;
        },
    }
    assert(rows@[i as int]@ == target);
    assert(rows_view(rows@) =~= with.update(i as int, target));
    proof {
        lemma_body_total_update(with, i as int, target);
    }
    if preview {
        evict_bodies_over_budget(rows);
        proof {
            eviction_keeps_rows_and_fits_the_budget(with.update(i as int, target));
        }
    }
}


/// Fold one engine resource event into the request log, `now_ms` being the time it was
/// seen (stamped on a new row, and on the first response headers).
pub fn record_resource(log: &mut RequestLog, tab: Option<TabId>, event: ResourceEvent, now_ms: u64)
    ensures
        final(log)@ == folded(old(log)@, event, tab, now_ms),
        final(log).wf(),
{
    proof {
        use_type_invariant(&*log);
    }
    let mut rows: Vec<NetRequest> = Vec::new();
    assert(rows_view(rows@) =~= Seq::<NetRequestView>::empty());
    std::mem::swap(&mut rows, &mut log.requests);
    fold_into(&mut rows, tab, event, now_ms);
    log.requests = rows;
}

} // verus!

verus! {

fn copy_opt_string(o: &Option<String>) -> (res: Option<String>)
    ensures
        crate::tab::opt_string_view(res) == crate::tab::opt_string_view(*o),
{
    match o {
        Some(s) => Some(s.clone()),
        None => None,
    }
}

fn copy_pairs(v: &Vec<(String, String)>) -> (res: Vec<(String, String)>)
    ensures
        headers_view(res@) == headers_view(v@),
{
    let mut res: Vec<(String, String)> = Vec::new();
    let mut i: usize = 0;
    while i < v.len()
        invariant
            i <= v.len(),
            res@.len() == i,
            forall|k: int| 0 <= k < i ==> (#[trigger] res@[k]).0@ == v@[k].0@ && res@[k].1@ == v@[k].1@,
        decreases v.len() - i,
    {
        res.push((v[i].0.clone(), v[i].1.clone()));
        i += 1;
    }
    assert(headers_view(res@) =~= headers_view(v@));
    res
}

fn copy_redirects(v: &Vec<(u16, String)>) -> (res: Vec<(u16, String)>)
    ensures
        redirects_view(res@) == redirects_view(v@),
{
    let mut res: Vec<(u16, String)> = Vec::new();
    let mut i: usize = 0;
    while i < v.len()
        invariant
            i <= v.len(),
            res@.len() == i,
            forall|k: int| 0 <= k < i ==> (#[trigger] res@[k]).0 == v@[k].0 && res@[k].1@ == v@[k].1@,
        decreases v.len() - i,
    {
        res.push((v[i].0, v[i].1.clone()));
        i += 1;
    }
    assert(redirects_view(res@) =~= redirects_view(v@));
    res
}

fn copy_body(o: &Option<Vec<u8>>) -> (res: Option<Vec<u8>>)
    ensures
        crate::tab::opt_bytes_view(res) == crate::tab::opt_bytes_view(*o),
{
    match o {
        Some(b) => {
            let mut c: Vec<u8> = Vec::new();
            let mut i: usize = 0;
            while i < b.len()
                invariant
                    i <= b.len(),
                    c@ == b@.take(i as int),
                decreases b.len() - i,
            {
                c.push(b[i]);
                assert(c@ =~= b@.take(i as int + 1));
                i += 1;
            }
            assert(b@.take(b.len() as int) =~= b@);
            Some(c)
        },
        None => None,
    }
}

fn copy_request(r: &NetRequest) -> (res: NetRequest)
    ensures
        res@ == r@,
{
    NetRequest {
        id: r.id,
        tab: r.tab,
        url: r.url.clone(),
        kind: r.kind.clone(),
        initiator: r.initiator.clone(),
        state: r.state,
        status: r.status,
        content_type: copy_opt_string(&r.content_type),
        content_length: r.content_length,
        received_bytes: r.received_bytes,
        elapsed_us: r.elapsed_us,
        error: copy_opt_string(&r.error),
        failure: r.failure,
        method: copy_opt_string(&r.method),
        request_headers: copy_pairs(&r.request_headers),
        headers: copy_pairs(&r.headers),
        body: copy_body(&r.body),
        body_truncated: r.body_truncated,
        body_evicted: r.body_evicted,
        redirects: copy_redirects(&r.redirects),
        started_ms: r.started_ms,
        dns_us: r.dns_us,
        connect_us: r.connect_us,
        headers_ms: r.headers_ms,
    }
}

/// The rows of one tab (all rows when `tab` is `None`, including those the engine never
/// attributed to a tab), in their order.
pub open spec fn rows_for(rs: Seq<NetRequestView>, tab: Option<TabId>) -> Seq<NetRequestView>
    decreases rs.len(),
{
    if rs.len() == 0 {
        rs
    } else {
        let rest = rows_for(rs.drop_last(), tab);
        if tab is None || rs.last().tab == tab {
            rest.push(rs.last())
        } else {
            rest
        }
    }
}

/// Every request seen, oldest first, narrowed to one tab's when `tab` is given.
pub fn requests(log: &RequestLog, tab: Option<TabId>) -> (res: Vec<NetRequest>)
    ensures
        res@.map_values(|r: NetRequest| r@) == rows_for(log@, tab),
{
    let mut res: Vec<NetRequest> = Vec::new();
    let mut i: usize = 0;
    while i < log.requests.len()
        invariant
            i <= log.requests.len(),
            res@.map_values(|r: NetRequest| r@) == rows_for(log@.take(i as int), tab),
        decreases log.requests.len() - i,
    {
        assert(log@.take(i as int + 1).drop_last() =~= log@.take(i as int));
        let ghost before = res@;
        let keep = match tab {
            None => true,
            Some(t) => match log.requests[i].tab {
                Some(u) => u == t,
                None => false,
            },
        };
        if keep {
            res.push(copy_request(&log.requests[i]));
            assert(res@.map_values(|r: NetRequest| r@) =~= before.map_values(|r: NetRequest| r@).push(
                log@[i as int],
            ));
        }
        i += 1;
    }
    assert(log@.take(log.requests.len() as int) =~= log@);
    res
}

/// Bytes of captured bodies currently held.
pub fn captured_body_bytes(log: &RequestLog) -> (res: usize)
    ensures
        res == body_total(log@),
{
    proof {
        use_type_invariant(log);
    }
    let total = bodies_held(&log.requests);
    total as usize
}

pub fn clear_requests(log: &mut RequestLog)
    ensures
        final(log)@ == Seq::<NetRequestView>::empty(),
        final(log).wf(),
{
    let empty: Vec<NetRequest> = Vec::new();
    assert(rows_view(empty@) =~= Seq::<NetRequestView>::empty());
    log.requests = empty;
    assert(log@ =~= Seq::<NetRequestView>::empty());
}

} // verus!

verus! {

/// `n / d` rounded to the nearest integer, a tie going to the even neighbour: how
/// Rust's fixed-precision float formatting rounds an exact value.
pub open spec fn round_half_even(n: nat, d: nat) -> nat
    recommends
        d > 0,
{
    let q = n / d;
    let r = n % d;
    if 2 * r > d || (2 * r == d && q % 2 == 1) {
        q + 1
    } else {
        q
    }
}

/// How many low bits of `b` an `f64` cannot hold: its significand has 53.
pub open spec fn dropped_bits(b: nat) -> nat
    decreases b,
{
    if b < 0x20_0000_0000_0000 {
        0
    } else {
        1 + dropped_bits(b / 2)
    }
}

/// The value `b as f64` holds: `b` itself below 2^53, else `b` rounded to 53 significant
/// bits, ties to even.
pub open spec fn as_f64(b: nat) -> nat {
    let d = pow2(dropped_bits(b));
    round_half_even(b, d) * d
}

/// A count of tenths, as `{:.1}` writes it.
pub open spec fn tenths_text(t: nat) -> Seq<char> {
    decimal(t / 10) + seq!['.', digit_char(t % 10)]
}

/// A byte count in whatever unit keeps the number short: `{:.1} MB` of the count over
/// 2^20, `{:.1} kB` over 2^10, else the count in bytes.
pub open spec fn bytes_text(b: u64) -> Seq<char> {
    if b >= 1048576 {
        tenths_text(round_half_even(10 * as_f64(b as nat), 1048576)) + " MB"@
    } else if b >= 1024 {
        tenths_text(round_half_even((10 * b) as nat, 1024)) + " kB"@
    } else {
        decimal(b as nat) + " B"@
    }
}

fn round_half_even_u128(n: u128, d: u128) -> (res: u128)
    requires
        d > 0,
        n / d < u128::MAX,
    ensures
        res == round_half_even(n as nat, d as nat),
{
    let q = n / d;
    let r = n % d;
    if r > d - r || (r == d - r && q % 2 == 1) {
        q + 1
    } else {
        q
    }
}

/// The value of `b as f64`, exactly.
fn f64_value(b: u64) -> (res: u128)
    ensures
        res == as_f64(b as nat),
        res <= b + 0x1000,
        res + 0x1000 > b,
        b < 0x20_0000_0000_0000 ==> res == b,
{
    let mut m: u64 = b;
    let mut d: u128 = 1;
    let ghost mut s: nat = 0;
    proof {
        lemma2_to64();
    }
    while m >= 0x20_0000_0000_0000
        invariant
            d == pow2(s),
            1 <= d < 0x1000,
            m == (b as int) / (d as int),
            dropped_bits(b as nat) == s + dropped_bits(m as nat),
            b < 0x20_0000_0000_0000 ==> d == 1,
        decreases m,
    {
        proof {
            lemma_div_is_at_most(b as int, d as int);
            lemma_div_denominator(b as int, d as int, 2);
            lemma_pow2_unfold(s + 1);
            lemma_fundamental_div_mod(b as int, d as int);
            assert(d * 0x20_0000_0000_0000 <= b) by (nonlinear_arith)
                requires
                    m >= 0x20_0000_0000_0000,
                    b == d * m + (b as int) % (d as int),
                    (b as int) % (d as int) >= 0,
                    d >= 1,
            ;
            assert(d < 0x800) by (nonlinear_arith)
                requires
                    d * 0x20_0000_0000_0000 <= b,
                    b <= 0xffff_ffff_ffff_ffff,
            ;
        }
        m = m / 2;
        d = d * 2;
        proof {
            s = s + 1;
        }
    }
    proof {
        lemma_fundamental_div_mod(b as int, d as int);
    }
    let q = round_half_even_u128(b as u128, d);
    proof {
        if b < 0x20_0000_0000_0000 {
            assert(d == 1);
            assert((b as nat) / 1 == b as nat);
            assert((b as nat) % 1 == 0);
            assert(q == b);
            assert(q * d == b) by (nonlinear_arith)
                requires
                    q == b,
                    d == 1,
            ;
        }
    }
    assert(q * d <= b + d) by (nonlinear_arith)
        requires
            q <= (b as int) / (d as int) + 1,
            d > 0,
            b == d * ((b as int) / (d as int)) + (b as int) % (d as int),
            (b as int) % (d as int) >= 0,
    ;
    assert(q * d + d > b) by (nonlinear_arith)
        requires
            q >= (b as int) / (d as int),
            d > 0,
            b == d * ((b as int) / (d as int)) + (b as int) % (d as int),
            (b as int) % (d as int) < d,
    ;
    q * d
}

/// Bytes in whatever unit keeps the number short.
pub fn format_bytes(bytes: u64) -> (res: String)
    ensures
        res@ == bytes_text(bytes),
{
    let mut out = String::new();
    if bytes >= 1048576 {
        let value = f64_value(bytes);
        let tenths = round_half_even_u128(10 * value, 1048576);
        push_tenths(&mut out, tenths);
        out.append(" MB");
    } else if bytes >= 1024 {
        let tenths = round_half_even_u128(10 * (bytes as u128), 1024);
        push_tenths(&mut out, tenths);
        out.append(" kB");
    } else {
        push_decimal(&mut out, bytes);
        out.append(" B");
    }
    out
}

fn push_tenths(out: &mut String, tenths: u128)
    requires
        tenths / 10 <= u64::MAX,
    ensures
        final(out)@ == old(out)@ + tenths_text(tenths as nat),
{
    push_decimal(out, (tenths / 10) as u64);
    push_char(out, '.');
    push_char(out, digit((tenths % 10) as u64));
    assert(out@ =~= old(out)@ + tenths_text(tenths as nat));
}

/// `std::str::from_utf8`, with the text copied out. Claimed: the bytes are accepted
/// exactly when they are well-formed UTF-8, and the text is the characters they encode.
#[verifier::external_body]
fn utf8_text(bytes: &[u8]) -> (res: Option<String>)
    ensures
        match res {
            Some(t) => valid_utf8(bytes@) && t@ == decode_utf8(bytes@),
            None => !valid_utf8(bytes@),
        },
{
    match std::str::from_utf8(bytes) {
        Ok(text) => Some(text.to_string()),
        Err(_) => None,
    }
}

pub open spec fn hex_digit(d: nat) -> char {
    if d < 10 {
        digit_char(d)
    } else if d == 10 {
        'a'
    } else if d == 11 {
        'b'
    } else if d == 12 {
        'c'
    } else if d == 13 {
        'd'
    } else if d == 14 {
        'e'
    } else {
        'f'
    }
}

/// A byte as two lower-case hex digits.
pub open spec fn hex_byte(b: u8) -> Seq<char> {
    seq![hex_digit((b / 16) as nat), hex_digit((b % 16) as nat)]
}

/// Bytes in hex, separated by single spaces.
pub open spec fn hex_bytes(bs: Seq<u8>) -> Seq<char>
    decreases bs.len(),
{
    if bs.len() == 0 {
        Seq::empty()
    } else if bs.len() == 1 {
        hex_byte(bs[0])
    } else {
        hex_bytes(bs.drop_last()) + seq![' '] + hex_byte(bs.last())
    }
}

/// How many leading bytes of an undecodable body are shown.
pub const HEX_HEAD: usize = 64;

pub open spec fn truncation_note() -> Seq<char> {
    "\n\n… truncated: only the start of the body is captured.\n"@
}

pub open spec fn binary_intro() -> Seq<char> {
    "Not valid UTF-8 -- binary, or text cut mid-character by the preview window.\n\n                 "@
}

/// A captured body for display: text as text (with a note when the capture stopped
/// short), anything else described by its size and the hex of its first bytes.
pub open spec fn body_text(bytes: Seq<u8>, truncated: bool) -> Seq<char> {
    if valid_utf8(bytes) {
        decode_utf8(bytes) + (if truncated {
            truncation_note()
        } else {
            Seq::empty()
        })
    } else {
        let shown = if bytes.len() < HEX_HEAD {
            bytes
        } else {
            bytes.take(HEX_HEAD as int)
        };
        binary_intro() + bytes_text(bytes.len() as u64) + " captured"@ + (if truncated {
            ", and the body continues"@
        } else {
            Seq::empty()
        }) + "\n\nFirst bytes:\n"@ + hex_bytes(shown) + "\n"@
    }
}

fn hex_char(d: u8) -> (res: char)
    requires
        d < 16,
    ensures
        res == hex_digit(d as nat),
{
    if d < 10 {
        digit(d as u64)
    } else if d == 10 {
        'a'
    } else if d == 11 {
        'b'
    } else if d == 12 {
        'c'
    } else if d == 13 {
        'd'
    } else if d == 14 {
        'e'
    } else {
        'f'
    }
}

/// Render a captured body for display: text as text, anything else described rather than
/// spilled as mojibake.
pub fn format_body(bytes: &[u8], truncated: bool) -> (res: String)
    ensures
        res@ == body_text(bytes@, truncated),
{
    match utf8_text(bytes) {
        Some(text) => {
            let mut out = text;
            if truncated {
                out.append("\n\n… truncated: only the start of the body is captured.\n");
            }
            assert(out@ =~= body_text(bytes@, truncated));
            out
        },
        // Binary, or text cut mid-codepoint by the preview window. Either way, printing
        // it would be noise; the size and a hex head say more.
        None => {
            let mut out = String::new();
            out.append("Not valid UTF-8 -- binary, or text cut mid-character by the preview window.\n\n                 ");
            let size = format_bytes(bytes.len() as u64);
            out.append(size.as_str());
            out.append(" captured");
            if truncated {
                out.append(", and the body continues");
            }
            out.append("\n\nFirst bytes:\n");
            let shown = if bytes.len() < HEX_HEAD {
                bytes.len()
            } else {
                HEX_HEAD
            };
            let ghost start = out@;
            let mut i: usize = 0;
            assert(bytes@.take(0) =~= Seq::<u8>::empty());
            while i < shown
                invariant
                    shown <= bytes.len(),
                    i <= shown,
                    out@ == start + hex_bytes(bytes@.take(i as int)),
                decreases shown - i,
            {
                let b = bytes[i];
                assert(bytes@.take(i + 1).drop_last() =~= bytes@.take(i as int));
                if i > 0 {
                    push_char(&mut out, ' ');
                }
                push_char(&mut out, hex_char(b / 16));
                push_char(&mut out, hex_char(b % 16));
                assert(out@ =~= start + hex_bytes(bytes@.take(i + 1))) by {
                    if i == 0 {
                        assert(bytes@.take(1) =~= seq![b]);
                    }
                }
                i += 1;
            }
            out.append("\n");
            proof {
                if bytes@.len() < HEX_HEAD {
                    assert(bytes@.take(shown as int) =~= bytes@);
                }
            }
            assert(out@ =~= body_text(bytes@, truncated));
            out
        },
    }
}

/// The power of two that scales `n / d` into the 53-bit significand range of an `f64`:
/// the first `k` from `from` on at which `n * 2^k / d` reaches 2^52 (searching no
/// further than 2^64).
pub open spec fn significand_scale(n: nat, d: nat, from: nat) -> nat
    recommends
        d > 0,
    decreases 64 - from,
{
    if from >= 64 || (n * pow2(from)) / d >= 0x10_0000_0000_0000 {
        from
    } else {
        significand_scale(n, d, from + 1)
    }
}

/// `n / d` as the nearest `f64` holds it (rounded to 53 significant bits, ties to even),
/// written with `places_scale` = 10^p and rounded to `p` decimal places the way `{:.p}`
/// does: the exact value of the `f64`, ties to even. The result counts units of 10^-p.
pub open spec fn fixed_point(n: nat, d: nat, places_scale: nat) -> nat {
    let k = significand_scale(n, d, 0);
    let significand = round_half_even(n * pow2(k), d);
    round_half_even(significand * places_scale, pow2(k))
}

/// A count of hundredths, as `{:.2}` writes it.
pub open spec fn hundredths_text(t: nat) -> Seq<char> {
    decimal(t / 100) + seq!['.', digit_char((t / 10) % 10), digit_char(t % 10)]
}

/// Microseconds in whatever unit keeps the number readable: `{:.2}s` of the count over
/// 10^6 (after the count itself became an `f64`), `{:.1}ms` of the count over 1000,
/// else the count in microseconds.
pub open spec fn duration_text(microseconds: u64) -> Seq<char> {
    if microseconds >= 1_000_000 {
        hundredths_text(fixed_point(as_f64(microseconds as nat), 1_000_000, 100)) + "s"@
    } else if microseconds >= 1_000 {
        tenths_text(fixed_point(microseconds as nat, 1_000, 10)) + "ms"@
    } else {
        decimal(microseconds as nat) + "\u{b5}s"@
    }
}

/// The value `fixed_point(n, d, places_scale)` stands for.
fn fixed_point_value(n: u128, d: u128, places_scale: u128) -> (res: u128)
    requires
        0 < d <= n,
        n <= 0x2_0000_0000_0000_0000,
        1 <= places_scale <= 100,
    ensures
        res == fixed_point(n as nat, d as nat, places_scale as nat),
{
    let mut k: u128 = 0;
    let mut scale: u128 = 1;
    let mut scaled: u128 = n;
    proof {
        lemma2_to64();
        assert(n * pow2(0) == n);
    }
    while scaled / d < 0x10_0000_0000_0000
        invariant
            0 < d <= n <= 0x2_0000_0000_0000_0000,
            k <= 52,
            scale == pow2(k as nat),
            scaled == n * scale,
            scaled <= 0x2_0000_0000_0000_0000 * 0x10_0000_0000_0000,
            significand_scale(n as nat, d as nat, 0) == significand_scale(n as nat, d as nat, k as nat),
        decreases 52 - k,
    {
        proof {
            lemma2_to64();
            lemma2_to64_rest();
            lemma_pow2_unfold((k + 1) as nat);
            if k < 51 {
                lemma_pow2_strictly_increases(k as nat, 51);
            }
            if k == 52 {
                // n >= d, so n * 2^52 / d is at least 2^52.
                assert(scaled >= d * 0x10_0000_0000_0000) by (nonlinear_arith)
                    requires
                        scaled == n * scale,
                        scale == 0x10_0000_0000_0000,
                        n >= d,
                ;
                lemma_div_is_at_least(scaled as int, d as int, 0x10_0000_0000_0000);
                assert(false);
            }
            assert(scaled * 2 <= 0x2_0000_0000_0000_0000 * 0x10_0000_0000_0000) by (nonlinear_arith)
                requires
                    scaled == n * scale,
                    n <= 0x2_0000_0000_0000_0000,
                    scale <= 0x8_0000_0000_0000,
                    scale * 2 == pow2((k + 1) as nat),
                    k < 52,
                    pow2(52) == 0x10_0000_0000_0000,
            ;
        }
        k = k + 1;
        scale = scale * 2;
        scaled = scaled * 2;
        proof {
            assert(scaled == n * scale) by (nonlinear_arith)
                requires
                    scaled == 2 * (n * (scale / 2)),
                    scale % 2 == 0,
            ;
        }
    }
    proof {
        lemma_pow2_pos(k as nat);
        lemma_div_is_at_most(scaled as int, d as int);
    }
    let significand = round_half_even_u128(scaled, d);
    assert(significand <= scaled + 1) by {
        lemma_div_is_at_most(scaled as int, d as int);
    }
    assert(significand * places_scale <= (scaled + 1) * 100) by (nonlinear_arith)
        requires
            significand <= scaled + 1,
            places_scale <= 100,
    ;
    round_half_even_u128(significand * places_scale, scale)
}

proof fn lemma_div_is_at_least(x: int, d: int, q: int)
    requires
        0 < d,
        0 <= q,
        x >= d * q,
    ensures
        x / d >= q,
{
    lemma_fundamental_div_mod(x, d);
    assert(x / d >= q) by (nonlinear_arith)
        requires
            x == d * (x / d) + x % d,
            0 <= x % d < d,
            x >= d * q,
            0 < d,
    ;
}

proof fn lemma_div_is_at_most(x: int, d: int)
    requires
        0 < d,
        0 <= x,
    ensures
        x / d <= x,
{
    lemma_fundamental_div_mod(x, d);
    assert(x / d <= x) by (nonlinear_arith)
        requires
            x == d * (x / d) + x % d,
            0 <= x % d < d,
            0 < d,
            0 <= x,
    ;
}

/// Microseconds in whatever unit keeps the number readable. A table of `4466000µs` is
/// technically right and useless.
pub fn format_duration(microseconds: u64) -> (res: String)
    ensures
        res@ == duration_text(microseconds),
{
    let mut out = String::new();
    if microseconds >= 1_000_000 {
        let value = f64_value(microseconds);
        let hundredths = fixed_point_value(value, 1_000_000, 100);
        push_decimal_wide(&mut out, hundredths / 100);
        push_char(&mut out, '.');
        push_char(&mut out, digit(((hundredths / 10) % 10) as u64));
        push_char(&mut out, digit((hundredths % 10) as u64));
        out.append("s");
    } else if microseconds >= 1_000 {
        let tenths = fixed_point_value(microseconds as u128, 1_000, 10);
        push_decimal_wide(&mut out, tenths / 10);
        push_char(&mut out, '.');
        push_char(&mut out, digit((tenths % 10) as u64));
        out.append("ms");
    } else {
        push_decimal(&mut out, microseconds);
        out.append("\u{b5}s");
    }
    assert(out@ =~= duration_text(microseconds));
    out
}

/// Both panels stay bounded however long the browser runs: the log never holds more than
/// [`CAPACITY`] lines and always ends with the newest, and the request list never holds
/// more than [`REQUEST_CAPACITY`] rows, one of them for the request just reported.
pub proof fn the_panels_stay_bounded(
    lines: Seq<LogLineView>,
    line: LogLineView,
    rs: Seq<NetRequestView>,
    e: ResourceEvent,
    tab: Option<TabId>,
    now_ms: u64,
)
    requires
        lines.len() <= CAPACITY,
        rs.len() <= REQUEST_CAPACITY,
    ensures
        pushed_line(lines, line).len() <= CAPACITY,
        pushed_line(lines, line).last() == line,
        folded(rs, e, tab, now_ms).len() <= REQUEST_CAPACITY,
        row_index(rows_with(rs, e, tab, now_ms), event_request(e)) is Some,
{
    let with = rows_with(rs, e, tab, now_ms);
    let k = row_position(rs, e);
    let updated = with.update(k, apply_event(with[k], e, now_ms));
    eviction_keeps_rows_and_fits_the_budget(updated);
    lemma_row_index(rs, event_request(e));
    lemma_row_index(with, event_request(e));
    if row_index(rs, event_request(e)) is None {
        assert(with.last().id == event_request(e));
    }
}

} // verus!

verus! {

/// The two hex digits written for the `k`-th byte of a hex dump.
pub open spec fn hex_dump_byte(h: Seq<char>, k: int) -> Seq<char> {
    h.subrange(3 * k, 3 * k + 2)
}

/// The character after the `k`-th byte of a hex dump.
pub open spec fn hex_dump_gap(h: Seq<char>, k: int) -> char {
    h[3 * k + 2]
}

#[verifier::spinoff_prover]
#[verifier::rlimit(30)]
proof fn lemma_hex_bytes_layout(bs: Seq<u8>)
    ensures
        hex_bytes(bs).len() == if bs.len() == 0 { 0 } else { 3 * bs.len() - 1 },
        forall|k: int| 0 <= k < bs.len() ==> #[trigger] hex_dump_byte(hex_bytes(bs), k) == hex_byte(bs[k]),
        forall|k: int| 0 <= k < bs.len() - 1 ==> #[trigger] hex_dump_gap(hex_bytes(bs), k) == ' ',
    decreases bs.len(),
{
    if bs.len() == 1 {
        assert(hex_dump_byte(hex_bytes(bs), 0) =~= hex_byte(bs[0]));
    } else if bs.len() > 1 {
        let d = bs.drop_last();
        lemma_hex_bytes_layout(d);
        let h = hex_bytes(bs);
        let hd = hex_bytes(d);
        assert(h == hd + seq![' '] + hex_byte(bs.last()));
        assert forall|k: int| 0 <= k < bs.len() implies #[trigger] hex_dump_byte(h, k) == hex_byte(bs[k]) by {
            if k < bs.len() - 1 {
                assert(d[k] == bs[k]);
                assert(hex_dump_byte(hd, k) == hex_byte(d[k]));
                assert(hex_dump_byte(h, k) =~= hex_dump_byte(hd, k));
            } else {
                assert(hex_dump_byte(h, k) =~= hex_byte(bs.last()));
            }
        }
        assert forall|k: int| 0 <= k < bs.len() - 1 implies #[trigger] hex_dump_gap(h, k) == ' ' by {
            if k < bs.len() - 2 {
                assert(hex_dump_gap(hd, k) == ' ');
                assert(h[3 * k + 2] == hd[3 * k + 2]);
            }
        }
    }
}

/// The text shown for a body that is not valid UTF-8 opens with the notice, gives the
/// body's size followed by "captured", adds that the body continues when it was cut
/// short, and ends with its first bytes (at most [`HEX_HEAD`] of them), each as two
/// lower-case hex digits, separated by single spaces, then a newline.
pub proof fn binary_bodies_are_described(bytes: Seq<u8>, truncated: bool)
    requires
        !valid_utf8(bytes),
    ensures
        ({
            let t = body_text(bytes, truncated);
            let n = if bytes.len() < HEX_HEAD { bytes.len() as int } else { HEX_HEAD as int };
            let hex = hex_bytes(bytes.take(n));
            &&& binary_intro().is_prefix_of(t)
            &&& crate::text::contains_text(t, bytes_text(bytes.len() as u64) + " captured"@)
            &&& crate::text::contains_text(t, ", and the body continues"@) == truncated
            &&& (hex + "\n"@).is_suffix_of(t)
            &&& hex.len() == if n == 0 { 0 } else { 3 * n - 1 }
            &&& forall|k: int| 0 <= k < n ==> #[trigger] hex_dump_byte(hex, k) == hex_byte(bytes[k])
            &&& forall|k: int| 0 <= k < n - 1 ==> #[trigger] hex_dump_gap(hex, k) == ' '
        }),
{
    let t = body_text(bytes, truncated);
    let n = if bytes.len() < HEX_HEAD { bytes.len() as int } else { HEX_HEAD as int };
    let shown = bytes.take(n);
    if bytes.len() < HEX_HEAD {
        assert(shown =~= bytes);
    }
    let intro = binary_intro();
    let size = bytes_text(bytes.len() as u64) + " captured"@;
    let note = if truncated { ", and the body continues"@ } else { Seq::<char>::empty() };
    let hex = hex_bytes(shown);
    let rest = "\n\nFirst bytes:\n"@ + hex + "\n"@;
    assert(t == intro + bytes_text(bytes.len() as u64) + " captured"@ + note + "\n\nFirst bytes:\n"@ + hex + "\n"@);
    assert(t =~= intro + size + note + rest);
    assert(t.subrange(0, intro.len() as int) =~= intro);
    assert(t.subrange(intro.len() as int, (intro.len() + size.len()) as int) =~= size);
    assert(crate::text::occurs_at(t, intro.len() as int, size));
    if truncated {
        let k: int = (intro.len() + size.len()) as int;
        assert(t.subrange(k, k + note.len() as int) =~= note);
        assert(crate::text::occurs_at(t, k, note));
    }
    assert(t.subrange(t.len() - (hex + "\n"@).len(), t.len() as int) =~= hex + "\n"@);
    lemma_hex_bytes_layout(shown);
    assert forall|k: int| 0 <= k < n implies shown[k] == bytes[k] by {}
    if !truncated {
        lemma_no_continuation_note(bytes, shown);
    }
}

/// Whether `s` holds no comma.
pub open spec fn comma_free(s: Seq<char>) -> bool {
    forall|i: int| 0 <= i < s.len() ==> #[trigger] s[i] != ','
}

/// Whether `s` holds no comma from index `i` on, checked one character at a time.
pub open spec fn comma_free_from(s: Seq<char>, i: int) -> bool
    decreases s.len() - i,
{
    if i < 0 || i >= s.len() {
        true
    } else {
        s[i] != ',' && comma_free_from(s, i + 1)
    }
}

proof fn lemma_comma_free_from(s: Seq<char>, i: int)
    requires
        0 <= i,
        comma_free_from(s, i),
    ensures
        forall|j: int| i <= j < s.len() ==> #[trigger] s[j] != ',',
    decreases s.len() - i,
{
    if i < s.len() {
        lemma_comma_free_from(s, i + 1);
    }
}

proof fn lemma_comma_free_concat(a: Seq<char>, b: Seq<char>)
    requires
        comma_free(a),
        comma_free(b),
    ensures
        comma_free(a + b),
{
    assert forall|i: int| 0 <= i < (a + b).len() implies #[trigger] (a + b)[i] != ',' by {
        if i < a.len() {
            assert((a + b)[i] == a[i]);
        } else {
            assert((a + b)[i] == b[i - a.len()]);
        }
    }
}

proof fn lemma_decimal_comma_free(n: nat)
    ensures
        comma_free(decimal(n)),
    decreases n,
{
    if n >= 10 {
        lemma_decimal_comma_free(n / 10);
        let d = decimal(n / 10);
        let x = d.push(digit_char(n % 10));
        assert forall|i: int| 0 <= i < x.len() implies #[trigger] x[i] != ',' by {
            if i < d.len() {
                assert(x[i] == d[i]);
            }
        }
    }
}

proof fn lemma_bytes_text_comma_free(b: u64)
    ensures
        comma_free(bytes_text(b)),
{
    reveal_strlit(" MB");
    reveal_strlit(" kB");
    reveal_strlit(" B");
    reveal_with_fuel(comma_free_from, 4);
    assert(comma_free_from(" MB"@, 0));
    assert(comma_free_from(" kB"@, 0));
    assert(comma_free_from(" B"@, 0));
    lemma_comma_free_from(" MB"@, 0);
    lemma_comma_free_from(" kB"@, 0);
    lemma_comma_free_from(" B"@, 0);
    if b >= 1024 {
        let t = if b >= 1048576 {
            round_half_even(10 * as_f64(b as nat), 1048576)
        } else {
            round_half_even((10 * b) as nat, 1024)
        };
        lemma_decimal_comma_free(t / 10);
        let tail = seq!['.', digit_char(t % 10)];
        assert(comma_free(tail)) by {
            assert forall|i: int| 0 <= i < tail.len() implies #[trigger] tail[i] != ',' by {
                if i == 0 {
                } else {
                }
            }
        }
        lemma_comma_free_concat(decimal(t / 10), tail);
        lemma_comma_free_concat(tenths_text(t), " MB"@);
        lemma_comma_free_concat(tenths_text(t), " kB"@);
    } else {
        lemma_decimal_comma_free(b as nat);
        lemma_comma_free_concat(decimal(b as nat), " B"@);
    }
}

proof fn lemma_hex_comma_free(bs: Seq<u8>)
    ensures
        comma_free(hex_bytes(bs)),
    decreases bs.len(),
{
    if bs.len() == 1 {
        let h = hex_byte(bs[0]);
        assert forall|i: int| 0 <= i < h.len() implies #[trigger] h[i] != ',' by {
            if i == 0 {
            } else {
            }
        }
    } else if bs.len() > 1 {
        lemma_hex_comma_free(bs.drop_last());
        let h = hex_byte(bs.last());
        assert forall|i: int| 0 <= i < h.len() implies #[trigger] h[i] != ',' by {
            if i == 0 {
            } else {
            }
        }
        assert(comma_free(seq![' '])) by {
            assert forall|i: int| 0 <= i < 1 implies #[trigger] seq![' '][i] != ',' by {}
        }
        lemma_comma_free_concat(hex_bytes(bs.drop_last()), seq![' ']);
        lemma_comma_free_concat(hex_bytes(bs.drop_last()) + seq![' '], h);
    }
}

/// Without truncation, the text for a body that is not UTF-8 never says the body continues:
/// its only comma is the notice's, which is followed by " or", not " and".
proof fn lemma_no_continuation_note(bytes: Seq<u8>, shown: Seq<u8>)
    requires
        !valid_utf8(bytes),
        shown == bytes.take(if bytes.len() < HEX_HEAD { bytes.len() as int } else { HEX_HEAD as int }),
    ensures
        !crate::text::contains_text(body_text(bytes, false), ", and the body continues"@),
{
    let t = body_text(bytes, false);
    let intro = binary_intro();
    let phrase = ", and the body continues"@;
    let after = bytes_text(bytes.len() as u64) + " captured"@ + "\n\nFirst bytes:\n"@ + hex_bytes(shown) + "\n"@;
    if bytes.len() < HEX_HEAD {
        assert(shown =~= bytes);
    }
    assert(t =~= intro + after);
    reveal_strlit("Not valid UTF-8 -- binary, or text cut mid-character by the preview window.\n\n                 ");
    reveal_strlit(", and the body continues");
    reveal_strlit(" captured");
    reveal_strlit("\n\nFirst bytes:\n");
    reveal_strlit("\n");
    reveal_with_fuel(comma_free_from, 80);
    assert(intro[25] == ',');
    assert(intro[27] == 'o');
    assert(comma_free_from(intro.take(25), 0));
    assert(comma_free_from(intro, 26));
    lemma_comma_free_from(intro.take(25), 0);
    lemma_comma_free_from(intro, 26);
    assert(comma_free_from(" captured"@, 0));
    assert(comma_free_from("\n\nFirst bytes:\n"@, 0));
    assert(comma_free_from("\n"@, 0));
    lemma_comma_free_from(" captured"@, 0);
    lemma_comma_free_from("\n\nFirst bytes:\n"@, 0);
    lemma_comma_free_from("\n"@, 0);
    lemma_bytes_text_comma_free(bytes.len() as u64);
    lemma_hex_comma_free(shown);
    lemma_comma_free_concat(bytes_text(bytes.len() as u64), " captured"@);
    lemma_comma_free_concat(bytes_text(bytes.len() as u64) + " captured"@, "\n\nFirst bytes:\n"@);
    lemma_comma_free_concat(bytes_text(bytes.len() as u64) + " captured"@ + "\n\nFirst bytes:\n"@, hex_bytes(shown));
    lemma_comma_free_concat(
        bytes_text(bytes.len() as u64) + " captured"@ + "\n\nFirst bytes:\n"@ + hex_bytes(shown),
        "\n"@,
    );
    if crate::text::contains_text(t, phrase) {
        let p = choose|p: int| crate::text::occurs_at(t, p, phrase);
        assert(t.subrange(p, p + phrase.len()) == phrase);
        assert(t[p] == phrase[0]);
        assert(t[p + 2] == phrase[2]);
        if p < intro.len() {
            assert(t[p] == intro[p]);
            if p < 25 {
                assert(intro.take(25)[p] == intro[p]);
            }
            assert(p == 25);
            assert(t[p + 2] == intro[27]);
        } else {
            assert(t[p] == after[p - intro.len()]);
        }
    }
}

} // verus!

verus! {

proof fn lemma_row_index_first(s: Seq<NetRequestView>, id: u128)
    ensures
        row_index(s, id) matches Some(k) ==> forall|j: int| 0 <= j < k ==> s[j].id != id,
    decreases s.len(),
{
    if s.len() > 0 {
        let d = s.drop_last();
        lemma_row_index_first(d, id);
        lemma_row_index(d, id);
        if row_index(s, id) is Some {
            let k = row_index(s, id)->0;
            assert forall|j: int| 0 <= j < k implies s[j].id != id by {
                assert(d[j] == s[j]);
            }
        }
    }
}

proof fn lemma_row_index_exact(s: Seq<NetRequestView>, id: u128, k: int)
    requires
        0 <= k < s.len(),
        s[k].id == id,
        forall|j: int| 0 <= j < k ==> s[j].id != id,
    ensures
        row_index(s, id) == Some(k),
    decreases s.len(),
{
    let d = s.drop_last();
    if k < s.len() - 1 {
        lemma_row_index_exact(d, id, k);
    } else {
        lemma_row_index(d, id);
        if row_index(d, id) is Some {
            let m = row_index(d, id)->0;
            assert(d[m] == s[m]);
        }
    }
}

/// The row a folded event leaves for its request: found first by id, and the event
/// applied to what the row held before (a fresh row for a request not seen yet).
proof fn lemma_folded_row(rs: Seq<NetRequestView>, e: ResourceEvent, tab: Option<TabId>, now_ms: u64)
    requires
        !(e is BodyPreview),
    ensures
        ({
            let id = event_request(e);
            let f = folded(rs, e, tab, now_ms);
            let prev = match row_index(rs, id) {
                Some(j) => rs[j],
                None => fresh_row(id, event_url(e), tab, now_ms),
            };
            row_index(f, id) matches Some(k) && f[k] == apply_event(prev, e, now_ms) && f[k].id == id
        }),
{
    let id = event_request(e);
    let with = rows_with(rs, e, tab, now_ms);
    let k = row_position(rs, e);
    let f = folded(rs, e, tab, now_ms);
    lemma_row_index(rs, id);
    lemma_row_index_first(rs, id);
    match row_index(rs, id) {
        Some(j) => {
            assert(with == rs);
            assert(k == j);
        },
        None => {
            let base = if rs.len() >= REQUEST_CAPACITY { rs.skip((REQUEST_CAPACITY / 4) as int) } else { rs };
            assert(with == base.push(fresh_row(id, event_url(e), tab, now_ms)));
            assert forall|i: int| 0 <= i < base.len() implies #[trigger] base[i].id != id by {
                if rs.len() >= REQUEST_CAPACITY {
                    assert(base[i] == rs[i + REQUEST_CAPACITY / 4]);
                }
            }
            assert(k == base.len());
            assert(with[k] == fresh_row(id, event_url(e), tab, now_ms));
        },
    }
    assert(f == with.update(k, apply_event(with[k], e, now_ms)));
    assert(apply_event(with[k], e, now_ms).id == id);
    assert forall|j: int| 0 <= j < k implies f[j].id != id by {
        assert(f[j] == with[j]);
    }
    lemma_row_index_exact(f, id, k);
}

/// A redirect moves the request's row to the new address: after folding in
/// `Redirected { to, status }`, the row for that request shows `to` as its address, and
/// its redirect chain is what it held before followed by `(status, to)`.
pub proof fn a_redirect_moves_the_row_to_its_target(
    rs: Seq<NetRequestView>,
    request_id: u128,
    to: String,
    status: u16,
    tab: Option<TabId>,
    now_ms: u64,
)
    ensures
        ({
            let e = ResourceEvent::Redirected { request_id, to, status };
            let f = folded(rs, e, tab, now_ms);
            &&& row_index(f, request_id) matches Some(k) && {
                &&& f[k].id == request_id
                &&& f[k].url == to@
                &&& f[k].redirects.len() > 0
                &&& f[k].redirects.last() == (status, to@)
                &&& f[k].redirects.drop_last() == match row_index(rs, request_id) {
                    Some(j) => rs[j].redirects,
                    None => Seq::<(u16, Seq<char>)>::empty(),
                }
            }
        }),
{
    let e = ResourceEvent::Redirected { request_id, to, status };
    lemma_folded_row(rs, e, tab, now_ms);
    let f = folded(rs, e, tab, now_ms);
    let k = row_index(f, request_id)->0;
    assert(f[k].redirects.drop_last() =~= match row_index(rs, request_id) {
        Some(j) => rs[j].redirects,
        None => Seq::<(u16, Seq<char>)>::empty(),
    });
}

/// What each event says about its request lands on that request's row: a started
/// request is running at its address, a queued one queued; a finished one is finished
/// with its byte count and time; a failed one failed with its error and kind; a cancelled
/// one cancelled with its reason; response headers set the status and mark it running;
/// progress sets the bytes received; DNS and connect times are recorded.
pub proof fn each_event_lands_on_its_row(rs: Seq<NetRequestView>, e: ResourceEvent, tab: Option<TabId>, now_ms: u64)
    requires
        !(e is BodyPreview),
    ensures
        ({
            let f = folded(rs, e, tab, now_ms);
            row_index(f, event_request(e)) matches Some(k) && f[k].id == event_request(e) && match e {
                ResourceEvent::Queued { .. } => f[k].state == RequestState::Queued,
                ResourceEvent::Started { url, .. } => f[k].state == RequestState::Running && f[k].url == url@,
                ResourceEvent::RequestSent { method, .. } => f[k].method == Some(method@),
                ResourceEvent::DnsResolved { elapsed_us, .. } => f[k].dns_us == Some(elapsed_us),
                ResourceEvent::Connected { elapsed_us, .. } => f[k].connect_us == Some(elapsed_us),
                ResourceEvent::Redirected { to, .. } => f[k].url == to@,
                ResourceEvent::Headers { status, content_length, .. } => f[k].status == Some(status)
                    && f[k].content_length == content_length && f[k].state == RequestState::Running
                    && f[k].headers_ms is Some,
                ResourceEvent::Progress { received_bytes, .. } => f[k].received_bytes == received_bytes,
                ResourceEvent::Finished { received_bytes, elapsed_us, .. } => f[k].state == RequestState::Finished
                    && f[k].received_bytes == received_bytes && f[k].elapsed_us == elapsed_us,
                ResourceEvent::Failed { kind, error, .. } => f[k].state == RequestState::Failed
                    && f[k].error == Some(error@) && f[k].failure == Some(kind),
                ResourceEvent::Cancelled { reason, .. } => f[k].state == RequestState::Cancelled
                    && f[k].error == Some(reason@),
                ResourceEvent::BodyPreview { .. } => true,
            }
        }),
{
    lemma_folded_row(rs, e, tab, now_ms);
}

} // verus!

verus! {

proof fn lemma_round_half_even_close(n: nat, d: nat)
    requires
        d > 0,
    ensures
        2 * (n - round_half_even(n, d) * d) <= d,
        2 * (round_half_even(n, d) * d - n) <= d,
{
    let q = n / d;
    let r = n % d;
    let t = round_half_even(n, d);
    vstd::arithmetic::div_mod::lemma_fundamental_div_mod(n as int, d as int);
    vstd::arithmetic::div_mod::lemma_mod_pos_bound(n as int, d as int);
    if 2 * r > d || (2 * r == d && q % 2 == 1) {
        assert(t == q + 1);
        assert(t * d == d * q + d) by (nonlinear_arith)
            requires
                t == q + 1,
        ;
    } else {
        assert(t == q);
        assert(t * d == d * q) by (nonlinear_arith)
            requires
                t == q,
        ;
    }
}

/// Sizes are shown in the unit that keeps the figure short: whole bytes below 1024,
/// kilobytes (of 1024 bytes) with one decimal below 2^20, megabytes above. The kilobyte
/// figure is the size rounded to the nearest tenth, and the megabyte figure the size (as
/// an `f64` holds it) rounded to the nearest tenth.
pub proof fn sizes_use_the_nearest_unit(b: u64)
    ensures
        b < 1024 ==> bytes_text(b) == decimal(b as nat) + " B"@,
        1024 <= b < 1048576 ==> exists|t: nat| #[trigger] tenths_text(t) + " kB"@ == bytes_text(b)
            && 2 * (10 * b - t * 1024) <= 1024 && 2 * (t * 1024 - 10 * b) <= 1024,
        b >= 1048576 ==> exists|t: nat| #[trigger] tenths_text(t) + " MB"@ == bytes_text(b)
            && 2 * (10 * as_f64(b as nat) - t * 1048576) <= 1048576
            && 2 * (t * 1048576 - 10 * as_f64(b as nat)) <= 1048576,
{
    if b >= 1048576 {
        let t = round_half_even(10 * as_f64(b as nat), 1048576);
        lemma_round_half_even_close(10 * as_f64(b as nat), 1048576);
        assert(tenths_text(t) + " MB"@ == bytes_text(b));
    } else if b >= 1024 {
        let t = round_half_even((10 * b) as nat, 1024);
        lemma_round_half_even_close((10 * b) as nat, 1024);
        assert(tenths_text(t) + " kB"@ == bytes_text(b));
    }
}

/// Durations are shown in the unit that keeps the figure readable: whole microseconds
/// below 1000, milliseconds with one decimal below a second, seconds with two decimals
/// above.
pub proof fn durations_use_the_nearest_unit(us: u64)
    ensures
        us < 1000 ==> duration_text(us) == decimal(us as nat) + "\u{b5}s"@,
        1000 <= us < 1_000_000 ==> exists|t: nat| #[trigger] tenths_text(t) + "ms"@ == duration_text(us),
        us >= 1_000_000 ==> exists|t: nat| #[trigger] hundredths_text(t) + "s"@ == duration_text(us),
{
    if us >= 1_000_000 {
        let t = fixed_point(as_f64(us as nat), 1_000_000, 100);
        assert(hundredths_text(t) + "s"@ == duration_text(us));
    } else if us >= 1000 {
        let t = fixed_point(us as nat, 1_000, 10);
        assert(tenths_text(t) + "ms"@ == duration_text(us));
    }
}

} // verus!

verus! {

/// The log keeps the newest lines: a recorded line becomes the last one, the lines before
/// it are the newest of those held before (all of them while there was room, and never
/// fewer than three quarters of a full buffer), and the buffer never grows past
/// [`CAPACITY`].
pub proof fn the_log_keeps_the_newest_lines(lines: Seq<LogLineView>, line: LogLineView)
    requires
        lines.len() <= CAPACITY,
    ensures
        ({
            let r = pushed_line(lines, line);
            &&& r.len() <= CAPACITY
            &&& r.len() > 0 && r.last() == line
            &&& r.drop_last().is_suffix_of(lines)
            &&& lines.len() < CAPACITY ==> r.drop_last() == lines
            &&& r.len() >= lines.len() + 1 - CAPACITY / 4
        }),
{
    let r = pushed_line(lines, line);
    if lines.len() >= CAPACITY {
        assert(r.drop_last() =~= lines.skip((CAPACITY / 4) as int));
        assert(r.drop_last() =~= lines.subrange(lines.len() - r.drop_last().len(), lines.len() as int));
    } else {
        assert(r.drop_last() =~= lines);
        assert(r.drop_last() =~= lines.subrange(0, lines.len() as int));
    }
}

} // verus!
