//! In-flight and finished downloads for this session: what the user sees in the
//! downloads list, and the bookkeeping that keeps it in step with the engine.

use vstd::prelude::*;

verus! {

#[derive(Debug, Clone, PartialEq, Eq)]
pub enum DownloadState {
    Running,
    Finished,
    Failed(String),
}

/// One download, as shown in the downloads list.
#[derive(Debug, Clone, PartialEq, Eq)]
pub struct DownloadEntry {
    pub id: u64,
    pub filename: String,
    /// Where the file is being written.
    pub path: String,
    pub received: u64,
    pub total: Option<u64>,
    pub state: DownloadState,
}

/// How far a download has got, as (received, total) with the received count held to the
/// total; `None` while the size is unknown, or zero (no share of nothing).
pub open spec fn progress_of(e: DownloadEntry) -> Option<(u64, u64)> {
    match e.total {
        Some(total) => if total > 0 {
            Some((if e.received > total { total } else { e.received }, total))
        } else {
            None
        },
        None => None,
    }
}

impl DownloadEntry {
    /// How far the download has got, as (received, total) with the received count held to
    /// the total: a frontend divides the two for a fraction between 0 and 1. `None` when
    /// the server never said how big it is, or said zero.
    pub fn progress(&self) -> (res: Option<(u64, u64)>)
        ensures
            res == progress_of(*self),
    {
        match self.total {
            Some(total) => if total > 0 {
                Some((if self.received > total { total } else { self.received }, total))
            } else {
                None
            },
            None => None,
        }
    }
}

/// The first entry in `entries` with this id, if any.
pub open spec fn entry_index(entries: Seq<DownloadEntry>, id: u64) -> Option<int>
    decreases entries.len(),
{
    if entries.len() == 0 {
        None
    } else {
        match entry_index(entries.drop_last(), id) {
            Some(k) => Some(k),
            None => if entries.last().id == id {
                Some(entries.len() - 1)
            } else {
                None
            },
        }
    }
}

pub proof fn lemma_entry_index(entries: Seq<DownloadEntry>, id: u64)
    ensures
        match entry_index(entries, id) {
            Some(k) => 0 <= k < entries.len() && entries[k].id == id && forall|j: int| 0 <= j < k
                ==> entries[j].id != id,
            None => forall|j: int| 0 <= j < entries.len() ==> entries[j].id != id,
        },
    decreases entries.len(),
{
    if entries.len() > 0 {
        lemma_entry_index(entries.drop_last(), id);
        assert forall|j: int| 0 <= j < entries.len() - 1 implies entries.drop_last()[j] == entries[j] by {}
    }
}

fn find_entry(entries: &Vec<DownloadEntry>, id: u64) -> (res: Option<usize>)
    ensures
        match res {
            Some(k) => entry_index(entries@, id) == Some(k as int) && k < entries@.len(),
            None => entry_index(entries@, id) is None,
        },
{
    let mut i: usize = 0;
    while i < entries.len()
        invariant
            i <= entries.len(),
            entry_index(entries@.take(i as int), id) is None,
        decreases entries.len() - i,
    {
        assert(entries@.take(i as int + 1).drop_last() =~= entries@.take(i as int));
        if entries[i].id == id {
            proof { lemma_entry_index_prefix(entries@, id, i as int + 1); }
            return Some(i);
        }
        i += 1;
    }
    assert(entries@.take(entries.len() as int) =~= entries@);
    None
}

proof fn lemma_entry_index_prefix(s: Seq<DownloadEntry>, id: u64, n: int)
    requires
        0 <= n <= s.len(),
        entry_index(s.take(n), id) is Some,
    ensures
        entry_index(s, id) == entry_index(s.take(n), id),
    decreases s.len() - n,
{
    if n < s.len() {
        assert(s.take(n + 1).drop_last() =~= s.take(n));
        lemma_entry_index_prefix(s, id, n + 1);
    } else {
        assert(s.take(n) =~= s);
    }
}

/// This session's downloads, oldest first, plus the id source.
#[derive(Debug)]
pub struct Downloads {
    entries: Vec<DownloadEntry>,
    next_id: u64,
}

impl Downloads {
    /// Ids start at 1 so 0 never reads as a real download, and only ever count up.
    #[verifier::type_invariant]
    spec fn ids_start_at_one(self) -> bool {
        self.next_id >= 1
    }

    /// The downloads, oldest first.
    pub closed spec fn list(&self) -> Seq<DownloadEntry> {
        self.entries@
    }

    /// The id the next call of [`Self::next_id`] hands out.
    pub closed spec fn upcoming_id(&self) -> u64 {
        self.next_id
    }

    pub fn new() -> (res: Self)
        ensures
            res.list() == Seq::<DownloadEntry>::empty(),
            res.upcoming_id() == 1,
    {
        // Ids start at 1 so 0 never reads as a real download.
        Downloads { entries: Vec::new(), next_id: 1 }
    }

    pub fn entries(&self) -> (res: &[DownloadEntry])
        ensures
            res@ == self.list(),
    {
        self.entries.as_slice()
    }

    pub fn is_empty(&self) -> (res: bool)
        ensures
            res == (self.list().len() == 0),
    {
        self.entries.len() == 0
    }

    /// Claim the next download id, before the engine has been asked to start it: never
    /// 0, and never one handed out before.
    pub fn next_id(&mut self) -> (res: u64)
        requires
            old(self).upcoming_id() < u64::MAX,
        ensures
            res == old(self).upcoming_id(),
            res >= 1,
            final(self).upcoming_id() == res + 1,
            final(self).list() == old(self).list(),
    {
        proof {
            use_type_invariant(&*self);
        }
        let id = self.next_id;
        self.next_id += 1;
        id
    }

    /// Record a download that has just been started: running, nothing received yet, size
    /// unknown.
    pub fn start(&mut self, id: u64, filename: String, path: String)
        ensures
            final(self).upcoming_id() == old(self).upcoming_id(),
            final(self).list() == old(self).list().push(DownloadEntry {
                id,
                filename,
                path,
                received: 0,
                total: None,
                state: DownloadState::Running,
            }),
    {
        proof {
            use_type_invariant(&*self);
        }
        let mut entries: Vec<DownloadEntry> = Vec::new();
        std::mem::swap(&mut entries, &mut self.entries);
        entries.push(DownloadEntry {
            id,
            filename,
            path,
            received: 0,
            total: None,
            state: DownloadState::Running,
        });
        self.entries = entries;
    }

    /// Apply an update to the entry with this id, which `apply` receives and hands back.
    /// Returns whether the entry existed: progress for an unknown id means the engine
    /// outlived our record of it, which is ignored.
    pub fn update<F: FnOnce(DownloadEntry) -> DownloadEntry>(&mut self, id: u64, apply: F) -> (res: bool)
        requires
            forall|e: DownloadEntry| call_requires(apply, (e,)),
        ensures
            final(self).upcoming_id() == old(self).upcoming_id(),
            res == entry_index(old(self).list(), id) is Some,
            match entry_index(old(self).list(), id) {
                Some(k) => final(self).list().len() == old(self).list().len() && call_ensures(
                    apply,
                    (old(self).list()[k],),
                    final(self).list()[k],
                ) && forall|j: int| 0 <= j < old(self).list().len() && j != k ==> final(self).list()[j]
                    == old(self).list()[j],
                None => final(self).list() == old(self).list(),
            },
    {
        match find_entry(&self.entries, id) {
            Some(i) => {
                proof {
                    use_type_invariant(&*self);
                }
                let mut entries: Vec<DownloadEntry> = Vec::new();
                std::mem::swap(&mut entries, &mut self.entries);
                let entry = entries.remove(i);
                let updated = apply(entry);
                entries.insert(i, updated);
                self.entries = entries;
                true
            },
            None => false,
        }
    }

    pub fn get(&self, id: u64) -> (res: Option<&DownloadEntry>)
        ensures
            match entry_index(self.list(), id) {
                Some(k) => res == Some(&self.list()[k]),
                None => res is None,
            },
    {
        match find_entry(&self.entries, id) {
            Some(i) => Some(&self.entries[i]),
            None => None,
        }
    }
}

/// An exact copy of one entry.
fn copy_entry(e: &DownloadEntry) -> (res: DownloadEntry)
    ensures
        res == *e,
{
    let state = match &e.state {
        DownloadState::Running => DownloadState::Running,
        DownloadState::Finished => DownloadState::Finished,
        DownloadState::Failed(error) => DownloadState::Failed(error.clone()),
    };
    DownloadEntry {
        id: e.id,
        filename: e.filename.clone(),
        path: e.path.clone(),
        received: e.received,
        total: e.total,
        state,
    }
}

impl Clone for Downloads {
    /// A copy of the list and of the id source: the copy holds the same entries and hands
    /// out the same ids next.
    fn clone(&self) -> (res: Self)
        ensures
            res.upcoming_id() == self.upcoming_id(),
            res.list() == self.list(),
    {
        proof {
            use_type_invariant(self);
        }
        let mut entries: Vec<DownloadEntry> = Vec::new();
        let mut i: usize = 0;
        while i < self.entries.len()
            invariant
                i <= self.entries.len(),
                entries@ == self.entries@.take(i as int),
            decreases self.entries.len() - i,
        {
            entries.push(copy_entry(&self.entries[i]));
            assert(entries@ =~= self.entries@.take(i as int + 1));
            i += 1;
        }
        assert(self.entries@.take(self.entries.len() as int) =~= self.entries@);
        Downloads { entries, next_id: self.next_id }
    }
}

} // verus!
