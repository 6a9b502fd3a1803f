//! The reusable storage of a traversal: the seen identifiers and the
//! frontier, which hands out entries first-in-first-out or newest first.

use crate::id::ObjectId;
use std::collections::VecDeque;
use vstd::prelude::*;

verus! {

/// What the commit store knows of one commit: its parents in stored order,
/// and its committer time in seconds.
#[derive(Debug)]
pub struct CommitInfo {
    pub parents: Vec<ObjectId>,
    pub time: i64,
}

/// The order in which pending commits leave the frontier.
#[derive(Clone, Copy, Debug, PartialEq, Eq, Structural)]
pub enum Sorting {
    /// First in, first out: the commits of one generation before the next.
    BreadthFirst,
    /// The pending commit with the greatest committer time first; among equal
    /// times, the one that was queued first.
    ByCommitterDate,
}

impl Default for Sorting {
    fn default() -> (r: Sorting)
        ensures
            r == Sorting::BreadthFirst,
    {
        Sorting::BreadthFirst
    }
}

/// A discovered commit waiting to be emitted. `info` is `None` while the
/// store has not been asked about it, and `Some(answer)` once it has, where
/// an answer of `None` means that the store does not know the commit.
#[derive(Debug)]
pub struct Entry {
    pub id: ObjectId,
    pub info: Option<Option<CommitInfo>>,
}

/// The key by which the date discipline orders an entry; a commit whose time
/// is not known ranks as time zero.
pub open spec fn priority(e: Entry) -> int {
    match e.info {
        Some(Some(info)) => info.time as int,
        _ => 0,
    }
}

/// The identifiers of a run of entries.
pub open spec fn ids(q: Seq<Entry>) -> Seq<ObjectId> {
    q.map_values(|e: Entry| e.id)
}

/// Whether index `i` of the frontier `q` is the one that leaves it next.
pub open spec fn is_pick(q: Seq<Entry>, sorting: Sorting, i: int) -> bool {
    &&& 0 <= i < q.len()
    &&& match sorting {
        Sorting::BreadthFirst => i == 0,
        Sorting::ByCommitterDate => {
            &&& forall|j: int| 0 <= j < q.len() ==> priority(#[trigger] q[j]) <= priority(q[i])
            &&& forall|j: int| 0 <= j < i ==> priority(#[trigger] q[j]) < priority(q[i])
        },
    }
}

/// The storage of one traversal: the identifiers seen so far, in the order
/// they were seen, and the frontier of entries not yet emitted.
///
/// The seen identifiers are a `Vec` searched from the front: membership has
/// to be proved, and vstd gives hashed and ordered sets no lookup contract
/// for a key that is a struct. The frontier is a `VecDeque`: breadth-first
/// sorting takes from its front; date sorting scans it for the newest entry,
/// as std's `BinaryHeap` has no specification in vstd.
pub struct State {
    seen: Vec<ObjectId>,
    next: VecDeque<Entry>,
}

pub ghost struct StateView {
    pub seen: Seq<ObjectId>,
    pub next: Seq<Entry>,
}

impl View for State {
    type V = StateView;

    closed spec fn view(&self) -> StateView {
        StateView { seen: self.seen@, next: self.next@ }
    }
}

impl Default for State {
    fn default() -> (r: State)
        ensures
            r@.seen.len() == 0,
            r@.next.len() == 0,
    {
        State::new()
    }
}

impl State {
    /// A state with nothing seen and nothing pending.
    pub fn new() -> (r: State)
        ensures
            r@.seen.len() == 0,
            r@.next.len() == 0,
    {
        State { seen: Vec::new(), next: VecDeque::new() }
    }

    /// Forgets everything seen and pending, keeping the storage for reuse.
    pub fn reset(&mut self)
        ensures
            final(self)@.seen.len() == 0,
            final(self)@.next.len() == 0,
    {
        self.seen.clear();
        self.next.clear();
    }

    /// Whether `id` has been seen.
    pub fn has_seen(&self, id: &ObjectId) -> (r: bool)
        ensures
            r == self@.seen.contains(*id),
    {
        let mut i: usize = 0;
        while i < self.seen.len()
            invariant
                0 <= i <= self.seen@.len(),
                forall|j: int| 0 <= j < i ==> self.seen@[j] != *id,
            decreases self.seen@.len() - i,
        {
            if self.seen[i].same_as(id) {
                return true;
            }
            i = i + 1;
        }
        false
    }

    /// Records `id` as seen.
    pub fn mark_seen(&mut self, id: ObjectId)
        ensures
            final(self)@.seen == old(self)@.seen.push(id),
            final(self)@.next == old(self)@.next,
    {
        self.seen.push(id);
    }

    /// Whether nothing is pending.
    pub fn is_empty(&self) -> (r: bool)
        ensures
            r == (self@.next.len() == 0),
    {
        self.next.len() == 0
    }

    /// The number of pending entries.
    pub fn len(&self) -> (r: usize)
        ensures
            r == self@.next.len(),
    {
        self.next.len()
    }

    /// Queues an entry at the back of the frontier.
    pub fn push(&mut self, e: Entry)
        ensures
            final(self)@.seen == old(self)@.seen,
            final(self)@.next == old(self)@.next.push(e),
    {
        self.next.push_back(e);
    }

    /// The index of the entry that leaves the frontier next.
    fn pick(&self, sorting: Sorting) -> (r: usize)
        requires
            self@.next.len() > 0,
        ensures
            is_pick(self@.next, sorting, r as int),
    {
        match sorting {
            Sorting::BreadthFirst => 0,
            Sorting::ByCommitterDate => {
                let mut best: usize = 0;
                let mut best_time: i64 = time_of(&self.next[0]);
                let mut i: usize = 1;
                while i < self.next.len()
                    invariant
                        1 <= i <= self.next@.len(),
                        0 <= best < i,
                        best_time as int == priority(self.next@[best as int]),
                        forall|j: int| 0 <= j < i ==> priority(#[trigger] self.next@[j]) <= best_time,
                        forall|j: int| 0 <= j < best ==> priority(#[trigger] self.next@[j]) < best_time,
                    decreases self.next@.len() - i,
                {
                    let t = time_of(&self.next[i]);
                    if t > best_time {
                        best = i;
                        best_time = t;
                    }
                    i = i + 1;
                }
                best
            },
        }
    }

    /// Takes the entry that leaves the frontier next under `sorting`.
    pub fn pop(&mut self, sorting: Sorting) -> (r: Option<Entry>)
        ensures
            final(self)@.seen == old(self)@.seen,
            old(self)@.next.len() == 0 ==> r is None && final(self)@.next == old(self)@.next,
            old(self)@.next.len() > 0 ==> exists|i: int|
                #![trigger old(self)@.next.remove(i)]
                {
                    &&& is_pick(old(self)@.next, sorting, i)
                    &&& r == Some(old(self)@.next[i])
                    &&& final(self)@.next == old(self)@.next.remove(i)
                },
    {
        if self.next.len() == 0 {
            return None;
        }
        let i = self.pick(sorting);
        if i == 0 {
            let ghost q = self.next@;
            let r = self.next.pop_front();
            assert(self.next@ =~= q.remove(0));
            r
        } else {
            self.next.remove(i)
        }
    }
}

/// The key of an entry, as `priority` states it.
fn time_of(e: &Entry) -> (r: i64)
    ensures
        r as int == priority(*e),
{
    match &e.info {
        Some(Some(info)) => info.time,
        _ => 0,
    }
}

} // verus!
