//! The pull-based walk over the ancestors of a set of tips.
//!
//! Each pull takes one entry off the frontier, asks the store about it (or,
//! under date sorting, uses the answer kept when its time was read at
//! discovery), and returns it, or an error if the store does not know it.
//! The parents that the parent mode selects are then discovered: a parent
//! not seen before is marked seen, handed to the predicate once, and queued
//! only if the predicate accepts it. The contracts keep ghost logs of what
//! was emitted, what the predicate and the store were asked, and the
//! discovery depth of each entry; the laws at the end of this file are
//! stated over them.

use crate::id::ObjectId;
use crate::model::{
    admitted, bfs_ordered, fresh, kept, lemma_admitted_grow, lemma_admitted_shrink, lemma_bfs_pop,
    lemma_bfs_push, lemma_concat_contains, lemma_fresh_covers, lemma_fresh_push, lemma_kept_push,
    lemma_push_contains, lemma_remove_contains, lemma_remove_keeps, pruned,
};
use crate::state::{ids, is_pick, CommitInfo, Entry, Sorting, State};
use vstd::prelude::*;

verus! {

/// Which parents of an emitted commit the traversal follows.
#[derive(Clone, Copy, Debug, PartialEq, Eq, Structural)]
pub enum Parents {
    /// Every parent, in stored order.
    All,
    /// The first parent only.
    First,
}

impl Default for Parents {
    fn default() -> (r: Parents)
        ensures
            r == Parents::All,
    {
        Parents::All
    }
}

/// Why a traversal stopped early.
#[derive(Clone, Copy, Debug, PartialEq, Eq)]
pub enum Error {
    /// The store does not know the commit `oid`, so its parents are unknown.
    NotFound { oid: ObjectId },
}

/// The parents that `mode` follows, out of the stored list `ps`.
pub open spec fn selected(ps: Seq<ObjectId>, mode: Parents) -> Seq<ObjectId> {
    match mode {
        Parents::All => ps,
        Parents::First => if ps.len() == 0 {
            ps
        } else {
            seq![ps[0]]
        },
    }
}

/// The parents of `parents` that `mode` follows.
pub fn select_parents(parents: Vec<ObjectId>, mode: Parents) -> (r: Vec<ObjectId>)
    ensures
        r@ == selected(parents@, mode),
{
    match mode {
        Parents::All => parents,
        Parents::First => {
            if parents.len() == 0 {
                parents
            } else {
                let r = vec![parents[0]];
                assert(r@ =~= seq![parents@[0]]);
                r
            }
        },
    }
}

proof fn lemma_queued_reaches<Find, Predicate>(a: Ancestors<Find, Predicate>, pending: bool, i: int)
    where
        Find: Fn(&ObjectId) -> Option<CommitInfo>,
        Predicate: Fn(&ObjectId) -> bool,
    requires
        a.inv(pending),
        0 <= i < a@.next.len(),
    ensures
        exists|m: nat| reaches(a.find, a.predicate, a@.tips, a@.parents, a@.next[i].id, m),
{
}

proof fn lemma_emitted_reaches<Find, Predicate>(a: Ancestors<Find, Predicate>, pending: bool, x: ObjectId)
    where
        Find: Fn(&ObjectId) -> Option<CommitInfo>,
        Predicate: Fn(&ObjectId) -> bool,
    requires
        a.inv(pending),
        a@.emitted.contains(x),
    ensures
        exists|m: nat| reaches(a.find, a.predicate, a@.tips, a@.parents, x, m),
{
}

proof fn lemma_reach_frame<Find, Predicate>(a: Ancestors<Find, Predicate>, b: Ancestors<Find, Predicate>, pending: bool)
    where
        Find: Fn(&ObjectId) -> Option<CommitInfo>,
        Predicate: Fn(&ObjectId) -> bool,
    requires
        a.inv(pending),
        b.find == a.find,
        b.predicate == a.predicate,
        b@.tips == a@.tips,
        b@.parents == a@.parents,
        b@.next == a@.next,
        b@.emitted == a@.emitted,
    ensures
        forall|i: int|
            #![trigger b@.next[i]]
            0 <= i < b@.next.len() ==> exists|n: nat| reaches(b.find, b.predicate, b@.tips, b@.parents, b@.next[i].id, n),
        forall|x: ObjectId|
            #![trigger b@.emitted.contains(x)]
            b@.emitted.contains(x) ==> exists|n: nat| reaches(b.find, b.predicate, b@.tips, b@.parents, x, n),
{
    assert forall|i: int|
        #![trigger b@.next[i]]
        0 <= i < b@.next.len() implies exists|n: nat| reaches(b.find, b.predicate, b@.tips, b@.parents, b@.next[i].id, n) by {
        lemma_queued_reaches(a, pending, i);
        let m = choose|m: nat| reaches(a.find, a.predicate, a@.tips, a@.parents, a@.next[i].id, m);
        assert(reaches(b.find, b.predicate, b@.tips, b@.parents, b@.next[i].id, m));
    }
    assert forall|x: ObjectId|
        #![trigger b@.emitted.contains(x)]
        b@.emitted.contains(x) implies exists|n: nat| reaches(b.find, b.predicate, b@.tips, b@.parents, x, n) by {
        lemma_emitted_reaches(a, pending, x);
        let m = choose|m: nat| reaches(a.find, a.predicate, a@.tips, a@.parents, x, m);
        assert(reaches(b.find, b.predicate, b@.tips, b@.parents, x, m));
    }
}

/// The step of a traversal that emits or fails on entry `i` of the frontier
/// `o.next`, taking the traversal from `o` to `n` and returning `r`.
///
/// `ans` is what the store answers for the entry: the answer kept in it
/// when there is one (`answer_of`), else that of a call made now, the only
/// call the step makes to the store under breadth-first sorting. A commit
/// that the store does not know ends the traversal with an error.
/// Otherwise the commit is returned, and each parent that `o.parents`
/// follows and that was not seen before is seen, handed to the predicate
/// once, and queued if it was accepted, with a discovery depth one more
/// than that of the returned commit. Under date sorting the store is asked
/// about each queued parent then, for its time, and the answer is kept.
pub open spec fn stepped<Predicate: Fn(&ObjectId) -> bool>(
    pred: Predicate,
    o: AncestorsView,
    n: AncestorsView,
    i: int,
    ans: Option<CommitInfo>,
    r: Option<Result<ObjectId, Error>>,
) -> bool {
    let e = o.next[i];
    let rest = o.next.remove(i);
    let asked = if e.info is None {
        o.looked_up.push(e.id)
    } else {
        o.looked_up
    };
    &&& n.sorting == o.sorting
    &&& n.parents == o.parents
    &&& n.tips == o.tips
    &&& match ans {
        None => {
            &&& r == Some(Err::<ObjectId, Error>(Error::NotFound { oid: e.id }))
            &&& n.done
            &&& n.next == rest
            &&& n.seen == o.seen
            &&& n.emitted == o.emitted
            &&& n.judged == o.judged
            &&& n.accepted == o.accepted
            &&& n.looked_up == asked
            &&& n.depths == o.depths.remove(i)
            &&& n.emitted_depths == o.emitted_depths
            &&& n.expanded == o.expanded
            &&& n.failed
        },
        Some(info) => {
            let f = fresh(o.seen, selected(info.parents@, o.parents));
            let d = n.accepted.subrange(o.judged.len() as int, n.accepted.len() as int);
            &&& r == Some(Ok::<ObjectId, Error>(e.id))
            &&& !n.done
            &&& n.emitted == o.emitted.push(e.id)
            &&& n.seen == o.seen + f
            &&& n.judged == o.judged + f
            &&& n.accepted.len() == n.judged.len()
            &&& n.accepted.subrange(0, o.judged.len() as int) == o.accepted
            &&& forall|k: int| 0 <= k < f.len() ==> pred.ensures((&f[k],), #[trigger] d[k])
            &&& rest.len() <= n.next.len()
            &&& n.next.subrange(0, rest.len() as int) == rest
            &&& ids(n.next.subrange(rest.len() as int, n.next.len() as int)) == kept(f, d)
            &&& n.looked_up == asked + asked_on_discovery(o.sorting, kept(f, d))
            &&& n.emitted_depths == o.emitted_depths.push(o.depths[i])
            &&& n.expanded == o.expanded.push(info)
            &&& n.failed == o.failed
            &&& n.depths == o.depths.remove(i) + Seq::new(kept(f, d).len(), |j: int| o.depths[i] + 1)
        },
    }
}

/// The commits among the queued `xs` that the store is asked about when
/// they are discovered: all of them under date sorting, which orders them by
/// the time the store gives, and none under breadth-first sorting.
pub open spec fn asked_on_discovery(sorting: Sorting, xs: Seq<ObjectId>) -> Seq<ObjectId> {
    if sorting == Sorting::ByCommitterDate {
        xs
    } else {
        Seq::empty()
    }
}

/// Whether `ans` is the store's answer for entry `e`: the answer kept in it,
/// or, where none is kept, one that `find` may give.
pub open spec fn answer_of<Find: Fn(&ObjectId) -> Option<CommitInfo>>(
    find: Find,
    e: Entry,
    ans: Option<CommitInfo>,
) -> bool {
    match e.info {
        Some(a) => a == ans,
        None => find.ensures((&e.id,), ans),
    }
}

/// Whether the answer kept in entry `e`, if any, is one that `find` may give.
pub open spec fn answered<Find: Fn(&ObjectId) -> Option<CommitInfo>>(find: Find, e: Entry) -> bool {
    match e.info {
        Some(a) => find.ensures((&e.id,), a),
        None => true,
    }
}

/// Whether `x` is reached from `tips` in at most `n` steps, where a step goes
/// from a reached commit, through what `find` may answer for it, to a parent
/// that `mode` selects and that `pred` may accept.
pub open spec fn reaches<Find, Predicate>(
    find: Find,
    pred: Predicate,
    tips: Seq<ObjectId>,
    mode: Parents,
    x: ObjectId,
    n: nat,
) -> bool where Find: Fn(&ObjectId) -> Option<CommitInfo>, Predicate: Fn(&ObjectId) -> bool
    decreases n,
{
    if n == 0 {
        tips.contains(x)
    } else {
        reaches(find, pred, tips, mode, x, (n - 1) as nat) || exists|y: ObjectId, info: CommitInfo|
            #![trigger find.ensures((&y,), Some(info)), selected(info.parents@, mode).contains(x)]
            {
                &&& reaches(find, pred, tips, mode, y, (n - 1) as nat)
                &&& find.ensures((&y,), Some(info))
                &&& selected(info.parents@, mode).contains(x)
                &&& pred.ensures((&x,), true)
            }
    }
}

/// The lazy walk over the ancestors of a set of tips.
///
/// `Find` answers for a commit what the store knows of it; `Predicate`
/// decides whether a discovered commit, not a tip, is emitted and followed.
pub struct Ancestors<Find, Predicate> {
    state: State,
    find: Find,
    predicate: Predicate,
    sorting: Sorting,
    parents: Parents,
    done: bool,
    tips: Ghost<Seq<ObjectId>>,
    emitted: Ghost<Seq<ObjectId>>,
    judged: Ghost<Seq<ObjectId>>,
    accepted: Ghost<Seq<bool>>,
    looked_up: Ghost<Seq<ObjectId>>,
    depths: Ghost<Seq<nat>>,
    emitted_depths: Ghost<Seq<nat>>,
    expanded: Ghost<Seq<CommitInfo>>,
    failed: Ghost<bool>,
}

/// A traversal as its contracts see it.
///
/// `seen` are the identifiers seen so far and `next` the frontier; `tips`
/// are the distinct tips; `judged` the commits handed to the predicate, in
/// order, with its answers in `accepted`; `looked_up` the commits handed to
/// the store; `emitted` the commits returned so far, with what the store
/// answered for each in `expanded`. `depths` and `emitted_depths` give the
/// discovery depth of each queued and each emitted commit. `failed` says
/// that the walk ended on a commit the store did not know.
pub ghost struct AncestorsView {
    pub seen: Seq<ObjectId>,
    pub next: Seq<Entry>,
    pub sorting: Sorting,
    pub parents: Parents,
    pub done: bool,
    pub tips: Seq<ObjectId>,
    pub emitted: Seq<ObjectId>,
    pub judged: Seq<ObjectId>,
    pub accepted: Seq<bool>,
    pub looked_up: Seq<ObjectId>,
    pub depths: Seq<nat>,
    pub emitted_depths: Seq<nat>,
    pub expanded: Seq<CommitInfo>,
    pub failed: bool,
}

impl<Find, Predicate> View for Ancestors<Find, Predicate> {
    type V = AncestorsView;

    closed spec fn view(&self) -> AncestorsView {
        AncestorsView {
            seen: self.state@.seen,
            next: self.state@.next,
            sorting: self.sorting,
            parents: self.parents,
            done: self.done,
            tips: self.tips@,
            emitted: self.emitted@,
            judged: self.judged@,
            accepted: self.accepted@,
            looked_up: self.looked_up@,
            depths: self.depths@,
            emitted_depths: self.emitted_depths@,
            expanded: self.expanded@,
            failed: self.failed@,
        }
    }
}

impl<Find, Predicate> Ancestors<Find, Predicate> where
    Find: Fn(&ObjectId) -> Option<CommitInfo>,
    Predicate: Fn(&ObjectId) -> bool,
 {
    /// The store lookup this traversal was built with.
    pub closed spec fn find_fn(&self) -> Find {
        self.find
    }

    /// The predicate this traversal was built with.
    pub closed spec fn predicate_fn(&self) -> Predicate {
        self.predicate
    }

    /// The traversal's invariant.
    pub closed spec fn wf(&self) -> bool {
        self.inv(false)
    }

    /// The invariant, where `pending` says that the last emitted commit is
    /// still being expanded.
    closed spec fn inv(&self, pending: bool) -> bool {
        let v = self@;
        &&& forall|id: &ObjectId| self.find.requires((id,))
        &&& forall|id: &ObjectId| self.predicate.requires((id,))
        &&& v.seen == v.tips + v.judged
        &&& v.seen.no_duplicates()
        &&& v.accepted.len() == v.judged.len()
        &&& ids(v.next).no_duplicates()
        &&& v.emitted.no_duplicates()
        &&& v.looked_up.no_duplicates()
        &&& forall|i: int| 0 <= i < v.next.len() ==> v.seen.contains(#[trigger] v.next[i].id)
        &&& forall|i: int| 0 <= i < v.next.len() ==> !v.emitted.contains(#[trigger] v.next[i].id)
        &&& forall|i: int|
            0 <= i < v.next.len() ==> admitted(v.tips, v.judged, v.accepted, #[trigger] v.next[i].id)
        &&& forall|i: int| 0 <= i < v.next.len() ==> answered(self.find, #[trigger] v.next[i])
        &&& forall|i: int|
            0 <= i < v.next.len() ==> ((#[trigger] v.next[i]).info is None <==> !v.looked_up.contains(
                v.next[i].id,
            ))
        &&& forall|i: int|
            0 <= i < v.next.len() ==> ((#[trigger] v.next[i]).info is None <==> v.sorting
                == Sorting::BreadthFirst)
        &&& forall|x: ObjectId| #[trigger] v.emitted.contains(x) ==> v.seen.contains(x)
        &&& forall|x: ObjectId| #[trigger] v.emitted.contains(x) ==> admitted(v.tips, v.judged, v.accepted, x)
        &&& forall|x: ObjectId| #[trigger] v.looked_up.contains(x) ==> v.seen.contains(x)
        &&& forall|x: ObjectId| #[trigger] v.looked_up.contains(x) ==> admitted(v.tips, v.judged, v.accepted, x)
        &&& v.depths.len() == v.next.len()
        &&& v.emitted_depths.len() == v.emitted.len()
        &&& (v.sorting == Sorting::BreadthFirst || (v.emitted.len() == 0 && !v.done)) ==> bfs_ordered(
            v.depths,
            v.emitted_depths,
        )
        &&& v.expanded.len() + (if pending { 1int } else { 0int }) == v.emitted.len()
        &&& forall|j: int|
            0 <= j < v.expanded.len() ==> self.find.ensures((&v.emitted[j],), Some(#[trigger] v.expanded[j]))
        &&& forall|j: int, x: ObjectId|
            0 <= j < v.expanded.len() && #[trigger] selected(v.expanded[j].parents@, v.parents).contains(x)
                ==> v.seen.contains(x)
        &&& forall|k: int| 0 <= k < v.judged.len() ==> self.predicate.ensures((&v.judged[k],), #[trigger] v.accepted[k])
        &&& forall|x: ObjectId|
            #[trigger] v.seen.contains(x) && admitted(v.tips, v.judged, v.accepted, x) ==> v.emitted.contains(x)
                || ids(v.next).contains(x) || v.failed
        &&& forall|i: int|
            #![trigger v.next[i]]
            0 <= i < v.next.len() ==> exists|n: nat| reaches(self.find, self.predicate, v.tips, v.parents, v.next[i].id, n)
        &&& forall|x: ObjectId|
            #![trigger v.emitted.contains(x)]
            v.emitted.contains(x) ==> exists|n: nat| reaches(self.find, self.predicate, v.tips, v.parents, x, n)
        &&& v.failed ==> v.done
        &&& (v.emitted.len() == 0 && !v.done) ==> v.judged.len() == 0
    }

    /// A traversal from `tips` that emits and follows only the discovered
    /// commits that `predicate` accepts. The tips are always emitted; a tip
    /// given twice counts once. `state` is cleared first and then holds this
    /// traversal's storage.
    pub fn filtered(tips: Vec<ObjectId>, state: State, find: Find, predicate: Predicate) -> (r:
        Self)
        requires
            forall|id: &ObjectId| find.requires((id,)),
            forall|id: &ObjectId| predicate.requires((id,)),
        ensures
            r.wf(),
            r.find_fn() == find,
            r.predicate_fn() == predicate,
            r@.tips == fresh(Seq::empty(), tips@),
            r@.seen == r@.tips,
            ids(r@.next) == r@.tips,
            forall|i: int| 0 <= i < r@.next.len() ==> (#[trigger] r@.next[i]).info is None,
            r@.looked_up.len() == 0,
            r@.depths == Seq::new(r@.tips.len(), |j: int| 0nat),
            r@.emitted_depths.len() == 0,
            r@.expanded.len() == 0,
            !r@.failed,
            r@.emitted.len() == 0,
            r@.judged.len() == 0,
            r@.accepted.len() == 0,
            !r@.done,
            r@.sorting == Sorting::BreadthFirst,
            r@.parents == Parents::All,
    {
        let mut state = state;
        state.reset();
        let ghost empty: Seq<ObjectId> = Seq::empty();
        let mut i: usize = 0;
        while i < tips.len()
            invariant
                0 <= i <= tips@.len(),
                empty == Seq::<ObjectId>::empty(),
                forall|id: &ObjectId| find.requires((id,)),
                state@.seen == fresh(empty, tips@.subrange(0, i as int)),
                ids(state@.next) == state@.seen,
                state@.seen.no_duplicates(),
                forall|j: int| 0 <= j < state@.next.len() ==> (#[trigger] state@.next[j]).info is None,
            decreases tips@.len() - i,
        {
            let t = tips[i];
            proof {
                assert(tips@.subrange(0, i + 1) =~= tips@.subrange(0, i as int).push(t));
                lemma_fresh_push(empty, tips@.subrange(0, i as int), t);
                assert(!empty.contains(t));
            }
            if !state.has_seen(&t) {
                state.mark_seen(t);
                state.push(Entry { id: t, info: None });
                assert(ids(state@.next) =~= state@.seen);
            }
            i = i + 1;
        }
        assert(tips@.subrange(0, tips@.len() as int) =~= tips@);
        let ghost seen = state@.seen;
        let r = Ancestors {
            state,
            find,
            predicate,
            sorting: Sorting::BreadthFirst,
            parents: Parents::All,
            done: false,
            tips: Ghost(seen),
            emitted: Ghost(Seq::empty()),
            judged: Ghost(Seq::empty()),
            accepted: Ghost(Seq::empty()),
            looked_up: Ghost(Seq::empty()),
            depths: Ghost(Seq::new(seen.len(), |j: int| 0nat)),
            emitted_depths: Ghost(Seq::empty()),
            expanded: Ghost(Seq::empty()),
            failed: Ghost(false),
        };
        assert(r@.seen =~= r@.tips + r@.judged);
        assert forall|i: int| 0 <= i < r@.next.len() implies r@.seen.contains(#[trigger] r@.next[i].id) by {
            assert(ids(r@.next)[i] == r@.next[i].id);
        }
        assert forall|i: int|
            #![trigger r@.next[i]]
            0 <= i < r@.next.len() implies exists|n: nat|
                reaches(r.find, r.predicate, r@.tips, r@.parents, r@.next[i].id, n) by {
            assert(ids(r@.next)[i] == r@.next[i].id);
            assert(r@.tips[i] == r@.next[i].id);
            assert(reaches(r.find, r.predicate, r@.tips, r@.parents, r@.next[i].id, 0));
        }
        assert forall|x: ObjectId| #[trigger] r@.seen.contains(x) && admitted(r@.tips, r@.judged, r@.accepted, x) implies ids(r@.next).contains(x) by {}
        assert(r.inv(false));
        r
    }

    /// Runs discovery on `cands` in order: each one not seen yet is marked
    /// seen, then handed to the predicate, then queued if accepted.
    fn discover(
        &mut self,
        cands: &Vec<ObjectId>,
        depth: Ghost<nat>,
        src: Ghost<ObjectId>,
        src_info: Ghost<CommitInfo>,
    )
        requires
            old(self).inv(true),
            old(self)@.emitted.len() > 0,
            src@ == old(self)@.emitted.last(),
            old(self).find.ensures((&src@,), Some(src_info@)),
            cands@ == selected(src_info@.parents@, old(self)@.parents),
            old(self)@.sorting == Sorting::BreadthFirst ==> depth@ == old(self)@.emitted_depths.last() + 1,
        ensures
            final(self).wf(),
            final(self).find == old(self).find,
            final(self).predicate == old(self).predicate,
            final(self).sorting == old(self).sorting,
            final(self).parents == old(self).parents,
            final(self).done == old(self).done,
            final(self)@.tips == old(self)@.tips,
            final(self)@.emitted == old(self)@.emitted,
            final(self)@.emitted_depths == old(self)@.emitted_depths,
            final(self)@.expanded == old(self)@.expanded.push(src_info@),
            final(self)@.failed == old(self)@.failed,
            final(self)@.depths == old(self)@.depths + Seq::new(
                (final(self)@.next.len() - old(self)@.next.len()) as nat,
                |j: int| depth@,
            ),
            ({
                let o = old(self)@;
                let n = final(self)@;
                let f = fresh(o.seen, cands@);
                let d = n.accepted.subrange(o.judged.len() as int, n.accepted.len() as int);
                &&& n.seen == o.seen + f
                &&& n.judged == o.judged + f
                &&& n.accepted.subrange(0, o.judged.len() as int) == o.accepted
                &&& forall|k: int| 0 <= k < f.len() ==> old(self).predicate.ensures((&f[k],), #[trigger] d[k])
                &&& o.next.len() <= n.next.len()
                &&& n.next.subrange(0, o.next.len() as int) == o.next
                &&& ids(n.next.subrange(o.next.len() as int, n.next.len() as int)) == kept(f, d)
                &&& n.looked_up == o.looked_up + asked_on_discovery(o.sorting, kept(f, d))
            }),
    {
        let ghost o = self@;
        let mut k: usize = 0;
        while k < cands.len()
            invariant
                0 <= k <= cands@.len(),
                self.inv(true),
                self@.expanded == o.expanded,
                self@.failed == o.failed,
                src@ == o.emitted.last(),
                self.find.ensures((&src@,), Some(src_info@)),
                cands@ == selected(src_info@.parents@, o.parents),
                self.find == old(self).find,
                self.predicate == old(self).predicate,
                self.sorting == old(self).sorting,
                self.parents == old(self).parents,
                self.done == old(self).done,
                o == old(self)@,
                self@.tips == o.tips,
                self@.emitted == o.emitted,
                self@.emitted_depths == o.emitted_depths,
                o.emitted.len() > 0,
                o.sorting == Sorting::BreadthFirst ==> depth@ == o.emitted_depths.last() + 1,
                o.next.len() <= self@.next.len(),
                self@.depths == o.depths + Seq::new((self@.next.len() - o.next.len()) as nat, |j: int| depth@),
                ({
                    let n = self@;
                    let f = fresh(o.seen, cands@.subrange(0, k as int));
                    let d = n.accepted.subrange(o.judged.len() as int, n.accepted.len() as int);
                    &&& n.seen == o.seen + f
                    &&& n.judged == o.judged + f
                    &&& n.accepted.subrange(0, o.judged.len() as int) == o.accepted
                    &&& forall|j: int| 0 <= j < f.len() ==> self.predicate.ensures((&f[j],), #[trigger] d[j])
                    &&& o.next.len() <= n.next.len()
                    &&& n.next.subrange(0, o.next.len() as int) == o.next
                    &&& ids(n.next.subrange(o.next.len() as int, n.next.len() as int)) == kept(f, d)
                    &&& n.looked_up == o.looked_up + asked_on_discovery(o.sorting, kept(f, d))
                }),
            decreases cands@.len() - k,
        {
            let c = cands[k];
            let ghost pre = self@;
            let ghost a0 = *self;
            proof {
                assert(o.emitted.contains(src@)) by {
                    assert(o.emitted[o.emitted.len() - 1] == src@);
                }
                lemma_emitted_reaches(a0, true, src@);
            }
            let ghost f = fresh(o.seen, cands@.subrange(0, k as int));
            let ghost d = pre.accepted.subrange(o.judged.len() as int, pre.accepted.len() as int);
            proof {
                assert(cands@.subrange(0, k + 1) =~= cands@.subrange(0, k as int).push(c));
                lemma_fresh_push(o.seen, cands@.subrange(0, k as int), c);
                lemma_concat_contains(o.seen, f, c);
            }
            if !self.state.has_seen(&c) {
                self.state.mark_seen(c);
                self.judged = Ghost(self.judged@.push(c));
                let ok = (self.predicate)(&c);
                self.accepted = Ghost(self.accepted@.push(ok));
                proof {
                    assert(self@.seen =~= o.seen + f.push(c));
                    assert(self@.judged =~= o.judged + f.push(c));
                    assert(self@.seen =~= self@.tips + self@.judged);
                    let d2 = self@.accepted.subrange(o.judged.len() as int, self@.accepted.len() as int);
                    assert(d2 =~= d.push(ok));
                    assert(self@.accepted.subrange(0, o.judged.len() as int) =~= o.accepted);
                    lemma_kept_push(f, d, c, ok);
                    assert forall|x: ObjectId| admitted(pre.tips, pre.judged, pre.accepted, x) implies
                        #[trigger] admitted(self@.tips, self@.judged, self@.accepted, x) by {
                        lemma_admitted_grow(pre.tips, pre.judged, pre.accepted, c, ok, x);
                    }
                    assert forall|x: ObjectId| pre.seen.contains(x) implies #[trigger] self@.seen.contains(x) by {
                        lemma_push_contains(pre.seen, c, x);
                    }
                    lemma_push_contains(pre.seen, c, c);
                    lemma_concat_contains(pre.tips, pre.judged, c);
                    assert forall|x: ObjectId| #[trigger] self@.seen.contains(x) && admitted(
                        self@.tips,
                        self@.judged,
                        self@.accepted,
                        x,
                    ) && x != c implies pre.seen.contains(x) && admitted(pre.tips, pre.judged, pre.accepted, x) by {
                        lemma_push_contains(pre.seen, c, x);
                        lemma_admitted_shrink(pre.tips, pre.judged, pre.accepted, c, ok, x);
                    }
                    if !ok {
                        assert(!admitted(self@.tips, self@.judged, self@.accepted, c)) by {
                            if admitted(self@.tips, self@.judged, self@.accepted, c) {
                                let m = choose|m: int|
                                    0 <= m < self@.judged.len() && self@.judged[m] == c && self@.accepted[m];
                                if m < pre.judged.len() {
                                    assert(pre.judged[m] == c);
                                }
                            }
                        }
                    }
                    assert(cands@[k as int] == c);
                    assert(o.emitted.contains(src@)) by {
                        assert(o.emitted[o.emitted.len() - 1] == src@);
                    }
                }
                if ok {
                    let by_date = match self.sorting {
                        Sorting::ByCommitterDate => true,
                        Sorting::BreadthFirst => false,
                    };
                    if by_date {
                        let info = (self.find)(&c);
                        self.state.push(Entry { id: c, info: Some(info) });
                        self.looked_up = Ghost(self.looked_up@.push(c));
                    } else {
                        self.state.push(Entry { id: c, info: None });
                    }
                    proof {
                        if o.sorting == Sorting::BreadthFirst {
                            lemma_bfs_push(self.depths@, self.emitted_depths@, depth@);
                        }
                    }
                    self.depths = Ghost(self.depths@.push(depth@));
                    proof {
                        let n = self@;
                        assert(n.depths =~= o.depths + Seq::new((n.next.len() - o.next.len()) as nat, |j: int| depth@));
                        let last = n.judged.len() - 1;
                        assert(n.judged[last] == c && n.accepted[last]);
                        assert(admitted(n.tips, n.judged, n.accepted, c));
                        assert(n.next[n.next.len() - 1].id == c);
                        assert(ids(n.next) =~= ids(pre.next).push(c));
                        assert(!ids(pre.next).contains(c)) by {
                            if ids(pre.next).contains(c) {
                                let j = choose|j: int| 0 <= j < ids(pre.next).len() && ids(pre.next)[j] == c;
                                assert(pre.seen.contains(pre.next[j].id));
                            }
                        }
                        assert(!pre.looked_up.contains(c));
                        assert(n.next.subrange(0, o.next.len() as int) =~= o.next);
                        assert(ids(n.next.subrange(o.next.len() as int, n.next.len() as int)) =~=
                            ids(pre.next.subrange(o.next.len() as int, pre.next.len() as int)).push(c));
                        assert(kept(f.push(c), d.push(true)) == kept(f, d).push(c));
                        if by_date {
                            assert(n.looked_up =~= o.looked_up + kept(f, d).push(c));
                        } else {
                            assert(n.looked_up =~= o.looked_up + asked_on_discovery(o.sorting, kept(f, d).push(c)));
                        }
                        assert forall|x: ObjectId| #[trigger] n.looked_up.contains(x) implies n.seen.contains(x)
                            && admitted(n.tips, n.judged, n.accepted, x) by {
                            lemma_push_contains(pre.looked_up, c, x);
                        }
                        assert forall|x: ObjectId| #[trigger] n.seen.contains(x) && admitted(
                            n.tips,
                            n.judged,
                            n.accepted,
                            x,
                        ) implies n.emitted.contains(x) || ids(n.next).contains(x) || n.failed by {
                            lemma_push_contains(ids(pre.next), c, x);
                        }
                        assert forall|j: int| 0 <= j < n.next.len() implies ((#[trigger] n.next[j]).info is None
                            <==> !n.looked_up.contains(n.next[j].id)) by {
                            lemma_push_contains(pre.looked_up, c, n.next[j].id);
                            if j < pre.next.len() {
                                assert(n.next[j] == pre.next[j]);
                                assert(ids(pre.next)[j] == n.next[j].id);
                            }
                        }
                        let n0 = choose|n0: nat| reaches(self.find, self.predicate, n.tips, n.parents, src@, n0);
                        assert(reaches(self.find, self.predicate, n.tips, n.parents, c, n0 + 1)) by {
                            assert(self.find.ensures((&src@,), Some(src_info@)));
                            assert(selected(src_info@.parents@, n.parents).contains(c));
                            assert(self.predicate.ensures((&c,), true));
                        }
                        assert forall|j: int| 0 <= j < n.next.len() implies exists|m: nat| reaches(
                            self.find,
                            self.predicate,
                            n.tips,
                            n.parents,
                            #[trigger] n.next[j].id,
                            m,
                        ) by {
                            if j < pre.next.len() {
                                assert(n.next[j] == pre.next[j]);
                                lemma_queued_reaches(a0, true, j);
                            } else {
                                assert(reaches(self.find, self.predicate, n.tips, n.parents, n.next[j].id, n0 + 1));
                            }
                        }
                    }
                } else {
                    proof {
                        let n = self@;
                        assert(n.next.subrange(0, o.next.len() as int) =~= o.next);
                        assert forall|x: ObjectId| #[trigger] n.seen.contains(x) && admitted(
                            n.tips,
                            n.judged,
                            n.accepted,
                            x,
                        ) implies n.emitted.contains(x) || ids(n.next).contains(x) || n.failed by {
                            if x != c {
                                assert(pre.seen.contains(x) && admitted(pre.tips, pre.judged, pre.accepted, x));
                            }
                        }
                    }
                }
            }
            k = k + 1;
        }
        assert(cands@.subrange(0, cands@.len() as int) =~= cands@);
        let ghost a1 = *self;
        self.expanded = Ghost(self.expanded@.push(src_info@));
        proof {
            let n = self@;
            lemma_fresh_covers(o.seen, cands@);
            assert forall|j: int, x: ObjectId|
                0 <= j < n.expanded.len() && #[trigger] selected(n.expanded[j].parents@, n.parents).contains(x)
                implies n.seen.contains(x) by {
                lemma_concat_contains(o.seen, fresh(o.seen, cands@), x);
                if j < o.expanded.len() {
                    assert(n.expanded[j] == o.expanded[j]);
                }
            }
            assert(n.emitted[n.expanded.len() - 1] == src@);
            assert forall|i: int|
                #![trigger n.next[i]]
                0 <= i < n.next.len() implies exists|m: nat|
                    reaches(self.find, self.predicate, n.tips, n.parents, n.next[i].id, m) by {
                lemma_queued_reaches(a1, true, i);
                let m = choose|m: nat| reaches(a1.find, a1.predicate, a1@.tips, a1@.parents, a1@.next[i].id, m);
                assert(reaches(self.find, self.predicate, n.tips, n.parents, n.next[i].id, m));
            }
            assert forall|x: ObjectId|
                #![trigger n.emitted.contains(x)]
                n.emitted.contains(x) implies exists|m: nat|
                    reaches(self.find, self.predicate, n.tips, n.parents, x, m) by {
                lemma_emitted_reaches(a1, true, x);
                let m = choose|m: nat| reaches(a1.find, a1.predicate, a1@.tips, a1@.parents, x, m);
                assert(reaches(self.find, self.predicate, n.tips, n.parents, x, m));
            }
        }
    }

    /// Pulls the next commit: `None` once the frontier is empty or after an
    /// error; otherwise the entry that the sorting picks leaves the frontier,
    /// and the step goes as `stepped` states.
    pub fn next(&mut self) -> (r: Option<Result<ObjectId, Error>>)
        requires
            old(self).wf(),
        ensures
            final(self).wf(),
            final(self).find_fn() == old(self).find_fn(),
            final(self).predicate_fn() == old(self).predicate_fn(),
            old(self)@.done || old(self)@.next.len() == 0 ==> {
                &&& r is None
                &&& final(self)@ == (AncestorsView { done: true, ..old(self)@ })
            },
            !old(self)@.done && old(self)@.next.len() > 0 ==> exists|i: int, ans: Option<CommitInfo>|
                #![trigger answer_of(old(self).find_fn(), old(self)@.next[i], ans)]
                {
                    &&& is_pick(old(self)@.next, old(self)@.sorting, i)
                    &&& answer_of(old(self).find_fn(), old(self)@.next[i], ans)
                    &&& stepped(old(self).predicate_fn(), old(self)@, final(self)@, i, ans, r)
                },
            !old(self)@.done && old(self)@.next.len() > 0 && old(self)@.sorting == Sorting::BreadthFirst ==> {
                &&& old(self)@.next[0].info is None
                &&& final(self)@.looked_up == old(self)@.looked_up.push(old(self)@.next[0].id)
            },
    {
        if self.done {
            return None;
        }
        let ghost o = self@;
        let ghost a0 = *self;
        let popped = self.state.pop(self.sorting);
        match popped {
            None => {
                self.done = true;
                assert(self@ == AncestorsView { done: true, ..o });
                proof {
                    lemma_reach_frame(a0, *self, false);
                }
                None
            },
            Some(e) => {
                let ghost i = choose|i: int|
                    #![trigger o.next.remove(i)]
                    {
                        &&& is_pick(o.next, o.sorting, i)
                        &&& Some(e) == Some(o.next[i])
                        &&& self@.next == o.next.remove(i)
                    };
                proof {
                    lemma_remove_keeps(o.next, i);
                    if o.sorting == Sorting::BreadthFirst {
                        lemma_bfs_pop(o.depths, o.emitted_depths);
                    }
                }
                self.depths = Ghost(self.depths@.remove(i));
                let id = e.id;
                let answer = match e.info {
                    Some(a) => a,
                    None => {
                        let a = (self.find)(&id);
                        self.looked_up = Ghost(self.looked_up@.push(id));
                        a
                    },
                };
                proof {
                    let n = self@;
                    assert(ids(o.next)[i] == id);
                    assert(answered(self.find, o.next[i]));
                    assert(o.next[i].info is None ==> !o.looked_up.contains(id));
                    assert forall|j: int| 0 <= j < n.next.len() implies ((#[trigger] n.next[j]).info is None
                        <==> !n.looked_up.contains(n.next[j].id)) by {
                        let jj = if j < i {
                            j
                        } else {
                            j + 1
                        };
                        assert(n.next[j] == o.next[jj]);
                        assert(ids(o.next)[jj] == n.next[j].id);
                        lemma_push_contains(o.looked_up, id, n.next[j].id);
                    }
                    assert forall|x: ObjectId| #[trigger] n.looked_up.contains(x) implies n.seen.contains(x)
                        && admitted(n.tips, n.judged, n.accepted, x) by {
                        lemma_push_contains(o.looked_up, id, x);
                        assert(o.seen.contains(o.next[i].id));
                        assert(admitted(o.tips, o.judged, o.accepted, o.next[i].id));
                    }
                }
                let ghost ans = answer;
                let ghost mid = self@;
                proof {
                    assert(answer_of(a0.find_fn(), o.next[i], ans));
                }
                match answer {
                    None => {
                        self.done = true;
                        self.failed = Ghost(true);
                        proof {
                            let n = self@;
                            assert(n.looked_up == mid.looked_up && n.next == mid.next);
                            assert forall|x: ObjectId| #[trigger] n.looked_up.contains(x) implies n.seen.contains(x)
                                && admitted(n.tips, n.judged, n.accepted, x) by {
                                assert(mid.looked_up.contains(x));
                            }
                            assert forall|j: int| 0 <= j < n.next.len() implies ((#[trigger] n.next[j]).info is None
                                <==> !n.looked_up.contains(n.next[j].id)) by {
                                assert(mid.next[j] == n.next[j]);
                            }
                            assert forall|x: ObjectId|
                                #![trigger n.emitted.contains(x)]
                                n.emitted.contains(x) implies exists|m: nat|
                                    reaches(self.find, self.predicate, n.tips, n.parents, x, m) by {
                                lemma_emitted_reaches(a0, false, x);
                                let m = choose|m: nat| reaches(a0.find, a0.predicate, a0@.tips, a0@.parents, x, m);
                                assert(reaches(self.find, self.predicate, n.tips, n.parents, x, m));
                            }
                            assert forall|j: int| 0 <= j < n.next.len() implies exists|m: nat| reaches(
                                self.find,
                                self.predicate,
                                n.tips,
                                n.parents,
                                #[trigger] n.next[j].id,
                                m,
                            ) by {
                                let jj = if j < i {
                                    j
                                } else {
                                    j + 1
                                };
                                assert(n.next[j] == o.next[jj]);
                                lemma_queued_reaches(a0, false, jj);
                                let m = choose|m: nat| reaches(a0.find, a0.predicate, a0@.tips, a0@.parents, a0@.next[jj].id, m);
                                assert(a0.find == self.find);
                                assert(a0.predicate == self.predicate);
                                assert(a0@.tips == n.tips);
                                assert(a0@.parents == n.parents);
                                assert(a0@.next[jj].id == n.next[j].id);
                                assert(reaches(self.find, self.predicate, n.tips, n.parents, n.next[j].id, m));
                            }
                        }
                        Some(Err(Error::NotFound { oid: id }))
                    },
                    Some(info) => {
                        self.emitted = Ghost(self.emitted@.push(id));
                        self.emitted_depths = Ghost(self.emitted_depths@.push(o.depths[i]));
                        proof {
                            let n = self@;
                            assert(n.seen.contains(id)) by {
                                assert(o.seen.contains(o.next[i].id));
                            }
                            assert(admitted(n.tips, n.judged, n.accepted, id)) by {
                                assert(admitted(o.tips, o.judged, o.accepted, o.next[i].id));
                            }
                            assert(!o.emitted.contains(id)) by {
                                assert(!o.emitted.contains(o.next[i].id));
                            }
                            assert forall|x: ObjectId| #[trigger] n.emitted.contains(x) implies n.seen.contains(
                                x,
                            ) && admitted(n.tips, n.judged, n.accepted, x) by {
                                lemma_push_contains(o.emitted, id, x);
                            }
                            assert forall|j: int| 0 <= j < n.next.len() implies !n.emitted.contains(
                                #[trigger] n.next[j].id,
                            ) by {
                                lemma_push_contains(o.emitted, id, n.next[j].id);
                                let jj = if j < i {
                                    j
                                } else {
                                    j + 1
                                };
                                assert(n.next[j] == o.next[jj]);
                                assert(ids(o.next)[jj] == n.next[j].id);
                                assert(ids(o.next)[i] == id);
                            }
                        }
                        let ghost src_info = info;
                        proof {
                            let n = self@;
                            assert(self.find.ensures((&id,), Some(info)));
                            assert forall|x: ObjectId| #[trigger] n.looked_up.contains(x) implies n.seen.contains(x)
                                && admitted(n.tips, n.judged, n.accepted, x) by {
                                lemma_push_contains(o.looked_up, id, x);
                                assert(o.seen.contains(o.next[i].id));
                                assert(admitted(o.tips, o.judged, o.accepted, o.next[i].id));
                            }
                            assert forall|x: ObjectId| #[trigger] n.seen.contains(x) && admitted(
                                n.tips,
                                n.judged,
                                n.accepted,
                                x,
                            ) implies n.emitted.contains(x) || ids(n.next).contains(x) || n.failed by {
                                lemma_push_contains(o.emitted, id, x);
                                if x != id && ids(o.next).contains(x) {
                                    lemma_remove_contains(o.next, i, x);
                                }
                            }
                            assert forall|j: int| 0 <= j < n.next.len() implies exists|m: nat| reaches(
                                self.find,
                                self.predicate,
                                n.tips,
                                n.parents,
                                #[trigger] n.next[j].id,
                                m,
                            ) by {
                                let jj = if j < i {
                                    j
                                } else {
                                    j + 1
                                };
                                assert(n.next[j] == o.next[jj]);
                                lemma_queued_reaches(a0, false, jj);
                                let m = choose|m: nat| reaches(a0.find, a0.predicate, a0@.tips, a0@.parents, a0@.next[jj].id, m);
                                assert(a0.find == self.find);
                                assert(a0.predicate == self.predicate);
                                assert(a0@.tips == n.tips);
                                assert(a0@.parents == n.parents);
                                assert(a0@.next[jj].id == n.next[j].id);
                                assert(reaches(self.find, self.predicate, n.tips, n.parents, n.next[j].id, m));
                            }
                            assert forall|x: ObjectId| #[trigger] n.emitted.contains(x) implies exists|m: nat| reaches(
                                self.find,
                                self.predicate,
                                n.tips,
                                n.parents,
                                x,
                                m,
                            ) by {
                                lemma_push_contains(o.emitted, id, x);
                                if x == id {
                                    lemma_queued_reaches(a0, false, i);
                                    let m = choose|m: nat| reaches(a0.find, a0.predicate, a0@.tips, a0@.parents, a0@.next[i].id, m);
                                    assert(reaches(self.find, self.predicate, n.tips, n.parents, x, m));
                                } else {
                                    lemma_emitted_reaches(a0, false, x);
                                    let m = choose|m: nat| reaches(a0.find, a0.predicate, a0@.tips, a0@.parents, x, m);
                                    assert(reaches(self.find, self.predicate, n.tips, n.parents, x, m));
                                }
                            }
                            assert forall|j: int| 0 <= j < n.expanded.len() implies self.find.ensures(
                                (&n.emitted[j],),
                                Some(#[trigger] n.expanded[j]),
                            ) by {
                                assert(n.emitted[j] == o.emitted[j]);
                            }
                        }
                        let cands = select_parents(info.parents, self.parents);
                        self.discover(&cands, Ghost((o.depths[i] + 1) as nat), Ghost(id), Ghost(src_info));
                        proof {
                            let n = self@;
                            let rest = o.next.remove(i);
                            assert(rest.len() == o.next.len() - 1);
                            assert(n.accepted.len() == n.judged.len());
                        }
                        Some(Ok(id))
                    },
                }
            },
        }
    }

    /// The same traversal with `sorting` as its order; to be set once, before
    /// the first pull. Date sorting needs the time of each queued tip, so the
    /// store is asked about each of them now, once, and the answer is kept.
    pub fn sorting(self, sorting: Sorting) -> (r: Self)
        requires
            self.wf(),
            self@.emitted.len() == 0,
            !self@.done,
            self@.sorting == Sorting::BreadthFirst,
        ensures
            r.wf(),
            r.find_fn() == self.find_fn(),
            r.predicate_fn() == self.predicate_fn(),
            r@.sorting == sorting,
            ids(r@.next) == ids(self@.next),
            sorting == Sorting::BreadthFirst ==> r@ == self@,
            sorting == Sorting::ByCommitterDate ==> r@ == (AncestorsView {
                sorting,
                next: r@.next,
                looked_up: self@.looked_up + ids(self@.next),
                ..self@
            }),
    {
        let mut r = self;
        match sorting {
            Sorting::BreadthFirst => r,
            Sorting::ByCommitterDate => {
                let ghost q0 = r.state@.next;
                let ghost l0 = r.looked_up@;
                let count = r.state.len();
                let mut k: usize = 0;
                while k < count
                    invariant
                        0 <= k <= count,
                        count == q0.len(),
                        q0 == self@.next,
                        l0 == self@.looked_up,
                        r.find == self.find,
                        r.predicate == self.predicate,
                        forall|id: &ObjectId| r.find.requires((id,)),
                        r@ == (AncestorsView { next: r@.next, looked_up: r@.looked_up, ..self@ }),
                        r@.next.len() == q0.len(),
                        forall|j: int| 0 <= j < q0.len() - k ==> #[trigger] r@.next[j] == q0[j + k],
                        forall|j: int|
                            q0.len() - k <= j < q0.len() ==> (#[trigger] r@.next[j]).id == q0[j - (q0.len() - k)].id
                                && r@.next[j].info is Some && answered(r.find, r@.next[j]),
                        r@.looked_up == l0 + ids(q0).subrange(0, k as int),
                    decreases count - k,
                {
                    let ghost before = r@.next;
                    match r.state.pop(Sorting::BreadthFirst) {
                        Some(e) => {
                            let ans = (r.find)(&e.id);
                            let ghost eid = e.id;
                            r.state.push(Entry { id: e.id, info: Some(ans) });
                            r.looked_up = Ghost(r.looked_up@.push(eid));
                            proof {
                                assert(eid == q0[k as int].id);
                                assert(ids(q0)[k as int] == eid);
                                assert(ids(q0).subrange(0, k + 1) =~= ids(q0).subrange(0, k as int).push(eid));
                                assert(r@.looked_up =~= l0 + ids(q0).subrange(0, k + 1));
                                assert forall|j: int| 0 <= j < q0.len() - (k + 1) implies #[trigger] r@.next[j]
                                    == q0[j + k + 1] by {
                                    assert(r@.next[j] == before[j + 1]);
                                }
                                assert forall|j: int| q0.len() - (k + 1) <= j < q0.len() implies (
                                #[trigger] r@.next[j]).id == q0[j - (q0.len() - (k + 1))].id && r@.next[j].info is Some
                                    && answered(r.find, r@.next[j]) by {
                                    if j < q0.len() - 1 {
                                        assert(r@.next[j] == before[j + 1]);
                                    }
                                }
                            }
                        },
                        None => {},
                    }
                    k = k + 1;
                }
                r.sorting = sorting;
                proof {
                    let n = r@;
                    let v = self@;
                    assert(ids(n.next) =~= ids(v.next)) by {
                        assert forall|j: int| 0 <= j < n.next.len() implies ids(n.next)[j] == ids(v.next)[j] by {
                            assert(n.next[j].id == q0[j].id);
                        }
                    }
                    assert(ids(q0).subrange(0, q0.len() as int) =~= ids(q0));
                    assert forall|j: int| 0 <= j < ids(q0).len() implies !l0.contains(#[trigger] ids(q0)[j]) by {
                        assert(ids(q0)[j] == q0[j].id);
                        assert(q0[j].info is None);
                    }
                    assert forall|a: int, b: int| 0 <= a < b < n.looked_up.len() implies n.looked_up[a]
                        != n.looked_up[b] by {
                        if b >= l0.len() && a < l0.len() {
                            assert(!l0.contains(ids(q0)[b - l0.len()]));
                            assert(l0[a] == n.looked_up[a]);
                        }
                    }
                    assert forall|x: ObjectId| #[trigger] n.looked_up.contains(x) implies n.seen.contains(x)
                        && admitted(n.tips, n.judged, n.accepted, x) by {
                        lemma_concat_contains(l0, ids(q0), x);
                        if ids(q0).contains(x) {
                            let j = choose|j: int| 0 <= j < ids(q0).len() && ids(q0)[j] == x;
                            assert(q0[j].id == x);
                        }
                    }
                    assert forall|j: int| 0 <= j < n.next.len() implies n.seen.contains(#[trigger] n.next[j].id)
                        && !n.emitted.contains(n.next[j].id) && admitted(n.tips, n.judged, n.accepted, n.next[j].id)
                        && n.looked_up.contains(n.next[j].id) by {
                        assert(n.next[j].id == q0[j].id);
                        assert(ids(q0)[j] == q0[j].id);
                        assert(n.looked_up[l0.len() + j] == q0[j].id);
                    }
                    assert forall|j: int|
                        #![trigger n.next[j]]
                        0 <= j < n.next.len() implies exists|m: nat|
                            reaches(r.find, r.predicate, n.tips, n.parents, n.next[j].id, m) by {
                        lemma_queued_reaches(self, false, j);
                        let m = choose|m: nat| reaches(self.find, self.predicate, v.tips, v.parents, v.next[j].id, m);
                        assert(n.next[j].id == q0[j].id);
                        assert(reaches(r.find, r.predicate, n.tips, n.parents, n.next[j].id, m));
                    }
                    assert forall|x: ObjectId| #[trigger] n.seen.contains(x) && admitted(
                        n.tips,
                        n.judged,
                        n.accepted,
                        x,
                    ) implies n.emitted.contains(x) || ids(n.next).contains(x) || n.failed by {}
                }
                r
            },
        }
    }

    /// The same traversal following the parents that `mode` selects; to be
    /// set before the first pull.
    pub fn mode(self, mode: Parents) -> (r: Self)
        requires
            self.wf(),
            self@.emitted.len() == 0,
            !self@.done,
        ensures
            r.wf(),
            r.find_fn() == self.find_fn(),
            r.predicate_fn() == self.predicate_fn(),
            r@ == (AncestorsView { parents: mode, ..self@ }),
    {
        let mut r = self;
        r.parents = mode;
        proof {
            assert forall|i: int|
                #![trigger r@.next[i]]
                0 <= i < r@.next.len() implies exists|n: nat|
                    reaches(r.find, r.predicate, r@.tips, r@.parents, r@.next[i].id, n) by {
                assert(admitted(self@.tips, self@.judged, self@.accepted, self@.next[i].id));
                assert(reaches(r.find, r.predicate, r@.tips, r@.parents, r@.next[i].id, 0));
            }
        }
        r
    }

    /// Ends the traversal and hands back its storage, for reuse after
    /// `State::reset`.
    pub fn into_state(self) -> (r: State)
        ensures
            r@.seen == self@.seen,
            r@.next == self@.next,
    {
        self.state
    }
}

/// The predicate of a traversal that prunes nothing.
pub fn accept_all(id: &ObjectId) -> (r: bool)
    ensures
        r,
{
    true
}

/// A traversal from `tips` that emits every ancestor it reaches.
pub fn ancestors_of<Find>(tips: Vec<ObjectId>, state: State, find: Find) -> (r: Ancestors<
    Find,
    impl Fn(&ObjectId) -> bool,
>) where Find: Fn(&ObjectId) -> Option<CommitInfo>
    requires
        forall|id: &ObjectId| find.requires((id,)),
    ensures
        r.wf(),
        r.find_fn() == find,
        forall|id: &ObjectId, b: bool| r.predicate_fn().ensures((id,), b) ==> b,
        r@.tips == fresh(Seq::empty(), tips@),
        r@.seen == r@.tips,
        ids(r@.next) == r@.tips,
        forall|i: int| 0 <= i < r@.next.len() ==> (#[trigger] r@.next[i]).info is None,
        r@.looked_up.len() == 0,
        r@.depths == Seq::new(r@.tips.len(), |j: int| 0nat),
        r@.emitted_depths.len() == 0,
        r@.expanded.len() == 0,
        !r@.failed,
        r@.emitted.len() == 0,
        r@.judged.len() == 0,
        r@.accepted.len() == 0,
        !r@.done,
        r@.sorting == Sorting::BreadthFirst,
        r@.parents == Parents::All,
{
    Ancestors::filtered(tips, state, find, accept_all)
}

proof fn lemma_split_unique(tips: Seq<ObjectId>, judged: Seq<ObjectId>, x: ObjectId, k: int)
    requires
        (tips + judged).no_duplicates(),
        0 <= k < judged.len(),
        judged[k] == x,
    ensures
        !tips.contains(x),
        forall|m: int| 0 <= m < judged.len() && judged[m] == x ==> m == k,
{
    let s = tips + judged;
    assert(s[tips.len() + k] == x);
    if tips.contains(x) {
        let t = choose|t: int| 0 <= t < tips.len() && tips[t] == x;
        assert(s[t] == x);
    }
    assert forall|m: int| 0 <= m < judged.len() && judged[m] == x implies m == k by {
        assert(s[tips.len() + m] == x);
    }
}

/// Each commit is emitted at most once, and a commit that the predicate
/// turned down is never emitted.
pub proof fn lemma_emitted_once<Find, Predicate>(a: &Ancestors<Find, Predicate>)
    where
        Find: Fn(&ObjectId) -> Option<CommitInfo>,
        Predicate: Fn(&ObjectId) -> bool,
    requires
        a.wf(),
    ensures
        a@.emitted.no_duplicates(),
        forall|x: ObjectId| pruned(a@.judged, a@.accepted, x) ==> !(#[trigger] a@.emitted.contains(x)),
{
    let v = a@;
    assert forall|x: ObjectId| pruned(v.judged, v.accepted, x) implies !(
    #[trigger] v.emitted.contains(x)) by {
        lemma_pruned_not_admitted(a, x);
    }
}

proof fn lemma_pruned_not_admitted<Find, Predicate>(a: &Ancestors<Find, Predicate>, x: ObjectId)
    where
        Find: Fn(&ObjectId) -> Option<CommitInfo>,
        Predicate: Fn(&ObjectId) -> bool,
    requires
        a.wf(),
        pruned(a@.judged, a@.accepted, x),
    ensures
        !admitted(a@.tips, a@.judged, a@.accepted, x),
{
    let v = a@;
    let k = choose|k: int| 0 <= k < v.judged.len() && v.judged[k] == x && !v.accepted[k];
    lemma_split_unique(v.tips, v.judged, x, k);
}

/// The predicate is handed each commit at most once, and never a tip; the
/// store is asked about each commit at most once.
pub proof fn lemma_predicate_once<Find, Predicate>(a: &Ancestors<Find, Predicate>)
    where
        Find: Fn(&ObjectId) -> Option<CommitInfo>,
        Predicate: Fn(&ObjectId) -> bool,
    requires
        a.wf(),
    ensures
        a@.judged.no_duplicates(),
        forall|k: int| 0 <= k < a@.judged.len() ==> !a@.tips.contains(#[trigger] a@.judged[k]),
        a@.looked_up.no_duplicates(),
{
    let v = a@;
    assert forall|k: int| 0 <= k < v.judged.len() implies !v.tips.contains(#[trigger] v.judged[k]) by {
        lemma_split_unique(v.tips, v.judged, v.judged[k], k);
    }
    assert forall|i: int, j: int| 0 <= i < j < v.judged.len() implies v.judged[i] != v.judged[j] by {
        lemma_split_unique(v.tips, v.judged, v.judged[i], i);
    }
}

/// A commit that the predicate turned down is never expanded: it is not
/// queued, not emitted, and the store is never asked about it.
pub proof fn lemma_pruned_stays_out<Find, Predicate>(a: &Ancestors<Find, Predicate>, x: ObjectId)
    where
        Find: Fn(&ObjectId) -> Option<CommitInfo>,
        Predicate: Fn(&ObjectId) -> bool,
    requires
        a.wf(),
        pruned(a@.judged, a@.accepted, x),
    ensures
        !ids(a@.next).contains(x),
        !a@.emitted.contains(x),
        !a@.looked_up.contains(x),
{
    let v = a@;
    lemma_pruned_not_admitted(a, x);
    if ids(v.next).contains(x) {
        let j = choose|j: int| 0 <= j < ids(v.next).len() && ids(v.next)[j] == x;
        assert(v.next[j].id == x);
    }
}

/// Following the first parent only never follows a commit that following
/// all parents would not: the first-parent selection keeps the first parent
/// and drops exactly the parents after it.
pub proof fn lemma_first_within_all(ps: Seq<ObjectId>, x: ObjectId)
    ensures
        selected(ps, Parents::First).contains(x) ==> selected(ps, Parents::All).contains(x),
        selected(ps, Parents::First) == ps.subrange(0, if ps.len() == 0 { 0 } else { 1 }),
{
    if ps.len() > 0 {
        assert(selected(ps, Parents::First) =~= ps.subrange(0, 1));
        if selected(ps, Parents::First).contains(x) {
            assert(ps[0] == x);
        }
    } else {
        assert(selected(ps, Parents::First) =~= ps.subrange(0, 0));
    }
}

proof fn lemma_pick_unique(q: Seq<Entry>, sorting: Sorting, i: int, j: int)
    requires
        is_pick(q, sorting, i),
        is_pick(q, sorting, j),
    ensures
        i == j,
{
    if sorting == Sorting::ByCommitterDate {
        if i < j {
            assert(crate::state::priority(q[i]) < crate::state::priority(q[j]));
            assert(crate::state::priority(q[j]) <= crate::state::priority(q[i]));
        } else if j < i {
            assert(crate::state::priority(q[j]) < crate::state::priority(q[i]));
            assert(crate::state::priority(q[i]) <= crate::state::priority(q[j]));
        }
    }
}

proof fn lemma_entries_agree<Find>(find: Find, q1: Seq<Entry>, q2: Seq<Entry>)
    where
        Find: Fn(&ObjectId) -> Option<CommitInfo>,
    requires
        ids(q1) == ids(q2),
        forall|id: &ObjectId, x: Option<CommitInfo>, y: Option<CommitInfo>|
            find.ensures((id,), x) && find.ensures((id,), y) ==> x == y,
        forall|j: int| 0 <= j < q1.len() ==> answered(find, #[trigger] q1[j]),
        forall|j: int| 0 <= j < q2.len() ==> answered(find, #[trigger] q2[j]),
        forall|j: int| 0 <= j < q1.len() ==> ((#[trigger] q1[j]).info is None <==> q2[j].info is None),
    ensures
        q1 == q2,
{
    assert(q1.len() == ids(q1).len());
    assert forall|j: int| 0 <= j < q1.len() implies q1[j] == q2[j] by {
        assert(ids(q1)[j] == q1[j].id);
        assert(ids(q2)[j] == q2[j].id);
        assert(answered(find, q1[j]));
        assert(answered(find, q2[j]));
    }
    assert(q1 =~= q2);
}

/// Two traversals built from the same tips, over a store that answers each
/// commit the same way every time, start out alike. With `State::reset`,
/// which empties a state whatever it held, and `lemma_step_deterministic`,
/// this makes a repeated traversal emit what the first one emitted.
pub proof fn lemma_start_deterministic<Find, Predicate>(
    a1: &Ancestors<Find, Predicate>,
    a2: &Ancestors<Find, Predicate>,
)
    where
        Find: Fn(&ObjectId) -> Option<CommitInfo>,
        Predicate: Fn(&ObjectId) -> bool,
    requires
        a1.wf(),
        a2.wf(),
        a1.find_fn() == a2.find_fn(),
        forall|id: &ObjectId, x: Option<CommitInfo>, y: Option<CommitInfo>|
            a1.find_fn().ensures((id,), x) && a1.find_fn().ensures((id,), y) ==> x == y,
        a1@.tips == a2@.tips,
        a1@.sorting == a2@.sorting,
        a1@.parents == a2@.parents,
        a1@.seen == a1@.tips && a2@.seen == a2@.tips,
        ids(a1@.next) == a1@.tips && ids(a2@.next) == a2@.tips,
        a1@.looked_up.len() == 0 && a2@.looked_up.len() == 0,
        a1@.depths == Seq::new(a1@.tips.len(), |j: int| 0nat),
        a2@.depths == Seq::new(a2@.tips.len(), |j: int| 0nat),
        a1@.emitted_depths.len() == 0 && a2@.emitted_depths.len() == 0,
        a1@.expanded.len() == 0 && a2@.expanded.len() == 0,
        !a1@.failed && !a2@.failed,
        a1@.emitted.len() == 0 && a2@.emitted.len() == 0,
        a1@.judged.len() == 0 && a2@.judged.len() == 0,
        a1@.accepted.len() == 0 && a2@.accepted.len() == 0,
        !a1@.done && !a2@.done,
    ensures
        a1@ == a2@,
{
    assert forall|j: int| 0 <= j < a1@.next.len() implies ((#[trigger] a1@.next[j]).info is None
        <==> a2@.next[j].info is None) by {
        assert(ids(a1@.next)[j] == a1@.next[j].id);
        assert(ids(a2@.next)[j] == a2@.next[j].id);
    }
    lemma_entries_agree(a1.find, a1@.next, a2@.next);
    assert(a1@.looked_up =~= a2@.looked_up);
    assert(a1@.emitted =~= a2@.emitted);
    assert(a1@.judged =~= a2@.judged);
    assert(a1@.accepted =~= a2@.accepted);
    assert(a1@.depths =~= a2@.depths);
    assert(a1@.emitted_depths =~= a2@.emitted_depths);
    assert(a1@.expanded =~= a2@.expanded);
}

/// One step taken from two equal traversals, whose store and predicate
/// answer each commit the same way every time, returns the same value and
/// leads to equal traversals.
pub proof fn lemma_step_deterministic<Find, Predicate>(
    a1: &Ancestors<Find, Predicate>,
    a2: &Ancestors<Find, Predicate>,
    b1: &Ancestors<Find, Predicate>,
    b2: &Ancestors<Find, Predicate>,
    i1: int,
    i2: int,
    ans1: Option<CommitInfo>,
    ans2: Option<CommitInfo>,
    r1: Option<Result<ObjectId, Error>>,
    r2: Option<Result<ObjectId, Error>>,
)
    where
        Find: Fn(&ObjectId) -> Option<CommitInfo>,
        Predicate: Fn(&ObjectId) -> bool,
    requires
        a1@ == a2@,
        b1.wf(),
        b2.wf(),
        b1.find_fn() == a1.find_fn() && b2.find_fn() == a1.find_fn(),
        a2.predicate_fn() == a1.predicate_fn(),
        forall|id: &ObjectId, x: Option<CommitInfo>, y: Option<CommitInfo>|
            a1.find_fn().ensures((id,), x) && a1.find_fn().ensures((id,), y) ==> x == y,
        forall|id: &ObjectId, x: bool, y: bool|
            a1.predicate_fn().ensures((id,), x) && a1.predicate_fn().ensures((id,), y) ==> x == y,
        is_pick(a1@.next, a1@.sorting, i1),
        is_pick(a2@.next, a2@.sorting, i2),
        answer_of(a1.find_fn(), a1@.next[i1], ans1),
        answer_of(a1.find_fn(), a2@.next[i2], ans2),
        stepped(a1.predicate_fn(), a1@, b1@, i1, ans1, r1),
        stepped(a2.predicate_fn(), a2@, b2@, i2, ans2, r2),
    ensures
        r1 == r2,
        b1@ == b2@,
{
    lemma_pick_unique(a1@.next, a1@.sorting, i1, i2);
    let o = a1@;
    let n1 = b1@;
    let n2 = b2@;
    let e = o.next[i1];
    let rest = o.next.remove(i1);
    assert(ans1 == ans2);
    match ans1 {
        None => {},
        Some(info) => {
            let f = fresh(o.seen, selected(info.parents@, o.parents));
            let d1 = n1.accepted.subrange(o.judged.len() as int, n1.accepted.len() as int);
            let d2 = n2.accepted.subrange(o.judged.len() as int, n2.accepted.len() as int);
            assert forall|k: int| 0 <= k < f.len() implies d1[k] == d2[k] by {
                assert(a1.predicate_fn().ensures((&f[k],), d1[k]));
                assert(a1.predicate_fn().ensures((&f[k],), d2[k]));
            }
            assert(d1 =~= d2);
            assert(n1.accepted =~= n2.accepted) by {
                assert forall|k: int| 0 <= k < n1.accepted.len() implies n1.accepted[k] == n2.accepted[k] by {
                    if k < o.judged.len() {
                        assert(n1.accepted.subrange(0, o.judged.len() as int)[k] == n1.accepted[k]);
                        assert(n2.accepted.subrange(0, o.judged.len() as int)[k] == n2.accepted[k]);
                    } else {
                        assert(d1[k - o.judged.len()] == n1.accepted[k]);
                        assert(d2[k - o.judged.len()] == n2.accepted[k]);
                    }
                }
            }
            let s1 = n1.next.subrange(rest.len() as int, n1.next.len() as int);
            let s2 = n2.next.subrange(rest.len() as int, n2.next.len() as int);
            assert(ids(n1.next) =~= ids(n2.next)) by {
                assert(ids(s1) == ids(s2));
                assert(n1.next.len() == rest.len() + ids(s1).len());
                assert(n2.next.len() == rest.len() + ids(s2).len());
                assert forall|j: int| 0 <= j < n1.next.len() implies ids(n1.next)[j] == ids(n2.next)[j] by {
                    if j < rest.len() {
                        assert(n1.next.subrange(0, rest.len() as int)[j] == n1.next[j]);
                        assert(n2.next.subrange(0, rest.len() as int)[j] == n2.next[j]);
                    } else {
                        assert(ids(s1)[j - rest.len()] == n1.next[j].id);
                        assert(ids(s2)[j - rest.len()] == n2.next[j].id);
                    }
                }
            }
            lemma_b_entries(b1, b2);
        },
    }
}

proof fn lemma_b_entries<Find, Predicate>(b1: &Ancestors<Find, Predicate>, b2: &Ancestors<Find, Predicate>)
    where
        Find: Fn(&ObjectId) -> Option<CommitInfo>,
        Predicate: Fn(&ObjectId) -> bool,
    requires
        b1.wf(),
        b2.wf(),
        b1.find_fn() == b2.find_fn(),
        forall|id: &ObjectId, x: Option<CommitInfo>, y: Option<CommitInfo>|
            b1.find_fn().ensures((id,), x) && b1.find_fn().ensures((id,), y) ==> x == y,
        ids(b1@.next) == ids(b2@.next),
        b1@.sorting == b2@.sorting,
    ensures
        b1@.next == b2@.next,
{
    assert forall|j: int| 0 <= j < b1@.next.len() implies ((#[trigger] b1@.next[j]).info is None
        <==> b2@.next[j].info is None) by {
        assert(ids(b1@.next)[j] == b1@.next[j].id);
        assert(ids(b2@.next)[j] == b2@.next[j].id);
    }
    lemma_entries_agree(b1.find, b1@.next, b2@.next);
}

/// Under breadth-first sorting, commits leave in non-decreasing order of
/// discovery depth (a tip at depth zero, a queued parent one deeper than the
/// commit that discovered it, as `stepped` records), and no queued commit
/// lies shallower than one already emitted.
pub proof fn lemma_breadth_first_order<Find, Predicate>(a: &Ancestors<Find, Predicate>)
    where
        Find: Fn(&ObjectId) -> Option<CommitInfo>,
        Predicate: Fn(&ObjectId) -> bool,
    requires
        a.wf(),
        a@.sorting == Sorting::BreadthFirst,
    ensures
        forall|i: int, j: int|
            0 <= i < j < a@.emitted_depths.len() ==> a@.emitted_depths[i] <= a@.emitted_depths[j],
        forall|i: int, j: int|
            0 <= i < a@.emitted_depths.len() && 0 <= j < a@.depths.len() ==> a@.emitted_depths[i]
                <= a@.depths[j],
{
    let em = a@.emitted_depths;
    let q = a@.depths;
    assert forall|i: int, j: int| 0 <= i < em.len() && 0 <= j < q.len() implies em[i] <= q[j] by {
        if i < em.len() - 1 {
            assert(em[i] <= em[em.len() - 1]);
        }
        assert(em.last() <= q[j]);
    }
}

/// What a first-parent walk reaches in `n` steps, a walk over all parents
/// reaches in `n` steps too.
pub proof fn lemma_reaches_first_within_all<Find, Predicate>(
    find: Find,
    pred: Predicate,
    tips: Seq<ObjectId>,
    x: ObjectId,
    n: nat,
)
    where
        Find: Fn(&ObjectId) -> Option<CommitInfo>,
        Predicate: Fn(&ObjectId) -> bool,
    requires
        reaches(find, pred, tips, Parents::First, x, n),
    ensures
        reaches(find, pred, tips, Parents::All, x, n),
    decreases n,
{
    if n > 0 {
        if reaches(find, pred, tips, Parents::First, x, (n - 1) as nat) {
            lemma_reaches_first_within_all(find, pred, tips, x, (n - 1) as nat);
        } else {
            let (y, info) = choose|y: ObjectId, info: CommitInfo|
                #![trigger find.ensures((&y,), Some(info)), selected(info.parents@, Parents::First).contains(x)]
                {
                    &&& reaches(find, pred, tips, Parents::First, y, (n - 1) as nat)
                    &&& find.ensures((&y,), Some(info))
                    &&& selected(info.parents@, Parents::First).contains(x)
                    &&& pred.ensures((&x,), true)
                };
            lemma_reaches_first_within_all(find, pred, tips, y, (n - 1) as nat);
            lemma_first_within_all(info.parents@, x);
            assert(selected(info.parents@, Parents::All).contains(x));
        }
    }
}

/// A traversal whose frontier has drained without an error has emitted every
/// commit that its tips reach, provided the store and the predicate answer
/// each commit the same way every time.
pub proof fn lemma_drained_emits_all_reached<Find, Predicate>(
    a: &Ancestors<Find, Predicate>,
    x: ObjectId,
    n: nat,
)
    where
        Find: Fn(&ObjectId) -> Option<CommitInfo>,
        Predicate: Fn(&ObjectId) -> bool,
    requires
        a.wf(),
        a@.next.len() == 0,
        !a@.failed,
        forall|id: &ObjectId, u: Option<CommitInfo>, w: Option<CommitInfo>|
            a.find_fn().ensures((id,), u) && a.find_fn().ensures((id,), w) ==> u == w,
        forall|id: &ObjectId, u: bool, w: bool|
            a.predicate_fn().ensures((id,), u) && a.predicate_fn().ensures((id,), w) ==> u == w,
        reaches(a.find_fn(), a.predicate_fn(), a@.tips, a@.parents, x, n),
    ensures
        a@.emitted.contains(x),
    decreases n,
{
    let v = a@;
    if n == 0 {
        lemma_concat_contains(v.tips, v.judged, x);
        assert(admitted(v.tips, v.judged, v.accepted, x));
    } else if reaches(a.find, a.predicate, v.tips, v.parents, x, (n - 1) as nat) {
        lemma_drained_emits_all_reached(a, x, (n - 1) as nat);
    } else {
        let (y, info) = choose|y: ObjectId, info: CommitInfo|
            #![trigger a.find.ensures((&y,), Some(info)), selected(info.parents@, v.parents).contains(x)]
            {
                &&& reaches(a.find, a.predicate, v.tips, v.parents, y, (n - 1) as nat)
                &&& a.find.ensures((&y,), Some(info))
                &&& selected(info.parents@, v.parents).contains(x)
                &&& a.predicate.ensures((&x,), true)
            };
        lemma_drained_emits_all_reached(a, y, (n - 1) as nat);
        let j = choose|j: int| 0 <= j < v.emitted.len() && v.emitted[j] == y;
        assert(a.find.ensures((&v.emitted[j],), Some(v.expanded[j])));
        assert(Some(info) == Some(v.expanded[j]));
        assert(selected(v.expanded[j].parents@, v.parents).contains(x));
        assert(v.seen.contains(x));
        lemma_concat_contains(v.tips, v.judged, x);
        if !v.tips.contains(x) {
            let k = choose|k: int| 0 <= k < v.judged.len() && v.judged[k] == x;
            assert(a.predicate.ensures((&v.judged[k],), v.accepted[k]));
            assert(v.accepted[k]);
        }
        assert(admitted(v.tips, v.judged, v.accepted, x));
    }
    assert(!ids(v.next).contains(x));
}

/// Every commit that a traversal emits is reached from its tips.
pub proof fn lemma_emitted_is_reached<Find, Predicate>(a: &Ancestors<Find, Predicate>, x: ObjectId)
    where
        Find: Fn(&ObjectId) -> Option<CommitInfo>,
        Predicate: Fn(&ObjectId) -> bool,
    requires
        a.wf(),
        a@.emitted.contains(x),
    ensures
        exists|n: nat| reaches(a.find_fn(), a.predicate_fn(), a@.tips, a@.parents, x, n),
{
    lemma_emitted_reaches(*a, false, x);
    let m = choose|m: nat| reaches(a.find, a.predicate, a@.tips, a@.parents, x, m);
    assert(reaches(a.find_fn(), a.predicate_fn(), a@.tips, a@.parents, x, m));
}

/// With the same tips, store and predicate, each answering every commit the
/// same way every time, every commit that a first-parent traversal emits is
/// emitted by an all-parents traversal that has drained without an error.
pub proof fn lemma_first_parent_within_all<Find, Predicate>(
    first: &Ancestors<Find, Predicate>,
    all: &Ancestors<Find, Predicate>,
    x: ObjectId,
)
    where
        Find: Fn(&ObjectId) -> Option<CommitInfo>,
        Predicate: Fn(&ObjectId) -> bool,
    requires
        first.wf(),
        all.wf(),
        first.find_fn() == all.find_fn(),
        first.predicate_fn() == all.predicate_fn(),
        first@.tips == all@.tips,
        first@.parents == Parents::First,
        all@.parents == Parents::All,
        all@.next.len() == 0,
        !all@.failed,
        forall|id: &ObjectId, u: Option<CommitInfo>, w: Option<CommitInfo>|
            all.find_fn().ensures((id,), u) && all.find_fn().ensures((id,), w) ==> u == w,
        forall|id: &ObjectId, u: bool, w: bool|
            all.predicate_fn().ensures((id,), u) && all.predicate_fn().ensures((id,), w) ==> u == w,
        first@.emitted.contains(x),
    ensures
        all@.emitted.contains(x),
{
    lemma_emitted_is_reached(first, x);
    let n = choose|n: nat| reaches(first.find_fn(), first.predicate_fn(), first@.tips, Parents::First, x, n);
    lemma_reaches_first_within_all(first.find_fn(), first.predicate_fn(), first@.tips, x, n);
    lemma_drained_emits_all_reached(all, x, n);
}

} // verus!
