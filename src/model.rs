//! The sequences that describe a traversal, and facts about them.

use crate::id::ObjectId;
use crate::state::{ids, Entry};
use vstd::prelude::*;

verus! {

/// The candidates of `cands` that are discovered when `seen` has been seen
/// before: those not in `seen`, each at its first occurrence, in order.
pub open spec fn fresh(seen: Seq<ObjectId>, cands: Seq<ObjectId>) -> Seq<ObjectId>
    decreases cands.len(),
{
    if cands.len() == 0 {
        Seq::empty()
    } else {
        let prev = fresh(seen, cands.drop_last());
        let c = cands.last();
        if seen.contains(c) || prev.contains(c) {
            prev
        } else {
            prev.push(c)
        }
    }
}

/// The items of `xs` whose decision in `d` (same position) is true, in order.
pub open spec fn kept(xs: Seq<ObjectId>, d: Seq<bool>) -> Seq<ObjectId>
    decreases xs.len(),
{
    if xs.len() == 0 {
        Seq::empty()
    } else {
        let prev = kept(xs.drop_last(), d);
        if d[xs.len() - 1] {
            prev.push(xs.last())
        } else {
            prev
        }
    }
}

/// Whether `x` may be queued or emitted: it is a tip, or the predicate
/// accepted it when it was discovered.
pub open spec fn admitted(
    tips: Seq<ObjectId>,
    judged: Seq<ObjectId>,
    accepted: Seq<bool>,
    x: ObjectId,
) -> bool {
    tips.contains(x) || exists|k: int| 0 <= k < judged.len() && judged[k] == x && accepted[k]
}

/// Whether the predicate turned `x` down when it was discovered.
pub open spec fn pruned(judged: Seq<ObjectId>, accepted: Seq<bool>, x: ObjectId) -> bool {
    exists|k: int| 0 <= k < judged.len() && judged[k] == x && !accepted[k]
}

/// The depth invariant of a breadth-first walk, over the discovery depths
/// `q` of the queued entries and `em` of the emitted commits: both run in
/// non-decreasing order, and every queued depth is the last emitted one or
/// one more (zero while nothing was emitted).
pub open spec fn bfs_ordered(q: Seq<nat>, em: Seq<nat>) -> bool {
    &&& forall|i: int, j: int| 0 <= i < j < q.len() ==> q[i] <= q[j]
    &&& forall|i: int, j: int| 0 <= i < j < em.len() ==> em[i] <= em[j]
    &&& em.len() == 0 ==> forall|j: int| 0 <= j < q.len() ==> q[j] == 0
    &&& em.len() > 0 ==> forall|j: int| 0 <= j < q.len() ==> em.last() <= #[trigger] q[j] <= em.last() + 1
}

pub(crate) proof fn lemma_concat_contains(a: Seq<ObjectId>, b: Seq<ObjectId>, x: ObjectId)
    ensures
        (a + b).contains(x) <==> (a.contains(x) || b.contains(x)),
{
    if a.contains(x) {
        let i = choose|i: int| 0 <= i < a.len() && a[i] == x;
        assert((a + b)[i] == x);
    }
    if b.contains(x) {
        let i = choose|i: int| 0 <= i < b.len() && b[i] == x;
        assert((a + b)[a.len() + i] == x);
    }
}

pub(crate) proof fn lemma_push_contains(a: Seq<ObjectId>, c: ObjectId, x: ObjectId)
    ensures
        a.push(c).contains(x) <==> (a.contains(x) || x == c),
{
    if a.contains(x) {
        let i = choose|i: int| 0 <= i < a.len() && a[i] == x;
        assert(a.push(c)[i] == x);
    }
    assert(a.push(c)[a.len() as int] == c);
}

pub(crate) proof fn lemma_fresh_push(seen: Seq<ObjectId>, cands: Seq<ObjectId>, c: ObjectId)
    ensures
        fresh(seen, cands.push(c)) == if seen.contains(c) || fresh(seen, cands).contains(c) {
            fresh(seen, cands)
        } else {
            fresh(seen, cands).push(c)
        },
{
    assert(cands.push(c).drop_last() =~= cands);
}

pub(crate) proof fn lemma_fresh_covers(seen: Seq<ObjectId>, cands: Seq<ObjectId>)
    ensures
        forall|x: ObjectId| cands.contains(x) ==> #[trigger] (seen + fresh(seen, cands)).contains(x),
    decreases cands.len(),
{
    if cands.len() > 0 {
        let prev = cands.drop_last();
        let c = cands.last();
        lemma_fresh_covers(seen, prev);
        lemma_fresh_push(seen, prev, c);
        assert(prev.push(c) =~= cands);
        assert forall|x: ObjectId| cands.contains(x) implies #[trigger] (seen + fresh(seen, cands)).contains(x) by {
            lemma_push_contains(prev, c, x);
            lemma_concat_contains(seen, fresh(seen, prev), x);
            lemma_concat_contains(seen, fresh(seen, cands), x);
            lemma_push_contains(fresh(seen, prev), c, x);
        }
    }
}

pub(crate) proof fn lemma_kept_push(xs: Seq<ObjectId>, d: Seq<bool>, x: ObjectId, b: bool)
    requires
        d.len() == xs.len(),
    ensures
        kept(xs.push(x), d.push(b)) == if b {
            kept(xs, d).push(x)
        } else {
            kept(xs, d)
        },
{
    lemma_kept_prefix(xs, d, d.push(b));
    assert(xs.push(x).drop_last() =~= xs);
}

pub(crate) proof fn lemma_kept_prefix(xs: Seq<ObjectId>, d: Seq<bool>, e: Seq<bool>)
    requires
        d.len() >= xs.len(),
        e.len() >= xs.len(),
        forall|i: int| 0 <= i < xs.len() ==> d[i] == e[i],
    ensures
        kept(xs, d) == kept(xs, e),
    decreases xs.len(),
{
    if xs.len() > 0 {
        lemma_kept_prefix(xs.drop_last(), d, e);
    }
}

pub(crate) proof fn lemma_admitted_grow(
    tips: Seq<ObjectId>,
    judged: Seq<ObjectId>,
    accepted: Seq<bool>,
    c: ObjectId,
    b: bool,
    x: ObjectId,
)
    requires
        accepted.len() == judged.len(),
        admitted(tips, judged, accepted, x),
    ensures
        admitted(tips, judged.push(c), accepted.push(b), x),
{
    if !tips.contains(x) {
        let k = choose|k: int| 0 <= k < judged.len() && judged[k] == x && accepted[k];
        assert(judged.push(c)[k] == x && accepted.push(b)[k]);
    }
}

pub(crate) proof fn lemma_admitted_shrink(
    tips: Seq<ObjectId>,
    judged: Seq<ObjectId>,
    accepted: Seq<bool>,
    c: ObjectId,
    b: bool,
    x: ObjectId,
)
    requires
        accepted.len() == judged.len(),
        admitted(tips, judged.push(c), accepted.push(b), x),
        x != c,
    ensures
        admitted(tips, judged, accepted, x),
{
    if !tips.contains(x) {
        let k = choose|k: int| 0 <= k < judged.len() + 1 && judged.push(c)[k] == x && accepted.push(b)[k];
        assert(k < judged.len());
        assert(judged[k] == x && accepted[k]);
    }
}

pub(crate) proof fn lemma_bfs_pop(q: Seq<nat>, em: Seq<nat>)
    requires
        bfs_ordered(q, em),
        q.len() > 0,
    ensures
        bfs_ordered(q.remove(0), em),
        bfs_ordered(q.remove(0), em.push(q[0])),
{
    let r = q.remove(0);
    assert forall|j: int| 0 <= j < r.len() implies r[j] == q[j + 1] by {}
    let e2 = em.push(q[0]);
    assert forall|i: int, j: int| 0 <= i < j < e2.len() implies e2[i] <= e2[j] by {
        if j == em.len() && i < em.len() {
            assert(em[i] <= em.last());
        }
    }
}

pub(crate) proof fn lemma_bfs_push(q: Seq<nat>, em: Seq<nat>, d: nat)
    requires
        bfs_ordered(q, em),
        em.len() > 0,
        d == em.last() + 1,
    ensures
        bfs_ordered(q.push(d), em),
{
    let r = q.push(d);
    assert forall|j: int| 0 <= j < r.len() implies em.last() <= #[trigger] r[j] <= em.last() + 1 by {
        if j < q.len() {
            assert(r[j] == q[j]);
        }
    }
}

pub(crate) proof fn lemma_remove_contains(q: Seq<Entry>, i: int, x: ObjectId)
    requires
        0 <= i < q.len(),
        ids(q).contains(x),
        x != q[i].id,
    ensures
        ids(q.remove(i)).contains(x),
{
    let j = choose|j: int| 0 <= j < ids(q).len() && ids(q)[j] == x;
    assert(j != i);
    let r = q.remove(i);
    let jj = if j < i {
        j
    } else {
        j - 1
    };
    assert(r[jj] == q[j]);
    assert(ids(r)[jj] == x);
}

pub(crate) proof fn lemma_remove_keeps(q: Seq<Entry>, i: int)
    requires
        0 <= i < q.len(),
        ids(q).no_duplicates(),
    ensures
        ids(q.remove(i)).no_duplicates(),
        forall|j: int|
            0 <= j < q.len() - 1 ==> #[trigger] q.remove(i)[j] == q[if j < i {
                j
            } else {
                j + 1
            }],
{
    let r = q.remove(i);
    assert forall|a: int, b: int| 0 <= a < b < r.len() implies ids(r)[a] != ids(r)[b] by {
        let aa = if a < i {
            a
        } else {
            a + 1
        };
        let bb = if b < i {
            b
        } else {
            b + 1
        };
        assert(ids(r)[a] == ids(q)[aa]);
        assert(ids(r)[b] == ids(q)[bb]);
    }
}

} // verus!
