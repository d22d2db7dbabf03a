//! What it means for jobs to wait for one another: prerequisites, cycles and
//! execution orders, and why an execution order and a cycle exclude each other.
//!
//! A precedence relation is a map from each id to the set of ids that have to
//! come before it.

use crate::schema::JobNode;
use vstd::prelude::*;

verus! {

/// For each job of the plan, the jobs that have to finish before it: `a` is
/// one of those of `b` where `a` lists `b` as a dependent. A listed id that
/// names no job of the plan appears nowhere.
pub open spec fn prerequisites(jobs: Map<usize, JobNode>) -> Map<usize, Set<usize>> {
    Map::new(
        |b: usize| jobs.contains_key(b),
        |b: usize| Set::new(|a: usize| jobs.contains_key(a) && jobs[a].dependents().contains(b)),
    )
}

/// Each id of `walk` is known to `pre`, and each one has to come before the
/// one that follows it.
pub open spec fn is_walk(pre: Map<usize, Set<usize>>, walk: Seq<usize>) -> bool {
    &&& forall|i: int| 0 <= i < walk.len() ==> pre.contains_key(#[trigger] walk[i])
    &&& forall|i: int, j: int|
        0 <= i && j == i + 1 && j < walk.len() ==> pre[#[trigger] walk[j]].contains(
            #[trigger] walk[i],
        )
}

/// A walk of at least one step that ends where it began. A job that waits for
/// itself is the shortest case.
pub open spec fn is_cycle(pre: Map<usize, Set<usize>>, walk: Seq<usize>) -> bool {
    &&& walk.len() >= 2
    &&& is_walk(pre, walk)
    &&& walk.first() == walk.last()
}

/// Some job has to come before itself, directly or through others.
pub open spec fn has_cycle(pre: Map<usize, Set<usize>>) -> bool {
    exists|walk: Seq<usize>| is_cycle(pre, walk)
}

/// `order` names every id of `pre` exactly once, and none before one of its
/// prerequisites.
pub open spec fn is_execution_order(pre: Map<usize, Set<usize>>, order: Seq<usize>) -> bool {
    &&& order.no_duplicates()
    &&& forall|id: usize| order.contains(id) <==> pre.contains_key(id)
    &&& forall|i: int, j: int|
        0 <= i < order.len() && 0 <= j < order.len() && pre[#[trigger] order[i]].contains(
            #[trigger] order[j],
        ) ==> j < i
}

/// Along a walk the positions in an execution order only grow.
proof fn lemma_walk_climbs(
    pre: Map<usize, Set<usize>>,
    order: Seq<usize>,
    walk: Seq<usize>,
    k: int,
)
    requires
        is_execution_order(pre, order),
        is_walk(pre, walk),
        1 <= k < walk.len(),
    ensures
        forall|p: int, q: int|
            0 <= p < order.len() && 0 <= q < order.len() && order[p] == walk[0] && order[q]
                == walk[k] ==> p < q,
    decreases k,
{
    let before = walk[k - 1];
    assert(pre[walk[k]].contains(before));
    assert(order.contains(before));
    let m = choose|m: int| 0 <= m < order.len() && order[m] == before;
    if k > 1 {
        lemma_walk_climbs(pre, order, walk, k - 1);
    }
    assert forall|p: int, q: int|
        0 <= p < order.len() && 0 <= q < order.len() && order[p] == walk[0] && order[q]
            == walk[k] implies p < q by {
        assert(pre[order[q]].contains(order[m]));
        assert(m < q);
        if k > 1 {
            assert(p < m);
        }
    }
}

/// Where the jobs can be put in an execution order, none of them waits for
/// itself, directly or through others.
pub proof fn lemma_execution_order_excludes_cycle(pre: Map<usize, Set<usize>>, order: Seq<usize>)
    requires
        is_execution_order(pre, order),
    ensures
        !has_cycle(pre),
{
    if has_cycle(pre) {
        let walk = choose|walk: Seq<usize>| is_cycle(pre, walk);
        lemma_walk_climbs(pre, order, walk, walk.len() - 1);
        assert(order.contains(walk[0]));
        let p = choose|p: int| 0 <= p < order.len() && order[p] == walk[0];
        assert(p < p);
    }
}

/// A walk of `len` ids, all taken from `blocked`.
proof fn lemma_walk_among_blocked(
    pre: Map<usize, Set<usize>>,
    blocked: Set<usize>,
    len: nat,
) -> (walk: Seq<usize>)
    requires
        len >= 1,
        exists|b: usize| blocked.contains(b),
        forall|b: usize| blocked.contains(b) ==> pre.contains_key(b),
        forall|b: usize| #[trigger]
            blocked.contains(b) ==> exists|a: usize| blocked.contains(a) && pre[b].contains(a),
    ensures
        walk.len() == len,
        is_walk(pre, walk),
        forall|i: int| 0 <= i < len ==> blocked.contains(#[trigger] walk[i]),
    decreases len,
{
    if len == 1 {
        let b = choose|b: usize| blocked.contains(b);
        seq![b]
    } else {
        let tail = lemma_walk_among_blocked(pre, blocked, (len - 1) as nat);
        assert(blocked.contains(tail[0]));
        let a = choose|a: usize| blocked.contains(a) && pre[tail[0]].contains(a);
        let walk = seq![a] + tail;
        assert forall|i: int, j: int|
            0 <= i && j == i + 1 && j < walk.len() implies pre[#[trigger] walk[j]].contains(
            #[trigger] walk[i],
        ) by {
            if i > 0 {
                assert(walk[i] == tail[i - 1]);
                assert(walk[j] == tail[j - 1]);
            }
        }
        walk
    }
}

/// Where every job of a non-empty set waits for another job of that set, some
/// job waits for itself.
pub proof fn lemma_blocked_jobs_have_cycle(pre: Map<usize, Set<usize>>, blocked: Set<usize>)
    requires
        pre.dom().finite(),
        exists|b: usize| blocked.contains(b),
        forall|b: usize| blocked.contains(b) ==> pre.contains_key(b),
        forall|b: usize| #[trigger]
            blocked.contains(b) ==> exists|a: usize| blocked.contains(a) && pre[b].contains(a),
    ensures
        has_cycle(pre),
{
    let walk = lemma_walk_among_blocked(pre, blocked, pre.dom().len() + 1);
    if walk.no_duplicates() {
        walk.unique_seq_to_set();
        assert(walk.to_set().subset_of(pre.dom())) by {
            assert forall|id: usize| walk.to_set().contains(id) implies pre.dom().contains(id) by {
                let i = choose|i: int| 0 <= i < walk.len() && walk[i] == id;
                assert(pre.contains_key(walk[i]));
            }
        }
        vstd::set_lib::lemma_len_subset(walk.to_set(), pre.dom());
        assert(false);
    }
    let (i, j) = choose|i: int, j: int|
        0 <= i < walk.len() && 0 <= j < walk.len() && i != j && walk[i] == walk[j];
    let (lo, hi) = if i < j {
        (i, j)
    } else {
        (j, i)
    };
    let round = walk.subrange(lo, hi + 1);
    assert forall|m: int, n: int|
        0 <= m && n == m + 1 && n < round.len() implies pre[#[trigger] round[n]].contains(
        #[trigger] round[m],
    ) by {
        assert(round[m] == walk[lo + m]);
        assert(round[n] == walk[lo + n]);
    }
    assert(is_cycle(pre, round));
}

/// A job that lists another as a dependent stands before it in every
/// execution order of the plan.
pub proof fn lemma_dependents_come_later(
    jobs: Map<usize, JobNode>,
    order: Seq<usize>,
    i: int,
    j: int,
)
    requires
        is_execution_order(prerequisites(jobs), order),
        0 <= i < order.len(),
        0 <= j < order.len(),
        jobs[order[i]].dependents().contains(order[j]),
    ensures
        i < j,
{
    assert(order.contains(order[i]));
    assert(order.contains(order[j]));
    assert(prerequisites(jobs)[order[j]].contains(order[i]));
}

/// A plan without jobs has no cycle.
pub proof fn lemma_empty_plan_has_no_cycle(jobs: Map<usize, JobNode>)
    requires
        jobs.dom().finite(),
        jobs.len() == 0,
    ensures
        !has_cycle(prerequisites(jobs)),
{
    if has_cycle(prerequisites(jobs)) {
        let walk = choose|walk: Seq<usize>| is_cycle(prerequisites(jobs), walk);
        assert(prerequisites(jobs).contains_key(walk[0]));
    }
}

/// A plan in which no job lists a dependent has no cycle.
pub proof fn lemma_independent_jobs_have_no_cycle(jobs: Map<usize, JobNode>)
    requires
        forall|id: usize| jobs.contains_key(id) ==> (#[trigger] jobs[id]).dependents().len() == 0,
    ensures
        !has_cycle(prerequisites(jobs)),
{
    if has_cycle(prerequisites(jobs)) {
        let walk = choose|walk: Seq<usize>| is_cycle(prerequisites(jobs), walk);
        assert(prerequisites(jobs)[walk[1]].contains(walk[0]));
        assert(jobs[walk[0]].dependents().len() == 0);
    }
}

} // verus!
