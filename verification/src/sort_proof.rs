//! Why the sort and the graph builder do what their contracts say: the state
//! that the sort keeps between two steps, and the lemmas about its first step,
//! its steps and its two ends.

use crate::graph_topology::{
    emits, has_distinct_ids, ids_at, is_closed, is_emitted, is_first_ready, is_graph_of,
    is_greedy_order, is_greedy_prefix, is_node_of, is_pick, is_plan_outcome, is_released,
    is_sort_of, lemma_greedy_order_is_execution_order, lists_jobs, names_node, node_prerequisites,
    other_than, waits_for, BidirectionalJob,
};
use crate::precedence::{
    has_cycle, is_execution_order, lemma_blocked_jobs_have_cycle,
    lemma_execution_order_excludes_cycle, prerequisites,
};
use crate::schema::JobNode;
use crate::types::Job;
use vstd::prelude::*;

verus! {

/// `node` is what the sort holds in place of `origin` once the nodes at
/// `done` are emitted: the same id and value, waiting only for what is not
/// yet emitted.
pub(crate) open spec fn is_pending<T>(
    nodes: Seq<BidirectionalJob<T>>,
    done: Seq<int>,
    origin: BidirectionalJob<T>,
    node: BidirectionalJob<T>,
) -> bool {
    &&& node.id == origin.id
    &&& node.value == origin.value
    &&& forall|a: usize| #[trigger]
        node.prevs@.contains(a) <==> origin.prevs@.contains(a) && !is_emitted(nodes, done, a)
}

/// The state of the sort between two steps: `done` are the positions emitted
/// so far, in the order in which they were emitted, and `left` those of the
/// working set `working`, in its order, which is that of `nodes`.
pub(crate) open spec fn is_sort_state<T>(
    nodes: Seq<BidirectionalJob<T>>,
    working: Seq<BidirectionalJob<T>>,
    done: Seq<int>,
    left: Seq<int>,
) -> bool {
    &&& left.len() == working.len()
    &&& done.len() + left.len() == nodes.len()
    &&& forall|i: int| 0 <= i < left.len() ==> 0 <= #[trigger] left[i] < nodes.len()
    &&& forall|i: int, j: int| 0 <= i < j < left.len() ==> #[trigger] left[i] < #[trigger] left[j]
    &&& forall|j: int|
        #![trigger done.contains(j)]
        #![trigger left.contains(j)]
        0 <= j < nodes.len() ==> (done.contains(j) <==> !left.contains(j))
    &&& forall|i: int|
        0 <= i < left.len() ==> is_pending(nodes, done, nodes[left[i]], #[trigger] working[i])
    &&& is_greedy_prefix(nodes, done)
}

/// Before the first step nothing is emitted, and the working set is `nodes`.
pub(crate) proof fn lemma_sort_start<T>(nodes: Seq<BidirectionalJob<T>>)
    ensures
        is_sort_state(nodes, nodes, Seq::empty(), Seq::new(nodes.len(), |i: int| i)),
{
    let done = Seq::<int>::empty();
    let left = Seq::new(nodes.len(), |i: int| i);
    assert forall|j: int|
        #![trigger done.contains(j)]
        #![trigger left.contains(j)]
        0 <= j < nodes.len() implies (done.contains(j) <==> !left.contains(j)) by {
        assert(left[j] == j);
    }
    assert forall|i: int| 0 <= i < left.len() implies is_pending(
        nodes,
        done,
        nodes[left[i]],
        #[trigger] nodes[i],
    ) by {
        assert(left[i] == i);
    }
}

/// What is left of `prevs` once `id` is struck: the ids that were there, but
/// for `id`.
proof fn lemma_struck_contains(prevs: Seq<usize>, id: usize, a: usize)
    ensures
        prevs.filter(other_than(id)).contains(a) <==> prevs.contains(a) && a != id,
{
    let kept = prevs.filter(other_than(id));
    if kept.contains(a) {
        prevs.lemma_filter_contains_rev(other_than(id), a);
        let k = choose|k: int| 0 <= k < kept.len() && kept[k] == a;
        prevs.lemma_filter_pred(other_than(id), k);
    }
    if prevs.contains(a) && a != id {
        let k = choose|k: int| 0 <= k < prevs.len() && prevs[k] == a;
        prevs.lemma_filter_contains(other_than(id), k);
    }
}

/// One step of the sort leads from one state to the next: the node picked
/// joins the emitted ones, and the others wait for it no longer.
pub(crate) proof fn lemma_sort_step<T>(
    nodes: Seq<BidirectionalJob<T>>,
    before: Seq<BidirectionalJob<T>>,
    after: Seq<BidirectionalJob<T>>,
    done: Seq<int>,
    left: Seq<int>,
    i: int,
)
    requires
        has_distinct_ids(nodes),
        is_sort_state(nodes, before, done, left),
        is_first_ready(before, i),
        after.len() == before.len() - 1,
        forall|j: int|
            0 <= j < after.len() ==> (#[trigger] after[j]).is_released_from(
                before.remove(i)[j],
                before[i].id,
            ),
    ensures
        is_sort_state(nodes, after, done.push(left[i]), left.remove(i)),
        nodes[left[i]].id == before[i].id,
        nodes[left[i]].value == before[i].value,
{
    let picked = left[i];
    let done2 = done.push(picked);
    let left2 = left.remove(i);
    let id = before[i].id;
    assert(is_pending(nodes, done, nodes[picked], before[i]));

    // Emitted after the step is what was emitted before it, and the node picked.
    assert forall|a: usize| is_emitted(nodes, done2, a) <==> (is_emitted(nodes, done, a) || a
        == id) by {
        if is_emitted(nodes, done, a) {
            let k = choose|k: int| 0 <= k < done.len() && nodes[#[trigger] done[k]].id == a;
            assert(done2[k] == done[k]);
        }
        if a == id {
            assert(done2[done.len() as int] == picked);
        }
        if is_emitted(nodes, done2, a) {
            let k = choose|k: int| 0 <= k < done2.len() && nodes[#[trigger] done2[k]].id == a;
            if k < done.len() {
                assert(done[k] == done2[k]);
            }
        }
    }

    assert(!done.contains(picked)) by {
        assert(left.contains(left[i]));
    }

    // Every position is still either emitted or left.
    assert forall|j: int|
        #![trigger done2.contains(j)]
        #![trigger left2.contains(j)]
        0 <= j < nodes.len() implies (done2.contains(j) <==> !left2.contains(j)) by {
        if left2.contains(j) {
            let m = choose|m: int| 0 <= m < left2.len() && left2[m] == j;
            let m0 = if m < i {
                m
            } else {
                m + 1
            };
            assert(left[m0] == j);
            assert(left.contains(j));
            if done2.contains(j) {
                let k = choose|k: int| 0 <= k < done2.len() && done2[k] == j;
                assert(done[k] == j);
                assert(done.contains(j));
            }
        } else if j == picked {
            assert(done2[done.len() as int] == j);
        } else {
            if left.contains(j) {
                let m = choose|m: int| 0 <= m < left.len() && left[m] == j;
                let m2 = if m < i {
                    m
                } else {
                    m - 1
                };
                assert(left2[m2] == j);
            }
            assert(done.contains(j));
            let k = choose|k: int| 0 <= k < done.len() && done[k] == j;
            assert(done2[k] == j);
        }
    }

    // The nodes left wait for what they waited for, but for the node picked.
    assert forall|m: int| 0 <= m < left2.len() implies is_pending(
        nodes,
        done2,
        nodes[left2[m]],
        #[trigger] after[m],
    ) by {
        let m0 = if m < i {
            m
        } else {
            m + 1
        };
        let old_node = before[m0];
        assert(before.remove(i)[m] == old_node);
        assert(left2[m] == left[m0]);
        assert(after[m].is_released_from(old_node, id));
        assert(is_pending(nodes, done, nodes[left[m0]], old_node));
        let origin = nodes[left2[m]];
        assert forall|a: usize| #[trigger]
            after[m].prevs@.contains(a) <==> origin.prevs@.contains(a) && !is_emitted(
                nodes,
                done2,
                a,
            ) by {
            lemma_struck_contains(old_node.prevs@, id, a);
        }
    }

    // The node picked is the earliest that was ready.
    assert forall|k: int| 0 <= k < done2.len() implies #[trigger] is_pick(nodes, done2, k) by {
        assert(done2.take(k) =~= done.take(k));
        if k < done.len() {
            assert(is_pick(nodes, done, k));
            assert(done2[k] == done[k]);
        } else {
            assert(done.take(k) =~= done);
            assert forall|a: usize| #[trigger]
                nodes[picked].prevs@.contains(a) implies is_emitted(nodes, done, a) by {
                if !is_emitted(nodes, done, a) {
                    assert(before[i].prevs@.contains(a));
                }
            }
            assert forall|j: int|
                0 <= j < picked && !done.contains(j) implies !#[trigger] is_released(
                nodes,
                done,
                j,
            ) by {
                assert(left.contains(j));
                let m = choose|m: int| 0 <= m < left.len() && left[m] == j;
                assert(m < i);
                assert(!before[m].is_ready());
                let a = before[m].prevs@[0];
                assert(before[m].prevs@.contains(a));
                assert(is_pending(nodes, done, nodes[left[m]], before[m]));
                assert(nodes[j].prevs@.contains(a) && !is_emitted(nodes, done, a));
            }
        }
    }
}

/// Once the working set is empty, what was emitted is the sort.
pub(crate) proof fn lemma_sort_finished(
    nodes: Seq<BidirectionalJob<JobNode>>,
    done: Seq<int>,
    left: Seq<int>,
    sorted: Vec<Job>,
)
    requires
        has_distinct_ids(nodes),
        is_sort_state(nodes, Seq::empty(), done, left),
        emits(nodes, done, sorted@),
    ensures
        is_sort_of(nodes, Ok(sorted)),
{
    assert forall|j: int| 0 <= j < nodes.len() implies #[trigger] done.contains(j) by {
        if left.contains(j) {
            let m = choose|m: int| 0 <= m < left.len() && left[m] == j;
        }
    }
    assert(is_greedy_order(nodes, done));
    lemma_greedy_order_is_execution_order(nodes, done);
    lemma_execution_order_excludes_cycle(node_prerequisites(nodes), ids_at(nodes, done));
    let outcome: Result<Vec<Job>, &'static str> = Ok(sorted);
    assert(emits(nodes, done, outcome->Ok_0@));
}

/// The ids of the nodes are finitely many.
proof fn lemma_node_ids_are_finite<T>(nodes: Seq<BidirectionalJob<T>>)
    ensures
        node_prerequisites(nodes).dom().finite(),
{
    let ids = Seq::new(nodes.len(), |i: int| nodes[i].id);
    assert(node_prerequisites(nodes).dom() =~= ids.to_set()) by {
        assert forall|id: usize| names_node(nodes, id) <==> ids.contains(id) by {
            if names_node(nodes, id) {
                let i = choose|i: int| 0 <= i < nodes.len() && (#[trigger] nodes[i]).id == id;
                assert(ids[i] == id);
            }
            if ids.contains(id) {
                let i = choose|i: int| 0 <= i < ids.len() && ids[i] == id;
                assert(nodes[i].id == id);
            }
        }
    }
    vstd::seq_lib::seq_to_set_is_finite(ids);
}

/// Where nodes are left and none of them is ready, each of them waits for
/// another of them, and so some node waits for itself.
pub(crate) proof fn lemma_sort_stuck<T>(
    nodes: Seq<BidirectionalJob<T>>,
    working: Seq<BidirectionalJob<T>>,
    done: Seq<int>,
    left: Seq<int>,
)
    requires
        has_distinct_ids(nodes),
        is_closed(nodes),
        is_sort_state(nodes, working, done, left),
        working.len() > 0,
        forall|i: int| 0 <= i < working.len() ==> !(#[trigger] working[i]).is_ready(),
    ensures
        has_cycle(node_prerequisites(nodes)),
{
    let pre = node_prerequisites(nodes);
    let blocked = Set::new(
        |id: usize| exists|m: int| 0 <= m < left.len() && nodes[#[trigger] left[m]].id == id,
    );
    lemma_node_ids_are_finite(nodes);
    assert(blocked.contains(nodes[left[0]].id));
    assert forall|b: usize| #[trigger] blocked.contains(b) implies pre.contains_key(b) && exists|
        a: usize,
    |
        blocked.contains(a) && pre[b].contains(a) by {
        let m = choose|m: int| 0 <= m < left.len() && nodes[#[trigger] left[m]].id == b;
        let origin = nodes[left[m]];
        assert(names_node(nodes, b));
        assert(is_pending(nodes, done, origin, working[m]));
        // What the node still waits for is a node that is not emitted.
        let a = working[m].prevs@[0];
        assert(working[m].prevs@.contains(a));
        assert(origin.prevs@.contains(a) && !is_emitted(nodes, done, a));
        assert(waits_for(nodes, b, a));
        assert(names_node(nodes, a));
        let j = choose|j: int| 0 <= j < nodes.len() && (#[trigger] nodes[j]).id == a;
        if done.contains(j) {
            let k = choose|k: int| 0 <= k < done.len() && done[k] == j;
            assert(nodes[done[k]].id == a);
        }
        assert(left.contains(j));
        let m2 = choose|m2: int| 0 <= m2 < left.len() && left[m2] == j;
        assert(nodes[left[m2]].id == a);
        assert(blocked.contains(a) && pre[b].contains(a));
    }
    lemma_blocked_jobs_have_cycle(pre, blocked);
}

/// Nodes made one for each entry of a walk through the plan are a graph of
/// the plan, and spell out its prerequisites.
pub(crate) proof fn lemma_nodes_are_graph<'a>(
    jobs: Map<usize, JobNode>,
    entries: Seq<(&'a usize, &'a JobNode)>,
    nodes: Seq<BidirectionalJob<JobNode>>,
)
    requires
        entries.no_duplicates(),
        forall|i: int|
            0 <= i < entries.len() ==> jobs.contains_key(*(#[trigger] entries[i]).0)
                && jobs[*entries[i].0] == *entries[i].1,
        forall|id: usize| #[trigger] jobs.contains_key(id) ==> entries.contains((&id, &jobs[id])),
        nodes.len() == entries.len(),
        forall|i: int|
            0 <= i < nodes.len() ==> is_node_of(jobs, *entries[i].0, #[trigger] nodes[i]),
    ensures
        is_graph_of(nodes, jobs),
        is_closed(nodes),
        node_prerequisites(nodes) == prerequisites(jobs),
{
    assert forall|i: int, j: int|
        0 <= i < nodes.len() && 0 <= j < nodes.len() && i != j implies (#[trigger] nodes[i]).id
        != (#[trigger] nodes[j]).id by {
        if nodes[i].id == nodes[j].id {
            assert(entries[i] == entries[j]);
        }
    }
    assert forall|id: usize| jobs.contains_key(id) implies names_node(nodes, id) by {
        let i = choose|i: int| 0 <= i < entries.len() && entries[i] == (&id, &jobs[id]);
        assert(nodes[i].id == id);
    }
    assert forall|i: int| 0 <= i < nodes.len() implies is_node_of(
        jobs,
        nodes[i].id,
        #[trigger] nodes[i],
    ) by {
        assert(is_node_of(jobs, *entries[i].0, nodes[i]));
    }
    assert forall|i: int, a: usize|
        0 <= i < nodes.len() && #[trigger] nodes[i].prevs@.contains(a) implies names_node(
        nodes,
        a,
    ) by {
        assert(jobs.contains_key(a));
    }
    let from_nodes = node_prerequisites(nodes);
    let from_jobs = prerequisites(jobs);
    assert forall|b: usize| from_nodes.contains_key(b) <==> from_jobs.contains_key(b) by {
        if names_node(nodes, b) {
            let i = choose|i: int| 0 <= i < nodes.len() && (#[trigger] nodes[i]).id == b;
            assert(is_node_of(jobs, nodes[i].id, nodes[i]));
        }
    }
    assert forall|b: usize| from_jobs.contains_key(b) implies from_nodes[b] =~= from_jobs[b] by {
        assert(names_node(nodes, b));
        let i = choose|i: int| 0 <= i < nodes.len() && (#[trigger] nodes[i]).id == b;
        assert(is_node_of(jobs, b, nodes[i]));
        assert forall|a: usize|
            waits_for(nodes, b, a) <==> (jobs.contains_key(a) && jobs[a].dependents().contains(
                b,
            )) by {
            if waits_for(nodes, b, a) {
                let m = choose|m: int|
                    0 <= m < nodes.len() && (#[trigger] nodes[m]).id == b
                        && nodes[m].prevs@.contains(a);
                assert(m == i);
            }
            if jobs.contains_key(a) && jobs[a].dependents().contains(b) {
                assert(nodes[i].prevs@.contains(a));
            }
        }
    }
    assert(from_nodes =~= from_jobs);
}

/// The sort of a graph of the plan is an outcome for the plan.
pub(crate) proof fn lemma_graph_sort_is_plan_outcome(
    jobs: Map<usize, JobNode>,
    nodes: Seq<BidirectionalJob<JobNode>>,
    outcome: Result<Vec<Job>, &'static str>,
)
    requires
        is_graph_of(nodes, jobs),
        nodes.len() == jobs.len(),
        node_prerequisites(nodes) == prerequisites(jobs),
        is_sort_of(nodes, outcome),
    ensures
        is_plan_outcome(jobs, outcome),
{
    if let Ok(sorted) = outcome {
        let picks = choose|picks: Seq<int>|
            {
                &&& is_greedy_order(nodes, picks)
                &&& #[trigger] emits(nodes, picks, sorted@)
                &&& is_execution_order(node_prerequisites(nodes), ids_at(nodes, picks))
            };
        let order = ids_at(nodes, picks);
        assert forall|k: int| 0 <= k < order.len() implies (#[trigger] sorted@[k])@
            == jobs[order[k]].entry() by {
            let node = nodes[picks[k]];
            assert(is_node_of(jobs, node.id, node));
        }
        assert(lists_jobs(jobs, order, outcome->Ok_0@));
    }
}

} // verus!
