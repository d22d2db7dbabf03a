//! The dependency graph of a plan and its topological sort.
//!
//! A plan says of each job which jobs depend on it. The graph turns that
//! round: each node knows the jobs it waits for. The sort emits, again and
//! again, the first node that waits for nothing any more, and strikes it from
//! what the others wait for.

use crate::precedence::{
    has_cycle, is_execution_order, lemma_empty_plan_has_no_cycle,
    lemma_independent_jobs_have_no_cycle, prerequisites,
};
use crate::schema::JobNode;
use crate::sort_proof::{
    is_sort_state, lemma_graph_sort_is_plan_outcome, lemma_nodes_are_graph, lemma_sort_finished,
    lemma_sort_start, lemma_sort_step, lemma_sort_stuck,
};
use crate::types::Job;
use std::collections::HashMap;
use vstd::prelude::*;
use vstd::std_specs::iter::IteratorSpec;

verus! {

/// A job of the graph: its id, the ids it still waits for, and the job itself.
#[derive(Clone, Debug)]
pub struct BidirectionalJob<T> {
    pub id: usize,
    pub prevs: Vec<usize>,
    pub value: T,
}

/// The predicate that holds of every id but `id`.
pub open spec fn other_than(id: usize) -> spec_fn(usize) -> bool {
    |prev: usize| prev != id
}

impl<T> BidirectionalJob<T> {
    /// Nothing is left for this node to wait for.
    pub open spec fn is_ready(self) -> bool {
        self.prevs@.len() == 0
    }

    /// This node is `before`, except that it no longer waits for `id`.
    pub open spec fn is_released_from(self, before: Self, id: usize) -> bool {
        &&& self.id == before.id
        &&& self.value == before.value
        &&& self.prevs@ == before.prevs@.filter(other_than(id))
    }
}

/// Position `i` holds the first node of `nodes` that is ready.
pub open spec fn is_first_ready<T>(nodes: Seq<BidirectionalJob<T>>, i: int) -> bool {
    &&& 0 <= i < nodes.len()
    &&& nodes[i].is_ready()
    &&& forall|j: int| 0 <= j < i ==> !(#[trigger] nodes[j]).is_ready()
}

/// No two nodes share an id.
pub open spec fn has_distinct_ids<T>(nodes: Seq<BidirectionalJob<T>>) -> bool {
    forall|i: int, j: int|
        0 <= i < nodes.len() && 0 <= j < nodes.len() && i != j ==> (#[trigger] nodes[i]).id != (
        #[trigger] nodes[j]).id
}

/// Some node carries `id`.
pub open spec fn names_node<T>(nodes: Seq<BidirectionalJob<T>>, id: usize) -> bool {
    exists|i: int| 0 <= i < nodes.len() && (#[trigger] nodes[i]).id == id
}

/// The node with id `b` waits for `a`.
pub open spec fn waits_for<T>(nodes: Seq<BidirectionalJob<T>>, b: usize, a: usize) -> bool {
    exists|i: int|
        0 <= i < nodes.len() && (#[trigger] nodes[i]).id == b && nodes[i].prevs@.contains(a)
}

/// Whatever a node waits for is the id of a node.
pub open spec fn is_closed<T>(nodes: Seq<BidirectionalJob<T>>) -> bool {
    forall|i: int, a: usize|
        0 <= i < nodes.len() && #[trigger] nodes[i].prevs@.contains(a) ==> names_node(nodes, a)
}

/// The precedence relation that the nodes spell out: each id with the ids
/// that its node waits for.
pub open spec fn node_prerequisites<T>(nodes: Seq<BidirectionalJob<T>>) -> Map<usize, Set<usize>> {
    Map::new(
        |b: usize| names_node(nodes, b),
        |b: usize| Set::new(|a: usize| waits_for(nodes, b, a)),
    )
}

/// `id` belongs to one of the nodes at the positions `emitted`.
pub open spec fn is_emitted<T>(
    nodes: Seq<BidirectionalJob<T>>,
    emitted: Seq<int>,
    id: usize,
) -> bool {
    exists|k: int| 0 <= k < emitted.len() && nodes[#[trigger] emitted[k]].id == id
}

/// Everything that the node at position `j` waits for has been emitted.
pub open spec fn is_released<T>(
    nodes: Seq<BidirectionalJob<T>>,
    emitted: Seq<int>,
    j: int,
) -> bool {
    forall|a: usize| #[trigger] nodes[j].prevs@.contains(a) ==> is_emitted(nodes, emitted, a)
}

/// The `k`-th position of `order` is the choice that the sort makes after the
/// first `k`: the earliest node, among those not yet emitted, that waits for
/// nothing any more.
pub open spec fn is_pick<T>(nodes: Seq<BidirectionalJob<T>>, order: Seq<int>, k: int) -> bool {
    &&& is_released(nodes, order.take(k), order[k])
    &&& forall|j: int|
        0 <= j < order[k] && !order.take(k).contains(j) ==> !#[trigger] is_released(
            nodes,
            order.take(k),
            j,
        )
}

/// `order` is a run of picks, each a position of `nodes`, none twice.
pub open spec fn is_greedy_prefix<T>(nodes: Seq<BidirectionalJob<T>>, order: Seq<int>) -> bool {
    &&& order.no_duplicates()
    &&& forall|k: int| 0 <= k < order.len() ==> 0 <= #[trigger] order[k] < nodes.len()
    &&& forall|k: int| 0 <= k < order.len() ==> #[trigger] is_pick(nodes, order, k)
}

/// `order` is the run of picks that emits every node.
pub open spec fn is_greedy_order<T>(nodes: Seq<BidirectionalJob<T>>, order: Seq<int>) -> bool {
    &&& is_greedy_prefix(nodes, order)
    &&& order.len() == nodes.len()
    &&& forall|j: int| 0 <= j < nodes.len() ==> #[trigger] order.contains(j)
}

/// The ids of the nodes at the positions `order`.
pub open spec fn ids_at<T>(nodes: Seq<BidirectionalJob<T>>, order: Seq<int>) -> Seq<usize> {
    Seq::new(order.len(), |k: int| nodes[order[k]].id)
}

/// `sorted` holds, for each position of `order` in turn, the duration and the
/// description of the node there.
pub open spec fn emits(
    nodes: Seq<BidirectionalJob<JobNode>>,
    order: Seq<int>,
    sorted: Seq<Job>,
) -> bool {
    &&& sorted.len() == order.len()
    &&& forall|k: int|
        0 <= k < order.len() ==> (#[trigger] sorted[k])@ == nodes[order[k]].value.entry()
}

/// What a failed sort says.
pub open spec fn cycle_message() -> Seq<char> {
    "Graph contains cycles."@
}

/// What the sort of `nodes` comes to. Where no node waits for itself,
/// directly or through others: the durations and descriptions along the run
/// of picks that emits every node, which lists the ids in an execution
/// order. Where one does: the failure.
pub open spec fn is_sort_of(
    nodes: Seq<BidirectionalJob<JobNode>>,
    outcome: Result<Vec<Job>, &'static str>,
) -> bool {
    match outcome {
        Ok(sorted) => {
            &&& !has_cycle(node_prerequisites(nodes))
            &&& exists|order: Seq<int>|
                {
                    &&& is_greedy_order(nodes, order)
                    &&& #[trigger] emits(nodes, order, sorted@)
                    &&& is_execution_order(node_prerequisites(nodes), ids_at(nodes, order))
                }
        },
        Err(message) => {
            &&& has_cycle(node_prerequisites(nodes))
            &&& message@ == cycle_message()
        },
    }
}

/// `node` stands for the job `id` of the plan: it carries a copy of the job
/// and waits, once each, for the jobs that list `id` as a dependent.
pub open spec fn is_node_of(
    jobs: Map<usize, JobNode>,
    id: usize,
    node: BidirectionalJob<JobNode>,
) -> bool {
    &&& jobs.contains_key(id)
    &&& node.id == id
    &&& node.value@ == jobs[id]@
    &&& node.prevs@.no_duplicates()
    &&& forall|a: usize| #[trigger]
        node.prevs@.contains(a) <==> jobs.contains_key(a) && jobs[a].dependents().contains(id)
}

/// `nodes` is a graph of the plan: exactly one node for each job.
pub open spec fn is_graph_of(
    nodes: Seq<BidirectionalJob<JobNode>>,
    jobs: Map<usize, JobNode>,
) -> bool {
    &&& has_distinct_ids(nodes)
    &&& forall|id: usize| jobs.contains_key(id) ==> names_node(nodes, id)
    &&& forall|i: int| 0 <= i < nodes.len() ==> is_node_of(jobs, nodes[i].id, #[trigger] nodes[i])
}

/// `sorted` holds, for each id of `order` in turn, the duration and the
/// description of the job with that id.
pub open spec fn lists_jobs(jobs: Map<usize, JobNode>, order: Seq<usize>, sorted: Seq<Job>) -> bool {
    &&& sorted.len() == order.len()
    &&& forall|k: int| 0 <= k < order.len() ==> (#[trigger] sorted[k])@ == jobs[order[k]].entry()
}

/// What sorting the plan `jobs` comes to. Where no job waits for itself,
/// directly or through others: one entry for each job, along an execution
/// order of the plan. Where one does: the failure, and no entry at all.
pub open spec fn is_plan_outcome(
    jobs: Map<usize, JobNode>,
    outcome: Result<Vec<Job>, &'static str>,
) -> bool {
    match outcome {
        Ok(sorted) => {
            &&& !has_cycle(prerequisites(jobs))
            &&& sorted@.len() == jobs.len()
            &&& exists|order: Seq<usize>|
                is_execution_order(prerequisites(jobs), order) && #[trigger] lists_jobs(
                    jobs,
                    order,
                    sorted@,
                )
        },
        Err(message) => {
            &&& has_cycle(prerequisites(jobs))
            &&& message@ == cycle_message()
        },
    }
}

/// The graph of a plan: one node for each job, each with the ids of the jobs
/// that have to finish before it.
#[derive(Debug)]
pub struct BidirectionalGraph {
    data: Vec<BidirectionalJob<JobNode>>,
}

impl View for BidirectionalGraph {
    type V = Seq<BidirectionalJob<JobNode>>;

    closed spec fn view(&self) -> Seq<BidirectionalJob<JobNode>> {
        self.data@
    }
}

impl BidirectionalGraph {
    /// No two nodes share an id, and a node waits only for nodes of the graph.
    #[verifier::type_invariant]
    spec fn well_formed(self) -> bool {
        &&& has_distinct_ids(self.data@)
        &&& is_closed(self.data@)
    }

    /// The precedence relation of the graph.
    pub open spec fn prerequisites(self) -> Map<usize, Set<usize>> {
        node_prerequisites(self@)
    }

    /// The graph without nodes.
    pub fn new() -> (graph: Self)
        ensures
            graph@.len() == 0,
    {
        Self { data: Vec::new() }
    }

    /// The graph of `data`: a node for each job, which waits for the jobs
    /// that list it as a dependent, the job itself among them if it does. A
    /// listed id that names no job makes no node wait. In which order the
    /// nodes stand is left open, and so is the order of what a node waits for.
    pub fn from_hashmap(data: HashMap<usize, JobNode>) -> (graph: Self)
        ensures
            is_graph_of(graph@, data@),
            graph@.len() == data@.len(),
            graph.prerequisites() == prerequisites(data@),
    {
        broadcast use vstd::std_specs::hash::group_hash_axioms;

        let ghost entries = data.iter().remaining();
        let mut nodes: Vec<BidirectionalJob<JobNode>> = Vec::new();
        for (idx, job) in outer: data.iter()
            invariant
                outer.seq() == entries,
                entries == data.iter().remaining(),
                entries.no_duplicates(),
                nodes@.len() == outer.index(),
                forall|i: int|
                    0 <= i < nodes@.len() ==> is_node_of(
                        data@,
                        *entries[i].0,
                        #[trigger] nodes@[i],
                    ),
        {
            let mut prevs: Vec<usize> = Vec::new();

            for (job_idx, job_entry) in inner: data.iter()
                invariant
                    inner.seq() == entries,
                    entries == data.iter().remaining(),
                    entries.no_duplicates(),
                    prevs@.no_duplicates(),
                    forall|a: usize| #[trigger]
                        prevs@.contains(a) <==> exists|m: int|
                            0 <= m < inner.index() && *(#[trigger] entries[m]).0 == a
                                && entries[m].1.dependents().contains(*idx),
            {
                let ghost at = inner.index();
                let ghost waiting = prevs@;
                if job_entry.has_dependent(*idx) {
                    prevs.push(*job_idx);
                }
                proof {
                    assert(entries[at] == (job_idx, job_entry));
                    // A key comes by only once, so it is not among `waiting`.
                    if waiting.contains(*job_idx) {
                        let m = choose|m: int|
                            0 <= m < at && *(#[trigger] entries[m]).0 == *job_idx
                                && entries[m].1.dependents().contains(*idx);
                        assert(data@[*entries[m].0] == *entries[m].1);
                        assert(data@[*entries[at].0] == *entries[at].1);
                        assert(entries[m] == entries[at]);
                    }
                    assert forall|a: usize| #[trigger]
                        prevs@.contains(a) <==> exists|m: int|
                            0 <= m < at + 1 && *(#[trigger] entries[m]).0 == a
                                && entries[m].1.dependents().contains(*idx) by {
                        if prevs@.contains(a) {
                            let k = choose|k: int| 0 <= k < prevs@.len() && prevs@[k] == a;
                            if k < waiting.len() {
                                assert(waiting[k] == a);
                                assert(waiting.contains(a));
                            } else {
                                assert(*entries[at].0 == a);
                            }
                        }
                        if exists|m: int|
                            0 <= m < at + 1 && *(#[trigger] entries[m]).0 == a
                                && entries[m].1.dependents().contains(*idx) {
                            let m = choose|m: int|
                                0 <= m < at + 1 && *(#[trigger] entries[m]).0 == a
                                    && entries[m].1.dependents().contains(*idx);
                            if m < at {
                                assert(waiting.contains(a));
                                let k = choose|k: int| 0 <= k < waiting.len() && waiting[k] == a;
                                assert(prevs@[k] == a);
                            } else {
                                assert(prevs@[waiting.len() as int] == a);
                            }
                        }
                    }
                }
            }

            nodes.push(BidirectionalJob { id: *idx, prevs, value: job.clone() });
        }
        proof {
            lemma_nodes_are_graph(data@, entries, nodes@);
        }
        Self { data: nodes }
    }

    /// Emits the nodes one by one, each time the first of the working set
    /// that waits for nothing any more, until none is left. Fails where
    /// nodes are left and none of them is ready, which is the case exactly
    /// where some node waits for itself, directly or through others.
    pub fn topological_sort(self) -> (outcome: Result<Vec<Job>, &'static str>)
        ensures
            is_sort_of(self@, outcome),
    {
        proof {
            use_type_invariant(&self);
        }
        let ghost nodes = self.data@;
        let ghost mut done: Seq<int> = Seq::empty();
        let ghost mut left: Seq<int> = Seq::new(nodes.len(), |i: int| i);
        let mut result: Vec<Job> = Vec::new();
        let mut data = self.data;
        proof {
            lemma_sort_start(nodes);
        }

        loop
            invariant
                nodes == self@,
                has_distinct_ids(nodes),
                is_closed(nodes),
                is_sort_state(nodes, data@, done, left),
                emits(nodes, done, result@),
            decreases data@.len(),
        {
            let ghost before = data@;
            let (no_prevs, rest) = Self::first_node_with_no_prevs(data);
            match no_prevs {
                Some(some_prev) => {
                    proof {
                        let i = choose|i: int|
                            {
                                &&& is_first_ready(before, i)
                                &&& some_prev == before[i]
                                &&& rest@.len() == before.len() - 1
                                &&& forall|j: int|
                                    0 <= j < rest@.len() ==> (
                                    #[trigger] rest@[j]).is_released_from(
                                        before.remove(i)[j],
                                        some_prev.id,
                                    )
                            };
                        lemma_sort_step(nodes, before, rest@, done, left, i);
                        done = done.push(left[i]);
                        left = left.remove(i);
                    }
                    data = rest;
                    result.push(
                        Job {
                            duration: some_prev.value.duration,
                            description: some_prev.value.description,
                        },
                    );
                },
                None => {
                    if rest.len() == 0 {
                        proof {
                            lemma_sort_finished(nodes, done, left, result);
                        }
                        return Ok(result);
                    } else {
                        proof {
                            lemma_sort_stuck(nodes, before, done, left);
                        }
                        return Err("Graph contains cycles.");
                    }
                },
            }
        }
    }

    /// Takes the first ready node out of `nodes` and strikes its id from what
    /// the others wait for. Where no node is ready, `nodes` comes back as it
    /// was.
    pub fn first_node_with_no_prevs<T>(nodes: Vec<BidirectionalJob<T>>) -> (split: (
        Option<BidirectionalJob<T>>,
        Vec<BidirectionalJob<T>>,
    ))
        ensures
            match split.0 {
                Some(first) => exists|i: int|
                    {
                        &&& is_first_ready(nodes@, i)
                        &&& first == nodes@[i]
                        &&& split.1@.len() == nodes@.len() - 1
                        &&& forall|j: int|
                            0 <= j < split.1@.len() ==> (#[trigger] split.1@[j]).is_released_from(
                                nodes@.remove(i)[j],
                                first.id,
                            )
                    },
                None => {
                    &&& split.1@ == nodes@
                    &&& forall|i: int| 0 <= i < nodes@.len() ==> !(#[trigger] nodes@[i]).is_ready()
                },
            },
    {
        let mut first_no_prev: Option<BidirectionalJob<T>> = None;
        let mut rest: Vec<BidirectionalJob<T>> = Vec::new();
        let ghost mut at: int = 0;

        for job in it: nodes.into_iter()
            invariant
                it.seq() == nodes@,
                match first_no_prev {
                    Some(first) => {
                        &&& at < it.index()
                        &&& is_first_ready(nodes@, at)
                        &&& first == nodes@[at]
                        &&& rest@ == nodes@.take(it.index()).remove(at)
                    },
                    None => {
                        &&& rest@ == nodes@.take(it.index())
                        &&& forall|i: int|
                            0 <= i < it.index() ==> !(#[trigger] nodes@[i]).is_ready()
                    },
                },
        {
            let ghost seen = it.index();
            if job.prevs.is_empty() && first_no_prev.is_none() {
                proof {
                    at = seen;
                    assert(nodes@.take(seen + 1).remove(at) =~= nodes@.take(seen));
                }
                first_no_prev = Some(job);
            } else {
                proof {
                    if first_no_prev is Some {
                        assert(nodes@.take(seen + 1).remove(at) =~= nodes@.take(seen).remove(
                            at,
                        ).push(job));
                    } else {
                        assert(nodes@.take(seen + 1) =~= nodes@.take(seen).push(job));
                    }
                }
                rest.push(job);
            }
        }
        assert(nodes@.take(nodes@.len() as int) =~= nodes@);

        if let Some(ref p) = first_no_prev {
            let ghost before = rest@;
            let mut k: usize = 0;
            while k < rest.len()
                invariant
                    k <= rest@.len(),
                    rest@.len() == before.len(),
                    forall|j: int|
                        0 <= j < k ==> (#[trigger] rest@[j]).is_released_from(before[j], p.id),
                    forall|j: int| k <= j < rest@.len() ==> rest@[j] == before[j],
                decreases rest@.len() - k,
            {
                let new_prevs = without(&rest[k].prevs, p.id);
                rest[k].prevs = new_prevs;
                k += 1;
            }
        }
        (first_no_prev, rest)
    }
}

impl Default for BidirectionalGraph {
    /// The graph without nodes.
    fn default() -> (graph: Self)
        ensures
            graph@.len() == 0,
    {
        Self::new()
    }
}

/// `prevs` without any occurrence of `id`, the rest in its order.
fn without(prevs: &Vec<usize>, id: usize) -> (kept: Vec<usize>)
    ensures
        kept@ == prevs@.filter(other_than(id)),
{
    let mut kept: Vec<usize> = Vec::new();
    let mut i: usize = 0;
    proof {
        reveal(Seq::filter);
        assert(prevs@.take(0) =~= Seq::<usize>::empty());
    }
    while i < prevs.len()
        invariant
            i <= prevs@.len(),
            kept@ == prevs@.take(i as int).filter(other_than(id)),
        decreases prevs@.len() - i,
    {
        proof {
            reveal(Seq::filter);
            assert(prevs@.take(i + 1).drop_last() =~= prevs@.take(i as int));
        }
        if prevs[i] != id {
            kept.push(prevs[i]);
        }
        i += 1;
    }
    assert(prevs@.take(i as int) =~= prevs@);
    kept
}

/// Puts the jobs of a plan in an order in which each job comes after all the
/// jobs that list it as a dependent, and gives for each its duration and
/// description. Fails, with no entry at all, exactly where some job waits
/// for itself, directly or through others.
///
/// Among the jobs that could come next, the sort takes the one that stands
/// first in the graph that it builds of the plan. How the nodes of that graph
/// stand is not fixed, so two runs on one plan may give two orders.
pub fn topological_sort_jobs(data: HashMap<usize, JobNode>) -> (outcome: Result<
    Vec<Job>,
    &'static str,
>)
    ensures
        is_plan_outcome(data@, outcome),
        outcome is Err <==> has_cycle(prerequisites(data@)),
        exists|nodes: Seq<BidirectionalJob<JobNode>>|
            is_graph_of(nodes, data@) && #[trigger] is_sort_of(nodes, outcome),
        data@.len() == 0 ==> (outcome matches Ok(sorted) && sorted@.len() == 0),
        (forall|id: usize|
            data@.contains_key(id) ==> (#[trigger] data@[id]).dependents().len() == 0)
            ==> outcome is Ok,
{
    let graph = BidirectionalGraph::from_hashmap(data);
    let ghost nodes = graph@;
    let outcome = graph.topological_sort();
    proof {
        lemma_graph_sort_is_plan_outcome(data@, nodes, outcome);
        if data@.len() == 0 {
            lemma_empty_plan_has_no_cycle(data@);
        }
        if forall|id: usize|
            data@.contains_key(id) ==> (#[trigger] data@[id]).dependents().len() == 0 {
            lemma_independent_jobs_have_no_cycle(data@);
        }
    }
    outcome
}

/// The run of picks that emits every node lists the ids in an execution
/// order of the relation that the nodes spell out.
pub proof fn lemma_greedy_order_is_execution_order<T>(
    nodes: Seq<BidirectionalJob<T>>,
    order: Seq<int>,
)
    requires
        has_distinct_ids(nodes),
        is_greedy_order(nodes, order),
    ensures
        is_execution_order(node_prerequisites(nodes), ids_at(nodes, order)),
{
    let pre = node_prerequisites(nodes);
    let ids = ids_at(nodes, order);
    assert forall|id: usize| ids.contains(id) <==> pre.contains_key(id) by {
        if ids.contains(id) {
            let k = choose|k: int| 0 <= k < ids.len() && ids[k] == id;
            assert(nodes[order[k]].id == id);
        }
        if pre.contains_key(id) {
            let i = choose|i: int| 0 <= i < nodes.len() && (#[trigger] nodes[i]).id == id;
            assert(order.contains(i));
            let k = choose|k: int| 0 <= k < order.len() && order[k] == i;
            assert(ids[k] == id);
        }
    }
    assert forall|i: int, j: int|
        0 <= i < ids.len() && 0 <= j < ids.len() && pre[#[trigger] ids[i]].contains(
            #[trigger] ids[j],
        ) implies j < i by {
        assert(names_node(nodes, ids[i])) by {
            assert(nodes[order[i]].id == ids[i]);
        }
        assert(waits_for(nodes, ids[i], ids[j]));
        let m = choose|m: int|
            0 <= m < nodes.len() && (#[trigger] nodes[m]).id == ids[i]
                && nodes[m].prevs@.contains(ids[j]);
        assert(m == order[i]);
        // The node at `order[i]` was picked when all it waits for was emitted.
        assert(is_pick(nodes, order, i));
        assert(is_emitted(nodes, order.take(i), ids[j]));
        let k = choose|k: int|
            0 <= k < order.take(i).len() && nodes[#[trigger] order.take(i)[k]].id == ids[j];
        assert(order[k] == order[j]);
    }
}

/// Two runs of picks over the same nodes agree as far as both go.
proof fn lemma_greedy_prefixes_agree<T>(
    nodes: Seq<BidirectionalJob<T>>,
    first: Seq<int>,
    second: Seq<int>,
    k: nat,
)
    requires
        is_greedy_prefix(nodes, first),
        is_greedy_prefix(nodes, second),
        k <= first.len(),
        k <= second.len(),
    ensures
        first.take(k as int) == second.take(k as int),
    decreases k,
{
    if k > 0 {
        lemma_greedy_prefixes_agree(nodes, first, second, (k - 1) as nat);
        let emitted = first.take(k - 1);
        let a = first[k - 1];
        let b = second[k - 1];
        assert(is_pick(nodes, first, k - 1));
        assert(is_pick(nodes, second, k - 1));
        // Neither pick is among the nodes emitted before it.
        if emitted.contains(a) {
            let m = choose|m: int| 0 <= m < emitted.len() && emitted[m] == a;
            assert(first[m] == first[k - 1]);
        }
        if emitted.contains(b) {
            let m = choose|m: int| 0 <= m < emitted.len() && emitted[m] == b;
            assert(second[m] == second[k - 1]);
        }
        // Each is the earliest that is ready, so neither stands before the other.
        if a < b {
            assert(!is_released(nodes, second.take(k - 1), a));
        }
        if b < a {
            assert(!is_released(nodes, first.take(k - 1), b));
        }
        assert(first.take(k as int) =~= first.take(k - 1).push(a));
        assert(second.take(k as int) =~= second.take(k - 1).push(b));
    }
}

/// The nodes and their order decide the run of picks: the sort has no choice.
pub proof fn lemma_greedy_order_is_unique<T>(
    nodes: Seq<BidirectionalJob<T>>,
    first: Seq<int>,
    second: Seq<int>,
)
    requires
        is_greedy_order(nodes, first),
        is_greedy_order(nodes, second),
    ensures
        first == second,
{
    lemma_greedy_prefixes_agree(nodes, first, second, nodes.len());
    assert(first.take(nodes.len() as int) =~= first);
    assert(second.take(nodes.len() as int) =~= second);
}

/// The nodes and their order decide what the sort comes to: whether it
/// fails, and otherwise each entry.
pub proof fn lemma_sort_is_determined(
    nodes: Seq<BidirectionalJob<JobNode>>,
    first: Result<Vec<Job>, &'static str>,
    second: Result<Vec<Job>, &'static str>,
)
    requires
        is_sort_of(nodes, first),
        is_sort_of(nodes, second),
    ensures
        first is Ok <==> second is Ok,
        first matches Ok(a) ==> (second matches Ok(b) && a@.len() == b@.len() && forall|k: int|
            0 <= k < a@.len() ==> (#[trigger] a@[k])@ == b@[k]@),
        first matches Err(a) ==> (second matches Err(b) && a@ == b@),
{
    if let Ok(a) = first {
        let b = second->Ok_0;
        let picks_a = choose|order: Seq<int>|
            {
                &&& is_greedy_order(nodes, order)
                &&& #[trigger] emits(nodes, order, a@)
                &&& is_execution_order(node_prerequisites(nodes), ids_at(nodes, order))
            };
        let picks_b = choose|order: Seq<int>|
            {
                &&& is_greedy_order(nodes, order)
                &&& #[trigger] emits(nodes, order, b@)
                &&& is_execution_order(node_prerequisites(nodes), ids_at(nodes, order))
            };
        lemma_greedy_order_is_unique(nodes, picks_a, picks_b);
    }
}

/// However often a plan is sorted, and in whatever order each run finds its
/// jobs, the runs agree on whether the plan can be ordered and on how many
/// entries come out, and each run that succeeds lists the jobs along an
/// execution order of the plan, though not each along the same one.
pub proof fn lemma_repeated_sorts_agree(
    jobs: Map<usize, JobNode>,
    first: Result<Vec<Job>, &'static str>,
    second: Result<Vec<Job>, &'static str>,
)
    requires
        is_plan_outcome(jobs, first),
        is_plan_outcome(jobs, second),
    ensures
        first is Ok <==> second is Ok,
        first matches Ok(a) ==> (second matches Ok(b) && a@.len() == b@.len()),
        first matches Err(a) ==> (second matches Err(b) && a@ == b@),
        first matches Ok(a) ==> exists|order: Seq<usize>|
            is_execution_order(prerequisites(jobs), order) && #[trigger] lists_jobs(
                jobs,
                order,
                a@,
            ),
        second matches Ok(b) ==> exists|order: Seq<usize>|
            is_execution_order(prerequisites(jobs), order) && #[trigger] lists_jobs(
                jobs,
                order,
                b@,
            ),
{
}

} // verus!
