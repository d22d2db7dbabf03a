//! An arena of values with forward and backward adjacency kept as index lists.
//!
//! The container stores what it is given. It never adds, removes or checks an
//! edge on its own: whoever fills `next` and `prevs` keeps them consistent.

use vstd::prelude::*;
use vstd::std_specs::cmp::PartialEqSpec;
use vstd::std_specs::iter::IteratorSpec;

verus! {

/// One element of the arena: a value, the indices of its successors and the
/// indices of its predecessors.
pub struct DirectedNode<T> {
    pub value: T,
    pub next: Vec<usize>,
    pub prevs: Vec<usize>,
}

impl<T> DirectedNode<T> {
    /// A node that carries `value` and has no edge in either direction.
    pub open spec fn is_unlinked(self, value: T) -> bool {
        &&& self.value == value
        &&& self.next@ == Seq::<usize>::empty()
        &&& self.prevs@ == Seq::<usize>::empty()
    }

    /// A source node: nothing points at it.
    pub open spec fn is_source(self) -> bool {
        self.prevs@.len() == 0
    }

    /// A node for `value`, without edges.
    pub fn new(value: T) -> (node: Self)
        ensures
            node.is_unlinked(value),
    {
        Self { value, next: Vec::new(), prevs: Vec::new() }
    }
}

/// The predicate that picks the source nodes out of a sequence of nodes.
pub open spec fn source_nodes<T>() -> spec_fn(DirectedNode<T>) -> bool {
    |node: DirectedNode<T>| node.is_source()
}

/// The arena. A node's index is the position at which it was inserted.
pub struct DirectedGraph<T> {
    data: Vec<DirectedNode<T>>,
}

impl<T> View for DirectedGraph<T> {
    type V = Seq<DirectedNode<T>>;

    closed spec fn view(&self) -> Seq<DirectedNode<T>> {
        self.data@
    }
}

impl<T> DirectedGraph<T> {
    /// The position of the first node whose value equals `item`, if there is one.
    pub open spec fn first_match(self, item: T, i: int) -> bool where T: PartialEq {
        &&& 0 <= i < self@.len()
        &&& self@[i].value.eq_spec(&item)
        &&& forall|j: int| 0 <= j < i ==> !(#[trigger] self@[j]).value.eq_spec(&item)
    }

    /// Wraps each value, in order, into a node without edges.
    pub fn new(data: Vec<T>) -> (graph: Self)
        ensures
            graph@.len() == data@.len(),
            forall|i: int| 0 <= i < data@.len() ==> (#[trigger] graph@[i]).is_unlinked(data@[i]),
    {
        let mut packed_data: Vec<DirectedNode<T>> = Vec::new();
        for item in it: data.into_iter()
            invariant
                it.seq() == data@,
                packed_data@.len() == it.index(),
                forall|i: int|
                    0 <= i < it.index() ==> (#[trigger] packed_data@[i]).is_unlinked(data@[i]),
        {
            packed_data.push(DirectedNode::new(item));
        }
        Self { data: packed_data }
    }

    /// Appends `item` as a node without edges.
    pub fn add(&mut self, item: T)
        ensures
            final(self)@.len() == old(self)@.len() + 1,
            final(self)@.drop_last() == old(self)@,
            final(self)@.last().is_unlinked(item),
    {
        self.data.push(DirectedNode::new(item));
    }

    /// Appends `node` as it is, edges included.
    pub fn add_node(&mut self, node: DirectedNode<T>)
        ensures
            final(self)@ == old(self)@.push(node),
    {
        self.data.push(node);
    }

    /// The first node, in insertion order, whose value equals `item`.
    pub fn get(&self, item: T) -> (found: Option<&DirectedNode<T>>) where T: PartialEq
        ensures
            found matches Some(node) ==> self@.contains(*node),
            T::obeys_eq_spec() ==> match found {
                Some(node) => exists|i: int| self.first_match(item, i) && *node == self@[i],
                None => forall|i: int|
                    0 <= i < self@.len() ==> !(#[trigger] self@[i]).value.eq_spec(&item),
            },
    {
        let mut i: usize = 0;
        while i < self.data.len()
            invariant
                i <= self.data@.len(),
                T::obeys_eq_spec() ==> forall|j: int|
                    0 <= j < i ==> !(#[trigger] self@[j]).value.eq_spec(&item),
            decreases self.data@.len() - i,
        {
            if self.data[i].value == item {
                assert(T::obeys_eq_spec() ==> self.first_match(item, i as int));
                return Some(&self.data[i]);
            }
            i += 1;
        }
        None
    }

    /// The node at position `idx`, if the arena is that long.
    pub fn get_idx(&self, idx: usize) -> (found: Option<&DirectedNode<T>>)
        ensures
            idx < self@.len() ==> found == Some(&self@[idx as int]),
            idx >= self@.len() ==> found is None,
    {
        if idx < self.data.len() {
            Some(&self.data[idx])
        } else {
            None
        }
    }

    /// The source nodes, in insertion order.
    pub fn get_nodes_with_no_prevs(&self) -> (results: Vec<&DirectedNode<T>>)
        ensures
            results@.unref() == self@.filter(source_nodes()),
    {
        let mut results: Vec<&DirectedNode<T>> = Vec::new();
        let mut i: usize = 0;
        proof {
            reveal(Seq::filter);
            assert(self@.take(0) =~= Seq::<DirectedNode<T>>::empty());
        }
        while i < self.data.len()
            invariant
                i <= self.data@.len(),
                results@.unref() == self@.take(i as int).filter(source_nodes()),
            decreases self.data@.len() - i,
        {
            let node = &self.data[i];
            proof {
                reveal(Seq::filter);
                assert(self@.take(i + 1).drop_last() =~= self@.take(i as int));
            }
            if node.prevs.is_empty() {
                assert(results@.push(node).unref() =~= results@.unref().push(*node));
                results.push(node);
            }
            i += 1;
        }
        assert(self@.take(i as int) =~= self@);
        results
    }

    /// The number of nodes.
    pub fn len(&self) -> (n: usize)
        ensures
            n == self@.len(),
    {
        self.data.len()
    }
}

impl<T> Default for DirectedGraph<T> {
    /// The empty arena.
    fn default() -> (graph: Self)
        ensures
            graph@.len() == 0,
    {
        Self::new(Vec::new())
    }
}

impl<T> IntoIterator for DirectedGraph<T> {
    type Item = DirectedNode<T>;

    type IntoIter = std::vec::IntoIter<DirectedNode<T>>;

    /// Hands the nodes out in insertion order.
    fn into_iter(self) -> (iter: std::vec::IntoIter<DirectedNode<T>>)
        ensures
            iter.remaining() == self@,
            iter.decrease() is Some,
            iter.initial_value_relation(&iter),
    {
        self.data.into_iter()
    }
}

} // verus!
