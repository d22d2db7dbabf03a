use job_planner::graph::{DirectedGraph, DirectedNode};

fn get_empty_graph<T>() -> DirectedGraph<T> {
    DirectedGraph::<T>::default()
}

#[test]
fn test_default_is_empty() {
    let g = get_empty_graph::<()>();
    assert!(g.len() == 0);
}

#[test]
fn test_default_then_add() {
    let mut g = get_empty_graph();
    g.add(3);
    g.add(15);

    assert!(g.len() == 2)
}

#[test]
fn test_new() {
    let g = DirectedGraph::new(vec![1, 2, 3, 4]);
    assert!(g.len() == 4);
}

#[test]
fn test_get() {
    let mut g = get_empty_graph();
    g.add(3);
    assert!(g.get(3).is_some());
    assert!(g.get(5).is_none());
}

#[test]
fn test_add_node() {
    let mut g = get_empty_graph();
    g.add_node(DirectedNode {
        value: 3,
        next: vec![],
        prevs: vec![],
    });

    g.add_node(DirectedNode { value: 16, next: vec![], prevs: vec![0] })
}

#[test]
fn test_link_node() {
    let mut g = get_empty_graph();
    g.add(3);
    g.add_node(DirectedNode { value: 16, next: vec![], prevs: vec![0] })
}

#[test]
fn node_new_has_no_edges() {
    let node = DirectedNode::new("a");
    assert_eq!(node.value, "a");
    assert!(node.next.is_empty());
    assert!(node.prevs.is_empty());
}

#[test]
fn new_keeps_values_in_insertion_order() {
    let g = DirectedGraph::new(vec![10, 20, 30]);
    assert_eq!(g.get_idx(0).unwrap().value, 10);
    assert_eq!(g.get_idx(1).unwrap().value, 20);
    assert_eq!(g.get_idx(2).unwrap().value, 30);
    for idx in 0..3 {
        let node = g.get_idx(idx).unwrap();
        assert!(node.next.is_empty());
        assert!(node.prevs.is_empty());
    }
}

#[test]
fn add_appends_at_the_end() {
    let mut g = DirectedGraph::new(vec![1, 2]);
    g.add(3);
    assert_eq!(g.len(), 3);
    assert_eq!(g.get_idx(0).unwrap().value, 1);
    assert_eq!(g.get_idx(1).unwrap().value, 2);
    assert_eq!(g.get_idx(2).unwrap().value, 3);
    assert!(g.get_idx(2).unwrap().prevs.is_empty());
}

#[test]
fn add_node_keeps_the_edges_it_is_given() {
    let mut g = get_empty_graph();
    g.add(3);
    g.add_node(DirectedNode { value: 16, next: vec![0, 0], prevs: vec![0] });
    assert_eq!(g.len(), 2);
    let node = g.get_idx(1).unwrap();
    assert_eq!(node.value, 16);
    assert_eq!(node.next, vec![0, 0]);
    assert_eq!(node.prevs, vec![0]);
    // No edge is maintained for the caller: the first node is untouched.
    assert!(g.get_idx(0).unwrap().next.is_empty());
}

#[test]
fn get_finds_the_first_of_equal_values() {
    let mut g = get_empty_graph();
    g.add_node(DirectedNode { value: 7, next: vec![], prevs: vec![1] });
    g.add_node(DirectedNode { value: 7, next: vec![], prevs: vec![2] });
    let found = g.get(7).unwrap();
    assert_eq!(found.prevs, vec![1]);
}

#[test]
fn get_on_empty_graph_is_none() {
    let g = get_empty_graph::<u8>();
    assert!(g.get(0).is_none());
}

#[test]
fn get_idx_past_the_end_is_none() {
    let g = DirectedGraph::new(vec!['a', 'b']);
    assert!(g.get_idx(1).is_some());
    assert!(g.get_idx(2).is_none());
    assert!(g.get_idx(usize::MAX).is_none());
}

#[test]
fn sources_are_the_nodes_without_prevs_in_order() {
    let mut g = get_empty_graph();
    g.add("a");
    g.add_node(DirectedNode { value: "b", next: vec![], prevs: vec![0] });
    g.add("c");
    g.add_node(DirectedNode { value: "d", next: vec![2], prevs: vec![] });
    let sources = g.get_nodes_with_no_prevs();
    let values: Vec<&str> = sources.iter().map(|node| node.value).collect();
    assert_eq!(values, vec!["a", "c", "d"]);
}

#[test]
fn sources_of_empty_graph_are_none() {
    let g = get_empty_graph::<i32>();
    assert!(g.get_nodes_with_no_prevs().is_empty());
}

#[test]
fn into_iter_hands_out_the_nodes_in_order() {
    let mut g = DirectedGraph::new(vec![5, 6]);
    g.add_node(DirectedNode { value: 7, next: vec![], prevs: vec![1] });
    let nodes: Vec<DirectedNode<i32>> = g.into_iter().collect();
    assert_eq!(nodes.len(), 3);
    assert_eq!(nodes[0].value, 5);
    assert_eq!(nodes[1].value, 6);
    assert_eq!(nodes[2].value, 7);
    assert_eq!(nodes[2].prevs, vec![1]);
}
