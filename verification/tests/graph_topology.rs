use job_planner::graph_topology::{topological_sort_jobs, BidirectionalGraph, BidirectionalJob};
use job_planner::schema::JobNode;
use job_planner::types::Job;
use std::collections::HashMap;

fn job(description: &str, next: Option<Vec<usize>>) -> JobNode {
    JobNode { duration: 1, description: description.to_string(), next }
}

fn plan(edges: Vec<(usize, Option<Vec<usize>>)>) -> HashMap<usize, JobNode> {
    let mut data = HashMap::new();
    for (id, next) in edges {
        data.insert(id, JobNode { duration: id * 10, description: id.to_string(), next });
    }
    data
}

fn position(sorted: &Vec<Job>, id: usize) -> usize {
    let name = id.to_string();
    let found: Vec<usize> =
        (0..sorted.len()).filter(|k| sorted[*k].description == name).collect();
    assert_eq!(found.len(), 1);
    found[0]
}

/// Every job once, with its own duration, and each after the jobs that list it.
fn assert_execution_order(data: &HashMap<usize, JobNode>, sorted: &Vec<Job>) {
    assert_eq!(sorted.len(), data.len());
    for (id, node) in data {
        let at = position(sorted, *id);
        assert_eq!(sorted[at].duration, node.duration);
        if let Some(next) = &node.next {
            for dependent in next {
                if data.contains_key(dependent) {
                    assert!(at < position(sorted, *dependent));
                }
            }
        }
    }
}

fn scenario_dag() -> HashMap<usize, JobNode> {
    plan(vec![
        (1, Some(vec![2, 3])),
        (2, Some(vec![4, 5])),
        (3, Some(vec![4])),
        (4, Some(vec![5])),
        (5, Some(vec![])),
    ])
}

fn scenario_cycle() -> HashMap<usize, JobNode> {
    plan(vec![
        (1, Some(vec![2])),
        (2, Some(vec![3])),
        (3, Some(vec![4])),
        (4, Some(vec![5])),
        (5, Some(vec![1])),
    ])
}

#[test]
fn test_ok() {
    let mut data = HashMap::new();
    data.insert(
        1,
        JobNode {
            duration: 1,
            description: "1".to_string(),
            next: Some(vec![2, 3]),
        },
    );
    data.insert(
        2,
        JobNode {
            duration: 1,
            description: "2".to_string(),
            next: Some(vec![4, 5]),
        },
    );
    data.insert(
        3,
        JobNode {
            duration: 1,
            description: "3".to_string(),
            next: Some(vec![4]),
        },
    );
    data.insert(
        4,
        JobNode {
            duration: 1,
            description: "4".to_string(),
            next: Some(vec![5]),
        },
    );
    data.insert(
        5,
        JobNode {
            duration: 1,
            description: "5".to_string(),
            next: Some(vec![6]),
        },
    );

    let result = topological_sort_jobs(data);
    assert!(result.is_ok());
    assert!(result.unwrap().len() == 5);
}

#[test]
fn test_err_circular() {
    let mut data = HashMap::new();

    data.insert(
        1,
        JobNode {
            duration: 1,
            description: "1".to_string(),
            next: Some(vec![2]),
        },
    );
    data.insert(
        2,
        JobNode {
            duration: 1,
            description: "2".to_string(),
            next: Some(vec![3]),
        },
    );
    data.insert(
        3,
        JobNode {
            duration: 1,
            description: "3".to_string(),
            next: Some(vec![4]),
        },
    );
    data.insert(
        4,
        JobNode {
            duration: 1,
            description: "4".to_string(),
            next: Some(vec![5]),
        },
    );
    data.insert(
        5,
        JobNode {
            duration: 1,
            description: "5".to_string(),
            next: Some(vec![1]),
        },
    );

    let result = topological_sort_jobs(data);
    assert!(result.is_err());
}

#[test]
fn dag_is_sorted_with_every_job_after_its_prerequisites() {
    let data = scenario_dag();
    let sorted = topological_sort_jobs(data.clone()).unwrap();
    assert_eq!(sorted.len(), 5);
    assert!(position(&sorted, 1) < position(&sorted, 2));
    assert!(position(&sorted, 1) < position(&sorted, 3));
    assert!(position(&sorted, 2) < position(&sorted, 4));
    assert!(position(&sorted, 3) < position(&sorted, 4));
    assert!(position(&sorted, 4) < position(&sorted, 5));
    assert_execution_order(&data, &sorted);
}

#[test]
fn dag_with_one_order_comes_out_exactly() {
    let data = plan(vec![(3, Some(vec![2])), (2, Some(vec![1])), (1, None)]);
    let sorted = topological_sort_jobs(data).unwrap();
    assert_eq!(
        sorted,
        vec![
            Job { duration: 30, description: "3".to_string() },
            Job { duration: 20, description: "2".to_string() },
            Job { duration: 10, description: "1".to_string() },
        ]
    );
}

#[test]
fn cycle_fails_with_the_message() {
    let result = topological_sort_jobs(scenario_cycle());
    assert_eq!(result, Err("Graph contains cycles."));
}

#[test]
fn job_that_lists_itself_is_a_cycle() {
    let result = topological_sort_jobs(plan(vec![(1, Some(vec![1]))]));
    assert_eq!(result, Err("Graph contains cycles."));
}

#[test]
fn cycle_beside_sortable_jobs_fails_without_entries() {
    let data = plan(vec![
        (1, Some(vec![2])),
        (2, None),
        (3, Some(vec![4])),
        (4, Some(vec![3])),
    ]);
    assert_eq!(topological_sort_jobs(data), Err("Graph contains cycles."));
}

#[test]
fn job_behind_a_cycle_fails_too() {
    let data = plan(vec![(1, Some(vec![2, 3])), (2, Some(vec![1])), (3, None)]);
    assert!(topological_sort_jobs(data).is_err());
}

#[test]
fn empty_plan_sorts_to_nothing() {
    let result = topological_sort_jobs(HashMap::new());
    assert_eq!(result, Ok(vec![]));
}

#[test]
fn jobs_without_dependents_all_come_out() {
    let data = plan(vec![(4, None), (9, Some(vec![])), (2, None), (7, None)]);
    let sorted = topological_sort_jobs(data.clone()).unwrap();
    assert_eq!(sorted.len(), 4);
    assert_execution_order(&data, &sorted);
}

#[test]
fn single_job_keeps_duration_and_description() {
    let mut data = HashMap::new();
    data.insert(
        42,
        JobNode { duration: 8, description: "paint the fence".to_string(), next: None },
    );
    let sorted = topological_sort_jobs(data).unwrap();
    assert_eq!(sorted, vec![Job { duration: 8, description: "paint the fence".to_string() }]);
}

#[test]
fn dependent_that_names_no_job_is_ignored() {
    let data = plan(vec![(1, Some(vec![2, 99])), (2, Some(vec![77]))]);
    let sorted = topological_sort_jobs(data.clone()).unwrap();
    assert_eq!(sorted.len(), 2);
    assert!(position(&sorted, 1) < position(&sorted, 2));
}

#[test]
fn dependent_listed_twice_counts_once() {
    let data = plan(vec![(1, Some(vec![2, 2, 2])), (2, None)]);
    let sorted = topological_sort_jobs(data).unwrap();
    assert_eq!(sorted.len(), 2);
    assert_eq!(sorted[0].description, "1");
    assert_eq!(sorted[1].description, "2");
}

#[test]
fn repeated_sorts_all_respect_the_dependencies() {
    let data = scenario_dag();
    for _ in 0..20 {
        let rebuilt: HashMap<usize, JobNode> =
            data.iter().map(|(id, node)| (*id, node.clone())).collect();
        let sorted = topological_sort_jobs(rebuilt).unwrap();
        assert_execution_order(&data, &sorted);
    }
    for _ in 0..20 {
        assert!(topological_sort_jobs(scenario_cycle()).is_err());
    }
}

#[test]
fn wide_plan_is_sorted() {
    let mut edges = Vec::new();
    for id in 0..60usize {
        let next: Vec<usize> = (id + 1..60).filter(|other| (other - id) % 7 == 1).collect();
        edges.push((id, Some(next)));
    }
    let data = plan(edges);
    let sorted = topological_sort_jobs(data.clone()).unwrap();
    assert_execution_order(&data, &sorted);
}

#[test]
fn graph_from_hashmap_then_sort() {
    let data = scenario_dag();
    let graph = BidirectionalGraph::from_hashmap(data.clone());
    let sorted = graph.topological_sort().unwrap();
    assert_execution_order(&data, &sorted);
}

#[test]
fn graph_from_cyclic_hashmap_fails_to_sort() {
    let graph = BidirectionalGraph::from_hashmap(scenario_cycle());
    assert_eq!(graph.topological_sort(), Err("Graph contains cycles."));
}

#[test]
fn new_graph_sorts_to_nothing() {
    assert_eq!(BidirectionalGraph::new().topological_sort(), Ok(vec![]));
    assert_eq!(BidirectionalGraph::default().topological_sort(), Ok(vec![]));
}

#[test]
fn first_ready_node_is_taken_and_struck_from_the_rest() {
    let nodes = vec![
        BidirectionalJob { id: 1, prevs: vec![2], value: 'a' },
        BidirectionalJob { id: 2, prevs: vec![], value: 'b' },
        BidirectionalJob { id: 3, prevs: vec![], value: 'c' },
        BidirectionalJob { id: 4, prevs: vec![3, 2, 1, 2], value: 'd' },
    ];
    let (first, rest) = BidirectionalGraph::first_node_with_no_prevs(nodes);
    let first = first.unwrap();
    assert_eq!(first.id, 2);
    assert_eq!(first.value, 'b');
    assert!(first.prevs.is_empty());
    assert_eq!(rest.len(), 3);
    assert_eq!((rest[0].id, rest[0].value, rest[0].prevs.clone()), (1, 'a', vec![]));
    assert_eq!((rest[1].id, rest[1].value, rest[1].prevs.clone()), (3, 'c', vec![]));
    assert_eq!((rest[2].id, rest[2].value, rest[2].prevs.clone()), (4, 'd', vec![3, 1]));
}

#[test]
fn without_a_ready_node_nothing_changes() {
    let nodes = vec![
        BidirectionalJob { id: 1, prevs: vec![2], value: "a" },
        BidirectionalJob { id: 2, prevs: vec![1, 1], value: "b" },
    ];
    let (first, rest) = BidirectionalGraph::first_node_with_no_prevs(nodes);
    assert!(first.is_none());
    assert_eq!(rest.len(), 2);
    assert_eq!((rest[0].id, rest[0].value, rest[0].prevs.clone()), (1, "a", vec![2]));
    assert_eq!((rest[1].id, rest[1].value, rest[1].prevs.clone()), (2, "b", vec![1, 1]));
}

#[test]
fn first_ready_node_of_nothing_is_none() {
    let (first, rest) = BidirectionalGraph::first_node_with_no_prevs(Vec::<BidirectionalJob<u8>>::new());
    assert!(first.is_none());
    assert!(rest.is_empty());
}

#[test]
fn has_dependent_reads_the_list() {
    let some = job("a", Some(vec![4, 2]));
    assert!(some.has_dependent(4));
    assert!(some.has_dependent(2));
    assert!(!some.has_dependent(3));
    assert!(!job("b", Some(vec![])).has_dependent(0));
    assert!(!job("c", None).has_dependent(0));
}

#[test]
fn clone_of_a_job_is_equal_to_it() {
    let full = JobNode { duration: 5, description: "dig".to_string(), next: Some(vec![1, 2]) };
    assert_eq!(full.clone(), full);
    let bare = JobNode { duration: 0, description: String::new(), next: None };
    assert_eq!(bare.clone(), bare);
}
