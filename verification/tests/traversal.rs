use salsa::accumulator;
use salsa::function::IngredientImpl;
use salsa::graph::{DependencyGraph, QueryOrigin};
use salsa::{DatabaseKeyIndex, DependencyIndex, Id, IngredientIndex};

fn key(ingredient: u32, index: u32) -> DatabaseKeyIndex {
    DatabaseKeyIndex::new(IngredientIndex::from_u32(ingredient), Id::from_u32(index))
}

fn edge(ingredient: u32, index: u32) -> DependencyIndex {
    key(ingredient, index).into_dependency()
}

fn graph_of(origins: &[(DatabaseKeyIndex, Vec<DependencyIndex>)]) -> DependencyGraph {
    let mut graph = DependencyGraph::new();
    for (key, inputs) in origins {
        graph.set_origin(*key, QueryOrigin::new(inputs.clone()));
    }
    graph
}

fn emitted_by(values: &[(DatabaseKeyIndex, u32)]) -> accumulator::IngredientImpl<u32> {
    let mut emitted = accumulator::IngredientImpl::new();
    for (key, value) in values {
        emitted.accumulate(*key, *value);
    }
    emitted
}

fn function() -> IngredientImpl {
    IngredientImpl::new(IngredientIndex::from_u32(0))
}

#[test]
fn root_values_come_before_those_of_its_inputs() {
    let root = key(0, 0);
    let x = key(0, 1);
    let y = key(0, 2);
    let graph = graph_of(&[(root, vec![edge(0, 1), edge(0, 2)]), (x, vec![]), (y, vec![])]);
    let mut emitted = accumulator::IngredientImpl::new();
    emitted.accumulate(x, "V1".to_string());
    emitted.accumulate(root, "V2".to_string());
    let values = function().accumulated_by(&graph, Some(&emitted), Id::from_u32(0));
    assert_eq!(values, vec!["V2".to_string(), "V1".to_string()]);
}

#[test]
fn missing_accumulator_gives_nothing() {
    let graph = graph_of(&[(key(0, 0), vec![edge(0, 1)])]);
    let values: Vec<u32> = function().accumulated_by(&graph, None, Id::from_u32(0));
    assert_eq!(values, Vec::<u32>::new());
}

#[test]
fn start_without_origin_gives_its_own_values() {
    let graph = DependencyGraph::new();
    let emitted = emitted_by(&[(key(0, 7), 70), (key(0, 8), 80), (key(0, 7), 71)]);
    let values = function().accumulated_by(&graph, Some(&emitted), Id::from_u32(7));
    assert_eq!(values, vec![70, 71]);
}

#[test]
fn shared_input_is_visited_once() {
    // 0 -> {1, 2}, 1 -> {3}, 2 -> {3}
    let graph = graph_of(&[
        (key(0, 0), vec![edge(0, 1), edge(0, 2)]),
        (key(0, 1), vec![edge(0, 3)]),
        (key(0, 2), vec![edge(0, 3)]),
        (key(0, 3), vec![]),
    ]);
    let emitted =
        emitted_by(&[(key(0, 3), 30), (key(0, 2), 20), (key(0, 1), 10), (key(0, 0), 0)]);
    let values = function().accumulated_by(&graph, Some(&emitted), Id::from_u32(0));
    assert_eq!(values, vec![0, 10, 20, 30]);
}

#[test]
fn cycle_ends_and_visits_each_once() {
    // 0 -> 1 -> 2 -> 0, and 2 -> 2
    let graph = graph_of(&[
        (key(0, 0), vec![edge(0, 1)]),
        (key(0, 1), vec![edge(0, 2)]),
        (key(0, 2), vec![edge(0, 2), edge(0, 0)]),
    ]);
    let emitted = emitted_by(&[(key(0, 0), 1), (key(0, 1), 2), (key(0, 2), 3)]);
    let values = function().accumulated_by(&graph, Some(&emitted), Id::from_u32(1));
    assert_eq!(values, vec![2, 3, 1]);
}

#[test]
fn walk_is_breadth_first() {
    // 0 -> {1, 2}, 1 -> {3, 4}, 2 -> {5}, 3 -> {6}
    let graph = graph_of(&[
        (key(0, 0), vec![edge(0, 1), edge(0, 2)]),
        (key(0, 1), vec![edge(0, 3), edge(0, 4)]),
        (key(0, 2), vec![edge(0, 5)]),
        (key(0, 3), vec![edge(0, 6)]),
    ]);
    let emitted = emitted_by(&[
        (key(0, 6), 6),
        (key(0, 5), 5),
        (key(0, 4), 4),
        (key(0, 3), 3),
        (key(0, 2), 2),
        (key(0, 1), 1),
        (key(0, 0), 0),
    ]);
    let values = function().accumulated_by(&graph, Some(&emitted), Id::from_u32(0));
    assert_eq!(values, vec![0, 1, 2, 3, 4, 5, 6]);
}

#[test]
fn values_of_one_computation_stand_together() {
    let graph = graph_of(&[(key(0, 0), vec![edge(0, 1)])]);
    let emitted = emitted_by(&[
        (key(0, 1), 10),
        (key(0, 0), 1),
        (key(0, 1), 11),
        (key(0, 0), 2),
        (key(0, 1), 12),
    ]);
    let values = function().accumulated_by(&graph, Some(&emitted), Id::from_u32(0));
    assert_eq!(values, vec![1, 2, 10, 11, 12]);
}

#[test]
fn edge_without_instance_is_skipped() {
    let whole_ingredient = DependencyIndex::new(IngredientIndex::from_u32(0), None);
    let graph = graph_of(&[(key(0, 0), vec![whole_ingredient, edge(0, 2), whole_ingredient])]);
    let emitted = emitted_by(&[(key(0, 0), 1), (key(0, 2), 3)]);
    let values = function().accumulated_by(&graph, Some(&emitted), Id::from_u32(0));
    assert_eq!(values, vec![1, 3]);
}

#[test]
fn edges_lead_across_ingredients() {
    // the same instance index under two ingredients is two computations
    let graph = graph_of(&[
        (key(0, 0), vec![edge(1, 0)]),
        (key(1, 0), vec![edge(0, 0), edge(1, 1)]),
    ]);
    let emitted = emitted_by(&[(key(1, 1), 11), (key(1, 0), 10), (key(0, 0), 0), (key(0, 1), 99)]);
    let values = function().accumulated_by(&graph, Some(&emitted), Id::from_u32(0));
    assert_eq!(values, vec![0, 10, 11]);
}

#[test]
fn unreachable_values_are_left_out() {
    let graph = graph_of(&[(key(0, 0), vec![edge(0, 1)]), (key(0, 5), vec![edge(0, 0)])]);
    let emitted = emitted_by(&[(key(0, 5), 5), (key(0, 1), 1)]);
    let values = function().accumulated_by(&graph, Some(&emitted), Id::from_u32(0));
    assert_eq!(values, vec![1]);
}

#[test]
fn collecting_twice_gives_the_same() {
    let graph = graph_of(&[
        (key(0, 0), vec![edge(0, 2), edge(0, 1)]),
        (key(0, 1), vec![edge(0, 0)]),
        (key(0, 2), vec![edge(0, 1)]),
    ]);
    let emitted = emitted_by(&[(key(0, 1), 1), (key(0, 2), 2), (key(0, 0), 0)]);
    let first = function().accumulated_by(&graph, Some(&emitted), Id::from_u32(0));
    let second = function().accumulated_by(&graph, Some(&emitted), Id::from_u32(0));
    assert_eq!(first, vec![0, 2, 1]);
    assert_eq!(first, second);
}

#[test]
fn later_origin_replaces_earlier() {
    let mut graph = graph_of(&[(key(0, 0), vec![edge(0, 1)])]);
    graph.set_origin(key(0, 0), QueryOrigin::new(vec![edge(0, 2)]));
    assert_eq!(graph.origin(key(0, 0)).unwrap().inputs(), &vec![edge(0, 2)]);
    assert!(graph.origin(key(0, 1)).is_none());
    let emitted = emitted_by(&[(key(0, 1), 1), (key(0, 2), 2)]);
    let values = function().accumulated_by(&graph, Some(&emitted), Id::from_u32(0));
    assert_eq!(values, vec![2]);
}

#[test]
fn produced_by_appends_own_values_only() {
    let emitted = emitted_by(&[(key(0, 1), 1), (key(0, 2), 2), (key(0, 1), 3)]);
    let mut output = vec![100];
    emitted.produced_by(key(0, 1), &mut output);
    assert_eq!(output, vec![100, 1, 3]);
    emitted.produced_by(key(0, 9), &mut output);
    assert_eq!(output, vec![100, 1, 3]);
}

#[test]
fn function_addresses_its_own_calls() {
    let function = IngredientImpl::new(IngredientIndex::from_u32(4));
    assert_eq!(function.database_key_index(Id::from_u32(9)), key(4, 9));
    let graph = graph_of(&[(key(4, 9), vec![edge(0, 9)])]);
    let emitted = emitted_by(&[(key(0, 9), 1), (key(4, 9), 2)]);
    let values = function.accumulated_by(&graph, Some(&emitted), Id::from_u32(9));
    assert_eq!(values, vec![2, 1]);
}
