use rand::Rng;
use rgg::node::{Node, ToNode};
use rgg::procedures::{
    extend_new, holds_id, resolve, AddProcedure, ApplyResult, DeleteProcedure, MergeProcedure,
    Procedure, ReplaceProcedure,
};
use rgg::rgg_graph::RggGraph;
use rgg::value::Value;
use std::collections::HashMap;

fn number(value: &Value) -> f64 {
    match (value.get_i32(), value.get_f32_bits()) {
        (Some(i), _) => i as f64,
        (_, Some(bits)) => f32::from_bits(bits) as f64,
        _ => unreachable!(),
    }
}

/// Evaluates a template with the expression evaluator, as the program does.
fn eval(template: &ToNode, base: Option<&Node>) -> Node {
    let mut context = meval::Context::new();
    if let Some(base) = base {
        for (name, value) in &base.values {
            context.var(name.as_str(), number(value));
        }
    }
    context.func2("rand", |min, max| rand::thread_rng().gen_range(min..max));
    let mut node = Node::new(&template.name);
    for (name, expr) in &template.values {
        let value = meval::eval_str_with_context(expr, &context).unwrap();
        node.values.insert(name.clone(), Value::new_float_bits((value as f32).to_bits()));
    }
    node
}

fn template(name: &str, values: &[(&str, &str)]) -> ToNode {
    ToNode {
        name: name.to_string(),
        values: values.iter().map(|(k, v)| (k.to_string(), v.to_string())).collect(),
    }
}

fn map_of(pairs: &[(i32, usize)]) -> HashMap<i32, usize> {
    pairs.iter().copied().collect()
}

fn removed(result: ApplyResult) -> Vec<usize> {
    match result {
        ApplyResult::Removed(ids) => ids,
        other => panic!("Invalid result: {:?}", other),
    }
}

fn sorted(mut ids: Vec<usize>) -> Vec<usize> {
    ids.sort();
    ids
}

/// Gets a triangle graph with all nodes connected, plus its associated mapping
fn get_simple_graph() -> (RggGraph, HashMap<i32, usize>) {
    let mut graph = RggGraph::new();
    graph.insert_node();
    graph.insert_node();
    graph.insert_node();
    graph.add_edge(0, 1).unwrap();
    graph.add_edge(1, 2).unwrap();
    graph.add_edge(2, 0).unwrap();
    graph.advance_generation();

    let map = map_of(&[(2, 0), (1, 1), (0, 2)]);

    (graph, map)
}

#[test]
fn test_simple_add() {
    let proc = Procedure::Add(AddProcedure {
        neighbors: vec![0, 1],
        new_node: template("newnode", &[]),
    });
    let (mut graph, mut mapping) = get_simple_graph();
    proc.apply(&mut graph, &mut mapping, &eval);
    assert_eq!(graph.node(3).unwrap().name, "newnode");
    let mut neighbors = graph.neighbors(3).unwrap();
    neighbors.sort();
    assert_eq!(neighbors, vec![1, 2]);
}

#[test]
fn test_simple_delete() {
    let proc = Procedure::Delete(DeleteProcedure { target: 2 });
    let (mut graph, mut mapping) = get_simple_graph();
    proc.apply(&mut graph, &mut mapping, &eval);
    assert_eq!(graph.graph().order(), 2, "Contents {:?}", graph.graph());
    assert_eq!(graph.order(), 2, "Contents {:?}", graph);
    assert!(graph.node(0).is_none());
}

#[test]
fn test_dont_touch_dirty() {
    // The engine does not hold back from nodes of the current generation:
    // a node that was just made is deleted like any other.
    let proc = Procedure::Delete(DeleteProcedure { target: 0 });
    let mut graph = RggGraph::new();
    graph.insert_node();
    assert!(graph.graph().node_is_dirty(0));
    let mut mapping = map_of(&[(0, 0)]);
    proc.apply(&mut graph, &mut mapping, &eval);
    assert_eq!(graph.graph().order(), 0, "Contents {:?}", graph.graph());
}

#[test]
fn add_wires_edges() {
    let proc = Procedure::Add(AddProcedure {
        neighbors: vec![5, 6],
        new_node: template("bud", &[]),
    });
    let (mut graph, _) = get_simple_graph();
    let mut mapping = map_of(&[(5, 2), (6, 0)]);
    let result = proc.apply(&mut graph, &mut mapping, &eval);
    assert!(matches!(result, ApplyResult::Added(3)));
    assert_eq!(graph.order(), 4);
    assert_eq!(graph.node(3).unwrap().name, "bud");
    assert_eq!(graph.neighbors(3), Ok(vec![2, 0]));
    assert!(graph.neighbors(2).unwrap().contains(&3));
    assert!(graph.neighbors(0).unwrap().contains(&3));
    assert!(!graph.neighbors(1).unwrap().contains(&3));
    assert_eq!(graph.graph().get_ancestor(3), Some(2));
    assert_eq!(graph.graph().get_children(2), vec![3]);
    assert_eq!(mapping, map_of(&[(5, 2), (6, 0)]));
}

#[test]
fn add_evaluates_against_the_first_neighbor() {
    let mut graph = RggGraph::new();
    let mut first = Node::new("stem");
    first.values.insert("dir".to_string(), Value::new_int(4));
    let mut second = Node::new("stem");
    second.values.insert("dir".to_string(), Value::new_float_bits(100.0f32.to_bits()));
    graph.insert_node_with(first);
    graph.insert_node_with(second);
    let proc = AddProcedure { neighbors: vec![1, 0], new_node: template("shoot", &[("rotation", "90 * dir")]) };
    let result = proc.apply(&mut graph, &map_of(&[(0, 0), (1, 1)]), &eval);
    assert!(matches!(result, ApplyResult::Added(2)));
    let made = graph.node(2).unwrap();
    assert_eq!(made.values["rotation"], Value::new_float_bits(9000.0f32.to_bits()));
}

#[test]
fn add_without_neighbors() {
    let mut graph = RggGraph::new();
    let proc = AddProcedure { neighbors: vec![], new_node: template("seed", &[("len", "1 + 2")]) };
    let result = proc.apply(&mut graph, &HashMap::new(), &eval);
    assert!(matches!(result, ApplyResult::Added(0)));
    assert_eq!(graph.node(0).unwrap().name, "seed");
    assert_eq!(graph.node(0).unwrap().values["len"], Value::new_float_bits(3.0f32.to_bits()));
    assert_eq!(graph.graph().get_ancestor(0), None);
    assert_eq!(graph.neighbors(0), Ok(vec![]));
}

#[test]
fn add_with_random_length() {
    let mut graph = RggGraph::new();
    let proc = AddProcedure { neighbors: vec![], new_node: template("bye", &[("len", "rand(1, 5)")]) };
    proc.apply(&mut graph, &HashMap::new(), &eval);
    let len = f32::from_bits(graph.node(0).unwrap().values["len"].get_f32_bits().unwrap());
    assert!(len > 0.0);
    assert!(len < 5.0);
}

#[test]
fn add_fails_on_a_neighbor_that_does_not_resolve() {
    let proc = Procedure::Add(AddProcedure {
        neighbors: vec![0, 7, 1],
        new_node: template("bud", &[("len", "1")]),
    });
    let (mut graph, mut mapping) = get_simple_graph();
    let result = proc.apply(&mut graph, &mut mapping, &eval);
    assert!(matches!(result, ApplyResult::Failed));
    // The node was made and got its first edge before the failure; it stays blank.
    assert_eq!(graph.order(), 4);
    assert_eq!(graph.node(3).unwrap().name, "");
    assert!(graph.node(3).unwrap().values.is_empty());
    assert_eq!(graph.neighbors(3), Ok(vec![2]));
    assert_eq!(graph.graph().get_ancestor(3), Some(2));
    // A neighbor that is mapped to a node that is gone does not resolve either.
    let (mut graph, _) = get_simple_graph();
    graph.remove_node(1);
    let gone = AddProcedure { neighbors: vec![0], new_node: template("bud", &[]) };
    let result = gone.apply(&mut graph, &map_of(&[(0, 1)]), &eval);
    assert!(matches!(result, ApplyResult::Failed));
    assert_eq!(graph.neighbors(3), Ok(vec![]));
}

#[test]
fn delete_shrinks_the_graph() {
    let proc = Procedure::Delete(DeleteProcedure { target: 1 });
    let (mut graph, mut mapping) = get_simple_graph();
    let before = graph.order();
    let result = proc.apply(&mut graph, &mut mapping, &eval);
    assert_eq!(removed(result), vec![1]);
    assert_eq!(graph.order(), before - 1);
    assert!(graph.node(1).is_none());
    assert!(!graph.has_node(1));
    assert_eq!(graph.neighbors(0), Ok(vec![2]));
    assert_eq!(mapping, map_of(&[(2, 0), (0, 2)]));
    // The target has left the mapping: deleting it again fails.
    let again = proc.apply(&mut graph, &mut mapping, &eval);
    assert!(matches!(again, ApplyResult::Failed));
    assert_eq!(graph.order(), before - 1);
    // So does deleting a target whose node is gone.
    graph.remove_node(0);
    let stale = Procedure::Delete(DeleteProcedure { target: 2 });
    assert!(matches!(stale.apply(&mut graph, &mut mapping, &eval), ApplyResult::Failed));
    assert_eq!(graph.order(), before - 2);
    assert_eq!(mapping, map_of(&[(2, 0), (0, 2)]));
}

#[test]
fn replace_keeps_the_edges() {
    let (mut graph, mut mapping) = get_simple_graph();
    let mut stem = Node::new("stem");
    stem.values.insert("age".to_string(), Value::new_float_bits(30.0f32.to_bits()));
    stem.values.insert("dir".to_string(), Value::new_int(2));
    graph.set_node(1, stem);
    let proc = Procedure::Replace(ReplaceProcedure {
        target: 1,
        replacement: template("bye", &[("age", "age - 1"), ("dir", "dir")]),
    });
    let result = proc.apply(&mut graph, &mut mapping, &eval);
    assert!(matches!(result, ApplyResult::Modified(1)));
    let node = graph.node(1).unwrap();
    assert_eq!(node.name, "bye");
    assert_eq!(f32::from_bits(node.values["age"].get_f32_bits().unwrap()), 29.0);
    assert_eq!(node.values["dir"], Value::new_float_bits(2.0f32.to_bits()));
    assert_eq!(graph.order(), 3);
    assert_eq!(sorted(graph.neighbors(1).unwrap()), vec![0, 2]);
    assert_eq!(mapping.len(), 3);
}

#[test]
fn replace_fails_without_its_target() {
    let (mut graph, mut mapping) = get_simple_graph();
    let proc = Procedure::Replace(ReplaceProcedure { target: 9, replacement: template("x", &[]) });
    assert!(matches!(proc.apply(&mut graph, &mut mapping, &eval), ApplyResult::Failed));
    graph.remove_node(2);
    let stale = Procedure::Replace(ReplaceProcedure { target: 0, replacement: template("x", &[]) });
    assert!(matches!(stale.apply(&mut graph, &mut mapping, &eval), ApplyResult::Failed));
    assert!(graph.node(2).is_none());
    assert_eq!(graph.order(), 2);
}

#[test]
fn merge_takes_over_edges_children_and_parent() {
    // 0 - 1 - 2 - 3, and 4 apart; 1 and 2 are merged into 1.
    let mut graph = RggGraph::new();
    for _ in 0..6 {
        graph.insert_node();
    }
    graph.add_edge(0, 1).unwrap();
    graph.add_edge(1, 2).unwrap();
    graph.add_edge(2, 3).unwrap();
    graph.add_ancestor(2, 0);
    graph.add_ancestor(3, 2);
    graph.add_ancestor(5, 2);
    let proc = Procedure::Merge(MergeProcedure { targets: vec![7, 8], final_node: 7 });
    let mut mapping = map_of(&[(7, 1), (8, 2)]);
    let result = proc.apply(&mut graph, &mut mapping, &eval);
    assert_eq!(removed(result), vec![2]);
    assert_eq!(graph.order(), 5);
    assert!(graph.node(2).is_none());
    // The survivor keeps its edge to 0, gets the edge to 3, and, being a
    // neighbor of a target itself, an edge to itself.
    assert_eq!(graph.neighbors(1), Ok(vec![0, 1, 1, 3]));
    assert_eq!(graph.neighbors(3), Ok(vec![1]));
    assert_eq!(graph.neighbors(0), Ok(vec![1]));
    assert_eq!(graph.graph().edges(), vec![(0, 1), (1, 1), (1, 3)]);
    // The children of 2 went to the survivor, which inherits the parent of 2.
    assert_eq!(graph.graph().get_ancestor(3), Some(1));
    assert_eq!(graph.graph().get_ancestor(5), Some(1));
    assert_eq!(graph.graph().get_children(1), vec![3, 5]);
    assert_eq!(graph.graph().get_children(2), Vec::<usize>::new());
    assert_eq!(graph.graph().get_ancestor(1), Some(0));
    assert_eq!(mapping, map_of(&[(7, 1), (8, 2)]));
}

#[test]
fn merge_fails_where_a_target_does_not_resolve() {
    let (mut graph, mut mapping) = get_simple_graph();
    let missing = Procedure::Merge(MergeProcedure { targets: vec![0, 9], final_node: 0 });
    assert!(matches!(missing.apply(&mut graph, &mut mapping, &eval), ApplyResult::Failed));
    let no_survivor = Procedure::Merge(MergeProcedure { targets: vec![0, 1], final_node: 9 });
    assert!(matches!(no_survivor.apply(&mut graph, &mut mapping, &eval), ApplyResult::Failed));
    assert_eq!(graph.order(), 3);
    assert_eq!(graph.graph().size(), 3);
    graph.remove_node(2);
    let stale = Procedure::Merge(MergeProcedure { targets: vec![0, 1], final_node: 1 });
    assert!(matches!(stale.apply(&mut graph, &mut mapping, &eval), ApplyResult::Failed));
    assert_eq!(graph.order(), 2);
}

#[test]
fn merge_of_a_triangle() {
    let (mut graph, mut mapping) = get_simple_graph();
    let proc = Procedure::Merge(MergeProcedure { targets: vec![0, 1, 2], final_node: 2 });
    let result = proc.apply(&mut graph, &mut mapping, &eval);
    // Pattern 2 stands for node 0, which remains; nodes 2 and 1 go, in the order of the targets.
    assert_eq!(removed(result), vec![2, 1]);
    assert_eq!(graph.order(), 1);
    assert_eq!(graph.graph().edges(), vec![(0, 0)]);
}

#[test]
fn merge_is_read_from_a_list() {
    assert!(MergeProcedure::from_list(vec![]).is_none());
    assert!(MergeProcedure::from_list(vec![3]).is_none());
    let merge = MergeProcedure::from_list(vec![3, 1, 2, 3]).unwrap();
    assert_eq!(merge.final_node, 3);
    assert_eq!(merge.targets, vec![1, 2, 3]);
}

#[test]
fn targets_must_be_in_the_mapping() {
    let mapping = map_of(&[(0, 10), (1, 11)]);
    assert!(Procedure::Delete(DeleteProcedure { target: 0 }).targets_exist(&mapping));
    assert!(!Procedure::Delete(DeleteProcedure { target: 2 }).targets_exist(&mapping));
    let replace = |target| Procedure::Replace(ReplaceProcedure { target, replacement: template("x", &[]) });
    assert!(replace(1).targets_exist(&mapping));
    assert!(!replace(-1).targets_exist(&mapping));
    let add = |neighbors| Procedure::Add(AddProcedure { neighbors, new_node: template("x", &[]) });
    assert!(add(vec![]).targets_exist(&mapping));
    assert!(add(vec![1, 0, 1]).targets_exist(&mapping));
    assert!(!add(vec![1, 2]).targets_exist(&mapping));
    let merge = |targets, final_node| Procedure::Merge(MergeProcedure { targets, final_node });
    assert!(merge(vec![0, 1], 0).targets_exist(&mapping));
    assert!(!merge(vec![0, 3], 0).targets_exist(&mapping));
    assert!(!merge(vec![0, 1], 3).targets_exist(&mapping));
}

#[test]
fn helpers_on_lists() {
    let (graph, mapping) = get_simple_graph();
    assert_eq!(resolve(&graph, &mapping, 2), Some(0));
    assert_eq!(resolve(&graph, &mapping, 5), None);
    assert_eq!(resolve(&graph, &map_of(&[(0, 44)]), 0), None);
    assert!(holds_id(&vec![1, 2, 3], 2));
    assert!(!holds_id(&vec![1, 2, 3], 4));
    let mut acc = vec![4, 1];
    extend_new(&mut acc, &vec![1, 2, 2, 4, 3]);
    assert_eq!(acc, vec![4, 1, 2, 3]);
}
