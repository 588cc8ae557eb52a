use rgg::node::{FromNode, Node, ToNode};
use rgg::procedures::{AddProcedure, ApplyResult, DeleteProcedure, Procedure, ReplaceProcedure};
use rgg::rgg_graph::RggGraph;
use rgg::rule::{push_all, NodeSet, Rule, RuleResult};
use rgg::value::Value;
use std::collections::HashMap;

fn number(value: &Value) -> f64 {
    match (value.get_i32(), value.get_f32_bits()) {
        (Some(i), _) => i as f64,
        (_, Some(bits)) => f32::from_bits(bits) as f64,
        _ => unreachable!(),
    }
}

fn eval(template: &ToNode, base: Option<&Node>) -> Node {
    let mut context = meval::Context::new();
    if let Some(base) = base {
        for (name, value) in &base.values {
            context.var(name.as_str(), number(value));
        }
    }
    let mut node = Node::new(&template.name);
    for (name, expr) in &template.values {
        let value = meval::eval_str_with_context(expr, &context).unwrap();
        node.values.insert(name.clone(), Value::new_float_bits((value as f32).to_bits()));
    }
    node
}

fn template(name: &str, values: &[(&str, &str)]) -> ToNode {
    ToNode {
        name: name.to_string(),
        values: values.iter().map(|(k, v)| (k.to_string(), v.to_string())).collect(),
    }
}

fn named(id: i32, name: &str) -> FromNode {
    FromNode { id, name: Some(name.to_string()), values: Default::default() }
}

fn any_node(id: i32) -> FromNode {
    FromNode { id, name: None, values: Default::default() }
}

fn two_triples() -> RggGraph {
    let mut graph = RggGraph::new();
    for _ in 0..2 {
        let a = graph.insert_node_with(Node::new("a"));
        let b = graph.insert_node_with(Node::new("b"));
        let c = graph.insert_node_with(Node::new("c"));
        graph.add_edge(a, b).unwrap();
        graph.add_edge(b, c).unwrap();
    }
    graph
}

#[test]
fn batch_isolation() {
    let rule = Rule {
        from: NodeSet {
            nodes: vec![named(0, "a"), named(1, "b"), named(2, "c")],
            edges: vec![(0, 1), (1, 2)],
        },
        to: vec![Procedure::Delete(DeleteProcedure { target: 1 })],
    };
    assert!(rule.from.is_well_formed());
    let mut graph = two_triples();
    assert_eq!(rule.all_matches(&graph).len(), 2);
    let result = rule.apply(&mut graph, &eval);
    assert_eq!(result.removed, vec![1, 4]);
    assert!(result.added.is_empty());
    assert!(result.modified.is_empty());
    assert_eq!(graph.order(), 4);
    assert!(!graph.has_node(1));
    assert!(!graph.has_node(4));
    assert!(graph.has_node(0) && graph.has_node(2) && graph.has_node(3) && graph.has_node(5));
    // Nothing is left to match: a second application changes nothing.
    let again = rule.apply(&mut graph, &eval);
    assert!(again.removed.is_empty());
    assert_eq!(graph.order(), 4);
}

#[test]
fn batch_isolation_in_another_order() {
    let rule = Rule {
        from: NodeSet {
            nodes: vec![named(7, "c"), named(5, "b"), named(6, "a")],
            edges: vec![(5, 7), (6, 5)],
        },
        to: vec![Procedure::Delete(DeleteProcedure { target: 6 })],
    };
    // The first pattern node of a longer pattern never takes the last node
    // of the graph, so a further node stands behind the second triple.
    let mut graph = two_triples();
    graph.insert_node_with(Node::new("z"));
    let result = rule.apply(&mut graph, &eval);
    let mut removed = result.removed.clone();
    removed.sort();
    assert_eq!(removed, vec![0, 3]);
    assert_eq!(graph.order(), 5);
}

#[test]
fn first_pattern_node_never_takes_the_last_graph_node() {
    let rule = Rule {
        from: NodeSet {
            nodes: vec![named(7, "c"), named(5, "b"), named(6, "a")],
            edges: vec![(5, 7), (6, 5)],
        },
        to: vec![Procedure::Delete(DeleteProcedure { target: 6 })],
    };
    let mut graph = two_triples();
    let result = rule.apply(&mut graph, &eval);
    assert_eq!(result.removed, vec![0]);
    assert_eq!(graph.order(), 5);
}

#[test]
fn all_occurrences_are_found_before_the_graph_changes() {
    // Every stem gets one new stem; the new stems of this pass get none.
    let rule = Rule {
        from: NodeSet { nodes: vec![named(0, "stem")], edges: vec![] },
        to: vec![Procedure::Add(AddProcedure { neighbors: vec![0], new_node: template("stem", &[]) })],
    };
    let mut graph = RggGraph::new();
    graph.insert_node_with(Node::new("stem"));
    graph.insert_node_with(Node::new("stem"));
    graph.insert_node_with(Node::new("leaf"));
    let result = rule.apply(&mut graph, &eval);
    assert_eq!(result.added, vec![3, 4]);
    assert_eq!(graph.order(), 5);
    assert_eq!(graph.graph().get_ancestor(3), Some(0));
    assert_eq!(graph.graph().get_ancestor(4), Some(1));
}

#[test]
fn end_to_end() {
    let mut graph = RggGraph::new();
    let mut stem = Node::new("stem");
    stem.values.insert("dir".to_string(), Value::new_int(0));
    let seed = graph.insert_node_with(stem);
    let rule = Rule {
        from: NodeSet { nodes: vec![named(0, "stem")], edges: vec![] },
        to: vec![Procedure::Add(AddProcedure {
            neighbors: vec![0],
            new_node: template("stem", &[("dir", "dir + 1")]),
        })],
    };
    let result = rule.apply(&mut graph, &eval);
    assert_eq!(graph.order(), 2);
    assert_eq!(result.added.len(), 1);
    let new = result.added[0];
    assert_ne!(new, seed);
    let node = graph.node(new).unwrap();
    assert_eq!(node.name, "stem");
    assert_eq!(node.values["dir"].get_f32_bits(), Some(1.0f32.to_bits()));
    assert_eq!(node.values["dir"].get_i32(), None);
    assert_eq!(graph.neighbors(new), Ok(vec![seed]));
    assert_eq!(graph.neighbors(seed), Ok(vec![new]));
    assert_eq!(graph.graph().get_ancestor(new), Some(seed));
    assert_eq!(graph.node(seed).unwrap().values["dir"], Value::new_int(0));
    assert_eq!(
        graph.as_dot_string(),
        "graph {\n  0 [label=\"stem\"]\n  1 [label=\"stem\"]\n  0 -- 1\n}"
    );
}

#[test]
fn procedures_run_in_their_order() {
    // The replacement is in place when the template of the new node is evaluated.
    let rule = Rule {
        from: NodeSet { nodes: vec![named(0, "stem")], edges: vec![] },
        to: vec![
            Procedure::Replace(ReplaceProcedure {
                target: 0,
                replacement: template("stem", &[("sprouted", "1"), ("dir", "dir + 2")]),
            }),
            Procedure::Add(AddProcedure {
                neighbors: vec![0],
                new_node: template("shoot", &[("rotation", "90 * dir")]),
            }),
        ],
    };
    let mut graph = RggGraph::new();
    let mut stem = Node::new("stem");
    stem.values.insert("dir".to_string(), Value::new_int(1));
    graph.insert_node_with(stem);
    let result = rule.apply(&mut graph, &eval);
    assert_eq!(result.modified, vec![0]);
    assert_eq!(result.added, vec![1]);
    assert_eq!(graph.node(0).unwrap().values["dir"], Value::new_float_bits(3.0f32.to_bits()));
    assert_eq!(graph.node(1).unwrap().name, "shoot");
    assert_eq!(graph.node(1).unwrap().values["rotation"], Value::new_float_bits(270.0f32.to_bits()));
}

#[test]
fn a_failed_procedure_does_not_stop_the_others() {
    let rule = Rule {
        from: NodeSet { nodes: vec![any_node(0), any_node(1)], edges: vec![(0, 1)] },
        to: vec![
            Procedure::Delete(DeleteProcedure { target: 0 }),
            Procedure::Delete(DeleteProcedure { target: 0 }),
            Procedure::Delete(DeleteProcedure { target: 1 }),
        ],
    };
    let mut graph = RggGraph::new();
    graph.insert_node();
    graph.insert_node();
    graph.add_edge(0, 1).unwrap();
    let result = rule.apply(&mut graph, &eval);
    assert_eq!(result.removed, vec![0, 1]);
    assert_eq!(graph.order(), 0);
}

#[test]
fn a_match_without_all_targets_is_passed_over() {
    let rule = Rule {
        from: NodeSet { nodes: vec![any_node(0)], edges: vec![] },
        to: vec![
            Procedure::Delete(DeleteProcedure { target: 0 }),
            Procedure::Delete(DeleteProcedure { target: 5 }),
        ],
    };
    let mapping: HashMap<i32, usize> = [(0, 0)].into_iter().collect();
    assert!(!rule.check_procedure_targets_exist(&mapping));
    let mut graph = RggGraph::new();
    graph.insert_node();
    graph.insert_node();
    let result = rule.apply(&mut graph, &eval);
    assert!(result.removed.is_empty());
    assert_eq!(graph.order(), 2);
}

#[test]
fn one_occurrence_at_a_time() {
    let rule = Rule {
        from: NodeSet { nodes: vec![any_node(0)], edges: vec![] },
        to: vec![
            Procedure::Add(AddProcedure { neighbors: vec![0], new_node: template("x", &[]) }),
            Procedure::Delete(DeleteProcedure { target: 0 }),
        ],
    };
    let mut graph = RggGraph::new();
    graph.insert_node();
    let mut mapping: HashMap<i32, usize> = [(0, 0)].into_iter().collect();
    assert!(rule.check_procedure_targets_exist(&mapping));
    let mut result = RuleResult::new();
    rule.apply_to_match(&mut graph, &mut mapping, &mut result, &eval);
    assert_eq!(result.added, vec![1]);
    assert_eq!(result.removed, vec![0]);
    assert!(mapping.is_empty());
    assert_eq!(graph.order(), 1);
    assert_eq!(graph.neighbors(1), Ok(vec![]));
}

#[test]
fn results_add_up() {
    let mut result = RuleResult::new();
    assert!(result.removed.is_empty() && result.added.is_empty() && result.modified.is_empty());
    result.add_apply_result(ApplyResult::Removed(vec![4, 2]));
    result.add_apply_result(ApplyResult::Added(7));
    result.add_apply_result(ApplyResult::Failed);
    result.add_apply_result(ApplyResult::Nothing);
    result.add_apply_result(ApplyResult::Modified(1));
    result.add_apply_result(ApplyResult::Removed(vec![9]));
    assert_eq!(result.removed, vec![4, 2, 9]);
    assert_eq!(result.added, vec![7]);
    assert_eq!(result.modified, vec![1]);
    let mut other = RuleResult::new();
    other.add_apply_result(ApplyResult::Added(8));
    other.add_apply_result(ApplyResult::Removed(vec![3]));
    result.add(other);
    assert_eq!(result.removed, vec![4, 2, 9, 3]);
    assert_eq!(result.added, vec![7, 8]);
    assert_eq!(result.modified, vec![1]);
    let mut ids = vec![1];
    push_all(&mut ids, &vec![2, 3]);
    assert_eq!(ids, vec![1, 2, 3]);
}
