use gamma::graph::Graph;
use rgg::node::FromNode;
use rgg::pattern_graph::graph_id;
use rgg::rule::NodeSet;

fn any_node(id: i32) -> FromNode {
    FromNode { id, name: None, values: Default::default() }
}

#[test]
fn pattern_as_a_graph() {
    let set = NodeSet {
        nodes: vec![any_node(4), any_node(0), any_node(9)],
        edges: vec![(9, 4), (0, 9)],
    };
    assert!(set.is_well_formed());
    let graph = set.as_graph();
    assert_eq!(graph.nodes().to_vec(), vec![4, 0, 9]);
    assert_eq!(graph.order(), 3);
    assert_eq!(graph.size(), 2);
    assert_eq!(graph.has_edge(4, 9), Ok(true));
    assert_eq!(graph.has_edge(9, 4), Ok(true));
    assert_eq!(graph.has_edge(9, 0), Ok(true));
    assert_eq!(graph.has_edge(0, 4), Ok(false));
    assert_eq!(graph.neighbors(9).unwrap().to_vec(), vec![4, 0]);
    assert_eq!(graph.edges().to_vec(), vec![(9, 4), (0, 9)]);
}

#[test]
fn pattern_without_edges() {
    let set = NodeSet { nodes: vec![any_node(1)], edges: vec![] };
    let graph = set.as_graph();
    assert_eq!(graph.nodes().to_vec(), vec![1]);
    assert_eq!(graph.size(), 0);
    assert!(!graph.is_empty());
}

#[test]
fn a_loop_in_the_pattern() {
    let set = NodeSet { nodes: vec![any_node(1), any_node(2)], edges: vec![(1, 1), (1, 2)] };
    assert!(set.is_well_formed());
    let graph = set.as_graph();
    assert_eq!(graph.has_edge(1, 1), Ok(true));
    assert_eq!(graph.has_edge(2, 2), Ok(false));
    assert_eq!(graph.has_edge(2, 1), Ok(true));
}

#[test]
fn negative_pattern_ids() {
    assert_eq!(graph_id(0), 0);
    assert_eq!(graph_id(7), 7);
    assert_eq!(graph_id(-1), usize::MAX);
    assert_eq!(graph_id(-2), usize::MAX - 1);
    assert_eq!(graph_id(i32::MIN), i32::MIN as usize);
    let set = NodeSet { nodes: vec![any_node(-1), any_node(1)], edges: vec![(-1, 1)] };
    let graph = set.as_graph();
    assert_eq!(graph.nodes().to_vec(), vec![usize::MAX, 1]);
    assert_eq!(graph.has_edge(1, usize::MAX), Ok(true));
}
