use rgg::dirty_graph::{copy_ids, copy_without, new_edge, DirtyGraph, GraphError};
use rgg::node::Node;
use rgg::rgg_graph::RggGraph;

fn path(n: usize) -> DirtyGraph {
    let mut g = DirtyGraph::new();
    for _ in 0..n {
        g.add_node().unwrap();
    }
    for i in 1..n {
        g.add_edge(i - 1, i).unwrap();
    }
    g
}

#[test]
fn canonical_edges() {
    assert_eq!(new_edge(1, 2), (1, 2));
    assert_eq!(new_edge(2, 1), (1, 2));
    assert_eq!(new_edge(3, 3), (3, 3));
}

#[test]
fn list_helpers() {
    assert_eq!(copy_ids(&vec![3, 1, 3]), vec![3, 1, 3]);
    assert_eq!(copy_without(&vec![3, 1, 3, 2], 3), vec![1, 2]);
    assert_eq!(copy_without(&vec![1, 2], 3), vec![1, 2]);
}

#[test]
fn nodes_are_numbered_upwards() {
    let mut g = DirtyGraph::new();
    assert!(g.is_empty());
    assert_eq!(g.add_node(), Ok(0));
    assert_eq!(g.add_node(), Ok(1));
    assert_eq!(g.add_node(), Ok(2));
    assert_eq!(g.order(), 3);
    assert_eq!(g.nodes(), vec![0, 1, 2]);
    assert_eq!(g.next_id(), 3);
    assert!(!g.is_empty());
    g.remove_node(1);
    assert_eq!(g.add_node(), Ok(3));
    assert_eq!(g.nodes(), vec![0, 2, 3]);
}

#[test]
fn duplicate_node_is_refused() {
    let mut g = DirtyGraph::new();
    assert_eq!(g.add_node_with(5), Ok(()));
    assert_eq!(g.add_node_with(5), Err(GraphError::DuplicateNode(5)));
    assert_eq!(g.add_node_with(0), Ok(()));
    assert_eq!(g.add_node(), Err(GraphError::DuplicateNode(0)));
    assert_eq!(g.order(), 2);
    assert_eq!(g.nodes(), vec![0, 5]);
}

#[test]
fn edges_need_their_nodes() {
    let mut g = path(2);
    assert_eq!(g.add_edge(0, 7), Err(GraphError::MissingNode(7)));
    assert_eq!(g.add_edge(7, 0), Err(GraphError::MissingNode(7)));
    assert_eq!(g.add_edge(8, 9), Err(GraphError::MissingNode(8)));
    assert_eq!(g.size(), 1);
    assert_eq!(g.neighbors(7), Err(GraphError::MissingNode(7)));
    assert_eq!(g.degree(7), Err(GraphError::MissingNode(7)));
    assert_eq!(g.has_edge(0, 7), Ok(false));
}

#[test]
fn adding_an_edge_twice_changes_nothing() {
    let mut g = path(3);
    assert_eq!(g.size(), 2);
    assert_eq!(g.add_edge(1, 0), Ok(()));
    assert_eq!(g.add_edge(0, 1), Ok(()));
    assert_eq!(g.size(), 2);
    assert_eq!(g.edges(), vec![(0, 1), (1, 2)]);
    assert_eq!(g.neighbors(0), Ok(vec![1]));
    assert_eq!(g.neighbors(1), Ok(vec![0, 2]));
    assert_eq!(g.degree(1), Ok(2));
    assert_eq!(g.has_edge(1, 0), Ok(true));
    assert_eq!(g.has_edge(0, 2), Ok(false));
    assert!(g.contains_edge(2, 1));
}

#[test]
fn adjacency_is_symmetric() {
    let mut g = path(4);
    g.add_edge(3, 0).unwrap();
    for (a, b) in g.edges() {
        assert!(g.neighbors(a).unwrap().contains(&b));
        assert!(g.neighbors(b).unwrap().contains(&a));
        assert!(g.has_node(a) && g.has_node(b));
    }
}

#[test]
fn a_loop_stands_twice_in_one_list() {
    let mut g = path(1);
    g.add_edge(0, 0).unwrap();
    assert_eq!(g.neighbors(0), Ok(vec![0, 0]));
    assert_eq!(g.size(), 1);
    assert_eq!(g.remove_edge(0, 0), 1);
    assert_eq!(g.neighbors(0), Ok(vec![]));
}

#[test]
fn removing_a_node_removes_its_edges() {
    let mut g = path(4);
    assert_eq!(g.remove_node(1), 1);
    assert_eq!(g.order(), 3);
    assert_eq!(g.size(), 1);
    assert_eq!(g.edges(), vec![(2, 3)]);
    assert_eq!(g.neighbors(0), Ok(vec![]));
    assert_eq!(g.neighbors(2), Ok(vec![3]));
    assert_eq!(g.neighbors(1), Err(GraphError::MissingNode(1)));
    assert!(!g.has_node(1));
    assert_eq!(g.remove_node(1), 0);
    assert_eq!(g.remove_node(17), 0);
    assert_eq!(g.order(), 3);
}

#[test]
fn removing_edges() {
    let mut g = path(4);
    g.add_edge(1, 3).unwrap();
    assert_eq!(g.remove_edge(2, 1), 1);
    assert_eq!(g.remove_edge(2, 1), 0);
    assert_eq!(g.neighbors(1), Ok(vec![0, 3]));
    assert_eq!(g.neighbors(2), Ok(vec![3]));
    assert_eq!(g.remove_edges_with(3), 2);
    assert_eq!(g.edges(), vec![(0, 1)]);
    assert_eq!(g.neighbors(3), Ok(vec![]));
    assert_eq!(g.neighbors(1), Ok(vec![0]));
    assert!(g.has_node(3));
    assert_eq!(g.remove_edges_with(3), 0);
    assert_eq!(g.remove_edges_with(99), 0);
}

#[test]
fn new_nodes_are_dirty_until_the_generation_advances() {
    let mut g = path(2);
    assert!(g.node_is_dirty(0));
    assert!(!g.node_is_dirty(5));
    g.advance_generation();
    assert!(!g.node_is_dirty(0));
    assert!(g.set_node_dirty(0));
    assert!(g.node_is_dirty(0));
    assert!(!g.node_is_dirty(1));
    assert!(!g.set_node_dirty(5));
    let fresh = g.add_node().unwrap();
    assert!(g.node_is_dirty(fresh));
}

#[test]
fn generations_wrap_around() {
    let mut g = path(2);
    // From generation 1, 253 steps lead to generation 254.
    for _ in 0..253 {
        g.advance_generation();
    }
    assert!(g.set_node_dirty(0));
    assert!(g.node_is_dirty(0));
    // The next step would reach 255: every stamp is reset, the count is 1 again.
    g.advance_generation();
    assert!(!g.node_is_dirty(0));
    assert!(!g.node_is_dirty(1));
    assert!(g.set_node_dirty(1));
    assert!(g.node_is_dirty(1));
    g.advance_generation();
    assert!(!g.node_is_dirty(1));
}

#[test]
fn overlay_of_ancestors() {
    let mut g = path(4);
    assert_eq!(g.get_ancestor(1), None);
    assert_eq!(g.get_children(0), Vec::<usize>::new());
    g.add_ancestor(2, 0);
    g.add_ancestor(1, 0);
    assert_eq!(g.get_ancestor(1), Some(0));
    assert_eq!(g.get_children(0), vec![1, 2]);
    g.add_ancestor(1, 3);
    assert_eq!(g.get_ancestor(1), Some(3));
    assert_eq!(g.get_children(3), vec![1]);
    g.remove_ancestor(1);
    assert_eq!(g.get_ancestor(1), None);
    // The overlay may name nodes that the graph does not hold.
    g.add_ancestor(40, 50);
    assert_eq!(g.get_ancestor(40), Some(50));
    assert_eq!(g.get_children(50), vec![40]);
}

#[test]
fn children_go_to_the_heir() {
    let mut g = path(5);
    g.add_ancestor(1, 0);
    g.add_ancestor(2, 1);
    g.add_ancestor(3, 1);
    g.remove_children(1, None);
    assert_eq!(g.get_children(1), Vec::<usize>::new());
    assert_eq!(g.get_ancestor(2), Some(0));
    assert_eq!(g.get_ancestor(3), Some(0));
    assert_eq!(g.get_children(0), vec![1, 2, 3]);
    g.remove_children(0, Some(4));
    assert_eq!(g.get_ancestor(1), Some(4));
    assert_eq!(g.get_children(4), vec![1, 2, 3]);
    assert_eq!(g.get_children(0), Vec::<usize>::new());
    // Node 4 has no parent: its children are left without one.
    g.remove_children(4, None);
    assert_eq!(g.get_ancestor(1), None);
    assert_eq!(g.get_ancestor(2), None);
    assert_eq!(g.get_ancestor(3), None);
}

#[test]
fn attributes_come_and_go_with_their_node() {
    let mut g = RggGraph::new();
    assert_eq!(g.order(), 0);
    let a = g.insert_node();
    let b = g.insert_node_with(Node::new("stem"));
    assert_eq!((a, b), (0, 1));
    assert_eq!(g.order(), 2);
    assert_eq!(g.node(a).unwrap().name, "");
    assert!(g.node(a).unwrap().values.is_empty());
    assert_eq!(g.node(b).unwrap().name, "stem");
    assert!(g.node(2).is_none());
    assert!(!g.is_full());
    g.add_edge(a, b).unwrap();
    assert_eq!(g.neighbors(a), Ok(vec![b]));
    g.remove_node(a);
    assert_eq!(g.order(), 1);
    assert!(g.node(a).is_none());
    assert!(!g.has_node(a));
    assert_eq!(g.neighbors(a), Err(GraphError::MissingNode(a)));
    assert_eq!(g.neighbors(b), Ok(vec![]));
    g.remove_node(a);
    assert_eq!(g.order(), 1);
    assert_eq!(g.insert_node(), 2);
}

#[test]
fn a_node_can_be_set_only_where_it_exists() {
    let mut g = RggGraph::new();
    let a = g.insert_node();
    assert!(g.set_node(a, Node::new("leaf")));
    assert_eq!(g.node(a).unwrap().name, "leaf");
    assert!(!g.set_node(9, Node::new("ghost")));
    assert!(g.node(9).is_none());
    assert_eq!(g.order(), 1);
}

#[test]
fn dot_dump() {
    let mut g = RggGraph::new();
    assert_eq!(g.as_dot_string(), "graph {\n}");
    g.insert_node_with(Node::new("stem"));
    g.insert_node();
    g.insert_node_with(Node::new("shoot"));
    for _ in 0..9 {
        g.insert_node();
    }
    g.add_edge(2, 0).unwrap();
    g.add_edge(0, 1).unwrap();
    g.add_edge(11, 2).unwrap();
    for id in 3..11 {
        g.remove_node(id);
    }
    assert_eq!(
        g.as_dot_string(),
        "graph {\n  0 [label=\"stem\"]\n  1 [label=\"\"]\n  2 [label=\"shoot\"]\n  11 [label=\"\"]\n  0 -- 1\n  0 -- 2\n  2 -- 11\n}"
    );
}

#[test]
fn graph_of_an_attributed_graph_can_be_read() {
    let mut g = RggGraph::new();
    g.insert_node();
    g.insert_node();
    g.add_edge(0, 1).unwrap();
    g.add_ancestor(1, 0);
    assert_eq!(g.graph().get_ancestor(1), Some(0));
    assert_eq!(g.graph().size(), 1);
    assert!(g.graph().node_is_dirty(0));
    g.advance_generation();
    assert!(!g.graph().node_is_dirty(0));
    g.remove_children(0, None);
    assert_eq!(g.graph().get_ancestor(1), None);
}
