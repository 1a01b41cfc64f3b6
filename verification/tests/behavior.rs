use layer_align::graph::{Edge, LayeredGraph, Node};
use layer_align::position_assignment::{mark_conflicts, vertical_alignment};

fn node(order: usize, dummy: bool) -> Node {
    let mut n = Node::new();
    n.order = order;
    n.dummy = dummy;
    n
}

fn flagged() -> Edge {
    let mut e = Edge::new();
    e.conflict = true;
    e
}

#[test]
fn new_node_and_edge_are_zeroed() {
    let n = Node::new();
    assert_eq!(n.layer, 0);
    assert_eq!(n.order, 0);
    assert_eq!(n.width, 0);
    assert_eq!(n.height, 0);
    assert_eq!(n.x, 0);
    assert_eq!(n.y, 0);
    assert!(!n.dummy);
    assert_eq!(n.root, 0);
    assert_eq!(n.align, 0);
    let e = Edge::new();
    assert!(!e.conflict);
}

#[test]
fn only_outer_edges_are_flagged() {
    // middle layer q0 (dummy), q1 (dummy), q2 (real); bottom layer s0
    // (dummy), s1 (dummy), s2 (real); two crossing inner segments and one
    // outer edge crossing an inner segment
    let mut graph = LayeredGraph::new();
    let p0 = graph.add_node(node(0, false));
    let p1 = graph.add_node(node(1, false));
    let q0 = graph.add_node(node(0, true));
    let q1 = graph.add_node(node(1, true));
    let q2 = graph.add_node(node(2, false));
    let s0 = graph.add_node(node(0, true));
    let s1 = graph.add_node(node(1, true));
    let s2 = graph.add_node(node(2, false));
    // edges leaving the first layer cross each other, but the first layer
    // pair is never scanned
    let p0q1 = graph.add_edge(p0, q1, Edge::new());
    let p1q0 = graph.add_edge(p1, q0, Edge::new());
    let inner_a = graph.add_edge(q0, s1, Edge::new());
    let inner_b = graph.add_edge(q1, s0, Edge::new());
    let outer_c = graph.add_edge(q2, s0, Edge::new());
    let outer_d = graph.add_edge(q2, s2, Edge::new());
    let layers = vec![vec![p0, p1], vec![q0, q1, q2], vec![s0, s1, s2]];
    mark_conflicts(&mut graph, &layers).unwrap();
    // the two inner segments cross each other but are never flagged
    assert!(!graph.edges[inner_a].edge.conflict);
    assert!(!graph.edges[inner_b].edge.conflict);
    // the outer edge crossing an inner segment is flagged
    assert!(graph.edges[outer_c].edge.conflict);
    // an outer edge crossing nothing is not flagged
    assert!(!graph.edges[outer_d].edge.conflict);
    // edges leaving the first layer stay unflagged
    assert!(!graph.edges[p0q1].edge.conflict);
    assert!(!graph.edges[p1q0].edge.conflict);
}

#[test]
fn marking_twice_equals_marking_once() {
    let mut graph = LayeredGraph::new();
    let p = graph.add_node(node(0, false));
    let q0 = graph.add_node(node(0, true));
    let q1 = graph.add_node(node(1, false));
    let s0 = graph.add_node(node(0, true));
    let s1 = graph.add_node(node(1, false));
    graph.add_edge(p, q0, Edge::new());
    graph.add_edge(q0, s1, Edge::new());
    graph.add_edge(q1, s0, Edge::new());
    let layers = vec![vec![p], vec![q0, q1], vec![s0, s1]];
    mark_conflicts(&mut graph, &layers).unwrap();
    let first: Vec<bool> = graph.edges.iter().map(|e| e.edge.conflict).collect();
    mark_conflicts(&mut graph, &layers).unwrap();
    let second: Vec<bool> = graph.edges.iter().map(|e| e.edge.conflict).collect();
    assert_eq!(first, second);
}

#[test]
fn marking_twice_keeps_fixture_flags() {
    // the crossing fixture: an outer edge crossing the inner segment q0 -> s0
    let mut graph = LayeredGraph::new();
    let p = graph.add_node(node(0, false));
    let q0 = graph.add_node(node(0, true));
    let q1 = graph.add_node(node(1, false));
    let s0 = graph.add_node(node(1, true));
    let s1 = graph.add_node(node(0, false));
    graph.add_edge(p, q0, Edge::new());
    let inner = graph.add_edge(q0, s0, Edge::new());
    let outer = graph.add_edge(q1, s1, Edge::new());
    let layers = vec![vec![p], vec![q0, q1], vec![s1, s0]];
    mark_conflicts(&mut graph, &layers).unwrap();
    assert!(graph.edges[outer].edge.conflict);
    assert!(!graph.edges[inner].edge.conflict);
    mark_conflicts(&mut graph, &layers).unwrap();
    assert!(graph.edges[outer].edge.conflict);
    assert!(!graph.edges[inner].edge.conflict);
}

#[test]
fn alignment_chains_close_into_rings() {
    // a three-layer chain u -> v -> w plus an isolated node z
    let mut graph = LayeredGraph::new();
    let u = graph.add_node(node(1, false));
    let v = graph.add_node(node(1, true));
    let w = graph.add_node(node(1, false));
    let z = graph.add_node(node(2, false));
    graph.add_edge(u, v, Edge::new());
    graph.add_edge(v, w, Edge::new());
    let layers = vec![vec![u], vec![v], vec![w, z]];
    let mut medians: Vec<Option<(usize, usize)>> = vec![None; 4];
    medians[v] = Some((u, u));
    medians[w] = Some((v, v));
    vertical_alignment(&mut graph, &layers, &medians).unwrap();
    // one ring u -> v -> w -> u rooted at u, and the singleton ring z
    assert_eq!(graph.nodes[u].root, u);
    assert_eq!(graph.nodes[v].root, u);
    assert_eq!(graph.nodes[w].root, u);
    assert_eq!(graph.nodes[z].root, z);
    // following align from each node's root returns to the root
    let n = graph.nodes.len();
    for q in 0..n {
        let root: usize = graph.nodes[q].root;
        let mut cur: usize = graph.nodes[root].align;
        let mut steps: usize = 1;
        while cur != root {
            // every member of the ring shares the root
            assert_eq!(graph.nodes[cur].root, root);
            cur = graph.nodes[cur].align;
            steps += 1;
            assert!(steps <= n, "align chain does not close");
        }
    }
}

#[test]
fn node_without_candidate_stays_singleton() {
    let mut graph = LayeredGraph::new();
    let u = graph.add_node(node(1, false));
    let v = graph.add_node(node(1, false));
    let w = graph.add_node(node(2, false));
    graph.add_edge(u, v, Edge::new());
    let layers = vec![vec![u], vec![v, w]];
    // w has no neighbors: the oracle returns nothing for it
    let mut medians: Vec<Option<(usize, usize)>> = vec![None; 3];
    medians[v] = Some((u, u));
    vertical_alignment(&mut graph, &layers, &medians).unwrap();
    assert_eq!(graph.nodes[w].root, w);
    assert_eq!(graph.nodes[w].align, w);
    assert_eq!(graph.nodes[v].root, u);
}

#[test]
fn conflicted_candidate_is_skipped() {
    let mut graph = LayeredGraph::new();
    let u = graph.add_node(node(1, false));
    let v = graph.add_node(node(1, false));
    graph.add_edge(u, v, flagged());
    let layers = vec![vec![u], vec![v]];
    let mut medians: Vec<Option<(usize, usize)>> = vec![None; 2];
    medians[v] = Some((u, u));
    vertical_alignment(&mut graph, &layers, &medians).unwrap();
    assert_eq!(graph.nodes[v].root, v);
    assert_eq!(graph.nodes[v].align, v);
    assert_eq!(graph.nodes[u].align, u);
}

#[test]
fn guard_blocks_backward_candidate() {
    // v0 aligns to u1 (order 2); v1's candidate u0 (order 1) now lies behind
    // the guard and is rejected, so v1 stays a singleton
    let mut graph = LayeredGraph::new();
    let u0 = graph.add_node(node(1, false));
    let u1 = graph.add_node(node(2, false));
    let v0 = graph.add_node(node(1, false));
    let v1 = graph.add_node(node(2, false));
    graph.add_edge(u1, v0, Edge::new());
    graph.add_edge(u0, v1, Edge::new());
    let layers = vec![vec![u0, u1], vec![v0, v1]];
    let mut medians: Vec<Option<(usize, usize)>> = vec![None; 4];
    medians[v0] = Some((u1, u1));
    medians[v1] = Some((u0, u0));
    vertical_alignment(&mut graph, &layers, &medians).unwrap();
    assert_eq!(graph.nodes[v0].root, u1);
    assert_eq!(graph.nodes[u1].align, v0);
    assert_eq!(graph.nodes[v1].root, v1);
    assert_eq!(graph.nodes[v1].align, v1);
    assert_eq!(graph.nodes[u0].align, u0);
}

#[test]
fn second_median_is_tried_when_first_fails() {
    let mut graph = LayeredGraph::new();
    let u0 = graph.add_node(node(1, false));
    let u1 = graph.add_node(node(2, false));
    let v = graph.add_node(node(1, false));
    graph.add_edge(u0, v, flagged());
    graph.add_edge(u1, v, Edge::new());
    let layers = vec![vec![u0, u1], vec![v]];
    let mut medians: Vec<Option<(usize, usize)>> = vec![None; 3];
    medians[v] = Some((u0, u1));
    vertical_alignment(&mut graph, &layers, &medians).unwrap();
    assert_eq!(graph.nodes[v].root, u1);
    assert_eq!(graph.nodes[u1].align, v);
}

#[test]
fn order_zero_candidate_never_qualifies() {
    // the guard starts at the minimum representable value and a candidate
    // must exceed it strictly, so an anchor at order zero is never usable
    let mut graph = LayeredGraph::new();
    let u = graph.add_node(node(0, false));
    let v = graph.add_node(node(0, false));
    graph.add_edge(u, v, Edge::new());
    let layers = vec![vec![u], vec![v]];
    let mut medians: Vec<Option<(usize, usize)>> = vec![None; 2];
    medians[v] = Some((u, u));
    vertical_alignment(&mut graph, &layers, &medians).unwrap();
    assert_eq!(graph.nodes[v].root, v);
    assert_eq!(graph.nodes[v].align, v);
    assert_eq!(graph.nodes[u].align, u);
}

#[test]
fn empty_layer_sequence_is_rejected() {
    let mut graph = LayeredGraph::new();
    graph.add_node(Node::new());
    let layers: Vec<Vec<usize>> = vec![];
    assert!(mark_conflicts(&mut graph, &layers).is_err());
    let medians: Vec<Option<(usize, usize)>> = vec![None; 1];
    assert!(vertical_alignment(&mut graph, &layers, &medians).is_err());
}

#[test]
fn absent_node_in_layers_is_rejected() {
    let mut graph = LayeredGraph::new();
    let a = graph.add_node(Node::new());
    let layers = vec![vec![a, 7]];
    assert!(mark_conflicts(&mut graph, &layers).is_err());
    let medians: Vec<Option<(usize, usize)>> = vec![None; 1];
    assert!(vertical_alignment(&mut graph, &layers, &medians).is_err());
    // the graph is untouched on failure
    assert_eq!(graph.nodes[a].order, 0);
    assert!(!graph.nodes[a].dummy);
}

#[test]
fn median_table_of_wrong_length_is_rejected() {
    let mut graph = LayeredGraph::new();
    let u = graph.add_node(Node::new());
    let v = graph.add_node(Node::new());
    graph.add_edge(u, v, Edge::new());
    let layers = vec![vec![u], vec![v]];
    let medians: Vec<Option<(usize, usize)>> = vec![None; 1];
    assert!(vertical_alignment(&mut graph, &layers, &medians).is_err());
}

#[test]
fn median_without_edge_is_rejected() {
    let mut graph = LayeredGraph::new();
    let u = graph.add_node(node(1, false));
    let v = graph.add_node(node(1, false));
    // no edge from u to v, yet the oracle claims u as v's median
    let layers = vec![vec![u], vec![v]];
    let mut medians: Vec<Option<(usize, usize)>> = vec![None; 2];
    medians[v] = Some((u, u));
    assert!(vertical_alignment(&mut graph, &layers, &medians).is_err());
    // the pass aborted before mutating anything
    assert_eq!(graph.nodes[v].root, 0);
    assert_eq!(graph.nodes[v].align, 0);
}

#[test]
fn absent_median_node_is_rejected() {
    let mut graph = LayeredGraph::new();
    let u = graph.add_node(node(1, false));
    let v = graph.add_node(node(1, false));
    graph.add_edge(u, v, Edge::new());
    let layers = vec![vec![u], vec![v]];
    let mut medians: Vec<Option<(usize, usize)>> = vec![None; 2];
    medians[v] = Some((9, 9));
    assert!(vertical_alignment(&mut graph, &layers, &medians).is_err());
}

#[test]
fn find_edge_returns_first_match() {
    let mut graph = LayeredGraph::new();
    let u = graph.add_node(Node::new());
    let v = graph.add_node(Node::new());
    let first = graph.add_edge(u, v, Edge::new());
    graph.add_edge(u, v, flagged());
    assert_eq!(graph.find_edge(u, v), Some(first));
    assert_eq!(graph.find_edge(v, u), None);
}
