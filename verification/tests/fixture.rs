use layer_align::graph::{Edge, LayeredGraph, Node};
use layer_align::position_assignment::{brandes, mark_conflicts, vertical_alignment};

fn node(order: usize, dummy: bool) -> Node {
    let mut n = Node::new();
    n.order = order;
    n.dummy = dummy;
    n
}

fn flagged() -> Edge {
    let mut e = Edge::new();
    e.conflict = true;
    e
}

#[test]
fn test_brandes() {
    let mut graph = LayeredGraph::new();
    let a1 = graph.add_node(node(0, false));
    let a2 = graph.add_node(node(1, false));
    let b1 = graph.add_node(node(0, false));
    let b2 = graph.add_node(node(1, false));
    let b3 = graph.add_node(node(2, true));
    let b4 = graph.add_node(node(3, false));
    let b5 = graph.add_node(node(4, true));
    let b6 = graph.add_node(node(5, true));
    let b7 = graph.add_node(node(6, false));
    let b8 = graph.add_node(node(7, false));
    let c1 = graph.add_node(node(0, false));
    let c2 = graph.add_node(node(1, false));
    let c3 = graph.add_node(node(2, true));
    let c4 = graph.add_node(node(3, true));
    let c5 = graph.add_node(node(4, true));
    let c6 = graph.add_node(node(5, false));
    let d1 = graph.add_node(node(0, false));
    let d2 = graph.add_node(node(1, false));
    let d3 = graph.add_node(node(2, true));
    let d4 = graph.add_node(node(3, true));
    let d5 = graph.add_node(node(4, true));
    let d6 = graph.add_node(node(5, false));
    let d7 = graph.add_node(node(6, true));
    let e1 = graph.add_node(node(0, false));
    let e2 = graph.add_node(node(1, false));
    let e3 = graph.add_node(node(2, false));
    graph.add_edge(a1, b1, Edge::new());
    graph.add_edge(a1, b6, Edge::new());
    graph.add_edge(a1, b8, Edge::new());
    graph.add_edge(a2, b3, Edge::new());
    graph.add_edge(a2, b5, Edge::new());
    graph.add_edge(b2, c2, Edge::new());
    graph.add_edge(b3, c2, Edge::new());
    graph.add_edge(b4, c2, Edge::new());
    graph.add_edge(b5, c3, Edge::new());
    graph.add_edge(b6, c4, Edge::new());
    let b7c2 = graph.add_edge(b7, c2, Edge::new());
    graph.add_edge(b7, c6, Edge::new());
    let b8c2 = graph.add_edge(b8, c2, Edge::new());
    graph.add_edge(b8, c5, Edge::new());
    graph.add_edge(c1, d1, Edge::new());
    graph.add_edge(c1, d2, Edge::new());
    let c1d6 = graph.add_edge(c1, d6, Edge::new());
    graph.add_edge(c3, d4, Edge::new());
    graph.add_edge(c4, d5, Edge::new());
    graph.add_edge(c5, d6, Edge::new());
    let c6d3 = graph.add_edge(c6, d3, Edge::new());
    graph.add_edge(c6, d7, Edge::new());
    graph.add_edge(d1, e1, Edge::new());
    graph.add_edge(d1, e2, Edge::new());
    graph.add_edge(d2, e2, Edge::new());
    graph.add_edge(d3, e1, Edge::new());
    graph.add_edge(d4, e3, Edge::new());
    graph.add_edge(d5, e3, Edge::new());
    graph.add_edge(d6, e3, Edge::new());
    graph.add_edge(d7, e3, Edge::new());
    let layers = vec![
        vec![a1, a2],
        vec![b1, b2, b3, b4, b5, b6, b7, b8],
        vec![c1, c2, c3, c4, c5, c6],
        vec![d1, d2, d3, d4, d5, d6, d7],
        vec![e1, e2, e3],
    ];
    mark_conflicts(&mut graph, &layers).unwrap();
    assert!(graph.edges[b7c2].edge.conflict);
    assert!(graph.edges[b8c2].edge.conflict);
    assert!(graph.edges[c1d6].edge.conflict);
    assert!(graph.edges[c6d3].edge.conflict);
}

#[test]
fn test_mark_conflicts() {
    let mut graph = LayeredGraph::new();
    let a = graph.add_node(Node::new());
    let b = graph.add_node(Node::new());
    let c = graph.add_node(Node::new());
    graph.add_edge(a, b, Edge::new());
    graph.add_edge(b, c, Edge::new());
    graph.add_edge(c, a, Edge::new());
    let layers = vec![vec![a], vec![b], vec![c]];
    brandes(&mut graph, &layers).unwrap();
}

#[test]
fn test_vertical_alignment() {
    let mut graph = LayeredGraph::new();
    let a1 = graph.add_node(node(1, false));
    let a2 = graph.add_node(node(2, false));
    let b1 = graph.add_node(node(1, false));
    let b2 = graph.add_node(node(2, false));
    let b3 = graph.add_node(node(3, true));
    let b4 = graph.add_node(node(4, false));
    let b5 = graph.add_node(node(5, true));
    let b6 = graph.add_node(node(6, true));
    let b7 = graph.add_node(node(7, false));
    let b8 = graph.add_node(node(8, false));
    let c1 = graph.add_node(node(1, false));
    let c2 = graph.add_node(node(2, false));
    let c3 = graph.add_node(node(3, true));
    let c4 = graph.add_node(node(4, true));
    let c5 = graph.add_node(node(5, true));
    let c6 = graph.add_node(node(6, false));
    let d1 = graph.add_node(node(1, false));
    let d2 = graph.add_node(node(2, false));
    let d3 = graph.add_node(node(3, true));
    let d4 = graph.add_node(node(4, true));
    let d5 = graph.add_node(node(5, true));
    let d6 = graph.add_node(node(6, false));
    let d7 = graph.add_node(node(7, true));
    let e1 = graph.add_node(node(1, false));
    let e2 = graph.add_node(node(2, false));
    let e3 = graph.add_node(node(3, false));
    graph.add_edge(a1, b1, Edge::new());
    graph.add_edge(a1, b6, Edge::new());
    graph.add_edge(a1, b8, Edge::new());
    graph.add_edge(a2, b3, Edge::new());
    graph.add_edge(a2, b5, Edge::new());
    graph.add_edge(b2, c2, Edge::new());
    graph.add_edge(b3, c2, Edge::new());
    graph.add_edge(b4, c2, Edge::new());
    graph.add_edge(b5, c3, Edge::new());
    graph.add_edge(b6, c4, Edge::new());
    graph.add_edge(b7, c2, flagged());
    graph.add_edge(b7, c6, Edge::new());
    graph.add_edge(b8, c2, flagged());
    graph.add_edge(b8, c5, Edge::new());
    graph.add_edge(c1, d1, Edge::new());
    graph.add_edge(c1, d2, Edge::new());
    graph.add_edge(c1, d6, flagged());
    graph.add_edge(c3, d4, Edge::new());
    graph.add_edge(c4, d5, Edge::new());
    graph.add_edge(c5, d6, Edge::new());
    graph.add_edge(c6, d3, flagged());
    graph.add_edge(c6, d7, Edge::new());
    graph.add_edge(d1, e1, Edge::new());
    graph.add_edge(d1, e2, Edge::new());
    graph.add_edge(d2, e2, Edge::new());
    graph.add_edge(d3, e1, Edge::new());
    graph.add_edge(d4, e3, Edge::new());
    graph.add_edge(d5, e3, Edge::new());
    graph.add_edge(d6, e3, Edge::new());
    graph.add_edge(d7, e3, Edge::new());
    let layers = vec![
        vec![a1, a2],
        vec![b1, b2, b3, b4, b5, b6, b7, b8],
        vec![c1, c2, c3, c4, c5, c6],
        vec![d1, d2, d3, d4, d5, d6, d7],
        vec![e1, e2, e3],
    ];
    // answers of the median oracle toward the previous layer, one per node
    let mut medians: Vec<Option<(usize, usize)>> = vec![None; 26];
    medians[b1] = Some((a1, a1));
    medians[b3] = Some((a2, a2));
    medians[b5] = Some((a2, a2));
    medians[b6] = Some((a1, a1));
    medians[b8] = Some((a1, a1));
    medians[c2] = Some((b4, b4));
    medians[c3] = Some((b5, b5));
    medians[c4] = Some((b6, b6));
    medians[c5] = Some((b8, b8));
    medians[c6] = Some((b7, b7));
    medians[d1] = Some((c1, c1));
    medians[d2] = Some((c1, c1));
    medians[d3] = Some((c6, c6));
    medians[d4] = Some((c3, c3));
    medians[d5] = Some((c4, c4));
    medians[d6] = Some((c1, c5));
    medians[d7] = Some((c6, c6));
    medians[e1] = Some((d1, d3));
    medians[e2] = Some((d1, d2));
    medians[e3] = Some((d5, d6));
    vertical_alignment(&mut graph, &layers, &medians).unwrap();
    assert_eq!(graph.nodes[a1].root, a1);
    assert_eq!(graph.nodes[a1].align, b1);
    assert_eq!(graph.nodes[a2].root, a2);
    assert_eq!(graph.nodes[a2].align, b3);
    assert_eq!(graph.nodes[b1].root, a1);
    assert_eq!(graph.nodes[b1].align, a1);
    assert_eq!(graph.nodes[b2].root, b2);
    assert_eq!(graph.nodes[b2].align, b2);
    assert_eq!(graph.nodes[b3].root, a2);
    assert_eq!(graph.nodes[b3].align, a2);
    assert_eq!(graph.nodes[b4].root, b4);
    assert_eq!(graph.nodes[b4].align, c2);
    assert_eq!(graph.nodes[b5].root, b5);
    assert_eq!(graph.nodes[b5].align, c3);
    assert_eq!(graph.nodes[b6].root, b6);
    assert_eq!(graph.nodes[b6].align, c4);
    assert_eq!(graph.nodes[b7].root, b7);
    assert_eq!(graph.nodes[b7].align, b7);
    assert_eq!(graph.nodes[b8].root, b8);
    assert_eq!(graph.nodes[b8].align, c5);
    assert_eq!(graph.nodes[c1].root, c1);
    assert_eq!(graph.nodes[c1].align, d1);
    assert_eq!(graph.nodes[c2].root, b4);
    assert_eq!(graph.nodes[c2].align, b4);
    assert_eq!(graph.nodes[c3].root, b5);
    assert_eq!(graph.nodes[c3].align, d4);
    assert_eq!(graph.nodes[c4].root, b6);
    assert_eq!(graph.nodes[c4].align, d5);
    assert_eq!(graph.nodes[c5].root, b8);
    assert_eq!(graph.nodes[c5].align, d6);
    assert_eq!(graph.nodes[c6].root, c6);
    assert_eq!(graph.nodes[c6].align, d7);
    assert_eq!(graph.nodes[d1].root, c1);
    assert_eq!(graph.nodes[d1].align, e1);
    assert_eq!(graph.nodes[d2].root, d2);
    assert_eq!(graph.nodes[d2].align, e2);
    assert_eq!(graph.nodes[d3].root, d3);
    assert_eq!(graph.nodes[d3].align, d3);
    assert_eq!(graph.nodes[d4].root, b5);
    assert_eq!(graph.nodes[d4].align, b5);
    assert_eq!(graph.nodes[d5].root, b6);
    assert_eq!(graph.nodes[d5].align, e3);
    assert_eq!(graph.nodes[d6].root, b8);
    assert_eq!(graph.nodes[d6].align, b8);
    assert_eq!(graph.nodes[d7].root, c6);
    assert_eq!(graph.nodes[d7].align, c6);
    assert_eq!(graph.nodes[e1].root, c1);
    assert_eq!(graph.nodes[e1].align, c1);
    assert_eq!(graph.nodes[e2].root, d2);
    assert_eq!(graph.nodes[e2].align, d2);
    assert_eq!(graph.nodes[e3].root, b6);
    assert_eq!(graph.nodes[e3].align, b6);
}
