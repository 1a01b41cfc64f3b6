use vstd::prelude::*;

verus! {

/// A vertex of a layered graph. `layer` is the index of the horizontal layer
/// the node belongs to, `order` its position within that layer's left-to-right
/// ordering. `width`, `height`, `x` and `y` are opaque to this crate: they are
/// reserved for the horizontal-compaction stage that consumes the block
/// structure computed here. `dummy` marks synthetic nodes inserted to route a
/// long edge through intermediate layers. `root` and `align` are node indices
/// forming the alignment-block chains written by vertical alignment.
#[derive(Clone, Copy)]
pub struct Node {
    pub layer: usize,
    pub order: usize,
    pub width: usize,
    pub height: usize,
    pub x: i32,
    pub y: i32,
    pub dummy: bool,
    pub root: usize,
    pub align: usize,
}

impl Node {
    /// A fresh node with zeroed attributes; `root` and `align` are reset to
    /// the node's own index when vertical alignment initializes its pass.
    pub fn new() -> (n: Node)
        ensures
            n == (Node {
                layer: 0,
                order: 0,
                width: 0,
                height: 0,
                x: 0,
                y: 0,
                dummy: false,
                root: 0,
                align: 0,
            }),
    {
        Node {
            layer: 0,
            order: 0,
            width: 0,
            height: 0,
            x: 0,
            y: 0,
            dummy: false,
            root: 0,
            align: 0,
        }
    }
}

/// Payload of a directed inter-layer edge. `conflict` is set by the conflict
/// marker when the edge crosses an inner segment; it is never cleared within
/// a pass.
#[derive(Clone, Copy)]
pub struct Edge {
    pub conflict: bool,
}

impl Edge {
    pub fn new() -> (e: Edge)
        ensures
            e == (Edge { conflict: false }),
    {
        Edge { conflict: false }
    }
}

/// One directed edge of the graph: its endpoints (indices into the node
/// table) and its payload.
#[derive(Clone, Copy)]
pub struct EdgeEntry {
    pub source: usize,
    pub target: usize,
    pub edge: Edge,
}

/// Signals that a layer sequence or a median table refers to a node or an
/// edge that is not present in the graph, or that the layer sequence itself
/// is malformed (empty). The pass aborts before mutating anything.
#[derive(Clone, Copy, Debug, PartialEq, Eq)]
pub struct LookupError;

/// A layered directed graph held as an index-based arena: a node table and an
/// edge table. Nodes and edges reference each other only through indices into
/// these tables; nothing is freed individually during a layout pass.
pub struct LayeredGraph {
    pub nodes: Vec<Node>,
    pub edges: Vec<EdgeEntry>,
}

/// Edge `j` of `edges` runs from `source` to `target`.
pub open spec fn edge_matches(edges: Seq<EdgeEntry>, source: usize, target: usize, j: int) -> bool {
    &&& 0 <= j < edges.len()
    &&& edges[j].source == source
    &&& edges[j].target == target
}

/// Index of the first edge from `source` to `target` at or after position
/// `i`, if any.
pub open spec fn first_edge_from(edges: Seq<EdgeEntry>, source: usize, target: usize, i: int) -> Option<int>
    decreases edges.len() - i,
{
    if i < 0 || i >= edges.len() {
        None
    } else if edges[i].source == source && edges[i].target == target {
        Some(i)
    } else {
        first_edge_from(edges, source, target, i + 1)
    }
}

/// Index of the first edge from `source` to `target`, if any.
pub open spec fn first_edge(edges: Seq<EdgeEntry>, source: usize, target: usize) -> Option<int> {
    first_edge_from(edges, source, target, 0)
}

/// `first_edge_from` returns the least matching index at or after `i`, and
/// `None` exactly when no edge at or after `i` matches.
pub proof fn lemma_first_edge_from(edges: Seq<EdgeEntry>, source: usize, target: usize, i: int)
    requires
        0 <= i <= edges.len(),
    ensures
        match first_edge_from(edges, source, target, i) {
            Some(j) => edge_matches(edges, source, target, j) && i <= j
                && forall|j2: int| i <= j2 < j ==> !edge_matches(edges, source, target, j2),
            None => forall|j2: int| i <= j2 < edges.len() ==> !edge_matches(edges, source, target, j2),
        },
    decreases edges.len() - i,
{
    if i < edges.len() && !(edges[i].source == source && edges[i].target == target) {
        lemma_first_edge_from(edges, source, target, i + 1);
    }
}

impl LayeredGraph {
    /// Every edge's endpoints lie inside the node table.
    pub open spec fn wf(self) -> bool {
        forall|j: int| 0 <= j < self.edges@.len()
            ==> (#[trigger] self.edges@[j]).source < self.nodes@.len()
                && self.edges@[j].target < self.nodes@.len()
    }

    pub fn new() -> (g: LayeredGraph)
        ensures
            g.nodes@.len() == 0,
            g.edges@.len() == 0,
            g.wf(),
    {
        LayeredGraph { nodes: Vec::new(), edges: Vec::new() }
    }

    /// Appends a node to the node table and returns its index.
    pub fn add_node(&mut self, node: Node) -> (idx: usize)
        ensures
            final(self).nodes@ == old(self).nodes@.push(node),
            final(self).edges@ == old(self).edges@,
            idx == old(self).nodes@.len(),
            old(self).wf() ==> final(self).wf(),
    {
        let idx = self.nodes.len();
        self.nodes.push(node);
        idx
    }

    /// Appends an edge from `source` to `target` and returns its index. The
    /// endpoints must already be nodes of the graph.
    pub fn add_edge(&mut self, source: usize, target: usize, edge: Edge) -> (idx: usize)
        requires
            source < old(self).nodes@.len(),
            target < old(self).nodes@.len(),
        ensures
            final(self).edges@ == old(self).edges@.push(EdgeEntry { source, target, edge }),
            final(self).nodes@ == old(self).nodes@,
            idx == old(self).edges@.len(),
            old(self).wf() ==> final(self).wf(),
    {
        let idx = self.edges.len();
        self.edges.push(EdgeEntry { source, target, edge });
        idx
    }

    /// Index of the first edge from `source` to `target`, if one exists.
    pub fn find_edge(&self, source: usize, target: usize) -> (r: Option<usize>)
        ensures
            match r {
                Some(j) => first_edge(self.edges@, source, target) == Some(j as int),
                None => first_edge(self.edges@, source, target) is None,
            },
    {
        let mut i: usize = 0;
        while i < self.edges.len()
            invariant
                i <= self.edges@.len(),
                first_edge(self.edges@, source, target)
                    == first_edge_from(self.edges@, source, target, i as int),
            decreases self.edges@.len() - i,
        {
            if self.edges[i].source == source && self.edges[i].target == target {
                return Some(i);
            }
            i = i + 1;
        }
        None
    }
}

} // verus!
