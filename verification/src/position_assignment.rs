use vstd::prelude::*;

verus! {

use crate::graph::{EdgeEntry, LayeredGraph, LookupError, Node};

/// The layer sequence as a sequence of sequences of node indices.
pub open spec fn layers_view(layers: Seq<Vec<usize>>) -> Seq<Seq<usize>> {
    Seq::new(layers.len(), |i: int| layers[i]@)
}

/// The layer sequence is non-empty and every node index it lists lies inside
/// the node table.
pub open spec fn layers_ok(n_nodes: int, lv: Seq<Seq<usize>>) -> bool {
    &&& lv.len() >= 1
    &&& forall|i: int, p: int|
            0 <= i < lv.len() && 0 <= p < lv[i].len() ==> (#[trigger] lv[i][p]) < n_nodes
}

/// Edge `j` is an inner segment: both endpoints are dummy nodes.
pub open spec fn inner_segment(nodes: Seq<Node>, edges: Seq<EdgeEntry>, j: int) -> bool {
    &&& nodes[edges[j].source as int].dummy
    &&& nodes[edges[j].target as int].dummy
}

/// Edges `j` and `k` cross in the ordering sense: the relative order of their
/// upper endpoints is the reverse of the relative order of their lower
/// endpoints.
pub open spec fn crossing(nodes: Seq<Node>, edges: Seq<EdgeEntry>, j: int, k: int) -> bool {
    let ou1 = nodes[edges[j].source as int].order;
    let ov1 = nodes[edges[j].target as int].order;
    let ou2 = nodes[edges[k].source as int].order;
    let ov2 = nodes[edges[k].target as int].order;
    (ou1 < ou2 && ov1 > ov2) || (ou1 > ou2 && ov1 < ov2)
}

/// Within the pair of layers headed by `layer`, the inner segment `j` forces
/// a conflict mark on the outer edge `k`: both edges leave `layer`, `j` is
/// inner, `k` is outer, and the two cross.
pub open spec fn marks_conflict_in_layer(
    nodes: Seq<Node>,
    edges: Seq<EdgeEntry>,
    layer: Seq<usize>,
    j: int,
    k: int,
) -> bool {
    &&& 0 <= j < edges.len()
    &&& layer.contains(edges[j].source)
    &&& layer.contains(edges[k].source)
    &&& inner_segment(nodes, edges, j)
    &&& !inner_segment(nodes, edges, k)
    &&& crossing(nodes, edges, j, k)
}

/// Edge `k` is marked by some inner segment of some scanned layer with index
/// below `hi`. Scanned layers are `1 .. lv.len() - 1`: the first and last
/// layer pairs are deliberately excluded, since a type-1 conflict needs an
/// inner layer on both sides.
pub open spec fn marks_conflict_upto(
    nodes: Seq<Node>,
    edges: Seq<EdgeEntry>,
    lv: Seq<Seq<usize>>,
    hi: int,
    k: int,
) -> bool {
    exists|i: int, j: int|
        1 <= i < hi && i < lv.len() - 1 && #[trigger] marks_conflict_in_layer(
            nodes,
            edges,
            lv[i],
            j,
            k,
        )
}

/// Edge `k` is marked by the conflict pass: some inner segment of some middle
/// layer crosses it.
pub open spec fn marks_conflict(
    nodes: Seq<Node>,
    edges: Seq<EdgeEntry>,
    lv: Seq<Seq<usize>>,
    k: int,
) -> bool {
    marks_conflict_upto(nodes, edges, lv, lv.len() - 1, k)
}

/// The conflict flag of edge `k` after one run of the conflict marker:
/// previously set flags stay, and crossed outer edges are added (monotone OR).
pub open spec fn conflict_after_marking(g: LayeredGraph, lv: Seq<Seq<usize>>, k: int) -> bool {
    g.edges@[k].edge.conflict || marks_conflict(g.nodes@, g.edges@, lv, k)
}

/// Some inner segment of `layer` marks the edge `k`.
pub open spec fn layer_marks(g0: LayeredGraph, layer: Seq<usize>, k: int) -> bool {
    exists|j: int| marks_conflict_in_layer(g0.nodes@, g0.edges@, layer, j, k)
}

/// The node and edge tables agree with `g` except that edge flags may differ:
/// same nodes, same edge endpoints.
pub open spec fn same_structure(g: LayeredGraph, nodes: Seq<Node>, edges: Seq<EdgeEntry>) -> bool {
    &&& nodes == g.nodes@
    &&& edges.len() == g.edges@.len()
    &&& forall|k: int|
            0 <= k < edges.len() ==> (#[trigger] edges[k]).source == g.edges@[k].source
                && edges[k].target == g.edges@[k].target
}

/// `crossing` and `inner_segment` read only the node attributes and the edge
/// endpoints, so they are insensitive to conflict flags: any two tables with
/// the same structure agree on them.
pub proof fn lemma_structure_only(
    g0: LayeredGraph,
    nodes: Seq<Node>,
    edges: Seq<EdgeEntry>,
    j: int,
    k: int,
)
    requires
        same_structure(g0, nodes, edges),
        0 <= j < edges.len(),
        0 <= k < edges.len(),
    ensures
        crossing(nodes, edges, j, k) == crossing(g0.nodes@, g0.edges@, j, k),
        inner_segment(nodes, edges, j) == inner_segment(g0.nodes@, g0.edges@, j),
        edges[j].source == g0.edges@[j].source,
        edges[j].target == g0.edges@[j].target,
{
}

/// Whether `x` occurs in `v`.
fn contains_index(v: &Vec<usize>, x: usize) -> (b: bool)
    ensures
        b == v@.contains(x),
{
    let mut p: usize = 0;
    while p < v.len()
        invariant
            p <= v@.len(),
            forall|q: int| 0 <= q < p ==> v@[q] != x,
        decreases v@.len() - p,
    {
        if v[p] == x {
            return true;
        }
        p = p + 1;
    }
    false
}

/// Whether edges `j` and `k` cross in the ordering sense.
fn crossing_between(graph: &LayeredGraph, j: usize, k: usize) -> (b: bool)
    requires
        graph.wf(),
        j < graph.edges@.len(),
        k < graph.edges@.len(),
    ensures
        b == crossing(graph.nodes@, graph.edges@, j as int, k as int),
{
    let ou1 = graph.nodes[graph.edges[j].source].order;
    let ov1 = graph.nodes[graph.edges[j].target].order;
    let ou2 = graph.nodes[graph.edges[k].source].order;
    let ov2 = graph.nodes[graph.edges[k].target].order;
    (ou1 < ou2 && ov1 > ov2) || (ou1 > ou2 && ov1 < ov2)
}

/// Partitions the edges leaving the nodes of `h1` into inner segments (both
/// endpoints dummy) and outer segments (at least one endpoint real), returned
/// as indices into the edge table.
fn segment(graph: &LayeredGraph, h1: &Vec<usize>) -> (r: (Vec<usize>, Vec<usize>))
    requires
        graph.wf(),
    ensures
        forall|e: usize|
            r.0@.contains(e) <==> e < graph.edges@.len() && h1@.contains(
                graph.edges@[e as int].source,
            ) && inner_segment(graph.nodes@, graph.edges@, e as int),
        forall|e: usize|
            r.1@.contains(e) <==> e < graph.edges@.len() && h1@.contains(
                graph.edges@[e as int].source,
            ) && !inner_segment(graph.nodes@, graph.edges@, e as int),
{
    let mut inner: Vec<usize> = Vec::new();
    let mut outer: Vec<usize> = Vec::new();
    let mut j: usize = 0;
    while j < graph.edges.len()
        invariant
            graph.wf(),
            j <= graph.edges@.len(),
            forall|e: usize|
                inner@.contains(e) <==> e < j && h1@.contains(graph.edges@[e as int].source)
                    && inner_segment(graph.nodes@, graph.edges@, e as int),
            forall|e: usize|
                outer@.contains(e) <==> e < j && h1@.contains(graph.edges@[e as int].source)
                    && !inner_segment(graph.nodes@, graph.edges@, e as int),
        decreases graph.edges@.len() - j,
    {
        let ghost inner0 = inner@;
        let ghost outer0 = outer@;
        if contains_index(h1, graph.edges[j].source) {
            let u = graph.edges[j].source;
            let v = graph.edges[j].target;
            if graph.nodes[u].dummy && graph.nodes[v].dummy {
                inner.push(j);
            } else {
                outer.push(j);
            }
        }
        proof {
            assert forall|e: usize|
                inner@.contains(e) implies e < j + 1 && h1@.contains(graph.edges@[e as int].source)
                && inner_segment(graph.nodes@, graph.edges@, e as int) by {
                let idx = choose|idx: int| 0 <= idx < inner@.len() && inner@[idx] == e;
                if idx < inner0.len() {
                    assert(inner0.contains(e));
                }
            }
            assert forall|e: usize|
                e < j + 1 && h1@.contains(graph.edges@[e as int].source) && inner_segment(
                    graph.nodes@,
                    graph.edges@,
                    e as int,
                ) implies inner@.contains(e) by {
                if e < j {
                    assert(inner0.contains(e));
                    let idx = choose|idx: int| 0 <= idx < inner0.len() && inner0[idx] == e;
                    assert(inner@[idx] == e);
                } else {
                    assert(inner@[inner@.len() - 1] == e);
                }
            }
            assert forall|e: usize|
                outer@.contains(e) implies e < j + 1 && h1@.contains(graph.edges@[e as int].source)
                && !inner_segment(graph.nodes@, graph.edges@, e as int) by {
                let idx = choose|idx: int| 0 <= idx < outer@.len() && outer@[idx] == e;
                if idx < outer0.len() {
                    assert(outer0.contains(e));
                }
            }
            assert forall|e: usize|
                e < j + 1 && h1@.contains(graph.edges@[e as int].source) && !inner_segment(
                    graph.nodes@,
                    graph.edges@,
                    e as int,
                ) implies outer@.contains(e) by {
                if e < j {
                    assert(outer0.contains(e));
                    let idx = choose|idx: int| 0 <= idx < outer0.len() && outer0[idx] == e;
                    assert(outer@[idx] == e);
                } else {
                    assert(outer@[outer@.len() - 1] == e);
                }
            }
        }
        j = j + 1;
    }
    (inner, outer)
}

/// Whether the layer sequence is non-empty and lists only node indices that
/// are present in the graph.
fn layers_valid(graph: &LayeredGraph, layers: &Vec<Vec<usize>>) -> (b: bool)
    ensures
        b == layers_ok(graph.nodes@.len() as int, layers_view(layers@)),
{
    if layers.len() == 0 {
        return false;
    }
    let mut i: usize = 0;
    while i < layers.len()
        invariant
            i <= layers@.len(),
            layers@.len() >= 1,
            forall|i2: int, p: int|
                0 <= i2 < i && 0 <= p < layers_view(layers@)[i2].len() ==> (#[trigger] layers_view(
                    layers@,
                )[i2][p]) < graph.nodes@.len(),
        decreases layers@.len() - i,
    {
        let layer = &layers[i];
        let mut p: usize = 0;
        while p < layer.len()
            invariant
                p <= layer@.len(),
                i < layers@.len(),
                layer@ == layers_view(layers@)[i as int],
                forall|q: int| 0 <= q < p ==> (#[trigger] layer@[q]) < graph.nodes@.len(),
            decreases layer@.len() - p,
        {
            if layer[p] >= graph.nodes.len() {
                return false;
            }
            p = p + 1;
        }
        i = i + 1;
    }
    true
}

/// Scans every pair of adjacent layers except the first and the last pair,
/// and marks as conflicting every outer edge that crosses an inner segment
/// leaving the same layer. Flags are only ever raised, never cleared. Returns
/// `Err` exactly when the layer sequence is empty or lists a node index
/// absent from the graph, in which case the graph is left untouched.
pub fn mark_conflicts(graph: &mut LayeredGraph, layers: &Vec<Vec<usize>>) -> (res: Result<
    (),
    LookupError,
>)
    requires
        old(graph).wf(),
    ensures
        res is Ok <==> layers_ok(old(graph).nodes@.len() as int, layers_view(layers@)),
        res is Ok ==> same_structure(*old(graph), final(graph).nodes@, final(graph).edges@),
        res is Ok ==> forall|k: int|
            0 <= k < old(graph).edges@.len() ==> (#[trigger] final(graph).edges@[k]).edge.conflict
                == conflict_after_marking(*old(graph), layers_view(layers@), k),
        res is Err ==> *final(graph) == *old(graph),
        final(graph).wf(),
{
    let ghost g0 = *graph;
    let ghost lv = layers_view(layers@);
    if !layers_valid(graph, layers) {
        return Err(LookupError);
    }
    let edge_count = graph.edges.len();
    let end = layers.len() - 1;
    let mut i: usize = 1;
    while i < end
        invariant
            graph.wf(),
            1 <= i,
            i <= end || i == 1,
            layers@.len() >= 1,
            end == layers@.len() - 1,
            g0.edges@.len() == edge_count,
            lv == layers_view(layers@),
            same_structure(g0, graph.nodes@, graph.edges@),
            forall|k: int|
                0 <= k < graph.edges@.len() ==> (#[trigger] graph.edges@[k]).edge.conflict == (
                g0.edges@[k].edge.conflict || marks_conflict_upto(
                    g0.nodes@,
                    g0.edges@,
                    lv,
                    i as int,
                    k,
                )),
        decreases end - i,
    {
        let (inner, outer) = segment(graph, &layers[i]);
        let ghost inner_s = inner@;
        let ghost outer_s = outer@;
        proof {
            // restate the segment characterization over the pre-pass tables
            assert forall|e: usize|
                inner_s.contains(e) <==> e < g0.edges@.len() && lv[i as int].contains(
                    g0.edges@[e as int].source,
                ) && inner_segment(g0.nodes@, g0.edges@, e as int) by {
                if e < g0.edges@.len() {
                    lemma_structure_only(g0, graph.nodes@, graph.edges@, e as int, e as int);
                }
            }
            assert forall|e: usize|
                outer_s.contains(e) <==> e < g0.edges@.len() && lv[i as int].contains(
                    g0.edges@[e as int].source,
                ) && !inner_segment(g0.nodes@, g0.edges@, e as int) by {
                if e < g0.edges@.len() {
                    lemma_structure_only(g0, graph.nodes@, graph.edges@, e as int, e as int);
                }
            }
        }
        let mut b: usize = 0;
        while b < outer.len()
            invariant
                graph.wf(),
                1 <= i,
                i < layers@.len() - 1,
                b <= outer_s.len(),
                g0.edges@.len() == edge_count,
                inner_s == inner@,
                outer_s == outer@,
                lv == layers_view(layers@),
                same_structure(g0, graph.nodes@, graph.edges@),
                forall|e: usize|
                    inner_s.contains(e) <==> e < g0.edges@.len() && lv[i as int].contains(
                        g0.edges@[e as int].source,
                    ) && inner_segment(g0.nodes@, g0.edges@, e as int),
                forall|e: usize|
                    outer_s.contains(e) <==> e < g0.edges@.len() && lv[i as int].contains(
                        g0.edges@[e as int].source,
                    ) && !inner_segment(g0.nodes@, g0.edges@, e as int),
                forall|k2: int|
                    0 <= k2 < graph.edges@.len() ==> (#[trigger] graph.edges@[k2]).edge.conflict
                        == (g0.edges@[k2].edge.conflict || marks_conflict_upto(
                        g0.nodes@,
                        g0.edges@,
                        lv,
                        i as int,
                        k2,
                    ) || ((exists|bi: int| 0 <= bi < b && outer_s[bi] as int == k2) && layer_marks(
                        g0,
                        lv[i as int],
                        k2,
                    ))),
            decreases outer_s.len() - b,
        {
            let k = outer[b];
            proof {
                assert(outer_s.contains(k));
            }
            let mut a: usize = 0;
            let mut hit = false;
            while a < inner.len()
                invariant
                    graph.wf(),
                    same_structure(g0, graph.nodes@, graph.edges@),
                    inner_s == inner@,
                    a <= inner_s.len(),
                    k < graph.edges@.len(),
                    k < g0.edges@.len(),
                    forall|e: usize|
                        inner_s.contains(e) <==> e < g0.edges@.len() && lv[i as int].contains(
                            g0.edges@[e as int].source,
                        ) && inner_segment(g0.nodes@, g0.edges@, e as int),
                    hit ==> (exists|ai: int|
                        0 <= ai < a && crossing(
                            g0.nodes@,
                            g0.edges@,
                            inner_s[ai] as int,
                            k as int,
                        )),
                    !hit ==> forall|ai: int|
                        0 <= ai < a ==> !crossing(
                            g0.nodes@,
                            g0.edges@,
                            (#[trigger] inner_s[ai]) as int,
                            k as int,
                        ),
                decreases inner_s.len() - a,
            {
                proof {
                    assert(inner_s.contains(inner_s[a as int]));
                }
                let cr = crossing_between(graph, inner[a], k);
                proof {
                    lemma_structure_only(
                        g0,
                        graph.nodes@,
                        graph.edges@,
                        inner_s[a as int] as int,
                        k as int,
                    );
                }
                if cr {
                    hit = true;
                }
                a = a + 1;
            }
            proof {
                // hit decides exactly whether some inner segment of this
                // layer marks k
                assert(hit == layer_marks(g0, lv[i as int], k as int)) by {
                    if hit {
                        let ai = choose|ai: int|
                            0 <= ai < inner_s.len() && crossing(
                                g0.nodes@,
                                g0.edges@,
                                inner_s[ai] as int,
                                k as int,
                            );
                        assert(inner_s.contains(inner_s[ai]));
                        assert(marks_conflict_in_layer(
                            g0.nodes@,
                            g0.edges@,
                            lv[i as int],
                            inner_s[ai] as int,
                            k as int,
                        ));
                    } else {
                        if layer_marks(g0, lv[i as int], k as int) {
                            let j = choose|j: int|
                                marks_conflict_in_layer(
                                    g0.nodes@,
                                    g0.edges@,
                                    lv[i as int],
                                    j,
                                    k as int,
                                );
                            assert(inner_s.contains(j as usize));
                            let ai = choose|ai: int|
                                0 <= ai < inner_s.len() && inner_s[ai] == j as usize;
                            assert(crossing(g0.nodes@, g0.edges@, inner_s[ai] as int, k as int));
                            assert(false);
                        }
                    }
                }
            }
            let ghost flags_before = graph.edges@;
            if hit {
                graph.edges[k].edge.conflict = true;
            }
            proof {
                assert(outer_s[b as int] == k);
                assert(same_structure(g0, graph.nodes@, graph.edges@));
                assert forall|k2: int|
                    0 <= k2 < graph.edges@.len() implies (#[trigger] graph.edges@[k2]).edge.conflict
                        == (g0.edges@[k2].edge.conflict || marks_conflict_upto(
                        g0.nodes@,
                        g0.edges@,
                        lv,
                        i as int,
                        k2,
                    ) || ((exists|bi: int| 0 <= bi < b + 1 && outer_s[bi] as int == k2)
                        && layer_marks(g0, lv[i as int], k2))) by {
                    if k2 == k as int {
                        assert(outer_s[b as int] as int == k2);
                        assert(exists|bi: int| 0 <= bi < b + 1 && outer_s[bi] as int == k2);
                        if !hit {
                            assert(graph.edges@[k2] == flags_before[k2]);
                        }
                    } else {
                        assert(graph.edges@[k2] == flags_before[k2]);
                        assert forall|bi: int|
                            0 <= bi < b + 1 && outer_s[bi] as int == k2 implies bi < b by {
                            if bi == b {
                                assert(outer_s[bi] == k);
                            }
                        }
                    }
                }
            }
            b = b + 1;
        }
        proof {
            // fold this layer's marks into the scan bound
            assert forall|k2: int|
                0 <= k2 < graph.edges@.len() implies (#[trigger] graph.edges@[k2]).edge.conflict
                    == (g0.edges@[k2].edge.conflict || marks_conflict_upto(
                    g0.nodes@,
                    g0.edges@,
                    lv,
                    i + 1,
                    k2,
                )) by {
                if graph.edges@[k2].edge.conflict {
                    if !g0.edges@[k2].edge.conflict && !marks_conflict_upto(
                        g0.nodes@,
                        g0.edges@,
                        lv,
                        i as int,
                        k2,
                    ) {
                        let j = choose|j: int|
                            marks_conflict_in_layer(g0.nodes@, g0.edges@, lv[i as int], j, k2);
                        assert(marks_conflict_in_layer(g0.nodes@, g0.edges@, lv[i as int], j, k2));
                        assert(marks_conflict_upto(g0.nodes@, g0.edges@, lv, i + 1, k2));
                    }
                } else {
                    if marks_conflict_upto(g0.nodes@, g0.edges@, lv, i + 1, k2) {
                        let (i2, j) = choose|i2: int, j: int|
                            1 <= i2 < i + 1 && i2 < lv.len() - 1 && #[trigger]
                            marks_conflict_in_layer(g0.nodes@, g0.edges@, lv[i2], j, k2);
                        if i2 == i as int {
                            assert(layer_marks(g0, lv[i as int], k2));
                            assert(outer_s.contains(k2 as usize));
                            let bi = choose|bi: int|
                                0 <= bi < outer_s.len() && outer_s[bi] == k2 as usize;
                            assert(outer_s[bi] as int == k2);
                            assert(false);
                        } else {
                            assert(marks_conflict_upto(g0.nodes@, g0.edges@, lv, i as int, k2));
                            assert(false);
                        }
                    }
                }
            }
        }
        i = i + 1;
    }
    proof {
        assert forall|k: int|
            0 <= k < graph.edges@.len() implies marks_conflict_upto(
            g0.nodes@,
            g0.edges@,
            lv,
            i as int,
            k,
        ) == marks_conflict(g0.nodes@, g0.edges@, lv, k) by {
            if marks_conflict_upto(g0.nodes@, g0.edges@, lv, i as int, k) {
                let (i2, j) = choose|i2: int, j: int|
                    1 <= i2 < i && i2 < lv.len() - 1 && #[trigger] marks_conflict_in_layer(
                        g0.nodes@,
                        g0.edges@,
                        lv[i2],
                        j,
                        k,
                    );
                assert(marks_conflict(g0.nodes@, g0.edges@, lv, k));
            }
            if marks_conflict(g0.nodes@, g0.edges@, lv, k) {
                let (i2, j) = choose|i2: int, j: int|
                    1 <= i2 < lv.len() - 1 && i2 < lv.len() - 1 && #[trigger]
                    marks_conflict_in_layer(g0.nodes@, g0.edges@, lv[i2], j, k);
                assert(marks_conflict_upto(g0.nodes@, g0.edges@, lv, i as int, k));
            }
        }
    }
    Ok(())
}

/// Runs the layout sub-passes implemented here: currently only conflict
/// marking. Same result and error contract as `mark_conflicts`.
pub fn brandes(graph: &mut LayeredGraph, layers: &Vec<Vec<usize>>) -> (res: Result<
    (),
    LookupError,
>)
    requires
        old(graph).wf(),
    ensures
        res is Ok <==> layers_ok(old(graph).nodes@.len() as int, layers_view(layers@)),
        res is Ok ==> same_structure(*old(graph), final(graph).nodes@, final(graph).edges@),
        res is Ok ==> forall|k: int|
            0 <= k < old(graph).edges@.len() ==> (#[trigger] final(graph).edges@[k]).edge.conflict
                == conflict_after_marking(*old(graph), layers_view(layers@), k),
        res is Err ==> *final(graph) == *old(graph),
        final(graph).wf(),
{
    mark_conflicts(graph, layers)
}

/// `n` with its block pointers replaced; all other attributes kept.
pub open spec fn with_pointers(n: Node, root: usize, align: usize) -> Node {
    Node {
        layer: n.layer,
        order: n.order,
        width: n.width,
        height: n.height,
        x: n.x,
        y: n.y,
        dummy: n.dummy,
        root: root,
        align: align,
    }
}

/// `n` with only its `align` pointer replaced.
pub open spec fn with_align(n: Node, align: usize) -> Node {
    with_pointers(n, n.root, align)
}

/// Every node reset to a singleton block: `root` and `align` point to the
/// node itself.
pub open spec fn init_pointers(nodes: Seq<Node>) -> Seq<Node> {
    Seq::new(nodes.len(), |q: int| with_pointers(nodes[q], q as usize, q as usize))
}

/// Candidate `u` qualifies as the alignment anchor of `v` under guard `r`:
/// the first edge from `u` to `v` is unconflicted and `u`'s order lies
/// strictly beyond the last order already used in this layer's sweep.
pub open spec fn candidate_ok(
    nodes: Seq<Node>,
    edges: Seq<EdgeEntry>,
    u: usize,
    v: usize,
    r: usize,
) -> bool {
    match crate::graph::first_edge(edges, u, v) {
        Some(j) => !edges[j].edge.conflict && nodes[u as int].order > r,
        None => false,
    }
}

/// The anchor picked for `v` given the oracle answer `m` and guard `r`: the
/// left median if it qualifies, otherwise the right median if distinct and
/// qualifying, otherwise none.
pub open spec fn chosen_anchor(
    nodes: Seq<Node>,
    edges: Seq<EdgeEntry>,
    m: Option<(usize, usize)>,
    v: usize,
    r: usize,
) -> Option<usize> {
    match m {
        None => None,
        Some((left, right)) => if candidate_ok(nodes, edges, left, v, r) {
            Some(left)
        } else if left != right && candidate_ok(nodes, edges, right, v, r) {
            Some(right)
        } else {
            None
        },
    }
}

/// One visit of node `v` during a layer sweep: if an anchor `u` qualifies,
/// `v` joins `u`'s block (`v.root` and `v.align` take `u.root`, `u.align`
/// extends to `v`) and the guard advances to `u`'s order; otherwise nothing
/// changes.
pub open spec fn align_step(
    nodes: Seq<Node>,
    edges: Seq<EdgeEntry>,
    m: Option<(usize, usize)>,
    v: usize,
    r: usize,
) -> (Seq<Node>, usize) {
    match chosen_anchor(nodes, edges, m, v, r) {
        None => (nodes, r),
        Some(u) => {
            let rt = nodes[u as int].root;
            let n1 = nodes.update(v as int, with_pointers(nodes[v as int], rt, rt));
            let n2 = n1.update(u as int, with_align(n1[u as int], v));
            (n2, nodes[u as int].order)
        },
    }
}

/// The sweep state after visiting the first `k` nodes of `layer`, starting
/// from `nodes` with the guard at its sentinel minimum.
pub open spec fn sweep_layer_prefix(
    nodes: Seq<Node>,
    edges: Seq<EdgeEntry>,
    medians: Seq<Option<(usize, usize)>>,
    layer: Seq<usize>,
    k: int,
) -> (Seq<Node>, usize)
    decreases k,
{
    if k <= 0 {
        (nodes, 0usize)
    } else {
        let prev = sweep_layer_prefix(nodes, edges, medians, layer, k - 1);
        let v = layer[k - 1];
        align_step(prev.0, edges, medians[v as int], v, prev.1)
    }
}

/// The node table after sweeping the layers with index `1 .. li` in
/// ascending order (the first layer is the anchor layer and is never swept).
pub open spec fn sweep_layers_upto(
    nodes: Seq<Node>,
    edges: Seq<EdgeEntry>,
    medians: Seq<Option<(usize, usize)>>,
    lv: Seq<Seq<usize>>,
    li: int,
) -> Seq<Node>
    decreases li,
{
    if li <= 1 {
        nodes
    } else {
        let prev = sweep_layers_upto(nodes, edges, medians, lv, li - 1);
        sweep_layer_prefix(prev, edges, medians, lv[li - 1], lv[li - 1].len() as int).0
    }
}

/// The node table produced by one full vertical-alignment pass on `g`.
pub open spec fn aligned_nodes(
    g: LayeredGraph,
    lv: Seq<Seq<usize>>,
    medians: Seq<Option<(usize, usize)>>,
) -> Seq<Node> {
    sweep_layers_upto(init_pointers(g.nodes@), g.edges@, medians, lv, lv.len() as int)
}

/// The oracle answer recorded for `v` is consistent with the graph: each
/// claimed median is a node of the graph with an edge to `v`.
pub open spec fn median_ok(
    g: LayeredGraph,
    medians: Seq<Option<(usize, usize)>>,
    v: usize,
) -> bool {
    match medians[v as int] {
        None => true,
        Some((left, right)) => {
            &&& left < g.nodes@.len()
            &&& right < g.nodes@.len()
            &&& crate::graph::first_edge(g.edges@, left, v) is Some
            &&& crate::graph::first_edge(g.edges@, right, v) is Some
        },
    }
}

/// The whole input of a vertical-alignment pass is consistent: valid layer
/// sequence, one oracle answer per node, and consistent answers for every
/// node the sweep visits.
pub open spec fn alignment_input_ok(
    g: LayeredGraph,
    lv: Seq<Seq<usize>>,
    medians: Seq<Option<(usize, usize)>>,
) -> bool {
    &&& layers_ok(g.nodes@.len() as int, lv)
    &&& medians.len() == g.nodes@.len()
    &&& forall|i: int, p: int|
            1 <= i < lv.len() && 0 <= p < lv[i].len() ==> median_ok(g, medians, #[trigger] lv[i][p])
}

/// Whether `u` qualifies as the alignment anchor of `v` under guard `r`.
fn try_candidate(graph: &LayeredGraph, u: usize, v: usize, r: usize) -> (b: bool)
    requires
        graph.wf(),
        u < graph.nodes@.len(),
    ensures
        b == candidate_ok(graph.nodes@, graph.edges@, u, v, r),
{
    match graph.find_edge(u, v) {
        Some(j) => {
            proof {
                crate::graph::lemma_first_edge_from(graph.edges@, u, v, 0);
            }
            !graph.edges[j].edge.conflict && graph.nodes[u].order > r
        },
        None => false,
    }
}

/// Whether the median table has one entry per node and every entry for a
/// node visited by the sweep (layers after the first) names nodes of the
/// graph that have an edge to it.
fn medians_valid(
    graph: &LayeredGraph,
    layers: &Vec<Vec<usize>>,
    medians: &Vec<Option<(usize, usize)>>,
) -> (b: bool)
    requires
        layers_ok(graph.nodes@.len() as int, layers_view(layers@)),
    ensures
        b == (medians@.len() == graph.nodes@.len() && forall|i: int, p: int|
            1 <= i < layers_view(layers@).len() && 0 <= p < layers_view(layers@)[i].len()
                ==> median_ok(*graph, medians@, #[trigger] layers_view(layers@)[i][p])),
{
    let ghost lv = layers_view(layers@);
    if medians.len() != graph.nodes.len() {
        return false;
    }
    let mut i: usize = 1;
    while i < layers.len()
        invariant
            1 <= i,
            i <= layers@.len(),
            lv == layers_view(layers@),
            layers_ok(graph.nodes@.len() as int, lv),
            medians@.len() == graph.nodes@.len(),
            forall|i2: int, p: int|
                1 <= i2 < i && 0 <= p < lv[i2].len() ==> median_ok(
                    *graph,
                    medians@,
                    #[trigger] lv[i2][p],
                ),
        decreases layers@.len() - i,
    {
        let layer = &layers[i];
        let mut p: usize = 0;
        while p < layer.len()
            invariant
                p <= layer@.len(),
                1 <= i < layers@.len(),
                layer@ == lv[i as int],
                lv == layers_view(layers@),
                layers_ok(graph.nodes@.len() as int, lv),
                medians@.len() == graph.nodes@.len(),
                forall|q: int| 0 <= q < p ==> median_ok(*graph, medians@, #[trigger] layer@[q]),
            decreases layer@.len() - p,
        {
            let v = layer[p];
            proof {
                assert(lv[i as int][p as int] == v);
            }
            match medians[v] {
                None => {},
                Some((left, right)) => {
                    if left >= graph.nodes.len() || right >= graph.nodes.len() {
                        return false;
                    }
                    if graph.find_edge(left, v).is_none() {
                        return false;
                    }
                    if graph.find_edge(right, v).is_none() {
                        return false;
                    }
                },
            }
            p = p + 1;
        }
        i = i + 1;
    }
    true
}

/// Resets every node to a singleton block, then sweeps each layer after the
/// first in ascending order position: each node joins the block of its first
/// qualifying median neighbor in the previous layer (unconflicted edge, order
/// strictly beyond the last anchor used in this layer), extending that block's
/// chain downward; nodes with no qualifying candidate keep their singleton
/// block. The order guard starts at the minimum representable value, so a
/// candidate whose order is zero never qualifies. Returns `Err` exactly when
/// the layer sequence is empty or lists an absent node, when the median table
/// does not have one entry per node, or when a median recorded for a visited
/// node is absent or lacks an edge to it; the graph is then left untouched.
pub fn vertical_alignment(
    graph: &mut LayeredGraph,
    layers: &Vec<Vec<usize>>,
    medians: &Vec<Option<(usize, usize)>>,
) -> (res: Result<(), LookupError>)
    requires
        old(graph).wf(),
    ensures
        res is Ok <==> alignment_input_ok(*old(graph), layers_view(layers@), medians@),
        res is Ok ==> final(graph).nodes@ == aligned_nodes(
            *old(graph),
            layers_view(layers@),
            medians@,
        ),
        final(graph).edges@ == old(graph).edges@,
        res is Err ==> *final(graph) == *old(graph),
        final(graph).wf(),
{
    let ghost g0 = *graph;
    let ghost lv = layers_view(layers@);
    if !layers_valid(graph, layers) {
        return Err(LookupError);
    }
    if !medians_valid(graph, layers, medians) {
        return Err(LookupError);
    }
    // reset every node to a singleton block
    let n: usize = graph.nodes.len();
    let mut t: usize = 0;
    while t < n
        invariant
            t <= n,
            n == graph.nodes@.len(),
            graph.nodes@.len() == g0.nodes@.len(),
            graph.edges@ == g0.edges@,
            graph.wf(),
            forall|q: int| 0 <= q < t ==> graph.nodes@[q] == init_pointers(g0.nodes@)[q],
            forall|q: int| t <= q < n ==> graph.nodes@[q] == g0.nodes@[q],
        decreases n - t,
    {
        graph.nodes[t].root = t;
        graph.nodes[t].align = t;
        t = t + 1;
    }
    proof {
        assert(graph.nodes@ =~= init_pointers(g0.nodes@));
    }
    let ghost nodes_init = graph.nodes@;
    let mut li: usize = 1;
    while li < layers.len()
        invariant
            graph.wf(),
            1 <= li,
            li <= layers@.len(),
            lv == layers_view(layers@),
            alignment_input_ok(g0, lv, medians@),
            graph.edges@ == g0.edges@,
            graph.nodes@.len() == g0.nodes@.len(),
            medians@.len() == g0.nodes@.len(),
            nodes_init == init_pointers(g0.nodes@),
            graph.nodes@ == sweep_layers_upto(nodes_init, g0.edges@, medians@, lv, li as int),
        decreases layers@.len() - li,
    {
        let layer = &layers[li];
        let ghost nodes_at_layer = graph.nodes@;
        let mut r: usize = 0;
        let mut k: usize = 0;
        while k < layer.len()
            invariant
                graph.wf(),
                1 <= li < layers@.len(),
                k <= layer@.len(),
                layer@ == lv[li as int],
                lv == layers_view(layers@),
                alignment_input_ok(g0, lv, medians@),
                graph.edges@ == g0.edges@,
                graph.nodes@.len() == g0.nodes@.len(),
                medians@.len() == g0.nodes@.len(),
                graph.nodes@ == sweep_layer_prefix(
                    nodes_at_layer,
                    g0.edges@,
                    medians@,
                    layer@,
                    k as int,
                ).0,
                r == sweep_layer_prefix(nodes_at_layer, g0.edges@, medians@, layer@, k as int).1,
            decreases layer@.len() - k,
        {
            let v = layer[k];
            proof {
                assert(lv[li as int][k as int] == v);
                assert(v < g0.nodes@.len());
                assert(median_ok(g0, medians@, v));
            }
            let ghost pre_nodes = graph.nodes@;
            let ghost pre_r = r;
            match medians[v] {
                None => {
                    proof {
                        assert(align_step(pre_nodes, g0.edges@, medians@[v as int], v, pre_r)
                            == (pre_nodes, pre_r));
                    }
                },
                Some((left, right)) => {
                    let mut chosen: Option<usize> = None;
                    if try_candidate(graph, left, v, r) {
                        chosen = Some(left);
                    } else if left != right && try_candidate(graph, right, v, r) {
                        chosen = Some(right);
                    }
                    proof {
                        assert(chosen == chosen_anchor(
                            pre_nodes,
                            g0.edges@,
                            medians@[v as int],
                            v,
                            pre_r,
                        ));
                    }
                    match chosen {
                        None => {},
                        Some(u) => {
                            let rt: usize = graph.nodes[u].root;
                            let ord_u: usize = graph.nodes[u].order;
                            graph.nodes[v].align = rt;
                            graph.nodes[v].root = rt;
                            graph.nodes[u].align = v;
                            r = ord_u;
                            proof {
                                let n1 = pre_nodes.update(
                                    v as int,
                                    with_pointers(pre_nodes[v as int], rt, rt),
                                );
                                assert(graph.nodes@ =~= n1.update(
                                    u as int,
                                    with_align(n1[u as int], v),
                                ));
                            }
                        },
                    }
                },
            }
            proof {
                assert(sweep_layer_prefix(nodes_at_layer, g0.edges@, medians@, layer@, k + 1)
                    == align_step(pre_nodes, g0.edges@, medians@[v as int], v, pre_r));
            }
            k = k + 1;
        }
        proof {
            assert(sweep_layers_upto(nodes_init, g0.edges@, medians@, lv, li + 1)
                == sweep_layer_prefix(
                nodes_at_layer,
                g0.edges@,
                medians@,
                lv[li as int],
                lv[li as int].len() as int,
            ).0);
        }
        li = li + 1;
    }
    Ok(())
}

} // verus!
