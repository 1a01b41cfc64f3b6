use vstd::prelude::*;

verus! {

use crate::graph::{EdgeEntry, LayeredGraph, Node};
use crate::position_assignment::{
    align_step, aligned_nodes, alignment_input_ok, candidate_ok, chosen_anchor,
    conflict_after_marking, init_pointers, inner_segment, layers_ok, lemma_structure_only,
    marks_conflict, marks_conflict_in_layer, same_structure, sweep_layer_prefix,
    sweep_layers_upto, with_align, with_pointers,
};

/// Whether a single mark depends only on the structure: two graphs with the
/// same nodes and edge endpoints mark the same edges, whatever their flags.
pub proof fn lemma_marks_structure_only(
    g1: LayeredGraph,
    nodes2: Seq<Node>,
    edges2: Seq<EdgeEntry>,
    lv: Seq<Seq<usize>>,
    k: int,
)
    requires
        same_structure(g1, nodes2, edges2),
        0 <= k < g1.edges@.len(),
    ensures
        marks_conflict(nodes2, edges2, lv, k) == marks_conflict(g1.nodes@, g1.edges@, lv, k),
{
    if marks_conflict(nodes2, edges2, lv, k) {
        let (i, j) = choose|i: int, j: int|
            1 <= i < lv.len() - 1 && i < lv.len() - 1 && #[trigger] marks_conflict_in_layer(
                nodes2,
                edges2,
                lv[i],
                j,
                k,
            );
        lemma_structure_only(g1, nodes2, edges2, j, k);
        assert(marks_conflict_in_layer(g1.nodes@, g1.edges@, lv[i], j, k));
        assert(marks_conflict(g1.nodes@, g1.edges@, lv, k));
    }
    if marks_conflict(g1.nodes@, g1.edges@, lv, k) {
        let (i, j) = choose|i: int, j: int|
            1 <= i < lv.len() - 1 && i < lv.len() - 1 && #[trigger] marks_conflict_in_layer(
                g1.nodes@,
                g1.edges@,
                lv[i],
                j,
                k,
            );
        lemma_structure_only(g1, nodes2, edges2, j, k);
        assert(marks_conflict_in_layer(nodes2, edges2, lv[i], j, k));
        assert(marks_conflict(nodes2, edges2, lv, k));
    }
}

/// Law: only outer edges are ever flagged. The conflict pass never changes
/// the flag of an inner segment, and a newly raised flag can only come from a
/// middle layer pair: one whose index is neither the first nor the last.
pub proof fn lemma_conflict_only_outer(g: LayeredGraph, lv: Seq<Seq<usize>>, k: int)
    requires
        0 <= k < g.edges@.len(),
    ensures
        inner_segment(g.nodes@, g.edges@, k) ==> conflict_after_marking(g, lv, k)
            == g.edges@[k].edge.conflict,
        conflict_after_marking(g, lv, k) && !g.edges@[k].edge.conflict ==> exists|i: int|
            1 <= i < lv.len() - 1 && (#[trigger] lv[i]).contains(g.edges@[k].source),
{
    if inner_segment(g.nodes@, g.edges@, k) && marks_conflict(g.nodes@, g.edges@, lv, k) {
        let (i, j) = choose|i: int, j: int|
            1 <= i < lv.len() - 1 && i < lv.len() - 1 && #[trigger] marks_conflict_in_layer(
                g.nodes@,
                g.edges@,
                lv[i],
                j,
                k,
            );
        assert(false);
    }
    if marks_conflict(g.nodes@, g.edges@, lv, k) {
        let (i, j) = choose|i: int, j: int|
            1 <= i < lv.len() - 1 && i < lv.len() - 1 && #[trigger] marks_conflict_in_layer(
                g.nodes@,
                g.edges@,
                lv[i],
                j,
                k,
            );
        assert(lv[i].contains(g.edges@[k].source));
    }
}

/// Law: conflict marking is idempotent. Given `g2`, the graph produced by one
/// marking pass over `g1`, a second pass over `g2` computes the same flag for
/// every edge: flags only ever move from false to true, and whether an edge
/// is marked depends only on the structure, which the pass never changes.
pub proof fn lemma_marking_idempotent(
    g1: LayeredGraph,
    g2: LayeredGraph,
    lv: Seq<Seq<usize>>,
    k: int,
)
    requires
        same_structure(g1, g2.nodes@, g2.edges@),
        0 <= k < g1.edges@.len(),
        forall|k2: int|
            0 <= k2 < g1.edges@.len() ==> (#[trigger] g2.edges@[k2]).edge.conflict
                == conflict_after_marking(g1, lv, k2),
    ensures
        conflict_after_marking(g2, lv, k) == conflict_after_marking(g1, lv, k),
{
    lemma_marks_structure_only(g1, g2.nodes@, g2.edges@, lv, k);
}

/// Law: a node with no qualifying median candidate is left exactly as its
/// visit found it — the oracle gave no answer, or every candidate's edge is
/// conflicted or its order does not exceed the guard. In particular, a node
/// still in its initialized singleton block stays its own root and aligns to
/// itself.
pub proof fn lemma_self_alignment_default(
    nodes: Seq<Node>,
    edges: Seq<EdgeEntry>,
    m: Option<(usize, usize)>,
    v: usize,
    r: usize,
)
    requires
        match m {
            None => true,
            Some((left, right)) => !candidate_ok(nodes, edges, left, v, r) && !candidate_ok(
                nodes,
                edges,
                right,
                v,
                r,
            ),
        },
    ensures
        align_step(nodes, edges, m, v, r).0 == nodes,
        align_step(nodes, edges, m, v, r).1 == r,
{
}

/// Every entry of `layer` is a node of the table, and so is every median
/// candidate recorded for it.
pub open spec fn layer_targets_ok(
    n: int,
    medians: Seq<Option<(usize, usize)>>,
    layer: Seq<usize>,
) -> bool {
    forall|p: int|
        0 <= p < layer.len() ==> (#[trigger] layer[p]) < n && match medians[layer[p] as int] {
            None => true,
            Some((left, right)) => left < n && right < n,
        }
}

/// `a` and `b` agree on everything except the block pointers.
pub open spec fn same_attributes(a: Node, b: Node) -> bool {
    &&& a.layer == b.layer
    &&& a.order == b.order
    &&& a.width == b.width
    &&& a.height == b.height
    &&& a.x == b.x
    &&& a.y == b.y
    &&& a.dummy == b.dummy
}

/// A layer sweep writes only `root` and `align`: the table keeps its length
/// and every other node attribute.
pub proof fn lemma_prefix_keeps_attributes(
    nodes: Seq<Node>,
    edges: Seq<EdgeEntry>,
    medians: Seq<Option<(usize, usize)>>,
    layer: Seq<usize>,
    k: int,
)
    requires
        0 <= k <= layer.len(),
        medians.len() == nodes.len(),
        layer_targets_ok(nodes.len() as int, medians, layer),
    ensures
        sweep_layer_prefix(nodes, edges, medians, layer, k).0.len() == nodes.len(),
        forall|q: int|
            0 <= q < nodes.len() ==> same_attributes(
                #[trigger] sweep_layer_prefix(nodes, edges, medians, layer, k).0[q],
                nodes[q],
            ),
    decreases k,
{
    if k > 0 {
        lemma_prefix_keeps_attributes(nodes, edges, medians, layer, k - 1);
        let prev = sweep_layer_prefix(nodes, edges, medians, layer, k - 1);
        let v = layer[k - 1];
        match chosen_anchor(prev.0, edges, medians[v as int], v, prev.1) {
            None => {},
            Some(u) => {
                assert(u == medians[v as int]->Some_0.0 || u == medians[v as int]->Some_0.1);
            },
        }
    }
}

/// The anchor chosen for the node visited at position `k` of the sweep of
/// `layer`, if any.
pub open spec fn anchor_at(
    nodes: Seq<Node>,
    edges: Seq<EdgeEntry>,
    medians: Seq<Option<(usize, usize)>>,
    layer: Seq<usize>,
    k: int,
) -> Option<usize> {
    let s = sweep_layer_prefix(nodes, edges, medians, layer, k);
    chosen_anchor(s.0, edges, medians[layer[k] as int], layer[k], s.1)
}

/// One visit never lowers the guard; a visit that picks an anchor raises it
/// strictly, to the anchor's order.
pub proof fn lemma_guard_step(
    nodes: Seq<Node>,
    edges: Seq<EdgeEntry>,
    medians: Seq<Option<(usize, usize)>>,
    layer: Seq<usize>,
    k: int,
)
    requires
        0 <= k < layer.len(),
    ensures
        sweep_layer_prefix(nodes, edges, medians, layer, k).1 <= sweep_layer_prefix(
            nodes,
            edges,
            medians,
            layer,
            k + 1,
        ).1,
        anchor_at(nodes, edges, medians, layer, k) matches Some(u) ==> sweep_layer_prefix(
            nodes,
            edges,
            medians,
            layer,
            k + 1,
        ).1 == sweep_layer_prefix(nodes, edges, medians, layer, k).0[u as int].order
            && sweep_layer_prefix(nodes, edges, medians, layer, k + 1).1 > sweep_layer_prefix(
            nodes,
            edges,
            medians,
            layer,
            k,
        ).1,
        anchor_at(nodes, edges, medians, layer, k) is None ==> sweep_layer_prefix(
            nodes,
            edges,
            medians,
            layer,
            k + 1,
        ).1 == sweep_layer_prefix(nodes, edges, medians, layer, k).1,
{
}

/// The guard never decreases over a sweep.
pub proof fn lemma_guard_monotone(
    nodes: Seq<Node>,
    edges: Seq<EdgeEntry>,
    medians: Seq<Option<(usize, usize)>>,
    layer: Seq<usize>,
    k1: int,
    k2: int,
)
    requires
        0 <= k1 <= k2 <= layer.len(),
    ensures
        sweep_layer_prefix(nodes, edges, medians, layer, k1).1 <= sweep_layer_prefix(
            nodes,
            edges,
            medians,
            layer,
            k2,
        ).1,
    decreases k2 - k1,
{
    if k1 < k2 {
        lemma_guard_step(nodes, edges, medians, layer, k2 - 1);
        lemma_guard_monotone(nodes, edges, medians, layer, k1, k2 - 1);
    }
}

/// Law: within one layer's sweep the orders of the chosen anchors strictly
/// increase in visit order, so no two alignment edges of the same layer
/// transition cross.
pub proof fn lemma_anchors_strictly_increase(
    nodes: Seq<Node>,
    edges: Seq<EdgeEntry>,
    medians: Seq<Option<(usize, usize)>>,
    layer: Seq<usize>,
    k1: int,
    k2: int,
)
    requires
        0 <= k1 < k2 < layer.len(),
        anchor_at(nodes, edges, medians, layer, k1) is Some,
        anchor_at(nodes, edges, medians, layer, k2) is Some,
    ensures
        sweep_layer_prefix(nodes, edges, medians, layer, k1).0[anchor_at(
            nodes,
            edges,
            medians,
            layer,
            k1,
        )->Some_0 as int].order < sweep_layer_prefix(nodes, edges, medians, layer, k2).0[anchor_at(
            nodes,
            edges,
            medians,
            layer,
            k2,
        )->Some_0 as int].order,
{
    let u1 = anchor_at(nodes, edges, medians, layer, k1)->Some_0;
    let u2 = anchor_at(nodes, edges, medians, layer, k2)->Some_0;
    lemma_guard_step(nodes, edges, medians, layer, k1);
    lemma_guard_monotone(nodes, edges, medians, layer, k1 + 1, k2);
    lemma_guard_step(nodes, edges, medians, layer, k2);
}

/// Law: the same monotonicity, read off the table the sweep started from —
/// the sweep never rewrites `order`, so the chosen anchors' original orders
/// strictly increase in visit order.
pub proof fn lemma_anchor_orders_increase_from_start(
    nodes: Seq<Node>,
    edges: Seq<EdgeEntry>,
    medians: Seq<Option<(usize, usize)>>,
    layer: Seq<usize>,
    k1: int,
    k2: int,
)
    requires
        0 <= k1 < k2 < layer.len(),
        medians.len() == nodes.len(),
        layer_targets_ok(nodes.len() as int, medians, layer),
        anchor_at(nodes, edges, medians, layer, k1) is Some,
        anchor_at(nodes, edges, medians, layer, k2) is Some,
    ensures
        anchor_at(nodes, edges, medians, layer, k1)->Some_0 < nodes.len(),
        anchor_at(nodes, edges, medians, layer, k2)->Some_0 < nodes.len(),
        nodes[anchor_at(nodes, edges, medians, layer, k1)->Some_0 as int].order < nodes[anchor_at(
            nodes,
            edges,
            medians,
            layer,
            k2,
        )->Some_0 as int].order,
{
    let u1 = anchor_at(nodes, edges, medians, layer, k1)->Some_0;
    let u2 = anchor_at(nodes, edges, medians, layer, k2)->Some_0;
    let m1 = medians[layer[k1] as int];
    let m2 = medians[layer[k2] as int];
    assert(u1 == m1->Some_0.0 || u1 == m1->Some_0.1);
    assert(u2 == m2->Some_0.0 || u2 == m2->Some_0.1);
    assert(u1 < nodes.len() && u2 < nodes.len());
    lemma_anchors_strictly_increase(nodes, edges, medians, layer, k1, k2);
    lemma_prefix_keeps_attributes(nodes, edges, medians, layer, k1);
    lemma_prefix_keeps_attributes(nodes, edges, medians, layer, k2);
}

/// The block index `v`'s `root` points at, as a mathematical index.
pub open spec fn root_of(s: Seq<Node>, q: int) -> int {
    s[q].root as int
}

/// The chain index `v`'s `align` points at, as a mathematical index.
pub open spec fn align_of(s: Seq<Node>, q: int) -> int {
    s[q].align as int
}

/// `root` and `align` reference nodes of the table.
pub open spec fn pointers_in_range(s: Seq<Node>) -> bool {
    forall|q: int| #![trigger root_of(s, q)] #![trigger align_of(s, q)]
        0 <= q < s.len() ==> root_of(s, q) < s.len() && align_of(s, q) < s.len()
}

/// The root of every node is itself the root of its own block.
pub open spec fn roots_idempotent(s: Seq<Node>) -> bool {
    forall|q: int| #![trigger root_of(s, q)]
        0 <= q < s.len() ==> root_of(s, root_of(s, q)) == root_of(s, q)
}

/// Following `align` never leaves a node's block: the target carries the same
/// root.
pub open spec fn align_preserves_root(s: Seq<Node>) -> bool {
    forall|q: int| #![trigger align_of(s, q)]
        0 <= q < s.len() ==> root_of(s, align_of(s, q)) == root_of(s, q)
}

/// No two nodes align to the same node, so the `align` pointers form a
/// permutation of the table.
pub open spec fn align_injective(s: Seq<Node>) -> bool {
    forall|q1: int, q2: int| #![trigger align_of(s, q1), align_of(s, q2)]
        0 <= q1 < s.len() && 0 <= q2 < s.len() && align_of(s, q1) == align_of(s, q2) ==> q1 == q2
}

/// The block pointers form closed chains: pointers stay in range, every block
/// has a root that roots itself, `align` stays within the block, and `align`
/// is a permutation.
pub open spec fn blocks_wf(s: Seq<Node>) -> bool {
    &&& pointers_in_range(s)
    &&& roots_idempotent(s)
    &&& align_preserves_root(s)
    &&& align_injective(s)
}

/// Node `w` still carries its initialized singleton block and nothing points
/// at it.
pub open spec fn untouched(s: Seq<Node>, w: int) -> bool {
    &&& root_of(s, w) == w
    &&& align_of(s, w) == w
    &&& forall|q: int| #![trigger root_of(s, q)] 0 <= q < s.len() && root_of(s, q) == w ==> q == w
    &&& forall|q: int| #![trigger align_of(s, q)]
            0 <= q < s.len() && align_of(s, q) == w ==> q == w
}

/// Node `w` is listed in one of the layers with index below `hi`.
pub open spec fn in_layers_upto(lv: Seq<Seq<usize>>, hi: int, w: int) -> bool {
    exists|i: int, p: int|
        0 <= i < hi && i < lv.len() && 0 <= p < lv[i].len() && (#[trigger] lv[i][p]) as int == w
}

/// Node `w` is listed among the first `k` entries of `layer`.
pub open spec fn in_prefix(layer: Seq<usize>, k: int, w: int) -> bool {
    exists|p: int| 0 <= p < k && p < layer.len() && (#[trigger] layer[p]) as int == w
}

/// No node is listed twice across the whole layer sequence.
pub open spec fn layers_disjoint(lv: Seq<Seq<usize>>) -> bool {
    forall|i1: int, p1: int, i2: int, p2: int|
        0 <= i1 < lv.len() && 0 <= p1 < lv[i1].len() && 0 <= i2 < lv.len() && 0 <= p2
            < lv[i2].len() && (#[trigger] lv[i1][p1]) == (#[trigger] lv[i2][p2]) ==> i1 == i2 && p1
            == p2
}

/// Every median recorded for a node of a layer lies in the layer before it.
pub open spec fn medians_from_previous(
    lv: Seq<Seq<usize>>,
    medians: Seq<Option<(usize, usize)>>,
) -> bool {
    forall|i: int, p: int|
        1 <= i < lv.len() && 0 <= p < lv[i].len() ==> match medians[(#[trigger] lv[i][p]) as int] {
            None => true,
            Some((left, right)) => lv[i - 1].contains(left) && lv[i - 1].contains(right),
        }
}

/// The hypotheses of the chain-closure argument: a consistent layer sequence
/// in which no node is listed twice, with one oracle answer per node, each
/// answer naming nodes of the previous layer.
pub open spec fn sweep_input_ok(
    n: int,
    lv: Seq<Seq<usize>>,
    medians: Seq<Option<(usize, usize)>>,
) -> bool {
    &&& layers_ok(n, lv)
    &&& medians.len() == n
    &&& layers_disjoint(lv)
    &&& medians_from_previous(lv, medians)
}

/// Node `u`'s chain currently ends at `u`: its `align` has not yet been
/// redirected downward, so it still points back at the block's root.
pub open spec fn node_is_tail(s: Seq<Node>, u: int) -> bool {
    align_of(s, u) == root_of(s, u)
}

/// The sweep invariant in the middle of layer `li`, after visiting the first
/// `k` of its nodes with the guard at `r`: the blocks are well formed, every
/// node not yet listed is untouched, the unused anchors of the previous layer
/// are still tails, and the visited nodes of this layer are tails.
pub open spec fn mid_layer_inv(
    s: Seq<Node>,
    r: usize,
    n: int,
    lv: Seq<Seq<usize>>,
    li: int,
    k: int,
) -> bool {
    &&& s.len() == n
    &&& blocks_wf(s)
    &&& forall|w: int|
            0 <= w < n && !in_layers_upto(lv, li, w) && !in_prefix(lv[li], k, w) ==> untouched(
                s,
                w,
            )
    &&& forall|p: int|
            0 <= p < lv[li - 1].len() && s[(#[trigger] lv[li - 1][p]) as int].order > r
                ==> node_is_tail(s, lv[li - 1][p] as int)
    &&& forall|p: int|
            0 <= p < k && p < lv[li].len() ==> node_is_tail(s, (#[trigger] lv[li][p]) as int)
}

/// One visit preserves the sweep invariant: the visited node either stays a
/// singleton or joins the block of a tail anchor of the previous layer, and
/// either way the chains stay closed.
#[verifier::rlimit(100)]
pub proof fn lemma_mid_step(
    s: Seq<Node>,
    r: usize,
    edges: Seq<EdgeEntry>,
    medians: Seq<Option<(usize, usize)>>,
    n: int,
    lv: Seq<Seq<usize>>,
    li: int,
    k: int,
)
    requires
        1 <= li < lv.len(),
        0 <= k < lv[li].len(),
        sweep_input_ok(n, lv, medians),
        mid_layer_inv(s, r, n, lv, li, k),
    ensures
        mid_layer_inv(
            align_step(s, edges, medians[lv[li][k] as int], lv[li][k], r).0,
            align_step(s, edges, medians[lv[li][k] as int], lv[li][k], r).1,
            n,
            lv,
            li,
            k + 1,
        ),
{
    assert(blocks_wf(s));
    assert(pointers_in_range(s));
    assert(roots_idempotent(s));
    assert(align_preserves_root(s));
    assert(align_injective(s));
    assert(s.len() == n);
    let v = lv[li][k];
    let vi = v as int;
    assert(vi < n);
    assert(!in_layers_upto(lv, li, vi)) by {
        if in_layers_upto(lv, li, vi) {
            let (i2, p2) = choose|i2: int, p2: int|
                0 <= i2 < li && i2 < lv.len() && 0 <= p2 < lv[i2].len() && (#[trigger] lv[i2][p2])
                    as int == vi;
            assert(lv[i2][p2] == lv[li][k]);
            assert(false);
        }
    }
    assert(!in_prefix(lv[li], k, vi)) by {
        if in_prefix(lv[li], k, vi) {
            let p2 = choose|p2: int|
                0 <= p2 < k && p2 < lv[li].len() && (#[trigger] lv[li][p2]) as int == vi;
            assert(lv[li][p2] == lv[li][k]);
            assert(false);
        }
    }
    assert(untouched(s, vi));
    let step = align_step(s, edges, medians[vi], v, r);
    match chosen_anchor(s, edges, medians[vi], v, r) {
        None => {
            assert(step.0 == s && step.1 == r);
            assert forall|w: int|
                0 <= w < n && !in_layers_upto(lv, li, w) && !in_prefix(lv[li], k + 1, w)
                implies untouched(s, w) by {
                assert(!in_prefix(lv[li], k, w)) by {
                    if in_prefix(lv[li], k, w) {
                        let p2 = choose|p2: int|
                            0 <= p2 < k && p2 < lv[li].len() && (#[trigger] lv[li][p2]) as int == w;
                        assert(in_prefix(lv[li], k + 1, w));
                    }
                }
            }
            assert forall|p: int| 0 <= p < k + 1 && p < lv[li].len() implies node_is_tail(
                s,
                (#[trigger] lv[li][p]) as int,
            ) by {
                if p == k {
                    assert(node_is_tail(s, vi));
                }
            }
        },
        Some(u) => {
            let ui = u as int;
            let m = medians[vi];
            assert(u == m->Some_0.0 || u == m->Some_0.1);
            assert(lv[li - 1].contains(u)) by {
                assert(medians_from_previous(lv, medians));
                assert(1 <= li < lv.len() && 0 <= k < lv[li].len());
            }
            let pu = choose|p: int| 0 <= p < lv[li - 1].len() && (#[trigger] lv[li - 1][p]) == u;
            assert(ui < n) by {
                assert(lv[li - 1][pu] < n);
            }
            assert(ui != vi) by {
                if ui == vi {
                    assert(lv[li - 1][pu] == lv[li][k]);
                    assert(false);
                }
            }
            // the anchor qualified, so its order exceeds the guard and it is
            // still a tail
            assert(candidate_ok(s, edges, u, v, r));
            assert(s[ui].order > r);
            assert(node_is_tail(s, ui)) by {
                assert(s[(lv[li - 1][pu]) as int].order > r);
            }
            let rtu = s[ui].root;
            let rt = rtu as int;
            assert(rt == root_of(s, ui));
            assert(0 <= rt < n);
            assert(root_of(s, rt) == rt);
            assert(align_of(s, ui) == rt);
            assert(rt != vi) by {
                if rt == vi {
                    assert(root_of(s, ui) == vi);
                    assert(ui == vi);
                }
            }
            let s1 = s.update(vi, with_pointers(s[vi], rtu, rtu));
            let s2 = s1.update(ui, with_align(s1[ui], v));
            assert(step.0 == s2 && step.1 == s[ui].order);
            let rp = s[ui].order;
            assert(s2.len() == n);
            assert(root_of(s2, vi) == rt && align_of(s2, vi) == rt);
            assert(root_of(s2, ui) == rt && align_of(s2, ui) == vi);
            assert(forall|q: int| 0 <= q < n && q != vi && q != ui ==> s2[q] == s[q]);
            // root of the anchor's block still roots itself in the new table
            assert(root_of(s2, rt) == rt) by {
                if rt == ui {
                } else {
                    assert(s2[rt] == s[rt]);
                }
            }
            assert(pointers_in_range(s2)) by {
                assert forall|q: int| #![trigger root_of(s2, q)] #![trigger align_of(s2, q)]
                    0 <= q < s2.len() implies root_of(s2, q) < s2.len() && align_of(s2, q)
                    < s2.len() by {
                    if q != vi && q != ui {
                        assert(s2[q] == s[q]);
                        assert(root_of(s, q) < n && align_of(s, q) < n);
                    }
                }
            }
            assert(roots_idempotent(s2)) by {
                assert forall|q: int| #![trigger root_of(s2, q)]
                    0 <= q < s2.len() implies root_of(s2, root_of(s2, q)) == root_of(s2, q) by {
                    if q == vi || q == ui {
                        assert(root_of(s2, q) == rt);
                    } else {
                        assert(s2[q] == s[q]);
                        let rq = root_of(s, q);
                        assert(root_of(s, rq) == rq);
                        if rq == vi {
                            assert(q == vi);
                        } else if rq == ui {
                            assert(root_of(s, ui) == ui);
                            assert(rt == ui);
                            assert(root_of(s2, rq) == rt);
                        } else {
                            assert(s2[rq] == s[rq]);
                        }
                    }
                }
            }
            assert(align_preserves_root(s2)) by {
                assert forall|q: int| #![trigger align_of(s2, q)]
                    0 <= q < s2.len() implies root_of(s2, align_of(s2, q)) == root_of(s2, q) by {
                    if q == vi {
                        assert(align_of(s2, vi) == rt && root_of(s2, rt) == rt);
                    } else if q == ui {
                        assert(align_of(s2, ui) == vi && root_of(s2, vi) == rt);
                    } else {
                        assert(s2[q] == s[q]);
                        let aq = align_of(s, q);
                        assert(root_of(s, aq) == root_of(s, q));
                        if aq == vi {
                            assert(q == vi);
                        } else if aq == ui {
                            assert(rt == root_of(s, q));
                            assert(root_of(s2, aq) == rt);
                        } else {
                            assert(s2[aq] == s[aq]);
                        }
                    }
                }
            }
            assert(align_injective(s2)) by {
                assert forall|q1: int, q2: int| #![trigger align_of(s2, q1), align_of(s2, q2)]
                    0 <= q1 < s2.len() && 0 <= q2 < s2.len() && align_of(s2, q1) == align_of(
                    s2,
                    q2,
                ) implies q1 == q2 by {
                    if q1 != q2 {
                        if q1 == vi && q2 == ui {
                            assert(align_of(s2, q1) == rt && align_of(s2, q2) == vi);
                        } else if q1 == ui && q2 == vi {
                            assert(align_of(s2, q1) == vi && align_of(s2, q2) == rt);
                        } else if q1 == vi {
                            assert(s2[q2] == s[q2]);
                            assert(align_of(s, q2) == rt && align_of(s, ui) == rt);
                        } else if q2 == vi {
                            assert(s2[q1] == s[q1]);
                            assert(align_of(s, q1) == rt && align_of(s, ui) == rt);
                        } else if q1 == ui {
                            assert(s2[q2] == s[q2]);
                            assert(align_of(s, q2) == vi);
                            assert(q2 == vi);
                        } else if q2 == ui {
                            assert(s2[q1] == s[q1]);
                            assert(align_of(s, q1) == vi);
                            assert(q1 == vi);
                        } else {
                            assert(s2[q1] == s[q1] && s2[q2] == s[q2]);
                            assert(align_of(s, q1) == align_of(s2, q1));
                            assert(align_of(s, q2) == align_of(s2, q2));
                        }
                    }
                }
            }
            // untouched nodes stay untouched: the step writes only v and u,
            // and points only at v, u and the block root rt
            assert forall|w: int|
                0 <= w < n && !in_layers_upto(lv, li, w) && !in_prefix(lv[li], k + 1, w)
                implies untouched(s2, w) by {
                assert(w != vi) by {
                    if w == vi {
                        assert((lv[li][k]) as int == w);
                        assert(in_prefix(lv[li], k + 1, w));
                    }
                }
                assert(w != ui) by {
                    if w == ui {
                        assert((lv[li - 1][pu]) as int == w);
                        assert(in_layers_upto(lv, li, w));
                    }
                }
                assert(!in_prefix(lv[li], k, w)) by {
                    if in_prefix(lv[li], k, w) {
                        let p2 = choose|p2: int|
                            0 <= p2 < k && p2 < lv[li].len() && (#[trigger] lv[li][p2]) as int == w;
                        assert(in_prefix(lv[li], k + 1, w));
                    }
                }
                assert(untouched(s, w));
                assert(s2[w] == s[w]);
                assert(rt != w) by {
                    if rt == w {
                        assert(root_of(s, ui) == w);
                        assert(ui == w);
                    }
                }
                assert forall|q: int| #![trigger root_of(s2, q)]
                    0 <= q < s2.len() && root_of(s2, q) == w implies q == w by {
                    if q != vi && q != ui {
                        assert(s2[q] == s[q]);
                        assert(root_of(s, q) == root_of(s2, q));
                    }
                }
                assert forall|q: int| #![trigger align_of(s2, q)]
                    0 <= q < s2.len() && align_of(s2, q) == w implies q == w by {
                    if q != vi && q != ui {
                        assert(s2[q] == s[q]);
                        assert(align_of(s, q) == align_of(s2, q));
                    }
                }
            }
            // unused anchors of the previous layer keep their tails: the new
            // guard is the chosen anchor's order
            assert forall|p: int|
                0 <= p < lv[li - 1].len() && s2[(#[trigger] lv[li - 1][p]) as int].order > rp
                implies node_is_tail(s2, lv[li - 1][p] as int) by {
                let w = lv[li - 1][p] as int;
                assert(w != vi) by {
                    if w == vi {
                        assert(lv[li - 1][p] == lv[li][k]);
                        assert(false);
                    }
                }
                if w == ui {
                    assert(s2[ui].order == s[ui].order);
                } else {
                    assert(s2[w] == s[w]);
                    assert(s[w].order > r);
                    assert(node_is_tail(s, w));
                }
            }
            // all visited nodes of this layer are tails, v included
            assert forall|p: int| 0 <= p < k + 1 && p < lv[li].len() implies node_is_tail(
                s2,
                (#[trigger] lv[li][p]) as int,
            ) by {
                let w = lv[li][p] as int;
                if p < k {
                    assert(w != vi) by {
                        if w == vi {
                            assert(lv[li][p] == lv[li][k]);
                            assert(false);
                        }
                    }
                    assert(w != ui) by {
                        if w == ui {
                            assert(lv[li][p] == lv[li - 1][pu]);
                            assert(false);
                        }
                    }
                    assert(s2[w] == s[w]);
                    assert(node_is_tail(s, w));
                } else {
                    assert(align_of(s2, vi) == rt && root_of(s2, vi) == rt);
                }
            }
        },
    }
}

/// The sweep invariant before a layer is entered: blocks well formed, every
/// unlisted node untouched, and every node of the previous layer a tail.
pub open spec fn layer_start_inv(s: Seq<Node>, n: int, lv: Seq<Seq<usize>>, li: int) -> bool {
    &&& s.len() == n
    &&& blocks_wf(s)
    &&& forall|w: int| 0 <= w < n && !in_layers_upto(lv, li, w) ==> untouched(s, w)
    &&& forall|p: int|
            0 <= p < lv[li - 1].len() ==> node_is_tail(s, (#[trigger] lv[li - 1][p]) as int)
}

/// The sweep invariant holds after any number of visits of one layer.
pub proof fn lemma_sweep_prefix_inv(
    s0: Seq<Node>,
    edges: Seq<EdgeEntry>,
    medians: Seq<Option<(usize, usize)>>,
    n: int,
    lv: Seq<Seq<usize>>,
    li: int,
    k: int,
)
    requires
        1 <= li < lv.len(),
        0 <= k <= lv[li].len(),
        sweep_input_ok(n, lv, medians),
        mid_layer_inv(s0, 0usize, n, lv, li, 0),
    ensures
        mid_layer_inv(
            sweep_layer_prefix(s0, edges, medians, lv[li], k).0,
            sweep_layer_prefix(s0, edges, medians, lv[li], k).1,
            n,
            lv,
            li,
            k,
        ),
    decreases k,
{
    if k > 0 {
        lemma_sweep_prefix_inv(s0, edges, medians, n, lv, li, k - 1);
        let prev = sweep_layer_prefix(s0, edges, medians, lv[li], k - 1);
        lemma_mid_step(prev.0, prev.1, edges, medians, n, lv, li, k - 1);
    }
}

/// Entering a layer from its start state establishes the sweep invariant, and
/// finishing the layer establishes the start state of the next one.
pub proof fn lemma_layer_start_inv(
    s0: Seq<Node>,
    edges: Seq<EdgeEntry>,
    medians: Seq<Option<(usize, usize)>>,
    n: int,
    lv: Seq<Seq<usize>>,
    li: int,
)
    requires
        1 <= li < lv.len(),
        sweep_input_ok(n, lv, medians),
        layer_start_inv(s0, n, lv, li),
    ensures
        layer_start_inv(
            sweep_layer_prefix(s0, edges, medians, lv[li], lv[li].len() as int).0,
            n,
            lv,
            li + 1,
        ),
{
    let len = lv[li].len() as int;
    assert(mid_layer_inv(s0, 0usize, n, lv, li, 0)) by {
        assert forall|w: int|
            0 <= w < n && !in_layers_upto(lv, li, w) && !in_prefix(lv[li], 0, w)
            implies untouched(s0, w) by {}
    }
    lemma_sweep_prefix_inv(s0, edges, medians, n, lv, li, len);
    let s1 = sweep_layer_prefix(s0, edges, medians, lv[li], len).0;
    let r1 = sweep_layer_prefix(s0, edges, medians, lv[li], len).1;
    assert(mid_layer_inv(s1, r1, n, lv, li, len));
    assert forall|w: int| 0 <= w < n && !in_layers_upto(lv, li + 1, w) implies untouched(
        s1,
        w,
    ) by {
        assert(!in_layers_upto(lv, li, w)) by {
            if in_layers_upto(lv, li, w) {
                let (i2, p2) = choose|i2: int, p2: int|
                    0 <= i2 < li && i2 < lv.len() && 0 <= p2 < lv[i2].len() && (#[trigger]
                    lv[i2][p2]) as int == w;
                assert(in_layers_upto(lv, li + 1, w));
            }
        }
        assert(!in_prefix(lv[li], len, w)) by {
            if in_prefix(lv[li], len, w) {
                let p2 = choose|p2: int|
                    0 <= p2 < len && p2 < lv[li].len() && (#[trigger] lv[li][p2]) as int == w;
                assert(in_layers_upto(lv, li + 1, w));
            }
        }
    }
    assert forall|p: int| 0 <= p < lv[(li + 1) - 1].len() implies node_is_tail(
        s1,
        (#[trigger] lv[(li + 1) - 1][p]) as int,
    ) by {
        assert(node_is_tail(s1, (lv[li][p]) as int));
    }
}

/// The start-state invariant propagates through all swept layers.
pub proof fn lemma_layers_inv(
    s_init: Seq<Node>,
    edges: Seq<EdgeEntry>,
    medians: Seq<Option<(usize, usize)>>,
    n: int,
    lv: Seq<Seq<usize>>,
    li: int,
)
    requires
        1 <= li <= lv.len(),
        sweep_input_ok(n, lv, medians),
        layer_start_inv(s_init, n, lv, 1),
    ensures
        layer_start_inv(sweep_layers_upto(s_init, edges, medians, lv, li), n, lv, li),
    decreases li,
{
    if li > 1 {
        lemma_layers_inv(s_init, edges, medians, n, lv, li - 1);
        let prev = sweep_layers_upto(s_init, edges, medians, lv, li - 1);
        lemma_layer_start_inv(prev, edges, medians, n, lv, li - 1);
    }
}

/// Law: after a full vertical-alignment pass on consistent input — layers
/// listing each node at most once, each median lying in the previous layer —
/// the block pointers form closed chains: every pointer is in range, every
/// block's root roots itself, `align` stays within its block, and `align` is
/// a permutation of the node table.
pub proof fn theorem_chain_closure(
    g: LayeredGraph,
    lv: Seq<Seq<usize>>,
    medians: Seq<Option<(usize, usize)>>,
)
    requires
        alignment_input_ok(g, lv, medians),
        layers_disjoint(lv),
        medians_from_previous(lv, medians),
    ensures
        blocks_wf(aligned_nodes(g, lv, medians)),
        aligned_nodes(g, lv, medians).len() == g.nodes@.len(),
{
    let n = g.nodes@.len() as int;
    assert(n <= usize::MAX) by {
        assert(vstd::std_specs::vec::spec_vec_len(&g.nodes) == g.nodes@.len());
    }
    let s0 = init_pointers(g.nodes@);
    assert(s0.len() == n);
    assert forall|q: int| 0 <= q < n implies root_of(s0, q) == q && align_of(s0, q) == q by {}
    assert forall|w: int| 0 <= w < n implies untouched(s0, w) by {}
    assert(blocks_wf(s0));
    assert(layer_start_inv(s0, n, lv, 1)) by {
        assert forall|p: int| 0 <= p < lv[0].len() implies node_is_tail(
            s0,
            (#[trigger] lv[0][p]) as int,
        ) by {
            assert(lv[0][p] < n);
        }
    }
    lemma_layers_inv(s0, g.edges@, medians, n, lv, lv.len() as int);
}

/// The node reached after `steps` applications of `align`, starting at `q`.
pub open spec fn align_iterate(s: Seq<Node>, q: int, steps: int) -> int
    decreases steps,
{
    if steps <= 0 {
        q
    } else {
        align_of(s, align_iterate(s, q, steps - 1))
    }
}

/// Iterating `align` stays inside the table and inside the starting node's
/// block: every node reached along a chain carries the chain's root.
pub proof fn lemma_iterate_in_block(s: Seq<Node>, q: int, steps: int)
    requires
        blocks_wf(s),
        0 <= q < s.len(),
    ensures
        0 <= align_iterate(s, q, steps) < s.len(),
        root_of(s, align_iterate(s, q, steps)) == root_of(s, q),
    decreases steps,
{
    if steps > 0 {
        lemma_iterate_in_block(s, q, steps - 1);
    }
}

/// A collision between two iterates pulls back to the start: `align` is
/// injective, so the orbit returns to its starting point.
#[verifier::rlimit(100)]
pub proof fn lemma_iterate_collision(s: Seq<Node>, q: int, a: int, b: int)
    requires
        blocks_wf(s),
        0 <= q < s.len(),
        0 <= a <= b,
        align_iterate(s, q, a) == align_iterate(s, q, b),
    ensures
        q == align_iterate(s, q, b - a),
    decreases a,
{
    if a > 0 {
        lemma_iterate_in_block(s, q, a - 1);
        lemma_iterate_in_block(s, q, b - 1);
        assert(align_of(s, align_iterate(s, q, a - 1)) == align_of(
            s,
            align_iterate(s, q, b - 1),
        ));
        lemma_iterate_collision(s, q, a - 1, b - 1);
    }
}

/// The set of the first `t + 1` iterates from `x0`, when they are pairwise
/// distinct.
pub proof fn lemma_iterate_set(s: Seq<Node>, x0: int, t: int) -> (ss: Set<int>)
    requires
        blocks_wf(s),
        0 <= x0 < s.len(),
        0 <= t,
        forall|a: int, b: int|
            0 <= a < b <= t ==> #[trigger] align_iterate(s, x0, a) != #[trigger] align_iterate(
                s,
                x0,
                b,
            ),
    ensures
        ss.finite(),
        ss.len() == t + 1,
        forall|x: int| ss.contains(x) ==> 0 <= x < s.len(),
        forall|x: int|
            ss.contains(x) <==> exists|a: int|
                0 <= a <= t && #[trigger] align_iterate(s, x0, a) == x,
    decreases t,
{
    if t == 0 {
        let ss = set![x0];
        assert(align_iterate(s, x0, 0) == x0);
        assert forall|x: int| ss.contains(x) implies exists|a: int|
            0 <= a <= 0 && #[trigger] align_iterate(s, x0, a) == x by {
            assert(align_iterate(s, x0, 0) == x);
        }
        ss
    } else {
        let prev = lemma_iterate_set(s, x0, t - 1);
        let xt = align_iterate(s, x0, t);
        lemma_iterate_in_block(s, x0, t);
        assert(!prev.contains(xt)) by {
            if prev.contains(xt) {
                let a = choose|a: int| 0 <= a <= t - 1 && align_iterate(s, x0, a) == xt;
                assert(align_iterate(s, x0, a) == align_iterate(s, x0, t));
                assert(false);
            }
        }
        let ss = prev.insert(xt);
        assert(ss.len() == t + 1);
        assert forall|x: int| ss.contains(x) implies exists|a: int|
            0 <= a <= t && #[trigger] align_iterate(s, x0, a) == x by {
            if x == xt {
                assert(align_iterate(s, x0, t) == x);
            } else {
                assert(prev.contains(x));
            }
        }
        assert forall|x: int|
            (exists|a: int| 0 <= a <= t && #[trigger] align_iterate(s, x0, a) == x)
            implies ss.contains(x) by {
            let a = choose|a: int| 0 <= a <= t && align_iterate(s, x0, a) == x;
            if a <= t - 1 {
                assert(prev.contains(x));
            }
        }
        ss
    }
}

/// Law: after a full vertical-alignment pass on consistent input — layers
/// listing each node at most once, each median lying in the previous layer —
/// every chain is closed: following `align` pointers from any node's root
/// returns to that root after a finite, positive number of steps, and every
/// node reached along the way carries that same root.
pub proof fn theorem_alignment_chains_close(
    g: LayeredGraph,
    lv: Seq<Seq<usize>>,
    medians: Seq<Option<(usize, usize)>>,
    q: int,
)
    requires
        alignment_input_ok(g, lv, medians),
        layers_disjoint(lv),
        medians_from_previous(lv, medians),
        0 <= q < g.nodes@.len(),
    ensures
        ({
            let s = aligned_nodes(g, lv, medians);
            exists|steps: int|
                1 <= steps <= s.len() && #[trigger] align_iterate(s, root_of(s, q), steps)
                    == root_of(s, q)
        }),
        forall|steps: int|
            0 <= steps ==> root_of(
                aligned_nodes(g, lv, medians),
                #[trigger] align_iterate(
                    aligned_nodes(g, lv, medians),
                    root_of(aligned_nodes(g, lv, medians), q),
                    steps,
                ),
            ) == root_of(aligned_nodes(g, lv, medians), q),
{
    theorem_chain_closure(g, lv, medians);
    let s = aligned_nodes(g, lv, medians);
    theorem_align_ring(s, q);
    assert forall|steps: int| 0 <= steps implies root_of(
        s,
        #[trigger] align_iterate(s, root_of(s, q), steps),
    ) == root_of(s, q) by {
        lemma_iterate_in_block(s, root_of(s, q), steps);
    }
}

/// Law: in a well-formed block table, following `align` from any node's root
/// returns to that root after a finite, positive number of steps — at most
/// the number of nodes.
#[verifier::rlimit(100)]
pub proof fn theorem_align_ring(s: Seq<Node>, q: int)
    requires
        blocks_wf(s),
        0 <= q < s.len(),
    ensures
        exists|steps: int|
            1 <= steps <= s.len() && #[trigger] align_iterate(s, root_of(s, q), steps) == root_of(
                s,
                q,
            ),
{
    let x0 = root_of(s, q);
    assert(0 <= x0 < s.len());
    let n = s.len() as int;
    if exists|a: int, b: int|
        0 <= a < b <= n && #[trigger] align_iterate(s, x0, a) == #[trigger] align_iterate(
            s,
            x0,
            b,
        ) {
        let (a, b) = choose|a: int, b: int|
            0 <= a < b <= n && #[trigger] align_iterate(s, x0, a) == #[trigger] align_iterate(
                s,
                x0,
                b,
            );
        lemma_iterate_collision(s, x0, a, b);
        assert(align_iterate(s, x0, b - a) == x0);
        assert(1 <= b - a <= n);
    } else {
        let ss = lemma_iterate_set(s, x0, n);
        let range = vstd::set_lib::set_int_range(0, n);
        vstd::set_lib::lemma_int_range(0, n);
        assert(ss.subset_of(range)) by {
            assert forall|x: int| ss.contains(x) implies range.contains(x) by {}
        }
        vstd::set_lib::lemma_len_subset(ss, range);
        assert(false);
    }
}

} // verus!
