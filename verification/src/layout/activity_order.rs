//! Draw order of an activity layout: the order in which nodes and edges are
//! emitted so that the output follows PlantUML's drawing order (a repeat body
//! before its diamond, an if's then-branch before the if, edges grouped by
//! the outermost tile they lead into). The rules read only indices, node
//! shapes and flags, so they work on those; the caller permutes its nodes and
//! edges by the orders returned here.
use vstd::prelude::*;
use vstd::multiset::*;

verus! {

broadcast use {vstd::seq::group_seq_axioms, vstd::seq_lib::group_seq_properties};

/// The shape of a node, as far as the order rules tell shapes apart.
#[derive(Clone, Copy, Debug, PartialEq, Eq, Structural)]
pub enum NodeShape {
    /// The hexagonal diamond of an `if`.
    IfDiamond,
    /// A plain diamond (such as the exit diamond of a repeat).
    Diamond,
    Other,
}

/// What the order rules read of a laid-out node.
#[derive(Clone, Copy, Debug, PartialEq, Eq, Structural)]
pub struct NodeOrderKey {
    pub index: usize,
    pub shape: NodeShape,
    pub skip_in_flow: bool,
}

/// What the order rules read of an edge.
#[derive(Clone, Copy, Debug, PartialEq, Eq, Structural)]
pub struct EdgeOrderKey {
    pub from_index: usize,
    pub to_index: usize,
    /// A break edge, from a break point to the exit of its repeat.
    pub is_break: bool,
}

/// The end of the run of `skip_in_flow` nodes of `body` from `k`.
pub open spec fn then_end(nodes: Seq<NodeOrderKey>, body: Seq<usize>, k: int) -> int
    decreases body.len() - k,
{
    if k < 0 || k >= body.len() || !nodes[body[k] as int].skip_in_flow {
        k
    } else {
        then_end(nodes, body, k + 1)
    }
}

/// The then-branch run ends within the body, and every node in it is a
/// `skip_in_flow` node.
pub proof fn lemma_then_end(nodes: Seq<NodeOrderKey>, body: Seq<usize>, k: int)
    requires
        0 <= k <= body.len(),
    ensures
        k <= then_end(nodes, body, k) <= body.len(),
        forall|q: int| k <= q < then_end(nodes, body, k) ==> nodes[body[q] as int].skip_in_flow,
    decreases body.len() - k,
{
    if k < body.len() && nodes[body[k] as int].skip_in_flow {
        lemma_then_end(nodes, body, k + 1);
    }
}

/// The draw order of the nodes `body[k..]`: an if's diamond comes after the
/// nodes of its then-branch (the `skip_in_flow` nodes right after it).
pub open spec fn if_draw_order(nodes: Seq<NodeOrderKey>, body: Seq<usize>, k: int) -> Seq<usize>
    decreases body.len() - k,
{
    if k < 0 || k >= body.len() {
        Seq::empty()
    } else if nodes[body[k] as int].shape is IfDiamond {
        let e = then_end(nodes, body, k + 1);
        proof {
            lemma_then_end(nodes, body, k + 1);
        }
        body.subrange(k + 1, e) + seq![body[k]] + if_draw_order(nodes, body, e)
    } else {
        seq![body[k]] + if_draw_order(nodes, body, k + 1)
    }
}

/// Draw each if's then-branch before the if (see `if_draw_order`).
pub fn reorder_if_nodes_for_draw(nodes: &[NodeOrderKey], body: &[usize]) -> (r: Vec<usize>)
    requires
        forall|k: int| 0 <= k < body@.len() ==> body@[k] < nodes@.len(),
    ensures
        r@ == if_draw_order(nodes@, body@, 0),
{
    let mut result: Vec<usize> = Vec::new();
    let mut k: usize = 0;
    while k < body.len()
        invariant
            k <= body@.len(),
            forall|q: int| 0 <= q < body@.len() ==> body@[q] < nodes@.len(),
            result@ + if_draw_order(nodes@, body@, k as int) == if_draw_order(nodes@, body@, 0),
        decreases body@.len() - k,
    {
        let j = body[k];
        if nodes[j].shape == NodeShape::IfDiamond {
            let mut then_end_k = k + 1;
            while then_end_k < body.len()
                invariant
                    k + 1 <= then_end_k <= body@.len(),
                    forall|q: int| 0 <= q < body@.len() ==> body@[q] < nodes@.len(),
                    then_end(nodes@, body@, k + 1) == then_end(nodes@, body@, then_end_k as int),
                ensures
                    then_end(nodes@, body@, k + 1) == then_end_k as int,
                decreases body@.len() - then_end_k,
            {
                let nj = body[then_end_k];
                if nodes[nj].skip_in_flow {
                    then_end_k += 1;
                } else {
                    break;
                }
            }
            let ghost before = result@;
            let mut b = k + 1;
            while b < then_end_k
                invariant
                    k + 1 <= b <= then_end_k <= body@.len(),
                    result@ == before + body@.subrange(k + 1, b as int),
                decreases then_end_k - b,
            {
                result.push(body[b]);
                b += 1;
            }
            result.push(j);
            proof {
                lemma_then_end(nodes@, body@, k + 1);
                assert(result@ + if_draw_order(nodes@, body@, then_end_k as int) =~= before + if_draw_order(
                    nodes@,
                    body@,
                    k as int,
                ));
            }
            k = then_end_k;
        } else {
            let ghost before = result@;
            result.push(j);
            proof {
                assert(result@ + if_draw_order(nodes@, body@, k + 1) =~= before + if_draw_order(
                    nodes@,
                    body@,
                    k as int,
                ));
            }
            k += 1;
        }
    }
    proof {
        assert(result@ =~= result@ + if_draw_order(nodes@, body@, k as int));
    }
    result
}

/// Drawing ifs after their then-branches only reorders the body: every
/// node of it is drawn, once.
pub proof fn lemma_if_draw_order_permutes(nodes: Seq<NodeOrderKey>, body: Seq<usize>, k: int)
    requires
        0 <= k <= body.len(),
    ensures
        if_draw_order(nodes, body, k).to_multiset() == body.subrange(k, body.len() as int).to_multiset(),
    decreases body.len() - k,
{
    broadcast use group_multiset_axioms;

    if k < body.len() {
        let rest = body.subrange(k, body.len() as int);
        if nodes[body[k] as int].shape is IfDiamond {
            let e = then_end(nodes, body, k + 1);
            lemma_then_end(nodes, body, k + 1);
            lemma_if_draw_order_permutes(nodes, body, e);
            let a = body.subrange(k + 1, e);
            let tail = body.subrange(e, body.len() as int);
            assert(rest =~= seq![body[k]] + a + tail);
            vstd::seq_lib::lemma_multiset_commutative(a + seq![body[k]], if_draw_order(nodes, body, e));
            vstd::seq_lib::lemma_multiset_commutative(a, seq![body[k]]);
            vstd::seq_lib::lemma_multiset_commutative(seq![body[k]] + a, tail);
            vstd::seq_lib::lemma_multiset_commutative(seq![body[k]], a);
        } else {
            lemma_if_draw_order_permutes(nodes, body, k + 1);
            assert(rest =~= seq![body[k]] + body.subrange(k + 1, body.len() as int));
            vstd::seq_lib::lemma_multiset_commutative(seq![body[k]], if_draw_order(nodes, body, k + 1));
            vstd::seq_lib::lemma_multiset_commutative(seq![body[k]], body.subrange(k + 1, body.len() as int));
        }
    } else {
        assert(body.subrange(k, body.len() as int) =~= Seq::<usize>::empty());
    }
}

/// The smallest start among the first `n` tiles that contain `idx`.
pub open spec fn top_rep_from(tiles: Seq<(usize, usize)>, idx: usize, n: int) -> Option<usize>
    decreases n,
{
    if n <= 0 {
        None
    } else {
        let best = top_rep_from(tiles, idx, n - 1);
        let (s, e) = tiles[n - 1];
        if s <= idx <= e && (best matches Some(b) ==> s < b) {
            Some(s)
        } else {
            best
        }
    }
}

/// The start of the outermost tile (the one that starts first) containing
/// `idx`, or `idx` itself outside every tile.
pub open spec fn top_rep(tiles: Seq<(usize, usize)>, idx: usize) -> usize {
    match top_rep_from(tiles, idx, tiles.len() as int) {
        Some(s) => s,
        None => idx,
    }
}

/// 0 for an edge inside one tile, 1 for a connection between tiles.
pub open spec fn edge_sub(tiles: Seq<(usize, usize)>, e: EdgeOrderKey) -> int {
    if top_rep(tiles, e.from_index) == top_rep(tiles, e.to_index) {
        0
    } else {
        1
    }
}

/// Edge `i` is drawn before edge `j`: by the tile its target lies in, then
/// edges inside a tile before connections, then in the given order.
pub open spec fn edge_before(edges: Seq<EdgeOrderKey>, tiles: Seq<(usize, usize)>, i: int, j: int) -> bool {
    let ti = top_rep(tiles, edges[i].to_index);
    let tj = top_rep(tiles, edges[j].to_index);
    let si = edge_sub(tiles, edges[i]);
    let sj = edge_sub(tiles, edges[j]);
    ti < tj || (ti == tj && (si < sj || (si == sj && i < j)))
}

fn top_level_rep(tiles: &[(usize, usize)], idx: usize) -> (r: usize)
    ensures
        r == top_rep(tiles@, idx),
{
    let mut best: Option<usize> = None;
    let mut k: usize = 0;
    while k < tiles.len()
        invariant
            k <= tiles@.len(),
            best == top_rep_from(tiles@, idx, k as int),
        decreases tiles@.len() - k,
    {
        let (s, e) = tiles[k];
        let better = match best {
            Some(b) => s < b,
            None => true,
        };
        if idx >= s && idx <= e && better {
            best = Some(s);
        }
        k += 1;
    }
    match best {
        Some(b) => b,
        None => idx,
    }
}

/// The order in which to draw edges so that each tile's own edges come
/// before the connection into the next tile (see `edge_before`): the edge
/// indices, each once, sorted by `edge_before`.
pub fn reorder_edges_for_partitions(edges: &[EdgeOrderKey], tiles: &[(usize, usize)]) -> (r: Vec<usize>)
    ensures
        r@.len() == edges@.len(),
        forall|k: int| 0 <= k < r@.len() ==> r@[k] < edges@.len(),
        forall|a: int, b: int| 0 <= a < b < r@.len() ==> edge_before(edges@, tiles@, r@[a] as int, r@[b] as int),
        forall|j: usize| j < edges@.len() ==> #[trigger] r@.contains(j),
{
    let n = edges.len();
    let mut keys: Vec<(usize, bool)> = Vec::new();
    let mut i: usize = 0;
    while i < n
        invariant
            n == edges@.len(),
            i <= n,
            keys@.len() == i,
            forall|q: int|
                0 <= q < i ==> (#[trigger] keys@[q]).0 == top_rep(tiles@, edges@[q].to_index) && keys@[q].1 == (
                edge_sub(tiles@, edges@[q]) == 1),
        decreases n - i,
    {
        let to = top_level_rep(tiles, edges[i].to_index);
        let from = top_level_rep(tiles, edges[i].from_index);
        keys.push((to, from != to));
        i += 1;
    }
    let mut r: Vec<usize> = Vec::new();
    let mut i: usize = 0;
    while i < n
        invariant
            n == edges@.len(),
            i <= n,
            keys@.len() == n,
            forall|q: int|
                0 <= q < n ==> (#[trigger] keys@[q]).0 == top_rep(tiles@, edges@[q].to_index) && keys@[q].1 == (
                edge_sub(tiles@, edges@[q]) == 1),
            r@.len() == i,
            forall|k: int| 0 <= k < r@.len() ==> r@[k] < i,
            forall|a: int, b: int| 0 <= a < b < r@.len() ==> edge_before(edges@, tiles@, r@[a] as int, r@[b] as int),
            forall|j: usize| j < i ==> #[trigger] r@.contains(j),
        decreases n - i,
    {
        let (ti, si) = keys[i];
        let mut p: usize = 0;
        while p < r.len()
            invariant
                n == edges@.len(),
                keys@.len() == n,
                i < n,
                ti == keys@[i as int].0,
                si == keys@[i as int].1,
                p <= r@.len(),
                forall|k: int| 0 <= k < r@.len() ==> r@[k] < i,
                forall|q: int| 0 <= q < p ==> !edge_before(edges@, tiles@, i as int, #[trigger] r@[q] as int),
                forall|q: int|
                    0 <= q < n ==> (#[trigger] keys@[q]).0 == top_rep(tiles@, edges@[q].to_index) && keys@[q].1 == (
                    edge_sub(tiles@, edges@[q]) == 1),
            ensures
                p <= r@.len(),
                forall|q: int| 0 <= q < p ==> !edge_before(edges@, tiles@, i as int, #[trigger] r@[q] as int),
                p < r@.len() ==> edge_before(edges@, tiles@, i as int, r@[p as int] as int),
            decreases r@.len() - p,
        {
            let (tq, sq) = keys[r[p]];
            if ti < tq || (ti == tq && !si && sq) {
                break;
            }
            p += 1;
        }
        let ghost old_r = r@;
        r.insert(p, i);
        proof {
            assert forall|a: int, b: int| 0 <= a < b < r@.len() implies edge_before(
                edges@,
                tiles@,
                r@[a] as int,
                r@[b] as int,
            ) by {
                if b < p {
                    assert(r@[a] == old_r[a] && r@[b] == old_r[b]);
                } else if a > p {
                    assert(r@[a] == old_r[a - 1] && r@[b] == old_r[b - 1]);
                } else if a == p {
                    assert(r@[b] == old_r[b - 1]);
                    if b > p + 1 {
                        assert(edge_before(edges@, tiles@, old_r[p as int] as int, old_r[b - 1] as int));
                    }
                } else {
                    assert(r@[a] == old_r[a]);
                    if b == p {
                        assert(!edge_before(edges@, tiles@, i as int, old_r[a] as int));
                    } else {
                        assert(r@[b] == old_r[b - 1]);
                    }
                }
            }
            assert forall|j: usize| j < i + 1 implies #[trigger] r@.contains(j) by {
                if j == i {
                    assert(r@[p as int] == i);
                } else {
                    assert(old_r.contains(j));
                    let w = choose|w: int| 0 <= w < old_r.len() && old_r[w] == j;
                    if w < p {
                        assert(r@[w] == j);
                    } else {
                        assert(r@[w + 1] == j);
                    }
                }
            }
        }
        i += 1;
    }
    r
}

/// The last repeat loop-back `(hex, diamond1)` whose diamond is `d1`: its
/// hexagon, among the first `n`.
pub open spec fn last_repeat_hex(rl: Seq<(usize, usize)>, d1: usize, n: int) -> Option<usize>
    decreases n,
{
    if n <= 0 {
        None
    } else if rl[n - 1].1 == d1 {
        Some(rl[n - 1].0)
    } else {
        last_repeat_hex(rl, d1, n - 1)
    }
}

/// The last backward loop-back `(hex, diamond1, backward)` whose diamond is
/// `d1`, among the first `n`: its hexagon and backward node.
pub open spec fn last_backward(bl: Seq<(usize, usize, usize)>, d1: usize, n: int) -> Option<(usize, usize)>
    decreases n,
{
    if n <= 0 {
        None
    } else if bl[n - 1].1 == d1 {
        Some((bl[n - 1].0, bl[n - 1].2))
    } else {
        last_backward(bl, d1, n - 1)
    }
}

/// The hexagon that closes the repeat whose first diamond is `d1`: backward
/// loop-backs override plain ones, later entries earlier ones.
pub open spec fn hex_for(rl: Seq<(usize, usize)>, bl: Seq<(usize, usize, usize)>, d1: usize) -> Option<usize> {
    match last_backward(bl, d1, bl.len() as int) {
        Some((h, _)) => Some(h),
        None => last_repeat_hex(rl, d1, rl.len() as int),
    }
}

/// The backward node of the repeat whose first diamond is `d1`.
pub open spec fn backward_for(bl: Seq<(usize, usize, usize)>, d1: usize) -> Option<usize> {
    match last_backward(bl, d1, bl.len() as int) {
        Some((_, b)) => Some(b),
        None => None,
    }
}

/// The first position from `from` on whose node has index `idx`.
pub open spec fn first_with_index(nodes: Seq<NodeOrderKey>, idx: usize, from: int) -> Option<int>
    decreases nodes.len() - from,
{
    if from < 0 || from >= nodes.len() {
        None
    } else if nodes[from].index == idx {
        Some(from)
    } else {
        first_with_index(nodes, idx, from + 1)
    }
}

/// The first position from `from` on, not yet drawn, whose node has index
/// `idx`.
pub open spec fn first_free_with_index(nodes: Seq<NodeOrderKey>, idx: usize, drawn: Seq<bool>, from: int) -> Option<int>
    decreases nodes.len() - from,
{
    if from < 0 || from >= nodes.len() {
        None
    } else if nodes[from].index == idx && !drawn[from] {
        Some(from)
    } else {
        first_free_with_index(nodes, idx, drawn, from + 1)
    }
}

/// The positions in `[lo, hi)` not yet drawn, in order.
pub open spec fn free_between(drawn: Seq<bool>, lo: int, hi: int) -> Seq<usize>
    decreases hi - lo,
{
    if hi <= lo {
        Seq::empty()
    } else {
        free_between(drawn, lo, hi - 1) + if !drawn[hi - 1] {
            seq![(hi - 1) as usize]
        } else {
            Seq::empty()
        }
    }
}

/// `drawn` with the positions of `js` drawn as well.
pub open spec fn mark_drawn(drawn: Seq<bool>, js: Seq<usize>) -> Seq<bool> {
    Seq::new(drawn.len(), |k: int| drawn[k] || js.contains(k as usize))
}

/// What drawing the repeat whose first diamond is at position `i` (closed
/// by the node with index `hex`, with backward node `bw`) adds to the draw
/// order, and which positions are drawn after it: the body up to the hexagon
/// (each if after its then-branch), the diamond, the hexagon, and the first
/// backward node not drawn yet.
pub open spec fn repeat_step(nodes: Seq<NodeOrderKey>, i: int, hex: usize, bw: Option<usize>, drawn: Seq<bool>) -> (
    Seq<usize>,
    Seq<bool>,
) {
    let hexpos = first_with_index(nodes, hex, i + 1);
    let body_end = match hexpos {
        Some(j) => j,
        None => nodes.len() as int,
    };
    let body = if_draw_order(nodes, free_between(drawn, i + 1, body_end), 0);
    let d1 = mark_drawn(drawn, body).update(i, true);
    let d2 = match hexpos {
        Some(j) => d1.update(j, true),
        None => d1,
    };
    let hex_part = match hexpos {
        Some(j) => seq![j as usize],
        None => Seq::empty(),
    };
    let bwpos = match bw {
        Some(b) => first_free_with_index(nodes, b, d2, 0),
        None => None,
    };
    let d3 = match bwpos {
        Some(j) => d2.update(j, true),
        None => d2,
    };
    let bw_part = match bwpos {
        Some(j) => seq![j as usize],
        None => Seq::empty(),
    };
    (body + seq![i as usize] + hex_part + bw_part, d3)
}

/// The draw order of the nodes from position `i` on, `drawn` telling which
/// were drawn already: at the first diamond of a repeat, the body up to its
/// hexagon (each if after its then-branch), then the diamond, the hexagon and
/// the backward node; every other node in place.
pub open spec fn render_order_from(
    nodes: Seq<NodeOrderKey>,
    rl: Seq<(usize, usize)>,
    bl: Seq<(usize, usize, usize)>,
    i: int,
    drawn: Seq<bool>,
) -> Seq<usize>
    decreases nodes.len() - i,
{
    if i < 0 || i >= nodes.len() {
        Seq::empty()
    } else if drawn[i] {
        render_order_from(nodes, rl, bl, i + 1, drawn)
    } else {
        match hex_for(rl, bl, nodes[i].index) {
            None => seq![i as usize] + render_order_from(nodes, rl, bl, i + 1, drawn.update(i, true)),
            Some(hex) => {
                let (part, d) = repeat_step(nodes, i, hex, backward_for(bl, nodes[i].index), drawn);
                part + render_order_from(nodes, rl, bl, i + 1, d)
            },
        }
    }
}

/// The draw order of all nodes (see `render_order_from`).
pub open spec fn render_order_for_repeat(
    nodes: Seq<NodeOrderKey>,
    rl: Seq<(usize, usize)>,
    bl: Seq<(usize, usize, usize)>,
) -> Seq<usize> {
    render_order_from(nodes, rl, bl, 0, Seq::new(nodes.len(), |k: int| false))
}

/// The hexagon and backward node of the repeat whose first diamond is `d1`.
///
/// The lists are read from the end rather than gathered into a map keyed by
/// diamond: the contracts speak of the last entry for a diamond in each list
/// (`last_backward`, `last_repeat_hex`), which a backward scan gives
/// directly, while a map built from the lists would need its contents tied
/// back to them entry by entry to say the same.
fn lookup_repeat(
    repeat_loopbacks: &[(usize, usize)],
    backward_loopbacks: &[(usize, usize, usize)],
    d1: usize,
) -> (r: (Option<usize>, Option<usize>))
    ensures
        r.0 == hex_for(repeat_loopbacks@, backward_loopbacks@, d1),
        r.1 == backward_for(backward_loopbacks@, d1),
{
    let mut k = backward_loopbacks.len();
    while k > 0
        invariant
            k <= backward_loopbacks@.len(),
            last_backward(backward_loopbacks@, d1, backward_loopbacks@.len() as int) == last_backward(
                backward_loopbacks@,
                d1,
                k as int,
            ),
        decreases k,
    {
        let (hex, b1, bw) = backward_loopbacks[k - 1];
        if b1 == d1 {
            return (Some(hex), Some(bw));
        }
        k -= 1;
    }
    let mut k = repeat_loopbacks.len();
    while k > 0
        invariant
            k <= repeat_loopbacks@.len(),
            last_backward(backward_loopbacks@, d1, backward_loopbacks@.len() as int) is None,
            last_repeat_hex(repeat_loopbacks@, d1, repeat_loopbacks@.len() as int) == last_repeat_hex(
                repeat_loopbacks@,
                d1,
                k as int,
            ),
        decreases k,
    {
        let (hex, r1) = repeat_loopbacks[k - 1];
        if r1 == d1 {
            return (Some(hex), None);
        }
        k -= 1;
    }
    (None, None)
}

/// Draw the repeat whose first diamond is at position `i` (see
/// `repeat_step`).
fn draw_repeat(
    nodes: &[NodeOrderKey],
    i: usize,
    hex_idx: usize,
    backward: Option<usize>,
    consumed: &mut Vec<bool>,
    result: &mut Vec<usize>,
)
    requires
        i < nodes@.len(),
        old(consumed)@.len() == nodes@.len(),
    ensures
        final(consumed)@.len() == nodes@.len(),
        final(result)@ == old(result)@ + repeat_step(nodes@, i as int, hex_idx, backward, old(consumed)@).0,
        final(consumed)@ == repeat_step(nodes@, i as int, hex_idx, backward, old(consumed)@).1,
{
    let ghost ns = nodes@;
    let n = nodes.len();
    let ghost c0 = consumed@;
    let ghost r0 = result@;
    let mut body_end = i + 1;
    while body_end < n
        invariant
            n == ns.len(),
            ns == nodes@,
            i < body_end <= n,
            first_with_index(ns, hex_idx, i + 1) == first_with_index(ns, hex_idx, body_end as int),
        ensures
            i < body_end <= n,
            body_end < n ==> first_with_index(ns, hex_idx, i + 1) == Some(body_end as int),
            body_end == n ==> first_with_index(ns, hex_idx, i + 1) is None,
        decreases n - body_end,
    {
        if nodes[body_end].index == hex_idx {
            break;
        }
        body_end += 1;
    }
    let mut body: Vec<usize> = Vec::new();
    let mut j = i + 1;
    while j < body_end
        invariant
            i < j <= body_end <= n,
            consumed@.len() == n,
            consumed@ == c0,
            body@ == free_between(c0, i + 1, j as int),
        decreases body_end - j,
    {
        if !consumed[j] {
            body.push(j);
        }
        j += 1;
    }
    proof {
        lemma_free_between(c0, i + 1, body_end as int);
    }
    let reordered = reorder_if_nodes_for_draw(nodes, &body);
    proof {
        lemma_if_draw_order_permutes(ns, body@, 0);
        assert(body@.subrange(0, body@.len() as int) =~= body@);
        assert forall|k: int| 0 <= k < reordered@.len() implies reordered@[k] < n by {
            vstd::seq_lib::to_multiset_contains(reordered@, reordered@[k]);
            vstd::seq_lib::to_multiset_contains(body@, reordered@[k]);
            let w = choose|w: int| 0 <= w < body@.len() && body@[w] == reordered@[k];
        }
    }
    let mut k: usize = 0;
    while k < reordered.len()
        invariant
            k <= reordered@.len(),
            consumed@.len() == n,
            forall|q: int| 0 <= q < reordered@.len() ==> reordered@[q] < n,
            result@ == r0 + reordered@.take(k as int),
            consumed@ == mark_drawn(c0, reordered@.take(k as int)),
        decreases reordered@.len() - k,
    {
        let jj = reordered[k];
        result.push(jj);
        let ghost before = consumed@;
        consumed.set(jj, true);
        proof {
            assert(reordered@.take(k + 1) =~= reordered@.take(k as int).push(jj));
            assert(result@ =~= r0 + reordered@.take(k + 1));
            assert(consumed@ =~= mark_drawn(c0, reordered@.take(k + 1)));
        }
        k += 1;
    }
    proof {
        assert(reordered@.take(reordered@.len() as int) =~= reordered@);
    }
    result.push(i);
    consumed.set(i, true);
    if body_end < n {
        result.push(body_end);
        consumed.set(body_end, true);
    }
    let ghost c2 = consumed@;
    let ghost rb = result@;
    if let Some(bw_idx) = backward {
        let mut j: usize = 0;
        while j < n
            invariant_except_break
                consumed@ == c2,
                result@ == rb,
            invariant
                n == ns.len(),
                ns == nodes@,
                j <= n,
                c2.len() == n,
                first_free_with_index(ns, bw_idx, c2, 0) == first_free_with_index(ns, bw_idx, c2, j as int),
            ensures
                match first_free_with_index(ns, bw_idx, c2, 0) {
                    Some(p) => 0 <= p < n && consumed@ == c2.update(p, true) && result@ == rb.push(p as usize),
                    None => consumed@ == c2 && result@ == rb,
                },
                consumed@.len() == n,
            decreases n - j,
        {
            if nodes[j].index == bw_idx && !consumed[j] {
                result.push(j);
                consumed.set(j, true);
                break;
            }
            j += 1;
        }
    }
}

/// The order in which to draw the nodes (positions into `nodes`) so that
/// each repeat body is drawn before its first diamond (see
/// `render_order_for_repeat`).
pub fn compute_render_order_for_repeat(
    nodes: &[NodeOrderKey],
    repeat_loopbacks: &[(usize, usize)],
    backward_loopbacks: &[(usize, usize, usize)],
) -> (r: Vec<usize>)
    ensures
        r@ == render_order_for_repeat(nodes@, repeat_loopbacks@, backward_loopbacks@),
{
    let ghost ns = nodes@;
    let ghost rl = repeat_loopbacks@;
    let ghost bl = backward_loopbacks@;
    let n = nodes.len();
    let mut consumed: Vec<bool> = Vec::new();
    while consumed.len() < n
        invariant
            consumed@.len() <= n,
            forall|k: int| 0 <= k < consumed@.len() ==> !consumed@[k],
        decreases n - consumed@.len(),
    {
        consumed.push(false);
    }
    proof {
        assert(consumed@ =~= Seq::new(ns.len(), |k: int| false));
    }
    let mut result: Vec<usize> = Vec::new();
    let mut i: usize = 0;
    while i < n
        invariant
            n == ns.len(),
            ns == nodes@,
            rl == repeat_loopbacks@,
            bl == backward_loopbacks@,
            i <= n,
            consumed@.len() == n,
            result@ + render_order_from(ns, rl, bl, i as int, consumed@) == render_order_for_repeat(ns, rl, bl),
        decreases n - i,
    {
        if consumed[i] {
            i += 1;
            continue;
        }
        let ghost c0 = consumed@;
        let ghost r0 = result@;
        let (hex, backward) = lookup_repeat(repeat_loopbacks, backward_loopbacks, nodes[i].index);
        match hex {
            None => {
                result.push(i);
                consumed.set(i, true);
                proof {
                    assert(r0 + render_order_from(ns, rl, bl, i as int, c0) =~= result@ + render_order_from(
                        ns,
                        rl,
                        bl,
                        i + 1,
                        consumed@,
                    ));
                }
            },
            Some(hex_idx) => {
                draw_repeat(nodes, i, hex_idx, backward, &mut consumed, &mut result);
                proof {
                    assert(r0 + render_order_from(ns, rl, bl, i as int, c0) =~= result@ + render_order_from(
                        ns,
                        rl,
                        bl,
                        i + 1,
                        consumed@,
                    ));
                }
            },
        }
        i += 1;
    }
    proof {
        assert(result@ =~= result@ + render_order_from(ns, rl, bl, i as int, consumed@));
    }
    result
}

proof fn lemma_render_order_plain_from(nodes: Seq<NodeOrderKey>, i: int, drawn: Seq<bool>)
    requires
        0 <= i <= nodes.len(),
        nodes.len() <= usize::MAX,
        drawn.len() == nodes.len(),
        forall|k: int| i <= k < drawn.len() ==> !drawn[k],
    ensures
        render_order_from(nodes, Seq::empty(), Seq::empty(), i, drawn) == Seq::new(
            (nodes.len() - i) as nat,
            |k: int| (i + k) as usize,
        ),
    decreases nodes.len() - i,
{
    if i < nodes.len() {
        lemma_render_order_plain_from(nodes, i + 1, drawn.update(i, true));
        assert(hex_for(Seq::empty(), Seq::empty(), nodes[i].index) is None);
        assert(seq![i as usize] + Seq::new((nodes.len() - i - 1) as nat, |k: int| (i + 1 + k) as usize) =~= Seq::new(
            (nodes.len() - i) as nat,
            |k: int| (i + k) as usize,
        ));
    } else {
        assert(Seq::new((nodes.len() - i) as nat, |k: int| (i + k) as usize) =~= Seq::<usize>::empty());
    }
}

/// Without repeat loop-backs the nodes are drawn in their own order.
pub proof fn lemma_render_order_without_repeats(nodes: Seq<NodeOrderKey>)
    requires
        nodes.len() <= usize::MAX,
    ensures
        render_order_for_repeat(nodes, Seq::empty(), Seq::empty()) == Seq::new(nodes.len(), |k: int| k as usize),
{
    lemma_render_order_plain_from(nodes, 0, Seq::new(nodes.len(), |k: int| false));
    assert(Seq::new((nodes.len() - 0) as nat, |k: int| (0 + k) as usize) =~= Seq::new(nodes.len(), |k: int| k as usize));
}

/// Every entry of `order` is a position below `n`, and every position below
/// `n` occurs in it.
pub open spec fn covers_positions(order: Seq<usize>, n: int) -> bool {
    &&& forall|k: int| 0 <= k < order.len() ==> (#[trigger] order[k]) < n
    &&& forall|p: int| 0 <= p < n ==> #[trigger] order.contains(p as usize)
}

proof fn lemma_first_with_index_bounds(nodes: Seq<NodeOrderKey>, idx: usize, from: int)
    ensures
        first_with_index(nodes, idx, from) matches Some(j) ==> 0 <= from <= j < nodes.len(),
    decreases nodes.len() - from,
{
    if 0 <= from < nodes.len() && nodes[from].index != idx {
        lemma_first_with_index_bounds(nodes, idx, from + 1);
    }
}

proof fn lemma_first_free_bounds(nodes: Seq<NodeOrderKey>, idx: usize, drawn: Seq<bool>, from: int)
    ensures
        first_free_with_index(nodes, idx, drawn, from) matches Some(j) ==> 0 <= from <= j < nodes.len(),
    decreases nodes.len() - from,
{
    if 0 <= from < nodes.len() && !(nodes[from].index == idx && !drawn[from]) {
        lemma_first_free_bounds(nodes, idx, drawn, from + 1);
    }
}

proof fn lemma_free_between(drawn: Seq<bool>, lo: int, hi: int)
    requires
        0 <= lo,
        hi <= drawn.len(),
        hi <= usize::MAX,
    ensures
        forall|k: int| 0 <= k < free_between(drawn, lo, hi).len() ==> lo <= #[trigger] free_between(drawn, lo, hi)[k] < hi,
        forall|p: int| lo <= p < hi && !drawn[p] ==> #[trigger] free_between(drawn, lo, hi).contains(p as usize),
    decreases hi - lo,
{
    if hi > lo {
        lemma_free_between(drawn, lo, hi - 1);
        let a = free_between(drawn, lo, hi - 1);
        let b: Seq<usize> = if !drawn[hi - 1] { seq![(hi - 1) as usize] } else { Seq::empty() };
        let f = free_between(drawn, lo, hi);
        assert(f == a + b);
        assert forall|k: int| 0 <= k < f.len() implies lo <= #[trigger] f[k] < hi by {
            if k < a.len() {
                assert(f[k] == a[k]);
            } else {
                assert(f[k] == b[k - a.len()]);
            }
        }
        assert forall|p: int| lo <= p < hi && !drawn[p] implies #[trigger] f.contains(p as usize) by {
            if p < hi - 1 {
                assert(a.contains(p as usize));
                let k = choose|k: int| 0 <= k < a.len() && a[k] == p as usize;
                assert(f[k] == a[k]);
            } else {
                assert(f[a.len() as int] == b[0]);
            }
        }
    }
}

proof fn lemma_contains_concat(a: Seq<usize>, b: Seq<usize>, x: usize)
    ensures
        (a + b).contains(x) <==> a.contains(x) || b.contains(x),
{
    if a.contains(x) {
        let k = choose|k: int| 0 <= k < a.len() && a[k] == x;
        assert((a + b)[k] == x);
    }
    if b.contains(x) {
        let k = choose|k: int| 0 <= k < b.len() && b[k] == x;
        assert((a + b)[a.len() + k] == x);
    }
    if (a + b).contains(x) {
        let k = choose|k: int| 0 <= k < (a + b).len() && (a + b)[k] == x;
        if k < a.len() {
            assert(a[k] == x);
        } else {
            assert(b[k - a.len()] == x);
        }
    }
}

proof fn lemma_repeat_step_covers(nodes: Seq<NodeOrderKey>, i: int, hex: usize, bw: Option<usize>, drawn: Seq<bool>)
    requires
        0 <= i < nodes.len(),
        nodes.len() <= usize::MAX,
        drawn.len() == nodes.len(),
    ensures
        ({
            let (part, d) = repeat_step(nodes, i, hex, bw, drawn);
            &&& d.len() == nodes.len()
            &&& forall|k: int| 0 <= k < part.len() ==> (#[trigger] part[k]) < nodes.len()
            &&& part.contains(i as usize)
            &&& forall|p: int| 0 <= p < nodes.len() && #[trigger] d[p] ==> drawn[p] || part.contains(p as usize)
            &&& forall|p: int| 0 <= p < nodes.len() && #[trigger] drawn[p] ==> d[p]
        }),
{
    broadcast use vstd::seq_lib::group_to_multiset_ensures;

    let n = nodes.len() as int;
    let hexpos = first_with_index(nodes, hex, i + 1);
    lemma_first_with_index_bounds(nodes, hex, i + 1);
    let body_end = match hexpos {
        Some(j) => j,
        None => n,
    };
    let free = free_between(drawn, i + 1, body_end);
    lemma_free_between(drawn, i + 1, body_end);
    let body = if_draw_order(nodes, free, 0);
    lemma_if_draw_order_permutes(nodes, free, 0);
    assert(free.subrange(0, free.len() as int) =~= free);
    assert forall|x: usize| #[trigger] body.contains(x) implies free.contains(x) && x < n by {
        assert(body.to_multiset().count(x) > 0);
        let k = choose|k: int| 0 <= k < free.len() && free[k] == x;
    }
    let d1 = mark_drawn(drawn, body).update(i, true);
    let d2 = match hexpos {
        Some(j) => d1.update(j, true),
        None => d1,
    };
    let hex_part: Seq<usize> = match hexpos {
        Some(j) => seq![j as usize],
        None => Seq::empty(),
    };
    let bwpos = match bw {
        Some(b) => first_free_with_index(nodes, b, d2, 0),
        None => None,
    };
    if let Some(b) = bw {
        lemma_first_free_bounds(nodes, b, d2, 0);
    }
    let d3 = match bwpos {
        Some(j) => d2.update(j, true),
        None => d2,
    };
    let bw_part: Seq<usize> = match bwpos {
        Some(j) => seq![j as usize],
        None => Seq::empty(),
    };
    let part = body + seq![i as usize] + hex_part + bw_part;
    assert(repeat_step(nodes, i, hex, bw, drawn) == (part, d3));
    assert forall|k: int| 0 <= k < part.len() implies (#[trigger] part[k]) < n by {
        let b1 = body + seq![i as usize];
        let b2 = b1 + hex_part;
        if k < body.len() {
            assert(part[k] == body[k]);
            assert(body.contains(body[k]));
        } else if k == body.len() {
            assert(part[k] == i as usize);
        } else if k < b2.len() {
            assert(part[k] == hex_part[k - b1.len()]);
        } else {
            assert(part[k] == bw_part[k - b2.len()]);
        }
    }
    assert(part[body.len() as int] == i as usize);
    assert forall|p: int| 0 <= p < n && #[trigger] d3[p] implies drawn[p] || part.contains(p as usize) by {
        let x = p as usize;
        let b1 = body + seq![i as usize];
        let b2 = b1 + hex_part;
        lemma_contains_concat(b2, bw_part, x);
        lemma_contains_concat(b1, hex_part, x);
        lemma_contains_concat(body, seq![i as usize], x);
        if bwpos is Some && p == bwpos->0 {
            assert(bw_part[0] == x);
        } else if hexpos is Some && p == hexpos->0 {
            assert(hex_part[0] == x);
        } else if p == i {
            assert(seq![i as usize][0] == x);
        } else {
            assert(mark_drawn(drawn, body)[p]);
        }
    }
}

proof fn lemma_render_order_from_covers(
    nodes: Seq<NodeOrderKey>,
    rl: Seq<(usize, usize)>,
    bl: Seq<(usize, usize, usize)>,
    i: int,
    drawn: Seq<bool>,
)
    requires
        0 <= i <= nodes.len(),
        nodes.len() <= usize::MAX,
        drawn.len() == nodes.len(),
    ensures
        forall|k: int|
            0 <= k < render_order_from(nodes, rl, bl, i, drawn).len() ==> (#[trigger] render_order_from(
                nodes,
                rl,
                bl,
                i,
                drawn,
            )[k]) < nodes.len(),
        forall|p: int|
            i <= p < nodes.len() && !drawn[p] ==> #[trigger] render_order_from(nodes, rl, bl, i, drawn).contains(
                p as usize,
            ),
    decreases nodes.len() - i,
{
    let n = nodes.len() as int;
    if i < n {
        let r = render_order_from(nodes, rl, bl, i, drawn);
        if drawn[i] {
            lemma_render_order_from_covers(nodes, rl, bl, i + 1, drawn);
            let rest = render_order_from(nodes, rl, bl, i + 1, drawn);
            assert(r == rest);
            assert forall|k: int| 0 <= k < r.len() implies (#[trigger] r[k]) < n by {
                assert(r[k] == rest[k]);
            }
            assert forall|p: int| i <= p < n && !drawn[p] implies #[trigger] r.contains(p as usize) by {
                assert(rest.contains(p as usize));
            }
        } else {
            match hex_for(rl, bl, nodes[i].index) {
                None => {
                    let d = drawn.update(i, true);
                    lemma_render_order_from_covers(nodes, rl, bl, i + 1, d);
                    let rest = render_order_from(nodes, rl, bl, i + 1, d);
                    assert(r == seq![i as usize] + rest);
                    assert forall|k: int| 0 <= k < r.len() implies (#[trigger] r[k]) < n by {
                        if k > 0 {
                            assert(r[k] == rest[k - 1]);
                        }
                    }
                    assert forall|p: int| i <= p < n && !drawn[p] implies #[trigger] r.contains(p as usize) by {
                        lemma_contains_concat(seq![i as usize], rest, p as usize);
                        if p == i {
                            assert(seq![i as usize][0] == p as usize);
                        } else {
                            assert(!d[p]);
                            assert(rest.contains(p as usize));
                        }
                    }
                },
                Some(hex) => {
                    let bw = backward_for(bl, nodes[i].index);
                    let (part, d) = repeat_step(nodes, i, hex, bw, drawn);
                    lemma_repeat_step_covers(nodes, i, hex, bw, drawn);
                    lemma_render_order_from_covers(nodes, rl, bl, i + 1, d);
                    let rest = render_order_from(nodes, rl, bl, i + 1, d);
                    assert(r == part + rest);
                    assert forall|k: int| 0 <= k < r.len() implies (#[trigger] r[k]) < n by {
                        if k < part.len() {
                            assert(r[k] == part[k]);
                        } else {
                            assert(r[k] == rest[k - part.len()]);
                        }
                    }
                    assert forall|p: int| i <= p < n && !drawn[p] implies #[trigger] r.contains(p as usize) by {
                        lemma_contains_concat(part, rest, p as usize);
                        if p == i {
                            assert(part.contains(i as usize));
                        } else if d[p] {
                            assert(part.contains(p as usize));
                        } else {
                            assert(rest.contains(p as usize));
                        }
                    }
                },
            }
        }
    }
}

/// The draw order of `compute_render_order_for_repeat` draws every node:
/// each of its entries is a position of `nodes`, and each position occurs in
/// it.
pub proof fn lemma_render_order_covers_nodes(
    nodes: Seq<NodeOrderKey>,
    rl: Seq<(usize, usize)>,
    bl: Seq<(usize, usize, usize)>,
)
    requires
        nodes.len() <= usize::MAX,
    ensures
        covers_positions(render_order_for_repeat(nodes, rl, bl), nodes.len() as int),
{
    let drawn = Seq::new(nodes.len(), |k: int| false);
    lemma_render_order_from_covers(nodes, rl, bl, 0, drawn);
}

/// Some backward loop-back has `x` as its backward node.
pub open spec fn is_backward_node(bl: Seq<(usize, usize, usize)>, x: usize) -> bool {
    exists|k: int| 0 <= k < bl.len() && bl[k].2 == x
}

/// No hexagon of a loop-back is the backward node of a backward loop-back.
pub open spec fn hexagons_not_backward(rl: Seq<(usize, usize)>, bl: Seq<(usize, usize, usize)>) -> bool {
    &&& forall|a: int, b: int| 0 <= a < rl.len() && 0 <= b < bl.len() ==> #[trigger] rl[a].0 != #[trigger] bl[b].2
    &&& forall|a: int, b: int| 0 <= a < bl.len() && 0 <= b < bl.len() ==> #[trigger] bl[a].0 != #[trigger] bl[b].2
}

/// The drawn positions from `i` on that are no backward node come in one
/// block from `i` on.
pub open spec fn drawn_block(nodes: Seq<NodeOrderKey>, bl: Seq<(usize, usize, usize)>, i: int, drawn: Seq<bool>) -> bool {
    forall|p: int, q: int|
        i <= q <= p < nodes.len() && #[trigger] drawn[p] && !is_backward_node(bl, nodes[p].index) ==> #[trigger] drawn[q]
}

proof fn lemma_last_repeat_hex_in(rl: Seq<(usize, usize)>, d1: usize, n: int)
    requires
        n <= rl.len(),
    ensures
        last_repeat_hex(rl, d1, n) matches Some(h) ==> exists|k: int| 0 <= k < rl.len() && rl[k].0 == h,
    decreases n,
{
    if n > 0 {
        if rl[n - 1].1 == d1 {
            assert(rl[n - 1].0 == rl[n - 1].0);
        } else {
            lemma_last_repeat_hex_in(rl, d1, n - 1);
        }
    }
}

proof fn lemma_last_backward_in(bl: Seq<(usize, usize, usize)>, d1: usize, n: int)
    requires
        n <= bl.len(),
    ensures
        last_backward(bl, d1, n) matches Some((h, b)) ==> exists|k: int| 0 <= k < bl.len() && bl[k].0 == h && bl[k].2 == b,
    decreases n,
{
    if n > 0 {
        if bl[n - 1].1 == d1 {
            assert(bl[n - 1].0 == bl[n - 1].0);
        } else {
            lemma_last_backward_in(bl, d1, n - 1);
        }
    }
}

proof fn lemma_hex_and_backward(rl: Seq<(usize, usize)>, bl: Seq<(usize, usize, usize)>, d1: usize)
    requires
        hexagons_not_backward(rl, bl),
    ensures
        hex_for(rl, bl, d1) matches Some(h) ==> !is_backward_node(bl, h),
        backward_for(bl, d1) matches Some(b) ==> is_backward_node(bl, b),
{
    lemma_last_repeat_hex_in(rl, d1, rl.len() as int);
    lemma_last_backward_in(bl, d1, bl.len() as int);
    if let Some(h) = hex_for(rl, bl, d1) {
        if is_backward_node(bl, h) {
            let b = choose|b: int| 0 <= b < bl.len() && bl[b].2 == h;
            match last_backward(bl, d1, bl.len() as int) {
                Some((h2, _)) => {
                    let a = choose|a: int| 0 <= a < bl.len() && bl[a].0 == h2 && bl[a].2 == backward_for(bl, d1)->0;
                    assert(bl[a].0 != bl[b].2);
                },
                None => {
                    let a = choose|a: int| 0 <= a < rl.len() && rl[a].0 == h;
                    assert(rl[a].0 != bl[b].2);
                },
            }
        }
    }
    if let Some(b) = backward_for(bl, d1) {
        let (h2, b2) = last_backward(bl, d1, bl.len() as int)->0;
        let a = choose|a: int| 0 <= a < bl.len() && bl[a].0 == h2 && bl[a].2 == b2;
        assert(bl[a].2 == b);
    }
}

proof fn lemma_free_between_sorted(drawn: Seq<bool>, lo: int, hi: int)
    requires
        0 <= lo,
        hi <= drawn.len(),
        hi <= usize::MAX,
    ensures
        free_between(drawn, lo, hi).no_duplicates(),
        forall|k: int| 0 <= k < free_between(drawn, lo, hi).len() ==> !drawn[#[trigger] free_between(drawn, lo, hi)[k] as int],
    decreases hi - lo,
{
    if hi > lo {
        lemma_free_between_sorted(drawn, lo, hi - 1);
        lemma_free_between(drawn, lo, hi - 1);
        let a = free_between(drawn, lo, hi - 1);
        let b: Seq<usize> = if !drawn[hi - 1] { seq![(hi - 1) as usize] } else { Seq::empty() };
        assert(free_between(drawn, lo, hi) == a + b);
        assert forall|x: int, y: int| 0 <= x < a.len() && 0 <= y < b.len() implies #[trigger] a[x] != #[trigger] b[y] by {
            assert(a[x] < hi - 1);
        }
        vstd::seq_lib::lemma_no_dup_in_concat(a, b);
        let f = a + b;
        assert forall|k: int| 0 <= k < f.len() implies !drawn[#[trigger] f[k] as int] by {
            if k < a.len() {
                assert(f[k] == a[k]);
            } else {
                assert(f[k] == b[k - a.len()]);
            }
        }
    }
}

proof fn lemma_repeat_step_distinct(nodes: Seq<NodeOrderKey>, bl: Seq<(usize, usize, usize)>, i: int, hex: usize, bw: Option<usize>, drawn: Seq<bool>)
    requires
        0 <= i < nodes.len(),
        nodes.len() <= usize::MAX,
        drawn.len() == nodes.len(),
        !drawn[i],
        first_with_index(nodes, hex, i + 1) matches Some(j) ==> !drawn[j],
        bw matches Some(b) ==> is_backward_node(bl, b),
    ensures
        ({
            let (part, d) = repeat_step(nodes, i, hex, bw, drawn);
            &&& part.no_duplicates()
            &&& forall|k: int| 0 <= k < part.len() ==> !drawn[#[trigger] part[k] as int]
            &&& forall|k: int| 0 <= k < part.len() ==> d[#[trigger] part[k] as int]
            &&& forall|p: int, q: int|
                i <= q <= p < nodes.len() && #[trigger] d[p] && !drawn[p] && !is_backward_node(bl, nodes[p].index)
                    ==> #[trigger] d[q]
        }),
{
    broadcast use vstd::seq_lib::group_to_multiset_ensures;
    broadcast use group_multiset_axioms;

    let n = nodes.len() as int;
    let hexpos = first_with_index(nodes, hex, i + 1);
    lemma_first_with_index_bounds(nodes, hex, i + 1);
    let body_end = match hexpos {
        Some(j) => j,
        None => n,
    };
    let free = free_between(drawn, i + 1, body_end);
    lemma_free_between(drawn, i + 1, body_end);
    lemma_free_between_sorted(drawn, i + 1, body_end);
    let body = if_draw_order(nodes, free, 0);
    lemma_if_draw_order_permutes(nodes, free, 0);
    assert(free.subrange(0, free.len() as int) =~= free);
    free.lemma_multiset_has_no_duplicates();
    body.lemma_multiset_has_no_duplicates_conv();
    assert forall|x: usize| #[trigger] body.contains(x) implies free.contains(x) && i < x < body_end && !drawn[x as int] by {
        assert(body.to_multiset().count(x) > 0);
        let k = choose|k: int| 0 <= k < free.len() && free[k] == x;
    }
    let d1 = mark_drawn(drawn, body).update(i, true);
    let d2 = match hexpos {
        Some(j) => d1.update(j, true),
        None => d1,
    };
    let hex_part: Seq<usize> = match hexpos {
        Some(j) => seq![j as usize],
        None => Seq::empty(),
    };
    let bwpos = match bw {
        Some(b) => first_free_with_index(nodes, b, d2, 0),
        None => None,
    };
    if let Some(b) = bw {
        lemma_first_free_bounds(nodes, b, d2, 0);
        lemma_first_free_found(nodes, b, d2, 0);
    }
    let d3 = match bwpos {
        Some(j) => d2.update(j, true),
        None => d2,
    };
    let bw_part: Seq<usize> = match bwpos {
        Some(j) => seq![j as usize],
        None => Seq::empty(),
    };
    let b1 = body + seq![i as usize];
    let b2 = b1 + hex_part;
    let part = b2 + bw_part;
    assert(repeat_step(nodes, i, hex, bw, drawn) == (part, d3));
    let one: Seq<usize> = seq![i as usize];
    assert forall|x: int, y: int| 0 <= x < body.len() && 0 <= y < one.len() implies #[trigger] body[x] != #[trigger] one[y] by {
        assert(body.contains(body[x]));
    }
    vstd::seq_lib::lemma_no_dup_in_concat(body, one);
    assert forall|x: int, y: int| 0 <= x < b1.len() && 0 <= y < hex_part.len() implies #[trigger] b1[x] != #[trigger] hex_part[y] by {
        if x < body.len() {
            assert(b1[x] == body[x]);
            assert(body.contains(body[x]));
        }
    }
    vstd::seq_lib::lemma_no_dup_in_concat(b1, hex_part);
    assert forall|k: int| 0 <= k < b2.len() implies d2[#[trigger] b2[k] as int] && (b2[k] as int) < n by {
        if k < body.len() {
            assert(b2[k] == body[k]);
            assert(body.contains(body[k]));
        } else if k == body.len() {
            assert(b2[k] == i as usize);
        } else {
            assert(b2[k] == hex_part[k - b1.len()]);
        }
    }
    assert forall|x: int, y: int| 0 <= x < b2.len() && 0 <= y < bw_part.len() implies #[trigger] b2[x] != #[trigger] bw_part[y] by {
        assert(d2[b2[x] as int]);
    }
    vstd::seq_lib::lemma_no_dup_in_concat(b2, bw_part);
    assert forall|k: int| 0 <= k < part.len() implies !drawn[#[trigger] part[k] as int] && d3[part[k] as int] by {
        if k < body.len() {
            assert(part[k] == body[k]);
            assert(body.contains(body[k]));
        } else if k == body.len() {
            assert(part[k] == i as usize);
        } else if k < b2.len() {
            assert(part[k] == hex_part[k - b1.len()]);
        } else {
            assert(part[k] == bw_part[k - b2.len()]);
        }
    }
    assert forall|p: int, q: int|
        i <= q <= p < n && #[trigger] d3[p] && !drawn[p] && !is_backward_node(bl, nodes[p].index) implies #[trigger] d3[q] by {
        if bwpos is Some && p == bwpos->0 {
            assert(nodes[p].index == bw->0);
        } else if q == i {
        } else if hexpos is Some && q == hexpos->0 {
        } else if drawn[q] {
        } else {
            assert(p == i || (hexpos is Some && p == hexpos->0) || body.contains(p as usize));
            assert(q < body_end);
            assert(free.contains(q as usize));
            assert(body.to_multiset().count(q as usize) > 0);
            assert(body.contains(q as usize));
        }
    }
}

proof fn lemma_first_free_found(nodes: Seq<NodeOrderKey>, idx: usize, drawn: Seq<bool>, from: int)
    ensures
        first_free_with_index(nodes, idx, drawn, from) matches Some(j) ==> nodes[j].index == idx && !drawn[j],
    decreases nodes.len() - from,
{
    if 0 <= from < nodes.len() && !(nodes[from].index == idx && !drawn[from]) {
        lemma_first_free_found(nodes, idx, drawn, from + 1);
    }
}

proof fn lemma_first_with_index_found(nodes: Seq<NodeOrderKey>, idx: usize, from: int)
    ensures
        first_with_index(nodes, idx, from) matches Some(j) ==> nodes[j].index == idx,
    decreases nodes.len() - from,
{
    if 0 <= from < nodes.len() && nodes[from].index != idx {
        lemma_first_with_index_found(nodes, idx, from + 1);
    }
}

proof fn lemma_render_order_from_distinct(
    nodes: Seq<NodeOrderKey>,
    rl: Seq<(usize, usize)>,
    bl: Seq<(usize, usize, usize)>,
    i: int,
    drawn: Seq<bool>,
)
    requires
        0 <= i <= nodes.len(),
        nodes.len() <= usize::MAX,
        drawn.len() == nodes.len(),
        hexagons_not_backward(rl, bl),
        drawn_block(nodes, bl, i, drawn),
    ensures
        render_order_from(nodes, rl, bl, i, drawn).no_duplicates(),
        forall|k: int|
            0 <= k < render_order_from(nodes, rl, bl, i, drawn).len() ==> !drawn[#[trigger] render_order_from(
                nodes,
                rl,
                bl,
                i,
                drawn,
            )[k] as int],
    decreases nodes.len() - i,
{
    let n = nodes.len() as int;
    if i < n {
        let r = render_order_from(nodes, rl, bl, i, drawn);
        if drawn[i] {
            lemma_render_order_from_distinct(nodes, rl, bl, i + 1, drawn);
            assert(r == render_order_from(nodes, rl, bl, i + 1, drawn));
        } else {
            match hex_for(rl, bl, nodes[i].index) {
                None => {
                    let d = drawn.update(i, true);
                    assert(drawn_block(nodes, bl, i + 1, d)) by {
                        assert forall|p: int, q: int|
                            i + 1 <= q <= p < n && #[trigger] d[p] && !is_backward_node(bl, nodes[p].index) implies #[trigger] d[q] by {
                            assert(drawn[p]);
                            assert(drawn[i]);
                        }
                    }
                    lemma_render_order_from_distinct(nodes, rl, bl, i + 1, d);
                    lemma_render_order_from_covers(nodes, rl, bl, i + 1, d);
                    let rest = render_order_from(nodes, rl, bl, i + 1, d);
                    let one: Seq<usize> = seq![i as usize];
                    assert(r == one + rest);
                    assert forall|x: int, y: int| 0 <= x < one.len() && 0 <= y < rest.len() implies #[trigger] one[x] != #[trigger] rest[y] by {
                        assert(!d[rest[y] as int]);
                    }
                    vstd::seq_lib::lemma_no_dup_in_concat(one, rest);
                    assert forall|k: int| 0 <= k < r.len() implies !drawn[#[trigger] r[k] as int] by {
                        if k > 0 {
                            assert(r[k] == rest[k - 1]);
                            assert(!d[rest[k - 1] as int]);
                        }
                    }
                },
                Some(hex) => {
                    let bw = backward_for(bl, nodes[i].index);
                    lemma_hex_and_backward(rl, bl, nodes[i].index);
                    lemma_first_with_index_bounds(nodes, hex, i + 1);
                    lemma_first_with_index_found(nodes, hex, i + 1);
                    if let Some(j) = first_with_index(nodes, hex, i + 1) {
                        if drawn[j] {
                            assert(drawn[i]);
                        }
                    }
                    let (part, d) = repeat_step(nodes, i, hex, bw, drawn);
                    lemma_repeat_step_distinct(nodes, bl, i, hex, bw, drawn);
                    lemma_repeat_step_covers(nodes, i, hex, bw, drawn);
                    assert(drawn_block(nodes, bl, i + 1, d)) by {
                        assert forall|p: int, q: int|
                            i + 1 <= q <= p < n && #[trigger] d[p] && !is_backward_node(bl, nodes[p].index) implies #[trigger] d[q] by {
                            if drawn[p] {
                                assert(drawn[i]);
                            }
                        }
                    }
                    lemma_render_order_from_distinct(nodes, rl, bl, i + 1, d);
                    lemma_render_order_from_covers(nodes, rl, bl, i + 1, d);
                    let rest = render_order_from(nodes, rl, bl, i + 1, d);
                    assert(r == part + rest);
                    assert forall|x: int, y: int| 0 <= x < part.len() && 0 <= y < rest.len() implies #[trigger] part[x] != #[trigger] rest[y] by {
                        assert(d[part[x] as int]);
                        assert(!d[rest[y] as int]);
                    }
                    vstd::seq_lib::lemma_no_dup_in_concat(part, rest);
                    assert forall|k: int| 0 <= k < r.len() implies !drawn[#[trigger] r[k] as int] by {
                        if k < part.len() {
                            assert(r[k] == part[k]);
                        } else {
                            assert(r[k] == rest[k - part.len()]);
                            assert(!d[rest[k - part.len()] as int]);
                        }
                    }
                },
            }
        }
    }
}

/// Unless a hexagon of a repeat is also the backward node of one, the draw
/// order of `compute_render_order_for_repeat` is a permutation of the node
/// positions: every position occurs in it exactly once.
pub proof fn lemma_render_order_permutes(
    nodes: Seq<NodeOrderKey>,
    rl: Seq<(usize, usize)>,
    bl: Seq<(usize, usize, usize)>,
)
    requires
        nodes.len() <= usize::MAX,
        hexagons_not_backward(rl, bl),
    ensures
        covers_positions(render_order_for_repeat(nodes, rl, bl), nodes.len() as int),
        render_order_for_repeat(nodes, rl, bl).no_duplicates(),
{
    let drawn = Seq::new(nodes.len(), |k: int| false);
    lemma_render_order_from_covers(nodes, rl, bl, 0, drawn);
    lemma_render_order_from_distinct(nodes, rl, bl, 0, drawn);
}

/// A place in the edge draw order: an edge of the layout, or the `k`-th
/// loop-back edge of repeat frame `f` (an index into the frames).
#[derive(Clone, Copy, Debug, PartialEq, Eq, Structural)]
pub enum EdgeSlot {
    Edge(usize),
    LoopBack(usize, usize),
}

/// Where a stable insertion puts a frame with first diamond `d` among the
/// ordered frames `fr`: after every frame whose diamond is not after `d`.
pub open spec fn insert_pos(fr: Seq<usize>, lb: Seq<(usize, usize, usize)>, d: usize, k: int) -> int
    decreases fr.len() - k,
{
    if k < 0 || k >= fr.len() {
        fr.len() as int
    } else if lb[fr[k] as int].0 > d {
        k
    } else {
        insert_pos(fr, lb, d, k + 1)
    }
}

/// The first `m` repeat frames `(diamond1, hex, loop-back count)` ordered by
/// their first diamond, frames with the same diamond in their given order.
pub open spec fn frame_order_upto(lb: Seq<(usize, usize, usize)>, m: int) -> Seq<usize>
    decreases m,
{
    if m <= 0 {
        Seq::empty()
    } else {
        let fr = frame_order_upto(lb, m - 1);
        fr.insert(insert_pos(fr, lb, lb[m - 1].0, 0), (m - 1) as usize)
    }
}

/// What the edge order rules work on: the edges, the repeat frames, the nodes
/// and the frames in order of their first diamond.
pub struct RepeatCtx {
    pub edges: Seq<EdgeOrderKey>,
    pub lb: Seq<(usize, usize, usize)>,
    pub nodes: Seq<NodeOrderKey>,
    pub fr: Seq<usize>,
}

/// The part an edge plays in a repeat frame.
#[derive(Clone, Copy, Debug, PartialEq, Eq, Structural)]
pub enum EdgeRole {
    /// From the first diamond into the body.
    Enter,
    /// From the body to the hexagon.
    Exit,
    /// From the hexagon to the exit diamond right after it.
    Continuation,
    /// Inside the body (a break edge leaving it counts as inside).
    Inner,
    Outside,
}

/// The node after the hexagon is a plain diamond (the exit diamond).
pub open spec fn next_is_diamond(nodes: Seq<NodeOrderKey>, hex: usize) -> bool {
    hex + 1 < nodes.len() && nodes[hex + 1].shape is Diamond
}

/// The part edge `e` plays in the frame `(d1, hex, _)`.
pub open spec fn edge_role(nodes: Seq<NodeOrderKey>, e: EdgeOrderKey, f: (usize, usize, usize)) -> EdgeRole {
    let (d1, hex, _) = f;
    if e.from_index == d1 && d1 < e.to_index < hex {
        EdgeRole::Enter
    } else if e.to_index == hex && d1 < e.from_index < hex {
        EdgeRole::Exit
    } else if e.from_index == hex && e.to_index == hex + 1 && next_is_diamond(nodes, hex) {
        EdgeRole::Continuation
    } else if d1 < e.from_index < hex && (e.to_index < hex || e.is_break) {
        EdgeRole::Inner
    } else {
        EdgeRole::Outside
    }
}

/// The frame at position `q` of the frame order.
pub open spec fn frame_at(c: RepeatCtx, q: int) -> (usize, usize, usize) {
    c.lb[c.fr[q] as int]
}

/// Some frame with first diamond `d1` gives edge `e` the role `role`.
pub open spec fn has_role(c: RepeatCtx, e: EdgeOrderKey, d1: usize, role: EdgeRole) -> bool {
    exists|q: int| 0 <= q < c.fr.len() && (#[trigger] frame_at(c, q)).0 == d1 && edge_role(c.nodes, e, frame_at(c, q)) == role
}

/// The last of the first `n` edges with that role for diamond `d1`.
pub open spec fn last_with_role(c: RepeatCtx, d1: usize, role: EdgeRole, n: int) -> Option<usize>
    decreases n,
{
    if n <= 0 {
        None
    } else if has_role(c, c.edges[n - 1], d1, role) {
        Some((n - 1) as usize)
    } else {
        last_with_role(c, d1, role, n - 1)
    }
}

/// How many of the first `q` frames with diamond `d1` count `e` as inside
/// their body.
pub open spec fn inner_count(c: RepeatCtx, e: EdgeOrderKey, d1: usize, q: int) -> nat
    decreases q,
{
    if q <= 0 {
        0
    } else {
        inner_count(c, e, d1, q - 1) + if frame_at(c, q - 1).0 == d1 && edge_role(c.nodes, e, frame_at(c, q - 1))
            is Inner {
            1nat
        } else {
            0nat
        }
    }
}

/// The inner edges of the frames with diamond `d1` among the first `n`
/// edges, an edge once per frame it is inside.
pub open spec fn inner_list(c: RepeatCtx, d1: usize, n: int) -> Seq<usize>
    decreases n,
{
    if n <= 0 {
        Seq::empty()
    } else {
        inner_list(c, d1, n - 1) + Seq::new(inner_count(c, c.edges[n - 1], d1, c.fr.len() as int), |k: int| (n - 1) as usize)
    }
}

/// `x` is the first diamond of some frame.
pub open spec fn is_d1(c: RepeatCtx, x: usize) -> bool {
    exists|q: int| 0 <= q < c.fr.len() && (#[trigger] frame_at(c, q)).0 == x
}

/// `x` is the hexagon of some frame.
pub open spec fn is_hex(c: RepeatCtx, x: usize) -> bool {
    exists|q: int| 0 <= q < c.fr.len() && (#[trigger] frame_at(c, q)).1 == x
}

/// Edge `ei` is the continuation edge of some frame.
pub open spec fn is_continuation(c: RepeatCtx, ei: usize) -> bool {
    exists|q: int|
        0 <= q < c.fr.len() && last_with_role(c, (#[trigger] frame_at(c, q)).0, EdgeRole::Continuation, c.edges.len() as int)
            == Some(ei)
}

/// Edge `e` leaves the exit diamond of some frame.
pub open spec fn from_exit_diamond(c: RepeatCtx, e: EdgeOrderKey) -> bool {
    exists|q: int|
        0 <= q < c.fr.len() && e.from_index == (#[trigger] frame_at(c, q)).1 + 1 && next_is_diamond(c.nodes, frame_at(c, q).1)
}

/// The first diamond of the first frame (from position `q`) that holds edge
/// `e`.
pub open spec fn owner_from(c: RepeatCtx, e: EdgeOrderKey, q: int) -> Option<usize>
    decreases c.fr.len() - q,
{
    if q < 0 || q >= c.fr.len() {
        None
    } else if e.from_index >= frame_at(c, q).0 && e.to_index <= frame_at(c, q).1 && e.from_index != e.to_index {
        Some(frame_at(c, q).0)
    } else {
        owner_from(c, e, q + 1)
    }
}

/// The first position (from `q`) of a frame with diamond `d1`.
pub open spec fn first_frame_with(c: RepeatCtx, d1: usize, q: int) -> Option<int>
    decreases c.fr.len() - q,
{
    if q < 0 || q >= c.fr.len() {
        None
    } else if frame_at(c, q).0 == d1 {
        Some(q)
    } else {
        first_frame_with(c, d1, q + 1)
    }
}

/// The edges of `ps`, as slots.
pub open spec fn edge_slots(ps: Seq<usize>) -> Seq<EdgeSlot> {
    Seq::new(ps.len(), |k: int| EdgeSlot::Edge(ps[k]))
}

/// `consumed` with the edges of `ps` consumed too.
pub open spec fn consume(consumed: Seq<bool>, ps: Seq<usize>) -> Seq<bool> {
    Seq::new(consumed.len(), |k: int| consumed[k] || ps.contains(k as usize))
}

/// An optional edge as a sequence.
pub open spec fn opt_seq(o: Option<usize>) -> Seq<usize> {
    match o {
        Some(x) => seq![x],
        None => Seq::empty(),
    }
}

/// The edges of the frame with diamond `d1`, in PlantUML's order: inner
/// edges, the enter edge, the loop-back edges, the exit edge, the
/// continuation edge; and the edges consumed after them.
pub open spec fn frame_block(c: RepeatCtx, d1: usize, consumed: Seq<bool>) -> (Seq<EdgeSlot>, Seq<bool>) {
    let n = c.edges.len() as int;
    let inner = inner_list(c, d1, n);
    let enter = opt_seq(last_with_role(c, d1, EdgeRole::Enter, n));
    let exit = opt_seq(last_with_role(c, d1, EdgeRole::Exit, n));
    let cont = opt_seq(last_with_role(c, d1, EdgeRole::Continuation, n));
    let loops = match first_frame_with(c, d1, 0) {
        Some(q) => Seq::new(frame_at(c, q).2 as nat, |k: int| EdgeSlot::LoopBack(c.fr[q], k as usize)),
        None => Seq::empty(),
    };
    (
        edge_slots(inner) + edge_slots(enter) + loops + edge_slots(exit) + edge_slots(cont),
        consume(consume(consume(consume(consumed, inner), enter), exit), cont),
    )
}

/// The draw order of the edges from `ei` on: edges into a frame from before
/// it and out of it (or out of its exit diamond) are put off to the end; the
/// first edge that falls inside a frame brings the whole frame (see
/// `frame_block`); the rest keep their place.
pub open spec fn repeat_edges_from(
    c: RepeatCtx,
    ei: int,
    consumed: Seq<bool>,
    emitted: Seq<usize>,
    deferred: Seq<usize>,
) -> Seq<EdgeSlot>
    decreases c.edges.len() - ei,
{
    if ei < 0 || ei >= c.edges.len() {
        edge_slots(deferred)
    } else if consumed[ei] {
        repeat_edges_from(c, ei + 1, consumed, emitted, deferred)
    } else {
        let e = c.edges[ei];
        let done = consumed.update(ei, true);
        if is_d1(c, e.to_index) && !is_d1(c, e.from_index) && e.from_index < e.to_index {
            repeat_edges_from(c, ei + 1, done, emitted, deferred.push(ei as usize))
        } else if is_hex(c, e.from_index) && !is_hex(c, e.to_index) && e.to_index > e.from_index
            && !is_continuation(c, ei as usize) {
            repeat_edges_from(c, ei + 1, done, emitted, deferred.push(ei as usize))
        } else if from_exit_diamond(c, e) && e.to_index > e.from_index {
            repeat_edges_from(c, ei + 1, done, emitted, deferred.push(ei as usize))
        } else {
            match owner_from(c, e, 0) {
                Some(d1) => if !emitted.contains(d1) {
                    let (block, after) = frame_block(c, d1, consumed);
                    block + repeat_edges_from(c, ei + 1, after.update(ei, true), emitted.push(d1), deferred)
                } else {
                    repeat_edges_from(c, ei + 1, done, emitted, deferred)
                },
                None => seq![EdgeSlot::Edge(ei as usize)] + repeat_edges_from(c, ei + 1, done, emitted, deferred),
            }
        }
    }
}

/// The edge draw order for the repeat frames `lb` (see `repeat_edges_from`).
pub open spec fn repeat_edge_order(
    edges: Seq<EdgeOrderKey>,
    lb: Seq<(usize, usize, usize)>,
    nodes: Seq<NodeOrderKey>,
) -> Seq<EdgeSlot> {
    let c = RepeatCtx { edges, lb, nodes, fr: frame_order_upto(lb, lb.len() as int) };
    repeat_edges_from(c, 0, Seq::new(edges.len(), |k: int| false), Seq::empty(), Seq::empty())
}

/// The repeat frames in order of their first diamond (see
/// `frame_order_upto`).
fn frame_order(lb: &[(usize, usize, usize)]) -> (r: Vec<usize>)
    ensures
        r@ == frame_order_upto(lb@, lb@.len() as int),
        forall|k: int| 0 <= k < r@.len() ==> r@[k] < lb@.len(),
{
    let m = lb.len();
    let mut fr: Vec<usize> = Vec::new();
    let mut f: usize = 0;
    while f < m
        invariant
            m == lb@.len(),
            f <= m,
            fr@ == frame_order_upto(lb@, f as int),
            fr@.len() == f,
            forall|k: int| 0 <= k < fr@.len() ==> fr@[k] < f,
        decreases m - f,
    {
        let d = lb[f].0;
        let mut p: usize = 0;
        while p < fr.len()
            invariant
                p <= fr@.len(),
                forall|k: int| 0 <= k < fr@.len() ==> fr@[k] < f,
                f < m == lb@.len(),
                d == lb@[f as int].0,
                insert_pos(fr@, lb@, d, 0) == insert_pos(fr@, lb@, d, p as int),
            ensures
                insert_pos(fr@, lb@, d, 0) == p as int,
            decreases fr@.len() - p,
        {
            if lb[fr[p]].0 > d {
                break;
            }
            p += 1;
        }
        let ghost old_fr = fr@;
        fr.insert(p, f);
        proof {
            assert forall|k: int| 0 <= k < fr@.len() implies fr@[k] < f + 1 by {
                if k < p {
                    assert(fr@[k] == old_fr[k]);
                } else if k > p {
                    assert(fr@[k] == old_fr[k - 1]);
                }
            }
        }
        f += 1;
    }
    fr
}

fn role_of(nodes: &[NodeOrderKey], e: EdgeOrderKey, f: (usize, usize, usize)) -> (r: EdgeRole)
    requires
        f.1 < usize::MAX,
    ensures
        r == edge_role(nodes@, e, f),
{
    let (d1, hex, _) = f;
    if e.from_index == d1 && d1 < e.to_index && e.to_index < hex {
        EdgeRole::Enter
    } else if e.to_index == hex && d1 < e.from_index && e.from_index < hex {
        EdgeRole::Exit
    } else if e.from_index == hex && e.to_index == hex + 1 && hex + 1 < nodes.len() && nodes[hex + 1].shape
        == NodeShape::Diamond {
        EdgeRole::Continuation
    } else if d1 < e.from_index && e.from_index < hex && (e.to_index < hex || e.is_break) {
        EdgeRole::Inner
    } else {
        EdgeRole::Outside
    }
}

/// The edge order rules' view of the inputs.
pub open spec fn ctx(
    edges: Seq<EdgeOrderKey>,
    lb: Seq<(usize, usize, usize)>,
    nodes: Seq<NodeOrderKey>,
    fr: Seq<usize>,
) -> RepeatCtx {
    RepeatCtx { edges, lb, nodes, fr }
}

/// The frames are well formed: their positions are frame indices, and no
/// hexagon is the last index.
pub open spec fn frames_ok(lb: Seq<(usize, usize, usize)>, fr: Seq<usize>) -> bool {
    &&& forall|k: int| 0 <= k < fr.len() ==> fr[k] < lb.len()
    &&& forall|f: int| 0 <= f < lb.len() ==> lb[f].1 < usize::MAX
}

fn has_role_exec(
    edges: &[EdgeOrderKey],
    lb: &[(usize, usize, usize)],
    nodes: &[NodeOrderKey],
    fr: &Vec<usize>,
    e: EdgeOrderKey,
    d1: usize,
    role: EdgeRole,
) -> (r: bool)
    requires
        frames_ok(lb@, fr@),
    ensures
        r == has_role(ctx(edges@, lb@, nodes@, fr@), e, d1, role),
{
    let ghost c = ctx(edges@, lb@, nodes@, fr@);
    let mut q: usize = 0;
    while q < fr.len()
        invariant
            frames_ok(lb@, fr@),
            c == ctx(edges@, lb@, nodes@, fr@),
            q <= fr@.len(),
            forall|k: int| 0 <= k < q ==> !((#[trigger] frame_at(c, k)).0 == d1 && edge_role(c.nodes, e, frame_at(c, k)) == role),
        decreases fr@.len() - q,
    {
        let f = lb[fr[q]];
        if f.0 == d1 && role_of(nodes, e, f) == role {
            assert(frame_at(c, q as int) == f);
            return true;
        }
        q += 1;
    }
    false
}

fn last_with_role_exec(
    edges: &[EdgeOrderKey],
    lb: &[(usize, usize, usize)],
    nodes: &[NodeOrderKey],
    fr: &Vec<usize>,
    d1: usize,
    role: EdgeRole,
) -> (r: Option<usize>)
    requires
        frames_ok(lb@, fr@),
    ensures
        r == last_with_role(ctx(edges@, lb@, nodes@, fr@), d1, role, edges@.len() as int),
        r matches Some(x) ==> x < edges@.len(),
{
    let ghost c = ctx(edges@, lb@, nodes@, fr@);
    let mut n = edges.len();
    while n > 0
        invariant
            frames_ok(lb@, fr@),
            c == ctx(edges@, lb@, nodes@, fr@),
            n <= edges@.len(),
            last_with_role(c, d1, role, edges@.len() as int) == last_with_role(c, d1, role, n as int),
        decreases n,
    {
        if has_role_exec(edges, lb, nodes, fr, edges[n - 1], d1, role) {
            return Some(n - 1);
        }
        n -= 1;
    }
    None
}

fn inner_list_exec(
    edges: &[EdgeOrderKey],
    lb: &[(usize, usize, usize)],
    nodes: &[NodeOrderKey],
    fr: &Vec<usize>,
    d1: usize,
) -> (r: Vec<usize>)
    requires
        frames_ok(lb@, fr@),
    ensures
        r@ == inner_list(ctx(edges@, lb@, nodes@, fr@), d1, edges@.len() as int),
        forall|k: int| 0 <= k < r@.len() ==> r@[k] < edges@.len(),
{
    let ghost c = ctx(edges@, lb@, nodes@, fr@);
    let mut r: Vec<usize> = Vec::new();
    let mut ei: usize = 0;
    while ei < edges.len()
        invariant
            frames_ok(lb@, fr@),
            c == ctx(edges@, lb@, nodes@, fr@),
            ei <= edges@.len(),
            r@ == inner_list(c, d1, ei as int),
            forall|k: int| 0 <= k < r@.len() ==> r@[k] < ei,
        decreases edges@.len() - ei,
    {
        let ghost r0 = r@;
        let e = edges[ei];
        let mut q: usize = 0;
        while q < fr.len()
            invariant
                frames_ok(lb@, fr@),
                c == ctx(edges@, lb@, nodes@, fr@),
                ei < edges@.len(),
                e == edges@[ei as int],
                q <= fr@.len(),
                r@ == r0 + Seq::new(inner_count(c, e, d1, q as int), |k: int| ei),
                forall|k: int| 0 <= k < r0.len() ==> r0[k] < ei,
            decreases fr@.len() - q,
        {
            let f = lb[fr[q]];
            let ghost before = r@;
            if f.0 == d1 && role_of(nodes, e, f) == EdgeRole::Inner {
                r.push(ei);
            }
            proof {
                assert(frame_at(c, q as int) == f);
                assert(r@ =~= r0 + Seq::new(inner_count(c, e, d1, q + 1), |k: int| ei));
            }
            q += 1;
        }
        proof {
            assert(r@ =~= inner_list(c, d1, ei + 1));
            assert forall|k: int| 0 <= k < r@.len() implies r@[k] < ei + 1 by {
                if k < r0.len() {
                    assert(r@[k] == r0[k]);
                }
            }
        }
        ei += 1;
    }
    r
}

fn first_frame_with_exec(lb: &[(usize, usize, usize)], fr: &Vec<usize>, d1: usize, Ghost(c): Ghost<RepeatCtx>) -> (r: Option<usize>)
    requires
        frames_ok(lb@, fr@),
        c.lb == lb@,
        c.fr == fr@,
    ensures
        match first_frame_with(c, d1, 0) {
            Some(q) => r matches Some(p) && p == q && 0 <= q < fr@.len(),
            None => r is None,
        },
{
    let mut q: usize = 0;
    while q < fr.len()
        invariant
            frames_ok(lb@, fr@),
            c.lb == lb@,
            c.fr == fr@,
            q <= fr@.len(),
            first_frame_with(c, d1, 0) == first_frame_with(c, d1, q as int),
        decreases fr@.len() - q,
    {
        if lb[fr[q]].0 == d1 {
            return Some(q);
        }
        q += 1;
    }
    None
}

fn is_d1_exec(lb: &[(usize, usize, usize)], fr: &Vec<usize>, x: usize, Ghost(c): Ghost<RepeatCtx>) -> (r: bool)
    requires
        frames_ok(lb@, fr@),
        c.lb == lb@,
        c.fr == fr@,
    ensures
        r == is_d1(c, x),
{
    let mut q: usize = 0;
    while q < fr.len()
        invariant
            frames_ok(lb@, fr@),
            c.lb == lb@,
            c.fr == fr@,
            q <= fr@.len(),
            forall|k: int| 0 <= k < q ==> (#[trigger] frame_at(c, k)).0 != x,
        decreases fr@.len() - q,
    {
        if lb[fr[q]].0 == x {
            assert(frame_at(c, q as int).0 == x);
            return true;
        }
        q += 1;
    }
    false
}

fn is_hex_exec(lb: &[(usize, usize, usize)], fr: &Vec<usize>, x: usize, Ghost(c): Ghost<RepeatCtx>) -> (r: bool)
    requires
        frames_ok(lb@, fr@),
        c.lb == lb@,
        c.fr == fr@,
    ensures
        r == is_hex(c, x),
{
    let mut q: usize = 0;
    while q < fr.len()
        invariant
            frames_ok(lb@, fr@),
            c.lb == lb@,
            c.fr == fr@,
            q <= fr@.len(),
            forall|k: int| 0 <= k < q ==> (#[trigger] frame_at(c, k)).1 != x,
        decreases fr@.len() - q,
    {
        if lb[fr[q]].1 == x {
            assert(frame_at(c, q as int).1 == x);
            return true;
        }
        q += 1;
    }
    false
}

fn from_exit_diamond_exec(
    lb: &[(usize, usize, usize)],
    nodes: &[NodeOrderKey],
    fr: &Vec<usize>,
    e: EdgeOrderKey,
    Ghost(c): Ghost<RepeatCtx>,
) -> (r: bool)
    requires
        frames_ok(lb@, fr@),
        c.lb == lb@,
        c.fr == fr@,
        c.nodes == nodes@,
    ensures
        r == from_exit_diamond(c, e),
{
    let mut q: usize = 0;
    while q < fr.len()
        invariant
            frames_ok(lb@, fr@),
            c.lb == lb@,
            c.fr == fr@,
            c.nodes == nodes@,
            q <= fr@.len(),
            forall|k: int|
                0 <= k < q ==> !(e.from_index == (#[trigger] frame_at(c, k)).1 + 1 && next_is_diamond(c.nodes, frame_at(c, k).1)),
        decreases fr@.len() - q,
    {
        let hex = lb[fr[q]].1;
        if e.from_index == hex + 1 && hex + 1 < nodes.len() && nodes[hex + 1].shape == NodeShape::Diamond {
            assert(frame_at(c, q as int).1 == hex);
            return true;
        }
        q += 1;
    }
    false
}

fn owner_exec(lb: &[(usize, usize, usize)], fr: &Vec<usize>, e: EdgeOrderKey, Ghost(c): Ghost<RepeatCtx>) -> (r: Option<usize>)
    requires
        frames_ok(lb@, fr@),
        c.lb == lb@,
        c.fr == fr@,
    ensures
        r == owner_from(c, e, 0),
{
    let mut q: usize = 0;
    while q < fr.len()
        invariant
            frames_ok(lb@, fr@),
            c.lb == lb@,
            c.fr == fr@,
            q <= fr@.len(),
            owner_from(c, e, 0) == owner_from(c, e, q as int),
        decreases fr@.len() - q,
    {
        let (d1, hex, _) = lb[fr[q]];
        if e.from_index >= d1 && e.to_index <= hex && e.from_index != e.to_index {
            return Some(d1);
        }
        q += 1;
    }
    None
}

fn is_continuation_exec(
    edges: &[EdgeOrderKey],
    lb: &[(usize, usize, usize)],
    nodes: &[NodeOrderKey],
    fr: &Vec<usize>,
    ei: usize,
) -> (r: bool)
    requires
        frames_ok(lb@, fr@),
    ensures
        r == is_continuation(ctx(edges@, lb@, nodes@, fr@), ei),
{
    let ghost c = ctx(edges@, lb@, nodes@, fr@);
    let mut q: usize = 0;
    while q < fr.len()
        invariant
            frames_ok(lb@, fr@),
            c == ctx(edges@, lb@, nodes@, fr@),
            q <= fr@.len(),
            forall|k: int|
                0 <= k < q ==> last_with_role(c, (#[trigger] frame_at(c, k)).0, EdgeRole::Continuation, c.edges.len() as int)
                    != Some(ei),
        decreases fr@.len() - q,
    {
        let d1 = lb[fr[q]].0;
        if last_with_role_exec(edges, lb, nodes, fr, d1, EdgeRole::Continuation) == Some(ei) {
            assert(frame_at(c, q as int).0 == d1);
            return true;
        }
        q += 1;
    }
    false
}

fn consume_exec(consumed: &mut Vec<bool>, ps: &Vec<usize>)
    requires
        forall|k: int| 0 <= k < ps@.len() ==> ps@[k] < old(consumed)@.len(),
    ensures
        final(consumed)@ == consume(old(consumed)@, ps@),
{
    let ghost c0 = consumed@;
    let _ = consumed.len();
    let mut k: usize = 0;
    while k < ps.len()
        invariant
            k <= ps@.len(),
            c0.len() <= usize::MAX,
            consumed@.len() == c0.len(),
            forall|q: int| 0 <= q < ps@.len() ==> ps@[q] < c0.len(),
            consumed@ == consume(c0, ps@.take(k as int)),
        decreases ps@.len() - k,
    {
        let ghost before = consumed@;
        consumed.set(ps[k], true);
        proof {
            let t = ps@.take(k as int);
            let t1 = ps@.take(k + 1);
            assert(t1 =~= t.push(ps@[k as int]));
            assert forall|j: int| 0 <= j < c0.len() implies #[trigger] consumed@[j] == (c0[j] || t1.contains(j as usize)) by {
                if t1.contains(j as usize) {
                    let w = choose|w: int| 0 <= w < t1.len() && t1[w] == j as usize;
                    if w < t.len() {
                        assert(t[w] == j as usize);
                        assert(t.contains(j as usize));
                    }
                }
                if t.contains(j as usize) {
                    let w = choose|w: int| 0 <= w < t.len() && t[w] == j as usize;
                    assert(t1[w] == j as usize);
                }
                if j == ps@[k as int] {
                    assert(t1[k as int] == j as usize);
                }
            }
            assert(consumed@ =~= consume(c0, t1));
        }
        k += 1;
    }
    assert(ps@.take(ps@.len() as int) =~= ps@);
}

fn push_edges(out: &mut Vec<EdgeSlot>, ps: &Vec<usize>)
    ensures
        final(out)@ == old(out)@ + edge_slots(ps@),
{
    let ghost o0 = out@;
    let mut k: usize = 0;
    while k < ps.len()
        invariant
            k <= ps@.len(),
            out@ == o0 + edge_slots(ps@.take(k as int)),
        decreases ps@.len() - k,
    {
        out.push(EdgeSlot::Edge(ps[k]));
        proof {
            assert(edge_slots(ps@.take(k + 1)) =~= edge_slots(ps@.take(k as int)).push(EdgeSlot::Edge(ps@[k as int])));
        }
        k += 1;
    }
    assert(ps@.take(ps@.len() as int) =~= ps@);
}

fn opt_vec(o: Option<usize>) -> (r: Vec<usize>)
    ensures
        r@ == opt_seq(o),
{
    let mut v: Vec<usize> = Vec::new();
    if let Some(x) = o {
        v.push(x);
    }
    proof {
        assert(v@ =~= opt_seq(o));
    }
    v
}

/// Emit the edges of the frame with diamond `d1` (see `frame_block`).
fn emit_frame(
    edges: &[EdgeOrderKey],
    lb: &[(usize, usize, usize)],
    nodes: &[NodeOrderKey],
    fr: &Vec<usize>,
    d1: usize,
    consumed: &mut Vec<bool>,
    out: &mut Vec<EdgeSlot>,
)
    requires
        frames_ok(lb@, fr@),
        old(consumed)@.len() == edges@.len(),
    ensures
        final(out)@ == old(out)@ + frame_block(ctx(edges@, lb@, nodes@, fr@), d1, old(consumed)@).0,
        final(consumed)@ == frame_block(ctx(edges@, lb@, nodes@, fr@), d1, old(consumed)@).1,
        final(consumed)@.len() == edges@.len(),
{
    let ghost c = ctx(edges@, lb@, nodes@, fr@);
    let ghost o0 = out@;
    let inner = inner_list_exec(edges, lb, nodes, fr, d1);
    push_edges(out, &inner);
    consume_exec(consumed, &inner);
    let enter = opt_vec(last_with_role_exec(edges, lb, nodes, fr, d1, EdgeRole::Enter));
    push_edges(out, &enter);
    consume_exec(consumed, &enter);
    let ghost o1 = out@;
    let ghost loops = match first_frame_with(c, d1, 0) {
        Some(q) => Seq::new(frame_at(c, q).2 as nat, |k: int| EdgeSlot::LoopBack(c.fr[q], k as usize)),
        None => Seq::<EdgeSlot>::empty(),
    };
    let ff = first_frame_with_exec(lb, fr, d1, Ghost(c));
    match ff {
        Some(q) => {
            let f = fr[q];
            let count = lb[f].2;
            assert(first_frame_with(c, d1, 0) is Some);
            assert(first_frame_with(c, d1, 0) == Some(q as int));
            assert(frame_at(c, q as int) == lb@[f as int]);
            assert(loops == Seq::new(count as nat, |j: int| EdgeSlot::LoopBack(f, j as usize)));
            let mut k: usize = 0;
            while k < count
                invariant
                    k <= count,
                    loops == Seq::new(count as nat, |j: int| EdgeSlot::LoopBack(f, j as usize)),
                    out@ == o1 + Seq::new(k as nat, |j: int| EdgeSlot::LoopBack(f, j as usize)),
                decreases count - k,
            {
                out.push(EdgeSlot::LoopBack(f, k));
                proof {
                    assert(out@ =~= o1 + Seq::new((k + 1) as nat, |j: int| EdgeSlot::LoopBack(f, j as usize)));
                }
                k += 1;
            }
            assert(out@ =~= o1 + loops);
        },
        None => {
            assert(out@ =~= o1 + loops);
        },
    }
    let exit = opt_vec(last_with_role_exec(edges, lb, nodes, fr, d1, EdgeRole::Exit));
    push_edges(out, &exit);
    consume_exec(consumed, &exit);
    let cont = opt_vec(last_with_role_exec(edges, lb, nodes, fr, d1, EdgeRole::Continuation));
    push_edges(out, &cont);
    consume_exec(consumed, &cont);
    proof {
        let blk = frame_block(c, d1, old(consumed)@).0;
        assert(out@ =~= o0 + blk);
    }
}

/// The order in which to draw the edges so that each repeat frame's edges
/// come in PlantUML's order (see `repeat_edge_order`): each
/// `loopbacks` entry is a frame `(first diamond, hexagon, number of loop-back
/// edges)`, whose loop-back edges the result refers to by `LoopBack`.
///
/// The roles of the edges in each frame and the frames already drawn are
/// found by scanning the frame and edge lists in order, not kept in maps or
/// sets keyed by diamond: the order is stated over those lists (the last
/// edge with a role, the edges inside a frame in their own order), and a scan
/// states it as it is.
pub fn reorder_edges_for_repeat(
    edges: &[EdgeOrderKey],
    loopbacks: &[(usize, usize, usize)],
    nodes: &[NodeOrderKey],
) -> (r: Vec<EdgeSlot>)
    requires
        forall|f: int| 0 <= f < loopbacks@.len() ==> loopbacks@[f].1 < usize::MAX,
    ensures
        r@ == repeat_edge_order(edges@, loopbacks@, nodes@),
{
    let fr = frame_order(loopbacks);
    let ghost c = ctx(edges@, loopbacks@, nodes@, fr@);
    let n = edges.len();
    let mut consumed: Vec<bool> = Vec::new();
    while consumed.len() < n
        invariant
            consumed@.len() <= n,
            forall|k: int| 0 <= k < consumed@.len() ==> !consumed@[k],
        decreases n - consumed@.len(),
    {
        consumed.push(false);
    }
    proof {
        assert(consumed@ =~= Seq::new(edges@.len(), |k: int| false));
    }
    let mut result: Vec<EdgeSlot> = Vec::new();
    let mut emitted: Vec<usize> = Vec::new();
    let mut deferred: Vec<usize> = Vec::new();
    let mut ei: usize = 0;
    while ei < n
        invariant
            n == edges@.len(),
            frames_ok(loopbacks@, fr@),
            c == ctx(edges@, loopbacks@, nodes@, fr@),
            fr@ == frame_order_upto(loopbacks@, loopbacks@.len() as int),
            ei <= n,
            consumed@.len() == n,
            forall|k: int| 0 <= k < deferred@.len() ==> deferred@[k] < n,
            result@ + repeat_edges_from(c, ei as int, consumed@, emitted@, deferred@) == repeat_edge_order(
                edges@,
                loopbacks@,
                nodes@,
            ),
        decreases n - ei,
    {
        let ghost c0 = consumed@;
        let ghost r0 = result@;
        let ghost em0 = emitted@;
        let ghost d0 = deferred@;
        if consumed[ei] {
            ei += 1;
            continue;
        }
        let e = edges[ei];
        let defer_in = is_d1_exec(loopbacks, &fr, e.to_index, Ghost(c)) && !is_d1_exec(
            loopbacks,
            &fr,
            e.from_index,
            Ghost(c),
        ) && e.from_index < e.to_index;
        let defer_out = !defer_in && is_hex_exec(loopbacks, &fr, e.from_index, Ghost(c)) && !is_hex_exec(
            loopbacks,
            &fr,
            e.to_index,
            Ghost(c),
        ) && e.to_index > e.from_index && !is_continuation_exec(edges, loopbacks, nodes, &fr, ei);
        let defer_exit = !defer_in && !defer_out && from_exit_diamond_exec(loopbacks, nodes, &fr, e, Ghost(c))
            && e.to_index > e.from_index;
        if defer_in || defer_out || defer_exit {
            deferred.push(ei);
            consumed.set(ei, true);
            proof {
                assert(repeat_edges_from(c, ei as int, c0, em0, d0) == repeat_edges_from(
                    c,
                    ei + 1,
                    consumed@,
                    emitted@,
                    deferred@,
                ));
            }
            ei += 1;
            continue;
        }
        match owner_exec(loopbacks, &fr, e, Ghost(c)) {
            Some(d1) => {
                let mut seen = false;
                let mut k: usize = 0;
                while k < emitted.len()
                    invariant
                        k <= emitted@.len(),
                        seen == emitted@.take(k as int).contains(d1),
                    decreases emitted@.len() - k,
                {
                    proof {
                        assert(emitted@.take(k + 1) =~= emitted@.take(k as int).push(emitted@[k as int]));
                    }
                    if emitted[k] == d1 {
                        seen = true;
                    }
                    k += 1;
                }
                proof {
                    assert(emitted@.take(emitted@.len() as int) =~= emitted@);
                }
                if !seen {
                    emitted.push(d1);
                    emit_frame(edges, loopbacks, nodes, &fr, d1, &mut consumed, &mut result);
                }
                consumed.set(ei, true);
                proof {
                    assert(result@ + repeat_edges_from(c, ei + 1, consumed@, emitted@, deferred@) =~= r0
                        + repeat_edges_from(c, ei as int, c0, em0, d0));
                }
            },
            None => {
                result.push(EdgeSlot::Edge(ei));
                consumed.set(ei, true);
                proof {
                    assert(result@ + repeat_edges_from(c, ei + 1, consumed@, emitted@, deferred@) =~= r0
                        + repeat_edges_from(c, ei as int, c0, emitted@, deferred@));
                }
            },
        }
        ei += 1;
    }
    let ghost r0 = result@;
    push_edges(&mut result, &deferred);
    proof {
        assert(result@ =~= r0 + repeat_edges_from(c, ei as int, consumed@, emitted@, deferred@));
    }
    result
}

proof fn lemma_repeat_edges_plain_from(c: RepeatCtx, ei: int, consumed: Seq<bool>)
    requires
        c.fr.len() == 0,
        0 <= ei <= c.edges.len(),
        c.edges.len() <= usize::MAX,
        consumed.len() == c.edges.len(),
        forall|k: int| ei <= k < consumed.len() ==> !consumed[k],
    ensures
        repeat_edges_from(c, ei, consumed, Seq::empty(), Seq::empty()) == Seq::new(
            (c.edges.len() - ei) as nat,
            |k: int| EdgeSlot::Edge((ei + k) as usize),
        ),
    decreases c.edges.len() - ei,
{
    if ei < c.edges.len() {
        let e = c.edges[ei];
        lemma_repeat_edges_plain_from(c, ei + 1, consumed.update(ei, true));
        assert(!is_d1(c, e.to_index));
        assert(!is_hex(c, e.from_index));
        assert(!from_exit_diamond(c, e));
        assert(owner_from(c, e, 0) is None);
        assert(seq![EdgeSlot::Edge(ei as usize)] + Seq::new(
            (c.edges.len() - ei - 1) as nat,
            |k: int| EdgeSlot::Edge((ei + 1 + k) as usize),
        ) =~= Seq::new((c.edges.len() - ei) as nat, |k: int| EdgeSlot::Edge((ei + k) as usize)));
    } else {
        assert(edge_slots(Seq::<usize>::empty()) =~= Seq::new(
            (c.edges.len() - ei) as nat,
            |k: int| EdgeSlot::Edge((ei + k) as usize),
        ));
    }
}

/// Without repeat frames every edge keeps its place.
pub proof fn lemma_repeat_edge_order_without_frames(edges: Seq<EdgeOrderKey>, nodes: Seq<NodeOrderKey>)
    requires
        edges.len() <= usize::MAX,
    ensures
        repeat_edge_order(edges, Seq::empty(), nodes) == Seq::new(edges.len(), |k: int| EdgeSlot::Edge(k as usize)),
{
    let c = RepeatCtx { edges, lb: Seq::empty(), nodes, fr: frame_order_upto(Seq::empty(), 0) };
    lemma_repeat_edges_plain_from(c, 0, Seq::new(edges.len(), |k: int| false));
    assert(Seq::new((edges.len() - 0) as nat, |k: int| EdgeSlot::Edge((0 + k) as usize)) =~= Seq::new(
        edges.len(),
        |k: int| EdgeSlot::Edge(k as usize),
    ));
}

} // verus!
