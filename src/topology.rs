//! Layering of a canvas by dependency depth (Kahn's algorithm).
use vstd::prelude::*;
use crate::graph::{Canvas, ids_of, count_true, lemma_count_true_bound, lemma_count_true_set, lemma_reaches_self, lemma_reaches_step, lemma_reaches_trans, has_id, ids_unique, edge, reaches, is_walk, acyclic};
use crate::node::Node;
use crate::yarn::Yarn;

verus! {

/// Errors of the layering.
#[derive(Debug, Clone, Copy, PartialEq, Eq, Structural)]
pub enum TopologyError {
    /// Only `processed` of the `total` nodes could be placed.
    CycleDetected { processed: usize, total: usize },
    /// The canvas has no node.
    EmptyCanvas,
}

/// Every yarn into `v` starts at a node that is already placed.
pub open spec fn ready(nodes: Seq<Node>, yarns: Seq<Yarn>, placed: Seq<bool>, v: u128) -> bool {
    forall|e: int|
        0 <= e < yarns.len() && #[trigger] yarns[e].to_node == v ==> exists|j: int|
            0 <= j < nodes.len() && placed[j] && nodes[j].id == yarns[e].from_node
}

/// Sum of the lengths of the layers.
pub open spec fn total_len(ls: Seq<Vec<u128>>) -> int
    decreases ls.len(),
{
    if ls.len() == 0 {
        0
    } else {
        total_len(ls.drop_last()) + ls.last()@.len()
    }
}

/// `ls` places each node exactly once, in non-empty layers, with every yarn
/// running from an earlier layer to a strictly later one.
pub open spec fn is_layering(nodes: Seq<Node>, yarns: Seq<Yarn>, ls: Seq<Vec<u128>>) -> bool {
    &&& forall|k: int| 0 <= k < ls.len() ==> ls[k]@.len() > 0
    &&& total_len(ls) == nodes.len()
    &&& forall|k: int, j: int| 0 <= k < ls.len() && 0 <= j < ls[k]@.len() ==> has_id(nodes, #[trigger] ls[k]@[j])
    &&& forall|i: int| #![trigger nodes[i]] 0 <= i < nodes.len() ==> exists|k: int, j: int|
        0 <= k < ls.len() && 0 <= j < ls[k]@.len() && #[trigger] ls[k]@[j] == nodes[i].id
    &&& forall|k1: int, j1: int, k2: int, j2: int|
        0 <= k1 < ls.len() && 0 <= j1 < ls[k1]@.len() && 0 <= k2 < ls.len() && 0 <= j2 < ls[k2]@.len()
            && (k1 != k2 || j1 != j2) ==> #[trigger] ls[k1]@[j1] != #[trigger] ls[k2]@[j2]
    &&& forall|e: int, k1: int, j1: int, k2: int, j2: int|
        #![trigger yarns[e], ls[k1]@[j1], ls[k2]@[j2]]
        0 <= e < yarns.len() && 0 <= k1 < ls.len() && 0 <= j1 < ls[k1]@.len() && 0 <= k2 < ls.len()
            && 0 <= j2 < ls[k2]@.len() && ls[k1]@[j1] == yarns[e].from_node
            && ls[k2]@[j2] == yarns[e].to_node ==> k1 < k2
}

proof fn lemma_count_true_none(s: Seq<bool>)
    requires
        forall|i: int| 0 <= i < s.len() ==> !s[i],
    ensures
        count_true(s) == 0,
    decreases s.len(),
{
    if s.len() > 0 {
        lemma_count_true_none(s.drop_last());
    }
}

/// `id` stands in one of the first `k` layers.
pub open spec fn placed_by(ls: Seq<Vec<u128>>, k: int, id: u128) -> bool {
    exists|k2: int, j: int| 0 <= k2 < k && 0 <= j < ls[k2]@.len() && ls[k2]@[j] == id
}

/// Every yarn into `v` starts at a node of the first `k` layers.
pub open spec fn ready_by(yarns: Seq<Yarn>, ls: Seq<Vec<u128>>, k: int, v: u128) -> bool {
    forall|e: int| 0 <= e < yarns.len() && #[trigger] yarns[e].to_node == v ==> placed_by(ls, k, yarns[e].from_node)
}

/// Each layer holds exactly the nodes not in an earlier layer all of whose
/// incoming yarns start in earlier layers: the frontier of Kahn's algorithm.
pub open spec fn kahn_layers(nodes: Seq<Node>, yarns: Seq<Yarn>, ls: Seq<Vec<u128>>) -> bool {
    forall|k: int, i: int|
        #![trigger ls[k], nodes[i]]
        0 <= k < ls.len() && 0 <= i < nodes.len() ==> (ls[k]@.contains(nodes[i].id) <==> (!placed_by(
            ls,
            k,
            nodes[i].id,
        ) && ready_by(yarns, ls, k, nodes[i].id)))
}

/// Placement by the first `d` layers does not look past them.
proof fn lemma_prefix_layers(ls: Seq<Vec<u128>>, ls2: Seq<Vec<u128>>, d: int, yarns: Seq<Yarn>)
    requires
        0 <= d <= ls.len(),
        d <= ls2.len(),
        forall|k: int| 0 <= k < d ==> ls2[k] == ls[k],
    ensures
        forall|k: int, x: u128| 0 <= k <= d ==> placed_by(ls2, k, x) == placed_by(ls, k, x),
        forall|k: int, x: u128| 0 <= k <= d ==> ready_by(yarns, ls2, k, x) == ready_by(yarns, ls, k, x),
{
    assert forall|k: int, x: u128| 0 <= k <= d implies placed_by(ls2, k, x) == placed_by(ls, k, x) by {
        if placed_by(ls2, k, x) {
            let (k2, j) = choose|k2: int, j: int| 0 <= k2 < k && 0 <= j < ls2[k2]@.len() && ls2[k2]@[j] == x;
            assert(ls2[k2] == ls[k2]);
        }
        if placed_by(ls, k, x) {
            let (k2, j) = choose|k2: int, j: int| 0 <= k2 < k && 0 <= j < ls[k2]@.len() && ls[k2]@[j] == x;
            assert(ls2[k2] == ls[k2]);
        }
    }
}

/// With the placed flags matching the first `d` layers, readiness agrees.
proof fn lemma_ready_by(nodes: Seq<Node>, yarns: Seq<Yarn>, placed: Seq<bool>, ls: Seq<Vec<u128>>, d: int, v: u128)
    requires
        placed.len() == nodes.len(),
        0 <= d <= ls.len(),
        forall|i: int| 0 <= i < nodes.len() ==> placed[i] == placed_by(ls, d, #[trigger] nodes[i].id),
        forall|k: int, j: int| 0 <= k < d && 0 <= j < ls[k]@.len() ==> has_id(nodes, #[trigger] ls[k]@[j]),
    ensures
        ready(nodes, yarns, placed, v) == ready_by(yarns, ls, d, v),
{
    if ready(nodes, yarns, placed, v) {
        assert forall|e: int| 0 <= e < yarns.len() && #[trigger] yarns[e].to_node == v implies placed_by(ls, d, yarns[e].from_node) by {
            let j = choose|j: int| 0 <= j < nodes.len() && placed[j] && nodes[j].id == yarns[e].from_node;
            assert(placed[j] == placed_by(ls, d, nodes[j].id));
        }
    }
    if ready_by(yarns, ls, d, v) {
        assert forall|e: int| 0 <= e < yarns.len() && #[trigger] yarns[e].to_node == v implies exists|j: int|
            0 <= j < nodes.len() && placed[j] && nodes[j].id == yarns[e].from_node by {
            assert(placed_by(ls, d, yarns[e].from_node));
            let (k2, q) = choose|k2: int, q: int| 0 <= k2 < d && 0 <= q < ls[k2]@.len() && ls[k2]@[q] == yarns[e].from_node;
            assert(has_id(nodes, ls[k2]@[q]));
            let j = choose|j: int| 0 <= j < nodes.len() && nodes[j].id == ls[k2]@[q];
            assert(placed[j] == placed_by(ls, d, nodes[j].id));
        }
    }
}

/// `ls` is the start of Kahn's layering: non-empty layers of distinct node
/// identities, each the frontier of the layers before it.
pub open spec fn kahn_prefix(nodes: Seq<Node>, yarns: Seq<Yarn>, ls: Seq<Vec<u128>>) -> bool {
    &&& forall|k: int| 0 <= k < ls.len() ==> ls[k]@.len() > 0
    &&& forall|k: int, j: int| 0 <= k < ls.len() && 0 <= j < ls[k]@.len() ==> has_id(nodes, #[trigger] ls[k]@[j])
    &&& forall|k1: int, j1: int, k2: int, j2: int|
        0 <= k1 < ls.len() && 0 <= j1 < ls[k1]@.len() && 0 <= k2 < ls.len() && 0 <= j2 < ls[k2]@.len()
            && (k1 != k2 || j1 != j2) ==> #[trigger] ls[k1]@[j1] != #[trigger] ls[k2]@[j2]
    &&& kahn_layers(nodes, yarns, ls)
}

/// No node outside `ls` has all its incoming yarns starting inside `ls`.
pub open spec fn frontier_empty(nodes: Seq<Node>, yarns: Seq<Yarn>, ls: Seq<Vec<u128>>) -> bool {
    forall|i: int|
        0 <= i < nodes.len() && !placed_by(ls, ls.len() as int, #[trigger] nodes[i].id) ==> !ready_by(
            yarns,
            ls,
            ls.len() as int,
            nodes[i].id,
        )
}

/// The cycle error of the layering: `processed` counts the nodes of Kahn's
/// layers up to the point where the frontier ran empty, short of `total`,
/// the node count; what is left is a stuck set.
pub open spec fn cycle_report(nodes: Seq<Node>, yarns: Seq<Yarn>, processed: int, total: int) -> bool {
    &&& total == nodes.len()
    &&& processed < total
    &&& exists|ls: Seq<Vec<u128>>|
        kahn_prefix(nodes, yarns, ls) && frontier_empty(nodes, yarns, ls) && total_len(ls) == processed
    &&& exists|s: Set<u128>| stuck(nodes, yarns, s)
}

/// Whether some placed node has identity `id`.
fn placed_id(c: &Canvas, placed: &Vec<bool>, id: u128) -> (r: bool)
    requires
        placed@.len() == c.nodes@.len(),
    ensures
        r == exists|j: int| 0 <= j < c.nodes@.len() && placed@[j] && c.nodes@[j].id == id,
{
    let mut j: usize = 0;
    while j < c.nodes.len()
        invariant
            j <= c.nodes@.len(),
            placed@.len() == c.nodes@.len(),
            forall|q: int| 0 <= q < j ==> !(placed@[q] && c.nodes@[q].id == id),
        decreases c.nodes@.len() - j,
    {
        if placed[j] && c.nodes[j].id == id {
            return true;
        }
        j = j + 1;
    }
    false
}

/// Whether every yarn into `v` starts at a placed node.
fn is_ready(c: &Canvas, placed: &Vec<bool>, v: u128) -> (r: bool)
    requires
        placed@.len() == c.nodes@.len(),
    ensures
        r == ready(c.nodes@, c.yarns@, placed@, v),
{
    let mut e: usize = 0;
    while e < c.yarns.len()
        invariant
            e <= c.yarns@.len(),
            placed@.len() == c.nodes@.len(),
            forall|f: int|
                0 <= f < e && #[trigger] c.yarns@[f].to_node == v ==> exists|j: int|
                    0 <= j < c.nodes@.len() && placed@[j] && c.nodes@[j].id == c.yarns@[f].from_node,
        decreases c.yarns@.len() - e,
    {
        if c.yarns[e].to_node == v && !placed_id(c, placed, c.yarns[e].from_node) {
            return false;
        }
        e = e + 1;
    }
    true
}

/// The frontier: the unplaced nodes whose incoming yarns all start at placed
/// nodes, as identities and as indices, in node order.
fn frontier(c: &Canvas, placed: &Vec<bool>) -> (r: (Vec<u128>, Vec<usize>))
    requires
        placed@.len() == c.nodes@.len(),
    ensures
        r.0@.len() == r.1@.len(),
        forall|q: int| 0 <= q < r.1@.len() ==> (#[trigger] r.1@[q] as int) < c.nodes@.len() && !placed@[r.1@[q] as int]
            && ready(c.nodes@, c.yarns@, placed@, c.nodes@[r.1@[q] as int].id)
            && r.0@[q] == c.nodes@[r.1@[q] as int].id,
        forall|q1: int, q2: int| 0 <= q1 < q2 < r.1@.len() ==> r.1@[q1] < r.1@[q2],
        forall|i: int| 0 <= i < c.nodes@.len() && !placed@[i] && ready(c.nodes@, c.yarns@, placed@, c.nodes@[i].id)
            ==> exists|q: int| 0 <= q < r.1@.len() && r.1@[q] == i,
{
    let n = c.nodes.len();
    let mut layer: Vec<u128> = Vec::new();
    let mut picked: Vec<usize> = Vec::new();
    let mut i: usize = 0;
    while i < n
        invariant
            n == c.nodes@.len(),
            placed@.len() == n,
            i <= n,
            layer@.len() == picked@.len(),
            forall|q: int| 0 <= q < picked@.len() ==> (#[trigger] picked@[q] as int) < i && !placed@[picked@[q] as int]
                && ready(c.nodes@, c.yarns@, placed@, c.nodes@[picked@[q] as int].id)
                && layer@[q] == c.nodes@[picked@[q] as int].id,
            forall|q1: int, q2: int| 0 <= q1 < q2 < picked@.len() ==> picked@[q1] < picked@[q2],
            forall|j: int| 0 <= j < i && !placed@[j] && ready(c.nodes@, c.yarns@, placed@, c.nodes@[j].id)
                ==> exists|q: int| 0 <= q < picked@.len() && picked@[q] == j,
        decreases n - i,
    {
        if !placed[i] && is_ready(c, placed, c.nodes[i].id) {
            let ghost picked0 = picked@;
            let ghost layer0 = layer@;
            layer.push(c.nodes[i].id);
            picked.push(i);
            proof {
                assert forall|q: int| 0 <= q < picked@.len() implies (#[trigger] picked@[q] as int) < i + 1
                    && !placed@[picked@[q] as int] && ready(c.nodes@, c.yarns@, placed@, c.nodes@[picked@[q] as int].id)
                    && layer@[q] == c.nodes@[picked@[q] as int].id by {
                    if q < picked0.len() {
                        assert(picked@[q] == picked0[q] && layer@[q] == layer0[q]);
                    }
                }
                assert forall|q1: int, q2: int| 0 <= q1 < q2 < picked@.len() implies picked@[q1] < picked@[q2] by {
                    assert(picked@[q1] == picked0[q1]);
                    if q2 < picked0.len() {
                        assert(picked@[q2] == picked0[q2]);
                    } else {
                        assert((picked0[q1] as int) < i);
                    }
                }
                assert forall|j: int| 0 <= j < i + 1 && !placed@[j] && ready(c.nodes@, c.yarns@, placed@, c.nodes@[j].id)
                    implies exists|q: int| 0 <= q < picked@.len() && picked@[q] == j by {
                    if j < i {
                        let q = choose|q: int| 0 <= q < picked0.len() && picked0[q] == j;
                        assert(picked@[q] == picked0[q]);
                    } else {
                        assert(picked@[picked0.len() as int] == j);
                    }
                }
            }
        }
        i = i + 1;
    }
    (layer, picked)
}

/// Marks each picked index as placed.
fn mark(placed: &mut Vec<bool>, picked: &Vec<usize>)
    requires
        forall|q: int| 0 <= q < picked@.len() ==> (#[trigger] picked@[q] as int) < old(placed)@.len()
            && !old(placed)@[picked@[q] as int],
        forall|q1: int, q2: int| 0 <= q1 < q2 < picked@.len() ==> picked@[q1] < picked@[q2],
    ensures
        final(placed)@.len() == old(placed)@.len(),
        forall|i: int| 0 <= i < old(placed)@.len() ==> #[trigger] final(placed)@[i] == (old(placed)@[i]
            || exists|q: int| 0 <= q < picked@.len() && picked@[q] == i),
        count_true(final(placed)@) == count_true(old(placed)@) + picked@.len(),
{
    let ghost before = placed@;
    let mut q: usize = 0;
    while q < picked.len()
        invariant
            q <= picked@.len(),
            placed@.len() == before.len(),
            forall|r: int| 0 <= r < picked@.len() ==> (#[trigger] picked@[r] as int) < before.len() && !before[picked@[r] as int],
            forall|q1: int, q2: int| 0 <= q1 < q2 < picked@.len() ==> picked@[q1] < picked@[q2],
            forall|i: int| 0 <= i < before.len() ==> #[trigger] placed@[i] == (before[i]
                || exists|r: int| 0 <= r < q && picked@[r] == i),
            count_true(placed@) == count_true(before) + q,
        decreases picked@.len() - q,
    {
        let p = picked[q];
        proof {
            assert(!placed@[p as int]) by {
                if placed@[p as int] && !before[p as int] {
                    let r = choose|r: int| 0 <= r < q && picked@[r] == p;
                    assert(picked@[r] < picked@[q as int]);
                }
            }
            lemma_count_true_set(placed@, p as int);
        }
        let ghost placed0 = placed@;
        placed.set(p, true);
        proof {
            assert forall|i: int| 0 <= i < before.len() implies #[trigger] placed@[i] == (before[i]
                || exists|r: int| 0 <= r < q + 1 && picked@[r] == i) by {
                if i != p {
                    assert(placed@[i] == placed0[i]);
                    if exists|r: int| 0 <= r < q + 1 && picked@[r] == i {
                        let r = choose|r: int| 0 <= r < q + 1 && picked@[r] == i;
                        assert(r != q);
                    }
                } else {
                    assert(picked@[q as int] == i);
                }
            }
        }
        q = q + 1;
    }
}

/// Groups the nodes into layers of equal dependency depth: each layer holds
/// the nodes not yet placed all of whose incoming yarns start at placed nodes.
#[verifier::rlimit(50)]
pub fn compute_layers(canvas: &Canvas) -> (r: Result<Vec<Vec<u128>>, TopologyError>)
    requires
        ids_unique(canvas.nodes@),
    ensures
        (canvas.nodes@.len() == 0) == (r == Err::<Vec<Vec<u128>>, TopologyError>(TopologyError::EmptyCanvas)),
        r matches Ok(ls) ==> is_layering(canvas.nodes@, canvas.yarns@, ls@) && kahn_layers(canvas.nodes@, canvas.yarns@, ls@),
        r matches Err(TopologyError::CycleDetected { processed, total }) ==> cycle_report(
            canvas.nodes@,
            canvas.yarns@,
            processed as int,
            total as int,
        ),
        canvas.nodes@.len() > 0 && acyclic(canvas.yarns@) && ends_known(canvas.nodes@, canvas.yarns@) ==> r.is_ok(),
{
    let n = canvas.nodes.len();
    if n == 0 {
        return Err(TopologyError::EmptyCanvas);
    }
    let ghost nodes = canvas.nodes@;
    let ghost yarns = canvas.yarns@;
    let mut placed: Vec<bool> = Vec::new();
    while placed.len() < n
        invariant
            placed@.len() <= n,
            forall|i: int| 0 <= i < placed@.len() ==> !placed@[i],
        decreases n - placed@.len(),
    {
        placed.push(false);
    }
    let ghost mut lv: Seq<int> = Seq::new(n as nat, |i: int| -1);
    let ghost mut pos: Seq<int> = Seq::new(n as nat, |i: int| -1);
    let ghost mut src: Seq<Seq<int>> = Seq::empty();
    let mut layers: Vec<Vec<u128>> = Vec::new();
    let mut processed: usize = 0;
    proof {
        lemma_count_true_bound(placed@);
        lemma_count_true_none(placed@);
    }
    let mut stop = false;
    while !stop
        invariant
            stop ==> forall|i: int| 0 <= i < n && !placed@[i] ==> !ready(nodes, yarns, placed@, #[trigger] nodes[i].id),
            n == nodes.len(),
            nodes == canvas.nodes@,
            yarns == canvas.yarns@,
            ids_unique(nodes),
            placed@.len() == n && lv.len() == n && pos.len() == n,
            src.len() == layers@.len(),
            forall|q: int| 0 <= q < src.len() ==> #[trigger] src[q].len() == layers@[q]@.len(),
            forall|q: int| 0 <= q < layers@.len() ==> #[trigger] layers@[q]@.len() > 0,
            forall|k: int, j: int|
                0 <= k < src.len() && 0 <= j < src[k].len() ==> 0 <= #[trigger] src[k][j] < n
                    && layers@[k]@[j] == nodes[src[k][j]].id && lv[src[k][j]] == k && pos[src[k][j]]
                    == j && placed@[src[k][j]],
            forall|i: int|
                0 <= i < n && #[trigger] placed@[i] ==> 0 <= lv[i] < src.len() && 0 <= pos[i] < src[lv[i]].len()
                    && src[lv[i]][pos[i]] == i,
            forall|i: int, e: int|
                0 <= i < n && placed@[i] && 0 <= e < yarns.len() && #[trigger] yarns[e].to_node == #[trigger] nodes[i].id
                    ==> exists|j: int| 0 <= j < n && placed@[j] && nodes[j].id == yarns[e].from_node && lv[j] < lv[i],
            processed == count_true(placed@),
            processed <= n,
            total_len(layers@) == processed,
            forall|i: int| 0 <= i < n ==> placed@[i] == placed_by(layers@, layers@.len() as int, #[trigger] nodes[i].id),
            kahn_layers(nodes, yarns, layers@),
        decreases n - processed + if stop { 0int } else { 1int },
    {
        let (layer, picked) = frontier(canvas, &placed);
        if layer.len() == 0 {
            stop = true;
        } else {
        let ghost before = placed@;
        let ghost lv0 = lv;
        let ghost pos0 = pos;
        let ghost prev_layers = layers@;
        let ghost depth = layers@.len() as int;
        let m = picked.len();
        mark(&mut placed, &picked);
        proof {
            lemma_count_true_bound(placed@);
            lv = Seq::new(n as nat, |i: int| if before[i] { lv0[i] } else if placed@[i] { depth } else { -1 });
            pos = Seq::new(n as nat, |i: int| if before[i] { pos0[i] } else if placed@[i] {
                choose|r: int| 0 <= r < m && picked@[r] == i } else { -1 });
            assert forall|r: int| 0 <= r < m implies #[trigger] placed@[picked@[r] as int] && lv[picked@[r] as int] == depth
                && pos[picked@[r] as int] == r by {
                let i = picked@[r] as int;
                assert(placed@[i]);
                let r2 = choose|r2: int| 0 <= r2 < m && picked@[r2] == i;
                if r2 < r {
                    assert(picked@[r2] < picked@[r]);
                } else if r < r2 {
                    assert(picked@[r] < picked@[r2]);
                }
            }
        }
        processed = processed + m;
        layers.push(layer);
        proof {
            let pk = picked@.map_values(|x: usize| x as int);
            let src0 = src;
            src = src.push(pk);
            assert(layers@.drop_last() =~= prev_layers);
            assert forall|q: int| 0 <= q < src.len() implies #[trigger] src[q].len() == layers@[q]@.len() by {
                if q < depth {
                    assert(src[q] == src0[q]);
                    assert(layers@[q] == prev_layers[q]);
                }
            }
            assert forall|q: int| 0 <= q < layers@.len() implies #[trigger] layers@[q]@.len() > 0 by {
                if q < depth {
                    assert(layers@[q] == prev_layers[q]);
                }
            }
            assert forall|kk: int, j: int|
                0 <= kk < src.len() && 0 <= j < src[kk].len() implies 0 <= #[trigger] src[kk][j] < n
                    && layers@[kk]@[j] == nodes[src[kk][j]].id && lv[src[kk][j]] == kk && pos[src[kk][j]]
                    == j && placed@[src[kk][j]] by {
                if kk < depth {
                    assert(src[kk] == src0[kk]);
                    assert(layers@[kk] == prev_layers[kk]);
                    assert(before[src0[kk][j]]);
                } else {
                    assert(src[kk][j] == picked@[j] as int);
                    assert(placed@[picked@[j] as int]);
                }
            }
            assert forall|i: int| 0 <= i < n && #[trigger] placed@[i] implies 0 <= lv[i] < src.len() && 0 <= pos[i]
                < src[lv[i]].len() && src[lv[i]][pos[i]] == i by {
                if before[i] {
                    assert(src[lv[i]] == src0[lv0[i]]);
                } else {
                    let r = choose|r: int| 0 <= r < m && picked@[r] == i;
                    assert(placed@[picked@[r] as int]);
                }
            }
            assert forall|i: int, e: int|
                0 <= i < n && placed@[i] && 0 <= e < yarns.len() && #[trigger] yarns[e].to_node == #[trigger] nodes[i].id
                implies exists|j: int| 0 <= j < n && placed@[j] && nodes[j].id == yarns[e].from_node && lv[j] < lv[i] by {
                if before[i] {
                    let j = choose|j: int| 0 <= j < n && before[j] && nodes[j].id == yarns[e].from_node && lv0[j] < lv0[i];
                    assert(placed@[j] && lv[j] == lv0[j]);
                } else {
                    let r = choose|r: int| 0 <= r < m && picked@[r] == i;
                    assert(placed@[picked@[r] as int]);
                    assert(ready(nodes, yarns, before, nodes[i].id));
                    assert(yarns[e].to_node == nodes[i].id);
                    assert(exists|j: int| 0 <= j < nodes.len() && before[j] && nodes[j].id == yarns[e].from_node);
                    let j = choose|j: int| 0 <= j < nodes.len() && before[j] && nodes[j].id == yarns[e].from_node;
                    assert(placed@[j] && lv[j] == lv0[j]);
                    assert(lv0[j] < depth);
                }
            }
            let ls0 = prev_layers;
            let ls1 = layers@;
            lemma_prefix_layers(ls0, ls1, depth, yarns);
            assert forall|k2: int, j: int| 0 <= k2 < depth && 0 <= j < ls0[k2]@.len() implies has_id(nodes, #[trigger] ls0[k2]@[j]) by {
                assert(src0[k2].len() == ls0[k2]@.len());
                assert(0 <= src0[k2][j] < n);
            }
            assert forall|i: int| 0 <= i < n implies ls1[depth]@.contains(#[trigger] nodes[i].id) == exists|r: int| 0 <= r < m && picked@[r] == i by {
                assert(ls1[depth] == layer);
                if ls1[depth]@.contains(nodes[i].id) {
                    let q = choose|q: int| 0 <= q < ls1[depth]@.len() && ls1[depth]@[q] == nodes[i].id;
                    assert(layer@[q] == nodes[picked@[q] as int].id);
                    assert(picked@[q] as int == i);
                }
                if exists|r: int| 0 <= r < m && picked@[r] == i {
                    let r = choose|r: int| 0 <= r < m && picked@[r] == i;
                    assert(layer@[r] == nodes[i].id);
                }
            }
            assert forall|i: int| 0 <= i < n implies placed@[i] == placed_by(ls1, ls1.len() as int, #[trigger] nodes[i].id) by {
                if placed_by(ls1, depth + 1, nodes[i].id) {
                    let (k2, j) = choose|k2: int, j: int| 0 <= k2 < depth + 1 && 0 <= j < ls1[k2]@.len() && ls1[k2]@[j] == nodes[i].id;
                    if k2 == depth {
                        assert(ls1[depth]@.contains(nodes[i].id));
                    } else {
                        assert(placed_by(ls1, depth, nodes[i].id));
                    }
                }
                if placed@[i] && !before[i] {
                    assert(ls1[depth]@.contains(nodes[i].id));
                    let q = choose|q: int| 0 <= q < ls1[depth]@.len() && ls1[depth]@[q] == nodes[i].id;
                    assert(placed_by(ls1, depth + 1, nodes[i].id));
                }
                if before[i] {
                    assert(placed_by(ls0, depth, nodes[i].id));
                    assert(placed_by(ls1, depth, nodes[i].id));
                    let (k2, j) = choose|k2: int, j: int| 0 <= k2 < depth && 0 <= j < ls1[k2]@.len() && ls1[k2]@[j] == nodes[i].id;
                    assert(placed_by(ls1, depth + 1, nodes[i].id));
                }
            }
            assert forall|kk: int, i: int|
                #![trigger ls1[kk], nodes[i]]
                0 <= kk < ls1.len() && 0 <= i < nodes.len() implies (ls1[kk]@.contains(nodes[i].id) <==> (!placed_by(
                    ls1,
                    kk,
                    nodes[i].id,
                ) && ready_by(yarns, ls1, kk, nodes[i].id))) by {
                if kk < depth {
                    assert(ls1[kk] == ls0[kk]);
                    assert(ls0[kk]@.contains(nodes[i].id) <==> (!placed_by(ls0, kk, nodes[i].id) && ready_by(yarns, ls0, kk, nodes[i].id)));
                } else {
                    lemma_ready_by(nodes, yarns, before, ls0, depth, nodes[i].id);
                    assert(before[i] == placed_by(ls0, depth, nodes[i].id));
                    if !before[i] && ready(nodes, yarns, before, nodes[i].id) {
                        let r = choose|r: int| 0 <= r < m && picked@[r] == i;
                    }
                }
            }
        }
        }
    }
    proof {
        let ls = layers@;
        assert forall|k: int| 0 <= k < ls.len() implies ls[k]@.len() > 0 by {
            assert(layers@[k]@.len() > 0);
        }
        assert forall|k: int, j: int| 0 <= k < ls.len() && 0 <= j < ls[k]@.len() implies has_id(nodes, #[trigger] ls[k]@[j]) by {
            assert(src[k].len() == ls[k]@.len());
            assert(0 <= src[k][j] < n);
        }
        assert forall|k1: int, j1: int, k2: int, j2: int|
            0 <= k1 < ls.len() && 0 <= j1 < ls[k1]@.len() && 0 <= k2 < ls.len() && 0 <= j2 < ls[k2]@.len()
                && (k1 != k2 || j1 != j2) implies #[trigger] ls[k1]@[j1] != #[trigger] ls[k2]@[j2] by {
            assert(src[k1].len() == ls[k1]@.len());
            assert(src[k2].len() == ls[k2]@.len());
            assert(0 <= src[k1][j1] < n);
            assert(0 <= src[k2][j2] < n);
        }
        assert(kahn_prefix(nodes, yarns, ls));
    }
    if processed < n {
        proof {
            let ls = layers@;
            assert forall|i: int| 0 <= i < nodes.len() && !placed_by(ls, ls.len() as int, #[trigger] nodes[i].id)
                implies !ready_by(yarns, ls, ls.len() as int, nodes[i].id) by {
                lemma_ready_by(nodes, yarns, placed@, ls, ls.len() as int, nodes[i].id);
            }
            assert(frontier_empty(nodes, yarns, ls));
            lemma_count_true_bound(placed@);
            let st = Set::new(|v: u128| exists|i: int| 0 <= i < n && !placed@[i] && nodes[i].id == v);
            let all = ids_of(nodes).to_set();
            vstd::seq_lib::seq_to_set_is_finite(ids_of(nodes));
            assert forall|v: u128| st.contains(v) implies all.contains(v) by {
                let i = choose|i: int| 0 <= i < n && !placed@[i] && nodes[i].id == v;
                assert(ids_of(nodes)[i] == v);
            }
            vstd::set_lib::lemma_len_subset(st, all);
            let i0 = choose|i: int| 0 <= i < n && !placed@[i];
            assert(st.contains(nodes[i0].id));
            assert forall|v: u128| #[trigger] st.contains(v) implies has_id(nodes, v) && exists|e: int|
                0 <= e < yarns.len() && yarns[e].to_node == v && (st.contains(yarns[e].from_node) || !has_id(
                    nodes,
                    yarns[e].from_node,
                )) by {
                let i = choose|i: int| 0 <= i < n && !placed@[i] && nodes[i].id == v;
                assert(!ready(nodes, yarns, placed@, nodes[i].id));
                let e = choose|e: int|
                    0 <= e < yarns.len() && yarns[e].to_node == v && !(exists|j: int|
                        0 <= j < nodes.len() && placed@[j] && nodes[j].id == yarns[e].from_node);
                if has_id(nodes, yarns[e].from_node) {
                    let j = choose|j: int| 0 <= j < nodes.len() && nodes[j].id == yarns[e].from_node;
                    assert(!placed@[j]);
                    assert(st.contains(yarns[e].from_node));
                }
            }
            assert(stuck(nodes, yarns, st));
            if acyclic(yarns) && ends_known(nodes, yarns) {
                lemma_acyclic_not_stuck(nodes, yarns, st);
            }
        }
        return Err(TopologyError::CycleDetected { processed, total: n });
    }
    proof {
        lemma_count_true_bound(placed@);
        let ls = layers@;
        assert(total_len(ls) == nodes.len());
        assert forall|k: int| 0 <= k < ls.len() implies ls[k]@.len() > 0 by {
            assert(layers@[k]@.len() > 0);
        }
        assert forall|k: int, j: int| 0 <= k < ls.len() && 0 <= j < ls[k]@.len() implies has_id(nodes, #[trigger] ls[k]@[j]) by {
            assert(0 <= src[k][j] < n);
        }
        assert forall|i: int| #![trigger nodes[i]] 0 <= i < nodes.len() implies exists|k: int, j: int|
            0 <= k < ls.len() && 0 <= j < ls[k]@.len() && #[trigger] ls[k]@[j] == nodes[i].id by {
            assert(placed@[i]);
            assert(ls[lv[i]]@[pos[i]] == nodes[i].id);
        }
        assert forall|k1: int, j1: int, k2: int, j2: int|
            0 <= k1 < ls.len() && 0 <= j1 < ls[k1]@.len() && 0 <= k2 < ls.len() && 0 <= j2 < ls[k2]@.len()
                && (k1 != k2 || j1 != j2) implies #[trigger] ls[k1]@[j1] != #[trigger] ls[k2]@[j2] by {
            assert(0 <= src[k1][j1] < n);
            assert(0 <= src[k2][j2] < n);
        }
        assert forall|e: int, k1: int, j1: int, k2: int, j2: int|
            #![trigger yarns[e], ls[k1]@[j1], ls[k2]@[j2]]
            0 <= e < yarns.len() && 0 <= k1 < ls.len() && 0 <= j1 < ls[k1]@.len() && 0 <= k2 < ls.len()
                && 0 <= j2 < ls[k2]@.len() && ls[k1]@[j1] == yarns[e].from_node
                && ls[k2]@[j2] == yarns[e].to_node implies k1 < k2 by {
            let i1 = src[k1][j1];
            let i2 = src[k2][j2];
            assert(0 <= i1 < n && 0 <= i2 < n);
            assert(placed@[i2] && yarns[e].to_node == nodes[i2].id);
            let j = choose|j: int| 0 <= j < n && placed@[j] && nodes[j].id == yarns[e].from_node && lv[j] < lv[i2];
            assert(j == i1);
        }
        assert(is_layering(nodes, yarns, ls));
    }
    Ok(layers)
}

} // verus!

verus! {

/// Checks that the canvas can be layered, discarding the layers: the result
/// is that of `compute_layers`, with the same error.
pub fn validate(canvas: &Canvas) -> (r: Result<(), TopologyError>)
    requires
        ids_unique(canvas.nodes@),
    ensures
        (canvas.nodes@.len() == 0) == (r == Err::<(), TopologyError>(TopologyError::EmptyCanvas)),
        r.is_ok() ==> exists|ls: Seq<Vec<u128>>| is_layering(canvas.nodes@, canvas.yarns@, ls) && kahn_layers(canvas.nodes@, canvas.yarns@, ls),
        canvas.nodes@.len() > 0 && acyclic(canvas.yarns@) && ends_known(canvas.nodes@, canvas.yarns@) ==> r.is_ok(),
        r matches Err(TopologyError::CycleDetected { processed, total }) ==> cycle_report(
            canvas.nodes@,
            canvas.yarns@,
            processed as int,
            total as int,
        ),
{
    match compute_layers(canvas) {
        Ok(ls) => {
            assert(is_layering(canvas.nodes@, canvas.yarns@, ls@) && kahn_layers(canvas.nodes@, canvas.yarns@, ls@));
            Ok(())
        },
        Err(e) => Err(e),
    }
}

/// The layer and position at which `x` stands in `ls`.
pub open spec fn slot(ls: Seq<Vec<u128>>, x: u128) -> (int, int) {
    choose|k: int, j: int| 0 <= k < ls.len() && 0 <= j < ls[k]@.len() && ls[k]@[j] == x
}

/// Every yarn starts and ends at a node.
pub open spec fn ends_known(nodes: Seq<Node>, yarns: Seq<Yarn>) -> bool {
    forall|e: int| 0 <= e < yarns.len() ==> has_id(nodes, #[trigger] yarns[e].from_node) && has_id(nodes, yarns[e].to_node)
}

proof fn lemma_slot(nodes: Seq<Node>, yarns: Seq<Yarn>, ls: Seq<Vec<u128>>, x: u128)
    requires
        is_layering(nodes, yarns, ls),
        has_id(nodes, x),
    ensures
        0 <= slot(ls, x).0 < ls.len(),
        0 <= slot(ls, x).1 < ls[slot(ls, x).0]@.len(),
        ls[slot(ls, x).0]@[slot(ls, x).1] == x,
{
    let i = choose|i: int| 0 <= i < nodes.len() && nodes[i].id == x;
    assert(nodes[i].id == x);
}

proof fn lemma_edge_forward(nodes: Seq<Node>, yarns: Seq<Yarn>, ls: Seq<Vec<u128>>, a: u128, b: u128)
    requires
        is_layering(nodes, yarns, ls),
        ends_known(nodes, yarns),
        edge(yarns, a, b),
    ensures
        has_id(nodes, a) && has_id(nodes, b),
        slot(ls, a).0 < slot(ls, b).0,
{
    let e = choose|e: int| 0 <= e < yarns.len() && yarns[e].from_node == a && yarns[e].to_node == b;
    assert(has_id(nodes, yarns[e].from_node));
    lemma_slot(nodes, yarns, ls, a);
    lemma_slot(nodes, yarns, ls, b);
    let (k1, j1) = slot(ls, a);
    let (k2, j2) = slot(ls, b);
    assert(ls[k1]@[j1] == yarns[e].from_node && ls[k2]@[j2] == yarns[e].to_node);
}

proof fn lemma_walk_rises(nodes: Seq<Node>, yarns: Seq<Yarn>, ls: Seq<Vec<u128>>, p: Seq<u128>, k: int)
    requires
        is_layering(nodes, yarns, ls),
        ends_known(nodes, yarns),
        is_walk(yarns, p),
        1 <= k < p.len(),
    ensures
        slot(ls, p[0]).0 < slot(ls, p[k]).0,
    decreases k,
{
    let j = k - 1;
    assert(edge(yarns, p[j], p[j + 1]));
    lemma_edge_forward(nodes, yarns, ls, p[j], p[k]);
    if k > 1 {
        lemma_walk_rises(nodes, yarns, ls, p, j);
    }
}

/// A canvas whose yarns join known nodes and that admits a layering has no
/// cycle; so `compute_layers` fails on every canvas with a cycle.
pub proof fn lemma_layering_acyclic(nodes: Seq<Node>, yarns: Seq<Yarn>, ls: Seq<Vec<u128>>)
    requires
        is_layering(nodes, yarns, ls),
        ends_known(nodes, yarns),
    ensures
        acyclic(yarns),
{
    assert forall|a: u128, b: u128| #[trigger] edge(yarns, a, b) implies !reaches(yarns, b, a) by {
        lemma_edge_forward(nodes, yarns, ls, a, b);
        if reaches(yarns, b, a) {
            let p = choose|p: Seq<u128>| p.len() >= 1 && p[0] == b && p.last() == a && #[trigger] is_walk(yarns, p);
            if p.len() > 1 {
                lemma_walk_rises(nodes, yarns, ls, p, p.len() - 1);
            }
        }
    }
}

/// The layering partitions the node set: the layer sizes add up to the node
/// count, and each node stands in exactly one slot.
pub proof fn lemma_layering_partitions(nodes: Seq<Node>, yarns: Seq<Yarn>, ls: Seq<Vec<u128>>, i: int)
    requires
        is_layering(nodes, yarns, ls),
        0 <= i < nodes.len(),
    ensures
        total_len(ls) == nodes.len(),
        exists|k: int, j: int| 0 <= k < ls.len() && 0 <= j < ls[k]@.len() && ls[k]@[j] == nodes[i].id,
        forall|k: int, j: int| 0 <= k < ls.len() && 0 <= j < ls[k]@.len() && ls[k]@[j] == nodes[i].id
            ==> k == slot(ls, nodes[i].id).0 && j == slot(ls, nodes[i].id).1,
{
    assert(nodes[i].id == nodes[i].id);
    assert(has_id(nodes, nodes[i].id));
    lemma_slot(nodes, yarns, ls, nodes[i].id);
}

} // verus!

verus! {

/// A non-empty finite set of nodes, each entered by a yarn that starts in the
/// set or at an unknown node: what is left when the layering stops early.
pub open spec fn stuck(nodes: Seq<Node>, yarns: Seq<Yarn>, s: Set<u128>) -> bool {
    &&& s.finite()
    &&& exists|v: u128| s.contains(v)
    &&& forall|v: u128| #[trigger] s.contains(v) ==> has_id(nodes, v) && exists|e: int|
        0 <= e < yarns.len() && yarns[e].to_node == v && (s.contains(yarns[e].from_node) || !has_id(
            nodes,
            yarns[e].from_node,
        ))
}

/// An acyclic canvas whose yarns join known nodes has no stuck set, so its
/// layering places every node.
pub proof fn lemma_acyclic_not_stuck(nodes: Seq<Node>, yarns: Seq<Yarn>, s: Set<u128>)
    requires
        acyclic(yarns),
        ends_known(nodes, yarns),
    ensures
        !stuck(nodes, yarns, s),
    decreases s.len(),
{
    if stuck(nodes, yarns, s) {
        let v = choose|v: u128| s.contains(v);
        let e = choose|e: int|
            0 <= e < yarns.len() && yarns[e].to_node == v && (s.contains(yarns[e].from_node) || !has_id(
                nodes,
                yarns[e].from_node,
            ));
        let u = yarns[e].from_node;
        assert(has_id(nodes, yarns[e].from_node));
        assert(edge(yarns, u, v));
        let t = Set::new(|x: u128| s.contains(x) && reaches(yarns, x, u));
        assert(t.subset_of(s.remove(v))) by {
            assert forall|x: u128| t.contains(x) implies s.remove(v).contains(x) by {
                if x == v {
                    assert(!reaches(yarns, v, u));
                }
            }
        }
        vstd::set_lib::lemma_len_subset(t, s.remove(v));
        lemma_reaches_self(yarns, u);
        assert(t.contains(u));
        assert forall|x: u128| #[trigger] t.contains(x) implies has_id(nodes, x) && exists|f: int|
            0 <= f < yarns.len() && yarns[f].to_node == x && (t.contains(yarns[f].from_node) || !has_id(
                nodes,
                yarns[f].from_node,
            )) by {
            assert(s.contains(x));
            let f = choose|f: int|
                0 <= f < yarns.len() && yarns[f].to_node == x && (s.contains(yarns[f].from_node) || !has_id(
                    nodes,
                    yarns[f].from_node,
                ));
            let y = yarns[f].from_node;
            assert(has_id(nodes, yarns[f].from_node));
            assert(edge(yarns, y, x));
            lemma_reaches_self(yarns, y);
            lemma_reaches_step(yarns, y, y, x);
            lemma_reaches_trans(yarns, y, x, u);
            assert(t.contains(y));
        }
        lemma_acyclic_not_stuck(nodes, yarns, t);
    }
}

} // verus!
