//! The canvas: a directed acyclic graph of nodes joined by yarns.
use vstd::prelude::*;
use crate::node::Node;
use crate::yarn::Yarn;

verus! {

/// Errors of the structural operations on a canvas.
#[derive(Debug, Clone, Copy, PartialEq, Eq, Structural)]
pub enum CanvasError {
    NodeNotFound(u128),
    /// Reserved: port identities are not checked.
    PortNotFound(u128, u128),
    CycleDetected,
    DuplicateNode(u128),
}

/// A graph of nodes, keyed by identity, and the yarns between them.
#[derive(Debug)]
pub struct Canvas {
    pub nodes: Vec<Node>,
    pub yarns: Vec<Yarn>,
    pub name: String,
    pub description: Option<String>,
}

/// The identities of `nodes`, in order.
pub open spec fn ids_of(nodes: Seq<Node>) -> Seq<u128> {
    nodes.map_values(|n: Node| n.id)
}

/// Whether some node has identity `id`.
pub open spec fn has_id(nodes: Seq<Node>, id: u128) -> bool {
    exists|i: int| 0 <= i < nodes.len() && nodes[i].id == id
}

/// No two nodes share an identity.
pub open spec fn ids_unique(nodes: Seq<Node>) -> bool {
    forall|i: int, j: int|
        0 <= i < nodes.len() && 0 <= j < nodes.len() && i != j ==> nodes[i].id != nodes[j].id
}

/// Some yarn runs from node `a` to node `b`.
pub open spec fn edge(yarns: Seq<Yarn>, a: u128, b: u128) -> bool {
    exists|e: int| 0 <= e < yarns.len() && yarns[e].from_node == a && yarns[e].to_node == b
}

/// `p` is a walk along yarns.
pub open spec fn is_walk(yarns: Seq<Yarn>, p: Seq<u128>) -> bool {
    forall|k: int| 0 <= k < p.len() - 1 ==> #[trigger] edge(yarns, p[k], p[k + 1])
}

/// Node `b` can be reached from node `a` by following yarns (every node reaches itself).
pub open spec fn reaches(yarns: Seq<Yarn>, a: u128, b: u128) -> bool {
    exists|p: Seq<u128>| p.len() >= 1 && p[0] == a && p.last() == b && #[trigger] is_walk(yarns, p)
}

/// No node reaches itself through one or more yarns.
pub open spec fn acyclic(yarns: Seq<Yarn>) -> bool {
    forall|a: u128, b: u128| #[trigger] edge(yarns, a, b) ==> !reaches(yarns, b, a)
}

/// Some yarn ends at `v`.
pub open spec fn has_incoming(yarns: Seq<Yarn>, v: u128) -> bool {
    exists|e: int| 0 <= e < yarns.len() && yarns[e].to_node == v
}

/// Some yarn starts at `v`.
pub open spec fn has_outgoing(yarns: Seq<Yarn>, v: u128) -> bool {
    exists|e: int| 0 <= e < yarns.len() && yarns[e].from_node == v
}

/// Identities of the nodes that no yarn enters (`incoming`) or leaves, in node order.
pub open spec fn free_ends(nodes: Seq<Node>, yarns: Seq<Yarn>, incoming: bool) -> Seq<u128>
    decreases nodes.len(),
{
    if nodes.len() == 0 {
        Seq::empty()
    } else {
        let rest = free_ends(nodes.drop_last(), yarns, incoming);
        let v = nodes.last().id;
        let touched = if incoming {
            has_incoming(yarns, v)
        } else {
            has_outgoing(yarns, v)
        };
        if touched {
            rest
        } else {
            rest.push(v)
        }
    }
}

/// The sources of the yarns that end at `v`, in yarn order.
pub open spec fn preds_of(yarns: Seq<Yarn>, v: u128) -> Seq<u128>
    decreases yarns.len(),
{
    if yarns.len() == 0 {
        Seq::empty()
    } else {
        let rest = preds_of(yarns.drop_last(), v);
        if yarns.last().to_node == v {
            rest.push(yarns.last().from_node)
        } else {
            rest
        }
    }
}

/// The targets of the yarns that start at `v`, in yarn order.
pub open spec fn succs_of(yarns: Seq<Yarn>, v: u128) -> Seq<u128>
    decreases yarns.len(),
{
    if yarns.len() == 0 {
        Seq::empty()
    } else {
        let rest = succs_of(yarns.drop_last(), v);
        if yarns.last().from_node == v {
            rest.push(yarns.last().to_node)
        } else {
            rest
        }
    }
}

/// How many entries of `s` are true.
pub open spec fn count_true(s: Seq<bool>) -> nat
    decreases s.len(),
{
    if s.len() == 0 {
        0
    } else {
        count_true(s.drop_last()) + if s.last() {
            1nat
        } else {
            0nat
        }
    }
}

pub proof fn lemma_count_true_bound(s: Seq<bool>)
    ensures
        count_true(s) <= s.len(),
        (exists|i: int| 0 <= i < s.len() && !s[i]) ==> count_true(s) < s.len(),
        (forall|i: int| 0 <= i < s.len() ==> s[i]) ==> count_true(s) == s.len(),
    decreases s.len(),
{
    if s.len() > 0 {
        lemma_count_true_bound(s.drop_last());
        if exists|i: int| 0 <= i < s.len() && !s[i] {
            let i = choose|i: int| 0 <= i < s.len() && !s[i];
            if i < s.len() - 1 {
                assert(!s.drop_last()[i]);
            }
        }
        if forall|i: int| 0 <= i < s.len() ==> s[i] {
            assert forall|i: int| 0 <= i < s.drop_last().len() implies s.drop_last()[i] by {
                assert(s[i]);
            }
        }
    }
}

pub proof fn lemma_count_true_set(s: Seq<bool>, i: int)
    requires
        0 <= i < s.len(),
        !s[i],
    ensures
        count_true(s.update(i, true)) == count_true(s) + 1,
    decreases s.len(),
{
    let t = s.update(i, true);
    if i == s.len() - 1 {
        assert(t.drop_last() =~= s.drop_last());
    } else {
        assert(t.drop_last() =~= s.drop_last().update(i, true));
        lemma_count_true_set(s.drop_last(), i);
    }
}

/// Extending a walk by one yarn.
pub proof fn lemma_reaches_step(yarns: Seq<Yarn>, a: u128, b: u128, c: u128)
    requires
        reaches(yarns, a, b),
        edge(yarns, b, c),
    ensures
        reaches(yarns, a, c),
{
    let p = choose|p: Seq<u128>| p.len() >= 1 && p[0] == a && p.last() == b && #[trigger] is_walk(yarns, p);
    let q = p.push(c);
    assert forall|k: int| 0 <= k < q.len() - 1 implies #[trigger] edge(yarns, q[k], q[k + 1]) by {
        if k < p.len() - 1 {
            assert(q[k] == p[k] && q[k + 1] == p[k + 1]);
        }
    }
    assert(is_walk(yarns, q));
}

pub proof fn lemma_reaches_self(yarns: Seq<Yarn>, a: u128)
    ensures
        reaches(yarns, a, a),
{
    let p = seq![a];
    assert(is_walk(yarns, p));
}

/// Reached from `to`: `to` itself, or the end of a marked yarn.
pub open spec fn marked_reach(yarns: Seq<Yarn>, used: Seq<bool>, to: u128, x: u128) -> bool {
    x == to || exists|e: int| 0 <= e < yarns.len() && used[e] && yarns[e].to_node == x
}

/// Along a walk from `to`, a closed marking holds every node up to index `k`.
proof fn lemma_closed_walk(yarns: Seq<Yarn>, used: Seq<bool>, to: u128, p: Seq<u128>, k: int)
    requires
        used.len() == yarns.len(),
        forall|e: int|
            0 <= e < yarns.len() && !used[e] ==> !marked_reach(yarns, used, to, yarns[e].from_node),
        p.len() >= 1,
        p[0] == to,
        is_walk(yarns, p),
        0 <= k < p.len(),
    ensures
        marked_reach(yarns, used, to, p[k]),
    decreases k,
{
    if k > 0 {
        lemma_closed_walk(yarns, used, to, p, k - 1);
        let j = k - 1;
        assert(edge(yarns, p[j], p[j + 1]));
        let e = choose|e: int| 0 <= e < yarns.len() && yarns[e].from_node == p[k - 1] && yarns[e].to_node == p[k];
        if !used[e] {
            assert(!marked_reach(yarns, used, to, yarns[e].from_node));
        }
    }
}

/// Once the marking is closed, every node that `to` reaches is marked.
proof fn lemma_closed_marking(yarns: Seq<Yarn>, used: Seq<bool>, to: u128, x: u128)
    requires
        used.len() == yarns.len(),
        forall|e: int|
            0 <= e < yarns.len() && !used[e] ==> !marked_reach(yarns, used, to, yarns[e].from_node),
        reaches(yarns, to, x),
    ensures
        marked_reach(yarns, used, to, x),
{
    let p = choose|p: Seq<u128>| p.len() >= 1 && p[0] == to && p.last() == x && #[trigger] is_walk(yarns, p);
    lemma_closed_walk(yarns, used, to, p, p.len() - 1);
}

/// Joining two walks.
pub proof fn lemma_reaches_trans(yarns: Seq<Yarn>, a: u128, b: u128, c: u128)
    requires
        reaches(yarns, a, b),
        reaches(yarns, b, c),
    ensures
        reaches(yarns, a, c),
{
    let q = choose|q: Seq<u128>| q.len() >= 1 && q[0] == b && q.last() == c && #[trigger] is_walk(yarns, q);
    lemma_reaches_prefix(yarns, a, q, q.len() - 1);
}

proof fn lemma_reaches_prefix(yarns: Seq<Yarn>, a: u128, q: Seq<u128>, k: int)
    requires
        q.len() >= 1,
        reaches(yarns, a, q[0]),
        is_walk(yarns, q),
        0 <= k < q.len(),
    ensures
        reaches(yarns, a, q[k]),
    decreases k,
{
    if k > 0 {
        lemma_reaches_prefix(yarns, a, q, k - 1);
        let j = k - 1;
        assert(edge(yarns, q[j], q[j + 1]));
        lemma_reaches_step(yarns, a, q[j], q[j + 1]);
    }
}

/// The yarns after one more is appended: an edge is old or the new one.
proof fn lemma_edge_push(yarns: Seq<Yarn>, y: Yarn, a: u128, b: u128)
    ensures
        edge(yarns.push(y), a, b) == (edge(yarns, a, b) || (a == y.from_node && b == y.to_node)),
{
    let ys = yarns.push(y);
    if edge(yarns, a, b) {
        let e = choose|e: int| 0 <= e < yarns.len() && yarns[e].from_node == a && yarns[e].to_node == b;
        assert(ys[e] == yarns[e]);
    }
    if a == y.from_node && b == y.to_node {
        assert(ys[yarns.len() as int] == y);
    }
    if edge(ys, a, b) {
        let e = choose|e: int| 0 <= e < ys.len() && ys[e].from_node == a && ys[e].to_node == b;
        if e < yarns.len() {
            assert(ys[e] == yarns[e]);
        }
    }
}

proof fn lemma_walk_push_prefix(yarns: Seq<Yarn>, y: Yarn, p: Seq<u128>, k: int)
    requires
        p.len() >= 1,
        is_walk(yarns.push(y), p),
        0 <= k < p.len(),
    ensures
        reaches(yarns, p[0], p[k]) || (reaches(yarns, p[0], y.from_node) && reaches(yarns, y.to_node, p[k])),
    decreases k,
{
    if k == 0 {
        lemma_reaches_self(yarns, p[0]);
    } else {
        lemma_walk_push_prefix(yarns, y, p, k - 1);
        let j = k - 1;
        assert(edge(yarns.push(y), p[j], p[j + 1]));
        lemma_edge_push(yarns, y, p[j], p[j + 1]);
        if edge(yarns, p[j], p[j + 1]) {
            if reaches(yarns, p[0], p[j]) {
                lemma_reaches_step(yarns, p[0], p[j], p[j + 1]);
            } else {
                lemma_reaches_step(yarns, y.to_node, p[j], p[j + 1]);
            }
        } else {
            lemma_reaches_self(yarns, y.to_node);
            if !reaches(yarns, p[0], p[j]) {
                lemma_reaches_trans(yarns, p[0], y.from_node, p[j]);
            }
        }
    }
}

/// A walk after one yarn is appended either avoids it or passes through it.
proof fn lemma_reaches_push(yarns: Seq<Yarn>, y: Yarn, a: u128, b: u128)
    requires
        reaches(yarns.push(y), a, b),
    ensures
        reaches(yarns, a, b) || (reaches(yarns, a, y.from_node) && reaches(yarns, y.to_node, b)),
{
    let p = choose|p: Seq<u128>| p.len() >= 1 && p[0] == a && p.last() == b && #[trigger] is_walk(yarns.push(y), p);
    lemma_walk_push_prefix(yarns, y, p, p.len() - 1);
}

/// Appending a yarn whose target does not reach its source keeps the yarns acyclic.
pub proof fn lemma_acyclic_push(yarns: Seq<Yarn>, y: Yarn)
    requires
        acyclic(yarns),
        y.from_node != y.to_node,
        !reaches(yarns, y.to_node, y.from_node),
    ensures
        acyclic(yarns.push(y)),
{
    let ys = yarns.push(y);
    assert forall|a: u128, b: u128| #[trigger] edge(ys, a, b) implies !reaches(ys, b, a) by {
        lemma_edge_push(yarns, y, a, b);
        if reaches(ys, b, a) {
            lemma_reaches_push(yarns, y, b, a);
            if edge(yarns, a, b) {
                if reaches(yarns, b, a) {
                } else {
                    let e = choose|e: int| 0 <= e < yarns.len() && yarns[e].from_node == a && yarns[e].to_node == b;
                    lemma_reaches_self(yarns, a);
                    lemma_reaches_step(yarns, a, a, b);
                    lemma_reaches_trans(yarns, y.to_node, a, b);
                    lemma_reaches_trans(yarns, y.to_node, b, y.from_node);
                }
            } else {
                if !reaches(yarns, b, a) {
                    lemma_reaches_trans(yarns, b, y.from_node, a);
                }
            }
        }
    }
}

impl Canvas {
    pub fn new(name: &str) -> (r: Canvas)
        ensures
            r.nodes@.len() == 0,
            r.yarns@.len() == 0,
            r.name@ == name@,
            r.description.is_none(),
    {
        Canvas { nodes: Vec::new(), yarns: Vec::new(), name: name.to_owned(), description: None }
    }

    /// The three structural invariants: unique identities, no cycle, and
    /// both ends of every yarn among the nodes.
    pub open spec fn wf(&self) -> bool {
        &&& ids_unique(self.nodes@)
        &&& acyclic(self.yarns@)
        &&& forall|e: int| 0 <= e < self.yarns@.len() ==> has_id(self.nodes@, self.yarns@[e].from_node)
            && has_id(self.nodes@, self.yarns@[e].to_node)
    }

    /// Whether a node with identity `id` is present.
    pub fn contains(&self, id: u128) -> (r: bool)
        ensures
            r == has_id(self.nodes@, id),
    {
        let mut i: usize = 0;
        while i < self.nodes.len()
            invariant
                i <= self.nodes@.len(),
                forall|j: int| 0 <= j < i ==> self.nodes@[j].id != id,
            decreases self.nodes@.len() - i,
        {
            if self.nodes[i].id == id {
                return true;
            }
            i = i + 1;
        }
        false
    }

    /// Adds a node; fails if its identity is already present.
    pub fn add_node(&mut self, node: Node) -> (r: Result<u128, CanvasError>)
        ensures
            has_id(old(self).nodes@, node.id) ==> r == Err::<u128, CanvasError>(
                CanvasError::DuplicateNode(node.id),
            ) && *final(self) == *old(self),
            !has_id(old(self).nodes@, node.id) ==> r == Ok::<u128, CanvasError>(node.id)
                && final(self).nodes@ == old(self).nodes@.push(node)
                && final(self).yarns == old(self).yarns && final(self).name == old(self).name
                && final(self).description == old(self).description,
            old(self).wf() ==> final(self).wf(),
    {
        let id = node.id;
        if self.contains(id) {
            return Err(CanvasError::DuplicateNode(id));
        }
        self.nodes.push(node);
        proof {
            let olds = old(self).nodes@;
            let news = self.nodes@;
            assert forall|u: u128| has_id(olds, u) implies has_id(news, u) by {
                let i = choose|i: int| 0 <= i < olds.len() && olds[i].id == u;
                assert(news[i] == olds[i]);
            }
        }
        Ok(id)
    }

    /// Whether `x` is `to` or the end of a marked yarn.
    fn marked(&self, used: &Vec<bool>, to: u128, x: u128) -> (r: bool)
        requires
            used@.len() == self.yarns@.len(),
        ensures
            r == marked_reach(self.yarns@, used@, to, x),
    {
        if x == to {
            return true;
        }
        let mut e: usize = 0;
        while e < self.yarns.len()
            invariant
                e <= self.yarns@.len(),
                used@.len() == self.yarns@.len(),
                forall|f: int| 0 <= f < e ==> !(used@[f] && self.yarns@[f].to_node == x),
            decreases self.yarns@.len() - e,
        {
            if used[e] && self.yarns[e].to_node == x {
                return true;
            }
            e = e + 1;
        }
        false
    }

    /// Whether a yarn from `from` to `to` would close a cycle.
    fn would_create_cycle(&self, from: u128, to: u128) -> (r: bool)
        ensures
            r == (from == to || reaches(self.yarns@, to, from)),
    {
        if from == to {
            return true;
        }
        let n = self.yarns.len();
        let mut used: Vec<bool> = Vec::new();
        while used.len() < n
            invariant
                used@.len() <= n,
                forall|e: int| 0 <= e < used@.len() ==> !used@[e],
            decreases n - used@.len(),
        {
            used.push(false);
        }
        proof {
            lemma_reaches_self(self.yarns@, to);
            lemma_count_true_bound(used@);
        }
        loop
            invariant
                n == self.yarns@.len(),
                used@.len() == n,
                count_true(used@) <= n,
                forall|e: int| 0 <= e < n && used@[e] ==> reaches(self.yarns@, to, #[trigger] self.yarns@[e].to_node),
            ensures
                used@.len() == n,
                forall|e: int| 0 <= e < n && used@[e] ==> reaches(self.yarns@, to, #[trigger] self.yarns@[e].to_node),
                forall|f: int|
                    0 <= f < n && !used@[f] ==> !marked_reach(self.yarns@, used@, to, self.yarns@[f].from_node),
            decreases n - count_true(used@),
        {
            let ghost start = used@;
            proof {
                lemma_count_true_bound(start);
            }
            let mut changed = false;
            let mut e: usize = 0;
            while e < n
                invariant
                    n == self.yarns@.len(),
                    e <= n,
                    used@.len() == n,
                    start.len() == n,
                    count_true(start) <= n,
                    forall|f: int| 0 <= f < n && used@[f] ==> reaches(self.yarns@, to, #[trigger] self.yarns@[f].to_node),
                    changed ==> count_true(used@) > count_true(start),
                    !changed ==> used@ == start,
                    !changed ==> forall|f: int|
                        0 <= f < e && !used@[f] ==> !marked_reach(self.yarns@, used@, to, self.yarns@[f].from_node),
                decreases n - e,
            {
                if !used[e] && self.marked(&used, to, self.yarns[e].from_node) {
                    proof {
                        let y = self.yarns@[e as int];
                        lemma_reaches_self(self.yarns@, to);
                        if y.from_node != to {
                            let f = choose|f: int| 0 <= f < n && used@[f] && self.yarns@[f].to_node == y.from_node;
                        }
                        assert(edge(self.yarns@, y.from_node, y.to_node));
                        lemma_reaches_step(self.yarns@, to, y.from_node, y.to_node);
                        lemma_count_true_set(used@, e as int);
                        lemma_count_true_bound(used@.update(e as int, true));
                    }
                    used.set(e, true);
                    changed = true;
                }
                e = e + 1;
            }
            proof {
                lemma_count_true_bound(used@);
            }
            if !changed {
                break;
            }
        }
        let found = self.marked(&used, to, from);
        proof {
            if reaches(self.yarns@, to, from) {
                lemma_closed_marking(self.yarns@, used@, to, from);
            }
            if found && from != to {
                let f = choose|f: int| 0 <= f < n && used@[f] && self.yarns@[f].to_node == from;
            }
        }
        found
    }

    /// `self` is `prev` with one yarn appended, whose fields are the given ones.
    pub open spec fn extends(self, prev: Canvas, id: u128, from_node: u128, from_port: u128, to_node: u128, to_port: u128) -> bool {
        &&& self.nodes == prev.nodes
        &&& self.name == prev.name
        &&& self.description == prev.description
        &&& self.yarns@.len() == prev.yarns@.len() + 1
        &&& self.yarns@.drop_last() == prev.yarns@
        &&& self.yarns@.last().id == id
        &&& self.yarns@.last().from_node == from_node
        &&& self.yarns@.last().from_port == from_port
        &&& self.yarns@.last().to_node == to_node
        &&& self.yarns@.last().to_port == to_port
        &&& self.yarns@.last().label.is_none()
    }

    /// Connects an output port of `from_node` to an input port of `to_node`.
    /// Fails, leaving the canvas unchanged, when a node is missing or when
    /// the new yarn would close a cycle.
    pub fn connect(&mut self, from_node: u128, from_port: u128, to_node: u128, to_port: u128) -> (r:
        Result<u128, CanvasError>)
        ensures
            !has_id(old(self).nodes@, from_node) ==> r == Err::<u128, CanvasError>(
                CanvasError::NodeNotFound(from_node),
            ),
            has_id(old(self).nodes@, from_node) && !has_id(old(self).nodes@, to_node) ==> r == Err::<
                u128,
                CanvasError,
            >(CanvasError::NodeNotFound(to_node)),
            has_id(old(self).nodes@, from_node) && has_id(old(self).nodes@, to_node) && (from_node
                == to_node || reaches(old(self).yarns@, to_node, from_node)) ==> r == Err::<
                u128,
                CanvasError,
            >(CanvasError::CycleDetected),
            has_id(old(self).nodes@, from_node) && has_id(old(self).nodes@, to_node) && from_node
                != to_node && !reaches(old(self).yarns@, to_node, from_node) ==> r.is_ok(),
            r.is_err() ==> *final(self) == *old(self),
            r matches Ok(id) ==> final(self).extends(*old(self), id, from_node, from_port, to_node, to_port),
            old(self).wf() ==> final(self).wf(),
    {
        if !self.contains(from_node) {
            return Err(CanvasError::NodeNotFound(from_node));
        }
        if !self.contains(to_node) {
            return Err(CanvasError::NodeNotFound(to_node));
        }
        let yarn = Yarn::new(from_node, from_port, to_node, to_port);
        let id = yarn.id;
        if self.would_create_cycle(from_node, to_node) {
            return Err(CanvasError::CycleDetected);
        }
        self.yarns.push(yarn);
        proof {
            let olds = old(self).yarns@;
            assert(self.yarns@.drop_last() =~= olds);
            if old(self).wf() {
                lemma_acyclic_push(olds, self.yarns@.last());
                assert forall|e: int| 0 <= e < self.yarns@.len() implies has_id(self.nodes@, self.yarns@[e].from_node)
                    && has_id(self.nodes@, self.yarns@[e].to_node) by {
                    if e < olds.len() {
                        assert(self.yarns@[e] == olds[e]);
                    }
                }
            }
        }
        Ok(id)
    }

    /// Identities of the nodes with no incoming yarn, in node order.
    pub fn sources(&self) -> (r: Vec<u128>)
        ensures
            r@ == free_ends(self.nodes@, self.yarns@, true),
    {
        self.ends(true)
    }

    /// Identities of the nodes with no outgoing yarn, in node order.
    pub fn sinks(&self) -> (r: Vec<u128>)
        ensures
            r@ == free_ends(self.nodes@, self.yarns@, false),
    {
        self.ends(false)
    }

    /// Whether some yarn ends (`incoming`) or starts at `v`.
    fn touches(&self, v: u128, incoming: bool) -> (r: bool)
        ensures
            r == if incoming {
                has_incoming(self.yarns@, v)
            } else {
                has_outgoing(self.yarns@, v)
            },
    {
        let mut e: usize = 0;
        while e < self.yarns.len()
            invariant
                e <= self.yarns@.len(),
                forall|f: int| 0 <= f < e ==> (if incoming {
                    self.yarns@[f].to_node != v
                } else {
                    self.yarns@[f].from_node != v
                }),
            decreases self.yarns@.len() - e,
        {
            let end = if incoming {
                self.yarns[e].to_node
            } else {
                self.yarns[e].from_node
            };
            if end == v {
                return true;
            }
            e = e + 1;
        }
        false
    }

    fn ends(&self, incoming: bool) -> (r: Vec<u128>)
        ensures
            r@ == free_ends(self.nodes@, self.yarns@, incoming),
    {
        let mut out: Vec<u128> = Vec::new();
        let mut i: usize = 0;
        while i < self.nodes.len()
            invariant
                i <= self.nodes@.len(),
                out@ == free_ends(self.nodes@.subrange(0, i as int), self.yarns@, incoming),
            decreases self.nodes@.len() - i,
        {
            proof {
                assert(self.nodes@.subrange(0, i + 1).drop_last() =~= self.nodes@.subrange(0, i as int));
            }
            if !self.touches(self.nodes[i].id, incoming) {
                out.push(self.nodes[i].id);
            }
            i = i + 1;
        }
        assert(self.nodes@.subrange(0, self.nodes@.len() as int) =~= self.nodes@);
        out
    }

    /// Sources of the yarns that end at `node_id`, in yarn order.
    pub fn predecessors(&self, node_id: u128) -> (r: Vec<u128>)
        ensures
            r@ == preds_of(self.yarns@, node_id),
    {
        let mut out: Vec<u128> = Vec::new();
        let mut e: usize = 0;
        while e < self.yarns.len()
            invariant
                e <= self.yarns@.len(),
                out@ == preds_of(self.yarns@.subrange(0, e as int), node_id),
            decreases self.yarns@.len() - e,
        {
            proof {
                assert(self.yarns@.subrange(0, e + 1).drop_last() =~= self.yarns@.subrange(0, e as int));
            }
            if self.yarns[e].to_node == node_id {
                out.push(self.yarns[e].from_node);
            }
            e = e + 1;
        }
        assert(self.yarns@.subrange(0, self.yarns@.len() as int) =~= self.yarns@);
        out
    }

    /// Targets of the yarns that start at `node_id`, in yarn order.
    pub fn successors(&self, node_id: u128) -> (r: Vec<u128>)
        ensures
            r@ == succs_of(self.yarns@, node_id),
    {
        let mut out: Vec<u128> = Vec::new();
        let mut e: usize = 0;
        while e < self.yarns.len()
            invariant
                e <= self.yarns@.len(),
                out@ == succs_of(self.yarns@.subrange(0, e as int), node_id),
            decreases self.yarns@.len() - e,
        {
            proof {
                assert(self.yarns@.subrange(0, e + 1).drop_last() =~= self.yarns@.subrange(0, e as int));
            }
            if self.yarns[e].from_node == node_id {
                out.push(self.yarns[e].to_node);
            }
            e = e + 1;
        }
        assert(self.yarns@.subrange(0, self.yarns@.len() as int) =~= self.yarns@);
        out
    }

    /// The first node with identity `id`.
    pub fn find_node(&self, id: u128) -> (r: Option<&Node>)
        ensures
            r matches Some(n) ==> exists|i: int| 0 <= i < self.nodes@.len() && self.nodes@[i] == *n && n.id == id,
            r.is_none() == !has_id(self.nodes@, id),
    {
        let mut i: usize = 0;
        while i < self.nodes.len()
            invariant
                i <= self.nodes@.len(),
                forall|j: int| 0 <= j < i ==> self.nodes@[j].id != id,
            decreases self.nodes@.len() - i,
        {
            if self.nodes[i].id == id {
                return Some(&self.nodes[i]);
            }
            i = i + 1;
        }
        None
    }

    /// Number of nodes.
    pub fn node_count(&self) -> (r: usize)
        ensures
            r == self.nodes@.len(),
    {
        self.nodes.len()
    }

    /// Number of yarns.
    pub fn yarn_count(&self) -> (r: usize)
        ensures
            r == self.yarns@.len(),
    {
        self.yarns.len()
    }
}

} // verus!
