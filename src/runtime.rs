//! The bookkeeping of a weave: layers first, then for each node the inputs
//! gathered from its predecessors and the outcome of its executor.
//!
//! The executor itself is a capability of the caller. A weave runs as:
//! `begin_weave`, then for each layer in order, `gather_inputs` for each of
//! its nodes, the executor calls, and one `record` per node once the whole
//! layer has finished.
use vstd::prelude::*;
use crate::graph::{Canvas, acyclic, ids_unique};
use crate::node::{Node, Port};
use crate::topology::{compute_layers, cycle_report, ends_known, is_layering, kahn_layers, TopologyError};

verus! {

/// An executor that hands each node's inputs back as its output.
#[derive(Debug, Clone, Copy)]
pub struct PassthroughExecutor;

/// What one node produced.
#[derive(Debug)]
pub struct NodeOutput {
    pub node_id: u128,
    pub node_name: String,
    /// The produced value as JSON text; `None` where the executor failed.
    pub output: Option<String>,
    pub duration_ms: u64,
}

/// The result of weaving a canvas.
#[derive(Debug)]
pub struct WeaveResult {
    pub canvas_name: String,
    pub layers: Vec<Vec<u128>>,
    /// One record per executed node, in the order they were recorded.
    pub outputs: Vec<NodeOutput>,
    pub total_duration_ms: u64,
    /// True exactly when no error has been recorded.
    pub success: bool,
    /// One message per failed node: its name, ": ", and the failure.
    pub errors: Vec<String>,
}

/// The value produced for node `u`: the last record for `u` decides.
pub open spec fn produced(outs: Seq<NodeOutput>, u: u128) -> Option<Seq<char>>
    decreases outs.len(),
{
    if outs.len() == 0 {
        None
    } else if outs.last().node_id == u {
        match outs.last().output {
            Some(v) => Some(v@),
            None => None,
        }
    } else {
        produced(outs.drop_last(), u)
    }
}

/// The key under which a value arriving at port `port` is passed: the name
/// of the first input port with that identity, else "input".
pub open spec fn key_of(ports: Seq<Port>, port: u128) -> Seq<char>
    decreases ports.len(),
{
    if ports.len() == 0 {
        seq!['i', 'n', 'p', 'u', 't']
    } else if ports[0].id == port {
        ports[0].name@
    } else {
        key_of(ports.drop_first(), port)
    }
}

/// For each yarn into `node` whose source has produced a value, in yarn
/// order: the key of its target port and that value.
pub open spec fn gathered(yarns: Seq<crate::yarn::Yarn>, node: Node, outs: Seq<NodeOutput>) -> Seq<(Seq<char>, Seq<char>)>
    decreases yarns.len(),
{
    if yarns.len() == 0 {
        Seq::empty()
    } else {
        let rest = gathered(yarns.drop_last(), node, outs);
        let y = yarns.last();
        if y.to_node == node.id && produced(outs, y.from_node).is_some() {
            rest.push((key_of(node.inputs@, y.to_port), produced(outs, y.from_node).unwrap()))
        } else {
            rest
        }
    }
}

/// The message recorded for a failed node.
pub open spec fn error_message(name: Seq<char>, failure: Seq<char>) -> Seq<char> {
    name + seq![':', ' '] + failure
}

fn port_key(ports: &Vec<Port>, port: u128) -> (r: String)
    ensures
        r@ == key_of(ports@, port),
{
    let mut i: usize = 0;
    assert(ports@.subrange(0, ports@.len() as int) =~= ports@);
    while i < ports.len()
        invariant
            i <= ports@.len(),
            key_of(ports@, port) == key_of(ports@.subrange(i as int, ports@.len() as int), port),
        decreases ports@.len() - i,
    {
        let ghost rest = ports@.subrange(i as int, ports@.len() as int);
        assert(rest[0] == ports@[i as int]);
        if ports[i].id == port {
            return ports[i].name.clone();
        }
        assert(rest.drop_first() =~= ports@.subrange(i + 1, ports@.len() as int));
        i = i + 1;
    }
    assert(ports@.subrange(i as int, ports@.len() as int).len() == 0);
    let r = String::from_str("input");
    proof {
        reveal_strlit("input");
    }
    r
}

fn produced_value(outs: &Vec<NodeOutput>, u: u128) -> (r: Option<String>)
    ensures
        match r {
            Some(v) => produced(outs@, u) == Some(v@),
            None => produced(outs@, u).is_none(),
        },
{
    let mut i: usize = outs.len();
    assert(outs@.subrange(0, outs@.len() as int) =~= outs@);
    while i > 0
        invariant
            i <= outs@.len(),
            produced(outs@, u) == produced(outs@.subrange(0, i as int), u),
        decreases i,
    {
        let ghost pre = outs@.subrange(0, i as int);
        assert(pre.drop_last() =~= outs@.subrange(0, i - 1));
        if outs[i - 1].node_id == u {
            return match &outs[i - 1].output {
                Some(v) => Some(v.clone()),
                None => None,
            };
        }
        i = i - 1;
    }
    None
}

/// The inputs of `node`: for each yarn into it whose source has produced a
/// value, in yarn order, the name of the target input port and that value.
pub fn gather_inputs(canvas: &Canvas, node: &Node, outputs: &Vec<NodeOutput>) -> (r: Vec<(String, String)>)
    ensures
        r@.len() == gathered(canvas.yarns@, *node, outputs@).len(),
        forall|q: int| 0 <= q < r@.len() ==> (#[trigger] r@[q]).0@ == gathered(canvas.yarns@, *node, outputs@)[q].0
            && r@[q].1@ == gathered(canvas.yarns@, *node, outputs@)[q].1,
{
    let mut out: Vec<(String, String)> = Vec::new();
    let mut e: usize = 0;
    while e < canvas.yarns.len()
        invariant
            e <= canvas.yarns@.len(),
            out@.len() == gathered(canvas.yarns@.subrange(0, e as int), *node, outputs@).len(),
            forall|q: int| 0 <= q < out@.len() ==> (#[trigger] out@[q]).0@ == gathered(canvas.yarns@.subrange(0, e as int), *node, outputs@)[q].0
                && out@[q].1@ == gathered(canvas.yarns@.subrange(0, e as int), *node, outputs@)[q].1,
        decreases canvas.yarns@.len() - e,
    {
        let ghost pre = canvas.yarns@.subrange(0, e as int);
        let ghost next = canvas.yarns@.subrange(0, e + 1);
        assert(next.drop_last() =~= pre);
        let y = &canvas.yarns[e];
        if y.to_node == node.id {
            match produced_value(outputs, y.from_node) {
                Some(v) => {
                    let key = port_key(&node.inputs, y.to_port);
                    out.push((key, v));
                },
                None => {},
            }
        }
        e = e + 1;
    }
    assert(canvas.yarns@.subrange(0, canvas.yarns@.len() as int) =~= canvas.yarns@);
    out
}

/// Computes the layers and opens an empty result; fails, before any node
/// runs, with the error of `compute_layers`: on an empty canvas or one that
/// cannot be layered. A non-empty acyclic canvas always opens.
pub fn begin_weave(canvas: &Canvas) -> (r: Result<WeaveResult, TopologyError>)
    requires
        ids_unique(canvas.nodes@),
    ensures
        (canvas.nodes@.len() == 0) == (r matches Err(TopologyError::EmptyCanvas)),
        r matches Ok(w) ==> is_layering(canvas.nodes@, canvas.yarns@, w.layers@) && kahn_layers(canvas.nodes@, canvas.yarns@, w.layers@)
            && w.outputs@.len() == 0
            && w.errors@.len() == 0 && w.success && w.canvas_name == canvas.name && w.total_duration_ms == 0,
        r matches Err(TopologyError::CycleDetected { processed, total }) ==> cycle_report(
            canvas.nodes@,
            canvas.yarns@,
            processed as int,
            total as int,
        ),
        canvas.nodes@.len() > 0 && acyclic(canvas.yarns@) && ends_known(canvas.nodes@, canvas.yarns@) ==> r.is_ok(),
{
    match compute_layers(canvas) {
        Ok(layers) => Ok(
            WeaveResult {
                canvas_name: canvas.name.clone(),
                layers,
                outputs: Vec::new(),
                total_duration_ms: 0,
                success: true,
                errors: Vec::new(),
            },
        ),
        Err(e) => Err(e),
    }
}

impl WeaveResult {
    /// Records the outcome of one node: its output record, holding the value
    /// on success and none on failure, and on failure an error message
    /// tagged with the node's name. The weave goes on either way.
    pub fn record(&mut self, node_id: u128, node_name: String, outcome: Result<String, String>, duration_ms: u64)
        ensures
            final(self).outputs@.len() == old(self).outputs@.len() + 1,
            final(self).outputs@.drop_last() == old(self).outputs@,
            final(self).outputs@.last().node_id == node_id,
            final(self).outputs@.last().node_name@ == node_name@,
            final(self).outputs@.last().duration_ms == duration_ms,
            final(self).outputs@.last().output == outcome.ok(),
            outcome.is_ok() ==> final(self).errors@ == old(self).errors@,
            outcome matches Err(m) ==> final(self).errors@.len() == old(self).errors@.len() + 1
                && final(self).errors@.drop_last() == old(self).errors@
                && final(self).errors@.last()@ == error_message(node_name@, m@),
            final(self).success == (final(self).errors@.len() == 0),
            final(self).layers == old(self).layers && final(self).canvas_name == old(self).canvas_name,
            final(self).total_duration_ms == old(self).total_duration_ms,
    {
        let output = match outcome {
            Ok(v) => Some(v),
            Err(m) => {
                let mut msg = node_name.clone();
                msg.append(": ");
                msg.append(m.as_str());
                proof {
                    reveal_strlit(": ");
                }
                let ghost before = self.errors@;
                self.errors.push(msg);
                assert(self.errors@.drop_last() =~= before);
                None
            },
        };
        let ghost before = self.outputs@;
        self.outputs.push(NodeOutput { node_id, node_name, output, duration_ms });
        assert(self.outputs@.drop_last() =~= before);
        self.success = self.errors.len() == 0;
    }

    /// Closes the weave with its total duration.
    pub fn finish(&mut self, total_duration_ms: u64)
        ensures
            final(self).total_duration_ms == total_duration_ms,
            final(self).outputs == old(self).outputs && final(self).errors == old(self).errors,
            final(self).layers == old(self).layers && final(self).canvas_name == old(self).canvas_name,
            final(self).success == (old(self).errors@.len() == 0),
    {
        self.total_duration_ms = total_duration_ms;
        self.success = self.errors.len() == 0;
    }
}

} // verus!
