//! Yarns: directed edges between ports of two nodes.
use vstd::prelude::*;
use crate::node::fresh_id;

verus! {

/// Connects an output port of one node to an input port of another.
#[derive(Debug)]
pub struct Yarn {
    pub id: u128,
    pub from_node: u128,
    pub from_port: u128,
    pub to_node: u128,
    pub to_port: u128,
    /// Optional label for display.
    pub label: Option<String>,
}

impl Yarn {
    pub fn new(from_node: u128, from_port: u128, to_node: u128, to_port: u128) -> (r: Yarn)
        ensures
            r.from_node == from_node && r.from_port == from_port,
            r.to_node == to_node && r.to_port == to_port,
            r.label.is_none(),
    {
        Yarn { id: fresh_id(), from_node, from_port, to_node, to_port, label: None }
    }

    pub fn with_label(self, label: &str) -> (r: Yarn)
        ensures
            r.label matches Some(l) && l@ == label@,
            r.id == self.id && r.from_node == self.from_node && r.from_port == self.from_port,
            r.to_node == self.to_node && r.to_port == self.to_port,
    {
        Yarn { label: Some(label.to_owned()), ..self }
    }

    /// A field-by-field copy.
    pub fn duplicate(&self) -> (r: Yarn)
        ensures
            r == *self,
    {
        let label = match &self.label {
            Some(t) => Some(t.clone()),
            None => None,
        };
        Yarn {
            id: self.id,
            from_node: self.from_node,
            from_port: self.from_port,
            to_node: self.to_node,
            to_port: self.to_port,
            label,
        }
    }
}

/// Copies each yarn of `yarns` in order.
pub fn duplicate_yarns(yarns: &Vec<Yarn>) -> (r: Vec<Yarn>)
    ensures
        r@ == yarns@,
{
    let mut out: Vec<Yarn> = Vec::new();
    let mut i: usize = 0;
    while i < yarns.len()
        invariant
            i <= yarns@.len(),
            out@ == yarns@.subrange(0, i as int),
        decreases yarns@.len() - i,
    {
        out.push(yarns[i].duplicate());
        i = i + 1;
        assert(out@ =~= yarns@.subrange(0, i as int));
    }
    assert(out@ =~= yarns@);
    out
}

} // verus!
