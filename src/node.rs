//! Nodes and ports: the atoms of a canvas.
use vstd::prelude::*;

verus! {

/// The four kinds of node.
#[derive(Debug, Clone, Copy, PartialEq, Eq, Hash, Structural)]
pub enum NodeType {
    /// Data ingress.
    Source,
    /// Data transformation.
    Transform,
    /// Side effect.
    Action,
    /// Approval gate.
    Guard,
}

/// Direction of a port on a node.
#[derive(Debug, Clone, Copy, PartialEq, Eq, Structural)]
pub enum PortDirection {
    In,
    Out,
}

/// Relies on uuid::Uuid::new_v4: a random identity, read as a 128-bit integer.
#[verifier::external_body]
pub(crate) fn fresh_id() -> (r: u128) {
    uuid::Uuid::new_v4().as_u128()
}

/// A connection point on a node.
#[derive(Debug)]
pub struct Port {
    pub id: u128,
    pub name: String,
    pub direction: PortDirection,
    /// Optional type hint such as "string" or "email[]".
    pub type_hint: Option<String>,
}

impl Port {
    pub fn input(name: &str) -> (r: Port)
        ensures
            r.name@ == name@,
            r.direction == PortDirection::In,
            r.type_hint.is_none(),
    {
        Port { id: fresh_id(), name: name.to_owned(), direction: PortDirection::In, type_hint: None }
    }

    pub fn output(name: &str) -> (r: Port)
        ensures
            r.name@ == name@,
            r.direction == PortDirection::Out,
            r.type_hint.is_none(),
    {
        Port { id: fresh_id(), name: name.to_owned(), direction: PortDirection::Out, type_hint: None }
    }

    pub fn with_type(self, t: &str) -> (r: Port)
        ensures
            r.id == self.id,
            r.name == self.name,
            r.direction == self.direction,
            r.type_hint matches Some(h) && h@ == t@,
    {
        Port { type_hint: Some(t.to_owned()), ..self }
    }

    /// A field-by-field copy.
    pub fn duplicate(&self) -> (r: Port)
        ensures
            r == *self,
    {
        let type_hint = match &self.type_hint {
            Some(t) => Some(t.clone()),
            None => None,
        };
        Port { id: self.id, name: self.name.clone(), direction: self.direction, type_hint }
    }
}

/// Copies each port of `ports` in order.
pub fn duplicate_ports(ports: &Vec<Port>) -> (r: Vec<Port>)
    ensures
        r@ == ports@,
{
    let mut out: Vec<Port> = Vec::new();
    let mut i: usize = 0;
    while i < ports.len()
        invariant
            i <= ports@.len(),
            out@ == ports@.subrange(0, i as int),
        decreases ports@.len() - i,
    {
        out.push(ports[i].duplicate());
        i = i + 1;
        assert(out@ =~= ports@.subrange(0, i as int));
    }
    assert(out@ =~= ports@);
    out
}

/// A unit of work in a canvas.
#[derive(Debug)]
pub struct Node {
    pub id: u128,
    pub name: String,
    pub node_type: NodeType,
    pub inputs: Vec<Port>,
    pub outputs: Vec<Port>,
    /// Tool-specific configuration, held as JSON text.
    pub config: String,
    /// Optional reference to an external capability.
    pub tool_slug: Option<String>,
}

/// The JSON text of a null configuration.
pub open spec fn null_config() -> Seq<char> {
    seq!['n', 'u', 'l', 'l']
}

/// Index of the first port in `ports` whose name is `name`.
pub open spec fn first_named(ports: Seq<Port>, name: Seq<char>) -> Option<int> {
    if exists|i: int| 0 <= i < ports.len() && ports[i].name@ == name {
        let i = choose|i: int|
            0 <= i < ports.len() && ports[i].name@ == name && forall|j: int|
                0 <= j < i ==> ports[j].name@ != name;
        Some(i)
    } else {
        None
    }
}

/// The first index with the given name, found by a scan.
fn find_named(ports: &Vec<Port>, name: &str) -> (r: Option<usize>)
    ensures
        match r {
            Some(i) => i < ports@.len() && ports@[i as int].name@ == name@ && forall|j: int|
                0 <= j < i ==> ports@[j].name@ != name@,
            None => forall|j: int| 0 <= j < ports@.len() ==> ports@[j].name@ != name@,
        },
{
    let wanted = name.to_owned();
    let mut i: usize = 0;
    while i < ports.len()
        invariant
            i <= ports@.len(),
            wanted@ == name@,
            forall|j: int| 0 <= j < i ==> ports@[j].name@ != name@,
        decreases ports@.len() - i,
    {
        if ports[i].name == wanted {
            return Some(i);
        }
        i = i + 1;
    }
    None
}

impl Node {
    pub fn new(name: &str, node_type: NodeType) -> (r: Node)
        ensures
            r.name@ == name@,
            r.node_type == node_type,
            r.inputs@.len() == 0,
            r.outputs@.len() == 0,
            r.config@ == null_config(),
            r.tool_slug.is_none(),
    {
        let config = String::from_str("null");
        proof {
            reveal_strlit("null");
            assert(config@ =~= null_config());
        }
        Node {
            id: fresh_id(),
            name: name.to_owned(),
            node_type,
            inputs: Vec::new(),
            outputs: Vec::new(),
            config,
            tool_slug: None,
        }
    }

    pub fn with_input(self, port: Port) -> (r: Node)
        ensures
            r.inputs@ == self.inputs@.push(port),
            r.id == self.id && r.name == self.name && r.node_type == self.node_type,
            r.outputs == self.outputs && r.config == self.config && r.tool_slug == self.tool_slug,
    {
        let mut n = self;
        n.inputs.push(port);
        n
    }

    pub fn with_output(self, port: Port) -> (r: Node)
        ensures
            r.outputs@ == self.outputs@.push(port),
            r.id == self.id && r.name == self.name && r.node_type == self.node_type,
            r.inputs == self.inputs && r.config == self.config && r.tool_slug == self.tool_slug,
    {
        let mut n = self;
        n.outputs.push(port);
        n
    }

    /// Sets the configuration, given as JSON text.
    pub fn with_config(self, config: String) -> (r: Node)
        ensures
            r.config == config,
            r.id == self.id && r.name == self.name && r.node_type == self.node_type,
            r.inputs == self.inputs && r.outputs == self.outputs && r.tool_slug == self.tool_slug,
    {
        Node { config, ..self }
    }

    pub fn with_tool(self, slug: &str) -> (r: Node)
        ensures
            r.tool_slug matches Some(t) && t@ == slug@,
            r.id == self.id && r.name == self.name && r.node_type == self.node_type,
            r.inputs == self.inputs && r.outputs == self.outputs && r.config == self.config,
    {
        Node { tool_slug: Some(slug.to_owned()), ..self }
    }

    /// The first input port with the given name.
    pub fn input_port(&self, name: &str) -> (r: Option<&Port>)
        ensures
            r == (match first_named(self.inputs@, name@) {
                Some(i) => Some(&self.inputs@[i]),
                None => None,
            }),
    {
        match find_named(&self.inputs, name) {
            Some(i) => Some(&self.inputs[i]),
            None => None,
        }
    }

    /// The first output port with the given name.
    pub fn output_port(&self, name: &str) -> (r: Option<&Port>)
        ensures
            r == (match first_named(self.outputs@, name@) {
                Some(i) => Some(&self.outputs@[i]),
                None => None,
            }),
    {
        match find_named(&self.outputs, name) {
            Some(i) => Some(&self.outputs[i]),
            None => None,
        }
    }

    /// A field-by-field copy.
    pub fn duplicate(&self) -> (r: Node)
        ensures
            r.id == self.id && r.name == self.name && r.node_type == self.node_type,
            r.inputs@ == self.inputs@ && r.outputs@ == self.outputs@,
            r.config == self.config && r.tool_slug == self.tool_slug,
    {
        let tool_slug = match &self.tool_slug {
            Some(t) => Some(t.clone()),
            None => None,
        };
        Node {
            id: self.id,
            name: self.name.clone(),
            node_type: self.node_type,
            inputs: duplicate_ports(&self.inputs),
            outputs: duplicate_ports(&self.outputs),
            config: self.config.clone(),
            tool_slug,
        }
    }
}

} // verus!
