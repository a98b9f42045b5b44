//! A small builder for node descriptions: named, typed ports collected
//! into an immutable record. The engine proper addresses everything by
//! hashed identities; this builder is the convenient front end for
//! declaring a node's interface.

use vstd::prelude::*;

verus! {

use std::sync::Arc;

/// What a port carries.
#[derive(Debug, PartialEq, Eq, Structural, Clone, Copy)]
pub enum PortKind {
    /// Sample data.
    Audio,
    /// Event data.
    Event,
}

/// A declared port: a name and what it carries.
pub struct Port {
    pub name: &'static str,
    pub kind: PortKind,
}

/// An immutable node description: its name and its declared ports, shared
/// by counted handle so clones are cheap.
pub struct Node {
    pub name: Arc<String>,
    pub inputs: Arc<Vec<Port>>,
    pub outputs: Arc<Vec<Port>>,
}

/// Collects ports before the node description is frozen.
pub struct NodeBuilder {
    inputs: Vec<Port>,
    outputs: Vec<Port>,
}

/// Start building a node description.
pub fn node() -> (r: NodeBuilder)
    ensures
        r.spec_inputs().len() == 0,
        r.spec_outputs().len() == 0,
{
    NodeBuilder { inputs: Vec::new(), outputs: Vec::new() }
}

impl NodeBuilder {
    /// The input ports declared so far.
    pub closed spec fn spec_inputs(&self) -> Seq<Port> {
        self.inputs@
    }

    /// The output ports declared so far.
    pub closed spec fn spec_outputs(&self) -> Seq<Port> {
        self.outputs@
    }

    /// Declare one port on the chosen side.
    pub fn port(self, is_input: bool, kind: PortKind, name: &'static str) -> (r: NodeBuilder)
        ensures
            is_input ==> r.spec_inputs() == self.spec_inputs().push(Port { name, kind })
                && r.spec_outputs() == self.spec_outputs(),
            !is_input ==> r.spec_outputs() == self.spec_outputs().push(Port { name, kind })
                && r.spec_inputs() == self.spec_inputs(),
    {
        let mut b = self;
        if is_input {
            b.inputs.push(Port { name, kind });
        } else {
            b.outputs.push(Port { name, kind });
        }
        b
    }

    /// Declare an audio input.
    pub fn audio_input(self, name: &'static str) -> (r: NodeBuilder)
        ensures
            r.spec_inputs() == self.spec_inputs().push(Port { name, kind: PortKind::Audio }),
            r.spec_outputs() == self.spec_outputs(),
    {
        self.port(true, PortKind::Audio, name)
    }

    /// Declare an event input.
    pub fn event_input(self, name: &'static str) -> (r: NodeBuilder)
        ensures
            r.spec_inputs() == self.spec_inputs().push(Port { name, kind: PortKind::Event }),
            r.spec_outputs() == self.spec_outputs(),
    {
        self.port(true, PortKind::Event, name)
    }

    /// Declare an audio output.
    pub fn audio_output(self, name: &'static str) -> (r: NodeBuilder)
        ensures
            r.spec_outputs() == self.spec_outputs().push(Port { name, kind: PortKind::Audio }),
            r.spec_inputs() == self.spec_inputs(),
    {
        self.port(false, PortKind::Audio, name)
    }

    /// Declare an event output.
    pub fn event_output(self, name: &'static str) -> (r: NodeBuilder)
        ensures
            r.spec_outputs() == self.spec_outputs().push(Port { name, kind: PortKind::Event }),
            r.spec_inputs() == self.spec_inputs(),
    {
        self.port(false, PortKind::Event, name)
    }

    /// Freeze the collected ports into a named node description.
    pub fn build(self, name: &str) -> (r: Node)
        ensures
            r.name@ == name@,
            r.inputs@ == self.spec_inputs(),
            r.outputs@ == self.spec_outputs(),
    {
        Node {
            name: Arc::new(name.to_owned()),
            inputs: Arc::new(self.inputs),
            outputs: Arc::new(self.outputs),
        }
    }
}

} // verus!
