//! The signal graph: nodes with typed ports, connected by directed edges
//! from output ports to input ports. Nodes and ports are addressed by
//! stable 64-bit identities hashed from their names. Every edit keeps the
//! graph well formed: edges are mirrored on both endpoints, endpoints
//! always exist, configurations of connected ports match, and the graph
//! stays acyclic.

use vstd::prelude::*;

use crate::config::{ChannelConfiguration, label_chars, label_dup, label_from, label_str};

verus! {

use vstd::string::StringSliceAdditionalSpecFns;
use std::collections::HashMap;

broadcast use vstd::std_specs::hash::group_hash_axioms;

/// An error that may arise from graph operations.
#[derive(Debug, PartialEq, Eq, Structural, Clone, Copy)]
pub enum Error {
    /// Source and destination port configurations do not match.
    PortConfigError,
    /// The named port does not exist.
    PortDoesNotExist,
    /// The named node does not exist.
    NodeDoesNotExist,
    /// A node with that name already exists.
    NodeAlreadyExists,
    /// A port with that name already exists on that side of the node.
    PortAlreadyExists,
    /// A name does not fit the 32-byte label capacity.
    StringCapacityError,
    /// The connection is a self loop or would create a cycle.
    InvalidConnection,
    /// The connection already exists.
    ConnectionAlreadyExists,
    /// The connection does not exist.
    ConnectionDoesNotExist,
    /// A latency compensation requirement exceeds the delay-line capacity.
    DelayExceedsCapacity,
}

/// The direction of a port.
#[derive(Debug, PartialEq, Eq, Structural, Clone, Copy)]
pub enum Direction {
    /// An input, receives data.
    Input,
    /// An output, sources data.
    Output,
}

impl Direction {
    /// Returns true if the direction is an input.
    pub fn is_input(&self) -> (r: bool)
        ensures
            r == (*self == Direction::Input),
    {
        match self {
            Direction::Input => true,
            Direction::Output => false,
        }
    }

    /// Returns true if the direction is an output.
    pub fn is_output(&self) -> (r: bool)
        ensures
            r == (*self == Direction::Output),
    {
        !self.is_input()
    }
}

/// A cheap to copy handle to a node in the graph.
#[derive(Clone, Copy, Debug, PartialEq, Eq, Structural)]
pub struct NodeHandle(pub u64);

/// A cheap to copy handle to a port of a node. Port identities are unique
/// relative to their node and direction.
#[derive(Clone, Copy, Debug, PartialEq, Eq, Structural)]
pub struct PortHandle(pub u64);

/// One half of a mirrored edge, stored on a node. In a dependency list
/// `node` and `remote_port` name the source node and its output port and
/// `local_port` the input port here; in a dependent list `node` and
/// `remote_port` name the destination node and its input port and
/// `local_port` the output port here.
#[derive(Clone, Copy, Debug, PartialEq, Eq, Structural)]
pub struct Edge {
    pub node: u64,
    pub remote_port: u64,
    pub local_port: u64,
}

/// The mathematical face of one port: its identity, name and channel
/// configuration.
pub struct PortView {
    pub id: u64,
    pub name: Seq<char>,
    pub count: usize,
    pub tag: Seq<char>,
}

/// The mathematical face of one node.
pub struct NodeView {
    pub name: Seq<char>,
    pub inputs: Seq<PortView>,
    pub outputs: Seq<PortView>,
    pub deps: Seq<Edge>,
    pub dependents: Seq<Edge>,
}

struct Port {
    id: u64,
    name: arrayvec::ArrayString<32>,
    config: ChannelConfiguration,
}

impl View for Port {
    type V = PortView;

    closed spec fn view(&self) -> PortView {
        PortView {
            id: self.id,
            name: label_chars(self.name),
            count: self.config.spec_count(),
            tag: self.config.spec_tag(),
        }
    }
}

struct Node {
    name: arrayvec::ArrayString<32>,
    inputs: Vec<Port>,
    outputs: Vec<Port>,
    dependencies: Vec<Edge>,
    dependents: Vec<Edge>,
}

impl View for Node {
    type V = NodeView;

    closed spec fn view(&self) -> NodeView {
        NodeView {
            name: label_chars(self.name),
            inputs: Seq::new(self.inputs@.len(), |i: int| self.inputs@[i]@),
            outputs: Seq::new(self.outputs@.len(), |i: int| self.outputs@[i]@),
            deps: self.dependencies@,
            dependents: self.dependents@,
        }
    }
}

/// The graph: a mapping from node identity to node.
pub struct Graph {
    nodes: HashMap<u64, Node>,
}

impl View for Graph {
    type V = Map<u64, NodeView>;

    closed spec fn view(&self) -> Map<u64, NodeView> {
        Map::new(
            |k: u64| self.nodes@.dom().contains(k),
            |k: u64| self.nodes@[k]@,
        )
    }
}

pub const FNV_OFFSET: u64 = 0xcbf29ce484222325;

pub const FNV_PRIME: u64 = 0x100000001b3;

/// 64-bit FNV-1a over a byte string: the identity that a name hashes to.
/// Collisions between distinct names are treated as duplicates by the edit
/// operations; this is documented behaviour.
pub open spec fn fnv64(bytes: Seq<u8>) -> u64
    decreases bytes.len(),
{
    if bytes.len() == 0 {
        FNV_OFFSET
    } else {
        vstd::wrapping::u64_specs::wrapping_mul(
            fnv64(bytes.drop_last()) ^ (bytes.last() as u64),
            FNV_PRIME,
        )
    }
}

/// The identity of a name: FNV-1a over its UTF-8 bytes.
pub open spec fn spec_name_id(s: &str) -> u64 {
    fnv64(s.spec_bytes())
}

/// Hash a name into an identifier.
pub fn hash_str(s: &str) -> (r: u64)
    ensures
        r == spec_name_id(s),
{
    let bytes: Vec<u8> = s.as_bytes_vec();
    let mut h: u64 = FNV_OFFSET;
    let mut i: usize = 0;
    while i < bytes.len()
        invariant
            i <= bytes@.len(),
            bytes@ == s.spec_bytes(),
            h == fnv64(bytes@.take(i as int)),
        decreases bytes@.len() - i,
    {
        let b: u8 = bytes[i];
        h = (h ^ (b as u64)).wrapping_mul(FNV_PRIME);
        proof {
            assert(bytes@.take(i + 1).drop_last() =~= bytes@.take(i as int));
            assert(bytes@.take(i + 1).last() == bytes@[i as int]);
        }
        i = i + 1;
    }
    proof {
        assert(bytes@.take(bytes@.len() as int) =~= bytes@);
    }
    h
}

/// Whether `ports` holds a port with identity `id`.
pub open spec fn has_port(ports: Seq<PortView>, id: u64) -> bool {
    exists|i: int| 0 <= i < ports.len() && ports[i].id == id
}

/// The index of the port with identity `id` (meaningful under
/// `has_port` and port-identity uniqueness).
pub open spec fn port_idx(ports: Seq<PortView>, id: u64) -> int {
    choose|i: int| 0 <= i < ports.len() && ports[i].id == id
}

/// Port identities occur at most once in a list.
pub open spec fn ports_unique(ports: Seq<PortView>) -> bool {
    forall|i: int, j: int|
        0 <= i < ports.len() && 0 <= j < ports.len() && i != j ==> ports[i].id != ports[j].id
}

/// Edges occur at most once in a list.
pub open spec fn edges_unique(edges: Seq<Edge>) -> bool {
    forall|i: int, j: int|
        0 <= i < edges.len() && 0 <= j < edges.len() && i != j ==> edges[i] != edges[j]
}

/// The mirror of a dependency of `n`: the entry the source node keeps in
/// its dependent list.
pub open spec fn mirror_of(n: u64, e: Edge) -> Edge {
    Edge { node: n, remote_port: e.local_port, local_port: e.remote_port }
}

/// Structural well-formedness of a graph: every edge half points at an
/// existing node and is mirrored there, edge endpoints name existing ports
/// whose configurations match, and identities are unique where they must
/// be.
pub open spec fn graph_wf_structure(g: Map<u64, NodeView>) -> bool {
    &&& (forall|n: u64|
        #[trigger] g.dom().contains(n) ==> ports_unique(g[n].inputs) && ports_unique(g[n].outputs)
            && edges_unique(g[n].deps) && edges_unique(g[n].dependents))
    &&& (forall|n: u64, i: int|
        g.dom().contains(n) && 0 <= i < g[n].deps.len() ==> {
            let e = #[trigger] g[n].deps[i];
            &&& g.dom().contains(e.node)
            &&& g[e.node].dependents.contains(mirror_of(n, e))
            &&& has_port(g[e.node].outputs, e.remote_port)
            &&& has_port(g[n].inputs, e.local_port)
            &&& g[e.node].outputs[port_idx(g[e.node].outputs, e.remote_port)].count
                == g[n].inputs[port_idx(g[n].inputs, e.local_port)].count
            &&& g[e.node].outputs[port_idx(g[e.node].outputs, e.remote_port)].tag == g[n].inputs[
                port_idx(g[n].inputs, e.local_port)
            ].tag
        })
    &&& (forall|n: u64, i: int|
        g.dom().contains(n) && 0 <= i < g[n].dependents.len() ==> {
            let e = #[trigger] g[n].dependents[i];
            &&& g.dom().contains(e.node)
            &&& g[e.node].deps.contains(mirror_of(n, e))
        })
}

/// A ranking certifies acyclicity: along every edge, the source ranks
/// strictly below the destination.
pub open spec fn rank_ok(g: Map<u64, NodeView>, r: Map<u64, nat>) -> bool {
    forall|n: u64, i: int|
        g.dom().contains(n) && 0 <= i < g[n].deps.len() ==> r[(#[trigger] g[n].deps[i]).node] < r[n]
}

/// The graph of nodes under the dependency edges has no directed cycle.
pub open spec fn acyclic(g: Map<u64, NodeView>) -> bool {
    exists|r: Map<u64, nat>| rank_ok(g, r)
}

/// Full well-formedness: structure plus acyclicity.
pub open spec fn graph_wf(g: Map<u64, NodeView>) -> bool {
    graph_wf_structure(g) && acyclic(g)
}

impl Graph {
    /// An empty graph.
    pub fn new() -> (r: Graph)
        ensures
            r@ == Map::<u64, NodeView>::empty(),
            graph_wf(r@),
    {
        let g = Graph { nodes: HashMap::new() };
        proof {
            assert(g@ =~= Map::<u64, NodeView>::empty());
            let witness = Map::<u64, nat>::total(|k: u64| 0nat);
            assert(rank_ok(g@, witness));
        }
        g
    }

    /// Add a node to the graph with a fixed name. Fails with
    /// `NodeAlreadyExists` when a node with the same identity is present,
    /// and with `StringCapacityError` when the name exceeds 32 bytes.
    pub fn add_node(&mut self, name: &str) -> (r: Result<NodeHandle, Error>)
        requires
            graph_wf(old(self)@),
        ensures
            graph_wf(final(self)@),
            old(self)@.dom().contains(spec_name_id(name)) ==> r == Result::<
                NodeHandle,
                Error,
            >::Err(Error::NodeAlreadyExists) && final(self)@ == old(self)@,
            !old(self)@.dom().contains(spec_name_id(name)) && name.spec_bytes().len() > 32 ==> r
                == Result::<NodeHandle, Error>::Err(Error::StringCapacityError) && final(self)@
                == old(self)@,
            !old(self)@.dom().contains(spec_name_id(name)) && name.spec_bytes().len() <= 32 ==> r
                == Result::<NodeHandle, Error>::Ok(NodeHandle(spec_name_id(name)))
                && final(self)@ == old(self)@.insert(
                spec_name_id(name),
                NodeView {
                    name: name@,
                    inputs: Seq::empty(),
                    outputs: Seq::empty(),
                    deps: Seq::empty(),
                    dependents: Seq::empty(),
                },
            ),
    {
        let id: u64 = hash_str(name);
        if self.nodes.contains_key(&id) {
            return Err(Error::NodeAlreadyExists);
        }
        let label = match label_from(name) {
            Some(l) => l,
            None => {
                return Err(Error::StringCapacityError);
            },
        };
        let node = Node {
            name: label,
            inputs: Vec::new(),
            outputs: Vec::new(),
            dependencies: Vec::new(),
            dependents: Vec::new(),
        };
        let _ = self.nodes.insert(id, node);
        proof {
            let nv = NodeView {
                name: name@,
                inputs: Seq::empty(),
                outputs: Seq::empty(),
                deps: Seq::empty(),
                dependents: Seq::empty(),
            };
            assert(self@[id].inputs =~= nv.inputs);
            assert(self@[id].outputs =~= nv.outputs);
            assert(self@ =~= old(self)@.insert(id, nv));
            let r0 = choose|r0: Map<u64, nat>| rank_ok(old(self)@, r0);
            assert(rank_ok(self@, r0));
        }
        Ok(NodeHandle(id))
    }

    /// Add a port with a name to one side of a node. Fails when the node
    /// does not exist, when a port with the same identity is already on
    /// that side, or when the name exceeds 32 bytes. New ports start with
    /// the `mono` configuration.
    pub fn add_port(&mut self, direction: Direction, node: NodeHandle, port_name: &str) -> (r:
        Result<PortHandle, Error>)
        requires
            graph_wf(old(self)@),
        ensures
            graph_wf(final(self)@),
            r is Err ==> final(self)@ == old(self)@,
            !old(self)@.dom().contains(node.0) ==> r == Result::<PortHandle, Error>::Err(
                Error::NodeDoesNotExist,
            ),
            old(self)@.dom().contains(node.0) && has_port(
                side_of(old(self)@[node.0], direction),
                spec_name_id(port_name),
            ) ==> r == Result::<PortHandle, Error>::Err(Error::PortAlreadyExists),
            old(self)@.dom().contains(node.0) && !has_port(
                side_of(old(self)@[node.0], direction),
                spec_name_id(port_name),
            ) && port_name.spec_bytes().len() > 32 ==> r == Result::<PortHandle, Error>::Err(
                Error::StringCapacityError,
            ),
            old(self)@.dom().contains(node.0) && !has_port(
                side_of(old(self)@[node.0], direction),
                spec_name_id(port_name),
            ) && port_name.spec_bytes().len() <= 32 ==> r == Result::<PortHandle, Error>::Ok(
                PortHandle(spec_name_id(port_name)),
            ) && final(self)@ == old(self)@.insert(
                node.0,
                with_side(
                    old(self)@[node.0],
                    direction,
                    side_of(old(self)@[node.0], direction).push(
                        PortView {
                            id: spec_name_id(port_name),
                            name: port_name@,
                            count: 1,
                            tag: "mono"@,
                        },
                    ),
                ),
            ),
    {
        let port_id: u64 = hash_str(port_name);
        let mut n = match self.nodes.remove(&node.0) {
            Some(n) => n,
            None => {
                proof {
                    assert(self@ =~= old(self)@);
                }
                return Err(Error::NodeDoesNotExist);
            },
        };
        let exists_already = {
            let ports = match direction {
                Direction::Input => &n.inputs,
                Direction::Output => &n.outputs,
            };
            port_id_present(ports, port_id)
        };
        if exists_already {
            let _ = self.nodes.insert(node.0, n);
            proof {
                assert(self@ =~= old(self)@);
            }
            return Err(Error::PortAlreadyExists);
        }
        let label = match label_from(port_name) {
            Some(l) => l,
            None => {
                let _ = self.nodes.insert(node.0, n);
                proof {
                    assert(self@ =~= old(self)@);
                }
                return Err(Error::StringCapacityError);
            },
        };
        let port = Port { id: port_id, name: label, config: crate::config::mono() };
        match direction {
            Direction::Input => n.inputs.push(port),
            Direction::Output => n.outputs.push(port),
        }
        let _ = self.nodes.insert(node.0, n);
        proof {
            let pv = PortView {
                id: port_id,
                name: port_name@,
                count: 1,
                tag: "mono"@,
            };
            let updated = with_side(
                old(self)@[node.0],
                direction,
                side_of(old(self)@[node.0], direction).push(pv),
            );
            assert(self@[node.0].inputs =~= updated.inputs);
            assert(self@[node.0].outputs =~= updated.outputs);
            assert(self@ =~= old(self)@.insert(node.0, updated));
            let r0 = choose|r0: Map<u64, nat>| rank_ok(old(self)@, r0);
            assert(rank_ok(self@, r0));
            let g = old(self)@;
            let g2 = self@;
            let side = side_of(g[node.0], direction);
            assert(g.dom().contains(node.0));
            assert(ports_unique(side));
            assert(!has_port(side, pv.id));
            lemma_port_push_preserves(side, side.push(pv), pv);
            assert forall|m: u64| #[trigger] g2.dom().contains(m) implies ports_unique(
                g2[m].inputs,
            ) && ports_unique(g2[m].outputs) && edges_unique(g2[m].deps) && edges_unique(
                g2[m].dependents,
            ) by {
                assert(g.dom().contains(m));
            }
            assert forall|m: u64, i: int|
                g2.dom().contains(m) && 0 <= i < g2[m].deps.len() implies {
                let e = #[trigger] g2[m].deps[i];
                &&& g2.dom().contains(e.node)
                &&& g2[e.node].dependents.contains(mirror_of(m, e))
                &&& has_port(g2[e.node].outputs, e.remote_port)
                &&& has_port(g2[m].inputs, e.local_port)
                &&& g2[e.node].outputs[port_idx(g2[e.node].outputs, e.remote_port)].count
                    == g2[m].inputs[port_idx(g2[m].inputs, e.local_port)].count
                &&& g2[e.node].outputs[port_idx(g2[e.node].outputs, e.remote_port)].tag
                    == g2[m].inputs[port_idx(g2[m].inputs, e.local_port)].tag
            } by {
                assert(g.dom().contains(m));
                assert(g[m].deps[i] == g2[m].deps[i]);
                let e = g2[m].deps[i];
                assert(g2[m].deps == g[m].deps);
                assert(g2[e.node].dependents == g[e.node].dependents);
            }
            assert forall|m: u64, i: int|
                g2.dom().contains(m) && 0 <= i < g2[m].dependents.len() implies {
                let e = #[trigger] g2[m].dependents[i];
                &&& g2.dom().contains(e.node)
                &&& g2[e.node].deps.contains(mirror_of(m, e))
            } by {
                assert(g.dom().contains(m));
                assert(g[m].dependents[i] == g2[m].dependents[i]);
            }
            assert(graph_wf_structure(self@));
        }
        Ok(PortHandle(port_id))
    }

    /// Get the name of a node.
    pub fn node_name(&self, node: NodeHandle) -> (r: Result<String, Error>)
        ensures
            self@.dom().contains(node.0) ==> (r matches Ok(s) && s@ == self@[node.0].name),
            !self@.dom().contains(node.0) ==> r == Result::<String, Error>::Err(
                Error::NodeDoesNotExist,
            ),
    {
        match self.nodes.get(&node.0) {
            Some(n) => Ok(label_str(&n.name).to_owned()),
            None => Err(Error::NodeDoesNotExist),
        }
    }

    /// Get the name of a port.
    pub fn port_name(&self, direction: Direction, node: NodeHandle, port: PortHandle) -> (r: Result<
        String,
        Error,
    >)
        requires
            graph_wf(self@),
        ensures
            !self@.dom().contains(node.0) ==> r == Result::<String, Error>::Err(
                Error::NodeDoesNotExist,
            ),
            self@.dom().contains(node.0) && !has_port(
                side_of(self@[node.0], direction),
                port.0,
            ) ==> r == Result::<String, Error>::Err(Error::PortDoesNotExist),
            self@.dom().contains(node.0) && has_port(side_of(self@[node.0], direction), port.0)
                ==> (r matches Ok(s) && s@ == side_of(self@[node.0], direction)[port_idx(
                side_of(self@[node.0], direction),
                port.0,
            )].name),
    {
        let n = match self.nodes.get(&node.0) {
            Some(n) => n,
            None => {
                return Err(Error::NodeDoesNotExist);
            },
        };
        let ports = match direction {
            Direction::Input => &n.inputs,
            Direction::Output => &n.outputs,
        };
        let ghost side = side_of(self@[node.0], direction);
        proof {
            assert(self@.dom().contains(node.0));
            assert(self@[node.0] == n@);
            assert(side == Seq::new(ports@.len(), |k: int| ports@[k]@));
            assert(ports_unique(side));
        }
        let mut i: usize = 0;
        while i < ports.len()
            invariant
                i <= ports@.len(),
                self@.dom().contains(node.0),
                side == side_of(self@[node.0], direction),
                side == Seq::new(ports@.len(), |k: int| ports@[k]@),
                ports_unique(side),
                forall|j: int| 0 <= j < i ==> side[j].id != port.0,
            decreases ports@.len() - i,
        {
            if ports[i].id == port.0 {
                proof {
                    assert(side[i as int].id == port.0);
                    assert(has_port(side, port.0));
                    let pi = port_idx(side, port.0);
                    assert(0 <= pi < side.len() && side[pi].id == port.0);
                    assert(pi == i as int);
                }
                return Ok(label_str(&ports[i].name).to_owned());
            }
            i = i + 1;
        }
        proof {
            assert(!has_port(side, port.0));
        }
        Err(Error::PortDoesNotExist)
    }

    /// List the input ports of a node, in creation order.
    pub fn list_inputs(&self, node: NodeHandle) -> (r: Result<Vec<PortHandle>, Error>)
        ensures
            !self@.dom().contains(node.0) ==> r == Result::<Vec<PortHandle>, Error>::Err(
                Error::NodeDoesNotExist,
            ),
            self@.dom().contains(node.0) ==> (r matches Ok(v) && v@.len()
                == self@[node.0].inputs.len() && (forall|i: int|
                0 <= i < v@.len() ==> v@[i].0 == self@[node.0].inputs[i].id)),
    {
        let n = match self.nodes.get(&node.0) {
            Some(n) => n,
            None => {
                return Err(Error::NodeDoesNotExist);
            },
        };
        let mut v: Vec<PortHandle> = Vec::new();
        let mut i: usize = 0;
        while i < n.inputs.len()
            invariant
                i <= n.inputs@.len(),
                v@.len() == i,
                forall|j: int| 0 <= j < i ==> v@[j].0 == n.inputs@[j]@.id,
            decreases n.inputs@.len() - i,
        {
            v.push(PortHandle(n.inputs[i].id));
            i = i + 1;
        }
        Ok(v)
    }

    /// List the output ports of a node, in creation order.
    pub fn list_outputs(&self, node: NodeHandle) -> (r: Result<Vec<PortHandle>, Error>)
        ensures
            !self@.dom().contains(node.0) ==> r == Result::<Vec<PortHandle>, Error>::Err(
                Error::NodeDoesNotExist,
            ),
            self@.dom().contains(node.0) ==> (r matches Ok(v) && v@.len()
                == self@[node.0].outputs.len() && (forall|i: int|
                0 <= i < v@.len() ==> v@[i].0 == self@[node.0].outputs[i].id)),
    {
        let n = match self.nodes.get(&node.0) {
            Some(n) => n,
            None => {
                return Err(Error::NodeDoesNotExist);
            },
        };
        let mut v: Vec<PortHandle> = Vec::new();
        let mut i: usize = 0;
        while i < n.outputs.len()
            invariant
                i <= n.outputs@.len(),
                v@.len() == i,
                forall|j: int| 0 <= j < i ==> v@[j].0 == n.outputs@[j]@.id,
            decreases n.outputs@.len() - i,
        {
            v.push(PortHandle(n.outputs[i].id));
            i = i + 1;
        }
        Ok(v)
    }
}

/// The port list of a node on one side.
pub open spec fn side_of(n: NodeView, direction: Direction) -> Seq<PortView> {
    match direction {
        Direction::Input => n.inputs,
        Direction::Output => n.outputs,
    }
}

/// A node with the port list on one side replaced.
pub open spec fn with_side(n: NodeView, direction: Direction, ports: Seq<PortView>) -> NodeView {
    match direction {
        Direction::Input => NodeView { inputs: ports, ..n },
        Direction::Output => NodeView { outputs: ports, ..n },
    }
}

/// Whether a port with identity `id` is in the list.
fn port_id_present(ports: &Vec<Port>, id: u64) -> (r: bool)
    ensures
        r == has_port(Seq::new(ports@.len(), |i: int| ports@[i]@), id),
{
    let ghost pseq = Seq::new(ports@.len(), |i: int| ports@[i]@);
    let mut i: usize = 0;
    while i < ports.len()
        invariant
            i <= ports@.len(),
            pseq == Seq::new(ports@.len(), |k: int| ports@[k]@),
            forall|j: int| 0 <= j < i ==> pseq[j].id != id,
        decreases ports@.len() - i,
    {
        if ports[i].id == id {
            proof {
                assert(pseq[i as int].id == id);
            }
            return true;
        }
        i = i + 1;
    }
    false
}


/// Appending a port with a fresh identity keeps port identities unique and
/// leaves lookups of the existing identities unchanged.
proof fn lemma_port_push_preserves(before: Seq<PortView>, after: Seq<PortView>, pv: PortView)
    requires
        after == before.push(pv),
        !has_port(before, pv.id),
        ports_unique(before),
    ensures
        ports_unique(after),
        forall|id: u64|
            #[trigger] has_port(before, id) ==> has_port(after, id) && after[port_idx(after, id)]
                == before[port_idx(before, id)],
{
    assert forall|id: u64| #[trigger] has_port(before, id) implies has_port(after, id)
        && after[port_idx(after, id)] == before[port_idx(before, id)] by {
        let i = port_idx(before, id);
        assert(0 <= i < before.len() && before[i].id == id);
        assert(after[i].id == id);
        assert(has_port(after, id));
        let j = port_idx(after, id);
        assert(0 <= j < after.len() && after[j].id == id);
        assert(id != pv.id);
        assert(j < before.len());
        assert(before[j].id == id);
        assert(j == i);
    }
}

/// A set is closed under dependencies: with a node it holds every source
/// feeding that node.
pub open spec fn dep_closed(g: Map<u64, NodeView>, s: Set<u64>) -> bool {
    forall|n: u64, i: int|
        s.contains(n) && g.dom().contains(n) && 0 <= i < g[n].deps.len() ==> s.contains(
            (#[trigger] g[n].deps[i]).node,
        )
}

/// `b` is an ancestor of `a` (or `a` itself): every dependency-closed set
/// holding `a` holds `b`. This is exactly reachability from `a` along
/// incoming edges.
pub open spec fn reaches_up(g: Map<u64, NodeView>, a: u64, b: u64) -> bool {
    forall|s: Set<u64>| #[trigger] dep_closed(g, s) && s.contains(a) ==> s.contains(b)
}

/// Reachability is reflexive.
pub proof fn lemma_reach_self(g: Map<u64, NodeView>, a: u64)
    ensures
        reaches_up(g, a, a),
{
}

/// A node reaches each of its dependency sources.
pub proof fn lemma_reach_one_step(g: Map<u64, NodeView>, a: u64, i: int)
    requires
        g.dom().contains(a),
        0 <= i < g[a].deps.len(),
    ensures
        reaches_up(g, a, g[a].deps[i].node),
{
    lemma_reach_self(g, a);
    lemma_reach_step(g, a, a, i);
}

/// Reachability steps across one dependency edge.
proof fn lemma_reach_step(g: Map<u64, NodeView>, a: u64, x: u64, i: int)
    requires
        reaches_up(g, a, x),
        g.dom().contains(x),
        0 <= i < g[x].deps.len(),
    ensures
        reaches_up(g, a, g[x].deps[i].node),
{
    let y = g[x].deps[i].node;
    assert forall|s: Set<u64>| #[trigger] dep_closed(g, s) && s.contains(a) implies s.contains(
        y,
    ) by {
        assert(s.contains(x));
        assert(s.contains(g[x].deps[i].node));
    }
}

/// The greatest rank any node of `s` has under `r`.
pub open spec fn max_rank(s: Seq<u64>, r: Map<u64, nat>) -> nat
    decreases s.len(),
{
    if s.len() == 0 {
        0
    } else if r[s.last()] > max_rank(s.drop_last(), r) {
        r[s.last()]
    } else {
        max_rank(s.drop_last(), r)
    }
}

proof fn lemma_max_rank(s: Seq<u64>, r: Map<u64, nat>)
    ensures
        forall|k: int| 0 <= k < s.len() ==> r[#[trigger] s[k]] <= max_rank(s, r),
    decreases s.len(),
{
    if s.len() > 0 {
        lemma_max_rank(s.drop_last(), r);
        assert forall|k: int| 0 <= k < s.len() implies r[#[trigger] s[k]] <= max_rank(s, r) by {
            if k < s.len() - 1 {
                assert(s.drop_last()[k] == s[k]);
            }
        }
    }
}

/// Whether a vector of identities holds `x`.
fn vec_contains_u64(v: &Vec<u64>, x: u64) -> (r: bool)
    ensures
        r == v@.contains(x),
{
    let mut i: usize = 0;
    while i < v.len()
        invariant
            i <= v@.len(),
            forall|j: int| 0 <= j < i ==> v@[j] != x,
        decreases v@.len() - i,
    {
        if v[i] == x {
            return true;
        }
        i = i + 1;
    }
    false
}

/// The position of edge `e` in `v`, if present.
fn find_edge(v: &Vec<Edge>, e: Edge) -> (r: Option<usize>)
    ensures
        r matches Some(i) ==> i < v@.len() && v@[i as int] == e,
        r is None ==> !v@.contains(e),
{
    let mut i: usize = 0;
    while i < v.len()
        invariant
            i <= v@.len(),
            forall|j: int| 0 <= j < i ==> v@[j] != e,
        decreases v@.len() - i,
    {
        if v[i].node == e.node && v[i].remote_port == e.remote_port && v[i].local_port
            == e.local_port {
            return Some(i);
        }
        i = i + 1;
    }
    None
}

/// `s` with every occurrence of `e` removed, order preserved.
pub open spec fn without_edge(s: Seq<Edge>, e: Edge) -> Seq<Edge>
    decreases s.len(),
{
    if s.len() == 0 {
        Seq::empty()
    } else {
        let rest = without_edge(s.drop_last(), e);
        if s.last() == e {
            rest
        } else {
            rest.push(s.last())
        }
    }
}

proof fn lemma_without_edge_members(s: Seq<Edge>, e: Edge)
    ensures
        forall|x: Edge| #[trigger] without_edge(s, e).contains(x) ==> s.contains(x) && x != e,
        forall|x: Edge| x != e && #[trigger] s.contains(x) ==> without_edge(s, e).contains(x),
        edges_unique(s) ==> edges_unique(without_edge(s, e)),
    decreases s.len(),
{
    if s.len() > 0 {
        lemma_without_edge_members(s.drop_last(), e);
        let rest = without_edge(s.drop_last(), e);
        assert forall|x: Edge| #[trigger] without_edge(s, e).contains(x) implies s.contains(x) && x
            != e by {
            if s.last() != e && x == s.last() {
                assert(s.contains(s.last()));
            } else {
                assert(rest.contains(x));
                assert(s.drop_last().contains(x));
                let j = choose|j: int| 0 <= j < s.drop_last().len() && s.drop_last()[j] == x;
                assert(s[j] == x);
            }
        }
        assert forall|x: Edge| x != e && #[trigger] s.contains(x) implies without_edge(
            s,
            e,
        ).contains(x) by {
            let j = choose|j: int| 0 <= j < s.len() && s[j] == x;
            if j == s.len() - 1 {
                assert(without_edge(s, e).last() == x);
            } else {
                assert(s.drop_last()[j] == x);
                assert(s.drop_last().contains(x));
                assert(rest.contains(x));
                if s.last() == e {
                } else {
                    let k = choose|k: int| 0 <= k < rest.len() && rest[k] == x;
                    assert(without_edge(s, e)[k] == x);
                }
            }
        }
        if edges_unique(s) {
            assert forall|i: int, j: int|
                0 <= i < s.drop_last().len() && 0 <= j < s.drop_last().len() && i != j implies s
                .drop_last()[i] != s.drop_last()[j] by {
                assert(s[i] == s.drop_last()[i] && s[j] == s.drop_last()[j]);
            }
            if s.last() != e {
                assert forall|i: int, j: int|
                    0 <= i < without_edge(s, e).len() && 0 <= j < without_edge(s, e).len() && i
                        != j implies without_edge(s, e)[i] != without_edge(s, e)[j] by {
                    if i < rest.len() && j < rest.len() {
                    } else if i < rest.len() {
                        assert(without_edge(s, e)[j] == s.last());
                        assert(rest.contains(rest[i]));
                        assert(s.drop_last().contains(rest[i]));
                        let k = choose|k: int|
                            0 <= k < s.drop_last().len() && s.drop_last()[k] == rest[i];
                        assert(s[k] == rest[i]);
                        assert(s[k] != s[s.len() - 1]);
                    } else {
                        assert(without_edge(s, e)[i] == s.last());
                        assert(rest.contains(rest[j]));
                        assert(s.drop_last().contains(rest[j]));
                        let k = choose|k: int|
                            0 <= k < s.drop_last().len() && s.drop_last()[k] == rest[j];
                        assert(s[k] == rest[j]);
                        assert(s[k] != s[s.len() - 1]);
                    }
                }
            }
        }
    }
}

/// Removing a uniquely occurring edge by index yields the same sequence as
/// filtering it out.
proof fn lemma_remove_is_without(s: Seq<Edge>, e: Edge, idx: int)
    requires
        edges_unique(s),
        0 <= idx < s.len(),
        s[idx] == e,
    ensures
        s.remove(idx) == without_edge(s, e),
    decreases s.len(),
{
    if idx == s.len() - 1 {
        assert(s.last() == e);
        assert forall|x: Edge| #[trigger] s.drop_last().contains(x) implies x != e by {
            let j = choose|j: int| 0 <= j < s.drop_last().len() && s.drop_last()[j] == x;
            assert(s[j] == x);
            assert(s[j] != s[idx]);
        }
        lemma_without_identity(s.drop_last(), e);
        assert(s.remove(idx) =~= s.drop_last());
    } else {
        assert forall|i: int, j: int|
            0 <= i < s.drop_last().len() && 0 <= j < s.drop_last().len() && i != j implies s
            .drop_last()[i] != s.drop_last()[j] by {
            assert(s[i] == s.drop_last()[i] && s[j] == s.drop_last()[j]);
        }
        assert(s.drop_last()[idx] == e);
        lemma_remove_is_without(s.drop_last(), e, idx);
        assert(s.last() != e) by {
            assert(s[idx] != s[s.len() - 1]);
        }
        assert(s.remove(idx) =~= s.drop_last().remove(idx).push(s.last()));
    }
}

/// Filtering an absent edge changes nothing.
proof fn lemma_without_identity(s: Seq<Edge>, e: Edge)
    requires
        forall|x: Edge| #[trigger] s.contains(x) ==> x != e,
    ensures
        without_edge(s, e) == s,
    decreases s.len(),
{
    if s.len() > 0 {
        assert(s.contains(s.last()));
        assert forall|x: Edge| #[trigger] s.drop_last().contains(x) implies x != e by {
            let j = choose|j: int| 0 <= j < s.drop_last().len() && s.drop_last()[j] == x;
            assert(s[j] == x);
            assert(s.contains(x));
        }
        lemma_without_identity(s.drop_last(), e);
        assert(without_edge(s, e) =~= s);
    }
}

/// Whether the edge from output `sp` of node `sn` to input `dp` of node
/// `dn` is present.
pub open spec fn conn_exists(g: Map<u64, NodeView>, sn: u64, sp: u64, dn: u64, dp: u64) -> bool {
    g[dn].deps.contains(Edge { node: sn, remote_port: sp, local_port: dp })
}

/// Whether both ports of a prospective connection exist.
pub open spec fn conn_ports_ok(g: Map<u64, NodeView>, sn: u64, sp: u64, dn: u64, dp: u64) -> bool {
    has_port(g[sn].outputs, sp) && has_port(g[dn].inputs, dp)
}

/// Whether the two port configurations match.
pub open spec fn conn_cfg_ok(g: Map<u64, NodeView>, sn: u64, sp: u64, dn: u64, dp: u64) -> bool {
    let op = g[sn].outputs[port_idx(g[sn].outputs, sp)];
    let ip = g[dn].inputs[port_idx(g[dn].inputs, dp)];
    op.count == ip.count && op.tag == ip.tag
}

/// Whether connecting `sn` to `dn` would close a directed cycle: the
/// destination is already an ancestor of the source, or they coincide.
pub open spec fn would_cycle(g: Map<u64, NodeView>, sn: u64, dn: u64) -> bool {
    sn == dn || reaches_up(g, sn, dn)
}

impl Graph {
    /// Every node from which `start` is reachable along dependency edges
    /// (the ancestors of `start`, including itself).
    fn ancestors(&self, start: u64) -> (r: Vec<u64>)
        requires
            graph_wf_structure(self@),
            self@.dom().contains(start),
        ensures
            forall|v: u64| #[trigger] r@.contains(v) <==> reaches_up(self@, start, v),
    {
        let ghost g = self@;
        let mut visited: Vec<u64> = Vec::new();
        let mut stack: Vec<u64> = Vec::new();
        stack.push(start);
        proof {
            lemma_reach_self(g, start);
            assert(g.dom() =~= self.nodes@.dom());
            assert(g.dom().finite());
            assert(stack@[0] == start);
        }
        while stack.len() != 0
            invariant
                g == self@,
                graph_wf_structure(g),
                g.dom().contains(start),
                g.dom().finite(),
                forall|k: int|
                    0 <= k < stack@.len() ==> g.dom().contains(#[trigger] stack@[k]) && reaches_up(
                        g,
                        start,
                        stack@[k],
                    ),
                forall|k: int|
                    0 <= k < visited@.len() ==> g.dom().contains(#[trigger] visited@[k])
                        && reaches_up(g, start, visited@[k]),
                visited@.no_duplicates(),
                visited@.contains(start) || stack@.contains(start),
                forall|k: int, i: int|
                    0 <= k < visited@.len() && 0 <= i < g[visited@[k]].deps.len() ==> {
                        let y = (#[trigger] g[visited@[k]].deps[i]).node;
                        visited@.contains(y) || stack@.contains(y)
                    },
            decreases g.dom().len() - visited@.to_set().len(), stack@.len(),
        {
            proof {
                visited@.unique_seq_to_set();
                assert(visited@.to_set().subset_of(g.dom())) by {
                    assert forall|v: u64| #[trigger] visited@.to_set().contains(v) implies g.dom()
                        .contains(v) by {
                        let k = choose|k: int| 0 <= k < visited@.len() && visited@[k] == v;
                        assert(g.dom().contains(visited@[k]));
                    }
                }
                vstd::set_lib::lemma_len_subset(visited@.to_set(), g.dom());
            }
            let ghost prev_stack = stack@;
            let ghost prev_visited = visited@;
            let x: u64 = match stack.pop() {
                Some(x) => x,
                None => {
                    proof {
                        assert(false);
                    }
                    0
                },
            };
            proof {
                assert(prev_stack == stack@.push(x));
                assert(prev_stack[prev_stack.len() - 1] == x);
            }
            if !vec_contains_u64(&visited, x) {
                visited.push(x);
                proof {
                    assert(visited@.last() == x);
                    assert(visited@.contains(x));
                    assert(forall|k: int|
                        0 <= k < prev_visited.len() ==> visited@[k] == prev_visited[k]);
                    if !visited@.contains(start) {
                        let p = choose|p: int| 0 <= p < prev_stack.len() && prev_stack[p] == start;
                        if p == prev_stack.len() - 1 {
                            assert(x == start);
                            assert(false);
                        } else {
                            assert(stack@[p] == start);
                        }
                    }
                    assert forall|k: int, j: int|
                        0 <= k < visited@.len() && visited@[k] != x && 0 <= j < g[visited@[k]].deps.len()
                            implies {
                        let y = (#[trigger] g[visited@[k]].deps[j]).node;
                        visited@.contains(y) || stack@.contains(y)
                    } by {
                        let y = g[visited@[k]].deps[j].node;
                        assert(k < prev_visited.len() && prev_visited[k] == visited@[k]);
                        assert(g[prev_visited[k]].deps[j].node == y);
                        assert(prev_visited.contains(y) || prev_stack.contains(y));
                        if prev_visited.contains(y) {
                            let q = choose|q: int|
                                0 <= q < prev_visited.len() && prev_visited[q] == y;
                            assert(visited@[q] == y);
                        } else {
                            let p = choose|p: int| 0 <= p < prev_stack.len() && prev_stack[p] == y;
                            if p == prev_stack.len() - 1 {
                                assert(y == x);
                            } else {
                                assert(stack@[p] == y);
                            }
                        }
                    }
                }
                let n = match self.nodes.get(&x) {
                    Some(n) => n,
                    None => {
                        proof {
                            assert(g.dom().contains(x));
                            assert(false);
                        }
                        return Vec::new();
                    },
                };
                proof {
                    assert(g[x] == n@);
                }
                let mut i: usize = 0;
                while i < n.dependencies.len()
                    invariant
                        g == self@,
                        graph_wf_structure(g),
                        g.dom().contains(x),
                        g[x] == n@,
                        i <= n.dependencies@.len(),
                        g[x].deps == n.dependencies@,
                        reaches_up(g, start, x),
                        g.dom().contains(start),
                        g.dom().finite(),
                        visited@ == prev_visited.push(x),
                        visited@.no_duplicates(),
                        visited@.contains(start) || stack@.contains(start),
                        forall|k: int|
                            0 <= k < stack@.len() ==> g.dom().contains(#[trigger] stack@[k])
                                && reaches_up(g, start, stack@[k]),
                        forall|k: int|
                            0 <= k < visited@.len() ==> g.dom().contains(#[trigger] visited@[k])
                                && reaches_up(g, start, visited@[k]),
                        forall|k: int, j: int|
                            0 <= k < visited@.len() && visited@[k] != x && 0 <= j < g[visited@[k]].deps.len()
                                ==> {
                                let y = (#[trigger] g[visited@[k]].deps[j]).node;
                                visited@.contains(y) || stack@.contains(y)
                            },
                        forall|j: int|
                            0 <= j < i ==> {
                                let y = (#[trigger] g[x].deps[j]).node;
                                visited@.contains(y) || stack@.contains(y)
                            },
                    decreases n.dependencies@.len() - i,
                {
                    let ghost mid_stack = stack@;
                    stack.push(n.dependencies[i].node);
                    proof {
                        lemma_reach_step(g, start, x, i as int);
                        assert(g.dom().contains(g[x].deps[i as int].node));
                        assert(stack@ == mid_stack.push(g[x].deps[i as int].node));
                        if mid_stack.contains(start) {
                            let p = choose|p: int| 0 <= p < mid_stack.len() && mid_stack[p] == start;
                            assert(stack@[p] == start);
                        }
                        assert forall|k: int, j: int|
                            0 <= k < visited@.len() && visited@[k] != x && 0 <= j < g[visited@[k]].deps.len()
                                implies {
                            let y = (#[trigger] g[visited@[k]].deps[j]).node;
                            visited@.contains(y) || stack@.contains(y)
                        } by {
                            let y = g[visited@[k]].deps[j].node;
                            if mid_stack.contains(y) {
                                let p = choose|p: int| 0 <= p < mid_stack.len() && mid_stack[p] == y;
                                assert(stack@[p] == y);
                            }
                        }
                        assert forall|j: int| 0 <= j < i + 1 implies {
                            let y = (#[trigger] g[x].deps[j]).node;
                            visited@.contains(y) || stack@.contains(y)
                        } by {
                            let y = g[x].deps[j].node;
                            if j < i {
                                if mid_stack.contains(y) {
                                    let p = choose|p: int|
                                        0 <= p < mid_stack.len() && mid_stack[p] == y;
                                    assert(stack@[p] == y);
                                }
                            } else {
                                assert(stack@.last() == y);
                            }
                        }
                    }
                    i = i + 1;
                }
                proof {
                    assert forall|k: int, j: int|
                        0 <= k < visited@.len() && 0 <= j < g[visited@[k]].deps.len() implies {
                        let y = (#[trigger] g[visited@[k]].deps[j]).node;
                        visited@.contains(y) || stack@.contains(y)
                    } by {
                        if visited@[k] == x {
                            assert(g[x].deps[j].node == g[visited@[k]].deps[j].node);
                        }
                    }
                    visited@.unique_seq_to_set();
                    prev_visited.unique_seq_to_set();
                    assert(visited@.to_set() =~= prev_visited.to_set().insert(x));
                    assert(visited@.to_set().subset_of(g.dom())) by {
                        assert forall|v: u64| #[trigger] visited@.to_set().contains(v) implies g
                            .dom().contains(v) by {
                            let k = choose|k: int| 0 <= k < visited@.len() && visited@[k] == v;
                            assert(g.dom().contains(visited@[k]));
                        }
                    }
                    vstd::set_lib::lemma_len_subset(visited@.to_set(), g.dom());
                }
            } else {
                proof {
                    assert forall|k: int, j: int|
                        0 <= k < visited@.len() && 0 <= j < g[visited@[k]].deps.len() implies {
                        let y = (#[trigger] g[visited@[k]].deps[j]).node;
                        visited@.contains(y) || stack@.contains(y)
                    } by {
                        let y = g[visited@[k]].deps[j].node;
                        if prev_stack.contains(y) {
                            let p = choose|p: int| 0 <= p < prev_stack.len() && prev_stack[p] == y;
                            if p == prev_stack.len() - 1 {
                                assert(y == x);
                                assert(visited@.contains(x));
                            } else {
                                assert(stack@[p] == y);
                            }
                        }
                    }
                    if !visited@.contains(start) {
                        let p = choose|p: int| 0 <= p < prev_stack.len() && prev_stack[p] == start;
                        if p == prev_stack.len() - 1 {
                            assert(visited@.contains(x));
                            assert(false);
                        } else {
                            assert(stack@[p] == start);
                        }
                    }
                }
            }
        }
        proof {
            assert forall|v: u64| #[trigger] visited@.contains(v) implies reaches_up(
                g,
                start,
                v,
            ) by {
                let k = choose|k: int| 0 <= k < visited@.len() && visited@[k] == v;
                assert(reaches_up(g, start, visited@[k]));
            }
            assert(dep_closed(g, visited@.to_set())) by {
                assert forall|n: u64, i: int|
                    visited@.to_set().contains(n) && g.dom().contains(n) && 0 <= i
                        < g[n].deps.len() implies visited@.to_set().contains(
                    (#[trigger] g[n].deps[i]).node,
                ) by {
                    let k = choose|k: int| 0 <= k < visited@.len() && visited@[k] == n;
                    assert(g[visited@[k]].deps[i] == g[n].deps[i]);
                    assert(visited@.contains(g[visited@[k]].deps[i].node) || stack@.contains(
                        g[visited@[k]].deps[i].node,
                    ));
                }
            }
            assert forall|v: u64| reaches_up(g, start, v) implies #[trigger] visited@.contains(
                v,
            ) by {
                assert(dep_closed(g, visited@.to_set()) && visited@.to_set().contains(start));
            }
        }
        visited
    }

    /// Connect a source node and output port to a destination node and
    /// input port. Fails when a node or port does not exist, when the port
    /// configurations do not match, when the connection is a self loop or
    /// would create a cycle, or when it already exists; a failed attempt
    /// leaves the graph untouched. A successful connection keeps the graph
    /// acyclic.
    pub fn connect(&mut self, src: (NodeHandle, PortHandle), dst: (NodeHandle, PortHandle)) -> (r:
        Result<(), Error>)
        requires
            graph_wf(old(self)@),
        ensures
            graph_wf(final(self)@),
            r is Err ==> *final(self) == *old(self),
            ({
                let g = old(self)@;
                let sn = src.0.0;
                let sp = src.1.0;
                let dn = dst.0.0;
                let dp = dst.1.0;
                if !g.dom().contains(sn) || !g.dom().contains(dn) {
                    r == Result::<(), Error>::Err(Error::NodeDoesNotExist)
                } else if !conn_ports_ok(g, sn, sp, dn, dp) {
                    r == Result::<(), Error>::Err(Error::PortDoesNotExist)
                } else if !conn_cfg_ok(g, sn, sp, dn, dp) {
                    r == Result::<(), Error>::Err(Error::PortConfigError)
                } else if would_cycle(g, sn, dn) {
                    r == Result::<(), Error>::Err(Error::InvalidConnection)
                } else if conn_exists(g, sn, sp, dn, dp) {
                    r == Result::<(), Error>::Err(Error::ConnectionAlreadyExists)
                } else {
                    r == Result::<(), Error>::Ok(()) && final(self)@ == g.insert(
                        dn,
                        NodeView {
                            deps: g[dn].deps.push(
                                Edge { node: sn, remote_port: sp, local_port: dp },
                            ),
                            ..g[dn]
                        },
                    ).insert(
                        sn,
                        NodeView {
                            dependents: g[sn].dependents.push(
                                Edge { node: dn, remote_port: dp, local_port: sp },
                            ),
                            ..g[sn]
                        },
                    )
                }
            }),
    {
        let ghost g = old(self)@;
        let (src_node, src_port) = src;
        let (dst_node, dst_port) = dst;
        self.connection_check(src, dst)?;
        if src_node.0 == dst_node.0 {
            return Err(Error::InvalidConnection);
        }
        let anc = self.ancestors(src_node.0);
        if vec_contains_u64(&anc, dst_node.0) {
            return Err(Error::InvalidConnection);
        }
        let edge = Edge { node: src_node.0, remote_port: src_port.0, local_port: dst_port.0 };
        let mirror = Edge { node: dst_node.0, remote_port: dst_port.0, local_port: src_port.0 };
        let duplicate = match self.nodes.get(&dst_node.0) {
            Some(n) => find_edge(&n.dependencies, edge).is_some(),
            None => false,
        };
        if duplicate {
            return Err(Error::ConnectionAlreadyExists);
        }
        let mut dnod = match self.nodes.remove(&dst_node.0) {
            Some(n) => n,
            None => {
                proof {
                    assert(false);
                }
                return Err(Error::NodeDoesNotExist);
            },
        };
        dnod.dependencies.push(edge);
        let _ = self.nodes.insert(dst_node.0, dnod);
        let mut snod = match self.nodes.remove(&src_node.0) {
            Some(n) => n,
            None => {
                proof {
                    assert(false);
                }
                return Err(Error::NodeDoesNotExist);
            },
        };
        snod.dependents.push(mirror);
        let _ = self.nodes.insert(src_node.0, snod);
        proof {
            let sn = src_node.0;
            let sp = src_port.0;
            let dn = dst_node.0;
            let dp = dst_port.0;
            let g2 = self@;
            let dnv = NodeView { deps: g[dn].deps.push(edge), ..g[dn] };
            let snv = NodeView { dependents: g[sn].dependents.push(mirror), ..g[sn] };
            assert(g2[dn].inputs =~= dnv.inputs);
            assert(g2[dn].outputs =~= dnv.outputs);
            assert(g2[sn].inputs =~= snv.inputs);
            assert(g2[sn].outputs =~= snv.outputs);
            assert(g2 =~= g.insert(dn, dnv).insert(sn, snv));
            lemma_connect_wf(g, g2, sn, sp, dn, dp);
            let aset = Set::new(|v: u64| anc@.contains(v));
            assert(aset.contains(sn)) by {
                lemma_reach_self(g, sn);
            }
            assert(!aset.contains(dn));
            assert(dep_closed(g, aset)) by {
                assert forall|n: u64, i: int|
                    aset.contains(n) && g.dom().contains(n) && 0 <= i < g[n].deps.len() implies
                    aset.contains((#[trigger] g[n].deps[i]).node) by {
                    lemma_reach_step(g, sn, n, i);
                }
            }
            let r0 = choose|r0: Map<u64, nat>| rank_ok(g, r0);
            lemma_max_rank(anc@, r0);
            let kk = (max_rank(anc@, r0) + 1) as nat;
            let r1 = Map::<u64, nat>::total(
                |k: u64|
                    if aset.contains(k) {
                        r0[k]
                    } else {
                        (r0[k] + kk) as nat
                    },
            );
            assert forall|n: u64, i: int|
                g2.dom().contains(n) && 0 <= i < g2[n].deps.len() implies r1[(#[trigger] g2[n].deps[i]).node]
                < r1[n] by {
                let e = g2[n].deps[i];
                if n == dn && i == g[dn].deps.len() {
                    assert(e == edge);
                    assert(anc@.contains(sn));
                    let k = choose|k: int| 0 <= k < anc@.len() && anc@[k] == sn;
                    assert(r0[anc@[k]] <= max_rank(anc@, r0));
                    assert(r1[sn] == r0[sn]);
                    assert(r1[dn] == r0[dn] + kk);
                } else {
                    assert(g.dom().contains(n));
                    assert(g[n].deps[i] == e);
                    assert(r0[e.node] < r0[n]);
                    if aset.contains(n) {
                        assert(aset.contains(e.node));
                        assert(r1[n] == r0[n] && r1[e.node] == r0[e.node]);
                    } else {
                        assert(r1[n] == r0[n] + kk);
                        if aset.contains(e.node) {
                            assert(r1[e.node] == r0[e.node]);
                        } else {
                            assert(r1[e.node] == r0[e.node] + kk);
                        }
                    }
                }
            }
            assert(rank_ok(g2, r1));
        }
        Ok(())
    }

    /// Check that both endpoints of a connection exist: the nodes and
    /// their named ports. Configurations are not compared; an edge can
    /// only ever join matching ports, so a lookup that follows this check
    /// reports a missing edge as `ConnectionDoesNotExist`.
    fn endpoint_check(&self, src: (NodeHandle, PortHandle), dst: (NodeHandle, PortHandle)) -> (r:
        Result<(), Error>)
        requires
            graph_wf_structure(self@),
        ensures
            ({
                let g = self@;
                let sn = src.0.0;
                let sp = src.1.0;
                let dn = dst.0.0;
                let dp = dst.1.0;
                if !g.dom().contains(sn) || !g.dom().contains(dn) {
                    r == Result::<(), Error>::Err(Error::NodeDoesNotExist)
                } else if !conn_ports_ok(g, sn, sp, dn, dp) {
                    r == Result::<(), Error>::Err(Error::PortDoesNotExist)
                } else {
                    r == Result::<(), Error>::Ok(())
                }
            }),
    {
        let ghost g = self@;
        let sn = match self.nodes.get(&src.0.0) {
            Some(n) => n,
            None => {
                return Err(Error::NodeDoesNotExist);
            },
        };
        let dn = match self.nodes.get(&dst.0.0) {
            Some(n) => n,
            None => {
                return Err(Error::NodeDoesNotExist);
            },
        };
        proof {
            assert(g[src.0.0] == sn@);
            assert(g[dst.0.0] == dn@);
        }
        if port_lookup(&sn.outputs, src.1.0).is_none() {
            return Err(Error::PortDoesNotExist);
        }
        if port_lookup(&dn.inputs, dst.1.0).is_none() {
            return Err(Error::PortDoesNotExist);
        }
        Ok(())
    }

    /// Check that both endpoints of a prospective connection exist and
    /// that their configurations agree.
    fn connection_check(&self, src: (NodeHandle, PortHandle), dst: (NodeHandle, PortHandle)) -> (r:
        Result<(), Error>)
        requires
            graph_wf_structure(self@),
        ensures
            ({
                let g = self@;
                let sn = src.0.0;
                let sp = src.1.0;
                let dn = dst.0.0;
                let dp = dst.1.0;
                if !g.dom().contains(sn) || !g.dom().contains(dn) {
                    r == Result::<(), Error>::Err(Error::NodeDoesNotExist)
                } else if !conn_ports_ok(g, sn, sp, dn, dp) {
                    r == Result::<(), Error>::Err(Error::PortDoesNotExist)
                } else if !conn_cfg_ok(g, sn, sp, dn, dp) {
                    r == Result::<(), Error>::Err(Error::PortConfigError)
                } else {
                    r == Result::<(), Error>::Ok(())
                }
            }),
    {
        let ghost g = self@;
        let sn = match self.nodes.get(&src.0.0) {
            Some(n) => n,
            None => {
                return Err(Error::NodeDoesNotExist);
            },
        };
        let dn = match self.nodes.get(&dst.0.0) {
            Some(n) => n,
            None => {
                return Err(Error::NodeDoesNotExist);
            },
        };
        proof {
            assert(g[src.0.0] == sn@);
            assert(g[dst.0.0] == dn@);
        }
        let sp = match port_lookup(&sn.outputs, src.1.0) {
            Some(i) => i,
            None => {
                return Err(Error::PortDoesNotExist);
            },
        };
        let dp = match port_lookup(&dn.inputs, dst.1.0) {
            Some(i) => i,
            None => {
                return Err(Error::PortDoesNotExist);
            },
        };
        proof {
            assert(g.dom().contains(src.0.0));
            assert(g.dom().contains(dst.0.0));
            assert(ports_unique(g[src.0.0].outputs));
            assert(ports_unique(g[dst.0.0].inputs));
            assert(port_idx(g[src.0.0].outputs, src.1.0) == sp as int);
            assert(port_idx(g[dst.0.0].inputs, dst.1.0) == dp as int);
        }
        let matches_cfg = {
            let oc = &sn.outputs[sp].config;
            let ic = &dn.inputs[dp].config;
            oc == ic
        };
        if !matches_cfg {
            return Err(Error::PortConfigError);
        }
        Ok(())
    }

    /// Disconnect a source node and port from a destination node and port.
    /// Fails when a node or port does not exist, when the configurations
    /// do not match, or when the connection does not exist.
    pub fn disconnect(&mut self, src: (NodeHandle, PortHandle), dst: (NodeHandle, PortHandle)) -> (
        r: Result<(), Error>)
        requires
            graph_wf(old(self)@),
        ensures
            graph_wf(final(self)@),
            r is Err ==> *final(self) == *old(self),
            ({
                let g = old(self)@;
                let sn = src.0.0;
                let sp = src.1.0;
                let dn = dst.0.0;
                let dp = dst.1.0;
                if !g.dom().contains(sn) || !g.dom().contains(dn) {
                    r == Result::<(), Error>::Err(Error::NodeDoesNotExist)
                } else if !conn_ports_ok(g, sn, sp, dn, dp) {
                    r == Result::<(), Error>::Err(Error::PortDoesNotExist)
                } else if !conn_exists(g, sn, sp, dn, dp) {
                    r == Result::<(), Error>::Err(Error::ConnectionDoesNotExist)
                } else {
                    r == Result::<(), Error>::Ok(()) && final(self)@ == g.insert(
                        dn,
                        NodeView {
                            deps: without_edge(
                                g[dn].deps,
                                Edge { node: sn, remote_port: sp, local_port: dp },
                            ),
                            ..g[dn]
                        },
                    ).insert(
                        sn,
                        NodeView {
                            dependents: without_edge(
                                g[sn].dependents,
                                Edge { node: dn, remote_port: dp, local_port: sp },
                            ),
                            ..g[sn]
                        },
                    )
                }
            }),
    {
        let ghost g = old(self)@;
        let (src_node, src_port) = src;
        let (dst_node, dst_port) = dst;
        self.endpoint_check(src, dst)?;
        let edge = Edge { node: src_node.0, remote_port: src_port.0, local_port: dst_port.0 };
        let mirror = Edge { node: dst_node.0, remote_port: dst_port.0, local_port: src_port.0 };
        let found = match self.nodes.get(&dst_node.0) {
            Some(n) => find_edge(&n.dependencies, edge),
            None => None,
        };
        let didx = match found {
            Some(i) => i,
            None => {
                return Err(Error::ConnectionDoesNotExist);
            },
        };
        let mut dnod = match self.nodes.remove(&dst_node.0) {
            Some(n) => n,
            None => {
                proof {
                    assert(false);
                }
                return Err(Error::NodeDoesNotExist);
            },
        };
        let _removed = dnod.dependencies.remove(didx);
        let _ = self.nodes.insert(dst_node.0, dnod);
        let sn_is_dn = src_node.0 == dst_node.0;
        let mut snod = match self.nodes.remove(&src_node.0) {
            Some(n) => n,
            None => {
                proof {
                    let i = choose|i: int| 0 <= i < g[dst_node.0].deps.len() && g[dst_node.0].deps[i] == edge;
                    assert(g.dom().contains(edge.node));
                    assert(!sn_is_dn ==> self.nodes@.dom().contains(src_node.0));
                    assert(sn_is_dn ==> false) by {
                        if sn_is_dn {
                            let r0 = choose|r0: Map<u64, nat>| rank_ok(g, r0);
                            assert(r0[edge.node] < r0[dst_node.0]);
                        }
                    }
                    assert(false);
                }
                return Err(Error::NodeDoesNotExist);
            },
        };
        let midx = match find_edge(&snod.dependents, mirror) {
            Some(i) => i,
            None => {
                proof {
                    let i = choose|i: int| 0 <= i < g[dst_node.0].deps.len() && g[dst_node.0].deps[i] == edge;
                    assert(mirror_of(dst_node.0, edge) == mirror);
                    assert(g[src_node.0].dependents.contains(mirror));
                    assert(false);
                }
                let _ = self.nodes.insert(src_node.0, snod);
                return Err(Error::ConnectionDoesNotExist);
            },
        };
        let _removed2 = snod.dependents.remove(midx);
        let _ = self.nodes.insert(src_node.0, snod);
        proof {
            let sn = src_node.0;
            let sp = src_port.0;
            let dn = dst_node.0;
            let dp = dst_port.0;
            let g2 = self@;
            assert(edges_unique(g[dn].deps) && edges_unique(g[sn].dependents));
            lemma_remove_is_without(g[dn].deps, edge, didx as int);
            lemma_remove_is_without(g[sn].dependents, mirror, midx as int);
            let dnv = NodeView { deps: without_edge(g[dn].deps, edge), ..g[dn] };
            let snv = NodeView { dependents: without_edge(g[sn].dependents, mirror), ..g[sn] };
            assert(g2[dn].inputs =~= dnv.inputs);
            assert(g2[dn].outputs =~= dnv.outputs);
            assert(g2[sn].inputs =~= snv.inputs);
            assert(g2[sn].outputs =~= snv.outputs);
            assert(g2 =~= g.insert(dn, dnv).insert(sn, snv));
            lemma_disconnect_wf(g, g2, sn, sp, dn, dp);
        }
        Ok(())
    }
}

/// The position of the port with identity `id` in a port list.
fn port_lookup(ports: &Vec<Port>, id: u64) -> (r: Option<usize>)
    ensures
        r matches Some(i) ==> i < ports@.len() && Seq::new(
            ports@.len(),
            |k: int| ports@[k]@,
        )[i as int].id == id,
        r is None ==> !has_port(Seq::new(ports@.len(), |k: int| ports@[k]@), id),
        r is Some ==> has_port(Seq::new(ports@.len(), |k: int| ports@[k]@), id),
{
    let ghost pseq = Seq::new(ports@.len(), |k: int| ports@[k]@);
    let mut i: usize = 0;
    while i < ports.len()
        invariant
            i <= ports@.len(),
            pseq == Seq::new(ports@.len(), |k: int| ports@[k]@),
            forall|j: int| 0 <= j < i ==> pseq[j].id != id,
        decreases ports@.len() - i,
    {
        if ports[i].id == id {
            proof {
                assert(pseq[i as int].id == id);
            }
            return Some(i);
        }
        i = i + 1;
    }
    None
}

/// Adding a properly checked edge preserves structural well-formedness.
proof fn lemma_connect_wf(
    g: Map<u64, NodeView>,
    g2: Map<u64, NodeView>,
    sn: u64,
    sp: u64,
    dn: u64,
    dp: u64,
)
    requires
        graph_wf_structure(g),
        g.dom().contains(sn),
        g.dom().contains(dn),
        sn != dn,
        conn_ports_ok(g, sn, sp, dn, dp),
        conn_cfg_ok(g, sn, sp, dn, dp),
        !conn_exists(g, sn, sp, dn, dp),
        g2 == g.insert(
            dn,
            NodeView { deps: g[dn].deps.push(Edge { node: sn, remote_port: sp, local_port: dp }), ..g[dn] },
        ).insert(
            sn,
            NodeView {
                dependents: g[sn].dependents.push(
                    Edge { node: dn, remote_port: dp, local_port: sp },
                ),
                ..g[sn]
            },
        ),
    ensures
        graph_wf_structure(g2),
{
    let edge = Edge { node: sn, remote_port: sp, local_port: dp };
    let mirror = Edge { node: dn, remote_port: dp, local_port: sp };
    assert(!g[sn].dependents.contains(mirror)) by {
        if g[sn].dependents.contains(mirror) {
            let i = choose|i: int| 0 <= i < g[sn].dependents.len() && g[sn].dependents[i] == mirror;
            assert(g[sn].dependents[i] == mirror);
            assert(g[mirror.node].deps.contains(mirror_of(sn, mirror)));
            assert(mirror_of(sn, mirror) == edge);
        }
    }
    assert forall|n: u64| #[trigger] g2.dom().contains(n) implies ports_unique(g2[n].inputs)
        && ports_unique(g2[n].outputs) && edges_unique(g2[n].deps) && edges_unique(
        g2[n].dependents,
    ) by {
        assert(g.dom().contains(n));
        if n == dn {
            assert forall|i: int, j: int|
                0 <= i < g2[dn].deps.len() && 0 <= j < g2[dn].deps.len() && i != j implies g2[dn].deps[i]
                != g2[dn].deps[j] by {
                if i < g[dn].deps.len() && j < g[dn].deps.len() {
                } else if i < g[dn].deps.len() {
                    assert(g2[dn].deps[j] == edge);
                    assert(g[dn].deps.contains(g[dn].deps[i]));
                } else {
                    assert(g2[dn].deps[i] == edge);
                    assert(g[dn].deps.contains(g[dn].deps[j]));
                }
            }
        } else if n == sn {
            assert forall|i: int, j: int|
                0 <= i < g2[sn].dependents.len() && 0 <= j < g2[sn].dependents.len() && i != j implies
                g2[sn].dependents[i] != g2[sn].dependents[j] by {
                if i < g[sn].dependents.len() && j < g[sn].dependents.len() {
                } else if i < g[sn].dependents.len() {
                    assert(g2[sn].dependents[j] == mirror);
                    assert(g[sn].dependents.contains(g[sn].dependents[i]));
                } else {
                    assert(g2[sn].dependents[i] == mirror);
                    assert(g[sn].dependents.contains(g[sn].dependents[j]));
                }
            }
        }
    }
    assert forall|n: u64, i: int|
        g2.dom().contains(n) && 0 <= i < g2[n].deps.len() implies {
        let e = #[trigger] g2[n].deps[i];
        &&& g2.dom().contains(e.node)
        &&& g2[e.node].dependents.contains(mirror_of(n, e))
        &&& has_port(g2[e.node].outputs, e.remote_port)
        &&& has_port(g2[n].inputs, e.local_port)
        &&& g2[e.node].outputs[port_idx(g2[e.node].outputs, e.remote_port)].count == g2[n].inputs[
            port_idx(g2[n].inputs, e.local_port)
        ].count
        &&& g2[e.node].outputs[port_idx(g2[e.node].outputs, e.remote_port)].tag == g2[n].inputs[
            port_idx(g2[n].inputs, e.local_port)
        ].tag
    } by {
        let e = g2[n].deps[i];
        assert(g.dom().contains(n));
        if n == dn && i == g[dn].deps.len() {
            assert(e == edge);
            assert(g2[sn].dependents.last() == mirror);
            assert(g2[sn].dependents.contains(mirror));
            assert(mirror_of(dn, edge) == mirror);
        } else {
            assert(g[n].deps[i] == e);
            assert(g[e.node].dependents.contains(mirror_of(n, e)));
            if e.node == sn {
                let k = choose|k: int|
                    0 <= k < g[sn].dependents.len() && g[sn].dependents[k] == mirror_of(n, e);
                assert(g2[sn].dependents[k] == mirror_of(n, e));
            }
            assert(g2[e.node].dependents.contains(mirror_of(n, e)));
        }
    }
    assert forall|n: u64, i: int|
        g2.dom().contains(n) && 0 <= i < g2[n].dependents.len() implies {
        let e = #[trigger] g2[n].dependents[i];
        &&& g2.dom().contains(e.node)
        &&& g2[e.node].deps.contains(mirror_of(n, e))
    } by {
        let e = g2[n].dependents[i];
        assert(g.dom().contains(n));
        if n == sn && i == g[sn].dependents.len() {
            assert(e == mirror);
            assert(g2[dn].deps.last() == edge);
            assert(g2[dn].deps.contains(edge));
            assert(mirror_of(sn, mirror) == edge);
        } else {
            assert(g[n].dependents[i] == e);
            assert(g[e.node].deps.contains(mirror_of(n, e)));
            if e.node == dn {
                let k = choose|k: int|
                    0 <= k < g[dn].deps.len() && g[dn].deps[k] == mirror_of(n, e);
                assert(g2[dn].deps[k] == mirror_of(n, e));
            }
            assert(g2[e.node].deps.contains(mirror_of(n, e)));
        }
    }
}

/// Removing both halves of one edge preserves well-formedness, including
/// acyclicity.
proof fn lemma_disconnect_wf(
    g: Map<u64, NodeView>,
    g2: Map<u64, NodeView>,
    sn: u64,
    sp: u64,
    dn: u64,
    dp: u64,
)
    requires
        graph_wf(g),
        g.dom().contains(sn),
        g.dom().contains(dn),
        conn_exists(g, sn, sp, dn, dp),
        g2 == g.insert(
            dn,
            NodeView {
                deps: without_edge(g[dn].deps, Edge { node: sn, remote_port: sp, local_port: dp }),
                ..g[dn]
            },
        ).insert(
            sn,
            NodeView {
                dependents: without_edge(
                    g[sn].dependents,
                    Edge { node: dn, remote_port: dp, local_port: sp },
                ),
                ..g[sn]
            },
        ),
    ensures
        graph_wf(g2),
{
    let edge = Edge { node: sn, remote_port: sp, local_port: dp };
    let mirror = Edge { node: dn, remote_port: dp, local_port: sp };
    assert(sn != dn) by {
        let r0 = choose|r0: Map<u64, nat>| rank_ok(g, r0);
        let i = choose|i: int| 0 <= i < g[dn].deps.len() && g[dn].deps[i] == edge;
        assert(r0[g[dn].deps[i].node] < r0[dn]);
    }
    lemma_without_edge_members(g[dn].deps, edge);
    lemma_without_edge_members(g[sn].dependents, mirror);
    assert forall|n: u64| #[trigger] g2.dom().contains(n) implies ports_unique(g2[n].inputs)
        && ports_unique(g2[n].outputs) && edges_unique(g2[n].deps) && edges_unique(
        g2[n].dependents,
    ) by {
        assert(g.dom().contains(n));
    }
    assert forall|n: u64, i: int|
        g2.dom().contains(n) && 0 <= i < g2[n].deps.len() implies {
        let e = #[trigger] g2[n].deps[i];
        &&& g2.dom().contains(e.node)
        &&& g2[e.node].dependents.contains(mirror_of(n, e))
        &&& has_port(g2[e.node].outputs, e.remote_port)
        &&& has_port(g2[n].inputs, e.local_port)
        &&& g2[e.node].outputs[port_idx(g2[e.node].outputs, e.remote_port)].count == g2[n].inputs[
            port_idx(g2[n].inputs, e.local_port)
        ].count
        &&& g2[e.node].outputs[port_idx(g2[e.node].outputs, e.remote_port)].tag == g2[n].inputs[
            port_idx(g2[n].inputs, e.local_port)
        ].tag
    } by {
        let e = g2[n].deps[i];
        assert(g.dom().contains(n));
        assert(g2[n].deps.contains(e));
        assert(g[n].deps.contains(e)) by {
            if n == dn {
                assert(without_edge(g[dn].deps, edge).contains(e));
            }
        }
        let j = choose|j: int| 0 <= j < g[n].deps.len() && g[n].deps[j] == e;
        assert(g[n].deps[j] == e);
        assert(g[e.node].dependents.contains(mirror_of(n, e)));
        assert(g2[e.node].dependents.contains(mirror_of(n, e))) by {
            if e.node == sn {
                if n == dn && e == edge {
                    assert(g2[dn].deps.contains(edge));
                    assert(false);
                }
                assert(mirror_of(n, e) != mirror) by {
                    if mirror_of(n, e) == mirror {
                        assert(e.local_port == mirror.remote_port || true);
                        assert(mirror_of(n, e).node == n);
                        assert(n == dn);
                        assert(mirror_of(n, e).remote_port == e.local_port);
                        assert(mirror_of(n, e).local_port == e.remote_port);
                        assert(e == edge);
                    }
                }
            }
        }
    }
    assert forall|n: u64, i: int|
        g2.dom().contains(n) && 0 <= i < g2[n].dependents.len() implies {
        let e = #[trigger] g2[n].dependents[i];
        &&& g2.dom().contains(e.node)
        &&& g2[e.node].deps.contains(mirror_of(n, e))
    } by {
        let e = g2[n].dependents[i];
        assert(g.dom().contains(n));
        assert(g2[n].dependents.contains(e));
        assert(g[n].dependents.contains(e)) by {
            if n == sn {
                assert(without_edge(g[sn].dependents, mirror).contains(e));
            }
        }
        assert(g[e.node].deps.contains(mirror_of(n, e)));
        assert(g2[e.node].deps.contains(mirror_of(n, e))) by {
            if e.node == dn {
                if n == sn && e == mirror {
                    assert(g2[sn].dependents.contains(mirror));
                    assert(false);
                }
                assert(mirror_of(n, e) != edge) by {
                    if mirror_of(n, e) == edge {
                        assert(n == sn);
                        assert(e == mirror);
                    }
                }
            }
        }
    }
    let r0 = choose|r0: Map<u64, nat>| rank_ok(g, r0);
    assert forall|n: u64, i: int|
        g2.dom().contains(n) && 0 <= i < g2[n].deps.len() implies r1_holds(g, g2, r0, n, i) by {
        let e = g2[n].deps[i];
        assert(g2[n].deps.contains(e));
        assert(g[n].deps.contains(e)) by {
            if n == dn {
                assert(without_edge(g[dn].deps, edge).contains(e));
            }
        }
        let j = choose|j: int| 0 <= j < g[n].deps.len() && g[n].deps[j] == e;
        assert(r0[g[n].deps[j].node] < r0[n]);
    }
    assert(rank_ok(g2, r0));
}

/// The rank inequality for one dependency entry; a helper to phrase
/// preservation proofs uniformly.
spec fn r1_holds(
    g: Map<u64, NodeView>,
    g2: Map<u64, NodeView>,
    r: Map<u64, nat>,
    n: u64,
    i: int,
) -> bool {
    r[g2[n].deps[i].node] < r[n]
}

/// Whether a dependency entry of node `k` touches the port `(n, p)` on the
/// given side.
pub open spec fn dep_hits(dir: Direction, k: u64, e: Edge, n: u64, p: u64) -> bool {
    match dir {
        Direction::Input => k == n && e.local_port == p,
        Direction::Output => e.node == n && e.remote_port == p,
    }
}

/// Whether a dependent entry of node `k` touches the port `(n, p)` on the
/// given side.
pub open spec fn dept_hits(dir: Direction, k: u64, e: Edge, n: u64, p: u64) -> bool {
    match dir {
        Direction::Input => e.node == n && e.remote_port == p,
        Direction::Output => k == n && e.local_port == p,
    }
}

/// After stripping the port `(n, p, dir)`, the surviving edges are exactly
/// the old ones that did not touch it, and ports, names and the domain are
/// unchanged.
pub open spec fn stripped(
    g: Map<u64, NodeView>,
    g2: Map<u64, NodeView>,
    dir: Direction,
    n: u64,
    p: u64,
) -> bool {
    &&& g2.dom() == g.dom()
    &&& (forall|k: u64|
        #[trigger] g.dom().contains(k) ==> g2[k].name == g[k].name && g2[k].inputs == g[k].inputs
            && g2[k].outputs == g[k].outputs)
    &&& (forall|k: u64, e: Edge|
        g.dom().contains(k) ==> (#[trigger] g2[k].deps.contains(e) <==> g[k].deps.contains(e)
            && !dep_hits(dir, k, e, n, p)))
    &&& (forall|k: u64, e: Edge|
        g.dom().contains(k) ==> (#[trigger] g2[k].dependents.contains(e) <==> g[k].dependents.contains(e)
            && !dept_hits(dir, k, e, n, p)))
}

/// The edges of `v` whose local port is `p`, in order.
fn collect_local_hits(v: &Vec<Edge>, p: u64) -> (r: Vec<Edge>)
    requires
        edges_unique(v@),
    ensures
        forall|e: Edge| #[trigger] r@.contains(e) <==> v@.contains(e) && e.local_port == p,
        edges_unique(r@),
        forall|j: int| 0 <= j < r@.len() ==> (#[trigger] r@[j]).local_port == p,
{
    let mut r: Vec<Edge> = Vec::new();
    let mut i: usize = 0;
    while i < v.len()
        invariant
            i <= v@.len(),
            edges_unique(v@),
            forall|e: Edge| #[trigger] r@.contains(e) <==> v@.take(i as int).contains(e)
                && e.local_port == p,
            edges_unique(r@),
            forall|j: int| 0 <= j < r@.len() ==> (#[trigger] r@[j]).local_port == p,
        decreases v@.len() - i,
    {
        let ghost prev = r@;
        if v[i].local_port == p {
            r.push(v[i]);
            proof {
                assert(r@.last() == v@[i as int]);
                assert forall|j: int, k: int|
                    0 <= j < r@.len() && 0 <= k < r@.len() && j != k implies r@[j] != r@[k] by {
                    if j < prev.len() && k < prev.len() {
                    } else if j < prev.len() {
                        assert(prev.contains(prev[j]));
                        assert(v@.take(i as int).contains(prev[j]));
                        let q = choose|q: int|
                            0 <= q < v@.take(i as int).len() && v@.take(i as int)[q] == prev[j];
                        assert(v@[q] == prev[j]);
                        assert(v@[q] != v@[i as int]);
                    } else if k < prev.len() {
                        assert(prev.contains(prev[k]));
                        assert(v@.take(i as int).contains(prev[k]));
                        let q = choose|q: int|
                            0 <= q < v@.take(i as int).len() && v@.take(i as int)[q] == prev[k];
                        assert(v@[q] == prev[k]);
                        assert(v@[q] != v@[i as int]);
                    }
                }
            }
        }
        proof {
            assert(v@.take(i + 1).drop_last() =~= v@.take(i as int));
            assert(v@.take(i + 1).last() == v@[i as int]);
            assert forall|e: Edge| #[trigger] r@.contains(e) implies v@.take(i + 1).contains(e)
                && e.local_port == p by {
                if prev.contains(e) {
                    assert(v@.take(i as int).contains(e));
                    let q = choose|q: int|
                        0 <= q < v@.take(i as int).len() && v@.take(i as int)[q] == e;
                    assert(v@.take(i + 1)[q] == e);
                } else {
                    assert(e == v@[i as int]);
                    assert(v@.take(i + 1)[i as int] == e);
                }
            }
            let tk = v@.take(i + 1);
            assert forall|e: Edge| #[trigger] tk.contains(e) && e.local_port == p
                implies r@.contains(e) by {
                let q = choose|q: int| 0 <= q < tk.len() && tk[q] == e;
                if q < i {
                    assert(v@.take(i as int)[q] == e);
                    assert(v@.take(i as int).contains(e));
                    assert(prev.contains(e));
                    let w = choose|w: int| 0 <= w < prev.len() && prev[w] == e;
                    assert(r@[w] == e);
                } else {
                    assert(e == v@[i as int]);
                    assert(r@.last() == e);
                }
            }
        }
        i = i + 1;
    }
    proof {
        assert(v@.take(v@.len() as int) =~= v@);
    }
    r
}

impl Graph {
    /// Remove every edge that touches the port `(node, port)` on the given
    /// side. The port itself must exist; the graph stays well formed and
    /// every edge not touching the port survives.
    fn strip_port(&mut self, direction: Direction, node: u64, port: u64)
        requires
            graph_wf(old(self)@),
            old(self)@.dom().contains(node),
        ensures
            graph_wf(final(self)@),
            stripped(old(self)@, final(self)@, direction, node, port),
    {
        let ghost g = old(self)@;
        let hits: Vec<Edge> = {
            let nd = match self.nodes.get(&node) {
                Some(n) => n,
                None => {
                    proof {
                        assert(false);
                    }
                    return ;
                },
            };
            proof {
                assert(g[node] == nd@);
                assert(g.dom().contains(node));
                assert(edges_unique(g[node].deps));
                assert(edges_unique(g[node].dependents));
            }
            match direction {
                Direction::Input => collect_local_hits(&nd.dependencies, port),
                Direction::Output => collect_local_hits(&nd.dependents, port),
            }
        };
        let ghost local_list = match direction {
            Direction::Input => g[node].deps,
            Direction::Output => g[node].dependents,
        };
        let mut i: usize = 0;
        while i < hits.len()
            invariant
                graph_wf(self@),
                i <= hits@.len(),
                self@.dom() == g.dom(),
                g.dom().contains(node),
                graph_wf(g),
                local_list == (match direction {
                    Direction::Input => g[node].deps,
                    Direction::Output => g[node].dependents,
                }),
                forall|e: Edge| #[trigger] hits@.contains(e) <==> local_list.contains(e)
                    && e.local_port == port,
                edges_unique(hits@),
                forall|j: int| 0 <= j < hits@.len() ==> (#[trigger] hits@[j]).local_port == port,
                forall|k: u64|
                    #[trigger] g.dom().contains(k) ==> self@[k].name == g[k].name && self@[k].inputs
                        == g[k].inputs && self@[k].outputs == g[k].outputs,
                forall|k: u64, e: Edge|
                    g.dom().contains(k) ==> (#[trigger] self@[k].deps.contains(e) <==> g[k].deps.contains(
                        e,
                    ) && !(dep_hits(direction, k, e, node, port) && hits@.take(i as int).contains(
                        match direction {
                            Direction::Input => e,
                            Direction::Output => mirror_of(k, e),
                        },
                    ))),
                forall|k: u64, e: Edge|
                    g.dom().contains(k) ==> (#[trigger] self@[k].dependents.contains(e) <==> g[k].dependents.contains(
                        e,
                    ) && !(dept_hits(direction, k, e, node, port) && hits@.take(i as int).contains(
                        match direction {
                            Direction::Input => mirror_of(k, e),
                            Direction::Output => e,
                        },
                    ))),
            decreases hits@.len() - i,
        {
            let e = hits[i];
            let ghost pre = self@;
            proof {
                assert(hits@.contains(e)) by {
                    assert(hits@[i as int] == e);
                }
                assert(local_list.contains(e));
            }
            let res = match direction {
                Direction::Input => {
                    proof {
                        assert(self@[node].deps.contains(e)) by {
                            assert(!hits@.take(i as int).contains(e)) by {
                                if hits@.take(i as int).contains(e) {
                                    let q = choose|q: int|
                                        0 <= q < i && hits@.take(i as int)[q] == e;
                                    assert(hits@[q] == e);
                                    assert(hits@[q] != hits@[i as int]);
                                }
                            }
                        }
                        let j = choose|j: int|
                            0 <= j < self@[node].deps.len() && self@[node].deps[j] == e;
                        assert(self@[node].deps[j] == e);
                        assert(self@.dom().contains(e.node));
                        assert(conn_ports_ok(self@, e.node, e.remote_port, node, e.local_port));
                        assert(conn_exists(self@, e.node, e.remote_port, node, e.local_port));
                    }
                    self.disconnect(
                        (NodeHandle(e.node), PortHandle(e.remote_port)),
                        (NodeHandle(node), PortHandle(e.local_port)),
                    )
                },
                Direction::Output => {
                    proof {
                        assert(self@[node].dependents.contains(e)) by {
                            assert(!hits@.take(i as int).contains(e)) by {
                                if hits@.take(i as int).contains(e) {
                                    let q = choose|q: int|
                                        0 <= q < i && hits@.take(i as int)[q] == e;
                                    assert(hits@[q] == e);
                                    assert(hits@[q] != hits@[i as int]);
                                }
                            }
                        }
                        let j = choose|j: int|
                            0 <= j < self@[node].dependents.len() && self@[node].dependents[j] == e;
                        assert(self@[node].dependents[j] == e);
                        assert(self@.dom().contains(e.node));
                        assert(self@[e.node].deps.contains(mirror_of(node, e)));
                        let m = mirror_of(node, e);
                        let jj = choose|jj: int|
                            0 <= jj < self@[e.node].deps.len() && self@[e.node].deps[jj] == m;
                        assert(self@[e.node].deps[jj] == m);
                        assert(conn_ports_ok(self@, node, e.local_port, e.node, e.remote_port));
                        assert(conn_exists(self@, node, e.local_port, e.node, e.remote_port));
                    }
                    self.disconnect(
                        (NodeHandle(node), PortHandle(e.local_port)),
                        (NodeHandle(e.node), PortHandle(e.remote_port)),
                    )
                },
            };
            proof {
                assert(res is Ok);
                let dedge = match direction {
                    Direction::Input => e,
                    Direction::Output => mirror_of(node, e),
                };
                let dmir = match direction {
                    Direction::Input => mirror_of(node, e),
                    Direction::Output => e,
                };
                let dstn = match direction {
                    Direction::Input => node,
                    Direction::Output => e.node,
                };
                let srcn = dedge.node;
                assert(pre[dstn].deps.contains(dedge)) by {
                    match direction {
                        Direction::Input => {},
                        Direction::Output => {},
                    }
                }
                assert(srcn != dstn) by {
                    let r0 = choose|r0: Map<u64, nat>| rank_ok(pre, r0);
                    let j = choose|j: int|
                        0 <= j < pre[dstn].deps.len() && pre[dstn].deps[j] == dedge;
                    assert(r0[pre[dstn].deps[j].node] < r0[dstn]);
                }
                assert(self@ == pre.insert(
                    dstn,
                    NodeView { deps: without_edge(pre[dstn].deps, dedge), ..pre[dstn] },
                ).insert(
                    srcn,
                    NodeView { dependents: without_edge(pre[srcn].dependents, dmir), ..pre[srcn] },
                ));
                assert(self@[dstn].deps == without_edge(pre[dstn].deps, dedge));
                assert(self@[srcn].dependents == without_edge(pre[srcn].dependents, dmir));
                assert(self@[dstn].dependents == pre[dstn].dependents);
                assert(self@[srcn].deps == pre[srcn].deps);
                lemma_without_edge_members(pre[dstn].deps, dedge);
                lemma_without_edge_members(pre[srcn].dependents, dmir);
                let tk1 = hits@.take(i + 1);
                let tk0 = hits@.take(i as int);
                assert(tk1.drop_last() =~= tk0);
                assert(tk1.last() == e);
                assert forall|t: Edge| #[trigger] tk1.contains(t) implies tk0.contains(t) || t
                    == e by {
                    let q = choose|q: int| 0 <= q < tk1.len() && tk1[q] == t;
                    if q < i {
                        assert(tk0[q] == t);
                    }
                }
                assert forall|t: Edge| #[trigger] tk0.contains(t) implies tk1.contains(t) by {
                    let q = choose|q: int| 0 <= q < tk0.len() && tk0[q] == t;
                    assert(tk1[q] == t);
                }
                assert(tk1.contains(e)) by {
                    assert(tk1.last() == e);
                }
                assert(mirror_of(dstn, dedge) == dmir);
                assert(mirror_of(srcn, dmir) == dedge);
                assert forall|k: u64, e2: Edge|
                    g.dom().contains(k) implies (#[trigger] self@[k].deps.contains(e2) <==> g[k].deps.contains(
                    e2,
                ) && !(dep_hits(direction, k, e2, node, port) && tk1.contains(
                    match direction {
                        Direction::Input => e2,
                        Direction::Output => mirror_of(k, e2),
                    },
                ))) by {
                    let tag = match direction {
                        Direction::Input => e2,
                        Direction::Output => mirror_of(k, e2),
                    };
                    assert(pre[k].deps.contains(e2) <==> g[k].deps.contains(e2) && !(dep_hits(
                        direction,
                        k,
                        e2,
                        node,
                        port,
                    ) && tk0.contains(tag)));
                    if k == dstn {
                        assert(self@[k].deps == without_edge(pre[k].deps, dedge));
                        if e2 == dedge {
                            assert(!self@[k].deps.contains(e2));
                            assert(dep_hits(direction, k, e2, node, port)) by {
                                match direction {
                                    Direction::Input => {},
                                    Direction::Output => {},
                                }
                            }
                            assert(tag == e) by {
                                match direction {
                                    Direction::Input => {},
                                    Direction::Output => {
                                        assert(mirror_of(k, dedge) == e);
                                    },
                                }
                            }
                            assert(g[k].deps.contains(e2) ==> dep_hits(direction, k, e2, node, port)
                                && tk1.contains(tag));
                        } else {
                            assert(self@[k].deps.contains(e2) <==> pre[k].deps.contains(e2));
                            if dep_hits(direction, k, e2, node, port) && tk1.contains(tag) && !tk0.contains(tag) {
                                assert(tag == e);
                                match direction {
                                    Direction::Input => {
                                        assert(e2 == e);
                                        assert(e2 == dedge);
                                    },
                                    Direction::Output => {
                                        assert(mirror_of(k, e2) == e);
                                        assert(e2.node == node && e2.remote_port == port);
                                        assert(mirror_of(e2.node, mirror_of(k, e2)) == e2);
                                        assert(e2 == mirror_of(node, e));
                                        assert(e2 == dedge);
                                    },
                                }
                            }
                        }
                    } else {
                        assert(self@[k].deps == pre[k].deps);
                        if dep_hits(direction, k, e2, node, port) && tk1.contains(tag) && !tk0.contains(tag) {
                            assert(tag == e);
                            match direction {
                                Direction::Input => {
                                    assert(k == node && k == dstn);
                                },
                                Direction::Output => {
                                    assert(mirror_of(k, e2) == e);
                                    assert(mirror_of(e2.node, mirror_of(k, e2)) == e2);
                                    assert(e2 == mirror_of(node, e));
                                    assert(k == e.node && k == dstn);
                                },
                            }
                        }
                    }
                }
                assert forall|k: u64, e2: Edge|
                    g.dom().contains(k) implies (#[trigger] self@[k].dependents.contains(e2) <==> g[k].dependents.contains(
                    e2,
                ) && !(dept_hits(direction, k, e2, node, port) && tk1.contains(
                    match direction {
                        Direction::Input => mirror_of(k, e2),
                        Direction::Output => e2,
                    },
                ))) by {
                    let tag = match direction {
                        Direction::Input => mirror_of(k, e2),
                        Direction::Output => e2,
                    };
                    assert(pre[k].dependents.contains(e2) <==> g[k].dependents.contains(e2) && !(
                    dept_hits(direction, k, e2, node, port) && tk0.contains(tag)));
                    if k == srcn {
                        assert(self@[k].dependents == without_edge(pre[k].dependents, dmir));
                        if e2 == dmir {
                            assert(!self@[k].dependents.contains(e2));
                            assert(dept_hits(direction, k, e2, node, port)) by {
                                match direction {
                                    Direction::Input => {},
                                    Direction::Output => {},
                                }
                            }
                            assert(tag == e) by {
                                match direction {
                                    Direction::Input => {
                                        assert(mirror_of(k, dmir) == e);
                                    },
                                    Direction::Output => {},
                                }
                            }
                            assert(g[k].dependents.contains(e2) ==> dept_hits(
                                direction,
                                k,
                                e2,
                                node,
                                port,
                            ) && tk1.contains(tag));
                        } else {
                            assert(self@[k].dependents.contains(e2) <==> pre[k].dependents.contains(
                                e2,
                            ));
                            if dept_hits(direction, k, e2, node, port) && tk1.contains(tag) && !tk0.contains(tag) {
                                assert(tag == e);
                                match direction {
                                    Direction::Input => {
                                        assert(mirror_of(k, e2) == e);
                                        assert(mirror_of(e2.node, mirror_of(k, e2)) == e2);
                                        assert(e2 == mirror_of(node, e));
                                        assert(e2 == dmir);
                                    },
                                    Direction::Output => {
                                        assert(e2 == e);
                                        assert(e2 == dmir);
                                    },
                                }
                            }
                        }
                    } else {
                        assert(self@[k].dependents == pre[k].dependents);
                        if dept_hits(direction, k, e2, node, port) && tk1.contains(tag) && !tk0.contains(tag) {
                            assert(tag == e);
                            match direction {
                                Direction::Input => {
                                    assert(mirror_of(k, e2) == e);
                                    assert(mirror_of(e2.node, mirror_of(k, e2)) == e2);
                                    assert(e2 == mirror_of(node, e));
                                    assert(k == e.node && k == srcn);
                                },
                                Direction::Output => {
                                    assert(k == node && k == srcn);
                                },
                            }
                        }
                    }
                }
            }
            i = i + 1;
        }
        proof {
            assert(hits@.take(hits@.len() as int) =~= hits@);
            assert forall|k: u64, e: Edge|
                g.dom().contains(k) implies (#[trigger] self@[k].deps.contains(e) <==> g[k].deps.contains(
                e,
            ) && !dep_hits(direction, k, e, node, port)) by {
                if g[k].deps.contains(e) && dep_hits(direction, k, e, node, port) {
                    match direction {
                        Direction::Input => {
                            assert(hits@.contains(e));
                        },
                        Direction::Output => {
                            let j = choose|j: int| 0 <= j < g[k].deps.len() && g[k].deps[j] == e;
                            assert(g[k].deps[j] == e);
                            assert(g[e.node].dependents.contains(mirror_of(k, e)));
                            assert(mirror_of(k, e).local_port == e.remote_port);
                            assert(hits@.contains(mirror_of(k, e)));
                        },
                    }
                }
            }
            assert forall|k: u64, e: Edge|
                g.dom().contains(k) implies (#[trigger] self@[k].dependents.contains(e) <==> g[k].dependents.contains(
                e,
            ) && !dept_hits(direction, k, e, node, port)) by {
                if g[k].dependents.contains(e) && dept_hits(direction, k, e, node, port) {
                    match direction {
                        Direction::Input => {
                            let j = choose|j: int|
                                0 <= j < g[k].dependents.len() && g[k].dependents[j] == e;
                            assert(g[k].dependents[j] == e);
                            assert(g[e.node].deps.contains(mirror_of(k, e)));
                            assert(mirror_of(k, e).local_port == e.remote_port);
                            assert(hits@.contains(mirror_of(k, e)));
                        },
                        Direction::Output => {
                            assert(hits@.contains(e));
                        },
                    }
                }
            }
        }
    }

    /// Configure a port. All connections to the port are invalidated:
    /// afterwards no edge touches it, every other edge survives, and the
    /// port carries the new configuration.
    pub fn configure_port(
        &mut self,
        direction: Direction,
        node: NodeHandle,
        port: PortHandle,
        config: ChannelConfiguration,
    ) -> (r: Result<(), Error>)
        requires
            graph_wf(old(self)@),
        ensures
            graph_wf(final(self)@),
            r is Err ==> *final(self) == *old(self),
            !old(self)@.dom().contains(node.0) ==> r == Result::<(), Error>::Err(
                Error::NodeDoesNotExist,
            ),
            old(self)@.dom().contains(node.0) && !has_port(
                side_of(old(self)@[node.0], direction),
                port.0,
            ) ==> r == Result::<(), Error>::Err(Error::PortDoesNotExist),
            old(self)@.dom().contains(node.0) && has_port(
                side_of(old(self)@[node.0], direction),
                port.0,
            ) ==> r is Ok && final(self)@.dom() == old(self)@.dom() && (forall|k: u64, e: Edge|
                old(self)@.dom().contains(k) ==> (#[trigger] final(self)@[k].deps.contains(e)
                    <==> old(self)@[k].deps.contains(e) && !dep_hits(
                    direction,
                    k,
                    e,
                    node.0,
                    port.0,
                ))) && (forall|k: u64, e: Edge|
                old(self)@.dom().contains(k) ==> (#[trigger] final(self)@[k].dependents.contains(e)
                    <==> old(self)@[k].dependents.contains(e) && !dept_hits(
                    direction,
                    k,
                    e,
                    node.0,
                    port.0,
                ))) && (forall|k: u64|
                #[trigger] old(self)@.dom().contains(k) && k != node.0 ==> final(self)@[k].inputs
                    == old(self)@[k].inputs && final(self)@[k].outputs == old(self)@[k].outputs)
                && (forall|k: u64|
                #[trigger] old(self)@.dom().contains(k) ==> final(self)@[k].name == old(self)@[k].name) && side_of(final(self)@[node.0], direction) == side_of(
                old(self)@[node.0],
                direction,
            ).update(
                port_idx(side_of(old(self)@[node.0], direction), port.0),
                PortView {
                    count: config.spec_count(),
                    tag: config.spec_tag(),
                    ..side_of(old(self)@[node.0], direction)[port_idx(
                        side_of(old(self)@[node.0], direction),
                        port.0,
                    )]
                },
            ) && side_of(final(self)@[node.0], flip(direction)) == side_of(
                old(self)@[node.0],
                flip(direction),
            ),
    {
        let ghost g = old(self)@;
        let pidx: usize = {
            let nd = match self.nodes.get(&node.0) {
                Some(n) => n,
                None => {
                    return Err(Error::NodeDoesNotExist);
                },
            };
            proof {
                assert(g[node.0] == nd@);
            }
            let ports = match direction {
                Direction::Input => &nd.inputs,
                Direction::Output => &nd.outputs,
            };
            match port_lookup(ports, port.0) {
                Some(i) => i,
                None => {
                    return Err(Error::PortDoesNotExist);
                },
            }
        };
        self.strip_port(direction, node.0, port.0);
        let ghost mid = self@;
        let mut nd = match self.nodes.remove(&node.0) {
            Some(n) => n,
            None => {
                proof {
                    assert(mid.dom().contains(node.0));
                    assert(false);
                }
                return Err(Error::NodeDoesNotExist);
            },
        };
        proof {
            assert(mid.dom().contains(node.0));
            assert(nd@ == mid[node.0]);
            assert(mid[node.0].inputs == g[node.0].inputs && mid[node.0].outputs == g[node.0].outputs);
        }
        {
            let ports = match direction {
                Direction::Input => &mut nd.inputs,
                Direction::Output => &mut nd.outputs,
            };
            proof {
                assert(ports@.len() == side_of(g[node.0], direction).len());
            }
            let pid: u64 = ports[pidx].id;
            let pname = label_dup(&ports[pidx].name);
            ports[pidx] = Port { id: pid, name: pname, config };
        }
        let _ = self.nodes.insert(node.0, nd);
        proof {
            let side0 = side_of(g[node.0], direction);
            assert(ports_unique(side0));
            assert(side0[pidx as int].id == port.0);
            assert(port_idx(side0, port.0) == pidx as int);
            let newp = PortView {
                count: config.spec_count(),
                tag: config.spec_tag(),
                ..side0[pidx as int]
            };
            assert(mid.dom().contains(node.0));
            assert(side_of(mid[node.0], direction) == side0);
            assert(port_idx(side_of(mid[node.0], direction), port.0) == pidx as int);
            let nv = with_side(
                mid[node.0],
                direction,
                side_of(mid[node.0], direction).update(pidx as int, newp),
            );
            assert(self@[node.0].inputs =~= nv.inputs);
            assert(self@[node.0].outputs =~= nv.outputs);
            assert(self@ =~= mid.insert(node.0, nv));
            assert(side_of(self@[node.0], direction) =~= side0.update(pidx as int, newp));
            assert(side_of(self@[node.0], flip(direction)) =~= side_of(g[node.0], flip(direction)));
            lemma_strip_then_config_wf(
                g,
                mid,
                self@,
                direction,
                node.0,
                port.0,
                nv,
                config.spec_count(),
                config.spec_tag(),
            );
        }
        Ok(())
    }
}

/// The opposite side.
pub open spec fn flip(dir: Direction) -> Direction {
    match dir {
        Direction::Input => Direction::Output,
        Direction::Output => Direction::Input,
    }
}

/// Updating the configuration of a port that no edge touches preserves
/// well-formedness.
proof fn lemma_strip_then_config_wf(
    g: Map<u64, NodeView>,
    mid: Map<u64, NodeView>,
    g2: Map<u64, NodeView>,
    dir: Direction,
    n: u64,
    p: u64,
    nv: NodeView,
    ncount: usize,
    ntag: Seq<char>,
)
    requires
        graph_wf(g),
        graph_wf(mid),
        stripped(g, mid, dir, n, p),
        g.dom().contains(n),
        has_port(side_of(g[n], dir), p),
        nv == with_side(
            mid[n],
            dir,
            side_of(mid[n], dir).update(
                port_idx(side_of(mid[n], dir), p),
                PortView { count: ncount, tag: ntag, ..side_of(mid[n], dir)[port_idx(
                    side_of(mid[n], dir),
                    p,
                )] },
            ),
        ),
        g2 == mid.insert(n, nv),
    ensures
        graph_wf(g2),
{
    assert(g2.dom() =~= mid.dom());
    let side1 = side_of(mid[n], dir);
    let j = port_idx(side1, p);
    assert(ports_unique(side1));
    assert(side_of(g[n], dir) == side1);
    assert(has_port(side1, p));
    assert(0 <= j < side1.len() && side1[j].id == p);
    let side2 = side_of(nv, dir);
    assert(side2 == side1.update(j, PortView { count: ncount, tag: ntag, ..side1[j] }));
    assert forall|m: u64| #[trigger] g2.dom().contains(m) implies ports_unique(g2[m].inputs)
        && ports_unique(g2[m].outputs) && edges_unique(g2[m].deps) && edges_unique(
        g2[m].dependents,
    ) by {
        assert(mid.dom().contains(m));
        if m == n {
            assert forall|a: int, b: int|
                0 <= a < side2.len() && 0 <= b < side2.len() && a != b implies side2[a].id
                != side2[b].id by {
                assert(side2[a].id == side1[a].id && side2[b].id == side1[b].id);
            }
            match dir {
                Direction::Input => {
                    assert(ports_unique(nv.inputs));
                    assert(nv.outputs == mid[n].outputs);
                },
                Direction::Output => {
                    assert(ports_unique(nv.outputs));
                    assert(nv.inputs == mid[n].inputs);
                },
            }
        }
    }
    assert forall|m: u64, i: int|
        g2.dom().contains(m) && 0 <= i < g2[m].deps.len() implies {
        let e = #[trigger] g2[m].deps[i];
        &&& g2.dom().contains(e.node)
        &&& g2[e.node].dependents.contains(mirror_of(m, e))
        &&& has_port(g2[e.node].outputs, e.remote_port)
        &&& has_port(g2[m].inputs, e.local_port)
        &&& g2[e.node].outputs[port_idx(g2[e.node].outputs, e.remote_port)].count == g2[m].inputs[
            port_idx(g2[m].inputs, e.local_port)
        ].count
        &&& g2[e.node].outputs[port_idx(g2[e.node].outputs, e.remote_port)].tag == g2[m].inputs[
            port_idx(g2[m].inputs, e.local_port)
        ].tag
    } by {
        let e = g2[m].deps[i];
        assert(mid.dom().contains(m));
        assert(g2[m].deps == mid[m].deps);
        assert(mid[m].deps[i] == e);
        assert(mid[m].deps.contains(e));
        assert(g[m].deps.contains(e) && !dep_hits(dir, m, e, n, p));
        assert(mid[e.node].dependents.contains(mirror_of(m, e)));
        assert(g2[e.node].dependents == mid[e.node].dependents);
        // the referenced ports are unaffected by the config update
        lemma_port_update_lookup(mid, g2, dir, n, p, m, e);
    }
    assert forall|m: u64, i: int|
        g2.dom().contains(m) && 0 <= i < g2[m].dependents.len() implies {
        let e = #[trigger] g2[m].dependents[i];
        &&& g2.dom().contains(e.node)
        &&& g2[e.node].deps.contains(mirror_of(m, e))
    } by {
        let e = g2[m].dependents[i];
        assert(mid.dom().contains(m));
        assert(g2[m].dependents == mid[m].dependents);
        assert(mid[m].dependents[i] == e);
        assert(mid[m].dependents.contains(e));
        assert(mid[e.node].deps.contains(mirror_of(m, e)));
        assert(g2[e.node].deps == mid[e.node].deps);
    }
    let r0 = choose|r0: Map<u64, nat>| rank_ok(mid, r0);
    assert forall|m: u64, i: int|
        g2.dom().contains(m) && 0 <= i < g2[m].deps.len() implies r1_holds(mid, g2, r0, m, i) by {
        assert(mid.dom().contains(m));
        assert(g2[m].deps == mid[m].deps);
        assert(r0[mid[m].deps[i].node] < r0[m]);
    }
    assert(rank_ok(g2, r0));
}

/// Ports referenced by a surviving edge are unaffected by the update of
/// the stripped port's entry.
proof fn lemma_port_update_lookup(
    mid: Map<u64, NodeView>,
    g2: Map<u64, NodeView>,
    dir: Direction,
    n: u64,
    p: u64,
    m: u64,
    e: Edge,
)
    requires
        graph_wf(mid),
        g2.dom() == mid.dom(),
        mid.dom().contains(m),
        mid.dom().contains(e.node),
        mid[m].deps.contains(e),
        !dep_hits(dir, m, e, n, p),
        forall|k: u64|
            #[trigger] mid.dom().contains(k) && k != n ==> g2[k] == mid[k],
        g2.dom().contains(n),
        g2[n].deps == mid[n].deps,
        g2[n].dependents == mid[n].dependents,
        g2[n].name == mid[n].name,
        side_of(g2[n], flip(dir)) == side_of(mid[n], flip(dir)),
        side_of(g2[n], dir).len() == side_of(mid[n], dir).len(),
        forall|i: int|
            0 <= i < side_of(g2[n], dir).len() ==> (#[trigger] side_of(g2[n], dir)[i]).id
                == side_of(mid[n], dir)[i].id,
        forall|i: int|
            0 <= i < side_of(g2[n], dir).len() && side_of(mid[n], dir)[i].id != p ==> side_of(
                g2[n],
                dir,
            )[i] == side_of(mid[n], dir)[i],
    ensures
        has_port(g2[e.node].outputs, e.remote_port),
        has_port(g2[m].inputs, e.local_port),
        g2[e.node].outputs[port_idx(g2[e.node].outputs, e.remote_port)] == mid[e.node].outputs[
            port_idx(mid[e.node].outputs, e.remote_port)
        ],
        g2[m].inputs[port_idx(g2[m].inputs, e.local_port)] == mid[m].inputs[port_idx(
            mid[m].inputs,
            e.local_port,
        )],
{
    let j = choose|j: int| 0 <= j < mid[m].deps.len() && mid[m].deps[j] == e;
    assert(mid[m].deps[j] == e);
    assert(has_port(mid[e.node].outputs, e.remote_port));
    assert(has_port(mid[m].inputs, e.local_port));
    lemma_side_lookup(mid, g2, dir, n, p, e.node, Direction::Output, e.remote_port);
    lemma_side_lookup(mid, g2, dir, n, p, m, Direction::Input, e.local_port);
}

/// Lookup of a port that is not the stripped one gives the same entry in
/// `mid` and `g2`.
proof fn lemma_side_lookup(
    mid: Map<u64, NodeView>,
    g2: Map<u64, NodeView>,
    dir: Direction,
    n: u64,
    p: u64,
    k: u64,
    kd: Direction,
    id: u64,
)
    requires
        graph_wf(mid),
        mid.dom().contains(k),
        has_port(side_of(mid[k], kd), id),
        !(k == n && kd == dir && id == p),
        forall|k2: u64|
            #[trigger] mid.dom().contains(k2) && k2 != n ==> g2[k2] == mid[k2],
        g2.dom().contains(n) ==> side_of(g2[n], flip(dir)) == side_of(mid[n], flip(dir)),
        g2.dom() == mid.dom(),
        side_of(g2[n], dir).len() == side_of(mid[n], dir).len(),
        forall|i: int|
            0 <= i < side_of(g2[n], dir).len() ==> (#[trigger] side_of(g2[n], dir)[i]).id
                == side_of(mid[n], dir)[i].id,
        forall|i: int|
            0 <= i < side_of(g2[n], dir).len() && side_of(mid[n], dir)[i].id != p ==> side_of(
                g2[n],
                dir,
            )[i] == side_of(mid[n], dir)[i],
    ensures
        has_port(side_of(g2[k], kd), id),
        side_of(g2[k], kd)[port_idx(side_of(g2[k], kd), id)] == side_of(mid[k], kd)[port_idx(
            side_of(mid[k], kd),
            id,
        )],
{
    assert(ports_unique(side_of(mid[k], kd)));
    let i = port_idx(side_of(mid[k], kd), id);
    assert(0 <= i < side_of(mid[k], kd).len() && side_of(mid[k], kd)[i].id == id);
    if k != n {
        assert(g2[k] == mid[k]);
    } else if kd != dir {
        assert(side_of(g2[k], kd) == side_of(mid[k], kd));
    } else {
        assert(id != p);
        assert(side_of(g2[k], kd)[i].id == id);
        assert(has_port(side_of(g2[k], kd), id));
        let i2 = port_idx(side_of(g2[k], kd), id);
        assert(0 <= i2 < side_of(g2[k], kd).len() && side_of(g2[k], kd)[i2].id == id);
        assert(side_of(mid[k], kd)[i2].id == id);
        assert(i2 == i);
        assert(side_of(mid[k], kd)[i].id != p) by {
            if side_of(mid[k], kd)[i].id == p {
                assert(id == p);
            }
        }
        assert(side_of(g2[k], kd)[i] == side_of(mid[k], kd)[i]);
    }
}

/// Filtering is never longer, and strictly shorter when the edge occurs.
proof fn lemma_without_edge_shorter(s: Seq<Edge>, e: Edge)
    ensures
        without_edge(s, e).len() <= s.len(),
        s.contains(e) ==> without_edge(s, e).len() < s.len(),
    decreases s.len(),
{
    if s.len() > 0 {
        lemma_without_edge_shorter(s.drop_last(), e);
        if s.contains(e) && s.last() != e {
            let j = choose|j: int| 0 <= j < s.len() && s[j] == e;
            assert(s.drop_last()[j] == e);
            assert(s.drop_last().contains(e));
        }
    }
}

/// Removing a port with identity `id` keeps the other identities unique
/// and their entries looked up unchanged.
proof fn lemma_port_remove_preserves(before: Seq<PortView>, after: Seq<PortView>, j: int)
    requires
        ports_unique(before),
        0 <= j < before.len(),
        after == before.remove(j),
    ensures
        ports_unique(after),
        forall|id: u64|
            id != before[j].id && #[trigger] has_port(before, id) ==> has_port(after, id)
                && after[port_idx(after, id)] == before[port_idx(before, id)],
        forall|id: u64| #[trigger] has_port(after, id) ==> has_port(before, id),
        !has_port(after, before[j].id),
{
    assert forall|a: int, b: int|
        0 <= a < after.len() && 0 <= b < after.len() && a != b implies after[a].id != after[b].id by {
        let a0 = if a < j { a } else { a + 1 };
        let b0 = if b < j { b } else { b + 1 };
        assert(after[a] == before[a0] && after[b] == before[b0]);
    }
    assert forall|id: u64|
        id != before[j].id && #[trigger] has_port(before, id) implies has_port(after, id) && after[
        port_idx(after, id)
    ] == before[port_idx(before, id)] by {
        let i = port_idx(before, id);
        assert(0 <= i < before.len() && before[i].id == id);
        assert(i != j);
        let i2 = if i < j { i } else { i - 1 };
        assert(after[i2] == before[i]);
        assert(has_port(after, id));
        let k = port_idx(after, id);
        assert(0 <= k < after.len() && after[k].id == id);
        assert(k == i2);
    }
    assert forall|id: u64| #[trigger] has_port(after, id) implies has_port(before, id) by {
        let k = port_idx(after, id);
        let k0 = if k < j { k } else { k + 1 };
        assert(before[k0] == after[k]);
    }
    if has_port(after, before[j].id) {
        let k = port_idx(after, before[j].id);
        let k0 = if k < j { k } else { k + 1 };
        assert(before[k0] == after[k]);
        assert(k0 != j);
        assert(before[k0].id != before[j].id);
    }
}

/// Removing a port that no edge touches preserves well-formedness.
proof fn lemma_remove_port_wf(
    g: Map<u64, NodeView>,
    mid: Map<u64, NodeView>,
    g2: Map<u64, NodeView>,
    dir: Direction,
    n: u64,
    p: u64,
    nv: NodeView,
    j: int,
)
    requires
        graph_wf(g),
        graph_wf(mid),
        stripped(g, mid, dir, n, p),
        g.dom().contains(n),
        has_port(side_of(g[n], dir), p),
        j == port_idx(side_of(mid[n], dir), p),
        nv == with_side(mid[n], dir, side_of(mid[n], dir).remove(j)),
        g2 == mid.insert(n, nv),
    ensures
        graph_wf(g2),
{
    assert(g2.dom() =~= mid.dom());
    let side1 = side_of(mid[n], dir);
    assert(ports_unique(side1));
    assert(side_of(g[n], dir) == side1);
    assert(0 <= j < side1.len() && side1[j].id == p);
    lemma_port_remove_preserves(side1, side1.remove(j), j);
    let side2 = side_of(nv, dir);
    assert(side2 == side1.remove(j));
    assert forall|m: u64| #[trigger] g2.dom().contains(m) implies ports_unique(g2[m].inputs)
        && ports_unique(g2[m].outputs) && edges_unique(g2[m].deps) && edges_unique(
        g2[m].dependents,
    ) by {
        assert(mid.dom().contains(m));
        if m == n {
            match dir {
                Direction::Input => {
                    assert(nv.outputs == mid[n].outputs);
                },
                Direction::Output => {
                    assert(nv.inputs == mid[n].inputs);
                },
            }
        }
    }
    assert forall|m: u64, i: int|
        g2.dom().contains(m) && 0 <= i < g2[m].deps.len() implies {
        let e = #[trigger] g2[m].deps[i];
        &&& g2.dom().contains(e.node)
        &&& g2[e.node].dependents.contains(mirror_of(m, e))
        &&& has_port(g2[e.node].outputs, e.remote_port)
        &&& has_port(g2[m].inputs, e.local_port)
        &&& g2[e.node].outputs[port_idx(g2[e.node].outputs, e.remote_port)].count == g2[m].inputs[
            port_idx(g2[m].inputs, e.local_port)
        ].count
        &&& g2[e.node].outputs[port_idx(g2[e.node].outputs, e.remote_port)].tag == g2[m].inputs[
            port_idx(g2[m].inputs, e.local_port)
        ].tag
    } by {
        let e = g2[m].deps[i];
        assert(mid.dom().contains(m));
        assert(g2[m].deps == mid[m].deps);
        assert(mid[m].deps[i] == e);
        assert(mid[m].deps.contains(e));
        assert(g[m].deps.contains(e) && !dep_hits(dir, m, e, n, p));
        assert(mid[e.node].dependents.contains(mirror_of(m, e)));
        assert(g2[e.node].dependents == mid[e.node].dependents);
        lemma_removed_side_lookup(mid, g2, dir, n, p, j, e.node, Direction::Output, e.remote_port);
        lemma_removed_side_lookup(mid, g2, dir, n, p, j, m, Direction::Input, e.local_port);
    }
    assert forall|m: u64, i: int|
        g2.dom().contains(m) && 0 <= i < g2[m].dependents.len() implies {
        let e = #[trigger] g2[m].dependents[i];
        &&& g2.dom().contains(e.node)
        &&& g2[e.node].deps.contains(mirror_of(m, e))
    } by {
        let e = g2[m].dependents[i];
        assert(mid.dom().contains(m));
        assert(g2[m].dependents == mid[m].dependents);
        assert(mid[m].dependents[i] == e);
        assert(mid[m].dependents.contains(e));
        assert(mid[e.node].deps.contains(mirror_of(m, e)));
        assert(g2[e.node].deps == mid[e.node].deps);
    }
    let r0 = choose|r0: Map<u64, nat>| rank_ok(mid, r0);
    assert forall|m: u64, i: int|
        g2.dom().contains(m) && 0 <= i < g2[m].deps.len() implies r1_holds(mid, g2, r0, m, i) by {
        assert(mid.dom().contains(m));
        assert(g2[m].deps == mid[m].deps);
        assert(r0[mid[m].deps[i].node] < r0[m]);
    }
    assert(rank_ok(g2, r0));
}

/// Lookup of a port other than the removed one gives the same entry in
/// `mid` and `g2` (which differ only by removing entry `j` of the stripped
/// side of `n`).
proof fn lemma_removed_side_lookup(
    mid: Map<u64, NodeView>,
    g2: Map<u64, NodeView>,
    dir: Direction,
    n: u64,
    p: u64,
    j: int,
    k: u64,
    kd: Direction,
    id: u64,
)
    requires
        graph_wf(mid),
        mid.dom().contains(k),
        has_port(side_of(mid[k], kd), id),
        !(k == n && kd == dir && id == p),
        g2.dom() == mid.dom(),
        forall|k2: u64| #[trigger] mid.dom().contains(k2) && k2 != n ==> g2[k2] == mid[k2],
        g2.dom().contains(n),
        side_of(g2[n], flip(dir)) == side_of(mid[n], flip(dir)),
        j == port_idx(side_of(mid[n], dir), p),
        has_port(side_of(mid[n], dir), p),
        side_of(g2[n], dir) == side_of(mid[n], dir).remove(j),
    ensures
        has_port(side_of(g2[k], kd), id),
        side_of(g2[k], kd)[port_idx(side_of(g2[k], kd), id)] == side_of(mid[k], kd)[port_idx(
            side_of(mid[k], kd),
            id,
        )],
{
    assert(ports_unique(side_of(mid[k], kd)));
    if k != n {
        assert(g2[k] == mid[k]);
    } else if kd != dir {
        assert(side_of(g2[k], kd) == side_of(mid[k], kd));
    } else {
        assert(id != p);
        let side1 = side_of(mid[n], dir);
        assert(0 <= j < side1.len() && side1[j].id == p);
        lemma_port_remove_preserves(side1, side1.remove(j), j);
        assert(side1[j].id == p);
    }
}

impl Graph {
    /// Delete a port from a node. Every edge touching the port is removed
    /// on both endpoints first, so no dangling edge survives.
    pub fn del_port(&mut self, direction: Direction, node: NodeHandle, port: PortHandle) -> (r:
        Result<(), Error>)
        requires
            graph_wf(old(self)@),
        ensures
            graph_wf(final(self)@),
            r is Err ==> *final(self) == *old(self),
            !old(self)@.dom().contains(node.0) ==> r == Result::<(), Error>::Err(
                Error::NodeDoesNotExist,
            ),
            old(self)@.dom().contains(node.0) && !has_port(
                side_of(old(self)@[node.0], direction),
                port.0,
            ) ==> r == Result::<(), Error>::Err(Error::PortDoesNotExist),
            old(self)@.dom().contains(node.0) && has_port(
                side_of(old(self)@[node.0], direction),
                port.0,
            ) ==> r is Ok && final(self)@.dom() == old(self)@.dom() && (forall|k: u64, e: Edge|
                old(self)@.dom().contains(k) ==> (#[trigger] final(self)@[k].deps.contains(e)
                    <==> old(self)@[k].deps.contains(e) && !dep_hits(
                    direction,
                    k,
                    e,
                    node.0,
                    port.0,
                ))) && (forall|k: u64, e: Edge|
                old(self)@.dom().contains(k) ==> (#[trigger] final(self)@[k].dependents.contains(e)
                    <==> old(self)@[k].dependents.contains(e) && !dept_hits(
                    direction,
                    k,
                    e,
                    node.0,
                    port.0,
                ))) && (forall|k: u64|
                #[trigger] old(self)@.dom().contains(k) && k != node.0 ==> final(self)@[k].inputs
                    == old(self)@[k].inputs && final(self)@[k].outputs == old(self)@[k].outputs)
                && (forall|k: u64|
                #[trigger] old(self)@.dom().contains(k) ==> final(self)@[k].name == old(self)@[k].name) && side_of(final(self)@[node.0], direction) == side_of(
                old(self)@[node.0],
                direction,
            ).remove(port_idx(side_of(old(self)@[node.0], direction), port.0)) && side_of(
                final(self)@[node.0],
                flip(direction),
            ) == side_of(old(self)@[node.0], flip(direction)),
    {
        let ghost g = old(self)@;
        let pidx: usize = {
            let nd = match self.nodes.get(&node.0) {
                Some(n) => n,
                None => {
                    return Err(Error::NodeDoesNotExist);
                },
            };
            proof {
                assert(g[node.0] == nd@);
            }
            let ports = match direction {
                Direction::Input => &nd.inputs,
                Direction::Output => &nd.outputs,
            };
            match port_lookup(ports, port.0) {
                Some(i) => i,
                None => {
                    return Err(Error::PortDoesNotExist);
                },
            }
        };
        self.strip_port(direction, node.0, port.0);
        let ghost mid = self@;
        let mut nd = match self.nodes.remove(&node.0) {
            Some(n) => n,
            None => {
                proof {
                    assert(mid.dom().contains(node.0));
                    assert(false);
                }
                return Err(Error::NodeDoesNotExist);
            },
        };
        proof {
            assert(mid.dom().contains(node.0));
            assert(nd@ == mid[node.0]);
            assert(mid[node.0].inputs == g[node.0].inputs && mid[node.0].outputs
                == g[node.0].outputs);
        }
        {
            let ports = match direction {
                Direction::Input => &mut nd.inputs,
                Direction::Output => &mut nd.outputs,
            };
            proof {
                assert(ports@.len() == side_of(g[node.0], direction).len());
            }
            let _ = ports.remove(pidx);
        }
        let _ = self.nodes.insert(node.0, nd);
        proof {
            let side0 = side_of(g[node.0], direction);
            assert(ports_unique(side0));
            assert(side0[pidx as int].id == port.0);
            assert(port_idx(side0, port.0) == pidx as int);
            assert(side_of(mid[node.0], direction) == side0);
            assert(port_idx(side_of(mid[node.0], direction), port.0) == pidx as int);
            let nv = with_side(
                mid[node.0],
                direction,
                side_of(mid[node.0], direction).remove(pidx as int),
            );
            assert(self@[node.0].inputs =~= nv.inputs);
            assert(self@[node.0].outputs =~= nv.outputs);
            assert(self@ =~= mid.insert(node.0, nv));
            assert(side_of(self@[node.0], direction) =~= side0.remove(pidx as int));
            assert(side_of(self@[node.0], flip(direction)) =~= side_of(g[node.0], flip(direction)));
            lemma_remove_port_wf(g, mid, self@, direction, node.0, port.0, nv, pidx as int);
        }
        Ok(())
    }

    /// Delete a node. Every incident edge is removed on both endpoints
    /// first, so no dangling edge survives.
    pub fn del_node(&mut self, node: NodeHandle) -> (r: Result<(), Error>)
        requires
            graph_wf(old(self)@),
        ensures
            graph_wf(final(self)@),
            r is Err ==> *final(self) == *old(self),
            !old(self)@.dom().contains(node.0) ==> r == Result::<(), Error>::Err(
                Error::NodeDoesNotExist,
            ),
            old(self)@.dom().contains(node.0) ==> r is Ok && final(self)@.dom() == old(self)@.dom().remove(node.0) && (forall|k: u64|
                #[trigger] old(self)@.dom().contains(k) && k != node.0 ==> final(self)@[k].name
                    == old(self)@[k].name && final(self)@[k].inputs == old(self)@[k].inputs
                    && final(self)@[k].outputs == old(self)@[k].outputs) && (forall|
                k: u64,
                e: Edge,
            |
                old(self)@.dom().contains(k) && k != node.0 ==> (#[trigger] final(self)@[k].deps.contains(e) <==> old(self)@[k].deps.contains(e) && e.node != node.0))
                && (forall|k: u64, e: Edge|
                old(self)@.dom().contains(k) && k != node.0 ==> (#[trigger] final(self)@[k].dependents.contains(e) <==> old(self)@[k].dependents.contains(e) && e.node
                    != node.0)),
    {
        let ghost g = old(self)@;
        if !self.nodes.contains_key(&node.0) {
            return Err(Error::NodeDoesNotExist);
        }
        // first remove every incoming edge
        let mut remaining: usize = match self.nodes.get(&node.0) {
            Some(n) => n.dependencies.len(),
            None => 0,
        };
        while remaining > 0
            invariant
                graph_wf(self@),
                self@.dom() == g.dom(),
                g.dom().contains(node.0),
                graph_wf(g),
                remaining == self@[node.0].deps.len(),
                forall|k: u64|
                    #[trigger] g.dom().contains(k) ==> self@[k].name == g[k].name && self@[k].inputs
                        == g[k].inputs && self@[k].outputs == g[k].outputs,
                forall|k: u64| #[trigger] g.dom().contains(k) && k != node.0 ==> self@[k].deps
                    == g[k].deps,
                self@[node.0].dependents == g[node.0].dependents,
                forall|e: Edge| #[trigger] self@[node.0].deps.contains(e) ==> g[node.0].deps.contains(e),
                forall|k: u64, e: Edge|
                    g.dom().contains(k) ==> (#[trigger] self@[k].dependents.contains(e) <==> g[k].dependents.contains(
                        e,
                    ) && (e.node != node.0 || self@[node.0].deps.contains(mirror_of(k, e)))),
            decreases remaining,
        {
            let ghost pre = self@;
            let e0: Edge = match self.nodes.get(&node.0) {
                Some(n) => n.dependencies[0],
                None => {
                    proof {
                        assert(false);
                    }
                    return Err(Error::NodeDoesNotExist);
                },
            };
            proof {
                assert(pre[node.0].deps[0] == e0);
                assert(pre[node.0].deps.contains(e0));
                assert(pre.dom().contains(e0.node));
                assert(conn_ports_ok(pre, e0.node, e0.remote_port, node.0, e0.local_port));
                assert(conn_exists(pre, e0.node, e0.remote_port, node.0, e0.local_port));
            }
            let res = self.disconnect(
                (NodeHandle(e0.node), PortHandle(e0.remote_port)),
                (NodeHandle(node.0), PortHandle(e0.local_port)),
            );
            proof {
                assert(res is Ok);
                let dedge = Edge {
                    node: e0.node,
                    remote_port: e0.remote_port,
                    local_port: e0.local_port,
                };
                assert(dedge == e0);
                let dmir = Edge {
                    node: node.0,
                    remote_port: e0.local_port,
                    local_port: e0.remote_port,
                };
                assert(dmir == mirror_of(node.0, e0));
                assert(e0.node != node.0) by {
                    let r0 = choose|r0: Map<u64, nat>| rank_ok(pre, r0);
                    assert(r0[pre[node.0].deps[0].node] < r0[node.0]);
                }
                assert(self@ == pre.insert(
                    node.0,
                    NodeView { deps: without_edge(pre[node.0].deps, e0), ..pre[node.0] },
                ).insert(
                    e0.node,
                    NodeView {
                        dependents: without_edge(pre[e0.node].dependents, dmir),
                        ..pre[e0.node]
                    },
                ));
                lemma_without_edge_members(pre[node.0].deps, e0);
                lemma_without_edge_members(pre[e0.node].dependents, dmir);
                lemma_without_edge_shorter(pre[node.0].deps, e0);
                assert(edges_unique(pre[node.0].deps));
                lemma_remove_is_without(pre[node.0].deps, e0, 0);
                assert(self@[node.0].deps == pre[node.0].deps.remove(0));
                assert(self@[node.0].deps.len() == pre[node.0].deps.len() - 1);
                assert forall|k: u64, e: Edge|
                    g.dom().contains(k) implies (#[trigger] self@[k].dependents.contains(e) <==> g[k].dependents.contains(
                    e,
                ) && (e.node != node.0 || self@[node.0].deps.contains(mirror_of(k, e)))) by {
                    if k == e0.node {
                        assert(self@[k].dependents == without_edge(pre[k].dependents, dmir));
                        if e == dmir {
                            assert(mirror_of(k, dmir) == e0);
                            assert(!self@[node.0].deps.contains(e0));
                        } else {
                            if e.node == node.0 {
                                assert(mirror_of(k, e) != e0) by {
                                    if mirror_of(k, e) == e0 {
                                        assert(mirror_of(node.0, mirror_of(k, e)) == e);
                                        assert(mirror_of(node.0, e0) == dmir);
                                    }
                                }
                            }
                        }
                    } else {
                        assert(self@[k].dependents == pre[k].dependents);
                        if e.node == node.0 {
                            assert(mirror_of(k, e) != e0 ==> (self@[node.0].deps.contains(
                                mirror_of(k, e),
                            ) <==> pre[node.0].deps.contains(mirror_of(k, e))));
                            if mirror_of(k, e) == e0 {
                                assert(pre[k].dependents.contains(e) ==> false) by {
                                    if pre[k].dependents.contains(e) {
                                        assert(pre[e.node].deps.contains(mirror_of(k, e)));
                                        assert(pre[node.0].deps.contains(e0));
                                        assert(edges_unique(pre[node.0].deps));
                                        assert(pre[e0.node].dependents.contains(
                                            mirror_of(node.0, e0),
                                        )) by {
                                            let jj = choose|jj: int|
                                                0 <= jj < pre[node.0].deps.len() && pre[node.0].deps[jj]
                                                    == e0;
                                            assert(pre[node.0].deps[jj] == e0);
                                        }
                                        assert(k == e0.node);
                                    }
                                }
                            }
                        }
                    }
                }
            }
            remaining = remaining - 1;
        }
        // then remove every outgoing edge
        let ghost mid1 = self@;
        let mut remaining2: usize = match self.nodes.get(&node.0) {
            Some(n) => n.dependents.len(),
            None => 0,
        };
        while remaining2 > 0
            invariant
                graph_wf(self@),
                self@.dom() == g.dom(),
                g.dom().contains(node.0),
                graph_wf(g),
                remaining2 == self@[node.0].dependents.len(),
                forall|k: u64|
                    #[trigger] g.dom().contains(k) ==> self@[k].name == g[k].name && self@[k].inputs
                        == g[k].inputs && self@[k].outputs == g[k].outputs,
                self@[node.0].deps.len() == 0,
                forall|k: u64, e: Edge|
                    g.dom().contains(k) && k != node.0 ==> (#[trigger] self@[k].dependents.contains(
                        e,
                    ) <==> g[k].dependents.contains(e) && e.node != node.0),
                forall|e: Edge| #[trigger] self@[node.0].dependents.contains(e)
                    ==> g[node.0].dependents.contains(e),
                forall|k: u64, e: Edge|
                    g.dom().contains(k) ==> (#[trigger] self@[k].deps.contains(e) <==> g[k].deps.contains(
                        e,
                    ) && (e.node != node.0 || self@[node.0].dependents.contains(mirror_of(k, e)))
                        && k != node.0),
            decreases remaining2,
        {
            let ghost pre = self@;
            let e0: Edge = match self.nodes.get(&node.0) {
                Some(n) => n.dependents[0],
                None => {
                    proof {
                        assert(false);
                    }
                    return Err(Error::NodeDoesNotExist);
                },
            };
            proof {
                assert(pre[node.0].dependents[0] == e0);
                assert(pre[node.0].dependents.contains(e0));
                assert(pre.dom().contains(e0.node));
                assert(pre[e0.node].deps.contains(mirror_of(node.0, e0)));
                let m = mirror_of(node.0, e0);
                let jj = choose|jj: int|
                    0 <= jj < pre[e0.node].deps.len() && pre[e0.node].deps[jj] == m;
                assert(pre[e0.node].deps[jj] == m);
                assert(conn_ports_ok(pre, node.0, e0.local_port, e0.node, e0.remote_port));
                assert(conn_exists(pre, node.0, e0.local_port, e0.node, e0.remote_port));
            }
            let res = self.disconnect(
                (NodeHandle(node.0), PortHandle(e0.local_port)),
                (NodeHandle(e0.node), PortHandle(e0.remote_port)),
            );
            proof {
                assert(res is Ok);
                let dedge = mirror_of(node.0, e0);
                assert(e0.node != node.0) by {
                    let r0 = choose|r0: Map<u64, nat>| rank_ok(pre, r0);
                    let jj = choose|jj: int|
                        0 <= jj < pre[e0.node].deps.len() && pre[e0.node].deps[jj] == dedge;
                    assert(r0[pre[e0.node].deps[jj].node] < r0[e0.node]);
                }
                assert(self@ == pre.insert(
                    e0.node,
                    NodeView { deps: without_edge(pre[e0.node].deps, dedge), ..pre[e0.node] },
                ).insert(
                    node.0,
                    NodeView { dependents: without_edge(pre[node.0].dependents, e0), ..pre[node.0] },
                ));
                lemma_without_edge_members(pre[e0.node].deps, dedge);
                lemma_without_edge_members(pre[node.0].dependents, e0);
                assert(edges_unique(pre[node.0].dependents));
                lemma_remove_is_without(pre[node.0].dependents, e0, 0);
                assert(self@[node.0].dependents == pre[node.0].dependents.remove(0));
                assert(self@[node.0].dependents.len() == pre[node.0].dependents.len() - 1);
                assert forall|k: u64, e: Edge|
                    g.dom().contains(k) implies (#[trigger] self@[k].deps.contains(e) <==> g[k].deps.contains(
                    e,
                ) && (e.node != node.0 || self@[node.0].dependents.contains(mirror_of(k, e))) && k
                    != node.0) by {
                    assert(pre[k].deps.contains(e) <==> g[k].deps.contains(e) && (e.node != node.0
                        || pre[node.0].dependents.contains(mirror_of(k, e))) && k != node.0);
                    if k == e0.node {
                        assert(self@[k].deps == without_edge(pre[k].deps, dedge));
                        if e == dedge {
                            assert(mirror_of(k, dedge) == e0);
                            assert(!self@[node.0].dependents.contains(e0));
                        } else {
                            if e.node == node.0 {
                                assert(mirror_of(k, e) != e0 ==> (self@[node.0].dependents.contains(
                                    mirror_of(k, e),
                                ) <==> pre[node.0].dependents.contains(mirror_of(k, e))));
                                if mirror_of(k, e) == e0 {
                                    assert(mirror_of(node.0, mirror_of(k, e)) == e);
                                    assert(mirror_of(node.0, e0) == dedge);
                                }
                            }
                        }
                    } else {
                        assert(self@[k].deps == pre[k].deps);
                        if e.node == node.0 && pre[k].deps.contains(e) {
                            if mirror_of(k, e) == e0 {
                                let jj = choose|jj: int|
                                    0 <= jj < pre[k].deps.len() && pre[k].deps[jj] == e;
                                assert(pre[k].deps[jj] == e);
                                assert(pre[e.node].dependents.contains(mirror_of(k, e)));
                                assert(pre[node.0].dependents.contains(e0));
                                assert(k == e0.node) by {
                                    assert(pre[e0.node].deps.contains(mirror_of(node.0, e0)));
                                    assert(mirror_of(node.0, e0) == mirror_of(node.0, mirror_of(
                                        k,
                                        e,
                                    )));
                                    assert(mirror_of(node.0, mirror_of(k, e)).node == k);
                                }
                            } else {
                                assert(self@[node.0].dependents.contains(mirror_of(k, e))
                                    <==> pre[node.0].dependents.contains(mirror_of(k, e)));
                            }
                        }
                    }
                }
            }
            remaining2 = remaining2 - 1;
        }
        // finally remove the now isolated node
        let ghost mid2 = self@;
        let _ = self.nodes.remove(&node.0);
        proof {
            assert(self@ =~= mid2.remove(node.0));
            let g2 = self@;
            assert forall|m: u64| #[trigger] g2.dom().contains(m) implies ports_unique(
                g2[m].inputs,
            ) && ports_unique(g2[m].outputs) && edges_unique(g2[m].deps) && edges_unique(
                g2[m].dependents,
            ) by {
                assert(mid2.dom().contains(m));
            }
            assert forall|m: u64, i: int|
                g2.dom().contains(m) && 0 <= i < g2[m].deps.len() implies {
                let e = #[trigger] g2[m].deps[i];
                &&& g2.dom().contains(e.node)
                &&& g2[e.node].dependents.contains(mirror_of(m, e))
                &&& has_port(g2[e.node].outputs, e.remote_port)
                &&& has_port(g2[m].inputs, e.local_port)
                &&& g2[e.node].outputs[port_idx(g2[e.node].outputs, e.remote_port)].count
                    == g2[m].inputs[port_idx(g2[m].inputs, e.local_port)].count
                &&& g2[e.node].outputs[port_idx(g2[e.node].outputs, e.remote_port)].tag
                    == g2[m].inputs[port_idx(g2[m].inputs, e.local_port)].tag
            } by {
                let e = g2[m].deps[i];
                assert(mid2.dom().contains(m));
                assert(mid2[m].deps[i] == e);
                assert(mid2[m].deps.contains(e));
                assert(e.node != node.0);
            }
            assert forall|m: u64, i: int|
                g2.dom().contains(m) && 0 <= i < g2[m].dependents.len() implies {
                let e = #[trigger] g2[m].dependents[i];
                &&& g2.dom().contains(e.node)
                &&& g2[e.node].deps.contains(mirror_of(m, e))
            } by {
                let e = g2[m].dependents[i];
                assert(mid2.dom().contains(m));
                assert(mid2[m].dependents[i] == e);
                assert(mid2[m].dependents.contains(e));
                assert(e.node != node.0);
            }
            let r0 = choose|r0: Map<u64, nat>| rank_ok(mid2, r0);
            assert forall|m: u64, i: int|
                g2.dom().contains(m) && 0 <= i < g2[m].deps.len() implies r1_holds(
                mid2,
                g2,
                r0,
                m,
                i,
            ) by {
                assert(mid2.dom().contains(m));
                assert(r0[mid2[m].deps[i].node] < r0[m]);
            }
            assert(rank_ok(g2, r0));
        }
        Ok(())
    }
}


impl Graph {
    /// Whether a node with this identity exists.
    pub fn node_exists(&self, id: u64) -> (r: bool)
        ensures
            r == self@.dom().contains(id),
    {
        self.nodes.contains_key(&id)
    }

    /// The dependency list (incoming edges) of a node, in insertion order.
    pub fn deps_of(&self, id: u64) -> (r: Vec<Edge>)
        requires
            self@.dom().contains(id),
        ensures
            r@ == self@[id].deps,
    {
        let n = match self.nodes.get(&id) {
            Some(n) => n,
            None => {
                proof {
                    assert(false);
                }
                return Vec::new();
            },
        };
        let mut v: Vec<Edge> = Vec::new();
        let mut i: usize = 0;
        while i < n.dependencies.len()
            invariant
                i <= n.dependencies@.len(),
                v@ == n.dependencies@.take(i as int),
            decreases n.dependencies@.len() - i,
        {
            v.push(n.dependencies[i]);
            proof {
                assert(v@ =~= n.dependencies@.take(i + 1));
            }
            i = i + 1;
        }
        proof {
            assert(n.dependencies@.take(n.dependencies@.len() as int) =~= n.dependencies@);
        }
        v
    }

    /// The dependent list (outgoing edges) of a node, in insertion order.
    pub fn dependents_of(&self, id: u64) -> (r: Vec<Edge>)
        requires
            self@.dom().contains(id),
        ensures
            r@ == self@[id].dependents,
    {
        let n = match self.nodes.get(&id) {
            Some(n) => n,
            None => {
                proof {
                    assert(false);
                }
                return Vec::new();
            },
        };
        let mut v: Vec<Edge> = Vec::new();
        let mut i: usize = 0;
        while i < n.dependents.len()
            invariant
                i <= n.dependents@.len(),
                v@ == n.dependents@.take(i as int),
            decreases n.dependents@.len() - i,
        {
            v.push(n.dependents[i]);
            proof {
                assert(v@ =~= n.dependents@.take(i + 1));
            }
            i = i + 1;
        }
        proof {
            assert(n.dependents@.take(n.dependents@.len() as int) =~= n.dependents@);
        }
        v
    }

    /// The configuration of a port, by node, side and identity.
    pub fn port_config(&self, direction: Direction, node: u64, port: u64) -> (r: Option<
        ChannelConfiguration,
    >)
        requires
            graph_wf(self@),
            self@.dom().contains(node),
        ensures
            r is Some <==> has_port(side_of(self@[node], direction), port),
            r matches Some(c) ==> c.spec_count() == side_of(self@[node], direction)[port_idx(
                side_of(self@[node], direction),
                port,
            )].count && c.spec_tag() == side_of(self@[node], direction)[port_idx(
                side_of(self@[node], direction),
                port,
            )].tag,
    {
        let n = match self.nodes.get(&node) {
            Some(n) => n,
            None => {
                proof {
                    assert(false);
                }
                return None;
            },
        };
        let ports = match direction {
            Direction::Input => &n.inputs,
            Direction::Output => &n.outputs,
        };
        let ghost side = side_of(self@[node], direction);
        proof {
            assert(self@[node] == n@);
            assert(side == Seq::new(ports@.len(), |k: int| ports@[k]@));
            assert(ports_unique(side));
        }
        match port_lookup(ports, port) {
            Some(i) => {
                proof {
                    let pi = port_idx(side, port);
                    assert(0 <= pi < side.len() && side[pi].id == port);
                    assert(side[i as int].id == port);
                    assert(pi == i as int);
                }
                Some(ports[i].config.duplicate())
            },
            None => None,
        }
    }
}

} // verus!
