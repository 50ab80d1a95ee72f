//! The index-based audio graph of the engine: nodes are numbered in the order
//! they are added, each input port of a node is either disconnected or fed
//! from one output port of another node, and the description is rebuilt into
//! a processing graph on the audio thread, which keeps each node's processor
//! across rebuilds.
//!
//! Processors are carried as an opaque type parameter `P`; what they compute
//! is not the concern of this module.

use crate::bitset::{bitset_len, bitset_ones};
use crate::topology::{
    is_processing_order, processing_order, reachable_nodes, reachable_set, well_formed, Topology,
    lemma_well_formed_needed_nodes_present,
};
use fixedbitset::FixedBitSet;
use vstd::prelude::*;

verus! {

/// The number of a node in the graph.
#[derive(Clone, Copy, Debug, PartialEq, Eq, Structural, Hash)]
pub struct NodeId(pub usize);

/// What feeds one input port.
#[derive(Clone, Copy, Debug, PartialEq, Eq, Structural)]
pub enum InputConnection {
    Disconnected,
    Connected(NodeId, usize),
}

/// One node's wiring.
pub struct NodeDesc {
    pub id: NodeId,
    pub input_nodes: Vec<NodeId>,
    pub input_connections: Vec<InputConnection>,
    pub num_outputs: usize,
}

/// Copies a list of node numbers.
fn copy_ids(ids: &Vec<NodeId>) -> (out: Vec<NodeId>)
    ensures
        out@ == ids@,
{
    let mut out: Vec<NodeId> = Vec::with_capacity(ids.len());
    let mut k: usize = 0;
    while k < ids.len()
        invariant
            0 <= k <= ids@.len(),
            out@ == ids@.take(k as int),
        decreases ids@.len() - k,
    {
        out.push(ids[k]);
        proof {
            assert(ids@.take(k + 1) =~= ids@.take(k as int).push(ids@[k as int]));
        }
        k += 1;
    }
    proof {
        assert(ids@.take(ids@.len() as int) =~= ids@);
    }
    out
}

/// Copies a list of port connections.
fn copy_connections(conns: &Vec<InputConnection>) -> (out: Vec<InputConnection>)
    ensures
        out@ == conns@,
{
    let mut out: Vec<InputConnection> = Vec::with_capacity(conns.len());
    let mut k: usize = 0;
    while k < conns.len()
        invariant
            0 <= k <= conns@.len(),
            out@ == conns@.take(k as int),
        decreases conns@.len() - k,
    {
        out.push(conns[k]);
        proof {
            assert(conns@.take(k + 1) =~= conns@.take(k as int).push(conns@[k as int]));
        }
        k += 1;
    }
    proof {
        assert(conns@.take(conns@.len() as int) =~= conns@);
    }
    out
}

impl NodeDesc {
    /// A node with `num_inputs` disconnected input ports and `num_outputs`
    /// output ports.
    pub fn new(id: NodeId, num_inputs: usize, num_outputs: usize) -> (d: Self)
        ensures
            d.id == id,
            d.input_nodes@ == Seq::<NodeId>::empty(),
            d.input_connections@ == Seq::new(num_inputs as nat, |i: int| InputConnection::Disconnected),
            d.num_outputs == num_outputs,
    {
        let mut input_connections: Vec<InputConnection> = Vec::new();
        let mut k: usize = 0;
        while k < num_inputs
            invariant
                0 <= k <= num_inputs,
                input_connections@ == Seq::new(k as nat, |i: int| InputConnection::Disconnected),
            decreases num_inputs - k,
        {
            input_connections.push(InputConnection::Disconnected);
            proof {
                assert(input_connections@ =~= Seq::new((k + 1) as nat, |i: int| InputConnection::Disconnected));
            }
            k += 1;
        }
        NodeDesc { id, input_nodes: Vec::new(), input_connections, num_outputs }
    }

    /// A copy of this description.
    pub fn duplicate(&self) -> (d: Self)
        ensures
            d.id == self.id,
            d.input_nodes@ == self.input_nodes@,
            d.input_connections@ == self.input_connections@,
            d.num_outputs == self.num_outputs,
    {
        NodeDesc {
            id: self.id,
            input_nodes: copy_ids(&self.input_nodes),
            input_connections: copy_connections(&self.input_connections),
            num_outputs: self.num_outputs,
        }
    }
}

/// The nodes of a description: numbered by position, every input node and
/// every connected port naming a node of the description.
pub open spec fn nodes_well_formed(nodes: Seq<NodeDesc>) -> bool {
    &&& forall|i: int| 0 <= i < nodes.len() ==> (#[trigger] nodes[i]).id == NodeId(i as usize)
    &&& forall|i: int, k: int|
        0 <= i < nodes.len() && 0 <= k < nodes[i].input_nodes@.len() ==> (
        #[trigger] nodes[i].input_nodes@[k]).0 < nodes.len()
    &&& forall|i: int, k: int|
        0 <= i < nodes.len() && 0 <= k < nodes[i].input_connections@.len() ==> match (
        #[trigger] nodes[i].input_connections@[k]) {
            InputConnection::Connected(src, _) => src.0 < nodes.len(),
            InputConnection::Disconnected => true,
        }
}

/// A graph under construction on the main thread.
pub struct GraphDesc<P> {
    pub nodes: Vec<NodeDesc>,
    pub processors: Vec<Option<P>>,
    pub output_node: Option<NodeId>,
}

impl<P> GraphDesc<P> {
    pub open spec fn well_formed(&self) -> bool {
        &&& self.nodes@.len() == self.processors@.len()
        &&& nodes_well_formed(self.nodes@)
    }

    pub fn new() -> (g: Self)
        ensures
            g.well_formed(),
            g.nodes@.len() == 0,
            g.output_node is None,
    {
        GraphDesc { nodes: Vec::new(), processors: Vec::new(), output_node: None }
    }

    /// Adds a node with the given port counts and processor; its number is
    /// the number of nodes before.
    pub fn add_node(&mut self, num_inputs: usize, num_outputs: usize, processor: P) -> (id: NodeId)
        requires
            old(self).well_formed(),
            old(self).nodes@.len() < usize::MAX,
        ensures
            final(self).well_formed(),
            id == NodeId(old(self).nodes@.len() as usize),
            final(self).nodes@.len() == old(self).nodes@.len() + 1,
            forall|i: int| 0 <= i < old(self).nodes@.len() ==> #[trigger] final(self).nodes@[i] == old(self).nodes@[i],
            final(self).nodes@.last().id == id,
            final(self).nodes@.last().input_nodes@ == Seq::<NodeId>::empty(),
            final(self).nodes@.last().input_connections@ == Seq::new(num_inputs as nat, |i: int| InputConnection::Disconnected),
            final(self).nodes@.last().num_outputs == num_outputs,
            final(self).processors@ == old(self).processors@.push(Some(processor)),
            final(self).output_node == old(self).output_node,
    {
        let id = NodeId(self.nodes.len());
        self.nodes.push(NodeDesc::new(id, num_inputs, num_outputs));
        self.processors.push(Some(processor));
        proof {
            let n = self.nodes@;
            assert forall|i: int, k: int|
                0 <= i < n.len() && 0 <= k < n[i].input_connections@.len() implies match (
                #[trigger] n[i].input_connections@[k]) {
                    InputConnection::Connected(src, _) => src.0 < n.len(),
                    InputConnection::Disconnected => true,
                } by {
                if i < n.len() - 1 {
                    assert(n[i] == old(self).nodes@[i]);
                }
            }
            assert forall|i: int, k: int|
                0 <= i < n.len() && 0 <= k < n[i].input_nodes@.len() implies (
                #[trigger] n[i].input_nodes@[k]).0 < n.len() by {
                if i < n.len() - 1 {
                    assert(n[i] == old(self).nodes@[i]);
                }
            }
        }
        id
    }

    /// Feeds input port `dest_port` of `dest_node` from output port
    /// `src_port` of `src_node`, and lists `src_node` among `dest_node`'s
    /// input nodes if it is not there yet.
    pub fn connect(&mut self, dest_node: NodeId, dest_port: usize, src_node: NodeId, src_port: usize)
        requires
            old(self).well_formed(),
            dest_node != src_node,
            dest_node.0 < old(self).nodes@.len(),
            src_node.0 < old(self).nodes@.len(),
            dest_port < old(self).nodes@[dest_node.0 as int].input_connections@.len(),
            src_port < old(self).nodes@[src_node.0 as int].num_outputs,
        ensures
            final(self).well_formed(),
            final(self).processors == old(self).processors,
            final(self).output_node == old(self).output_node,
            connected(old(self).nodes@, final(self).nodes@, dest_node, dest_port, src_node, src_port),
    {
        let ghost before = self.nodes@;
        let mut dest = NodeDesc::new(NodeId(0), 0, 0);
        std::mem::swap(&mut dest, &mut self.nodes[dest_node.0]);
        if !contains_id(&dest.input_nodes, src_node) {
            dest.input_nodes.push(src_node);
        }
        dest.input_connections.set(dest_port, InputConnection::Connected(src_node, src_port));
        std::mem::swap(&mut dest, &mut self.nodes[dest_node.0]);
        proof {
            let n = self.nodes@;
            assert forall|i: int, k: int|
                0 <= i < n.len() && 0 <= k < n[i].input_connections@.len() implies match (
                #[trigger] n[i].input_connections@[k]) {
                    InputConnection::Connected(src, _) => src.0 < n.len(),
                    InputConnection::Disconnected => true,
                } by {
                if i != dest_node.0 {
                    assert(n[i] == before[i]);
                } else if k != dest_port {
                    assert(n[i].input_connections@[k] == before[i].input_connections@[k]);
                }
            }
            assert forall|i: int, k: int|
                0 <= i < n.len() && 0 <= k < n[i].input_nodes@.len() implies (
                #[trigger] n[i].input_nodes@[k]).0 < n.len() by {
                if i != dest_node.0 {
                    assert(n[i] == before[i]);
                } else if k < before[i].input_nodes@.len() {
                    assert(n[i].input_nodes@[k] == before[i].input_nodes@[k]);
                }
            }
            assert forall|i: int| 0 <= i < n.len() implies (#[trigger] n[i]).id == NodeId(i as usize) by {
                if i != dest_node.0 {
                    assert(n[i] == before[i]);
                }
            }
        }
    }

    /// Like `connect`, first adding disconnected input ports to `dest_node`
    /// until `dest_port` exists.
    pub fn connect_grow_input(
        &mut self,
        dest_node: NodeId,
        dest_port: usize,
        src_node: NodeId,
        src_port: usize,
    )
        requires
            old(self).well_formed(),
            dest_node != src_node,
            dest_node.0 < old(self).nodes@.len(),
            src_node.0 < old(self).nodes@.len(),
            dest_port < usize::MAX,
            src_port < old(self).nodes@[src_node.0 as int].num_outputs,
        ensures
            final(self).well_formed(),
            final(self).processors == old(self).processors,
            final(self).output_node == old(self).output_node,
            ({
                let grown = grown_ports(old(self).nodes@[dest_node.0 as int].input_connections@, dest_port);
                &&& final(self).nodes@.len() == old(self).nodes@.len()
                &&& forall|i: int| 0 <= i < old(self).nodes@.len() && i != dest_node.0 ==> #[trigger] final(self).nodes@[i] == old(self).nodes@[i]
                &&& final(self).nodes@[dest_node.0 as int].id == dest_node
                &&& final(self).nodes@[dest_node.0 as int].num_outputs == old(self).nodes@[dest_node.0 as int].num_outputs
                &&& final(self).nodes@[dest_node.0 as int].input_connections@ == grown.update(dest_port as int, InputConnection::Connected(src_node, src_port))
                &&& final(self).nodes@[dest_node.0 as int].input_nodes@ == added_input(old(self).nodes@[dest_node.0 as int].input_nodes@, src_node)
            }),
    {
        let ghost before = self.nodes@;
        let mut dest = NodeDesc::new(NodeId(0), 0, 0);
        std::mem::swap(&mut dest, &mut self.nodes[dest_node.0]);
        let ghost initial = dest.input_connections@;
        let ghost taken = dest;
        while dest.input_connections.len() <= dest_port
            invariant
                dest_port < usize::MAX,
                dest.id == taken.id,
                dest.input_nodes == taken.input_nodes,
                dest.num_outputs == taken.num_outputs,
                dest.input_connections@.len() >= initial.len(),
                dest.input_connections@ == initial + Seq::new(
                    (dest.input_connections@.len() - initial.len()) as nat,
                    |i: int| InputConnection::Disconnected,
                ),
                dest.input_connections@.len() <= if initial.len() > dest_port {
                    initial.len() as int
                } else {
                    dest_port + 1
                },
            decreases dest_port + 1 - dest.input_connections@.len(),
        {
            dest.input_connections.push(InputConnection::Disconnected);
            proof {
                assert(dest.input_connections@ =~= initial + Seq::new(
                    (dest.input_connections@.len() - initial.len()) as nat,
                    |i: int| InputConnection::Disconnected,
                ));
            }
        }
        proof {
            assert(dest.input_connections@ =~= grown_ports(initial, dest_port));
        }
        let ghost widened = dest;
        std::mem::swap(&mut dest, &mut self.nodes[dest_node.0]);
        proof {
            let n = self.nodes@;
            assert(n[dest_node.0 as int] == widened);
            assert(widened.id == before[dest_node.0 as int].id);
            assert(widened.input_nodes == before[dest_node.0 as int].input_nodes);
            assert forall|i: int, k: int|
                0 <= i < n.len() && 0 <= k < n[i].input_connections@.len() implies match (
                #[trigger] n[i].input_connections@[k]) {
                    InputConnection::Connected(src, _) => src.0 < n.len(),
                    InputConnection::Disconnected => true,
                } by {
                if i != dest_node.0 {
                    assert(n[i] == before[i]);
                } else if k < initial.len() {
                    assert(n[i].input_connections@[k] == before[i].input_connections@[k]);
                }
            }
            assert forall|i: int| 0 <= i < n.len() implies (#[trigger] n[i]).id == NodeId(i as usize) by {
                if i != dest_node.0 {
                    assert(n[i] == before[i]);
                }
            }
            assert forall|i: int, k: int|
                0 <= i < n.len() && 0 <= k < n[i].input_nodes@.len() implies (
                #[trigger] n[i].input_nodes@[k]).0 < n.len() by {
                if i != dest_node.0 {
                    assert(n[i] == before[i]);
                }
            }
        }
        self.connect(dest_node, dest_port, src_node, src_port);
    }

    /// Marks the node whose outputs the graph plays.
    pub fn set_output_node(&mut self, node_id: NodeId)
        requires
            old(self).well_formed(),
        ensures
            final(self).well_formed(),
            final(self).nodes == old(self).nodes,
            final(self).processors == old(self).processors,
            final(self).output_node == Some(node_id),
    {
        self.output_node = Some(node_id);
    }

    /// A copy of the description to hand to the audio thread, carrying the
    /// processors added since the last hand-over; this description keeps no
    /// processor.
    pub fn send(&mut self) -> (sent: Self)
        requires
            old(self).well_formed(),
        ensures
            final(self).well_formed(),
            sent.well_formed(),
            final(self).nodes == old(self).nodes,
            final(self).output_node == old(self).output_node,
            final(self).processors@.len() == old(self).processors@.len(),
            forall|i: int| 0 <= i < final(self).processors@.len() ==> #[trigger] final(self).processors@[i] is None,
            sent.processors == old(self).processors,
            sent.output_node == old(self).output_node,
            sent.nodes@.len() == old(self).nodes@.len(),
            forall|i: int| 0 <= i < sent.nodes@.len() ==> same_desc(#[trigger] sent.nodes@[i], old(self).nodes@[i]),
    {
        let mut processors: Vec<Option<P>> = Vec::new();
        let count = self.processors.len();
        let mut k: usize = 0;
        while k < count
            invariant
                0 <= k <= count,
                processors@.len() == k,
                forall|i: int| 0 <= i < k ==> #[trigger] processors@[i] is None,
            decreases count - k,
        {
            processors.push(None);
            k += 1;
        }
        std::mem::swap(&mut processors, &mut self.processors);
        let mut nodes: Vec<NodeDesc> = Vec::with_capacity(self.nodes.len());
        let mut k: usize = 0;
        while k < self.nodes.len()
            invariant
                0 <= k <= self.nodes@.len(),
                nodes@.len() == k,
                forall|i: int| 0 <= i < k ==> same_desc(#[trigger] nodes@[i], self.nodes@[i]),
            decreases self.nodes@.len() - k,
        {
            nodes.push(self.nodes[k].duplicate());
            k += 1;
        }
        proof {
            let n = nodes@;
            let o = self.nodes@;
            assert forall|i: int| 0 <= i < n.len() implies (#[trigger] n[i]).id == NodeId(i as usize) by {
                assert(same_desc(n[i], o[i]));
            }
            assert forall|i: int, k: int|
                0 <= i < n.len() && 0 <= k < n[i].input_nodes@.len() implies (
                #[trigger] n[i].input_nodes@[k]).0 < n.len() by {
                assert(same_desc(n[i], o[i]));
                assert(n[i].input_nodes@[k] == o[i].input_nodes@[k]);
            }
            assert forall|i: int, k: int|
                0 <= i < n.len() && 0 <= k < n[i].input_connections@.len() implies match (
                #[trigger] n[i].input_connections@[k]) {
                    InputConnection::Connected(src, _) => src.0 < n.len(),
                    InputConnection::Disconnected => true,
                } by {
                assert(same_desc(n[i], o[i]));
                assert(n[i].input_connections@[k] == o[i].input_connections@[k]);
            }
        }
        GraphDesc { nodes, processors, output_node: self.output_node }
    }
}

/// The numbers of a list of nodes.
pub open spec fn raw_ids(ids: Seq<NodeId>) -> Seq<usize> {
    ids.map_values(|id: NodeId| id.0)
}

/// Two descriptions hold the same wiring.
pub open spec fn same_desc(a: NodeDesc, b: NodeDesc) -> bool {
    &&& a.id == b.id
    &&& a.input_nodes@ == b.input_nodes@
    &&& a.input_connections@ == b.input_connections@
    &&& a.num_outputs == b.num_outputs
}

/// `ports` with disconnected ports added until port `port` exists.
pub open spec fn grown_ports(ports: Seq<InputConnection>, port: usize) -> Seq<InputConnection> {
    if ports.len() > port {
        ports
    } else {
        ports + Seq::new((port + 1 - ports.len()) as nat, |i: int| InputConnection::Disconnected)
    }
}

/// `nodes` with `src` appended unless it is there already.
pub open spec fn added_input(nodes: Seq<NodeId>, src: NodeId) -> Seq<NodeId> {
    if nodes.contains(src) {
        nodes
    } else {
        nodes.push(src)
    }
}

/// The wiring after connecting `src_node`'s port `src_port` into
/// `dest_node`'s port `dest_port`.
pub open spec fn connected(
    before: Seq<NodeDesc>,
    after: Seq<NodeDesc>,
    dest_node: NodeId,
    dest_port: usize,
    src_node: NodeId,
    src_port: usize,
) -> bool {
    &&& after.len() == before.len()
    &&& forall|i: int| 0 <= i < before.len() && i != dest_node.0 ==> #[trigger] after[i] == before[i]
    &&& after[dest_node.0 as int].id == before[dest_node.0 as int].id
    &&& after[dest_node.0 as int].num_outputs == before[dest_node.0 as int].num_outputs
    &&& after[dest_node.0 as int].input_connections@ == before[dest_node.0 as int].input_connections@.update(
        dest_port as int,
        InputConnection::Connected(src_node, src_port),
    )
    &&& after[dest_node.0 as int].input_nodes@ == added_input(before[dest_node.0 as int].input_nodes@, src_node)
}

/// Whether `ids` holds `id`.
fn contains_id(ids: &Vec<NodeId>, id: NodeId) -> (found: bool)
    ensures
        found == ids@.contains(id),
{
    let mut k: usize = 0;
    while k < ids.len()
        invariant
            0 <= k <= ids@.len(),
            forall|i: int| 0 <= i < k ==> ids@[i] != id,
        decreases ids@.len() - k,
    {
        if ids[k] == id {
            return true;
        }
        k += 1;
    }
    false
}

/// A processing node: its wiring and its processor.
pub struct Node<P> {
    pub desc: NodeDesc,
    pub processor: P,
}

/// The graph the audio thread processes.
pub struct Graph<P> {
    pub nodes: Vec<Node<P>>,
    pub output_node: Option<NodeId>,
}

/// The processor slot `i` of a new graph gets: the one sent with the
/// description, or else the one the previous graph ran at that position.
pub open spec fn merged_processor<P>(desc: GraphDesc<P>, old_graph: Option<Graph<P>>, i: int) -> P {
    match desc.processors@[i] {
        Some(p) => p,
        None => old_graph.unwrap().nodes@[i].processor,
    }
}

impl<P> Graph<P> {
    /// Builds the graph for a description received from the main thread.
    /// Nodes whose processor was already handed over take it from the graph
    /// being replaced.
    pub fn new(desc: GraphDesc<P>, old_graph: Option<Graph<P>>) -> (g: Self)
        requires
            desc.well_formed(),
            forall|i: int| 0 <= i < desc.processors@.len() && #[trigger] desc.processors@[i] is None ==> (old_graph is Some && i < old_graph.unwrap().nodes@.len()),
        ensures
            g.nodes@.len() == desc.nodes@.len(),
            g.output_node == desc.output_node,
            forall|i: int| 0 <= i < g.nodes@.len() ==> (#[trigger] g.nodes@[i]).desc == desc.nodes@[i],
            forall|i: int| 0 <= i < g.nodes@.len() ==> (#[trigger] g.nodes@[i]).processor == merged_processor(desc, old_graph, i),
            g.well_formed(),
    {
        let ghost desc0 = desc;
        let GraphDesc { nodes: desc_nodes, processors: desc_processors, output_node } = desc;
        let mut old_processors: Vec<Option<P>> = Vec::new();
        match old_graph {
            Some(old) => {
                let mut old_nodes = old.nodes;
                let ghost on = old_nodes@;
                let mut taken: Vec<Option<P>> = Vec::new();
                while old_nodes.len() > 0
                    invariant
                        on.len() == old_nodes@.len() + taken@.len(),
                        forall|i: int| 0 <= i < old_nodes@.len() ==> #[trigger] old_nodes@[i] == on[i],
                        forall|i: int| 0 <= i < taken@.len() ==> #[trigger] taken@[i] == Some(on[on.len() - 1 - i].processor),
                    decreases old_nodes@.len(),
                {
                    let node = old_nodes.pop().unwrap();
                    taken.push(Some(node.processor));
                }
                while taken.len() > 0
                    invariant
                        on.len() == old_processors@.len() + taken@.len(),
                        forall|i: int| 0 <= i < taken@.len() ==> #[trigger] taken@[i] == Some(on[on.len() - 1 - i].processor),
                        forall|i: int| 0 <= i < old_processors@.len() ==> #[trigger] old_processors@[i] == Some(on[i].processor),
                    decreases taken@.len(),
                {
                    let p = taken.pop().unwrap();
                    old_processors.push(p);
                }
            },
            None => {},
        }
        let mut nodes_rev: Vec<NodeDesc> = Vec::new();
        let mut procs_rev: Vec<Option<P>> = Vec::new();
        let mut desc_nodes = desc_nodes;
        let mut desc_processors = desc_processors;
        let count = desc_nodes.len();
        while desc_nodes.len() > 0
            invariant
                count == desc0.nodes@.len(),
                desc_nodes@.len() == desc_processors@.len(),
                count == desc_nodes@.len() + nodes_rev@.len(),
                nodes_rev@.len() == procs_rev@.len(),
                forall|i: int| 0 <= i < desc_nodes@.len() ==> #[trigger] desc_nodes@[i] == desc0.nodes@[i],
                forall|i: int| 0 <= i < desc_processors@.len() ==> #[trigger] desc_processors@[i] == desc0.processors@[i],
                forall|i: int| 0 <= i < nodes_rev@.len() ==> #[trigger] nodes_rev@[i] == desc0.nodes@[count - 1 - i],
                forall|i: int| 0 <= i < procs_rev@.len() ==> #[trigger] procs_rev@[i] == desc0.processors@[count - 1 - i],
            decreases desc_nodes@.len(),
        {
            nodes_rev.push(desc_nodes.pop().unwrap());
            procs_rev.push(desc_processors.pop().unwrap());
        }
        let mut nodes: Vec<Node<P>> = Vec::with_capacity(count);
        let mut old_processors = old_processors;
        let ghost olds = old_processors@;
        while nodes_rev.len() > 0
            invariant
                desc0.well_formed(),
                count == desc0.nodes@.len(),
                count == desc0.processors@.len(),
                count == nodes@.len() + nodes_rev@.len(),
                nodes_rev@.len() == procs_rev@.len(),
                forall|i: int| 0 <= i < nodes_rev@.len() ==> #[trigger] nodes_rev@[i] == desc0.nodes@[count - 1 - i],
                forall|i: int| 0 <= i < procs_rev@.len() ==> #[trigger] procs_rev@[i] == desc0.processors@[count - 1 - i],
                forall|i: int| 0 <= i < nodes@.len() ==> (#[trigger] nodes@[i]).desc == desc0.nodes@[i],
                forall|i: int| 0 <= i < nodes@.len() ==> (#[trigger] nodes@[i]).processor == merged_processor(desc0, old_graph, i),
                forall|i: int| 0 <= i < desc0.processors@.len() && #[trigger] desc0.processors@[i] is None ==> (old_graph is Some && i < old_graph.unwrap().nodes@.len()),
                old_graph matches Some(o) ==> old_processors@.len() == o.nodes@.len(),
                old_graph matches Some(o) ==> forall|i: int| 0 <= i < old_processors@.len() && i >= nodes@.len() ==> #[trigger] old_processors@[i] == Some(o.nodes@[i].processor),
            decreases nodes_rev@.len(),
        {
            let i = nodes.len();
            let desc_i = nodes_rev.pop().unwrap();
            let proc_i = procs_rev.pop().unwrap();
            let processor = match proc_i {
                Some(p) => p,
                None => {
                    let mut slot: Option<P> = None;
                    std::mem::swap(&mut slot, &mut old_processors[i]);
                    slot.unwrap()
                },
            };
            nodes.push(Node { desc: desc_i, processor });
        }
        Graph { nodes, output_node }
    }

    pub open spec fn well_formed(&self) -> bool {
        &&& nodes_well_formed(Seq::new(self.nodes@.len(), |i: int| self.nodes@[i].desc))
    }

    /// The node numbered `node_id`.
    pub fn get_node(&self, node_id: &NodeId) -> (node: &Node<P>)
        requires
            node_id.0 < self.nodes@.len(),
        ensures
            *node == self.nodes@[node_id.0 as int],
    {
        &self.nodes[node_id.0]
    }

    /// The nodes a run for `start` needs.
    pub fn get_reachable_nodes(&self, start: NodeId) -> (reached: FixedBitSet)
        requires
            self.well_formed(),
            start.0 < self.nodes@.len(),
        ensures
            bitset_ones(reached) == reachable_set(self, start.0),
            bitset_len(reached) == self.nodes@.len(),
    {
        proof {
            self.lemma_topology_well_formed();
            lemma_well_formed_needed_nodes_present(self, start.0);
        }
        reachable_nodes(self, start.0)
    }

    /// The order in which a run for `start` processes the nodes.
    pub fn build_breadth_first_traversal(&self, start: NodeId) -> (order: Vec<NodeId>)
        requires
            self.well_formed(),
            start.0 < self.nodes@.len(),
        ensures
            is_processing_order(self, start.0, raw_ids(order@)),
    {
        proof {
            self.lemma_topology_well_formed();
            lemma_well_formed_needed_nodes_present(self, start.0);
        }
        let ordered = processing_order(self, start.0);
        let mut ids: Vec<NodeId> = Vec::with_capacity(ordered.len());
        let mut k: usize = 0;
        while k < ordered.len()
            invariant
                0 <= k <= ordered@.len(),
                raw_ids(ids@) == ordered@.take(k as int),
            decreases ordered@.len() - k,
        {
            let ghost prev = ids@;
            ids.push(NodeId(ordered[k]));
            proof {
                assert(raw_ids(ids@) =~= raw_ids(prev).push(ordered@[k as int]));
                assert(ordered@.take(k + 1) =~= ordered@.take(k as int).push(ordered@[k as int]));
            }
            k += 1;
        }
        proof {
            assert(ordered@.take(ordered@.len() as int) =~= ordered@);
        }
        ids
    }

    proof fn lemma_topology_well_formed(&self)
        requires
            self.well_formed(),
        ensures
            well_formed(self),
    {
        let ds = Seq::new(self.nodes@.len(), |i: int| self.nodes@[i].desc);
        assert forall|i: usize, j: int|
            self.occupied(i) && 0 <= j < self.inputs(i).len() implies self.occupied(
            #[trigger] self.inputs(i)[j],
        ) by {
            assert(ds[i as int] == self.nodes@[i as int].desc);
            assert(ds[i as int].input_nodes@[j].0 < ds.len());
        }
    }
}

impl<P> Topology for Graph<P> {
    open spec fn slot_count(&self) -> nat {
        self.nodes@.len()
    }

    open spec fn occupied(&self, i: usize) -> bool {
        i < self.nodes@.len()
    }

    open spec fn inputs(&self, i: usize) -> Seq<usize> {
        raw_ids(self.nodes@[i as int].desc.input_nodes@)
    }

    open spec fn always_runs(&self, i: usize) -> bool {
        false
    }

    fn num_slots(&self) -> (n: usize) {
        self.nodes.len()
    }

    fn is_occupied(&self, i: usize) -> (b: bool) {
        true
    }

    fn num_inputs(&self, i: usize) -> (n: usize) {
        self.nodes[i].desc.input_nodes.len()
    }

    fn input(&self, i: usize, j: usize) -> (r: usize) {
        self.nodes[i].desc.input_nodes[j].0
    }

    fn is_always_run(&self, i: usize) -> (b: bool) {
        false
    }

    /// Nodes that may run are taken by ascending number.
    open spec fn rank(&self, i: usize) -> usize {
        i
    }

    fn node_rank(&self, i: usize) -> (r: usize) {
        i
    }

    proof fn lemma_rank_injective(&self, a: usize, b: usize) {
    }
}

/// The main thread's side of the graph: the description being edited, and
/// whether it changed since it was last handed to the audio thread.
pub struct AudioGraph<P> {
    pub modified: bool,
    pub graph_desc: GraphDesc<P>,
}

impl<P> AudioGraph<P> {
    pub open spec fn well_formed(&self) -> bool {
        self.graph_desc.well_formed()
    }

    /// An empty graph, with nothing to hand over.
    pub fn new() -> (g: Self)
        ensures
            g.well_formed(),
            !g.modified,
            g.graph_desc.nodes@.len() == 0,
            g.graph_desc.output_node is None,
    {
        AudioGraph { modified: false, graph_desc: GraphDesc::new() }
    }

    /// Adds a node (see `GraphDesc::add_node`).
    pub fn add_node(&mut self, num_inputs: usize, num_outputs: usize, processor: P) -> (id: NodeId)
        requires
            old(self).well_formed(),
            old(self).graph_desc.nodes@.len() < usize::MAX,
        ensures
            final(self).well_formed(),
            final(self).modified,
            id == NodeId(old(self).graph_desc.nodes@.len() as usize),
            final(self).graph_desc.nodes@.len() == old(self).graph_desc.nodes@.len() + 1,
            forall|i: int| 0 <= i < old(self).graph_desc.nodes@.len() ==> #[trigger] final(self).graph_desc.nodes@[i] == old(self).graph_desc.nodes@[i],
            final(self).graph_desc.nodes@.last().id == id,
            final(self).graph_desc.nodes@.last().input_nodes@ == Seq::<NodeId>::empty(),
            final(self).graph_desc.nodes@.last().input_connections@ == Seq::new(
                num_inputs as nat,
                |i: int| InputConnection::Disconnected,
            ),
            final(self).graph_desc.nodes@.last().num_outputs == num_outputs,
            final(self).graph_desc.processors@ == old(self).graph_desc.processors@.push(Some(processor)),
            final(self).graph_desc.output_node == old(self).graph_desc.output_node,
    {
        self.modified = true;
        self.graph_desc.add_node(num_inputs, num_outputs, processor)
    }

    /// Connects two nodes (see `GraphDesc::connect`).
    pub fn connect(&mut self, dest_node: NodeId, dest_port: usize, src_node: NodeId, src_port: usize)
        requires
            old(self).well_formed(),
            dest_node != src_node,
            dest_node.0 < old(self).graph_desc.nodes@.len(),
            src_node.0 < old(self).graph_desc.nodes@.len(),
            dest_port < old(self).graph_desc.nodes@[dest_node.0 as int].input_connections@.len(),
            src_port < old(self).graph_desc.nodes@[src_node.0 as int].num_outputs,
        ensures
            final(self).well_formed(),
            final(self).modified,
            final(self).graph_desc.processors == old(self).graph_desc.processors,
            final(self).graph_desc.output_node == old(self).graph_desc.output_node,
            connected(old(self).graph_desc.nodes@, final(self).graph_desc.nodes@, dest_node, dest_port, src_node, src_port),
    {
        self.modified = true;
        self.graph_desc.connect(dest_node, dest_port, src_node, src_port);
    }

    /// Connects two nodes, growing the inputs of `dest_node` as needed (see
    /// `GraphDesc::connect_grow_input`).
    pub fn connect_grow_input(&mut self, dest_node: NodeId, dest_port: usize, src_node: NodeId, src_port: usize)
        requires
            old(self).well_formed(),
            dest_node != src_node,
            dest_node.0 < old(self).graph_desc.nodes@.len(),
            src_node.0 < old(self).graph_desc.nodes@.len(),
            dest_port < usize::MAX,
            src_port < old(self).graph_desc.nodes@[src_node.0 as int].num_outputs,
        ensures
            final(self).well_formed(),
            final(self).modified,
            final(self).graph_desc.processors == old(self).graph_desc.processors,
            final(self).graph_desc.output_node == old(self).graph_desc.output_node,
            final(self).graph_desc.nodes@.len() == old(self).graph_desc.nodes@.len(),
            forall|i: int| 0 <= i < old(self).graph_desc.nodes@.len() && i != dest_node.0 ==> #[trigger] final(self).graph_desc.nodes@[i] == old(self).graph_desc.nodes@[i],
            final(self).graph_desc.nodes@[dest_node.0 as int].id == dest_node,
            final(self).graph_desc.nodes@[dest_node.0 as int].num_outputs == old(self).graph_desc.nodes@[dest_node.0 as int].num_outputs,
            final(self).graph_desc.nodes@[dest_node.0 as int].input_connections@ == grown_ports(
                old(self).graph_desc.nodes@[dest_node.0 as int].input_connections@,
                dest_port,
            ).update(dest_port as int, InputConnection::Connected(src_node, src_port)),
            final(self).graph_desc.nodes@[dest_node.0 as int].input_nodes@ == added_input(old(self).graph_desc.nodes@[dest_node.0 as int].input_nodes@, src_node),
    {
        self.modified = true;
        self.graph_desc.connect_grow_input(dest_node, dest_port, src_node, src_port);
    }

    /// Marks the node whose outputs the graph plays.
    pub fn set_output_node(&mut self, node_id: NodeId)
        requires
            old(self).well_formed(),
        ensures
            final(self).well_formed(),
            final(self).modified,
            final(self).graph_desc.nodes == old(self).graph_desc.nodes,
            final(self).graph_desc.processors == old(self).graph_desc.processors,
            final(self).graph_desc.output_node == Some(node_id),
    {
        self.modified = true;
        self.graph_desc.set_output_node(node_id);
    }

    /// The description to hand to the audio thread, when it changed since
    /// the last hand-over (see `GraphDesc::send`); nothing otherwise.
    pub fn update(&mut self) -> (sent: Option<GraphDesc<P>>)
        requires
            old(self).well_formed(),
        ensures
            final(self).well_formed(),
            !final(self).modified,
            final(self).graph_desc.nodes == old(self).graph_desc.nodes,
            final(self).graph_desc.output_node == old(self).graph_desc.output_node,
            !old(self).modified ==> sent is None && final(self).graph_desc.processors == old(self).graph_desc.processors,
            old(self).modified ==> (sent matches Some(d) && {
                &&& d.well_formed()
                &&& d.processors == old(self).graph_desc.processors
                &&& d.output_node == old(self).graph_desc.output_node
                &&& d.nodes@.len() == old(self).graph_desc.nodes@.len()
                &&& forall|i: int| 0 <= i < d.nodes@.len() ==> same_desc(#[trigger] d.nodes@[i], old(self).graph_desc.nodes@[i])
                &&& final(self).graph_desc.processors@.len() == old(self).graph_desc.processors@.len()
                &&& forall|i: int| 0 <= i < final(self).graph_desc.processors@.len() ==> #[trigger] final(self).graph_desc.processors@[i] is None
            }),
    {
        if self.modified {
            self.modified = false;
            Some(self.graph_desc.send())
        } else {
            None
        }
    }
}

/// The audio thread's side: the graph it processes, once it has one.
pub struct AudioGraphWorker<P> {
    pub graph: Option<Graph<P>>,
}

/// A description can replace `old_graph`: it is well formed, and every
/// processor it does not carry ran at the same position in
/// the graph it replaces.
pub open spec fn can_replace<P>(desc: GraphDesc<P>, old_graph: Option<Graph<P>>) -> bool {
    &&& desc.well_formed()
    &&& forall|i: int| 0 <= i < desc.processors@.len() && #[trigger] desc.processors@[i] is None ==> (old_graph is Some && i < old_graph.unwrap().nodes@.len())
}

impl<P> AudioGraphWorker<P> {
    pub fn new() -> (w: Self)
        ensures
            w.graph is None,
    {
        AudioGraphWorker { graph: None }
    }

    /// Takes the descriptions that arrived since the last tick; only the
    /// latest counts, and the graph built from it replaces the current one.
    pub fn receive(&mut self, descs: Vec<GraphDesc<P>>)
        requires
            descs@.len() > 0 ==> can_replace(descs@.last(), old(self).graph),
        ensures
            descs@.len() == 0 ==> final(self).graph == old(self).graph,
            descs@.len() > 0 ==> (final(self).graph matches Some(g) && {
                let d = descs@.last();
                &&& g.well_formed()
                &&& g.nodes@.len() == d.nodes@.len()
                &&& g.output_node == d.output_node
                &&& forall|i: int| 0 <= i < g.nodes@.len() ==> (#[trigger] g.nodes@[i]).desc == d.nodes@[i]
                &&& forall|i: int| 0 <= i < g.nodes@.len() ==> (#[trigger] g.nodes@[i]).processor == merged_processor(d, old(self).graph, i)
            }),
    {
        let mut descs = descs;
        match descs.pop() {
            None => {},
            Some(latest) => {
                let old_graph = self.graph.take();
                self.graph = Some(Graph::new(latest, old_graph));
            },
        }
    }
}

/// The built-in node that mixes its inputs.
#[derive(Clone, Copy, Debug)]
pub struct Summer;

/// The input reads port `channel` of its source.
pub open spec fn reads_port(channel: usize) -> spec_fn(InputConnection) -> bool {
    |c: InputConnection| c matches InputConnection::Connected(_, n) && n == channel
}

/// The source node and port of a connected input.
pub open spec fn source_of(c: InputConnection) -> (NodeId, usize) {
    match c {
        InputConnection::Connected(node, port) => (node, port),
        InputConnection::Disconnected => (NodeId(0), 0),
    }
}

impl Summer {
    /// The outputs that the summer adds up into its output channel
    /// `channel`: port `channel` of each source connected to one of its
    /// inputs through that port, in the order of the inputs.  (The samples
    /// themselves are added in floating point by the processor.)
    pub fn sources_for(&self, input_connections: &Vec<InputConnection>, channel: usize) -> (sources: Vec<(NodeId, usize)>)
        ensures
            sources@ == input_connections@.filter(reads_port(channel)).map_values(|c: InputConnection| source_of(c)),
    {
        let ghost conns = input_connections@;
        let mut sources: Vec<(NodeId, usize)> = Vec::new();
        let mut k: usize = 0;
        while k < input_connections.len()
            invariant
                conns == input_connections@,
                0 <= k <= conns.len(),
                sources@ == conns.take(k as int).filter(reads_port(channel)).map_values(|c: InputConnection| source_of(c)),
            decreases conns.len() - k,
        {
            let c = input_connections[k];
            proof {
                assert(conns.take(k + 1) =~= conns.take(k as int).push(c));
                conns.take(k as int).lemma_filter_push(c, reads_port(channel));
            }
            match c {
                InputConnection::Connected(node, port) => {
                    if port == channel {
                        sources.push((node, port));
                        proof {
                            let f = conns.take(k as int).filter(reads_port(channel));
                            assert(f.push(c).map_values(|c: InputConnection| source_of(c)) =~= f.map_values(
                                |c: InputConnection| source_of(c),
                            ).push((node, port)));
                        }
                    }
                },
                InputConnection::Disconnected => {},
            }
            k += 1;
        }
        proof {
            assert(conns.take(conns.len() as int) =~= conns);
        }
        sources
    }
}

} // verus!
