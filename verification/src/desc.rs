//! The port-indexed form of a node description: each input port holds at
//! most one connection, and connecting a port replaces what fed it.

use crate::node::{insert_in_entity_order, is_in_entity_order, lists_in_order};
use crate::world::PortKind;
use vstd::prelude::*;

verus! {

/// What feeds one input port: nothing, or port `.1` of entity `.0`.
#[derive(Clone, Copy, Debug, PartialEq, Eq, Structural)]
pub enum InputConnection {
    Disconnected,
    Connected(usize, usize),
}

/// The port is fed from entity `e`.
pub open spec fn feeds_from(c: InputConnection, e: usize) -> bool {
    match c {
        InputConnection::Connected(s, _) => s == e,
        InputConnection::Disconnected => false,
    }
}

/// The entities that feed some port of `conns`.
pub open spec fn port_sources(conns: Seq<InputConnection>) -> Set<usize> {
    Set::new(|e: usize| exists|k: int| 0 <= k < conns.len() && #[trigger] feeds_from(conns[k], e))
}

/// A node description with one connection slot per input port.
#[derive(Clone, Debug)]
pub struct Node {
    pub inputs: Vec<usize>,
    pub audio_input_connections: Vec<InputConnection>,
    pub event_input_connections: Vec<InputConnection>,
    pub num_audio_outputs: usize,
    pub num_event_outputs: usize,
}

/// `n` disconnected ports.
pub open spec fn disconnected_ports(n: nat) -> Seq<InputConnection> {
    Seq::new(n, |i: int| InputConnection::Disconnected)
}

fn disconnected(n: usize) -> (ports: Vec<InputConnection>)
    ensures
        ports@ == disconnected_ports(n as nat),
{
    let mut ports: Vec<InputConnection> = Vec::new();
    let mut k: usize = 0;
    while k < n
        invariant
            0 <= k <= n,
            ports@ == disconnected_ports(k as nat),
        decreases n - k,
    {
        ports.push(InputConnection::Disconnected);
        k += 1;
        assert(ports@ =~= disconnected_ports(k as nat));
    }
    ports
}

/// Adds the sources of `conns` to a list of entities in entity order.
fn add_port_sources(nodes: &mut Vec<usize>, conns: &Vec<InputConnection>)
    requires
        is_in_entity_order(old(nodes)@),
    ensures
        is_in_entity_order(final(nodes)@),
        final(nodes)@.to_set() == old(nodes)@.to_set().union(port_sources(conns@)),
{
    let ghost start = nodes@.to_set();
    let mut k: usize = 0;
    while k < conns.len()
        invariant
            0 <= k <= conns@.len(),
            is_in_entity_order(nodes@),
            nodes@.to_set() == start.union(port_sources(conns@.take(k as int))),
        decreases conns@.len() - k,
    {
        let ghost before = conns@.take(k as int);
        let ghost after = conns@.take(k + 1);
        match conns[k] {
            InputConnection::Connected(src, _) => {
                insert_in_entity_order(nodes, src);
                proof {
                    assert forall|e: usize| #[trigger] port_sources(after).contains(e) == (port_sources(before).contains(e) || e == src) by {
                        assert(after[k as int] == conns@[k as int]);
                        if port_sources(after).contains(e) {
                            let j = choose|j: int| 0 <= j < after.len() && #[trigger] feeds_from(after[j], e);
                            if j < k {
                                assert(before[j] == after[j]);
                                assert(feeds_from(before[j], e));
                            }
                        }
                        if port_sources(before).contains(e) {
                            let j = choose|j: int| 0 <= j < before.len() && #[trigger] feeds_from(before[j], e);
                            assert(after[j] == before[j]);
                            assert(feeds_from(after[j], e));
                        }
                        if e == src {
                            assert(feeds_from(after[k as int], e));
                        }
                    }
                    assert(port_sources(after) =~= port_sources(before).insert(src));
                }
            },
            InputConnection::Disconnected => {
                proof {
                    assert forall|e: usize| #[trigger] port_sources(after).contains(e) == port_sources(before).contains(e) by {
                        assert(after[k as int] == conns@[k as int]);
                        if port_sources(after).contains(e) {
                            let j = choose|j: int| 0 <= j < after.len() && #[trigger] feeds_from(after[j], e);
                            if j < k {
                                assert(before[j] == after[j]);
                                assert(feeds_from(before[j], e));
                            }
                        }
                        if port_sources(before).contains(e) {
                            let j = choose|j: int| 0 <= j < before.len() && #[trigger] feeds_from(before[j], e);
                            assert(after[j] == before[j]);
                            assert(feeds_from(after[j], e));
                        }
                    }
                    assert(port_sources(after) =~= port_sources(before));
                }
            },
        }
        k += 1;
    }
    proof {
        assert(conns@.take(conns@.len() as int) =~= conns@);
    }
}

impl Node {
    /// The entities this node reads from.
    pub open spec fn source_nodes(&self) -> Set<usize> {
        port_sources(self.audio_input_connections@).union(port_sources(self.event_input_connections@))
    }

    /// The connections of one side.
    pub open spec fn ports(&self, kind: PortKind) -> Seq<InputConnection> {
        match kind {
            PortKind::Audio => self.audio_input_connections@,
            PortKind::Event => self.event_input_connections@,
        }
    }

    /// The number of outputs of one side.
    pub open spec fn outputs(&self, kind: PortKind) -> usize {
        match kind {
            PortKind::Audio => self.num_audio_outputs,
            PortKind::Event => self.num_event_outputs,
        }
    }

    /// A node without ports.
    pub fn new() -> (n: Self)
        ensures
            n.inputs@.len() == 0,
            n.audio_input_connections@.len() == 0,
            n.event_input_connections@.len() == 0,
            n.num_audio_outputs == 0,
            n.num_event_outputs == 0,
    {
        Node {
            inputs: Vec::new(),
            audio_input_connections: Vec::new(),
            event_input_connections: Vec::new(),
            num_audio_outputs: 0,
            num_event_outputs: 0,
        }
    }

    /// The same node with fresh, disconnected audio ports.
    pub fn audio(self, num_audio_inputs: usize, num_audio_outputs: usize) -> (n: Self)
        ensures
            n.audio_input_connections@ == disconnected_ports(num_audio_inputs as nat),
            n.num_audio_outputs == num_audio_outputs,
            n.inputs == self.inputs,
            n.event_input_connections == self.event_input_connections,
            n.num_event_outputs == self.num_event_outputs,
    {
        Node { audio_input_connections: disconnected(num_audio_inputs), num_audio_outputs, ..self }
    }

    /// The same node with fresh, disconnected event ports.
    pub fn event(self, num_event_inputs: usize, num_event_outputs: usize) -> (n: Self)
        ensures
            n.event_input_connections@ == disconnected_ports(num_event_inputs as nat),
            n.num_event_outputs == num_event_outputs,
            n.inputs == self.inputs,
            n.audio_input_connections == self.audio_input_connections,
            n.num_audio_outputs == self.num_audio_outputs,
    {
        Node { event_input_connections: disconnected(num_event_inputs), num_event_outputs, ..self }
    }

    /// Recomputes `inputs`: every entity feeding a port, once, in entity order.
    pub fn update_input_nodes(&mut self)
        ensures
            lists_in_order(final(self).inputs@, old(self).source_nodes()),
            final(self).audio_input_connections == old(self).audio_input_connections,
            final(self).event_input_connections == old(self).event_input_connections,
            final(self).num_audio_outputs == old(self).num_audio_outputs,
            final(self).num_event_outputs == old(self).num_event_outputs,
    {
        let mut nodes: Vec<usize> = Vec::new();
        proof {
            assert(nodes@.to_set() =~= Set::<usize>::empty());
        }
        add_port_sources(&mut nodes, &self.audio_input_connections);
        add_port_sources(&mut nodes, &self.event_input_connections);
        proof {
            assert(nodes@.to_set() =~= self.source_nodes());
        }
        self.inputs = nodes;
    }
}

/// Why a connection was refused.
#[derive(Clone, Copy, Debug, PartialEq, Eq, Structural)]
pub enum AudioGraphDescError {
    /// The entity is not a node.
    InvalidEntity(usize),
    /// A node cannot feed itself.
    DestEqualsSrc,
    /// The destination node has no such input port.
    DestPortOutOfBounds,
    /// The source node has no such output port.
    SrcPortOutOfBounds,
}

/// The nodes of the entity store, by entity.
pub struct DescWorld {
    pub nodes: Vec<Option<Node>>,
}

/// What connecting port `src_port` of `src` into port `dst_port` of `dst` on
/// the `kind` side gives: the new ports of `dst`, or why it is refused.
pub open spec fn connect_ports_result(
    world: Seq<Option<Node>>,
    dst: usize,
    dst_port: usize,
    src: usize,
    src_port: usize,
    kind: PortKind,
) -> Result<Seq<InputConnection>, AudioGraphDescError> {
    if dst == src {
        Err(AudioGraphDescError::DestEqualsSrc)
    } else if !(dst < world.len() && world[dst as int] is Some) {
        Err(AudioGraphDescError::InvalidEntity(dst))
    } else if !(src < world.len() && world[src as int] is Some) {
        Err(AudioGraphDescError::InvalidEntity(src))
    } else if dst_port >= world[dst as int].unwrap().ports(kind).len() {
        Err(AudioGraphDescError::DestPortOutOfBounds)
    } else if src_port >= world[src as int].unwrap().outputs(kind) {
        Err(AudioGraphDescError::SrcPortOutOfBounds)
    } else {
        Ok(world[dst as int].unwrap().ports(kind).update(dst_port as int, InputConnection::Connected(src, src_port)))
    }
}

/// `after` is `before` with the ports of one side replaced by `ports` and
/// its inputs recomputed.
pub open spec fn rewired(before: Node, after: Node, kind: PortKind, ports: Seq<InputConnection>) -> bool {
    &&& after.ports(kind) == ports
    &&& match kind {
        PortKind::Audio => after.event_input_connections == before.event_input_connections,
        PortKind::Event => after.audio_input_connections == before.audio_input_connections,
    }
    &&& after.num_audio_outputs == before.num_audio_outputs
    &&& after.num_event_outputs == before.num_event_outputs
    &&& lists_in_order(after.inputs@, after.source_nodes())
}

/// The outcome `r` of connecting, from `before` to `after`.
pub open spec fn connect_ports_post(
    before: Seq<Option<Node>>,
    after: Seq<Option<Node>>,
    dst: usize,
    dst_port: usize,
    src: usize,
    src_port: usize,
    kind: PortKind,
    r: Result<(), AudioGraphDescError>,
) -> bool {
    match connect_ports_result(before, dst, dst_port, src, src_port, kind) {
        Err(e) => r == Err::<(), AudioGraphDescError>(e) && after == before,
        Ok(ports) => {
            &&& r == Ok::<(), AudioGraphDescError>(())
            &&& after.len() == before.len()
            &&& forall|e: int| 0 <= e < before.len() && e != dst ==> #[trigger] after[e] == before[e]
            &&& after[dst as int] matches Some(n) && rewired(before[dst as int].unwrap(), n, kind, ports)
        },
    }
}

impl DescWorld {
    pub open spec fn node(&self, e: usize) -> Option<Node> {
        if e < self.nodes@.len() {
            self.nodes@[e as int]
        } else {
            None
        }
    }

    pub fn new() -> (w: Self)
        ensures
            w.nodes@.len() == 0,
    {
        DescWorld { nodes: Vec::new() }
    }

    /// Adds a node and returns its entity.
    pub fn spawn(&mut self, node: Node) -> (e: usize)
        requires
            old(self).nodes@.len() < usize::MAX,
        ensures
            e == old(self).nodes@.len(),
            final(self).nodes@ == old(self).nodes@.push(Some(node)),
    {
        let e = self.nodes.len();
        self.nodes.push(Some(node));
        e
    }

    pub fn get(&self, e: usize) -> (n: Option<&Node>)
        ensures
            n == match self.node(e) {
                Some(x) => Some(&x),
                None => None::<&Node>,
            },
    {
        if e < self.nodes.len() {
            match &self.nodes[e] {
                Some(n) => Some(n),
                None => None,
            }
        } else {
            None
        }
    }

    fn take_node(&mut self, e: usize) -> (n: Node)
        requires
            e < old(self).nodes@.len(),
            old(self).nodes@[e as int] is Some,
        ensures
            n == old(self).nodes@[e as int].unwrap(),
            final(self).nodes@ == old(self).nodes@.update(e as int, None),
    {
        let mut slot: Option<Node> = None;
        std::mem::swap(&mut slot, &mut self.nodes[e]);
        slot.unwrap()
    }
}

/// Connects port `src_port` of `src` into port `dst_port` of `dst` on the
/// `kind` side, replacing what fed that port.
fn connect_ports(
    world: &mut DescWorld,
    dst: usize,
    dst_port: usize,
    src: usize,
    src_port: usize,
    kind: PortKind,
) -> (r: Result<(), AudioGraphDescError>)
    ensures
        connect_ports_post(old(world).nodes@, final(world).nodes@, dst, dst_port, src, src_port, kind, r),
{
    if dst == src {
        return Err(AudioGraphDescError::DestEqualsSrc);
    }
    if !(dst < world.nodes.len() && world.nodes[dst].is_some()) {
        return Err(AudioGraphDescError::InvalidEntity(dst));
    }
    if !(src < world.nodes.len() && world.nodes[src].is_some()) {
        return Err(AudioGraphDescError::InvalidEntity(src));
    }
    let src_outputs = match (&world.nodes[src], kind) {
        (Some(s), PortKind::Audio) => s.num_audio_outputs,
        (Some(s), PortKind::Event) => s.num_event_outputs,
        (None, _) => 0,
    };
    let dst_ports = match (&world.nodes[dst], kind) {
        (Some(d), PortKind::Audio) => d.audio_input_connections.len(),
        (Some(d), PortKind::Event) => d.event_input_connections.len(),
        (None, _) => 0,
    };
    if dst_port >= dst_ports {
        return Err(AudioGraphDescError::DestPortOutOfBounds);
    }
    if src_port >= src_outputs {
        return Err(AudioGraphDescError::SrcPortOutOfBounds);
    }
    let ghost before = world.nodes@;
    let mut d = world.take_node(dst);
    match kind {
        PortKind::Audio => d.audio_input_connections.set(dst_port, InputConnection::Connected(src, src_port)),
        PortKind::Event => d.event_input_connections.set(dst_port, InputConnection::Connected(src, src_port)),
    }
    d.update_input_nodes();
    world.nodes.set(dst, Some(d));
    proof {
        assert(world.nodes@ =~= before.update(dst as int, Some(d)));
    }
    Ok(())
}

/// Feeds audio input `dst_port` of `dst` from audio output `src_port` of
/// `src`.
pub fn connect_audio(world: &mut DescWorld, dst: usize, dst_port: usize, src: usize, src_port: usize) -> (r: Result<
    (),
    AudioGraphDescError,
>)
    ensures
        connect_ports_post(old(world).nodes@, final(world).nodes@, dst, dst_port, src, src_port, PortKind::Audio, r),
{
    connect_ports(world, dst, dst_port, src, src_port, PortKind::Audio)
}

/// Feeds event input `dst_port` of `dst` from event output `src_port` of
/// `src`.
pub fn connect_event(world: &mut DescWorld, dst: usize, dst_port: usize, src: usize, src_port: usize) -> (r: Result<
    (),
    AudioGraphDescError,
>)
    ensures
        connect_ports_post(old(world).nodes@, final(world).nodes@, dst, dst_port, src, src_port, PortKind::Event, r),
{
    connect_ports(world, dst, dst_port, src, src_port, PortKind::Event)
}

/// Whether feeding a new audio input of `dst` from port `src_port` of `src`
/// is accepted, and why not.
pub open spec fn add_input_outcome(world: Seq<Option<Node>>, dst: usize, src: usize, src_port: usize) -> Result<
    (),
    AudioGraphDescError,
> {
    if dst == src {
        Err(AudioGraphDescError::DestEqualsSrc)
    } else if !(src < world.len() && world[src as int] is Some) {
        Err(AudioGraphDescError::InvalidEntity(src))
    } else if src_port >= world[src as int].unwrap().num_audio_outputs {
        Err(AudioGraphDescError::SrcPortOutOfBounds)
    } else {
        Ok(())
    }
}

/// Gives `dst` one more audio input and feeds it from audio output
/// `src_port` of `src`.  The new input stays, disconnected, when the
/// connection is refused.
pub fn add_audio_input(world: &mut DescWorld, dst: usize, src: usize, src_port: usize) -> (r: Result<
    (),
    AudioGraphDescError,
>)
    requires
        old(world).node(dst) matches Some(d) ==> d.audio_input_connections@.len() < usize::MAX,
    ensures
        match old(world).node(dst) {
            None => r == Err::<(), AudioGraphDescError>(AudioGraphDescError::InvalidEntity(dst)) && final(world).nodes@
                == old(world).nodes@,
            Some(d) => {
                &&& r == add_input_outcome(old(world).nodes@, dst, src, src_port)
                &&& final(world).nodes@.len() == old(world).nodes@.len()
                &&& forall|e: int| 0 <= e < old(world).nodes@.len() && e != dst ==> #[trigger] final(world).nodes@[e] == old(world).nodes@[e]
                &&& final(world).nodes@[dst as int] matches Some(n) && {
                    &&& n.event_input_connections == d.event_input_connections
                    &&& n.num_audio_outputs == d.num_audio_outputs
                    &&& n.num_event_outputs == d.num_event_outputs
                    &&& match r {
                        Ok(_) => n.audio_input_connections@ == d.audio_input_connections@.push(
                            InputConnection::Connected(src, src_port),
                        ) && lists_in_order(n.inputs@, n.source_nodes()),
                        Err(_) => n.audio_input_connections@ == d.audio_input_connections@.push(
                            InputConnection::Disconnected,
                        ) && n.inputs == d.inputs,
                    }
                }
            },
        },
{
    if !(dst < world.nodes.len() && world.nodes[dst].is_some()) {
        return Err(AudioGraphDescError::InvalidEntity(dst));
    }
    let ghost before = world.nodes@;
    let mut d = world.take_node(dst);
    let dst_port = d.audio_input_connections.len();
    d.audio_input_connections.push(InputConnection::Disconnected);
    world.nodes.set(dst, Some(d));
    let ghost grown = world.nodes@;
    proof {
        assert(grown =~= before.update(dst as int, Some(d)));
        if src != dst && src < before.len() {
            assert(grown[src as int] == before[src as int]);
        }
        let initial = before[dst as int].unwrap().audio_input_connections@;
        assert(initial.push(InputConnection::Disconnected).update(
            dst_port as int,
            InputConnection::Connected(src, src_port),
        ) =~= initial.push(InputConnection::Connected(src, src_port)));
    }
    connect_audio(world, dst, dst_port, src, src_port)
}

/// Disconnects event input `dest_port` of `dest_node`.
pub fn disconnect_event(world: &mut DescWorld, dest_node: usize, dest_port: usize) -> (r: Result<
    (),
    AudioGraphDescError,
>)
    requires
        old(world).node(dest_node) matches Some(d) ==> dest_port < d.event_input_connections@.len(),
    ensures
        match old(world).node(dest_node) {
            None => r == Err::<(), AudioGraphDescError>(AudioGraphDescError::InvalidEntity(dest_node))
                && final(world).nodes@ == old(world).nodes@,
            Some(d) => {
                &&& r == Ok::<(), AudioGraphDescError>(())
                &&& final(world).nodes@.len() == old(world).nodes@.len()
                &&& forall|e: int| 0 <= e < old(world).nodes@.len() && e != dest_node ==> #[trigger] final(world).nodes@[e] == old(world).nodes@[e]
                &&& final(world).nodes@[dest_node as int] matches Some(n) && rewired(
                    d,
                    n,
                    PortKind::Event,
                    d.event_input_connections@.update(dest_port as int, InputConnection::Disconnected),
                )
            },
        },
{
    if !(dest_node < world.nodes.len() && world.nodes[dest_node].is_some()) {
        return Err(AudioGraphDescError::InvalidEntity(dest_node));
    }
    let ghost before = world.nodes@;
    let mut d = world.take_node(dest_node);
    d.event_input_connections.set(dest_port, InputConnection::Disconnected);
    d.update_input_nodes();
    world.nodes.set(dest_node, Some(d));
    proof {
        assert(world.nodes@ =~= before.update(dest_node as int, Some(d)));
    }
    Ok(())
}

} // verus!
