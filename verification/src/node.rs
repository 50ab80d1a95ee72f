//! The description of one node of the audio graph: how many audio and event
//! channels it takes and produces, which channels of which nodes feed its
//! inputs, and the sorted list of nodes it reads from.
//!
//! Nodes are named by entity numbers; a `GraphWorld` holds the description of
//! every entity that is a graph node.

use vstd::prelude::*;

verus! {

/// One input channel of a node fed from `src_channel` of node `src`.
#[derive(Clone, Copy, Debug, PartialEq, Eq, Structural, PartialOrd, Ord)]
pub struct GraphConnection {
    pub channel: u16,
    pub src: usize,
    pub src_channel: u16,
}

impl GraphConnection {
    pub fn new(channel: u16, src: usize, src_channel: u16) -> (c: Self)
        ensures
            c == (GraphConnection { channel, src, src_channel }),
    {
        GraphConnection { channel, src, src_channel }
    }
}

/// The audio or the event side of a node.
#[derive(Clone, Debug)]
pub struct GraphPorts {
    pub connections: Vec<GraphConnection>,
    pub num_inputs: u16,
    pub num_outputs: u16,
}

/// Why a connection was refused.
#[derive(Clone, Copy, Debug, PartialEq, Eq, Structural)]
pub enum GraphError {
    /// The entity is not a node of the graph.
    InvalidEntity(usize),
    /// A node cannot feed itself.
    DestEqualsSrc,
    /// The destination node has no such input channel.
    DestPortOutOfBounds,
    /// The source node has no such output channel.
    SrcPortOutOfBounds,
}

/// The entities named as sources in a list of connections.
pub open spec fn sources(conns: Seq<GraphConnection>) -> Set<usize> {
    Set::new(|e: usize| exists|k: int| 0 <= k < conns.len() && #[trigger] conns[k].src == e)
}

/// Whether entity `a` comes before entity `b` in the order of entities: an
/// entity spawned later comes before one spawned earlier, so the higher
/// number comes first.
pub open spec fn entity_before(a: usize, b: usize) -> bool {
    a > b
}

/// `s` lists entities in the order of entities, each once.
pub open spec fn is_in_entity_order(s: Seq<usize>) -> bool {
    forall|i: int, j: int| 0 <= i < j < s.len() ==> entity_before(s[i], s[j])
}

/// `s` lists the members of `set` once each, in the order of entities.
pub open spec fn lists_in_order(s: Seq<usize>, set: Set<usize>) -> bool {
    is_in_entity_order(s) && s.to_set() == set
}

/// The outcome of connecting `c` into ports `dest` fed from ports `src`.
pub open spec fn connect_outcome(
    dest: Seq<GraphConnection>,
    num_inputs: u16,
    src_outputs: u16,
    c: GraphConnection,
) -> Result<Seq<GraphConnection>, GraphError> {
    if c.channel >= num_inputs {
        Err(GraphError::DestPortOutOfBounds)
    } else if c.src_channel >= src_outputs {
        Err(GraphError::SrcPortOutOfBounds)
    } else if dest.contains(c) {
        Ok(dest)
    } else {
        Ok(dest.push(c))
    }
}

impl GraphPorts {
    pub fn new(num_inputs: u16, num_outputs: u16) -> (p: Self)
        ensures
            p.connections@ == Seq::<GraphConnection>::empty(),
            p.num_inputs == num_inputs,
            p.num_outputs == num_outputs,
    {
        GraphPorts { connections: Vec::new(), num_inputs, num_outputs }
    }

    /// Feeds input `connection.channel` from `src`; a connection that is
    /// already there is not added twice.
    pub fn connect(&mut self, src_num_outputs: u16, connection: GraphConnection) -> (r: Result<
        (),
        GraphError,
    >)
        ensures
            final(self).num_inputs == old(self).num_inputs,
            final(self).num_outputs == old(self).num_outputs,
            match connect_outcome(
                old(self).connections@,
                old(self).num_inputs,
                src_num_outputs,
                connection,
            ) {
                Ok(conns) => r == Ok::<(), GraphError>(()) && final(self).connections@ == conns,
                Err(e) => r == Err::<(), GraphError>(e) && *final(self) == *old(self),
            },
    {
        if connection.channel >= self.num_inputs {
            return Err(GraphError::DestPortOutOfBounds);
        }
        if connection.src_channel >= src_num_outputs {
            return Err(GraphError::SrcPortOutOfBounds);
        }
        if !contains_connection(&self.connections, connection) {
            self.connections.push(connection);
        }
        Ok(())
    }
}

/// Whether `conns` holds `c`.
pub fn contains_connection(conns: &Vec<GraphConnection>, c: GraphConnection) -> (found: bool)
    ensures
        found == conns@.contains(c),
{
    let mut k: usize = 0;
    while k < conns.len()
        invariant
            0 <= k <= conns@.len(),
            forall|i: int| 0 <= i < k ==> conns@[i] != c,
        decreases conns@.len() - k,
    {
        if conns[k] == c {
            return true;
        }
        k += 1;
    }
    false
}

/// `conns` without the connections read from `node`.
pub open spec fn without_source(conns: Seq<GraphConnection>, node: usize) -> Seq<GraphConnection> {
    conns.filter(not_from(node))
}

/// Holds of the connections not read from `node`.
pub open spec fn not_from(node: usize) -> spec_fn(GraphConnection) -> bool {
    |c: GraphConnection| c.src != node
}

/// Drops every connection read from `node`, keeping the others in order.
pub fn remove_source(conns: &mut Vec<GraphConnection>, node: usize)
    ensures
        final(conns)@ == without_source(old(conns)@, node),
{
    let ghost initial = conns@;
    let mut kept: Vec<GraphConnection> = Vec::new();
    let mut k: usize = 0;
    while k < conns.len()
        invariant
            conns@ == initial,
            0 <= k <= initial.len(),
            kept@ == without_source(initial.take(k as int), node),
        decreases initial.len() - k,
    {
        let c = conns[k];
        proof {
            assert(initial.take(k + 1) =~= initial.take(k as int).push(c));
            initial.take(k as int).lemma_filter_push(c, not_from(node));
        }
        if c.src != node {
            kept.push(c);
        }
        k += 1;
    }
    proof {
        assert(initial.take(initial.len() as int) =~= initial);
    }
    *conns = kept;
}

/// Puts `x` into a list of entities in entity order without repeats,
/// keeping it so.
pub fn insert_in_entity_order(list: &mut Vec<usize>, x: usize)
    requires
        is_in_entity_order(old(list)@),
    ensures
        is_in_entity_order(final(list)@),
        final(list)@.to_set() == old(list)@.to_set().insert(x),
{
    let ghost before = list@;
    let mut k: usize = 0;
    while k < list.len() && list[k] > x
        invariant
            list@ == before,
            0 <= k <= before.len(),
            forall|i: int| 0 <= i < k ==> before[i] > x,
        decreases before.len() - k,
    {
        k += 1;
    }
    if k < list.len() && list[k] == x {
        proof {
            assert(before.to_set().insert(x) =~= before.to_set());
        }
        return ;
    }
    list.insert(k, x);
    proof {
        assert forall|y: usize| #[trigger] list@.contains(y) <==> before.contains(y) || y == x by {
            if list@.contains(y) {
                let i = choose|i: int| 0 <= i < list@.len() && list@[i] == y;
                if i < k {
                    assert(before[i] == y);
                } else if i > k {
                    assert(before[i - 1] == y);
                }
            }
            if before.contains(y) {
                let i = choose|i: int| 0 <= i < before.len() && before[i] == y;
                if i < k {
                    assert(list@[i] == y);
                } else {
                    assert(list@[i + 1] == y);
                }
            }
            if y == x {
                assert(list@[k as int] == x);
            }
        }
        assert(list@.to_set() =~= before.to_set().insert(x));
        assert forall|i: int, j: int| 0 <= i < j < list@.len() implies entity_before(
            #[trigger] list@[i],
            #[trigger] list@[j],
        ) by {
            if i == k {
                assert(before[k as int] < x);
                if j - 1 > k {
                    assert(entity_before(before[k as int], before[j - 1]));
                }
            } else if i < k && j < k {
                assert(entity_before(before[i], before[j]));
            } else if i < k && j > k {
                assert(entity_before(before[i], before[j - 1]));
            } else if i > k {
                assert(entity_before(before[i - 1], before[j - 1]));
            }
        }
    }
}

/// The description of one graph node.
#[derive(Clone, Debug)]
pub struct GraphNodeDesc {
    pub inputs: Vec<usize>,
    pub audio_channels: GraphPorts,
    pub event_channels: GraphPorts,
    pub always_run: bool,
}

impl GraphNodeDesc {
    /// The nodes this node reads from, by its connections.
    pub open spec fn source_nodes(&self) -> Set<usize> {
        sources(self.audio_channels.connections@).union(sources(self.event_channels.connections@))
    }

    /// A node with no channels and no connections.
    pub fn new() -> (d: Self)
        ensures
            d.inputs@ == Seq::<usize>::empty(),
            d.audio_channels.connections@ == Seq::<GraphConnection>::empty(),
            d.audio_channels.num_inputs == 0 && d.audio_channels.num_outputs == 0,
            d.event_channels.connections@ == Seq::<GraphConnection>::empty(),
            d.event_channels.num_inputs == 0 && d.event_channels.num_outputs == 0,
            !d.always_run,
    {
        GraphNodeDesc {
            inputs: Vec::new(),
            audio_channels: GraphPorts::new(0, 0),
            event_channels: GraphPorts::new(0, 0),
            always_run: false,
        }
    }

    /// The same node with fresh audio ports of the given sizes.
    pub fn audio(self, num_audio_input_channels: u16, num_audio_output_channels: u16) -> (d: Self)
        ensures
            d.audio_channels.connections@ == Seq::<GraphConnection>::empty(),
            d.audio_channels.num_inputs == num_audio_input_channels,
            d.audio_channels.num_outputs == num_audio_output_channels,
            d.inputs == self.inputs,
            d.event_channels == self.event_channels,
            d.always_run == self.always_run,
    {
        GraphNodeDesc {
            audio_channels: GraphPorts::new(num_audio_input_channels, num_audio_output_channels),
            ..self
        }
    }

    /// The same node with fresh event ports of the given sizes.
    pub fn event(self, num_event_input_channels: u16, num_event_output_channels: u16) -> (d: Self)
        ensures
            d.event_channels.connections@ == Seq::<GraphConnection>::empty(),
            d.event_channels.num_inputs == num_event_input_channels,
            d.event_channels.num_outputs == num_event_output_channels,
            d.inputs == self.inputs,
            d.audio_channels == self.audio_channels,
            d.always_run == self.always_run,
    {
        GraphNodeDesc {
            event_channels: GraphPorts::new(num_event_input_channels, num_event_output_channels),
            ..self
        }
    }

    /// The same node, marked to run on every tick.
    pub fn always_run(self) -> (d: Self)
        ensures
            d.always_run,
            d.inputs == self.inputs,
            d.audio_channels == self.audio_channels,
            d.event_channels == self.event_channels,
    {
        GraphNodeDesc { always_run: true, ..self }
    }

    /// Recomputes `inputs` from the connections: every source node once, in
    /// the order of entities.
    pub fn update_input_nodes(&mut self)
        ensures
            lists_in_order(final(self).inputs@, old(self).source_nodes()),
            final(self).audio_channels == old(self).audio_channels,
            final(self).event_channels == old(self).event_channels,
            final(self).always_run == old(self).always_run,
    {
        let mut nodes: Vec<usize> = Vec::new();
        let ghost audio = self.audio_channels.connections@;
        let ghost event = self.event_channels.connections@;
        let mut k: usize = 0;
        while k < self.audio_channels.connections.len()
            invariant
                audio == self.audio_channels.connections@,
                0 <= k <= audio.len(),
                is_in_entity_order(nodes@),
                nodes@.to_set() == sources(audio.take(k as int)),
            decreases audio.len() - k,
        {
            let c = self.audio_channels.connections[k];
            insert_in_entity_order(&mut nodes, c.src);
            proof {
                lemma_sources_take_step(audio, k as int);
            }
            k += 1;
        }
        proof {
            assert(audio.take(audio.len() as int) =~= audio);
        }
        let mut k: usize = 0;
        while k < self.event_channels.connections.len()
            invariant
                audio == self.audio_channels.connections@,
                event == self.event_channels.connections@,
                0 <= k <= event.len(),
                is_in_entity_order(nodes@),
                nodes@.to_set() == sources(audio).union(sources(event.take(k as int))),
            decreases event.len() - k,
        {
            let c = self.event_channels.connections[k];
            insert_in_entity_order(&mut nodes, c.src);
            proof {
                lemma_sources_take_step(event, k as int);
                assert(sources(audio).union(sources(event.take(k + 1))) =~= sources(audio).union(
                    sources(event.take(k as int)),
                ).insert(c.src));
            }
            k += 1;
        }
        proof {
            assert(event.take(event.len() as int) =~= event);
        }
        self.inputs = nodes;
    }

    /// Drops every connection read from `node` and recomputes `inputs`;
    /// returns whether the number of input nodes changed.
    pub fn disconnect_node(&mut self, node: usize) -> (changed: bool)
        ensures
            final(self).audio_channels.connections@ == without_source(
                old(self).audio_channels.connections@,
                node,
            ),
            final(self).event_channels.connections@ == without_source(
                old(self).event_channels.connections@,
                node,
            ),
            final(self).audio_channels.num_inputs == old(self).audio_channels.num_inputs,
            final(self).audio_channels.num_outputs == old(self).audio_channels.num_outputs,
            final(self).event_channels.num_inputs == old(self).event_channels.num_inputs,
            final(self).event_channels.num_outputs == old(self).event_channels.num_outputs,
            final(self).always_run == old(self).always_run,
            lists_in_order(final(self).inputs@, final(self).source_nodes()),
            changed == (old(self).inputs@.len() != final(self).inputs@.len()),
    {
        remove_source(&mut self.audio_channels.connections, node);
        remove_source(&mut self.event_channels.connections, node);
        let before = self.inputs.len();
        self.update_input_nodes();
        before != self.inputs.len()
    }

    /// Whether some event input is fed from `input_node`.
    pub fn has_event_connected(&self, input_node: usize) -> (connected: bool)
        ensures
            connected == sources(self.event_channels.connections@).contains(input_node),
    {
        let mut k: usize = 0;
        while k < self.event_channels.connections.len()
            invariant
                0 <= k <= self.event_channels.connections@.len(),
                forall|i: int| 0 <= i < k ==> self.event_channels.connections@[i].src != input_node,
            decreases self.event_channels.connections@.len() - k,
        {
            if self.event_channels.connections[k].src == input_node {
                return true;
            }
            k += 1;
        }
        false
    }
}

pub proof fn lemma_sources_take_step(conns: Seq<GraphConnection>, k: int)
    requires
        0 <= k < conns.len(),
    ensures
        sources(conns.take(k + 1)) == sources(conns.take(k)).insert(conns[k].src),
{
    let a = conns.take(k + 1);
    let b = conns.take(k);
    assert forall|e: usize| sources(a).contains(e) <==> sources(b).insert(conns[k].src).contains(
        e,
    ) by {
        if sources(a).contains(e) {
            let i = choose|i: int| 0 <= i < a.len() && #[trigger] a[i].src == e;
            if i < k {
                assert(b[i].src == e);
            }
        }
        if sources(b).contains(e) {
            let i = choose|i: int| 0 <= i < b.len() && #[trigger] b[i].src == e;
            assert(a[i].src == e);
        }
        if e == conns[k].src {
            assert(a[k].src == e);
        }
    }
    assert(sources(a) =~= sources(b).insert(conns[k].src));
}

} // verus!
