//! How a channel strip is wired into the audio graph: the plugin feeds the
//! channel's gain node, the gain node feeds the summer, and an armed
//! channel's plugin listens to the MIDI input.

use vstd::prelude::*;
use crate::channel::{MidiRouting, midi_routing};
use crate::node::{GraphConnection, GraphNodeDesc, sources, without_source};
use crate::world::{
    GraphWorld, PortKind, connect_channels_post, graph_connect_audio, graph_connect_event,
    graph_disconnect_event_input,
};

verus! {

/// `conns` with `c` added, unless it is there already.
pub open spec fn with_connection(conns: Seq<GraphConnection>, c: GraphConnection) -> Seq<GraphConnection> {
    if conns.contains(c) {
        conns
    } else {
        conns.push(c)
    }
}

/// Output channel `port` of `src` feeding input channel `port`.
pub open spec fn port_to_port(src: usize, port: u16) -> GraphConnection {
    GraphConnection { channel: port, src, src_channel: port }
}

/// `d` with the two stereo connections from `src` added to its audio side.
pub open spec fn fed_in_stereo(d: GraphNodeDesc, src: usize) -> Seq<GraphConnection> {
    with_connection(with_connection(d.audio_channels.connections@, port_to_port(src, 0)), port_to_port(src, 1))
}

/// `after` is `before` with its audio connections replaced by `conns` and
/// its input nodes recomputed.
pub open spec fn audio_rewired(before: GraphNodeDesc, after: GraphNodeDesc, conns: Seq<GraphConnection>) -> bool {
    &&& after.audio_channels.connections@ == conns
    &&& after.audio_channels.num_inputs == before.audio_channels.num_inputs
    &&& after.audio_channels.num_outputs == before.audio_channels.num_outputs
    &&& after.event_channels == before.event_channels
    &&& after.always_run == before.always_run
    &&& crate::node::lists_in_order(after.inputs@, after.source_nodes())
}

/// The nodes can carry a stereo signal from `src` into `dst`.
pub open spec fn stereo_link_ok(world: GraphWorld, dst: usize, src: usize) -> bool {
    &&& dst != src
    &&& world.node(dst) matches Some(d) && d.audio_channels.num_inputs >= 2
    &&& world.node(src) matches Some(s) && s.audio_channels.num_outputs >= 2
}

/// Wires a channel strip whose plugin has been given its node: both stereo
/// outputs of the plugin feed the gain node, and both outputs of the gain
/// node feed the summer.  Nothing else in the graph changes.
pub fn wire_channel_strip(world: &mut GraphWorld, plugin_node: usize, gain_node: usize, summer: usize)
    requires
        stereo_link_ok(*old(world), gain_node, plugin_node),
        stereo_link_ok(*old(world), summer, gain_node),
        summer != plugin_node,
    ensures
        final(world).nodes@.len() == old(world).nodes@.len(),
        forall|e: int|
            0 <= e < old(world).nodes@.len() && e != gain_node && e != summer ==> #[trigger] final(world).nodes@[e]
                == old(world).nodes@[e],
        final(world).node(gain_node) matches Some(g) && audio_rewired(
            old(world).node(gain_node).unwrap(),
            g,
            fed_in_stereo(old(world).node(gain_node).unwrap(), plugin_node),
        ),
        final(world).node(summer) matches Some(s) && audio_rewired(
            old(world).node(summer).unwrap(),
            s,
            fed_in_stereo(old(world).node(summer).unwrap(), gain_node),
        ),
{
    let ghost w0 = *world;
    let mut port: u16 = 0;
    while port < 2
        invariant
            0 <= port <= 2,
            stereo_link_ok(w0, gain_node, plugin_node),
            stereo_link_ok(w0, summer, gain_node),
            summer != plugin_node,
            world.nodes@.len() == w0.nodes@.len(),
            forall|e: int| 0 <= e < w0.nodes@.len() && e != gain_node && e != summer ==> #[trigger] world.nodes@[e] == w0.nodes@[e],
            world.node(gain_node) matches Some(g) && audio_rewired(
                w0.node(gain_node).unwrap(),
                g,
                if port == 0 {
                    w0.node(gain_node).unwrap().audio_channels.connections@
                } else if port == 1 {
                    with_connection(w0.node(gain_node).unwrap().audio_channels.connections@, port_to_port(plugin_node, 0))
                } else {
                    fed_in_stereo(w0.node(gain_node).unwrap(), plugin_node)
                },
            ) || (port == 0 && world.node(gain_node) == w0.node(gain_node)),
            world.node(summer) matches Some(s) && audio_rewired(
                w0.node(summer).unwrap(),
                s,
                if port == 0 {
                    w0.node(summer).unwrap().audio_channels.connections@
                } else if port == 1 {
                    with_connection(w0.node(summer).unwrap().audio_channels.connections@, port_to_port(gain_node, 0))
                } else {
                    fed_in_stereo(w0.node(summer).unwrap(), gain_node)
                },
            ) || (port == 0 && world.node(summer) == w0.node(summer)),
            world.node(plugin_node) == w0.node(plugin_node),
            world.node(gain_node) is Some,
            world.node(summer) is Some,
            world.node(gain_node).unwrap().audio_channels.num_inputs == w0.node(gain_node).unwrap().audio_channels.num_inputs,
            world.node(gain_node).unwrap().audio_channels.num_outputs == w0.node(gain_node).unwrap().audio_channels.num_outputs,
            world.node(summer).unwrap().audio_channels.num_inputs == w0.node(summer).unwrap().audio_channels.num_inputs,
        decreases 2 - port,
    {
        let ghost w1 = *world;
        let r1 = graph_connect_audio(world, gain_node, GraphConnection::new(port, plugin_node, port));
        proof {
            assert(connect_channels_post(w1, *world, gain_node, port_to_port(plugin_node, port), PortKind::Audio, r1));
            assert(world.nodes@[summer as int] == w1.nodes@[summer as int]);
            assert(world.nodes@[plugin_node as int] == w1.nodes@[plugin_node as int]);
        }
        let ghost w2 = *world;
        let r2 = graph_connect_audio(world, summer, GraphConnection::new(port, gain_node, port));
        proof {
            assert(connect_channels_post(w2, *world, summer, port_to_port(gain_node, port), PortKind::Audio, r2));
            assert(world.nodes@[gain_node as int] == w2.nodes@[gain_node as int]);
            assert(world.nodes@[plugin_node as int] == w2.nodes@[plugin_node as int]);
            assert forall|e: int| 0 <= e < w0.nodes@.len() && e != gain_node && e != summer implies #[trigger] world.nodes@[e] == w0.nodes@[e] by {
                assert(w2.nodes@[e] == w1.nodes@[e]);
            }
        }
        port += 1;
    }
}

/// Makes the plugin node of a channel listen to the MIDI input when the
/// channel is armed, and stop listening when it is not.  Nothing happens
/// when the plugin node is gone.
pub fn route_midi(world: &mut GraphWorld, input_node: usize, midi_input: usize, armed: bool)
    requires
        armed ==> (old(world).node(input_node) matches Some(d) && !sources(d.event_channels.connections@).contains(
            midi_input,
        )) ==> {
            &&& input_node != midi_input
            &&& old(world).node(input_node).unwrap().event_channels.num_inputs >= 1
            &&& old(world).node(midi_input) matches Some(m) && m.event_channels.num_outputs >= 1
        },
    ensures
        match old(world).node(input_node) {
            None => final(world).nodes@ == old(world).nodes@,
            Some(d) => match midi_routing_of(armed, sources(d.event_channels.connections@).contains(midi_input)) {
                MidiRouting::Connect => connect_channels_post(
                    *old(world),
                    *final(world),
                    input_node,
                    GraphConnection { channel: 0, src: midi_input, src_channel: 0 },
                    PortKind::Event,
                    Ok(()),
                ),
                MidiRouting::Disconnect => {
                    let after = final(world).nodes@[input_node as int].unwrap();
                    &&& final(world).nodes@.len() == old(world).nodes@.len()
                    &&& forall|e: int| 0 <= e < old(world).nodes@.len() && e != input_node ==> #[trigger] final(world).nodes@[e] == old(world).nodes@[e]
                    &&& final(world).nodes@[input_node as int] is Some
                    &&& after.event_channels.connections@ == without_source(d.event_channels.connections@, midi_input)
                    &&& after.event_channels.num_inputs == d.event_channels.num_inputs
                    &&& after.event_channels.num_outputs == d.event_channels.num_outputs
                    &&& after.audio_channels == d.audio_channels
                    &&& after.inputs == d.inputs
                    &&& after.always_run == d.always_run
                },
                MidiRouting::Keep => final(world).nodes@ == old(world).nodes@,
            },
        },
{
    let connected = match world.get(input_node) {
        None => {
            return;
        },
        Some(d) => d.has_event_connected(midi_input),
    };
    match midi_routing(armed, connected) {
        MidiRouting::Connect => {
            let r = graph_connect_event(world, input_node, GraphConnection::new(0, midi_input, 0));
        },
        MidiRouting::Disconnect => {
            let r = graph_disconnect_event_input(world, input_node, midi_input);
        },
        MidiRouting::Keep => {},
    }
}

/// The routing decision of `midi_routing`, as a spec function.
pub open spec fn midi_routing_of(armed: bool, midi_connected: bool) -> MidiRouting {
    if armed && !midi_connected {
        MidiRouting::Connect
    } else if !armed && midi_connected {
        MidiRouting::Disconnect
    } else {
        MidiRouting::Keep
    }
}

} // verus!
