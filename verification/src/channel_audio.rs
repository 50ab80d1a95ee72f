//! The audio graph nodes that play one channel: the node of its plugin and
//! its gain node, and what happens to them when the channel's plugin binding
//! is set, replaced or removed.

use vstd::prelude::*;
use crate::mixer::{audio_rewired, fed_in_stereo, port_to_port, stereo_link_ok, wire_channel_strip};
use crate::node::GraphNodeDesc;
use crate::channel::ChannelData;
use crate::world::{GraphWorld, detach_removed_nodes, detached};

verus! {

/// The nodes that play a channel, once it has a plugin.
#[derive(Clone, Copy, Debug, PartialEq, Eq, Structural)]
pub struct ChannelAudio {
    /// The node of the channel's plugin; its entity is the channel's source
    /// node.
    pub plugin_node: Option<usize>,
    /// The gain node between the plugin and the summer.
    pub gain_node: Option<usize>,
}

/// What a frame does with a channel's plugin: nothing, make a new plugin
/// node for the channel's binding, or take the plugin node away.
#[derive(Clone, Copy, Debug, PartialEq, Eq, Structural)]
pub enum BindingChange {
    Keep,
    Bind,
    Unbind,
}

/// The change a frame makes for a channel: a channel that has a binding
/// gets a new plugin node when its binding was written since the last frame
/// (`written`), whatever was written, even the binding it had; a channel
/// without a binding that still has a plugin node (its binding was taken
/// away) loses it.
pub open spec fn binding_change_of(written: bool, has_plugin_node: bool, has_binding: bool) -> BindingChange {
    if has_binding {
        if written {
            BindingChange::Bind
        } else {
            BindingChange::Keep
        }
    } else if has_plugin_node {
        BindingChange::Unbind
    } else {
        BindingChange::Keep
    }
}

/// What this frame does with the plugin of the channel `entity`, given the
/// entities whose binding was written since the last frame, whether the
/// channel has a plugin node, and its binding now.
pub fn binding_change(changes: &Vec<u64>, entity: u64, has_plugin_node: bool, now: &Option<ChannelData>) -> (c:
    BindingChange)
    ensures
        c == binding_change_of(changes@.contains(entity), has_plugin_node, now is Some),
{
    match now {
        Some(_) => {
            let mut k: usize = 0;
            while k < changes.len()
                invariant
                    now is Some,
                    0 <= k <= changes@.len(),
                    forall|i: int| 0 <= i < k ==> changes@[i] != entity,
                decreases changes@.len() - k,
            {
                if changes[k] == entity {
                    proof {
                        assert(changes@[k as int] == entity);
                    }
                    return BindingChange::Bind;
                }
                k += 1;
            }
            BindingChange::Keep
        },
        None => {
            if has_plugin_node {
                BindingChange::Unbind
            } else {
                BindingChange::Keep
            }
        },
    }
}

/// A node with two disconnected audio inputs and two audio outputs, and
/// nothing else: a fresh gain node.
pub open spec fn is_fresh_stereo_node(d: GraphNodeDesc) -> bool {
    &&& d.inputs@.len() == 0
    &&& d.audio_channels.connections@.len() == 0
    &&& d.audio_channels.num_inputs == 2
    &&& d.audio_channels.num_outputs == 2
    &&& d.event_channels.connections@.len() == 0
    &&& d.event_channels.num_inputs == 0
    &&& d.event_channels.num_outputs == 0
    &&& !d.always_run
}

/// A fresh gain node after being fed in stereo from `src`.
pub open spec fn fresh_gain_fed_from(d: GraphNodeDesc, src: usize) -> bool {
    &&& d.audio_channels.connections@ == seq![port_to_port(src, 0), port_to_port(src, 1)]
    &&& d.audio_channels.num_inputs == 2
    &&& d.audio_channels.num_outputs == 2
    &&& d.event_channels.connections@.len() == 0
    &&& d.event_channels.num_inputs == 0
    &&& d.event_channels.num_outputs == 0
    &&& !d.always_run
    &&& crate::node::lists_in_order(d.inputs@, d.source_nodes())
}

impl ChannelAudio {
    /// A channel without a plugin.
    pub fn new() -> (a: Self)
        ensures
            a.plugin_node is None,
            a.gain_node is None,
    {
        ChannelAudio { plugin_node: None, gain_node: None }
    }

    /// Takes the channel's plugin node out of the graph: the node is
    /// despawned, and every node that listed it among its inputs stops
    /// reading from it.  The gain node stays.
    pub fn release_plugin_node(&mut self, world: &mut GraphWorld)
        ensures
            final(self).plugin_node is None,
            final(self).gain_node == old(self).gain_node,
            match old(self).plugin_node {
                None => final(world).nodes@ == old(world).nodes@,
                Some(q) => {
                    &&& final(world).nodes@.len() == old(world).nodes@.len()
                    &&& final(world).node(q) is None
                    &&& forall|e: int|
                        0 <= e < old(world).nodes@.len() && e != q ==> #[trigger] detached(
                            old(world).nodes@[e],
                            final(world).nodes@[e],
                            set![q],
                        )
                },
            },
    {
        match self.plugin_node {
            None => {},
            Some(q) => {
                let ghost before = world.nodes@;
                world.despawn(q);
                let ghost middle = world.nodes@;
                let removed = vec![q];
                assert(removed@.to_set() =~= set![q]);
                detach_removed_nodes(world, &removed);
                proof {
                    if q < before.len() {
                        assert(detached(middle[q as int], world.nodes@[q as int], set![q]));
                    }
                    assert forall|e: int| 0 <= e < before.len() && e != q implies #[trigger] detached(
                        before[e],
                        world.nodes@[e],
                        set![q],
                    ) by {
                        assert(middle[e] == before[e]);
                        assert(detached(middle[e], world.nodes@[e], set![q]));
                    }
                }
            },
        }
        self.plugin_node = None;
    }

    /// The channel's plugin binding is removed: the plugin node leaves the
    /// graph, and the channel forgets its gain node (which stays in the
    /// graph, still feeding the summer).
    pub fn unbind_plugin(&mut self, world: &mut GraphWorld)
        ensures
            final(self).plugin_node is None,
            final(self).gain_node is None,
            match old(self).plugin_node {
                None => final(world).nodes@ == old(world).nodes@,
                Some(q) => {
                    &&& final(world).nodes@.len() == old(world).nodes@.len()
                    &&& final(world).node(q) is None
                    &&& forall|e: int|
                        0 <= e < old(world).nodes@.len() && e != q ==> #[trigger] detached(
                            old(world).nodes@[e],
                            final(world).nodes@[e],
                            set![q],
                        )
                },
            },
    {
        self.release_plugin_node(world);
        self.gain_node = None;
    }

    /// Puts the node of the channel's new plugin into the graph: it feeds
    /// the channel's gain node in stereo (a fresh gain node when the channel
    /// has none yet), and the gain node feeds the summer.  Returns the
    /// plugin's node.
    pub fn connect_plugin_node(&mut self, world: &mut GraphWorld, plugin: GraphNodeDesc, summer: usize) -> (p: usize)
        requires
            old(self).plugin_node is None,
            old(world).nodes@.len() + 2 < usize::MAX,
            plugin.audio_channels.num_outputs >= 2,
            old(world).node(summer) matches Some(s) && s.audio_channels.num_inputs >= 2,
            old(self).gain_node matches Some(g) ==> {
                &&& g != summer
                &&& old(world).node(g) matches Some(d) && d.audio_channels.num_inputs >= 2
                    && d.audio_channels.num_outputs >= 2
            },
        ensures
            p == old(world).nodes@.len(),
            final(self).plugin_node == Some(p),
            final(self).gain_node == Some(
                match old(self).gain_node {
                    Some(g) => g,
                    None => (p + 1) as usize,
                },
            ),
            final(world).nodes@.len() == old(world).nodes@.len() + if old(self).gain_node is Some {
                1int
            } else {
                2int
            },
            forall|e: int|
                0 <= e < old(world).nodes@.len() && e != summer && Some(e as usize) != old(self).gain_node
                    ==> #[trigger] final(world).nodes@[e] == old(world).nodes@[e],
            final(world).node(p) == Some(plugin),
            ({
                let g = final(self).gain_node.unwrap();
                &&& old(self).gain_node is None ==> (final(world).node(g) matches Some(gd) && fresh_gain_fed_from(gd, p))
                &&& old(self).gain_node is Some ==> (final(world).node(g) matches Some(gd) && audio_rewired(
                    old(world).node(g).unwrap(),
                    gd,
                    fed_in_stereo(old(world).node(g).unwrap(), p),
                ))
                &&& final(world).node(summer) matches Some(sd) && audio_rewired(
                    old(world).node(summer).unwrap(),
                    sd,
                    fed_in_stereo(old(world).node(summer).unwrap(), g),
                )
            }),
    {
        let ghost w0 = world.nodes@;
        let p = world.spawn(plugin);
        let g = match self.gain_node {
            Some(g) => g,
            None => {
                let fresh = GraphNodeDesc::new().audio(2, 2);
                world.spawn(fresh)
            },
        };
        let ghost w1 = world.nodes@;
        proof {
            assert(world.node(p) == Some(plugin));
            assert(world.node(summer) == old(world).node(summer));
            if old(self).gain_node is Some {
                assert(world.node(g) == old(world).node(g));
            }
            assert(stereo_link_ok(*world, g, p));
            assert(stereo_link_ok(*world, summer, g));
        }
        wire_channel_strip(world, p, g, summer);
        proof {
            assert forall|e: int|
                0 <= e < w0.len() && e != summer && Some(e as usize) != old(self).gain_node implies #[trigger] world.nodes@[e]
                    == w0[e] by {
                assert(w1[e] == w0[e]);
            }
            if old(self).gain_node is None {
                let fresh = w1[g as int].unwrap();
                assert(is_fresh_stereo_node(fresh));
                assert(fed_in_stereo(fresh, p) =~= seq![port_to_port(p, 0), port_to_port(p, 1)]);
            }
        }
        self.plugin_node = Some(p);
        self.gain_node = Some(g);
        p
    }
}

} // verus!
