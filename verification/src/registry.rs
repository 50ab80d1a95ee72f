//! The plugin host's table of plugin instances: each created instance gets
//! a fresh identifier, and messages name instances by it.  Also the graph
//! node a plugin instance gets.

use std::collections::HashMap;
use vstd::prelude::*;
use crate::node::GraphNodeDesc;

verus! {

broadcast use vstd::std_specs::hash::group_hash_axioms;

/// The identifier of a plugin instance on the plugin host.
#[derive(Clone, Copy, Debug, PartialEq, Eq, Structural, Hash)]
pub struct ClapId(pub usize);

impl ClapId {
    pub fn from_raw(id: usize) -> (c: Self)
        ensures
            c == ClapId(id),
    {
        ClapId(id)
    }
}

/// The instances the host runs, by identifier, and the identifier the next
/// one gets.
pub struct PluginRegistry<P> {
    pub plugins: HashMap<usize, P>,
    pub next_id: usize,
}

impl<P> PluginRegistry<P> {
    /// Every identifier in use was handed out before `next_id`.
    pub open spec fn well_formed(&self) -> bool {
        forall|id: usize| #[trigger] self.plugins@.contains_key(id) ==> id < self.next_id
    }

    /// An empty table; the first identifier is 1.
    pub fn new() -> (r: Self)
        ensures
            r.well_formed(),
            r.plugins@ == Map::<usize, P>::empty(),
            r.next_id == 1,
    {
        PluginRegistry { plugins: HashMap::new(), next_id: 1 }
    }

    /// Hands out the next identifier.
    pub fn allocate_id(&mut self) -> (id: ClapId)
        requires
            old(self).well_formed(),
            old(self).next_id < usize::MAX,
        ensures
            final(self).well_formed(),
            id == ClapId(old(self).next_id),
            final(self).next_id == old(self).next_id + 1,
            final(self).plugins@ == old(self).plugins@,
            !final(self).plugins@.contains_key(id.0),
    {
        let id = ClapId(self.next_id);
        self.next_id = self.next_id + 1;
        id
    }

    /// Records the instance created for `id`, which must be new.
    pub fn insert(&mut self, id: ClapId, plugin: P)
        requires
            old(self).well_formed(),
            id.0 < old(self).next_id,
            !old(self).plugins@.contains_key(id.0),
        ensures
            final(self).well_formed(),
            final(self).plugins@ == old(self).plugins@.insert(id.0, plugin),
            final(self).next_id == old(self).next_id,
    {
        self.plugins.insert(id.0, plugin);
    }

    /// The instance of `id`, which must be recorded.
    pub fn get_plugin(&self, id: ClapId) -> (p: &P)
        requires
            self.plugins@.contains_key(id.0),
        ensures
            *p == self.plugins@[id.0],
    {
        self.plugins.get(&id.0).unwrap()
    }
}

/// The sum of the channel counts of a plugin's audio ports.
pub open spec fn channel_sum(ports: Seq<u32>) -> int
    decreases ports.len(),
{
    if ports.len() == 0 {
        0
    } else {
        channel_sum(ports.drop_last()) + ports.last()
    }
}

/// The total number of channels over a plugin's audio ports.
pub fn total_channel_count(ports: &Vec<u32>) -> (total: u32)
    requires
        channel_sum(ports@) <= u32::MAX,
    ensures
        total == channel_sum(ports@),
{
    let mut total: u32 = 0;
    let mut k: usize = 0;
    while k < ports.len()
        invariant
            0 <= k <= ports@.len(),
            total == channel_sum(ports@.take(k as int)),
            channel_sum(ports@) <= u32::MAX,
        decreases ports@.len() - k,
    {
        proof {
            assert(ports@.take(k + 1).drop_last() =~= ports@.take(k as int));
            lemma_channel_sum_prefix(ports@, k + 1);
        }
        total = total + ports[k];
        k += 1;
    }
    proof {
        assert(ports@.take(ports@.len() as int) =~= ports@);
    }
    total
}

/// A prefix never holds more channels than the whole.
proof fn lemma_channel_sum_prefix(ports: Seq<u32>, k: int)
    requires
        0 <= k <= ports.len(),
    ensures
        channel_sum(ports.take(k)) <= channel_sum(ports),
    decreases ports.len() - k,
{
    if k < ports.len() {
        lemma_channel_sum_prefix(ports, k + 1);
        assert(ports.take(k + 1).drop_last() =~= ports.take(k));
    } else {
        assert(ports.take(k) =~= ports);
    }
}

/// The graph node of a plugin instance with `num_outputs` audio output
/// channels: no audio input, those outputs (as a 16-bit count), and one event
/// input for the notes it plays.
pub fn plugin_node_desc(num_outputs: usize) -> (d: GraphNodeDesc)
    ensures
        d.inputs@.len() == 0,
        d.audio_channels.connections@.len() == 0,
        d.audio_channels.num_inputs == 0,
        d.audio_channels.num_outputs == num_outputs as u16,
        d.event_channels.connections@.len() == 0,
        d.event_channels.num_inputs == 1,
        d.event_channels.num_outputs == 0,
        !d.always_run,
{
    #[verifier::truncate]
    let outputs: u16 = num_outputs as u16;
    GraphNodeDesc::new().audio(0, outputs).event(1, 0)
}

} // verus!
