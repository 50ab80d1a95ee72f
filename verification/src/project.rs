//! The project as the edits see it: the channel entities, each with its
//! identifier, name, mixer state and plugin binding, and the order in which
//! the mixer shows them.

use vstd::prelude::*;
use crate::channel::{ChannelContent, ChannelData, ChannelSnapshot, ChannelState, StableId, UNITY_GAIN_BITS, opt_data_view};
use crate::order::ChannelOrder;

verus! {

/// A channel entity of the project.
pub struct ChannelRecord {
    pub entity: u64,
    pub id: StableId,
    pub name: String,
    pub state: ChannelState,
    pub data: Option<ChannelData>,
}

/// A channel entity, as plain values.
pub struct ChannelEntry {
    pub entity: u64,
    pub content: ChannelContent,
}

pub open spec fn record_entry(r: ChannelRecord) -> ChannelEntry {
    ChannelEntry {
        entity: r.entity,
        content: ChannelContent { id: r.id, name: r.name@, state: r.state, data: opt_data_view(r.data) },
    }
}

/// The channels of a project and their order.
pub struct ProjectWorld {
    /// The channel entities, in the order they were spawned.
    pub channels: Vec<ChannelRecord>,
    /// The order of the mixer strips, by entity.
    pub order: ChannelOrder,
    /// The entity the next spawned channel gets.
    pub next_entity: u64,
    /// The channel entities whose plugin binding was written (spawned with
    /// the channel, or set) since the frame's systems last took this list,
    /// in the order of the writes.
    pub binding_changes: Vec<u64>,
}

/// A project, as plain values.
pub struct WorldView {
    pub channels: Seq<ChannelEntry>,
    pub order: Seq<u64>,
    pub next_entity: u64,
    pub binding_changes: Seq<u64>,
}

impl View for ProjectWorld {
    type V = WorldView;

    open spec fn view(&self) -> WorldView {
        WorldView {
            channels: self.channels@.map_values(|r: ChannelRecord| record_entry(r)),
            order: self.order.channel_order@,
            next_entity: self.next_entity,
            binding_changes: self.binding_changes@,
        }
    }
}

/// `k` is the first channel that carries `id`.
pub open spec fn is_first_with_id(cs: Seq<ChannelEntry>, id: StableId, k: int) -> bool {
    &&& 0 <= k < cs.len()
    &&& cs[k].content.id == id
    &&& forall|j: int| 0 <= j < k ==> (#[trigger] cs[j]).content.id != id
}

/// The position of the first channel that carries `id`, or -1 when none
/// does.
pub open spec fn find_index(cs: Seq<ChannelEntry>, id: StableId) -> int {
    if exists|k: int| is_first_with_id(cs, id, k) {
        choose|k: int| is_first_with_id(cs, id, k)
    } else {
        -1
    }
}

/// Only one position can be the first that carries an identifier.
pub proof fn lemma_first_with_id_unique(cs: Seq<ChannelEntry>, id: StableId, k: int)
    requires
        is_first_with_id(cs, id, k),
    ensures
        find_index(cs, id) == k,
{
    let c = choose|k: int| is_first_with_id(cs, id, k);
    if c < k {
        assert(cs[c].content.id != id);
    } else if c > k {
        assert(cs[k].content.id != id);
    }
}

/// When no channel carries `id`, there is no position to find.
pub proof fn lemma_find_none(cs: Seq<ChannelEntry>, id: StableId)
    requires
        forall|k: int| 0 <= k < cs.len() ==> (#[trigger] cs[k]).content.id != id,
    ensures
        find_index(cs, id) == -1,
{
}

/// Every entity and every identifier occurs once, the entities are below
/// `next_entity`, and the order lists distinct entities of the project.
pub open spec fn world_well_formed(w: WorldView) -> bool {
    &&& forall|i: int, j: int|
        0 <= i < j < w.channels.len() ==> (#[trigger] w.channels[i]).entity != (#[trigger] w.channels[j]).entity
    &&& forall|i: int, j: int|
        0 <= i < j < w.channels.len() ==> (#[trigger] w.channels[i]).content.id != (#[trigger] w.channels[j]).content.id
    &&& forall|i: int| 0 <= i < w.channels.len() ==> (#[trigger] w.channels[i]).entity < w.next_entity
    &&& forall|i: int, j: int| 0 <= i < j < w.order.len() ==> w.order[i] != w.order[j]
    &&& w.order.len() <= usize::MAX
    &&& forall|i: int| 0 <= i < w.order.len() ==> has_entity(w.channels, #[trigger] w.order[i])
}

/// Some channel is the entity `e`.
pub open spec fn has_entity(cs: Seq<ChannelEntry>, e: u64) -> bool {
    exists|k: int| 0 <= k < cs.len() && (#[trigger] cs[k]).entity == e
}

/// The content of the channel that is the entity `e`.
pub open spec fn content_of_entity(cs: Seq<ChannelEntry>, e: u64) -> ChannelContent {
    cs[choose|k: int| 0 <= k < cs.len() && (#[trigger] cs[k]).entity == e].content
}

/// The channels as the mixer shows them: their contents, in order.
pub open spec fn ordered_contents(w: WorldView) -> Seq<ChannelContent> {
    Seq::new(w.order.len(), |i: int| content_of_entity(w.channels, w.order[i]))
}

/// With distinct entities, the content of an entity is that of the one
/// channel that is it.
pub proof fn lemma_content_of_entity(cs: Seq<ChannelEntry>, k: int)
    requires
        0 <= k < cs.len(),
        forall|i: int, j: int| 0 <= i < j < cs.len() ==> (#[trigger] cs[i]).entity != (#[trigger] cs[j]).entity,
    ensures
        content_of_entity(cs, cs[k].entity) == cs[k].content,
{
    let e = cs[k].entity;
    assert(cs[k].entity == e);
    let c = choose|c: int| 0 <= c < cs.len() && (#[trigger] cs[c]).entity == e;
    if c < k {
        assert(cs[c].entity != cs[k].entity);
    } else if c > k {
        assert(cs[k].entity != cs[c].entity);
    }
}

impl ProjectWorld {
    /// A project without channels.
    pub fn new() -> (w: Self)
        ensures
            w@.channels.len() == 0,
            w@.order.len() == 0,
            w@.next_entity == 0,
            w@.binding_changes.len() == 0,
    {
        ProjectWorld { channels: Vec::new(), order: ChannelOrder::new(), next_entity: 0, binding_changes: Vec::new() }
    }

    /// Hands over the entities whose binding was written since the last
    /// call, and starts a new list.
    pub fn take_binding_changes(&mut self) -> (changed: Vec<u64>)
        ensures
            changed@ == old(self)@.binding_changes,
            final(self)@ == (WorldView { binding_changes: Seq::empty(), ..old(self)@ }),
    {
        let mut changed: Vec<u64> = Vec::new();
        std::mem::swap(&mut changed, &mut self.binding_changes);
        changed
    }

    /// The position of the first channel that carries `id`.
    pub fn find_channel(&self, id: StableId) -> (found: Option<usize>)
        ensures
            match found {
                Some(k) => k as int == find_index(self@.channels, id) && k < self@.channels.len(),
                None => find_index(self@.channels, id) == -1,
            },
    {
        let ghost cs = self@.channels;
        let mut k: usize = 0;
        while k < self.channels.len()
            invariant
                cs == self@.channels,
                cs.len() == self.channels@.len(),
                0 <= k <= cs.len(),
                forall|j: int| 0 <= j < k ==> (#[trigger] cs[j]).content.id != id,
            decreases cs.len() - k,
        {
            assert(cs[k as int] == record_entry(self.channels@[k as int]));
            if self.channels[k].id == id {
                proof {
                    lemma_first_with_id_unique(cs, id, k as int);
                }
                return Some(k);
            }
            k += 1;
        }
        proof {
            lemma_find_none(cs, id);
        }
        None
    }
}

impl StableId {
    /// The entity of the first channel that carries this identifier.
    pub fn find_entity(&self, world: &ProjectWorld) -> (found: Option<u64>)
        ensures
            match found {
                Some(e) => find_index(world@.channels, *self) >= 0
                    && e == world@.channels[find_index(world@.channels, *self)].entity,
                None => find_index(world@.channels, *self) == -1,
            },
    {
        match world.find_channel(*self) {
            Some(k) => {
                assert(world@.channels[k as int] == record_entry(world.channels@[k as int]));
                Some(world.channels[k].entity)
            },
            None => None,
        }
    }
}

/// Holds for the entities that are channels of `cs`.
pub open spec fn is_channel_of(cs: Seq<ChannelEntry>) -> spec_fn(u64) -> bool {
    |e: u64| has_entity(cs, e)
}

impl ProjectWorld {
    /// Spawns a channel called "unnamed channel" with default settings, no
    /// plugin and a fresh identifier, and puts it into the order at `index`.
    pub fn add_channel(&mut self, index: usize) -> (entity: u64)
        requires
            index <= old(self)@.order.len(),
            old(self)@.next_entity < u64::MAX,
        ensures
            entity == old(self)@.next_entity,
            final(self)@.next_entity == old(self)@.next_entity + 1,
            final(self)@.channels.len() == old(self)@.channels.len() + 1,
            final(self)@.channels.drop_last() == old(self)@.channels,
            final(self)@.channels.last().entity == entity,
            final(self)@.channels.last().content.name == "unnamed channel"@,
            final(self)@.channels.last().content.state
                == (ChannelState { gain_value: UNITY_GAIN_BITS, muted: false, soloed: false, armed: false }),
            final(self)@.channels.last().content.data is None,
            final(self)@.order == old(self)@.order.insert(index as int, entity),
            final(self)@.binding_changes == old(self)@.binding_changes,
    {
        let ghost before = self@;
        let snapshot = ChannelSnapshot::new();
        let entity = self.next_entity;
        self.next_entity = entity + 1;
        self.channels.push(ChannelRecord {
            entity,
            id: snapshot.id,
            name: snapshot.name,
            state: snapshot.state,
            data: None,
        });
        self.order.insert_channel(index, entity);
        proof {
            assert(self@.channels.drop_last() =~= before.channels);
        }
        entity
    }

    /// Despawns the channel that the order shows at `index`, if that entity
    /// is a channel; the order itself is left for `sync_channel_order`.
    pub fn delete_channel(&mut self, index: usize)
        requires
            index < old(self)@.order.len(),
        ensures
            final(self)@.order == old(self)@.order,
            final(self)@.next_entity == old(self)@.next_entity,
            final(self)@.binding_changes == old(self)@.binding_changes,
            final(self)@.channels == if has_entity(old(self)@.channels, old(self)@.order[index as int]) {
                old(self)@.channels.remove(crate::document::find_entity_index(old(self)@.channels, old(self)@.order[index as int]))
            } else {
                old(self)@.channels
            },
    {
        let ghost before = self@;
        let e = self.order.channel_order[index];
        match self.find_entity_record(e) {
            Some(k) => {
                self.channels.remove(k);
                proof {
                    assert(self@.channels =~= before.channels.remove(k as int));
                }
            },
            None => {
                proof {
                    if has_entity(before.channels, e) {
                        let j = choose|j: int| 0 <= j < before.channels.len() && (#[trigger] before.channels[j]).entity == e;
                        crate::document::lemma_first_with_entity_exists(before.channels, e, j);
                    }
                }
            },
        }
    }

    /// Keeps in the order only the entities that are channels.
    pub fn sync_channel_order(&mut self)
        ensures
            final(self)@.channels == old(self)@.channels,
            final(self)@.next_entity == old(self)@.next_entity,
            final(self)@.binding_changes == old(self)@.binding_changes,
            final(self)@.order == old(self)@.order.filter(is_channel_of(old(self)@.channels)),
    {
        let ghost cs = self@.channels;
        let mut alive: Vec<u64> = Vec::new();
        let mut k: usize = 0;
        while k < self.channels.len()
            invariant
                cs == self@.channels,
                cs.len() == self.channels@.len(),
                0 <= k <= cs.len(),
                alive@ == Seq::new(k as nat, |i: int| cs[i].entity),
            decreases cs.len() - k,
        {
            assert(cs[k as int] == record_entry(self.channels@[k as int]));
            alive.push(self.channels[k].entity);
            k += 1;
            assert(alive@ =~= Seq::new(k as nat, |i: int| cs[i].entity));
        }
        self.order.retain_alive(&alive);
        proof {
            assert((|e: u64| alive@.contains(e)) =~= is_channel_of(cs)) by {
                assert forall|e: u64| #[trigger] alive@.contains(e) == has_entity(cs, e) by {
                    if has_entity(cs, e) {
                        let j = choose|j: int| 0 <= j < cs.len() && (#[trigger] cs[j]).entity == e;
                        assert(alive@[j] == e);
                    }
                    if alive@.contains(e) {
                        let j = choose|j: int| 0 <= j < alive@.len() && alive@[j] == e;
                        assert(cs[j].entity == e);
                    }
                }
            }
        }
    }
}

} // verus!
