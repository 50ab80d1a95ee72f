//! Saving and loading a project: the list of channels and the channel order
//! by identifier that a project file holds, and the plugin state kept in it
//! as base64 text.

use base64::Engine;
use std::collections::HashMap;
use vstd::prelude::*;
use crate::channel::{ChannelContent, ChannelData, ChannelSnapshot, StableId, duplicate_data};
use crate::order::ChannelOrder;
use crate::project::{
    ChannelEntry, ChannelRecord, ProjectWorld, WorldView, has_entity,
    lemma_content_of_entity, ordered_contents, record_entry, world_well_formed,
};

verus! {

broadcast use vstd::std_specs::hash::group_hash_axioms;

/// What `base64::engine::general_purpose::STANDARD.encode` makes of bytes.
pub uninterp spec fn base64_standard_encode(bytes: Seq<u8>) -> Seq<char>;

/// What `base64::engine::general_purpose::STANDARD.decode` makes of text:
/// `None` where the text is not padded base64 of the standard alphabet.
pub uninterp spec fn base64_standard_decode(text: Seq<char>) -> Option<Seq<u8>>;

/// Calls `STANDARD.encode` (RFC 4648 alphabet, with padding).  The text is a
/// function of the bytes, four characters for every three bytes begun, and
/// decoding it gives the bytes back.  The crate panics when the length of
/// the text overflows `usize`; `requires` leaves that out.
#[verifier::external_body]
fn standard_encode(bytes: &[u8]) -> (text: String)
    requires
        bytes@.len() / 3 * 4 + 4 <= usize::MAX,
    ensures
        text@ == base64_standard_encode(bytes@),
        text@.len() == 4 * ((bytes@.len() + 2) / 3),
        base64_standard_decode(text@) == Some(bytes@),
{
    base64::engine::general_purpose::STANDARD.encode(bytes)
}

/// Calls `STANDARD.decode`; an error becomes `None`.
#[verifier::external_body]
fn standard_decode(text: &str) -> (bytes: Option<Vec<u8>>)
    ensures
        match bytes {
            Some(b) => base64_standard_decode(text@) == Some(b@),
            None => base64_standard_decode(text@) is None,
        },
{
    base64::engine::general_purpose::STANDARD.decode(text).ok()
}

/// The saved plugin state of a channel binding, as bytes: `None` when there
/// is none or it is not valid base64.
pub fn plugin_state_bytes(data: &ChannelData) -> (bytes: Option<Vec<u8>>)
    ensures
        match data.plugin_state {
            None => bytes is None,
            Some(s) => match bytes {
                Some(b) => base64_standard_decode(s@) == Some(b@),
                None => base64_standard_decode(s@) is None,
            },
        },
{
    match &data.plugin_state {
        None => None,
        Some(s) => standard_decode(s.as_str()),
    }
}

/// A copy of `data` whose saved plugin state is `state`, as base64 text.
pub fn with_saved_state(data: &ChannelData, state: Option<Vec<u8>>) -> (saved: ChannelData)
    requires
        state matches Some(b) ==> b@.len() / 3 * 4 + 4 <= usize::MAX,
    ensures
        saved.plugin_id@ == data.plugin_id@,
        match state {
            None => saved.plugin_state is None,
            Some(b) => saved.plugin_state matches Some(s) && s@ == base64_standard_encode(b@)
                && base64_standard_decode(s@) == Some(b@),
        },
{
    let plugin_state = match state {
        None => None,
        Some(b) => Some(standard_encode(b.as_slice())),
    };
    ChannelData { plugin_id: data.plugin_id.clone(), plugin_state }
}

/// The first position holding the entity `e`, or -1.
pub open spec fn find_entity_index(cs: Seq<ChannelEntry>, e: u64) -> int {
    if exists|k: int| 0 <= k < cs.len() && cs[k].entity == e && forall|j: int| 0 <= j < k ==> (#[trigger] cs[j]).entity != e {
        choose|k: int| 0 <= k < cs.len() && cs[k].entity == e && forall|j: int| 0 <= j < k ==> (#[trigger] cs[j]).entity != e
    } else {
        -1
    }
}

/// Where some channel is the entity `e`, a first one is.
pub proof fn lemma_first_with_entity_exists(cs: Seq<ChannelEntry>, e: u64, j: int)
    requires
        0 <= j < cs.len(),
        cs[j].entity == e,
    ensures
        find_entity_index(cs, e) >= 0,
    decreases j,
{
    if exists|a: int| 0 <= a < j && (#[trigger] cs[a]).entity == e {
        let a = choose|a: int| 0 <= a < j && (#[trigger] cs[a]).entity == e;
        lemma_first_with_entity_exists(cs, e, a);
    } else {
        assert(forall|a: int| 0 <= a < j ==> (#[trigger] cs[a]).entity != e);
    }
}

/// The identifier that the saved order gives an entity: that of its
/// channel, or none for an entity that is not a channel.
pub open spec fn saved_id(cs: Seq<ChannelEntry>, e: u64) -> Option<StableId> {
    if find_entity_index(cs, e) >= 0 {
        Some(cs[find_entity_index(cs, e)].content.id)
    } else {
        None
    }
}

/// The channel order as a project file keeps it.
pub open spec fn saved_order(w: WorldView) -> Seq<Option<StableId>> {
    Seq::new(w.order.len(), |i: int| saved_id(w.channels, w.order[i]))
}

/// The channels as a project file keeps them.
pub open spec fn saved_contents(w: WorldView) -> Seq<ChannelContent> {
    Seq::new(w.channels.len(), |i: int| w.channels[i].content)
}

/// The last position whose channel carries `id`, or -1.
pub open spec fn last_with_id(docs: Seq<ChannelContent>, id: StableId) -> int {
    if exists|k: int| 0 <= k < docs.len() && docs[k].id == id && forall|j: int| k < j < docs.len() ==> (#[trigger] docs[j]).id != id {
        choose|k: int| 0 <= k < docs.len() && docs[k].id == id && forall|j: int| k < j < docs.len() ==> (#[trigger] docs[j]).id != id
    } else {
        -1
    }
}

/// The order a loaded project gets: each identifier of the file, in turn,
/// stands for the last loaded channel carrying it; identifiers that no
/// channel carries, and empty entries, are skipped.
pub open spec fn resolve_order(docs: Seq<ChannelContent>, ids: Seq<Option<StableId>>) -> Seq<u64>
    decreases ids.len(),
{
    if ids.len() == 0 {
        Seq::empty()
    } else {
        let rest = resolve_order(docs, ids.drop_last());
        match ids.last() {
            Some(id) => if last_with_id(docs, id) >= 0 {
                rest.push(last_with_id(docs, id) as u64)
            } else {
                rest
            },
            None => rest,
        }
    }
}

/// The entities, in order, of the loaded channels that come with a plugin
/// binding: channel `i` of the file is entity `i`.
pub open spec fn bound_entities(docs: Seq<ChannelContent>) -> Seq<u64>
    decreases docs.len(),
{
    if docs.len() == 0 {
        Seq::empty()
    } else if docs.last().data is Some {
        bound_entities(docs.drop_last()).push((docs.len() - 1) as u64)
    } else {
        bound_entities(docs.drop_last())
    }
}

/// The project that loading `docs` and `ids` gives: the channels become
/// entities 0, 1, ... in the order of the file, and every channel spawned
/// with a binding counts as a binding written.
pub open spec fn loaded(docs: Seq<ChannelContent>, ids: Seq<Option<StableId>>) -> WorldView {
    WorldView {
        channels: Seq::new(docs.len(), |i: int| ChannelEntry { entity: i as u64, content: docs[i] }),
        order: resolve_order(docs, ids),
        next_entity: docs.len() as u64,
        binding_changes: bound_entities(docs),
    }
}

impl ProjectWorld {
    /// The position of the first channel that is the entity `e`.
    pub fn find_entity_record(&self, e: u64) -> (found: Option<usize>)
        ensures
            match found {
                Some(k) => k as int == find_entity_index(self@.channels, e) && k < self@.channels.len(),
                None => find_entity_index(self@.channels, e) == -1,
            },
    {
        let ghost cs = self@.channels;
        let mut k: usize = 0;
        while k < self.channels.len()
            invariant
                cs == self@.channels,
                cs.len() == self.channels@.len(),
                0 <= k <= cs.len(),
                forall|j: int| 0 <= j < k ==> (#[trigger] cs[j]).entity != e,
            decreases cs.len() - k,
        {
            assert(cs[k as int] == record_entry(self.channels@[k as int]));
            if self.channels[k].entity == e {
                proof {
                    let c = choose|c: int|
                        0 <= c < cs.len() && cs[c].entity == e && forall|j: int| 0 <= j < c ==> (#[trigger] cs[j]).entity != e;
                    if c < k {
                        assert(cs[c].entity != e);
                    } else if c > k {
                        assert(cs[k as int].entity != e);
                    }
                }
                return Some(k);
            }
            k += 1;
        }
        None
    }

    /// The channel order as a project file keeps it: the identifier of each
    /// entity of the order, or none where the entity is not a channel.
    pub fn saved_channel_order(&self) -> (ids: Vec<Option<StableId>>)
        ensures
            ids@ == saved_order(self@),
    {
        let ghost cs = self@.channels;
        let order = &self.order.channel_order;
        let mut ids: Vec<Option<StableId>> = Vec::new();
        let mut i: usize = 0;
        while i < order.len()
            invariant
                cs == self@.channels,
                order@ == self@.order,
                0 <= i <= order@.len(),
                ids@ == saved_order(self@).take(i as int),
            decreases order@.len() - i,
        {
            let e = order[i];
            let found = match self.find_entity_record(e) {
                Some(k) => {
                    assert(cs[k as int] == record_entry(self.channels@[k as int]));
                    Some(self.channels[k].id)
                },
                None => None,
            };
            proof {
                assert(found == saved_id(cs, e));
                assert(saved_order(self@).take(i + 1) =~= saved_order(self@).take(i as int).push(found));
            }
            ids.push(found);
            i += 1;
        }
        proof {
            assert(saved_order(self@).take(order@.len() as int) =~= saved_order(self@));
        }
        ids
    }
}

impl ProjectWorld {
    /// The channels as a project file keeps them, in the order they were
    /// spawned.
    pub fn saved_channels(&self) -> (docs: Vec<ChannelSnapshot>)
        ensures
            docs@.len() == self@.channels.len(),
            forall|i: int| 0 <= i < docs@.len() ==> (#[trigger] docs@[i]).content() == self@.channels[i].content,
    {
        let mut docs: Vec<ChannelSnapshot> = Vec::new();
        let mut k: usize = 0;
        while k < self.channels.len()
            invariant
                0 <= k <= self.channels@.len(),
                docs@.len() == k,
                forall|i: int| 0 <= i < k ==> (#[trigger] docs@[i]).content() == self@.channels[i].content,
            decreases self.channels@.len() - k,
        {
            let r = &self.channels[k];
            assert(self@.channels[k as int] == record_entry(self.channels@[k as int]));
            docs.push(ChannelSnapshot { name: r.name.clone(), state: r.state, data: duplicate_data(&r.data), id: r.id });
            k += 1;
        }
        docs
    }

    /// The project a project file describes: its channels become entities
    /// 0, 1, ... in the order of the file, and the order lists, for each
    /// identifier of the file's order, the last channel carrying it.
    pub fn load(channels: Vec<ChannelSnapshot>, channel_order: Vec<Option<StableId>>) -> (w: ProjectWorld)
        requires
            channels@.len() < u64::MAX,
        ensures
            w@ == loaded(channels@.map_values(|s: ChannelSnapshot| s.content()), channel_order@),
    {
        let ghost docs = channels@.map_values(|s: ChannelSnapshot| s.content());
        let mut records: Vec<ChannelRecord> = Vec::new();
        let mut bound: Vec<u64> = Vec::new();
        let mut by_id: HashMap<u128, u64> = HashMap::new();
        let mut k: usize = 0;
        while k < channels.len()
            invariant
                docs == channels@.map_values(|s: ChannelSnapshot| s.content()),
                channels@.len() < u64::MAX,
                0 <= k <= channels@.len(),
                records@.len() == k,
                bound@ == bound_entities(docs.take(k as int)),
                forall|i: int| 0 <= i < k ==> #[trigger] record_entry(records@[i]) == (ChannelEntry { entity: i as u64, content: docs[i] }),
                forall|x: u128| #[trigger] by_id@.contains_key(x) <==> exists|j: int| 0 <= j < k && docs[j].id.0 == x,
                forall|x: u128| #[trigger] by_id@.contains_key(x) ==> {
                    &&& 0 <= by_id@[x] < k
                    &&& docs[by_id@[x] as int].id.0 == x
                    &&& forall|j: int| by_id@[x] < j < k ==> (#[trigger] docs[j]).id.0 != x
                },
            decreases channels@.len() - k,
        {
            let snap = &channels[k];
            assert(docs[k as int] == snap.content());
            records.push(ChannelRecord {
                entity: k as u64,
                id: snap.id,
                name: snap.name.clone(),
                state: snap.state,
                data: duplicate_data(&snap.data),
            });
            by_id.insert(snap.id.0, k as u64);
            proof {
                assert(docs.take(k + 1).drop_last() =~= docs.take(k as int));
                assert(docs.take(k + 1).last() == docs[k as int]);
            }
            if snap.data.is_some() {
                bound.push(k as u64);
            }
            k += 1;
            proof {
                assert forall|x: u128| #[trigger] by_id@.contains_key(x) implies {
                    &&& 0 <= by_id@[x] < k
                    &&& docs[by_id@[x] as int].id.0 == x
                    &&& forall|j: int| by_id@[x] < j < k ==> (#[trigger] docs[j]).id.0 != x
                } by {
                    if x != docs[k - 1].id.0 {
                        assert(docs[k - 1].id.0 != x);
                    }
                }
                assert forall|x: u128| (exists|j: int| 0 <= j < k && docs[j].id.0 == x) implies #[trigger] by_id@.contains_key(x) by {
                    if x != docs[k - 1].id.0 {
                        let j = choose|j: int| 0 <= j < k && docs[j].id.0 == x;
                        assert(j != k - 1);
                    }
                }
                assert forall|x: u128| #[trigger] by_id@.contains_key(x) implies (exists|j: int| 0 <= j < k && docs[j].id.0 == x) by {
                    let j = by_id@[x] as int;
                    assert(docs[j].id.0 == x);
                }
            }
        }
        let mut order: Vec<u64> = Vec::new();
        let mut i: usize = 0;
        while i < channel_order.len()
            invariant
                docs == channels@.map_values(|s: ChannelSnapshot| s.content()),
                k == channels@.len(),
                forall|x: u128| #[trigger] by_id@.contains_key(x) <==> exists|j: int| 0 <= j < k && docs[j].id.0 == x,
                forall|x: u128| #[trigger] by_id@.contains_key(x) ==> {
                    &&& 0 <= by_id@[x] < k
                    &&& docs[by_id@[x] as int].id.0 == x
                    &&& forall|j: int| by_id@[x] < j < k ==> (#[trigger] docs[j]).id.0 != x
                },
                0 <= i <= channel_order@.len(),
                order@ == resolve_order(docs, channel_order@.take(i as int)),
            decreases channel_order@.len() - i,
        {
            let ghost prefix = channel_order@.take(i as int + 1);
            proof {
                assert(prefix.drop_last() =~= channel_order@.take(i as int));
                assert(prefix.last() == channel_order@[i as int]);
            }
            match channel_order[i] {
                Some(id) => {
                    match by_id.get(&id.0) {
                        Some(e) => {
                            proof {
                                let x = id.0;
                                assert(by_id@.contains_key(x));
                                let l = by_id@[x] as int;
                                assert(docs[l].id == id);
                                let c = choose|c: int| 0 <= c < docs.len() && docs[c].id == id
                                    && forall|j: int| c < j < docs.len() ==> (#[trigger] docs[j]).id != id;
                                assert(forall|j: int| l < j < docs.len() ==> (#[trigger] docs[j]).id != id);
                                if c < l {
                                    assert(docs[l].id != id);
                                } else if c > l {
                                    assert(docs[c].id != id);
                                }
                                assert(last_with_id(docs, id) == l);
                            }
                            order.push(*e);
                        },
                        None => {
                            proof {
                                assert(!by_id@.contains_key(id.0));
                                assert forall|j: int| 0 <= j < docs.len() implies (#[trigger] docs[j]).id != id by {
                                    if docs[j].id == id {
                                        assert(docs[j].id.0 == id.0);
                                    }
                                }
                            }
                        },
                    }
                },
                None => {},
            }
            i += 1;
        }
        proof {
            assert(channel_order@.take(channel_order@.len() as int) =~= channel_order@);
        }
        proof {
            assert(docs.take(k as int) =~= docs);
        }
        let w = ProjectWorld {
            channels: records,
            order: ChannelOrder { channel_order: order },
            next_entity: k as u64,
            binding_changes: bound,
        };
        proof {
            assert(w@.channels =~= loaded(docs, channel_order@).channels);
        }
        w
    }
}

/// Where every identifier of the file's order is carried by a loaded
/// channel, the loaded order lists exactly those channels.
proof fn lemma_resolve_all_found(docs: Seq<ChannelContent>, ids: Seq<Option<StableId>>)
    requires
        forall|i: int| 0 <= i < ids.len() ==> (#[trigger] ids[i]) is Some && last_with_id(docs, ids[i]->0) >= 0,
    ensures
        resolve_order(docs, ids) == Seq::new(ids.len(), |i: int| last_with_id(docs, ids[i]->0) as u64),
    decreases ids.len(),
{
    if ids.len() > 0 {
        let front = ids.drop_last();
        assert forall|i: int| 0 <= i < front.len() implies (#[trigger] front[i]) is Some && last_with_id(docs, front[i]->0) >= 0 by {
            assert(front[i] == ids[i]);
        }
        lemma_resolve_all_found(docs, front);
        assert(ids.last() == ids[ids.len() - 1]);
        assert(resolve_order(docs, ids) =~= Seq::new(ids.len(), |i: int| last_with_id(docs, ids[i]->0) as u64));
    }
}

/// Loading what saving a project writes gives back the project as the mixer
/// shows it: the channels' contents, in order.
pub proof fn lemma_save_then_load(w: WorldView)
    requires
        world_well_formed(w),
        w.channels.len() < u64::MAX,
    ensures
        ordered_contents(loaded(saved_contents(w), saved_order(w))) == ordered_contents(w),
{
    let cs = w.channels;
    let docs = saved_contents(w);
    let ids = saved_order(w);
    let v = loaded(docs, ids);
    // The channel each entry of the order is.
    assert forall|i: int| 0 <= i < w.order.len() implies {
        let j = choose|j: int| 0 <= j < cs.len() && (#[trigger] cs[j]).entity == w.order[i];
        &&& 0 <= j < cs.len() && cs[j].entity == w.order[i]
        &&& #[trigger] ids[i] == Some(cs[j].content.id)
        &&& last_with_id(docs, cs[j].content.id) == j
    } by {
        let e = w.order[i];
        assert(has_entity(cs, e));
        let j = choose|j: int| 0 <= j < cs.len() && (#[trigger] cs[j]).entity == e;
        assert forall|a: int| 0 <= a < j implies (#[trigger] cs[a]).entity != e by {
            assert(cs[a].entity != cs[j].entity);
        }
        let f = choose|k: int| 0 <= k < cs.len() && cs[k].entity == e && forall|a: int| 0 <= a < k ==> (#[trigger] cs[a]).entity != e;
        if f < j {
            assert(cs[f].entity != e);
        } else if f > j {
            assert(cs[j].entity != e);
        }
        assert(find_entity_index(cs, e) == j);
        let id = cs[j].content.id;
        assert(docs[j].id == id);
        assert forall|a: int| j < a < docs.len() implies (#[trigger] docs[a]).id != id by {
            assert(cs[j].content.id != cs[a].content.id);
        }
        let l = choose|k: int| 0 <= k < docs.len() && docs[k].id == id && forall|a: int| k < a < docs.len() ==> (#[trigger] docs[a]).id != id;
        if l < j {
            assert(docs[j].id != id);
        } else if l > j {
            assert(cs[j].content.id != cs[l].content.id);
        }
    }
    assert forall|i: int| 0 <= i < ids.len() implies (#[trigger] ids[i]) is Some && last_with_id(docs, ids[i]->0) >= 0 by {
        let j = choose|j: int| 0 <= j < cs.len() && (#[trigger] cs[j]).entity == w.order[i];
        assert(ids[i] == Some(cs[j].content.id));
    }
    lemma_resolve_all_found(docs, ids);
    assert forall|a: int, b: int| 0 <= a < b < v.channels.len() implies
        (#[trigger] v.channels[a]).entity != (#[trigger] v.channels[b]).entity by {}
    assert forall|i: int| 0 <= i < w.order.len() implies #[trigger] ordered_contents(v)[i] == ordered_contents(w)[i] by {
        let j = choose|j: int| 0 <= j < cs.len() && (#[trigger] cs[j]).entity == w.order[i];
        assert(ids[i] == Some(cs[j].content.id));
        assert(v.order[i] == j as u64);
        lemma_content_of_entity(v.channels, j);
        lemma_content_of_entity(cs, j);
    }
    assert(ordered_contents(v) =~= ordered_contents(w));
}

} // verus!
