//! The undoable edits of a project.  Executing an edit changes the project
//! and hands back the edit that undoes it; an edit that names a channel the
//! project does not hold changes nothing and hands back nothing.

use vstd::prelude::*;
use crate::channel::{
    ChannelButton, ChannelContent, ChannelData, ChannelSnapshot, StableId, duplicate_data,
    opt_data_view,
};
use crate::order::{
    ChannelOrder, is_not, lemma_filter_absent, lemma_filter_inserted, lemma_filter_once, lemma_move_then_undo,
    lemma_moved_distinct, lemma_undo_move_twice, moved, undo_move,
};
use crate::project::{
    ChannelEntry, ChannelRecord, ProjectWorld, WorldView, find_index, has_entity,
    is_first_with_id, lemma_content_of_entity, lemma_find_none, lemma_first_with_id_unique, ordered_contents,
    record_entry, content_of_entity,
    world_well_formed,
};

verus! {

/// An edit, as plain values.
pub enum EditView {
    Rename { channel: StableId, name: Seq<char> },
    Button { channel: StableId, button: ChannelButton, value: bool },
    Add { index: usize, snapshot: ChannelContent },
    Delete { channel: StableId, index: usize },
    Move { from: usize, to: usize },
    SetPlugin { channel: StableId, data: Option<(Seq<char>, Option<Seq<char>>)> },
    SetGain { channel: StableId, gain_value: u32 },
}

/// `w` with the content of channel `k` replaced by `c`.
pub open spec fn with_content(w: WorldView, k: int, c: ChannelContent) -> WorldView {
    WorldView {
        channels: w.channels.update(k, ChannelEntry { entity: w.channels[k].entity, content: c }),
        order: w.order,
        next_entity: w.next_entity,
        binding_changes: w.binding_changes,
    }
}

/// The list of binding writes after `entity` gets the binding `data`:
/// setting a binding is a write, taking it away is not.
pub open spec fn after_binding_set(changes: Seq<u64>, entity: u64, data: Option<(Seq<char>, Option<Seq<char>>)>) -> Seq<u64> {
    if data is Some {
        changes.push(entity)
    } else {
        changes
    }
}

/// The inputs on which an edit runs to its end: an added channel goes at a
/// position of the order and gets an entity, a moved channel is taken from a
/// position of the order and dropped at one.
pub open spec fn edit_runs(w: WorldView, e: EditView) -> bool {
    match e {
        EditView::Add { index, .. } => index <= w.order.len() && w.order.len() < usize::MAX && w.next_entity < u64::MAX,
        EditView::Move { from, to } => from < w.order.len() && to <= w.order.len(),
        _ => true,
    }
}

/// What executing `e` on `w` gives: the new project and the undoing edit.
pub open spec fn apply_edit(w: WorldView, e: EditView) -> (WorldView, Option<EditView>) {
    match e {
        EditView::Rename { channel, name } => {
            let k = find_index(w.channels, channel);
            if k < 0 {
                (w, None)
            } else {
                let c = w.channels[k].content;
                (
                    with_content(w, k, ChannelContent { name: name, ..c }),
                    Some(EditView::Rename { channel, name: c.name }),
                )
            }
        },
        EditView::Button { channel, button, value } => {
            let k = find_index(w.channels, channel);
            if k < 0 {
                (w, None)
            } else {
                let c = w.channels[k].content;
                (
                    with_content(w, k, ChannelContent { state: c.state.with_button(button, value), ..c }),
                    Some(EditView::Button { channel, button, value: c.state.button(button) }),
                )
            }
        },
        EditView::Add { index, snapshot } => {
            let n = w.next_entity;
            (
                WorldView {
                    channels: w.channels.push(ChannelEntry { entity: n, content: snapshot }),
                    order: w.order.insert(index as int, n),
                    next_entity: (n + 1) as u64,
                    binding_changes: after_binding_set(w.binding_changes, n, snapshot.data),
                },
                Some(EditView::Delete { channel: snapshot.id, index }),
            )
        },
        EditView::Delete { channel, index } => {
            let k = find_index(w.channels, channel);
            if k < 0 {
                (w, None)
            } else {
                let r = w.channels[k];
                (
                    WorldView {
                        channels: w.channels.remove(k),
                        order: w.order.filter(is_not(r.entity)),
                        next_entity: w.next_entity,
                        binding_changes: w.binding_changes,
                    },
                    Some(EditView::Add { index, snapshot: r.content }),
                )
            }
        },
        EditView::Move { from, to } => (
            WorldView {
                channels: w.channels,
                order: moved(w.order, from as int, to as int),
                next_entity: w.next_entity,
                binding_changes: w.binding_changes,
            },
            Some(EditView::Move { from: undo_move(from, to).0, to: undo_move(from, to).1 }),
        ),
        EditView::SetPlugin { channel, data } => {
            let k = find_index(w.channels, channel);
            if k < 0 {
                (w, None)
            } else {
                let c = w.channels[k].content;
                (
                    WorldView {
                        binding_changes: after_binding_set(w.binding_changes, w.channels[k].entity, data),
                        ..with_content(w, k, ChannelContent { data: data, ..c })
                    },
                    Some(EditView::SetPlugin { channel, data: c.data }),
                )
            }
        },
        EditView::SetGain { channel, gain_value } => {
            let k = find_index(w.channels, channel);
            if k < 0 {
                (w, None)
            } else {
                let c = w.channels[k].content;
                (
                    with_content(w, k, ChannelContent { state: crate::channel::ChannelState { gain_value: gain_value, ..c.state }, ..c }),
                    Some(EditView::SetGain { channel, gain_value: c.state.gain_value }),
                )
            }
        },
    }
}

/// Renames a channel.
pub struct RenameChannelEdit {
    channel: StableId,
    name: String,
}

/// Presses or releases a button of a channel.
pub struct ChannelButtonEdit {
    channel: StableId,
    button: ChannelButton,
    value: bool,
}

/// Adds a channel at a position of the order.
pub struct AddChannelEdit {
    index: usize,
    snapshot: ChannelSnapshot,
}

/// Deletes a channel; `index` is where the undoing edit puts it back.
pub struct DeleteChannelEdit {
    channel: StableId,
    index: usize,
}

/// Moves the channel at `from` so that it lands before the channel at `to`.
#[derive(Clone, Copy, Debug, PartialEq, Eq, Structural)]
pub struct MoveChannelEdit {
    from: usize,
    to: usize,
}

/// Binds a plugin to a channel, or unbinds it.
pub struct SetPluginEdit {
    channel: StableId,
    data: Option<ChannelData>,
}

/// Sets the gain of a channel.
pub struct SetGainEdit {
    channel: StableId,
    gain_value: u32,
}

/// Any edit.
pub enum Edit {
    Rename(RenameChannelEdit),
    Button(ChannelButtonEdit),
    Add(AddChannelEdit),
    Delete(DeleteChannelEdit),
    Move(MoveChannelEdit),
    SetPlugin(SetPluginEdit),
    SetGain(SetGainEdit),
}

impl View for RenameChannelEdit {
    type V = EditView;

    closed spec fn view(&self) -> EditView {
        EditView::Rename { channel: self.channel, name: self.name@ }
    }
}

impl View for ChannelButtonEdit {
    type V = EditView;

    closed spec fn view(&self) -> EditView {
        EditView::Button { channel: self.channel, button: self.button, value: self.value }
    }
}

impl View for AddChannelEdit {
    type V = EditView;

    closed spec fn view(&self) -> EditView {
        EditView::Add { index: self.index, snapshot: self.snapshot.content() }
    }
}

impl View for DeleteChannelEdit {
    type V = EditView;

    closed spec fn view(&self) -> EditView {
        EditView::Delete { channel: self.channel, index: self.index }
    }
}

impl View for MoveChannelEdit {
    type V = EditView;

    closed spec fn view(&self) -> EditView {
        EditView::Move { from: self.from, to: self.to }
    }
}

impl View for SetPluginEdit {
    type V = EditView;

    closed spec fn view(&self) -> EditView {
        EditView::SetPlugin { channel: self.channel, data: opt_data_view(self.data) }
    }
}

impl View for SetGainEdit {
    type V = EditView;

    closed spec fn view(&self) -> EditView {
        EditView::SetGain { channel: self.channel, gain_value: self.gain_value }
    }
}

impl View for Edit {
    type V = EditView;

    open spec fn view(&self) -> EditView {
        match self {
            Edit::Rename(x) => x@,
            Edit::Button(x) => x@,
            Edit::Add(x) => x@,
            Edit::Delete(x) => x@,
            Edit::Move(x) => x@,
            Edit::SetPlugin(x) => x@,
            Edit::SetGain(x) => x@,
        }
    }
}

/// What an optional edit is, as plain values.
pub open spec fn opt_edit_view(e: Option<Edit>) -> Option<EditView> {
    match e {
        Some(x) => Some(x@),
        None => None,
    }
}

impl RenameChannelEdit {
    pub fn new(channel: StableId, name: String) -> (e: Self)
        ensures
            e@ == (EditView::Rename { channel, name: name@ }),
    {
        RenameChannelEdit { channel, name }
    }

    pub fn execute(&self, world: &mut ProjectWorld) -> (undo: Option<Edit>)
        ensures
            final(world)@ == apply_edit(old(world)@, self@).0,
            opt_edit_view(undo) == apply_edit(old(world)@, self@).1,
    {
        match world.find_channel(self.channel) {
            None => None,
            Some(k) => {
                let ghost before = world@;
                let mut name = self.name.clone();
                std::mem::swap(&mut name, &mut world.channels[k].name);
                proof {
                    assert(world@.channels =~= before.channels.update(
                        k as int,
                        ChannelEntry {
                            entity: before.channels[k as int].entity,
                            content: ChannelContent { name: self.name@, ..before.channels[k as int].content },
                        },
                    ));
                }
                Some(Edit::Rename(RenameChannelEdit::new(self.channel, name)))
            },
        }
    }
}

impl ChannelButtonEdit {
    pub fn new(channel: StableId, button: ChannelButton, value: bool) -> (e: Self)
        ensures
            e@ == (EditView::Button { channel, button, value }),
    {
        ChannelButtonEdit { channel, button, value }
    }

    pub fn execute(&self, world: &mut ProjectWorld) -> (undo: Option<Edit>)
        ensures
            final(world)@ == apply_edit(old(world)@, self@).0,
            opt_edit_view(undo) == apply_edit(old(world)@, self@).1,
    {
        match world.find_channel(self.channel) {
            None => None,
            Some(k) => {
                let ghost before = world@;
                let mut state = world.channels[k].state;
                let old_value = state.get_button(self.button);
                state.set_button(self.button, self.value);
                std::mem::swap(&mut state, &mut world.channels[k].state);
                proof {
                    let c = before.channels[k as int].content;
                    assert(world@.channels =~= before.channels.update(
                        k as int,
                        ChannelEntry {
                            entity: before.channels[k as int].entity,
                            content: ChannelContent { state: c.state.with_button(self.button, self.value), ..c },
                        },
                    ));
                }
                Some(Edit::Button(ChannelButtonEdit::new(self.channel, self.button, old_value)))
            },
        }
    }
}

impl AddChannelEdit {
    pub fn new(index: usize, snapshot: ChannelSnapshot) -> (e: Self)
        ensures
            e@ == (EditView::Add { index, snapshot: snapshot.content() }),
    {
        AddChannelEdit { index, snapshot }
    }

    /// Spawns the channel and puts it into the order at `index`.
    pub fn execute(&self, world: &mut ProjectWorld) -> (undo: Option<Edit>)
        requires
            edit_runs(old(world)@, self@),
        ensures
            final(world)@ == apply_edit(old(world)@, self@).0,
            opt_edit_view(undo) == apply_edit(old(world)@, self@).1,
    {
        let ghost before = world@;
        let entity = world.next_entity;
        world.next_entity = entity + 1;
        let record = ChannelRecord {
            entity,
            id: self.snapshot.id,
            name: self.snapshot.name.clone(),
            state: self.snapshot.state,
            data: duplicate_data(&self.snapshot.data),
        };
        world.channels.push(record);
        world.order.insert_channel(self.index, entity);
        if self.snapshot.data.is_some() {
            world.binding_changes.push(entity);
        }
        proof {
            assert(world@.channels =~= before.channels.push(
                ChannelEntry { entity, content: self.snapshot.content() },
            ));
        }
        Some(Edit::Delete(DeleteChannelEdit::new(self.snapshot.id, self.index)))
    }
}

impl DeleteChannelEdit {
    pub fn new(channel: StableId, index: usize) -> (e: Self)
        ensures
            e@ == (EditView::Delete { channel, index }),
    {
        DeleteChannelEdit { channel, index }
    }

    /// Despawns the channel and takes it out of the order.
    pub fn execute(&self, world: &mut ProjectWorld) -> (undo: Option<Edit>)
        ensures
            final(world)@ == apply_edit(old(world)@, self@).0,
            opt_edit_view(undo) == apply_edit(old(world)@, self@).1,
    {
        match world.find_channel(self.channel) {
            None => None,
            Some(k) => {
                let ghost before = world@;
                let record = world.channels.remove(k);
                proof {
                    assert(record_entry(record) == before.channels[k as int]);
                    assert(world@.channels =~= before.channels.remove(k as int));
                }
                world.order.remove_entity(record.entity);
                let snapshot = ChannelSnapshot {
                    name: record.name,
                    state: record.state,
                    data: record.data,
                    id: record.id,
                };
                Some(Edit::Add(AddChannelEdit::new(self.index, snapshot)))
            },
        }
    }
}

impl MoveChannelEdit {
    pub fn new(from: usize, to: usize) -> (e: Self)
        ensures
            e@ == (EditView::Move { from, to }),
    {
        MoveChannelEdit { from, to }
    }

    /// Moves the channel in `channel_order` and returns the move that puts it
    /// back.
    pub fn apply(&self, channel_order: &mut ChannelOrder) -> (undo: Edit)
        requires
            self@->from < old(channel_order).channel_order@.len(),
            self@->to <= old(channel_order).channel_order@.len(),
        ensures
            final(channel_order).channel_order@ == moved(
                old(channel_order).channel_order@,
                self@->from as int,
                self@->to as int,
            ),
            undo@ == (EditView::Move {
                from: undo_move(self@->from, self@->to).0,
                to: undo_move(self@->from, self@->to).1,
            }),
    {
        let len = channel_order.channel_order.len();
        assert(self.from < len);
        channel_order.move_channel(self.from, self.to);
        let undo = if self.from < self.to {
            MoveChannelEdit::new(self.to - 1, self.from)
        } else if self.from > self.to {
            MoveChannelEdit::new(self.to, self.from + 1)
        } else {
            MoveChannelEdit::new(self.from, self.to)
        };
        Edit::Move(undo)
    }

    pub fn execute(&self, world: &mut ProjectWorld) -> (undo: Option<Edit>)
        requires
            edit_runs(old(world)@, self@),
        ensures
            final(world)@ == apply_edit(old(world)@, self@).0,
            opt_edit_view(undo) == apply_edit(old(world)@, self@).1,
    {
        let undo = self.apply(&mut world.order);
        Some(undo)
    }
}

impl SetPluginEdit {
    pub fn new(channel: StableId, data: Option<ChannelData>) -> (e: Self)
        ensures
            e@ == (EditView::SetPlugin { channel, data: opt_data_view(data) }),
    {
        SetPluginEdit { channel, data }
    }

    pub fn execute(&self, world: &mut ProjectWorld) -> (undo: Option<Edit>)
        ensures
            final(world)@ == apply_edit(old(world)@, self@).0,
            opt_edit_view(undo) == apply_edit(old(world)@, self@).1,
    {
        match world.find_channel(self.channel) {
            None => None,
            Some(k) => {
                let ghost before = world@;
                let mut data = duplicate_data(&self.data);
                std::mem::swap(&mut data, &mut world.channels[k].data);
                if self.data.is_some() {
                    let entity = world.channels[k].entity;
                    world.binding_changes.push(entity);
                }
                proof {
                    let c = before.channels[k as int].content;
                    assert(world@.channels =~= before.channels.update(
                        k as int,
                        ChannelEntry {
                            entity: before.channels[k as int].entity,
                            content: ChannelContent { data: opt_data_view(self.data), ..c },
                        },
                    ));
                }
                Some(Edit::SetPlugin(SetPluginEdit::new(self.channel, data)))
            },
        }
    }
}

impl SetGainEdit {
    /// `gain_value` is the bit pattern of the `f32` gain.
    pub fn new(channel: StableId, gain_value: u32) -> (e: Self)
        ensures
            e@ == (EditView::SetGain { channel, gain_value }),
    {
        SetGainEdit { channel, gain_value }
    }

    pub fn execute(&self, world: &mut ProjectWorld) -> (undo: Option<Edit>)
        ensures
            final(world)@ == apply_edit(old(world)@, self@).0,
            opt_edit_view(undo) == apply_edit(old(world)@, self@).1,
    {
        match world.find_channel(self.channel) {
            None => None,
            Some(k) => {
                let ghost before = world@;
                let mut state = world.channels[k].state;
                let old_value = state.gain_value;
                state.gain_value = self.gain_value;
                std::mem::swap(&mut state, &mut world.channels[k].state);
                proof {
                    let c = before.channels[k as int].content;
                    assert(world@.channels =~= before.channels.update(
                        k as int,
                        ChannelEntry {
                            entity: before.channels[k as int].entity,
                            content: ChannelContent {
                                state: crate::channel::ChannelState { gain_value: self.gain_value, ..c.state },
                                ..c
                            },
                        },
                    ));
                }
                Some(Edit::SetGain(SetGainEdit::new(self.channel, old_value)))
            },
        }
    }
}

impl Edit {
    /// Whether the edit can run on `world` (see `edit_runs`).
    pub fn runs_on(&self, world: &ProjectWorld) -> (b: bool)
        ensures
            b == edit_runs(world@, self@),
    {
        let len = world.order.channel_order.len();
        match self {
            Edit::Add(x) => x.index <= len && len < usize::MAX && world.next_entity < u64::MAX,
            Edit::Move(x) => x.from < len && x.to <= len,
            _ => true,
        }
    }

    /// Executes the edit and returns the edit that undoes it.
    pub fn execute(&self, world: &mut ProjectWorld) -> (undo: Option<Edit>)
        requires
            edit_runs(old(world)@, self@),
        ensures
            final(world)@ == apply_edit(old(world)@, self@).0,
            opt_edit_view(undo) == apply_edit(old(world)@, self@).1,
    {
        match self {
            Edit::Rename(x) => x.execute(world),
            Edit::Button(x) => x.execute(world),
            Edit::Add(x) => x.execute(world),
            Edit::Delete(x) => x.execute(world),
            Edit::Move(x) => x.execute(world),
            Edit::SetPlugin(x) => x.execute(world),
            Edit::SetGain(x) => x.execute(world),
        }
    }
}

/// An added channel brings an identifier that the project does not hold yet.
pub open spec fn adds_fresh_id(w: WorldView, e: EditView) -> bool {
    match e {
        EditView::Add { snapshot, .. } => forall|k: int|
            0 <= k < w.channels.len() ==> (#[trigger] w.channels[k]).content.id != snapshot.id,
        _ => true,
    }
}

/// A position that `find_index` gives is the first with the identifier.
proof fn lemma_found(cs: Seq<ChannelEntry>, id: StableId)
    requires
        find_index(cs, id) >= 0,
    ensures
        is_first_with_id(cs, id, find_index(cs, id)),
{
}

/// Changing what a channel holds, but not its identifier, keeps the project
/// well formed.
proof fn lemma_with_content_well_formed(w: WorldView, k: int, c: ChannelContent)
    requires
        world_well_formed(w),
        0 <= k < w.channels.len(),
        c.id == w.channels[k].content.id,
    ensures
        world_well_formed(with_content(w, k, c)),
{
    let w1 = with_content(w, k, c);
    assert forall|i: int| 0 <= i < w.channels.len() implies
        (#[trigger] w1.channels[i]).entity == w.channels[i].entity
        && w1.channels[i].content.id == w.channels[i].content.id by {}
    assert forall|i: int, j: int| 0 <= i < j < w1.channels.len() implies
        (#[trigger] w1.channels[i]).entity != (#[trigger] w1.channels[j]).entity by {
        assert(w.channels[i].entity != w.channels[j].entity);
    }
    assert forall|i: int, j: int| 0 <= i < j < w1.channels.len() implies
        (#[trigger] w1.channels[i]).content.id != (#[trigger] w1.channels[j]).content.id by {
        assert(w.channels[i].content.id != w.channels[j].content.id);
    }
    assert forall|i: int| 0 <= i < w1.order.len() implies has_entity(w1.channels, #[trigger] w1.order[i]) by {
        assert(has_entity(w.channels, w.order[i]));
        let j = choose|j: int| 0 <= j < w.channels.len() && (#[trigger] w.channels[j]).entity == w.order[i];
        assert(w1.channels[j].entity == w1.order[i]);
    }
}

/// Adding a channel with a new identifier keeps the project well formed.
proof fn lemma_add_well_formed(w: WorldView, index: usize, snapshot: ChannelContent)
    requires
        world_well_formed(w),
        edit_runs(w, EditView::Add { index, snapshot }),
        adds_fresh_id(w, EditView::Add { index, snapshot }),
    ensures
        world_well_formed(apply_edit(w, EditView::Add { index, snapshot }).0),
{
    let w1 = apply_edit(w, EditView::Add { index, snapshot }).0;
    let n = w.next_entity;
    let len = w.channels.len();
    assert forall|i: int| 0 <= i < len implies (#[trigger] w1.channels[i]) == w.channels[i] by {}
    assert(w1.channels[len as int].entity == n);
    assert forall|i: int, j: int| 0 <= i < j < w1.channels.len() implies
        (#[trigger] w1.channels[i]).entity != (#[trigger] w1.channels[j]).entity by {
        if j < len {
            assert(w.channels[i].entity != w.channels[j].entity);
        } else {
            assert(w.channels[i].entity < n);
        }
    }
    assert forall|i: int, j: int| 0 <= i < j < w1.channels.len() implies
        (#[trigger] w1.channels[i]).content.id != (#[trigger] w1.channels[j]).content.id by {
        if j < len {
            assert(w.channels[i].content.id != w.channels[j].content.id);
        } else {
            assert(w.channels[i].content.id != snapshot.id);
        }
    }
    assert forall|i: int| 0 <= i < w1.channels.len() implies (#[trigger] w1.channels[i]).entity < w1.next_entity by {
        if i < len {
            assert(w.channels[i].entity < n);
        }
    }
    // Every entity of the old order is a channel entity, hence below `n`.
    assert forall|i: int| 0 <= i < w.order.len() implies (#[trigger] w.order[i]) < n && has_entity(w1.channels, w.order[i]) by {
        assert(has_entity(w.channels, w.order[i]));
        let j = choose|j: int| 0 <= j < w.channels.len() && (#[trigger] w.channels[j]).entity == w.order[i];
        assert(w.channels[j].entity < n);
        assert(w1.channels[j].entity == w.order[i]);
    }
    let o = w1.order;
    assert forall|a: int, b: int| 0 <= a < b < o.len() implies o[a] != o[b] by {
        let ix = index as int;
        if a < ix && b < ix {
            assert(w.order[a] != w.order[b]);
        } else if a < ix && b == ix {
            assert(w.order[a] < n);
        } else if a < ix {
            assert(w.order[a] != w.order[b - 1]);
        } else if a == ix {
            assert(w.order[b - 1] < n);
        } else {
            assert(w.order[a - 1] != w.order[b - 1]);
        }
    }
    assert forall|i: int| 0 <= i < o.len() implies has_entity(w1.channels, #[trigger] o[i]) by {
        let ix = index as int;
        if i < ix {
            assert(o[i] == w.order[i]);
        } else if i == ix {
            assert(w1.channels[len as int].entity == o[i]);
        } else {
            assert(o[i] == w.order[i - 1]);
        }
    }
}

/// Deleting a channel keeps the project well formed.
proof fn lemma_delete_well_formed(w: WorldView, channel: StableId, index: usize)
    requires
        world_well_formed(w),
    ensures
        world_well_formed(apply_edit(w, EditView::Delete { channel, index }).0),
{
    let k = find_index(w.channels, channel);
    if k >= 0 {
        let w1 = apply_edit(w, EditView::Delete { channel, index }).0;
        let e = w.channels[k].entity;
        let cs = w1.channels;
        assert forall|i: int| 0 <= i < cs.len() implies
            (#[trigger] cs[i]) == w.channels[if i < k { i } else { i + 1 }] by {}
        assert forall|i: int, j: int| 0 <= i < j < cs.len() implies
            (#[trigger] cs[i]).entity != (#[trigger] cs[j]).entity by {
            let a = if i < k { i } else { i + 1 };
            let b = if j < k { j } else { j + 1 };
            assert(cs[i] == w.channels[a]);
            assert(cs[j] == w.channels[b]);
            assert(w.channels[a].entity != w.channels[b].entity);
        }
        assert forall|i: int, j: int| 0 <= i < j < cs.len() implies
            (#[trigger] cs[i]).content.id != (#[trigger] cs[j]).content.id by {
            let a = if i < k { i } else { i + 1 };
            let b = if j < k { j } else { j + 1 };
            assert(cs[i] == w.channels[a]);
            assert(cs[j] == w.channels[b]);
            assert(w.channels[a].content.id != w.channels[b].content.id);
        }
        assert forall|i: int| 0 <= i < cs.len() implies (#[trigger] cs[i]).entity < w1.next_entity by {
            let a = if i < k { i } else { i + 1 };
            assert(cs[i] == w.channels[a]);
        }
        // The new order is the old one without `e`.
        let o = w.order;
        let p = choose|p: int| 0 <= p < o.len() && o[p] == e;
        let o1 = if 0 <= p < o.len() && o[p] == e {
            lemma_filter_once(o, p);
            o.remove(p)
        } else {
            assert forall|j: int| 0 <= j < o.len() implies o[j] != e by {}
            lemma_filter_absent(o, e);
            o
        };
        assert(w1.order == o1);
        assert forall|i: int| 0 <= i < o1.len() implies
            (#[trigger] o1[i]) != e && exists|j: int| 0 <= j < o.len() && o[j] == o1[i] && j == (if o1 == o || i < p { i } else { i + 1 }) by {
            if o1 == o {
            } else {
                let j = if i < p { i } else { i + 1 };
                assert(o1[i] == o[j]);
                if j != p {
                    if j < p {
                        assert(o[j] != o[p]);
                    } else {
                        assert(o[p] != o[j]);
                    }
                }
            }
        }
        assert forall|a: int, b: int| 0 <= a < b < o1.len() implies o1[a] != o1[b] by {
            if o1 == o {
                assert(o[a] != o[b]);
            } else {
                let ja = if a < p { a } else { a + 1 };
                let jb = if b < p { b } else { b + 1 };
                assert(o1[a] == o[ja]);
                assert(o1[b] == o[jb]);
                assert(o[ja] != o[jb]);
            }
        }
        assert forall|i: int| 0 <= i < o1.len() implies has_entity(cs, #[trigger] o1[i]) by {
            let j = if o1 == o || i < p { i } else { i + 1 };
            assert(o1[i] == o[j]);
            assert(has_entity(w.channels, o[j]));
            let c = choose|c: int| 0 <= c < w.channels.len() && (#[trigger] w.channels[c]).entity == o[j];
            assert(c != k);
            let c1 = if c < k { c } else { c - 1 };
            assert(cs[c1] == w.channels[c]);
        }
    }
}

/// Moving a channel keeps the project well formed.
proof fn lemma_move_well_formed(w: WorldView, from: usize, to: usize)
    requires
        world_well_formed(w),
        edit_runs(w, EditView::Move { from, to }),
    ensures
        world_well_formed(apply_edit(w, EditView::Move { from, to }).0),
{
    let w1 = apply_edit(w, EditView::Move { from, to }).0;
    lemma_moved_distinct(w.order, from as int, to as int);
    assert forall|i: int| 0 <= i < w1.order.len() implies has_entity(w1.channels, #[trigger] w1.order[i]) by {
        assert(w.order.contains(w1.order[i]));
        let j = choose|j: int| 0 <= j < w.order.len() && w.order[j] == w1.order[i];
        assert(has_entity(w.channels, w.order[j]));
    }
}

/// Every edit keeps the project well formed: each entity and each identifier
/// occurs once, and the order lists distinct channels of the project.  An
/// added channel must bring an identifier the project does not hold yet.
pub proof fn lemma_edit_keeps_well_formed(w: WorldView, e: EditView)
    requires
        world_well_formed(w),
        edit_runs(w, e),
        adds_fresh_id(w, e),
    ensures
        world_well_formed(apply_edit(w, e).0),
{
    match e {
        EditView::Add { index, snapshot } => lemma_add_well_formed(w, index, snapshot),
        EditView::Delete { channel, index } => lemma_delete_well_formed(w, channel, index),
        EditView::Move { from, to } => lemma_move_well_formed(w, from, to),
        EditView::Rename { channel, name } => {
            let k = find_index(w.channels, channel);
            if k >= 0 {
                lemma_found(w.channels, channel);
                let c = w.channels[k].content;
                lemma_with_content_well_formed(w, k, ChannelContent { name: name, ..c });
            }
        },
        EditView::Button { channel, button, value } => {
            let k = find_index(w.channels, channel);
            if k >= 0 {
                lemma_found(w.channels, channel);
                let c = w.channels[k].content;
                lemma_with_content_well_formed(w, k, ChannelContent { state: c.state.with_button(button, value), ..c });
            }
        },
        EditView::SetPlugin { channel, data } => {
            let k = find_index(w.channels, channel);
            if k >= 0 {
                lemma_found(w.channels, channel);
                let c = w.channels[k].content;
                lemma_with_content_well_formed(w, k, ChannelContent { data: data, ..c });
            }
        },
        EditView::SetGain { channel, gain_value } => {
            let k = find_index(w.channels, channel);
            if k >= 0 {
                lemma_found(w.channels, channel);
                let c = w.channels[k].content;
                lemma_with_content_well_formed(
                    w,
                    k,
                    ChannelContent { state: crate::channel::ChannelState { gain_value: gain_value, ..c.state }, ..c },
                );
            }
        },
    }
}

/// The conditions under which undoing gives the project back: an added
/// channel brings an identifier the project does not hold yet, and a deleted
/// channel is the one the order shows at the edit's `index`.
pub open spec fn undo_restores_when(w: WorldView, e: EditView) -> bool {
    &&& adds_fresh_id(w, e)
    &&& match e {
        EditView::Delete { channel, index } => find_index(w.channels, channel) >= 0 ==> (index < w.order.len()
            && w.order[index as int] == w.channels[find_index(w.channels, channel)].entity),
        _ => true,
    }
}

/// Executing `e` on `w`, then the edit it handed back.
pub open spec fn after_undo(w: WorldView, e: EditView) -> (WorldView, Option<EditView>) {
    apply_edit(apply_edit(w, e).0, apply_edit(w, e).1.unwrap())
}

/// Changing what the first channel with `id` holds, but not its identifier,
/// keeps it the first channel with `id`.
proof fn lemma_find_after_with_content(w: WorldView, k: int, c: ChannelContent)
    requires
        is_first_with_id(w.channels, c.id, k),
    ensures
        find_index(with_content(w, k, c).channels, c.id) == k,
{
    let w1 = with_content(w, k, c);
    assert forall|j: int| 0 <= j < k implies (#[trigger] w1.channels[j]).content.id != c.id by {
        assert(w1.channels[j] == w.channels[j]);
    }
    lemma_first_with_id_unique(w1.channels, c.id, k);
}

/// Undoing an added channel deletes it again and gives back the channels and
/// the order.
proof fn lemma_undo_add(w: WorldView, index: usize, snapshot: ChannelContent)
    requires
        world_well_formed(w),
        edit_runs(w, EditView::Add { index, snapshot }),
        adds_fresh_id(w, EditView::Add { index, snapshot }),
    ensures
        apply_edit(w, EditView::Add { index, snapshot }).1 is Some,
        edit_runs(apply_edit(w, EditView::Add { index, snapshot }).0, apply_edit(w, EditView::Add { index, snapshot }).1.unwrap()),
        after_undo(w, EditView::Add { index, snapshot }).1 is Some,
        after_undo(w, EditView::Add { index, snapshot }).0.channels == w.channels,
        after_undo(w, EditView::Add { index, snapshot }).0.order == w.order,
{
    let e = EditView::Add { index, snapshot };
    let w1 = apply_edit(w, e).0;
    let n = w.next_entity;
    let len = w.channels.len() as int;
    assert forall|j: int| 0 <= j < len implies (#[trigger] w1.channels[j]).content.id != snapshot.id by {
        assert(w1.channels[j] == w.channels[j]);
    }
    lemma_first_with_id_unique(w1.channels, snapshot.id, len);
    assert(w1.channels.remove(len) =~= w.channels);
    assert forall|j: int| 0 <= j < w.order.len() implies w.order[j] != n by {
        assert(has_entity(w.channels, w.order[j]));
        let c = choose|c: int| 0 <= c < w.channels.len() && (#[trigger] w.channels[c]).entity == w.order[j];
        assert(w.channels[c].entity < n);
    }
    lemma_filter_inserted(w.order, index as int, n);
}

/// Undoing a deleted channel adds it back where the order showed it.
proof fn lemma_undo_delete(w: WorldView, channel: StableId, index: usize)
    requires
        world_well_formed(w),
        w.next_entity < u64::MAX,
        undo_restores_when(w, EditView::Delete { channel, index }),
        find_index(w.channels, channel) >= 0,
    ensures
        apply_edit(w, EditView::Delete { channel, index }).1 is Some,
        edit_runs(
            apply_edit(w, EditView::Delete { channel, index }).0,
            apply_edit(w, EditView::Delete { channel, index }).1.unwrap(),
        ),
        after_undo(w, EditView::Delete { channel, index }).1 is Some,
        ordered_contents(after_undo(w, EditView::Delete { channel, index }).0) == ordered_contents(w),
{
    let e = EditView::Delete { channel, index };
    let k = find_index(w.channels, channel);
    lemma_found(w.channels, channel);
    let r = w.channels[k];
    let p = index as int;
    let w1 = apply_edit(w, e).0;
    let u = apply_edit(w, e).1.unwrap();
    lemma_filter_once(w.order, p);
    assert(w1.order == w.order.remove(p));
    lemma_edit_keeps_well_formed(w, e);
    assert forall|j: int| 0 <= j < w1.channels.len() implies (#[trigger] w1.channels[j]).content.id != r.content.id by {
        let a = if j < k { j } else { j + 1 };
        assert(w1.channels[j] == w.channels[a]);
        if a < k {
            assert(w.channels[a].content.id != w.channels[k].content.id);
        } else {
            assert(w.channels[k].content.id != w.channels[a].content.id);
        }
    }
    assert(adds_fresh_id(w1, u));
    lemma_edit_keeps_well_formed(w1, u);
    let w2 = after_undo(w, e).0;
    let n = w.next_entity;
    let last = w2.channels.len() - 1;
    assert(w2.order =~= w.order.update(p, n));
    assert(w2.channels[last].entity == n);
    assert forall|i: int| 0 <= i < w.order.len() implies
        #[trigger] ordered_contents(w2)[i] == ordered_contents(w)[i] by {
        if i == p {
            lemma_content_of_entity(w2.channels, last);
            lemma_content_of_entity(w.channels, k);
        } else {
            let f = w.order[i];
            if i < p {
                assert(w.order[i] != w.order[p]);
            } else {
                assert(w.order[p] != w.order[i]);
            }
            assert(has_entity(w.channels, f));
            let j = choose|j: int| 0 <= j < w.channels.len() && (#[trigger] w.channels[j]).entity == f;
            assert(j != k);
            let j1 = if j < k { j } else { j - 1 };
            assert(w2.channels[j1] == w.channels[j]);
            lemma_content_of_entity(w2.channels, j1);
            lemma_content_of_entity(w.channels, j);
        }
    }
    assert(ordered_contents(w2) =~= ordered_contents(w));
}

/// Executing the edit that an edit hands back gives back the project as the
/// mixer shows it: the channels' contents, in order.  For every edit but a
/// delete it gives back the very channels and order; a deleted channel comes
/// back as a new entity.  The conditions are those of `undo_restores_when`.
pub proof fn lemma_undo_restores(w: WorldView, e: EditView)
    requires
        world_well_formed(w),
        w.next_entity < u64::MAX,
        edit_runs(w, e),
        undo_restores_when(w, e),
    ensures
        apply_edit(w, e).1 is Some ==> {
            &&& edit_runs(apply_edit(w, e).0, apply_edit(w, e).1.unwrap())
            &&& after_undo(w, e).1 is Some
            &&& ordered_contents(after_undo(w, e).0) == ordered_contents(w)
        },
        apply_edit(w, e).1 is Some && !(e is Delete) ==> {
            &&& after_undo(w, e).0.channels == w.channels
            &&& after_undo(w, e).0.order == w.order
        },
{
    match e {
        EditView::Add { index, snapshot } => {
            lemma_undo_add(w, index, snapshot);
        },
        EditView::Delete { channel, index } => {
            if find_index(w.channels, channel) >= 0 {
                lemma_undo_delete(w, channel, index);
            }
        },
        EditView::Move { from, to } => {
            lemma_move_then_undo(w.order, from, to);
        },
        EditView::Rename { channel, name } => {
            let k = find_index(w.channels, channel);
            if k >= 0 {
                lemma_found(w.channels, channel);
                let c = w.channels[k].content;
                lemma_find_after_with_content(w, k, ChannelContent { name: name, ..c });
                assert(after_undo(w, e).0.channels =~= w.channels);
            }
        },
        EditView::Button { channel, button, value } => {
            let k = find_index(w.channels, channel);
            if k >= 0 {
                lemma_found(w.channels, channel);
                let c = w.channels[k].content;
                lemma_find_after_with_content(w, k, ChannelContent { state: c.state.with_button(button, value), ..c });
                assert(c.state.with_button(button, value).with_button(button, c.state.button(button)) == c.state);
                assert(after_undo(w, e).0.channels =~= w.channels);
            }
        },
        EditView::SetPlugin { channel, data } => {
            let k = find_index(w.channels, channel);
            if k >= 0 {
                lemma_found(w.channels, channel);
                let c = w.channels[k].content;
                lemma_find_after_with_content(w, k, ChannelContent { data: data, ..c });
                assert(after_undo(w, e).0.channels =~= w.channels);
            }
        },
        EditView::SetGain { channel, gain_value } => {
            let k = find_index(w.channels, channel);
            if k >= 0 {
                lemma_found(w.channels, channel);
                let c = w.channels[k].content;
                lemma_find_after_with_content(
                    w,
                    k,
                    ChannelContent { state: crate::channel::ChannelState { gain_value: gain_value, ..c.state }, ..c },
                );
                assert(after_undo(w, e).0.channels =~= w.channels);
            }
        },
    }
}

/// Executing `e` on `w`, then the edit it handed back, then the edit that
/// one handed back.
pub open spec fn after_redo(w: WorldView, e: EditView) -> (WorldView, Option<EditView>) {
    apply_edit(after_undo(w, e).0, after_undo(w, e).1.unwrap())
}

/// Redoing an added channel adds it again, as a new entity.
#[verifier::rlimit(40)]
#[verifier::spinoff_prover]
proof fn lemma_redo_add(w: WorldView, index: usize, snapshot: ChannelContent)
    requires
        world_well_formed(w),
        w.next_entity < u64::MAX - 1,
        edit_runs(w, EditView::Add { index, snapshot }),
        adds_fresh_id(w, EditView::Add { index, snapshot }),
    ensures
        edit_runs(after_undo(w, EditView::Add { index, snapshot }).0, after_undo(w, EditView::Add { index, snapshot }).1.unwrap()),
        after_redo(w, EditView::Add { index, snapshot }).1 is Some,
        ordered_contents(after_redo(w, EditView::Add { index, snapshot }).0)
            == ordered_contents(apply_edit(w, EditView::Add { index, snapshot }).0),
{
    let e = EditView::Add { index, snapshot };
    lemma_undo_add(w, index, snapshot);
    let w1 = apply_edit(w, e).0;
    let w2 = after_undo(w, e).0;
    let len = w.channels.len() as int;
    assert(w1.channels[len].content == snapshot);
    assert forall|j: int| 0 <= j < len implies (#[trigger] w1.channels[j]).content.id != snapshot.id by {
        assert(w1.channels[j] == w.channels[j]);
    }
    lemma_first_with_id_unique(w1.channels, snapshot.id, len);
    assert(after_undo(w, e).1.unwrap() == e);
    lemma_edit_keeps_well_formed(w, e);
    lemma_edit_keeps_well_formed(w1, apply_edit(w, e).1.unwrap());
    assert(adds_fresh_id(w2, e));
    lemma_edit_keeps_well_formed(w2, e);
    let w3 = after_redo(w, e).0;
    let ix = index as int;
    assert forall|i: int| 0 <= i < w1.order.len() implies
        #[trigger] ordered_contents(w3)[i] == ordered_contents(w1)[i] by {
        if i == ix {
            lemma_content_of_entity(w3.channels, len);
            lemma_content_of_entity(w1.channels, len);
        } else {
            let j0 = if i < ix { i } else { i - 1 };
            let f = w.order[j0];
            assert(w1.order[i] == f && w3.order[i] == f);
            assert(has_entity(w.channels, f));
            let j = choose|j: int| 0 <= j < w.channels.len() && (#[trigger] w.channels[j]).entity == f;
            assert(w1.channels[j] == w.channels[j] && w3.channels[j] == w.channels[j]);
            lemma_content_of_entity(w3.channels, j);
            lemma_content_of_entity(w1.channels, j);
        }
    }
    assert(ordered_contents(w3) =~= ordered_contents(w1));
}

/// Redoing a deleted channel deletes it again.
#[verifier::rlimit(60)]
#[verifier::spinoff_prover]
proof fn lemma_redo_delete(w: WorldView, channel: StableId, index: usize)
    requires
        world_well_formed(w),
        w.next_entity < u64::MAX,
        undo_restores_when(w, EditView::Delete { channel, index }),
        find_index(w.channels, channel) >= 0,
    ensures
        edit_runs(after_undo(w, EditView::Delete { channel, index }).0, after_undo(w, EditView::Delete { channel, index }).1.unwrap()),
        after_redo(w, EditView::Delete { channel, index }).1 is Some,
        after_redo(w, EditView::Delete { channel, index }).0.channels
            == apply_edit(w, EditView::Delete { channel, index }).0.channels,
        after_redo(w, EditView::Delete { channel, index }).0.order
            == apply_edit(w, EditView::Delete { channel, index }).0.order,
{
    let e = EditView::Delete { channel, index };
    lemma_undo_delete(w, channel, index);
    let k = find_index(w.channels, channel);
    lemma_found(w.channels, channel);
    let w1 = apply_edit(w, e).0;
    let u = apply_edit(w, e).1.unwrap();
    let w2 = after_undo(w, e).0;
    let n = w.next_entity;
    let p = index as int;
    lemma_edit_keeps_well_formed(w, e);
    assert(adds_fresh_id(w1, u)) by {
        assert forall|j: int| 0 <= j < w1.channels.len() implies (#[trigger] w1.channels[j]).content.id != channel by {
            let a = if j < k { j } else { j + 1 };
            assert(w1.channels[j] == w.channels[a]);
            if a < k {
                assert(w.channels[a].content.id != w.channels[k].content.id);
            } else {
                assert(w.channels[k].content.id != w.channels[a].content.id);
            }
        }
    }
    lemma_edit_keeps_well_formed(w1, u);
    let last = w2.channels.len() - 1;
    assert(after_undo(w, e).1.unwrap() == e);
    assert forall|j: int| 0 <= j < last implies (#[trigger] w2.channels[j]).content.id != channel by {
        assert(w2.channels[j] == w1.channels[j]);
    }
    lemma_first_with_id_unique(w2.channels, channel, last);
    assert(w2.channels.remove(last) =~= w1.channels);
    lemma_filter_once(w.order, p);
    assert(w2.order[p] == n);
    lemma_filter_once(w2.order, p);
    assert(w2.order.remove(p) =~= w.order.remove(p));
}

/// After undoing an edit, executing the edit the undo handed back (the redo)
/// gives the project as the first execution gave it, as the mixer shows it:
/// the channels' contents, in order.  The conditions are those of
/// `undo_restores_when`.
pub proof fn lemma_redo_reapplies(w: WorldView, e: EditView)
    requires
        world_well_formed(w),
        w.next_entity < u64::MAX - 1,
        edit_runs(w, e),
        undo_restores_when(w, e),
    ensures
        apply_edit(w, e).1 is Some ==> {
            &&& edit_runs(after_undo(w, e).0, after_undo(w, e).1.unwrap())
            &&& after_redo(w, e).1 is Some
            &&& ordered_contents(after_redo(w, e).0) == ordered_contents(apply_edit(w, e).0)
        },
{
    lemma_undo_restores(w, e);
    match e {
        EditView::Add { index, snapshot } => {
            lemma_redo_add(w, index, snapshot);
        },
        EditView::Delete { channel, index } => {
            if find_index(w.channels, channel) >= 0 {
                lemma_redo_delete(w, channel, index);
            }
        },
        EditView::Move { from, to } => {
            let w2 = after_undo(w, e).0;
            assert(w2 == w);
            if to != from + 1 {
                lemma_undo_move_twice(from, to);
            } else {
                assert(moved(w.order, from as int, to as int) =~= w.order);
                assert(moved(w.order, from as int, from as int) =~= w.order);
            }
        },
        EditView::Rename { channel, name } => {
            if find_index(w.channels, channel) >= 0 {
                assert(after_undo(w, e).0 == w);
            }
        },
        EditView::Button { channel, button, value } => {
            if find_index(w.channels, channel) >= 0 {
                assert(after_undo(w, e).0 == w);
            }
        },
        EditView::SetPlugin { channel, data } => {
            if find_index(w.channels, channel) >= 0 {
                let w2 = after_undo(w, e).0;
                assert(w2.channels == w.channels);
                assert(w2.order == w.order);
                assert(after_redo(w, e).0.channels == apply_edit(w, e).0.channels);
                assert(after_redo(w, e).0.order == apply_edit(w, e).0.order);
            }
        },
        EditView::SetGain { channel, gain_value } => {
            if find_index(w.channels, channel) >= 0 {
                assert(after_undo(w, e).0 == w);
            }
        },
    }
}


/// Adding a channel, undoing the add and redoing it: the add puts a new
/// channel holding the snapshot at `index` of the order; the undo hands back
/// a redo, gives back the order as it was and leaves no channel with the
/// snapshot's identifier; the redo puts a channel holding the snapshot at
/// `index` again.  The added identifier is one the project does not hold.
pub proof fn lemma_add_undo_redo(w: WorldView, index: usize, snapshot: ChannelContent)
    requires
        world_well_formed(w),
        w.next_entity < u64::MAX - 1,
        edit_runs(w, EditView::Add { index, snapshot }),
        adds_fresh_id(w, EditView::Add { index, snapshot }),
    ensures
        ({
            let e = EditView::Add { index, snapshot };
            let added = apply_edit(w, e).0;
            let undone = after_undo(w, e).0;
            let redone = after_redo(w, e).0;
            &&& apply_edit(w, e).1 is Some
            &&& added.order == w.order.insert(index as int, w.next_entity)
            &&& ordered_contents(added)[index as int] == snapshot
            &&& after_undo(w, e).1 is Some
            &&& undone.order == w.order
            &&& find_index(undone.channels, snapshot.id) < 0
            &&& after_redo(w, e).1 is Some
            &&& redone.order.len() == added.order.len()
            &&& ordered_contents(redone)[index as int] == snapshot
        }),
{
    let e = EditView::Add { index, snapshot };
    lemma_undo_add(w, index, snapshot);
    lemma_redo_add(w, index, snapshot);
    lemma_edit_keeps_well_formed(w, e);
    let added = apply_edit(w, e).0;
    let len = w.channels.len() as int;
    assert(added.channels[len].entity == w.next_entity);
    lemma_content_of_entity(added.channels, len);
    assert(ordered_contents(added)[index as int] == content_of_entity(added.channels, added.order[index as int]));
    lemma_find_none(after_undo(w, e).0.channels, snapshot.id);
    assert(ordered_contents(after_redo(w, e).0).len() == after_redo(w, e).0.order.len());
}

} // verus!
