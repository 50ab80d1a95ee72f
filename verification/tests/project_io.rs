use corodaw::channel::{
    midi_routing, mixer_gains, window_title, ChannelButton, ChannelData, ChannelSnapshot, ChannelState, MidiRouting,
    StableId, SILENT_GAIN_BITS, UNITY_GAIN_BITS, UUID_V4_MARK, UUID_V4_MASK,
};
use corodaw::document::{plugin_state_bytes, with_saved_state};
use corodaw::edits::AddChannelEdit;
use corodaw::mixer::{route_midi, wire_channel_strip};
use corodaw::node::{GraphConnection, GraphNodeDesc};
use corodaw::order::ChannelOrder;
use corodaw::project::ProjectWorld;
use corodaw::world::GraphWorld;

fn ids_in_order(world: &ProjectWorld) -> Vec<StableId> {
    world
        .order
        .channel_order
        .iter()
        .map(|e| world.channels.iter().find(|r| r.entity == *e).unwrap().id)
        .collect()
}

fn names_in_order(world: &ProjectWorld) -> Vec<String> {
    world
        .order
        .channel_order
        .iter()
        .map(|e| world.channels.iter().find(|r| r.entity == *e).unwrap().name.clone())
        .collect()
}

fn world_with(names: &[&str]) -> ProjectWorld {
    let mut world = ProjectWorld::new();
    for (i, name) in names.iter().enumerate() {
        let snapshot = ChannelSnapshot { name: name.to_string(), ..ChannelSnapshot::new() };
        AddChannelEdit::new(i, snapshot).execute(&mut world);
    }
    world
}

#[test]
fn save_then_load_keeps_the_mixer() {
    let mut world = world_with(&["A", "B", "C"]);
    // Put C first, so that the order differs from the spawn order.
    world.order.move_channel(2, 0);
    let ids = ids_in_order(&world);

    let saved_channels = world.saved_channels();
    let saved_order = world.saved_channel_order();
    assert_eq!(saved_order, ids.iter().map(|id| Some(*id)).collect::<Vec<_>>());

    let loaded = ProjectWorld::load(saved_channels, saved_order);
    assert_eq!(ids_in_order(&loaded), ids);
    assert_eq!(names_in_order(&loaded), vec!["C", "A", "B"]);
    assert_eq!(loaded.next_entity, 3);
}

#[test]
fn loading_skips_unknown_and_empty_entries() {
    let a = ChannelSnapshot { name: "A".to_string(), ..ChannelSnapshot::new() };
    let b = ChannelSnapshot { name: "B".to_string(), ..ChannelSnapshot::new() };
    let (ida, idb) = (a.id, b.id);
    let loaded = ProjectWorld::load(vec![a, b], vec![Some(idb), None, Some(StableId::new()), Some(ida)]);
    assert_eq!(ids_in_order(&loaded), vec![idb, ida]);
    assert_eq!(loaded.order.channel_order, vec![1, 0]);
}

#[test]
fn loading_a_repeated_identifier_takes_the_last_channel() {
    let a = ChannelSnapshot { name: "first".to_string(), ..ChannelSnapshot::new() };
    let b = ChannelSnapshot { name: "second".to_string(), id: a.id, ..ChannelSnapshot::new() };
    let id = a.id;
    let loaded = ProjectWorld::load(vec![a, b], vec![Some(id)]);
    assert_eq!(loaded.order.channel_order, vec![1]);
    assert_eq!(names_in_order(&loaded), vec!["second"]);
}

#[test]
fn saved_order_marks_entities_that_are_not_channels() {
    let mut world = world_with(&["A"]);
    world.order.insert_channel(1, 99);
    let saved = world.saved_channel_order();
    assert_eq!(saved.len(), 2);
    assert!(saved[0].is_some());
    assert!(saved[1].is_none());
}

#[test]
fn plugin_state_round_trips_through_base64() {
    let data = ChannelData { plugin_id: "com.test.synth".to_owned(), plugin_state: None };
    let saved = with_saved_state(&data, Some(b"test".to_vec()));
    assert_eq!(saved.plugin_id, "com.test.synth");
    assert_eq!(saved.plugin_state.as_deref(), Some("dGVzdA=="));
    assert_eq!(plugin_state_bytes(&saved), Some(b"test".to_vec()));

    let none = with_saved_state(&data, None);
    assert!(none.plugin_state.is_none());
    assert_eq!(plugin_state_bytes(&none), None);

    let broken = ChannelData { plugin_id: "x".to_owned(), plugin_state: Some("not base64!".to_owned()) };
    assert_eq!(plugin_state_bytes(&broken), None);
}

#[test]
fn add_delete_and_sync_channels() {
    let mut world = ProjectWorld::new();
    let first = world.add_channel(0);
    let second = world.add_channel(0);
    assert_eq!(world.order.channel_order, vec![second, first]);
    assert_eq!(world.channels[0].name, "unnamed channel");
    assert_eq!(world.channels[1].state, ChannelState::new());
    assert!(world.channels[1].data.is_none());

    // Deleting despawns the channel; the order catches up on sync.
    world.delete_channel(0);
    assert_eq!(world.channels.len(), 1);
    assert_eq!(world.order.channel_order, vec![second, first]);
    world.sync_channel_order();
    assert_eq!(world.order.channel_order, vec![first]);
}

#[test]
fn channel_order_keeps_alive_entities() {
    let mut order = ChannelOrder::new();
    for e in [5, 6, 7, 8] {
        let len = order.channel_order.len();
        order.insert_channel(len, e);
    }
    order.retain_alive(&vec![8, 6]);
    assert_eq!(order.channel_order, vec![6, 8]);
    order.remove_entity(6);
    assert_eq!(order.channel_order, vec![8]);
}

#[test]
fn solo_silences_the_other_channels() {
    let half = 0.5f32.to_bits();
    let mut a = ChannelState::new();
    let mut b = ChannelState::new();
    b.gain_value = half;
    let mut c = ChannelState::new();
    assert_eq!(mixer_gains(&vec![a, b, c]), vec![UNITY_GAIN_BITS, half, UNITY_GAIN_BITS]);

    a.set_button(ChannelButton::Mute, true);
    assert_eq!(mixer_gains(&vec![a, b, c]), vec![SILENT_GAIN_BITS, half, UNITY_GAIN_BITS]);

    c.set_button(ChannelButton::Solo, true);
    assert_eq!(mixer_gains(&vec![a, b, c]), vec![SILENT_GAIN_BITS, SILENT_GAIN_BITS, UNITY_GAIN_BITS]);
    assert_eq!(f32::from_bits(UNITY_GAIN_BITS), 1.0);
    assert_eq!(f32::from_bits(SILENT_GAIN_BITS), 0.0);
}

#[test]
fn armed_channels_listen_to_midi() {
    assert_eq!(midi_routing(true, false), MidiRouting::Connect);
    assert_eq!(midi_routing(true, true), MidiRouting::Keep);
    assert_eq!(midi_routing(false, true), MidiRouting::Disconnect);
    assert_eq!(midi_routing(false, false), MidiRouting::Keep);

    let mut world = GraphWorld::new();
    let midi = world.spawn(GraphNodeDesc::new().event(0, 1).always_run());
    let plugin = world.spawn(GraphNodeDesc::new().event(1, 0).audio(0, 2));

    route_midi(&mut world, plugin, midi, true);
    assert!(world.get(plugin).unwrap().has_event_connected(midi));
    route_midi(&mut world, plugin, midi, true);
    assert_eq!(world.get(plugin).unwrap().event_channels.connections.len(), 1);
    route_midi(&mut world, plugin, midi, false);
    assert!(!world.get(plugin).unwrap().has_event_connected(midi));

    // A plugin node that is gone is left alone.
    world.despawn(plugin);
    route_midi(&mut world, plugin, midi, true);
    assert!(world.get(plugin).is_none());
}

#[test]
fn channel_strip_is_wired_in_stereo() {
    let mut world = GraphWorld::new();
    let summer = world.spawn(GraphNodeDesc::new().audio(2, 2));
    let plugin = world.spawn(GraphNodeDesc::new().audio(0, 2));
    let gain = world.spawn(GraphNodeDesc::new().audio(2, 2));

    wire_channel_strip(&mut world, plugin, gain, summer);

    let g = world.get(gain).unwrap();
    assert_eq!(g.inputs, vec![plugin]);
    assert_eq!(g.audio_channels.connections, vec![GraphConnection::new(0, plugin, 0), GraphConnection::new(1, plugin, 1)]);
    let s = world.get(summer).unwrap();
    assert_eq!(s.inputs, vec![gain]);
    assert_eq!(s.audio_channels.connections, vec![GraphConnection::new(0, gain, 0), GraphConnection::new(1, gain, 1)]);
    assert!(world.get(plugin).unwrap().inputs.is_empty());
}

#[test]
fn plugin_window_title_names_plugin_and_channel() {
    assert_eq!(window_title("Synth", "Lead"), "Synth: Lead");
    assert_eq!(window_title("", "x"), ": x");
}

#[test]
fn fresh_ids_are_version_four_uuids() {
    let a = StableId::new();
    let b = StableId::default();
    assert_eq!(a.0 & UUID_V4_MASK, UUID_V4_MARK);
    assert_eq!(b.0 & UUID_V4_MASK, UUID_V4_MARK);
    assert_eq!((a.0 >> 76) & 0xf, 4);
    assert_ne!(a, b);
}

#[test]
fn loaded_channels_with_a_plugin_count_as_binding_writes() {
    let plain = ChannelSnapshot::default();
    let bound = ChannelSnapshot {
        data: Some(ChannelData { plugin_id: "com.test.synth".to_string(), plugin_state: Some("AAEC".to_string()) }),
        ..ChannelSnapshot::default()
    };
    let (pa, pb) = (plain.id, bound.id);
    let mut loaded = ProjectWorld::load(vec![plain, bound], vec![Some(pb), Some(pa)]);
    assert_eq!(loaded.take_binding_changes(), vec![1]);
}

#[test]
fn identifiers_are_written_as_uuids_and_read_back() {
    let id = StableId(0x550e_8400_e29b_41d4_a716_4466_5544_0000);
    let text = id.to_text();
    assert_eq!(text, "550e8400-e29b-41d4-a716-446655440000");
    assert_eq!(StableId::from_text(&text), Some(id));
    assert_eq!(StableId::from_text("550E8400E29B41D4A716446655440000"), Some(id));
    assert_eq!(StableId::from_text("not a uuid"), None);
    let fresh = StableId::new();
    assert_eq!(StableId::from_text(&fresh.to_text()), Some(fresh));
}
