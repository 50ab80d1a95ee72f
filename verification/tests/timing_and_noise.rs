use corodaw::midi_time::{event_source, receive_event, sample_offset, MidiClock};
use corodaw::node::GraphConnection;
use corodaw::perlin::Perlin1D;
use corodaw::registry::{plugin_node_desc, total_channel_count, ClapId, PluginRegistry};

#[test]
fn first_midi_event_anchors_the_clock() {
    let mut clock = MidiClock::new();
    // The first event, stamped 1000 us on the device clock, arrives while
    // processing the block at 5 s.
    let t = clock.session_time(1_000, 5_000_000_000);
    assert_eq!(t, 5_000_000_000);
    assert_eq!(clock.first_event_timestamp, Some((1_000, 5_000_000_000)));

    // 250 us later on the device clock.
    let t = clock.session_time(1_250, 5_000_000_000);
    assert_eq!(t, 5_000_250_000);

    // Never earlier than the block being processed.
    let t = clock.session_time(1_500, 6_000_000_000);
    assert_eq!(t, 6_000_000_000);
}

#[test]
fn event_time_becomes_a_sample_offset() {
    // 10 ms into the block at 48 kHz is 480 samples.
    assert_eq!(sample_offset(48_000, 2_010_000_000, 2_000_000_000), 480);
    // Rounds down.
    assert_eq!(sample_offset(44_100, 1_000_010, 1_000_000), 0);
    assert_eq!(sample_offset(44_100, 1_000_000 + 22_676, 1_000_000), 1);
    assert_eq!(sample_offset(44_100, 7, 7), 0);
}

#[test]
fn plugin_events_come_from_the_one_connection() {
    assert_eq!(event_source(&vec![]), None);
    assert_eq!(event_source(&vec![GraphConnection::new(0, 3, 1)]), Some((3, 1)));
}

#[test]
fn perlin_table_is_a_permutation() {
    let p = Perlin1D::new(1337);
    let mut seen = [false; 256];
    for v in p.perm.iter() {
        assert!(!seen[*v as usize]);
        seen[*v as usize] = true;
    }
    assert!(seen.iter().all(|s| *s));
    // The same seed gives the same table; another seed another one.
    assert_eq!(Perlin1D::new(1337).perm, p.perm);
    assert_ne!(Perlin1D::new(1).perm, p.perm);
    // A shuffle took place.
    assert_ne!(p.perm.to_vec(), (0..=255u8).collect::<Vec<_>>());
}

#[test]
fn plugin_registry_hands_out_fresh_ids() {
    let mut registry: PluginRegistry<&str> = PluginRegistry::new();
    let a = registry.allocate_id();
    let b = registry.allocate_id();
    assert_eq!(a, ClapId::from_raw(1));
    assert_eq!(b, ClapId::from_raw(2));
    registry.insert(a, "synth");
    registry.insert(b, "delay");
    assert_eq!(*registry.get_plugin(a), "synth");
    assert_eq!(*registry.get_plugin(b), "delay");
}

#[test]
fn plugin_nodes_take_notes_and_play_their_channels() {
    assert_eq!(total_channel_count(&vec![2, 1, 4]), 7);
    assert_eq!(total_channel_count(&vec![]), 0);
    let d = plugin_node_desc(2);
    assert_eq!(d.audio_channels.num_inputs, 0);
    assert_eq!(d.audio_channels.num_outputs, 2);
    assert_eq!(d.event_channels.num_inputs, 1);
    assert_eq!(d.event_channels.num_outputs, 0);
    assert_eq!(plugin_node_desc(65_538).audio_channels.num_outputs, 2);
}

#[test]
fn midi_events_are_counted_from_the_first_one() {
    let mut first: Option<u64> = None;
    let ev = receive_event(&mut first, 1_000, &[0x91, 60, 100]);
    assert_eq!(first, Some(1_000));
    assert_eq!(ev, Some((0, vec![0x91, 60, 100])));
    let ev = receive_event(&mut first, 1_250, &[0x80, 60, 0]);
    assert_eq!(first, Some(1_000));
    assert_eq!(ev, Some((250, vec![0x80, 60, 0])));
}

#[test]
fn note_on_without_velocity_comes_back_as_note_off() {
    let mut first: Option<u64> = Some(10);
    let ev = receive_event(&mut first, 30, &[0x92, 64, 0]);
    assert_eq!(ev, Some((20, vec![0x82, 64, 0])));
}

#[test]
fn unparsable_midi_is_dropped_but_sets_the_first_timestamp() {
    let mut first: Option<u64> = None;
    assert_eq!(receive_event(&mut first, 7, &[]), None);
    assert_eq!(first, Some(7));
    assert_eq!(receive_event(&mut first, 8, &[0x40, 1]), None);
    assert_eq!(receive_event(&mut first, 9, &[0x90, 60]), None);
    assert_eq!(receive_event(&mut first, 9, &[0xF0, 1, 2, 0xF7]), None);
    assert_eq!(first, Some(7));
}
