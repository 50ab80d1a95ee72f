use corodaw::state::graph_state_tracker;

#[derive(Debug, Clone, Copy, PartialEq)]
#[allow(dead_code)]
enum GraphStateValue {
    Nothing,
    Mono(f32),
    Stereo(f32, f32),
}

fn entity(id: u32) -> usize {
    id as usize
}

#[test]
fn reader_starts_empty() {
    let (mut reader, _writer, mut inner) = graph_state_tracker::<GraphStateValue>();

    reader.swap_buffers(&mut inner);

    assert_eq!(reader.get(&entity(1)), None);
}

#[test]
fn reader_sees_written_values_after_swaps() {
    let (mut reader, mut writer, mut inner) = graph_state_tracker();

    writer.insert(entity(1), GraphStateValue::Mono(0.5));
    writer.insert(entity(2), GraphStateValue::Stereo(0.1, 0.2));

    writer.swap_buffers(&mut inner);
    reader.swap_buffers(&mut inner);

    assert_eq!(reader.get(&entity(1)), Some(&GraphStateValue::Mono(0.5)));
    assert_eq!(reader.get(&entity(2)), Some(&GraphStateValue::Stereo(0.1, 0.2)));
}

#[test]
fn reader_does_not_see_values_without_writer_swap() {
    let (mut reader, mut writer, mut inner) = graph_state_tracker();

    writer.insert(entity(3), GraphStateValue::Mono(1.0));

    reader.swap_buffers(&mut inner);

    assert_eq!(reader.get(&entity(3)), None);
}

#[test]
fn latest_write_wins_before_reader_swap() {
    let (mut reader, mut writer, mut inner) = graph_state_tracker();

    writer.insert(entity(4), GraphStateValue::Mono(0.25));
    writer.swap_buffers(&mut inner);

    writer.insert(entity(4), GraphStateValue::Mono(0.75));
    writer.swap_buffers(&mut inner);

    reader.swap_buffers(&mut inner);

    assert_eq!(reader.get(&entity(4)), Some(&GraphStateValue::Mono(0.75)));
}

#[test]
fn exchange_always_holds_one_buffer() {
    let (mut reader, mut writer, mut inner) = graph_state_tracker::<u8>();
    for step in 0..6 {
        if step % 2 == 0 {
            writer.swap_buffers(&mut inner);
        } else {
            reader.swap_buffers(&mut inner);
        }
        assert!(inner.ready_to_read_buffer.is_some() != inner.ready_to_write_buffer.is_some());
    }
}
