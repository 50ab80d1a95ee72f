use corodaw::channel::{ChannelButton, ChannelData, ChannelSnapshot, ChannelState, StableId};
use corodaw::commands::CommandManager;
use corodaw::edits::{AddChannelEdit, ChannelButtonEdit, DeleteChannelEdit, Edit, MoveChannelEdit, RenameChannelEdit, SetGainEdit, SetPluginEdit};
use corodaw::project::{ChannelRecord, ProjectWorld};

fn setup_world() -> ProjectWorld {
    ProjectWorld::new()
}

fn get_channel_order(world: &ProjectWorld) -> Vec<u64> {
    world.order.channel_order.clone()
}

fn record(world: &ProjectWorld, entity: u64) -> &ChannelRecord {
    world.channels.iter().find(|r| r.entity == entity).unwrap()
}

fn gain(state: &ChannelState) -> f32 {
    f32::from_bits(state.gain_value)
}

fn make_channel_data(plugin_id: &str) -> ChannelData {
    ChannelData { plugin_id: plugin_id.to_owned(), plugin_state: None }
}

fn setup_world_with_4_channels() -> (ProjectWorld, [StableId; 4]) {
    let mut world = setup_world();
    let ids: [StableId; 4] = std::array::from_fn(|_| StableId::new());
    let names = ["A", "B", "C", "D"];
    for (i, (id, name)) in ids.iter().zip(names.iter()).enumerate() {
        let snapshot = ChannelSnapshot { name: name.to_string(), id: *id, ..Default::default() };
        AddChannelEdit::new(i, snapshot).execute(&mut world);
    }
    (world, ids)
}

fn get_channel_ids(world: &ProjectWorld) -> Vec<StableId> {
    get_channel_order(world).iter().map(|e| record(world, *e).id).collect()
}

#[test]
fn add_channel() {
    let mut world = setup_world();
    let snapshot = ChannelSnapshot::default();
    let id = snapshot.id;

    AddChannelEdit::new(0, snapshot).execute(&mut world);

    let order = get_channel_order(&world);
    assert_eq!(order.len(), 1);

    let entity = id.find_entity(&world).unwrap();
    assert_eq!(order[0], entity);
    assert_eq!(record(&world, entity).name.as_str(), "unnamed channel");
    assert_eq!(gain(&record(&world, entity).state), 1.0);
    assert_eq!(record(&world, entity).id, id);
}

#[test]
fn add_channel_returns_delete_undo() {
    let mut world = setup_world();
    let snapshot = ChannelSnapshot::default();

    let undo = AddChannelEdit::new(0, snapshot).execute(&mut world).unwrap();
    undo.execute(&mut world);

    let order = get_channel_order(&world);
    assert_eq!(order.len(), 0);
}

#[test]
fn delete_channel() {
    let mut world = setup_world();
    let snapshot = ChannelSnapshot::default();
    let id = snapshot.id;

    AddChannelEdit::new(0, snapshot).execute(&mut world);

    DeleteChannelEdit::new(id, 0).execute(&mut world);

    let order = get_channel_order(&world);
    assert_eq!(order.len(), 0);
    assert!(id.find_entity(&world).is_none());
}

#[test]
fn delete_channel_returns_add_undo() {
    let mut world = setup_world();
    let mut snapshot = ChannelSnapshot::default();
    snapshot.name = "my channel".to_string();
    snapshot.state.gain_value = 0.5f32.to_bits();
    let id = snapshot.id;

    AddChannelEdit::new(0, snapshot).execute(&mut world);

    let undo = DeleteChannelEdit::new(id, 0).execute(&mut world).unwrap();
    undo.execute(&mut world);

    let order = get_channel_order(&world);
    assert_eq!(order.len(), 1);

    let entity = id.find_entity(&world).unwrap();
    assert_eq!(record(&world, entity).name.as_str(), "my channel");
    assert_eq!(gain(&record(&world, entity).state), 0.5);
    assert_eq!(record(&world, entity).id, id);
}

#[test]
fn add_delete_roundtrip() {
    let mut world = setup_world();
    let snapshot = ChannelSnapshot::default();
    let id = snapshot.id;

    // Add
    let delete_cmd = AddChannelEdit::new(0, snapshot).execute(&mut world).unwrap();
    assert_eq!(get_channel_order(&world).len(), 1);

    // Delete (undo add)
    let add_cmd = delete_cmd.execute(&mut world).unwrap();
    assert_eq!(get_channel_order(&world).len(), 0);

    // Re-add (redo add)
    let delete_cmd = add_cmd.execute(&mut world).unwrap();
    assert_eq!(get_channel_order(&world).len(), 1);
    assert!(id.find_entity(&world).is_some());

    // Re-delete (undo again)
    delete_cmd.execute(&mut world);
    assert_eq!(get_channel_order(&world).len(), 0);
    assert!(id.find_entity(&world).is_none());
}

#[test]
fn delete_channel_with_data() {
    let mut world = setup_world();
    let snapshot = ChannelSnapshot {
        data: Some(ChannelData {
            plugin_id: "com.test.plugin".to_owned(),
            plugin_state: Some("dGVzdA==".to_owned()),
        }),
        ..Default::default()
    };
    let id = snapshot.id;

    AddChannelEdit::new(0, snapshot).execute(&mut world);

    let undo = DeleteChannelEdit::new(id, 0).execute(&mut world).unwrap();
    undo.execute(&mut world);

    let entity = id.find_entity(&world).unwrap();
    let data = record(&world, entity).data.as_ref().unwrap();
    assert_eq!(data.plugin_id, "com.test.plugin");
    assert_eq!(data.plugin_state.as_deref(), Some("dGVzdA=="));
}

#[test]
fn move_forward() {
    let (mut world, [a, b, c, d]) = setup_world_with_4_channels();
    MoveChannelEdit::new(0, 2).execute(&mut world);
    assert_eq!(get_channel_ids(&world), vec![b, a, c, d]);
}

#[test]
fn move_backward() {
    let (mut world, [a, b, c, d]) = setup_world_with_4_channels();
    MoveChannelEdit::new(2, 0).execute(&mut world);
    assert_eq!(get_channel_ids(&world), vec![c, a, b, d]);
}

#[test]
fn move_forward_undo() {
    let (mut world, [a, b, c, d]) = setup_world_with_4_channels();
    let undo = MoveChannelEdit::new(0, 2).execute(&mut world).unwrap();
    undo.execute(&mut world);
    assert_eq!(get_channel_ids(&world), vec![a, b, c, d]);
}

#[test]
fn move_backward_undo() {
    let (mut world, [a, b, c, d]) = setup_world_with_4_channels();
    let undo = MoveChannelEdit::new(2, 0).execute(&mut world).unwrap();
    undo.execute(&mut world);
    assert_eq!(get_channel_ids(&world), vec![a, b, c, d]);
}

#[test]
fn move_roundtrip() {
    let (mut world, [a, b, c, d]) = setup_world_with_4_channels();

    // move(1, 3): [A, B, C, D] -> [A, C, B, D]
    let undo = MoveChannelEdit::new(1, 3).execute(&mut world).unwrap();
    assert_eq!(get_channel_ids(&world), vec![a, c, b, d]);

    // undo
    let redo = undo.execute(&mut world).unwrap();
    assert_eq!(get_channel_ids(&world), vec![a, b, c, d]);

    // redo
    let undo = redo.execute(&mut world).unwrap();
    assert_eq!(get_channel_ids(&world), vec![a, c, b, d]);

    // undo again
    undo.execute(&mut world);
    assert_eq!(get_channel_ids(&world), vec![a, b, c, d]);
}

#[test]
fn move_same_position() {
    let (mut world, [a, b, c, d]) = setup_world_with_4_channels();
    MoveChannelEdit::new(1, 1).execute(&mut world);
    assert_eq!(get_channel_ids(&world), vec![a, b, c, d]);
}

#[test]
fn move_to_beginning() {
    let (mut world, [a, b, c, d]) = setup_world_with_4_channels();
    let undo = MoveChannelEdit::new(3, 0).execute(&mut world).unwrap();
    assert_eq!(get_channel_ids(&world), vec![d, a, b, c]);
    undo.execute(&mut world);
    assert_eq!(get_channel_ids(&world), vec![a, b, c, d]);
}

#[test]
fn move_to_end() {
    let (mut world, [a, b, c, d]) = setup_world_with_4_channels();
    let undo = MoveChannelEdit::new(0, 4).execute(&mut world).unwrap();
    assert_eq!(get_channel_ids(&world), vec![b, c, d, a]);
    undo.execute(&mut world);
    assert_eq!(get_channel_ids(&world), vec![a, b, c, d]);
}

#[test]
fn set_plugin() {
    let mut world = setup_world();
    let snapshot = ChannelSnapshot::default();
    let id = snapshot.id;
    AddChannelEdit::new(0, snapshot).execute(&mut world);

    let data = make_channel_data("com.test.synth");
    SetPluginEdit::new(id, Some(data)).execute(&mut world);

    let entity = id.find_entity(&world).unwrap();
    let data = record(&world, entity).data.as_ref().unwrap();
    assert_eq!(data.plugin_id, "com.test.synth");
}

#[test]
fn set_plugin_undo() {
    let mut world = setup_world();
    let snapshot = ChannelSnapshot::default();
    let id = snapshot.id;
    AddChannelEdit::new(0, snapshot).execute(&mut world);

    let data = make_channel_data("com.test.synth");
    let undo = SetPluginEdit::new(id, Some(data)).execute(&mut world).unwrap();
    undo.execute(&mut world);

    let entity = id.find_entity(&world).unwrap();
    assert!(record(&world, entity).data.is_none());
}

#[test]
fn set_plugin_replace() {
    let mut world = setup_world();
    let data_a = make_channel_data("com.test.synth-a");
    let snapshot = ChannelSnapshot { data: Some(data_a), ..Default::default() };
    let id = snapshot.id;
    AddChannelEdit::new(0, snapshot).execute(&mut world);

    let data_b = make_channel_data("com.test.synth-b");
    let undo = SetPluginEdit::new(id, Some(data_b)).execute(&mut world).unwrap();

    let entity = id.find_entity(&world).unwrap();
    assert_eq!(record(&world, entity).data.as_ref().unwrap().plugin_id, "com.test.synth-b");

    undo.execute(&mut world);
    assert_eq!(record(&world, entity).data.as_ref().unwrap().plugin_id, "com.test.synth-a");
}

#[test]
fn set_plugin_roundtrip() {
    let mut world = setup_world();
    let snapshot = ChannelSnapshot::default();
    let id = snapshot.id;
    AddChannelEdit::new(0, snapshot).execute(&mut world);

    let data = make_channel_data("com.test.synth");
    let undo = SetPluginEdit::new(id, Some(data)).execute(&mut world).unwrap();

    let entity = id.find_entity(&world).unwrap();
    assert!(record(&world, entity).data.is_some());

    // undo
    let redo = undo.execute(&mut world).unwrap();
    assert!(record(&world, entity).data.is_none());

    // redo
    let undo = redo.execute(&mut world).unwrap();
    assert_eq!(record(&world, entity).data.as_ref().unwrap().plugin_id, "com.test.synth");

    // undo again
    undo.execute(&mut world);
    assert!(record(&world, entity).data.is_none());
}

#[test]
fn set_gain() {
    let mut world = setup_world();
    let snapshot = ChannelSnapshot::default();
    let id = snapshot.id;
    AddChannelEdit::new(0, snapshot).execute(&mut world);

    SetGainEdit::new(id, 0.5f32.to_bits()).execute(&mut world);

    let entity = id.find_entity(&world).unwrap();
    assert_eq!(gain(&record(&world, entity).state), 0.5);
}

#[test]
fn set_gain_undo() {
    let mut world = setup_world();
    let snapshot = ChannelSnapshot::default();
    let id = snapshot.id;
    AddChannelEdit::new(0, snapshot).execute(&mut world);

    let undo = SetGainEdit::new(id, 0.3f32.to_bits()).execute(&mut world).unwrap();
    undo.execute(&mut world);

    let entity = id.find_entity(&world).unwrap();
    assert_eq!(gain(&record(&world, entity).state), 1.0);
}

#[test]
fn set_gain_roundtrip() {
    let mut world = setup_world();
    let snapshot = ChannelSnapshot::default();
    let id = snapshot.id;
    AddChannelEdit::new(0, snapshot).execute(&mut world);

    let entity = id.find_entity(&world).unwrap();

    let undo = SetGainEdit::new(id, 0.7f32.to_bits()).execute(&mut world).unwrap();
    assert_eq!(gain(&record(&world, entity).state), 0.7);

    // undo
    let redo = undo.execute(&mut world).unwrap();
    assert_eq!(gain(&record(&world, entity).state), 1.0);

    // redo
    let undo = redo.execute(&mut world).unwrap();
    assert_eq!(gain(&record(&world, entity).state), 0.7);

    // undo again
    undo.execute(&mut world);
    assert_eq!(gain(&record(&world, entity).state), 1.0);
}

#[test]
fn clear_empties_stacks() {
    let mut manager = CommandManager::default();
    let mut world = setup_world();
    let snapshot = ChannelSnapshot::default();
    let id = snapshot.id;
    AddChannelEdit::new(0, snapshot).execute(&mut world);

    manager.add_undo(Edit::Rename(RenameChannelEdit::new(id, "x".to_string())));
    manager.undo(&mut world);
    assert!(manager.can_redo());

    manager.add_undo(Edit::Rename(RenameChannelEdit::new(id, "y".to_string())));
    assert!(manager.can_undo());

    manager.clear();
    assert!(!manager.can_undo());
    assert!(!manager.can_redo());
}

#[test]
fn edits_naming_a_missing_channel_change_nothing() {
    let (mut world, [a, b, c, d]) = setup_world_with_4_channels();
    let stranger = StableId::new();
    assert!(RenameChannelEdit::new(stranger, "z".to_string()).execute(&mut world).is_none());
    assert!(SetGainEdit::new(stranger, 0.1f32.to_bits()).execute(&mut world).is_none());
    assert!(SetPluginEdit::new(stranger, None).execute(&mut world).is_none());
    assert!(DeleteChannelEdit::new(stranger, 0).execute(&mut world).is_none());
    assert_eq!(get_channel_ids(&world), vec![a, b, c, d]);
}

#[test]
fn undo_and_redo_through_the_manager() {
    let (mut world, [a, b, c, d]) = setup_world_with_4_channels();
    let mut manager = CommandManager::default();

    // The user moves A to the end; the edit that undoes it is recorded.
    let undo = MoveChannelEdit::new(0, 4).execute(&mut world).unwrap();
    manager.add_undo(undo);
    assert_eq!(get_channel_ids(&world), vec![b, c, d, a]);

    assert!(manager.undo_runs(&world));
    manager.undo(&mut world);
    assert_eq!(get_channel_ids(&world), vec![a, b, c, d]);
    assert!(!manager.can_undo());
    assert!(manager.can_redo());

    assert!(manager.redo_runs(&world));
    manager.redo(&mut world);
    assert_eq!(get_channel_ids(&world), vec![b, c, d, a]);
    assert!(manager.can_undo());
    assert!(!manager.can_redo());

    // Undoing with nothing to undo does nothing.
    manager.undo(&mut world);
    manager.undo(&mut world);
    assert_eq!(get_channel_ids(&world), vec![a, b, c, d]);
}

#[test]
fn rename_and_button_edits_undo() {
    let (mut world, [a, ..]) = setup_world_with_4_channels();
    let entity = a.find_entity(&world).unwrap();

    let undo = RenameChannelEdit::new(a, "Lead".to_string()).execute(&mut world).unwrap();
    assert_eq!(record(&world, entity).name, "Lead");
    undo.execute(&mut world);
    assert_eq!(record(&world, entity).name, "A");

    let undo = ChannelButtonEdit::new(a, ChannelButton::Solo, true).execute(&mut world).unwrap();
    assert!(record(&world, entity).state.soloed);
    assert!(record(&world, entity).state.get_button(ChannelButton::Solo));
    undo.execute(&mut world);
    assert!(!record(&world, entity).state.soloed);
}
