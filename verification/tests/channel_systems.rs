use corodaw::channel::{ChannelData, ChannelSnapshot, StableId};
use corodaw::channel_audio::{binding_change, BindingChange, ChannelAudio};
use corodaw::edits::{AddChannelEdit, SetPluginEdit};
use corodaw::node::GraphNodeDesc;
use corodaw::project::ProjectWorld;
use corodaw::world::GraphWorld;

/// The project, the audio graph with its summer, and what the channel
/// systems keep for one channel.
struct TestApp {
    project: ProjectWorld,
    graph: GraphWorld,
    summer: usize,
    audio: ChannelAudio,
}

fn setup_test_app() -> TestApp {
    let mut graph = GraphWorld::new();
    let summer = graph.spawn(GraphNodeDesc::new().audio(2, 2));
    let _midi_input = graph.spawn(GraphNodeDesc::new().event(0, 1).always_run());
    TestApp { project: ProjectWorld::new(), graph, summer, audio: ChannelAudio::new() }
}

fn spawn_channel(app: &mut TestApp) -> StableId {
    let snapshot = ChannelSnapshot::default();
    let id = snapshot.id;
    AddChannelEdit::new(0, snapshot).execute(&mut app.project);
    id
}

fn make_channel_data(plugin_id: &str) -> ChannelData {
    ChannelData { plugin_id: plugin_id.to_owned(), plugin_state: None }
}

/// What the plugin manager makes for a plugin: a stereo instrument node.
fn plugin_node_desc() -> GraphNodeDesc {
    GraphNodeDesc::new().audio(0, 2).event(1, 0)
}

/// One frame of the channel systems: a channel whose binding was written
/// gets a new plugin node, one whose binding was taken away loses it.
fn update(app: &mut TestApp, id: StableId) {
    let entity = id.find_entity(&app.project).unwrap();
    let changes = app.project.take_binding_changes();
    let data = &app.project.channels.iter().find(|r| r.entity == entity).unwrap().data;
    match binding_change(&changes, entity, app.audio.plugin_node.is_some(), data) {
        BindingChange::Bind => {
            app.audio.release_plugin_node(&mut app.graph);
            app.audio.connect_plugin_node(&mut app.graph, plugin_node_desc(), app.summer);
        }
        BindingChange::Unbind => app.audio.unbind_plugin(&mut app.graph),
        BindingChange::Keep => {}
    }
}

#[test]
fn set_plugin_creates_components() {
    let mut app = setup_test_app();
    let id = spawn_channel(&mut app);

    SetPluginEdit::new(id, Some(make_channel_data("com.test.synth-a"))).execute(&mut app.project);
    update(&mut app, id);

    assert!(app.audio.plugin_node.is_some());
    assert!(app.audio.gain_node.is_some());
}

#[test]
fn remove_plugin_removes_components() {
    let mut app = setup_test_app();
    let id = spawn_channel(&mut app);

    SetPluginEdit::new(id, Some(make_channel_data("com.test.synth-a"))).execute(&mut app.project);
    update(&mut app, id);

    SetPluginEdit::new(id, None).execute(&mut app.project);
    update(&mut app, id);

    assert!(app.audio.plugin_node.is_none());
    assert!(app.audio.gain_node.is_none());
}

#[test]
fn replace_plugin_despawns_old_node() {
    let mut app = setup_test_app();
    let id = spawn_channel(&mut app);

    SetPluginEdit::new(id, Some(make_channel_data("com.test.synth-a"))).execute(&mut app.project);
    update(&mut app, id);
    let old_input_node = app.audio.plugin_node.unwrap();

    SetPluginEdit::new(id, Some(make_channel_data("com.test.synth-b"))).execute(&mut app.project);
    update(&mut app, id);
    let new_input_node = app.audio.plugin_node.unwrap();

    assert_ne!(old_input_node, new_input_node);
    assert!(app.graph.get(new_input_node).is_some());
    assert!(app.graph.get(old_input_node).is_none());

    let gain = app.audio.gain_node.unwrap();
    let gain_node = app.graph.get(gain).unwrap();
    assert!(gain_node.inputs.contains(&new_input_node));
    assert!(!gain_node.inputs.contains(&old_input_node));

    let summer_node = app.graph.get(app.summer).unwrap();
    assert!(summer_node.inputs.contains(&gain));
}

#[test]
fn replace_plugin_reuses_gain_control() {
    let mut app = setup_test_app();
    let id = spawn_channel(&mut app);

    SetPluginEdit::new(id, Some(make_channel_data("com.test.synth-a"))).execute(&mut app.project);
    update(&mut app, id);
    let gain_before = app.audio.gain_node.unwrap();

    SetPluginEdit::new(id, Some(make_channel_data("com.test.synth-b"))).execute(&mut app.project);
    update(&mut app, id);
    let gain_after = app.audio.gain_node.unwrap();

    assert_eq!(gain_before, gain_after);
}

#[test]
fn undo_plugin_set_despawns_node() {
    let mut app = setup_test_app();
    let id = spawn_channel(&mut app);

    let undo = SetPluginEdit::new(id, Some(make_channel_data("com.test.synth-a"))).execute(&mut app.project);
    update(&mut app, id);
    let input_node = app.audio.plugin_node.unwrap();

    undo.unwrap().execute(&mut app.project);
    update(&mut app, id);

    assert!(app.audio.plugin_node.is_none());
    assert!(app.graph.get(input_node).is_none());
}

#[test]
fn undo_redo_plugin_set_reconnects_fresh() {
    let mut app = setup_test_app();
    let id = spawn_channel(&mut app);

    let undo = SetPluginEdit::new(id, Some(make_channel_data("com.test.synth-a")))
        .execute(&mut app.project)
        .unwrap();
    update(&mut app, id);
    let first_input_node = app.audio.plugin_node.unwrap();

    let redo = undo.execute(&mut app.project).unwrap();
    update(&mut app, id);

    redo.execute(&mut app.project);
    update(&mut app, id);

    let new_input_node = app.audio.plugin_node.unwrap();
    assert!(app.graph.get(new_input_node).is_some());

    let gain = app.audio.gain_node.unwrap();
    let gain_node = app.graph.get(gain).unwrap();
    assert!(gain_node.inputs.contains(&new_input_node));
    if first_input_node != new_input_node {
        assert!(!gain_node.inputs.contains(&first_input_node));
    }

    let summer_node = app.graph.get(app.summer).unwrap();
    assert!(summer_node.inputs.contains(&gain));
}

#[test]
fn set_plugin_wires_audio_graph() {
    let mut app = setup_test_app();
    let id = spawn_channel(&mut app);

    SetPluginEdit::new(id, Some(make_channel_data("com.test.synth-a"))).execute(&mut app.project);
    update(&mut app, id);

    let input_node = app.audio.plugin_node.unwrap();
    let gain = app.audio.gain_node.unwrap();

    let gain_node = app.graph.get(gain).unwrap();
    assert!(gain_node.inputs.contains(&input_node));

    let summer_node = app.graph.get(app.summer).unwrap();
    assert!(summer_node.inputs.contains(&gain));
}

#[test]
fn any_write_of_the_binding_makes_a_new_plugin_node() {
    let data = |id: &str| Some(ChannelData { plugin_id: id.to_string(), plugin_state: None });
    let changes = vec![4u64, 7];
    assert_eq!(binding_change(&changes, 7, false, &data("synth")), BindingChange::Bind);
    assert_eq!(binding_change(&changes, 7, true, &data("synth")), BindingChange::Bind);
    assert_eq!(binding_change(&changes, 5, true, &data("synth")), BindingChange::Keep);
    assert_eq!(binding_change(&changes, 5, true, &None), BindingChange::Unbind);
    assert_eq!(binding_change(&changes, 7, true, &None), BindingChange::Unbind);
    assert_eq!(binding_change(&changes, 5, false, &None), BindingChange::Keep);
}

#[test]
fn setting_the_same_binding_again_makes_a_new_plugin_node() {
    let mut app = setup_test_app();
    let id = spawn_channel(&mut app);

    SetPluginEdit::new(id, Some(make_channel_data("com.test.synth-a"))).execute(&mut app.project);
    update(&mut app, id);
    let first = app.audio.plugin_node.unwrap();

    // a frame with no write keeps the node
    update(&mut app, id);
    assert_eq!(app.audio.plugin_node, Some(first));

    SetPluginEdit::new(id, Some(make_channel_data("com.test.synth-a"))).execute(&mut app.project);
    update(&mut app, id);
    let second = app.audio.plugin_node.unwrap();
    assert_ne!(first, second);
    assert!(app.graph.get(first).is_none());
}

#[test]
fn edits_record_binding_writes() {
    let mut project = ProjectWorld::new();
    let with_plugin = ChannelSnapshot {
        data: Some(make_channel_data("com.test.synth-a")),
        ..ChannelSnapshot::default()
    };
    let id = with_plugin.id;
    AddChannelEdit::new(0, ChannelSnapshot::default()).execute(&mut project);
    AddChannelEdit::new(1, with_plugin).execute(&mut project);
    assert_eq!(project.take_binding_changes(), vec![1]);
    assert!(project.take_binding_changes().is_empty());
    SetPluginEdit::new(id, None).execute(&mut project);
    assert!(project.take_binding_changes().is_empty());
    SetPluginEdit::new(id, Some(make_channel_data("com.test.synth-b"))).execute(&mut project);
    assert_eq!(project.take_binding_changes(), vec![1]);
}
