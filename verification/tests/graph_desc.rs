use corodaw::desc::{
    add_audio_input, connect_audio, connect_event, disconnect_event, AudioGraphDescError, DescWorld,
    InputConnection, Node,
};

#[test]
fn connecting_a_port_replaces_its_source() {
    let mut world = DescWorld::new();
    let a = world.spawn(Node::new().audio(0, 2));
    let b = world.spawn(Node::new().audio(2, 0));
    let c = world.spawn(Node::new().audio(0, 1));

    connect_audio(&mut world, b, 0, a, 0).unwrap();
    connect_audio(&mut world, b, 1, a, 1).unwrap();
    assert_eq!(world.get(b).unwrap().inputs, vec![a]);

    connect_audio(&mut world, b, 0, c, 0).unwrap();
    let n = world.get(b).unwrap();
    assert_eq!(
        n.audio_input_connections,
        vec![InputConnection::Connected(c, 0), InputConnection::Connected(a, 1)]
    );
    // in the order of entities: the later spawned first
    assert_eq!(n.inputs, vec![c, a]);
}

#[test]
fn refused_connections_say_why() {
    let mut world = DescWorld::new();
    let a = world.spawn(Node::new().audio(0, 2));
    let b = world.spawn(Node::new().audio(2, 0));
    assert_eq!(connect_audio(&mut world, a, 0, a, 0), Err(AudioGraphDescError::DestEqualsSrc));
    assert_eq!(connect_audio(&mut world, 9, 0, a, 0), Err(AudioGraphDescError::InvalidEntity(9)));
    assert_eq!(connect_audio(&mut world, b, 0, 9, 0), Err(AudioGraphDescError::InvalidEntity(9)));
    assert_eq!(connect_audio(&mut world, b, 2, a, 0), Err(AudioGraphDescError::DestPortOutOfBounds));
    assert_eq!(connect_audio(&mut world, b, 0, a, 2), Err(AudioGraphDescError::SrcPortOutOfBounds));
    assert_eq!(connect_event(&mut world, b, 0, a, 0), Err(AudioGraphDescError::DestPortOutOfBounds));
    assert!(world.get(b).unwrap().inputs.is_empty());
}

#[test]
fn added_inputs_grow_the_node() {
    let mut world = DescWorld::new();
    let summer = world.spawn(Node::new().audio(0, 2));
    let a = world.spawn(Node::new().audio(0, 2));

    add_audio_input(&mut world, summer, a, 0).unwrap();
    add_audio_input(&mut world, summer, a, 1).unwrap();
    assert_eq!(
        world.get(summer).unwrap().audio_input_connections,
        vec![InputConnection::Connected(a, 0), InputConnection::Connected(a, 1)]
    );

    // A refused connection leaves the new input behind, disconnected.
    assert_eq!(add_audio_input(&mut world, summer, a, 5), Err(AudioGraphDescError::SrcPortOutOfBounds));
    assert_eq!(world.get(summer).unwrap().audio_input_connections.len(), 3);
    assert_eq!(world.get(summer).unwrap().audio_input_connections[2], InputConnection::Disconnected);
    assert_eq!(add_audio_input(&mut world, 7, a, 0), Err(AudioGraphDescError::InvalidEntity(7)));
}

#[test]
fn disconnecting_an_event_port() {
    let mut world = DescWorld::new();
    let midi = world.spawn(Node::new().event(0, 1));
    let synth = world.spawn(Node::new().event(1, 0));
    connect_event(&mut world, synth, 0, midi, 0).unwrap();
    assert_eq!(world.get(synth).unwrap().inputs, vec![midi]);
    disconnect_event(&mut world, synth, 0).unwrap();
    assert!(world.get(synth).unwrap().inputs.is_empty());
    assert_eq!(disconnect_event(&mut world, 5, 0), Err(AudioGraphDescError::InvalidEntity(5)));
}
