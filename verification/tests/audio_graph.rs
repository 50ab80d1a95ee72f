use corodaw::node::{GraphConnection, GraphError, GraphNodeDesc};
use corodaw::output::{fill_frames, interleave_stereo, route_output};
use corodaw::worker::{EventBuffers, Graph};
use corodaw::world::{
    detach_removed_nodes, graph_connect_audio, graph_connect_event, graph_disconnect_event_input,
    GraphWorld,
};

fn get_node(world: &GraphWorld, node: usize) -> GraphNodeDesc {
    world.get(node).unwrap().clone()
}

/// Hands every node of `world` to a fresh worker graph, as the update
/// system does on the first frame.
fn worker_graph(world: &GraphWorld) -> Graph {
    let mut changed = Vec::new();
    for (entity, node) in world.nodes.iter().enumerate() {
        if let Some(node) = node {
            changed.push((entity, node.clone()));
        }
    }
    let mut graph = Graph::new();
    graph.update(changed, Vec::new());
    graph
}

fn sorted<T: Ord>(mut v: Vec<T>) -> Vec<T> {
    v.sort();
    v
}

#[test]
fn test_connect_audio() {
    let mut world = GraphWorld::new();
    let world = &mut world;
    let a = world.spawn(GraphNodeDesc::new().audio(0, 2));
    let b = world.spawn(GraphNodeDesc::new().audio(2, 0));
    let c = world.spawn(GraphNodeDesc::new().audio(0, 1));

    // out of bound ports
    assert!(graph_connect_audio(world, b, GraphConnection::new(2, a, 0)).is_err());
    assert!(graph_connect_audio(world, b, GraphConnection::new(0, a, 2)).is_err());
    assert!(get_node(world, b).audio_channels.connections.is_empty());

    // simple connections
    graph_connect_audio(world, b, GraphConnection::new(0, a, 0)).unwrap();
    let n = get_node(world, b);
    assert_eq!(n.inputs, vec![a]);
    assert_eq!(n.audio_channels.connections, vec![GraphConnection::new(0, a, 0)]);

    graph_connect_audio(world, b, GraphConnection::new(1, a, 1)).unwrap();
    let mut n = get_node(world, b);
    assert_eq!(n.inputs, vec![a]);
    n.audio_channels.connections.sort();
    assert_eq!(
        n.audio_channels.connections,
        sorted(vec![GraphConnection::new(0, a, 0), GraphConnection::new(1, a, 1)])
    );

    // connections to same port
    graph_connect_audio(world, b, GraphConnection::new(0, c, 0)).unwrap();
    graph_connect_audio(world, b, GraphConnection::new(1, c, 0)).unwrap();
    let mut n = get_node(world, b);
    n.audio_channels.connections.sort();
    assert_eq!(n.inputs, vec![c, a]);
    assert_eq!(
        n.audio_channels.connections,
        sorted(vec![
            GraphConnection::new(0, c, 0),
            GraphConnection::new(0, a, 0),
            GraphConnection::new(1, c, 0),
            GraphConnection::new(1, a, 1),
        ])
    );

    // duplicate connections don't actually duplicate
    graph_connect_audio(world, b, GraphConnection::new(0, a, 0)).unwrap();
    graph_connect_audio(world, b, GraphConnection::new(1, a, 1)).unwrap();
    graph_connect_audio(world, b, GraphConnection::new(0, c, 0)).unwrap();
    graph_connect_audio(world, b, GraphConnection::new(1, c, 0)).unwrap();
    let mut n = get_node(world, b);
    n.audio_channels.connections.sort();
    assert_eq!(n.inputs, vec![c, a]);
    assert_eq!(
        n.audio_channels.connections,
        sorted(vec![
            GraphConnection::new(0, c, 0),
            GraphConnection::new(0, a, 0),
            GraphConnection::new(1, c, 0),
            GraphConnection::new(1, a, 1),
        ])
    );
}

#[test]
fn connect_errors_name_the_cause() {
    let mut world = GraphWorld::new();
    let a = world.spawn(GraphNodeDesc::new().audio(0, 2));
    let b = world.spawn(GraphNodeDesc::new().audio(2, 0));
    assert_eq!(graph_connect_audio(&mut world, a, GraphConnection::new(0, a, 0)), Err(GraphError::DestEqualsSrc));
    assert_eq!(graph_connect_audio(&mut world, 7, GraphConnection::new(0, a, 0)), Err(GraphError::InvalidEntity(7)));
    assert_eq!(graph_connect_audio(&mut world, b, GraphConnection::new(0, 9, 0)), Err(GraphError::InvalidEntity(9)));
    assert_eq!(graph_connect_audio(&mut world, b, GraphConnection::new(2, a, 0)), Err(GraphError::DestPortOutOfBounds));
    assert_eq!(graph_connect_audio(&mut world, b, GraphConnection::new(0, a, 2)), Err(GraphError::SrcPortOutOfBounds));
    assert!(get_node(&world, b).inputs.is_empty());
}

#[test]
fn event_connections_and_disconnection() {
    let mut world = GraphWorld::new();
    let midi = world.spawn(GraphNodeDesc::new().event(0, 1).always_run());
    let synth = world.spawn(GraphNodeDesc::new().event(1, 0).audio(0, 2));
    graph_connect_event(&mut world, synth, GraphConnection::new(0, midi, 0)).unwrap();
    assert!(get_node(&world, synth).has_event_connected(midi));
    assert_eq!(get_node(&world, synth).inputs, vec![midi]);

    graph_disconnect_event_input(&mut world, synth, midi).unwrap();
    let n = get_node(&world, synth);
    assert!(!n.has_event_connected(midi));
    assert!(n.event_channels.connections.is_empty());
    // the list of input nodes is left as it was
    assert_eq!(n.inputs, vec![midi]);

    assert_eq!(graph_disconnect_event_input(&mut world, 42, midi), Err(GraphError::InvalidEntity(42)));
}

#[test]
fn removed_nodes_are_detached() {
    let mut world = GraphWorld::new();
    let a = world.spawn(GraphNodeDesc::new().audio(2, 2));
    let b = world.spawn(GraphNodeDesc::new().audio(0, 1));
    let c = world.spawn(GraphNodeDesc::new().audio(0, 1));
    graph_connect_audio(&mut world, a, GraphConnection::new(0, b, 0)).unwrap();
    graph_connect_audio(&mut world, a, GraphConnection::new(1, c, 0)).unwrap();

    world.despawn(b);
    detach_removed_nodes(&mut world, &vec![b]);

    let n = get_node(&world, a);
    assert_eq!(n.inputs, vec![c]);
    assert_eq!(n.audio_channels.connections, vec![GraphConnection::new(1, c, 0)]);
}

#[test]
fn tests_reachable_nodes() {
    // 0 --> 1
    // 2 --> 3
    // 4
    let mut world = GraphWorld::new();
    let nodes: Vec<usize> = (0..5).map(|_| world.spawn(GraphNodeDesc::new().audio(1, 1))).collect();

    let _ = graph_connect_audio(&mut world, nodes[0], GraphConnection::new(0, nodes[1], 0));
    let _ = graph_connect_audio(&mut world, nodes[2], GraphConnection::new(0, nodes[3], 0));

    let graph = worker_graph(&world);

    let reach = |n: usize| -> Vec<usize> { sorted(graph.get_reachable_nodes(n).into_iter().collect()) };

    assert_eq!(reach(nodes[0]), sorted(vec![nodes[0], nodes[1]]));
    assert_eq!(reach(nodes[1]), vec![nodes[1]]);
    assert_eq!(reach(nodes[2]), sorted(vec![nodes[2], nodes[3]]));
    assert_eq!(reach(nodes[3]), vec![nodes[3]]);
    assert_eq!(reach(nodes[4]), vec![nodes[4]]);
}

#[test]
fn tests_multiple_node_process_order() {
    // d -- > a --> b
    //        \---> c
    let mut w = GraphWorld::new();
    let a = w.spawn(GraphNodeDesc::new().audio(2, 1));
    let b = w.spawn(GraphNodeDesc::new().audio(0, 1));
    let c = w.spawn(GraphNodeDesc::new().audio(0, 1));
    let d = w.spawn(GraphNodeDesc::new().audio(1, 2));

    let _ = graph_connect_audio(&mut w, d, GraphConnection::new(0, a, 0));
    let _ = graph_connect_audio(&mut w, a, GraphConnection::new(0, b, 0));
    let _ = graph_connect_audio(&mut w, a, GraphConnection::new(1, c, 0));

    let graph = worker_graph(&w);
    assert!(graph.is_schedulable(d));
    let order = graph.build_breadth_first_traversal(d);

    // First two can be any order
    assert_eq!(sorted(vec![b, c]), sorted(order[..2].to_vec()));

    // Rest has to be set order
    assert_eq!([a, d], order[2..]);
}

fn is_before(order: &[usize], entity: usize, is_before: usize) -> bool {
    let entity_index = order.iter().position(|e| *e == entity).unwrap();
    let is_before_index = order.iter().position(|e| *e == is_before).unwrap();
    entity_index < is_before_index
}

#[test]
fn always_run_nodes() {
    // a --> b --> c
    //   \-> d
    // e
    // f
    //
    // always_run: c, d, e
    let mut w = GraphWorld::new();
    let a = w.spawn(GraphNodeDesc::new().audio(1, 2));
    let b = w.spawn(GraphNodeDesc::new().audio(1, 2));
    let f = w.spawn(GraphNodeDesc::new().audio(1, 2));
    let c = w.spawn(GraphNodeDesc::new().audio(1, 1).always_run());
    let d = w.spawn(GraphNodeDesc::new().audio(1, 1).always_run());
    let e = w.spawn(GraphNodeDesc::new().audio(1, 1).always_run());

    let _ = graph_connect_audio(&mut w, a, GraphConnection::new(0, b, 0));
    let _ = graph_connect_audio(&mut w, a, GraphConnection::new(0, d, 0));
    let _ = graph_connect_audio(&mut w, b, GraphConnection::new(0, c, 0));

    let graph = worker_graph(&w);
    let order = graph.build_breadth_first_traversal(a);

    assert!(is_before(&order, c, b));
    assert!(is_before(&order, b, a));
    assert!(is_before(&order, d, a));
    assert!(order.contains(&e));
    assert!(!order.contains(&f));
}

#[test]
fn worker_graph_forgets_removed_nodes() {
    let mut w = GraphWorld::new();
    let a = w.spawn(GraphNodeDesc::new().audio(1, 1));
    let b = w.spawn(GraphNodeDesc::new().audio(0, 1));
    let mut graph = worker_graph(&w);
    assert!(graph.get_node(b).is_some());
    graph.update(Vec::new(), vec![b]);
    assert!(graph.get_node(b).is_none());
    assert!(graph.get_node(a).is_some());
}

/// What the worker's tick does for the output node `out` of `world` in the
/// library: hand the nodes over, schedule the run, and route the output
/// node's buffers (here the constant `value` on each of its outputs) into
/// an interleaved block of `channels` channels.
fn tick_constant(world: &GraphWorld, out: usize, value: f32, frames: usize, channels: usize) -> Vec<f32> {
    let graph = worker_graph(world);
    assert!(graph.is_schedulable(out));
    let order = graph.build_breadth_first_traversal(out);
    assert_eq!(order, vec![out]);
    let node = graph.get_node(out).unwrap();
    let output = vec![vec![value; frames]; node.audio_channels.num_outputs as usize];
    let mut data = vec![0.0f32; frames * channels];
    route_output(&output, frames, &mut data, channels);
    data
}

#[test]
fn tests_single_node_process() {
    let mut world = GraphWorld::new();
    let a = world.spawn(GraphNodeDesc::new().audio(0, 2));
    assert_eq!(vec![1.0, 1.0], tick_constant(&world, a, 1.0, 1, 2));
}

#[test]
fn mono_node_stereo_output() {
    let mut world = GraphWorld::new();
    let a = world.spawn(GraphNodeDesc::new().audio(0, 1));
    assert_eq!(vec![1.0, 1.0], tick_constant(&world, a, 1.0, 1, 2));
}

#[test]
fn routing_interleaves_frames_and_leaves_the_rest() {
    let output = vec![vec![1, 2, 3], vec![10, 20, 30]];
    // two whole stereo frames and a partial one
    let mut data = vec![0, 0, 0, 0, 7];
    route_output(&output, 3, &mut data, 2);
    assert_eq!(data, vec![1, 10, 2, 20, 7]);

    let mut data = vec![5; 6];
    fill_frames(&mut data, 4, 0);
    assert_eq!(data, vec![0, 0, 0, 0, 5, 5]);

    let mut data = vec![0; 5];
    interleave_stereo(&vec![1, 2], &vec![3, 4, 5], &mut data);
    assert_eq!(data, vec![1, 3, 2, 4, 0]);
}

#[test]
fn event_buffers_are_emptied_for_processing() {
    let mut buffers: EventBuffers<u8> = EventBuffers::new(2);
    assert_eq!(buffers.get().len(), 2);
    buffers.ports[1].push(9);
    buffers.prepare_for_processing();
    assert_eq!(buffers.get().len(), 2);
    assert!(buffers.get().iter().all(|p| p.is_empty()));
}

#[test]
fn nodes_the_run_does_not_need_may_name_missing_inputs() {
    // 0 is the output; 1 reads from entity 7, which the audio thread never
    // received.
    let out = GraphNodeDesc::new().audio(0, 2);
    let mut dangling = GraphNodeDesc::new().audio(1, 1);
    dangling.inputs.push(7);
    let mut graph = Graph::new();
    graph.update(vec![(0, out), (1, dangling)], Vec::new());

    assert!(graph.is_schedulable(0));
    assert_eq!(graph.get_reachable_nodes(0), std::collections::HashSet::from([0]));
    assert_eq!(graph.build_breadth_first_traversal(0), vec![0]);
    assert!(!graph.is_schedulable(1));
    assert!(!graph.is_schedulable(3));
}

#[test]
fn ready_nodes_run_in_entity_order() {
    // d --> a --> b
    //         \-> c
    // b and c are both ready first; c, spawned later, comes first in the
    // order of entities and runs first.
    let mut world = GraphWorld::new();
    let a = world.spawn(GraphNodeDesc::new().audio(2, 1));
    let b = world.spawn(GraphNodeDesc::new().audio(0, 1));
    let c = world.spawn(GraphNodeDesc::new().audio(0, 1));
    let d = world.spawn(GraphNodeDesc::new().audio(1, 0));
    graph_connect_audio(&mut world, d, GraphConnection::new(0, a, 0)).unwrap();
    graph_connect_audio(&mut world, a, GraphConnection::new(0, b, 0)).unwrap();
    graph_connect_audio(&mut world, a, GraphConnection::new(1, c, 0)).unwrap();
    assert_eq!(get_node(&world, a).inputs, vec![c, b]);
    let graph = worker_graph(&world);
    assert_eq!(graph.build_breadth_first_traversal(d), vec![c, b, a, d]);
}
