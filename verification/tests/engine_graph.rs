use corodaw::engine_graph::{AudioGraph, AudioGraphWorker, Graph, GraphDesc, InputConnection, NodeId, Summer};

/// A processor that only says which node it belongs to.
#[derive(Debug, Clone, Copy, PartialEq)]
struct Tag(usize);

#[test]
fn audio_graph_single_node_process() {
    let mut graph = GraphDesc::new();
    let node = graph.add_node(0, 0, Tag(0));

    let graph = Graph::new(graph, None);
    assert_eq!(graph.output_node, None);
    let order = graph.build_breadth_first_traversal(node);

    assert_eq!([node], order.as_slice());
}

#[test]
fn audio_graph_reachable_nodes() {
    // 0 --> 1
    // 2 --> 3
    // 4
    let mut graph = GraphDesc::new();
    let nodes: Vec<NodeId> = (0..5).map(|i| graph.add_node(1, 1, Tag(i))).collect();
    graph.connect(nodes[0], 0, nodes[1], 0);
    graph.connect(nodes[2], 0, nodes[3], 0);

    let graph = Graph::new(graph, None);

    assert!(graph.get_reachable_nodes(nodes[0]).ones().eq([0, 1].into_iter()));
    assert!(graph.get_reachable_nodes(nodes[1]).ones().eq([1].into_iter()));
    assert!(graph.get_reachable_nodes(nodes[2]).ones().eq([2, 3].into_iter()));
    assert!(graph.get_reachable_nodes(nodes[3]).ones().eq([3].into_iter()));
    assert!(graph.get_reachable_nodes(nodes[4]).ones().eq([4].into_iter()));
}

#[test]
fn audio_graph_multiple_node_process_order() {
    // d -- > a --> b
    //        \---> c
    let mut graph = GraphDesc::new();
    let a = graph.add_node(2, 1, Tag(0));
    let b = graph.add_node(0, 1, Tag(1));
    let c = graph.add_node(0, 1, Tag(2));
    let d = graph.add_node(1, 0, Tag(3));

    graph.connect(d, 0, a, 0);
    graph.connect(a, 0, b, 0);
    graph.connect(a, 1, c, 0);

    let graph = Graph::new(graph, None);
    let order = graph.build_breadth_first_traversal(d);

    assert_eq!([b, c, a, d], order.as_slice());
}

#[test]
fn sent_descriptions_carry_new_processors_once() {
    let mut graph: AudioGraph<Tag> = AudioGraph::new();
    assert!(graph.update().is_none());

    let a = graph.add_node(0, 2, Tag(0));
    graph.set_output_node(a);
    let first = graph.update().unwrap();
    assert_eq!(first.processors, vec![Some(Tag(0))]);
    assert!(graph.update().is_none());

    let b = graph.add_node(2, 2, Tag(1));
    graph.connect_grow_input(b, 3, a, 1);
    let second = graph.update().unwrap();
    assert_eq!(second.processors, vec![None, Some(Tag(1))]);
    assert_eq!(second.nodes[b.0].input_connections.len(), 4);
    assert_eq!(second.nodes[b.0].input_connections[3], InputConnection::Connected(a, 1));

    // The audio thread takes the latest description and keeps the
    // processors it already runs.
    let mut worker: AudioGraphWorker<Tag> = AudioGraphWorker::new();
    worker.receive(vec![first]);
    worker.receive(Vec::new());
    worker.receive(vec![second]);
    let g = worker.graph.as_ref().unwrap();
    assert_eq!(g.nodes.len(), 2);
    assert_eq!(g.nodes[0].processor, Tag(0));
    assert_eq!(g.nodes[1].processor, Tag(1));
    assert_eq!(g.output_node, Some(a));
}

#[test]
fn summer_reads_the_matching_port_of_each_input() {
    let inputs = vec![
        InputConnection::Connected(NodeId(3), 0),
        InputConnection::Disconnected,
        InputConnection::Connected(NodeId(4), 1),
        InputConnection::Connected(NodeId(5), 0),
    ];
    assert_eq!(Summer.sources_for(&inputs, 0), vec![(NodeId(3), 0), (NodeId(5), 0)]);
    assert_eq!(Summer.sources_for(&inputs, 1), vec![(NodeId(4), 1)]);
    assert!(Summer.sources_for(&inputs, 2).is_empty());
}

#[test]
fn any_node_can_be_named_the_output() {
    let mut graph: GraphDesc<Tag> = GraphDesc::new();
    graph.set_output_node(NodeId(9));
    assert_eq!(graph.output_node, Some(NodeId(9)));
    let graph = Graph::new(graph, None);
    assert_eq!(graph.output_node, Some(NodeId(9)));
}
