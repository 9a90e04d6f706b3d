use schisma::graph::{
    default_instrument_graph, node_label, node_ports, ConnectError, Connection, GraphError, GraphNode, NodeId,
    NodeKind, NodeScope, PortKind,
};

#[test]
fn default_graph_is_valid() {
    default_instrument_graph().validate().unwrap();
}

#[test]
fn feedback_requires_delay() {
    let mut graph = default_instrument_graph();
    graph.connections.push(Connection {
        from_node: NodeId(3),
        from_port: 0,
        to_node: NodeId(2),
        to_port: 0,
    });
    assert_eq!(graph.validate(), Err(GraphError::FeedbackWithoutDelay));
}

#[test]
fn feedback_through_a_delay_is_accepted() {
    let mut graph = default_instrument_graph();
    let delay = graph.add_node(NodeKind::Delay);
    assert_eq!(delay, NodeId(8));
    graph.connections.push(Connection { from_node: NodeId(3), from_port: 0, to_node: delay, to_port: 0 });
    graph.connections.push(Connection { from_node: delay, from_port: 0, to_node: NodeId(2), to_port: 0 });
    assert_eq!(graph.validate(), Ok(()));
}

#[test]
fn structural_errors_are_reported() {
    let mut graph = default_instrument_graph();
    graph.schema_version = 2;
    assert_eq!(graph.validate(), Err(GraphError::UnsupportedSchema(2)));

    let mut graph = default_instrument_graph();
    let copy = graph.nodes[0].clone();
    graph.nodes.push(copy);
    assert_eq!(graph.validate(), Err(GraphError::DuplicateNode(NodeId(1))));

    let mut graph = default_instrument_graph();
    graph.connections.push(Connection { from_node: NodeId(99), from_port: 0, to_node: NodeId(1), to_port: 0 });
    assert_eq!(graph.validate(), Err(GraphError::MissingNode(NodeId(99))));

    let mut graph = default_instrument_graph();
    graph.connections.push(Connection { from_node: NodeId(1), from_port: 5, to_node: NodeId(2), to_port: 0 });
    assert_eq!(graph.validate(), Err(GraphError::MissingOutput(NodeId(1), 5)));
}

#[test]
fn editor_connect_refuses_self_cables_and_keeps_the_graph() {
    let mut graph = default_instrument_graph();
    assert_eq!(graph.connect(NodeId(2), NodeId(2)), Err(ConnectError::SelfConnection));
    let before = graph.connections.clone();
    assert_eq!(
        graph.connect(NodeId(3), NodeId(2)),
        Err(ConnectError::Invalid(GraphError::FeedbackWithoutDelay))
    );
    assert_eq!(graph.connections, before);
    assert_eq!(graph.connect(NodeId(2), NodeId(4)), Ok(()));
    assert_eq!(graph.connections.len(), before.len() + 1);
}

#[test]
fn catalogue_ports_and_labels() {
    let (scope, inputs, outputs) = node_ports(&NodeKind::Reverb);
    assert_eq!(scope, NodeScope::Global);
    assert_eq!(inputs, vec![PortKind::AudioStereo]);
    assert_eq!(outputs, vec![PortKind::AudioStereo]);
    assert_eq!(node_label(&NodeKind::ModalBody), "Modal Body");
    let mut graph = default_instrument_graph();
    let id = graph.add_node(NodeKind::Reverb);
    let node = graph.nodes.last().unwrap();
    assert_eq!(node.id, id);
    assert_eq!(node.name, node_label(&NodeKind::Reverb));
}

#[test]
fn default_document_names_and_ports() {
    let graph = default_instrument_graph();
    assert_eq!(graph.name, "Schisma v0.1 Default");
    let names: Vec<&str> = graph.nodes.iter().map(|n| n.name.as_str()).collect();
    assert_eq!(
        names,
        vec!["Wavetable", "Energy Morph", "Modal Body", "TPT Filter", "Voice Bus ×16", "Safety Limiter", "Stereo Output"]
    );
    for node in &graph.nodes {
        assert_eq!(node_ports(&node.kind), (node.scope, node.inputs.clone(), node.outputs.clone()));
    }
    assert_eq!(graph.nodes[3].outputs, vec![PortKind::AudioStereo]);
}

#[test]
fn validation_of_edited_default_documents() {
    let cable = |from: u64, to: u64| Connection { from_node: NodeId(from), from_port: 0, to_node: NodeId(to), to_port: 0 };

    let mut delayed = default_instrument_graph();
    delayed.nodes.push(GraphNode {
        id: NodeId(8),
        kind: NodeKind::Delay,
        name: "Feedback Delay".to_string(),
        scope: NodeScope::PerVoice,
        inputs: vec![PortKind::AudioMono],
        outputs: vec![PortKind::AudioMono],
    });
    delayed.connections.push(cable(3, 8));
    delayed.connections.push(cable(8, 2));
    assert_eq!(delayed.validate(), Ok(()));

    let mut skipped_bus = default_instrument_graph();
    skipped_bus.connections.push(cable(4, 6));
    assert_eq!(skipped_bus.validate(), Err(GraphError::MissingVoiceBus));

    let mut global_into_voice = default_instrument_graph();
    global_into_voice.connections.push(cable(5, 2));
    assert_eq!(
        global_into_voice.validate(),
        Err(GraphError::PortTypeMismatch { from: PortKind::AudioStereo, to: PortKind::AudioMono })
    );

    let mut reverb_into_voice = default_instrument_graph();
    reverb_into_voice.nodes.push(GraphNode {
        id: NodeId(9),
        kind: NodeKind::Reverb,
        name: "Global Reverb".to_string(),
        scope: NodeScope::Global,
        inputs: vec![PortKind::AudioMono],
        outputs: vec![PortKind::AudioMono],
    });
    reverb_into_voice.connections.push(cable(9, 3));
    assert_eq!(reverb_into_voice.validate(), Err(GraphError::GlobalAudioIntoVoice));
}

#[test]
fn removing_a_module_drops_its_cables() {
    let mut graph = default_instrument_graph();
    graph.remove_node(NodeId(3));
    let ids: Vec<u64> = graph.nodes.iter().map(|n| n.id.0).collect();
    assert_eq!(ids, vec![1, 2, 4, 5, 6, 7]);
    let cables: Vec<(u64, u64)> = graph.connections.iter().map(|c| (c.from_node.0, c.to_node.0)).collect();
    assert_eq!(cables, vec![(1, 2), (4, 5), (5, 6), (6, 7)]);
    assert_eq!(graph.name, "Schisma v0.1 Default");

    let before = graph.clone();
    graph.remove_node(NodeId(42));
    assert_eq!(graph.nodes.len(), before.nodes.len());
    assert_eq!(graph.connections, before.connections);
}
