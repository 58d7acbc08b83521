use neuromitosis::graph::{Canvas, CanvasError};
use neuromitosis::node::{Node, NodeType, Port, PortDirection};
use neuromitosis::yarn::Yarn;

fn make_test_canvas() -> Canvas {
    let mut canvas = Canvas::new("test");

    let source = Node::new("source", NodeType::Source).with_output(Port::output("out"));
    let transform = Node::new("transform", NodeType::Transform)
        .with_input(Port::input("in"))
        .with_output(Port::output("out"));
    let action = Node::new("action", NodeType::Action).with_input(Port::input("in"));

    let s_id = source.id;
    let s_out = source.outputs[0].id;
    let t_id = transform.id;
    let t_in = transform.inputs[0].id;
    let t_out = transform.outputs[0].id;
    let a_id = action.id;
    let a_in = action.inputs[0].id;

    canvas.add_node(source).unwrap();
    canvas.add_node(transform).unwrap();
    canvas.add_node(action).unwrap();
    canvas.connect(s_id, s_out, t_id, t_in).unwrap();
    canvas.connect(t_id, t_out, a_id, a_in).unwrap();

    canvas
}

#[test]
fn test_canvas_structure() {
    let canvas = make_test_canvas();
    assert_eq!(canvas.node_count(), 3);
    assert_eq!(canvas.yarn_count(), 2);
    assert_eq!(canvas.sources().len(), 1);
    assert_eq!(canvas.sinks().len(), 1);
}

#[test]
fn test_cycle_detection() {
    let mut canvas = Canvas::new("cycle_test");
    let a = Node::new("a", NodeType::Source).with_output(Port::output("out"));
    let b = Node::new("b", NodeType::Transform)
        .with_input(Port::input("in"))
        .with_output(Port::output("out"));

    let a_id = a.id;
    let a_out = a.outputs[0].id;
    let b_id = b.id;
    let b_in = b.inputs[0].id;
    let b_out = b.outputs[0].id;

    canvas.add_node(a).unwrap();
    canvas.add_node(b).unwrap();
    canvas.connect(a_id, a_out, b_id, b_in).unwrap();

    // b -> a would close a loop, since a -> b exists already.
    let result = canvas.connect(b_id, b_out, a_id, a_out);
    assert!(result.is_err());
}

#[test]
fn test_node_creation() {
    let node = Node::new("gmail_fetch", NodeType::Source)
        .with_output(Port::output("emails").with_type("email[]"))
        .with_tool("GMAIL_FETCH_EMAILS");

    assert_eq!(node.name, "gmail_fetch");
    assert_eq!(node.node_type, NodeType::Source);
    assert_eq!(node.outputs.len(), 1);
    assert_eq!(node.tool_slug.as_deref(), Some("GMAIL_FETCH_EMAILS"));
}

#[test]
fn test_guard_node() {
    let guard = Node::new("approval_gate", NodeType::Guard)
        .with_input(Port::input("pending"))
        .with_output(Port::output("approved"))
        .with_output(Port::output("rejected"));

    assert_eq!(guard.node_type, NodeType::Guard);
    assert_eq!(guard.inputs.len(), 1);
    assert_eq!(guard.outputs.len(), 2);
}

#[test]
fn self_connection_is_a_cycle() {
    let mut canvas = Canvas::new("self");
    let a = Node::new("a", NodeType::Transform)
        .with_input(Port::input("in"))
        .with_output(Port::output("out"));
    let (a_id, a_in, a_out) = (a.id, a.inputs[0].id, a.outputs[0].id);
    canvas.add_node(a).unwrap();
    assert_eq!(canvas.connect(a_id, a_out, a_id, a_in), Err(CanvasError::CycleDetected));
    assert_eq!(canvas.yarn_count(), 0);
}

#[test]
fn longer_cycle_is_refused_and_canvas_unchanged() {
    let mut canvas = Canvas::new("loop");
    let ids: Vec<u128> = (0..3)
        .map(|i| {
            let n = Node::new(&format!("n{}", i), NodeType::Transform);
            canvas.add_node(n).unwrap()
        })
        .collect();
    let y1 = canvas.connect(ids[0], 1, ids[1], 2).unwrap();
    let y2 = canvas.connect(ids[1], 3, ids[2], 4).unwrap();
    let node_ids_before: Vec<u128> = canvas.nodes.iter().map(|n| n.id).collect();
    let yarn_ids_before: Vec<u128> = canvas.yarns.iter().map(|y| y.id).collect();
    assert_eq!(yarn_ids_before, vec![y1, y2]);

    assert_eq!(canvas.connect(ids[2], 5, ids[0], 6), Err(CanvasError::CycleDetected));

    let node_ids_after: Vec<u128> = canvas.nodes.iter().map(|n| n.id).collect();
    let yarn_ids_after: Vec<u128> = canvas.yarns.iter().map(|y| y.id).collect();
    assert_eq!(node_ids_before, node_ids_after);
    assert_eq!(yarn_ids_before, yarn_ids_after);
}

#[test]
fn missing_node_is_reported() {
    let mut canvas = Canvas::new("missing");
    let a = Node::new("a", NodeType::Source);
    let a_id = canvas.add_node(a).unwrap();
    assert_eq!(canvas.connect(a_id, 0, 42, 0), Err(CanvasError::NodeNotFound(42)));
    assert_eq!(canvas.connect(7, 0, a_id, 0), Err(CanvasError::NodeNotFound(7)));
    assert_eq!(canvas.yarn_count(), 0);
}

#[test]
fn duplicate_node_is_refused() {
    let mut canvas = Canvas::new("dup");
    let a = Node::new("a", NodeType::Source);
    let copy = a.duplicate();
    let id = canvas.add_node(a).unwrap();
    assert_eq!(canvas.add_node(copy), Err(CanvasError::DuplicateNode(id)));
    assert_eq!(canvas.node_count(), 1);
}

#[test]
fn neighbours_follow_yarn_order() {
    let canvas = make_test_canvas();
    let ids: Vec<u128> = canvas.nodes.iter().map(|n| n.id).collect();
    assert_eq!(canvas.predecessors(ids[1]), vec![ids[0]]);
    assert_eq!(canvas.successors(ids[1]), vec![ids[2]]);
    assert_eq!(canvas.predecessors(ids[0]), Vec::<u128>::new());
    assert_eq!(canvas.sources(), vec![ids[0]]);
    assert_eq!(canvas.sinks(), vec![ids[2]]);
}

#[test]
fn ports_and_yarn_builders() {
    let p = Port::input("pending");
    assert_eq!(p.direction, PortDirection::In);
    assert!(p.type_hint.is_none());
    let node = Node::new("n", NodeType::Action)
        .with_input(Port::input("a"))
        .with_input(Port::input("b"))
        .with_output(Port::output("c"))
        .with_config("{\"k\":1}".to_string());
    assert_eq!(node.config, "{\"k\":1}");
    assert_eq!(node.input_port("b").unwrap().name, "b");
    assert!(node.input_port("c").is_none());
    assert_eq!(node.output_port("c").unwrap().direction, PortDirection::Out);
    assert_eq!(Node::new("m", NodeType::Source).config, "null");
    let y = Yarn::new(1, 2, 3, 4).with_label("wire");
    assert_eq!((y.from_node, y.from_port, y.to_node, y.to_port), (1, 2, 3, 4));
    assert_eq!(y.label.as_deref(), Some("wire"));
}
