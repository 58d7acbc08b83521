use neuromitosis::graph::Canvas;
use neuromitosis::node::{Node, NodeType, Port};
use neuromitosis::topology::{compute_layers, validate, TopologyError};

#[test]
fn test_linear_topology() {
    let mut canvas = Canvas::new("linear");

    let a = Node::new("a", NodeType::Source).with_output(Port::output("out"));
    let b = Node::new("b", NodeType::Transform)
        .with_input(Port::input("in"))
        .with_output(Port::output("out"));
    let c = Node::new("c", NodeType::Action).with_input(Port::input("in"));

    let a_id = a.id;
    let a_out = a.outputs[0].id;
    let b_id = b.id;
    let b_in = b.inputs[0].id;
    let b_out = b.outputs[0].id;
    let c_id = c.id;
    let c_in = c.inputs[0].id;

    canvas.add_node(a).unwrap();
    canvas.add_node(b).unwrap();
    canvas.add_node(c).unwrap();
    canvas.connect(a_id, a_out, b_id, b_in).unwrap();
    canvas.connect(b_id, b_out, c_id, c_in).unwrap();

    let layers = compute_layers(&canvas).unwrap();
    assert_eq!(layers.len(), 3);
    assert_eq!(layers[0].len(), 1);
    assert_eq!(layers[1].len(), 1);
    assert_eq!(layers[2].len(), 1);
}

#[test]
fn test_parallel_topology() {
    let mut canvas = Canvas::new("parallel");

    let src = Node::new("src", NodeType::Source)
        .with_output(Port::output("out1"))
        .with_output(Port::output("out2"));
    let t1 = Node::new("t1", NodeType::Transform)
        .with_input(Port::input("in"))
        .with_output(Port::output("out"));
    let t2 = Node::new("t2", NodeType::Transform)
        .with_input(Port::input("in"))
        .with_output(Port::output("out"));
    let sink = Node::new("sink", NodeType::Action)
        .with_input(Port::input("in1"))
        .with_input(Port::input("in2"));

    let src_id = src.id;
    let src_out1 = src.outputs[0].id;
    let src_out2 = src.outputs[1].id;
    let t1_id = t1.id;
    let t1_in = t1.inputs[0].id;
    let t1_out = t1.outputs[0].id;
    let t2_id = t2.id;
    let t2_in = t2.inputs[0].id;
    let t2_out = t2.outputs[0].id;
    let sink_id = sink.id;
    let sink_in1 = sink.inputs[0].id;
    let sink_in2 = sink.inputs[1].id;

    canvas.add_node(src).unwrap();
    canvas.add_node(t1).unwrap();
    canvas.add_node(t2).unwrap();
    canvas.add_node(sink).unwrap();

    canvas.connect(src_id, src_out1, t1_id, t1_in).unwrap();
    canvas.connect(src_id, src_out2, t2_id, t2_in).unwrap();
    canvas.connect(t1_id, t1_out, sink_id, sink_in1).unwrap();
    canvas.connect(t2_id, t2_out, sink_id, sink_in2).unwrap();

    let layers = compute_layers(&canvas).unwrap();
    assert_eq!(layers.len(), 3);
    assert_eq!(layers[0].len(), 1);
    assert_eq!(layers[1].len(), 2);
    assert_eq!(layers[2].len(), 1);
}

#[test]
fn empty_canvas_has_no_layers() {
    let canvas = Canvas::new("empty");
    assert_eq!(compute_layers(&canvas), Err(TopologyError::EmptyCanvas));
    assert_eq!(validate(&canvas), Err(TopologyError::EmptyCanvas));
}

#[test]
fn layers_partition_the_nodes() {
    let mut canvas = Canvas::new("diamond");
    let ids: Vec<u128> = ["a", "b", "c", "d", "e"]
        .iter()
        .map(|n| canvas.add_node(Node::new(n, NodeType::Transform)).unwrap())
        .collect();
    canvas.connect(ids[0], 0, ids[1], 0).unwrap();
    canvas.connect(ids[0], 0, ids[2], 0).unwrap();
    canvas.connect(ids[1], 0, ids[3], 0).unwrap();
    canvas.connect(ids[2], 0, ids[3], 0).unwrap();
    let layers = compute_layers(&canvas).unwrap();
    let total: usize = layers.iter().map(|l| l.len()).sum();
    assert_eq!(total, canvas.node_count());
    let mut all: Vec<u128> = layers.concat();
    all.sort();
    let mut expected = ids.clone();
    expected.sort();
    assert_eq!(all, expected);
    assert_eq!(layers, vec![vec![ids[0], ids[4]], vec![ids[1], ids[2]], vec![ids[3]]]);
    assert_eq!(validate(&canvas), Ok(()));
}

#[test]
fn cycle_is_found_by_layering() {
    // A cycle written directly into the yarn list, past `connect`.
    let mut canvas = Canvas::new("cyclic");
    let a = canvas.add_node(Node::new("a", NodeType::Source)).unwrap();
    let b = canvas.add_node(Node::new("b", NodeType::Transform)).unwrap();
    let c = canvas.add_node(Node::new("c", NodeType::Transform)).unwrap();
    canvas.connect(a, 0, b, 0).unwrap();
    canvas.connect(b, 0, c, 0).unwrap();
    canvas.yarns.push(neuromitosis::yarn::Yarn::new(c, 0, b, 0));
    assert_eq!(
        compute_layers(&canvas),
        Err(TopologyError::CycleDetected { processed: 1, total: 3 })
    );
    assert!(validate(&canvas).is_err());
}

#[test]
fn self_edge_is_found_by_layering() {
    let mut canvas = Canvas::new("self");
    let a = canvas.add_node(Node::new("a", NodeType::Source)).unwrap();
    canvas.yarns.push(neuromitosis::yarn::Yarn::new(a, 0, a, 0));
    assert_eq!(
        compute_layers(&canvas),
        Err(TopologyError::CycleDetected { processed: 0, total: 1 })
    );
}
