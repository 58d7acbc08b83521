use neuromitosis::graph::Canvas;
use neuromitosis::node::{Node, NodeType, Port};
use neuromitosis::runtime::{begin_weave, gather_inputs, WeaveResult};
use neuromitosis::topology::TopologyError;

/// Runs a weave layer by layer with an executor that hands the inputs back
/// as a JSON object, failing on `fail`. Returns the result and the inputs
/// gathered for each node.
fn run(canvas: &Canvas, fail: Option<u128>) -> (WeaveResult, Vec<(u128, Vec<(String, String)>)>) {
    let mut w = begin_weave(canvas).unwrap();
    let mut seen = Vec::new();
    let layers = w.layers.clone();
    for layer in &layers {
        let mut results = Vec::new();
        for &id in layer {
            let node = canvas.find_node(id).unwrap();
            let inputs = gather_inputs(canvas, node, &w.outputs);
            let outcome = if Some(id) == fail {
                Err("tool failed".to_string())
            } else {
                let mut map = serde_json::Map::new();
                for (k, v) in &inputs {
                    map.insert(k.clone(), serde_json::from_str(v).unwrap());
                }
                Ok(serde_json::Value::Object(map).to_string())
            };
            seen.push((id, inputs));
            results.push((id, node.name.clone(), outcome));
        }
        for (id, name, outcome) in results {
            w.record(id, name, outcome, 0);
        }
    }
    w.finish(0);
    (w, seen)
}

fn diamond() -> (Canvas, Vec<u128>) {
    let mut canvas = Canvas::new("diamond");
    let src = Node::new("source", NodeType::Source)
        .with_output(Port::output("out1"))
        .with_output(Port::output("out2"));
    let t1 = Node::new("t1", NodeType::Transform)
        .with_input(Port::input("in"))
        .with_output(Port::output("out"));
    let t2 = Node::new("t2", NodeType::Transform)
        .with_input(Port::input("in"))
        .with_output(Port::output("out"));
    let sink = Node::new("action", NodeType::Action)
        .with_input(Port::input("in1"))
        .with_input(Port::input("in2"));
    let ids = vec![src.id, t1.id, t2.id, sink.id];
    let (o1, o2) = (src.outputs[0].id, src.outputs[1].id);
    let (t1_in, t1_out, t2_in, t2_out) = (t1.inputs[0].id, t1.outputs[0].id, t2.inputs[0].id, t2.outputs[0].id);
    let (s_in1, s_in2) = (sink.inputs[0].id, sink.inputs[1].id);
    canvas.add_node(src).unwrap();
    canvas.add_node(t1).unwrap();
    canvas.add_node(t2).unwrap();
    canvas.add_node(sink).unwrap();
    canvas.connect(ids[0], o1, ids[1], t1_in).unwrap();
    canvas.connect(ids[0], o2, ids[2], t2_in).unwrap();
    canvas.connect(ids[1], t1_out, ids[3], s_in1).unwrap();
    canvas.connect(ids[2], t2_out, ids[3], s_in2).unwrap();
    (canvas, ids)
}

#[test]
fn test_weave_linear() {
    let mut canvas = Canvas::new("test_weave");
    let a = Node::new("source", NodeType::Source).with_output(Port::output("data"));
    let b = Node::new("transform", NodeType::Transform)
        .with_input(Port::input("data"))
        .with_output(Port::output("result"));
    let c = Node::new("action", NodeType::Action).with_input(Port::input("result"));

    let a_id = a.id;
    let a_out = a.outputs[0].id;
    let b_id = b.id;
    let b_in = b.inputs[0].id;
    let b_out = b.outputs[0].id;
    let c_id = c.id;
    let c_in = c.inputs[0].id;

    canvas.add_node(a).unwrap();
    canvas.add_node(b).unwrap();
    canvas.add_node(c).unwrap();
    canvas.connect(a_id, a_out, b_id, b_in).unwrap();
    canvas.connect(b_id, b_out, c_id, c_in).unwrap();

    let (result, _) = run(&canvas, None);

    assert!(result.success);
    assert_eq!(result.layers.len(), 3);
    assert_eq!(result.outputs.len(), 3);
}

#[test]
fn weave_fan_out_and_in() {
    let (canvas, ids) = diamond();
    let (result, seen) = run(&canvas, None);
    assert_eq!(result.layers.len(), 3);
    assert_eq!(result.layers[0], vec![ids[0]]);
    let mut middle = result.layers[1].clone();
    middle.sort();
    let mut expected = vec![ids[1], ids[2]];
    expected.sort();
    assert_eq!(middle, expected);
    assert_eq!(result.layers[2], vec![ids[3]]);
    assert!(result.success);
    assert!(result.errors.is_empty());
    assert_eq!(result.outputs.len(), 4);
    let sink_inputs = &seen.iter().find(|(id, _)| *id == ids[3]).unwrap().1;
    let keys: Vec<&str> = sink_inputs.iter().map(|(k, _)| k.as_str()).collect();
    assert_eq!(keys, vec!["in1", "in2"]);
}

#[test]
fn weave_goes_on_after_a_failure() {
    let (canvas, ids) = diamond();
    let (result, seen) = run(&canvas, Some(ids[1]));
    assert!(!result.success);
    assert_eq!(result.errors, vec!["t1: tool failed".to_string()]);
    let out = |id: u128| result.outputs.iter().find(|o| o.node_id == id).unwrap();
    assert!(out(ids[0]).output.is_some());
    assert!(out(ids[2]).output.is_some());
    assert!(out(ids[1]).output.is_none());
    assert_eq!(out(ids[1]).node_name, "t1");
    let sink_inputs = &seen.iter().find(|(id, _)| *id == ids[3]).unwrap().1;
    let keys: Vec<&str> = sink_inputs.iter().map(|(k, _)| k.as_str()).collect();
    assert_eq!(keys, vec!["in2"]);
}

#[test]
fn weave_of_empty_canvas_fails_first() {
    let canvas = Canvas::new("empty");
    assert!(matches!(begin_weave(&canvas), Err(TopologyError::EmptyCanvas)));
}

#[test]
fn unknown_port_is_keyed_input() {
    let mut canvas = Canvas::new("keys");
    let a = canvas.add_node(Node::new("a", NodeType::Source)).unwrap();
    let b = canvas.add_node(Node::new("b", NodeType::Action)).unwrap();
    canvas.connect(a, 0, b, 99).unwrap();
    let (_, seen) = run(&canvas, None);
    let b_inputs = &seen.iter().find(|(id, _)| *id == b).unwrap().1;
    assert_eq!(b_inputs.len(), 1);
    assert_eq!(b_inputs[0].0, "input");
    assert_eq!(b_inputs[0].1, "{}");
}
