use neuromitosis::codec::{burn, checksum_matches, make_track, rip, CodecError, Track, FORMAT_VERSION};
use neuromitosis::graph::Canvas;
use neuromitosis::node::{Node, NodeType, Port};

/// A stand-in for the serialized track list: names and identities, in order.
fn track_bytes(tracks: &[Track]) -> Vec<u8> {
    let mut text = String::new();
    for t in tracks {
        text.push_str(&t.name);
        for n in &t.nodes {
            text.push_str(&format!(";{}", n.id));
        }
        for y in &t.yarns {
            text.push_str(&format!(";{}", y.id));
        }
    }
    text.into_bytes()
}

fn sample() -> Canvas {
    let mut canvas = Canvas::new("test_skill");
    let a = Node::new("src", NodeType::Source).with_output(Port::output("out"));
    let b = Node::new("act", NodeType::Action).with_input(Port::input("in"));
    let a_id = a.id;
    let a_out = a.outputs[0].id;
    let b_id = b.id;
    let b_in = b.inputs[0].id;
    canvas.add_node(a).unwrap();
    canvas.add_node(b).unwrap();
    canvas.connect(a_id, a_out, b_id, b_in).unwrap();
    canvas
}

#[test]
fn test_burn_and_rip() {
    let canvas = sample();

    let bytes = track_bytes(&[make_track(&canvas)]);
    let disc = burn(&canvas, "test", "0.1.0", &bytes);
    assert_eq!(disc.metadata.name, "test");
    assert!(!disc.checksum.is_empty());

    let restored = rip(&disc).unwrap();
    assert_eq!(restored.node_count(), 2);
    assert_eq!(restored.yarn_count(), 1);
}

#[test]
fn round_trip_keeps_identities() {
    let canvas = sample();
    let disc = burn(&canvas, "pkg", "1.2.3", &track_bytes(&[make_track(&canvas)]));
    assert_eq!(disc.metadata.format_version, FORMAT_VERSION);
    assert_eq!(disc.metadata.version, "1.2.3");
    let restored = rip(&disc).unwrap();
    let ids = |c: &Canvas| c.nodes.iter().map(|n| n.id).collect::<Vec<_>>();
    let yarn_ids = |c: &Canvas| c.yarns.iter().map(|y| y.id).collect::<Vec<_>>();
    assert_eq!(ids(&restored), ids(&canvas));
    assert_eq!(yarn_ids(&restored), yarn_ids(&canvas));
    assert_eq!(restored.name, "test_skill");
}

#[test]
fn checksum_is_stable_and_hex() {
    let canvas = sample();
    let b1 = track_bytes(&[make_track(&canvas)]);
    let b2 = track_bytes(&[make_track(&canvas)]);
    assert_eq!(b1, b2);
    let d1 = burn(&canvas, "pkg", "1", &b1);
    let d2 = burn(&canvas, "pkg", "1", &b2);
    assert_eq!(track_bytes(&d1.tracks), b1);
    assert_eq!(d1.checksum, d2.checksum);
    assert_eq!(d1.checksum.len(), 64);
    assert!(d1.checksum.chars().all(|c| c.is_ascii_digit() || ('a'..='f').contains(&c)));
    assert!(checksum_matches(&d1, &b1));
    assert!(!checksum_matches(&d1, &b"other".to_vec()));
}

#[test]
fn checksum_of_known_bytes() {
    let canvas = Canvas::new("x");
    let d = burn(&canvas, "pkg", "1", &b"abc".to_vec());
    assert_eq!(d.checksum, "ba7816bf8f01cfea414140de5dae2223b00361a396177a9cb410ff61f20015ad");
}

#[test]
fn disc_without_tracks_is_refused() {
    let canvas = sample();
    let mut disc = burn(&canvas, "pkg", "1", &Vec::new());
    disc.tracks.clear();
    assert!(matches!(rip(&disc), Err(CodecError::NoTracks)));
}

#[test]
fn later_duplicate_replaces_earlier() {
    let canvas = sample();
    let mut disc = burn(&canvas, "pkg", "1", &Vec::new());
    let copy = disc.tracks[0].nodes[0].duplicate().with_config("{\"v\":2}".to_string());
    disc.tracks[0].nodes.push(copy);
    let restored = rip(&disc).unwrap();
    assert_eq!(restored.node_count(), 2);
    assert_eq!(restored.nodes[0].config, "{\"v\":2}");
    assert_eq!(restored.nodes[0].name, "src");
    assert_eq!(restored.nodes[0].outputs.len(), 1);
    assert_eq!(restored.nodes[1].name, "act");
}
