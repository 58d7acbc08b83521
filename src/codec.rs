//! The portable package ("disc"): one or more tracks, each a graph, with a
//! header and a checksum over the serialized track list.
//!
//! Packing is `burn`, given the serialized form of the track list that
//! `make_track` describes; unpacking is `rip`, which restores the first track.
use vstd::prelude::*;
use crate::graph::{Canvas, has_id, ids_of, ids_unique};
use crate::node::Node;
use crate::yarn::{Yarn, duplicate_yarns};

verus! {

/// Version of the package layout.
pub const FORMAT_VERSION: &'static str = "0.1.0";

/// An access a track needs from a service.
#[derive(Debug)]
pub struct AuthRequirement {
    pub service: String,
    pub scopes: Vec<String>,
}

/// One graph of a package.
#[derive(Debug)]
pub struct Track {
    pub name: String,
    pub description: Option<String>,
    pub nodes: Vec<Node>,
    pub yarns: Vec<Yarn>,
    pub auth_requirements: Vec<AuthRequirement>,
}

/// The header of a package.
#[derive(Debug)]
pub struct DiscMetadata {
    pub name: String,
    pub version: String,
    pub author: Option<String>,
    pub description: Option<String>,
    /// Creation time, in seconds since the Unix epoch (UTC).
    pub created_at: i64,
    pub format_version: String,
}

/// A portable package of tracks.
#[derive(Debug)]
pub struct Disc {
    pub metadata: DiscMetadata,
    pub tracks: Vec<Track>,
    /// Lowercase hex SHA-256 of the serialized track list.
    pub checksum: String,
}

/// Why a disc could not be unpacked.
#[derive(Debug, Clone, Copy, PartialEq, Eq, Structural)]
pub enum CodecError {
    NoTracks,
}

/// The SHA-256 digest of `b`, in lowercase hex.
pub uninterp spec fn sha256_hex(b: Seq<u8>) -> Seq<char>;

/// A lowercase hexadecimal digit.
pub open spec fn is_lower_hex(c: char) -> bool {
    ('0' <= c && c <= '9') || ('a' <= c && c <= 'f')
}

/// Relies on sha2::Sha256 (a 32-byte digest) and the lower-hex formatting of
/// generic_array, which writes two digits from "0123456789abcdef" per byte.
#[verifier::external_body]
fn digest_hex(b: &Vec<u8>) -> (r: String)
    ensures
        r@ == sha256_hex(b@),
        r@.len() == 64,
        forall|i: int| 0 <= i < r@.len() ==> is_lower_hex(#[trigger] r@[i]),
{
    let mut h = <sha2::Sha256 as sha2::Digest>::new();
    sha2::Digest::update(&mut h, b.as_slice());
    format!("{:x}", sha2::Digest::finalize(h))
}

/// Relies on chrono::Utc::now: the current time in whole seconds.
#[verifier::external_body]
fn now_seconds() -> (r: i64) {
    chrono::Utc::now().timestamp()
}

/// Two nodes agree field by field.
pub open spec fn same_node(a: Node, b: Node) -> bool {
    &&& a.id == b.id && a.name == b.name && a.node_type == b.node_type
    &&& a.inputs@ == b.inputs@ && a.outputs@ == b.outputs@
    &&& a.config == b.config && a.tool_slug == b.tool_slug
}

fn duplicate_nodes(nodes: &Vec<Node>) -> (r: Vec<Node>)
    ensures
        r@.len() == nodes@.len(),
        forall|i: int| 0 <= i < r@.len() ==> same_node(#[trigger] r@[i], nodes@[i]),
        ids_of(r@) == ids_of(nodes@),
{
    let mut out: Vec<Node> = Vec::new();
    let mut i: usize = 0;
    while i < nodes.len()
        invariant
            i <= nodes@.len(),
            out@.len() == i,
            forall|j: int| 0 <= j < i ==> same_node(#[trigger] out@[j], nodes@[j]),
        decreases nodes@.len() - i,
    {
        out.push(nodes[i].duplicate());
        i = i + 1;
    }
    assert(ids_of(out@) =~= ids_of(nodes@));
    out
}

/// `t` holds the name, description, nodes and yarns of `c`, and no auth requirement.
pub open spec fn track_of(t: Track, c: Canvas) -> bool {
    &&& t.name == c.name && t.description == c.description
    &&& t.nodes@.len() == c.nodes@.len()
    &&& forall|i: int| 0 <= i < t.nodes@.len() ==> same_node(#[trigger] t.nodes@[i], c.nodes@[i])
    &&& ids_of(t.nodes@) == ids_of(c.nodes@)
    &&& t.yarns@ == c.yarns@
    &&& t.auth_requirements@.len() == 0
}

/// `d` packs `c` alone under the given name and version, with the
/// checksum of `tracks_bytes`, the serialized track list.
pub open spec fn packs(d: Disc, c: Canvas, name: Seq<char>, version: Seq<char>, tracks_bytes: Seq<u8>) -> bool {
    &&& d.checksum@ == sha256_hex(tracks_bytes)
    &&& d.checksum@.len() == 64
    &&& forall|i: int| 0 <= i < d.checksum@.len() ==> is_lower_hex(#[trigger] d.checksum@[i])
    &&& d.tracks@.len() == 1
    &&& track_of(d.tracks@[0], c)
    &&& d.metadata.name@ == name && d.metadata.version@ == version
    &&& d.metadata.author.is_none() && d.metadata.description == c.description
    &&& d.metadata.format_version@ == FORMAT_VERSION@
}

/// A track holding the canvas.
pub fn make_track(canvas: &Canvas) -> (r: Track)
    ensures
        track_of(r, *canvas),
{
    let description = match &canvas.description {
        Some(d) => Some(d.clone()),
        None => None,
    };
    Track {
        name: canvas.name.clone(),
        description,
        nodes: duplicate_nodes(&canvas.nodes),
        yarns: duplicate_yarns(&canvas.yarns),
        auth_requirements: Vec::new(),
    }
}

/// Packs the canvas as a single-track disc stamped with the current time,
/// with the checksum of `tracks_bytes`, the serialized form of the track
/// list (`[make_track(canvas)]`).
pub fn burn(canvas: &Canvas, name: &str, version: &str, tracks_bytes: &Vec<u8>) -> (r: Disc)
    ensures
        packs(r, *canvas, name@, version@, tracks_bytes@),
{
    let description = match &canvas.description {
        Some(d) => Some(d.clone()),
        None => None,
    };
    let metadata = DiscMetadata {
        name: name.to_owned(),
        version: version.to_owned(),
        author: None,
        description,
        created_at: now_seconds(),
        format_version: FORMAT_VERSION.to_owned(),
    };
    let mut tracks: Vec<Track> = Vec::new();
    tracks.push(make_track(canvas));
    Disc { metadata, tracks, checksum: digest_hex(tracks_bytes) }
}

/// Whether `d` holds `checksum` over `tracks_bytes`.
pub fn checksum_matches(d: &Disc, tracks_bytes: &Vec<u8>) -> (r: bool)
    ensures
        r == (d.checksum@ == sha256_hex(tracks_bytes@)),
{
    let h = digest_hex(tracks_bytes);
    h == d.checksum
}

/// Node `j` of `nodes` is the last one with identity `id`.
pub open spec fn last_with(nodes: Seq<Node>, j: int, id: u128) -> bool {
    &&& 0 <= j < nodes.len() && nodes[j].id == id
    &&& forall|j2: int| j < j2 < nodes.len() ==> nodes[j2].id != id
}

/// `c` restores track `t`: its name, its yarns, and each identity of its
/// nodes once, holding the last node of the track with that identity.
pub open spec fn restores(c: Canvas, t: Track) -> bool {
    &&& c.name == t.name && c.description.is_none()
    &&& c.yarns@ == t.yarns@
    &&& ids_unique(c.nodes@)
    &&& forall|id: u128| has_id(c.nodes@, id) == has_id(t.nodes@, id)
    &&& forall|p: int| 0 <= p < c.nodes@.len() ==> exists|j: int|
        last_with(t.nodes@, j, c.nodes@[p].id) && same_node(#[trigger] c.nodes@[p], t.nodes@[j])
    &&& ids_unique(t.nodes@) ==> ids_of(c.nodes@) == ids_of(t.nodes@)
}

/// Index of the node with identity `id`, if any.
fn index_of(nodes: &Vec<Node>, id: u128) -> (r: Option<usize>)
    ensures
        match r {
            Some(i) => i < nodes@.len() && nodes@[i as int].id == id,
            None => !has_id(nodes@, id),
        },
{
    let mut i: usize = 0;
    while i < nodes.len()
        invariant
            i <= nodes@.len(),
            forall|j: int| 0 <= j < i ==> nodes@[j].id != id,
        decreases nodes@.len() - i,
    {
        if nodes[i].id == id {
            return Some(i);
        }
        i = i + 1;
    }
    None
}

/// Restores the first track of the disc as a canvas; the other tracks are
/// not read.
pub fn rip(disc: &Disc) -> (r: Result<Canvas, CodecError>)
    ensures
        disc.tracks@.len() == 0 <==> r == Err::<Canvas, CodecError>(CodecError::NoTracks),
        r matches Ok(c) ==> restores(c, disc.tracks@[0]),
{
    if disc.tracks.len() == 0 {
        return Err(CodecError::NoTracks);
    }
    let track = &disc.tracks[0];
    let ghost tn = track.nodes@;
    let mut nodes: Vec<Node> = Vec::new();
    let mut i: usize = 0;
    while i < track.nodes.len()
        invariant
            tn == track.nodes@,
            i <= tn.len(),
            ids_unique(nodes@),
            forall|id: u128| has_id(nodes@, id) == has_id(tn.subrange(0, i as int), id),
            ids_unique(tn) ==> ids_of(nodes@) == ids_of(tn.subrange(0, i as int)),
            forall|p: int| 0 <= p < nodes@.len() ==> exists|j: int|
                last_with(tn.subrange(0, i as int), j, nodes@[p].id) && same_node(#[trigger] nodes@[p], tn[j]),
        decreases tn.len() - i,
    {
        let node = track.nodes[i].duplicate();
        let ghost pre = tn.subrange(0, i as int);
        let ghost next = tn.subrange(0, i + 1);
        assert(next =~= pre.push(tn[i as int]));
        let ghost old_nodes = nodes@;
        match index_of(&nodes, node.id) {
            Some(j) => {
                nodes.set(j, node);
                proof {
                    assert forall|id: u128| has_id(nodes@, id) == has_id(next, id) by {
                        if has_id(old_nodes, id) {
                            let k = choose|k: int| 0 <= k < old_nodes.len() && old_nodes[k].id == id;
                            assert(nodes@[k].id == id);
                        }
                        if has_id(nodes@, id) {
                            let k = choose|k: int| 0 <= k < nodes@.len() && nodes@[k].id == id;
                            assert(old_nodes[k].id == id);
                        }
                        if has_id(pre, id) {
                            let k = choose|k: int| 0 <= k < pre.len() && pre[k].id == id;
                            assert(next[k].id == id);
                        }
                        if has_id(next, id) {
                            let k = choose|k: int| 0 <= k < next.len() && next[k].id == id;
                            if k < pre.len() {
                                assert(pre[k].id == id);
                            }
                        }
                    }
                    assert forall|p: int| 0 <= p < nodes@.len() implies exists|j2: int|
                        last_with(next, j2, nodes@[p].id) && same_node(#[trigger] nodes@[p], tn[j2]) by {
                        if p == j as int {
                            assert(last_with(next, i as int, nodes@[p].id));
                        } else {
                            assert(nodes@[p] == old_nodes[p]);
                            let j2 = choose|j2: int| last_with(pre, j2, old_nodes[p].id) && same_node(old_nodes[p], tn[j2]);
                            assert(old_nodes[p].id != old_nodes[j as int].id);
                            assert(last_with(next, j2, nodes@[p].id));
                        }
                    }
                    if ids_unique(tn) {
                        assert(old_nodes[j as int].id == tn[i as int].id);
                        assert(has_id(old_nodes, tn[i as int].id));
                        assert(has_id(pre, tn[i as int].id));
                        let k = choose|k: int| 0 <= k < pre.len() && pre[k].id == tn[i as int].id;
                        assert(tn[k].id == tn[i as int].id);
                    }
                }
            },
            None => {
                nodes.push(node);
                proof {
                    assert forall|id: u128| has_id(nodes@, id) == has_id(next, id) by {
                        if id == tn[i as int].id {
                            assert(nodes@[old_nodes.len() as int].id == id);
                            assert(next[i as int].id == id);
                        }
                        if has_id(old_nodes, id) {
                            let k = choose|k: int| 0 <= k < old_nodes.len() && old_nodes[k].id == id;
                            assert(nodes@[k].id == id);
                        }
                        if has_id(nodes@, id) {
                            let k = choose|k: int| 0 <= k < nodes@.len() && nodes@[k].id == id;
                            if k < old_nodes.len() {
                                assert(old_nodes[k].id == id);
                            }
                        }
                        if has_id(pre, id) {
                            let k = choose|k: int| 0 <= k < pre.len() && pre[k].id == id;
                            assert(next[k].id == id);
                        }
                        if has_id(next, id) {
                            let k = choose|k: int| 0 <= k < next.len() && next[k].id == id;
                            if k < pre.len() {
                                assert(pre[k].id == id);
                            }
                        }
                    }
                    assert(ids_unique(nodes@));
                    assert forall|p: int| 0 <= p < nodes@.len() implies exists|j2: int|
                        last_with(next, j2, nodes@[p].id) && same_node(#[trigger] nodes@[p], tn[j2]) by {
                        if p == old_nodes.len() {
                            assert(last_with(next, i as int, nodes@[p].id));
                        } else {
                            assert(nodes@[p] == old_nodes[p]);
                            let j2 = choose|j2: int| last_with(pre, j2, old_nodes[p].id) && same_node(old_nodes[p], tn[j2]);
                            assert(has_id(old_nodes, old_nodes[p].id));
                            assert(old_nodes[p].id != tn[i as int].id);
                            assert(last_with(next, j2, nodes@[p].id));
                        }
                    }
                    if ids_unique(tn) {
                        assert(ids_of(old_nodes) == ids_of(pre));
                        assert(ids_of(nodes@) =~= ids_of(old_nodes).push(tn[i as int].id));
                        assert(ids_of(next) =~= ids_of(pre).push(tn[i as int].id));
                    }
                }
            },
        }
        i = i + 1;
    }
    assert(tn.subrange(0, tn.len() as int) =~= tn);
    let c = Canvas { nodes, yarns: duplicate_yarns(&track.yarns), name: track.name.clone(), description: None };
    Ok(c)
}

/// Unpacking a packed canvas with unique identities gives back its node
/// identities, in order, and its yarns.
pub proof fn lemma_round_trip(c: Canvas, d: Disc, name: Seq<char>, version: Seq<char>, bytes: Seq<u8>, r: Canvas)
    requires
        ids_unique(c.nodes@),
        packs(d, c, name, version, bytes),
        restores(r, d.tracks@[0]),
    ensures
        ids_of(r.nodes@) == ids_of(c.nodes@),
        r.nodes@.len() == c.nodes@.len(),
        r.yarns@ == c.yarns@,
        r.name == c.name,
{
    let t = d.tracks@[0];
    assert forall|i: int, j: int| 0 <= i < t.nodes@.len() && 0 <= j < t.nodes@.len() && i != j implies t.nodes@[i].id
        != t.nodes@[j].id by {
        assert(ids_of(t.nodes@)[i] == ids_of(c.nodes@)[i]);
        assert(ids_of(t.nodes@)[j] == ids_of(c.nodes@)[j]);
    }
    assert(ids_of(r.nodes@).len() == r.nodes@.len());
}

/// Packing one canvas twice gives the same tracks and header, but for the
/// time stamp, and over the same serialized tracks the same checksum.
pub proof fn lemma_checksum_stable(
    c: Canvas,
    name: Seq<char>,
    version: Seq<char>,
    d1: Disc,
    d2: Disc,
    bytes1: Seq<u8>,
    bytes2: Seq<u8>,
)
    requires
        packs(d1, c, name, version, bytes1),
        packs(d2, c, name, version, bytes2),
        bytes1 == bytes2,
    ensures
        d1.checksum@ == d2.checksum@,
        d1.tracks@.len() == d2.tracks@.len(),
        ids_of(d1.tracks@[0].nodes@) == ids_of(d2.tracks@[0].nodes@),
        forall|i: int| 0 <= i < d1.tracks@[0].nodes@.len() ==> same_node(#[trigger] d1.tracks@[0].nodes@[i], d2.tracks@[0].nodes@[i]),
        d1.tracks@[0].yarns@ == d2.tracks@[0].yarns@,
        d1.tracks@[0].name == d2.tracks@[0].name,
        d1.metadata.name@ == d2.metadata.name@ && d1.metadata.version@ == d2.metadata.version@,
{
    assert forall|i: int| 0 <= i < d1.tracks@[0].nodes@.len() implies same_node(#[trigger] d1.tracks@[0].nodes@[i], d2.tracks@[0].nodes@[i]) by {
        assert(same_node(d1.tracks@[0].nodes@[i], c.nodes@[i]));
        assert(same_node(d2.tracks@[0].nodes@[i], c.nodes@[i]));
    }
}

} // verus!
