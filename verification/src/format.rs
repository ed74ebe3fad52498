//! The file format: a fixed header followed by tagged sections.
//!
//! All numbers are little-endian. The header takes 64 bytes: the magic
//! string, the version, the dimension, the numbers of nodes and edges, the
//! time of writing, the feature flags, and padding. Each section is a tag
//! of one byte, the length of its payload in eight bytes, and the payload.
//! A reader passes over sections whose tag it does not know.

use vstd::prelude::*;
use vstd::slice::slice_subrange;
use vstd::utf8::{decode_utf8, encode_utf8, valid_utf8};
use crate::graph::{add_edge_outcome, can_restore, event_views, restored, GraphView, MemoryGraph};
use crate::index::doc_lengths::{encoded, encoded_entries, lemma_encoded_entries};
use crate::text::utf8_text;
use crate::types::{AmemError, CognitiveEvent, Edge, EdgeType, EventType, EventView, FormatError};
use crate::wire::{le32, le64, lemma_le, lemma_window, put_bytes, put_u32, put_u64, put_u8, read_u32,
    read_u64, u32_at, u64_at};

verus! {

/// The version that this library writes and reads.
pub const FORMAT_VERSION: u32 = 1;

/// The length of the header.
pub const HEADER_LEN: usize = 64;

/// The flag of a file with a term index section.
pub const HAS_TERM_INDEX: u32 = 1;

/// The flag of a file with a document length section.
pub const HAS_DOC_LENGTHS: u32 = 2;

/// The tag of the section of nodes.
pub const TAG_NODES: u8 = 1;

/// The tag of the section of edges.
pub const TAG_EDGES: u8 = 2;

/// The tag of the section of the index by kind.
pub const TAG_TYPE_INDEX: u8 = 3;

/// The tag of the section of the index by session.
pub const TAG_SESSION_INDEX: u8 = 4;

/// The tag of the section of the term index.
pub const TAG_TERM_INDEX: u8 = 5;

/// The tag of the section of document lengths.
pub const TAG_DOC_LENGTHS: u8 = 6;

/// The length of an edge record.
pub const EDGE_LEN: usize = 29;

/// The length of the fixed part of a node record.
pub const NODE_HEAD_LEN: usize = 41;

/// The header of a file.
#[derive(Clone, Copy, Debug, PartialEq, Eq, Structural)]
pub struct FileHeader {
    pub version: u32,
    pub dimension: u32,
    pub node_count: u64,
    pub edge_count: u64,
    /// Microseconds since the epoch.
    pub created_at: u64,
    /// The feature flags; bits without a meaning are zero.
    pub flags: u32,
}

/// The magic string.
pub open spec fn magic() -> Seq<u8> {
    seq![0x41u8, 0x4Du8, 0x45u8, 0x4Du8]
}

/// `n` zero bytes.
pub open spec fn zeros(n: nat) -> Seq<u8> {
    Seq::new(n, |i: int| 0u8)
}

/// The bytes of a header.
pub open spec fn header_bytes(h: FileHeader) -> Seq<u8> {
    magic() + le32(h.version) + le32(h.dimension) + le64(h.node_count) + le64(h.edge_count) + le64(
        h.created_at,
    ) + le32(h.flags) + zeros(24)
}

/// The header that stands at the beginning of the data, whatever its magic
/// string and version.
pub open spec fn header_fields(data: Seq<u8>) -> FileHeader {
    FileHeader {
        version: u32_at(data, 4),
        dimension: u32_at(data, 8),
        node_count: u64_at(data, 12),
        edge_count: u64_at(data, 20),
        created_at: u64_at(data, 28),
        flags: u32_at(data, 36),
    }
}

/// The header of the data, or what is wrong with it.
pub open spec fn header_of(data: Seq<u8>) -> Result<FileHeader, FormatError> {
    if data.len() < 64 {
        Err(FormatError::TruncatedSection)
    } else if data.subrange(0, 4) != magic() {
        Err(FormatError::UnexpectedMagic)
    } else if u32_at(data, 4) != FORMAT_VERSION {
        Err(FormatError::UnsupportedVersion)
    } else {
        Ok(header_fields(data))
    }
}

/// The bytes of a section.
pub open spec fn section_bytes(tag: u8, payload: Seq<u8>) -> Seq<u8> {
    seq![tag] + le64(payload.len() as u64) + payload
}

/// Whether a section stands at `at`: its tag, its length, and its payload
/// within the data.
pub open spec fn section_fits(data: Seq<u8>, at: int) -> bool {
    0 <= at && at + 9 <= data.len() && at + 9 + u64_at(data, at + 1) <= data.len()
}

/// Where the section at `at` ends.
pub open spec fn section_end(data: Seq<u8>, at: int) -> int {
    at + 9 + u64_at(data, at + 1)
}

/// Whether the data from `at` on is a sequence of sections.
pub open spec fn body_ok(data: Seq<u8>, at: int) -> bool
    decreases data.len() - at,
{
    if at < 0 || at > data.len() {
        false
    } else if at == data.len() {
        true
    } else if !section_fits(data, at) {
        false
    } else {
        body_ok(data, section_end(data, at))
    }
}

/// Where the payload of the first section with the tag starts, from `at`
/// on, if there is such a section.
pub open spec fn find_section(data: Seq<u8>, at: int, tag: u8) -> Option<int>
    decreases data.len() - at,
{
    if at < 0 || at >= data.len() || !section_fits(data, at) {
        None
    } else if data[at] == tag {
        Some(at + 9)
    } else {
        find_section(data, section_end(data, at), tag)
    }
}

/// The bytes of an edge.
pub open spec fn edge_bytes(e: Edge) -> Seq<u8> {
    le64(e.source_id) + le64(e.target_id) + seq![e.edge_type.code()] + le32(e.weight) + le64(
        e.created_at,
    )
}

/// The edge whose record stands at `at`, if the code of its type is one.
pub open spec fn edge_at(data: Seq<u8>, at: int) -> Option<Edge> {
    match EdgeType::of_code(data[at + 16]) {
        Some(t) => Some(
            Edge {
                source_id: u64_at(data, at),
                target_id: u64_at(data, at + 8),
                edge_type: t,
                weight: u32_at(data, at + 17),
                created_at: u64_at(data, at + 21),
            },
        ),
        None => None,
    }
}

/// The bytes of a sequence of edges.
pub open spec fn edges_bytes(edges: Seq<Edge>) -> Seq<u8>
    decreases edges.len(),
{
    if edges.len() == 0 {
        Seq::empty()
    } else {
        edges_bytes(edges.drop_last()) + edge_bytes(edges.last())
    }
}

/// The edges whose records fill the payload of `len` bytes at `start`, if
/// the payload is a whole number of records with types that are.
pub open spec fn edges_in(data: Seq<u8>, start: int, len: int) -> Option<Seq<Edge>> {
    if len % 29 != 0 {
        None
    } else if exists|k: int| 0 <= k < len / 29 && (#[trigger] edge_at(data, start + 29 * k)) is None {
        None
    } else {
        Some(Seq::new((len / 29) as nat, |k: int| edge_at(data, start + 29 * k)->0))
    }
}

/// An edge record has 29 bytes, and where it stands in the data the edge
/// is read back.
pub proof fn lemma_edge_read_back(data: Seq<u8>, at: int, e: Edge)
    requires
        0 <= at,
        at + 29 <= data.len(),
        data.subrange(at, at + 29) == edge_bytes(e),
    ensures
        edge_bytes(e).len() == 29,
        edge_at(data, at) == Some(e),
{
    lemma_le();
    let a = le64(e.source_id);
    let b = le64(e.target_id);
    let c = seq![e.edge_type.code()];
    let d = le32(e.weight);
    let f = le64(e.created_at);
    assert(edge_bytes(e) =~= a + (b + (c + (d + f))));
    lemma_window(data, at, a, b + (c + (d + f)));
    lemma_window(data, at + 8, b, c + (d + f));
    lemma_window(data, at + 16, c, d + f);
    lemma_window(data, at + 17, d, f);
    assert(data.subrange(at + 16, at + 17)[0] == data[at + 16]);
    assert(c[0] == e.edge_type.code());
    e.edge_type.lemma_code_round_trip();
}

/// The records of a sequence of edges take 29 bytes each, and the `i`-th
/// stands at offset `29 * i`.
pub proof fn lemma_edges_bytes(edges: Seq<Edge>)
    ensures
        edges_bytes(edges).len() == 29 * edges.len(),
        forall|i: int|
            0 <= i < edges.len() ==> #[trigger] edges_bytes(edges).subrange(29 * i, 29 * i + 29)
                == edge_bytes(edges[i]),
    decreases edges.len(),
{
    lemma_le();
    if edges.len() > 0 {
        let p = edges.drop_last();
        lemma_edges_bytes(p);
        let full = edges_bytes(edges);
        let last = edge_bytes(edges.last());
        assert(last.len() == 29) by {
            assert(last =~= le64(edges.last().source_id) + le64(edges.last().target_id)
                + seq![edges.last().edge_type.code()] + le32(edges.last().weight) + le64(
                edges.last().created_at,
            ));
        }
        assert forall|i: int| 0 <= i < edges.len() implies #[trigger] full.subrange(
            29 * i,
            29 * i + 29,
        ) == edge_bytes(edges[i]) by {
            if i < p.len() {
                assert(full.subrange(29 * i, 29 * i + 29) =~= edges_bytes(p).subrange(
                    29 * i,
                    29 * i + 29,
                ));
                assert(p[i] == edges[i]);
            } else {
                assert(full.subrange(29 * i, 29 * i + 29) =~= last);
            }
        }
    }
}

/// Where the records of a sequence of edges stand in the data, the edges
/// are read back.
pub proof fn lemma_edges_read_back(data: Seq<u8>, start: int, edges: Seq<Edge>)
    requires
        0 <= start,
        start + 29 * edges.len() <= data.len(),
        data.subrange(start, start + 29 * edges.len()) == edges_bytes(edges),
    ensures
        edges_in(data, start, 29 * edges.len() as int) == Some(edges),
{
    lemma_edges_bytes(edges);
    let len: int = 29 * edges.len() as int;
    assert(len % 29 == 0 && len / 29 == edges.len()) by (nonlinear_arith)
        requires
            len == 29 * edges.len(),
    ;
    assert forall|k: int| 0 <= k < edges.len() implies #[trigger] edge_at(data, start + 29 * k)
        == Some(edges[k]) by {
        assert(data.subrange(start + 29 * k, start + 29 * k + 29) =~= edges_bytes(edges).subrange(
            29 * k,
            29 * k + 29,
        ));
        lemma_edge_read_back(data, start + 29 * k, edges[k]);
    }
    assert(Seq::new((len / 29) as nat, |k: int| edge_at(data, start + 29 * k)->0) =~= edges);
}

/// A header takes 64 bytes, and is read back from data that starts with
/// its bytes.
pub proof fn lemma_header_read_back(data: Seq<u8>, h: FileHeader)
    requires
        data.len() >= 64,
        data.subrange(0, 64) == header_bytes(h),
        h.version == FORMAT_VERSION,
    ensures
        header_bytes(h).len() == 64,
        header_of(data) == Ok::<FileHeader, FormatError>(h),
{
    lemma_le();
    let m = magic();
    let a = le32(h.version);
    let b = le32(h.dimension);
    let c = le64(h.node_count);
    let d = le64(h.edge_count);
    let e = le64(h.created_at);
    let f = le32(h.flags);
    let z = zeros(24);
    assert(header_bytes(h) =~= m + (a + (b + (c + (d + (e + (f + z)))))));
    lemma_window(data, 0, m, a + (b + (c + (d + (e + (f + z))))));
    lemma_window(data, 4, a, b + (c + (d + (e + (f + z)))));
    lemma_window(data, 8, b, c + (d + (e + (f + z))));
    lemma_window(data, 12, c, d + (e + (f + z)));
    lemma_window(data, 20, d, e + (f + z));
    lemma_window(data, 28, e, f + z);
    lemma_window(data, 36, f, z);
}

/// The fixed part of a node record.
pub open spec fn node_head(e: EventView) -> Seq<u8> {
    le64(e.id) + seq![e.event_type.code()] + le32(e.session_id) + le64(e.created_at) + le32(
        e.confidence,
    ) + le32(e.access_count) + le32(e.decay_score) + le32(encode_utf8(e.content).len() as u32)
        + le32(e.feature_vec.len() as u32)
}

/// The bytes of a node: the fixed part, the content in UTF-8, and the
/// components of the vector.
pub open spec fn node_bytes(e: EventView) -> Seq<u8> {
    node_head(e) + encode_utf8(e.content) + encoded_entries(e.feature_vec)
}

/// Whether the lengths of a node fit the fields of its record.
pub open spec fn node_fits(e: EventView) -> bool {
    encode_utf8(e.content).len() <= u32::MAX && e.feature_vec.len() <= u32::MAX
}

/// Where the record at `at` ends, by the lengths that its fixed part
/// names.
pub open spec fn node_end(data: Seq<u8>, at: int) -> int {
    at + 41 + u32_at(data, at + 33) + 4 * u32_at(data, at + 37)
}

/// The node whose record stands at `at` and ends by `end`, if there is a
/// whole record with a kind that is one and a content that is text.
pub open spec fn node_at(data: Seq<u8>, at: int, end: int) -> Option<EventView> {
    if at + 41 > end || node_end(data, at) > end {
        None
    } else {
        let content_len = u32_at(data, at + 33);
        let vec_len = u32_at(data, at + 37);
        let text = data.subrange(at + 41, at + 41 + content_len);
        match EventType::of_code(data[at + 8]) {
            None => None,
            Some(t) => if !valid_utf8(text) {
                None
            } else {
                Some(
                    EventView {
                        id: u64_at(data, at),
                        event_type: t,
                        content: decode_utf8(text),
                        confidence: u32_at(data, at + 21),
                        session_id: u32_at(data, at + 9),
                        created_at: u64_at(data, at + 13),
                        access_count: u32_at(data, at + 25),
                        decay_score: u32_at(data, at + 29),
                        feature_vec: Seq::new(
                            vec_len as nat,
                            |i: int| u32_at(data, at + 41 + content_len + 4 * i),
                        ),
                    },
                )
            },
        }
    }
}

/// The nodes whose records fill the data from `at` to `end`, if it is
/// filled by whole records.
pub open spec fn nodes_in(data: Seq<u8>, at: int, end: int) -> Option<Seq<EventView>>
    decreases end - at,
{
    if at >= end {
        if at == end {
            Some(Seq::empty())
        } else {
            None
        }
    } else {
        match node_at(data, at, end) {
            None => None,
            Some(e) => match nodes_in(data, node_end(data, at), end) {
                None => None,
                Some(rest) => Some(seq![e] + rest),
            },
        }
    }
}

/// The bytes of a sequence of nodes.
pub open spec fn nodes_bytes(nodes: Seq<EventView>) -> Seq<u8>
    decreases nodes.len(),
{
    if nodes.len() == 0 {
        Seq::empty()
    } else {
        node_bytes(nodes[0]) + nodes_bytes(nodes.skip(1))
    }
}

/// The fixed part of a node record has 41 bytes.
pub proof fn lemma_node_head_len(e: EventView)
    ensures
        node_head(e).len() == 41,
        node_bytes(e).len() == 41 + encode_utf8(e.content).len() + 4 * e.feature_vec.len(),
{
    lemma_le();
    lemma_encoded_entries(e.feature_vec);
}

/// Where the record of a node stands in the data, the node is read back.
pub proof fn lemma_node_read_back(data: Seq<u8>, at: int, end: int, e: EventView)
    requires
        0 <= at,
        node_fits(e),
        at + node_bytes(e).len() <= end <= data.len(),
        data.subrange(at, at + node_bytes(e).len()) == node_bytes(e),
    ensures
        node_at(data, at, end) == Some(e),
        node_end(data, at) == at + node_bytes(e).len(),
{
    lemma_le();
    lemma_node_head_len(e);
    lemma_encoded_entries(e.feature_vec);
    let text = encode_utf8(e.content);
    let vec = encoded_entries(e.feature_vec);
    let f1 = le64(e.id);
    let f2 = seq![e.event_type.code()];
    let f3 = le32(e.session_id);
    let f4 = le64(e.created_at);
    let f5 = le32(e.confidence);
    let f6 = le32(e.access_count);
    let f7 = le32(e.decay_score);
    let f8 = le32(text.len() as u32);
    let f9 = le32(e.feature_vec.len() as u32);
    let tail = text + vec;
    assert(node_bytes(e) =~= f1 + (f2 + (f3 + (f4 + (f5 + (f6 + (f7 + (f8 + (f9 + tail)))))))));
    lemma_window(data, at, f1, f2 + (f3 + (f4 + (f5 + (f6 + (f7 + (f8 + (f9 + tail))))))));
    lemma_window(data, at + 8, f2, f3 + (f4 + (f5 + (f6 + (f7 + (f8 + (f9 + tail)))))));
    lemma_window(data, at + 9, f3, f4 + (f5 + (f6 + (f7 + (f8 + (f9 + tail))))));
    lemma_window(data, at + 13, f4, f5 + (f6 + (f7 + (f8 + (f9 + tail)))));
    lemma_window(data, at + 21, f5, f6 + (f7 + (f8 + (f9 + tail))));
    lemma_window(data, at + 25, f6, f7 + (f8 + (f9 + tail)));
    lemma_window(data, at + 29, f7, f8 + (f9 + tail));
    lemma_window(data, at + 33, f8, f9 + tail);
    lemma_window(data, at + 37, f9, tail);
    lemma_window(data, at + 41, text, vec);
    assert(data.subrange(at + 8, at + 9)[0] == data[at + 8]);
    assert(f2[0] == e.event_type.code());
    e.event_type.lemma_code_round_trip();
    vstd::utf8::encode_utf8_valid_utf8(e.content);
    vstd::utf8::encode_utf8_decode_utf8(e.content);
    let content_len = u32_at(data, at + 33);
    let vec_len = u32_at(data, at + 37);
    assert(content_len == text.len());
    assert(vec_len == e.feature_vec.len());
    let got = Seq::new(vec_len as nat, |i: int| u32_at(data, at + 41 + content_len + 4 * i));
    assert forall|i: int| 0 <= i < e.feature_vec.len() implies got[i] == e.feature_vec[i] by {
        let base = at + 41 + text.len();
        assert(data.subrange(base, base + vec.len()) == vec);
        assert(data.subrange(base + 4 * i, base + 4 * i + 4) =~= vec.subrange(4 * i, 4 * i + 4));
        assert(vec.subrange(4 * i, 4 * i + 4) == le32(e.feature_vec[i]));
        assert(got[i] == u32_at(data, base + 4 * i));
    }
    assert(got =~= e.feature_vec);
}

/// The bytes of a sequence of nodes with one more node at the end.
pub proof fn lemma_nodes_bytes_push(nodes: Seq<EventView>, e: EventView)
    ensures
        nodes_bytes(nodes.push(e)) == nodes_bytes(nodes) + node_bytes(e),
    decreases nodes.len(),
{
    let more = nodes.push(e);
    if nodes.len() == 0 {
        assert(more.skip(1) =~= Seq::<EventView>::empty());
        assert(more[0] == e);
        assert(nodes_bytes(more.skip(1)) =~= Seq::<u8>::empty());
        assert(nodes_bytes(more) == node_bytes(more[0]) + nodes_bytes(more.skip(1)));
        assert(nodes_bytes(more) =~= node_bytes(e));
        assert(nodes_bytes(nodes) + node_bytes(e) =~= node_bytes(e));
    } else {
        assert(more.skip(1) =~= nodes.skip(1).push(e));
        lemma_nodes_bytes_push(nodes.skip(1), e);
        assert(more[0] == nodes[0]);
        assert(nodes_bytes(more) =~= nodes_bytes(nodes) + node_bytes(e));
    }
}

/// Where the records of a sequence of nodes stand in the data, up to
/// `end`, the nodes are read back.
pub proof fn lemma_nodes_read_back(data: Seq<u8>, at: int, end: int, nodes: Seq<EventView>)
    requires
        0 <= at,
        end <= data.len(),
        at + nodes_bytes(nodes).len() == end,
        data.subrange(at, end) == nodes_bytes(nodes),
        forall|i: int| 0 <= i < nodes.len() ==> node_fits(#[trigger] nodes[i]),
    ensures
        nodes_in(data, at, end) == Some(nodes),
    decreases nodes.len(),
{
    if nodes.len() == 0 {
    } else {
        let first = nodes[0];
        let rest = nodes.skip(1);
        lemma_node_head_len(first);
        lemma_window(data, at, node_bytes(first), nodes_bytes(rest));
        lemma_node_read_back(data, at, end, first);
        let next = at + node_bytes(first).len();
        assert forall|i: int| 0 <= i < rest.len() implies node_fits(#[trigger] rest[i]) by {
            assert(rest[i] == nodes[i + 1]);
        }
        lemma_nodes_read_back(data, next, end, rest);
        assert(seq![first] + rest =~= nodes);
    }
}

/// The graph that the first `n` nodes make when they are stored one after
/// the other in an empty graph of the dimension, if each can be stored.
pub open spec fn nodes_restore(dimension: usize, nodes: Seq<EventView>, n: int) -> Option<GraphView>
    decreases n,
{
    if n <= 0 {
        Some(GraphView { nodes: Seq::empty(), edges: Seq::empty(), next_id: 0, dimension })
    } else {
        match nodes_restore(dimension, nodes, n - 1) {
            None => None,
            Some(g) => if can_restore(g, nodes[n - 1]) {
                Some(restored(g, nodes[n - 1]))
            } else {
                None
            },
        }
    }
}

/// The graph that the first `n` edges make when they are added one after
/// the other, if each can be added.
pub open spec fn edges_restore(g: GraphView, edges: Seq<Edge>, n: int) -> Option<GraphView>
    decreases n,
{
    if n <= 0 {
        Some(g)
    } else {
        match edges_restore(g, edges, n - 1) {
            None => None,
            Some(h) => if add_edge_outcome(h, edges[n - 1]) is Ok {
                Some(GraphView { edges: h.edges.push(edges[n - 1]), ..h })
            } else {
                None
            },
        }
    }
}

/// The nodes that the data holds: those of its first section of nodes, none
/// if it has no such section.
pub open spec fn nodes_of(data: Seq<u8>) -> Option<Seq<EventView>> {
    match find_section(data, 64, TAG_NODES) {
        None => Some(Seq::empty()),
        Some(start) => nodes_in(data, start, start + u64_at(data, start - 8)),
    }
}

/// The edges that the data holds: those of its first section of edges,
/// none if it has no such section.
pub open spec fn edges_of(data: Seq<u8>) -> Option<Seq<Edge>> {
    match find_section(data, 64, TAG_EDGES) {
        None => Some(Seq::empty()),
        Some(start) => edges_in(data, start, u64_at(data, start - 8) as int),
    }
}

/// The average document length that the data records for its term index:
/// the one in its first section of that kind, zero where it has none or
/// the section is too short to hold one.
pub open spec fn average_of(data: Seq<u8>) -> u32 {
    match find_section(data, 64, TAG_TERM_INDEX) {
        Some(start) => if u64_at(data, start - 8) >= 12 {
            u32_at(data, start + 8)
        } else {
            0
        },
        None => 0,
    }
}

/// The graph that the data holds, or what is wrong with the data.
pub open spec fn decoded(data: Seq<u8>) -> Result<GraphView, FormatError> {
    match header_of(data) {
        Err(e) => Err(e),
        Ok(h) => if !body_ok(data, 64) {
            Err(FormatError::TruncatedSection)
        } else {
            match nodes_of(data) {
                None => Err(FormatError::TruncatedSection),
                Some(nodes) => match edges_of(data) {
                    None => Err(FormatError::TruncatedSection),
                    Some(edges) => if nodes.len() != h.node_count || edges.len() != h.edge_count
                        || h.dimension == 0 {
                        Err(FormatError::ChecksumMismatch)
                    } else {
                        match nodes_restore(h.dimension as usize, nodes, nodes.len() as int) {
                            None => Err(FormatError::ChecksumMismatch),
                            Some(g) => match edges_restore(g, edges, edges.len() as int) {
                                None => Err(FormatError::ChecksumMismatch),
                                Some(full) => Ok(full),
                            },
                        }
                    },
                },
            }
        },
    }
}

/// Reads the header.
pub fn read_header(data: &[u8]) -> (r: Result<FileHeader, FormatError>)
    ensures
        r == header_of(data@),
{
    if data.len() < 64 {
        return Err(FormatError::TruncatedSection);
    }
    if data[0] != 0x41 || data[1] != 0x4D || data[2] != 0x45 || data[3] != 0x4D {
        assert(data@.subrange(0, 4) != magic()) by {
            if data@.subrange(0, 4) == magic() {
                assert(data@.subrange(0, 4)[0] == data@[0]);
                assert(data@.subrange(0, 4)[1] == data@[1]);
                assert(data@.subrange(0, 4)[2] == data@[2]);
                assert(data@.subrange(0, 4)[3] == data@[3]);
            }
        }
        return Err(FormatError::UnexpectedMagic);
    }
    assert(data@.subrange(0, 4) =~= magic());
    let version = read_u32(data, 4);
    if version != FORMAT_VERSION {
        return Err(FormatError::UnsupportedVersion);
    }
    Ok(
        FileHeader {
            version,
            dimension: read_u32(data, 8),
            node_count: read_u64(data, 12),
            edge_count: read_u64(data, 20),
            created_at: read_u64(data, 28),
            flags: read_u32(data, 36),
        },
    )
}

/// Whether the data from `at` on is a sequence of sections.
pub fn check_body(data: &[u8], at: usize) -> (r: bool)
    requires
        at <= data@.len(),
    ensures
        r == body_ok(data@, at as int),
{
    let n = data.len();
    let mut pos = at;
    while pos < n
        invariant
            pos <= n,
            n == data@.len(),
            body_ok(data@, at as int) == body_ok(data@, pos as int),
        decreases n - pos,
    {
        if n - pos < 9 {
            return false;
        }
        let len = read_u64(data, pos + 1);
        if len > (n - pos - 9) as u64 {
            return false;
        }
        pos = pos + 9 + len as usize;
    }
    true
}

/// Where the payload of the first section with the tag starts, and how
/// long it is.
pub fn locate_section(data: &[u8], at: usize, tag: u8) -> (r: Option<(usize, usize)>)
    requires
        at <= data@.len(),
    ensures
        match r {
            Some((start, len)) => find_section(data@, at as int, tag) == Some(start as int) && len
                == u64_at(data@, start - 8) && 9 <= start && start + len <= data@.len(),
            None => find_section(data@, at as int, tag) is None,
        },
{
    let n = data.len();
    let mut pos = at;
    while pos < n
        invariant
            pos <= n,
            n == data@.len(),
            find_section(data@, at as int, tag) == find_section(data@, pos as int, tag),
        decreases n - pos,
    {
        if n - pos < 9 {
            return None;
        }
        let len = read_u64(data, pos + 1);
        if len > (n - pos - 9) as u64 {
            return None;
        }
        if data[pos] == tag {
            return Some((pos + 9, len as usize));
        }
        pos = pos + 9 + len as usize;
    }
    None
}

/// Reads the edge whose record stands at `at`.
fn read_edge(data: &[u8], at: usize) -> (r: Option<Edge>)
    requires
        at + 29 <= data@.len(),
    ensures
        r == edge_at(data@, at as int),
{
    let n = data.len();
    assert(at + 29 <= n);
    match EdgeType::from_u8(data[at + 16]) {
        None => None,
        Some(t) => Some(
            Edge {
                source_id: read_u64(data, at),
                target_id: read_u64(data, at + 8),
                edge_type: t,
                weight: read_u32(data, at + 17),
                created_at: read_u64(data, at + 21),
            },
        ),
    }
}

/// Reads the edges whose records fill a payload.
pub fn read_edges(data: &[u8], start: usize, len: usize) -> (r: Option<Vec<Edge>>)
    requires
        start + len <= data@.len(),
    ensures
        match r {
            Some(edges) => edges_in(data@, start as int, len as int) == Some(edges@),
            None => edges_in(data@, start as int, len as int) is None,
        },
{
    let n = data.len();
    if len % 29 != 0 {
        return None;
    }
    let count = len / 29;
    let mut out: Vec<Edge> = Vec::new();
    let mut k: usize = 0;
    while k < count
        invariant
            k <= count,
            count == len / 29,
            len % 29 == 0,
            start + len <= data@.len(),
            n == data@.len(),
            out@.len() == k,
            forall|j: int|
                0 <= j < k ==> (#[trigger] edge_at(data@, start + 29 * j)) == Some(out@[j]),
        decreases count - k,
    {
        assert(29 * k + 29 <= len) by (nonlinear_arith)
            requires
                k < count,
                count == len / 29,
                len % 29 == 0,
        ;
        match read_edge(data, start + 29 * k) {
            None => {
                return None;
            },
            Some(e) => {
                out.push(e);
            },
        }
        k += 1;
    }
    proof {
        assert forall|j: int| 0 <= j < len as int / 29 implies (#[trigger] edge_at(
            data@,
            start + 29 * j,
        )) is Some by {}
        assert(out@ =~= Seq::new(
            (len as int / 29) as nat,
            |j: int| edge_at(data@, start + 29 * j)->0,
        ));
    }
    Some(out)
}

/// Reads the node whose record stands at `at` and ends by `end`.
fn read_node(data: &[u8], at: usize, end: usize) -> (r: Option<(CognitiveEvent, usize)>)
    requires
        at <= end <= data@.len(),
    ensures
        match r {
            Some((node, next)) => node_at(data@, at as int, end as int) == Some(node@) && next
                == node_end(data@, at as int) && at < next <= end,
            None => node_at(data@, at as int, end as int) is None,
        },
{
    let n = data.len();
    if end - at < 41 {
        return None;
    }
    let content_len = read_u32(data, at + 33) as usize;
    let vec_len = read_u32(data, at + 37) as usize;
    let room = end - at - 41;
    if content_len > room {
        return None;
    }
    if vec_len > (room - content_len) / 4 {
        return None;
    }
    assert(4 * vec_len <= room - content_len);
    let next = at + 41 + content_len + 4 * vec_len;
    let event_type = match EventType::from_u8(data[at + 8]) {
        None => {
            return None;
        },
        Some(t) => t,
    };
    let text = slice_subrange(data, at + 41, at + 41 + content_len);
    let content = match utf8_text(text) {
        None => {
            return None;
        },
        Some(c) => c,
    };
    let base = at + 41 + content_len;
    let mut vec: Vec<u32> = Vec::new();
    let mut i: usize = 0;
    while i < vec_len
        invariant
            i <= vec_len,
            base + 4 * vec_len <= data@.len(),
            n == data@.len(),
            vec@.len() == i,
            forall|j: int| 0 <= j < i ==> vec@[j] == u32_at(data@, base + 4 * j),
        decreases vec_len - i,
    {
        vec.push(read_u32(data, base + 4 * i));
        i += 1;
    }
    let node = CognitiveEvent {
        id: read_u64(data, at),
        event_type,
        content,
        confidence: read_u32(data, at + 21),
        session_id: read_u32(data, at + 9),
        created_at: read_u64(data, at + 13),
        access_count: read_u32(data, at + 25),
        decay_score: read_u32(data, at + 29),
        feature_vec: vec,
    };
    assert(node@.feature_vec =~= Seq::new(
        vec_len as nat,
        |j: int| u32_at(data@, at + 41 + content_len + 4 * j),
    ));
    Some((node, next))
}

/// Reads the nodes whose records fill the data from `at` to `end`.
pub fn read_nodes(data: &[u8], at: usize, end: usize) -> (r: Option<Vec<CognitiveEvent>>)
    requires
        at <= end <= data@.len(),
    ensures
        match r {
            Some(nodes) => nodes_in(data@, at as int, end as int) == Some(event_views(nodes@)),
            None => nodes_in(data@, at as int, end as int) is None,
        },
{
    let mut out: Vec<CognitiveEvent> = Vec::new();
    let mut pos = at;
    assert(event_views(out@) =~= Seq::<EventView>::empty());
    while pos < end
        invariant
            at <= pos <= end,
            end <= data@.len(),
            nodes_in(data@, at as int, end as int) == match nodes_in(
                data@,
                pos as int,
                end as int,
            ) {
                Some(rest) => Some(event_views(out@) + rest),
                None => None,
            },
        decreases end - pos,
    {
        match read_node(data, pos, end) {
            None => {
                return None;
            },
            Some((node, next)) => {
                let ghost before = event_views(out@);
                let ghost nv = node@;
                out.push(node);
                proof {
                    assert(event_views(out@) =~= before.push(nv));
                    match nodes_in(data@, next as int, end as int) {
                        Some(rest) => {
                            assert(before + (seq![nv] + rest) =~= before.push(nv) + rest);
                        },
                        None => {},
                    }
                }
                pos = next;
            },
        }
    }
    proof {
        assert(event_views(out@) + Seq::<EventView>::empty() =~= event_views(out@));
    }
    Some(out)
}

/// Where the first `n` nodes cannot be stored, more of them cannot either.
pub proof fn lemma_nodes_restore_fails(dimension: usize, nodes: Seq<EventView>, n: int, m: int)
    requires
        n <= m,
        nodes_restore(dimension, nodes, n) is None,
    ensures
        nodes_restore(dimension, nodes, m) is None,
    decreases m - n,
{
    if n < m {
        lemma_nodes_restore_fails(dimension, nodes, n, m - 1);
    }
}

/// Where the first `n` edges cannot be added, more of them cannot either.
pub proof fn lemma_edges_restore_fails(g: GraphView, edges: Seq<Edge>, n: int, m: int)
    requires
        n <= m,
        edges_restore(g, edges, n) is None,
    ensures
        edges_restore(g, edges, m) is None,
    decreases m - n,
{
    if n < m {
        lemma_edges_restore_fails(g, edges, n, m - 1);
    }
}

/// Reads graphs from bytes.
pub struct AmemReader {}

/// Writes graphs to bytes.
pub struct AmemWriter {}

/// Whether the flags say that the file has a term index.
pub open spec fn flags_terms(flags: u32) -> bool {
    flags & HAS_TERM_INDEX != 0
}

/// Whether the flags say that the file has document lengths.
pub open spec fn flags_lengths(flags: u32) -> bool {
    flags & HAS_DOC_LENGTHS != 0
}

impl AmemReader {
    /// Reads a graph. The nodes and edges are taken from the first section
    /// of each; sections with other tags are passed over. The indexes are
    /// built from the nodes; the graph has a term index and document
    /// lengths where the flags of the header say that the file has them.
    /// Data that cannot be read gives no graph.
    pub fn from_bytes(data: &[u8]) -> (r: Result<MemoryGraph, AmemError>)
        ensures
            match decoded(data@) {
                Ok(g) => r is Ok && r->Ok_0@ == g && r->Ok_0.wf() && (r->Ok_0.terms() is Some
                    <==> flags_terms(header_fields(data@).flags)) && (r->Ok_0.lengths() is Some
                    <==> flags_lengths(header_fields(data@).flags)) && (r->Ok_0.terms() is Some
                    ==> r->Ok_0.terms()->0.average() == average_of(data@)),
                Err(e) => r is Err && r->Err_0 == AmemError::Format(e),
            },
    {
        let total = data.len();
        let header = match read_header(data) {
            Err(e) => {
                return Err(AmemError::Format(e));
            },
            Ok(h) => h,
        };
        assert(64 <= total);
        if !check_body(data, 64) {
            return Err(AmemError::Format(FormatError::TruncatedSection));
        }
        let nodes: Vec<CognitiveEvent> = match locate_section(data, 64, TAG_NODES) {
            None => {
                let empty: Vec<CognitiveEvent> = Vec::new();
                assert(event_views(empty@) =~= Seq::<EventView>::empty());
                empty
            },
            Some((start, len)) => match read_nodes(data, start, start + len) {
                None => {
                    return Err(AmemError::Format(FormatError::TruncatedSection));
                },
                Some(nodes) => nodes,
            },
        };
        let edges: Vec<Edge> = match locate_section(data, 64, TAG_EDGES) {
            None => Vec::new(),
            Some((start, len)) => match read_edges(data, start, len) {
                None => {
                    return Err(AmemError::Format(FormatError::TruncatedSection));
                },
                Some(edges) => edges,
            },
        };
        let ghost views = event_views(nodes@);
        assert(views.len() == nodes@.len());
        if nodes.len() as u64 != header.node_count || edges.len() as u64 != header.edge_count
            || header.dimension == 0 {
            return Err(AmemError::Format(FormatError::ChecksumMismatch));
        }
        let dimension = header.dimension as usize;
        let mut graph = match MemoryGraph::new(dimension) {
            Ok(g) => g,
            Err(_) => {
                return Err(AmemError::Format(FormatError::ChecksumMismatch));
            },
        };
        let mut i: usize = 0;
        while i < nodes.len()
            invariant
                i <= nodes@.len(),
                views == event_views(nodes@),
                header_of(data@) == Ok::<FileHeader, FormatError>(header),
                body_ok(data@, 64),
                nodes_of(data@) == Some(views),
                edges_of(data@) == Some(edges@),
                views.len() == header.node_count,
                edges@.len() == header.edge_count,
                header.dimension != 0,
                dimension == header.dimension as usize,
                graph.wf(),
                graph.terms() is Some,
                graph.lengths() is Some,
                nodes_restore(dimension, views, i as int) == Some(graph@),
            decreases nodes@.len() - i,
        {
            let node = nodes[i].clone();
            assert(node@ == views[i as int]);
            match graph.restore_terms_kept(node) {
                Err(_) => {
                    proof {
                        lemma_nodes_restore_fails(dimension, views, i + 1, views.len() as int);
                    }
                    return Err(AmemError::Format(FormatError::ChecksumMismatch));
                },
                Ok(_) => {},
            }
            i += 1;
        }
        let ghost g1 = graph@;
        let mut k: usize = 0;
        while k < edges.len()
            invariant
                k <= edges@.len(),
                header_of(data@) == Ok::<FileHeader, FormatError>(header),
                body_ok(data@, 64),
                nodes_of(data@) == Some(views),
                edges_of(data@) == Some(edges@),
                views.len() == header.node_count,
                edges@.len() == header.edge_count,
                header.dimension != 0,
                dimension == header.dimension as usize,
                nodes_restore(dimension, views, views.len() as int) == Some(g1),
                graph.wf(),
                graph.terms() is Some,
                graph.lengths() is Some,
                edges_restore(g1, edges@, k as int) == Some(graph@),
            decreases edges@.len() - k,
        {
            match graph.add_edge_keeping(edges[k]) {
                Err(_) => {
                    proof {
                        lemma_edges_restore_fails(g1, edges@, k + 1, edges@.len() as int);
                    }
                    return Err(AmemError::Format(FormatError::ChecksumMismatch));
                },
                Ok(_) => {},
            }
            k += 1;
        }
        let has_terms = header.flags & HAS_TERM_INDEX != 0;
        let has_lengths = header.flags & HAS_DOC_LENGTHS != 0;
        graph.keep_text_indexes(has_terms, has_lengths);
        let average: u32 = match locate_section(data, 64, TAG_TERM_INDEX) {
            Some((start, len)) => if len >= 12 {
                read_u32(data, start + 8)
            } else {
                0
            },
            None => 0,
        };
        graph.set_avg_doc_length(average);
        Ok(graph)
    }
}

/// Whether a graph can be written: its dimension fits four bytes, and so
/// do the lengths of the content and of the vector of each node.
pub open spec fn fits(g: GraphView) -> bool {
    g.dimension <= u32::MAX && forall|i: int| 0 <= i < g.nodes.len() ==> node_fits(#[trigger] g.nodes[i])
}

/// The header that is written for a graph.
pub open spec fn header_for(g: GraphView, created_at: u64, flags: u32) -> FileHeader {
    FileHeader {
        version: FORMAT_VERSION,
        dimension: g.dimension as u32,
        node_count: g.nodes.len() as u64,
        edge_count: g.edges.len() as u64,
        created_at,
        flags,
    }
}

/// The bytes of a graph: the header, the section of nodes, the section of
/// edges, and whatever sections follow.
pub open spec fn encoded_graph(g: GraphView, created_at: u64, flags: u32, more: Seq<u8>) -> Seq<u8> {
    header_bytes(header_for(g, created_at, flags)) + section_bytes(TAG_NODES, nodes_bytes(g.nodes))
        + section_bytes(TAG_EDGES, edges_bytes(g.edges)) + more
}

/// The sections that follow those of nodes and edges: the term index and
/// the document lengths, where the graph has them.
pub open spec fn text_sections(graph: &MemoryGraph) -> Seq<u8> {
    (match graph.terms() {
        Some(index) => section_bytes(TAG_TERM_INDEX, index.encoding()),
        None => Seq::empty(),
    }) + (match graph.lengths() {
        Some(table) => section_bytes(TAG_DOC_LENGTHS, encoded(table@)),
        None => Seq::empty(),
    })
}

/// The flags of a graph.
pub open spec fn flags_of(graph: &MemoryGraph) -> u32 {
    (if graph.terms() is Some { HAS_TERM_INDEX } else { 0u32 }) | (if graph.lengths() is Some {
        HAS_DOC_LENGTHS
    } else {
        0u32
    })
}

/// Writes an edge.
fn write_edge(buf: &mut Vec<u8>, e: Edge)
    ensures
        final(buf)@ == old(buf)@ + edge_bytes(e),
{
    put_u64(buf, e.source_id);
    put_u64(buf, e.target_id);
    put_u8(buf, e.edge_type.to_u8());
    put_u32(buf, e.weight);
    put_u64(buf, e.created_at);
    assert(buf@ =~= old(buf)@ + edge_bytes(e));
}

/// Writes a node, if its lengths fit.
fn write_node(buf: &mut Vec<u8>, node: &CognitiveEvent) -> (ok: bool)
    ensures
        ok == node_fits(node@),
        ok ==> final(buf)@ == old(buf)@ + node_bytes(node@),
{
    let text = node.content.as_str().as_bytes();
    if text.len() > u32::MAX as usize || node.feature_vec.len() > u32::MAX as usize {
        return false;
    }
    put_u64(buf, node.id);
    put_u8(buf, node.event_type.to_u8());
    put_u32(buf, node.session_id);
    put_u64(buf, node.created_at);
    put_u32(buf, node.confidence);
    put_u32(buf, node.access_count);
    put_u32(buf, node.decay_score);
    put_u32(buf, text.len() as u32);
    put_u32(buf, node.feature_vec.len() as u32);
    assert(buf@ =~= old(buf)@ + node_head(node@));
    put_bytes(buf, text);
    let ghost start = buf@;
    let mut i: usize = 0;
    assert(node.feature_vec@.take(0) =~= Seq::<u32>::empty());
    assert(buf@ =~= start + encoded_entries(node.feature_vec@.take(0)));
    while i < node.feature_vec.len()
        invariant
            i <= node.feature_vec@.len(),
            buf@ == start + encoded_entries(node.feature_vec@.take(i as int)),
        decreases node.feature_vec@.len() - i,
    {
        put_u32(buf, node.feature_vec[i]);
        proof {
            assert(node.feature_vec@.take(i + 1).drop_last() =~= node.feature_vec@.take(i as int));
            assert(node.feature_vec@.take(i + 1).last() == node.feature_vec@[i as int]);
            assert(buf@ =~= start + encoded_entries(node.feature_vec@.take(i + 1)));
        }
        i += 1;
    }
    proof {
        assert(node.feature_vec@.take(i as int) =~= node.feature_vec@);
        assert(buf@ =~= old(buf)@ + node_bytes(node@));
    }
    true
}

/// Writes a section.
fn write_section(buf: &mut Vec<u8>, tag: u8, payload: &Vec<u8>)
    ensures
        final(buf)@ == old(buf)@ + section_bytes(tag, payload@),
{
    put_u8(buf, tag);
    put_u64(buf, payload.len() as u64);
    put_bytes(buf, payload.as_slice());
    assert(buf@ =~= old(buf)@ + section_bytes(tag, payload@));
}

/// Writes a header.
fn write_header(buf: &mut Vec<u8>, h: FileHeader)
    ensures
        final(buf)@ == old(buf)@ + header_bytes(h),
{
    put_u8(buf, 0x41);
    put_u8(buf, 0x4D);
    put_u8(buf, 0x45);
    put_u8(buf, 0x4D);
    assert(buf@ =~= old(buf)@ + magic());
    put_u32(buf, h.version);
    put_u32(buf, h.dimension);
    put_u64(buf, h.node_count);
    put_u64(buf, h.edge_count);
    put_u64(buf, h.created_at);
    put_u32(buf, h.flags);
    let ghost start = buf@;
    let mut i: usize = 0;
    assert(buf@ =~= start + zeros(0));
    while i < 24
        invariant
            i <= 24,
            buf@ == start + zeros(i as nat),
        decreases 24 - i,
    {
        buf.push(0);
        assert(buf@ =~= start + zeros((i + 1) as nat));
        i += 1;
    }
    assert(buf@ =~= old(buf)@ + header_bytes(h));
}

impl AmemWriter {
    /// Writes a graph: the header, the nodes, the edges, and the term index
    /// and the document lengths where the graph has them, with the flags
    /// set accordingly. A graph that does not fit the fields of the format
    /// is not written.
    pub fn to_bytes(graph: &MemoryGraph, created_at: u64) -> (r: Result<Vec<u8>, AmemError>)
        requires
            graph.wf(),
        ensures
            r is Ok <==> fits(graph@) && (graph.terms() is Some ==> graph.terms()->0.encodable()),
            r is Err ==> r->Err_0 == AmemError::InvalidParams,
            r is Ok ==> r->Ok_0@ == encoded_graph(
                graph@,
                created_at,
                flags_of(graph),
                text_sections(graph),
            ),
    {
        let ghost g = graph@;
        if graph.dimension() > u32::MAX as usize {
            return Err(AmemError::InvalidParams);
        }
        let nodes = graph.nodes();
        let mut node_payload: Vec<u8> = Vec::new();
        let mut i: usize = 0;
        assert(g.nodes.take(0) =~= Seq::<EventView>::empty());
        while i < nodes.len()
            invariant
                i <= nodes@.len(),
                g == graph@,
                event_views(nodes@) == g.nodes,
                node_payload@ == nodes_bytes(g.nodes.take(i as int)),
                forall|j: int| 0 <= j < i ==> node_fits(#[trigger] g.nodes[j]),
            decreases nodes@.len() - i,
        {
            assert(g.nodes[i as int] == nodes@[i as int]@);
            if !write_node(&mut node_payload, &nodes[i]) {
                assert(!node_fits(g.nodes[i as int]));
                return Err(AmemError::InvalidParams);
            }
            proof {
                assert(g.nodes.take(i + 1) =~= g.nodes.take(i as int).push(g.nodes[i as int]));
                lemma_nodes_bytes_push(g.nodes.take(i as int), g.nodes[i as int]);
            }
            i += 1;
        }
        assert(g.nodes.take(i as int) =~= g.nodes);
        let edges = graph.edges();
        let mut edge_payload: Vec<u8> = Vec::new();
        let mut k: usize = 0;
        assert(g.edges.take(0) =~= Seq::<Edge>::empty());
        while k < edges.len()
            invariant
                k <= edges@.len(),
                edges@ == g.edges,
                edge_payload@ == edges_bytes(g.edges.take(k as int)),
            decreases edges@.len() - k,
        {
            write_edge(&mut edge_payload, edges[k]);
            proof {
                assert(g.edges.take(k + 1).drop_last() =~= g.edges.take(k as int));
                assert(g.edges.take(k + 1).last() == edges@[k as int]);
            }
            k += 1;
        }
        assert(g.edges.take(k as int) =~= g.edges);
        let mut flags: u32 = 0;
        let mut more: Vec<u8> = Vec::new();
        match graph.term_index() {
            None => {},
            Some(index) => {
                match index.to_bytes() {
                    None => {
                        return Err(AmemError::InvalidParams);
                    },
                    Some(payload) => {
                        write_section(&mut more, TAG_TERM_INDEX, &payload);
                        flags = flags | HAS_TERM_INDEX;
                    },
                }
            },
        }
        match graph.doc_lengths() {
            None => {},
            Some(table) => {
                let payload = table.to_bytes();
                write_section(&mut more, TAG_DOC_LENGTHS, &payload);
                flags = flags | HAS_DOC_LENGTHS;
            },
        }
        proof {
            assert(0u32 | HAS_TERM_INDEX == HAS_TERM_INDEX) by (bit_vector);
            assert(0u32 | HAS_DOC_LENGTHS == HAS_DOC_LENGTHS) by (bit_vector);
            assert(0u32 | 0u32 == 0u32) by (bit_vector);
            assert(HAS_TERM_INDEX | 0u32 == HAS_TERM_INDEX) by (bit_vector);
            assert(more@ =~= text_sections(graph));
        }
        let header = FileHeader {
            version: FORMAT_VERSION,
            dimension: graph.dimension() as u32,
            node_count: nodes.len() as u64,
            edge_count: edges.len() as u64,
            created_at,
            flags,
        };
        let mut buf: Vec<u8> = Vec::new();
        write_header(&mut buf, header);
        write_section(&mut buf, TAG_NODES, &node_payload);
        write_section(&mut buf, TAG_EDGES, &edge_payload);
        put_bytes(&mut buf, more.as_slice());
        assert(buf@ =~= encoded_graph(g, created_at, flags_of(graph), text_sections(graph)));
        Ok(buf)
    }
}

/// The id after the last of the nodes, zero where there are none.
pub open spec fn after_last(nodes: Seq<EventView>) -> u64 {
    if nodes.len() == 0 {
        0
    } else {
        (nodes.last().id + 1) as u64
    }
}

/// A section that stands at `at` in the data is found there: it fits, its
/// tag and its length are read back, and its payload follows them.
pub proof fn lemma_section_read_back(data: Seq<u8>, at: int, tag: u8, payload: Seq<u8>)
    requires
        0 <= at,
        payload.len() <= u64::MAX,
        at + 9 + payload.len() <= data.len(),
        data.subrange(at, at + 9 + payload.len()) == section_bytes(tag, payload),
    ensures
        section_fits(data, at),
        data[at] == tag,
        u64_at(data, at + 1) == payload.len(),
        section_end(data, at) == at + 9 + payload.len(),
        data.subrange(at + 9, at + 9 + payload.len()) == payload,
{
    lemma_le();
    let t = seq![tag];
    let l = le64(payload.len() as u64);
    assert(section_bytes(tag, payload) =~= t + (l + payload));
    lemma_window(data, at, t, l + payload);
    lemma_window(data, at + 1, l, payload);
    assert(data.subrange(at, at + 1)[0] == data[at]);
}

/// A sequence of sections is one wherever it stands at the end of data.
pub proof fn lemma_body_shift(pre: Seq<u8>, body: Seq<u8>, at: int)
    requires
        0 <= at <= body.len(),
        body_ok(body, at),
    ensures
        body_ok(pre + body, pre.len() + at),
    decreases body.len() - at,
{
    let data = pre + body;
    if at < body.len() {
        assert(section_fits(body, at));
        assert(data.subrange(pre.len() + at + 1, pre.len() + at + 9) =~= body.subrange(
            at + 1,
            at + 9,
        ));
        assert(u64_at(data, pre.len() + at + 1) == u64_at(body, at + 1));
        lemma_body_shift(pre, body, section_end(body, at));
    }
}

/// The nodes of a graph can be stored one after the other, and make the
/// graph's nodes.
pub proof fn lemma_nodes_restore_ok(g: GraphView, n: int)
    requires
        g.wf(),
        0 <= n <= g.nodes.len(),
    ensures
        nodes_restore(g.dimension, g.nodes, n) == Some(
            GraphView {
                nodes: g.nodes.take(n),
                edges: Seq::empty(),
                next_id: after_last(g.nodes.take(n)),
                dimension: g.dimension,
            },
        ),
    decreases n,
{
    if n == 0 {
        assert(g.nodes.take(0) =~= Seq::<EventView>::empty());
    } else {
        lemma_nodes_restore_ok(g, n - 1);
        let e = g.nodes[n - 1];
        assert(e.id < g.next_id);
        if n - 1 > 0 {
            assert(g.nodes.take(n - 1).last() == g.nodes[n - 2]);
            assert(g.nodes[n - 2].id < g.nodes[n - 1].id);
        }
        assert(g.nodes.take(n) =~= g.nodes.take(n - 1).push(e));
        assert(g.nodes.take(n).last() == e);
    }
}

/// The edges of a graph can be added one after the other to its nodes, and
/// make the graph's edges.
pub proof fn lemma_edges_restore_ok(g: GraphView, next_id: u64, n: int)
    requires
        g.wf(),
        0 <= n <= g.edges.len(),
    ensures
        edges_restore(
            GraphView { nodes: g.nodes, edges: Seq::empty(), next_id, dimension: g.dimension },
            g.edges,
            n,
        ) == Some(
            GraphView { nodes: g.nodes, edges: g.edges.take(n), next_id, dimension: g.dimension },
        ),
    decreases n,
{
    if n == 0 {
        assert(g.edges.take(0) =~= Seq::<Edge>::empty());
    } else {
        lemma_edges_restore_ok(g, next_id, n - 1);
        let h = GraphView {
            nodes: g.nodes,
            edges: g.edges.take(n - 1),
            next_id,
            dimension: g.dimension,
        };
        let e = g.edges[n - 1];
        assert(g.has_node(e.source_id) && g.has_node(e.target_id));
        assert(h.has_node(e.source_id)) by {
            let c = g.index_of(e.source_id);
            assert(h.nodes[c].id == e.source_id);
        }
        assert(h.has_node(e.target_id)) by {
            let c = g.index_of(e.target_id);
            assert(h.nodes[c].id == e.target_id);
        }
        assert(!h.has_arc(e.source_id, e.target_id, e.edge_type)) by {
            if h.has_arc(e.source_id, e.target_id, e.edge_type) {
                let k = choose|k: int|
                    0 <= k < h.edges.len() && (#[trigger] h.edges[k]).source_id == e.source_id
                        && h.edges[k].target_id == e.target_id && h.edges[k].edge_type
                        == e.edge_type;
                assert(h.edges[k] == g.edges[k]);
                assert(!g.edges[k].same_arc(g.edges[n - 1]));
            }
        }
        assert(g.edges.take(n) =~= g.edges.take(n - 1).push(e));
    }
}

/// Where the parts of what is written for a graph stand: the header in
/// the first 64 bytes, then the section of the nodes, then the section of
/// the edges, then the rest.
pub proof fn lemma_layout(g: GraphView, created_at: u64, flags: u32, more: Seq<u8>)
    requires
        nodes_bytes(g.nodes).len() <= u64::MAX,
        edges_bytes(g.edges).len() <= u64::MAX,
    ensures
        ({
            let data = encoded_graph(g, created_at, flags, more);
            let np = nodes_bytes(g.nodes);
            let ep = edges_bytes(g.edges);
            let a2: int = 73int + np.len();
            let a3: int = a2 + 9 + ep.len();
            &&& data.len() == a3 + more.len()
            &&& data.subrange(0, 64) == header_bytes(header_for(g, created_at, flags))
            &&& section_fits(data, 64)
            &&& data[64] == TAG_NODES
            &&& section_end(data, 64) == a2
            &&& u64_at(data, 65) == np.len()
            &&& data.subrange(73, a2) == np
            &&& section_fits(data, a2)
            &&& data[a2] == TAG_EDGES
            &&& section_end(data, a2) == a3
            &&& u64_at(data, a2 + 1) == ep.len()
            &&& data.subrange(a2 + 9, a3) == ep
            &&& data == data.subrange(0, a3) + more
        }),
{
    lemma_le();
    let h = header_for(g, created_at, flags);
    let hb = header_bytes(h);
    let np = nodes_bytes(g.nodes);
    let ep = edges_bytes(g.edges);
    let s1 = section_bytes(TAG_NODES, np);
    let s2 = section_bytes(TAG_EDGES, ep);
    let data = encoded_graph(g, created_at, flags, more);
    assert(hb.len() == 64) by {
        assert(hb =~= magic() + le32(h.version) + le32(h.dimension) + le64(h.node_count) + le64(
            h.edge_count,
        ) + le64(h.created_at) + le32(h.flags) + zeros(24));
    }
    assert(s1.len() == 9 + np.len());
    assert(s2.len() == 9 + ep.len());
    assert(data =~= hb + (s1 + (s2 + more)));
    assert(data.subrange(0, 64) =~= hb);
    let a2: int = 73int + np.len();
    let a3: int = a2 + 9 + ep.len();
    assert(data.subrange(64, a2) =~= s1);
    assert(data.subrange(a2, a3) =~= s2);
    lemma_section_read_back(data, 64, TAG_NODES, np);
    lemma_section_read_back(data, a2, TAG_EDGES, ep);
    assert(data =~= data.subrange(0, a3) + more);
}

/// The nodes and the edges of a graph can be stored one after the other,
/// and make the graph, with the id after the last node as the next.
pub proof fn lemma_restore_ok(g: GraphView)
    requires
        g.wf(),
    ensures
        nodes_restore(g.dimension, g.nodes, g.nodes.len() as int) is Some,
        edges_restore(
            nodes_restore(g.dimension, g.nodes, g.nodes.len() as int)->0,
            g.edges,
            g.edges.len() as int,
        ) == Some(GraphView { next_id: after_last(g.nodes), ..g }),
{
    lemma_nodes_restore_ok(g, g.nodes.len() as int);
    assert(g.nodes.take(g.nodes.len() as int) =~= g.nodes);
    lemma_edges_restore_ok(g, after_last(g.nodes), g.edges.len() as int);
    assert(g.edges.take(g.edges.len() as int) =~= g.edges);
}

/// Reading what was written gives the graph back: the same nodes, the
/// same edges and the same dimension, whatever sections follow those of
/// the nodes and the edges. The next id is the one after the last node.
pub proof fn lemma_round_trip(g: GraphView, created_at: u64, flags: u32, more: Seq<u8>)
    requires
        g.wf(),
        fits(g),
        g.nodes.len() <= u64::MAX,
        g.edges.len() <= u64::MAX,
        nodes_bytes(g.nodes).len() <= u64::MAX,
        edges_bytes(g.edges).len() <= u64::MAX,
        body_ok(more, 0),
    ensures
        decoded(encoded_graph(g, created_at, flags, more)) == Ok::<GraphView, FormatError>(
            GraphView { next_id: after_last(g.nodes), ..g },
        ),
{
    let h = header_for(g, created_at, flags);
    let np = nodes_bytes(g.nodes);
    let ep = edges_bytes(g.edges);
    let data = encoded_graph(g, created_at, flags, more);
    let a2: int = 73int + np.len();
    let a3: int = a2 + 9 + ep.len();
    lemma_layout(g, created_at, flags, more);
    lemma_header_read_back(data, h);
    assert(header_of(data) == Ok::<FileHeader, FormatError>(h));
    lemma_body_shift(data.subrange(0, a3), more, 0);
    assert(body_ok(data, a3));
    assert(body_ok(data, a2));
    assert(body_ok(data, 64));
    assert(find_section(data, 64, TAG_NODES) == Some(73int));
    assert(find_section(data, a2, TAG_EDGES) == Some(a2 + 9));
    assert(find_section(data, 64, TAG_EDGES) == Some(a2 + 9));
    lemma_nodes_read_back(data, 73, a2, g.nodes);
    lemma_edges_bytes(g.edges);
    lemma_edges_read_back(data, a2 + 9, g.edges);
    assert(nodes_of(data) == Some(g.nodes));
    assert(edges_of(data) == Some(g.edges));
    lemma_restore_ok(g);
}

/// A section is nine bytes longer than its payload.
pub proof fn lemma_section_len(tag: u8, payload: Seq<u8>)
    ensures
        section_bytes(tag, payload).len() == 9 + payload.len(),
{
    lemma_le();
}

/// The first section with a tag is found from an earlier section on, if
/// that one has another tag.
pub proof fn lemma_find_on(data: Seq<u8>, at: int, tag: u8)
    requires
        0 <= at < data.len(),
        section_fits(data, at),
        data[at] != tag,
    ensures
        find_section(data, at, tag) == find_section(data, section_end(data, at), tag),
{
}

/// A number in a payload is the number at its place in the data.
pub proof fn lemma_number_in_payload(data: Seq<u8>, at: int, payload: Seq<u8>, off: int)
    requires
        0 <= at,
        at + payload.len() <= data.len(),
        data.subrange(at, at + payload.len()) == payload,
        0 <= off,
        off + 4 <= payload.len(),
    ensures
        u32_at(data, at + off) == u32_at(payload, off),
{
    assert(data.subrange(at + off, at + off + 4) =~= data.subrange(at, at + payload.len()).subrange(
        off,
        off + 4,
    ));
}

/// Where the section of the term index stands in what is written for a
/// graph that has one: after the sections of the nodes and the edges, and
/// it is the first with its tag.
pub proof fn lemma_terms_section(graph: &MemoryGraph, created_at: u64)
    requires
        graph.terms() is Some,
        nodes_bytes(graph@.nodes).len() <= u64::MAX,
        edges_bytes(graph@.edges).len() <= u64::MAX,
        graph.terms()->0.encoding().len() <= u64::MAX,
    ensures
        ({
            let data = encoded_graph(graph@, created_at, flags_of(graph), text_sections(graph));
            let enc = graph.terms()->0.encoding();
            let a3: int = 73int + nodes_bytes(graph@.nodes).len() + 9 + edges_bytes(graph@.edges).len();
            &&& find_section(data, 64, TAG_TERM_INDEX) == Some(a3 + 9)
            &&& u64_at(data, a3 + 1) == enc.len()
            &&& a3 + 9 + enc.len() <= data.len()
            &&& data.subrange(a3 + 9, a3 + 9 + enc.len()) == enc
        }),
{
    let g = graph@;
    let enc = graph.terms()->0.encoding();
    let np = nodes_bytes(g.nodes);
    let ep = edges_bytes(g.edges);
    let more = text_sections(graph);
    let data = encoded_graph(g, created_at, flags_of(graph), more);
    let a2: int = 73int + np.len();
    let a3: int = a2 + 9 + ep.len();
    lemma_layout(g, created_at, flags_of(graph), more);
    let rest: Seq<u8> = match graph.lengths() {
        Some(table) => section_bytes(TAG_DOC_LENGTHS, encoded(table@)),
        None => Seq::empty(),
    };
    let third = section_bytes(TAG_TERM_INDEX, enc);
    assert(more == third + rest);
    lemma_section_len(TAG_TERM_INDEX, enc);
    let a4: int = a3 + 9 + enc.len();
    assert(data =~= data.subrange(0, a3) + (third + rest));
    assert(data.subrange(a3, a4) =~= third);
    lemma_section_read_back(data, a3, TAG_TERM_INDEX, enc);
    assert(find_section(data, a3, TAG_TERM_INDEX) == Some(a3 + 9));
    lemma_find_on(data, a2, TAG_TERM_INDEX);
    lemma_find_on(data, 64, TAG_TERM_INDEX);
}

/// The average document length of a graph's term index is read back from
/// what was written for the graph.
pub proof fn lemma_average_read_back(graph: &MemoryGraph, created_at: u64)
    requires
        graph.terms() is Some,
        nodes_bytes(graph@.nodes).len() <= u64::MAX,
        edges_bytes(graph@.edges).len() <= u64::MAX,
        graph.terms()->0.encoding().len() <= u64::MAX,
    ensures
        average_of(encoded_graph(graph@, created_at, flags_of(graph), text_sections(graph)))
            == graph.terms()->0.average(),
{
    let data = encoded_graph(graph@, created_at, flags_of(graph), text_sections(graph));
    let enc = graph.terms()->0.encoding();
    let a3: int = 73int + nodes_bytes(graph@.nodes).len() + 9 + edges_bytes(graph@.edges).len();
    lemma_terms_section(graph, created_at);
    graph.terms()->0.lemma_average_at();
    lemma_number_in_payload(data, a3 + 9, enc, 8);
}

} // verus!
