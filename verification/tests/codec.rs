//! The file format, byte by byte.

use agentic_memory::format::{
    check_body, locate_section, read_header, AmemReader, AmemWriter, FileHeader, FORMAT_VERSION,
    HAS_DOC_LENGTHS, HAS_TERM_INDEX, HEADER_LEN, TAG_DOC_LENGTHS, TAG_EDGES, TAG_NODES,
    TAG_TERM_INDEX,
};
use agentic_memory::graph::MemoryGraph;
use agentic_memory::index::doc_lengths::DocLengths;
use agentic_memory::index::term_index::TermIndex;
use agentic_memory::tokenizer::Tokenizer;
use agentic_memory::types::{
    AmemError, CognitiveEvent, CognitiveEventBuilder, Edge, EdgeType, EventType, FormatError,
};
use agentic_memory::wire::{put_bytes, put_u16, put_u32, put_u64, put_u8, read_u16, read_u32, read_u64};

fn bits(x: f32) -> u32 {
    x.to_bits()
}

fn event(event_type: EventType, content: &str, session: u32, created_at: u64, vec: Vec<u32>) -> CognitiveEvent {
    CognitiveEventBuilder::new(event_type, content)
        .session_id(session)
        .confidence(bits(0.75))
        .created_at(created_at)
        .feature_vec(vec)
        .build()
}

fn sample() -> MemoryGraph {
    let mut g = MemoryGraph::new(2).unwrap();
    g.add_node(event(EventType::Fact, "tea is hot", 3, 1000, vec![bits(0.5), bits(-2.0)])).unwrap();
    g.add_node(event(EventType::Decision, "drink tea — slowly", 3, 2000, vec![0, 0])).unwrap();
    g.add_node(event(EventType::Episode, "", 4, 3000, vec![bits(1.0), 0])).unwrap();
    g.add_edge(Edge::new(1, 0, EdgeType::CausedBy, bits(0.9))).unwrap();
    g.add_edge(Edge::new(2, 1, EdgeType::PartOf, bits(0.1))).unwrap();
    g.record_access(1);
    g.set_decay_score(0, bits(0.3));
    g
}

fn same_graph(a: &MemoryGraph, b: &MemoryGraph) {
    assert_eq!(a.dimension(), b.dimension());
    assert_eq!(a.node_count(), b.node_count());
    for (x, y) in a.nodes().iter().zip(b.nodes().iter()) {
        assert_eq!(x.id, y.id);
        assert_eq!(x.event_type, y.event_type);
        assert_eq!(x.content, y.content);
        assert_eq!(x.confidence, y.confidence);
        assert_eq!(x.session_id, y.session_id);
        assert_eq!(x.created_at, y.created_at);
        assert_eq!(x.access_count, y.access_count);
        assert_eq!(x.decay_score, y.decay_score);
        assert_eq!(x.feature_vec, y.feature_vec);
    }
    assert_eq!(a.edges(), b.edges());
}

fn section(tag: u8, payload: &[u8]) -> Vec<u8> {
    let mut out = vec![tag];
    out.extend_from_slice(&(payload.len() as u64).to_le_bytes());
    out.extend_from_slice(payload);
    out
}

fn header(dimension: u32, nodes: u64, edges: u64, flags: u32) -> Vec<u8> {
    let mut out = b"AMEM".to_vec();
    out.extend_from_slice(&1u32.to_le_bytes());
    out.extend_from_slice(&dimension.to_le_bytes());
    out.extend_from_slice(&nodes.to_le_bytes());
    out.extend_from_slice(&edges.to_le_bytes());
    out.extend_from_slice(&0u64.to_le_bytes());
    out.extend_from_slice(&flags.to_le_bytes());
    out.extend_from_slice(&[0u8; 24]);
    out
}

fn node_record(id: u64, kind: u8, content: &[u8], vec: &[f32]) -> Vec<u8> {
    let mut out = Vec::new();
    out.extend_from_slice(&id.to_le_bytes());
    out.push(kind);
    out.extend_from_slice(&7u32.to_le_bytes());
    out.extend_from_slice(&55u64.to_le_bytes());
    out.extend_from_slice(&0.5f32.to_le_bytes());
    out.extend_from_slice(&2u32.to_le_bytes());
    out.extend_from_slice(&0.25f32.to_le_bytes());
    out.extend_from_slice(&(content.len() as u32).to_le_bytes());
    out.extend_from_slice(&(vec.len() as u32).to_le_bytes());
    out.extend_from_slice(content);
    for x in vec {
        out.extend_from_slice(&x.to_le_bytes());
    }
    out
}

fn edge_record(source: u64, target: u64, kind: u8) -> Vec<u8> {
    let mut out = Vec::new();
    out.extend_from_slice(&source.to_le_bytes());
    out.extend_from_slice(&target.to_le_bytes());
    out.push(kind);
    out.extend_from_slice(&0.5f32.to_le_bytes());
    out.extend_from_slice(&9u64.to_le_bytes());
    out
}

fn failure(data: &[u8]) -> Option<AmemError> {
    AmemReader::from_bytes(data).err()
}

// ==================== Numbers ====================

#[test]
fn numbers_are_little_endian() {
    let mut buf = Vec::new();
    put_u8(&mut buf, 0xAB);
    put_u16(&mut buf, 0x0102);
    put_u32(&mut buf, 0x0304_0506);
    put_u64(&mut buf, 0x0708_090A_0B0C_0D0E);
    put_bytes(&mut buf, b"xyz");
    assert_eq!(
        buf,
        vec![0xAB, 0x02, 0x01, 0x06, 0x05, 0x04, 0x03, 0x0E, 0x0D, 0x0C, 0x0B, 0x0A, 0x09, 0x08, 0x07, b'x', b'y', b'z']
    );
    assert_eq!(read_u16(&buf, 1), 0x0102);
    assert_eq!(read_u32(&buf, 3), 0x0304_0506);
    assert_eq!(read_u64(&buf, 7), 0x0708_090A_0B0C_0D0E);
    assert_eq!(read_u16(&buf, 0), 0x02AB);
}

// ==================== Writing ====================

#[test]
fn the_header_has_sixty_four_bytes() {
    let mut g = sample();
    g.drop_text_indexes();
    let data = AmemWriter::to_bytes(&g, 0x1122_3344_5566_7788).unwrap();
    assert_eq!(HEADER_LEN, 64);
    assert_eq!(&data[0..4], b"AMEM");
    assert_eq!(&data[4..8], &[1, 0, 0, 0]);
    assert_eq!(&data[8..12], &[2, 0, 0, 0]);
    assert_eq!(&data[12..20], &[3, 0, 0, 0, 0, 0, 0, 0]);
    assert_eq!(&data[20..28], &[2, 0, 0, 0, 0, 0, 0, 0]);
    assert_eq!(&data[28..36], &[0x88, 0x77, 0x66, 0x55, 0x44, 0x33, 0x22, 0x11]);
    assert_eq!(&data[36..40], &[0, 0, 0, 0]);
    assert_eq!(&data[40..64], &[0u8; 24]);
    assert_eq!(
        read_header(&data),
        Ok(FileHeader {
            version: FORMAT_VERSION,
            dimension: 2,
            node_count: 3,
            edge_count: 2,
            created_at: 0x1122_3344_5566_7788,
            flags: 0,
        })
    );
}

#[test]
fn nodes_and_edges_are_written_as_records() {
    let mut g = MemoryGraph::new(2).unwrap();
    g.add_node(event(EventType::Skill, "hé", 0x0A0B_0C0D, 0x0102_0304_0506_0708, vec![bits(1.0), 0])).unwrap();
    g.add_node(event(EventType::Fact, "", 0, 0, vec![0, 0])).unwrap();
    g.add_edge(Edge::new(1, 0, EdgeType::Supersedes, bits(1.0))).unwrap();
    g.drop_text_indexes();
    let data = AmemWriter::to_bytes(&g, 0).unwrap();

    let mut first = vec![0u8; 8];
    first.push(4);
    first.extend_from_slice(&[0x0D, 0x0C, 0x0B, 0x0A]);
    first.extend_from_slice(&[8, 7, 6, 5, 4, 3, 2, 1]);
    first.extend_from_slice(&0.75f32.to_le_bytes());
    first.extend_from_slice(&[0, 0, 0, 0]);
    first.extend_from_slice(&1.0f32.to_le_bytes());
    first.extend_from_slice(&[3, 0, 0, 0]);
    first.extend_from_slice(&[2, 0, 0, 0]);
    first.extend_from_slice("hé".as_bytes());
    first.extend_from_slice(&1.0f32.to_le_bytes());
    first.extend_from_slice(&[0, 0, 0, 0]);
    assert_eq!(first.len(), 41 + 3 + 8);

    let mut second = vec![1u8, 0, 0, 0, 0, 0, 0, 0];
    second.push(0);
    second.extend_from_slice(&[0u8; 12]);
    second.extend_from_slice(&0.75f32.to_le_bytes());
    second.extend_from_slice(&[0, 0, 0, 0]);
    second.extend_from_slice(&1.0f32.to_le_bytes());
    second.extend_from_slice(&[0, 0, 0, 0]);
    second.extend_from_slice(&[2, 0, 0, 0]);
    second.extend_from_slice(&[0u8; 8]);

    let mut nodes = first.clone();
    nodes.extend_from_slice(&second);

    let mut link = vec![1u8, 0, 0, 0, 0, 0, 0, 0];
    link.extend_from_slice(&[0u8; 8]);
    link.push(4);
    link.extend_from_slice(&1.0f32.to_le_bytes());
    link.extend_from_slice(&[0u8; 8]);
    assert_eq!(link.len(), 29);

    let mut expected = header(2, 2, 1, 0);
    expected.extend_from_slice(&section(TAG_NODES, &nodes));
    expected.extend_from_slice(&section(TAG_EDGES, &link));
    assert_eq!(data, expected);
    assert_eq!((TAG_NODES, TAG_EDGES, TAG_TERM_INDEX, TAG_DOC_LENGTHS), (1, 2, 5, 6));
}

#[test]
fn flags_match_the_sections_written() {
    let g = sample();
    let data = AmemWriter::to_bytes(&g, 5).unwrap();
    assert_eq!(read_header(&data).unwrap().flags, HAS_TERM_INDEX | HAS_DOC_LENGTHS);
    assert!(check_body(&data, 64));
    let terms = locate_section(&data, 64, TAG_TERM_INDEX).unwrap();
    let lengths = locate_section(&data, 64, TAG_DOC_LENGTHS).unwrap();
    assert_eq!(&data[terms.0..terms.0 + terms.1], &g.term_index().unwrap().to_bytes().unwrap()[..]);
    assert_eq!(&data[lengths.0..lengths.0 + lengths.1], &g.doc_lengths().unwrap().to_bytes()[..]);
    assert_eq!(lengths.0 + lengths.1, data.len());

    let mut bare = sample();
    bare.drop_text_indexes();
    let data = AmemWriter::to_bytes(&bare, 5).unwrap();
    assert_eq!(read_header(&data).unwrap().flags, 0);
    assert!(locate_section(&data, 64, TAG_TERM_INDEX).is_none());
    assert!(locate_section(&data, 64, TAG_DOC_LENGTHS).is_none());
    assert!(locate_section(&data, 64, TAG_NODES).is_some());
}

// ==================== Reading ====================

#[test]
fn what_is_written_is_read_back() {
    let mut g = sample();
    g.set_avg_doc_length(bits(2.5));
    let data = AmemWriter::to_bytes(&g, 77).unwrap();
    let back = AmemReader::from_bytes(&data).unwrap();
    same_graph(&g, &back);
    assert_eq!(back.next_id(), 3);
    let terms = back.term_index().unwrap();
    let tokenizer = Tokenizer::new();
    for n in g.nodes() {
        for t in tokenizer.tokenize(&n.content) {
            assert_eq!(terms.get(&t), g.term_index().unwrap().get(&t));
        }
    }
    assert_eq!(terms.doc_count(), 3);
    assert_eq!(terms.term_count(), g.term_index().unwrap().term_count());
    assert_eq!(terms.avg_doc_length(), bits(2.5));
    for n in g.nodes() {
        assert_eq!(back.doc_lengths().unwrap().get(n.id), g.doc_lengths().unwrap().get(n.id));
    }
    assert_eq!(back.type_index().get(EventType::Decision), &vec![1]);
    assert_eq!(back.session_index().get(3), vec![0, 1]);
    assert_eq!(back.temporal_index().most_recent(1), vec![2]);
    assert_eq!(AmemWriter::to_bytes(&back, 77).unwrap(), data);
}

#[test]
fn a_graph_with_removed_nodes_is_read_back() {
    let mut g = sample();
    g.remove_node(1).unwrap();
    let data = AmemWriter::to_bytes(&g, 1).unwrap();
    let back = AmemReader::from_bytes(&data).unwrap();
    same_graph(&g, &back);
    assert_eq!(back.node_count(), 2);
    assert_eq!(back.edge_count(), 0);
    assert_eq!(back.next_id(), 3);
    assert!(back.get_node(1).is_none());
}

#[test]
fn an_empty_graph_is_read_back() {
    let g = MemoryGraph::new(16).unwrap();
    let data = AmemWriter::to_bytes(&g, 1).unwrap();
    let back = AmemReader::from_bytes(&data).unwrap();
    assert_eq!(back.dimension(), 16);
    assert_eq!(back.node_count(), 0);
    assert_eq!(back.edge_count(), 0);
    assert_eq!(back.next_id(), 0);
    let bare = AmemReader::from_bytes(&header(16, 0, 0, 0)).unwrap();
    assert_eq!(bare.dimension(), 16);
    assert_eq!(bare.node_count(), 0);
    assert!(bare.term_index().is_none());
}

#[test]
fn sections_with_unknown_tags_are_passed_over() {
    let mut data = header(1, 2, 1, 0);
    data.extend_from_slice(&section(0x7F, b"from a later version"));
    let mut nodes = node_record(0, 0, b"first", &[0.5]);
    nodes.extend_from_slice(&node_record(4, 2, b"second", &[0.0]));
    data.extend_from_slice(&section(3, &[1, 2, 3]));
    data.extend_from_slice(&section(1, &nodes));
    data.extend_from_slice(&section(0x40, &[]));
    data.extend_from_slice(&section(2, &edge_record(4, 0, 2)));
    data.extend_from_slice(&section(4, &[9; 40]));
    let g = AmemReader::from_bytes(&data).unwrap();
    assert_eq!(g.node_count(), 2);
    assert_eq!(g.next_id(), 5);
    let n = g.get_node(4).unwrap();
    assert_eq!(n.content, "second");
    assert_eq!(n.event_type, EventType::Inference);
    assert_eq!(n.session_id, 7);
    assert_eq!(n.created_at, 55);
    assert_eq!(n.confidence, bits(0.5));
    assert_eq!(n.access_count, 2);
    assert_eq!(n.decay_score, bits(0.25));
    assert_eq!(n.feature_vec, vec![0]);
    assert_eq!(g.get_node(0).unwrap().feature_vec, vec![bits(0.5)]);
    assert_eq!(g.edges().len(), 1);
    let e = g.edges()[0];
    assert_eq!((e.source_id, e.target_id, e.edge_type, e.weight, e.created_at), (4, 0, EdgeType::Supports, bits(0.5), 9));
    assert!(g.term_index().is_none());
    assert!(g.doc_lengths().is_none());
}

#[test]
fn flags_decide_which_text_indexes_a_graph_has() {
    let mut body = Vec::new();
    body.extend_from_slice(&section(1, &node_record(0, 0, b"green tea", &[0.5])));
    for (flags, terms, lengths) in [(0u32, false, false), (1, true, false), (2, false, true), (3, true, true)] {
        let mut data = header(1, 1, 0, flags);
        data.extend_from_slice(&body);
        let g = AmemReader::from_bytes(&data).unwrap();
        assert_eq!(g.term_index().is_some(), terms);
        assert_eq!(g.doc_lengths().is_some(), lengths);
        if terms {
            assert_eq!(g.term_index().unwrap().get("tea").len(), 1);
            assert_eq!(g.term_index().unwrap().avg_doc_length(), 0);
        }
        if lengths {
            assert_eq!(g.doc_lengths().unwrap().get(0), 2);
        }
    }
}

#[test]
fn each_kind_of_damage_is_reported() {
    let g = sample();
    let good = AmemWriter::to_bytes(&g, 1).unwrap();

    assert_eq!(failure(&[]), Some(AmemError::Format(FormatError::TruncatedSection)));
    assert_eq!(failure(&good[..63]), Some(AmemError::Format(FormatError::TruncatedSection)));

    let mut bad = good.clone();
    bad[0] = b'X';
    assert_eq!(failure(&bad), Some(AmemError::Format(FormatError::UnexpectedMagic)));
    assert_eq!(read_header(&bad), Err(FormatError::UnexpectedMagic));

    let mut bad = good.clone();
    bad[4] = 2;
    assert_eq!(failure(&bad), Some(AmemError::Format(FormatError::UnsupportedVersion)));

    assert_eq!(failure(&good[..good.len() - 1]), Some(AmemError::Format(FormatError::TruncatedSection)));
    assert_eq!(failure(&good[..70]), Some(AmemError::Format(FormatError::TruncatedSection)));

    let mut bad = good.clone();
    bad[12] = 4;
    assert_eq!(failure(&bad), Some(AmemError::Format(FormatError::ChecksumMismatch)));

    let mut bad = good.clone();
    bad[20] = 1;
    assert_eq!(failure(&bad), Some(AmemError::Format(FormatError::ChecksumMismatch)));

    let mut bad = good.clone();
    bad[8] = 0;
    assert_eq!(failure(&bad), Some(AmemError::Format(FormatError::ChecksumMismatch)));

    let mut bad = good.clone();
    bad[8] = 3;
    assert_eq!(failure(&bad), Some(AmemError::Format(FormatError::ChecksumMismatch)));
}

#[test]
fn records_that_make_no_graph_are_reported() {
    let read = |nodes: Vec<u8>, n: u64, edges: Vec<u8>, m: u64| {
        let mut data = header(1, n, m, 0);
        data.extend_from_slice(&section(1, &nodes));
        data.extend_from_slice(&section(2, &edges));
        failure(&data)
    };
    let one = node_record(0, 0, b"a", &[0.0]);
    let two = node_record(1, 0, b"b", &[0.0]);
    let both = [one.clone(), two.clone()].concat();
    assert_eq!(read(both.clone(), 2, edge_record(0, 1, 0), 1), None);

    // a kind of event that does not exist
    assert_eq!(read(node_record(0, 6, b"a", &[0.0]), 1, vec![], 0), Some(AmemError::Format(FormatError::TruncatedSection)));
    // content that is no text
    assert_eq!(read(node_record(0, 0, &[0xFF, 0xFE], &[0.0]), 1, vec![], 0), Some(AmemError::Format(FormatError::TruncatedSection)));
    // a record cut short
    assert_eq!(read(one[..one.len() - 1].to_vec(), 1, vec![], 0), Some(AmemError::Format(FormatError::TruncatedSection)));
    // a kind of edge that does not exist
    assert_eq!(read(both.clone(), 2, edge_record(0, 1, 8), 1), Some(AmemError::Format(FormatError::TruncatedSection)));
    // half an edge
    assert_eq!(read(both.clone(), 2, edge_record(0, 1, 0)[..20].to_vec(), 1), Some(AmemError::Format(FormatError::TruncatedSection)));
    // ids that do not ascend
    assert_eq!(read([two.clone(), one.clone()].concat(), 2, vec![], 0), Some(AmemError::Format(FormatError::ChecksumMismatch)));
    assert_eq!(read([one.clone(), one.clone()].concat(), 2, vec![], 0), Some(AmemError::Format(FormatError::ChecksumMismatch)));
    // a vector of another length than the dimension
    assert_eq!(read(node_record(0, 0, b"a", &[0.0, 0.0]), 1, vec![], 0), Some(AmemError::Format(FormatError::ChecksumMismatch)));
    // an edge to a node that is not there
    assert_eq!(read(both.clone(), 2, edge_record(0, 5, 0), 1), Some(AmemError::Format(FormatError::ChecksumMismatch)));
    // the same edge twice
    assert_eq!(
        read(both.clone(), 2, [edge_record(0, 1, 0), edge_record(0, 1, 0)].concat(), 2),
        Some(AmemError::Format(FormatError::ChecksumMismatch))
    );
}

// ==================== The text indexes ====================

#[test]
fn document_lengths_are_written_as_a_count_and_numbers() {
    let mut g = MemoryGraph::new(1).unwrap();
    g.add_node(event(EventType::Fact, "one two three", 1, 1, vec![0])).unwrap();
    g.add_node(event(EventType::Fact, "the", 1, 1, vec![0])).unwrap();
    g.add_node(event(EventType::Fact, "four five", 1, 1, vec![0])).unwrap();
    let lengths = DocLengths::build(&g, &Tokenizer::new());
    let data = lengths.to_bytes();
    assert_eq!(data, vec![3, 0, 0, 0, 0, 0, 0, 0, 3, 0, 0, 0, 0, 0, 0, 0, 2, 0, 0, 0]);
    let back = DocLengths::from_bytes(&data).unwrap();
    for id in 0..4u64 {
        assert_eq!(back.get(id), lengths.get(id));
    }
    assert_eq!((back.get(0), back.get(1), back.get(2), back.get(3)), (3, 0, 2, 0));
    assert_eq!(back.len(), lengths.len());
    assert_eq!(back.total(), 5);
    assert!(DocLengths::from_bytes(&data[..19]).is_none());
    assert!(DocLengths::from_bytes(&data[..7]).is_none());
    assert!(DocLengths::from_bytes(&[0; 8]).unwrap().is_empty());
}

#[test]
fn a_term_index_is_written_in_the_order_of_its_terms() {
    let mut g = MemoryGraph::new(1).unwrap();
    g.add_node(event(EventType::Fact, "zebra apple", 1, 1, vec![0])).unwrap();
    g.add_node(event(EventType::Fact, "apple apple mango", 1, 1, vec![0])).unwrap();
    let mut index = TermIndex::build(&g, &Tokenizer::new());
    index.set_avg_doc_length(bits(2.5));
    let data = index.to_bytes().unwrap();

    let mut expected = Vec::new();
    expected.extend_from_slice(&2u64.to_le_bytes());
    expected.extend_from_slice(&2.5f32.to_le_bytes());
    expected.extend_from_slice(&3u32.to_le_bytes());
    for (term, postings) in [("apple", vec![(0u64, 1u32), (1, 2)]), ("mango", vec![(1, 1)]), ("zebra", vec![(0, 1)])] {
        expected.extend_from_slice(&(term.len() as u16).to_le_bytes());
        expected.extend_from_slice(term.as_bytes());
        expected.extend_from_slice(&(postings.len() as u32).to_le_bytes());
        for (id, tf) in postings {
            expected.extend_from_slice(&id.to_le_bytes());
            expected.extend_from_slice(&tf.to_le_bytes());
        }
    }
    assert_eq!(data, expected);

    let back = TermIndex::from_bytes(&data).unwrap();
    assert_eq!(back.doc_count(), 2);
    assert_eq!(back.term_count(), 3);
    assert_eq!(back.avg_doc_length(), bits(2.5));
    for term in ["apple", "mango", "zebra", "pear"] {
        assert_eq!(back.get(term), index.get(term));
    }
    assert_eq!(back.to_bytes().unwrap(), data);
    assert!(TermIndex::from_bytes(&data[..data.len() - 1]).is_none());
    assert!(TermIndex::from_bytes(&data[..15]).is_none());
}

#[test]
fn an_index_that_was_read_knows_the_documents_of_its_postings() {
    let mut g = MemoryGraph::new(1).unwrap();
    g.add_node(event(EventType::Fact, "zebra apple", 1, 1, vec![0])).unwrap();
    g.add_node(event(EventType::Fact, "", 1, 1, vec![0])).unwrap();
    g.add_node(event(EventType::Fact, "apple mango", 1, 1, vec![0])).unwrap();
    let index = TermIndex::build(&g, &Tokenizer::new());
    assert_eq!((index.doc_count(), index.total_tokens()), (3, 4));
    let mut back = TermIndex::from_bytes(&index.to_bytes().unwrap()).unwrap();
    assert_eq!((back.doc_count(), back.total_tokens()), (3, 0));
    back.remove_node(9);
    assert_eq!(back.doc_count(), 3);
    back.remove_node(1);
    assert_eq!(back.doc_count(), 3);
    back.remove_node(2);
    assert_eq!(back.doc_count(), 2);
    assert_eq!(back.doc_frequency("apple"), 1);
    assert_eq!(back.doc_frequency("mango"), 0);
    back.remove_node(2);
    assert_eq!(back.doc_count(), 2);
}

#[test]
fn a_node_with_the_last_id_is_not_read() {
    let mut full = header(1, 1, 0, 0);
    full.extend_from_slice(&section(1, &node_record(u64::MAX, 0, b"last", &[0.0])));
    assert_eq!(failure(&full), Some(AmemError::Format(FormatError::ChecksumMismatch)));
}
