//! Tokenizer, term index, document lengths, text search and hybrid search.

use agentic_memory::engine::query::QueryEngine;
use agentic_memory::engine::relevance::{belief_negations, has_word_of};
use agentic_memory::engine::text_search::{TextCandidates, TextSearchParams};
use agentic_memory::graph::MemoryGraph;
use agentic_memory::index::doc_lengths::DocLengths;
use agentic_memory::index::term_index::TermIndex;
use agentic_memory::rank::select_top;
use agentic_memory::tokenizer::{split_runs, words_of, Tokenizer};
use agentic_memory::types::{CognitiveEventBuilder, EventType, DEFAULT_DIMENSION};

// ==================== Helpers ====================

const BM25_K1: f32 = 1.2;
const BM25_B: f32 = 0.75;

fn bits(x: f32) -> u32 {
    x.to_bits()
}

fn key_of(x: f32) -> u64 {
    let b = x.to_bits();
    if b & 0x8000_0000 != 0 {
        (!b) as u64
    } else {
        (b | 0x8000_0000) as u64
    }
}

fn zero_vec() -> Vec<u32> {
    vec![0; DEFAULT_DIMENSION]
}

fn basis_vec(index: usize, value: f32) -> Vec<u32> {
    let mut v = vec![0u32; DEFAULT_DIMENSION];
    if index < DEFAULT_DIMENSION {
        v[index] = bits(value);
    }
    v
}

fn floats(v: &[u32]) -> Vec<f32> {
    v.iter().map(|&b| f32::from_bits(b)).collect()
}

fn cosine_similarity(a: &[f32], b: &[f32]) -> f32 {
    let mut dot = 0.0f32;
    let mut na = 0.0f32;
    let mut nb = 0.0f32;
    for (x, y) in a.iter().zip(b.iter()) {
        dot += x * y;
        na += x * x;
        nb += y * y;
    }
    let denom = na.sqrt() * nb.sqrt();
    if denom == 0.0 {
        0.0
    } else {
        dot / denom
    }
}

fn fact(content: &str, session: u32) -> agentic_memory::types::CognitiveEvent {
    CognitiveEventBuilder::new(EventType::Fact, content)
        .session_id(session)
        .confidence(bits(0.9))
        .build()
}

fn event(event_type: EventType, content: &str, vec: Vec<u32>) -> agentic_memory::types::CognitiveEvent {
    CognitiveEventBuilder::new(event_type, content)
        .session_id(1)
        .confidence(bits(0.9))
        .feature_vec(vec)
        .build()
}

/// The term index of a graph, with its average document length.
fn build_term_index(graph: &MemoryGraph, tokenizer: &Tokenizer) -> TermIndex {
    let mut index = TermIndex::build(graph, tokenizer);
    if index.doc_count() > 0 {
        let avg = index.total_tokens() as f32 / index.doc_count() as f32;
        index.set_avg_doc_length(avg.to_bits());
    }
    index
}

fn average(lengths: &DocLengths) -> f32 {
    if lengths.len() == 0 {
        0.0
    } else {
        lengths.total() as f32 / lengths.len() as f32
    }
}

struct TextMatch {
    node_id: u64,
    score: f32,
}

fn score_candidates(found: &TextCandidates, min_score: f32, max_results: usize) -> Vec<TextMatch> {
    let n = found.doc_count as f32;
    let avgdl = if found.indexed {
        f32::from_bits(found.avg_doc_length)
    } else if found.doc_count == 0 {
        0.0
    } else {
        found.total_tokens as f32 / found.doc_count as f32
    };
    let mut items: Vec<(u64, u32)> = Vec::new();
    let mut keys: Vec<u64> = Vec::new();
    for cand in &found.candidates {
        let mut score = 0.0f32;
        for hit in &cand.hits {
            let df = hit.df as f32;
            let idf = ((n - df + 0.5) / (df + 0.5) + 1.0).ln();
            let tf = hit.tf as f32;
            let dl = cand.doc_len as f32;
            score += idf * (tf * (BM25_K1 + 1.0))
                / (tf + BM25_K1 * (1.0 - BM25_B + BM25_B * dl / avgdl.max(1.0)));
        }
        if !found.indexed && !(score > 0.0) {
            continue;
        }
        if score >= min_score {
            items.push((cand.node_id, score.to_bits()));
            keys.push(key_of(score));
        }
    }
    select_top(&items, &keys, true, max_results)
        .into_iter()
        .map(|(node_id, b)| TextMatch { node_id, score: f32::from_bits(b) })
        .collect()
}

fn text_search(
    engine: &QueryEngine,
    graph: &MemoryGraph,
    term_index: Option<&TermIndex>,
    doc_lengths: Option<&DocLengths>,
    query: &str,
    max_results: usize,
    event_types: Vec<EventType>,
    session_ids: Vec<u32>,
) -> Vec<TextMatch> {
    let params = TextSearchParams { query: query.to_string(), max_results, event_types, session_ids };
    let found = engine.text_search(graph, term_index, doc_lengths, &params);
    if found.query_terms.is_empty() {
        return Vec::new();
    }
    score_candidates(&found, 0.0, max_results)
}

struct HybridMatch {
    node_id: u64,
    combined_score: f32,
}

fn hybrid_search(
    engine: &QueryEngine,
    graph: &MemoryGraph,
    term_index: Option<&TermIndex>,
    doc_lengths: Option<&DocLengths>,
    query_text: &str,
    query_vec: Option<Vec<u32>>,
    max_results: usize,
    text_weight: f32,
    vector_weight: f32,
    rrf_k: u32,
) -> Vec<HybridMatch> {
    let overfetch = max_results * 3;
    let total_weight = text_weight + vector_weight;
    let (tw, vw) = if total_weight > 0.0 {
        (text_weight / total_weight, vector_weight / total_weight)
    } else {
        (0.5, 0.5)
    };
    let text = text_search(engine, graph, term_index, doc_lengths, query_text, overfetch, vec![], vec![]);
    let text_ids: Vec<u64> = text.iter().map(|m| m.node_id).collect();

    let has_vectors = query_vec.is_some()
        && graph.nodes().iter().any(|n| n.feature_vec.iter().any(|&x| f32::from_bits(x) != 0.0));
    let mut vector_ids: Vec<u64> = Vec::new();
    if has_vectors {
        let qvec = floats(query_vec.as_ref().unwrap());
        let mut items: Vec<u64> = Vec::new();
        let mut keys: Vec<u64> = Vec::new();
        for node in graph.nodes() {
            let v = floats(&node.feature_vec);
            if v.iter().all(|&x| x == 0.0) {
                continue;
            }
            let sim = cosine_similarity(&qvec, &v);
            if sim > 0.0 {
                items.push(node.id);
                keys.push(key_of(sim));
            }
        }
        vector_ids = select_top(&items, &keys, true, overfetch);
    }

    let fused = engine.fuse_ranks(&text_ids, &vector_ids);
    let k = rrf_k as f32;
    let mut items: Vec<(u64, u32)> = Vec::new();
    let mut keys: Vec<u64> = Vec::new();
    for pair in &fused {
        let rrf_text = tw / (k + pair.text_rank as f32);
        let rrf_vec = if has_vectors { vw / (k + pair.vector_rank as f32) } else { 0.0 };
        let combined = rrf_text + rrf_vec;
        items.push((pair.node_id, combined.to_bits()));
        keys.push(key_of(combined));
    }
    select_top(&items, &keys, true, max_results)
        .into_iter()
        .map(|(node_id, b)| HybridMatch { node_id, combined_score: f32::from_bits(b) })
        .collect()
}

// ==================== Tokenizer Tests ====================

#[test]
fn test_tokenizer_basic() {
    let tokenizer = Tokenizer::new();
    let tokens = tokenizer.tokenize("Hello World");
    assert_eq!(tokens, vec!["hello", "world"]);
}

#[test]
fn test_tokenizer_stop_words_removed() {
    let tokenizer = Tokenizer::new();
    let tokens = tokenizer.tokenize("the quick brown fox");
    assert_eq!(tokens, vec!["quick", "brown", "fox"]);
}

#[test]
fn test_tokenizer_short_tokens_removed() {
    let tokenizer = Tokenizer::new();
    let tokens = tokenizer.tokenize("I am a Rust developer");
    assert_eq!(tokens, vec!["am", "rust", "developer"]);

    let tokens2 = tokenizer.tokenize("I x y Rust");
    assert_eq!(tokens2, vec!["rust"]);
}

#[test]
fn test_tokenizer_punctuation_stripped() {
    let tokenizer = Tokenizer::new();
    let tokens = tokenizer.tokenize("user's name is Marcus!");
    assert_eq!(tokens, vec!["user", "name", "marcus"]);
}

#[test]
fn test_tokenizer_deterministic() {
    let tokenizer = Tokenizer::new();
    let input = "The Rust programming language is blazingly fast and memory-safe";
    let expected = tokenizer.tokenize(input);
    for _ in 0..100 {
        let result = tokenizer.tokenize(input);
        assert_eq!(result, expected, "Tokenizer output must be deterministic");
    }
}

#[test]
fn test_tokenizer_unicode() {
    let tokenizer = Tokenizer::new();
    let tokens = tokenizer.tokenize("cafe resume naive");
    assert_eq!(tokens, vec!["cafe", "resume", "naive"]);

    let tokens2 = tokenizer.tokenize("\u{00e9}l\u{00e8}ve r\u{00e9}sum\u{00e9} na\u{00ef}ve");
    assert!(!tokens2.is_empty(), "Unicode tokens should not be empty");
    for tok in &tokens2 {
        assert!(tok.len() >= 2, "Token '{}' should be >= 2 chars", tok);
    }
}

#[test]
fn test_tokenizer_empty_string() {
    let tokenizer = Tokenizer::new();
    let tokens = tokenizer.tokenize("");
    assert!(tokens.is_empty());
}

#[test]
fn test_tokenizer_only_stop_words() {
    let tokenizer = Tokenizer::new();
    let tokens = tokenizer.tokenize("the is a");
    assert!(tokens.is_empty());
}

#[test]
fn tokenize_lowercases_and_cuts_at_punctuation() {
    let t = Tokenizer::new();
    let toks = t.tokenize("The Quick brown-fox is a FOX");
    assert_eq!(toks, vec!["quick", "brown", "fox", "fox"]);
}

#[test]
fn tokenizer_counts_characters() {
    let t = Tokenizer::new();
    assert_eq!(t.tokenize("\u{00e9} x"), Vec::<String>::new());
    assert_eq!(t.tokenize("\u{00e9}\u{00e9} xy"), vec!["\u{00e9}\u{00e9}", "xy"]);
}

#[test]
fn term_frequencies_count_in_order_of_first_occurrence() {
    let t = Tokenizer::new();
    let freqs = t.term_frequencies("rust python rust Rust go");
    assert_eq!(
        freqs,
        vec![("rust".to_string(), 3), ("python".to_string(), 1), ("go".to_string(), 1)]
    );
}

// ==================== TermIndex Tests ====================

#[test]
fn test_term_index_build() {
    let mut graph = MemoryGraph::new(DEFAULT_DIMENSION).unwrap();
    let tokenizer = Tokenizer::new();
    let contents = [
        "Rust programming language",
        "Python programming language",
        "Rust memory safety guarantees",
        "JavaScript web development",
        "Rust and Python interoperability",
    ];
    for content in &contents {
        graph.add_node(fact(content, 1)).unwrap();
    }

    let index = build_term_index(&graph, &tokenizer);

    assert_eq!(index.doc_frequency("rust"), 3);
    assert_eq!(index.doc_frequency("programming"), 2);
    assert_eq!(index.doc_frequency("language"), 2);
    assert_eq!(index.doc_frequency("python"), 2);
    assert_eq!(index.doc_frequency("javascript"), 1);
    assert_eq!(index.doc_count(), 5);

    let rust_postings = index.get("rust");
    let rust_ids: Vec<u64> = rust_postings.iter().map(|p| p.node_id).collect();
    assert!(rust_ids.contains(&0));
    assert!(rust_ids.contains(&2));
    assert!(rust_ids.contains(&4));
    assert_eq!(rust_ids.len(), 3);
}

#[test]
fn test_term_index_doc_frequency() {
    let mut graph = MemoryGraph::new(DEFAULT_DIMENSION).unwrap();
    let tokenizer = Tokenizer::new();
    let contents = [
        "Rust programming",
        "Python scripting",
        "Rust systems design",
        "JavaScript frontend",
        "Rust embedded devices",
    ];
    for content in &contents {
        graph.add_node(fact(content, 1)).unwrap();
    }

    let index = build_term_index(&graph, &tokenizer);
    assert_eq!(index.doc_frequency("rust"), 3);
    assert_eq!(index.doc_frequency("python"), 1);
    assert_eq!(index.doc_frequency("nonexistent"), 0);
}

#[test]
fn test_term_index_add_node_incremental() {
    let mut graph = MemoryGraph::new(DEFAULT_DIMENSION).unwrap();
    let tokenizer = Tokenizer::new();
    graph.add_node(fact("Rust programming", 1)).unwrap();

    let mut index = build_term_index(&graph, &tokenizer);
    assert_eq!(index.doc_frequency("rust"), 1);
    assert_eq!(index.doc_frequency("quantum"), 0);
    assert_eq!(index.doc_count(), 1);

    let mut new_event = fact("quantum computing research", 1);
    new_event.id = 1;
    index.add_node(&new_event);

    assert_eq!(index.doc_frequency("quantum"), 1);
    assert_eq!(index.doc_count(), 2);
    assert_eq!(index.doc_frequency("rust"), 1);
}

#[test]
fn test_term_index_remove_node() {
    let mut graph = MemoryGraph::new(DEFAULT_DIMENSION).unwrap();
    let tokenizer = Tokenizer::new();
    let id0 = graph.add_node(fact("Rust programming language", 1)).unwrap();
    graph.add_node(fact("Python scripting language", 1)).unwrap();

    let mut index = build_term_index(&graph, &tokenizer);
    assert_eq!(index.doc_frequency("rust"), 1);
    assert_eq!(index.doc_frequency("language"), 2);
    assert_eq!(index.doc_count(), 2);

    index.remove_node(id0);
    assert_eq!(index.doc_frequency("rust"), 0);
    assert_eq!(index.doc_frequency("language"), 1);
    assert_eq!(index.doc_count(), 1);
}

#[test]
fn test_term_index_write_read_roundtrip() {
    let mut graph = MemoryGraph::new(DEFAULT_DIMENSION).unwrap();
    let tokenizer = Tokenizer::new();
    let contents = ["Rust programming language", "Python data science", "Machine learning algorithms"];
    for content in &contents {
        graph.add_node(fact(content, 1)).unwrap();
    }

    let original = build_term_index(&graph, &tokenizer);
    let bytes = original.to_bytes().expect("Should serialize");
    let restored = TermIndex::from_bytes(&bytes).expect("Should deserialize successfully");

    assert_eq!(restored.doc_count(), original.doc_count());
    let restored_avg = f32::from_bits(restored.avg_doc_length());
    let original_avg = f32::from_bits(original.avg_doc_length());
    assert!(
        (restored_avg - original_avg).abs() < f32::EPSILON,
        "avg_doc_length mismatch: {} vs {}",
        restored_avg,
        original_avg
    );
    assert!((original_avg - 3.0).abs() < f32::EPSILON);
    assert_eq!(restored.term_count(), original.term_count());

    for term in &[
        "rust", "programming", "language", "python", "data", "science", "machine", "learning",
        "algorithms",
    ] {
        let orig_postings = original.get(term);
        let rest_postings = restored.get(term);
        assert_eq!(
            orig_postings.len(),
            rest_postings.len(),
            "Posting list length mismatch for term '{}'",
            term
        );
        assert_eq!(orig_postings.len(), 1);
        for (orig, rest) in orig_postings.iter().zip(rest_postings.iter()) {
            assert_eq!(orig.node_id, rest.node_id, "Node ID mismatch for term '{}'", term);
            assert_eq!(orig.term_freq, rest.term_freq, "Term freq mismatch for term '{}'", term);
        }
    }
}

#[test]
fn term_index_bytes_are_laid_out_by_term() {
    let mut index = TermIndex::new();
    let mut e = fact("beta alpha beta", 1);
    e.id = 7;
    index.add_node(&e);
    let bytes = index.to_bytes().unwrap();
    let mut expected: Vec<u8> = Vec::new();
    expected.extend_from_slice(&1u64.to_le_bytes());
    expected.extend_from_slice(&0u32.to_le_bytes());
    expected.extend_from_slice(&2u32.to_le_bytes());
    expected.extend_from_slice(&5u16.to_le_bytes());
    expected.extend_from_slice(b"alpha");
    expected.extend_from_slice(&1u32.to_le_bytes());
    expected.extend_from_slice(&7u64.to_le_bytes());
    expected.extend_from_slice(&1u32.to_le_bytes());
    expected.extend_from_slice(&4u16.to_le_bytes());
    expected.extend_from_slice(b"beta");
    expected.extend_from_slice(&1u32.to_le_bytes());
    expected.extend_from_slice(&7u64.to_le_bytes());
    expected.extend_from_slice(&2u32.to_le_bytes());
    assert_eq!(bytes, expected);
}

#[test]
fn term_index_from_bytes_rejects_short_and_disordered_data() {
    assert!(TermIndex::from_bytes(&[0u8; 15]).is_none());
    let mut data: Vec<u8> = Vec::new();
    data.extend_from_slice(&0u64.to_le_bytes());
    data.extend_from_slice(&0u32.to_le_bytes());
    data.extend_from_slice(&2u32.to_le_bytes());
    for term in ["beta", "alpha"] {
        data.extend_from_slice(&(term.len() as u16).to_le_bytes());
        data.extend_from_slice(term.as_bytes());
        data.extend_from_slice(&0u32.to_le_bytes());
    }
    assert!(TermIndex::from_bytes(&data).is_none());
    // One entry announced, none there.
    let mut short: Vec<u8> = Vec::new();
    short.extend_from_slice(&0u64.to_le_bytes());
    short.extend_from_slice(&0u32.to_le_bytes());
    short.extend_from_slice(&1u32.to_le_bytes());
    assert!(TermIndex::from_bytes(&short).is_none());
}

// ==================== DocLengths Tests ====================

#[test]
fn test_doc_lengths_build() {
    let mut graph = MemoryGraph::new(DEFAULT_DIMENSION).unwrap();
    let tokenizer = Tokenizer::new();
    let id0 = graph.add_node(fact("Rust programming", 1)).unwrap();
    let id1 = graph.add_node(fact("the quick brown fox jumps", 1)).unwrap();
    let id2 = graph.add_node(fact("a", 1)).unwrap();

    let doc_lengths = DocLengths::build(&graph, &tokenizer);

    let manual_tokens_0 = tokenizer.tokenize("Rust programming");
    let manual_tokens_1 = tokenizer.tokenize("the quick brown fox jumps");
    let manual_tokens_2 = tokenizer.tokenize("a");

    assert_eq!(doc_lengths.get(id0), manual_tokens_0.len() as u32, "Node 0 length mismatch");
    assert_eq!(doc_lengths.get(id1), manual_tokens_1.len() as u32, "Node 1 length mismatch");
    assert_eq!(doc_lengths.get(id2), manual_tokens_2.len() as u32, "Node 2 length mismatch");
    assert_eq!(doc_lengths.get(id0), 2);
    assert_eq!(doc_lengths.get(id1), 4);
    assert_eq!(doc_lengths.get(id2), 0);
    assert_eq!(doc_lengths.get(99), 0);
}

#[test]
fn test_doc_lengths_write_read_roundtrip() {
    let mut graph = MemoryGraph::new(DEFAULT_DIMENSION).unwrap();
    let tokenizer = Tokenizer::new();
    let contents = [
        "Rust programming language",
        "Python data science toolkit",
        "Machine learning algorithms research",
    ];
    for content in &contents {
        graph.add_node(fact(content, 1)).unwrap();
    }

    let original = DocLengths::build(&graph, &tokenizer);
    let bytes = original.to_bytes();
    let restored = DocLengths::from_bytes(&bytes).expect("Should deserialize successfully");

    for id in 0..3u64 {
        assert_eq!(restored.get(id), original.get(id), "DocLength mismatch for node {}", id);
    }
    assert_eq!(restored.len(), original.len());
    assert!(
        (average(&restored) - average(&original)).abs() < f32::EPSILON,
        "Average doc length mismatch: {} vs {}",
        average(&restored),
        average(&original)
    );
}

#[test]
fn doc_lengths_bytes_and_updates() {
    let mut table = DocLengths::new();
    assert!(table.is_empty());
    let mut e = fact("rust memory safety", 1);
    e.id = 2;
    table.add_node(&e);
    assert_eq!(table.get(2), 3);
    assert_eq!(table.len(), 1);
    assert_eq!(table.total(), 3);
    let bytes = table.to_bytes();
    let mut expected: Vec<u8> = Vec::new();
    expected.extend_from_slice(&3u64.to_le_bytes());
    for x in [0u32, 0, 3] {
        expected.extend_from_slice(&x.to_le_bytes());
    }
    assert_eq!(bytes, expected);
    assert!(DocLengths::from_bytes(&bytes[..7]).is_none());
    assert!(DocLengths::from_bytes(&bytes[..19]).is_none());
    table.remove_node(2);
    assert_eq!(table.get(2), 0);
    assert!(table.is_empty());
    table.clear();
    assert_eq!(table.to_bytes(), 0u64.to_le_bytes().to_vec());
}

// ==================== BM25 Search Tests ====================

fn build_topic_graph() -> MemoryGraph {
    let mut graph = MemoryGraph::new(DEFAULT_DIMENSION).unwrap();
    let contents = [
        "Rust programming language systems development",
        "Python machine learning data science",
        "JavaScript web frontend development",
        "Rust memory safety ownership borrowing",
        "Database SQL query optimization techniques",
        "Cloud computing infrastructure deployment",
        "Rust concurrency async await tokio runtime",
        "Python natural language processing NLP",
        "DevOps continuous integration testing pipeline",
        "Rust WebAssembly WASM browser performance",
    ];
    for (i, content) in contents.iter().enumerate() {
        graph.add_node(fact(content, (i / 3) as u32 + 1)).unwrap();
    }
    graph
}

#[test]
fn test_bm25_basic_search() {
    let graph = build_topic_graph();
    let tokenizer = Tokenizer::new();
    let term_index = build_term_index(&graph, &tokenizer);
    let doc_lengths = DocLengths::build(&graph, &tokenizer);
    let engine = QueryEngine::new();

    let results = text_search(
        &engine, &graph, Some(&term_index), Some(&doc_lengths), "Rust programming", 10, vec![], vec![],
    );

    assert!(!results.is_empty(), "Should find nodes about Rust");
    let rust_node_ids: Vec<u64> = vec![0, 3, 6, 9];
    assert!(
        rust_node_ids.contains(&results[0].node_id),
        "Top result (node {}) should be a Rust-related node",
        results[0].node_id
    );
    let result_ids: Vec<u64> = results.iter().map(|m| m.node_id).collect();
    for &rust_id in &rust_node_ids {
        assert!(result_ids.contains(&rust_id), "Rust node {} should appear in results", rust_id);
    }
}

#[test]
fn test_bm25_idf_weighting() {
    let mut graph = MemoryGraph::new(DEFAULT_DIMENSION).unwrap();
    let contents = [
        "project alpha development team",
        "project beta development team",
        "project gamma development team",
        "project delta development team",
        "quantum project epsilon research",
    ];
    for content in &contents {
        graph.add_node(fact(content, 1)).unwrap();
    }
    let tokenizer = Tokenizer::new();
    let term_index = build_term_index(&graph, &tokenizer);
    let doc_lengths = DocLengths::build(&graph, &tokenizer);
    let engine = QueryEngine::new();

    let results = text_search(
        &engine, &graph, Some(&term_index), Some(&doc_lengths), "quantum project", 10, vec![], vec![],
    );

    assert!(!results.is_empty());
    assert_eq!(
        results[0].node_id, 4,
        "Node with rare term 'quantum' should rank first, got node {}",
        results[0].node_id
    );
}

#[test]
fn test_bm25_length_normalization() {
    let mut graph = MemoryGraph::new(DEFAULT_DIMENSION).unwrap();
    let long_content = format!(
        "Rust {}",
        (0..99).map(|i| format!("filler{}", i)).collect::<Vec<_>>().join(" ")
    );
    let short_id = graph.add_node(fact("Rust developer", 1)).unwrap();
    let long_id = graph.add_node(fact(&long_content, 1)).unwrap();

    let tokenizer = Tokenizer::new();
    let term_index = build_term_index(&graph, &tokenizer);
    let doc_lengths = DocLengths::build(&graph, &tokenizer);
    let engine = QueryEngine::new();

    let results =
        text_search(&engine, &graph, Some(&term_index), Some(&doc_lengths), "Rust", 10, vec![], vec![]);

    assert!(results.len() >= 2, "Should find both nodes");
    let short_score = results
        .iter()
        .find(|m| m.node_id == short_id)
        .map(|m| m.score)
        .expect("Short node should be in results");
    let long_score = results
        .iter()
        .find(|m| m.node_id == long_id)
        .map(|m| m.score)
        .expect("Long node should be in results");
    assert!(
        short_score > long_score,
        "Short node (score {}) should score higher than long node (score {})",
        short_score,
        long_score
    );
}

#[test]
fn test_bm25_no_match_returns_empty() {
    let graph = build_topic_graph();
    let tokenizer = Tokenizer::new();
    let term_index = build_term_index(&graph, &tokenizer);
    let doc_lengths = DocLengths::build(&graph, &tokenizer);
    let engine = QueryEngine::new();

    let results = text_search(
        &engine, &graph, Some(&term_index), Some(&doc_lengths), "xyzzyplugh nonexistent", 10, vec![],
        vec![],
    );
    assert!(results.is_empty(), "Search for nonexistent term should return empty");
}

#[test]
fn test_bm25_filter_by_type() {
    let mut graph = MemoryGraph::new(DEFAULT_DIMENSION).unwrap();
    graph.add_node(event(EventType::Fact, "Rust programming language", zero_vec())).unwrap();
    let id1 = graph.add_node(event(EventType::Decision, "Decided to use Rust", zero_vec())).unwrap();
    graph.add_node(event(EventType::Fact, "Rust is memory safe", zero_vec())).unwrap();
    let id3 = graph.add_node(event(EventType::Decision, "Rust for backend services", zero_vec())).unwrap();

    let tokenizer = Tokenizer::new();
    let term_index = build_term_index(&graph, &tokenizer);
    let doc_lengths = DocLengths::build(&graph, &tokenizer);
    let engine = QueryEngine::new();

    let results = text_search(
        &engine, &graph, Some(&term_index), Some(&doc_lengths), "Rust", 10, vec![EventType::Decision],
        vec![],
    );

    assert!(!results.is_empty());
    let result_ids: Vec<u64> = results.iter().map(|m| m.node_id).collect();
    for &rid in &result_ids {
        let node = graph.get_node(rid).unwrap();
        assert_eq!(
            node.event_type,
            EventType::Decision,
            "Node {} should be a Decision, got {:?}",
            rid,
            node.event_type
        );
    }
    assert!(result_ids.contains(&id1));
    assert!(result_ids.contains(&id3));
}

#[test]
fn test_bm25_filter_by_session() {
    let mut graph = MemoryGraph::new(DEFAULT_DIMENSION).unwrap();
    for session in 1..=3u32 {
        graph.add_node(fact(&format!("Rust development session {}", session), session)).unwrap();
    }
    let tokenizer = Tokenizer::new();
    let term_index = build_term_index(&graph, &tokenizer);
    let doc_lengths = DocLengths::build(&graph, &tokenizer);
    let engine = QueryEngine::new();

    let results = text_search(
        &engine, &graph, Some(&term_index), Some(&doc_lengths), "Rust", 10, vec![], vec![1, 2],
    );

    assert_eq!(results.len(), 2);
    for m in &results {
        let node = graph.get_node(m.node_id).unwrap();
        assert!(
            node.session_id == 1 || node.session_id == 2,
            "Node {} has session {}, expected 1 or 2",
            m.node_id,
            node.session_id
        );
    }
}

#[test]
fn test_bm25_slow_path_matches_fast_path() {
    let graph = build_topic_graph();
    let tokenizer = Tokenizer::new();
    let term_index = build_term_index(&graph, &tokenizer);
    let doc_lengths = DocLengths::build(&graph, &tokenizer);
    let engine = QueryEngine::new();
    let query = "Rust programming language systems";

    let results_fast =
        text_search(&engine, &graph, Some(&term_index), Some(&doc_lengths), query, 100, vec![], vec![]);
    let results_slow = text_search(&engine, &graph, None, None, query, 100, vec![], vec![]);

    assert_eq!(
        results_fast.len(),
        results_slow.len(),
        "Fast path ({} results) and slow path ({} results) should return same count",
        results_fast.len(),
        results_slow.len()
    );
    let mut fast_ids: Vec<u64> = results_fast.iter().map(|m| m.node_id).collect();
    let mut slow_ids: Vec<u64> = results_slow.iter().map(|m| m.node_id).collect();
    fast_ids.sort();
    slow_ids.sort();
    assert_eq!(fast_ids, slow_ids, "Fast and slow paths should return the same set of node IDs");

    for fast in &results_fast {
        let slow_match = results_slow
            .iter()
            .find(|s| s.node_id == fast.node_id)
            .expect("Node should appear in both result sets");
        assert!(
            (fast.score - slow_match.score).abs() < 1e-4,
            "Score mismatch for node {}: fast={}, slow={}",
            fast.node_id,
            fast.score,
            slow_match.score
        );
    }
    for results in [&results_fast, &results_slow] {
        for window in results.windows(2) {
            assert!(
                window[0].score >= window[1].score - 1e-6,
                "Results should be sorted by descending score"
            );
        }
    }
}

#[test]
fn test_bm25_max_results_limit() {
    let mut graph = MemoryGraph::new(DEFAULT_DIMENSION).unwrap();
    for i in 0..100 {
        graph.add_node(fact(&format!("development project number {} details", i), 1)).unwrap();
    }
    let tokenizer = Tokenizer::new();
    let term_index = build_term_index(&graph, &tokenizer);
    let doc_lengths = DocLengths::build(&graph, &tokenizer);
    let engine = QueryEngine::new();

    let results = text_search(
        &engine, &graph, Some(&term_index), Some(&doc_lengths), "development", 5, vec![], vec![],
    );
    assert_eq!(results.len(), 5, "Should return exactly 5 results");
}

#[test]
fn test_bm25_scores_are_positive() {
    let graph = build_topic_graph();
    let tokenizer = Tokenizer::new();
    let term_index = build_term_index(&graph, &tokenizer);
    let doc_lengths = DocLengths::build(&graph, &tokenizer);
    let engine = QueryEngine::new();
    let queries = ["Rust", "Python machine learning", "web development", "cloud computing deployment"];

    for query_str in &queries {
        let results = text_search(
            &engine, &graph, Some(&term_index), Some(&doc_lengths), query_str, 100, vec![], vec![],
        );
        for m in &results {
            assert!(
                m.score >= 0.0,
                "BM25 score for node {} with query '{}' is {}, expected >= 0.0",
                m.node_id,
                query_str,
                m.score
            );
        }
    }
}

#[test]
fn text_candidates_name_terms_frequencies_and_lengths() {
    let mut graph = MemoryGraph::new(DEFAULT_DIMENSION).unwrap();
    graph.add_node(fact("rust rust python", 1)).unwrap();
    graph.add_node(fact("python only", 1)).unwrap();
    let tokenizer = Tokenizer::new();
    let index = build_term_index(&graph, &tokenizer);
    let lengths = DocLengths::build(&graph, &tokenizer);
    let engine = QueryEngine::new();
    let params = TextSearchParams {
        query: "rust python".to_string(),
        max_results: 10,
        event_types: vec![],
        session_ids: vec![],
    };
    for indexed in [true, false] {
        let found = if indexed {
            engine.text_search(&graph, Some(&index), Some(&lengths), &params)
        } else {
            engine.text_search(&graph, None, None, &params)
        };
        assert_eq!(found.indexed, indexed);
        assert_eq!(found.query_terms, vec!["rust", "python"]);
        assert_eq!(found.doc_count, 2);
        assert_eq!(found.candidates.len(), 2);
        let first = &found.candidates[0];
        assert_eq!((first.node_id, first.doc_len), (0, 3));
        let hits: Vec<(usize, u32, usize)> = first.hits.iter().map(|h| (h.term, h.tf, h.df)).collect();
        assert_eq!(hits, vec![(0, 2, 1), (1, 1, 2)]);
        let second = &found.candidates[1];
        assert_eq!((second.node_id, second.doc_len), (1, 2));
        let hits: Vec<(usize, u32, usize)> = second.hits.iter().map(|h| (h.term, h.tf, h.df)).collect();
        assert_eq!(hits, vec![(1, 1, 2)]);
    }
}

#[test]
fn fuse_ranks_lists_text_results_first_with_sentinel_ranks() {
    let engine = QueryEngine::new();
    let fused = engine.fuse_ranks(&vec![5, 3], &vec![3, 9, 7]);
    let got: Vec<(u64, u64, u64)> = fused.iter().map(|p| (p.node_id, p.text_rank, p.vector_rank)).collect();
    assert_eq!(got, vec![(5, 1, 4), (3, 2, 1), (9, 3, 2), (7, 3, 3)]);
}

// ==================== Hybrid Search Tests ====================

#[test]
fn test_hybrid_basic() {
    let mut graph = MemoryGraph::new(DEFAULT_DIMENSION).unwrap();
    graph.add_node(event(EventType::Fact, "Rust programming language", basis_vec(0, 1.0))).unwrap();
    graph.add_node(event(EventType::Fact, "Python data science", basis_vec(1, 1.0))).unwrap();
    graph.add_node(event(EventType::Decision, "Use Rust for performance", basis_vec(0, 0.8))).unwrap();

    let tokenizer = Tokenizer::new();
    let term_index = build_term_index(&graph, &tokenizer);
    let doc_lengths = DocLengths::build(&graph, &tokenizer);
    let engine = QueryEngine::new();

    let results = hybrid_search(
        &engine, &graph, Some(&term_index), Some(&doc_lengths), "Rust programming",
        Some(basis_vec(0, 1.0)), 10, 0.5, 0.5, 60,
    );

    assert!(!results.is_empty(), "Hybrid search should return results");
    let top_ids: Vec<u64> = results.iter().map(|m| m.node_id).collect();
    assert!(top_ids.contains(&0), "Node 0 should appear in hybrid results");
    for m in &results {
        assert!(m.combined_score > 0.0, "Combined score for node {} should be positive", m.node_id);
    }
}

#[test]
fn test_hybrid_rrf_fusion() {
    let mut graph = MemoryGraph::new(DEFAULT_DIMENSION).unwrap();
    for i in 0..8 {
        let mut fv = vec![0u32; DEFAULT_DIMENSION];
        fv[i % DEFAULT_DIMENSION] = bits(0.2);
        graph
            .add_node(event(EventType::Fact, &format!("general topic filler content number {}", i), fv))
            .unwrap();
    }
    let id_a = graph
        .add_node(event(EventType::Fact, "quantum quantum quantum research breakthrough", basis_vec(7, 1.0)))
        .unwrap();
    let id_b = graph
        .add_node(event(EventType::Fact, "advanced systems engineering", basis_vec(0, 1.0)))
        .unwrap();
    let id_c = graph
        .add_node(event(EventType::Fact, "quantum computing overview", basis_vec(0, 0.95)))
        .unwrap();

    let tokenizer = Tokenizer::new();
    let term_index = build_term_index(&graph, &tokenizer);
    let doc_lengths = DocLengths::build(&graph, &tokenizer);
    let engine = QueryEngine::new();

    let results = hybrid_search(
        &engine, &graph, Some(&term_index), Some(&doc_lengths), "quantum computing",
        Some(basis_vec(0, 1.0)), 15, 0.5, 0.5, 60,
    );

    assert!(results.len() >= 3, "Should have at least 3 results");
    let result_ids: Vec<u64> = results.iter().map(|m| m.node_id).collect();
    assert!(result_ids.contains(&id_a), "Node A should appear (BM25 match)");
    assert!(result_ids.contains(&id_b), "Node B should appear (vector match)");
    assert!(result_ids.contains(&id_c), "Node C should appear (both signals)");

    let pos_b = result_ids.iter().position(|&id| id == id_b).unwrap();
    let pos_c = result_ids.iter().position(|&id| id == id_c).unwrap();
    assert!(
        pos_c < pos_b,
        "Node C (pos {}) should rank higher than Node B (pos {}), \
         because C scores well in both BM25 and vector",
        pos_c,
        pos_b
    );
    for m in &results {
        assert!(m.combined_score > 0.0, "All RRF scores should be positive");
    }
}

#[test]
fn test_hybrid_text_only_fallback() {
    let mut graph = MemoryGraph::new(DEFAULT_DIMENSION).unwrap();
    graph.add_node(event(EventType::Fact, "Rust programming language", zero_vec())).unwrap();
    graph.add_node(event(EventType::Fact, "Python scripting language", zero_vec())).unwrap();

    let tokenizer = Tokenizer::new();
    let term_index = build_term_index(&graph, &tokenizer);
    let doc_lengths = DocLengths::build(&graph, &tokenizer);
    let engine = QueryEngine::new();

    let results = hybrid_search(
        &engine, &graph, Some(&term_index), Some(&doc_lengths), "Rust programming",
        Some(basis_vec(0, 1.0)), 10, 0.5, 0.5, 60,
    );

    assert!(
        !results.is_empty(),
        "Hybrid search should fall back to BM25 when all vectors are zero"
    );
    let result_ids: Vec<u64> = results.iter().map(|m| m.node_id).collect();
    assert!(result_ids.contains(&0), "Should find Rust node via BM25 fallback");
}

#[test]
fn test_hybrid_weights() {
    let mut graph = MemoryGraph::new(DEFAULT_DIMENSION).unwrap();
    graph
        .add_node(event(EventType::Fact, "quantum computing research breakthrough", basis_vec(5, 1.0)))
        .unwrap();
    graph.add_node(event(EventType::Fact, "advanced engineering systems", basis_vec(0, 1.0))).unwrap();
    graph.add_node(event(EventType::Fact, "quantum systems analysis", basis_vec(0, 0.5))).unwrap();

    let tokenizer = Tokenizer::new();
    let term_index = build_term_index(&graph, &tokenizer);
    let doc_lengths = DocLengths::build(&graph, &tokenizer);
    let engine = QueryEngine::new();

    let hybrid_results = hybrid_search(
        &engine, &graph, Some(&term_index), Some(&doc_lengths), "quantum", Some(basis_vec(0, 1.0)), 10,
        1.0, 0.0, 60,
    );
    let text_results =
        text_search(&engine, &graph, Some(&term_index), Some(&doc_lengths), "quantum", 10, vec![], vec![]);

    let text_ids: Vec<u64> = text_results.iter().map(|m| m.node_id).collect();
    let hybrid_ids: Vec<u64> = hybrid_results.iter().map(|m| m.node_id).collect();
    for &tid in &text_ids {
        assert!(hybrid_ids.contains(&tid), "Text result node {} should appear in hybrid results", tid);
    }
    let hybrid_text_order: Vec<u64> =
        hybrid_ids.iter().filter(|id| text_ids.contains(id)).copied().collect();
    assert_eq!(
        hybrid_text_order, text_ids,
        "With text_weight=1.0, vector_weight=0.0, the relative ordering of \
         text-matched nodes should match pure text_search"
    );
}

#[test]
fn test_hybrid_empty_query() {
    let mut graph = MemoryGraph::new(DEFAULT_DIMENSION).unwrap();
    graph.add_node(event(EventType::Fact, "Rust programming", basis_vec(0, 1.0))).unwrap();

    let tokenizer = Tokenizer::new();
    let term_index = build_term_index(&graph, &tokenizer);
    let doc_lengths = DocLengths::build(&graph, &tokenizer);
    let engine = QueryEngine::new();

    let results = hybrid_search(
        &engine, &graph, Some(&term_index), Some(&doc_lengths), "", Some(basis_vec(0, 1.0)), 10, 0.5,
        0.5, 60,
    );
    let _ = results;
}

// ==================== Pieces and words ====================

#[test]
fn pieces_are_runs_of_word_characters() {
    let tokenizer = Tokenizer::new();
    let chars: Vec<char> = "ab, the x cd-ef é".chars().collect();
    let word: Vec<bool> = chars.iter().map(|c| c.is_alphanumeric()).collect();
    assert_eq!(tokenizer.split(&chars, &word), vec!["ab", "cd", "ef"]);
    let every: Vec<bool> = chars.iter().map(|_| true).collect();
    assert_eq!(tokenizer.split(&chars, &every), vec!["ab, the x cd-ef é"]);
    let none: Vec<bool> = chars.iter().map(|_| false).collect();
    assert_eq!(tokenizer.split(&chars, &none), Vec::<String>::new());
    assert_eq!(tokenizer.split(&vec![], &vec![]), Vec::<String>::new());
    let upper: Vec<char> = "AB the".chars().collect();
    assert_eq!(tokenizer.split(&upper, &vec![true, true, false, true, true, true]), vec!["AB"]);
    assert_eq!(tokenizer.tokenize("AB the"), vec!["ab"]);
}

#[test]
fn negation_is_a_matter_of_whole_words() {
    let words = belief_negations();
    assert!(has_word_of(&words, "It CANNOT be"));
    assert!(has_word_of(&words, "no."));
    assert!(has_word_of(&words, "That isn't so"));
    assert!(has_word_of(&words, "does NOT guarantee"));
    assert!(!has_word_of(&words, "knot"));
    assert!(!has_word_of(&words, "Team knows Go"));
    assert!(!has_word_of(&words, "all is well"));
    assert!(!has_word_of(&vec![], "not"));
    assert_eq!(words_of("Team knows: it CAN'T, a b!"), vec!["team", "knows", "it", "can't", "a", "b"]);
    assert_eq!(words_of(""), Vec::<String>::new());
    let chars: Vec<char> = "ab  c".chars().collect();
    assert_eq!(split_runs(&chars, &vec![true, true, false, false, true]), vec!["ab", "c"]);
    assert_eq!(split_runs(&chars, &vec![true, false, true, true, true]), vec!["a", "  c"]);
}

// ==================== Counts and filters ====================

#[test]
fn removing_an_unknown_node_changes_no_count() {
    let mut graph = MemoryGraph::new(DEFAULT_DIMENSION).unwrap();
    graph.add_node(fact("Rust programming language", 1)).unwrap();
    graph.add_node(fact("Python scripting language", 1)).unwrap();
    let mut index = TermIndex::build(&graph, &Tokenizer::new());
    assert_eq!(index.doc_count(), 2);
    assert_eq!(index.total_tokens(), 6);
    index.remove_node(7);
    assert_eq!(index.doc_count(), 2);
    assert_eq!(index.total_tokens(), 6);
    assert_eq!(index.doc_frequency("language"), 2);
    assert_eq!(index.doc_frequency("rust"), 1);
    index.remove_node(0);
    assert_eq!(index.doc_count(), 1);
    assert_eq!(index.total_tokens(), 3);
    assert_eq!(index.doc_frequency("language"), 1);
    assert_eq!(index.doc_frequency("rust"), 0);
    index.remove_node(0);
    assert_eq!(index.doc_count(), 1);
    assert_eq!(index.total_tokens(), 3);
}

#[test]
fn adding_a_known_node_counts_it_once() {
    let mut index = TermIndex::new();
    let mut e = fact("alpha beta gamma", 1);
    e.id = 4;
    index.add_node(&e);
    assert_eq!((index.doc_count(), index.total_tokens()), (1, 3));
    let mut again = fact("alpha delta", 1);
    again.id = 4;
    index.add_node(&again);
    assert_eq!((index.doc_count(), index.total_tokens()), (1, 2));
    assert_eq!(index.doc_frequency("alpha"), 1);
    index.clear();
    assert_eq!((index.doc_count(), index.total_tokens(), index.term_count()), (0, 0, 0));
    index.remove_node(4);
    assert_eq!(index.doc_count(), 0);
}

#[test]
fn both_paths_agree_under_filters() {
    let mut graph = MemoryGraph::new(DEFAULT_DIMENSION).unwrap();
    let contents = [
        (EventType::Fact, "rust compiler memory safety", 1u32),
        (EventType::Decision, "use rust for the compiler project", 1),
        (EventType::Fact, "python memory model", 2),
        (EventType::Inference, "rust rust rust memory", 2),
        (EventType::Fact, "compiler design notes about memory and rust safety checks", 3),
    ];
    for (t, c, s) in contents {
        graph
            .add_node(CognitiveEventBuilder::new(t, c).session_id(s).confidence(bits(0.9)).build())
            .unwrap();
    }
    let engine = QueryEngine::new();
    let tokenizer = Tokenizer::new();
    let ti = build_term_index(&graph, &tokenizer);
    let dl = DocLengths::build(&graph, &tokenizer);
    let filters: Vec<(Vec<EventType>, Vec<u32>)> = vec![
        (vec![], vec![]),
        (vec![EventType::Fact], vec![]),
        (vec![], vec![2, 3]),
        (vec![EventType::Fact, EventType::Inference], vec![1, 2]),
        (vec![EventType::Skill], vec![]),
    ];
    for (types, sessions) in filters {
        let fast = text_search(&engine, &graph, Some(&ti), Some(&dl), "rust memory compiler", 10, types.clone(), sessions.clone());
        let slow = text_search(&engine, &graph, None, None, "rust memory compiler", 10, types.clone(), sessions.clone());
        let mut a: Vec<(u64, f32)> = fast.iter().map(|m| (m.node_id, m.score)).collect();
        let mut b: Vec<(u64, f32)> = slow.iter().map(|m| (m.node_id, m.score)).collect();
        a.sort_by_key(|x| x.0);
        b.sort_by_key(|x| x.0);
        assert_eq!(a.len(), b.len(), "{:?} {:?}", types, sessions);
        for (x, y) in a.iter().zip(b.iter()) {
            assert_eq!(x.0, y.0);
            assert!((x.1 - y.1).abs() < 1e-4, "{} {} {}", x.0, x.1, y.1);
        }
    }
    let only_facts = text_search(&engine, &graph, None, None, "rust memory compiler", 10, vec![EventType::Fact], vec![]);
    let ids: Vec<u64> = {
        let mut v: Vec<u64> = only_facts.iter().map(|m| m.node_id).collect();
        v.sort();
        v
    };
    assert_eq!(ids, vec![0, 2, 4]);
}
