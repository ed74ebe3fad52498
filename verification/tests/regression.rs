//! Files written with and without text indexes, and every query on small
//! and empty graphs.

use agentic_memory::engine::analogical::PatternMatch;
use agentic_memory::engine::cognitive::{Gap, GapDetectionParams, GapSeverity, GapType};
use agentic_memory::engine::drift::BeliefTimeline;
use agentic_memory::engine::graph_algo::{CentralityScope, ShortestPathParams};
use agentic_memory::engine::maintenance::{
    in_session_range, ConsolidationOp, ConsolidationParams, ConsolidationReport, SimilarPair,
};
use agentic_memory::engine::query::{PatternParams, PatternSort, QueryEngine, TraversalParams};
use agentic_memory::engine::text_search::{TextCandidates, TextSearchParams};
use agentic_memory::format::{read_header, AmemReader, AmemWriter, HAS_DOC_LENGTHS, HAS_TERM_INDEX};
use agentic_memory::graph::traversal::TraversalDirection;
use agentic_memory::graph::MemoryGraph;
use agentic_memory::index::doc_lengths::DocLengths;
use agentic_memory::index::term_index::TermIndex;
use agentic_memory::rank::select_top;
use agentic_memory::types::{
    CognitiveEvent, CognitiveEventBuilder, Edge, EdgeType, EventType, DEFAULT_DIMENSION,
};

// ==================== Helpers ====================

const BM25_K1: f32 = 1.2;
const BM25_B: f32 = 0.75;

fn bits(x: f32) -> u32 {
    x.to_bits()
}

fn num(b: u32) -> f32 {
    f32::from_bits(b)
}

fn key_of(x: f32) -> u64 {
    let b = x.to_bits();
    if b & 0x8000_0000 != 0 {
        (!b) as u64
    } else {
        (b | 0x8000_0000) as u64
    }
}

fn zero_vec() -> Vec<u32> {
    vec![0; DEFAULT_DIMENSION]
}

fn floats(v: &[u32]) -> Vec<f32> {
    v.iter().map(|&b| num(b)).collect()
}

fn is_zero(v: &[f32]) -> bool {
    v.iter().all(|&x| x == 0.0)
}

fn cosine_similarity(a: &[f32], b: &[f32]) -> f32 {
    let mut dot = 0.0f32;
    let mut na = 0.0f32;
    let mut nb = 0.0f32;
    for (x, y) in a.iter().zip(b.iter()) {
        dot += x * y;
        na += x * x;
        nb += y * y;
    }
    let denom = na.sqrt() * nb.sqrt();
    if denom == 0.0 {
        0.0
    } else {
        dot / denom
    }
}

fn edge(source: u64, target: u64, edge_type: EdgeType, weight: f32) -> Edge {
    Edge::new(source, target, edge_type, bits(weight))
}

fn new_graph() -> MemoryGraph {
    MemoryGraph::new(DEFAULT_DIMENSION).unwrap()
}

// ---- belief revision ----

struct Weakened {
    node_id: u64,
    revised_confidence: f32,
}

struct Revision {
    contradicted: Vec<(u64, f32)>,
    weakened: Vec<Weakened>,
    invalidated_decisions: Vec<u64>,
    total_affected: usize,
}

fn belief_revision(
    qe: &QueryEngine,
    graph: &MemoryGraph,
    hypothesis: &str,
    hypothesis_vec: Option<Vec<f32>>,
    threshold: f32,
    max_depth: u32,
) -> Revision {
    let (evidence, terms) = qe.belief_evidence(graph, hypothesis);
    if terms == 0 && hypothesis_vec.is_none() {
        return Revision { contradicted: vec![], weakened: vec![], invalidated_decisions: vec![], total_affected: 0 };
    }
    let mut found: Vec<(u64, u32)> = Vec::new();
    let mut keys: Vec<u64> = Vec::new();
    for (ev, n) in evidence.iter().zip(graph.nodes().iter()) {
        let text_sim = if terms == 0 { 0.0 } else { ev.overlap as f32 / terms as f32 };
        let vec_sim = match &hypothesis_vec {
            Some(h) => {
                let v = floats(&n.feature_vec);
                if is_zero(&v) { 0.0 } else { cosine_similarity(h, &v) }
            }
            None => 0.0,
        };
        let relevance = if hypothesis_vec.is_some() { 0.5 * text_sim + 0.5 * vec_sim } else { text_sim };
        if relevance < threshold {
            continue;
        }
        if ev.has_negation || ev.has_contradicts_edge || ev.is_correction {
            let strength = (relevance
                * if ev.has_contradicts_edge { 1.0 } else { 0.8 }
                * if ev.has_negation { 1.0 } else { 0.7 })
            .clamp(0.0, 1.0);
            found.push((ev.node_id, strength.to_bits()));
            keys.push(key_of(strength));
        }
    }
    let contradicted: Vec<(u64, f32)> = select_top(&found, &keys, true, found.len())
        .into_iter()
        .map(|(id, b)| (id, num(b)))
        .collect();
    let ids: Vec<u64> = contradicted.iter().map(|c| c.0).collect();
    let report = qe.belief_revision(graph, &ids, max_depth);
    let mut weakening: std::collections::HashMap<u64, f32> = contradicted.iter().cloned().collect();
    let mut weakened = Vec::new();
    for step in &report.cascade {
        let from = *weakening.get(&step.from_node).unwrap();
        let effective = from * num(step.weight) * 0.7f32.powi(step.depth as i32);
        let original = num(graph.get_node(step.node_id).unwrap().confidence);
        weakening.insert(step.node_id, effective);
        weakened.push(Weakened {
            node_id: step.node_id,
            revised_confidence: (original - effective).clamp(0.0, 1.0),
        });
    }
    Revision {
        contradicted,
        weakened,
        invalidated_decisions: report.invalidated_decisions,
        total_affected: report.total_affected,
    }
}

// ---- gap detection ----

struct GapOutcome {
    gaps: Vec<Gap>,
    unjustified_decisions: usize,
    single_source_inferences: usize,
    low_confidence_foundations: usize,
    unstable_knowledge: usize,
    health_score: f32,
}

fn gap_detection(
    qe: &QueryEngine,
    graph: &MemoryGraph,
    confidence_threshold: f32,
    min_support_count: u32,
    session_range: Option<(u32, u32)>,
    sort_by: GapSeverity,
) -> GapOutcome {
    let params = GapDetectionParams {
        confidence_threshold: bits(confidence_threshold),
        min_support_count,
        max_results: 100,
        session_range,
        sort_by,
    };
    let mut gaps = qe.find_gaps(graph, &params);
    for g in gaps.iter_mut() {
        if g.gap_type == GapType::LowConfidenceFoundation || g.gap_type == GapType::StaleEvidence {
            g.severity = bits(1.0 - num(g.evidence as u32));
        }
    }
    let report = qe.gap_detection(graph, &params, &gaps);
    let s = report.summary;
    let health_score = if s.total_nodes > 0 {
        1.0 - (s.total_gaps as f32 / s.total_nodes as f32).clamp(0.0, 1.0)
    } else {
        1.0
    };
    GapOutcome {
        gaps: report.gaps,
        unjustified_decisions: s.unjustified_decisions,
        single_source_inferences: s.single_source_inferences,
        low_confidence_foundations: s.low_confidence_foundations,
        unstable_knowledge: s.unstable_knowledge,
        health_score,
    }
}

// ---- analogies ----

enum AnalogicalAnchor {
    Node(u64),
    Vector(Vec<f32>),
}

struct Analogy {
    center_id: u64,
    combined_score: f32,
    subgraph_nodes: Vec<u64>,
}

fn counts_cosine(a: &[usize], b: &[usize]) -> f32 {
    if a.iter().all(|&x| x == 0) && b.iter().all(|&x| x == 0) {
        return 1.0;
    }
    let mut dot = 0.0f64;
    let mut na = 0.0f64;
    let mut nb = 0.0f64;
    for (&x, &y) in a.iter().zip(b.iter()) {
        dot += x as f64 * y as f64;
        na += (x * x) as f64;
        nb += (y * y) as f64;
    }
    let denom = na.sqrt() * nb.sqrt();
    if denom < 1e-12 {
        0.0
    } else {
        (dot / denom) as f32
    }
}

fn branching(p: &PatternMatch) -> f32 {
    if p.node_count == 0 {
        0.0
    } else {
        p.out_edges as f32 / p.node_count as f32
    }
}

fn compare_fingerprints(a: &PatternMatch, b: &PatternMatch) -> f32 {
    let et_sim = counts_cosine(&a.event_type_counts, &b.event_type_counts);
    let edge_sim = counts_cosine(&a.edge_type_counts, &b.edge_type_counts);
    let max_chain = a.causal_chain_depth.max(b.causal_chain_depth).max(1) as f32;
    let chain_sim = 1.0 - (a.causal_chain_depth as f32 - b.causal_chain_depth as f32).abs() / max_chain;
    let max_bf = branching(a).max(branching(b)).max(0.01);
    let bf_sim = 1.0 - (branching(a) - branching(b)).abs() / max_bf;
    0.3 * et_sim + 0.3 * edge_sim + 0.2 * chain_sim + 0.2 * bf_sim
}

fn analogical(
    qe: &QueryEngine,
    graph: &MemoryGraph,
    anchor: AnalogicalAnchor,
    context_depth: u32,
    max_results: usize,
    min_similarity: f32,
    exclude_sessions: Vec<u32>,
) -> Vec<Analogy> {
    let (center, anchor_vec) = match anchor {
        AnalogicalAnchor::Node(id) => (id, floats(&graph.get_node(id).unwrap().feature_vec)),
        AnalogicalAnchor::Vector(v) => {
            let mut best_id = 0u64;
            let mut best_sim = -1.0f32;
            for n in graph.nodes() {
                let fv = floats(&n.feature_vec);
                if is_zero(&fv) {
                    continue;
                }
                let sim = cosine_similarity(&v, &fv);
                if sim > best_sim {
                    best_sim = sim;
                    best_id = n.id;
                }
            }
            if best_sim < 0.0 {
                return Vec::new();
            }
            (best_id, v)
        }
    };
    let base = qe.analogical(graph, center, context_depth, &exclude_sessions).unwrap();
    let mut items: Vec<(usize, u32)> = Vec::new();
    let mut keys: Vec<u64> = Vec::new();
    for (i, cand) in base.candidates.iter().enumerate() {
        let structural = compare_fingerprints(&base.anchor_pattern, &cand.pattern);
        let fv = floats(&graph.get_node(cand.center_id).unwrap().feature_vec);
        let content = if !is_zero(&anchor_vec) && !is_zero(&fv) {
            cosine_similarity(&anchor_vec, &fv).max(0.0)
        } else {
            0.0
        };
        let combined = 0.6 * structural + 0.4 * content;
        if combined >= min_similarity {
            items.push((i, combined.to_bits()));
            keys.push(key_of(combined));
        }
    }
    select_top(&items, &keys, true, max_results)
        .into_iter()
        .map(|(i, b)| Analogy {
            center_id: base.candidates[i].center_id,
            combined_score: num(b),
            subgraph_nodes: base.candidates[i].subgraph.nodes.clone(),
        })
        .collect()
}

// ---- consolidation ----

enum Op {
    DeduplicateFacts { threshold: f32 },
    LinkContradictions { threshold: f32 },
}

fn similar_pairs(
    graph: &MemoryGraph,
    threshold: f32,
    range: Option<(u32, u32)>,
    kinds: &[EventType],
) -> Vec<SimilarPair> {
    let picked: Vec<&CognitiveEvent> = graph
        .nodes()
        .iter()
        .filter(|n| kinds.contains(&n.event_type) && in_session_range(n.session_id, range))
        .collect();
    let mut pairs = Vec::new();
    for i in 0..picked.len() {
        for j in (i + 1)..picked.len() {
            let sim = cosine_similarity(&floats(&picked[i].feature_vec), &floats(&picked[j].feature_vec));
            if sim >= threshold {
                pairs.push(SimilarPair { first: picked[i].id, second: picked[j].id, similarity: bits(sim) });
            }
        }
    }
    pairs
}

fn consolidate(
    qe: &QueryEngine,
    graph: &mut MemoryGraph,
    operations: Vec<Op>,
    dry_run: bool,
    backup_path: Option<String>,
) -> ConsolidationReport {
    let ops = operations
        .into_iter()
        .map(|op| match op {
            Op::DeduplicateFacts { threshold } => ConsolidationOp::DeduplicateFacts {
                candidates: similar_pairs(graph, threshold, None, &[EventType::Fact]),
            },
            Op::LinkContradictions { threshold } => ConsolidationOp::LinkContradictions {
                candidates: similar_pairs(graph, threshold, None, &[EventType::Fact, EventType::Inference]),
            },
        })
        .collect();
    qe.consolidate(
        graph,
        ConsolidationParams { session_range: None, operations: ops, dry_run, backup_path, now: 42 },
    )
    .unwrap()
}

// ---- drift ----

struct Drift {
    timelines: Vec<BeliefTimeline>,
    stability: f32,
    likely_to_change: bool,
}

fn drift_detection(qe: &QueryEngine, graph: &MemoryGraph, topic: &str, max_results: usize, min_relevance: f32) -> Drift {
    let (overlaps, terms) = qe.term_overlap(graph, topic);
    if terms == 0 {
        return Drift { timelines: vec![], stability: 1.0, likely_to_change: false };
    }
    let mut items: Vec<u64> = Vec::new();
    let mut keys: Vec<u64> = Vec::new();
    for (o, n) in overlaps.iter().zip(graph.nodes().iter()) {
        let relevance = *o as f32 / terms as f32;
        if relevance >= min_relevance {
            items.push(n.id);
            keys.push(key_of(relevance));
        }
    }
    if items.is_empty() {
        return Drift { timelines: vec![], stability: 1.0, likely_to_change: false };
    }
    let relevant = select_top(&items, &keys, true, items.len());
    let report = qe.drift_detection(graph, &relevant, max_results);
    let stability = if report.total_snapshots <= 1 {
        1.0
    } else {
        (1.0 - report.total_upsets as f32 / report.total_snapshots as f32).clamp(0.0, 1.0)
    };
    Drift { timelines: report.timelines, stability, likely_to_change: report.likely_to_change }
}


// ---- text search ----

struct TextMatch {
    node_id: u64,
    score: f32,
}

fn score_candidates(found: &TextCandidates, min_score: f32, max_results: usize) -> Vec<TextMatch> {
    let n = found.doc_count as f32;
    let avgdl = if found.indexed {
        f32::from_bits(found.avg_doc_length)
    } else if found.doc_count == 0 {
        0.0
    } else {
        found.total_tokens as f32 / found.doc_count as f32
    };
    let mut items: Vec<(u64, u32)> = Vec::new();
    let mut keys: Vec<u64> = Vec::new();
    for cand in &found.candidates {
        let mut score = 0.0f32;
        for hit in &cand.hits {
            let df = hit.df as f32;
            let idf = ((n - df + 0.5) / (df + 0.5) + 1.0).ln();
            let tf = hit.tf as f32;
            let dl = cand.doc_len as f32;
            score += idf * (tf * (BM25_K1 + 1.0))
                / (tf + BM25_K1 * (1.0 - BM25_B + BM25_B * dl / avgdl.max(1.0)));
        }
        if !found.indexed && !(score > 0.0) {
            continue;
        }
        if score >= min_score {
            items.push((cand.node_id, score.to_bits()));
            keys.push(key_of(score));
        }
    }
    select_top(&items, &keys, true, max_results)
        .into_iter()
        .map(|(node_id, b)| TextMatch { node_id, score: f32::from_bits(b) })
        .collect()
}

fn text_search(
    engine: &QueryEngine,
    graph: &MemoryGraph,
    term_index: Option<&TermIndex>,
    doc_lengths: Option<&DocLengths>,
    query: &str,
    max_results: usize,
    event_types: Vec<EventType>,
    session_ids: Vec<u32>,
) -> Vec<TextMatch> {
    let params = TextSearchParams { query: query.to_string(), max_results, event_types, session_ids };
    let found = engine.text_search(graph, term_index, doc_lengths, &params);
    if found.query_terms.is_empty() {
        return Vec::new();
    }
    score_candidates(&found, 0.0, max_results)
}

struct HybridMatch {
    node_id: u64,
    combined_score: f32,
}

fn hybrid_search(
    engine: &QueryEngine,
    graph: &MemoryGraph,
    term_index: Option<&TermIndex>,
    doc_lengths: Option<&DocLengths>,
    query_text: &str,
    query_vec: Option<Vec<u32>>,
    max_results: usize,
    text_weight: f32,
    vector_weight: f32,
    rrf_k: u32,
) -> Vec<HybridMatch> {
    let overfetch = max_results * 3;
    let total_weight = text_weight + vector_weight;
    let (tw, vw) = if total_weight > 0.0 {
        (text_weight / total_weight, vector_weight / total_weight)
    } else {
        (0.5, 0.5)
    };
    let text = text_search(engine, graph, term_index, doc_lengths, query_text, overfetch, vec![], vec![]);
    let text_ids: Vec<u64> = text.iter().map(|m| m.node_id).collect();

    let has_vectors = query_vec.is_some()
        && graph.nodes().iter().any(|n| n.feature_vec.iter().any(|&x| f32::from_bits(x) != 0.0));
    let mut vector_ids: Vec<u64> = Vec::new();
    if has_vectors {
        let qvec = floats(query_vec.as_ref().unwrap());
        let mut items: Vec<u64> = Vec::new();
        let mut keys: Vec<u64> = Vec::new();
        for node in graph.nodes() {
            let v = floats(&node.feature_vec);
            if v.iter().all(|&x| x == 0.0) {
                continue;
            }
            let sim = cosine_similarity(&qvec, &v);
            if sim > 0.0 {
                items.push(node.id);
                keys.push(key_of(sim));
            }
        }
        vector_ids = select_top(&items, &keys, true, overfetch);
    }

    let fused = engine.fuse_ranks(&text_ids, &vector_ids);
    let k = rrf_k as f32;
    let mut items: Vec<(u64, u32)> = Vec::new();
    let mut keys: Vec<u64> = Vec::new();
    for pair in &fused {
        let rrf_text = tw / (k + pair.text_rank as f32);
        let rrf_vec = if has_vectors { vw / (k + pair.vector_rank as f32) } else { 0.0 };
        let combined = rrf_text + rrf_vec;
        items.push((pair.node_id, combined.to_bits()));
        keys.push(key_of(combined));
    }
    select_top(&items, &keys, true, max_results)
        .into_iter()
        .map(|(node_id, b)| HybridMatch { node_id, combined_score: f32::from_bits(b) })
        .collect()
}


// ---- centrality ----

struct CentralityResult {
    scores: Vec<(u64, f32)>,
    iterations: u32,
    converged: bool,
}

fn top_scores(ids: &[u64], values: &[f32], top_k: usize) -> Vec<(u64, f32)> {
    let items: Vec<(u64, u32)> = ids.iter().zip(values.iter()).map(|(&id, &s)| (id, s.to_bits())).collect();
    let keys: Vec<u64> = values.iter().map(|&s| key_of(s)).collect();
    select_top(&items, &keys, true, top_k)
        .into_iter()
        .map(|(id, b)| (id, f32::from_bits(b)))
        .collect()
}

fn pagerank(scope: &CentralityScope, damping: f32, max_iterations: u32, tolerance: f32, top_k: usize) -> CentralityResult {
    let n = scope.node_ids.len();
    if n == 0 {
        return CentralityResult { scores: Vec::new(), iterations: 0, converged: true };
    }
    let mut outgoing: Vec<Vec<usize>> = vec![Vec::new(); n];
    let mut incoming: Vec<Vec<usize>> = vec![Vec::new(); n];
    for &(s, t) in &scope.edges {
        outgoing[s].push(t);
        incoming[t].push(s);
    }
    let mut pr = vec![1.0 / n as f32; n];
    let mut iterations = 0;
    let mut converged = false;
    for _ in 0..max_iterations {
        iterations += 1;
        let mut new_pr = vec![(1.0 - damping) / n as f32; n];
        let dangling: f32 = (0..n).filter(|&i| outgoing[i].is_empty()).map(|i| pr[i]).sum();
        for i in 0..n {
            new_pr[i] += damping * dangling / n as f32;
            for &j in &incoming[i] {
                let out_degree = outgoing[j].len() as f32;
                if out_degree > 0.0 {
                    new_pr[i] += damping * pr[j] / out_degree;
                }
            }
        }
        let max_diff = (0..n).map(|i| (new_pr[i] - pr[i]).abs()).fold(0.0f32, f32::max);
        pr = new_pr;
        if max_diff < tolerance {
            converged = true;
            break;
        }
    }
    CentralityResult { scores: top_scores(&scope.node_ids, &pr, top_k), iterations, converged }
}


fn page_rank(qe: &QueryEngine, graph: &MemoryGraph, damping: f32, max_iterations: u32, tolerance: f32, top_k: usize) -> CentralityResult {
    let scope = qe.centrality_scope(graph, &vec![], &vec![]);
    pagerank(&scope, damping, max_iterations, tolerance, top_k)
}

// ---- similarity ----

fn similarity(
    graph: &MemoryGraph,
    query_vec: &[f32],
    top_k: usize,
    min_similarity: f32,
    event_types: &[EventType],
    skip_zero_vectors: bool,
) -> Vec<(u64, f32)> {
    let mut items: Vec<(u64, u32)> = Vec::new();
    let mut keys: Vec<u64> = Vec::new();
    for n in graph.nodes() {
        if !event_types.is_empty() && !event_types.contains(&n.event_type) {
            continue;
        }
        let v = floats(&n.feature_vec);
        if skip_zero_vectors && is_zero(&v) {
            continue;
        }
        let sim = cosine_similarity(query_vec, &v);
        if sim >= min_similarity {
            items.push((n.id, bits(sim)));
            keys.push(key_of(sim));
        }
    }
    select_top(&items, &keys, true, top_k).into_iter().map(|(id, b)| (id, num(b))).collect()
}

// ---- graphs and files ----

fn fact(content: &str, session: u32, confidence: f32) -> CognitiveEvent {
    CognitiveEventBuilder::new(EventType::Fact, content)
        .session_id(session)
        .confidence(bits(confidence))
        .build()
}

/// Sets the average document length of the graph's term index.
fn refresh_average(graph: &mut MemoryGraph) {
    let (tokens, docs) = match graph.term_index() {
        Some(index) => (index.total_tokens(), index.doc_count()),
        None => return,
    };
    if docs > 0 {
        graph.set_avg_doc_length(bits(tokens as f32 / docs as f32));
    }
}

/// A file as it was written before there were text indexes: nodes and
/// edges only, and no flag set.
fn file_without_indexes() -> Vec<u8> {
    let mut graph = new_graph();
    graph.add_node(fact("the sky is blue", 1, 0.9)).unwrap();
    graph.add_node(fact("water is wet", 1, 0.8)).unwrap();
    graph
        .add_node(
            CognitiveEventBuilder::new(EventType::Decision, "wear a raincoat")
                .session_id(2)
                .confidence(bits(0.7))
                .build(),
        )
        .unwrap();
    graph.add_edge(edge(2, 1, EdgeType::CausedBy, 0.9)).unwrap();
    graph.add_edge(edge(0, 1, EdgeType::RelatedTo, 0.5)).unwrap();
    graph.drop_text_indexes();
    AmemWriter::to_bytes(&graph, 1_700_000_000_000_000).unwrap()
}

fn pattern_params(event_types: Vec<EventType>, min_confidence: Option<f32>, sort_by: PatternSort) -> PatternParams {
    PatternParams {
        event_types,
        min_confidence: min_confidence.map(bits),
        max_confidence: None,
        session_ids: vec![],
        created_after: None,
        created_before: None,
        min_decay_score: None,
        max_results: 100,
        sort_by,
    }
}

// ==================== Files ====================

#[test]
fn test_old_file_readable_by_new_code() {
    let data = file_without_indexes();
    let graph = AmemReader::from_bytes(&data).unwrap();

    assert!(graph.node_count() > 0);
    assert!(graph.edge_count() > 0);

    for node in graph.nodes() {
        assert!(!node.content.is_empty(), "Node {} should have content", node.id);
        assert_eq!(node.feature_vec.len(), graph.dimension());
    }

    assert!(graph.term_index().is_none(), "an older file has no term index");
    assert!(graph.doc_lengths().is_none(), "an older file has no document lengths");

    let engine = QueryEngine::new();
    let first_node_id = graph.nodes()[0].id;

    let traversal = engine.traverse(
        &graph,
        &TraversalParams {
            start_id: first_node_id,
            edge_types: vec![],
            direction: TraversalDirection::Both,
            max_depth: 3,
            max_results: 100,
            min_confidence: bits(0.0),
        },
    );
    assert!(traversal.is_ok());
    let visited: Vec<u64> = traversal.unwrap().visited.iter().map(|v| v.node_id).collect();
    assert_eq!(visited, vec![0, 1, 2]);

    let pattern = engine.pattern(&graph, &pattern_params(vec![EventType::Fact], None, PatternSort::MostRecent));
    assert_eq!(pattern.len(), 2);

    let query_vec = vec![0.1; graph.dimension()];
    let similar = similarity(&graph, &query_vec, 5, -1.0, &[], false);
    assert_eq!(similar.len(), 3);

    let context = engine.context(&graph, first_node_id, 2);
    assert!(context.is_ok());

    let resolve = engine.resolve(&graph, first_node_id);
    assert!(resolve.is_ok());

    let found = text_search(&engine, &graph, graph.term_index(), graph.doc_lengths(), "blue sky", 10, vec![], vec![]);
    assert_eq!(found.len(), 1);
    assert_eq!(found[0].node_id, 0);
}

#[test]
fn test_new_file_sections_are_skippable() {
    let mut graph = new_graph();
    for i in 0..10 {
        graph.add_node(fact(&format!("test node {}", i), 1, 0.9)).unwrap();
    }
    for i in 0..9u64 {
        graph.add_edge(edge(i, i + 1, EdgeType::RelatedTo, 0.8)).unwrap();
    }

    let data = AmemWriter::to_bytes(&graph, 7).unwrap();
    assert!(data.len() > 64, "File should be larger than header alone");

    let loaded = AmemReader::from_bytes(&data).unwrap();
    assert_eq!(loaded.node_count(), 10);
    assert_eq!(loaded.edge_count(), 9);

    for i in 0..10u64 {
        let node = loaded.get_node(i).unwrap();
        assert_eq!(node.content, format!("test node {}", i));
    }

    for i in 0..10u64 {
        let orig = graph.get_node(i).unwrap();
        let read = loaded.get_node(i).unwrap();
        assert_eq!(orig.feature_vec.len(), read.feature_vec.len());
    }

    assert_eq!(loaded.get_node(0).unwrap().content, "test node 0");
}

#[test]
fn test_reserved_field_zero_for_old_files() {
    let data = file_without_indexes();
    assert!(data.len() >= 64, "File must contain at least 64-byte header");

    let header = read_header(&data).unwrap();
    assert_eq!(header.flags, 0);
    assert_eq!(&data[40..64], &[0u8; 24][..]);
}

#[test]
fn test_feature_flags_set_for_new_files() {
    let mut graph = new_graph();
    for i in 0..5 {
        graph.add_node(fact(&format!("content {}", i), 1, 0.8)).unwrap();
    }

    let data = AmemWriter::to_bytes(&graph, 7).unwrap();
    let header = read_header(&data).unwrap();

    assert!(header.flags & HAS_TERM_INDEX != 0);
    assert!(header.flags & HAS_DOC_LENGTHS != 0);
    assert_eq!(header.flags, HAS_TERM_INDEX | HAS_DOC_LENGTHS);
    assert_eq!(header.flags, 0x03);
}

// ==================== Queries ====================

#[test]
fn test_existing_query_engine_methods_unchanged() {
    let mut graph = new_graph();
    let types = [
        EventType::Fact,
        EventType::Decision,
        EventType::Inference,
        EventType::Correction,
        EventType::Skill,
        EventType::Episode,
    ];
    let edge_types = [
        EdgeType::CausedBy,
        EdgeType::Supports,
        EdgeType::RelatedTo,
        EdgeType::Contradicts,
        EdgeType::Supersedes,
        EdgeType::PartOf,
        EdgeType::TemporalNext,
    ];

    for i in 0..50usize {
        let et = types[i % types.len()];
        let event = CognitiveEventBuilder::new(et, &format!("event content {}", i))
            .session_id(i as u32 / 10)
            .confidence(bits(0.5 + (i as f32 % 5.0) * 0.1))
            .build();
        graph.add_node(event).unwrap();
    }

    let mut edge_count = 0;
    for i in 0..50u64 {
        for j in 1..=3u64 {
            let target = (i + j) % 50;
            if target != i {
                let et = edge_types[(i as usize + j as usize) % edge_types.len()];
                let weight = 0.5 + (j as f32) * 0.1;
                graph.add_edge(edge(i, target, et, weight)).unwrap();
                edge_count += 1;
                if edge_count >= 100 {
                    break;
                }
            }
        }
        if edge_count >= 100 {
            break;
        }
    }
    assert_eq!(graph.edge_count(), 100);

    let engine = QueryEngine::new();

    let traversal = engine
        .traverse(
            &graph,
            &TraversalParams {
                start_id: 0,
                edge_types: vec![EdgeType::RelatedTo, EdgeType::Supports],
                direction: TraversalDirection::Forward,
                max_depth: 5,
                max_results: 50,
                min_confidence: bits(0.0),
            },
        )
        .unwrap();
    assert!(!traversal.visited.is_empty(), "Traversal should find nodes");
    assert_eq!(traversal.visited[0].node_id, 0);
    assert_eq!(traversal.visited[0].depth, 0);
    assert_eq!(traversal.edges.len() + 1, traversal.visited.len());

    let facts = engine.pattern(
        &graph,
        &pattern_params(vec![EventType::Fact], Some(0.5), PatternSort::HighestConfidence),
    );
    assert!(!facts.is_empty(), "Pattern query should find Fact nodes");
    assert_eq!(facts.len(), 9);
    for pair in facts.windows(2) {
        let a = num(graph.get_node(pair[0]).unwrap().confidence);
        let b = num(graph.get_node(pair[1]).unwrap().confidence);
        assert!(a >= b);
    }

    let similar = similarity(&graph, &vec![0.1; DEFAULT_DIMENSION], 10, -1.0, &[], false);
    assert!(!similar.is_empty(), "Similarity query should find matching nodes");

    let context = engine.context(&graph, 0, 2).unwrap();
    assert!(!context.nodes.is_empty(), "Context query should return subgraph");
    assert_eq!(context.center_id, 0);

    let resolved = engine.resolve(&graph, 0).unwrap();
    assert_eq!(resolved, 0, "Resolve on node 0 with no supersedes should return node 0");
}

#[test]
fn test_empty_graph_all_new_queries_return_empty() {
    let graph = new_graph();
    let engine = QueryEngine::new();

    let text_results = text_search(&engine, &graph, None, None, "test query", 10, vec![], vec![]);
    assert!(text_results.is_empty(), "text_search on empty graph should return empty");

    let hybrid_results = hybrid_search(
        &engine,
        &graph,
        None,
        None,
        "test query",
        Some(vec![bits(0.1); DEFAULT_DIMENSION]),
        10,
        0.5,
        0.5,
        60,
    );
    assert!(hybrid_results.is_empty(), "hybrid_search on empty graph should return empty");

    let centrality = page_rank(&engine, &graph, 0.85, 100, 1e-6, 10);
    assert!(centrality.scores.is_empty(), "centrality on empty graph should return empty");

    let revision = belief_revision(&engine, &graph, "some hypothesis", None, 0.3, 5);
    assert!(revision.contradicted.is_empty());
    assert!(revision.weakened.is_empty());
    assert!(revision.invalidated_decisions.is_empty());

    let gaps = gap_detection(&engine, &graph, 0.5, 2, None, GapSeverity::HighestImpact);
    assert!(gaps.gaps.is_empty(), "gap_detection on empty graph should return no gaps");
    assert!((gaps.health_score - 1.0).abs() < f32::EPSILON, "Health score on empty graph should be 1.0");

    let analogies = analogical(
        &engine,
        &graph,
        AnalogicalAnchor::Vector(vec![0.1; DEFAULT_DIMENSION]),
        2,
        10,
        0.0,
        vec![],
    );
    assert!(analogies.is_empty(), "analogical on empty graph should return empty");

    let mut empty_graph = new_graph();
    let consolidation = consolidate(
        &engine,
        &mut empty_graph,
        vec![Op::DeduplicateFacts { threshold: 0.9 }],
        true,
        None,
    );
    assert!(consolidation.actions.is_empty(), "consolidate on empty graph should have no actions");

    let drift = drift_detection(&engine, &graph, "some topic", 10, 0.1);
    assert!(drift.timelines.is_empty(), "drift_detection on empty graph should return no timelines");
    assert!((drift.stability - 1.0).abs() < f32::EPSILON, "Stability on empty graph should be 1.0");
    assert!(!drift.likely_to_change, "Empty graph should not be likely to change");
}

#[test]
fn test_single_node_graph_all_new_queries_safe() {
    let mut graph = new_graph();
    graph.add_node(fact("single node content", 1, 0.9)).unwrap();
    refresh_average(&mut graph);

    let engine = QueryEngine::new();

    let text_results = text_search(
        &engine,
        &graph,
        graph.term_index(),
        graph.doc_lengths(),
        "single node content",
        10,
        vec![],
        vec![],
    );
    assert_eq!(text_results.len(), 1);
    assert_eq!(text_results[0].node_id, 0);
    let scanned = text_search(&engine, &graph, None, None, "single node content", 10, vec![], vec![]);
    assert_eq!(scanned.len(), 1);
    assert!((scanned[0].score - text_results[0].score).abs() < 1e-4);

    let hybrid_results = hybrid_search(
        &engine,
        &graph,
        graph.term_index(),
        graph.doc_lengths(),
        "single node",
        Some(vec![bits(0.1); DEFAULT_DIMENSION]),
        10,
        0.5,
        0.5,
        60,
    );
    assert_eq!(hybrid_results.len(), 1);
    assert!(hybrid_results[0].combined_score > 0.0);

    let centrality = page_rank(&engine, &graph, 0.85, 100, 1e-6, 10);
    assert_eq!(centrality.scores.len(), 1, "Single node graph should have exactly 1 score");
    assert!((centrality.scores[0].1 - 1.0).abs() < 0.01, "Single node PageRank should be approximately 1.0");
    assert!(centrality.converged);
    assert!(centrality.iterations >= 1);

    let path_result = engine
        .shortest_path(
            &graph,
            ShortestPathParams {
                source_id: 0,
                target_id: 0,
                edge_types: vec![],
                direction: TraversalDirection::Both,
                max_depth: 10,
                weighted: false,
            },
            &vec![],
        )
        .unwrap();
    assert!(path_result.found, "Path from node to itself should be found");
    assert_eq!(path_result.path, vec![0], "Path to self should be [self]");
    assert_eq!(path_result.cost, 0, "Cost from node to itself should be 0");

    let revision = belief_revision(&engine, &graph, "single node content is wrong", None, 0.3, 5);
    assert_eq!(revision.total_affected, revision.contradicted.len() + revision.weakened.len());

    let gaps = gap_detection(&engine, &graph, 0.5, 2, None, GapSeverity::HighestImpact);
    assert!(gaps.gaps.is_empty());

    let analogies = analogical(&engine, &graph, AnalogicalAnchor::Node(0), 2, 10, 0.0, vec![]);
    assert!(analogies.is_empty(), "Analogical on single-node graph should return empty");

    let mut graph_mut = new_graph();
    graph_mut.add_node(fact("single node content", 1, 0.9)).unwrap();
    let consolidation = consolidate(
        &engine,
        &mut graph_mut,
        vec![Op::DeduplicateFacts { threshold: 0.9 }],
        true,
        None,
    );
    assert!(consolidation.actions.is_empty());
    assert_eq!(graph_mut.node_count(), 1);

    let drift = drift_detection(&engine, &graph, "single node content", 10, 0.1);
    assert_eq!(drift.timelines.len(), 1);
}

#[test]
fn test_write_read_roundtrip_with_new_indexes() {
    let mut graph = new_graph();

    let contents = [
        "Rust programming language system performance",
        "Python scripting automation data science",
        "JavaScript web frontend React framework",
        "Database PostgreSQL query optimization",
        "Machine learning neural network training",
        "Cloud infrastructure Kubernetes deployment",
        "Security authentication encryption protocol",
        "Testing continuous integration pipeline",
        "API design RESTful microservices architecture",
        "Documentation code review best practices",
    ];

    for (i, content) in contents.iter().enumerate() {
        graph.add_node(fact(content, i as u32 / 3, 0.7 + (i as f32) * 0.03)).unwrap();
    }

    for i in 0..9u64 {
        graph.add_edge(edge(i, i + 1, EdgeType::RelatedTo, 0.8)).unwrap();
    }
    graph.add_edge(edge(0, 5, EdgeType::Supports, 0.7)).unwrap();
    refresh_average(&mut graph);

    let data = AmemWriter::to_bytes(&graph, 99).unwrap();
    let loaded = AmemReader::from_bytes(&data).unwrap();

    assert_eq!(loaded.node_count(), graph.node_count());
    for i in 0..graph.node_count() as u64 {
        let orig = graph.get_node(i).unwrap();
        let read = loaded.get_node(i).unwrap();
        assert_eq!(orig.id, read.id, "Node ID mismatch at {}", i);
        assert_eq!(orig.content, read.content, "Content mismatch at node {}", i);
        assert_eq!(orig.event_type, read.event_type, "EventType mismatch at node {}", i);
        assert_eq!(orig.session_id, read.session_id, "Session mismatch at node {}", i);
        assert!((num(orig.confidence) - num(read.confidence)).abs() < f32::EPSILON);
        assert_eq!(orig.feature_vec.len(), read.feature_vec.len());
        for (a, b) in orig.feature_vec.iter().zip(read.feature_vec.iter()) {
            assert!((num(*a) - num(*b)).abs() < 1e-6);
        }
    }

    assert_eq!(loaded.edge_count(), graph.edge_count());
    assert_eq!(loaded.edges(), graph.edges());

    assert!(loaded.term_index().is_some(), "Loaded graph should have a TermIndex");
    let ti = loaded.term_index().unwrap();
    let postings = ti.get("rust");
    assert!(!postings.is_empty(), "TermIndex should have postings for 'rust'");
    assert!(postings.iter().any(|p| p.node_id == 0), "Posting for 'rust' should include node 0");
    assert_eq!(ti.avg_doc_length(), graph.term_index().unwrap().avg_doc_length());
    assert!((num(ti.avg_doc_length()) - 4.6).abs() < 1e-6);

    assert!(loaded.doc_lengths().is_some(), "Loaded graph should have DocLengths");
    let dl = loaded.doc_lengths().unwrap();
    for i in 0..10u64 {
        assert!(dl.get(i) > 0, "DocLengths for node {} should be > 0", i);
    }

    let engine = QueryEngine::new();
    let results = text_search(
        &engine,
        &loaded,
        loaded.term_index(),
        loaded.doc_lengths(),
        "Rust programming",
        10,
        vec![],
        vec![],
    );
    assert!(!results.is_empty(), "Text search for 'Rust programming' should find results");
    assert_eq!(results[0].node_id, 0, "Node 0 ('Rust programming...') should be the top result");
    assert!(results[0].score > 0.0, "Top result should have positive BM25 score");
}
