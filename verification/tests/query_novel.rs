//! Belief revision, gap detection, analogies, consolidation and drift.

use agentic_memory::engine::analogical::PatternMatch;
use agentic_memory::engine::cognitive::{Gap, GapDetectionParams, GapSeverity, GapType};
use agentic_memory::engine::drift::{content_preview, BeliefTimeline, ChangeType};
use agentic_memory::engine::maintenance::{
    in_session_range, ordered_pair, ConsolidationOp, ConsolidationParams, ConsolidationReport,
    SimilarPair,
};
use agentic_memory::engine::query::QueryEngine;
use agentic_memory::graph::MemoryGraph;
use agentic_memory::rank::select_top;
use agentic_memory::types::{
    CognitiveEvent, CognitiveEventBuilder, Edge, EdgeType, EventType, DEFAULT_DIMENSION,
};

// ==================== Helpers ====================

fn bits(x: f32) -> u32 {
    x.to_bits()
}

fn num(b: u32) -> f32 {
    f32::from_bits(b)
}

fn key_of(x: f32) -> u64 {
    let b = x.to_bits();
    if b & 0x8000_0000 != 0 {
        (!b) as u64
    } else {
        (b | 0x8000_0000) as u64
    }
}

fn zero_vec() -> Vec<u32> {
    vec![0; DEFAULT_DIMENSION]
}

fn basis_vec(index: usize, value: f32) -> Vec<u32> {
    let mut v = vec![0u32; DEFAULT_DIMENSION];
    if index < DEFAULT_DIMENSION {
        v[index] = bits(value);
    }
    v
}

fn floats(v: &[u32]) -> Vec<f32> {
    v.iter().map(|&b| num(b)).collect()
}

fn is_zero(v: &[f32]) -> bool {
    v.iter().all(|&x| x == 0.0)
}

fn cosine_similarity(a: &[f32], b: &[f32]) -> f32 {
    let mut dot = 0.0f32;
    let mut na = 0.0f32;
    let mut nb = 0.0f32;
    for (x, y) in a.iter().zip(b.iter()) {
        dot += x * y;
        na += x * x;
        nb += y * y;
    }
    let denom = na.sqrt() * nb.sqrt();
    if denom == 0.0 {
        0.0
    } else {
        dot / denom
    }
}

fn node(event_type: EventType, content: &str, session: u32, confidence: f32, vec: Vec<u32>) -> CognitiveEvent {
    CognitiveEventBuilder::new(event_type, content)
        .session_id(session)
        .confidence(bits(confidence))
        .feature_vec(vec)
        .build()
}

fn timed(content: &str, session: u32, confidence: f32, created_at: u64) -> CognitiveEvent {
    CognitiveEventBuilder::new(EventType::Fact, content)
        .session_id(session)
        .confidence(bits(confidence))
        .created_at(created_at)
        .feature_vec(zero_vec())
        .build()
}

fn edge(source: u64, target: u64, edge_type: EdgeType, weight: f32) -> Edge {
    Edge::new(source, target, edge_type, bits(weight))
}

fn new_graph() -> MemoryGraph {
    MemoryGraph::new(DEFAULT_DIMENSION).unwrap()
}

// ---- belief revision ----

struct Weakened {
    node_id: u64,
    revised_confidence: f32,
}

struct Revision {
    contradicted: Vec<(u64, f32)>,
    weakened: Vec<Weakened>,
    invalidated_decisions: Vec<u64>,
    total_affected: usize,
}

fn belief_revision(
    qe: &QueryEngine,
    graph: &MemoryGraph,
    hypothesis: &str,
    hypothesis_vec: Option<Vec<f32>>,
    threshold: f32,
    max_depth: u32,
) -> Revision {
    let (evidence, terms) = qe.belief_evidence(graph, hypothesis);
    if terms == 0 && hypothesis_vec.is_none() {
        return Revision { contradicted: vec![], weakened: vec![], invalidated_decisions: vec![], total_affected: 0 };
    }
    let mut found: Vec<(u64, u32)> = Vec::new();
    let mut keys: Vec<u64> = Vec::new();
    for (ev, n) in evidence.iter().zip(graph.nodes().iter()) {
        let text_sim = if terms == 0 { 0.0 } else { ev.overlap as f32 / terms as f32 };
        let vec_sim = match &hypothesis_vec {
            Some(h) => {
                let v = floats(&n.feature_vec);
                if is_zero(&v) { 0.0 } else { cosine_similarity(h, &v) }
            }
            None => 0.0,
        };
        let relevance = if hypothesis_vec.is_some() { 0.5 * text_sim + 0.5 * vec_sim } else { text_sim };
        if relevance < threshold {
            continue;
        }
        if ev.has_negation || ev.has_contradicts_edge || ev.is_correction {
            let strength = (relevance
                * if ev.has_contradicts_edge { 1.0 } else { 0.8 }
                * if ev.has_negation { 1.0 } else { 0.7 })
            .clamp(0.0, 1.0);
            found.push((ev.node_id, strength.to_bits()));
            keys.push(key_of(strength));
        }
    }
    let contradicted: Vec<(u64, f32)> = select_top(&found, &keys, true, found.len())
        .into_iter()
        .map(|(id, b)| (id, num(b)))
        .collect();
    let ids: Vec<u64> = contradicted.iter().map(|c| c.0).collect();
    let report = qe.belief_revision(graph, &ids, max_depth);
    let mut weakening: std::collections::HashMap<u64, f32> = contradicted.iter().cloned().collect();
    let mut weakened = Vec::new();
    for step in &report.cascade {
        let from = *weakening.get(&step.from_node).unwrap();
        let effective = from * num(step.weight) * 0.7f32.powi(step.depth as i32);
        let original = num(graph.get_node(step.node_id).unwrap().confidence);
        weakening.insert(step.node_id, effective);
        weakened.push(Weakened {
            node_id: step.node_id,
            revised_confidence: (original - effective).clamp(0.0, 1.0),
        });
    }
    Revision {
        contradicted,
        weakened,
        invalidated_decisions: report.invalidated_decisions,
        total_affected: report.total_affected,
    }
}

// ---- gap detection ----

struct GapOutcome {
    gaps: Vec<Gap>,
    unjustified_decisions: usize,
    single_source_inferences: usize,
    low_confidence_foundations: usize,
    unstable_knowledge: usize,
    health_score: f32,
}

fn gap_detection(
    qe: &QueryEngine,
    graph: &MemoryGraph,
    confidence_threshold: f32,
    min_support_count: u32,
    session_range: Option<(u32, u32)>,
    sort_by: GapSeverity,
) -> GapOutcome {
    let params = GapDetectionParams {
        confidence_threshold: bits(confidence_threshold),
        min_support_count,
        max_results: 100,
        session_range,
        sort_by,
    };
    let mut gaps = qe.find_gaps(graph, &params);
    for g in gaps.iter_mut() {
        if g.gap_type == GapType::LowConfidenceFoundation || g.gap_type == GapType::StaleEvidence {
            g.severity = bits(1.0 - num(g.evidence as u32));
        }
    }
    let report = qe.gap_detection(graph, &params, &gaps);
    let s = report.summary;
    let health_score = if s.total_nodes > 0 {
        1.0 - (s.total_gaps as f32 / s.total_nodes as f32).clamp(0.0, 1.0)
    } else {
        1.0
    };
    GapOutcome {
        gaps: report.gaps,
        unjustified_decisions: s.unjustified_decisions,
        single_source_inferences: s.single_source_inferences,
        low_confidence_foundations: s.low_confidence_foundations,
        unstable_knowledge: s.unstable_knowledge,
        health_score,
    }
}

// ---- analogies ----

enum AnalogicalAnchor {
    Node(u64),
    Vector(Vec<f32>),
}

struct Analogy {
    center_id: u64,
    combined_score: f32,
    subgraph_nodes: Vec<u64>,
}

fn counts_cosine(a: &[usize], b: &[usize]) -> f32 {
    if a.iter().all(|&x| x == 0) && b.iter().all(|&x| x == 0) {
        return 1.0;
    }
    let mut dot = 0.0f64;
    let mut na = 0.0f64;
    let mut nb = 0.0f64;
    for (&x, &y) in a.iter().zip(b.iter()) {
        dot += x as f64 * y as f64;
        na += (x * x) as f64;
        nb += (y * y) as f64;
    }
    let denom = na.sqrt() * nb.sqrt();
    if denom < 1e-12 {
        0.0
    } else {
        (dot / denom) as f32
    }
}

fn branching(p: &PatternMatch) -> f32 {
    if p.node_count == 0 {
        0.0
    } else {
        p.out_edges as f32 / p.node_count as f32
    }
}

fn compare_fingerprints(a: &PatternMatch, b: &PatternMatch) -> f32 {
    let et_sim = counts_cosine(&a.event_type_counts, &b.event_type_counts);
    let edge_sim = counts_cosine(&a.edge_type_counts, &b.edge_type_counts);
    let max_chain = a.causal_chain_depth.max(b.causal_chain_depth).max(1) as f32;
    let chain_sim = 1.0 - (a.causal_chain_depth as f32 - b.causal_chain_depth as f32).abs() / max_chain;
    let max_bf = branching(a).max(branching(b)).max(0.01);
    let bf_sim = 1.0 - (branching(a) - branching(b)).abs() / max_bf;
    0.3 * et_sim + 0.3 * edge_sim + 0.2 * chain_sim + 0.2 * bf_sim
}

fn analogical(
    qe: &QueryEngine,
    graph: &MemoryGraph,
    anchor: AnalogicalAnchor,
    context_depth: u32,
    max_results: usize,
    min_similarity: f32,
    exclude_sessions: Vec<u32>,
) -> Vec<Analogy> {
    let (center, anchor_vec) = match anchor {
        AnalogicalAnchor::Node(id) => (id, floats(&graph.get_node(id).unwrap().feature_vec)),
        AnalogicalAnchor::Vector(v) => {
            let mut best_id = 0u64;
            let mut best_sim = -1.0f32;
            for n in graph.nodes() {
                let fv = floats(&n.feature_vec);
                if is_zero(&fv) {
                    continue;
                }
                let sim = cosine_similarity(&v, &fv);
                if sim > best_sim {
                    best_sim = sim;
                    best_id = n.id;
                }
            }
            if best_sim < 0.0 {
                return Vec::new();
            }
            (best_id, v)
        }
    };
    let base = qe.analogical(graph, center, context_depth, &exclude_sessions).unwrap();
    let mut items: Vec<(usize, u32)> = Vec::new();
    let mut keys: Vec<u64> = Vec::new();
    for (i, cand) in base.candidates.iter().enumerate() {
        let structural = compare_fingerprints(&base.anchor_pattern, &cand.pattern);
        let fv = floats(&graph.get_node(cand.center_id).unwrap().feature_vec);
        let content = if !is_zero(&anchor_vec) && !is_zero(&fv) {
            cosine_similarity(&anchor_vec, &fv).max(0.0)
        } else {
            0.0
        };
        let combined = 0.6 * structural + 0.4 * content;
        if combined >= min_similarity {
            items.push((i, combined.to_bits()));
            keys.push(key_of(combined));
        }
    }
    select_top(&items, &keys, true, max_results)
        .into_iter()
        .map(|(i, b)| Analogy {
            center_id: base.candidates[i].center_id,
            combined_score: num(b),
            subgraph_nodes: base.candidates[i].subgraph.nodes.clone(),
        })
        .collect()
}

// ---- consolidation ----

enum Op {
    DeduplicateFacts { threshold: f32 },
    LinkContradictions { threshold: f32 },
}

fn similar_pairs(
    graph: &MemoryGraph,
    threshold: f32,
    range: Option<(u32, u32)>,
    kinds: &[EventType],
) -> Vec<SimilarPair> {
    let picked: Vec<&CognitiveEvent> = graph
        .nodes()
        .iter()
        .filter(|n| kinds.contains(&n.event_type) && in_session_range(n.session_id, range))
        .collect();
    let mut pairs = Vec::new();
    for i in 0..picked.len() {
        for j in (i + 1)..picked.len() {
            let sim = cosine_similarity(&floats(&picked[i].feature_vec), &floats(&picked[j].feature_vec));
            if sim >= threshold {
                pairs.push(SimilarPair { first: picked[i].id, second: picked[j].id, similarity: bits(sim) });
            }
        }
    }
    pairs
}

fn consolidate(
    qe: &QueryEngine,
    graph: &mut MemoryGraph,
    operations: Vec<Op>,
    dry_run: bool,
    backup_path: Option<String>,
) -> ConsolidationReport {
    let ops = operations
        .into_iter()
        .map(|op| match op {
            Op::DeduplicateFacts { threshold } => ConsolidationOp::DeduplicateFacts {
                candidates: similar_pairs(graph, threshold, None, &[EventType::Fact]),
            },
            Op::LinkContradictions { threshold } => ConsolidationOp::LinkContradictions {
                candidates: similar_pairs(graph, threshold, None, &[EventType::Fact, EventType::Inference]),
            },
        })
        .collect();
    qe.consolidate(
        graph,
        ConsolidationParams { session_range: None, operations: ops, dry_run, backup_path, now: 42 },
    )
    .unwrap()
}

// ---- drift ----

struct Drift {
    timelines: Vec<BeliefTimeline>,
    stability: f32,
    likely_to_change: bool,
}

fn drift_detection(qe: &QueryEngine, graph: &MemoryGraph, topic: &str, max_results: usize, min_relevance: f32) -> Drift {
    let (overlaps, terms) = qe.term_overlap(graph, topic);
    if terms == 0 {
        return Drift { timelines: vec![], stability: 1.0, likely_to_change: false };
    }
    let mut items: Vec<u64> = Vec::new();
    let mut keys: Vec<u64> = Vec::new();
    for (o, n) in overlaps.iter().zip(graph.nodes().iter()) {
        let relevance = *o as f32 / terms as f32;
        if relevance >= min_relevance {
            items.push(n.id);
            keys.push(key_of(relevance));
        }
    }
    if items.is_empty() {
        return Drift { timelines: vec![], stability: 1.0, likely_to_change: false };
    }
    let relevant = select_top(&items, &keys, true, items.len());
    let report = qe.drift_detection(graph, &relevant, max_results);
    let stability = if report.total_snapshots <= 1 {
        1.0
    } else {
        (1.0 - report.total_upsets as f32 / report.total_snapshots as f32).clamp(0.0, 1.0)
    };
    Drift { timelines: report.timelines, stability, likely_to_change: report.likely_to_change }
}

// ==================== Belief Revision Tests ====================

#[test]
fn test_revise_finds_contradiction() {
    let mut graph = new_graph();
    let id_fact = graph.add_node(node(EventType::Fact, "Team doesn't know Go", 1, 0.9, zero_vec())).unwrap();
    let id_decision = graph
        .add_node(node(EventType::Decision, "Chose Rust because team doesn't know Go", 1, 0.85, zero_vec()))
        .unwrap();
    graph.add_edge(edge(id_decision, id_fact, EdgeType::CausedBy, 1.0)).unwrap();

    let qe = QueryEngine::new();
    let report = belief_revision(&qe, &graph, "Team now knows Go", None, 0.3, 5);

    assert!(!report.contradicted.is_empty(), "Should find at least one contradicted node");
    let contradicted_ids: Vec<u64> = report.contradicted.iter().map(|c| c.0).collect();
    assert!(
        contradicted_ids.contains(&id_fact),
        "Fact 'Team doesn't know Go' should be contradicted, contradicted IDs: {:?}",
        contradicted_ids
    );
    assert!(
        report.invalidated_decisions.contains(&id_decision),
        "Decision 'Chose Rust' should be invalidated, got: {:?}",
        report.invalidated_decisions
    );
}

#[test]
fn test_revise_cascade_propagation() {
    let mut graph = new_graph();
    let id_a = graph
        .add_node(node(EventType::Fact, "Database cannot handle concurrent writes", 1, 0.9, zero_vec()))
        .unwrap();
    let id_b = graph
        .add_node(node(
            EventType::Inference,
            "We need a write queue for database concurrent writes",
            1,
            0.8,
            zero_vec(),
        ))
        .unwrap();
    let id_c = graph
        .add_node(node(EventType::Decision, "Implement write queue for database", 1, 0.85, zero_vec()))
        .unwrap();
    graph.add_edge(edge(id_b, id_a, EdgeType::CausedBy, 1.0)).unwrap();
    graph.add_edge(edge(id_c, id_b, EdgeType::CausedBy, 1.0)).unwrap();

    let qe = QueryEngine::new();
    let report =
        belief_revision(&qe, &graph, "Database can handle concurrent writes perfectly", None, 0.2, 5);

    let contradicted_ids: Vec<u64> = report.contradicted.iter().map(|c| c.0).collect();
    assert!(contradicted_ids.contains(&id_a), "Fact A should be contradicted, got: {:?}", contradicted_ids);
    assert_eq!(contradicted_ids, vec![id_a]);
    assert!((report.contradicted[0].1 - 0.64).abs() < 1e-6);

    let weakened_ids: Vec<u64> = report.weakened.iter().map(|w| w.node_id).collect();
    assert!(
        weakened_ids.contains(&id_b),
        "Inference B should be weakened via cascade, got: {:?}",
        weakened_ids
    );
    assert_eq!(weakened_ids, vec![id_b, id_c]);
    assert!((report.weakened[0].revised_confidence - (0.8 - 0.64 * 0.7)).abs() < 1e-5);
    assert!(
        report.invalidated_decisions.contains(&id_c),
        "Decision C should be invalidated, got: {:?}",
        report.invalidated_decisions
    );
    assert!(
        report.total_affected >= 2,
        "Should have multiple affected nodes, got: {}",
        report.total_affected
    );
    assert_eq!(report.total_affected, 3);
}

#[test]
fn test_revise_no_contradiction() {
    let mut graph = new_graph();
    graph
        .add_node(node(EventType::Fact, "Rust is a systems programming language", 1, 0.95, zero_vec()))
        .unwrap();
    graph.add_node(node(EventType::Decision, "Use Rust for the backend", 1, 0.9, zero_vec())).unwrap();

    let qe = QueryEngine::new();
    let report = belief_revision(&qe, &graph, "Python is good for scripting", None, 0.5, 5);

    assert!(report.contradicted.is_empty(), "Expected no contradictions");
    assert!(
        report.invalidated_decisions.is_empty(),
        "Expected no invalidated decisions, got: {:?}",
        report.invalidated_decisions
    );
    assert_eq!(report.total_affected, 0);
}

#[test]
fn test_revise_readonly() {
    let mut graph = new_graph();
    graph
        .add_node(node(EventType::Fact, "Team doesn't know Go programming", 1, 0.9, zero_vec()))
        .unwrap();
    let id_decision = graph
        .add_node(node(EventType::Decision, "Chose Rust because team doesn't know Go", 1, 0.85, zero_vec()))
        .unwrap();
    graph.add_edge(edge(id_decision, 0, EdgeType::CausedBy, 1.0)).unwrap();

    let node_count_before = graph.node_count();
    let edge_count_before = graph.edge_count();

    let qe = QueryEngine::new();
    let _report = belief_revision(&qe, &graph, "Team now knows Go programming", None, 0.2, 5);

    assert_eq!(graph.node_count(), node_count_before, "Node count changed after belief revision");
    assert_eq!(graph.edge_count(), edge_count_before, "Edge count changed after belief revision");
    let fact_node = graph.get_node(0).unwrap();
    assert!(
        (num(fact_node.confidence) - 0.9).abs() < f32::EPSILON,
        "Fact confidence should be unchanged, got: {}",
        num(fact_node.confidence)
    );
    let decision_node = graph.get_node(id_decision).unwrap();
    assert!(
        (num(decision_node.confidence) - 0.85).abs() < f32::EPSILON,
        "Decision confidence should be unchanged, got: {}",
        num(decision_node.confidence)
    );
}

#[test]
fn test_revise_multiple_affected() {
    let mut graph = new_graph();
    let id_a = graph
        .add_node(node(EventType::Fact, "Server cannot scale horizontally", 1, 0.9, zero_vec()))
        .unwrap();
    let id_d1 = graph
        .add_node(node(EventType::Decision, "Use vertical scaling for server", 1, 0.85, zero_vec()))
        .unwrap();
    let id_d2 = graph
        .add_node(node(EventType::Decision, "Buy bigger server hardware for scaling", 1, 0.8, zero_vec()))
        .unwrap();
    let id_d3 = graph
        .add_node(node(
            EventType::Decision,
            "Avoid microservices because server scaling is limited",
            1,
            0.75,
            zero_vec(),
        ))
        .unwrap();
    for &d_id in &[id_d1, id_d2, id_d3] {
        graph.add_edge(edge(d_id, id_a, EdgeType::CausedBy, 1.0)).unwrap();
    }

    let qe = QueryEngine::new();
    let report = belief_revision(&qe, &graph, "Server can scale horizontally easily", None, 0.2, 5);

    let contradicted_ids: Vec<u64> = report.contradicted.iter().map(|c| c.0).collect();
    assert!(contradicted_ids.contains(&id_a), "Fact A should be contradicted");
    for &d_id in &[id_d1, id_d2, id_d3] {
        assert!(
            report.invalidated_decisions.contains(&d_id),
            "Decision {} should be in invalidated_decisions, got: {:?}",
            d_id,
            report.invalidated_decisions
        );
    }
}

#[test]
fn cascade_stops_at_the_depth_bound_and_records_edges() {
    let mut graph = new_graph();
    let a = graph.add_node(node(EventType::Fact, "a", 1, 0.9, zero_vec())).unwrap();
    let b = graph.add_node(node(EventType::Inference, "b", 1, 0.9, zero_vec())).unwrap();
    let c = graph.add_node(node(EventType::Decision, "c", 1, 0.9, zero_vec())).unwrap();
    graph.add_edge(edge(b, a, EdgeType::Supports, 0.5)).unwrap();
    graph.add_edge(edge(c, b, EdgeType::CausedBy, 1.0)).unwrap();
    graph.add_edge(edge(c, a, EdgeType::RelatedTo, 1.0)).unwrap();
    let qe = QueryEngine::new();
    let one = qe.belief_revision(&graph, &vec![a], 1);
    assert_eq!(one.cascade.len(), 1);
    let step = one.cascade[0];
    assert_eq!((step.node_id, step.from_node, step.depth), (b, a, 1));
    assert_eq!(step.via_edge, EdgeType::Supports);
    assert_eq!(step.weight, bits(0.5));
    assert!(one.invalidated_decisions.is_empty());
    assert_eq!(one.total_affected, 2);
    let two = qe.belief_revision(&graph, &vec![a], 2);
    let nodes: Vec<(u64, u32)> = two.cascade.iter().map(|s| (s.node_id, s.depth)).collect();
    assert_eq!(nodes, vec![(b, 1), (c, 2)]);
    assert_eq!(two.invalidated_decisions, vec![c]);
}

// ==================== Gap Detection Tests ====================

#[test]
fn test_gaps_unjustified_decision() {
    let mut graph = new_graph();
    graph.add_node(node(EventType::Decision, "Use microservices architecture", 1, 0.9, zero_vec())).unwrap();

    let qe = QueryEngine::new();
    let report = gap_detection(&qe, &graph, 0.5, 2, None, GapSeverity::HighestImpact);

    let unjustified =
        report.gaps.iter().filter(|g| g.gap_type == GapType::UnjustifiedDecision).collect::<Vec<_>>();
    assert!(!unjustified.is_empty(), "Should detect the unjustified decision");
    assert_eq!(unjustified[0].node_id, 0);
    assert!((num(unjustified[0].severity) - 0.9).abs() < f32::EPSILON);
    assert_eq!(report.unjustified_decisions, 1);
}

#[test]
fn test_gaps_single_source_inference() {
    let mut graph = new_graph();
    let id_fact = graph
        .add_node(node(EventType::Fact, "Users report slow response times", 1, 0.9, zero_vec()))
        .unwrap();
    let id_inference = graph
        .add_node(node(EventType::Inference, "Server is under heavy load", 1, 0.7, zero_vec()))
        .unwrap();
    graph.add_edge(edge(id_fact, id_inference, EdgeType::Supports, 0.8)).unwrap();

    let qe = QueryEngine::new();
    let report = gap_detection(&qe, &graph, 0.5, 2, None, GapSeverity::HighestImpact);

    let single_source =
        report.gaps.iter().filter(|g| g.gap_type == GapType::SingleSourceInference).collect::<Vec<_>>();
    assert!(!single_source.is_empty(), "Should detect single-source inference");
    assert_eq!(single_source[0].evidence, 1);
    assert!((num(single_source[0].severity) - 0.7).abs() < f32::EPSILON);
    assert_eq!(report.single_source_inferences, 1);
}

#[test]
fn test_gaps_low_confidence_foundation() {
    let mut graph = new_graph();
    let id_weak = graph
        .add_node(node(EventType::Fact, "Unverified rumor about API change", 1, 0.3, zero_vec()))
        .unwrap();
    for i in 0..5 {
        let dep_id = graph
            .add_node(node(EventType::Inference, &format!("Inference {} from weak rumor", i), 1, 0.7, zero_vec()))
            .unwrap();
        graph.add_edge(edge(dep_id, id_weak, EdgeType::CausedBy, 0.9)).unwrap();
    }

    let qe = QueryEngine::new();
    let report = gap_detection(&qe, &graph, 0.5, 2, None, GapSeverity::HighestImpact);

    let low_conf =
        report.gaps.iter().filter(|g| g.gap_type == GapType::LowConfidenceFoundation).collect::<Vec<_>>();
    assert!(!low_conf.is_empty(), "Should detect low confidence foundation");
    assert_eq!(low_conf[0].node_id, id_weak);
    assert_eq!(low_conf[0].downstream_count, 5);
    assert!((num(low_conf[0].severity) - 0.7).abs() < 1e-6);
    assert_eq!(report.low_confidence_foundations, 1);
    assert_eq!(report.gaps[0].node_id, id_weak, "Most dependents first");
}

#[test]
fn test_gaps_unstable_knowledge() {
    let mut graph = new_graph();
    let mut prev_id = None;
    for i in 0..5 {
        let id = graph
            .add_node(node(EventType::Fact, &format!("Version {} of the API spec", i), i as u32 + 1, 0.8, zero_vec()))
            .unwrap();
        if let Some(prev) = prev_id {
            graph.add_edge(edge(id, prev, EdgeType::Supersedes, 1.0)).unwrap();
        }
        prev_id = Some(id);
    }

    let qe = QueryEngine::new();
    let report = gap_detection(&qe, &graph, 0.5, 2, None, GapSeverity::HighestImpact);

    let unstable =
        report.gaps.iter().filter(|g| g.gap_type == GapType::UnstableKnowledge).collect::<Vec<_>>();
    assert!(
        !unstable.is_empty(),
        "Should detect unstable knowledge from supersedes chain of length 4"
    );
    assert!(report.unstable_knowledge > 0);
    assert_eq!(report.unstable_knowledge, 5);
    assert_eq!(unstable[0].evidence, 4);
    assert!((num(unstable[0].severity) - 0.8).abs() < f32::EPSILON);
    assert_eq!(qe.count_supersedes_chain(&graph, 2), 4);
}

#[test]
fn test_gaps_health_score() {
    let qe = QueryEngine::new();

    let mut healthy_graph = new_graph();
    for i in 0..5 {
        healthy_graph
            .add_node(node(EventType::Fact, &format!("Well-established fact {}", i), 1, 0.95, zero_vec()))
            .unwrap();
    }
    let d_id = healthy_graph
        .add_node(node(EventType::Decision, "Well-justified decision", 1, 0.9, zero_vec()))
        .unwrap();
    healthy_graph.add_edge(edge(d_id, 0, EdgeType::CausedBy, 1.0)).unwrap();
    healthy_graph.add_edge(edge(d_id, 1, EdgeType::Supports, 1.0)).unwrap();

    let healthy_report = gap_detection(&qe, &healthy_graph, 0.5, 2, None, GapSeverity::HighestImpact);
    assert!(
        healthy_report.health_score > 0.5,
        "Healthy graph should have high health score, got: {}",
        healthy_report.health_score
    );

    let mut unhealthy_graph = new_graph();
    for i in 0..10 {
        unhealthy_graph
            .add_node(node(EventType::Decision, &format!("Unjustified decision {}", i), 1, 0.9, zero_vec()))
            .unwrap();
    }
    let unhealthy_report = gap_detection(&qe, &unhealthy_graph, 0.5, 2, None, GapSeverity::HighestImpact);
    assert!(
        unhealthy_report.health_score < 0.5,
        "Graph full of unjustified decisions should have low health score, got: {}",
        unhealthy_report.health_score
    );
}

#[test]
fn test_gaps_session_filter() {
    let mut graph = new_graph();
    for i in 1..=5u32 {
        graph
            .add_node(node(EventType::Decision, &format!("Unjustified decision session {}", i), i, 0.9, zero_vec()))
            .unwrap();
    }
    for i in 6..=10u32 {
        graph
            .add_node(node(EventType::Fact, &format!("Solid fact session {}", i), i, 0.95, zero_vec()))
            .unwrap();
    }

    let qe = QueryEngine::new();
    let full_report = gap_detection(&qe, &graph, 0.5, 2, None, GapSeverity::HighestImpact);
    assert!(!full_report.gaps.is_empty(), "Full scan should find gaps from sessions 1-5");

    let filtered_report = gap_detection(&qe, &graph, 0.5, 2, Some((6, 10)), GapSeverity::HighestImpact);
    assert!(filtered_report.gaps.is_empty(), "Filtered to sessions 6-10 should find no gaps");
}

#[test]
fn gaps_are_ranked_by_severity_and_by_time() {
    let mut graph = new_graph();
    let old = CognitiveEventBuilder::new(EventType::Decision, "old")
        .created_at(10)
        .feature_vec(zero_vec())
        .build();
    let new = CognitiveEventBuilder::new(EventType::Inference, "new")
        .created_at(20)
        .feature_vec(zero_vec())
        .build();
    graph.add_node(old).unwrap();
    graph.add_node(new).unwrap();
    let qe = QueryEngine::new();
    let by_severity = gap_detection(&qe, &graph, 0.5, 1, None, GapSeverity::LowestConfidence);
    let order: Vec<u64> = by_severity.gaps.iter().map(|g| g.node_id).collect();
    assert_eq!(order, vec![0, 1]);
    let by_time = gap_detection(&qe, &graph, 0.5, 1, None, GapSeverity::MostRecent);
    let order: Vec<u64> = by_time.gaps.iter().map(|g| g.node_id).collect();
    assert_eq!(order, vec![1, 0]);
}

#[test]
fn stale_evidence_is_a_decayed_fact_with_dependents() {
    let mut graph = new_graph();
    let f = graph.add_node(node(EventType::Fact, "old fact", 1, 0.9, zero_vec())).unwrap();
    let d = graph.add_node(node(EventType::Decision, "rests on it", 1, 0.9, zero_vec())).unwrap();
    graph.add_edge(edge(d, f, EdgeType::Supports, 1.0)).unwrap();
    assert!(graph.set_decay_score(f, bits(0.1)));
    let qe = QueryEngine::new();
    let report = gap_detection(&qe, &graph, 0.5, 2, None, GapSeverity::HighestImpact);
    let kinds: Vec<(u64, GapType)> = report.gaps.iter().map(|g| (g.node_id, g.gap_type)).collect();
    assert_eq!(kinds, vec![(f, GapType::StaleEvidence), (d, GapType::UnjustifiedDecision)]);
    assert!((num(report.gaps[0].severity) - 0.9).abs() < 1e-6);
    assert_eq!(qe.count_downstream(&graph, f), 1);
    assert_eq!(qe.count_downstream(&graph, d), 0);
}

// ==================== Analogical Query Tests ====================

#[test]
fn test_analogy_finds_similar_structure() {
    let mut graph = new_graph();
    let id_f1a = graph.add_node(node(EventType::Fact, "Team knows Rust well", 1, 0.9, basis_vec(0, 1.0))).unwrap();
    let id_f1b = graph
        .add_node(node(EventType::Fact, "Project requires high performance", 1, 0.85, basis_vec(1, 1.0)))
        .unwrap();
    let id_d1 = graph
        .add_node(node(EventType::Decision, "Choose Rust for backend", 1, 0.9, basis_vec(2, 1.0)))
        .unwrap();
    graph.add_edge(edge(id_d1, id_f1a, EdgeType::CausedBy, 1.0)).unwrap();
    graph.add_edge(edge(id_d1, id_f1b, EdgeType::CausedBy, 0.9)).unwrap();

    let id_f10a = graph
        .add_node(node(EventType::Fact, "Cloud provider offers Kubernetes", 10, 0.9, basis_vec(3, 1.0)))
        .unwrap();
    let id_f10b = graph
        .add_node(node(EventType::Fact, "Team has container experience", 10, 0.85, basis_vec(4, 1.0)))
        .unwrap();
    let id_d10 = graph
        .add_node(node(EventType::Decision, "Deploy on Kubernetes", 10, 0.9, basis_vec(5, 1.0)))
        .unwrap();
    graph.add_edge(edge(id_d10, id_f10a, EdgeType::CausedBy, 1.0)).unwrap();
    graph.add_edge(edge(id_d10, id_f10b, EdgeType::CausedBy, 0.9)).unwrap();

    let qe = QueryEngine::new();
    let analogies = analogical(&qe, &graph, AnalogicalAnchor::Node(id_d1), 2, 10, 0.0, vec![]);

    assert!(!analogies.is_empty(), "Should find at least one analogy, got empty results");
    let session_10_ids: Vec<u64> = vec![id_f10a, id_f10b, id_d10];
    let found_session_10 = analogies.iter().any(|a| {
        session_10_ids.contains(&a.center_id) || a.subgraph_nodes.iter().any(|n| session_10_ids.contains(n))
    });
    assert!(found_session_10, "Should find analogy involving session 10 nodes");
    assert!((analogies[0].combined_score - 0.6).abs() < 1e-5);

    let base = qe.analogical(&graph, id_d1, 2, &vec![]).unwrap();
    assert_eq!(base.anchor.nodes, vec![id_d1, id_f1a, id_f1b]);
    assert_eq!(base.anchor.edges.len(), 2);
    assert_eq!(base.anchor_pattern.event_type_counts, vec![2, 1, 0, 0, 0, 0]);
    assert_eq!(base.anchor_pattern.edge_type_counts, vec![2, 0, 0, 0, 0, 0, 0, 0]);
    assert_eq!(base.anchor_pattern.causal_chain_depth, 1);
    assert_eq!(base.anchor_pattern.out_edges, 2);
    let centers: Vec<u64> = base.candidates.iter().map(|c| c.center_id).collect();
    assert_eq!(centers, vec![id_f10a, id_f10b, id_d10]);
}

#[test]
fn test_analogy_excludes_current_session() {
    let mut graph = new_graph();
    let id_f1 = graph.add_node(node(EventType::Fact, "Fact in session one", 1, 0.9, basis_vec(0, 1.0))).unwrap();
    graph.add_node(node(EventType::Fact, "Fact in session ten", 10, 0.9, basis_vec(0, 0.9))).unwrap();
    graph.add_node(node(EventType::Fact, "Fact in session twenty", 20, 0.9, basis_vec(0, 0.8))).unwrap();

    let qe = QueryEngine::new();
    let analogies = analogical(&qe, &graph, AnalogicalAnchor::Node(id_f1), 1, 10, 0.0, vec![10]);

    for analogy in &analogies {
        let center_node = graph.get_node(analogy.center_id).unwrap();
        assert_ne!(
            center_node.session_id, 10,
            "Session 10 should be excluded but found center_id {} in session 10",
            analogy.center_id
        );
    }
    let centers: Vec<u64> = analogies.iter().map(|a| a.center_id).collect();
    assert_eq!(centers, vec![2]);
}

#[test]
fn test_analogy_no_match() {
    let mut graph = new_graph();
    let id_lone = graph.add_node(node(EventType::Fact, "Unique lonely fact", 1, 0.9, basis_vec(0, 1.0))).unwrap();

    let qe = QueryEngine::new();
    let analogies = analogical(&qe, &graph, AnalogicalAnchor::Node(id_lone), 2, 10, 0.99, vec![]);
    assert!(
        analogies.is_empty(),
        "Should return empty with no other nodes in graph, got {} results",
        analogies.len()
    );
}

#[test]
fn test_analogy_text_anchor() {
    let mut graph = new_graph();
    graph.add_node(node(EventType::Fact, "Machine learning model accuracy", 1, 0.9, basis_vec(0, 1.0))).unwrap();
    graph.add_node(node(EventType::Fact, "Database query performance", 2, 0.85, basis_vec(1, 1.0))).unwrap();
    graph.add_node(node(EventType::Fact, "Network latency optimization", 3, 0.8, basis_vec(2, 1.0))).unwrap();

    let qe = QueryEngine::new();
    let query_vec = floats(&basis_vec(0, 0.95));
    let analogies = analogical(&qe, &graph, AnalogicalAnchor::Vector(query_vec), 1, 10, 0.0, vec![]);
    let centers: Vec<u64> = analogies.iter().map(|a| a.center_id).collect();
    assert_eq!(centers, vec![1, 2]);
}

// ==================== Consolidation Tests ====================

#[test]
fn test_consolidate_dry_run_no_mutation() {
    let mut graph = new_graph();
    graph
        .add_node(node(EventType::Fact, "The API response time is 200ms", 1, 0.7, basis_vec(0, 1.0)))
        .unwrap();
    graph
        .add_node(node(EventType::Fact, "The API response time is 200ms on average", 2, 0.9, basis_vec(0, 0.99)))
        .unwrap();
    let node_count_before = graph.node_count();
    let edge_count_before = graph.edge_count();

    let qe = QueryEngine::new();
    let report = consolidate(
        &qe,
        &mut graph,
        vec![Op::DeduplicateFacts { threshold: 0.8 }, Op::LinkContradictions { threshold: 0.8 }],
        true,
        None,
    );

    assert_eq!(graph.node_count(), node_count_before, "Node count should be unchanged after dry run");
    assert_eq!(graph.edge_count(), edge_count_before, "Edge count should be unchanged after dry run");
    assert_eq!(report.deduplicated, 1);
    assert_eq!(report.actions[0].affected_nodes, vec![1, 0]);
}

#[test]
fn test_consolidate_dedup_detects_duplicates() {
    let mut graph = new_graph();
    let content = "Rust compiler guarantees memory safety at compile time";
    graph.add_node(node(EventType::Fact, content, 1, 0.7, basis_vec(0, 1.0))).unwrap();
    graph.add_node(node(EventType::Fact, content, 2, 0.9, basis_vec(0, 1.0))).unwrap();

    let qe = QueryEngine::new();
    let report = consolidate(&qe, &mut graph, vec![Op::DeduplicateFacts { threshold: 0.9 }], true, None);

    assert!(report.deduplicated >= 1, "Should detect at least 1 duplicate pair, got: {}", report.deduplicated);
    let dedup_actions: Vec<_> = report.actions.iter().filter(|a| a.operation == "deduplicate_facts").collect();
    assert!(!dedup_actions.is_empty(), "Should have a deduplicate_facts action");
}

#[test]
fn test_consolidate_dedup_keeps_higher_confidence() {
    let mut graph = new_graph();
    let content = "Kubernetes orchestrates container workloads efficiently";
    let id_low = graph.add_node(node(EventType::Fact, content, 1, 0.7, basis_vec(0, 1.0))).unwrap();
    let id_high = graph.add_node(node(EventType::Fact, content, 2, 0.9, basis_vec(0, 1.0))).unwrap();

    let qe = QueryEngine::new();
    let report = consolidate(&qe, &mut graph, vec![Op::DeduplicateFacts { threshold: 0.9 }], false, None);

    assert!(report.deduplicated >= 1, "Should deduplicate the pair, got: {}", report.deduplicated);
    let edges_from_high = graph.edges_from(id_high);
    let supersedes_edges: Vec<_> = edges_from_high
        .iter()
        .filter(|e| e.edge_type == EdgeType::Supersedes && e.target_id == id_low)
        .collect();
    assert!(
        !supersedes_edges.is_empty(),
        "Higher confidence node ({}) should supersede lower confidence node ({})",
        id_high,
        id_low
    );
    assert_eq!(supersedes_edges[0].created_at, 42);
    assert_eq!(supersedes_edges[0].weight, bits(1.0));
}

#[test]
fn test_consolidate_link_contradictions() {
    let mut graph = new_graph();
    let id_pos = graph
        .add_node(node(
            EventType::Fact,
            "Rust compiler guarantees memory safety effectively always",
            1,
            0.9,
            basis_vec(0, 1.0),
        ))
        .unwrap();
    let id_neg = graph
        .add_node(node(
            EventType::Fact,
            "Rust compiler never guarantees memory safety effectively",
            2,
            0.8,
            basis_vec(0, 1.0),
        ))
        .unwrap();

    let qe = QueryEngine::new();
    let report = consolidate(&qe, &mut graph, vec![Op::LinkContradictions { threshold: 0.5 }], false, None);

    assert!(
        report.contradictions_linked >= 1,
        "Should link at least 1 contradiction pair, got: {}",
        report.contradictions_linked
    );
    let has_contradicts = graph
        .edges_from(id_pos)
        .iter()
        .any(|e| e.edge_type == EdgeType::Contradicts && e.target_id == id_neg)
        || graph
            .edges_from(id_neg)
            .iter()
            .any(|e| e.edge_type == EdgeType::Contradicts && e.target_id == id_pos);
    assert!(
        has_contradicts,
        "Should have a Contradicts edge between node {} and node {}",
        id_pos, id_neg
    );
}

#[test]
fn test_consolidate_backup_created() {
    let mut graph = new_graph();
    graph.add_node(node(EventType::Fact, "Some fact for backup test", 1, 0.9, zero_vec())).unwrap();
    let backup_path = "/tmp/test_backup_consolidate.amem".to_string();

    let qe = QueryEngine::new();
    let report = consolidate(
        &qe,
        &mut graph,
        vec![Op::DeduplicateFacts { threshold: 0.9 }],
        false,
        Some(backup_path.clone()),
    );
    assert_eq!(report.backup_path, Some(backup_path), "Backup path should be echoed in the report");
}

#[test]
fn test_consolidate_backup_is_original() {
    let mut graph = new_graph();
    graph.add_node(node(EventType::Fact, "Fact for backup original test", 1, 0.9, zero_vec())).unwrap();
    let original_path = "/tmp/backup_original_test.amem".to_string();

    let qe = QueryEngine::new();
    let report = consolidate(
        &qe,
        &mut graph,
        vec![Op::DeduplicateFacts { threshold: 0.9 }],
        true,
        Some(original_path.clone()),
    );
    assert_eq!(
        report.backup_path.as_ref(),
        Some(&original_path),
        "Report backup_path should match the original input path"
    );
}

#[test]
fn consolidation_prunes_compresses_and_promotes() {
    let mut graph = new_graph();
    for (i, session) in [1u32, 1, 2, 2, 2].iter().enumerate() {
        let e = CognitiveEventBuilder::new(EventType::Episode, "episode")
            .session_id(*session)
            .created_at(100 - i as u64)
            .feature_vec(zero_vec())
            .build();
        graph.add_node(e).unwrap();
    }
    let inf = graph.add_node(node(EventType::Inference, "well known", 3, 0.9, zero_vec())).unwrap();
    for _ in 0..3 {
        assert!(graph.record_access(inf));
    }
    assert!(graph.set_decay_score(0, bits(0.05)));
    let qe = QueryEngine::new();
    let ops = || {
        vec![
            ConsolidationOp::PruneOrphans { max_decay: bits(0.1) },
            ConsolidationOp::CompressEpisodes { group_size: 3 },
            ConsolidationOp::PromoteInferences { min_access: 3, min_confidence: bits(0.8) },
        ]
    };
    let dry = qe
        .consolidate(
            &mut graph,
            ConsolidationParams { session_range: None, operations: ops(), dry_run: true, backup_path: None, now: 0 },
        )
        .unwrap();
    assert_eq!(dry.pruned, 1);
    assert_eq!(dry.episodes_compressed, 3);
    assert_eq!(dry.inferences_promoted, 1);
    let ops_named: Vec<&str> = dry.actions.iter().map(|a| a.operation.as_str()).collect();
    assert_eq!(ops_named, vec!["prune_orphans", "compress_episodes", "promote_inferences"]);
    assert_eq!(dry.actions[0].affected_nodes, vec![0]);
    // In order of time the episodes are 4, 3, 2 (session 2), then 1, 0 (session 1).
    assert_eq!(dry.actions[1].affected_nodes, vec![4, 3, 2]);
    assert_eq!(dry.actions[2].affected_nodes, vec![inf]);
    assert_eq!(graph.get_node(inf).unwrap().event_type, EventType::Inference);
    let wet = qe
        .consolidate(
            &mut graph,
            ConsolidationParams { session_range: None, operations: ops(), dry_run: false, backup_path: None, now: 0 },
        )
        .unwrap();
    assert_eq!(wet.inferences_promoted, 1);
    assert_eq!(graph.get_node(inf).unwrap().event_type, EventType::Fact);
    assert_eq!(graph.node_count(), 6);
    assert!(graph.type_index().get(EventType::Fact).contains(&inf));
    assert!(!graph.type_index().get(EventType::Inference).contains(&inf));
}

#[test]
fn session_range_and_ordered_pair() {
    assert!(in_session_range(5, None));
    assert!(in_session_range(5, Some((5, 5))));
    assert!(!in_session_range(4, Some((5, 9))));
    assert!(!in_session_range(10, Some((5, 9))));
    assert_eq!(ordered_pair(3, 1), (1, 3));
    assert_eq!(ordered_pair(1, 3), (1, 3));
    assert_eq!(ordered_pair(2, 2), (2, 2));
}

// ==================== Drift Detection Tests ====================

#[test]
fn test_drift_tracks_supersedes_chain() {
    let mut graph = new_graph();
    let id_a = graph.add_node(timed("API returns XML response format", 1, 0.9, 1_000_000)).unwrap();
    let id_b = graph
        .add_node(timed("API returns JSON response format instead of XML", 5, 0.92, 5_000_000))
        .unwrap();
    let id_c = graph
        .add_node(timed("API returns protobuf response format replacing JSON", 10, 0.95, 10_000_000))
        .unwrap();
    graph.add_edge(edge(id_b, id_a, EdgeType::Supersedes, 1.0)).unwrap();
    graph.add_edge(edge(id_c, id_b, EdgeType::Supersedes, 1.0)).unwrap();

    let qe = QueryEngine::new();
    let report = drift_detection(&qe, &graph, "API response format", 10, 0.2);

    assert!(
        !report.timelines.is_empty(),
        "Should detect at least one timeline for the API response topic"
    );
    let chain_timeline = report.timelines.iter().find(|t| {
        let node_ids: Vec<u64> = t.snapshots.iter().map(|s| s.node_id).collect();
        node_ids.contains(&id_a) && node_ids.contains(&id_b) && node_ids.contains(&id_c)
    });
    let timeline = chain_timeline.expect("The chain should make one timeline");
    assert_eq!(timeline.snapshots.len(), 3, "Timeline should have 3 snapshots for the chain A->B->C");
    assert_eq!(timeline.snapshots[0].change_type, ChangeType::Initial, "First snapshot should be Initial");
    assert_eq!(
        timeline.snapshots[1].change_type,
        ChangeType::Corrected,
        "Second snapshot should be Corrected"
    );
    assert_eq!(
        timeline.snapshots[2].change_type,
        ChangeType::Corrected,
        "Third snapshot should be Corrected"
    );
    let ids: Vec<u64> = timeline.snapshots.iter().map(|s| s.node_id).collect();
    assert_eq!(ids, vec![id_a, id_b, id_c]);
    assert_eq!(timeline.change_count, 2);
    assert_eq!(timeline.correction_count, 2);
    assert_eq!(report.timelines.len(), 1);
}

#[test]
fn test_drift_stability_high() {
    let mut graph = new_graph();
    graph.add_node(timed("Database uses PostgreSQL version twelve", 1, 0.95, 1_000_000)).unwrap();

    let qe = QueryEngine::new();
    let report = drift_detection(&qe, &graph, "Database PostgreSQL version", 10, 0.2);

    assert!(
        report.stability >= 0.9,
        "Single stable fact should have high stability, got: {}",
        report.stability
    );
    assert!(!report.likely_to_change, "Stable topic should not be likely to change");
}

#[test]
fn test_drift_stability_low() {
    let mut graph = new_graph();
    let mut prev_id = None;
    for i in 0..5u32 {
        let id = graph
            .add_node(timed(
                &format!("Deployment target version {} for release pipeline", i),
                i + 1,
                0.7 + i as f32 * 0.05,
                (i as u64 + 1) * 1_000_000,
            ))
            .unwrap();
        if let Some(prev) = prev_id {
            graph.add_edge(edge(id, prev, EdgeType::Supersedes, 1.0)).unwrap();
        }
        prev_id = Some(id);
    }

    let qe = QueryEngine::new();
    let report = drift_detection(&qe, &graph, "Deployment target version release pipeline", 10, 0.2);
    assert!(
        report.stability < 0.8,
        "Topic with many corrections should have low stability, got: {}",
        report.stability
    );
    assert!((report.stability - 0.2).abs() < 1e-6);
}

#[test]
fn test_drift_likely_to_change() {
    let mut graph = new_graph();
    let mut prev_id = None;
    for i in 0..6u32 {
        let id = graph
            .add_node(timed(
                &format!("Configuration setting value {} for runtime environment", i),
                i + 1,
                0.7,
                (i as u64 + 1) * 1_000_000,
            ))
            .unwrap();
        if let Some(prev) = prev_id {
            graph.add_edge(edge(id, prev, EdgeType::Supersedes, 1.0)).unwrap();
        }
        prev_id = Some(id);
    }

    let qe = QueryEngine::new();
    let report = drift_detection(&qe, &graph, "Configuration setting value runtime environment", 10, 0.2);
    assert!(
        report.likely_to_change,
        "Topic with rapid corrections should be likely to change, stability: {}, timelines: {}",
        report.stability,
        report.timelines.len()
    );
}

#[test]
fn test_drift_no_relevant_nodes() {
    let mut graph = new_graph();
    graph.add_node(node(EventType::Fact, "The weather is sunny today", 1, 0.9, zero_vec())).unwrap();

    let qe = QueryEngine::new();
    let report = drift_detection(&qe, &graph, "Quantum computing superconductor qubits", 10, 0.3);

    assert!(
        report.timelines.is_empty(),
        "Should have empty timelines for unrelated topic, got {} timeline(s)",
        report.timelines.len()
    );
    assert!(
        (report.stability - 1.0).abs() < f32::EPSILON,
        "No relevant nodes means stability = 1.0, got: {}",
        report.stability
    );
    assert!(!report.likely_to_change, "No relevant nodes means not likely to change");
}

#[test]
fn drift_classifies_changes_by_edges_and_confidence() {
    let mut graph = new_graph();
    let a = graph.add_node(timed("cache policy", 1, 0.5, 10)).unwrap();
    let b = graph.add_node(timed("other thing", 1, 0.9, 20)).unwrap();
    let c = graph.add_node(timed("cache policy two", 1, 0.6, 30)).unwrap();
    graph.add_edge(edge(c, a, EdgeType::Supersedes, 1.0)).unwrap();
    graph.add_edge(edge(c, a, EdgeType::Contradicts, 1.0)).unwrap();
    let qe = QueryEngine::new();
    let report = qe.drift_detection(&graph, &vec![c, a, b], 10);
    assert_eq!(report.timelines.len(), 2);
    let first: Vec<(u64, ChangeType)> =
        report.timelines[0].snapshots.iter().map(|s| (s.node_id, s.change_type)).collect();
    assert_eq!(first, vec![(a, ChangeType::Initial), (c, ChangeType::Contradicted)]);
    assert_eq!(report.timelines[0].contradiction_count, 1);
    assert_eq!(report.timelines[1].snapshots.len(), 1);
    assert_eq!(report.timelines[1].snapshots[0].node_id, b);
    assert_eq!((report.total_snapshots, report.total_changes, report.total_upsets), (3, 1, 1));
    assert!(report.likely_to_change);
    let cut = qe.drift_detection(&graph, &vec![c, a, b], 1);
    assert_eq!(cut.timelines.len(), 1);
    assert_eq!(cut.timelines[0].snapshots.len(), 2);
}

// ==================== Whole words, groups and ties ====================

#[test]
fn analogies_within_the_only_session() {
    let mut graph = new_graph();
    graph.add_node(node(EventType::Fact, "first", 1, 0.9, basis_vec(0, 1.0))).unwrap();
    graph.add_node(node(EventType::Fact, "second", 1, 0.9, basis_vec(0, 1.0))).unwrap();
    let qe = QueryEngine::new();
    let found = analogical(&qe, &graph, AnalogicalAnchor::Node(0), 1, 10, 0.0, vec![]);
    assert_eq!(found.len(), 1);
    assert_eq!(found[0].center_id, 1);
    assert!((found[0].combined_score - 1.0).abs() < 1e-6);

    // With a node of another session, the anchor's session is left out.
    graph.add_node(node(EventType::Fact, "third", 2, 0.9, basis_vec(0, 1.0))).unwrap();
    let found = analogical(&qe, &graph, AnalogicalAnchor::Node(0), 1, 10, 0.0, vec![]);
    let centers: Vec<u64> = found.iter().map(|a| a.center_id).collect();
    assert_eq!(centers, vec![2]);
}

#[test]
fn a_word_inside_a_word_does_not_negate() {
    let mut graph = new_graph();
    graph.add_node(node(EventType::Fact, "Team knows Go", 1, 0.9, zero_vec())).unwrap();
    let qe = QueryEngine::new();
    let r = belief_revision(&qe, &graph, "Team knows Go", None, 0.3, 5);
    assert!(r.contradicted.is_empty());
    assert!(r.weakened.is_empty());
    assert!(r.invalidated_decisions.is_empty());
    assert_eq!(r.total_affected, 0);

    graph.add_node(node(EventType::Fact, "Team knows no Go", 1, 0.9, zero_vec())).unwrap();
    let r = belief_revision(&qe, &graph, "Team knows Go", None, 0.3, 5);
    let ids: Vec<u64> = r.contradicted.iter().map(|c| c.0).collect();
    assert_eq!(ids, vec![1]);
}

#[test]
fn a_stop_word_can_negate() {
    let mut graph = new_graph();
    graph
        .add_node(node(EventType::Fact, "Rust compiler guarantees memory safety", 1, 0.9, basis_vec(0, 1.0)))
        .unwrap();
    graph
        .add_node(node(
            EventType::Fact,
            "Rust compiler does not guarantee memory safety",
            1,
            0.9,
            basis_vec(0, 1.0),
        ))
        .unwrap();
    let qe = QueryEngine::new();
    let report = consolidate(&qe, &mut graph, vec![Op::LinkContradictions { threshold: 0.5 }], false, None);
    assert_eq!(report.contradictions_linked, 1);
    assert_eq!(report.actions.len(), 1);
    assert_eq!(report.actions[0].affected_nodes, vec![0, 1]);
    assert_eq!(graph.edge_count(), 1);
    let e = graph.edges()[0];
    assert_eq!(e.edge_type, EdgeType::Contradicts);
    assert!((e.source_id, e.target_id) == (0, 1) || (e.source_id, e.target_id) == (1, 0));
    assert!((num(e.weight) - 1.0).abs() < 1e-6);
}

#[test]
fn of_equally_confident_duplicates_the_lower_id_stays() {
    let mut graph = new_graph();
    graph.add_node(node(EventType::Fact, "the sky looks blue today", 1, 0.8, basis_vec(0, 1.0))).unwrap();
    graph.add_node(node(EventType::Fact, "the sky looks blue today", 1, 0.8, basis_vec(0, 1.0))).unwrap();
    let qe = QueryEngine::new();
    let pair = SimilarPair { first: 1, second: 0, similarity: bits(1.0) };
    let report = qe
        .consolidate(
            &mut graph,
            ConsolidationParams {
                session_range: None,
                operations: vec![ConsolidationOp::DeduplicateFacts { candidates: vec![pair] }],
                dry_run: false,
                backup_path: None,
                now: 7,
            },
        )
        .unwrap();
    assert_eq!(report.deduplicated, 1);
    assert_eq!(report.actions[0].affected_nodes, vec![0, 1]);
    let e = graph.edges()[0];
    assert_eq!((e.source_id, e.target_id, e.edge_type), (0, 1, EdgeType::Supersedes));
    assert!(graph.term_index().is_some());
    assert!(graph.doc_lengths().is_some());
}

#[test]
fn every_relevant_node_is_on_one_timeline() {
    // 1 and 2 both replace 0; 3 is on the topic but tied to nothing; 4 is
    // tied to 0 but not on the topic.
    let mut graph = new_graph();
    graph.add_node(timed("database scaling plan alpha", 1, 0.5, 100)).unwrap();
    graph.add_node(timed("database scaling plan beta", 2, 0.6, 300)).unwrap();
    graph.add_node(timed("database scaling plan gamma", 3, 0.7, 200)).unwrap();
    graph.add_node(timed("database scaling plan delta", 4, 0.8, 400)).unwrap();
    graph.add_node(timed("lunch menu", 5, 0.8, 50)).unwrap();
    graph.add_edge(edge(1, 0, EdgeType::Supersedes, 1.0)).unwrap();
    graph.add_edge(edge(2, 0, EdgeType::Supersedes, 1.0)).unwrap();
    graph.add_edge(edge(0, 4, EdgeType::Supersedes, 1.0)).unwrap();
    let qe = QueryEngine::new();
    let drift = drift_detection(&qe, &graph, "database scaling plan", 10, 0.5);
    assert_eq!(drift.timelines.len(), 2);
    let mut seen: Vec<u64> = Vec::new();
    for t in &drift.timelines {
        assert_eq!(t.snapshots[0].change_type, ChangeType::Initial);
        for pair in t.snapshots.windows(2) {
            assert!(pair[0].created_at <= pair[1].created_at);
        }
        assert_eq!(t.change_count, t.snapshots.len() - 1);
        seen.extend(t.snapshots.iter().map(|s| s.node_id));
    }
    let first: Vec<u64> = drift.timelines[0].snapshots.iter().map(|s| s.node_id).collect();
    assert_eq!(first, vec![0, 2, 1]);
    let second: Vec<u64> = drift.timelines[1].snapshots.iter().map(|s| s.node_id).collect();
    assert_eq!(second, vec![3]);
    seen.sort();
    assert_eq!(seen, vec![0, 1, 2, 3]);
}

#[test]
fn a_preview_shows_the_first_characters() {
    assert_eq!(content_preview("short"), "short");
    let exact: String = "é".repeat(120);
    assert_eq!(content_preview(&exact), exact);
    let long: String = "é".repeat(121);
    assert_eq!(content_preview(&long), format!("{}...", "é".repeat(120)));
    assert_eq!(content_preview(""), "");
}
