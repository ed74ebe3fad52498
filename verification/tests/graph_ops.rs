//! Graphs, their indexes, and the writing of events.

use agentic_memory::engine::query::{PatternParams, PatternSort, QueryEngine, TraversalParams};
use agentic_memory::graph::traversal::TraversalDirection;
use agentic_memory::graph::MemoryGraph;
use agentic_memory::rank::{rank_by_key, select_top};
use agentic_memory::types::{
    AmemError, CognitiveEvent, CognitiveEventBuilder, Edge, EdgeType, EventType, DEFAULT_DIMENSION,
};
use agentic_memory::unit::{
    clamp_unit, does_reach, is_below, is_within, is_zero_vec, zero_vec, ONE, ZERO,
};
use agentic_memory::write::{NewEdge, WriteEngine};

fn bits(x: f32) -> u32 {
    x.to_bits()
}

fn small_graph() -> MemoryGraph {
    MemoryGraph::new(4).unwrap()
}

fn event(event_type: EventType, content: &str, session: u32, confidence: f32, created_at: u64) -> CognitiveEvent {
    CognitiveEventBuilder::new(event_type, content)
        .session_id(session)
        .confidence(bits(confidence))
        .created_at(created_at)
        .feature_vec(vec![0; 4])
        .build()
}

fn edge(source: u64, target: u64, edge_type: EdgeType) -> Edge {
    Edge::new(source, target, edge_type, bits(0.5))
}

fn add(graph: &mut MemoryGraph, event_type: EventType, content: &str) -> u64 {
    graph.add_node(event(event_type, content, 1, 0.9, 10)).unwrap()
}

// ==================== Scores as bit patterns ====================

#[test]
fn clamping_keeps_scores_in_the_unit_interval() {
    assert_eq!(clamp_unit(bits(0.25)), bits(0.25));
    assert_eq!(clamp_unit(bits(0.0)), ZERO);
    assert_eq!(clamp_unit(bits(1.0)), ONE);
    assert_eq!(clamp_unit(bits(1.5)), ONE);
    assert_eq!(clamp_unit(bits(-0.5)), ZERO);
    assert_eq!(clamp_unit(bits(-0.0)), ZERO);
    assert_eq!(clamp_unit(bits(f32::INFINITY)), ONE);
    assert_eq!(clamp_unit(bits(f32::NEG_INFINITY)), ZERO);
    assert_eq!(ONE, bits(1.0));
}

#[test]
fn patterns_of_scores_compare_as_the_scores_do() {
    let scores = [0.0f32, 0.1, 0.3, 0.5, 0.7, 0.9, 1.0];
    let thresholds = [
        0.0f32,
        -0.0,
        0.1,
        0.5,
        1.0,
        1.5,
        -0.5,
        -1.0,
        f32::INFINITY,
        f32::NEG_INFINITY,
        f32::NAN,
        -f32::NAN,
        f32::MIN_POSITIVE,
        f32::MAX,
    ];
    for a in scores {
        for b in scores.iter().chain(thresholds.iter()) {
            assert_eq!(is_below(bits(a), bits(*b)), a < *b, "{} < {}", a, b);
            assert_eq!(does_reach(bits(a), bits(*b)), a >= *b, "{} >= {}", a, b);
            assert_eq!(is_within(bits(a), bits(*b)), a <= *b, "{} <= {}", a, b);
        }
    }
}

#[test]
fn zero_vectors_are_recognized() {
    assert_eq!(zero_vec(3), vec![0, 0, 0]);
    assert!(is_zero_vec(&zero_vec(5)));
    assert!(is_zero_vec(&vec![]));
    assert!(!is_zero_vec(&vec![0, bits(0.5), 0]));
}

// ==================== Kinds of events and edges ====================

#[test]
fn event_types_have_codes_and_names() {
    let all = [
        (EventType::Fact, 0u8, "fact"),
        (EventType::Decision, 1, "decision"),
        (EventType::Inference, 2, "inference"),
        (EventType::Correction, 3, "correction"),
        (EventType::Skill, 4, "skill"),
        (EventType::Episode, 5, "episode"),
    ];
    for (t, code, name) in all {
        assert_eq!(t.to_u8(), code);
        assert_eq!(EventType::from_u8(code), Some(t));
        assert_eq!(t.name(), name);
        assert_eq!(EventType::from_name(name), Some(t));
    }
    assert_eq!(EventType::from_u8(6), None);
    assert_eq!(EventType::from_name("Fact"), None);
    assert_eq!(EventType::from_name(""), None);
}

#[test]
fn edge_types_have_codes_and_names() {
    let all = [
        (EdgeType::CausedBy, 0u8, "caused_by"),
        (EdgeType::DerivedFrom, 1, "derived_from"),
        (EdgeType::Supports, 2, "supports"),
        (EdgeType::Contradicts, 3, "contradicts"),
        (EdgeType::Supersedes, 4, "supersedes"),
        (EdgeType::RelatedTo, 5, "related_to"),
        (EdgeType::PartOf, 6, "part_of"),
        (EdgeType::TemporalNext, 7, "temporal_next"),
    ];
    for (t, code, name) in all {
        assert_eq!(t.to_u8(), code);
        assert_eq!(EdgeType::from_u8(code), Some(t));
        assert_eq!(t.name(), name);
        assert_eq!(EdgeType::from_name(name), Some(t));
    }
    for code in 0..=255u8 {
        if let Some(t) = EdgeType::from_u8(code) {
            assert_eq!(t.to_u8(), code);
            assert_eq!(EdgeType::from_name(t.name()), Some(t));
        }
    }
    assert_eq!(EdgeType::from_u8(8), None);
    assert_eq!(EdgeType::from_name("causedby"), None);
}

// ==================== The builder ====================

#[test]
fn builder_defaults() {
    let e = CognitiveEventBuilder::new(EventType::Skill, "ride a bike").build();
    assert_eq!(e.event_type, EventType::Skill);
    assert_eq!(e.content, "ride a bike");
    assert_eq!(e.confidence, ONE);
    assert_eq!(e.decay_score, ONE);
    assert_eq!(e.access_count, 0);
    assert_eq!(e.session_id, 0);
    assert_eq!(e.feature_vec, vec![0u32; DEFAULT_DIMENSION]);
    assert_eq!(DEFAULT_DIMENSION, 128);
}

#[test]
fn builder_clamps_confidence() {
    let high = CognitiveEventBuilder::new(EventType::Fact, "a").confidence(bits(3.0)).build();
    assert_eq!(high.confidence, ONE);
    let low = CognitiveEventBuilder::new(EventType::Fact, "a").confidence(bits(-3.0)).build();
    assert_eq!(low.confidence, ZERO);
    let mid = CognitiveEventBuilder::new(EventType::Fact, "a").confidence(bits(0.4)).build();
    assert_eq!(mid.confidence, bits(0.4));
}

// ==================== The graph ====================

#[test]
fn a_graph_needs_a_dimension() {
    assert_eq!(MemoryGraph::new(0).err(), Some(AmemError::InvalidDimension));
    let g = MemoryGraph::new(3).unwrap();
    assert_eq!(g.dimension(), 3);
    assert_eq!(g.node_count(), 0);
    assert_eq!(g.edge_count(), 0);
    assert_eq!(g.next_id(), 0);
}

#[test]
fn nodes_get_ids_in_order() {
    let mut g = small_graph();
    for i in 0..5u64 {
        assert_eq!(add(&mut g, EventType::Fact, "x"), i);
    }
    assert_eq!(g.next_id(), 5);
    let ids: Vec<u64> = g.nodes().iter().map(|n| n.id).collect();
    assert_eq!(ids, vec![0, 1, 2, 3, 4]);
    g.remove_node(4).unwrap();
    assert_eq!(add(&mut g, EventType::Fact, "y"), 5);
    assert!(g.get_node(4).is_none());
    assert_eq!(g.get_node(5).unwrap().content, "y");
}

#[test]
fn a_vector_of_another_length_is_refused() {
    let mut g = small_graph();
    let e = CognitiveEventBuilder::new(EventType::Fact, "x").feature_vec(vec![0; 3]).build();
    assert_eq!(g.add_node(e).err(), Some(AmemError::DimensionMismatch { expected: 4, got: 3 }));
    assert_eq!(g.node_count(), 0);
    assert_eq!(g.next_id(), 0);
    for n in g.nodes() {
        assert_eq!(n.feature_vec.len(), g.dimension());
    }
}

#[test]
fn edges_need_both_ends_and_come_once() {
    let mut g = small_graph();
    let a = add(&mut g, EventType::Fact, "a");
    let b = add(&mut g, EventType::Fact, "b");
    assert_eq!(g.add_edge(edge(a, 9, EdgeType::Supports)), Err(AmemError::NodeNotFound(9)));
    assert_eq!(g.add_edge(edge(8, b, EdgeType::Supports)), Err(AmemError::NodeNotFound(8)));
    assert_eq!(g.add_edge(edge(a, b, EdgeType::Supports)), Ok(()));
    assert_eq!(g.add_edge(edge(a, b, EdgeType::Supports)), Err(AmemError::DuplicateEdge(a, b)));
    assert_eq!(g.add_edge(edge(a, b, EdgeType::CausedBy)), Ok(()));
    assert_eq!(g.add_edge(edge(b, a, EdgeType::Supports)), Ok(()));
    assert_eq!(g.edge_count(), 3);
    assert!(g.has_edge(a, b, EdgeType::Supports));
    assert!(!g.has_edge(b, a, EdgeType::CausedBy));
    for e in g.edges() {
        assert!(g.contains_node(e.source_id) && g.contains_node(e.target_id));
    }
}

#[test]
fn edges_from_and_edges_to_list_the_same_edges() {
    let mut g = small_graph();
    for _ in 0..4 {
        add(&mut g, EventType::Fact, "n");
    }
    g.add_edge(edge(0, 1, EdgeType::Supports)).unwrap();
    g.add_edge(edge(0, 2, EdgeType::CausedBy)).unwrap();
    g.add_edge(edge(3, 1, EdgeType::RelatedTo)).unwrap();
    g.add_edge(edge(1, 0, EdgeType::Supports)).unwrap();
    assert_eq!(g.edges_from(0), vec![edge(0, 1, EdgeType::Supports), edge(0, 2, EdgeType::CausedBy)]);
    assert_eq!(g.edges_to(1), vec![edge(0, 1, EdgeType::Supports), edge(3, 1, EdgeType::RelatedTo)]);
    for u in 0..4u64 {
        for e in g.edges_from(u) {
            assert!(g.edges_to(e.target_id).contains(&e));
        }
        for e in g.edges_to(u) {
            assert!(g.edges_from(e.source_id).contains(&e));
        }
    }
    assert_eq!(g.edges_from(7), vec![]);
    assert_eq!(g.first_target(0, EdgeType::CausedBy), Some(2));
    assert_eq!(g.first_target(0, EdgeType::PartOf), None);
    assert_eq!(g.first_source(1, EdgeType::RelatedTo), Some(3));
}

#[test]
fn removing_a_node_removes_its_edges_and_its_index_entries() {
    let mut g = small_graph();
    g.add_node(event(EventType::Fact, "apples are red", 1, 0.9, 10)).unwrap();
    g.add_node(event(EventType::Decision, "buy red apples", 1, 0.8, 20)).unwrap();
    g.add_node(event(EventType::Fact, "pears are green", 2, 0.7, 30)).unwrap();
    g.add_edge(edge(1, 0, EdgeType::CausedBy)).unwrap();
    g.add_edge(edge(0, 2, EdgeType::RelatedTo)).unwrap();
    g.add_edge(edge(2, 1, EdgeType::RelatedTo)).unwrap();

    let removed = g.remove_node(0).unwrap();
    assert_eq!(removed.content, "apples are red");
    assert_eq!(g.node_count(), 2);
    assert_eq!(g.edges(), &vec![edge(2, 1, EdgeType::RelatedTo)]);
    for e in g.edges() {
        assert!(e.source_id != 0 && e.target_id != 0);
    }
    assert_eq!(g.type_index().get(EventType::Fact), &vec![2]);
    assert_eq!(g.type_index().get(EventType::Decision), &vec![1]);
    assert_eq!(g.session_index().get(1), vec![1]);
    assert_eq!(g.session_index().get(2), vec![2]);
    assert_eq!(g.temporal_index().range(0, 100), vec![1, 2]);
    let terms = g.term_index().unwrap();
    assert!(terms.get("apples").iter().all(|p| p.node_id != 0));
    assert_eq!(terms.get("apples").len(), 1);
    assert_eq!(terms.get("red").len(), 1);
    assert_eq!(terms.doc_count(), 2);
    assert_eq!(g.doc_lengths().unwrap().get(0), 0);
    assert_eq!(g.doc_lengths().unwrap().get(1), 3);

    assert_eq!(g.remove_node(0).err(), Some(AmemError::NodeNotFound(0)));
    assert_eq!(g.node_count(), 2);
}

#[test]
fn every_index_holds_a_node_that_was_added() {
    let mut g = small_graph();
    g.add_node(event(EventType::Inference, "the cat sleeps all day", 7, 0.6, 500)).unwrap();
    g.add_node(event(EventType::Fact, "cats purr", 7, 0.6, 400)).unwrap();
    g.add_node(event(EventType::Fact, "dogs bark", 8, 0.6, 600)).unwrap();

    assert_eq!(g.type_index().get(EventType::Inference), &vec![0]);
    assert_eq!(g.type_index().get(EventType::Fact), &vec![1, 2]);
    assert_eq!(g.type_index().get(EventType::Skill), &Vec::<u64>::new());
    assert_eq!(g.session_index().get(7), vec![0, 1]);
    assert_eq!(g.session_index().get(8), vec![2]);
    assert_eq!(g.session_index().get(9), Vec::<u64>::new());
    assert_eq!(g.session_index().session_ids(), vec![7, 8]);
    assert_eq!(g.temporal_index().len(), 3);
    assert_eq!(g.temporal_index().range(400, 500), vec![1, 0]);
    assert_eq!(g.temporal_index().range(501, 599), Vec::<u64>::new());
    assert_eq!(g.temporal_index().most_recent(2), vec![2, 0]);

    let terms = g.term_index().unwrap();
    let cat = terms.get("cat");
    assert_eq!(cat.len(), 1);
    assert_eq!((cat[0].node_id, cat[0].term_freq), (0, 1));
    assert_eq!(terms.doc_frequency("cats"), 1);
    assert_eq!(terms.doc_frequency("the"), 0);
    assert_eq!(terms.doc_count(), 3);
    let lengths = g.doc_lengths().unwrap();
    assert_eq!(lengths.get(0), 3);
    assert_eq!(lengths.get(1), 2);
    assert_eq!(lengths.get(2), 2);
    assert_eq!(lengths.total(), 7);
}

#[test]
fn nodes_can_be_changed_in_place() {
    let mut g = small_graph();
    add(&mut g, EventType::Inference, "maybe");
    assert!(g.set_event_type(0, EventType::Fact));
    assert_eq!(g.get_node(0).unwrap().event_type, EventType::Fact);
    assert_eq!(g.type_index().get(EventType::Fact), &vec![0]);
    assert_eq!(g.type_index().get(EventType::Inference), &Vec::<u64>::new());
    assert!(g.record_access(0));
    assert!(g.record_access(0));
    assert_eq!(g.get_node(0).unwrap().access_count, 2);
    assert!(g.set_decay_score(0, bits(0.25)));
    assert_eq!(g.get_node(0).unwrap().decay_score, bits(0.25));
    assert!(g.term_index().is_some());
    assert!(g.doc_lengths().is_some());
    assert_eq!(g.term_index().unwrap().doc_count(), 1);
    assert!(!g.set_event_type(3, EventType::Fact));
    assert!(!g.record_access(3));
    assert!(!g.set_decay_score(3, bits(0.25)));
}

#[test]
fn text_indexes_can_be_dropped() {
    let mut g = small_graph();
    add(&mut g, EventType::Fact, "something");
    assert!(g.term_index().is_some());
    assert!(g.doc_lengths().is_some());
    g.set_avg_doc_length(bits(1.0));
    assert_eq!(g.term_index().unwrap().avg_doc_length(), bits(1.0));
    g.drop_text_indexes();
    assert!(g.term_index().is_none());
    assert!(g.doc_lengths().is_none());
    g.set_avg_doc_length(bits(2.0));
    assert!(g.term_index().is_none());
    add(&mut g, EventType::Fact, "more");
    assert_eq!(g.node_count(), 2);
}

// ==================== Writing events ====================

#[test]
fn events_of_a_session_are_chained() {
    let mut g = MemoryGraph::new(DEFAULT_DIMENSION).unwrap();
    let w = WriteEngine::new(DEFAULT_DIMENSION);
    let mut ids = Vec::new();
    let mut created = 0;
    for i in 0..5u64 {
        let (id, edges) = w
            .add_event(&mut g, EventType::Fact, &format!("fact {}", i), bits(0.9), 1, 100 + i, None, &vec![], true)
            .unwrap();
        ids.push(id);
        created += edges;
    }
    assert_eq!(ids, vec![0, 1, 2, 3, 4]);
    assert_eq!(created, 4);
    assert_eq!(g.edge_count(), 4);
    for (i, e) in g.edges().iter().enumerate() {
        assert_eq!(e.edge_type, EdgeType::TemporalNext);
        assert_eq!((e.source_id, e.target_id), (i as u64, i as u64 + 1));
        assert_eq!(e.weight, ONE);
    }
}

#[test]
fn chaining_stays_within_a_session() {
    let mut g = small_graph();
    let w = WriteEngine::new(4);
    let first = w.add_event(&mut g, EventType::Fact, "a", bits(0.9), 1, 1, None, &vec![], true).unwrap();
    let other = w.add_event(&mut g, EventType::Fact, "b", bits(0.9), 2, 2, None, &vec![], true).unwrap();
    let again = w.add_event(&mut g, EventType::Fact, "c", bits(0.9), 1, 3, None, &vec![], true).unwrap();
    let plain = w.add_event(&mut g, EventType::Fact, "d", bits(0.9), 1, 4, None, &vec![], false).unwrap();
    assert_eq!(first, (0, 0));
    assert_eq!(other, (1, 0));
    assert_eq!(again, (2, 1));
    assert_eq!(plain, (3, 0));
    assert_eq!(g.edges().len(), 1);
    assert_eq!((g.edges()[0].source_id, g.edges()[0].target_id), (0, 2));
}

#[test]
fn a_new_event_starts_fresh() {
    let mut g = small_graph();
    let w = WriteEngine::new(4);
    let (id, _) = w.add_event(&mut g, EventType::Decision, "go left", bits(1.7), 3, 777, None, &vec![], false).unwrap();
    let n = g.get_node(id).unwrap();
    assert_eq!(n.event_type, EventType::Decision);
    assert_eq!(n.content, "go left");
    assert_eq!(n.confidence, ONE);
    assert_eq!(n.decay_score, ONE);
    assert_eq!(n.access_count, 0);
    assert_eq!(n.session_id, 3);
    assert_eq!(n.created_at, 777);
    assert_eq!(n.feature_vec, vec![0u32; 4]);
    let v = vec![bits(0.5), 0, 0, bits(-0.5)];
    let (id, _) = w.add_event(&mut g, EventType::Fact, "x", bits(-0.2), 3, 778, Some(v.clone()), &vec![], false).unwrap();
    assert_eq!(g.get_node(id).unwrap().feature_vec, v);
    assert_eq!(g.get_node(id).unwrap().confidence, ZERO);
}

#[test]
fn explicit_edges_come_before_the_chain_edge() {
    let mut g = small_graph();
    let w = WriteEngine::new(4);
    w.add_event(&mut g, EventType::Fact, "a", bits(0.9), 1, 1, None, &vec![], true).unwrap();
    w.add_event(&mut g, EventType::Fact, "b", bits(0.9), 2, 2, None, &vec![], true).unwrap();
    let links = vec![
        NewEdge { target_id: 1, edge_type: EdgeType::Supports, weight: bits(0.4) },
        NewEdge { target_id: 0, edge_type: EdgeType::CausedBy, weight: bits(0.6) },
    ];
    let (id, created) = w.add_event(&mut g, EventType::Decision, "c", bits(0.9), 1, 3, None, &links, true).unwrap();
    assert_eq!((id, created), (2, 3));
    let e = g.edges();
    assert_eq!((e[0].source_id, e[0].target_id, e[0].edge_type, e[0].weight), (2, 1, EdgeType::Supports, bits(0.4)));
    assert_eq!((e[1].source_id, e[1].target_id, e[1].edge_type, e[1].weight), (2, 0, EdgeType::CausedBy, bits(0.6)));
    assert_eq!((e[2].source_id, e[2].target_id, e[2].edge_type, e[2].weight), (0, 2, EdgeType::TemporalNext, ONE));
}

#[test]
fn an_event_that_cannot_be_added_leaves_the_graph_alone() {
    let mut g = small_graph();
    let w = WriteEngine::new(4);
    w.add_event(&mut g, EventType::Fact, "a", bits(0.9), 1, 1, None, &vec![], true).unwrap();

    let missing = vec![NewEdge { target_id: 5, edge_type: EdgeType::Supports, weight: ONE }];
    let r = w.add_event(&mut g, EventType::Fact, "b", bits(0.9), 1, 2, None, &missing, true);
    assert_eq!(r, Err(AmemError::NodeNotFound(5)));

    let twice = vec![
        NewEdge { target_id: 0, edge_type: EdgeType::Supports, weight: ONE },
        NewEdge { target_id: 0, edge_type: EdgeType::Supports, weight: ZERO },
    ];
    let r = w.add_event(&mut g, EventType::Fact, "b", bits(0.9), 1, 2, None, &twice, true);
    assert_eq!(r, Err(AmemError::DuplicateEdge(1, 0)));

    let r = w.add_event(&mut g, EventType::Fact, "b", bits(0.9), 1, 2, Some(vec![0; 5]), &vec![], true);
    assert_eq!(r, Err(AmemError::DimensionMismatch { expected: 4, got: 5 }));

    let wide = WriteEngine::new(9);
    let r = wide.add_event(&mut g, EventType::Fact, "b", bits(0.9), 1, 2, None, &vec![], true);
    assert_eq!(r, Err(AmemError::DimensionMismatch { expected: 4, got: 9 }));

    assert_eq!(g.node_count(), 1);
    assert_eq!(g.edge_count(), 0);
    assert_eq!(g.next_id(), 1);
    assert_eq!(g.term_index().unwrap().doc_count(), 1);
}

#[test]
fn a_correction_supersedes_and_leaves_the_old_node() {
    let mut g = small_graph();
    let w = WriteEngine::new(4);
    let (old, _) = w.add_event(&mut g, EventType::Fact, "earth is flat", bits(0.8), 1, 1, None, &vec![], false).unwrap();
    let new = w.correct(&mut g, old, "earth is round", 2, 50).unwrap();
    assert_eq!(new, 1);
    let n = g.get_node(new).unwrap();
    assert_eq!(n.event_type, EventType::Correction);
    assert_eq!(n.content, "earth is round");
    assert_eq!(n.session_id, 2);
    assert_eq!(n.created_at, 50);
    let o = g.get_node(old).unwrap();
    assert_eq!(o.confidence, bits(0.8));
    assert_eq!(o.content, "earth is flat");
    assert_eq!(o.event_type, EventType::Fact);
    assert_eq!(g.edges().len(), 1);
    let e = g.edges()[0];
    assert_eq!((e.source_id, e.target_id, e.edge_type, e.weight), (new, old, EdgeType::Supersedes, ONE));
    assert_eq!(w.correct(&mut g, 9, "nothing", 2, 60), Err(AmemError::NodeNotFound(9)));
    assert_eq!(g.node_count(), 2);
}

// ==================== Ranking ====================

#[test]
fn ranking_keeps_equal_keys_in_their_order() {
    assert_eq!(rank_by_key(&vec![5, 9, 5, 1, 9], true), vec![1, 4, 0, 2, 3]);
    assert_eq!(rank_by_key(&vec![5, 9, 5, 1, 9], false), vec![3, 0, 2, 1, 4]);
    assert_eq!(rank_by_key(&vec![7, 7, 7], true), vec![0, 1, 2]);
    assert_eq!(rank_by_key(&vec![], true), Vec::<usize>::new());
    let items = vec!['a', 'b', 'c', 'd'];
    assert_eq!(select_top(&items, &vec![2, 3, 2, 3], true, 3), vec!['b', 'd', 'a']);
    assert_eq!(select_top(&items, &vec![2, 3, 2, 3], true, 0), Vec::<char>::new());
    assert_eq!(select_top(&items, &vec![2, 3, 2, 3], false, 9), vec!['a', 'c', 'b', 'd']);
}

// ==================== Retrieval ====================

fn pattern_params() -> PatternParams {
    PatternParams {
        event_types: vec![],
        min_confidence: None,
        max_confidence: None,
        session_ids: vec![],
        created_after: None,
        created_before: None,
        min_decay_score: None,
        max_results: 100,
        sort_by: PatternSort::MostRecent,
    }
}

fn pattern_graph() -> MemoryGraph {
    let mut g = small_graph();
    g.add_node(event(EventType::Fact, "a", 1, 0.9, 100)).unwrap();
    g.add_node(event(EventType::Decision, "b", 1, 0.5, 300)).unwrap();
    g.add_node(event(EventType::Fact, "c", 2, 0.5, 200)).unwrap();
    g.add_node(event(EventType::Inference, "d", 3, 0.2, 400)).unwrap();
    g.set_decay_score(0, bits(0.1));
    g.set_decay_score(2, bits(0.6));
    g
}

#[test]
fn pattern_matches_every_condition() {
    let g = pattern_graph();
    let qe = QueryEngine::new();
    assert_eq!(qe.pattern(&g, &pattern_params()), vec![3, 1, 2, 0]);
    let by_type = PatternParams { event_types: vec![EventType::Fact, EventType::Inference], ..pattern_params() };
    assert_eq!(qe.pattern(&g, &by_type), vec![3, 2, 0]);
    let by_confidence = PatternParams {
        min_confidence: Some(bits(0.5)),
        max_confidence: Some(bits(0.5)),
        ..pattern_params()
    };
    assert_eq!(qe.pattern(&g, &by_confidence), vec![1, 2]);
    let by_session = PatternParams { session_ids: vec![2, 3], ..pattern_params() };
    assert_eq!(qe.pattern(&g, &by_session), vec![3, 2]);
    let by_time = PatternParams { created_after: Some(200), created_before: Some(300), ..pattern_params() };
    assert_eq!(qe.pattern(&g, &by_time), vec![1, 2]);
    let by_decay = PatternParams { min_decay_score: Some(bits(0.6)), ..pattern_params() };
    assert_eq!(qe.pattern(&g, &by_decay), vec![3, 1, 2]);
    let all = PatternParams {
        event_types: vec![EventType::Fact],
        min_confidence: Some(bits(0.4)),
        session_ids: vec![2],
        created_after: Some(150),
        min_decay_score: Some(bits(0.5)),
        ..pattern_params()
    };
    assert_eq!(qe.pattern(&g, &all), vec![2]);
}

#[test]
fn pattern_bounds_are_compared_as_numbers() {
    let g = pattern_graph();
    let qe = QueryEngine::new();
    let low = PatternParams { min_confidence: Some(bits(-1.0)), ..pattern_params() };
    assert_eq!(qe.pattern(&g, &low).len(), 4);
    let none = PatternParams { max_confidence: Some(bits(-1.0)), ..pattern_params() };
    assert_eq!(qe.pattern(&g, &none).len(), 0);
    let high = PatternParams { max_confidence: Some(bits(7.0)), ..pattern_params() };
    assert_eq!(qe.pattern(&g, &high).len(), 4);
    let not_a_number = PatternParams { min_decay_score: Some(bits(f32::NAN)), ..pattern_params() };
    assert_eq!(qe.pattern(&g, &not_a_number).len(), 0);
    assert_eq!(
        visits(&g, traversal(0, vec![], TraversalDirection::Both, 3, 10, -1.0)),
        vec![(0, 0)]
    );
    let t = traversal_graph();
    assert_eq!(visits(&t, traversal(0, vec![], TraversalDirection::Forward, 3, 10, -1.0)).len(), 5);
    assert_eq!(visits(&t, traversal(0, vec![], TraversalDirection::Forward, 3, 10, f32::NAN)).len(), 1);
}

#[test]
fn pattern_sorts_and_truncates() {
    let g = pattern_graph();
    let qe = QueryEngine::new();
    let by_confidence = PatternParams { sort_by: PatternSort::HighestConfidence, ..pattern_params() };
    assert_eq!(qe.pattern(&g, &by_confidence), vec![0, 1, 2, 3]);
    let by_decay = PatternParams { sort_by: PatternSort::HighestDecay, ..pattern_params() };
    assert_eq!(qe.pattern(&g, &by_decay), vec![1, 3, 2, 0]);
    let two = PatternParams { max_results: 2, ..pattern_params() };
    assert_eq!(qe.pattern(&g, &two), vec![3, 1]);
    let none = PatternParams { max_results: 0, ..pattern_params() };
    assert_eq!(qe.pattern(&g, &none), Vec::<u64>::new());
}

fn traversal_graph() -> MemoryGraph {
    // 0 -> 1 -> 3, 0 -> 2 -> 3, 3 -> 4, 5 -> 0
    let mut g = small_graph();
    for (i, c) in [0.9f32, 0.9, 0.2, 0.9, 0.9, 0.9].iter().enumerate() {
        g.add_node(event(EventType::Fact, "n", 1, *c, i as u64)).unwrap();
    }
    g.add_edge(edge(0, 1, EdgeType::Supports)).unwrap();
    g.add_edge(edge(0, 2, EdgeType::CausedBy)).unwrap();
    g.add_edge(edge(1, 3, EdgeType::Supports)).unwrap();
    g.add_edge(edge(2, 3, EdgeType::CausedBy)).unwrap();
    g.add_edge(edge(3, 4, EdgeType::RelatedTo)).unwrap();
    g.add_edge(edge(5, 0, EdgeType::Supports)).unwrap();
    g
}

fn traversal(start_id: u64, edge_types: Vec<EdgeType>, direction: TraversalDirection, max_depth: u32, max_results: usize, min_confidence: f32) -> TraversalParams {
    TraversalParams { start_id, edge_types, direction, max_depth, max_results, min_confidence: bits(min_confidence) }
}

fn visits(g: &MemoryGraph, p: TraversalParams) -> Vec<(u64, u32)> {
    QueryEngine::new().traverse(g, &p).unwrap().visited.iter().map(|v| (v.node_id, v.depth)).collect()
}

#[test]
fn traverse_goes_level_by_level() {
    let g = traversal_graph();
    assert_eq!(
        visits(&g, traversal(0, vec![], TraversalDirection::Forward, 10, 100, 0.0)),
        vec![(0, 0), (1, 1), (2, 1), (3, 2), (4, 3)]
    );
    assert_eq!(
        visits(&g, traversal(3, vec![], TraversalDirection::Backward, 10, 100, 0.0)),
        vec![(3, 0), (1, 1), (2, 1), (0, 2), (5, 3)]
    );
    assert_eq!(
        visits(&g, traversal(0, vec![], TraversalDirection::Both, 1, 100, 0.0)),
        vec![(0, 0), (1, 1), (2, 1), (5, 1)]
    );
}

#[test]
fn traverse_honours_its_bounds() {
    let g = traversal_graph();
    assert_eq!(
        visits(&g, traversal(0, vec![], TraversalDirection::Forward, 1, 100, 0.0)),
        vec![(0, 0), (1, 1), (2, 1)]
    );
    assert_eq!(visits(&g, traversal(0, vec![], TraversalDirection::Forward, 0, 100, 0.0)), vec![(0, 0)]);
    assert_eq!(
        visits(&g, traversal(0, vec![], TraversalDirection::Forward, 10, 2, 0.0)),
        vec![(0, 0), (1, 1)]
    );
    assert_eq!(
        visits(&g, traversal(0, vec![EdgeType::CausedBy], TraversalDirection::Forward, 10, 100, 0.0)),
        vec![(0, 0), (2, 1), (3, 2)]
    );
    assert_eq!(
        visits(&g, traversal(0, vec![], TraversalDirection::Forward, 10, 100, 0.5)),
        vec![(0, 0), (1, 1), (3, 2), (4, 3)]
    );
}

#[test]
fn traverse_reports_the_edges_taken() {
    let g = traversal_graph();
    let r = QueryEngine::new()
        .traverse(&g, &traversal(0, vec![], TraversalDirection::Forward, 10, 100, 0.0))
        .unwrap();
    let taken: Vec<(u64, u64)> = r.edges.iter().map(|e| (e.source_id, e.target_id)).collect();
    assert_eq!(taken, vec![(0, 1), (0, 2), (1, 3), (3, 4)]);
    let r = QueryEngine::new().traverse(&g, &traversal(9, vec![], TraversalDirection::Forward, 10, 100, 0.0));
    assert_eq!(r.err(), Some(AmemError::NodeNotFound(9)));
}

#[test]
fn resolve_follows_supersedes_edges_to_their_end() {
    let mut g = small_graph();
    for _ in 0..5 {
        add(&mut g, EventType::Fact, "v");
    }
    g.add_edge(edge(0, 1, EdgeType::Supersedes)).unwrap();
    g.add_edge(edge(1, 2, EdgeType::Supersedes)).unwrap();
    g.add_edge(edge(2, 3, EdgeType::RelatedTo)).unwrap();
    let qe = QueryEngine::new();
    assert_eq!(qe.resolve(&g, 0), Ok(2));
    assert_eq!(qe.resolve(&g, 1), Ok(2));
    assert_eq!(qe.resolve(&g, 2), Ok(2));
    assert_eq!(qe.resolve(&g, 4), Ok(4));
    assert_eq!(qe.resolve(&g, 8), Err(AmemError::NodeNotFound(8)));
    let end = qe.resolve(&g, 0).unwrap();
    assert!(g.edges_from(end).iter().all(|e| e.edge_type != EdgeType::Supersedes));
}

#[test]
fn resolve_ends_on_a_cycle() {
    let mut g = small_graph();
    for _ in 0..3 {
        add(&mut g, EventType::Fact, "v");
    }
    g.add_edge(edge(0, 1, EdgeType::Supersedes)).unwrap();
    g.add_edge(edge(1, 2, EdgeType::Supersedes)).unwrap();
    g.add_edge(edge(2, 0, EdgeType::Supersedes)).unwrap();
    let qe = QueryEngine::new();
    assert_eq!(qe.resolve(&g, 0), Ok(2));
    assert_eq!(qe.resolve(&g, 1), Ok(0));
}

#[test]
fn context_is_the_neighbourhood_of_a_node() {
    let g = traversal_graph();
    let qe = QueryEngine::new();
    let c = qe.context(&g, 0, 1).unwrap();
    assert_eq!(c.center_id, 0);
    assert_eq!(c.nodes[0], 0);
    let mut nodes = c.nodes.clone();
    nodes.sort();
    assert_eq!(nodes, vec![0, 1, 2, 5]);
    let joined: Vec<(u64, u64)> = c.edges.iter().map(|e| (e.source_id, e.target_id)).collect();
    assert_eq!(joined, vec![(0, 1), (0, 2), (5, 0)]);
    let alone = qe.context(&g, 4, 0).unwrap();
    assert_eq!(alone.nodes, vec![4]);
    assert!(alone.edges.is_empty());
    let all = qe.context(&g, 0, 3).unwrap();
    assert_eq!(all.nodes.len(), 6);
    assert_eq!(all.edges.len(), 6);
    assert_eq!(qe.context(&g, 9, 2).err(), Some(AmemError::NodeNotFound(9)));
}
