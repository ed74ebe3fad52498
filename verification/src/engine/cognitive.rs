//! The discrete part of the cognitive analyses: what depends on what, how
//! often a belief was replaced, which nodes show a gap, how a contradiction
//! spreads, and how beliefs line up over time. All of them only read the
//! graph.

use vstd::prelude::*;
use std::collections::{HashMap, HashSet};
use crate::engine::graph_algo::{closed_below, expand, find_joining_edge, first_joining, frontier_ok,
    is_chain, lemma_exhausted, lemma_reached, lemma_tree_walk, reach_all, reachable, tree_ok};
use crate::engine::maintenance::{in_session_range, session_in_range};
use crate::engine::query::QueryEngine;
use crate::engine::relevance::{belief_negations, count_shared, has_word_of, negates, shared};
use crate::graph::event_views;
use crate::graph::traversal::{arc, follow_trail, hop, is_trail, is_walk, next_unseen, walk_between,
    TraversalDirection};
use crate::graph::{lemma_node_ids_finite, GraphView, MemoryGraph};
use crate::rank::{select_top, top_ranked};
use crate::tokenizer::{capped, distinct, tokens, Tokenizer};
use crate::types::{CognitiveEvent, Edge, EdgeType, EventType, EventView};
use crate::unit::{below, is_below};

verus! {

/// The edge types through which one node rests on another.
pub open spec fn dependency_types() -> Seq<EdgeType> {
    seq![EdgeType::CausedBy, EdgeType::Supports]
}

/// The nodes that rest on `id`, directly or through others: those from
/// which a chain of CausedBy and Supports edges leads to `id`.
pub open spec fn dependents(g: GraphView, id: u64) -> Set<u64> {
    Set::new(
        |v: u64|
            v != id && reachable(g, dependency_types(), TraversalDirection::Backward, id, v),
    )
}

/// The trail of the nodes that replaced `id`, one after the other.
pub open spec fn newer_trail(g: GraphView, id: u64) -> Seq<u64> {
    choose|up: Seq<u64>|
        is_trail(g, EdgeType::Supersedes, true, up, set![id]) && #[trigger] up[0] == id
}

/// The trail of the nodes that `id` replaced, one after the other, leaving
/// out what is on the trail of the nodes that replaced it.
pub open spec fn older_trail(g: GraphView, id: u64) -> Seq<u64> {
    choose|down: Seq<u64>|
        is_trail(g, EdgeType::Supersedes, false, down, set![id].union(newer_trail(g, id).to_set()))
            && #[trigger] down[0] == id
}

/// The number of replacements on the Supersedes chain through `id`, counted
/// in both directions.
pub open spec fn chain_length(g: GraphView, id: u64) -> int {
    newer_trail(g, id).len() - 1 + older_trail(g, id).len() - 1
}

/// There is one trail only from a node.
pub proof fn lemma_trail_unique(
    g: GraphView,
    t: EdgeType,
    incoming: bool,
    a: Seq<u64>,
    b: Seq<u64>,
    seen: Set<u64>,
)
    requires
        is_trail(g, t, incoming, a, seen),
        is_trail(g, t, incoming, b, seen),
        a[0] == b[0],
    ensures
        a == b,
{
    let n = if a.len() <= b.len() { a.len() } else { b.len() };
    lemma_trails_agree(g, t, incoming, a, b, seen, n as int);
    assert(a.take(n as int) =~= b.take(n as int));
    if a.len() < b.len() {
        assert(a.take(n as int) =~= a);
        assert(next_unseen(g.edges, b[n - 1], t, incoming, seen.union(b.take(n as int).to_set()))
            == Some(b[n as int]));
    } else if b.len() < a.len() {
        assert(b.take(n as int) =~= b);
        assert(next_unseen(g.edges, a[n - 1], t, incoming, seen.union(a.take(n as int).to_set()))
            == Some(a[n as int]));
    } else {
        assert(a.take(n as int) =~= a);
        assert(b.take(n as int) =~= b);
    }
}

/// Two trails from one node agree on their first `n` nodes.
proof fn lemma_trails_agree(
    g: GraphView,
    t: EdgeType,
    incoming: bool,
    a: Seq<u64>,
    b: Seq<u64>,
    seen: Set<u64>,
    n: int,
)
    requires
        is_trail(g, t, incoming, a, seen),
        is_trail(g, t, incoming, b, seen),
        a[0] == b[0],
        1 <= n <= a.len(),
        n <= b.len(),
    ensures
        forall|i: int| 0 <= i < n ==> a[i] == b[i],
    decreases n,
{
    if n > 1 {
        lemma_trails_agree(g, t, incoming, a, b, seen, n - 1);
        assert(a.take(n - 1) =~= b.take(n - 1));
        assert(next_unseen(g.edges, a[n - 2], t, incoming, seen.union(a.take(n - 2 + 1).to_set()))
            == Some(a[n - 2 + 1]));
        assert(next_unseen(g.edges, b[n - 2], t, incoming, seen.union(b.take(n - 2 + 1).to_set()))
            == Some(b[n - 2 + 1]));
    }
}

/// A list of live nodes without repetition is no longer than the list of
/// all nodes.
pub proof fn lemma_distinct_nodes_bound(g: GraphView, s: Seq<u64>)
    requires
        s.no_duplicates(),
        forall|i: int| 0 <= i < s.len() ==> g.has_node(#[trigger] s[i]),
    ensures
        s.len() <= g.nodes.len(),
{
    broadcast use vstd::seq_lib::seq_to_set_is_finite;

    lemma_node_ids_finite(g);
    s.unique_seq_to_set();
    assert(s.to_set().subset_of(g.node_ids())) by {
        assert forall|x: u64| s.to_set().contains(x) implies g.node_ids().contains(x) by {
            let i = choose|i: int| 0 <= i < s.len() && s[i] == x;
            assert(g.has_node(s[i]));
        }
    }
    vstd::set_lib::lemma_len_subset(s.to_set(), g.node_ids());
}

/// How the gaps of a report are ordered.
#[derive(Clone, Copy, Debug, PartialEq, Eq, Structural)]
pub enum GapSeverity {
    /// Most dependents first.
    HighestImpact,
    /// Highest severity first.
    LowestConfidence,
    /// Latest node first.
    MostRecent,
}

/// The kind of a gap.
#[derive(Clone, Copy, Debug, PartialEq, Eq, Structural)]
pub enum GapType {
    /// A Decision that no CausedBy or Supports edge enters.
    UnjustifiedDecision,
    /// An Inference that too few Supports edges enter.
    SingleSourceInference,
    /// A Fact or Inference of low confidence that others rest on.
    LowConfidenceFoundation,
    /// A node on a Supersedes chain with three or more replacements.
    UnstableKnowledge,
    /// A Fact of low decay score that others rest on.
    StaleEvidence,
}

/// Parameters of gap detection.
pub struct GapDetectionParams {
    /// Score below which a Fact or Inference counts as of low confidence.
    pub confidence_threshold: u32,
    /// The number of Supports edges that an Inference should have.
    pub min_support_count: u32,
    /// The largest number of gaps to report.
    pub max_results: usize,
    /// If set, only nodes of these sessions are examined, both ends included.
    pub session_range: Option<(u32, u32)>,
    pub sort_by: GapSeverity,
}

/// One gap.
#[derive(Clone, Copy, Debug, PartialEq, Eq, Structural)]
pub struct Gap {
    pub node_id: u64,
    pub gap_type: GapType,
    /// The severity as a score. For a LowConfidenceFoundation and for
    /// StaleEvidence it is the complement of the score in `evidence`,
    /// which detection leaves at zero for the caller to fill in.
    pub severity: u32,
    /// What the finding rests on: the number of Supports edges of a
    /// SingleSourceInference, the confidence of a LowConfidenceFoundation,
    /// the chain length of UnstableKnowledge, the decay score of
    /// StaleEvidence, zero otherwise.
    pub evidence: u64,
    /// The number of nodes that rest on this one.
    pub downstream_count: usize,
}

/// Counts over all gaps found, before the report is cut to size.
pub struct GapSummary {
    pub total_gaps: usize,
    pub unjustified_decisions: usize,
    pub single_source_inferences: usize,
    pub low_confidence_foundations: usize,
    pub unstable_knowledge: usize,
    pub stale_evidence: usize,
    /// The number of live nodes, against which the gaps are weighed.
    pub total_nodes: usize,
}

/// The report of gap detection.
pub struct GapReport {
    pub gaps: Vec<Gap>,
    pub summary: GapSummary,
}

/// Severity of an unjustified decision: the pattern of `0.9`.
pub const SEVERITY_UNJUSTIFIED: u32 = 0x3F66_6666;

/// Severity of a single-source inference: the pattern of `0.7`.
pub const SEVERITY_SINGLE_SOURCE: u32 = 0x3F33_3333;

/// Decay score below which evidence is stale: the pattern of `0.2`.
pub const STALE_DECAY: u32 = 0x3E4C_CCCD;

/// Severity of a chain of `n` replacements, `n / 5` capped at one: the
/// patterns of `0.6`, `0.8` and `1.0` for three, four and more.
pub open spec fn chain_severity(n: int) -> u32 {
    if n <= 3 {
        0x3F19_999Au32
    } else if n == 4 {
        0x3F4C_CCCDu32
    } else {
        crate::unit::ONE
    }
}

/// Whether one of the edges is a CausedBy or Supports edge.
pub open spec fn has_dependency(inc: Seq<Edge>) -> bool {
    exists|j: int| 0 <= j < inc.len() && (#[trigger] inc[j]).edge_type.is_dependency()
}

/// The number of edges of type `t` among `inc`.
pub open spec fn count_type(inc: Seq<Edge>, t: EdgeType) -> nat
    decreases inc.len(),
{
    if inc.len() == 0 {
        0
    } else {
        count_type(inc.drop_last(), t) + if inc.last().edge_type == t { 1nat } else { 0nat }
    }
}

/// `s` with `x` at the end if `cond` holds.
pub open spec fn push_if<T>(s: Seq<T>, cond: bool, x: T) -> Seq<T> {
    if cond {
        s.push(x)
    } else {
        s
    }
}

/// The gaps that a node shows, in the order of the five rules.
pub open spec fn node_gaps(
    g: GraphView,
    threshold: u32,
    min_support: u32,
    e: EventView,
) -> Seq<Gap> {
    let inc = g.edges_to(e.id);
    let down = dependents(g, e.id).len() as usize;
    let chain = chain_length(g, e.id);
    let s1 = push_if(
        Seq::<Gap>::empty(),
        e.event_type == EventType::Decision && !has_dependency(inc),
        Gap {
            node_id: e.id,
            gap_type: GapType::UnjustifiedDecision,
            severity: SEVERITY_UNJUSTIFIED,
            evidence: 0,
            downstream_count: down,
        },
    );
    let s2 = push_if(
        s1,
        e.event_type == EventType::Inference && capped(count_type(inc, EdgeType::Supports))
            < min_support,
        Gap {
            node_id: e.id,
            gap_type: GapType::SingleSourceInference,
            severity: SEVERITY_SINGLE_SOURCE,
            evidence: capped(count_type(inc, EdgeType::Supports)) as u64,
            downstream_count: down,
        },
    );
    let s3 = push_if(
        s2,
        (e.event_type == EventType::Fact || e.event_type == EventType::Inference) && below(
            e.confidence,
            threshold,
        ) && has_dependency(inc),
        Gap {
            node_id: e.id,
            gap_type: GapType::LowConfidenceFoundation,
            severity: 0,
            evidence: e.confidence as u64,
            downstream_count: down,
        },
    );
    let s4 = push_if(
        s3,
        chain >= 3,
        Gap {
            node_id: e.id,
            gap_type: GapType::UnstableKnowledge,
            severity: chain_severity(chain),
            evidence: chain as u64,
            downstream_count: down,
        },
    );
    push_if(
        s4,
        e.event_type == EventType::Fact && below(e.decay_score, STALE_DECAY) && has_dependency(inc),
        Gap {
            node_id: e.id,
            gap_type: GapType::StaleEvidence,
            severity: 0,
            evidence: e.decay_score as u64,
            downstream_count: down,
        },
    )
}

/// The gaps of the nodes `nodes` of the graph that lie in the session
/// range, node by node.
pub open spec fn gaps_of(
    g: GraphView,
    threshold: u32,
    min_support: u32,
    range: Option<(u32, u32)>,
    nodes: Seq<EventView>,
) -> Seq<Gap>
    decreases nodes.len(),
{
    if nodes.len() == 0 {
        Seq::empty()
    } else if session_in_range(nodes.last().session_id, range) {
        gaps_of(g, threshold, min_support, range, nodes.drop_last()) + node_gaps(
            g,
            threshold,
            min_support,
            nodes.last(),
        )
    } else {
        gaps_of(g, threshold, min_support, range, nodes.drop_last())
    }
}

/// The number of gaps of kind `t` among `gaps`.
pub open spec fn count_gaps(gaps: Seq<Gap>, t: GapType) -> nat
    decreases gaps.len(),
{
    if gaps.len() == 0 {
        0
    } else {
        count_gaps(gaps.drop_last(), t) + if gaps.last().gap_type == t { 1nat } else { 0nat }
    }
}

/// The key by which a gap is ranked.
pub open spec fn gap_key(g: GraphView, sort_by: GapSeverity, gap: Gap) -> u64 {
    match sort_by {
        GapSeverity::HighestImpact => gap.downstream_count as u64,
        GapSeverity::LowestConfidence => gap.severity as u64,
        GapSeverity::MostRecent => if g.has_node(gap.node_id) {
            g.node(gap.node_id).created_at
        } else {
            0
        },
    }
}

/// The keys of a sequence of gaps.
pub open spec fn gap_keys(g: GraphView, sort_by: GapSeverity, gaps: Seq<Gap>) -> Seq<u64> {
    Seq::new(gaps.len(), |i: int| gap_key(g, sort_by, gaps[i]))
}

/// Counts the edges of type `t`.
fn count_edges_of_type(inc: &Vec<Edge>, t: EdgeType) -> (r: usize)
    ensures
        r == count_type(inc@, t),
{
    let mut n: usize = 0;
    let mut i: usize = 0;
    assert(inc@.take(0) =~= Seq::<Edge>::empty());
    while i < inc.len()
        invariant
            i <= inc@.len(),
            n <= i,
            n == count_type(inc@.take(i as int), t),
        decreases inc@.len() - i,
    {
        assert(inc@.take(i + 1).drop_last() =~= inc@.take(i as int));
        if inc[i].edge_type == t {
            n += 1;
        }
        i += 1;
    }
    assert(inc@.take(i as int) =~= inc@);
    n
}

/// Decides `has_dependency`.
fn any_dependency(inc: &Vec<Edge>) -> (r: bool)
    ensures
        r == has_dependency(inc@),
{
    let mut i: usize = 0;
    while i < inc.len()
        invariant
            i <= inc@.len(),
            forall|j: int| 0 <= j < i ==> !(#[trigger] inc@[j]).edge_type.is_dependency(),
        decreases inc@.len() - i,
    {
        if inc[i].edge_type == EdgeType::CausedBy || inc[i].edge_type == EdgeType::Supports {
            return true;
        }
        i += 1;
    }
    false
}

/// One step of a cascade: a node whose confidence a contradiction weakens.
#[derive(Clone, Copy, Debug, PartialEq, Eq, Structural)]
pub struct CascadeStep {
    /// The node that is weakened.
    pub node_id: u64,
    /// The type of the edge by which it rests on `from_node`.
    pub via_edge: EdgeType,
    /// The node that it rests on.
    pub from_node: u64,
    /// The number of steps from a contradicted node.
    pub depth: u32,
    /// The weight of that edge.
    pub weight: u32,
}

/// What a contradiction does to the graph.
pub struct RevisionReport {
    /// The weakened nodes, nearest first.
    pub cascade: Vec<CascadeStep>,
    /// The Decision nodes among the contradicted and the weakened nodes, in
    /// ascending order of id.
    pub invalidated_decisions: Vec<u64>,
    /// The number of contradicted and weakened nodes.
    pub total_affected: usize,
}

/// Whether `q` leads from a contradicted node to `v`, every node resting on
/// the one before it.
pub open spec fn spread_walk(g: GraphView, roots: Set<u64>, q: Seq<u64>, v: u64) -> bool {
    &&& q.len() >= 1
    &&& roots.contains(q[0])
    &&& q.last() == v
    &&& is_walk(g, dependency_types(), TraversalDirection::Backward, q)
}

/// Whether `v` is not contradicted itself and rests on a contradicted node
/// through at most `n` edges.
pub open spec fn weakened(g: GraphView, roots: Set<u64>, v: u64, n: nat) -> bool {
    !roots.contains(v) && exists|q: Seq<u64>| #[trigger]
        spread_walk(g, roots, q, v) && q.len() - 1 <= n
}

/// Whether the first CausedBy or Supports edge from the step's node to the
/// node it rests on has the type and the weight that the step records.
pub open spec fn step_edge_ok(g: GraphView, step: CascadeStep) -> bool {
    exists|e: Edge| #[trigger]
        first_joining(
            g,
            dependency_types(),
            TraversalDirection::Backward,
            step.from_node,
            step.node_id,
            e,
        ) && e.edge_type == step.via_edge && e.weight == step.weight
}

/// Whether `steps` has a step for `v`.
pub open spec fn listed(steps: Seq<CascadeStep>, v: u64) -> bool {
    exists|i: int| 0 <= i < steps.len() && (#[trigger] steps[i]).node_id == v
}

/// Whether `steps` has a step for `v` at depth `d`.
pub open spec fn listed_at(steps: Seq<CascadeStep>, v: u64, d: int) -> bool {
    exists|i: int| 0 <= i < steps.len() && (#[trigger] steps[i]).node_id == v && steps[i].depth == d
}

/// Whether a step is sound: its depth is within the bound and is the least
/// number of edges through which its node rests on a contradicted node, its
/// edge is the first one from its node to the node it rests on, and that
/// node is contradicted or listed one level higher.
pub open spec fn step_ok(
    g: GraphView,
    roots: Set<u64>,
    max_depth: u32,
    steps: Seq<CascadeStep>,
    step: CascadeStep,
) -> bool {
    &&& 1 <= step.depth <= max_depth
    &&& step_edge_ok(g, step)
    &&& if step.depth == 1 {
        roots.contains(step.from_node)
    } else {
        listed_at(steps, step.from_node, step.depth - 1)
    }
    &&& forall|q: Seq<u64>| #[trigger]
        spread_walk(g, roots, q, step.node_id) ==> q.len() - 1 >= step.depth
}

/// Whether `steps` is the cascade from the contradicted nodes `roots`: it
/// lists every weakened node once, nearest first, and every step is sound.
pub open spec fn is_cascade(
    g: GraphView,
    roots: Set<u64>,
    max_depth: u32,
    steps: Seq<CascadeStep>,
) -> bool {
    &&& forall|v: u64|
        #![trigger weakened(g, roots, v, max_depth as nat)]
        #![trigger listed(steps, v)]
        weakened(g, roots, v, max_depth as nat) <==> listed(steps, v)
    &&& forall|i: int, j: int|
        0 <= i < j < steps.len() ==> (#[trigger] steps[i]).node_id != (#[trigger] steps[j]).node_id
            && steps[i].depth <= steps[j].depth
    &&& forall|i: int|
        0 <= i < steps.len() ==> #[trigger] step_ok(g, roots, max_depth, steps, steps[i])
}

/// Whether a step records what the search tree holds for its node.
pub open spec fn step_in_tree(
    g: GraphView,
    roots: Set<u64>,
    tree: Map<u64, (u64, u64)>,
    step: CascadeStep,
) -> bool {
    &&& tree.contains_key(step.node_id)
    &&& !roots.contains(step.node_id)
    &&& step.depth == tree[step.node_id].1
    &&& step.from_node == tree[step.node_id].0
    &&& step_edge_ok(g, step)
}

/// Whether `steps` lists nodes of the search tree that are no roots, each
/// once and nearest first.
pub open spec fn steps_match(
    g: GraphView,
    roots: Set<u64>,
    tree: Map<u64, (u64, u64)>,
    steps: Seq<CascadeStep>,
) -> bool {
    &&& forall|i: int| 0 <= i < steps.len() ==> #[trigger] step_in_tree(g, roots, tree, steps[i])
    &&& forall|i: int, j: int|
        0 <= i < j < steps.len() ==> (#[trigger] steps[i]).node_id != (#[trigger] steps[j]).node_id
            && steps[i].depth <= steps[j].depth
}

/// Whether every node of the tree that is no root is listed in `steps`.
pub open spec fn steps_cover(
    roots: Set<u64>,
    tree: Map<u64, (u64, u64)>,
    steps: Seq<CascadeStep>,
) -> bool {
    forall|v: u64|
        #![trigger listed(steps, v)]
        tree.contains_key(v) && !roots.contains(v) ==> listed(steps, v)
}

/// A tree with the contradicted nodes as its roots and nothing else.
fn seed(contradicted: &Vec<u64>) -> (r: (HashMap<u64, (u64, u64)>, Vec<u64>))
    ensures
        r.0@.dom().finite(),
        forall|v: u64| r.0@.contains_key(v) <==> contradicted@.to_set().contains(v),
        forall|v: u64| #[trigger] r.0@.contains_key(v) ==> r.0@[v] == (v, 0u64),
        forall|v: u64| r.1@.contains(v) <==> r.0@.contains_key(v),
{
    broadcast use vstd::std_specs::hash::group_hash_axioms;
    broadcast use vstd::set::group_set_axioms;

    let mut tree: HashMap<u64, (u64, u64)> = HashMap::new();
    let mut frontier: Vec<u64> = Vec::new();
    let mut i: usize = 0;
    while i < contradicted.len()
        invariant
            i <= contradicted@.len(),
            tree@.dom().finite(),
            forall|v: u64| tree@.contains_key(v) <==> contradicted@.take(i as int).contains(v),
            forall|v: u64| #[trigger] tree@.contains_key(v) ==> tree@[v] == (v, 0u64),
            forall|v: u64| frontier@.contains(v) <==> tree@.contains_key(v),
        decreases contradicted@.len() - i,
    {
        let c = contradicted[i];
        let ghost before = contradicted@.take(i as int);
        let ghost after = contradicted@.take(i + 1);
        let ghost front_before = frontier@;
        assert(after =~= before.push(c));
        if !tree.contains_key(&c) {
            tree.insert(c, (c, 0));
            frontier.push(c);
        }
        proof {
            assert forall|v: u64| tree@.contains_key(v) <==> after.contains(v) by {
                if after.contains(v) {
                    let k = choose|k: int| 0 <= k < after.len() && after[k] == v;
                    if k < before.len() {
                        assert(before[k] == v);
                        assert(before.contains(v));
                    }
                }
                if before.contains(v) {
                    let k = choose|k: int| 0 <= k < before.len() && before[k] == v;
                    assert(after[k] == v);
                }
                if v == c {
                    assert(after[before.len() as int] == c);
                }
            }
            assert forall|v: u64| frontier@.contains(v) <==> tree@.contains_key(v) by {
                if frontier@.contains(v) {
                    let k = choose|k: int| 0 <= k < frontier@.len() && frontier@[k] == v;
                    if k < front_before.len() {
                        assert(front_before[k] == v);
                        assert(front_before.contains(v));
                    }
                }
                if front_before.contains(v) {
                    let k = choose|k: int| 0 <= k < front_before.len() && front_before[k] == v;
                    assert(frontier@[k] == v);
                }
                if v == c && frontier@.len() > front_before.len() {
                    assert(frontier@[front_before.len() as int] == c);
                }
            }
        }
        i += 1;
    }
    assert(contradicted@.take(i as int) =~= contradicted@);
    (tree, frontier)
}

/// Adds one step for each node of a level that the search has just reached.
fn record_level(
    graph: &MemoryGraph,
    allowed: &Vec<EdgeType>,
    tree: &HashMap<u64, (u64, u64)>,
    level: &Vec<u64>,
    steps: &mut Vec<CascadeStep>,
    depth: u32,
    Ghost(roots): Ghost<Set<u64>>,
)
    requires
        depth >= 1,
        allowed@ == dependency_types(),
        level@.no_duplicates(),
        forall|l: int|
            0 <= l < level@.len() ==> tree@.contains_key(#[trigger] level@[l]) && !roots.contains(
                level@[l],
            ) && tree@[level@[l]].1 == depth && hop(
                graph@,
                dependency_types(),
                TraversalDirection::Backward,
                true,
                tree@[level@[l]].0,
                level@[l],
            ),
        steps_match(graph@, roots, tree@, old(steps)@),
        forall|l: int| 0 <= l < old(steps)@.len() ==> (#[trigger] old(steps)@[l]).depth < depth,
    ensures
        steps_match(graph@, roots, tree@, final(steps)@),
        final(steps)@.len() == old(steps)@.len() + level@.len(),
        forall|l: int| 0 <= l < old(steps)@.len() ==> final(steps)@[l] == old(steps)@[l],
        forall|l: int|
            old(steps)@.len() <= l < final(steps)@.len() ==> (#[trigger] final(steps)@[l]).node_id
                == level@[l - old(steps)@.len()] && final(steps)@[l].depth == depth,
{
    broadcast use vstd::std_specs::hash::group_hash_axioms;

    let ghost g = graph@;
    let ghost dep = dependency_types();
    let dir = TraversalDirection::Backward;
    let ghost start = steps@;
    let mut k: usize = 0;
    while k < level.len()
        invariant
            k <= level@.len(),
            depth >= 1,
            g == graph@,
            dep == dependency_types(),
            allowed@ == dep,
            dir == TraversalDirection::Backward,
            start == old(steps)@,
            level@.no_duplicates(),
            forall|l: int|
                0 <= l < level@.len() ==> tree@.contains_key(#[trigger] level@[l])
                    && !roots.contains(level@[l]) && tree@[level@[l]].1 == depth && hop(
                    g,
                    dep,
                    dir,
                    true,
                    tree@[level@[l]].0,
                    level@[l],
                ),
            forall|l: int| 0 <= l < start.len() ==> (#[trigger] start[l]).depth < depth,
            steps_match(g, roots, tree@, steps@),
            steps@.len() == start.len() + k,
            forall|l: int| 0 <= l < start.len() ==> steps@[l] == start[l],
            forall|l: int|
                start.len() <= l < steps@.len() ==> (#[trigger] steps@[l]).node_id == level@[l
                    - start.len()] && steps@[l].depth == depth,
        decreases level@.len() - k,
    {
        let v = level[k];
        let (parent, d) = match tree.get(&v) {
            Some(pd) => *pd,
            None => (v, 0),
        };
        proof {
            assert(tree@.contains_key(level@[k as int]));
            assert(hop(g, dep, dir, true, parent, v));
        }
        match find_joining_edge(graph, allowed, dir, parent, v) {
            None => {
                assert(false);
            },
            Some(e) => {
                let ghost before = steps@;
                let step = CascadeStep {
                    node_id: v,
                    via_edge: e.edge_type,
                    from_node: parent,
                    depth,
                    weight: e.weight,
                };
                steps.push(step);
                proof {
                    assert(first_joining(g, dep, dir, step.from_node, step.node_id, e));
                    assert(step_edge_ok(g, step));
                    assert(step_in_tree(g, roots, tree@, step));
                    assert forall|a: int, b: int| 0 <= a < b < steps@.len() implies (
                    #[trigger] steps@[a]).node_id != (#[trigger] steps@[b]).node_id
                        && steps@[a].depth <= steps@[b].depth by {
                        if b < before.len() {
                            assert(steps@[a] == before[a] && steps@[b] == before[b]);
                        } else {
                            assert(steps@[a] == before[a]);
                            if a < start.len() {
                                assert(start[a].depth < depth);
                                assert(step_in_tree(g, roots, tree@, before[a]));
                            } else {
                                assert(before[a].node_id == level@[a - start.len()]);
                            }
                        }
                    }
                    assert forall|i: int| 0 <= i < steps@.len() implies #[trigger] step_in_tree(
                        g,
                        roots,
                        tree@,
                        steps@[i],
                    ) by {
                        if i < before.len() {
                            assert(steps@[i] == before[i]);
                            assert(step_in_tree(g, roots, tree@, before[i]));
                        }
                    }
                }
            },
        }
        k += 1;
    }
}

/// In a tree that is closed up to the depth bound, the nodes that are no
/// roots are the weakened nodes, each at its least depth.
proof fn lemma_tree_is_spread(
    g: GraphView,
    roots: Set<u64>,
    max_depth: u32,
    t: Map<u64, (u64, u64)>,
    round: nat,
    v: u64,
)
    requires
        round <= max_depth,
        tree_ok(g, dependency_types(), TraversalDirection::Backward, true, roots, t, round),
        closed_below(g, dependency_types(), TraversalDirection::Backward, true, t, max_depth as nat),
    ensures
        weakened(g, roots, v, max_depth as nat) <==> t.contains_key(v) && !roots.contains(v),
        t.contains_key(v) ==> forall|q: Seq<u64>| #[trigger]
            spread_walk(g, roots, q, v) ==> q.len() - 1 >= t[v].1,
{
    let dep = dependency_types();
    let dir = TraversalDirection::Backward;
    let cap = max_depth as nat;
    if t.contains_key(v) && !roots.contains(v) {
        let q = lemma_tree_walk(g, dep, dir, roots, t, round, v);
        assert(spread_walk(g, roots, q, v) && q.len() - 1 <= cap);
    }
    if weakened(g, roots, v, cap) {
        let q = choose|q: Seq<u64>| #[trigger] spread_walk(g, roots, q, v) && q.len() - 1 <= cap;
        lemma_spread_reached(g, roots, t, round, cap, q, v);
    }
    if t.contains_key(v) {
        assert forall|q: Seq<u64>| #[trigger] spread_walk(g, roots, q, v) implies q.len() - 1
            >= t[v].1 by {
            if q.len() - 1 <= cap {
                lemma_spread_reached(g, roots, t, round, cap, q, v);
            } else if !roots.contains(v) {
                assert(t[v].1 <= round);
            } else {
                assert(t[v].1 == 0);
            }
        }
    }
}

/// A step that records what the tree holds is sound.
proof fn lemma_step_ok(
    g: GraphView,
    roots: Set<u64>,
    max_depth: u32,
    t: Map<u64, (u64, u64)>,
    round: nat,
    steps: Seq<CascadeStep>,
    i: int,
)
    requires
        round <= max_depth,
        tree_ok(g, dependency_types(), TraversalDirection::Backward, true, roots, t, round),
        closed_below(g, dependency_types(), TraversalDirection::Backward, true, t, max_depth as nat),
        steps_match(g, roots, t, steps),
        steps_cover(roots, t, steps),
        0 <= i < steps.len(),
    ensures
        step_ok(g, roots, max_depth, steps, steps[i]),
{
    let step = steps[i];
    let v = step.node_id;
    let p = step.from_node;
    assert(step_in_tree(g, roots, t, steps[i]));
    lemma_tree_is_spread(g, roots, max_depth, t, round, v);
    assert(t.contains_key(v) && !roots.contains(v));
    assert(t.contains_key(p) && t[p].1 == t[v].1 - 1);
    if roots.contains(p) {
        assert(t[p].1 == 0);
    } else {
        assert(t[p].1 >= 1);
        assert(listed(steps, p));
        let j = choose|j: int| 0 <= j < steps.len() && (#[trigger] steps[j]).node_id == p;
        assert(step_in_tree(g, roots, t, steps[j]));
        assert(listed_at(steps, p, step.depth - 1));
    }
}

/// A tree that is closed up to the depth bound, with its nodes listed level
/// by level, gives the cascade.
proof fn lemma_cascade(
    g: GraphView,
    roots: Set<u64>,
    max_depth: u32,
    t: Map<u64, (u64, u64)>,
    round: nat,
    steps: Seq<CascadeStep>,
)
    requires
        round <= max_depth,
        tree_ok(g, dependency_types(), TraversalDirection::Backward, true, roots, t, round),
        closed_below(g, dependency_types(), TraversalDirection::Backward, true, t, max_depth as nat),
        steps_match(g, roots, t, steps),
        steps_cover(roots, t, steps),
    ensures
        is_cascade(g, roots, max_depth, steps),
        forall|v: u64|
            t.contains_key(v) <==> roots.contains(v) || weakened(g, roots, v, max_depth as nat),
{
    let cap = max_depth as nat;
    assert forall|v: u64|
        #![trigger weakened(g, roots, v, cap)]
        #![trigger listed(steps, v)]
        weakened(g, roots, v, cap) <==> listed(steps, v) by {
        lemma_tree_is_spread(g, roots, max_depth, t, round, v);
        if listed(steps, v) {
            let i = choose|i: int| 0 <= i < steps.len() && (#[trigger] steps[i]).node_id == v;
            assert(step_in_tree(g, roots, t, steps[i]));
        }
    }
    assert forall|v: u64|
        t.contains_key(v) <==> roots.contains(v) || weakened(g, roots, v, cap) by {
        lemma_tree_is_spread(g, roots, max_depth, t, round, v);
    }
    assert forall|i: int| 0 <= i < steps.len() implies #[trigger] step_ok(
        g,
        roots,
        max_depth,
        steps,
        steps[i],
    ) by {
        lemma_step_ok(g, roots, max_depth, t, round, steps, i);
    }
}

/// The nodes that rest on the contradicted nodes through at most
/// `max_depth` edges, found level by level.
fn spread(graph: &MemoryGraph, contradicted: &Vec<u64>, max_depth: u32) -> (r: (
    HashMap<u64, (u64, u64)>,
    Vec<CascadeStep>,
))
    requires
        graph.wf(),
    ensures
        is_cascade(graph@, contradicted@.to_set(), max_depth, r.1@),
        forall|v: u64|
            r.0@.contains_key(v) <==> contradicted@.to_set().contains(v) || weakened(
                graph@,
                contradicted@.to_set(),
                v,
                max_depth as nat,
            ),
        r.0@.dom().finite(),
{
    broadcast use vstd::std_specs::hash::group_hash_axioms;

    let ghost g = graph@;
    let ghost roots = contradicted@.to_set();
    let ghost dep = dependency_types();
    let dir = TraversalDirection::Backward;
    let mut allowed: Vec<EdgeType> = Vec::new();
    allowed.push(EdgeType::CausedBy);
    allowed.push(EdgeType::Supports);
    assert(allowed@ =~= dep);
    let (mut tree, mut frontier) = seed(contradicted);
    let none: HashMap<u64, (u64, u64)> = HashMap::new();
    let mut steps: Vec<CascadeStep> = Vec::new();
    let mut round: u32 = 0;
    while round < max_depth && frontier.len() > 0
        invariant
            round <= max_depth,
            g == graph@,
            roots == contradicted@.to_set(),
            dep == dependency_types(),
            allowed@ == dep,
            dir == TraversalDirection::Backward,
            none@ == Map::<u64, (u64, u64)>::empty(),
            tree@.dom().finite(),
            tree_ok(g, dep, dir, true, roots, tree@, round as nat),
            closed_below(g, dep, dir, true, tree@, round as nat),
            frontier_ok(tree@, frontier@, round as nat),
            steps_match(g, roots, tree@, steps@),
            steps_cover(roots, tree@, steps@),
            forall|k: int| 0 <= k < steps@.len() ==> (#[trigger] steps@[k]).depth <= round,
        decreases max_depth - round,
    {
        let ghost old_tree = tree@;
        let ghost old_steps = steps@;
        let (met, next) = expand(
            graph.edges(),
            Ghost(graph@),
            &allowed,
            dir,
            true,
            &mut tree,
            &frontier,
            &none,
            round as u64,
            Ghost(roots),
        );
        proof {
            assert forall|l: int| 0 <= l < next@.len() implies tree@.contains_key(
                #[trigger] next@[l],
            ) && !roots.contains(next@[l]) && tree@[next@[l]].1 == round + 1 && hop(
                g,
                dep,
                dir,
                true,
                tree@[next@[l]].0,
                next@[l],
            ) by {
                assert(next@.contains(next@[l]));
                if roots.contains(next@[l]) {
                    assert(tree@[next@[l]].1 == 0);
                }
            }
            assert forall|i: int| 0 <= i < steps@.len() implies #[trigger] step_in_tree(
                g,
                roots,
                tree@,
                steps@[i],
            ) by {
                assert(step_in_tree(g, roots, old_tree, steps@[i]));
                assert(old_tree.contains_key(steps@[i].node_id));
            }
        }
        record_level(graph, &allowed, &tree, &next, &mut steps, round + 1, Ghost(roots));
        proof {
            assert forall|v: u64|
                #![trigger listed(steps@, v)]
                tree@.contains_key(v) && !roots.contains(v) implies listed(steps@, v) by {
                if old_tree.contains_key(v) {
                    assert(listed(old_steps, v));
                    let i = choose|i: int|
                        0 <= i < old_steps.len() && (#[trigger] old_steps[i]).node_id == v;
                    assert(steps@[i] == old_steps[i]);
                } else {
                    assert(tree@[v].1 == round + 1);
                    assert(next@.contains(v));
                    let l = choose|l: int| 0 <= l < next@.len() && next@[l] == v;
                    assert(steps@[old_steps.len() + l].node_id == v);
                }
            }
            assert forall|k: int| 0 <= k < steps@.len() implies (#[trigger] steps@[k]).depth
                <= round + 1 by {
                if k < old_steps.len() {
                    assert(steps@[k] == old_steps[k]);
                }
            }
        }
        frontier = next;
        round += 1;
    }
    proof {
        if round < max_depth {
            assert(frontier@ =~= Seq::<u64>::empty());
            lemma_exhausted(g, dep, dir, true, roots, tree@, round as nat, max_depth as nat);
        }
        lemma_cascade(g, roots, max_depth, tree@, round as nat, steps@);
    }
    (tree, steps)
}

/// The end of a walk from a contradicted node of at most `cap` steps is in
/// the tree, no deeper than the walk is long.
proof fn lemma_spread_reached(
    g: GraphView,
    roots: Set<u64>,
    tree: Map<u64, (u64, u64)>,
    round: nat,
    cap: nat,
    q: Seq<u64>,
    v: u64,
)
    requires
        tree_ok(g, dependency_types(), TraversalDirection::Backward, true, roots, tree, round),
        closed_below(g, dependency_types(), TraversalDirection::Backward, true, tree, cap),
        spread_walk(g, roots, q, v),
        q.len() - 1 <= cap,
    ensures
        tree.contains_key(v),
        tree[v].1 <= q.len() - 1,
{
    let dep = dependency_types();
    let dir = TraversalDirection::Backward;
    assert(is_chain(g, dep, dir, true, q)) by {
        assert forall|i: int| 0 <= i < q.len() - 1 implies hop(
            g,
            dep,
            dir,
            true,
            #[trigger] q[i],
            q[i + 1],
        ) by {
            assert(arc(g, dep, dir, q[i], q[i + 1]));
        }
    }
    lemma_reached(g, dep, dir, true, roots, tree, round, cap, q);
}

/// What speaks for a node contradicting a hypothesis, before any weighing.
#[derive(Clone, Copy, Debug, PartialEq, Eq, Structural)]
pub struct BeliefEvidence {
    pub node_id: u64,
    /// How many of the distinct terms of the hypothesis the node's content
    /// has.
    pub overlap: usize,
    /// Whether the content negates.
    pub has_negation: bool,
    /// Whether a Contradicts edge leaves or enters the node.
    pub has_contradicts_edge: bool,
    /// Whether the node is a Correction.
    pub is_correction: bool,
}

/// The distinct terms of a text.
pub open spec fn query_terms(text: Seq<char>) -> Seq<Seq<char>> {
    distinct(tokens(text))
}

/// How many of the distinct terms of `text` the content of a node has.
pub open spec fn overlap_of(text: Seq<char>, e: EventView) -> nat {
    shared(query_terms(text), tokens(e.content))
}

/// Whether a Contradicts edge leaves or enters `id`.
pub open spec fn touches_contradiction(g: GraphView, id: u64) -> bool {
    exists|k: int|
        0 <= k < g.edges.len() && (#[trigger] g.edges[k]).edge_type == EdgeType::Contradicts && (
        g.edges[k].source_id == id || g.edges[k].target_id == id)
}

/// The evidence of a node against a hypothesis.
pub open spec fn evidence_of(g: GraphView, hypothesis: Seq<char>, e: EventView) -> BeliefEvidence {
    BeliefEvidence {
        node_id: e.id,
        overlap: overlap_of(hypothesis, e) as usize,
        has_negation: negates(e.content),
        has_contradicts_edge: touches_contradiction(g, e.id),
        is_correction: e.event_type == EventType::Correction,
    }
}

/// Whether a node is contradicted or weakened.
pub open spec fn affected(g: GraphView, roots: Set<u64>, max_depth: u32, v: u64) -> bool {
    roots.contains(v) || weakened(g, roots, v, max_depth as nat)
}

/// Whether `r` reports what contradicting the nodes `roots` does: the
/// cascade, the Decision nodes among the affected nodes in ascending order,
/// and the number of affected nodes.
pub open spec fn is_revision(g: GraphView, roots: Set<u64>, max_depth: u32, r: RevisionReport) -> bool {
    &&& is_cascade(g, roots, max_depth, r.cascade@)
    &&& forall|a: int, b: int|
        0 <= a < b < r.invalidated_decisions@.len() ==> r.invalidated_decisions@[a]
            < r.invalidated_decisions@[b]
    &&& forall|v: u64|
        r.invalidated_decisions@.contains(v) <==> affected(g, roots, max_depth, v) && g.has_node(v)
            && g.node(v).event_type == EventType::Decision
    &&& Set::new(|v: u64| affected(g, roots, max_depth, v)).finite()
    &&& r.total_affected == Set::new(|v: u64| affected(g, roots, max_depth, v)).len()
}

/// Decides `touches_contradiction`.
fn has_contradiction_edge(graph: &MemoryGraph, id: u64) -> (r: bool)
    ensures
        r == touches_contradiction(graph@, id),
{
    let edges = graph.edges();
    let mut k: usize = 0;
    while k < edges.len()
        invariant
            k <= edges@.len(),
            edges@ == graph@.edges,
            forall|l: int|
                0 <= l < k ==> !((#[trigger] edges@[l]).edge_type == EdgeType::Contradicts && (
                edges@[l].source_id == id || edges@[l].target_id == id)),
        decreases edges@.len() - k,
    {
        let e = edges[k];
        if e.edge_type == EdgeType::Contradicts && (e.source_id == id || e.target_id == id) {
            return true;
        }
        k += 1;
    }
    false
}

impl QueryEngine {
    /// The number of nodes that rest on `node_id`, directly or through
    /// others, by CausedBy and Supports edges.
    pub fn count_downstream(&self, graph: &MemoryGraph, node_id: u64) -> (r: usize)
        requires
            graph.wf(),
        ensures
            dependents(graph@, node_id).finite(),
            r == dependents(graph@, node_id).len(),
    {
        broadcast use vstd::std_specs::hash::group_hash_axioms;
        broadcast use vstd::set::group_set_axioms;

        let mut allowed: Vec<EdgeType> = Vec::new();
        allowed.push(EdgeType::CausedBy);
        allowed.push(EdgeType::Supports);
        assert(allowed@ =~= dependency_types());
        let tree = reach_all(graph, &allowed, TraversalDirection::Backward, node_id);
        proof {
            let g = graph@;
            let own = seq![node_id];
            assert(walk_between(g, dependency_types(), TraversalDirection::Backward, own, node_id, node_id));
            assert(tree@.contains_key(node_id));
            assert(dependents(g, node_id) =~= tree@.dom().remove(node_id));
        }
        tree.len() - 1
    }

    /// The number of replacements on the Supersedes chain through `node_id`:
    /// first towards the nodes that replaced it, then towards the nodes it
    /// replaced, never coming to a node twice.
    pub fn count_supersedes_chain(&self, graph: &MemoryGraph, node_id: u64) -> (r: usize)
        requires
            graph.wf(),
        ensures
            r == chain_length(graph@, node_id),
    {
        broadcast use vstd::std_specs::hash::group_hash_axioms;
        broadcast use vstd::set::group_set_axioms;

        let ghost g = graph@;
        let mut seen: HashSet<u64> = HashSet::new();
        seen.insert(node_id);
        assert(seen@ =~= set![node_id]);
        let up = follow_trail(graph, node_id, EdgeType::Supersedes, true, &mut seen);
        let ghost middle = seen@;
        let down = follow_trail(graph, node_id, EdgeType::Supersedes, false, &mut seen);
        proof {
            lemma_trail_unique(g, EdgeType::Supersedes, true, up@, newer_trail(g, node_id), set![node_id]);
            assert(middle =~= set![node_id].union(up@.to_set()));
            lemma_trail_unique(
                g,
                EdgeType::Supersedes,
                false,
                down@,
                older_trail(g, node_id),
                set![node_id].union(newer_trail(g, node_id).to_set()),
            );
            let both = up@.skip(1) + down@.skip(1);
            assert(both.no_duplicates()) by {
                assert forall|a: int, b: int|
                    0 <= a < both.len() && 0 <= b < both.len() && a != b implies both[a]
                    != both[b] by {
                    let un = up@.len() - 1;
                    if a < un && b < un {
                        assert(up@[a + 1] != up@[b + 1]);
                    } else if a >= un && b >= un {
                        assert(down@[a - un + 1] != down@[b - un + 1]);
                    } else if a < un {
                        assert(up@.contains(up@[a + 1]));
                        assert(middle.contains(up@[a + 1]));
                        assert(!middle.contains(down@[b - un + 1]));
                    } else {
                        assert(up@.contains(up@[b + 1]));
                        assert(middle.contains(up@[b + 1]));
                        assert(!middle.contains(down@[a - un + 1]));
                    }
                }
            }
            assert forall|i: int| 0 <= i < both.len() implies g.has_node(#[trigger] both[i]) by {
                let un = up@.len() - 1;
                if i < un {
                    assert(g.has_node(up@[i + 1]));
                } else {
                    assert(g.has_node(down@[i - un + 1]));
                }
            }
            lemma_distinct_nodes_bound(g, both);
        }
        let nodes = graph.node_count();
        assert((up@.len() - 1) + (down@.len() - 1) <= nodes);
        (up.len() - 1) + (down.len() - 1)
    }

    /// The gaps that one node shows.
    fn gaps_at(&self, graph: &MemoryGraph, params: &GapDetectionParams, node: &CognitiveEvent) -> (r:
        Vec<Gap>)
        requires
            graph.wf(),
        ensures
            r@ == node_gaps(
                graph@,
                params.confidence_threshold,
                params.min_support_count,
                node@,
            ),
    {
        let inc = graph.edges_to(node.id);
        let down = self.count_downstream(graph, node.id);
        let chain = self.count_supersedes_chain(graph, node.id);
        let has_dep = any_dependency(&inc);
        let supports = count_edges_of_type(&inc, EdgeType::Supports);
        let support_count: u32 = if supports >= u32::MAX as usize {
            u32::MAX
        } else {
            supports as u32
        };
        let mut out: Vec<Gap> = Vec::new();
        if node.event_type == EventType::Decision && !has_dep {
            out.push(
                Gap {
                    node_id: node.id,
                    gap_type: GapType::UnjustifiedDecision,
                    severity: SEVERITY_UNJUSTIFIED,
                    evidence: 0,
                    downstream_count: down,
                },
            );
        }
        if node.event_type == EventType::Inference && support_count < params.min_support_count {
            out.push(
                Gap {
                    node_id: node.id,
                    gap_type: GapType::SingleSourceInference,
                    severity: SEVERITY_SINGLE_SOURCE,
                    evidence: support_count as u64,
                    downstream_count: down,
                },
            );
        }
        if (node.event_type == EventType::Fact || node.event_type == EventType::Inference)
            && is_below(node.confidence, params.confidence_threshold) && has_dep {
            out.push(
                Gap {
                    node_id: node.id,
                    gap_type: GapType::LowConfidenceFoundation,
                    severity: 0,
                    evidence: node.confidence as u64,
                    downstream_count: down,
                },
            );
        }
        if chain >= 3 {
            let severity: u32 = if chain == 3 {
                0x3F19_999A
            } else if chain == 4 {
                0x3F4C_CCCD
            } else {
                crate::unit::ONE
            };
            out.push(
                Gap {
                    node_id: node.id,
                    gap_type: GapType::UnstableKnowledge,
                    severity,
                    evidence: chain as u64,
                    downstream_count: down,
                },
            );
        }
        if node.event_type == EventType::Fact && is_below(node.decay_score, STALE_DECAY) && has_dep {
            out.push(
                Gap {
                    node_id: node.id,
                    gap_type: GapType::StaleEvidence,
                    severity: 0,
                    evidence: node.decay_score as u64,
                    downstream_count: down,
                },
            );
        }
        out
    }

    /// Examines every node in the session range by the five rules and lists
    /// the gaps, node by node.
    pub fn find_gaps(&self, graph: &MemoryGraph, params: &GapDetectionParams) -> (r: Vec<Gap>)
        requires
            graph.wf(),
        ensures
            r@ == gaps_of(
                graph@,
                params.confidence_threshold,
                params.min_support_count,
                params.session_range,
                graph@.nodes,
            ),
    {
        let nodes = graph.nodes();
        let ghost g = graph@;
        let mut gaps: Vec<Gap> = Vec::new();
        let mut i: usize = 0;
        assert(g.nodes.take(0) =~= Seq::<EventView>::empty());
        while i < nodes.len()
            invariant
                i <= nodes@.len(),
                g == graph@,
                graph.wf(),
                event_views(nodes@) == g.nodes,
                gaps@ == gaps_of(
                    g,
                    params.confidence_threshold,
                    params.min_support_count,
                    params.session_range,
                    g.nodes.take(i as int),
                ),
            decreases nodes@.len() - i,
        {
            assert(g.nodes.take(i + 1).drop_last() =~= g.nodes.take(i as int));
            assert(g.nodes.take(i + 1).last() == nodes@[i as int]@);
            if in_session_range(nodes[i].session_id, params.session_range) {
                let mut found = self.gaps_at(graph, params, &nodes[i]);
                gaps.append(&mut found);
            }
            i += 1;
        }
        assert(g.nodes.take(i as int) =~= g.nodes);
        gaps
    }

    /// The report over the gaps found: the counts by kind over all of them,
    /// and the first `max_results` in the order asked for, equal keys in the
    /// order found.
    pub fn gap_detection(&self, graph: &MemoryGraph, params: &GapDetectionParams, gaps: &Vec<Gap>) -> (r:
        GapReport)
        requires
            graph.wf(),
        ensures
            r.gaps@ == top_ranked(
                gaps@,
                gap_keys(graph@, params.sort_by, gaps@),
                true,
                params.max_results as nat,
            ),
            r.summary.total_gaps == gaps@.len(),
            r.summary.total_nodes == graph@.nodes.len(),
            r.summary.unjustified_decisions == count_gaps(gaps@, GapType::UnjustifiedDecision),
            r.summary.single_source_inferences == count_gaps(
                gaps@,
                GapType::SingleSourceInference,
            ),
            r.summary.low_confidence_foundations == count_gaps(
                gaps@,
                GapType::LowConfidenceFoundation,
            ),
            r.summary.unstable_knowledge == count_gaps(gaps@, GapType::UnstableKnowledge),
            r.summary.stale_evidence == count_gaps(gaps@, GapType::StaleEvidence),
    {
        let mut keys: Vec<u64> = Vec::new();
        let mut i: usize = 0;
        while i < gaps.len()
            invariant
                i <= gaps@.len(),
                graph.wf(),
                keys@.len() == i,
                forall|j: int| 0 <= j < i ==> keys@[j] == gap_key(graph@, params.sort_by, gaps@[j]),
            decreases gaps@.len() - i,
        {
            let gap = gaps[i];
            let key: u64 = match params.sort_by {
                GapSeverity::HighestImpact => gap.downstream_count as u64,
                GapSeverity::LowestConfidence => gap.severity as u64,
                GapSeverity::MostRecent => match graph.get_node(gap.node_id) {
                    Some(node) => node.created_at,
                    None => 0,
                },
            };
            keys.push(key);
            i += 1;
        }
        assert(keys@ =~= gap_keys(graph@, params.sort_by, gaps@));
        let ranked = select_top(gaps, &keys, true, params.max_results);
        let summary = GapSummary {
            total_gaps: gaps.len(),
            unjustified_decisions: count_of_kind(gaps, GapType::UnjustifiedDecision),
            single_source_inferences: count_of_kind(gaps, GapType::SingleSourceInference),
            low_confidence_foundations: count_of_kind(gaps, GapType::LowConfidenceFoundation),
            unstable_knowledge: count_of_kind(gaps, GapType::UnstableKnowledge),
            stale_evidence: count_of_kind(gaps, GapType::StaleEvidence),
            total_nodes: graph.node_count(),
        };
        GapReport { gaps: ranked, summary }
    }

    /// For every node, how many of the distinct terms of `text` its content
    /// has, in the order of the nodes, and the number of those terms.
    pub fn term_overlap(&self, graph: &MemoryGraph, text: &str) -> (r: (Vec<usize>, usize))
        ensures
            r.1 == query_terms(text@).len(),
            r.0@.len() == graph@.nodes.len(),
            forall|i: int|
                0 <= i < r.0@.len() ==> #[trigger] r.0@[i] == overlap_of(text@, graph@.nodes[i]),
    {
        let tokenizer = Tokenizer::new();
        let terms = tokenizer.term_frequencies(text);
        assert(crate::tokenizer::terms_of(terms@).len() == terms@.len());
        let nodes = graph.nodes();
        let mut out: Vec<usize> = Vec::new();
        let mut i: usize = 0;
        while i < nodes.len()
            invariant
                i <= nodes@.len(),
                tokenizer.wf(),
                event_views(nodes@) == graph@.nodes,
                crate::tokenizer::terms_of(terms@) == query_terms(text@),
                out@.len() == i,
                forall|j: int|
                    0 <= j < i ==> #[trigger] out@[j] == overlap_of(text@, graph@.nodes[j]),
            decreases nodes@.len() - i,
        {
            let toks = tokenizer.tokenize(nodes[i].content.as_str());
            assert(graph@.nodes[i as int] == nodes@[i as int]@);
            out.push(count_shared(&terms, &toks));
            i += 1;
        }
        (out, terms.len())
    }

    /// For every node, what speaks for its contradicting the hypothesis, in
    /// the order of the nodes, and the number of distinct terms of the
    /// hypothesis.
    pub fn belief_evidence(&self, graph: &MemoryGraph, hypothesis: &str) -> (r: (
        Vec<BeliefEvidence>,
        usize,
    ))
        ensures
            r.1 == query_terms(hypothesis@).len(),
            r.0@.len() == graph@.nodes.len(),
            forall|i: int|
                0 <= i < r.0@.len() ==> #[trigger] r.0@[i] == evidence_of(
                    graph@,
                    hypothesis@,
                    graph@.nodes[i],
                ),
    {
        let (overlaps, count) = self.term_overlap(graph, hypothesis);
        let negations = belief_negations();
        let nodes = graph.nodes();
        let mut out: Vec<BeliefEvidence> = Vec::new();
        let mut i: usize = 0;
        while i < nodes.len()
            invariant
                i <= nodes@.len(),
                event_views(nodes@) == graph@.nodes,
                overlaps@.len() == nodes@.len(),
                crate::engine::relevance::slice_texts(negations@)
                    == crate::engine::relevance::negation_words(),
                forall|j: int|
                    0 <= j < overlaps@.len() ==> #[trigger] overlaps@[j] == overlap_of(
                        hypothesis@,
                        graph@.nodes[j],
                    ),
                out@.len() == i,
                forall|j: int|
                    0 <= j < i ==> #[trigger] out@[j] == evidence_of(
                        graph@,
                        hypothesis@,
                        graph@.nodes[j],
                    ),
            decreases nodes@.len() - i,
        {
            let node = &nodes[i];
            assert(graph@.nodes[i as int] == nodes@[i as int]@);
            let ev = BeliefEvidence {
                node_id: node.id,
                overlap: overlaps[i],
                has_negation: has_word_of(&negations, node.content.as_str()),
                has_contradicts_edge: has_contradiction_edge(graph, node.id),
                is_correction: node.event_type == EventType::Correction,
            };
            out.push(ev);
            i += 1;
        }
        (out, count)
    }

    /// What contradicting the given nodes does to the nodes that rest on
    /// them through at most `max_depth` CausedBy and Supports edges.
    pub fn belief_revision(&self, graph: &MemoryGraph, contradicted: &Vec<u64>, max_depth: u32) -> (r:
        RevisionReport)
        requires
            graph.wf(),
        ensures
            is_revision(graph@, contradicted@.to_set(), max_depth, r),
    {
        broadcast use vstd::std_specs::hash::group_hash_axioms;

        let ghost g = graph@;
        let ghost roots = contradicted@.to_set();
        let (tree, cascade) = spread(graph, contradicted, max_depth);
        let nodes = graph.nodes();
        let mut invalidated: Vec<u64> = Vec::new();
        let mut i: usize = 0;
        while i < nodes.len()
            invariant
                i <= nodes@.len(),
                g == graph@,
                g.wf(),
                event_views(nodes@) == g.nodes,
                forall|a: int, b: int|
                    0 <= a < b < invalidated@.len() ==> invalidated@[a] < invalidated@[b],
                forall|a: int|
                    0 <= a < invalidated@.len() && i < nodes@.len() ==> invalidated@[a]
                        < g.nodes[i as int].id,
                forall|v: u64|
                    invalidated@.contains(v) <==> exists|j: int|
                        0 <= j < i && (#[trigger] g.nodes[j]).id == v && g.nodes[j].event_type
                            == EventType::Decision && tree@.contains_key(v),
            decreases nodes@.len() - i,
        {
            let node = &nodes[i];
            assert(g.nodes[i as int] == nodes@[i as int]@);
            let ghost before = invalidated@;
            let take = node.event_type == EventType::Decision && tree.contains_key(&node.id);
            if take {
                invalidated.push(node.id);
            }
            proof {
                assert forall|v: u64|
                    invalidated@.contains(v) <==> exists|j: int|
                        0 <= j < i + 1 && (#[trigger] g.nodes[j]).id == v && g.nodes[j].event_type
                            == EventType::Decision && tree@.contains_key(v) by {
                    if invalidated@.contains(v) {
                        let x = choose|x: int| 0 <= x < invalidated@.len() && invalidated@[x] == v;
                        if x < before.len() {
                            assert(before[x] == v);
                            assert(before.contains(v));
                        } else {
                            assert(g.nodes[i as int].id == v);
                        }
                    }
                    if before.contains(v) {
                        let x = choose|x: int| 0 <= x < before.len() && before[x] == v;
                        assert(invalidated@[x] == v);
                    }
                    if take && v == node.id {
                        assert(invalidated@[before.len() as int] == v);
                    }
                }
                if i + 1 < nodes@.len() {
                    assert(g.nodes[i as int].id < g.nodes[i + 1].id);
                }
            }
            i += 1;
        }
        proof {
            let all = Set::new(|v: u64| affected(g, roots, max_depth, v));
            assert(all =~= tree@.dom());
            assert forall|v: u64|
                invalidated@.contains(v) <==> affected(g, roots, max_depth, v) && g.has_node(v)
                    && g.node(v).event_type == EventType::Decision by {
                if g.has_node(v) {
                    let c = g.index_of(v);
                    assert(g.nodes[c].id == v);
                    if invalidated@.contains(v) {
                        let j = choose|j: int|
                            0 <= j < i && (#[trigger] g.nodes[j]).id == v && g.nodes[j].event_type
                                == EventType::Decision && tree@.contains_key(v);
                        if j < c {
                            assert(g.nodes[j].id < g.nodes[c].id);
                        } else if c < j {
                            assert(g.nodes[c].id < g.nodes[j].id);
                        }
                    }
                }
            }
        }
        let total = tree.len();
        RevisionReport { cascade, invalidated_decisions: invalidated, total_affected: total }
    }
}

/// Counts the gaps of kind `t`.
fn count_of_kind(gaps: &Vec<Gap>, t: GapType) -> (r: usize)
    ensures
        r == count_gaps(gaps@, t),
{
    let mut n: usize = 0;
    let mut i: usize = 0;
    assert(gaps@.take(0) =~= Seq::<Gap>::empty());
    while i < gaps.len()
        invariant
            i <= gaps@.len(),
            n <= i,
            n == count_gaps(gaps@.take(i as int), t),
        decreases gaps@.len() - i,
    {
        assert(gaps@.take(i + 1).drop_last() =~= gaps@.take(i as int));
        if gaps[i].gap_type == t {
            n += 1;
        }
        i += 1;
    }
    assert(gaps@.take(i as int) =~= gaps@);
    n
}

} // verus!
