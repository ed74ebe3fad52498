//! Consolidation: the one analysis that changes the graph.

use vstd::prelude::*;
use std::collections::HashSet;
use crate::engine::query::QueryEngine;
use crate::engine::relevance::{consolidation_negations, count_shared, has_negation_token,
    has_word_of, negation_tokens, shared, slice_texts};
use crate::graph::add_edge_outcome;
use crate::graph::{event_views, GraphView, MemoryGraph};
use crate::rank::{is_ranking, rank_by_key, ranking};
use crate::tokenizer::{distinct, terms_of, texts, tokens, Tokenizer};
use crate::types::{AmemError, Edge, EdgeType, EventType, EventView};
use crate::unit::{below, is_below, reaches, does_reach};

verus! {

/// One action that consolidation took, or would take in a dry run.
pub struct ConsolidationAction {
    /// The name of the operation.
    pub operation: String,
    /// The nodes that the action touches.
    pub affected_nodes: Vec<u64>,
    /// The similarity of the two nodes, where the action joins two nodes;
    /// zero otherwise.
    pub similarity: u32,
}

/// The mathematical value of an action.
pub struct ActionView {
    pub operation: Seq<char>,
    pub affected_nodes: Seq<u64>,
    pub similarity: u32,
}

impl View for ConsolidationAction {
    type V = ActionView;

    open spec fn view(&self) -> ActionView {
        ActionView {
            operation: self.operation@,
            affected_nodes: self.affected_nodes@,
            similarity: self.similarity,
        }
    }
}

/// What a consolidation run did.
pub struct ConsolidationReport {
    /// Every action taken or proposed, in order.
    pub actions: Vec<ConsolidationAction>,
    /// The number of duplicates found.
    pub deduplicated: usize,
    /// The number of orphans found; none is ever removed.
    pub pruned: usize,
    /// The number of contradictions found.
    pub contradictions_linked: usize,
    /// The number of episodes in groups that could be compressed; none ever
    /// is.
    pub episodes_compressed: usize,
    /// The number of inferences promoted.
    pub inferences_promoted: usize,
    /// Where the caller keeps a backup, handed back as it was given.
    pub backup_path: Option<String>,
}

/// The mathematical value of a report.
pub struct ReportView {
    pub actions: Seq<ActionView>,
    pub deduplicated: usize,
    pub pruned: usize,
    pub contradictions_linked: usize,
    pub episodes_compressed: usize,
    pub inferences_promoted: usize,
    pub backup_path: Option<Seq<char>>,
}

/// The views of a sequence of actions.
pub open spec fn action_views(s: Seq<ConsolidationAction>) -> Seq<ActionView> {
    Seq::new(s.len(), |i: int| s[i]@)
}

impl View for ConsolidationReport {
    type V = ReportView;

    open spec fn view(&self) -> ReportView {
        ReportView {
            actions: action_views(self.actions@),
            deduplicated: self.deduplicated,
            pruned: self.pruned,
            contradictions_linked: self.contradictions_linked,
            episodes_compressed: self.episodes_compressed,
            inferences_promoted: self.inferences_promoted,
            backup_path: match self.backup_path {
                Some(p) => Some(p@),
                None => None,
            },
        }
    }
}

/// The sum of two counts, or the largest count if the sum exceeds it.
pub open spec fn capped_sum(a: usize, b: nat) -> usize {
    if a + b > usize::MAX {
        usize::MAX
    } else {
        (a + b) as usize
    }
}

/// Computes `capped_sum`.
pub fn add_capped(a: usize, b: usize) -> (r: usize)
    ensures
        r == capped_sum(a, b as nat),
{
    if a > usize::MAX - b {
        usize::MAX
    } else {
        a + b
    }
}

/// Adds an action to a report.
fn push_action(report: &mut ConsolidationReport, operation: &str, affected: Vec<u64>, similarity: u32)
    ensures
        final(report)@ == (ReportView {
            actions: old(report)@.actions.push(
                ActionView { operation: operation@, affected_nodes: affected@, similarity },
            ),
            ..old(report)@
        }),
{
    let ghost before = report.actions@;
    let action = ConsolidationAction {
        operation: operation.to_owned(),
        affected_nodes: affected,
        similarity,
    };
    let ghost av = action@;
    report.actions.push(action);
    assert(action_views(report.actions@) =~= action_views(before).push(av));
}

/// Whether a node is an orphan: never accessed, decayed below `max_decay`,
/// in the session range, and entered by no edge.
pub open spec fn is_orphan(g: GraphView, max_decay: u32, range: Option<(u32, u32)>, e: EventView) -> bool {
    e.access_count == 0 && below(e.decay_score, max_decay) && session_in_range(e.session_id, range)
        && g.edges_to(e.id).len() == 0
}

/// The ids of the orphans among `nodes`, in order.
pub open spec fn orphans(
    g: GraphView,
    max_decay: u32,
    range: Option<(u32, u32)>,
    nodes: Seq<EventView>,
) -> Seq<u64>
    decreases nodes.len(),
{
    if nodes.len() == 0 {
        Seq::empty()
    } else if is_orphan(g, max_decay, range, nodes.last()) {
        orphans(g, max_decay, range, nodes.drop_last()).push(nodes.last().id)
    } else {
        orphans(g, max_decay, range, nodes.drop_last())
    }
}

/// The report after orphans have been looked for.
pub open spec fn pruned_report(
    g: GraphView,
    max_decay: u32,
    range: Option<(u32, u32)>,
    before: ReportView,
) -> ReportView {
    let found = orphans(g, max_decay, range, g.nodes);
    if found.len() == 0 {
        before
    } else {
        ReportView {
            actions: before.actions.push(
                ActionView { operation: "prune_orphans"@, affected_nodes: found, similarity: 0 },
            ),
            pruned: capped_sum(before.pruned, found.len()),
            ..before
        }
    }
}

/// Whether an inference is established: accessed at least `min_access`
/// times, with a confidence that reaches `min_confidence`, in the session
/// range.
pub open spec fn is_established(
    min_access: u32,
    min_confidence: u32,
    range: Option<(u32, u32)>,
    e: EventView,
) -> bool {
    e.event_type == EventType::Inference && e.access_count >= min_access && reaches(
        e.confidence,
        min_confidence,
    ) && session_in_range(e.session_id, range)
}

/// A node after promotion: an established inference becomes a Fact.
pub open spec fn promoted(
    min_access: u32,
    min_confidence: u32,
    range: Option<(u32, u32)>,
    e: EventView,
) -> EventView {
    if is_established(min_access, min_confidence, range, e) {
        EventView { event_type: EventType::Fact, ..e }
    } else {
        e
    }
}

/// The report after the established inferences among the first `n` nodes
/// have been noted.
pub open spec fn promoted_report(
    min_access: u32,
    min_confidence: u32,
    range: Option<(u32, u32)>,
    nodes: Seq<EventView>,
    before: ReportView,
    n: int,
) -> ReportView
    decreases n,
{
    if n <= 0 {
        before
    } else {
        let prev = promoted_report(min_access, min_confidence, range, nodes, before, n - 1);
        if is_established(min_access, min_confidence, range, nodes[n - 1]) {
            ReportView {
                actions: prev.actions.push(
                    ActionView {
                        operation: "promote_inferences"@,
                        affected_nodes: seq![nodes[n - 1].id],
                        similarity: 0,
                    },
                ),
                inferences_promoted: capped_sum(prev.inferences_promoted, 1),
                ..prev
            }
        } else {
            prev
        }
    }
}

/// The graph after promotion: the established inferences are Facts, and
/// nothing else has changed.
pub open spec fn promoted_graph(
    min_access: u32,
    min_confidence: u32,
    range: Option<(u32, u32)>,
    g: GraphView,
) -> GraphView {
    GraphView {
        nodes: Seq::new(
            g.nodes.len(),
            |i: int| promoted(min_access, min_confidence, range, g.nodes[i]),
        ),
        ..g
    }
}

/// Whether `session_id` lies in the range, both ends included; no range
/// admits every session.
pub open spec fn session_in_range(session_id: u32, range: Option<(u32, u32)>) -> bool {
    match range {
        Some((lo, hi)) => lo <= session_id && session_id <= hi,
        None => true,
    }
}

/// Decides `session_in_range`.
pub fn in_session_range(session_id: u32, range: Option<(u32, u32)>) -> (r: bool)
    ensures
        r == session_in_range(session_id, range),
{
    match range {
        Some((lo, hi)) => session_id >= lo && session_id <= hi,
        None => true,
    }
}

/// The two ids with the smaller one first.
pub fn ordered_pair(a: u64, b: u64) -> (r: (u64, u64))
    ensures
        r == if a <= b { (a, b) } else { (b, a) },
        r.0 <= r.1,
{
    if a <= b {
        (a, b)
    } else {
        (b, a)
    }
}

/// An episode as compression sees it.
#[derive(Clone, Copy, Debug, PartialEq, Eq, Structural)]
pub struct Episode {
    pub id: u64,
    pub created_at: u64,
    pub session_id: u32,
}

/// The Episode nodes among `nodes` that lie in the session range, in order.
pub open spec fn episodes_of(range: Option<(u32, u32)>, nodes: Seq<EventView>) -> Seq<Episode>
    decreases nodes.len(),
{
    if nodes.len() == 0 {
        Seq::empty()
    } else if nodes.last().event_type == EventType::Episode && session_in_range(
        nodes.last().session_id,
        range,
    ) {
        episodes_of(range, nodes.drop_last()).push(
            Episode {
                id: nodes.last().id,
                created_at: nodes.last().created_at,
                session_id: nodes.last().session_id,
            },
        )
    } else {
        episodes_of(range, nodes.drop_last())
    }
}

/// The times of a sequence of episodes.
pub open spec fn episode_times(eps: Seq<Episode>) -> Seq<u64> {
    Seq::new(eps.len(), |i: int| eps[i].created_at)
}

/// Episodes in order of time; episodes of equal time keep their order.
pub open spec fn by_creation(eps: Seq<Episode>) -> Seq<Episode> {
    Seq::new(eps.len(), |i: int| eps[ranking(episode_times(eps), false)[i] as int])
}

/// The first `n` episodes cut into runs: an episode joins the run of the
/// episode before it if it is of the same session, and starts a run if not.
pub open spec fn runs(eps: Seq<Episode>, n: int) -> Seq<Seq<u64>>
    decreases n,
{
    if n <= 0 {
        Seq::empty()
    } else if n == 1 {
        seq![seq![eps[0].id]]
    } else if eps[n - 1].session_id == eps[n - 2].session_id {
        runs(eps, n - 1).drop_last().push(runs(eps, n - 1).last().push(eps[n - 1].id))
    } else {
        runs(eps, n - 1).push(seq![eps[n - 1].id])
    }
}

/// The report after the first `n` runs have been looked at: each run of at
/// least `size` episodes is noted in one action.
pub open spec fn compressed_report(
    before: ReportView,
    groups: Seq<Seq<u64>>,
    size: u32,
    n: int,
) -> ReportView
    decreases n,
{
    if n <= 0 {
        before
    } else {
        let prev = compressed_report(before, groups, size, n - 1);
        if groups[n - 1].len() >= size {
            ReportView {
                actions: prev.actions.push(
                    ActionView {
                        operation: "compress_episodes"@,
                        affected_nodes: groups[n - 1],
                        similarity: 0,
                    },
                ),
                episodes_compressed: capped_sum(prev.episodes_compressed, groups[n - 1].len()),
                ..prev
            }
        } else {
            prev
        }
    }
}

/// The report after the episodes of a graph have been looked at.
pub open spec fn episodes_report(
    g: GraphView,
    size: u32,
    range: Option<(u32, u32)>,
    before: ReportView,
) -> ReportView {
    let eps = by_creation(episodes_of(range, g.nodes));
    let groups = runs(eps, eps.len() as int);
    compressed_report(before, groups, size, groups.len() as int)
}

/// The report does not depend on the runs after the first `n`.
proof fn lemma_compressed_prefix(
    before: ReportView,
    a: Seq<Seq<u64>>,
    b: Seq<Seq<u64>>,
    size: u32,
    n: int,
)
    requires
        n <= a.len(),
        n <= b.len(),
        forall|i: int| 0 <= i < n ==> a[i] == b[i],
    ensures
        compressed_report(before, a, size, n) == compressed_report(before, b, size, n),
    decreases n,
{
    if n > 0 {
        lemma_compressed_prefix(before, a, b, size, n - 1);
    }
}

/// Notes a closed run in the report if it is large enough.
fn close_run(report: &mut ConsolidationReport, run: Vec<u64>, size: u32, Ghost(closed): Ghost<
    Seq<Seq<u64>>,
>, Ghost(start): Ghost<ReportView>)
    requires
        old(report)@ == compressed_report(start, closed, size, closed.len() as int),
    ensures
        final(report)@ == compressed_report(
            start,
            closed.push(run@),
            size,
            closed.len() as int + 1,
        ),
{
    proof {
        lemma_compressed_prefix(start, closed, closed.push(run@), size, closed.len() as int);
    }
    if run.len() >= size as usize {
        let count = run.len();
        push_action(report, "compress_episodes", run, 0);
        report.episodes_compressed = add_capped(report.episodes_compressed, count);
    }
}

/// Two nodes whose feature vectors the caller found similar.
#[derive(Clone, Copy, Debug, PartialEq, Eq, Structural)]
pub struct SimilarPair {
    pub first: u64,
    pub second: u64,
    /// The similarity of the two vectors, as a bit pattern.
    pub similarity: u32,
}

/// Whether two texts share at least half of their distinct tokens, counted
/// over the tokens of both.
pub open spec fn similar_tokens(x: Seq<char>, y: Seq<char>) -> bool {
    let a = distinct(tokens(x));
    let b = distinct(tokens(y));
    let both = shared(a, tokens(y));
    a.len() + b.len() > 0 && 2 * both >= a.len() + b.len() - both
}

/// Whether a node is a Fact in the session range.
pub open spec fn fact_in_range(range: Option<(u32, u32)>, e: EventView) -> bool {
    e.event_type == EventType::Fact && session_in_range(e.session_id, range)
}

/// The graph after an edge was offered to it: with the edge if it could be
/// added, unchanged if not.
pub open spec fn with_edge(g: GraphView, edge: Edge) -> GraphView {
    if add_edge_outcome(g, edge) is Ok {
        GraphView { edges: g.edges.push(edge), ..g }
    } else {
        g
    }
}

/// How far deduplication has come.
pub struct DedupState {
    pub graph: GraphView,
    /// The nodes found to be duplicates so far.
    pub superseded: Set<u64>,
    pub report: ReportView,
}

/// Whether a pair is a pair of duplicates: two different live Facts in the
/// session range, neither found to be a duplicate before, with similar
/// tokens.
pub open spec fn is_duplicate(st: DedupState, range: Option<(u32, u32)>, p: SimilarPair) -> bool {
    &&& p.first != p.second
    &&& !st.superseded.contains(p.first)
    &&& !st.superseded.contains(p.second)
    &&& st.graph.has_node(p.first)
    &&& st.graph.has_node(p.second)
    &&& fact_in_range(range, st.graph.node(p.first))
    &&& fact_in_range(range, st.graph.node(p.second))
    &&& similar_tokens(st.graph.node(p.first).content, st.graph.node(p.second).content)
}

/// Whether the first node of a pair of duplicates is the one that stays:
/// it is the more confident one, or as confident and of the lower id.
pub open spec fn first_stays(g: GraphView, p: SimilarPair) -> bool {
    g.node(p.first).confidence > g.node(p.second).confidence || (g.node(p.first).confidence
        == g.node(p.second).confidence && p.first <= p.second)
}

/// The node of a pair of duplicates that stays: the more confident one, the
/// one of the lower id if both are as confident.
pub open spec fn winner(g: GraphView, p: SimilarPair) -> u64 {
    if first_stays(g, p) {
        p.first
    } else {
        p.second
    }
}

/// The other node of the pair.
pub open spec fn loser(g: GraphView, p: SimilarPair) -> u64 {
    if first_stays(g, p) {
        p.second
    } else {
        p.first
    }
}

/// Deduplication after one more pair.
pub open spec fn dedup_step(
    st: DedupState,
    range: Option<(u32, u32)>,
    dry_run: bool,
    now: u64,
    p: SimilarPair,
) -> DedupState {
    if is_duplicate(st, range, p) {
        let w = winner(st.graph, p);
        let l = loser(st.graph, p);
        DedupState {
            graph: if dry_run {
                st.graph
            } else {
                with_edge(
                    st.graph,
                    Edge {
                        source_id: w,
                        target_id: l,
                        edge_type: EdgeType::Supersedes,
                        weight: p.similarity,
                        created_at: now,
                    },
                )
            },
            superseded: st.superseded.insert(l),
            report: ReportView {
                actions: st.report.actions.push(
                    ActionView {
                        operation: "deduplicate_facts"@,
                        affected_nodes: seq![w, l],
                        similarity: p.similarity,
                    },
                ),
                deduplicated: capped_sum(st.report.deduplicated, 1),
                ..st.report
            },
        }
    } else {
        st
    }
}

/// Deduplication after the first `n` pairs.
pub open spec fn dedup_upto(
    start: DedupState,
    range: Option<(u32, u32)>,
    dry_run: bool,
    now: u64,
    pairs: Seq<SimilarPair>,
    n: int,
) -> DedupState
    decreases n,
{
    if n <= 0 {
        start
    } else {
        dedup_step(dedup_upto(start, range, dry_run, now, pairs, n - 1), range, dry_run, now, pairs[n - 1])
    }
}

/// How far the linking of contradictions has come.
pub struct LinkState {
    pub graph: GraphView,
    /// The pairs noted so far, smaller id first.
    pub noted: Seq<(u64, u64)>,
    pub report: ReportView,
}

/// Whether a node is a Fact or an Inference in the session range.
pub open spec fn claim_in_range(range: Option<(u32, u32)>, e: EventView) -> bool {
    (e.event_type == EventType::Fact || e.event_type == EventType::Inference) && session_in_range(
        e.session_id,
        range,
    )
}

/// The two ids with the smaller one first.
pub open spec fn in_order(a: u64, b: u64) -> (u64, u64) {
    if a <= b {
        (a, b)
    } else {
        (b, a)
    }
}

/// Whether a pair is a contradiction to be linked: two different live
/// claims in the session range that no Contradicts edge joins yet and that
/// were not noted before, exactly one of which has a negation token.
pub open spec fn is_contradiction(st: LinkState, range: Option<(u32, u32)>, p: SimilarPair) -> bool {
    &&& p.first != p.second
    &&& !st.graph.has_arc(p.first, p.second, EdgeType::Contradicts)
    &&& !st.graph.has_arc(p.second, p.first, EdgeType::Contradicts)
    &&& !st.noted.contains(in_order(p.first, p.second))
    &&& st.graph.has_node(p.first)
    &&& st.graph.has_node(p.second)
    &&& claim_in_range(range, st.graph.node(p.first))
    &&& claim_in_range(range, st.graph.node(p.second))
    &&& has_negation_token(st.graph.node(p.first).content) != has_negation_token(
        st.graph.node(p.second).content,
    )
}

/// The linking of contradictions after one more pair.
pub open spec fn link_step(
    st: LinkState,
    range: Option<(u32, u32)>,
    dry_run: bool,
    now: u64,
    p: SimilarPair,
) -> LinkState {
    if is_contradiction(st, range, p) {
        LinkState {
            graph: if dry_run {
                st.graph
            } else {
                with_edge(
                    st.graph,
                    Edge {
                        source_id: p.first,
                        target_id: p.second,
                        edge_type: EdgeType::Contradicts,
                        weight: p.similarity,
                        created_at: now,
                    },
                )
            },
            noted: st.noted.push(in_order(p.first, p.second)),
            report: ReportView {
                actions: st.report.actions.push(
                    ActionView {
                        operation: "link_contradictions"@,
                        affected_nodes: seq![p.first, p.second],
                        similarity: p.similarity,
                    },
                ),
                contradictions_linked: capped_sum(st.report.contradictions_linked, 1),
                ..st.report
            },
        }
    } else {
        st
    }
}

/// The linking of contradictions after the first `n` pairs.
pub open spec fn link_upto(
    start: LinkState,
    range: Option<(u32, u32)>,
    dry_run: bool,
    now: u64,
    pairs: Seq<SimilarPair>,
    n: int,
) -> LinkState
    decreases n,
{
    if n <= 0 {
        start
    } else {
        link_step(link_upto(start, range, dry_run, now, pairs, n - 1), range, dry_run, now, pairs[n - 1])
    }
}

/// Decides `similar_tokens`.
fn tokens_are_similar(tokenizer: &Tokenizer, x: &str, y: &str) -> (r: bool)
    requires
        tokenizer.wf(),
    ensures
        r == similar_tokens(x@, y@),
{
    let a = tokenizer.term_frequencies(x);
    let b = tokenizer.term_frequencies(y);
    let y_tokens = tokenizer.tokenize(y);
    assert(terms_of(a@).len() == a@.len());
    assert(terms_of(b@).len() == b@.len());
    let both = count_shared(&a, &y_tokens) as u128;
    let total = a.len() as u128 + b.len() as u128;
    proof {
        lemma_shared_bound(terms_of(a@), texts(y_tokens@));
    }
    total > 0 && 2 * both >= total - both
}

/// No more members are shared than there are.
proof fn lemma_shared_bound(a: Seq<Seq<char>>, b: Seq<Seq<char>>)
    ensures
        shared(a, b) <= a.len(),
    decreases a.len(),
{
    if a.len() > 0 {
        lemma_shared_bound(a.drop_last(), b);
    }
}

/// Whether the pair is among the noted ones.
fn is_noted(noted: &Vec<(u64, u64)>, pair: (u64, u64)) -> (r: bool)
    ensures
        r == noted@.contains(pair),
{
    let mut i: usize = 0;
    while i < noted.len()
        invariant
            i <= noted@.len(),
            forall|j: int| 0 <= j < i ==> noted@[j] != pair,
        decreases noted@.len() - i,
    {
        if noted[i].0 == pair.0 && noted[i].1 == pair.1 {
            return true;
        }
        i += 1;
    }
    false
}

/// One operation of a consolidation run.
pub enum ConsolidationOp {
    /// Note duplicates among Facts and let the more confident one supersede
    /// the other. The caller names the pairs of Facts whose feature vectors
    /// are similar enough, in the order in which they are to be examined.
    DeduplicateFacts { candidates: Vec<SimilarPair> },
    /// Report the nodes that could be pruned: never accessed, with a decay
    /// score below `max_decay`, entered by no edge. None is removed.
    PruneOrphans { max_decay: u32 },
    /// Note pairs of claims of which one negates, and join them by a
    /// Contradicts edge. The caller names the pairs of nodes whose feature
    /// vectors are similar enough, in the order in which they are to be
    /// examined.
    LinkContradictions { candidates: Vec<SimilarPair> },
    /// Report runs of at least `group_size` episodes. None is compressed.
    CompressEpisodes { group_size: u32 },
    /// Make established inferences Facts.
    PromoteInferences { min_access: u32, min_confidence: u32 },
}

/// Parameters of a consolidation run.
pub struct ConsolidationParams {
    /// If set, only nodes of these sessions are considered, both ends
    /// included.
    pub session_range: Option<(u32, u32)>,
    /// The operations, in the order in which they are to run.
    pub operations: Vec<ConsolidationOp>,
    /// Whether the graph is to stay as it is.
    pub dry_run: bool,
    /// Where the caller keeps a backup; handed back in the report.
    pub backup_path: Option<String>,
    /// The time that new edges are stamped with.
    pub now: u64,
}

/// A graph together with the report on it.
pub struct Consolidated {
    pub graph: GraphView,
    pub report: ReportView,
}

/// What one operation makes of a graph and a report.
pub open spec fn apply_op(
    before: Consolidated,
    range: Option<(u32, u32)>,
    dry_run: bool,
    now: u64,
    op: ConsolidationOp,
) -> Consolidated {
    match op {
        ConsolidationOp::DeduplicateFacts { candidates } => {
            let end = dedup_upto(
                DedupState {
                    graph: before.graph,
                    superseded: Set::empty(),
                    report: before.report,
                },
                range,
                dry_run,
                now,
                candidates@,
                candidates@.len() as int,
            );
            Consolidated { graph: end.graph, report: end.report }
        },
        ConsolidationOp::PruneOrphans { max_decay } => Consolidated {
            graph: before.graph,
            report: pruned_report(before.graph, max_decay, range, before.report),
        },
        ConsolidationOp::LinkContradictions { candidates } => {
            let end = link_upto(
                LinkState { graph: before.graph, noted: Seq::empty(), report: before.report },
                range,
                dry_run,
                now,
                candidates@,
                candidates@.len() as int,
            );
            Consolidated { graph: end.graph, report: end.report }
        },
        ConsolidationOp::CompressEpisodes { group_size } => Consolidated {
            graph: before.graph,
            report: episodes_report(before.graph, group_size, range, before.report),
        },
        ConsolidationOp::PromoteInferences { min_access, min_confidence } => Consolidated {
            graph: if dry_run {
                before.graph
            } else {
                promoted_graph(min_access, min_confidence, range, before.graph)
            },
            report: promoted_report(
                min_access,
                min_confidence,
                range,
                before.graph.nodes,
                before.report,
                before.graph.nodes.len() as int,
            ),
        },
    }
}

/// What the first `n` operations make of a graph and a report.
pub open spec fn apply_ops(
    start: Consolidated,
    range: Option<(u32, u32)>,
    dry_run: bool,
    now: u64,
    ops: Seq<ConsolidationOp>,
    n: int,
) -> Consolidated
    decreases n,
{
    if n <= 0 {
        start
    } else {
        apply_op(apply_ops(start, range, dry_run, now, ops, n - 1), range, dry_run, now, ops[n - 1])
    }
}

/// The report that a run starts with.
pub open spec fn empty_report(backup_path: Option<String>) -> ReportView {
    ReportView {
        actions: Seq::empty(),
        deduplicated: 0,
        pruned: 0,
        contradictions_linked: 0,
        episodes_compressed: 0,
        inferences_promoted: 0,
        backup_path: match backup_path {
            Some(p) => Some(p@),
            None => None,
        },
    }
}

impl QueryEngine {
    /// Looks for orphans and reports them in one action; none is removed.
    pub fn op_prune_orphans(
        &self,
        graph: &MemoryGraph,
        max_decay: u32,
        session_filter: Option<(u32, u32)>,
        report: &mut ConsolidationReport,
    )
        ensures
            final(report)@ == pruned_report(graph@, max_decay, session_filter, old(report)@),
    {
        let ghost g = graph@;
        let nodes = graph.nodes();
        let mut found: Vec<u64> = Vec::new();
        let mut i: usize = 0;
        assert(g.nodes.take(0) =~= Seq::<EventView>::empty());
        while i < nodes.len()
            invariant
                i <= nodes@.len(),
                g == graph@,
                event_views(nodes@) == g.nodes,
                found@ == orphans(g, max_decay, session_filter, g.nodes.take(i as int)),
            decreases nodes@.len() - i,
        {
            assert(g.nodes.take(i + 1).drop_last() =~= g.nodes.take(i as int));
            assert(g.nodes.take(i + 1).last() == nodes@[i as int]@);
            let n = &nodes[i];
            if n.access_count == 0 && is_below(n.decay_score, max_decay) && in_session_range(
                n.session_id,
                session_filter,
            ) && graph.edges_to(n.id).len() == 0 {
                found.push(n.id);
            }
            i += 1;
        }
        assert(g.nodes.take(i as int) =~= g.nodes);
        if found.len() > 0 {
            let count = found.len();
            push_action(report, "prune_orphans", found, 0);
            report.pruned = add_capped(report.pruned, count);
        }
    }

    /// Notes every established inference and, unless this is a dry run,
    /// makes it a Fact.
    pub fn op_promote_inferences(
        &self,
        graph: &mut MemoryGraph,
        min_access: u32,
        min_confidence: u32,
        session_filter: Option<(u32, u32)>,
        dry_run: bool,
        report: &mut ConsolidationReport,
    )
        requires
            old(graph).wf(),
        ensures
            final(graph).wf(),
            final(graph).terms() is Some <==> old(graph).terms() is Some,
            final(graph).lengths() is Some <==> old(graph).lengths() is Some,
            final(report)@ == promoted_report(
                min_access,
                min_confidence,
                session_filter,
                old(graph)@.nodes,
                old(report)@,
                old(graph)@.nodes.len() as int,
            ),
            dry_run ==> final(graph)@ == old(graph)@,
            !dry_run ==> final(graph)@ == promoted_graph(
                min_access,
                min_confidence,
                session_filter,
                old(graph)@,
            ),
    {
        let ghost g0 = graph@;
        let ghost r0 = report@;
        let mut eligible: Vec<u64> = Vec::new();
        let n = graph.node_count();
        let mut i: usize = 0;
        while i < n
            invariant
                i <= n,
                n == g0.nodes.len(),
                graph@ == g0,
                graph.wf(),
                graph.terms() is Some <==> old(graph).terms() is Some,
                graph.lengths() is Some <==> old(graph).lengths() is Some,
                report@ == promoted_report(
                    min_access,
                    min_confidence,
                    session_filter,
                    g0.nodes,
                    r0,
                    i as int,
                ),
                forall|j: int| 0 <= j < eligible@.len() ==> g0.has_node(#[trigger] eligible@[j]),
                forall|v: u64|
                    eligible@.contains(v) <==> exists|j: int|
                        0 <= j < i && (#[trigger] g0.nodes[j]).id == v && is_established(
                            min_access,
                            min_confidence,
                            session_filter,
                            g0.nodes[j],
                        ),
            decreases n - i,
        {
            let nodes = graph.nodes();
            let node = &nodes[i];
            assert(g0.nodes[i as int] == nodes@[i as int]@);
            let ghost before = eligible@;
            let take = node.event_type == EventType::Inference && node.access_count >= min_access
                && does_reach(node.confidence, min_confidence) && in_session_range(
                node.session_id,
                session_filter,
            );
            if take {
                let id = node.id;
                let mut one: Vec<u64> = Vec::new();
                one.push(id);
                assert(one@ =~= seq![id]);
                push_action(report, "promote_inferences", one, 0);
                report.inferences_promoted = add_capped(report.inferences_promoted, 1);
                eligible.push(id);
            }
            proof {
                assert forall|v: u64|
                    eligible@.contains(v) <==> exists|j: int|
                        0 <= j < i + 1 && (#[trigger] g0.nodes[j]).id == v && is_established(
                            min_access,
                            min_confidence,
                            session_filter,
                            g0.nodes[j],
                        ) by {
                    if eligible@.contains(v) {
                        let x = choose|x: int| 0 <= x < eligible@.len() && eligible@[x] == v;
                        if x < before.len() {
                            assert(before[x] == v);
                            assert(before.contains(v));
                        } else {
                            assert(g0.nodes[i as int].id == v);
                        }
                    }
                    if before.contains(v) {
                        let x = choose|x: int| 0 <= x < before.len() && before[x] == v;
                        assert(eligible@[x] == v);
                    }
                    if take && v == g0.nodes[i as int].id {
                        assert(eligible@[before.len() as int] == v);
                    }
                }
                assert forall|j: int| 0 <= j < eligible@.len() implies g0.has_node(
                    #[trigger] eligible@[j],
                ) by {
                    if j < before.len() {
                        assert(eligible@[j] == before[j]);
                    } else {
                        assert(g0.nodes[i as int].id == eligible@[j]);
                    }
                }
            }
            i += 1;
        }
        if !dry_run {
            let mut k: usize = 0;
            while k < eligible.len()
                invariant
                    k <= eligible@.len(),
                    graph.wf(),
                    graph.terms() is Some <==> old(graph).terms() is Some,
                    graph.lengths() is Some <==> old(graph).lengths() is Some,
                    g0.wf(),
                    graph@.nodes.len() == g0.nodes.len(),
                    graph@.edges == g0.edges,
                    graph@.next_id == g0.next_id,
                    graph@.dimension == g0.dimension,
                    forall|j: int| 0 <= j < eligible@.len() ==> g0.has_node(#[trigger] eligible@[j]),
                    forall|j: int|
                        0 <= j < g0.nodes.len() ==> (#[trigger] graph@.nodes[j]) == if eligible@.take(
                            k as int,
                        ).contains(g0.nodes[j].id) {
                            EventView { event_type: EventType::Fact, ..g0.nodes[j] }
                        } else {
                            g0.nodes[j]
                        },
                decreases eligible@.len() - k,
            {
                let id = eligible[k];
                let ghost mid = graph@;
                let ghost before = eligible@.take(k as int);
                let ghost after = eligible@.take(k + 1);
                proof {
                    assert(after =~= before.push(id));
                    assert(g0.has_node(eligible@[k as int]));
                    let c = g0.index_of(id);
                    assert(mid.nodes[c].id == id);
                    assert(mid.has_node(id));
                    let c2 = mid.index_of(id);
                    assert(c2 == c) by {
                        assert(mid.nodes[c2].id == id);
                        assert(g0.nodes[c2].id == mid.nodes[c2].id);
                        if c2 < c {
                            assert(g0.nodes[c2].id < g0.nodes[c].id);
                        } else if c < c2 {
                            assert(g0.nodes[c].id < g0.nodes[c2].id);
                        }
                    }
                }
                graph.set_event_type(id, EventType::Fact);
                proof {
                    let c = g0.index_of(id);
                    assert forall|j: int| 0 <= j < g0.nodes.len() implies (
                    #[trigger] graph@.nodes[j]) == if after.contains(g0.nodes[j].id) {
                        EventView { event_type: EventType::Fact, ..g0.nodes[j] }
                    } else {
                        g0.nodes[j]
                    } by {
                        if before.contains(g0.nodes[j].id) {
                            let x = choose|x: int|
                                0 <= x < before.len() && before[x] == g0.nodes[j].id;
                            assert(after[x] == g0.nodes[j].id);
                        }
                        if after.contains(g0.nodes[j].id) {
                            let x = choose|x: int|
                                0 <= x < after.len() && after[x] == g0.nodes[j].id;
                            if x < before.len() {
                                assert(before[x] == g0.nodes[j].id);
                            }
                        }
                        if j == c {
                            assert(after[before.len() as int] == id);
                        } else {
                            assert(mid.nodes[j] == graph@.nodes[j]);
                            if g0.nodes[j].id == id {
                                if j < c {
                                    assert(g0.nodes[j].id < g0.nodes[c].id);
                                } else {
                                    assert(g0.nodes[c].id < g0.nodes[j].id);
                                }
                            }
                        }
                    }
                }
                k += 1;
            }
            proof {
                assert(eligible@.take(k as int) =~= eligible@);
                let want = promoted_graph(min_access, min_confidence, session_filter, g0);
                assert forall|j: int| 0 <= j < g0.nodes.len() implies graph@.nodes[j]
                    == want.nodes[j] by {
                    if eligible@.contains(g0.nodes[j].id) {
                        let x = choose|x: int|
                            0 <= x < n && (#[trigger] g0.nodes[x]).id == g0.nodes[j].id
                                && is_established(
                                min_access,
                                min_confidence,
                                session_filter,
                                g0.nodes[x],
                            );
                        if x < j {
                            assert(g0.nodes[x].id < g0.nodes[j].id);
                        } else if j < x {
                            assert(g0.nodes[j].id < g0.nodes[x].id);
                        }
                    }
                }
                assert(graph@.nodes =~= want.nodes);
            }
        }
    }

    /// Looks for runs of episodes of one session that follow one another in
    /// time, and notes each run of at least `group_size` episodes in one
    /// action; none is compressed.
    pub fn op_compress_episodes(
        &self,
        graph: &MemoryGraph,
        group_size: u32,
        session_filter: Option<(u32, u32)>,
        report: &mut ConsolidationReport,
    )
        ensures
            final(report)@ == episodes_report(graph@, group_size, session_filter, old(report)@),
    {
        let ghost g = graph@;
        let ghost start = report@;
        let nodes = graph.nodes();
        let mut found: Vec<Episode> = Vec::new();
        let mut i: usize = 0;
        assert(g.nodes.take(0) =~= Seq::<EventView>::empty());
        while i < nodes.len()
            invariant
                i <= nodes@.len(),
                g == graph@,
                event_views(nodes@) == g.nodes,
                found@ == episodes_of(session_filter, g.nodes.take(i as int)),
            decreases nodes@.len() - i,
        {
            assert(g.nodes.take(i + 1).drop_last() =~= g.nodes.take(i as int));
            assert(g.nodes.take(i + 1).last() == nodes@[i as int]@);
            let n = &nodes[i];
            if n.event_type == EventType::Episode && in_session_range(n.session_id, session_filter) {
                found.push(Episode { id: n.id, created_at: n.created_at, session_id: n.session_id });
            }
            i += 1;
        }
        assert(g.nodes.take(i as int) =~= g.nodes);
        let mut keys: Vec<u64> = Vec::new();
        let mut k: usize = 0;
        while k < found.len()
            invariant
                k <= found@.len(),
                keys@.len() == k,
                forall|j: int| 0 <= j < k ==> keys@[j] == found@[j].created_at,
            decreases found@.len() - k,
        {
            keys.push(found[k].created_at);
            k += 1;
        }
        assert(keys@ =~= episode_times(found@));
        let order = rank_by_key(&keys, false);
        let ghost eps = by_creation(found@);
        let n = found.len();
        if n == 0 {
            return;
        }
        let first = found[order[0]];
        let mut current: Vec<u64> = Vec::new();
        current.push(first.id);
        let mut session = first.session_id;
        let ghost mut closed: Seq<Seq<u64>> = Seq::empty();
        let mut m: usize = 1;
        proof {
            assert(current@ =~= seq![eps[0].id]);
            assert(runs(eps, 1) =~= closed.push(current@));
        }
        while m < n
            invariant
                1 <= m <= n,
                n == found@.len(),
                order@.len() == n,
                keys@.len() == n,
                is_ranking(keys@, false, order@),
                order@ == ranking(episode_times(found@), false),
                eps == by_creation(found@),
                session == eps[m - 1].session_id,
                runs(eps, m as int) == closed.push(current@),
                report@ == compressed_report(start, closed, group_size, closed.len() as int),
            decreases n - m,
        {
            let e = found[order[m]];
            assert(e == eps[m as int]);
            if e.session_id == session {
                let ghost before = current@;
                current.push(e.id);
                proof {
                    assert(closed.push(before).drop_last() =~= closed);
                    assert(closed.push(before).last() == before);
                }
            } else {
                let mut fresh: Vec<u64> = Vec::new();
                fresh.push(e.id);
                assert(fresh@ =~= seq![e.id]);
                let done = current;
                current = fresh;
                close_run(report, done, group_size, Ghost(closed), Ghost(start));
                proof {
                    closed = closed.push(done@);
                }
                session = e.session_id;
            }
            m += 1;
        }
        close_run(report, current, group_size, Ghost(closed), Ghost(start));
    }

    /// Examines the pairs in order and notes each pair of duplicates; unless
    /// this is a dry run, a Supersedes edge from the node that stays to the
    /// duplicate is offered to the graph, with the similarity as its weight
    /// and `now` as its time.
    pub fn op_deduplicate_facts(
        &self,
        graph: &mut MemoryGraph,
        pairs: &Vec<SimilarPair>,
        session_filter: Option<(u32, u32)>,
        dry_run: bool,
        now: u64,
        report: &mut ConsolidationReport,
    )
        requires
            old(graph).wf(),
        ensures
            final(graph).wf(),
            final(graph).terms() is Some <==> old(graph).terms() is Some,
            final(graph).lengths() is Some <==> old(graph).lengths() is Some,
            dry_run ==> final(graph)@ == old(graph)@,
            final(graph)@ == dedup_upto(
                DedupState { graph: old(graph)@, superseded: Set::empty(), report: old(report)@ },
                session_filter,
                dry_run,
                now,
                pairs@,
                pairs@.len() as int,
            ).graph,
            final(report)@ == dedup_upto(
                DedupState { graph: old(graph)@, superseded: Set::empty(), report: old(report)@ },
                session_filter,
                dry_run,
                now,
                pairs@,
                pairs@.len() as int,
            ).report,
    {
        broadcast use vstd::std_specs::hash::group_hash_axioms;

        let tokenizer = Tokenizer::new();
        let ghost start = DedupState {
            graph: graph@,
            superseded: Set::empty(),
            report: report@,
        };
        let mut superseded: HashSet<u64> = HashSet::new();
        let mut i: usize = 0;
        while i < pairs.len()
            invariant
                i <= pairs@.len(),
                tokenizer.wf(),
                graph.wf(),
                graph.terms() is Some <==> old(graph).terms() is Some,
                graph.lengths() is Some <==> old(graph).lengths() is Some,
                dry_run ==> graph@ == start.graph,
                graph@ == dedup_upto(start, session_filter, dry_run, now, pairs@, i as int).graph,
                superseded@ == dedup_upto(
                    start,
                    session_filter,
                    dry_run,
                    now,
                    pairs@,
                    i as int,
                ).superseded,
                report@ == dedup_upto(start, session_filter, dry_run, now, pairs@, i as int).report,
            decreases pairs@.len() - i,
        {
            let p = pairs[i];
            let ghost st = dedup_upto(start, session_filter, dry_run, now, pairs@, i as int);
            let mut hit: Option<(u64, u64)> = None;
            if p.first != p.second && !superseded.contains(&p.first) && !superseded.contains(
                &p.second,
            ) {
                match graph.get_node(p.first) {
                    None => {},
                    Some(a) => {
                        match graph.get_node(p.second) {
                            None => {},
                            Some(b) => {
                                if a.event_type == EventType::Fact && in_session_range(
                                    a.session_id,
                                    session_filter,
                                ) && b.event_type == EventType::Fact && in_session_range(
                                    b.session_id,
                                    session_filter,
                                ) && tokens_are_similar(
                                    &tokenizer,
                                    a.content.as_str(),
                                    b.content.as_str(),
                                ) {
                                    if a.confidence > b.confidence || (a.confidence
                                        == b.confidence && p.first <= p.second) {
                                        hit = Some((p.first, p.second));
                                    } else {
                                        hit = Some((p.second, p.first));
                                    }
                                }
                            },
                        }
                    },
                }
            }
            assert(hit is Some <==> is_duplicate(st, session_filter, p));
            match hit {
                None => {},
                Some((w, l)) => {
                    superseded.insert(l);
                    let mut affected: Vec<u64> = Vec::new();
                    affected.push(w);
                    affected.push(l);
                    assert(affected@ =~= seq![w, l]);
                    push_action(report, "deduplicate_facts", affected, p.similarity);
                    report.deduplicated = add_capped(report.deduplicated, 1);
                    if !dry_run {
                        let edge = Edge {
                            source_id: w,
                            target_id: l,
                            edge_type: EdgeType::Supersedes,
                            weight: p.similarity,
                            created_at: now,
                        };
                        let _ = graph.add_edge(edge);
                    }
                },
            }
            i += 1;
        }
    }

    /// Examines the pairs in order and notes each contradiction; unless this
    /// is a dry run, a Contradicts edge from the first node of the pair to
    /// the second is offered to the graph, with the similarity as its weight
    /// and `now` as its time.
    pub fn op_link_contradictions(
        &self,
        graph: &mut MemoryGraph,
        pairs: &Vec<SimilarPair>,
        session_filter: Option<(u32, u32)>,
        dry_run: bool,
        now: u64,
        report: &mut ConsolidationReport,
    )
        requires
            old(graph).wf(),
        ensures
            final(graph).wf(),
            final(graph).terms() is Some <==> old(graph).terms() is Some,
            final(graph).lengths() is Some <==> old(graph).lengths() is Some,
            dry_run ==> final(graph)@ == old(graph)@,
            final(graph)@ == link_upto(
                LinkState { graph: old(graph)@, noted: Seq::empty(), report: old(report)@ },
                session_filter,
                dry_run,
                now,
                pairs@,
                pairs@.len() as int,
            ).graph,
            final(report)@ == link_upto(
                LinkState { graph: old(graph)@, noted: Seq::empty(), report: old(report)@ },
                session_filter,
                dry_run,
                now,
                pairs@,
                pairs@.len() as int,
            ).report,
    {
        let negations = consolidation_negations();
        let ghost start = LinkState { graph: graph@, noted: Seq::empty(), report: report@ };
        let mut noted: Vec<(u64, u64)> = Vec::new();
        let mut i: usize = 0;
        while i < pairs.len()
            invariant
                i <= pairs@.len(),
                slice_texts(negations@) == negation_tokens(),
                graph.wf(),
                graph.terms() is Some <==> old(graph).terms() is Some,
                graph.lengths() is Some <==> old(graph).lengths() is Some,
                dry_run ==> graph@ == start.graph,
                graph@ == link_upto(start, session_filter, dry_run, now, pairs@, i as int).graph,
                noted@ == link_upto(start, session_filter, dry_run, now, pairs@, i as int).noted,
                report@ == link_upto(start, session_filter, dry_run, now, pairs@, i as int).report,
            decreases pairs@.len() - i,
        {
            let p = pairs[i];
            let ghost st = link_upto(start, session_filter, dry_run, now, pairs@, i as int);
            let key = ordered_pair(p.first, p.second);
            let mut hit = false;
            if p.first != p.second && !graph.has_edge(p.first, p.second, EdgeType::Contradicts)
                && !graph.has_edge(p.second, p.first, EdgeType::Contradicts) && !is_noted(
                &noted,
                key,
            ) {
                match graph.get_node(p.first) {
                    None => {},
                    Some(a) => {
                        match graph.get_node(p.second) {
                            None => {},
                            Some(b) => {
                                if (a.event_type == EventType::Fact || a.event_type
                                    == EventType::Inference) && in_session_range(
                                    a.session_id,
                                    session_filter,
                                ) && (b.event_type == EventType::Fact || b.event_type
                                    == EventType::Inference) && in_session_range(
                                    b.session_id,
                                    session_filter,
                                ) {
                                    let na = has_word_of(&negations, a.content.as_str());
                                    let nb = has_word_of(&negations, b.content.as_str());
                                    hit = na != nb;
                                }
                            },
                        }
                    },
                }
            }
            assert(hit <==> is_contradiction(st, session_filter, p));
            if hit {
                noted.push(key);
                let mut affected: Vec<u64> = Vec::new();
                affected.push(p.first);
                affected.push(p.second);
                assert(affected@ =~= seq![p.first, p.second]);
                push_action(report, "link_contradictions", affected, p.similarity);
                report.contradictions_linked = add_capped(report.contradictions_linked, 1);
                if !dry_run {
                    let edge = Edge {
                        source_id: p.first,
                        target_id: p.second,
                        edge_type: EdgeType::Contradicts,
                        weight: p.similarity,
                        created_at: now,
                    };
                    let _ = graph.add_edge(edge);
                }
            }
            i += 1;
        }
    }

    /// Runs the operations in order on the graph. In a dry run the graph
    /// stays as it is and the report tells what would be done.
    pub fn consolidate(&self, graph: &mut MemoryGraph, params: ConsolidationParams) -> (r: Result<
        ConsolidationReport,
        AmemError,
    >)
        requires
            old(graph).wf(),
        ensures
            final(graph).wf(),
            final(graph).terms() is Some <==> old(graph).terms() is Some,
            final(graph).lengths() is Some <==> old(graph).lengths() is Some,
            r is Ok,
            params.dry_run ==> final(graph)@ == old(graph)@,
            final(graph)@ == apply_ops(
                Consolidated { graph: old(graph)@, report: empty_report(params.backup_path) },
                params.session_range,
                params.dry_run,
                params.now,
                params.operations@,
                params.operations@.len() as int,
            ).graph,
            r->Ok_0@ == apply_ops(
                Consolidated { graph: old(graph)@, report: empty_report(params.backup_path) },
                params.session_range,
                params.dry_run,
                params.now,
                params.operations@,
                params.operations@.len() as int,
            ).report,
    {
        let ghost start = Consolidated {
            graph: graph@,
            report: empty_report(params.backup_path),
        };
        let ConsolidationParams { session_range, operations, dry_run, backup_path, now } = params;
        let mut report = ConsolidationReport {
            actions: Vec::new(),
            deduplicated: 0,
            pruned: 0,
            contradictions_linked: 0,
            episodes_compressed: 0,
            inferences_promoted: 0,
            backup_path,
        };
        assert(report@.actions =~= Seq::<ActionView>::empty());
        let mut i: usize = 0;
        while i < operations.len()
            invariant
                i <= operations@.len(),
                graph.wf(),
                graph.terms() is Some <==> old(graph).terms() is Some,
                graph.lengths() is Some <==> old(graph).lengths() is Some,
                dry_run ==> graph@ == start.graph,
                graph@ == apply_ops(start, session_range, dry_run, now, operations@, i as int).graph,
                report@ == apply_ops(
                    start,
                    session_range,
                    dry_run,
                    now,
                    operations@,
                    i as int,
                ).report,
            decreases operations@.len() - i,
        {
            match &operations[i] {
                ConsolidationOp::DeduplicateFacts { candidates } => {
                    self.op_deduplicate_facts(
                        graph,
                        candidates,
                        session_range,
                        dry_run,
                        now,
                        &mut report,
                    );
                },
                ConsolidationOp::PruneOrphans { max_decay } => {
                    self.op_prune_orphans(graph, *max_decay, session_range, &mut report);
                },
                ConsolidationOp::LinkContradictions { candidates } => {
                    self.op_link_contradictions(
                        graph,
                        candidates,
                        session_range,
                        dry_run,
                        now,
                        &mut report,
                    );
                },
                ConsolidationOp::CompressEpisodes { group_size } => {
                    self.op_compress_episodes(graph, *group_size, session_range, &mut report);
                },
                ConsolidationOp::PromoteInferences { min_access, min_confidence } => {
                    self.op_promote_inferences(
                        graph,
                        *min_access,
                        *min_confidence,
                        session_range,
                        dry_run,
                        &mut report,
                    );
                },
            }
            i += 1;
        }
        Ok(report)
    }
}

} // verus!
