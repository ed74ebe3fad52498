//! How beliefs on a topic changed over time: the nodes that matter for the
//! topic fall into groups that Supersedes edges among them join; each group
//! is lined up in order of time, and each change is classified.

use vstd::prelude::*;
use std::collections::{HashMap, HashSet};
use crate::engine::analogical::{of_edges, reach_over};
use crate::engine::graph_algo::reachable;
use crate::engine::query::QueryEngine;
use crate::graph::traversal::{arc, joins, walk_between, TraversalDirection};
use crate::graph::{GraphView, MemoryGraph};
use crate::rank::{is_ranking, rank_by_key, ranking};
use crate::text::{chars_of, string_from_chars};
use crate::types::{CognitiveEvent, Edge, EdgeType, EventType, EventView};

verus! {

/// How a belief differs from the one before it on its timeline.
#[derive(Clone, Copy, Debug, PartialEq, Eq, Structural)]
pub enum ChangeType {
    /// The first belief of a timeline.
    Initial,
    /// At least as confident as the one before, with no edge between them.
    Refined,
    /// A Correction, or joined to the one before by a Supersedes edge, or
    /// less confident with no edge between them.
    Corrected,
    /// Joined to the one before by a Contradicts edge.
    Contradicted,
    /// Joined to the one before by a Supports edge.
    Reinforced,
}

/// A belief at one point of its timeline.
#[derive(Clone, Copy, Debug, PartialEq, Eq, Structural)]
pub struct BeliefSnapshot {
    pub node_id: u64,
    pub session_id: u32,
    pub created_at: u64,
    /// Score as a bit pattern.
    pub confidence: u32,
    pub change_type: ChangeType,
}

/// The beliefs of one group of relevant nodes in order of time.
pub struct BeliefTimeline {
    pub snapshots: Vec<BeliefSnapshot>,
    /// The number of snapshots after the first.
    pub change_count: usize,
    /// The number of snapshots classified as Corrected.
    pub correction_count: usize,
    /// The number of snapshots classified as Contradicted.
    pub contradiction_count: usize,
}

/// The mathematical value of a timeline.
pub struct TimelineView {
    pub snapshots: Seq<BeliefSnapshot>,
    pub change_count: usize,
    pub correction_count: usize,
    pub contradiction_count: usize,
}

impl View for BeliefTimeline {
    type V = TimelineView;

    open spec fn view(&self) -> TimelineView {
        TimelineView {
            snapshots: self.snapshots@,
            change_count: self.change_count,
            correction_count: self.correction_count,
            contradiction_count: self.contradiction_count,
        }
    }
}

/// The report of drift detection.
pub struct DriftReport {
    /// The timelines with the most changes, most changes first.
    pub timelines: Vec<BeliefTimeline>,
    /// The snapshots of the reported timelines, counted.
    pub total_snapshots: u128,
    /// The changes of the reported timelines, counted.
    pub total_changes: u128,
    /// The corrections and contradictions of the reported timelines, counted.
    pub total_upsets: u128,
    /// Whether more than three in ten of the changes were corrections or
    /// contradictions.
    pub likely_to_change: bool,
}

/// The views of a sequence of timelines.
pub open spec fn timeline_views(s: Seq<BeliefTimeline>) -> Seq<TimelineView> {
    Seq::new(s.len(), |i: int| s[i]@)
}

/// Whether an edge ties two relevant nodes: it is a Supersedes edge and
/// both its ends are relevant.
pub open spec fn ties(e: Edge, relevant: Set<u64>) -> bool {
    e.edge_type == EdgeType::Supersedes && relevant.contains(e.source_id) && relevant.contains(
        e.target_id,
    )
}

/// The Supersedes edges among the relevant nodes, in the order of the
/// graph.
pub open spec fn tied(edges: Seq<Edge>, relevant: Set<u64>) -> Seq<Edge>
    decreases edges.len(),
{
    if edges.len() == 0 {
        Seq::empty()
    } else if ties(edges.last(), relevant) {
        tied(edges.drop_last(), relevant).push(edges.last())
    } else {
        tied(edges.drop_last(), relevant)
    }
}

/// Whether two nodes belong together: Supersedes edges among the relevant
/// nodes lead from one to the other, in whatever direction each edge
/// points. Every node belongs together with itself.
pub open spec fn together(g: GraphView, relevant: Seq<u64>, a: u64, b: u64) -> bool {
    reachable(
        of_edges(tied(g.edges, relevant.to_set())),
        Seq::<EdgeType>::empty(),
        TraversalDirection::Both,
        a,
        b,
    )
}

/// The members of the group of `root` among the first `n` relevant nodes:
/// those that belong together with `root`, each once, in the order in
/// which they are given.
pub open spec fn members(g: GraphView, relevant: Seq<u64>, root: u64, n: int) -> Seq<u64>
    decreases n,
{
    if n <= 0 {
        Seq::empty()
    } else {
        let prev = members(g, relevant, root, n - 1);
        let v = relevant[n - 1];
        if together(g, relevant, root, v) && !prev.contains(v) {
            prev.push(v)
        } else {
            prev
        }
    }
}

/// Belonging together goes both ways.
pub proof fn lemma_together_back(g: GraphView, relevant: Seq<u64>, a: u64, b: u64)
    requires
        together(g, relevant, a, b),
    ensures
        together(g, relevant, b, a),
{
    let sub = of_edges(tied(g.edges, relevant.to_set()));
    let any = Seq::<EdgeType>::empty();
    let dir = TraversalDirection::Both;
    let p = choose|p: Seq<u64>| walk_between(sub, any, dir, p, a, b);
    let q = Seq::new(p.len(), |i: int| p[p.len() - 1 - i]);
    assert forall|i: int| 0 <= i < q.len() - 1 implies arc(sub, any, dir, #[trigger] q[i], q[i + 1]) by {
        let j = p.len() - 2 - i;
        assert(arc(sub, any, dir, p[j], p[j + 1]));
        let k = choose|k: int|
            0 <= k < sub.edges.len() && joins(#[trigger] sub.edges[k], any, dir, p[j], p[j + 1]);
        assert(joins(sub.edges[k], any, dir, p[j + 1], p[j]));
    }
    assert(walk_between(sub, any, dir, q, b, a));
}

/// What belongs together with a node that belongs together with another
/// belongs together with that one.
pub proof fn lemma_together_on(g: GraphView, relevant: Seq<u64>, a: u64, b: u64, c: u64)
    requires
        together(g, relevant, a, b),
        together(g, relevant, b, c),
    ensures
        together(g, relevant, a, c),
{
    let sub = of_edges(tied(g.edges, relevant.to_set()));
    let any = Seq::<EdgeType>::empty();
    let dir = TraversalDirection::Both;
    let p = choose|p: Seq<u64>| walk_between(sub, any, dir, p, a, b);
    let q = choose|q: Seq<u64>| walk_between(sub, any, dir, q, b, c);
    let w = p + q.skip(1);
    assert forall|i: int| 0 <= i < w.len() - 1 implies arc(sub, any, dir, #[trigger] w[i], w[i + 1]) by {
        if i < p.len() - 1 {
            assert(arc(sub, any, dir, p[i], p[i + 1]));
        } else {
            let j = i - (p.len() - 1);
            assert(w[i] == q[j]);
            assert(w[i + 1] == q[j + 1]);
            assert(arc(sub, any, dir, q[j], q[j + 1]));
        }
    }
    if q.len() == 1 {
        assert(w =~= p);
    } else {
        assert(w.last() == q.last());
    }
    assert(walk_between(sub, any, dir, w, a, c));
}

/// The members of a group are the relevant nodes that belong together with
/// its root, each once.
pub proof fn lemma_members(g: GraphView, relevant: Seq<u64>, root: u64, n: int)
    requires
        0 <= n <= relevant.len(),
    ensures
        members(g, relevant, root, n).no_duplicates(),
        forall|v: u64| #[trigger]
            members(g, relevant, root, n).contains(v) <==> relevant.take(n).contains(v) && together(
                g,
                relevant,
                root,
                v,
            ),
    decreases n,
{
    let out = members(g, relevant, root, n);
    if n > 0 {
        lemma_members(g, relevant, root, n - 1);
        let prev = members(g, relevant, root, n - 1);
        let x = relevant[n - 1];
        let first = relevant.take(n - 1);
        let all = relevant.take(n);
        assert(all.drop_last() =~= first);
        assert forall|v: u64| #[trigger] out.contains(v) <==> relevant.take(n).contains(v) && together(
            g,
            relevant,
            root,
            v,
        ) by {
            if out.contains(v) {
                let i = choose|i: int| 0 <= i < out.len() && out[i] == v;
                if i < prev.len() {
                    assert(prev[i] == v);
                    assert(prev.contains(v));
                    let j = choose|j: int| 0 <= j < first.len() && first[j] == v;
                    assert(all[j] == v);
                } else {
                    assert(v == x);
                    assert(all[n - 1] == v);
                }
            }
            if relevant.take(n).contains(v) && together(g, relevant, root, v) {
                let j = choose|j: int| 0 <= j < all.len() && all[j] == v;
                if j < n - 1 {
                    assert(first[j] == v);
                    assert(first.contains(v));
                    assert(prev.contains(v));
                    let i = choose|i: int| 0 <= i < prev.len() && prev[i] == v;
                    assert(out[i] == v);
                } else if prev.contains(v) {
                    let i = choose|i: int| 0 <= i < prev.len() && prev[i] == v;
                    assert(out[i] == v);
                } else {
                    assert(out[prev.len() as int] == v);
                }
            }
        }
    }
}

/// Groups do not overlap: the groups of two roots that do not belong
/// together have no member in common.
pub proof fn lemma_groups_apart(g: GraphView, relevant: Seq<u64>, a: u64, b: u64, v: u64)
    requires
        !together(g, relevant, a, b),
    ensures
        !(members(g, relevant, a, relevant.len() as int).contains(v) && members(
            g,
            relevant,
            b,
            relevant.len() as int,
        ).contains(v)),
{
    lemma_members(g, relevant, a, relevant.len() as int);
    lemma_members(g, relevant, b, relevant.len() as int);
    if together(g, relevant, a, v) && together(g, relevant, b, v) {
        lemma_together_back(g, relevant, b, v);
        lemma_together_on(g, relevant, a, v, b);
    }
}

/// The time of a node, zero if it is not live.
pub open spec fn time_of(g: GraphView, id: u64) -> u64 {
    if g.has_node(id) {
        g.node(id).created_at
    } else {
        0
    }
}

/// The times of a sequence of nodes.
pub open spec fn times_of(g: GraphView, ids: Seq<u64>) -> Seq<u64> {
    Seq::new(ids.len(), |i: int| time_of(g, ids[i]))
}

/// The nodes of a group in order of time; nodes of equal time keep their
/// order.
pub open spec fn by_time(g: GraphView, chain: Seq<u64>) -> Seq<u64> {
    Seq::new(chain.len(), |i: int| chain[ranking(times_of(g, chain), false)[i] as int])
}

/// Whether an edge of type `t` joins the two nodes in one direction or the
/// other.
pub open spec fn linked(g: GraphView, a: u64, b: u64, t: EdgeType) -> bool {
    g.has_arc(a, b, t) || g.has_arc(b, a, t)
}

/// How the node `cur` differs from the node `prev` before it.
pub open spec fn change_of(g: GraphView, prev: u64, cur: EventView) -> ChangeType {
    if linked(g, cur.id, prev, EdgeType::Contradicts) {
        ChangeType::Contradicted
    } else if cur.event_type == EventType::Correction || g.has_arc(
        cur.id,
        prev,
        EdgeType::Supersedes,
    ) {
        ChangeType::Corrected
    } else if linked(g, cur.id, prev, EdgeType::Supports) {
        ChangeType::Reinforced
    } else if cur.confidence >= (if g.has_node(prev) {
        g.node(prev).confidence
    } else {
        0u32
    }) {
        ChangeType::Refined
    } else {
        ChangeType::Corrected
    }
}

/// The snapshot of the `i`-th node of a group that is in order of time.
pub open spec fn snapshot_at(g: GraphView, chain: Seq<u64>, i: int) -> BeliefSnapshot {
    let node = g.node(chain[i]);
    BeliefSnapshot {
        node_id: node.id,
        session_id: node.session_id,
        created_at: node.created_at,
        confidence: node.confidence,
        change_type: if i == 0 {
            ChangeType::Initial
        } else {
            change_of(g, chain[i - 1], node)
        },
    }
}

/// The snapshots of the live nodes among the first `n` of a group.
pub open spec fn snapshots_of(g: GraphView, chain: Seq<u64>, n: int) -> Seq<BeliefSnapshot>
    decreases n,
{
    if n <= 0 {
        Seq::empty()
    } else if g.has_node(chain[n - 1]) {
        snapshots_of(g, chain, n - 1).push(snapshot_at(g, chain, n - 1))
    } else {
        snapshots_of(g, chain, n - 1)
    }
}

/// The number of snapshots with the given classification.
pub open spec fn count_changes(s: Seq<BeliefSnapshot>, c: ChangeType) -> nat
    decreases s.len(),
{
    if s.len() == 0 {
        0
    } else {
        count_changes(s.drop_last(), c) + if s.last().change_type == c { 1nat } else { 0nat }
    }
}

/// The timeline of a group that is in order of time.
pub open spec fn timeline_of(g: GraphView, chain: Seq<u64>) -> TimelineView {
    let shots = snapshots_of(g, chain, chain.len() as int);
    TimelineView {
        snapshots: shots,
        change_count: if shots.len() == 0 { 0usize } else { (shots.len() - 1) as usize },
        correction_count: count_changes(shots, ChangeType::Corrected) as usize,
        contradiction_count: count_changes(shots, ChangeType::Contradicted) as usize,
    }
}

/// Whether a timeline counts no more corrections and contradictions than it
/// has snapshots.
pub open spec fn timeline_wf(t: TimelineView) -> bool {
    t.correction_count + t.contradiction_count <= t.snapshots.len()
}

/// Timelines together with the nodes that they have taken up.
pub struct Gathered {
    pub timelines: Seq<TimelineView>,
    pub assigned: Set<u64>,
}

/// The timelines of the groups of the first `n` relevant nodes, in the
/// order in which their first members are given: a live node that no group
/// has taken up yet opens the group of all the relevant nodes that belong
/// together with it.
pub open spec fn groups_upto(g: GraphView, relevant: Seq<u64>, n: int) -> Gathered
    decreases n,
{
    if n <= 0 {
        Gathered { timelines: Seq::empty(), assigned: Set::empty() }
    } else {
        let prev = groups_upto(g, relevant, n - 1);
        let root = relevant[n - 1];
        if prev.assigned.contains(root) || !g.has_node(root) {
            prev
        } else {
            let group = members(g, relevant, root, relevant.len() as int);
            Gathered {
                timelines: prev.timelines.push(timeline_of(g, by_time(g, group))),
                assigned: prev.assigned.union(group.to_set()),
            }
        }
    }
}

/// The groups take up every relevant node that is live, and only relevant
/// nodes.
pub proof fn lemma_groups_cover(g: GraphView, relevant: Seq<u64>, n: int)
    requires
        0 <= n <= relevant.len(),
    ensures
        forall|i: int|
            0 <= i < n && g.has_node(#[trigger] relevant[i]) ==> groups_upto(
                g,
                relevant,
                n,
            ).assigned.contains(relevant[i]),
        forall|v: u64| #[trigger]
            groups_upto(g, relevant, n).assigned.contains(v) ==> relevant.contains(v),
    decreases n,
{
    if n > 0 {
        lemma_groups_cover(g, relevant, n - 1);
        let prev = groups_upto(g, relevant, n - 1);
        let root = relevant[n - 1];
        let group = members(g, relevant, root, relevant.len() as int);
        lemma_members(g, relevant, root, relevant.len() as int);
        assert(relevant.take(relevant.len() as int) =~= relevant);
        if !prev.assigned.contains(root) && g.has_node(root) {
            let sub = of_edges(tied(g.edges, relevant.to_set()));
            let alone = seq![root];
            assert(walk_between(
                sub,
                Seq::<EdgeType>::empty(),
                TraversalDirection::Both,
                alone,
                root,
                root,
            ));
            assert(together(g, relevant, root, root));
            assert(relevant[n - 1] == root);
            assert(relevant.contains(root));
            assert(group.contains(root));
        }
    }
}

/// All timelines of the relevant nodes: one for each group.
pub open spec fn all_timelines(g: GraphView, relevant: Seq<u64>) -> Seq<TimelineView> {
    groups_upto(g, relevant, relevant.len() as int).timelines
}

/// The numbers of changes of a sequence of timelines.
pub open spec fn change_counts(s: Seq<TimelineView>) -> Seq<u64> {
    Seq::new(s.len(), |i: int| s[i].change_count as u64)
}

/// The timelines to report: the `max_results` with the most changes, most
/// changes first, equal numbers in the order found.
pub open spec fn reported(all: Seq<TimelineView>, max_results: usize) -> Seq<TimelineView> {
    Seq::new(
        if max_results < all.len() { max_results as nat } else { all.len() },
        |i: int| all[ranking(change_counts(all), true)[i] as int],
    )
}

/// The sum of the numbers of snapshots.
pub open spec fn sum_snapshots(s: Seq<TimelineView>) -> nat
    decreases s.len(),
{
    if s.len() == 0 {
        0
    } else {
        sum_snapshots(s.drop_last()) + s.last().snapshots.len()
    }
}

/// The sum of the numbers of changes.
pub open spec fn sum_changes(s: Seq<TimelineView>) -> nat
    decreases s.len(),
{
    if s.len() == 0 {
        0
    } else {
        sum_changes(s.drop_last()) + s.last().change_count as nat
    }
}

/// The sum of the numbers of corrections and contradictions.
pub open spec fn sum_upsets(s: Seq<TimelineView>) -> nat
    decreases s.len(),
{
    if s.len() == 0 {
        0
    } else {
        sum_upsets(s.drop_last()) + s.last().correction_count as nat
            + s.last().contradiction_count as nat
    }
}

/// What drift detection reports for the relevant nodes.
pub open spec fn is_drift_report(
    g: GraphView,
    relevant: Seq<u64>,
    max_results: usize,
    r: DriftReport,
) -> bool {
    let shown = reported(all_timelines(g, relevant), max_results);
    &&& timeline_views(r.timelines@) == shown
    &&& r.total_snapshots == sum_snapshots(shown)
    &&& r.total_changes == sum_changes(shown)
    &&& r.total_upsets == sum_upsets(shown)
    &&& r.likely_to_change == (10 * sum_upsets(shown) > 3 * sum_changes(shown))
}

/// The members of a list as a set.
fn to_hash_set(list: &Vec<u64>) -> (r: HashSet<u64>)
    ensures
        r@ == list@.to_set(),
{
    broadcast use vstd::std_specs::hash::group_hash_axioms;
    broadcast use vstd::set::group_set_axioms;

    let mut set: HashSet<u64> = HashSet::new();
    let mut i: usize = 0;
    while i < list.len()
        invariant
            i <= list@.len(),
            set@ == list@.take(i as int).to_set(),
        decreases list@.len() - i,
    {
        let ghost before = list@.take(i as int);
        set.insert(list[i]);
        proof {
            let after = list@.take(i + 1);
            assert(after =~= before.push(list@[i as int]));
            assert(after.to_set() =~= before.to_set().insert(list@[i as int])) by {
                assert forall|x: u64| after.to_set().contains(x) <==> before.to_set().insert(
                    list@[i as int],
                ).contains(x) by {
                    if after.contains(x) {
                        let k = choose|k: int| 0 <= k < after.len() && after[k] == x;
                        if k < before.len() {
                            assert(before[k] == x);
                            assert(before.contains(x));
                        }
                    }
                    if before.contains(x) {
                        let k = choose|k: int| 0 <= k < before.len() && before[k] == x;
                        assert(after[k] == x);
                    }
                    if x == list@[i as int] {
                        assert(after[before.len() as int] == x);
                    }
                }
            }
        }
        i += 1;
    }
    assert(list@.take(i as int) =~= list@);
    set
}

/// The Supersedes edges among the relevant nodes.
fn ties_among(graph: &MemoryGraph, relevant: &HashSet<u64>) -> (r: Vec<Edge>)
    ensures
        r@ == tied(graph@.edges, relevant@),
{
    broadcast use vstd::std_specs::hash::group_hash_axioms;

    let edges = graph.edges();
    let mut out: Vec<Edge> = Vec::new();
    let mut k: usize = 0;
    assert(edges@.take(0) =~= Seq::<Edge>::empty());
    while k < edges.len()
        invariant
            k <= edges@.len(),
            edges@ == graph@.edges,
            out@ == tied(edges@.take(k as int), relevant@),
        decreases edges@.len() - k,
    {
        assert(edges@.take(k + 1).drop_last() =~= edges@.take(k as int));
        assert(edges@.take(k + 1).last() == edges@[k as int]);
        let e = edges[k];
        if e.edge_type == EdgeType::Supersedes && relevant.contains(&e.source_id)
            && relevant.contains(&e.target_id) {
            out.push(e);
        }
        k += 1;
    }
    assert(edges@.take(k as int) =~= edges@);
    out
}

/// Whether `id` is in the list.
fn is_listed(list: &Vec<u64>, id: u64) -> (r: bool)
    ensures
        r == list@.contains(id),
{
    let mut i: usize = 0;
    while i < list.len()
        invariant
            i <= list@.len(),
            forall|j: int| 0 <= j < i ==> list@[j] != id,
        decreases list@.len() - i,
    {
        if list[i] == id {
            return true;
        }
        i += 1;
    }
    false
}

/// The members of the group of `root`, given the nodes that belong together
/// with it.
fn group_of(
    relevant: &Vec<u64>,
    reached: &HashMap<u64, (u64, u64)>,
    Ghost(g): Ghost<GraphView>,
    Ghost(root): Ghost<u64>,
) -> (r: Vec<u64>)
    requires
        forall|v: u64| reached@.contains_key(v) <==> together(g, relevant@, root, v),
    ensures
        r@ == members(g, relevant@, root, relevant@.len() as int),
{
    broadcast use vstd::std_specs::hash::group_hash_axioms;

    let mut out: Vec<u64> = Vec::new();
    let mut n: usize = 0;
    while n < relevant.len()
        invariant
            n <= relevant@.len(),
            forall|v: u64| reached@.contains_key(v) <==> together(g, relevant@, root, v),
            out@ == members(g, relevant@, root, n as int),
        decreases relevant@.len() - n,
    {
        let v = relevant[n];
        if reached.contains_key(&v) && !is_listed(&out, v) {
            out.push(v);
        }
        n += 1;
    }
    out
}

/// The time of a node, zero if it is not live.
fn node_time(graph: &MemoryGraph, id: u64) -> (r: u64)
    requires
        graph.wf(),
    ensures
        r == time_of(graph@, id),
{
    match graph.get_node(id) {
        Some(node) => node.created_at,
        None => 0,
    }
}

/// The nodes of a group in order of time.
fn in_time_order(graph: &MemoryGraph, chain: &Vec<u64>) -> (r: Vec<u64>)
    requires
        graph.wf(),
    ensures
        r@ == by_time(graph@, chain@),
{
    let mut keys: Vec<u64> = Vec::new();
    let mut i: usize = 0;
    while i < chain.len()
        invariant
            i <= chain@.len(),
            graph.wf(),
            keys@.len() == i,
            forall|j: int| 0 <= j < i ==> keys@[j] == time_of(graph@, chain@[j]),
        decreases chain@.len() - i,
    {
        keys.push(node_time(graph, chain[i]));
        i += 1;
    }
    assert(keys@ =~= times_of(graph@, chain@));
    let order = rank_by_key(&keys, false);
    let mut out: Vec<u64> = Vec::new();
    let mut k: usize = 0;
    while k < order.len()
        invariant
            k <= order@.len(),
            order@.len() == chain@.len(),
            is_ranking(keys@, false, order@),
            keys@.len() == chain@.len(),
            out@.len() == k,
            forall|j: int| 0 <= j < k ==> out@[j] == chain@[order@[j] as int],
        decreases order@.len() - k,
    {
        let at = order[k];
        out.push(chain[at]);
        k += 1;
    }
    assert(out@ =~= by_time(graph@, chain@));
    out
}

/// Decides `linked`.
fn are_linked(graph: &MemoryGraph, a: u64, b: u64, t: EdgeType) -> (r: bool)
    ensures
        r == linked(graph@, a, b, t),
{
    graph.has_edge(a, b, t) || graph.has_edge(b, a, t)
}

/// How `cur` differs from the node `prev` before it.
fn classify(graph: &MemoryGraph, prev: u64, cur: &CognitiveEvent) -> (r: ChangeType)
    requires
        graph.wf(),
    ensures
        r == change_of(graph@, prev, cur@),
{
    if are_linked(graph, cur.id, prev, EdgeType::Contradicts) {
        ChangeType::Contradicted
    } else if cur.event_type == EventType::Correction || graph.has_edge(
        cur.id,
        prev,
        EdgeType::Supersedes,
    ) {
        ChangeType::Corrected
    } else if are_linked(graph, cur.id, prev, EdgeType::Supports) {
        ChangeType::Reinforced
    } else {
        let before: u32 = match graph.get_node(prev) {
            Some(p) => p.confidence,
            None => 0,
        };
        if cur.confidence >= before {
            ChangeType::Refined
        } else {
            ChangeType::Corrected
        }
    }
}

/// The timeline of a group that is in order of time.
fn make_timeline(graph: &MemoryGraph, chain: &Vec<u64>) -> (r: BeliefTimeline)
    requires
        graph.wf(),
    ensures
        r@ == timeline_of(graph@, chain@),
        timeline_wf(r@),
{
    let ghost g = graph@;
    let mut shots: Vec<BeliefSnapshot> = Vec::new();
    let mut corrections: usize = 0;
    let mut contradictions: usize = 0;
    let mut i: usize = 0;
    assert(shots@.take(0) =~= Seq::<BeliefSnapshot>::empty());
    while i < chain.len()
        invariant
            i <= chain@.len(),
            g == graph@,
            graph.wf(),
            shots@ == snapshots_of(g, chain@, i as int),
            shots@.len() <= i,
            corrections + contradictions <= shots@.len(),
            corrections == count_changes(shots@, ChangeType::Corrected),
            contradictions == count_changes(shots@, ChangeType::Contradicted),
        decreases chain@.len() - i,
    {
        match graph.get_node(chain[i]) {
            None => {},
            Some(node) => {
                let change = if i == 0 {
                    ChangeType::Initial
                } else {
                    classify(graph, chain[i - 1], node)
                };
                let ghost before = shots@;
                shots.push(
                    BeliefSnapshot {
                        node_id: node.id,
                        session_id: node.session_id,
                        created_at: node.created_at,
                        confidence: node.confidence,
                        change_type: change,
                    },
                );
                assert(shots@.drop_last() =~= before);
                if change == ChangeType::Corrected {
                    corrections += 1;
                }
                if change == ChangeType::Contradicted {
                    contradictions += 1;
                }
            },
        }
        i += 1;
    }
    let changes = if shots.len() == 0 { 0 } else { shots.len() - 1 };
    BeliefTimeline {
        snapshots: shots,
        change_count: changes,
        correction_count: corrections,
        contradiction_count: contradictions,
    }
}

/// A copy of a timeline.
fn copy_timeline(t: &BeliefTimeline) -> (r: BeliefTimeline)
    ensures
        r@ == t@,
{
    let mut shots: Vec<BeliefSnapshot> = Vec::new();
    let mut i: usize = 0;
    while i < t.snapshots.len()
        invariant
            i <= t.snapshots@.len(),
            shots@ == t.snapshots@.take(i as int),
        decreases t.snapshots@.len() - i,
    {
        shots.push(t.snapshots[i]);
        assert(t.snapshots@.take(i + 1) =~= t.snapshots@.take(i as int).push(
            t.snapshots@[i as int],
        ));
        i += 1;
    }
    assert(t.snapshots@.take(i as int) =~= t.snapshots@);
    BeliefTimeline {
        snapshots: shots,
        change_count: t.change_count,
        correction_count: t.correction_count,
        contradiction_count: t.contradiction_count,
    }
}

/// Marks every node of a list.
fn mark_all(set: &mut HashSet<u64>, list: &Vec<u64>)
    ensures
        final(set)@ == old(set)@.union(list@.to_set()),
{
    broadcast use vstd::std_specs::hash::group_hash_axioms;
    broadcast use vstd::set::group_set_axioms;

    let ghost start = set@;
    let mut i: usize = 0;
    assert(list@.take(0).to_set() =~= Set::<u64>::empty());
    assert(set@ =~= start.union(list@.take(0).to_set()));
    while i < list.len()
        invariant
            i <= list@.len(),
            set@ == start.union(list@.take(i as int).to_set()),
        decreases list@.len() - i,
    {
        let ghost before = list@.take(i as int);
        set.insert(list[i]);
        proof {
            let after = list@.take(i + 1);
            assert(after =~= before.push(list@[i as int]));
            assert forall|x: u64| after.to_set().contains(x) <==> before.to_set().contains(x) || x
                == list@[i as int] by {
                if after.contains(x) {
                    let k = choose|k: int| 0 <= k < after.len() && after[k] == x;
                    if k < before.len() {
                        assert(before[k] == x);
                        assert(before.contains(x));
                    }
                }
                if before.contains(x) {
                    let k = choose|k: int| 0 <= k < before.len() && before[k] == x;
                    assert(after[k] == x);
                }
                if x == list@[i as int] {
                    assert(after[before.len() as int] == x);
                }
            }
            assert(set@ =~= start.union(after.to_set()));
        }
        i += 1;
    }
    assert(list@.take(i as int) =~= list@);
}

/// All timelines of the relevant nodes: one for each group.
fn gather(graph: &MemoryGraph, relevant: &Vec<u64>) -> (lines: Vec<BeliefTimeline>)
    requires
        graph.wf(),
    ensures
        timeline_views(lines@) == all_timelines(graph@, relevant@),
        forall|i: int| 0 <= i < lines@.len() ==> timeline_wf(#[trigger] lines@[i]@),
{
    broadcast use vstd::std_specs::hash::group_hash_axioms;
    broadcast use vstd::set::group_set_axioms;

    let ghost g = graph@;
    let wanted = to_hash_set(relevant);
    let among = ties_among(graph, &wanted);
    let any: Vec<EdgeType> = Vec::new();
    let mut assigned: HashSet<u64> = HashSet::new();
    let mut lines: Vec<BeliefTimeline> = Vec::new();
    let mut n: usize = 0;
    assert(timeline_views(lines@) =~= Seq::<TimelineView>::empty());
    while n < relevant.len()
        invariant
            n <= relevant@.len(),
            g == graph@,
            graph.wf(),
            among@ == tied(g.edges, relevant@.to_set()),
            any@ == Seq::<EdgeType>::empty(),
            timeline_views(lines@) == groups_upto(g, relevant@, n as int).timelines,
            assigned@ == groups_upto(g, relevant@, n as int).assigned,
            forall|i: int| 0 <= i < lines@.len() ==> timeline_wf(#[trigger] lines@[i]@),
        decreases relevant@.len() - n,
    {
        let root = relevant[n];
        if !assigned.contains(&root) && graph.contains_node(root) {
            let reached = reach_over(
                &among,
                &any,
                TraversalDirection::Both,
                root,
                Ghost(of_edges(among@)),
            );
            let group = group_of(relevant, &reached, Ghost(g), Ghost(root));
            let ordered = in_time_order(graph, &group);
            let line = make_timeline(graph, &ordered);
            let ghost before = lines@;
            let ghost lv = line@;
            lines.push(line);
            assert(timeline_views(lines@) =~= timeline_views(before).push(lv));
            mark_all(&mut assigned, &group);
        }
        n += 1;
    }
    lines
}

/// The `max_results` timelines with the most changes, most changes first.
fn pick(lines: &Vec<BeliefTimeline>, max_results: usize) -> (shown: Vec<BeliefTimeline>)
    requires
        forall|i: int| 0 <= i < lines@.len() ==> timeline_wf(#[trigger] lines@[i]@),
    ensures
        timeline_views(shown@) == reported(timeline_views(lines@), max_results),
        forall|i: int| 0 <= i < shown@.len() ==> timeline_wf(#[trigger] shown@[i]@),
{
    let mut keys: Vec<u64> = Vec::new();
    let mut i: usize = 0;
    while i < lines.len()
        invariant
            i <= lines@.len(),
            keys@.len() == i,
            forall|j: int| 0 <= j < i ==> keys@[j] == lines@[j].change_count as u64,
        decreases lines@.len() - i,
    {
        keys.push(lines[i].change_count as u64);
        i += 1;
    }
    assert(keys@ =~= change_counts(timeline_views(lines@)));
    let order = rank_by_key(&keys, true);
    let n = if max_results < lines.len() { max_results } else { lines.len() };
    let mut shown: Vec<BeliefTimeline> = Vec::new();
    let mut k: usize = 0;
    while k < n
        invariant
            k <= n,
            n <= lines@.len(),
            order@.len() == lines@.len(),
            keys@.len() == lines@.len(),
            is_ranking(keys@, true, order@),
            shown@.len() == k,
            forall|j: int| 0 <= j < k ==> (#[trigger] shown@[j])@ == lines@[order@[j] as int]@,
            forall|i: int| 0 <= i < lines@.len() ==> timeline_wf(#[trigger] lines@[i]@),
        decreases n - k,
    {
        let at = order[k];
        shown.push(copy_timeline(&lines[at]));
        k += 1;
    }
    assert(timeline_views(shown@) =~= reported(timeline_views(lines@), max_results));
    shown
}

/// The largest number of characters of a content that a preview shows.
pub const PREVIEW_LEN: usize = 120;

/// The preview of a content: the content itself if it has no more than
/// `PREVIEW_LEN` characters, else its first `PREVIEW_LEN` characters and
/// three dots.
pub open spec fn previewed(content: Seq<char>) -> Seq<char> {
    if content.len() > PREVIEW_LEN {
        content.take(PREVIEW_LEN as int) + seq!['.', '.', '.']
    } else {
        content
    }
}

/// The preview of a content.
pub fn content_preview(content: &str) -> (r: String)
    ensures
        r@ == previewed(content@),
{
    let chars = chars_of(content);
    if chars.len() > PREVIEW_LEN {
        let mut shown: Vec<char> = Vec::new();
        let mut i: usize = 0;
        while i < PREVIEW_LEN
            invariant
                i <= PREVIEW_LEN,
                PREVIEW_LEN < chars@.len(),
                shown@ == chars@.take(i as int),
            decreases PREVIEW_LEN - i,
        {
            shown.push(chars[i]);
            assert(chars@.take(i + 1) =~= chars@.take(i as int).push(chars@[i as int]));
            i += 1;
        }
        shown.push('.');
        shown.push('.');
        shown.push('.');
        assert(shown@ =~= previewed(content@));
        let n = shown.len();
        assert(shown@.subrange(0, n as int) =~= shown@);
        string_from_chars(&shown, 0, n)
    } else {
        let n = chars.len();
        assert(chars@.subrange(0, n as int) =~= chars@);
        string_from_chars(&chars, 0, n)
    }
}

impl QueryEngine {
    /// Groups the relevant nodes by the Supersedes edges among them, lines
    /// each group up in order of time, and reports the timelines with the
    /// most changes. `relevant` names the nodes that matter for the topic,
    /// most relevant first.
    pub fn drift_detection(&self, graph: &MemoryGraph, relevant: &Vec<u64>, max_results: usize) -> (r:
        DriftReport)
        requires
            graph.wf(),
        ensures
            is_drift_report(graph@, relevant@, max_results, r),
    {
        let lines = gather(graph, relevant);
        let shown = pick(&lines, max_results);
        let ghost views = timeline_views(shown@);
        let mut snapshots: u128 = 0;
        let mut changes: u128 = 0;
        let mut upsets: u128 = 0;
        let mut i: usize = 0;
        assert(views.take(0) =~= Seq::<TimelineView>::empty());
        while i < shown.len()
            invariant
                i <= shown@.len(),
                views == timeline_views(shown@),
                forall|j: int| 0 <= j < shown@.len() ==> timeline_wf(#[trigger] shown@[j]@),
                snapshots == sum_snapshots(views.take(i as int)),
                changes == sum_changes(views.take(i as int)),
                upsets == sum_upsets(views.take(i as int)),
                snapshots <= i * u64::MAX,
                changes <= i * u64::MAX,
                upsets <= i * u64::MAX,
            decreases shown@.len() - i,
        {
            assert(views.take(i + 1).drop_last() =~= views.take(i as int));
            assert(views.take(i + 1).last() == shown@[i as int]@);
            assert(timeline_wf(shown@[i as int]@));
            assert((i + 1) * u64::MAX == i * u64::MAX + u64::MAX) by (nonlinear_arith);
            assert(i * u64::MAX + u64::MAX <= u128::MAX) by (nonlinear_arith)
                requires
                    i <= u64::MAX,
            ;
            let line = &shown[i];
            snapshots = snapshots + line.snapshots.len() as u128;
            changes = changes + line.change_count as u128;
            upsets = upsets + (line.correction_count as u128 + line.contradiction_count as u128);
            i += 1;
        }
        assert(views.take(i as int) =~= views);
        let floor: u128 = 3 * (changes / 10) + (3 * (changes % 10)) / 10;
        let likely = upsets > floor;
        DriftReport {
            timelines: shown,
            total_snapshots: snapshots,
            total_changes: changes,
            total_upsets: upsets,
            likely_to_change: likely,
        }
    }
}

} // verus!
