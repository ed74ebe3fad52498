//! The query engine and its chain queries.

use vstd::prelude::*;
use std::collections::HashSet;
use crate::engine::text_search::{session_allowed, session_passes};
use crate::graph::traversal::{joins, TraversalDirection};
use crate::graph::{event_views, lemma_node_ids_finite, lemma_visit, first_out, GraphView, MemoryGraph};
use crate::rank::{select_top, top_ranked};
use crate::types::{edge_type_passes, event_type_allowed, event_type_passes, AmemError, Edge, EdgeType,
    EventType, EventView};
use crate::unit::{does_reach, is_within, reaches, within};

verus! {

/// The stateless service that answers queries on a graph.
pub struct QueryEngine {}

/// The node that `u` points to as the one it replaces: the target of its
/// first outgoing Supersedes edge.
pub open spec fn successor(g: GraphView, u: u64) -> Option<u64> {
    g.first_target(u, EdgeType::Supersedes)
}

/// Whether `chain` follows Supersedes edges from node to node without
/// coming to any node twice.
pub open spec fn is_supersedes_chain(g: GraphView, chain: Seq<u64>) -> bool {
    &&& chain.len() >= 1
    &&& chain.no_duplicates()
    &&& forall|i: int| 0 <= i < chain.len() - 1 ==> successor(g, #[trigger] chain[i]) == Some(chain[i + 1])
}

/// Whether `r` is where the chain from `v` ends: at a node without an
/// outgoing Supersedes edge, or at the node whose edge leads back into the
/// chain.
pub open spec fn is_resolution(g: GraphView, v: u64, r: u64) -> bool {
    exists|chain: Seq<u64>|
        #![trigger is_supersedes_chain(g, chain)]
        is_supersedes_chain(g, chain) && chain[0] == v && chain.last() == r && (successor(g, r)
            is None || chain.contains(successor(g, r)->0))
}

/// The node reached from `v` after `n` steps along Supersedes edges, staying
/// where no such edge leaves.
pub open spec fn descendant(g: GraphView, v: u64, n: nat) -> u64
    decreases n,
{
    if n == 0 {
        v
    } else {
        match successor(g, descendant(g, v, (n - 1) as nat)) {
            Some(w) => w,
            None => descendant(g, v, (n - 1) as nat),
        }
    }
}

/// Where the chain from `v` is free of cycles, its resolution has no
/// outgoing Supersedes edge.
pub proof fn lemma_resolution_is_terminal(g: GraphView, v: u64, r: u64, n: nat)
    requires
        is_resolution(g, v, r),
        successor(g, descendant(g, v, n)) is None,
    ensures
        successor(g, r) is None,
{
    let chain = choose|chain: Seq<u64>|
        #![trigger is_supersedes_chain(g, chain)]
        is_supersedes_chain(g, chain) && chain[0] == v && chain.last() == r && (successor(g, r)
            is None || chain.contains(successor(g, r)->0));
    if successor(g, r) is Some {
        lemma_stays_in_chain(g, chain, n);
    }
}

/// On a chain whose end leads back into it, every step from its first node
/// stays on the chain, where a Supersedes edge leaves every node.
proof fn lemma_stays_in_chain(g: GraphView, chain: Seq<u64>, n: nat)
    requires
        is_supersedes_chain(g, chain),
        successor(g, chain.last()) is Some,
        chain.contains(successor(g, chain.last())->0),
    ensures
        chain.contains(descendant(g, chain[0], n)),
        successor(g, descendant(g, chain[0], n)) is Some,
    decreases n,
{
    if n == 0 {
        assert(chain[0] == descendant(g, chain[0], 0));
    } else {
        lemma_stays_in_chain(g, chain, (n - 1) as nat);
        let u = descendant(g, chain[0], (n - 1) as nat);
        let i = choose|i: int| 0 <= i < chain.len() && chain[i] == u;
        if i < chain.len() - 1 {
            assert(successor(g, chain[i]) == Some(chain[i + 1]));
            assert(chain.contains(chain[i + 1]));
        }
    }
    let w = descendant(g, chain[0], n);
    let j = choose|j: int| 0 <= j < chain.len() && chain[j] == w;
    if j < chain.len() - 1 {
        assert(successor(g, chain[j]) == Some(chain[j + 1]));
    }
}

/// How the results of a pattern query are ordered.
#[derive(Clone, Copy, Debug, PartialEq, Eq, Structural)]
pub enum PatternSort {
    /// Latest first.
    MostRecent,
    /// Most confident first.
    HighestConfidence,
    /// Least decayed first.
    HighestDecay,
}

/// Parameters of a pattern query. A bound that is not set does not bind.
pub struct PatternParams {
    /// The kinds of event asked for; empty means all.
    pub event_types: Vec<EventType>,
    pub min_confidence: Option<u32>,
    pub max_confidence: Option<u32>,
    /// The sessions asked for; empty means all.
    pub session_ids: Vec<u32>,
    pub created_after: Option<u64>,
    pub created_before: Option<u64>,
    pub min_decay_score: Option<u32>,
    pub max_results: usize,
    pub sort_by: PatternSort,
}

/// Whether a score reaches a lower bound, if there is one.
pub open spec fn at_least_u32(x: u32, bound: Option<u32>) -> bool {
    match bound {
        Some(b) => reaches(x, b),
        None => true,
    }
}

/// Whether a score is at most an upper bound, if there is one.
pub open spec fn at_most_u32(x: u32, bound: Option<u32>) -> bool {
    match bound {
        Some(b) => within(x, b),
        None => true,
    }
}

/// Whether a time is at least a lower bound, if there is one.
pub open spec fn at_least_u64(x: u64, bound: Option<u64>) -> bool {
    match bound {
        Some(b) => x >= b,
        None => true,
    }
}

/// Whether a time is at most an upper bound, if there is one.
pub open spec fn at_most_u64(x: u64, bound: Option<u64>) -> bool {
    match bound {
        Some(b) => x <= b,
        None => true,
    }
}

/// Whether a node matches a pattern: every condition holds.
pub open spec fn matches_pattern(e: EventView, p: PatternParams) -> bool {
    &&& event_type_allowed(p.event_types@, e.event_type)
    &&& at_least_u32(e.confidence, p.min_confidence)
    &&& at_most_u32(e.confidence, p.max_confidence)
    &&& session_allowed(p.session_ids@, e.session_id)
    &&& at_least_u64(e.created_at, p.created_after)
    &&& at_most_u64(e.created_at, p.created_before)
    &&& at_least_u32(e.decay_score, p.min_decay_score)
}

/// The key by which a node is ranked.
pub open spec fn pattern_key(e: EventView, sort_by: PatternSort) -> u64 {
    match sort_by {
        PatternSort::MostRecent => e.created_at,
        PatternSort::HighestConfidence => e.confidence as u64,
        PatternSort::HighestDecay => e.decay_score as u64,
    }
}

/// The ids of the nodes that match, in order.
pub open spec fn matching_ids(nodes: Seq<EventView>, p: PatternParams) -> Seq<u64>
    decreases nodes.len(),
{
    if nodes.len() == 0 {
        Seq::empty()
    } else if matches_pattern(nodes.last(), p) {
        matching_ids(nodes.drop_last(), p).push(nodes.last().id)
    } else {
        matching_ids(nodes.drop_last(), p)
    }
}

/// The keys of the nodes that match, in order.
pub open spec fn matching_keys(nodes: Seq<EventView>, p: PatternParams) -> Seq<u64>
    decreases nodes.len(),
{
    if nodes.len() == 0 {
        Seq::empty()
    } else if matches_pattern(nodes.last(), p) {
        matching_keys(nodes.drop_last(), p).push(pattern_key(nodes.last(), p.sort_by))
    } else {
        matching_keys(nodes.drop_last(), p)
    }
}

/// Parameters of a traversal.
pub struct TraversalParams {
    pub start_id: u64,
    /// The edge types that may be followed; empty means all.
    pub edge_types: Vec<EdgeType>,
    pub direction: TraversalDirection,
    /// The largest number of steps from the start.
    pub max_depth: u32,
    /// The largest number of nodes to visit.
    pub max_results: usize,
    /// The confidence that a node must reach to be visited.
    pub min_confidence: u32,
}

/// One node of a traversal.
#[derive(Clone, Copy, Debug, PartialEq, Eq, Structural)]
pub struct Visit {
    pub node_id: u64,
    /// The number of steps from the start.
    pub depth: u32,
}

/// What a traversal found.
pub struct TraversalResult {
    /// The nodes in the order in which they were visited, the start first.
    pub visited: Vec<Visit>,
    /// For each node after the start, the edge by which it was reached.
    pub edges: Vec<Edge>,
}

/// Whether `r` is a traversal from the start: the start comes first; every
/// other node is live, confident enough and reached by its edge from a
/// node visited before it, one level up; no node comes twice; and the
/// bounds on depth and number hold.
pub open spec fn is_traversal(g: GraphView, p: TraversalParams, r: TraversalResult) -> bool {
    &&& r.visited@.len() >= 1
    &&& r.visited@[0] == (Visit { node_id: p.start_id, depth: 0 })
    &&& r.edges@.len() == r.visited@.len() - 1
    &&& r.visited@.len() <= if p.max_results == 0 { 1 } else { p.max_results as int }
    &&& forall|i: int, j: int|
        0 <= i < j < r.visited@.len() ==> (#[trigger] r.visited@[i]).node_id != (
        #[trigger] r.visited@[j]).node_id
    &&& forall|i: int|
        1 <= i < r.visited@.len() ==> #[trigger] visit_ok(g, p, r.visited@, r.edges@, i)
}

/// Whether the `i`-th node of a traversal is live, confident enough, within
/// the depth bound, and reached by its edge from a node visited before it,
/// one level up.
pub open spec fn visit_ok(
    g: GraphView,
    p: TraversalParams,
    visited: Seq<Visit>,
    edges: Seq<Edge>,
    i: int,
) -> bool {
    let v = visited[i];
    &&& g.has_node(v.node_id)
    &&& reaches(g.node(v.node_id).confidence, p.min_confidence)
    &&& 1 <= v.depth <= p.max_depth
    &&& g.edges.contains(edges[i - 1])
    &&& exists|k: int|
        0 <= k < i && (#[trigger] visited[k]).depth + 1 == v.depth && joins(
            edges[i - 1],
            p.edge_types@,
            p.direction,
            visited[k].node_id,
            v.node_id,
        )
}

/// The largest number of nodes that a traversal visits: the number asked
/// for, and the start in any case.
pub open spec fn visit_limit(p: TraversalParams) -> int {
    if p.max_results == 0 {
        1
    } else {
        p.max_results as int
    }
}

/// Whether a node is among those visited.
pub open spec fn visits(visited: Seq<Visit>, id: u64) -> bool {
    exists|i: int| 0 <= i < visited.len() && (#[trigger] visited[i]).node_id == id
}

/// The end of an edge that is not `from`; `from` itself for a loop.
pub open spec fn other_end(e: Edge, from: u64) -> u64 {
    if e.source_id == from {
        e.target_id
    } else {
        e.source_id
    }
}

/// The visit that the `k`-th edge of the graph adds when it is tried from
/// the node at position `head`: the edge joins that node to a live node
/// that was not visited and is confident enough.
pub open spec fn next_visit(
    g: GraphView,
    p: TraversalParams,
    visited: Seq<Visit>,
    head: int,
    k: int,
) -> Option<Visit> {
    let from = visited[head];
    let w = other_end(g.edges[k], from.node_id);
    if joins(g.edges[k], p.edge_types@, p.direction, from.node_id, w) && !visits(visited, w)
        && g.has_node(w) && reaches(g.node(w).confidence, p.min_confidence) {
        Some(Visit { node_id: w, depth: (from.depth + 1) as u32 })
    } else {
        None
    }
}

/// Where a traversal ends that has visited `visited` over the edges `taken`
/// and tries next the `k`-th edge of the graph from the node at position
/// `head`. The nodes are taken in the order in which they were visited, and
/// from each the edges of the graph in their order; a node at the largest
/// depth is passed over; the traversal ends when no node is left or the
/// limit is reached.
pub open spec fn traversal_from(
    g: GraphView,
    p: TraversalParams,
    visited: Seq<Visit>,
    taken: Seq<Edge>,
    head: int,
    k: int,
) -> (Seq<Visit>, Seq<Edge>)
    decreases visit_limit(p) - head, g.edges.len() - k,
{
    if head < 0 || k < 0 || head >= visited.len() || visited.len() >= visit_limit(p) {
        (visited, taken)
    } else if visited[head].depth >= p.max_depth || k >= g.edges.len() {
        traversal_from(g, p, visited, taken, head + 1, 0)
    } else {
        match next_visit(g, p, visited, head, k) {
            Some(visit) => traversal_from(
                g,
                p,
                visited.push(visit),
                taken.push(g.edges[k]),
                head,
                k + 1,
            ),
            None => traversal_from(g, p, visited, taken, head, k + 1),
        }
    }
}

/// The traversal that the parameters ask for: the nodes in the order in
/// which they are visited, and the edges by which they are reached.
pub open spec fn traversal_of(g: GraphView, p: TraversalParams) -> (Seq<Visit>, Seq<Edge>) {
    traversal_from(g, p, seq![Visit { node_id: p.start_id, depth: 0 }], Seq::empty(), 0, 0)
}

/// Whether a traversal under way is sound.
pub open spec fn walk_ok(
    g: GraphView,
    p: TraversalParams,
    visited: Seq<Visit>,
    edges: Seq<Edge>,
    seen: Set<u64>,
    limit: usize,
) -> bool {
    &&& 1 <= visited.len() <= limit
    &&& visited[0] == (Visit { node_id: p.start_id, depth: 0 })
    &&& edges.len() == visited.len() - 1
    &&& forall|i: int| 0 <= i < visited.len() ==> seen.contains((#[trigger] visited[i]).node_id)
    &&& forall|i: int, j: int|
        0 <= i < j < visited.len() ==> (#[trigger] visited[i]).node_id != (
        #[trigger] visited[j]).node_id
    &&& forall|i: int| 0 <= i < visited.len() ==> (#[trigger] visited[i]).depth <= p.max_depth
    &&& forall|i: int| 1 <= i < visited.len() ==> #[trigger] visit_ok(g, p, visited, edges, i)
}

/// A sound traversal stays sound when it visits a node that was not seen,
/// is live and confident enough, and is reached by an edge of the graph
/// from a node visited before.
pub proof fn lemma_walk_grows(
    g: GraphView,
    p: TraversalParams,
    visited: Seq<Visit>,
    edges: Seq<Edge>,
    seen: Set<u64>,
    limit: usize,
    from: int,
    visit: Visit,
    e: Edge,
)
    requires
        walk_ok(g, p, visited, edges, seen, limit),
        visited.len() < limit,
        0 <= from < visited.len(),
        visited[from].depth < p.max_depth,
        visit.depth == visited[from].depth + 1,
        !seen.contains(visit.node_id),
        g.has_node(visit.node_id),
        reaches(g.node(visit.node_id).confidence, p.min_confidence),
        g.edges.contains(e),
        joins(e, p.edge_types@, p.direction, visited[from].node_id, visit.node_id),
    ensures
        walk_ok(g, p, visited.push(visit), edges.push(e), seen.insert(visit.node_id), limit),
{
    let more = visited.push(visit);
    let more_edges = edges.push(e);
    assert forall|i: int| 1 <= i < more.len() implies #[trigger] visit_ok(
        g,
        p,
        more,
        more_edges,
        i,
    ) by {
        if i < visited.len() {
            assert(visit_ok(g, p, visited, edges, i));
            lemma_visit_stays(g, p, visited, edges, more, more_edges, i);
        } else {
            assert(more[from] == visited[from]);
            assert(more_edges[i - 1] == e);
        }
    }
    assert forall|i: int, j: int| 0 <= i < j < more.len() implies (#[trigger] more[i]).node_id != (
    #[trigger] more[j]).node_id by {
        if j < visited.len() {
            assert(visited[i].node_id != visited[j].node_id);
        } else {
            assert(seen.contains(visited[i].node_id));
        }
    }
    assert forall|i: int| 0 <= i < more.len() implies seen.insert(visit.node_id).contains(
        (#[trigger] more[i]).node_id,
    ) by {
        if i < visited.len() {
            assert(seen.contains(visited[i].node_id));
        }
    }
    assert forall|i: int| 0 <= i < more.len() implies (#[trigger] more[i]).depth
        <= p.max_depth by {
        if i < visited.len() {
            assert(visited[i].depth <= p.max_depth);
        }
    }
}

/// A node of a traversal stays sound when the traversal goes on.
pub proof fn lemma_visit_stays(
    g: GraphView,
    p: TraversalParams,
    visited: Seq<Visit>,
    edges: Seq<Edge>,
    more: Seq<Visit>,
    more_edges: Seq<Edge>,
    i: int,
)
    requires
        1 <= i < visited.len(),
        edges.len() == visited.len() - 1,
        visit_ok(g, p, visited, edges, i),
        more.len() >= visited.len(),
        more_edges.len() >= edges.len(),
        forall|k: int| 0 <= k < visited.len() ==> more[k] == visited[k],
        forall|k: int| 0 <= k < edges.len() ==> more_edges[k] == edges[k],
    ensures
        visit_ok(g, p, more, more_edges, i),
{
    let v = visited[i];
    let c = choose|c: int|
        0 <= c < i && (#[trigger] visited[c]).depth + 1 == v.depth && joins(
            edges[i - 1],
            p.edge_types@,
            p.direction,
            visited[c].node_id,
            v.node_id,
        );
    assert(more[c] == visited[c]);
    assert(more[i] == visited[i]);
    assert(more_edges[i - 1] == edges[i - 1]);
}

/// Whether a score reaches a lower bound, if there is one.
fn is_at_least_u32(x: u32, bound: Option<u32>) -> (r: bool)
    ensures
        r == at_least_u32(x, bound),
{
    match bound {
        Some(b) => does_reach(x, b),
        None => true,
    }
}

/// Whether a score is at most an upper bound, if there is one.
fn is_at_most_u32(x: u32, bound: Option<u32>) -> (r: bool)
    ensures
        r == at_most_u32(x, bound),
{
    match bound {
        Some(b) => is_within(x, b),
        None => true,
    }
}

/// Whether a time is at least a lower bound, if there is one.
fn is_at_least_u64(x: u64, bound: Option<u64>) -> (r: bool)
    ensures
        r == at_least_u64(x, bound),
{
    match bound {
        Some(b) => x >= b,
        None => true,
    }
}

/// Whether a time is at most an upper bound, if there is one.
fn is_at_most_u64(x: u64, bound: Option<u64>) -> (r: bool)
    ensures
        r == at_most_u64(x, bound),
{
    match bound {
        Some(b) => x <= b,
        None => true,
    }
}

impl QueryEngine {
    pub fn new() -> (r: QueryEngine) {
        QueryEngine {  }
    }

    /// Follows Supersedes edges from `id` as far as they go and returns the
    /// node where they end. A walk that comes back to a node it has seen
    /// stops before it.
    pub fn resolve(&self, graph: &MemoryGraph, id: u64) -> (r: Result<u64, AmemError>)
        requires
            graph.wf(),
        ensures
            r is Ok <==> graph@.has_node(id),
            r is Err ==> r->Err_0 == AmemError::NodeNotFound(id),
            r is Ok ==> graph@.has_node(r->Ok_0) && is_resolution(graph@, id, r->Ok_0),
    {
        broadcast use vstd::std_specs::hash::group_hash_axioms;

        if !graph.contains_node(id) {
            return Err(AmemError::NodeNotFound(id));
        }
        let ghost g = graph@;
        let mut visited: HashSet<u64> = HashSet::new();
        visited.insert(id);
        let mut current = id;
        let ghost mut chain: Seq<u64> = seq![id];
        proof {
            lemma_node_ids_finite(g);
        }
        loop
            invariant
                g == graph@,
                g.wf(),
                g.node_ids().finite(),
                is_supersedes_chain(g, chain),
                chain[0] == id,
                chain.last() == current,
                g.has_node(current),
                forall|x: u64| visited@.contains(x) <==> chain.contains(x),
                forall|x: u64| visited@.contains(x) ==> g.has_node(x),
            ensures
                g.has_node(current),
                is_resolution(g, id, current),
            decreases g.node_ids().difference(visited@).len(),
        {
            let next = graph.first_target(current, EdgeType::Supersedes);
            match next {
                None => {
                    break;
                },
                Some(w) => {
                    if visited.contains(&w) {
                        break;
                    }
                    proof {
                        let k = choose|k: int|
                            first_out(g.edges, current, EdgeType::Supersedes, k)
                                && g.edges[k].target_id == w;
                        assert(g.has_node(g.edges[k].target_id));
                        lemma_visit(g.node_ids(), visited@, w);
                        let longer = chain.push(w);
                        assert forall|i: int| 0 <= i < longer.len() - 1 implies successor(
                            g,
                            #[trigger] longer[i],
                        ) == Some(longer[i + 1]) by {
                            if i < chain.len() - 1 {
                                assert(longer[i] == chain[i] && longer[i + 1] == chain[i + 1]);
                            }
                        }
                        assert(longer.no_duplicates()) by {
                            assert forall|a: int, b: int|
                                0 <= a < longer.len() && 0 <= b < longer.len() && a
                                    != b implies longer[a] != longer[b] by {
                                if a < chain.len() && b < chain.len() {
                                    assert(chain[a] != chain[b]);
                                } else if a < chain.len() {
                                    assert(chain.contains(chain[a]));
                                } else {
                                    assert(chain.contains(chain[b]));
                                }
                            }
                        }
                        assert forall|x: u64| visited@.insert(w).contains(x) <==> longer.contains(
                            x,
                        ) by {
                            if longer.contains(x) {
                                let i = choose|i: int| 0 <= i < longer.len() && longer[i] == x;
                                if i < chain.len() {
                                    assert(chain.contains(chain[i]));
                                }
                            }
                            if chain.contains(x) {
                                let i = choose|i: int| 0 <= i < chain.len() && chain[i] == x;
                                assert(longer[i] == x);
                            }
                            if x == w {
                                assert(longer[chain.len() as int] == w);
                            }
                        }
                        chain = longer;
                    }
                    visited.insert(w);
                    current = w;
                },
            }
        }
        Ok(current)
    }

    /// The ids of the nodes that match the pattern: the first `max_results`
    /// in the order asked for, equal keys in order of id.
    pub fn pattern(&self, graph: &MemoryGraph, params: &PatternParams) -> (r: Vec<u64>)
        ensures
            r@ == top_ranked(
                matching_ids(graph@.nodes, *params),
                matching_keys(graph@.nodes, *params),
                true,
                params.max_results as nat,
            ),
    {
        let ghost g = graph@;
        let nodes = graph.nodes();
        let mut ids: Vec<u64> = Vec::new();
        let mut keys: Vec<u64> = Vec::new();
        let mut i: usize = 0;
        assert(g.nodes.take(0) =~= Seq::<EventView>::empty());
        while i < nodes.len()
            invariant
                i <= nodes@.len(),
                event_views(nodes@) == g.nodes,
                ids@ == matching_ids(g.nodes.take(i as int), *params),
                keys@ == matching_keys(g.nodes.take(i as int), *params),
                ids@.len() == keys@.len(),
            decreases nodes@.len() - i,
        {
            assert(g.nodes.take(i + 1).drop_last() =~= g.nodes.take(i as int));
            assert(g.nodes.take(i + 1).last() == nodes@[i as int]@);
            let n = &nodes[i];
            if event_type_passes(&params.event_types, n.event_type) && is_at_least_u32(
                n.confidence,
                params.min_confidence,
            ) && is_at_most_u32(n.confidence, params.max_confidence) && session_passes(
                &params.session_ids,
                n.session_id,
            ) && is_at_least_u64(n.created_at, params.created_after) && is_at_most_u64(
                n.created_at,
                params.created_before,
            ) && is_at_least_u32(n.decay_score, params.min_decay_score) {
                ids.push(n.id);
                keys.push(
                    match params.sort_by {
                        PatternSort::MostRecent => n.created_at,
                        PatternSort::HighestConfidence => n.confidence as u64,
                        PatternSort::HighestDecay => n.decay_score as u64,
                    },
                );
            }
            i += 1;
        }
        assert(g.nodes.take(i as int) =~= g.nodes);
        select_top(&ids, &keys, true, params.max_results)
    }

    /// Visits the nodes around the start, nearest first: from each node
    /// visited, the edges of the graph are tried in order, and a node that
    /// an edge leads to is visited if it was not visited before and is
    /// confident enough, until the number of nodes asked for is reached.
    pub fn traverse(&self, graph: &MemoryGraph, params: &TraversalParams) -> (r: Result<
        TraversalResult,
        AmemError,
    >)
        requires
            graph.wf(),
        ensures
            r is Ok <==> graph@.has_node(params.start_id),
            r is Err ==> r->Err_0 == AmemError::NodeNotFound(params.start_id),
            r is Ok ==> is_traversal(graph@, *params, r->Ok_0),
            r is Ok ==> (r->Ok_0.visited@, r->Ok_0.edges@) == traversal_of(graph@, *params),
    {
        broadcast use vstd::std_specs::hash::group_hash_axioms;

        if !graph.contains_node(params.start_id) {
            return Err(AmemError::NodeNotFound(params.start_id));
        }
        let ghost g = graph@;
        let ghost answer = traversal_of(g, *params);
        let limit = if params.max_results == 0 { 1 } else { params.max_results };
        let all = graph.edges();
        let mut visited: Vec<Visit> = Vec::new();
        let mut taken: Vec<Edge> = Vec::new();
        let mut seen: HashSet<u64> = HashSet::new();
        visited.push(Visit { node_id: params.start_id, depth: 0 });
        seen.insert(params.start_id);
        proof {
            assert(visited@[0].node_id == params.start_id);
            assert(visited@ =~= seq![Visit { node_id: params.start_id, depth: 0 }]);
            assert(taken@ =~= Seq::<Edge>::empty());
        }
        let mut head: usize = 0;
        while head < visited.len() && visited.len() < limit
            invariant
                g == graph@,
                graph.wf(),
                all@ == g.edges,
                limit == visit_limit(*params),
                head <= visited@.len(),
                walk_ok(g, *params, visited@, taken@, seen@, limit),
                forall|x: u64| seen@.contains(x) ==> visits(visited@, x),
                traversal_from(g, *params, visited@, taken@, head as int, 0) == answer,
            decreases limit - head,
        {
            let from = visited[head];
            if from.depth < params.max_depth {
                let mut k: usize = 0;
                while k < all.len() && visited.len() < limit
                    invariant
                        k <= all@.len(),
                        g == graph@,
                        graph.wf(),
                        all@ == g.edges,
                        limit == visit_limit(*params),
                        head < visited@.len(),
                        from == visited@[head as int],
                        from.depth < params.max_depth,
                        walk_ok(g, *params, visited@, taken@, seen@, limit),
                        forall|x: u64| seen@.contains(x) ==> visits(visited@, x),
                        traversal_from(g, *params, visited@, taken@, head as int, k as int)
                            == answer,
                    decreases all@.len() - k,
                {
                    let ghost tried = next_visit(g, *params, visited@, head as int, k as int);
                    let ghost far = other_end(g.edges[k as int], from.node_id);
                    proof {
                        assert(seen@.contains(far) <==> visits(visited@, far)) by {
                            if visits(visited@, far) {
                                let i = choose|i: int|
                                    0 <= i < visited@.len() && (#[trigger] visited@[i]).node_id
                                        == far;
                                assert(seen@.contains(visited@[i].node_id));
                            }
                        }
                    }
                    let e = all[k];
                    let ok = edge_type_passes(&params.edge_types, e.edge_type);
                    let along = params.direction != TraversalDirection::Backward && e.source_id
                        == from.node_id;
                    let against = params.direction != TraversalDirection::Forward && e.target_id
                        == from.node_id;
                    let mut next: Option<u64> = None;
                    if ok && along && !seen.contains(&e.target_id) {
                        next = Some(e.target_id);
                    } else if ok && against && !seen.contains(&e.source_id) {
                        next = Some(e.source_id);
                    }
                    match next {
                        None => {
                            assert(tried is None);
                        },
                        Some(w) => {
                            assert(w == far);
                            let confident = match graph.get_node(w) {
                                Some(node) => does_reach(node.confidence, params.min_confidence),
                                None => false,
                            };
                            if confident {
                                let ghost before = visited@;
                                let ghost before_taken = taken@;
                                let ghost before_seen = seen@;
                                let visit = Visit { node_id: w, depth: from.depth + 1 };
                                assert(tried == Some(visit));
                                visited.push(visit);
                                taken.push(e);
                                seen.insert(w);
                                proof {
                                    assert(g.edges[k as int] == e);
                                    lemma_walk_grows(
                                        g,
                                        *params,
                                        before,
                                        before_taken,
                                        before_seen,
                                        limit,
                                        head as int,
                                        visit,
                                        e,
                                    );
                                    assert forall|x: u64| seen@.contains(x) implies visits(
                                        visited@,
                                        x,
                                    ) by {
                                        if x == w {
                                            assert(visited@[before.len() as int].node_id == w);
                                        } else {
                                            let i = choose|i: int|
                                                0 <= i < before.len() && (
                                                #[trigger] before[i]).node_id == x;
                                            assert(visited@[i].node_id == x);
                                        }
                                    }
                                }
                            } else {
                                assert(tried is None);
                            }
                        },
                    }
                    k += 1;
                }
            }
            head += 1;
        }
        Ok(TraversalResult { visited, edges: taken })
    }
}

} // verus!
