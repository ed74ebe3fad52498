//! The discrete part of the search for analogies: the surroundings of a
//! node, and the shape of such surroundings.

use vstd::prelude::*;
use std::collections::HashMap;
use crate::engine::cognitive::count_type;
use crate::engine::graph_algo::{closed_below, expand, frontier_ok, is_chain, lemma_exhausted,
    lemma_reached, lemma_tree_grew, lemma_tree_walk, only, reachable, reachable_within, tree_ok};
use crate::engine::query::QueryEngine;
use crate::graph::traversal::{arc, hop, joins, walk_between, TraversalDirection};
use crate::graph::{event_views, GraphView, MemoryGraph};
use crate::types::{AmemError, Edge, EdgeType, EventType, EventView};

verus! {

/// The surroundings of a node.
pub struct SubGraph {
    pub center_id: u64,
    /// The nodes, the center first, then nearer nodes before farther ones.
    pub nodes: Vec<u64>,
    /// The edges of the graph between those nodes, in the order of the
    /// graph.
    pub edges: Vec<Edge>,
}

/// The edges among `edges` whose ends are both in `nodes`, in order.
pub open spec fn edges_within(edges: Seq<Edge>, nodes: Set<u64>) -> Seq<Edge>
    decreases edges.len(),
{
    if edges.len() == 0 {
        Seq::empty()
    } else if nodes.contains(edges.last().source_id) && nodes.contains(edges.last().target_id) {
        edges_within(edges.drop_last(), nodes).push(edges.last())
    } else {
        edges_within(edges.drop_last(), nodes)
    }
}

/// Whether `v` is within `depth` steps of the center, along edges of any
/// type in either direction.
pub open spec fn in_context(g: GraphView, center: u64, depth: u32, v: u64) -> bool {
    reachable_within(g, Seq::<EdgeType>::empty(), TraversalDirection::Both, center, v, depth as nat)
}

/// Whether `sub` is the context of its center to the given depth.
pub open spec fn is_context(g: GraphView, center: u64, depth: u32, sub: SubGraph) -> bool {
    &&& sub.center_id == center
    &&& sub.nodes@.len() >= 1
    &&& sub.nodes@[0] == center
    &&& sub.nodes@.no_duplicates()
    &&& forall|v: u64| sub.nodes@.contains(v) <==> in_context(g, center, depth, v)
    &&& sub.edges@ == edges_within(g.edges, sub.nodes@.to_set())
}

/// The graph that has the given edges and no nodes of its own, as a search
/// sees it.
pub open spec fn of_edges(edges: Seq<Edge>) -> GraphView {
    GraphView { nodes: Seq::empty(), edges, next_id: 0, dimension: 0 }
}

/// Whether `v` is exactly `d` steps from `s`.
pub open spec fn at_distance(
    g: GraphView,
    allowed: Seq<EdgeType>,
    dir: TraversalDirection,
    s: u64,
    v: u64,
    d: nat,
) -> bool {
    reachable_within(g, allowed, dir, s, v, d) && (d == 0 || !reachable_within(
        g,
        allowed,
        dir,
        s,
        v,
        (d - 1) as nat,
    ))
}

/// Whether `d` is the distance of the farthest node that can be reached
/// from `s`.
pub open spec fn is_reach(
    g: GraphView,
    allowed: Seq<EdgeType>,
    dir: TraversalDirection,
    s: u64,
    d: nat,
) -> bool {
    &&& exists|v: u64| #[trigger] at_distance(g, allowed, dir, s, v, d)
    &&& forall|v: u64, k: nat| #[trigger] at_distance(g, allowed, dir, s, v, k) ==> k <= d
}

/// The ends of the edges.
pub open spec fn ends_of(edges: Seq<Edge>) -> Set<u64> {
    Seq::new(edges.len(), |i: int| edges[i].source_id).to_set().union(
        Seq::new(edges.len(), |i: int| edges[i].target_id).to_set(),
    )
}

/// The ends of the edges are finitely many, and each end of an edge is one.
pub proof fn lemma_ends(edges: Seq<Edge>)
    ensures
        ends_of(edges).finite(),
        forall|k: int|
            0 <= k < edges.len() ==> ends_of(edges).contains((#[trigger] edges[k]).source_id)
                && ends_of(edges).contains(edges[k].target_id),
{
    broadcast use vstd::seq_lib::seq_to_set_is_finite;
    broadcast use vstd::set::group_set_axioms;

    let a = Seq::new(edges.len(), |i: int| edges[i].source_id);
    let b = Seq::new(edges.len(), |i: int| edges[i].target_id);
    assert forall|k: int| 0 <= k < edges.len() implies ends_of(edges).contains(
        (#[trigger] edges[k]).source_id,
    ) && ends_of(edges).contains(edges[k].target_id) by {
        assert(a[k] == edges[k].source_id);
        assert(a.contains(edges[k].source_id));
        assert(b[k] == edges[k].target_id);
        assert(b.contains(edges[k].target_id));
    }
}

/// Every node of a search tree but its roots is an end of an edge.
pub proof fn lemma_tree_nodes_are_ends(
    g: GraphView,
    allowed: Seq<EdgeType>,
    dir: TraversalDirection,
    roots: Set<u64>,
    tree: Map<u64, (u64, u64)>,
    round: nat,
    v: u64,
)
    requires
        tree_ok(g, allowed, dir, true, roots, tree, round),
        tree.contains_key(v),
        !roots.contains(v),
    ensures
        ends_of(g.edges).contains(v),
{
    lemma_ends(g.edges);
    let p = tree[v].0;
    assert(hop(g, allowed, dir, true, p, v));
    let k = choose|k: int| 0 <= k < g.edges.len() && joins(#[trigger] g.edges[k], allowed, dir, p, v);
    assert(ends_of(g.edges).contains(g.edges[k].source_id));
}

/// The distance of the farthest node that can be reached from `origin`
/// along the given edges.
pub(crate) fn farthest(
    edges: &Vec<Edge>,
    allowed: &Vec<EdgeType>,
    dir: TraversalDirection,
    origin: u64,
    Ghost(g): Ghost<GraphView>,
) -> (r: u64)
    requires
        edges@ == g.edges,
    ensures
        is_reach(g, allowed@, dir, origin, r as nat),
{
    broadcast use vstd::std_specs::hash::group_hash_axioms;
    broadcast use vstd::set::group_set_axioms;

    let ghost roots = only(origin);
    let ghost universe = ends_of(g.edges).insert(origin);
    proof {
        lemma_ends(g.edges);
    }
    let mut tree: HashMap<u64, (u64, u64)> = HashMap::new();
    tree.insert(origin, (origin, 0));
    let none: HashMap<u64, (u64, u64)> = HashMap::new();
    let mut frontier: Vec<u64> = Vec::new();
    frontier.push(origin);
    let mut round: u64 = 0;
    proof {
        assert(frontier@ =~= seq![origin]);
        assert forall|v: u64| frontier@.contains(v) <==> tree@.contains_key(v) && tree@[v].1
            == 0 by {
            if v == origin {
                assert(frontier@[0] == origin);
            }
        }
        assert(tree@.dom() =~= Set::<u64>::empty().insert(origin));
    }
    loop
        invariant_except_break
            round + 1 <= tree@.len(),
            tree_ok(g, allowed@, dir, true, roots, tree@, round as nat),
            closed_below(g, allowed@, dir, true, tree@, round as nat),
            frontier_ok(tree@, frontier@, round as nat),
        invariant
            edges@ == g.edges,
            roots == only(origin),
            universe == ends_of(g.edges).insert(origin),
            universe.finite(),
            none@ == Map::<u64, (u64, u64)>::empty(),
            tree@.dom().finite(),
            frontier@.len() > 0,
        ensures
            frontier@.len() > 0,
            tree_ok(g, allowed@, dir, true, roots, tree@, (round + 1) as nat),
            closed_below(g, allowed@, dir, true, tree@, (round + 1) as nat),
            frontier_ok(tree@, Seq::<u64>::empty(), (round + 1) as nat),
            forall|v: u64| frontier@.contains(v) ==> tree@.contains_key(v) && tree@[v].1 == round,
        decreases universe.difference(tree@.dom()).len(),
    {
        let size = tree.len();
        assert(round < size);
        let ghost before = tree@;
        let ghost level = frontier@;
        let (met, next) = expand(
            edges,
            Ghost(g),
            allowed,
            dir,
            true,
            &mut tree,
            &frontier,
            &none,
            round,
            Ghost(roots),
        );
        if next.len() == 0 {
            proof {
                assert(next@ =~= Seq::<u64>::empty());
                assert forall|v: u64| level.contains(v) implies tree@.contains_key(v) && tree@[v].1
                    == round by {
                    assert(before.contains_key(v));
                }
            }
            break;
        }
        proof {
            let v = next@[0];
            assert(next@.contains(v));
            if before.contains_key(v) {
                if v != origin {
                    assert(before[v].1 <= round);
                }
            }
            assert forall|w: u64| #[trigger] tree@.contains_key(w) implies universe.contains(w) by {
                if w != origin {
                    lemma_tree_nodes_are_ends(g, allowed@, dir, roots, tree@, (round + 1) as nat, w);
                }
            }
            lemma_tree_grew(universe, before, tree@, v);
        }
        frontier = next;
        round += 1;
    }
    proof {
        let t = tree@;
        let last = (round + 1) as nat;
        let far = frontier@[0];
        assert(frontier@.contains(far));
        assert(t.contains_key(far) && t[far].1 == round);
        let q = lemma_tree_walk(g, allowed@, dir, roots, t, last, far);
        assert(q[0] == origin);
        assert(walk_between(g, allowed@, dir, q, origin, far) && q.len() - 1 <= round);
        assert(reachable_within(g, allowed@, dir, origin, far, round as nat));
        if round > 0 {
            if reachable_within(g, allowed@, dir, origin, far, (round - 1) as nat) {
                let p = choose|p: Seq<u64>|
                    walk_between(g, allowed@, dir, p, origin, far) && p.len() - 1 <= (round
                        - 1) as nat;
                lemma_walk_reached(g, allowed@, dir, origin, t, last, p, far);
            }
        }
        assert(at_distance(g, allowed@, dir, origin, far, round as nat));
        assert forall|v: u64, k: nat| #[trigger]
            at_distance(g, allowed@, dir, origin, v, k) implies k <= round by {
            let p = choose|p: Seq<u64>|
                walk_between(g, allowed@, dir, p, origin, v) && p.len() - 1 <= k;
            lemma_walk_reached(g, allowed@, dir, origin, t, last, p, v);
            assert(t.contains_key(v));
            if v != origin {
                assert(t[v].1 <= last);
            }
            if t[v].1 == last {
                assert(Seq::<u64>::empty().contains(v));
            }
            let w = lemma_tree_walk(g, allowed@, dir, roots, t, last, v);
            assert(w[0] == origin);
            assert(walk_between(g, allowed@, dir, w, origin, v));
            if k > round {
                assert(reachable_within(g, allowed@, dir, origin, v, (k - 1) as nat));
            }
        }
    }
    round
}

/// The nodes that can be reached from `origin` along the given edges: the
/// keys of the tree that is returned.
pub(crate) fn reach_over(
    edges: &Vec<Edge>,
    allowed: &Vec<EdgeType>,
    dir: TraversalDirection,
    origin: u64,
    Ghost(g): Ghost<GraphView>,
) -> (tree: HashMap<u64, (u64, u64)>)
    requires
        edges@ == g.edges,
    ensures
        forall|v: u64| tree@.contains_key(v) <==> reachable(g, allowed@, dir, origin, v),
{
    broadcast use vstd::std_specs::hash::group_hash_axioms;
    broadcast use vstd::set::group_set_axioms;

    let ghost roots = only(origin);
    let ghost universe = ends_of(g.edges).insert(origin);
    proof {
        lemma_ends(g.edges);
    }
    let mut tree: HashMap<u64, (u64, u64)> = HashMap::new();
    tree.insert(origin, (origin, 0));
    let none: HashMap<u64, (u64, u64)> = HashMap::new();
    let mut frontier: Vec<u64> = Vec::new();
    frontier.push(origin);
    let mut round: u64 = 0;
    proof {
        assert(frontier@ =~= seq![origin]);
        assert forall|v: u64| frontier@.contains(v) <==> tree@.contains_key(v) && tree@[v].1
            == 0 by {
            if v == origin {
                assert(frontier@[0] == origin);
            }
        }
        assert(tree@.dom() =~= Set::<u64>::empty().insert(origin));
    }
    loop
        invariant_except_break
            round + 1 <= tree@.len(),
            tree_ok(g, allowed@, dir, true, roots, tree@, round as nat),
            closed_below(g, allowed@, dir, true, tree@, round as nat),
            frontier_ok(tree@, frontier@, round as nat),
        invariant
            edges@ == g.edges,
            roots == only(origin),
            universe == ends_of(g.edges).insert(origin),
            universe.finite(),
            none@ == Map::<u64, (u64, u64)>::empty(),
            tree@.dom().finite(),
            frontier@.len() > 0,
        ensures
            frontier@.len() > 0,
            tree_ok(g, allowed@, dir, true, roots, tree@, (round + 1) as nat),
            closed_below(g, allowed@, dir, true, tree@, (round + 1) as nat),
            frontier_ok(tree@, Seq::<u64>::empty(), (round + 1) as nat),
            forall|v: u64| frontier@.contains(v) ==> tree@.contains_key(v) && tree@[v].1 == round,
        decreases universe.difference(tree@.dom()).len(),
    {
        let size = tree.len();
        assert(round < size);
        let ghost before = tree@;
        let ghost level = frontier@;
        let (met, next) = expand(
            edges,
            Ghost(g),
            allowed,
            dir,
            true,
            &mut tree,
            &frontier,
            &none,
            round,
            Ghost(roots),
        );
        if next.len() == 0 {
            proof {
                assert(next@ =~= Seq::<u64>::empty());
                assert forall|v: u64| level.contains(v) implies tree@.contains_key(v) && tree@[v].1
                    == round by {
                    assert(before.contains_key(v));
                }
            }
            break;
        }
        proof {
            let v = next@[0];
            assert(next@.contains(v));
            if before.contains_key(v) {
                if v != origin {
                    assert(before[v].1 <= round);
                }
            }
            assert forall|w: u64| #[trigger] tree@.contains_key(w) implies universe.contains(w) by {
                if w != origin {
                    lemma_tree_nodes_are_ends(g, allowed@, dir, roots, tree@, (round + 1) as nat, w);
                }
            }
            lemma_tree_grew(universe, before, tree@, v);
        }
        frontier = next;
        round += 1;
    }
    proof {
        let t = tree@;
        let last = (round + 1) as nat;
        assert forall|v: u64| t.contains_key(v) <==> reachable(g, allowed@, dir, origin, v) by {
            if t.contains_key(v) {
                let w = lemma_tree_walk(g, allowed@, dir, roots, t, last, v);
                assert(w[0] == origin);
                assert(walk_between(g, allowed@, dir, w, origin, v));
            }
            if reachable(g, allowed@, dir, origin, v) {
                let p = choose|p: Seq<u64>| walk_between(g, allowed@, dir, p, origin, v);
                lemma_walk_reached(g, allowed@, dir, origin, t, last, p, v);
            }
        }
    }
    tree
}

/// In a tree that is exhausted, the end of a walk from the origin is in the
/// tree, no deeper than the walk is long.
proof fn lemma_walk_reached(
    g: GraphView,
    allowed: Seq<EdgeType>,
    dir: TraversalDirection,
    origin: u64,
    tree: Map<u64, (u64, u64)>,
    round: nat,
    p: Seq<u64>,
    v: u64,
)
    requires
        tree_ok(g, allowed, dir, true, only(origin), tree, round),
        closed_below(g, allowed, dir, true, tree, round),
        frontier_ok(tree, Seq::<u64>::empty(), round),
        walk_between(g, allowed, dir, p, origin, v),
    ensures
        tree.contains_key(v),
        tree[v].1 <= p.len() - 1,
{
    lemma_exhausted(g, allowed, dir, true, only(origin), tree, round, p.len());
    assert(is_chain(g, allowed, dir, true, p)) by {
        assert forall|i: int| 0 <= i < p.len() - 1 implies hop(
            g,
            allowed,
            dir,
            true,
            #[trigger] p[i],
            p[i + 1],
        ) by {
            assert(arc(g, allowed, dir, p[i], p[i + 1]));
        }
    }
    lemma_reached(g, allowed, dir, true, only(origin), tree, round, p.len(), p);
}

/// The shape of a subgraph.
pub struct PatternMatch {
    /// For each kind of event, by its code, the number of nodes of that
    /// kind.
    pub event_type_counts: Vec<usize>,
    /// For each type of edge, by its code, the number of edges of that
    /// type.
    pub edge_type_counts: Vec<usize>,
    /// The largest number of CausedBy edges on a shortest chain of them
    /// within the subgraph.
    pub causal_chain_depth: u64,
    /// The number of edges, each of which leaves a node of the subgraph.
    pub out_edges: usize,
    /// The number of nodes.
    pub node_count: usize,
}

/// The only type that a causal chain follows.
pub open spec fn causal() -> Seq<EdgeType> {
    seq![EdgeType::CausedBy]
}

/// How many of the nodes are live nodes of the kind.
pub open spec fn count_kind(g: GraphView, nodes: Seq<u64>, t: EventType) -> nat
    decreases nodes.len(),
{
    if nodes.len() == 0 {
        0
    } else {
        count_kind(g, nodes.drop_last(), t) + if g.has_node(nodes.last()) && g.node(
            nodes.last(),
        ).event_type == t {
            1nat
        } else {
            0nat
        }
    }
}

/// Whether `d` is the depth of the longest causal chain: the largest reach
/// of a node of the subgraph along its CausedBy edges.
pub open spec fn is_chain_depth(nodes: Seq<u64>, edges: Seq<Edge>, d: nat) -> bool {
    &&& exists|i: int|
        0 <= i < nodes.len() && is_reach(
            of_edges(edges),
            causal(),
            TraversalDirection::Forward,
            #[trigger] nodes[i],
            d,
        )
    &&& forall|j: int, r: nat|
        0 <= j < nodes.len() && #[trigger] is_reach(
            of_edges(edges),
            causal(),
            TraversalDirection::Forward,
            nodes[j],
            r,
        ) ==> r <= d
}

/// Whether `p` is the shape of the subgraph.
pub open spec fn is_fingerprint(g: GraphView, nodes: Seq<u64>, edges: Seq<Edge>, p: PatternMatch) -> bool {
    &&& p.event_type_counts@.len() == 6
    &&& forall|t: EventType| #[trigger]
        p.event_type_counts@[t.code() as int] == count_kind(g, nodes, t)
    &&& p.edge_type_counts@.len() == 8
    &&& forall|t: EdgeType| #[trigger] p.edge_type_counts@[t.code() as int] == count_type(edges, t)
    &&& nodes.len() > 0 ==> is_chain_depth(nodes, edges, p.causal_chain_depth as nat)
    &&& nodes.len() == 0 ==> p.causal_chain_depth == 0
    &&& p.out_edges == edges.len()
    &&& p.node_count == nodes.len()
}

/// A node has one reach only.
pub proof fn lemma_reach_unique(
    g: GraphView,
    allowed: Seq<EdgeType>,
    dir: TraversalDirection,
    s: u64,
    a: nat,
    b: nat,
)
    requires
        is_reach(g, allowed, dir, s, a),
        is_reach(g, allowed, dir, s, b),
    ensures
        a == b,
{
    let va = choose|v: u64| #[trigger] at_distance(g, allowed, dir, s, v, a);
    let vb = choose|v: u64| #[trigger] at_distance(g, allowed, dir, s, v, b);
    assert(at_distance(g, allowed, dir, s, va, a));
    assert(at_distance(g, allowed, dir, s, vb, b));
}

/// A candidate for an analogy: a node with its surroundings and their
/// shape.
pub struct Candidate {
    pub center_id: u64,
    pub pattern: PatternMatch,
    pub subgraph: SubGraph,
}

/// What the search for analogies starts from.
pub struct AnalogyCandidates {
    /// The surroundings of the anchor.
    pub anchor: SubGraph,
    /// Their shape.
    pub anchor_pattern: PatternMatch,
    /// The candidates, in the order of the nodes.
    pub candidates: Vec<Candidate>,
}

/// Whether some node of the graph is of another session than `session`.
pub open spec fn has_other_session(g: GraphView, session: u32) -> bool {
    exists|i: int| 0 <= i < g.nodes.len() && (#[trigger] g.nodes[i]).session_id != session
}

/// Decides `has_other_session`.
fn finds_other_session(graph: &MemoryGraph, session: u32) -> (r: bool)
    ensures
        r == has_other_session(graph@, session),
{
    let nodes = graph.nodes();
    let mut i: usize = 0;
    while i < nodes.len()
        invariant
            i <= nodes@.len(),
            event_views(nodes@) == graph@.nodes,
            forall|j: int| 0 <= j < i ==> (#[trigger] graph@.nodes[j]).session_id == session,
        decreases nodes@.len() - i,
    {
        assert(graph@.nodes[i as int] == nodes@[i as int]@);
        if nodes[i].session_id != session {
            return true;
        }
        i += 1;
    }
    false
}

/// Whether a node is a candidate: it is not in the surroundings of the
/// anchor, its session is not excluded, and it is not of the anchor's
/// session unless the graph holds that session only.
pub open spec fn is_candidate(
    g: GraphView,
    anchor_nodes: Seq<u64>,
    anchor_session: u32,
    excluded: Seq<u32>,
    e: EventView,
) -> bool {
    &&& !anchor_nodes.contains(e.id)
    &&& !excluded.contains(e.session_id)
    &&& !(e.session_id == anchor_session && has_other_session(g, anchor_session))
}

/// The ids of the candidates among the nodes, in order.
pub open spec fn candidate_ids(
    g: GraphView,
    anchor_nodes: Seq<u64>,
    anchor_session: u32,
    excluded: Seq<u32>,
    nodes: Seq<EventView>,
) -> Seq<u64>
    decreases nodes.len(),
{
    if nodes.len() == 0 {
        Seq::empty()
    } else if is_candidate(g, anchor_nodes, anchor_session, excluded, nodes.last()) {
        candidate_ids(g, anchor_nodes, anchor_session, excluded, nodes.drop_last()).push(
            nodes.last().id,
        )
    } else {
        candidate_ids(g, anchor_nodes, anchor_session, excluded, nodes.drop_last())
    }
}

/// Whether `r` is what the search for analogies to the anchor starts from.
pub open spec fn is_analogy_base(
    g: GraphView,
    anchor: u64,
    depth: u32,
    excluded: Seq<u32>,
    r: AnalogyCandidates,
) -> bool {
    let ids = candidate_ids(g, r.anchor.nodes@, g.node(anchor).session_id, excluded, g.nodes);
    &&& is_context(g, anchor, depth, r.anchor)
    &&& is_fingerprint(g, r.anchor.nodes@, r.anchor.edges@, r.anchor_pattern)
    &&& r.candidates@.len() == ids.len()
    &&& forall|i: int|
        0 <= i < ids.len() ==> (#[trigger] r.candidates@[i]).center_id == ids[i] && is_context(
            g,
            ids[i],
            depth,
            r.candidates@[i].subgraph,
        ) && is_fingerprint(
            g,
            r.candidates@[i].subgraph.nodes@,
            r.candidates@[i].subgraph.edges@,
            r.candidates@[i].pattern,
        )
}

/// Whether `id` is in the list.
fn lists(list: &Vec<u64>, id: u64) -> (r: bool)
    ensures
        r == list@.contains(id),
{
    let mut i: usize = 0;
    while i < list.len()
        invariant
            i <= list@.len(),
            forall|j: int| 0 <= j < i ==> list@[j] != id,
        decreases list@.len() - i,
    {
        if list[i] == id {
            return true;
        }
        i += 1;
    }
    false
}

/// Whether `s` is in the list.
fn lists_session(list: &Vec<u32>, s: u32) -> (r: bool)
    ensures
        r == list@.contains(s),
{
    let mut i: usize = 0;
    while i < list.len()
        invariant
            i <= list@.len(),
            forall|j: int| 0 <= j < i ==> list@[j] != s,
        decreases list@.len() - i,
    {
        if list[i] == s {
            return true;
        }
        i += 1;
    }
    false
}

/// A list of `n` zeros.
fn zero_counts(n: usize) -> (r: Vec<usize>)
    ensures
        r@.len() == n,
        forall|i: int| 0 <= i < n ==> r@[i] == 0,
{
    let mut out: Vec<usize> = Vec::new();
    let mut i: usize = 0;
    while i < n
        invariant
            i <= n,
            out@.len() == i,
            forall|j: int| 0 <= j < i ==> out@[j] == 0,
        decreases n - i,
    {
        out.push(0);
        i += 1;
    }
    out
}

/// The number of edges of a type is no more than the number of edges.
proof fn lemma_count_type_bound(edges: Seq<Edge>, t: EdgeType)
    ensures
        count_type(edges, t) <= edges.len(),
    decreases edges.len(),
{
    if edges.len() > 0 {
        lemma_count_type_bound(edges.drop_last(), t);
    }
}

/// The number of nodes of a kind is no more than the number of nodes.
proof fn lemma_count_kind_bound(g: GraphView, nodes: Seq<u64>, t: EventType)
    ensures
        count_kind(g, nodes, t) <= nodes.len(),
    decreases nodes.len(),
{
    if nodes.len() > 0 {
        lemma_count_kind_bound(g, nodes.drop_last(), t);
    }
}

impl QueryEngine {
    /// The surroundings of a node: the nodes within `depth` steps of it,
    /// along edges of any type in either direction, and the edges between
    /// them.
    pub fn context(&self, graph: &MemoryGraph, center: u64, depth: u32) -> (r: Result<
        SubGraph,
        AmemError,
    >)
        requires
            graph.wf(),
        ensures
            r is Ok <==> graph@.has_node(center),
            r is Err ==> r->Err_0 == AmemError::NodeNotFound(center),
            r is Ok ==> is_context(graph@, center, depth, r->Ok_0),
    {
        broadcast use vstd::std_specs::hash::group_hash_axioms;
        broadcast use vstd::set::group_set_axioms;

        if !graph.contains_node(center) {
            return Err(AmemError::NodeNotFound(center));
        }
        let ghost g = graph@;
        let ghost roots = only(center);
        let ghost all = Seq::<EdgeType>::empty();
        let dir = TraversalDirection::Both;
        let allowed: Vec<EdgeType> = Vec::new();
        assert(allowed@ =~= all);
        let mut tree: HashMap<u64, (u64, u64)> = HashMap::new();
        tree.insert(center, (center, 0));
        let none: HashMap<u64, (u64, u64)> = HashMap::new();
        let mut frontier: Vec<u64> = Vec::new();
        frontier.push(center);
        let mut nodes: Vec<u64> = Vec::new();
        nodes.push(center);
        let mut round: u32 = 0;
        proof {
            assert(frontier@ =~= seq![center]);
            assert(nodes@ =~= seq![center]);
            assert forall|v: u64| frontier@.contains(v) <==> tree@.contains_key(v) && tree@[v].1
                == 0 by {
                if v == center {
                    assert(frontier@[0] == center);
                }
            }
            assert forall|v: u64| nodes@.contains(v) <==> tree@.contains_key(v) by {
                if v == center {
                    assert(nodes@[0] == center);
                }
            }
        }
        while round < depth && frontier.len() > 0
            invariant
                round <= depth,
                g == graph@,
                roots == only(center),
                all == Seq::<EdgeType>::empty(),
                allowed@ == all,
                dir == TraversalDirection::Both,
                none@ == Map::<u64, (u64, u64)>::empty(),
                tree_ok(g, all, dir, true, roots, tree@, round as nat),
                closed_below(g, all, dir, true, tree@, round as nat),
                frontier_ok(tree@, frontier@, round as nat),
                nodes@.len() >= 1,
                nodes@[0] == center,
                nodes@.no_duplicates(),
                forall|v: u64| nodes@.contains(v) <==> tree@.contains_key(v),
            decreases depth - round,
        {
            let ghost old_tree = tree@;
            let (met, next) = expand(
                graph.edges(),
                Ghost(graph@),
                &allowed,
                dir,
                true,
                &mut tree,
                &frontier,
                &none,
                round as u64,
                Ghost(roots),
            );
            let mut k: usize = 0;
            while k < next.len()
                invariant
                    k <= next@.len(),
                    next@.no_duplicates(),
                    nodes@.len() >= 1,
                    nodes@[0] == center,
                    nodes@.no_duplicates(),
                    forall|v: u64| #[trigger] next@.contains(v) ==> !old_tree.contains_key(v),
                    forall|v: u64|
                        nodes@.contains(v) <==> old_tree.contains_key(v) || exists|j: int|
                            0 <= j < k && next@[j] == v,
                decreases next@.len() - k,
            {
                let v = next[k];
                let ghost before = nodes@;
                assert(next@.contains(v));
                nodes.push(v);
                proof {
                    assert(!before.contains(v)) by {
                        if before.contains(v) {
                            let j = choose|j: int| 0 <= j < k && next@[j] == v;
                            assert(next@[j] != next@[k as int]);
                        }
                    }
                    assert forall|a: int, b: int|
                        0 <= a < nodes@.len() && 0 <= b < nodes@.len() && a != b implies nodes@[a]
                        != nodes@[b] by {
                        if a < before.len() && b < before.len() {
                            assert(before[a] != before[b]);
                        } else if a < before.len() {
                            assert(before.contains(before[a]));
                        } else {
                            assert(before.contains(before[b]));
                        }
                    }
                    assert forall|w: u64|
                        nodes@.contains(w) <==> old_tree.contains_key(w) || exists|j: int|
                            0 <= j < k + 1 && next@[j] == w by {
                        if nodes@.contains(w) {
                            let x = choose|x: int| 0 <= x < nodes@.len() && nodes@[x] == w;
                            if x < before.len() {
                                assert(before[x] == w);
                                assert(before.contains(w));
                            } else {
                                assert(next@[k as int] == w);
                            }
                        }
                        if before.contains(w) {
                            let x = choose|x: int| 0 <= x < before.len() && before[x] == w;
                            assert(nodes@[x] == w);
                        }
                        if w == v {
                            assert(nodes@[before.len() as int] == w);
                        }
                    }
                }
                k += 1;
            }
            proof {
                assert forall|v: u64| nodes@.contains(v) <==> tree@.contains_key(v) by {
                    if tree@.contains_key(v) && !old_tree.contains_key(v) {
                        assert(tree@[v].1 == round + 1);
                        assert(next@.contains(v));
                        let j = choose|j: int| 0 <= j < next@.len() && next@[j] == v;
                    }
                    if exists|j: int| 0 <= j < next@.len() && next@[j] == v {
                        let j = choose|j: int| 0 <= j < next@.len() && next@[j] == v;
                        assert(next@.contains(next@[j]));
                    }
                }
            }
            frontier = next;
            round += 1;
        }
        proof {
            let t = tree@;
            let cap = depth as nat;
            if round < depth {
                assert(frontier@ =~= Seq::<u64>::empty());
                lemma_exhausted(g, all, dir, true, roots, t, round as nat, cap);
            }
            assert forall|v: u64| nodes@.contains(v) <==> in_context(g, center, depth, v) by {
                if t.contains_key(v) {
                    let q = lemma_tree_walk(g, all, dir, roots, t, round as nat, v);
                    assert(q[0] == center);
                    if v != center {
                        assert(t[v].1 <= round);
                    }
                    assert(walk_between(g, all, dir, q, center, v) && q.len() - 1 <= cap);
                }
                if in_context(g, center, depth, v) {
                    let q = choose|q: Seq<u64>|
                        walk_between(g, all, dir, q, center, v) && q.len() - 1 <= cap;
                    assert(is_chain(g, all, dir, true, q)) by {
                        assert forall|i: int| 0 <= i < q.len() - 1 implies hop(
                            g,
                            all,
                            dir,
                            true,
                            #[trigger] q[i],
                            q[i + 1],
                        ) by {
                            assert(arc(g, all, dir, q[i], q[i + 1]));
                        }
                    }
                    lemma_reached(g, all, dir, true, roots, t, round as nat, cap, q);
                }
            }
        }
        let edges = graph.edges();
        let mut kept: Vec<Edge> = Vec::new();
        let mut k: usize = 0;
        assert(g.edges.take(0) =~= Seq::<Edge>::empty());
        while k < edges.len()
            invariant
                k <= edges@.len(),
                edges@ == g.edges,
                forall|v: u64| nodes@.contains(v) <==> tree@.contains_key(v),
                kept@ == edges_within(g.edges.take(k as int), nodes@.to_set()),
            decreases edges@.len() - k,
        {
            assert(g.edges.take(k + 1).drop_last() =~= g.edges.take(k as int));
            let e = edges[k];
            if tree.contains_key(&e.source_id) && tree.contains_key(&e.target_id) {
                kept.push(e);
            }
            k += 1;
        }
        assert(g.edges.take(k as int) =~= g.edges);
        Ok(SubGraph { center_id: center, nodes, edges: kept })
    }

    /// The shape of a subgraph given by its nodes and its edges.
    pub fn structural_fingerprint(&self, graph: &MemoryGraph, nodes: &Vec<u64>, edges: &Vec<Edge>) -> (r:
        PatternMatch)
        requires
            graph.wf(),
        ensures
            is_fingerprint(graph@, nodes@, edges@, r),
    {
        let ghost g = graph@;
        let mut kinds = zero_counts(6);
        let mut i: usize = 0;
        assert(nodes@.take(0) =~= Seq::<u64>::empty());
        while i < nodes.len()
            invariant
                i <= nodes@.len(),
                g == graph@,
                graph.wf(),
                kinds@.len() == 6,
                forall|t: EventType| #[trigger]
                    kinds@[t.code() as int] == count_kind(g, nodes@.take(i as int), t),
            decreases nodes@.len() - i,
        {
            assert(nodes@.take(i + 1).drop_last() =~= nodes@.take(i as int));
            assert(nodes@.take(i + 1).last() == nodes@[i as int]);
            match graph.get_node(nodes[i]) {
                None => {},
                Some(node) => {
                    let c = node.event_type.to_u8() as usize;
                    let ghost before = kinds@;
                    proof {
                        lemma_count_kind_bound(g, nodes@.take(i as int), node.event_type);
                    }
                    let n = kinds[c];
                    kinds.set(c, n + 1);
                    proof {
                        assert forall|t: EventType| #[trigger]
                            kinds@[t.code() as int] == count_kind(g, nodes@.take(i + 1), t) by {
                            assert(before[t.code() as int] == count_kind(
                                g,
                                nodes@.take(i as int),
                                t,
                            ));
                            if t.code() == c {
                                t.lemma_code_round_trip();
                                node.event_type.lemma_code_round_trip();
                            }
                        }
                    }
                },
            }
            i += 1;
        }
        assert(nodes@.take(i as int) =~= nodes@);
        let mut types = zero_counts(8);
        let mut k: usize = 0;
        assert(edges@.take(0) =~= Seq::<Edge>::empty());
        while k < edges.len()
            invariant
                k <= edges@.len(),
                types@.len() == 8,
                forall|t: EdgeType| #[trigger]
                    types@[t.code() as int] == count_type(edges@.take(k as int), t),
            decreases edges@.len() - k,
        {
            assert(edges@.take(k + 1).drop_last() =~= edges@.take(k as int));
            assert(edges@.take(k + 1).last() == edges@[k as int]);
            let c = edges[k].edge_type.to_u8() as usize;
            let ghost before = types@;
            proof {
                lemma_count_type_bound(edges@.take(k as int), edges@[k as int].edge_type);
            }
            let n = types[c];
            types.set(c, n + 1);
            proof {
                assert forall|t: EdgeType| #[trigger]
                    types@[t.code() as int] == count_type(edges@.take(k + 1), t) by {
                    assert(before[t.code() as int] == count_type(edges@.take(k as int), t));
                    if t.code() == c {
                        t.lemma_code_round_trip();
                        edges@[k as int].edge_type.lemma_code_round_trip();
                    }
                }
            }
            k += 1;
        }
        assert(edges@.take(k as int) =~= edges@);
        let mut only_causal: Vec<EdgeType> = Vec::new();
        only_causal.push(EdgeType::CausedBy);
        assert(only_causal@ =~= causal());
        let ghost sub = of_edges(edges@);
        let mut depth: u64 = 0;
        let mut m: usize = 0;
        let ghost mut best: int = 0;
        while m < nodes.len()
            invariant
                m <= nodes@.len(),
                only_causal@ == causal(),
                sub == of_edges(edges@),
                m > 0 ==> 0 <= best < m && is_reach(
                    sub,
                    causal(),
                    TraversalDirection::Forward,
                    nodes@[best],
                    depth as nat,
                ),
                m == 0 ==> depth == 0,
                forall|j: int, r: nat|
                    0 <= j < m && #[trigger] is_reach(
                        sub,
                        causal(),
                        TraversalDirection::Forward,
                        nodes@[j],
                        r,
                    ) ==> r <= depth,
            decreases nodes@.len() - m,
        {
            let d = farthest(edges, &only_causal, TraversalDirection::Forward, nodes[m], Ghost(sub));
            let ghost old_depth = depth;
            if m == 0 || d > depth {
                depth = d;
                proof {
                    best = m as int;
                }
            }
            proof {
                assert forall|j: int, r: nat|
                    0 <= j < m + 1 && #[trigger] is_reach(
                        sub,
                        causal(),
                        TraversalDirection::Forward,
                        nodes@[j],
                        r,
                    ) implies r <= depth by {
                    if j == m {
                        lemma_reach_unique(
                            sub,
                            causal(),
                            TraversalDirection::Forward,
                            nodes@[j],
                            r,
                            d as nat,
                        );
                    } else {
                        assert(r <= old_depth);
                    }
                }
            }
            m += 1;
        }
        proof {
            if nodes@.len() > 0 {
                assert(is_reach(
                    sub,
                    causal(),
                    TraversalDirection::Forward,
                    nodes@[best],
                    depth as nat,
                ));
            }
        }
        PatternMatch {
            event_type_counts: kinds,
            edge_type_counts: types,
            causal_chain_depth: depth,
            out_edges: edges.len(),
            node_count: nodes.len(),
        }
    }

    /// What the search for analogies to the anchor starts from: the
    /// surroundings of the anchor, and the surroundings of every
    /// candidate, each with its shape.
    pub fn analogical(
        &self,
        graph: &MemoryGraph,
        anchor: u64,
        context_depth: u32,
        exclude_sessions: &Vec<u32>,
    ) -> (r: Result<AnalogyCandidates, AmemError>)
        requires
            graph.wf(),
        ensures
            r is Ok <==> graph@.has_node(anchor),
            r is Err ==> r->Err_0 == AmemError::NodeNotFound(anchor),
            r is Ok ==> is_analogy_base(graph@, anchor, context_depth, exclude_sessions@, r->Ok_0),
    {
        let ghost g = graph@;
        let anchor_sub = match self.context(graph, anchor, context_depth) {
            Err(e) => {
                return Err(e);
            },
            Ok(sub) => sub,
        };
        let anchor_session = match graph.get_node(anchor) {
            Some(node) => node.session_id,
            None => 0,
        };
        let anchor_pattern = self.structural_fingerprint(graph, &anchor_sub.nodes, &anchor_sub.edges);
        let nodes = graph.nodes();
        let mixed = finds_other_session(graph, anchor_session);
        let mut out: Vec<Candidate> = Vec::new();
        let mut i: usize = 0;
        assert(g.nodes.take(0) =~= Seq::<EventView>::empty());
        while i < nodes.len()
            invariant
                i <= nodes@.len(),
                g == graph@,
                graph.wf(),
                mixed == has_other_session(g, anchor_session),
                event_views(nodes@) == g.nodes,
                anchor_session == g.node(anchor).session_id,
                out@.len() == candidate_ids(
                    g,
                    anchor_sub.nodes@,
                    anchor_session,
                    exclude_sessions@,
                    g.nodes.take(i as int),
                ).len(),
                forall|x: int|
                    0 <= x < out@.len() ==> (#[trigger] out@[x]).center_id == candidate_ids(
                        g,
                        anchor_sub.nodes@,
                        anchor_session,
                        exclude_sessions@,
                        g.nodes.take(i as int),
                    )[x] && is_context(g, out@[x].center_id, context_depth, out@[x].subgraph)
                        && is_fingerprint(
                        g,
                        out@[x].subgraph.nodes@,
                        out@[x].subgraph.edges@,
                        out@[x].pattern,
                    ),
            decreases nodes@.len() - i,
        {
            let ghost prev = g.nodes.take(i as int);
            let ghost next = g.nodes.take(i + 1);
            assert(next.drop_last() =~= prev);
            assert(next.last() == nodes@[i as int]@);
            assert(g.nodes[i as int] == nodes@[i as int]@);
            let node = &nodes[i];
            let take = !lists(&anchor_sub.nodes, node.id) && !lists_session(
                exclude_sessions,
                node.session_id,
            ) && !(node.session_id == anchor_session && mixed);
            if take {
                assert(g.has_node(node.id)) by {
                    assert(g.nodes[i as int].id == node.id);
                }
                match self.context(graph, node.id, context_depth) {
                    Err(_) => {
                        assert(false);
                    },
                    Ok(sub) => {
                        let pattern = self.structural_fingerprint(graph, &sub.nodes, &sub.edges);
                        let ghost before = out@;
                        out.push(Candidate { center_id: node.id, pattern, subgraph: sub });
                        proof {
                            let ids_prev = candidate_ids(
                                g,
                                anchor_sub.nodes@,
                                anchor_session,
                                exclude_sessions@,
                                prev,
                            );
                            assert forall|x: int| 0 <= x < out@.len() implies (
                            #[trigger] out@[x]).center_id == candidate_ids(
                                g,
                                anchor_sub.nodes@,
                                anchor_session,
                                exclude_sessions@,
                                next,
                            )[x] && is_context(
                                g,
                                out@[x].center_id,
                                context_depth,
                                out@[x].subgraph,
                            ) && is_fingerprint(
                                g,
                                out@[x].subgraph.nodes@,
                                out@[x].subgraph.edges@,
                                out@[x].pattern,
                            ) by {
                                if x < before.len() {
                                    assert(out@[x] == before[x]);
                                    assert(before[x].center_id == ids_prev[x]);
                                }
                            }
                        }
                    },
                }
            }
            i += 1;
        }
        assert(g.nodes.take(i as int) =~= g.nodes);
        Ok(AnalogyCandidates { anchor: anchor_sub, anchor_pattern, candidates: out })
    }
}

} // verus!
