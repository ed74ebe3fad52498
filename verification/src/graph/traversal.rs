//! Moving along edges: directions, single steps and walks.

use vstd::prelude::*;
use std::collections::HashSet;
use crate::graph::{lemma_node_ids_finite, lemma_visit, GraphView, MemoryGraph};
use crate::types::{edge_type_allowed, edge_type_passes, Edge, EdgeType};

verus! {

/// The direction in which edges are followed.
#[derive(Clone, Copy, Debug, PartialEq, Eq, Structural)]
pub enum TraversalDirection {
    /// From an edge's source to its target.
    Forward,
    /// From an edge's target to its source.
    Backward,
    /// Either way.
    Both,
}

/// Whether the edge `e` leads from `u` to `v` under the filter and direction.
pub open spec fn joins(
    e: Edge,
    allowed: Seq<EdgeType>,
    dir: TraversalDirection,
    u: u64,
    v: u64,
) -> bool {
    edge_type_allowed(allowed, e.edge_type) && ((dir != TraversalDirection::Backward && e.source_id
        == u && e.target_id == v) || (dir != TraversalDirection::Forward && e.target_id == u
        && e.source_id == v))
}

/// Whether one step leads from `u` to `v`: some edge joins them.
pub open spec fn arc(
    g: GraphView,
    allowed: Seq<EdgeType>,
    dir: TraversalDirection,
    u: u64,
    v: u64,
) -> bool {
    exists|k: int| 0 <= k < g.edges.len() && joins(#[trigger] g.edges[k], allowed, dir, u, v)
}

/// A step as a search takes it: a search from the start follows arcs, a
/// search from the goal follows them against their direction.
pub open spec fn hop(
    g: GraphView,
    allowed: Seq<EdgeType>,
    dir: TraversalDirection,
    forward: bool,
    u: u64,
    v: u64,
) -> bool {
    if forward {
        arc(g, allowed, dir, u, v)
    } else {
        arc(g, allowed, dir, v, u)
    }
}

/// Whether each node of `p` is one step from the node before it.
pub open spec fn is_walk(
    g: GraphView,
    allowed: Seq<EdgeType>,
    dir: TraversalDirection,
    p: Seq<u64>,
) -> bool {
    forall|i: int| 0 <= i < p.len() - 1 ==> arc(g, allowed, dir, #[trigger] p[i], p[i + 1])
}

/// Whether `p` is a walk from `s` to `t`.
pub open spec fn walk_between(
    g: GraphView,
    allowed: Seq<EdgeType>,
    dir: TraversalDirection,
    p: Seq<u64>,
    s: u64,
    t: u64,
) -> bool {
    p.len() >= 1 && p[0] == s && p.last() == t && is_walk(g, allowed, dir, p)
}

/// The nodes one hop from `u` along the given edges, each once for every
/// edge that leads to it.
pub(crate) fn neighbors(
    edges: &Vec<Edge>,
    allowed: &Vec<EdgeType>,
    dir: TraversalDirection,
    forward: bool,
    u: u64,
    Ghost(g): Ghost<GraphView>,
) -> (r: Vec<u64>)
    requires
        edges@ == g.edges,
    ensures
        forall|v: u64| r@.contains(v) <==> hop(g, allowed@, dir, forward, u, v),
{
    let mut out: Vec<u64> = Vec::new();
    let mut k: usize = 0;
    while k < edges.len()
        invariant
            k <= edges@.len(),
            edges@ == g.edges,
            forall|v: u64|
                out@.contains(v) <==> exists|l: int|
                    0 <= l < k && if forward {
                        joins(#[trigger] edges@[l], allowed@, dir, u, v)
                    } else {
                        joins(edges@[l], allowed@, dir, v, u)
                    },
        decreases edges@.len() - k,
    {
        let e = edges[k];
        let ghost before = out@;
        let ok = edge_type_passes(allowed, e.edge_type);
        let along = if forward {
            dir != TraversalDirection::Backward
        } else {
            dir != TraversalDirection::Forward
        };
        let against = if forward {
            dir != TraversalDirection::Forward
        } else {
            dir != TraversalDirection::Backward
        };
        let take_target = ok && along && e.source_id == u;
        let take_source = ok && against && e.target_id == u;
        if take_target {
            out.push(e.target_id);
        }
        let ghost middle = out@;
        if take_source {
            out.push(e.source_id);
        }
        proof {
            assert forall|v: u64|
                out@.contains(v) <==> exists|l: int|
                    0 <= l < k + 1 && if forward {
                        joins(#[trigger] edges@[l], allowed@, dir, u, v)
                    } else {
                        joins(edges@[l], allowed@, dir, v, u)
                    } by {
                let here = if forward {
                    joins(e, allowed@, dir, u, v)
                } else {
                    joins(e, allowed@, dir, v, u)
                };
                assert(here <==> (take_target && v == e.target_id) || (take_source && v
                    == e.source_id));
                if out@.contains(v) {
                    let j = choose|j: int| 0 <= j < out@.len() && out@[j] == v;
                    if j < before.len() {
                        assert(before[j] == v);
                        assert(before.contains(v));
                    } else {
                        assert(here);
                        assert(edges@[k as int] == e);
                    }
                }
                if before.contains(v) {
                    let j = choose|j: int| 0 <= j < before.len() && before[j] == v;
                    assert(middle[j] == v);
                    assert(out@[j] == v);
                }
                if here {
                    if take_target && v == e.target_id {
                        assert(middle[before.len() as int] == v);
                        assert(out@[before.len() as int] == v);
                    } else {
                        assert(out@[middle.len() as int] == v);
                    }
                }
                if exists|l: int|
                    0 <= l < k + 1 && if forward {
                        joins(#[trigger] edges@[l], allowed@, dir, u, v)
                    } else {
                        joins(edges@[l], allowed@, dir, v, u)
                    } {
                    let l = choose|l: int|
                        0 <= l < k + 1 && if forward {
                            joins(#[trigger] edges@[l], allowed@, dir, u, v)
                        } else {
                            joins(edges@[l], allowed@, dir, v, u)
                        };
                    if l < k {
                        assert(before.contains(v));
                    } else {
                        assert(here);
                    }
                }
            }
        }
        k += 1;
    }
    out
}

/// The node at the far end of an edge that touches `u`: its source if the
/// edge is taken as entering `u`, its target if it is taken as leaving `u`.
pub open spec fn far_end(e: Edge, incoming: bool) -> u64 {
    if incoming {
        e.source_id
    } else {
        e.target_id
    }
}

/// Whether edge `k` has type `t`, touches `u` at the near end and leads to a
/// node that has not been seen.
pub open spec fn leads_on(
    edges: Seq<Edge>,
    u: u64,
    t: EdgeType,
    incoming: bool,
    seen: Set<u64>,
    k: int,
) -> bool {
    &&& 0 <= k < edges.len()
    &&& edges[k].edge_type == t
    &&& far_end(edges[k], !incoming) == u
    &&& !seen.contains(far_end(edges[k], incoming))
}

/// Whether edge `k` is the first that leads on from `u`.
pub open spec fn first_leads_on(
    edges: Seq<Edge>,
    u: u64,
    t: EdgeType,
    incoming: bool,
    seen: Set<u64>,
    k: int,
) -> bool {
    leads_on(edges, u, t, incoming, seen, k) && forall|l: int|
        0 <= l < k ==> !leads_on(edges, u, t, incoming, seen, l)
}

/// The unseen node that the first edge of type `t` at `u` leads to, if any.
pub open spec fn next_unseen(
    edges: Seq<Edge>,
    u: u64,
    t: EdgeType,
    incoming: bool,
    seen: Set<u64>,
) -> Option<u64> {
    if exists|k: int| first_leads_on(edges, u, t, incoming, seen, k) {
        Some(
            far_end(edges[choose|k: int| first_leads_on(edges, u, t, incoming, seen, k)], incoming),
        )
    } else {
        None
    }
}

/// Whether `trail` is the trail from its first node: each node is followed
/// by the unseen node that its first edge of type `t` leads to, where the
/// nodes of `seen` and the nodes of the trail so far count as seen, and
/// from its last node no such edge leads on.
pub open spec fn is_trail(
    g: GraphView,
    t: EdgeType,
    incoming: bool,
    trail: Seq<u64>,
    seen: Set<u64>,
) -> bool {
    &&& trail.len() >= 1
    &&& forall|i: int|
        0 <= i < trail.len() - 1 ==> next_unseen(
            g.edges,
            #[trigger] trail[i],
            t,
            incoming,
            seen.union(trail.take(i + 1).to_set()),
        ) == Some(trail[i + 1])
    &&& next_unseen(g.edges, trail.last(), t, incoming, seen.union(trail.to_set())) is None
}

/// The unseen node that the first edge of type `t` at `u` leads to, if any.
pub fn find_next_unseen(
    graph: &MemoryGraph,
    u: u64,
    t: EdgeType,
    incoming: bool,
    seen: &HashSet<u64>,
) -> (r: Option<u64>)
    ensures
        r == next_unseen(graph@.edges, u, t, incoming, seen@),
        r is Some ==> !seen@.contains(r->0) && exists|k: int|
            0 <= k < graph@.edges.len() && far_end(#[trigger] graph@.edges[k], incoming) == r->0,
{
    broadcast use vstd::std_specs::hash::group_hash_axioms;

    let edges = graph.edges();
    let mut k: usize = 0;
    while k < edges.len()
        invariant
            k <= edges@.len(),
            edges@ == graph@.edges,
            forall|l: int| 0 <= l < k ==> !leads_on(edges@, u, t, incoming, seen@, l),
        decreases edges@.len() - k,
    {
        let e = edges[k];
        let near = if incoming { e.target_id } else { e.source_id };
        let far = if incoming { e.source_id } else { e.target_id };
        if e.edge_type == t && near == u && !seen.contains(&far) {
            proof {
                assert(first_leads_on(edges@, u, t, incoming, seen@, k as int));
                let c = choose|c: int| first_leads_on(edges@, u, t, incoming, seen@, c);
                assert(c == k) by {
                    if c < k {
                        assert(!leads_on(edges@, u, t, incoming, seen@, c));
                    } else if c > k {
                        assert(!leads_on(edges@, u, t, incoming, seen@, k as int));
                    }
                }
            }
            return Some(far);
        }
        k += 1;
    }
    proof {
        if exists|c: int| first_leads_on(edges@, u, t, incoming, seen@, c) {
            let c = choose|c: int| first_leads_on(edges@, u, t, incoming, seen@, c);
            assert(!leads_on(edges@, u, t, incoming, seen@, c));
        }
    }
    None
}

/// Follows the trail from `start` and marks its nodes as seen.
pub fn follow_trail(
    graph: &MemoryGraph,
    start: u64,
    t: EdgeType,
    incoming: bool,
    seen: &mut HashSet<u64>,
) -> (trail: Vec<u64>)
    requires
        graph.wf(),
        old(seen)@.contains(start),
    ensures
        is_trail(graph@, t, incoming, trail@, old(seen)@),
        trail@[0] == start,
        final(seen)@ == old(seen)@.union(trail@.to_set()),
        forall|i: int| 1 <= i < trail@.len() ==> graph@.has_node(#[trigger] trail@[i]) && !old(
            seen,
        )@.contains(trail@[i]),
        trail@.no_duplicates(),
{
    broadcast use vstd::std_specs::hash::group_hash_axioms;
    broadcast use vstd::set::group_set_axioms;

    let ghost g = graph@;
    let ghost seen0 = seen@;
    let mut trail: Vec<u64> = Vec::new();
    trail.push(start);
    let mut current = start;
    proof {
        lemma_node_ids_finite(g);
        assert(trail@ =~= seq![start]);
        assert(seen0.union(trail@.to_set()) =~= seen0) by {
            assert forall|x: u64| trail@.to_set().contains(x) implies seen0.contains(x) by {
                let i = choose|i: int| 0 <= i < trail@.len() && trail@[i] == x;
            }
        }
    }
    loop
        invariant
            g == graph@,
            g.wf(),
            g.node_ids().finite(),
            seen0 == old(seen)@,
            seen0.contains(start),
            trail@.len() >= 1,
            trail@[0] == start,
            trail@.last() == current,
            seen@ == seen0.union(trail@.to_set()),
            trail@.no_duplicates(),
            forall|i: int|
                1 <= i < trail@.len() ==> g.has_node(#[trigger] trail@[i]) && !seen0.contains(
                    trail@[i],
                ),
            forall|i: int|
                0 <= i < trail@.len() - 1 ==> next_unseen(
                    g.edges,
                    #[trigger] trail@[i],
                    t,
                    incoming,
                    seen0.union(trail@.take(i + 1).to_set()),
                ) == Some(trail@[i + 1]),
        ensures
            is_trail(g, t, incoming, trail@, seen0),
            trail@[0] == start,
            seen@ == seen0.union(trail@.to_set()),
            trail@.no_duplicates(),
            forall|i: int|
                1 <= i < trail@.len() ==> g.has_node(#[trigger] trail@[i]) && !seen0.contains(
                    trail@[i],
                ),
        decreases g.node_ids().difference(seen@).len(),
    {
        match find_next_unseen(graph, current, t, incoming, seen) {
            None => {
                break;
            },
            Some(w) => {
                let ghost before = trail@;
                proof {
                    let k = choose|k: int|
                        0 <= k < g.edges.len() && far_end(#[trigger] g.edges[k], incoming) == w;
                    assert(g.has_node(g.edges[k].source_id) && g.has_node(g.edges[k].target_id));
                    lemma_visit(g.node_ids(), seen@, w);
                }
                seen.insert(w);
                trail.push(w);
                current = w;
                proof {
                    let after = trail@;
                    assert(after.take(before.len() as int) =~= before);
                    assert(!before.contains(w)) by {
                        if before.contains(w) {
                            assert(before.to_set().contains(w));
                        }
                    }
                    assert(seen@ =~= seen0.union(after.to_set())) by {
                        assert forall|x: u64| after.to_set().contains(x) <==> before.to_set().contains(
                            x,
                        ) || x == w by {
                            if after.contains(x) {
                                let i = choose|i: int| 0 <= i < after.len() && after[i] == x;
                                if i < before.len() {
                                    assert(before[i] == x);
                                    assert(before.contains(x));
                                }
                            }
                            if before.contains(x) {
                                let i = choose|i: int| 0 <= i < before.len() && before[i] == x;
                                assert(after[i] == x);
                            }
                            if x == w {
                                assert(after[before.len() as int] == w);
                            }
                        }
                    }
                    assert forall|i: int| 0 <= i < after.len() - 1 implies next_unseen(
                        g.edges,
                        #[trigger] after[i],
                        t,
                        incoming,
                        seen0.union(after.take(i + 1).to_set()),
                    ) == Some(after[i + 1]) by {
                        if i < before.len() - 1 {
                            assert(after.take(i + 1) =~= before.take(i + 1));
                            assert(after[i] == before[i] && after[i + 1] == before[i + 1]);
                        }
                    }
                    assert forall|a: int, b: int|
                        0 <= a < after.len() && 0 <= b < after.len() && a != b implies after[a]
                        != after[b] by {
                        if a < before.len() && b < before.len() {
                            assert(before[a] != before[b]);
                        } else if a < before.len() {
                            assert(before.contains(before[a]));
                        } else {
                            assert(before.contains(before[b]));
                        }
                    }
                    assert forall|i: int| 1 <= i < after.len() implies g.has_node(
                        #[trigger] after[i],
                    ) && !seen0.contains(after[i]) by {
                        if i < before.len() {
                            assert(after[i] == before[i]);
                        }
                    }
                }
            },
        }
    }
    trail
}

} // verus!
