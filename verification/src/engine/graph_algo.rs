//! Shortest paths and the discrete part of centrality.

use vstd::prelude::*;
use std::collections::HashMap;
use crate::graph::event_views;
use crate::graph::traversal::{arc, hop, is_walk, joins, neighbors, walk_between, TraversalDirection};
use crate::graph::{GraphView, MemoryGraph};
use crate::index::sorted::{ascending, lower_bound};
use crate::types::{edge_type_allowed, edge_type_passes, event_type_allowed, event_type_passes,
    AmemError, Edge, EdgeType, EventType, EventView};

verus! {

/// Parameters of a shortest-path query.
pub struct ShortestPathParams {
    pub source_id: u64,
    pub target_id: u64,
    /// The edge types that may be followed; empty means all.
    pub edge_types: Vec<EdgeType>,
    pub direction: TraversalDirection,
    /// Bound on the number of steps.
    pub max_depth: u32,
    /// Whether the cheapest rather than the shortest walk is asked for.
    pub weighted: bool,
}

/// Answer to a shortest-path query.
pub struct PathResult {
    /// The nodes from source to target, both included; empty if none was found.
    pub path: Vec<u64>,
    /// The edges taken, in order.
    pub edges: Vec<Edge>,
    /// The number of steps, or the sum of the edge costs in a weighted query.
    pub cost: u64,
    pub found: bool,
}

/// A search tree: for each node reached, the node it was reached from and
/// its depth. The view of such a tree is well formed for a search from
/// `roots` that has run `round` rounds if parents are one level up and one
/// hop away.
pub open spec fn tree_ok(
    g: GraphView,
    allowed: Seq<EdgeType>,
    dir: TraversalDirection,
    forward: bool,
    roots: Set<u64>,
    tree: Map<u64, (u64, u64)>,
    round: nat,
) -> bool {
    &&& forall|r: u64| #[trigger] roots.contains(r) ==> tree.contains_key(r) && tree[r] == (r, 0u64)
    &&& forall|v: u64| #[trigger]
        tree.contains_key(v) && !roots.contains(v) ==> {
            &&& tree[v].1 >= 1
            &&& tree[v].1 <= round
            &&& tree.contains_key(tree[v].0)
            &&& tree[tree[v].0].1 == tree[v].1 - 1
            &&& hop(g, allowed, dir, forward, tree[v].0, v)
        }
}

/// The set with `x` alone.
pub open spec fn only(x: u64) -> Set<u64> {
    set![x]
}

/// Whether every hop from a node of depth below `bound` leads into the tree,
/// at most one level down.
pub open spec fn closed_below(
    g: GraphView,
    allowed: Seq<EdgeType>,
    dir: TraversalDirection,
    forward: bool,
    tree: Map<u64, (u64, u64)>,
    bound: nat,
) -> bool {
    forall|u: u64, v: u64|
        #![trigger tree.contains_key(u), hop(g, allowed, dir, forward, u, v)]
        tree.contains_key(u) && tree[u].1 < bound && hop(g, allowed, dir, forward, u, v)
            ==> tree.contains_key(v) && tree[v].1 <= tree[u].1 + 1
}

/// Whether `frontier` holds exactly the nodes of depth `round`.
pub open spec fn frontier_ok(tree: Map<u64, (u64, u64)>, frontier: Seq<u64>, round: nat) -> bool {
    forall|v: u64| frontier.contains(v) <==> tree.contains_key(v) && tree[v].1 == round
}

/// Whether the two trees share no node.
pub open spec fn disjoint(a: Map<u64, (u64, u64)>, b: Map<u64, (u64, u64)>) -> bool {
    forall|v: u64| !(a.contains_key(v) && b.contains_key(v))
}

/// Whether each node of `q` is one hop from the node before it.
pub open spec fn is_chain(
    g: GraphView,
    allowed: Seq<EdgeType>,
    dir: TraversalDirection,
    forward: bool,
    q: Seq<u64>,
) -> bool {
    forall|i: int| 0 <= i < q.len() - 1 ==> hop(g, allowed, dir, forward, #[trigger] q[i], q[i + 1])
}

/// The end of a chain from a root that is no longer than `bound` is in
/// the tree, no deeper than the chain is long.
pub proof fn lemma_reached(
    g: GraphView,
    allowed: Seq<EdgeType>,
    dir: TraversalDirection,
    forward: bool,
    roots: Set<u64>,
    tree: Map<u64, (u64, u64)>,
    round: nat,
    bound: nat,
    q: Seq<u64>,
)
    requires
        tree_ok(g, allowed, dir, forward, roots, tree, round),
        closed_below(g, allowed, dir, forward, tree, bound),
        q.len() >= 1,
        roots.contains(q[0]),
        is_chain(g, allowed, dir, forward, q),
        q.len() - 1 <= bound,
    ensures
        tree.contains_key(q.last()),
        tree[q.last()].1 <= q.len() - 1,
    decreases q.len(),
{
    if q.len() > 1 {
        let p = q.drop_last();
        assert(is_chain(g, allowed, dir, forward, p)) by {
            assert forall|i: int| 0 <= i < p.len() - 1 implies hop(
                g,
                allowed,
                dir,
                forward,
                #[trigger] p[i],
                p[i + 1],
            ) by {
                assert(p[i] == q[i] && p[i + 1] == q[i + 1]);
            }
        }
        lemma_reached(g, allowed, dir, forward, roots, tree, round, bound, p);
        let u = p.last();
        let v = q.last();
        assert(u == q[q.len() - 2]);
        assert(hop(g, allowed, dir, forward, q[q.len() - 2], q[q.len() - 2 + 1]));
        assert(tree.contains_key(u) && hop(g, allowed, dir, forward, u, v));
    }
}

/// A tree whose deepest level is empty is closed at every depth.
pub proof fn lemma_exhausted(
    g: GraphView,
    allowed: Seq<EdgeType>,
    dir: TraversalDirection,
    forward: bool,
    roots: Set<u64>,
    tree: Map<u64, (u64, u64)>,
    round: nat,
    bound: nat,
)
    requires
        tree_ok(g, allowed, dir, forward, roots, tree, round),
        closed_below(g, allowed, dir, forward, tree, round),
        frontier_ok(tree, Seq::<u64>::empty(), round),
    ensures
        closed_below(g, allowed, dir, forward, tree, bound),
{
    assert forall|u: u64, v: u64|
        #![trigger tree.contains_key(u), hop(g, allowed, dir, forward, u, v)]
        tree.contains_key(u) && tree[u].1 < bound && hop(
            g,
            allowed,
            dir,
            forward,
            u,
            v,
        ) implies tree.contains_key(v) && tree[v].1 <= tree[u].1 + 1 by {
        assert(!Seq::<u64>::empty().contains(u));
        assert(tree[u].1 != round);
        assert(tree[u].1 <= round);
    }
}

/// The reverse of a sequence.
pub open spec fn reversed(s: Seq<u64>) -> Seq<u64> {
    Seq::new(s.len(), |i: int| s[s.len() - 1 - i])
}

/// While the two trees share no node, every walk from the start to the goal
/// is longer than the two bounds together.
pub proof fn lemma_walks_are_long(
    g: GraphView,
    allowed: Seq<EdgeType>,
    dir: TraversalDirection,
    s: u64,
    t: u64,
    ftree: Map<u64, (u64, u64)>,
    btree: Map<u64, (u64, u64)>,
    fround: nat,
    bround: nat,
    a: nat,
    b: nat,
    p: Seq<u64>,
)
    requires
        tree_ok(g, allowed, dir, true, only(s), ftree, fround),
        tree_ok(g, allowed, dir, false, only(t), btree, bround),
        closed_below(g, allowed, dir, true, ftree, a),
        closed_below(g, allowed, dir, false, btree, b),
        disjoint(ftree, btree),
        walk_between(g, allowed, dir, p, s, t),
    ensures
        p.len() - 1 > a + b,
{
    broadcast use vstd::set::group_set_axioms;

    if p.len() - 1 <= a + b {
        let len = (p.len() - 1) as int;
        let i = if len <= a { len } else { a as int };
        let head = p.take(i + 1);
        let tail = reversed(p.skip(i));
        assert(is_chain(g, allowed, dir, true, head)) by {
            assert forall|k: int| 0 <= k < head.len() - 1 implies hop(
                g,
                allowed,
                dir,
                true,
                #[trigger] head[k],
                head[k + 1],
            ) by {
                assert(head[k] == p[k] && head[k + 1] == p[k + 1]);
                assert(arc(g, allowed, dir, p[k], p[k + 1]));
            }
        }
        assert(is_chain(g, allowed, dir, false, tail)) by {
            assert forall|k: int| 0 <= k < tail.len() - 1 implies hop(
                g,
                allowed,
                dir,
                false,
                #[trigger] tail[k],
                tail[k + 1],
            ) by {
                let n = p.len() - i;
                let x = i + (n - 1 - (k + 1));
                assert(tail[k + 1] == p[x]);
                assert(tail[k] == p[x + 1]);
                assert(arc(g, allowed, dir, p[x], p[x + 1]));
            }
        }
        assert(tail[0] == t);
        lemma_reached(g, allowed, dir, true, only(s), ftree, fround, a, head);
        lemma_reached(g, allowed, dir, false, only(t), btree, bround, b, tail);
        assert(head.last() == p[i]);
        assert(tail.last() == p[i]);
        assert(ftree.contains_key(p[i]) && btree.contains_key(p[i]));
    }
}

/// Runs one round of a search: every node of the frontier is expanded, and
/// what is reached for the first time forms the next frontier. The round
/// ends early at the first node that the other search has reached too.
pub(crate) fn expand(
    edges: &Vec<Edge>,
    Ghost(gv): Ghost<GraphView>,
    allowed: &Vec<EdgeType>,
    dir: TraversalDirection,
    forward: bool,
    tree: &mut HashMap<u64, (u64, u64)>,
    frontier: &Vec<u64>,
    other: &HashMap<u64, (u64, u64)>,
    round: u64,
    Ghost(roots): Ghost<Set<u64>>,
) -> (r: (Option<u64>, Vec<u64>))
    requires
        edges@ == gv.edges,
        round < u64::MAX,
        tree_ok(gv, allowed@, dir, forward, roots, old(tree)@, round as nat),
        closed_below(gv, allowed@, dir, forward, old(tree)@, round as nat),
        frontier_ok(old(tree)@, frontier@, round as nat),
        disjoint(old(tree)@, other@),
    ensures
        tree_ok(gv, allowed@, dir, forward, roots, final(tree)@, (round + 1) as nat),
        forall|v: u64| #[trigger]
            old(tree)@.contains_key(v) ==> final(tree)@.contains_key(v) && final(tree)@[v] == old(
                tree,
            )@[v],
        r.0 is None ==> closed_below(
            gv,
            allowed@,
            dir,
            forward,
            final(tree)@,
            (round + 1) as nat,
        ) && frontier_ok(final(tree)@, r.1@, (round + 1) as nat) && disjoint(
            final(tree)@,
            other@,
        ),
        r.0 is Some ==> final(tree)@.contains_key(r.0->0) && other@.contains_key(r.0->0)
            && final(tree)@[r.0->0].1 == round + 1,
        r.1@.no_duplicates(),
        forall|v: u64| #[trigger]
            final(tree)@.contains_key(v) && !old(tree)@.contains_key(v) ==> final(tree)@[v].1
                == round + 1,
{
    broadcast use vstd::std_specs::hash::group_hash_axioms;

    let ghost g = gv;
    let ghost start = tree@;
    let mut next: Vec<u64> = Vec::new();
    let mut i: usize = 0;
    while i < frontier.len()
        invariant
            i <= frontier@.len(),
            round < u64::MAX,
            g == gv,
            edges@ == gv.edges,
            start == old(tree)@,
            tree_ok(g, allowed@, dir, forward, roots, start, round as nat),
            closed_below(g, allowed@, dir, forward, start, round as nat),
            frontier_ok(start, frontier@, round as nat),
            tree_ok(g, allowed@, dir, forward, roots, tree@, (round + 1) as nat),
            forall|v: u64| #[trigger]
                start.contains_key(v) ==> tree@.contains_key(v) && tree@[v] == start[v],
            forall|v: u64| #[trigger]
                tree@.contains_key(v) && !start.contains_key(v) ==> tree@[v].1 == round + 1
                    && next@.contains(v),
            forall|v: u64| #[trigger]
                next@.contains(v) ==> tree@.contains_key(v) && tree@[v].1 == round + 1,
            forall|j: int, v: u64|
                #![trigger frontier@[j], hop(g, allowed@, dir, forward, frontier@[j], v)]
                0 <= j < i && hop(g, allowed@, dir, forward, frontier@[j], v)
                    ==> tree@.contains_key(v),
            disjoint(tree@, other@),
            next@.no_duplicates(),
        decreases frontier@.len() - i,
    {
        let u = frontier[i];
        assert(frontier@.contains(u));
        assert(start.contains_key(u) && start[u].1 == round);
        let ns = neighbors(edges, allowed, dir, forward, u, Ghost(gv));
        let mut j: usize = 0;
        while j < ns.len()
            invariant
                j <= ns@.len(),
                i < frontier@.len(),
                u == frontier@[i as int],
                round < u64::MAX,
                g == gv,
                edges@ == gv.edges,
            edges@ == gv.edges,
                start == old(tree)@,
                forall|v: u64| ns@.contains(v) <==> hop(g, allowed@, dir, forward, u, v),
                start.contains_key(u) && start[u].1 == round,
                tree_ok(g, allowed@, dir, forward, roots, start, round as nat),
                tree_ok(g, allowed@, dir, forward, roots, tree@, (round + 1) as nat),
                forall|v: u64| #[trigger]
                    start.contains_key(v) ==> tree@.contains_key(v) && tree@[v] == start[v],
                forall|v: u64| #[trigger]
                    tree@.contains_key(v) && !start.contains_key(v) ==> tree@[v].1 == round + 1
                        && next@.contains(v),
                forall|v: u64| #[trigger]
                    next@.contains(v) ==> tree@.contains_key(v) && tree@[v].1 == round + 1,
                forall|j: int, v: u64|
                    #![trigger frontier@[j], hop(g, allowed@, dir, forward, frontier@[j], v)]
                    0 <= j < i && hop(g, allowed@, dir, forward, frontier@[j], v)
                        ==> tree@.contains_key(v),
                forall|l: int| 0 <= l < j ==> tree@.contains_key(#[trigger] ns@[l]),
                disjoint(tree@, other@),
                next@.no_duplicates(),
            decreases ns@.len() - j,
        {
            let v = ns[j];
            assert(ns@.contains(v));
            if !tree.contains_key(&v) {
                let ghost before = tree@;
                let ghost before_next = next@;
                tree.insert(v, (u, round + 1));
                next.push(v);
                proof {
                    assert(!roots.contains(v));
                    assert(!before_next.contains(v));
                    assert(next@.no_duplicates()) by {
                        assert forall|a: int, b: int|
                            0 <= a < next@.len() && 0 <= b < next@.len() && a != b implies next@[a]
                            != next@[b] by {
                            if a < before_next.len() && b < before_next.len() {
                                assert(before_next[a] != before_next[b]);
                            } else if a < before_next.len() {
                                assert(before_next.contains(before_next[a]));
                            } else {
                                assert(before_next.contains(before_next[b]));
                            }
                        }
                    }
                    assert(before.contains_key(u) && before[u] == start[u]);
                    assert forall|w: u64| #[trigger] start.contains_key(w) implies tree@.contains_key(
                        w,
                    ) && tree@[w] == start[w] by {
                        assert(before.contains_key(w) && before[w] == start[w]);
                    }
                    assert forall|w: u64| #[trigger] next@.contains(w) implies tree@.contains_key(
                        w,
                    ) && tree@[w].1 == round + 1 by {
                        let x = choose|x: int| 0 <= x < next@.len() && next@[x] == w;
                        if x < before_next.len() {
                            assert(before_next[x] == w);
                            assert(before_next.contains(w));
                        }
                    }
                    assert forall|w: u64| #[trigger]
                        tree@.contains_key(w) && !start.contains_key(w) implies tree@[w].1 == round
                        + 1 && next@.contains(w) by {
                        if w == v {
                            assert(next@[before_next.len() as int] == v);
                        } else {
                            assert(before.contains_key(w));
                            let x = choose|x: int|
                                0 <= x < before_next.len() && before_next[x] == w;
                            assert(next@[x] == w);
                        }
                    }
                    assert forall|w: u64| #[trigger]
                        tree@.contains_key(w) && !roots.contains(w) implies tree@[w].1 >= 1 && tree@[w].1
                        <= round + 1 && tree@.contains_key(tree@[w].0) && tree@[tree@[w].0].1
                        == tree@[w].1 - 1 && hop(g, allowed@, dir, forward, tree@[w].0, w) by {
                        if w != v {
                            assert(before.contains_key(w));
                            assert(before.contains_key(before[w].0));
                        }
                    }
                }
                if other.contains_key(&v) {
                    return (Some(v), next);
                }
            }
            j += 1;
        }
        proof {
            assert forall|j2: int, v: u64|
                #![trigger frontier@[j2], hop(g, allowed@, dir, forward, frontier@[j2], v)]
                0 <= j2 < i + 1 && hop(
                    g,
                    allowed@,
                    dir,
                    forward,
                    frontier@[j2],
                    v,
                ) implies tree@.contains_key(v) by {
                if j2 == i {
                    assert(ns@.contains(v));
                    let l = choose|l: int| 0 <= l < ns@.len() && ns@[l] == v;
                    assert(tree@.contains_key(ns@[l]));
                }
            }
        }
        i += 1;
    }
    proof {
        let t = tree@;
        assert forall|u: u64, v: u64|
            #![trigger t.contains_key(u), hop(g, allowed@, dir, forward, u, v)]
            t.contains_key(u) && t[u].1 < round + 1 && hop(
                g,
                allowed@,
                dir,
                forward,
                u,
                v,
            ) implies t.contains_key(v) && t[v].1 <= t[u].1 + 1 by {
            assert(start.contains_key(u));
            if start[u].1 < round {
                assert(start.contains_key(v));
            } else {
                assert(frontier@.contains(u));
                let j = choose|j: int| 0 <= j < frontier@.len() && frontier@[j] == u;
                assert(hop(g, allowed@, dir, forward, frontier@[j], v));
                assert(t.contains_key(v));
                if !roots.contains(v) {
                    assert(t[v].1 <= round + 1);
                }
            }
        }
        assert forall|v: u64| next@.contains(v) <==> t.contains_key(v) && t[v].1 == round + 1 by {
            if t.contains_key(v) && t[v].1 == round + 1 {
                if start.contains_key(v) {
                    if !roots.contains(v) {
                        assert(start[v].1 <= round);
                    }
                }
            }
        }
    }
    (None, next)
}

/// Whether some walk leads from `s` to `v`.
pub open spec fn reachable(
    g: GraphView,
    allowed: Seq<EdgeType>,
    dir: TraversalDirection,
    s: u64,
    v: u64,
) -> bool {
    exists|q: Seq<u64>| walk_between(g, allowed, dir, q, s, v)
}

/// Whether some walk of at most `n` steps leads from `s` to `v`.
pub open spec fn reachable_within(
    g: GraphView,
    allowed: Seq<EdgeType>,
    dir: TraversalDirection,
    s: u64,
    v: u64,
    n: nat,
) -> bool {
    exists|q: Seq<u64>| walk_between(g, allowed, dir, q, s, v) && q.len() - 1 <= n
}

/// The walk from a root of a search tree to one of its nodes, as long
/// as the node is deep.
pub proof fn lemma_tree_walk(
    g: GraphView,
    allowed: Seq<EdgeType>,
    dir: TraversalDirection,
    roots: Set<u64>,
    tree: Map<u64, (u64, u64)>,
    round: nat,
    v: u64,
) -> (q: Seq<u64>)
    requires
        tree_ok(g, allowed, dir, true, roots, tree, round),
        tree.contains_key(v),
    ensures
        q.len() >= 1,
        roots.contains(q[0]),
        q.last() == v,
        is_walk(g, allowed, dir, q),
        q.len() - 1 == tree[v].1,
    decreases tree[v].1,
{
    if roots.contains(v) {
        seq![v]
    } else {
        let p = lemma_tree_walk(g, allowed, dir, roots, tree, round, tree[v].0);
        let q = p.push(v);
        assert forall|i: int| 0 <= i < q.len() - 1 implies arc(
            g,
            allowed,
            dir,
            #[trigger] q[i],
            q[i + 1],
        ) by {
            if i < p.len() - 1 {
                assert(q[i] == p[i] && q[i + 1] == p[i + 1]);
            } else {
                assert(q[i] == tree[v].0);
                assert(hop(g, allowed, dir, true, tree[v].0, v));
            }
        }
        q
    }
}

/// Every node of a search tree but its roots is a live node of the graph.
pub proof fn lemma_tree_nodes_live(
    g: GraphView,
    allowed: Seq<EdgeType>,
    dir: TraversalDirection,
    forward: bool,
    roots: Set<u64>,
    tree: Map<u64, (u64, u64)>,
    round: nat,
    v: u64,
)
    requires
        g.wf(),
        tree_ok(g, allowed, dir, forward, roots, tree, round),
        tree.contains_key(v),
        !roots.contains(v),
    ensures
        g.has_node(v),
{
    let p = tree[v].0;
    assert(hop(g, allowed, dir, forward, p, v));
    if forward {
        let k = choose|k: int| 0 <= k < g.edges.len() && joins(#[trigger] g.edges[k], allowed, dir, p, v);
        assert(g.has_node(g.edges[k].source_id) && g.has_node(g.edges[k].target_id));
    } else {
        let k = choose|k: int| 0 <= k < g.edges.len() && joins(#[trigger] g.edges[k], allowed, dir, v, p);
        assert(g.has_node(g.edges[k].source_id) && g.has_node(g.edges[k].target_id));
    }
}

/// A tree that has grown within a finite universe leaves fewer nodes
/// outside it, and has more entries.
pub proof fn lemma_tree_grew(
    universe: Set<u64>,
    before: Map<u64, (u64, u64)>,
    after: Map<u64, (u64, u64)>,
    v: u64,
)
    requires
        universe.finite(),
        before.dom().finite(),
        after.dom().finite(),
        forall|w: u64| #[trigger] before.contains_key(w) ==> after.contains_key(w),
        forall|w: u64| #[trigger] after.contains_key(w) ==> universe.contains(w),
        after.contains_key(v),
        !before.contains_key(v),
    ensures
        universe.difference(after.dom()).len() < universe.difference(before.dom()).len(),
        before.len() < after.len(),
{
    broadcast use vstd::set::group_set_axioms;

    let out_before = universe.difference(before.dom());
    let out_after = universe.difference(after.dom());
    assert(out_before.contains(v));
    assert(out_after.subset_of(out_before.remove(v)));
    vstd::set_lib::lemma_len_subset(out_after, out_before.remove(v));
    assert(before.dom().subset_of(after.dom().remove(v)));
    vstd::set_lib::lemma_len_subset(before.dom(), after.dom().remove(v));
}

/// Every node that a walk from `origin` leads to, each with the node it was
/// first reached from and its distance from `origin`.
pub fn reach_all(
    graph: &MemoryGraph,
    allowed: &Vec<EdgeType>,
    dir: TraversalDirection,
    origin: u64,
) -> (tree: HashMap<u64, (u64, u64)>)
    requires
        graph.wf(),
    ensures
        forall|v: u64| tree@.contains_key(v) <==> reachable(graph@, allowed@, dir, origin, v),
        tree@.dom().finite(),
        forall|v: u64| #[trigger] tree@.contains_key(v) && v != origin ==> graph@.has_node(v),
{
    broadcast use vstd::std_specs::hash::group_hash_axioms;
    broadcast use vstd::set::group_set_axioms;

    let ghost g = graph@;
    let ghost universe = g.node_ids().insert(origin);
    proof {
        crate::graph::lemma_node_ids_finite(g);
    }
    let mut tree: HashMap<u64, (u64, u64)> = HashMap::new();
    tree.insert(origin, (origin, 0));
    let none: HashMap<u64, (u64, u64)> = HashMap::new();
    let mut frontier: Vec<u64> = Vec::new();
    frontier.push(origin);
    let mut round: u64 = 0;
    let ghost mut last_round: nat = 0;
    proof {
        assert(frontier@ =~= seq![origin]);
        assert forall|v: u64| frontier@.contains(v) <==> tree@.contains_key(v) && tree@[v].1
            == 0 by {
            if v == origin {
                assert(frontier@[0] == origin);
            }
        }
        assert(tree@.dom() =~= Set::<u64>::empty().insert(origin));
    }
    while frontier.len() > 0
        invariant_except_break
            round + 1 <= tree@.len(),
            last_round == round,
            tree_ok(g, allowed@, dir, true, only(origin), tree@, round as nat),
            closed_below(g, allowed@, dir, true, tree@, round as nat),
            frontier_ok(tree@, frontier@, round as nat),
        invariant
            g == graph@,
            g.wf(),
            universe == g.node_ids().insert(origin),
            universe.finite(),
            none@ == Map::<u64, (u64, u64)>::empty(),
            tree@.dom().finite(),
        ensures
            tree@.dom().finite(),
            frontier@.len() == 0,
            tree_ok(g, allowed@, dir, true, only(origin), tree@, last_round),
            closed_below(g, allowed@, dir, true, tree@, last_round),
            frontier_ok(tree@, frontier@, last_round),
        decreases universe.difference(tree@.dom()).len(),
    {
        let size = tree.len();
        assert(round < size);
        let ghost before = tree@;
        let (met, next) = expand(
            graph.edges(),
            Ghost(graph@),
            allowed,
            dir,
            true,
            &mut tree,
            &frontier,
            &none,
            round,
            Ghost(only(origin)),
        );
        frontier = next;
        if frontier.len() == 0 {
            proof {
                last_round = (round + 1) as nat;
            }
            break;
        }
        proof {
            let v = frontier@[0];
            assert(frontier@.contains(v));
            if before.contains_key(v) {
                if v != origin {
                    assert(before[v].1 <= round);
                }
            }
            assert forall|w: u64| #[trigger] tree@.contains_key(w) implies universe.contains(w) by {
                if w != origin {
                    lemma_tree_nodes_live(g, allowed@, dir, true, only(origin), tree@, (round + 1) as nat, w);
                }
            }
            lemma_tree_grew(universe, before, tree@, v);
            last_round = (round + 1) as nat;
        }
        round += 1;
    }
    proof {
        assert(frontier@ =~= Seq::<u64>::empty());
        assert forall|v: u64| tree@.contains_key(v) <==> reachable(g, allowed@, dir, origin, v) by {
            if tree@.contains_key(v) {
                let q = lemma_tree_walk(g, allowed@, dir, only(origin), tree@, last_round, v);
                assert(walk_between(g, allowed@, dir, q, origin, v));
            }
            if reachable(g, allowed@, dir, origin, v) {
                let q = choose|q: Seq<u64>| walk_between(g, allowed@, dir, q, origin, v);
                lemma_exhausted(g, allowed@, dir, true, only(origin), tree@, last_round, q.len());
                assert(is_chain(g, allowed@, dir, true, q)) by {
                    assert forall|i: int| 0 <= i < q.len() - 1 implies hop(
                        g,
                        allowed@,
                        dir,
                        true,
                        #[trigger] q[i],
                        q[i + 1],
                    ) by {
                        assert(arc(g, allowed@, dir, q[i], q[i + 1]));
                    }
                }
                lemma_reached(g, allowed@, dir, true, only(origin), tree@, last_round, q.len(), q);
            }
        }
        assert forall|v: u64| #[trigger] tree@.contains_key(v) && v != origin implies g.has_node(
            v,
        ) by {
            lemma_tree_nodes_live(g, allowed@, dir, true, only(origin), tree@, last_round, v);
        }
    }
    tree
}

/// Whether `e` is the first edge of the graph that leads from `u` to `v`.
pub open spec fn first_joining(
    g: GraphView,
    allowed: Seq<EdgeType>,
    dir: TraversalDirection,
    u: u64,
    v: u64,
    e: Edge,
) -> bool {
    exists|k: int|
        0 <= k < g.edges.len() && #[trigger] g.edges[k] == e && joins(e, allowed, dir, u, v)
            && forall|l: int| 0 <= l < k ==> !joins(#[trigger] g.edges[l], allowed, dir, u, v)
}

/// Whether `edges` holds, for each step of `path`, the first edge of the
/// graph that makes the step.
pub open spec fn edges_along(
    g: GraphView,
    allowed: Seq<EdgeType>,
    dir: TraversalDirection,
    path: Seq<u64>,
    edges: Seq<Edge>,
) -> bool {
    &&& edges.len() == path.len() - 1
    &&& forall|i: int|
        0 <= i < edges.len() ==> first_joining(g, allowed, dir, path[i], path[i + 1], #[trigger] edges[i])
}

/// The number of steps within which an unweighted search finds a walk: each
/// of its two halves goes `max_depth / 2 + 1` levels deep.
pub open spec fn reach(max_depth: u32) -> int {
    2 * (max_depth / 2 + 1)
}

/// A walk that comes to a node twice can be cut short: without what lies
/// between the two visits it is a walk between the same ends.
pub proof fn lemma_cut_walk(
    g: GraphView,
    allowed: Seq<EdgeType>,
    dir: TraversalDirection,
    p: Seq<u64>,
    s: u64,
    t: u64,
    i: int,
    j: int,
)
    requires
        walk_between(g, allowed, dir, p, s, t),
        0 <= i < j < p.len(),
        p[i] == p[j],
    ensures
        walk_between(g, allowed, dir, p.take(i + 1) + p.skip(j + 1), s, t),
        (p.take(i + 1) + p.skip(j + 1)).len() < p.len(),
{
    let q = p.take(i + 1) + p.skip(j + 1);
    assert forall|k: int| 0 <= k < q.len() - 1 implies arc(g, allowed, dir, #[trigger] q[k], q[k + 1]) by {
        if k < i {
            assert(arc(g, allowed, dir, p[k], p[k + 1]));
        } else if k == i {
            assert(q[i + 1] == p[j + 1]);
            assert(arc(g, allowed, dir, p[j], p[j + 1]));
        } else {
            assert(q[k] == p[k + (j - i)]);
            assert(q[k + 1] == p[k + (j - i) + 1]);
            assert(arc(g, allowed, dir, p[k + (j - i)], p[k + (j - i) + 1]));
        }
    }
    if j == p.len() - 1 {
        assert(q.last() == p[i]);
    } else {
        assert(q.last() == p[p.len() - 1]);
    }
}

/// A walk with the fewest steps between its ends comes to no node twice.
pub proof fn lemma_fewest_steps_repeat_nothing(
    g: GraphView,
    allowed: Seq<EdgeType>,
    dir: TraversalDirection,
    p: Seq<u64>,
    s: u64,
    t: u64,
)
    requires
        walk_between(g, allowed, dir, p, s, t),
        forall|q: Seq<u64>| #[trigger] walk_between(g, allowed, dir, q, s, t) ==> q.len() >= p.len(),
    ensures
        p.no_duplicates(),
{
    if !p.no_duplicates() {
        let (a, b) = choose|a: int, b: int|
            0 <= a < p.len() && 0 <= b < p.len() && a != b && p[a] == p[b];
        let i = if a < b { a } else { b };
        let j = if a < b { b } else { a };
        lemma_cut_walk(g, allowed, dir, p, s, t, i, j);
        assert(walk_between(g, allowed, dir, p.take(i + 1) + p.skip(j + 1), s, t));
    }
}

/// What an unweighted query between two different nodes answers: a walk with
/// the fewest steps, which comes to no node twice, if one exists within
/// reach, and otherwise nothing.
pub open spec fn is_shortest_answer(
    g: GraphView,
    s: u64,
    t: u64,
    allowed: Seq<EdgeType>,
    dir: TraversalDirection,
    max_depth: u32,
    r: PathResult,
) -> bool {
    if r.found {
        &&& walk_between(g, allowed, dir, r.path@, s, t)
        &&& r.path@.no_duplicates()
        &&& forall|q: Seq<u64>| #[trigger]
            walk_between(g, allowed, dir, q, s, t) ==> q.len() >= r.path@.len()
        &&& r.path@.len() - 1 <= reach(max_depth)
        &&& r.cost == r.path@.len() - 1
        &&& edges_along(g, allowed, dir, r.path@, r.edges@)
    } else {
        &&& r.path@.len() == 0
        &&& r.edges@.len() == 0
        &&& r.cost == 0
        &&& forall|q: Seq<u64>| #[trigger]
            walk_between(g, allowed, dir, q, s, t) ==> q.len() - 1 > reach(max_depth)
    }
}

/// The first edge of the graph that leads from `u` to `v`, if there is one.
pub fn find_joining_edge(
    graph: &MemoryGraph,
    allowed: &Vec<EdgeType>,
    dir: TraversalDirection,
    u: u64,
    v: u64,
) -> (r: Option<Edge>)
    ensures
        r is Some <==> arc(graph@, allowed@, dir, u, v),
        r is Some ==> first_joining(graph@, allowed@, dir, u, v, r->0),
{
    let edges = graph.edges();
    let mut k: usize = 0;
    while k < edges.len()
        invariant
            k <= edges@.len(),
            edges@ == graph@.edges,
            forall|l: int| 0 <= l < k ==> !joins(#[trigger] edges@[l], allowed@, dir, u, v),
        decreases edges@.len() - k,
    {
        let e = edges[k];
        let ok = edge_type_passes(allowed, e.edge_type);
        let along = dir != TraversalDirection::Backward && e.source_id == u && e.target_id == v;
        let against = dir != TraversalDirection::Forward && e.target_id == u && e.source_id == v;
        if ok && (along || against) {
            assert(graph@.edges[k as int] == e);
            return Some(e);
        }
        k += 1;
    }
    None
}

/// The nodes from `start` up to a root of a search tree, each followed
/// by the node it was reached from.
fn chain_to_origin(
    tree: &HashMap<u64, (u64, u64)>,
    start: u64,
    Ghost(g): Ghost<GraphView>,
    Ghost(allowed): Ghost<Seq<EdgeType>>,
    Ghost(dir): Ghost<TraversalDirection>,
    Ghost(forward): Ghost<bool>,
    Ghost(roots): Ghost<Set<u64>>,
    Ghost(round): Ghost<nat>,
) -> (r: Vec<u64>)
    requires
        tree_ok(g, allowed, dir, forward, roots, tree@, round),
        tree@.contains_key(start),
    ensures
        r@.len() == tree@[start].1 + 1,
        r@[0] == start,
        roots.contains(r@.last()),
        forall|i: int|
            0 <= i < r@.len() - 1 ==> hop(g, allowed, dir, forward, r@[i + 1], #[trigger] r@[i]),
{
    broadcast use vstd::std_specs::hash::group_hash_axioms;

    let mut out: Vec<u64> = Vec::new();
    out.push(start);
    let mut cur = start;
    loop
        invariant
            tree_ok(g, allowed, dir, forward, roots, tree@, round),
            tree@.contains_key(start),
            tree@.contains_key(cur),
            out@.len() >= 1,
            out@[0] == start,
            out@.last() == cur,
            out@.len() + tree@[cur].1 == tree@[start].1 + 1,
            forall|i: int|
                0 <= i < out@.len() - 1 ==> hop(
                    g,
                    allowed,
                    dir,
                    forward,
                    out@[i + 1],
                    #[trigger] out@[i],
                ),
        ensures
            roots.contains(cur),
            out@.len() == tree@[start].1 + 1,
            out@[0] == start,
            out@.last() == cur,
            forall|i: int|
                0 <= i < out@.len() - 1 ==> hop(
                    g,
                    allowed,
                    dir,
                    forward,
                    out@[i + 1],
                    #[trigger] out@[i],
                ),
        decreases tree@[cur].1,
    {
        let entry = tree.get(&cur);
        let (parent, depth) = match entry {
            Some(pd) => *pd,
            None => (cur, 0),
        };
        if depth == 0 {
            break;
        }
        let ghost before = out@;
        out.push(parent);
        proof {
            assert forall|i: int| 0 <= i < out@.len() - 1 implies hop(
                g,
                allowed,
                dir,
                forward,
                out@[i + 1],
                #[trigger] out@[i],
            ) by {
                if i < before.len() - 1 {
                    assert(out@[i] == before[i] && out@[i + 1] == before[i + 1]);
                }
            }
        }
        cur = parent;
    }
    out
}

/// The walk through a node that both searches reached: from the start down
/// the first tree to the node, then up the second tree to the goal.
fn path_through(
    ftree: &HashMap<u64, (u64, u64)>,
    btree: &HashMap<u64, (u64, u64)>,
    meeting: u64,
    Ghost(g): Ghost<GraphView>,
    Ghost(allowed): Ghost<Seq<EdgeType>>,
    Ghost(dir): Ghost<TraversalDirection>,
    Ghost(s): Ghost<u64>,
    Ghost(t): Ghost<u64>,
    Ghost(fround): Ghost<nat>,
    Ghost(bround): Ghost<nat>,
) -> (path: Vec<u64>)
    requires
        tree_ok(g, allowed, dir, true, only(s), ftree@, fround),
        tree_ok(g, allowed, dir, false, only(t), btree@, bround),
        ftree@.contains_key(meeting),
        btree@.contains_key(meeting),
    ensures
        walk_between(g, allowed, dir, path@, s, t),
        path@.len() == ftree@[meeting].1 + btree@[meeting].1 + 1,
{
    broadcast use vstd::set::group_set_axioms;

    let down = chain_to_origin(
        ftree,
        meeting,
        Ghost(g),
        Ghost(allowed),
        Ghost(dir),
        Ghost(true),
        Ghost(only(s)),
        Ghost(fround),
    );
    let up = chain_to_origin(
        btree,
        meeting,
        Ghost(g),
        Ghost(allowed),
        Ghost(dir),
        Ghost(false),
        Ghost(only(t)),
        Ghost(bround),
    );
    let mut path: Vec<u64> = Vec::new();
    let n = down.len();
    let mut i: usize = 0;
    while i < n
        invariant
            i <= n,
            n == down@.len(),
            path@.len() == i,
            forall|k: int| 0 <= k < i ==> path@[k] == down@[n - 1 - k],
        decreases n - i,
    {
        path.push(down[n - 1 - i]);
        i += 1;
    }
    let mut j: usize = 1;
    while j < up.len()
        invariant
            1 <= j <= up@.len(),
            n == down@.len(),
            path@.len() == n + j - 1,
            forall|k: int| 0 <= k < n ==> path@[k] == down@[n - 1 - k],
            forall|k: int| 1 <= k < j ==> path@[n + k - 1] == up@[k],
        decreases up@.len() - j,
    {
        path.push(up[j]);
        j += 1;
    }
    proof {
        let p = path@;
        assert(p[n - 1] == down@[0]);
        assert forall|k: int| 0 <= k < p.len() - 1 implies arc(
            g,
            allowed,
            dir,
            #[trigger] p[k],
            p[k + 1],
        ) by {
            if k < n - 1 {
                let x = n - 1 - (k + 1);
                assert(p[k + 1] == down@[x]);
                assert(p[k] == down@[x + 1]);
                assert(hop(g, allowed, dir, true, down@[x + 1], down@[x]));
            } else {
                let y = k - (n - 1);
                assert(p[k] == up@[y]);
                assert(p[k + 1] == up@[y + 1]);
                assert(hop(g, allowed, dir, false, up@[y + 1], up@[y]));
            }
        }
        if up@.len() == 1 {
            assert(p.last() == down@[0]);
        } else {
            assert(p.last() == up@[up@.len() - 1]);
        }
    }
    path
}

/// The first edge of the graph for each step of a walk.
fn collect_edges(
    graph: &MemoryGraph,
    allowed: &Vec<EdgeType>,
    dir: TraversalDirection,
    path: &Vec<u64>,
) -> (edges: Vec<Edge>)
    requires
        path@.len() >= 1,
        is_walk(graph@, allowed@, dir, path@),
    ensures
        edges_along(graph@, allowed@, dir, path@, edges@),
{
    let mut edges: Vec<Edge> = Vec::new();
    let mut i: usize = 0;
    while i < path.len() - 1
        invariant
            1 <= path@.len(),
            i + 1 <= path@.len(),
            is_walk(graph@, allowed@, dir, path@),
            edges@.len() == i,
            forall|k: int|
                0 <= k < i ==> first_joining(
                    graph@,
                    allowed@,
                    dir,
                    path@[k],
                    path@[k + 1],
                    #[trigger] edges@[k],
                ),
        decreases path@.len() - i,
    {
        assert(arc(graph@, allowed@, dir, path@[i as int], path@[i + 1]));
        match find_joining_edge(graph, allowed, dir, path[i], path[i + 1]) {
            Some(e) => {
                edges.push(e);
            },
            None => {
                assert(false);
            },
        }
        i += 1;
    }
    edges
}

/// Searches from both ends at once, level by level and in turn, until one
/// search reaches a node of the other or `max_depth / 2 + 1` levels are done
/// on each side.
pub fn bidirectional_bfs(graph: &MemoryGraph, params: &ShortestPathParams) -> (r: PathResult)
    requires
        params.source_id != params.target_id,
    ensures
        is_shortest_answer(
            graph@,
            params.source_id,
            params.target_id,
            params.edge_types@,
            params.direction,
            params.max_depth,
            r,
        ),
{
    broadcast use vstd::std_specs::hash::group_hash_axioms;
    broadcast use vstd::set::group_set_axioms;

    let s = params.source_id;
    let t = params.target_id;
    let dir = params.direction;
    let ghost g = graph@;
    let ghost allowed = params.edge_types@;
    let half: u32 = params.max_depth / 2 + 1;
    let mut ftree: HashMap<u64, (u64, u64)> = HashMap::new();
    let mut btree: HashMap<u64, (u64, u64)> = HashMap::new();
    ftree.insert(s, (s, 0));
    btree.insert(t, (t, 0));
    let mut ffront: Vec<u64> = Vec::new();
    let mut bfront: Vec<u64> = Vec::new();
    ffront.push(s);
    bfront.push(t);
    let mut round: u32 = 0;
    proof {
        assert(ffront@ =~= seq![s]);
        assert(bfront@ =~= seq![t]);
        assert forall|v: u64| ffront@.contains(v) <==> ftree@.contains_key(v) && ftree@[v].1
            == 0 by {
            if v == s {
                assert(ffront@[0] == s);
            }
        }
        assert forall|v: u64| bfront@.contains(v) <==> btree@.contains_key(v) && btree@[v].1
            == 0 by {
            if v == t {
                assert(bfront@[0] == t);
            }
        }
    }
    while round < half && ffront.len() > 0 && bfront.len() > 0
        invariant
            round <= half,
            half == params.max_depth / 2 + 1,
            g == graph@,
            allowed == params.edge_types@,
            s == params.source_id,
            t == params.target_id,
            dir == params.direction,
            tree_ok(g, allowed, dir, true, only(s), ftree@, round as nat),
            tree_ok(g, allowed, dir, false, only(t), btree@, round as nat),
            closed_below(g, allowed, dir, true, ftree@, round as nat),
            closed_below(g, allowed, dir, false, btree@, round as nat),
            frontier_ok(ftree@, ffront@, round as nat),
            frontier_ok(btree@, bfront@, round as nat),
            disjoint(ftree@, btree@),
        decreases half - round,
    {
        let ghost f0 = ftree@;
        let (met, next) = expand(
            graph.edges(),
            Ghost(graph@),
            &params.edge_types,
            dir,
            true,
            &mut ftree,
            &ffront,
            &btree,
            round as u64,
            Ghost(only(s)),
        );
        if let Some(m) = met {
            let path = path_through(
                &ftree,
                &btree,
                m,
                Ghost(g),
                Ghost(allowed),
                Ghost(dir),
                Ghost(s),
                Ghost(t),
                Ghost((round + 1) as nat),
                Ghost(round as nat),
            );
            proof {
                if m != t {
                    assert(btree@[m].1 <= round);
                }
                assert forall|q: Seq<u64>| #[trigger]
                    walk_between(g, allowed, dir, q, s, t) implies q.len() >= path@.len() by {
                    lemma_walks_are_long(
                        g,
                        allowed,
                        dir,
                        s,
                        t,
                        f0,
                        btree@,
                        round as nat,
                        round as nat,
                        round as nat,
                        round as nat,
                        q,
                    );
                }
            }
            proof {
                lemma_fewest_steps_repeat_nothing(g, allowed, dir, path@, s, t);
            }
            let edges = collect_edges(graph, &params.edge_types, dir, &path);
            let cost = (path.len() - 1) as u64;
            return PathResult { path, edges, cost, found: true };
        }
        ffront = next;
        let ghost b0 = btree@;
        let (met2, next2) = expand(
            graph.edges(),
            Ghost(graph@),
            &params.edge_types,
            dir,
            false,
            &mut btree,
            &bfront,
            &ftree,
            round as u64,
            Ghost(only(t)),
        );
        if let Some(m) = met2 {
            let path = path_through(
                &ftree,
                &btree,
                m,
                Ghost(g),
                Ghost(allowed),
                Ghost(dir),
                Ghost(s),
                Ghost(t),
                Ghost((round + 1) as nat),
                Ghost((round + 1) as nat),
            );
            proof {
                if m != s {
                    assert(ftree@[m].1 <= round + 1);
                }
                assert(disjoint(ftree@, b0));
                assert forall|q: Seq<u64>| #[trigger]
                    walk_between(g, allowed, dir, q, s, t) implies q.len() >= path@.len() by {
                    lemma_walks_are_long(
                        g,
                        allowed,
                        dir,
                        s,
                        t,
                        ftree@,
                        b0,
                        (round + 1) as nat,
                        round as nat,
                        (round + 1) as nat,
                        round as nat,
                        q,
                    );
                }
            }
            proof {
                lemma_fewest_steps_repeat_nothing(g, allowed, dir, path@, s, t);
            }
            let edges = collect_edges(graph, &params.edge_types, dir, &path);
            let cost = (path.len() - 1) as u64;
            return PathResult { path, edges, cost, found: true };
        }
        bfront = next2;
        proof {
            assert(disjoint(ftree@, btree@)) by {
                assert(disjoint(btree@, ftree@));
            }
        }
        round += 1;
    }
    proof {
        assert forall|q: Seq<u64>| #[trigger]
            walk_between(g, allowed, dir, q, s, t) implies q.len() - 1 > reach(
            params.max_depth,
        ) by {
            if round == half {
                lemma_walks_are_long(
                    g,
                    allowed,
                    dir,
                    s,
                    t,
                    ftree@,
                    btree@,
                    round as nat,
                    round as nat,
                    round as nat,
                    round as nat,
                    q,
                );
            } else if ffront@.len() == 0 {
                assert(ffront@ =~= Seq::<u64>::empty());
                lemma_exhausted(g, allowed, dir, true, only(s), ftree@, round as nat, q.len());
                lemma_walks_are_long(
                    g,
                    allowed,
                    dir,
                    s,
                    t,
                    ftree@,
                    btree@,
                    round as nat,
                    round as nat,
                    q.len(),
                    0,
                    q,
                );
            } else {
                assert(bfront@ =~= Seq::<u64>::empty());
                lemma_exhausted(g, allowed, dir, false, only(t), btree@, round as nat, q.len());
                lemma_walks_are_long(
                    g,
                    allowed,
                    dir,
                    s,
                    t,
                    ftree@,
                    btree@,
                    round as nat,
                    round as nat,
                    0,
                    q.len(),
                    q,
                );
            }
        }
    }
    PathResult { path: Vec::new(), edges: Vec::new(), cost: 0, found: false }
}

/// One entry of a cost table: the cost of the cheapest walk found, the node
/// before the last step and the edge of the last step.
#[derive(Clone, Copy)]
pub struct Reached {
    pub cost: u64,
    pub parent: u64,
    pub edge: usize,
}

/// Whether `ix` names, step by step, edges that make `q` a walk.
pub open spec fn priced_walk(
    g: GraphView,
    allowed: Seq<EdgeType>,
    dir: TraversalDirection,
    q: Seq<u64>,
    ix: Seq<int>,
) -> bool {
    &&& q.len() >= 1
    &&& ix.len() == q.len() - 1
    &&& forall|i: int|
        0 <= i < ix.len() ==> 0 <= #[trigger] ix[i] < g.edges.len() && joins(
            g.edges[ix[i]],
            allowed,
            dir,
            q[i],
            q[i + 1],
        )
}

/// The sum of the costs of the edges that `ix` names.
pub open spec fn walk_cost(costs: Seq<u32>, ix: Seq<int>) -> nat
    decreases ix.len(),
{
    if ix.len() == 0 {
        0
    } else {
        walk_cost(costs, ix.drop_last()) + costs[ix.last()] as nat
    }
}

/// Whether the entry of `v` comes from an entry of `prev` by one step.
pub open spec fn derived(
    g: GraphView,
    costs: Seq<u32>,
    allowed: Seq<EdgeType>,
    dir: TraversalDirection,
    prev: Map<u64, Reached>,
    v: u64,
    e: Reached,
) -> bool {
    &&& prev.contains_key(e.parent)
    &&& 0 <= e.edge < g.edges.len()
    &&& joins(g.edges[e.edge as int], allowed, dir, e.parent, v)
    &&& e.cost == prev[e.parent].cost + costs[e.edge as int]
}

/// Whether every entry of `cur` is an entry of `prev` or derived from one.
pub open spec fn layer_sound(
    g: GraphView,
    costs: Seq<u32>,
    allowed: Seq<EdgeType>,
    dir: TraversalDirection,
    prev: Map<u64, Reached>,
    cur: Map<u64, Reached>,
) -> bool {
    forall|v: u64| #[trigger]
        cur.contains_key(v) ==> (prev.contains_key(v) && cur[v] == prev[v]) || derived(
            g,
            costs,
            allowed,
            dir,
            prev,
            v,
            cur[v],
        )
}

/// Whether `cur` is at least as good as `prev` on every node of `prev`.
pub open spec fn layer_keeps(prev: Map<u64, Reached>, cur: Map<u64, Reached>) -> bool {
    forall|v: u64| #[trigger]
        prev.contains_key(v) ==> cur.contains_key(v) && cur[v].cost <= prev[v].cost
}

/// Whether `cur` accounts for every step over one of the first `n` edges
/// from a node of `prev`.
pub open spec fn layer_relaxed(
    g: GraphView,
    costs: Seq<u32>,
    allowed: Seq<EdgeType>,
    dir: TraversalDirection,
    prev: Map<u64, Reached>,
    cur: Map<u64, Reached>,
    n: int,
) -> bool {
    forall|k: int, u: u64, v: u64|
        #![trigger joins(g.edges[k], allowed, dir, u, v)]
        0 <= k < n && prev.contains_key(u) && joins(g.edges[k], allowed, dir, u, v)
            ==> cur.contains_key(v) && cur[v].cost <= prev[u].cost + costs[k]
}

/// Whether `cur` is the cost table one step after `prev`.
pub open spec fn layer_step(
    g: GraphView,
    costs: Seq<u32>,
    allowed: Seq<EdgeType>,
    dir: TraversalDirection,
    prev: Map<u64, Reached>,
    cur: Map<u64, Reached>,
) -> bool {
    &&& layer_sound(g, costs, allowed, dir, prev, cur)
    &&& layer_keeps(prev, cur)
    &&& layer_relaxed(g, costs, allowed, dir, prev, cur, g.edges.len() as int)
}

/// The table for `h` steps: the `h`-th of `layers`, or the last one if the
/// tables stopped changing before.
pub open spec fn layer_at(layers: Seq<Map<u64, Reached>>, h: int) -> Map<u64, Reached> {
    if h < layers.len() {
        layers[h]
    } else {
        layers[layers.len() - 1]
    }
}

/// Whether `layers` are the cost tables of a search from `s` for 0, 1, 2, ...
/// steps, up to `limit` steps.
pub open spec fn layers_ok(
    g: GraphView,
    costs: Seq<u32>,
    allowed: Seq<EdgeType>,
    dir: TraversalDirection,
    s: u64,
    layers: Seq<Map<u64, Reached>>,
    limit: int,
) -> bool {
    &&& layers.len() >= 1
    &&& layers[0].contains_key(s)
    &&& layers[0][s].cost == 0
    &&& forall|v: u64| layers[0].contains_key(v) ==> v == s
    &&& forall|h: int|
        1 <= h <= limit ==> layer_step(
            g,
            costs,
            allowed,
            dir,
            layer_at(layers, h - 1),
            #[trigger] layer_at(layers, h),
        )
}

/// The end of a walk from `s` of `h` steps within the limit has an entry in
/// the table for `h` steps, no dearer than the walk.
pub proof fn lemma_layer_bound(
    g: GraphView,
    costs: Seq<u32>,
    allowed: Seq<EdgeType>,
    dir: TraversalDirection,
    s: u64,
    layers: Seq<Map<u64, Reached>>,
    limit: int,
    q: Seq<u64>,
    ix: Seq<int>,
)
    requires
        layers_ok(g, costs, allowed, dir, s, layers, limit),
        costs.len() == g.edges.len(),
        priced_walk(g, allowed, dir, q, ix),
        q[0] == s,
        q.len() - 1 <= limit,
    ensures
        layer_at(layers, q.len() - 1).contains_key(q.last()),
        layer_at(layers, q.len() - 1)[q.last()].cost <= walk_cost(costs, ix),
    decreases q.len(),
{
    if q.len() > 1 {
        let h = q.len() - 1;
        let q0 = q.drop_last();
        let ix0 = ix.drop_last();
        assert(priced_walk(g, allowed, dir, q0, ix0)) by {
            assert forall|i: int| 0 <= i < ix0.len() implies 0 <= #[trigger] ix0[i] < g.edges.len()
                && joins(g.edges[ix0[i]], allowed, dir, q0[i], q0[i + 1]) by {
                assert(ix0[i] == ix[i]);
                assert(q0[i] == q[i] && q0[i + 1] == q[i + 1]);
            }
        }
        lemma_layer_bound(g, costs, allowed, dir, s, layers, limit, q0, ix0);
        let prev = layer_at(layers, h - 1);
        let cur = layer_at(layers, h);
        assert(layer_step(g, costs, allowed, dir, prev, cur));
        let k = ix[h - 1];
        assert(k == ix.last());
        assert(joins(g.edges[k], allowed, dir, q[h - 1], q[h - 1 + 1]));
        assert(q0.last() == q[h - 1]);
    }
}

/// A table holds what every earlier table holds, no dearer.
pub proof fn lemma_layer_monotone(
    g: GraphView,
    costs: Seq<u32>,
    allowed: Seq<EdgeType>,
    dir: TraversalDirection,
    s: u64,
    layers: Seq<Map<u64, Reached>>,
    limit: int,
    h: int,
    k: int,
    v: u64,
)
    requires
        layers_ok(g, costs, allowed, dir, s, layers, limit),
        0 <= h <= k <= limit,
        layer_at(layers, h).contains_key(v),
    ensures
        layer_at(layers, k).contains_key(v),
        layer_at(layers, k)[v].cost <= layer_at(layers, h)[v].cost,
    decreases k - h,
{
    if h < k {
        lemma_layer_monotone(g, costs, allowed, dir, s, layers, limit, h, k - 1, v);
        assert(layer_step(g, costs, allowed, dir, layer_at(layers, k - 1), layer_at(layers, k)));
    }
}

/// What a weighted query between two different nodes answers: a walk of at
/// most `max_depth` steps with the least sum of edge costs, which comes to
/// no node twice, if there is a walk of at most `max_depth` steps, and
/// otherwise nothing.
pub open spec fn is_cheapest_answer(
    g: GraphView,
    costs: Seq<u32>,
    s: u64,
    t: u64,
    allowed: Seq<EdgeType>,
    dir: TraversalDirection,
    max_depth: u32,
    r: PathResult,
) -> bool {
    if r.found {
        &&& r.path@.len() >= 1
        &&& r.path@[0] == s
        &&& r.path@.last() == t
        &&& r.path@.len() - 1 <= max_depth
        &&& r.path@.no_duplicates()
        &&& exists|ix: Seq<int>| #[trigger]
            priced_walk(g, allowed, dir, r.path@, ix) && r.cost == walk_cost(costs, ix)
                && r.edges@ == Seq::new(ix.len(), |i: int| g.edges[ix[i]])
        &&& forall|q: Seq<u64>, jx: Seq<int>| #[trigger]
            priced_walk(g, allowed, dir, q, jx) && q[0] == s && q.last() == t && q.len() - 1
                <= max_depth ==> walk_cost(costs, jx) >= r.cost
    } else {
        &&& r.path@.len() == 0
        &&& r.edges@.len() == 0
        &&& r.cost == 0
        &&& forall|q: Seq<u64>, jx: Seq<int>| #[trigger]
            priced_walk(g, allowed, dir, q, jx) && q[0] == s && q.last() == t ==> q.len() - 1
                > max_depth
    }
}

/// The views of a sequence of cost tables.
pub open spec fn layer_views(layers: Seq<HashMap<u64, Reached>>) -> Seq<Map<u64, Reached>> {
    Seq::new(layers.len(), |i: int| layers[i]@)
}

/// Offers `v` a walk through `u` over edge `k`, and takes it if `v` has no
/// entry yet or a dearer one.
fn offer(
    cur: &mut HashMap<u64, Reached>,
    prev: &HashMap<u64, Reached>,
    u: u64,
    v: u64,
    k: usize,
    step: u32,
    Ghost(bound): Ghost<nat>,
) -> (changed: bool)
    requires
        bound + u32::MAX <= u64::MAX,
        forall|w: u64| #[trigger] prev@.contains_key(w) ==> prev@[w].cost <= bound,
    ensures
        !changed ==> final(cur)@ == old(cur)@,
        forall|w: u64|
            #![trigger final(cur)@.contains_key(w)]
            #![trigger old(cur)@.contains_key(w)]
            w != v ==> (final(cur)@.contains_key(w) <==> old(cur)@.contains_key(w)) && (old(
                cur,
            )@.contains_key(w) ==> final(cur)@[w] == old(cur)@[w]),
        old(cur)@.contains_key(v) ==> final(cur)@.contains_key(v),
        final(cur)@.contains_key(v) ==> (old(cur)@.contains_key(v) && final(cur)@[v] == old(
            cur,
        )@[v]) || (prev@.contains_key(u) && final(cur)@[v] == (Reached {
            cost: (prev@[u].cost + step) as u64,
            parent: u,
            edge: k,
        })),
        prev@.contains_key(u) ==> final(cur)@.contains_key(v) && final(cur)@[v].cost
            <= prev@[u].cost + step,
        old(cur)@.contains_key(v) ==> final(cur)@[v].cost <= old(cur)@[v].cost,
{
    broadcast use vstd::std_specs::hash::group_hash_axioms;

    match prev.get(&u) {
        None => false,
        Some(from) => {
            let cand: u64 = from.cost + step as u64;
            let better = match cur.get(&v) {
                None => true,
                Some(have) => cand < have.cost,
            };
            if better {
                cur.insert(v, Reached { cost: cand, parent: u, edge: k });
            }
            better
        },
    }
}

/// The cost table one step after `prev`.
fn relax_all(
    graph: &MemoryGraph,
    costs: &Vec<u32>,
    allowed: &Vec<EdgeType>,
    dir: TraversalDirection,
    prev: &HashMap<u64, Reached>,
    Ghost(bound): Ghost<nat>,
) -> (r: (HashMap<u64, Reached>, bool))
    requires
        costs@.len() == graph@.edges.len(),
        bound + u32::MAX <= u64::MAX,
        forall|w: u64| #[trigger] prev@.contains_key(w) ==> prev@[w].cost <= bound,
    ensures
        layer_step(graph@, costs@, allowed@, dir, prev@, r.0@),
        !r.1 ==> r.0@ == prev@,
        forall|w: u64| #[trigger] r.0@.contains_key(w) ==> r.0@[w].cost <= bound + u32::MAX,
{
    broadcast use vstd::std_specs::hash::group_hash_axioms;

    let ghost g = graph@;
    let edges = graph.edges();
    let mut cur = prev.clone();
    let mut changed = false;
    let mut k: usize = 0;
    while k < edges.len()
        invariant
            k <= edges@.len(),
            edges@ == g.edges,
            g == graph@,
            costs@.len() == g.edges.len(),
            bound + u32::MAX <= u64::MAX,
            forall|w: u64| #[trigger] prev@.contains_key(w) ==> prev@[w].cost <= bound,
            forall|w: u64| #[trigger] cur@.contains_key(w) ==> cur@[w].cost <= bound + u32::MAX,
            !changed ==> cur@ == prev@,
            layer_sound(g, costs@, allowed@, dir, prev@, cur@),
            layer_keeps(prev@, cur@),
            layer_relaxed(g, costs@, allowed@, dir, prev@, cur@, k as int),
        decreases edges@.len() - k,
    {
        let e = edges[k];
        let step = costs[k];
        let ghost before = cur@;
        if edge_type_passes(allowed, e.edge_type) {
            if dir != TraversalDirection::Backward {
                let c = offer(&mut cur, prev, e.source_id, e.target_id, k, step, Ghost(bound));
                changed = changed || c;
            }
            let ghost middle = cur@;
            if dir != TraversalDirection::Forward {
                let c = offer(&mut cur, prev, e.target_id, e.source_id, k, step, Ghost(bound));
                changed = changed || c;
            }
            proof {
                assert forall|v: u64| #[trigger] cur@.contains_key(v) implies (prev@.contains_key(
                    v,
                ) && cur@[v] == prev@[v]) || derived(g, costs@, allowed@, dir, prev@, v, cur@[v]) by {
                    if middle.contains_key(v) && cur@[v] == middle[v] {
                        if before.contains_key(v) && middle[v] == before[v] {
                        } else {
                            assert(v == e.target_id);
                            assert(joins(g.edges[k as int], allowed@, dir, e.source_id, v));
                        }
                    } else {
                        assert(v == e.source_id);
                        assert(joins(g.edges[k as int], allowed@, dir, e.target_id, v));
                    }
                }
                assert forall|v: u64| #[trigger] prev@.contains_key(v) implies cur@.contains_key(v)
                    && cur@[v].cost <= prev@[v].cost by {
                    assert(before.contains_key(v));
                    assert(middle.contains_key(v) && middle[v].cost <= before[v].cost);
                }
                assert forall|l: int, u: u64, v: u64|
                    #![trigger joins(g.edges[l], allowed@, dir, u, v)]
                    0 <= l < k + 1 && prev@.contains_key(u) && joins(
                        g.edges[l],
                        allowed@,
                        dir,
                        u,
                        v,
                    ) implies cur@.contains_key(v) && cur@[v].cost <= prev@[u].cost + costs@[l] by {
                    if l < k {
                        assert(before.contains_key(v) && before[v].cost <= prev@[u].cost
                            + costs@[l]);
                        assert(middle.contains_key(v) && middle[v].cost <= before[v].cost);
                    } else {
                        if dir != TraversalDirection::Backward && e.source_id == u && e.target_id
                            == v {
                            assert(middle.contains_key(v) && middle[v].cost <= prev@[u].cost
                                + step);
                        } else {
                            assert(e.target_id == u && e.source_id == v);
                        }
                    }
                }
                assert forall|w: u64| #[trigger] cur@.contains_key(w) implies cur@[w].cost <= bound
                    + u32::MAX by {
                    if middle.contains_key(w) && cur@[w] == middle[w] {
                        if before.contains_key(w) && middle[w] == before[w] {
                        }
                    }
                }
            }
        } else {
            proof {
                assert forall|l: int, u: u64, v: u64|
                    #![trigger joins(g.edges[l], allowed@, dir, u, v)]
                    0 <= l < k + 1 && prev@.contains_key(u) && joins(
                        g.edges[l],
                        allowed@,
                        dir,
                        u,
                        v,
                    ) implies cur@.contains_key(v) && cur@[v].cost <= prev@[u].cost + costs@[l] by {
                    if l == k {
                        assert(g.edges[l] == e);
                    }
                }
            }
        }
        k += 1;
    }
    (cur, changed)
}

/// The cost of a walk with one more step in front.
pub proof fn lemma_walk_cost_front(costs: Seq<u32>, k: int, ix: Seq<int>)
    ensures
        walk_cost(costs, seq![k] + ix) == costs[k] + walk_cost(costs, ix),
    decreases ix.len(),
{
    let all = seq![k] + ix;
    if ix.len() == 0 {
        assert(all.drop_last() =~= Seq::<int>::empty());
        assert(walk_cost(costs, all.drop_last()) == 0);
    } else {
        assert(all.drop_last() =~= seq![k] + ix.drop_last());
        lemma_walk_cost_front(costs, k, ix.drop_last());
    }
}

/// The cost tables of a search from the source for 0, 1, 2, ... steps, up to
/// `max_depth` steps or until a step changes nothing.
fn build_layers(graph: &MemoryGraph, params: &ShortestPathParams, costs: &Vec<u32>) -> (layers:
    Vec<HashMap<u64, Reached>>)
    requires
        costs@.len() == graph@.edges.len(),
    ensures
        1 <= layers@.len() <= params.max_depth + 1,
        layers_ok(
            graph@,
            costs@,
            params.edge_types@,
            params.direction,
            params.source_id,
            layer_views(layers@),
            params.max_depth as int,
        ),
        layer_at(layer_views(layers@), params.max_depth as int) == layers@[layers@.len() - 1]@,
{
    broadcast use vstd::std_specs::hash::group_hash_axioms;

    let s = params.source_id;
    let dir = params.direction;
    let ghost g = graph@;
    let ghost allowed = params.edge_types@;
    let mut layers: Vec<HashMap<u64, Reached>> = Vec::new();
    let mut first: HashMap<u64, Reached> = HashMap::new();
    first.insert(s, Reached { cost: 0, parent: s, edge: 0 });
    layers.push(first);
    let mut h: u32 = 0;
    let mut stable = false;
    assert(layer_views(layers@)[0] == layers@[0]@);
    while h < params.max_depth && !stable
        invariant
            h <= params.max_depth,
            g == graph@,
            allowed == params.edge_types@,
            s == params.source_id,
            dir == params.direction,
            costs@.len() == g.edges.len(),
            layers@.len() == h + 1,
            layers_ok(g, costs@, allowed, dir, s, layer_views(layers@), h as int),
            forall|w: u64| #[trigger]
                layers@[h as int]@.contains_key(w) ==> layers@[h as int]@[w].cost <= h * u32::MAX,
            stable ==> layer_step(
                g,
                costs@,
                allowed,
                dir,
                layers@[h as int]@,
                layers@[h as int]@,
            ),
        decreases params.max_depth - h + if stable { 0int } else { 1int },
    {
        assert(h * u32::MAX + u32::MAX <= u64::MAX) by (nonlinear_arith)
            requires
                h < u32::MAX,
        ;
        let (next, changed) = relax_all(
            graph,
            costs,
            &params.edge_types,
            dir,
            &layers[h as usize],
            Ghost((h * u32::MAX) as nat),
        );
        if !changed {
            stable = true;
        } else {
            let ghost before = layer_views(layers@);
            layers.push(next);
            proof {
                let after = layer_views(layers@);
                assert(after[h + 1] == next@);
                assert forall|k: int| 1 <= k <= h + 1 implies layer_step(
                    g,
                    costs@,
                    allowed,
                    dir,
                    layer_at(after, k - 1),
                    #[trigger] layer_at(after, k),
                ) by {
                    if k <= h {
                        assert(layer_at(after, k) == layer_at(before, k));
                        assert(layer_at(after, k - 1) == layer_at(before, k - 1));
                    } else {
                        assert(layer_at(after, k - 1) == before[h as int]);
                    }
                }
                assert(after[0] == before[0]);
                assert((h + 1) * u32::MAX == h * u32::MAX + u32::MAX) by (nonlinear_arith);
            }
            h += 1;
        }
    }
    proof {
        let views = layer_views(layers@);
        let limit = params.max_depth as int;
        assert(views[h as int] == layers@[h as int]@);
        assert forall|k: int| 1 <= k <= limit implies layer_step(
            g,
            costs@,
            allowed,
            dir,
            layer_at(views, k - 1),
            #[trigger] layer_at(views, k),
        ) by {
            if k > h {
                assert(layer_at(views, k) == views[h as int]);
                assert(layer_at(views, k - 1) == views[h as int]);
            }
        }
        assert(layer_at(views, limit) == views[h as int]);
    }
    layers
}

/// The walk that the entry of `t` in the last table stands for, read off
/// the tables from the last to the first.
fn trace_back(
    graph: &MemoryGraph,
    layers: &Vec<HashMap<u64, Reached>>,
    t: u64,
    Ghost(costs): Ghost<Seq<u32>>,
    Ghost(allowed): Ghost<Seq<EdgeType>>,
    Ghost(dir): Ghost<TraversalDirection>,
    Ghost(s): Ghost<u64>,
    Ghost(limit): Ghost<int>,
) -> (r: (Vec<u64>, Vec<Edge>, Ghost<Seq<int>>))
    requires
        1 <= layers@.len() <= limit + 1,
        costs.len() == graph@.edges.len(),
        layers_ok(graph@, costs, allowed, dir, s, layer_views(layers@), limit),
        layers@[layers@.len() - 1]@.contains_key(t),
    ensures
        r.0@.len() >= 1,
        r.0@[0] == s,
        r.0@.last() == t,
        r.0@.len() - 1 <= limit,
        priced_walk(graph@, allowed, dir, r.0@, r.2@),
        walk_cost(costs, r.2@) == layers@[layers@.len() - 1]@[t].cost,
        r.1@ == Seq::new(r.2@.len(), |i: int| graph@.edges[r.2@[i]]),
{
    broadcast use vstd::std_specs::hash::group_hash_axioms;

    let ghost g = graph@;
    let ghost views = layer_views(layers@);
    let n: usize = layers.len() - 1;
    let ghost total = layers@[n as int]@[t].cost;
    let mut k: usize = n;
    let mut v = t;
    let mut rev_nodes: Vec<u64> = Vec::new();
    let mut rev_edges: Vec<usize> = Vec::new();
    rev_nodes.push(t);
    let ghost mut q: Seq<u64> = seq![t];
    let ghost mut ix: Seq<int> = Seq::empty();
    while k > 0
        invariant
            k <= n,
            n <= limit,
            g == graph@,
            layers@.len() == n + 1,
            views == layer_views(layers@),
            layers_ok(g, costs, allowed, dir, s, views, limit),
            costs.len() == g.edges.len(),
            layers@[k as int]@.contains_key(v),
            priced_walk(g, allowed, dir, q, ix),
            q[0] == v,
            q.last() == t,
            layers@[k as int]@[v].cost + walk_cost(costs, ix) == total,
            ix.len() + k <= n,
            rev_nodes@.len() == q.len(),
            rev_edges@.len() == ix.len(),
            forall|i: int| 0 <= i < q.len() ==> rev_nodes@[i] == q[q.len() - 1 - i],
            forall|i: int| 0 <= i < ix.len() ==> rev_edges@[i] == ix[ix.len() - 1 - i],
        decreases k,
    {
        let entry = match layers[k].get(&v) {
            Some(e) => *e,
            None => Reached { cost: 0, parent: v, edge: 0 },
        };
        let carried = match layers[k - 1].get(&v) {
            Some(e0) => e0.cost == entry.cost && e0.parent == entry.parent && e0.edge == entry.edge,
            None => false,
        };
        proof {
            assert(layer_at(views, k as int) == layers@[k as int]@);
            assert(layer_at(views, k - 1) == layers@[k - 1]@);
            assert(layer_step(
                g,
                costs,
                allowed,
                dir,
                layer_at(views, k - 1),
                layer_at(views, k as int),
            ));
        }
        if !carried {
            proof {
                let prev = layers@[k - 1]@;
                assert(derived(g, costs, allowed, dir, prev, v, entry));
                let q2 = seq![entry.parent] + q;
                let ix2 = seq![entry.edge as int] + ix;
                lemma_walk_cost_front(costs, entry.edge as int, ix);
                assert forall|i: int| 0 <= i < ix2.len() implies 0 <= #[trigger] ix2[i]
                    < g.edges.len() && joins(g.edges[ix2[i]], allowed, dir, q2[i], q2[i + 1]) by {
                    if i > 0 {
                        assert(ix2[i] == ix[i - 1]);
                        assert(q2[i] == q[i - 1] && q2[i + 1] == q[i]);
                    }
                }
                q = q2;
                ix = ix2;
            }
            rev_nodes.push(entry.parent);
            rev_edges.push(entry.edge);
            v = entry.parent;
        }
        k -= 1;
    }
    proof {
        assert(views[0] == layers@[0]@);
        assert(v == s);
    }
    let mut path: Vec<u64> = Vec::new();
    let m = rev_nodes.len();
    let mut i: usize = 0;
    while i < m
        invariant
            i <= m,
            m == rev_nodes@.len(),
            m == q.len(),
            path@.len() == i,
            forall|j: int| 0 <= j < q.len() ==> rev_nodes@[j] == q[q.len() - 1 - j],
            forall|j: int| 0 <= j < i ==> path@[j] == q[j],
        decreases m - i,
    {
        path.push(rev_nodes[m - 1 - i]);
        i += 1;
    }
    let all_edges = graph.edges();
    let mut edges: Vec<Edge> = Vec::new();
    let c = rev_edges.len();
    let mut j: usize = 0;
    while j < c
        invariant
            j <= c,
            c == rev_edges@.len(),
            c == ix.len(),
            all_edges@ == g.edges,
            priced_walk(g, allowed, dir, q, ix),
            edges@.len() == j,
            forall|l: int| 0 <= l < ix.len() ==> rev_edges@[l] == ix[ix.len() - 1 - l],
            forall|l: int| 0 <= l < j ==> edges@[l] == g.edges[ix[l]],
        decreases c - j,
    {
        let idx = rev_edges[c - 1 - j];
        assert(idx == ix[j as int]);
        edges.push(all_edges[idx]);
        j += 1;
    }
    proof {
        assert(path@ =~= q);
        assert(edges@ =~= Seq::new(ix.len(), |i: int| g.edges[ix[i]]));
    }
    (path, edges, Ghost(ix))
}

/// The first steps of a walk cost no more than the walk.
pub proof fn lemma_cost_of_part(costs: Seq<u32>, ix: Seq<int>, k: int)
    requires
        0 <= k <= ix.len(),
    ensures
        walk_cost(costs, ix.take(k)) <= walk_cost(costs, ix),
    decreases ix.len() - k,
{
    if k < ix.len() {
        lemma_cost_of_part(costs, ix, k + 1);
        assert(ix.take(k + 1).drop_last() =~= ix.take(k));
    } else {
        assert(ix.take(k) =~= ix);
    }
}

/// The place of a node on a path, if it is on it.
fn place_on(path: &Vec<u64>, v: u64) -> (r: Option<usize>)
    ensures
        r is Some <==> path@.contains(v),
        r is Some ==> r->0 < path@.len() && path@[r->0 as int] == v,
{
    let mut i: usize = 0;
    while i < path.len()
        invariant
            i <= path@.len(),
            forall|j: int| 0 <= j < i ==> path@[j] != v,
        decreases path@.len() - i,
    {
        if path[i] == v {
            return Some(i);
        }
        i += 1;
    }
    None
}

/// A walk without its detours: wherever the walk comes back to a node, what
/// lies between the two visits is left out. What is left is a walk between
/// the same ends that comes to no node twice, is no longer and costs no
/// more.
fn drop_detours(
    path: &Vec<u64>,
    edges: &Vec<Edge>,
    Ghost(g): Ghost<GraphView>,
    Ghost(costs): Ghost<Seq<u32>>,
    Ghost(allowed): Ghost<Seq<EdgeType>>,
    Ghost(dir): Ghost<TraversalDirection>,
    Ghost(ix): Ghost<Seq<int>>,
) -> (r: (Vec<u64>, Vec<Edge>, Ghost<Seq<int>>))
    requires
        priced_walk(g, allowed, dir, path@, ix),
        edges@ == Seq::new(ix.len(), |i: int| g.edges[ix[i]]),
    ensures
        priced_walk(g, allowed, dir, r.0@, r.2@),
        r.1@ == Seq::new(r.2@.len(), |i: int| g.edges[r.2@[i]]),
        r.0@[0] == path@[0],
        r.0@.last() == path@.last(),
        r.0@.no_duplicates(),
        r.0@.len() <= path@.len(),
        walk_cost(costs, r.2@) <= walk_cost(costs, ix),
{
    let mut out: Vec<u64> = Vec::new();
    let mut taken: Vec<Edge> = Vec::new();
    let ghost mut jx: Seq<int> = Seq::empty();
    out.push(path[0]);
    let mut i: usize = 1;
    proof {
        assert(ix.take(0) =~= Seq::<int>::empty());
        assert(taken@ =~= Seq::new(jx.len(), |i: int| g.edges[jx[i]]));
    }
    while i < path.len()
        invariant
            1 <= i <= path@.len(),
            priced_walk(g, allowed, dir, path@, ix),
            edges@ == Seq::new(ix.len(), |i: int| g.edges[ix[i]]),
            priced_walk(g, allowed, dir, out@, jx),
            taken@ == Seq::new(jx.len(), |i: int| g.edges[jx[i]]),
            out@[0] == path@[0],
            out@.last() == path@[i - 1],
            out@.no_duplicates(),
            out@.len() <= i,
            walk_cost(costs, jx) <= walk_cost(costs, ix.take(i - 1)),
        decreases path@.len() - i,
    {
        let v = path[i];
        let ghost before = out@;
        let ghost before_jx = jx;
        proof {
            assert(ix.take(i as int).drop_last() =~= ix.take(i - 1));
            assert(ix.take(i as int).last() == ix[i - 1]);
        }
        match place_on(&out, v) {
            Some(k) => {
                out.truncate(k + 1);
                taken.truncate(k);
                proof {
                    jx = before_jx.take(k as int);
                    lemma_cost_of_part(costs, before_jx, k as int);
                    assert(out@ =~= before.take(k + 1));
                    assert(taken@ =~= Seq::new(jx.len(), |i: int| g.edges[jx[i]]));
                    assert forall|l: int| 0 <= l < jx.len() implies 0 <= #[trigger] jx[l]
                        < g.edges.len() && joins(g.edges[jx[l]], allowed, dir, out@[l], out@[l + 1]) by {
                        assert(jx[l] == before_jx[l]);
                    }
                }
            },
            None => {
                out.push(v);
                taken.push(edges[i - 1]);
                proof {
                    jx = before_jx.push(ix[i - 1]);
                    assert(jx.drop_last() =~= before_jx);
                    assert(taken@ =~= Seq::new(jx.len(), |i: int| g.edges[jx[i]]));
                    assert forall|l: int| 0 <= l < jx.len() implies 0 <= #[trigger] jx[l]
                        < g.edges.len() && joins(g.edges[jx[l]], allowed, dir, out@[l], out@[l + 1]) by {
                        if l < before_jx.len() {
                            assert(jx[l] == before_jx[l]);
                        } else {
                            assert(joins(g.edges[ix[i - 1]], allowed, dir, path@[i - 1], path@[i as int]));
                        }
                    }
                    assert(out@.no_duplicates()) by {
                        assert forall|a: int, b: int|
                            0 <= a < out@.len() && 0 <= b < out@.len() && a != b implies out@[a]
                            != out@[b] by {
                            if a < before.len() && b < before.len() {
                                assert(before[a] != before[b]);
                            } else if a < before.len() {
                                assert(before.contains(before[a]));
                            } else {
                                assert(before.contains(before[b]));
                            }
                        }
                    }
                }
            },
        }
        i += 1;
    }
    proof {
        assert(ix.take(i - 1) =~= ix);
    }
    (out, taken, Ghost(jx))
}

/// Finds the cheapest walk of at most `max_depth` steps, where `costs` gives
/// the cost of each edge of the graph, in the order of the graph's edges.
pub fn cheapest_path(graph: &MemoryGraph, params: &ShortestPathParams, costs: &Vec<u32>) -> (r:
    PathResult)
    requires
        params.source_id != params.target_id,
        costs@.len() == graph@.edges.len(),
    ensures
        is_cheapest_answer(
            graph@,
            costs@,
            params.source_id,
            params.target_id,
            params.edge_types@,
            params.direction,
            params.max_depth,
            r,
        ),
{
    broadcast use vstd::std_specs::hash::group_hash_axioms;

    let s = params.source_id;
    let t = params.target_id;
    let ghost dir = params.direction;
    let ghost g = graph@;
    let ghost allowed = params.edge_types@;
    let layers = build_layers(graph, params, costs);
    let ghost views = layer_views(layers@);
    let ghost limit = params.max_depth as int;
    let n = layers.len() - 1;
    let total = match layers[n].get(&t) {
        None => {
            proof {
                assert forall|q: Seq<u64>, jx: Seq<int>| #[trigger]
                    priced_walk(g, allowed, dir, q, jx) && q[0] == s && q.last()
                        == t implies q.len() - 1 > params.max_depth by {
                    if q.len() - 1 <= limit {
                        lemma_layer_bound(g, costs@, allowed, dir, s, views, limit, q, jx);
                        lemma_layer_monotone(
                            g,
                            costs@,
                            allowed,
                            dir,
                            s,
                            views,
                            limit,
                            q.len() - 1,
                            limit,
                            t,
                        );
                    }
                }
            }
            return PathResult { path: Vec::new(), edges: Vec::new(), cost: 0, found: false };
        },
        Some(entry) => entry.cost,
    };
    let (path, edges, Ghost(ix)) = trace_back(
        graph,
        &layers,
        t,
        Ghost(costs@),
        Ghost(allowed),
        Ghost(dir),
        Ghost(s),
        Ghost(limit),
    );
    proof {
        assert forall|p: Seq<u64>, jx: Seq<int>| #[trigger]
            priced_walk(g, allowed, dir, p, jx) && p[0] == s && p.last() == t && p.len() - 1
                <= params.max_depth implies walk_cost(costs@, jx) >= total by {
            lemma_layer_bound(g, costs@, allowed, dir, s, views, limit, p, jx);
            lemma_layer_monotone(
                g,
                costs@,
                allowed,
                dir,
                s,
                views,
                limit,
                p.len() - 1,
                limit,
                t,
            );
        }
        assert(priced_walk(g, allowed, dir, path@, ix) && total == walk_cost(costs@, ix) && edges@
            == Seq::new(ix.len(), |i: int| g.edges[ix[i]]));
    }
    let (simple, taken, Ghost(jx)) = drop_detours(
        &path,
        &edges,
        Ghost(g),
        Ghost(costs@),
        Ghost(allowed),
        Ghost(dir),
        Ghost(ix),
    );
    proof {
        assert(priced_walk(g, allowed, dir, simple@, jx) && simple@[0] == s && simple@.last() == t
            && simple@.len() - 1 <= params.max_depth);
        assert(walk_cost(costs@, jx) >= total);
        assert(priced_walk(g, allowed, dir, simple@, jx) && total == walk_cost(costs@, jx)
            && taken@ == Seq::new(jx.len(), |i: int| g.edges[jx[i]]));
    }
    PathResult { path: simple, edges: taken, cost: total, found: true }
}

/// What a shortest-path query answers.
pub open spec fn shortest_path_answer(
    g: GraphView,
    params: ShortestPathParams,
    costs: Seq<u32>,
    r: Result<PathResult, AmemError>,
) -> bool {
    if params.source_id == params.target_id {
        r is Ok && r->Ok_0.found && r->Ok_0.path@ == seq![params.source_id] && r->Ok_0.edges@.len()
            == 0 && r->Ok_0.cost == 0
    } else if !g.has_node(params.source_id) {
        r == Err::<PathResult, AmemError>(AmemError::NodeNotFound(params.source_id))
    } else if !g.has_node(params.target_id) {
        r == Err::<PathResult, AmemError>(AmemError::NodeNotFound(params.target_id))
    } else if !params.weighted {
        r is Ok && is_shortest_answer(
            g,
            params.source_id,
            params.target_id,
            params.edge_types@,
            params.direction,
            params.max_depth,
            r->Ok_0,
        )
    } else if costs.len() != g.edges.len() {
        r == Err::<PathResult, AmemError>(AmemError::InvalidParams)
    } else {
        r is Ok && is_cheapest_answer(
            g,
            costs,
            params.source_id,
            params.target_id,
            params.edge_types@,
            params.direction,
            params.max_depth,
            r->Ok_0,
        )
    }
}

impl crate::engine::query::QueryEngine {
    /// The shortest walk between two nodes, or in a weighted query the
    /// cheapest one, where `costs` gives the cost of each edge of the graph
    /// in the order of the graph's edges. A query from a node to itself is
    /// answered with that node alone, whether it is live or not.
    pub fn shortest_path(
        &self,
        graph: &MemoryGraph,
        params: ShortestPathParams,
        costs: &Vec<u32>,
    ) -> (r: Result<PathResult, AmemError>)
        requires
            graph.wf(),
        ensures
            shortest_path_answer(graph@, params, costs@, r),
    {
        if params.source_id == params.target_id {
            let mut path: Vec<u64> = Vec::new();
            path.push(params.source_id);
            assert(path@ =~= seq![params.source_id]);
            return Ok(PathResult { path, edges: Vec::new(), cost: 0, found: true });
        }
        if !graph.contains_node(params.source_id) {
            return Err(AmemError::NodeNotFound(params.source_id));
        }
        if !graph.contains_node(params.target_id) {
            return Err(AmemError::NodeNotFound(params.target_id));
        }
        if !params.weighted {
            Ok(bidirectional_bfs(graph, &params))
        } else if costs.len() != graph.edge_count() {
            Err(AmemError::InvalidParams)
        } else {
            Ok(cheapest_path(graph, &params, costs))
        }
    }
}

/// The part of a graph that a centrality measure looks at.
pub struct CentralityScope {
    /// The ids of the nodes of the kinds asked for, ascending.
    pub node_ids: Vec<u64>,
    /// The edges of the types asked for between those nodes, each as the
    /// places of its source and its target in `node_ids`.
    pub edges: Vec<(usize, usize)>,
}

/// The ids of the nodes of the kinds asked for, in order.
pub open spec fn scope_nodes(nodes: Seq<EventView>, types: Seq<EventType>) -> Seq<u64>
    decreases nodes.len(),
{
    if nodes.len() == 0 {
        Seq::empty()
    } else if event_type_allowed(types, nodes.last().event_type) {
        scope_nodes(nodes.drop_last(), types).push(nodes.last().id)
    } else {
        scope_nodes(nodes.drop_last(), types)
    }
}

/// The place of an id in an ascending list.
pub open spec fn place_of(ids: Seq<u64>, id: u64) -> int {
    choose|i: int| 0 <= i < ids.len() && ids[i] == id
}

/// The edges of the types asked for whose ends are both among `ids`, each
/// as the places of its ends, in order.
pub open spec fn scope_edges(edges: Seq<Edge>, ids: Seq<u64>, allowed: Seq<EdgeType>) -> Seq<
    (usize, usize),
>
    decreases edges.len(),
{
    if edges.len() == 0 {
        Seq::empty()
    } else {
        let e = edges.last();
        if ids.contains(e.source_id) && ids.contains(e.target_id) && edge_type_allowed(
            allowed,
            e.edge_type,
        ) {
            scope_edges(edges.drop_last(), ids, allowed).push(
                (place_of(ids, e.source_id) as usize, place_of(ids, e.target_id) as usize),
            )
        } else {
            scope_edges(edges.drop_last(), ids, allowed)
        }
    }
}

/// How many of the edges touch place `i`, an edge from a place to itself
/// counted twice.
pub open spec fn degree_at(edges: Seq<(usize, usize)>, i: int) -> nat
    decreases edges.len(),
{
    if edges.len() == 0 {
        0
    } else {
        degree_at(edges.drop_last(), i) + (if edges.last().0 == i { 1nat } else { 0nat }) + (
        if edges.last().1 == i { 1nat } else { 0nat })
    }
}

/// The place of an id in an ascending list, if it is there.
fn find_place(ids: &Vec<u64>, id: u64) -> (r: Option<usize>)
    requires
        ascending(ids@),
    ensures
        r is Some <==> ids@.contains(id),
        r is Some ==> r->0 == place_of(ids@, id) && r->0 < ids@.len(),
{
    let pos = lower_bound(ids, id);
    if pos < ids.len() && ids[pos] == id {
        proof {
            let c = place_of(ids@, id);
            if c < pos {
                assert(ids@[c] < ids@[pos as int]);
            } else if c > pos {
                assert(ids@[pos as int] < ids@[c]);
            }
        }
        Some(pos)
    } else {
        proof {
            if ids@.contains(id) {
                let c = choose|c: int| 0 <= c < ids@.len() && ids@[c] == id;
                if c > pos {
                    assert(ids@[pos as int] < ids@[c]);
                }
            }
        }
        None
    }
}

/// The ids of the first `n` nodes of the kinds asked for ascend, and are
/// ids of those nodes.
proof fn lemma_scope_nodes(nodes: Seq<EventView>, types: Seq<EventType>)
    requires
        forall|i: int, j: int| 0 <= i < j < nodes.len() ==> (#[trigger] nodes[i]).id < (#[trigger] nodes[j]).id,
    ensures
        ascending(scope_nodes(nodes, types)),
        forall|x: u64| scope_nodes(nodes, types).contains(x) ==> exists|i: int|
            0 <= i < nodes.len() && (#[trigger] nodes[i]).id == x,
    decreases nodes.len(),
{
    if nodes.len() > 0 {
        let p = nodes.drop_last();
        assert forall|i: int, j: int| 0 <= i < j < p.len() implies (#[trigger] p[i]).id < (
        #[trigger] p[j]).id by {
            assert(nodes[i].id < nodes[j].id);
        }
        lemma_scope_nodes(p, types);
        let before = scope_nodes(p, types);
        let s = scope_nodes(nodes, types);
        assert forall|x: u64| s.contains(x) implies exists|i: int|
            0 <= i < nodes.len() && (#[trigger] nodes[i]).id == x by {
            let k = choose|k: int| 0 <= k < s.len() && s[k] == x;
            if k < before.len() {
                assert(before[k] == x);
                assert(before.contains(x));
                let i = choose|i: int| 0 <= i < p.len() && (#[trigger] p[i]).id == x;
                assert(nodes[i].id == x);
            } else {
                assert(nodes[nodes.len() - 1].id == x);
            }
        }
        assert forall|a: int, b: int| 0 <= a < b < s.len() implies s[a] < s[b] by {
            if b < before.len() {
                assert(before[a] < before[b]);
            } else {
                assert(before[a] == s[a]);
                assert(before.contains(before[a]));
                let i = choose|i: int| 0 <= i < p.len() && (#[trigger] p[i]).id == before[a];
                assert(nodes[i].id < nodes[nodes.len() - 1].id);
            }
        }
    }
}

impl crate::engine::query::QueryEngine {
    /// The nodes and edges that a centrality measure looks at.
    pub fn centrality_scope(
        &self,
        graph: &MemoryGraph,
        event_types: &Vec<EventType>,
        edge_types: &Vec<EdgeType>,
    ) -> (r: CentralityScope)
        requires
            graph.wf(),
        ensures
            r.node_ids@ == scope_nodes(graph@.nodes, event_types@),
            ascending(r.node_ids@),
            r.edges@ == scope_edges(graph@.edges, r.node_ids@, edge_types@),
            forall|k: int|
                0 <= k < r.edges@.len() ==> (#[trigger] r.edges@[k]).0 < r.node_ids@.len()
                    && r.edges@[k].1 < r.node_ids@.len(),
    {
        let ghost g = graph@;
        let nodes = graph.nodes();
        let mut ids: Vec<u64> = Vec::new();
        let mut i: usize = 0;
        assert(g.nodes.take(0) =~= Seq::<EventView>::empty());
        while i < nodes.len()
            invariant
                i <= nodes@.len(),
                event_views(nodes@) == g.nodes,
                ids@ == scope_nodes(g.nodes.take(i as int), event_types@),
            decreases nodes@.len() - i,
        {
            assert(g.nodes.take(i + 1).drop_last() =~= g.nodes.take(i as int));
            assert(g.nodes.take(i + 1).last() == nodes@[i as int]@);
            if event_type_passes(event_types, nodes[i].event_type) {
                ids.push(nodes[i].id);
            }
            i += 1;
        }
        assert(g.nodes.take(i as int) =~= g.nodes);
        proof {
            lemma_scope_nodes(g.nodes, event_types@);
        }
        let edges = graph.edges();
        let mut out: Vec<(usize, usize)> = Vec::new();
        let mut k: usize = 0;
        assert(g.edges.take(0) =~= Seq::<Edge>::empty());
        while k < edges.len()
            invariant
                k <= edges@.len(),
                edges@ == g.edges,
                ascending(ids@),
                out@ == scope_edges(g.edges.take(k as int), ids@, edge_types@),
                forall|x: int|
                    0 <= x < out@.len() ==> (#[trigger] out@[x]).0 < ids@.len() && out@[x].1
                        < ids@.len(),
            decreases edges@.len() - k,
        {
            assert(g.edges.take(k + 1).drop_last() =~= g.edges.take(k as int));
            let e = edges[k];
            if edge_type_passes(edge_types, e.edge_type) {
                match find_place(&ids, e.source_id) {
                    None => {},
                    Some(a) => {
                        match find_place(&ids, e.target_id) {
                            None => {},
                            Some(b) => {
                                out.push((a, b));
                            },
                        }
                    },
                }
            }
            k += 1;
        }
        assert(g.edges.take(k as int) =~= g.edges);
        CentralityScope { node_ids: ids, edges: out }
    }

    /// For each node of the scope the number of edges that touch it.
    pub fn degree_counts(&self, scope: &CentralityScope) -> (r: Vec<usize>)
        requires
            forall|k: int|
                0 <= k < scope.edges@.len() ==> (#[trigger] scope.edges@[k]).0
                    < scope.node_ids@.len() && scope.edges@[k].1 < scope.node_ids@.len(),
        ensures
            r@.len() == scope.node_ids@.len(),
            forall|i: int| 0 <= i < r@.len() ==> #[trigger] r@[i] == if degree_at(scope.edges@, i)
                > usize::MAX {
                usize::MAX
            } else {
                degree_at(scope.edges@, i) as usize
            },
    {
        let n = scope.node_ids.len();
        let mut deg: Vec<usize> = Vec::new();
        let mut i: usize = 0;
        while i < n
            invariant
                i <= n,
                deg@.len() == i,
                forall|j: int| 0 <= j < i ==> deg@[j] == 0,
            decreases n - i,
        {
            deg.push(0);
            i += 1;
        }
        let mut k: usize = 0;
        assert(scope.edges@.take(0) =~= Seq::<(usize, usize)>::empty());
        while k < scope.edges.len()
            invariant
                k <= scope.edges@.len(),
                n == scope.node_ids@.len(),
                deg@.len() == n,
                forall|x: int|
                    0 <= x < scope.edges@.len() ==> (#[trigger] scope.edges@[x]).0 < n
                        && scope.edges@[x].1 < n,
                forall|j: int|
                    0 <= j < n ==> #[trigger] deg@[j] == if degree_at(
                        scope.edges@.take(k as int),
                        j,
                    ) > usize::MAX {
                        usize::MAX
                    } else {
                        degree_at(scope.edges@.take(k as int), j) as usize
                    },
            decreases scope.edges@.len() - k,
        {
            assert(scope.edges@.take(k + 1).drop_last() =~= scope.edges@.take(k as int));
            assert(scope.edges@.take(k + 1).last() == scope.edges@[k as int]);
            let (a, b) = scope.edges[k];
            let da = deg[a];
            deg.set(a, if da < usize::MAX { da + 1 } else { da });
            let db = deg[b];
            deg.set(b, if db < usize::MAX { db + 1 } else { db });
            k += 1;
        }
        assert(scope.edges@.take(k as int) =~= scope.edges@);
        deg
    }
}

} // verus!
