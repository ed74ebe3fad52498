//! Writing to the graph: new events and corrections.

use vstd::prelude::*;
use crate::graph::{add_edge_outcome, event_views, GraphView, MemoryGraph};
use crate::types::{AmemError, CognitiveEvent, Edge, EdgeType, EventType, EventView};
use crate::unit::{clamp_unit, clamped, zero_vec, ONE};

verus! {

/// An edge from a new node to a node of the graph.
#[derive(Clone, Copy, Debug, PartialEq, Eq, Structural)]
pub struct NewEdge {
    pub target_id: u64,
    pub edge_type: EdgeType,
    /// Weight as a bit pattern.
    pub weight: u32,
}

/// Builds nodes and hands them to a graph.
pub struct WriteEngine {
    dimension: usize,
}

/// Whether the `i`-th edge cannot be added: its target is no live node, or
/// an earlier edge has the same target and type.
pub open spec fn bad_edge(g: GraphView, edges: Seq<NewEdge>, i: int) -> bool {
    0 <= i < edges.len() && (!g.has_node(edges[i].target_id) || exists|j: int|
        0 <= j < i && (#[trigger] edges[j]).target_id == edges[i].target_id && edges[j].edge_type
            == edges[i].edge_type)
}

/// Whether the `i`-th edge is the first that cannot be added.
pub open spec fn first_bad_edge(g: GraphView, edges: Seq<NewEdge>, i: int) -> bool {
    bad_edge(g, edges, i) && forall|j: int| 0 <= j < i ==> !bad_edge(g, edges, j)
}

/// The failure that the `i`-th edge stands for.
pub open spec fn edge_error(g: GraphView, edges: Seq<NewEdge>, i: int) -> AmemError {
    if !g.has_node(edges[i].target_id) {
        AmemError::NodeNotFound(edges[i].target_id)
    } else {
        AmemError::DuplicateEdge(g.next_id, edges[i].target_id)
    }
}

/// Why an event cannot be added, if it cannot: its vector has another
/// length than the graph's dimension, no id is left for it, or one of its
/// edges cannot be added.
pub open spec fn add_event_error(g: GraphView, vector_len: nat, edges: Seq<NewEdge>) -> Option<
    AmemError,
> {
    if vector_len != g.dimension {
        Some(AmemError::DimensionMismatch { expected: g.dimension, got: vector_len as usize })
    } else if g.next_id == u64::MAX {
        Some(AmemError::InvalidParams)
    } else if exists|i: int| first_bad_edge(g, edges, i) {
        Some(edge_error(g, edges, choose|i: int| first_bad_edge(g, edges, i)))
    } else {
        None
    }
}

/// The latest node of a session: the one added last.
pub open spec fn last_in_session(nodes: Seq<EventView>, session: u32) -> Option<u64>
    decreases nodes.len(),
{
    if nodes.len() == 0 {
        None
    } else if nodes.last().session_id == session {
        Some(nodes.last().id)
    } else {
        last_in_session(nodes.drop_last(), session)
    }
}

/// The edges of a new node as edges of the graph.
pub open spec fn edges_of_new(id: u64, now: u64, edges: Seq<NewEdge>) -> Seq<Edge> {
    Seq::new(
        edges.len(),
        |i: int|
            Edge {
                source_id: id,
                target_id: edges[i].target_id,
                edge_type: edges[i].edge_type,
                weight: edges[i].weight,
                created_at: now,
            },
    )
}

/// The edge that chains a new node to the latest node of its session, if
/// chaining is asked for and the session has a node.
pub open spec fn chain_edge(g: GraphView, session: u32, now: u64, auto_chain: bool) -> Seq<Edge> {
    match last_in_session(g.nodes, session) {
        Some(prev) => if auto_chain {
            seq![
                Edge {
                    source_id: prev,
                    target_id: g.next_id,
                    edge_type: EdgeType::TemporalNext,
                    weight: ONE,
                    created_at: now,
                },
            ]
        } else {
            Seq::empty()
        },
        None => Seq::empty(),
    }
}

/// Finds the latest node of a session.
fn find_last_in_session(graph: &MemoryGraph, session: u32) -> (r: Option<u64>)
    ensures
        r == last_in_session(graph@.nodes, session),
{
    let nodes = graph.nodes();
    let ghost all = graph@.nodes;
    let mut i: usize = nodes.len();
    assert(all.take(i as int) =~= all);
    while i > 0
        invariant
            i <= nodes@.len(),
            event_views(nodes@) == all,
            all == graph@.nodes,
            last_in_session(all, session) == last_in_session(all.take(i as int), session),
        decreases i,
    {
        i -= 1;
        let ghost part = all.take(i + 1);
        assert(part.drop_last() =~= all.take(i as int));
        assert(part.last() == nodes@[i as int]@);
        assert(part.len() > 0);
        if nodes[i].session_id == session {
            assert(last_in_session(part, session) == Some(part.last().id));
            return Some(nodes[i].id);
        }
        assert(last_in_session(part, session) == last_in_session(part.drop_last(), session));
    }
    None
}

/// Looks for the first edge that cannot be added.
fn check_edges(graph: &MemoryGraph, edges: &Vec<NewEdge>) -> (r: Option<AmemError>)
    requires
        graph.wf(),
    ensures
        match r {
            Some(e) => (exists|i: int| first_bad_edge(graph@, edges@, i)) && e == edge_error(
                graph@,
                edges@,
                choose|i: int| first_bad_edge(graph@, edges@, i),
            ),
            None => forall|i: int| !bad_edge(graph@, edges@, i),
        },
{
    let ghost g = graph@;
    let mut i: usize = 0;
    while i < edges.len()
        invariant
            i <= edges@.len(),
            g == graph@,
            graph.wf(),
            forall|j: int| 0 <= j < i ==> !bad_edge(g, edges@, j),
        decreases edges@.len() - i,
    {
        let e = edges[i];
        let mut bad = !graph.contains_node(e.target_id);
        let missing = bad;
        if !bad {
            let mut j: usize = 0;
            while j < i
                invariant_except_break
                    !bad,
                invariant
                    j <= i,
                    i < edges@.len(),
                    e == edges@[i as int],
                    forall|k: int|
                        0 <= k < j ==> !((#[trigger] edges@[k]).target_id == e.target_id
                            && edges@[k].edge_type == e.edge_type),
                ensures
                    bad <==> exists|k: int|
                        0 <= k < i && (#[trigger] edges@[k]).target_id == e.target_id
                            && edges@[k].edge_type == e.edge_type,
                decreases i - j,
            {
                if edges[j].target_id == e.target_id && edges[j].edge_type == e.edge_type {
                    bad = true;
                    break;
                }
                j += 1;
            }
        }
        if bad {
            proof {
                assert(bad_edge(g, edges@, i as int));
                assert(first_bad_edge(g, edges@, i as int));
                let c = choose|c: int| first_bad_edge(g, edges@, c);
                assert(c == i) by {
                    if c < i {
                        assert(!bad_edge(g, edges@, c));
                    } else if c > i {
                        assert(!bad_edge(g, edges@, i as int));
                    }
                }
            }
            if missing {
                return Some(AmemError::NodeNotFound(e.target_id));
            } else {
                return Some(AmemError::DuplicateEdge(graph.next_id(), e.target_id));
            }
        }
        i += 1;
    }
    None
}

impl WriteEngine {
    /// The length of the vectors that this engine writes.
    pub closed spec fn dim(&self) -> usize {
        self.dimension
    }

    /// An engine that writes vectors of the given length.
    pub fn new(dimension: usize) -> (r: WriteEngine)
        ensures
            r.dim() == dimension,
    {
        WriteEngine { dimension }
    }

    /// The length of the vector of a new event: that of the vector
    /// supplied, or the engine's.
    pub open spec fn vector_len(&self, supplied: Option<Vec<u32>>) -> nat {
        match supplied {
            Some(v) => v@.len(),
            None => self.dim() as nat,
        }
    }

    /// The node that `add_event` makes.
    pub open spec fn new_event(
        &self,
        g: GraphView,
        event_type: EventType,
        content: Seq<char>,
        confidence: u32,
        session_id: u32,
        now: u64,
        supplied: Option<Vec<u32>>,
    ) -> EventView {
        EventView {
            id: g.next_id,
            event_type,
            content,
            confidence: clamped(confidence),
            session_id,
            created_at: now,
            access_count: 0,
            decay_score: ONE,
            feature_vec: match supplied {
                Some(v) => v@,
                None => Seq::new(self.dim() as nat, |i: int| 0u32),
            },
        }
    }

    /// Adds an event as a new node with its edges. The confidence is
    /// clamped into the unit interval; the node has never been accessed and
    /// has not decayed; without a vector supplied it has the zero vector.
    /// Every explicit edge leads from the new node to its target. With
    /// `auto_chain`, a TemporalNext edge of weight one leads from the latest
    /// node of the session to the new node. If the event cannot be added,
    /// the graph stays as it is.
    pub fn add_event(
        &self,
        graph: &mut MemoryGraph,
        event_type: EventType,
        content: &str,
        confidence: u32,
        session_id: u32,
        now: u64,
        feature_vec: Option<Vec<u32>>,
        explicit_edges: &Vec<NewEdge>,
        auto_chain: bool,
    ) -> (r: Result<(u64, usize), AmemError>)
        requires
            old(graph).wf(),
        ensures
            final(graph).wf(),
            match r {
                Err(e) => add_event_error(
                    old(graph)@,
                    self.vector_len(feature_vec),
                    explicit_edges@,
                ) == Some(e) && *final(graph) == *old(graph),
                Ok((id, created)) => {
                    &&& add_event_error(
                        old(graph)@,
                        self.vector_len(feature_vec),
                        explicit_edges@,
                    ) is None
                    &&& id == old(graph)@.next_id
                    &&& final(graph)@.has_node(id)
                    &&& final(graph)@ == (GraphView {
                        nodes: old(graph)@.nodes.push(
                            self.new_event(
                                old(graph)@,
                                event_type,
                                content@,
                                confidence,
                                session_id,
                                now,
                                feature_vec,
                            ),
                        ),
                        edges: old(graph)@.edges + edges_of_new(id, now, explicit_edges@)
                            + chain_edge(old(graph)@, session_id, now, auto_chain),
                        next_id: (id + 1) as u64,
                        dimension: old(graph)@.dimension,
                    })
                    &&& created == explicit_edges@.len() + chain_edge(
                        old(graph)@,
                        session_id,
                        now,
                        auto_chain,
                    ).len()
                },
            },
    {
        let ghost g0 = graph@;
        let vector: Vec<u32> = match feature_vec {
            Some(v) => v,
            None => {
                let z = zero_vec(self.dimension);
                assert(z@ =~= Seq::new(self.dim() as nat, |i: int| 0u32));
                z
            },
        };
        if vector.len() != graph.dimension() {
            return Err(
                AmemError::DimensionMismatch { expected: graph.dimension(), got: vector.len() },
            );
        }
        if graph.next_id() == u64::MAX {
            return Err(AmemError::InvalidParams);
        }
        match check_edges(graph, explicit_edges) {
            Some(e) => {
                return Err(e);
            },
            None => {},
        }
        proof {
            assert(!exists|i: int| first_bad_edge(g0, explicit_edges@, i));
        }
        let previous = find_last_in_session(graph, session_id);
        let count_before = graph.edge_count();
        let event = CognitiveEvent {
            id: 0,
            event_type,
            content: content.to_owned(),
            confidence: clamp_unit(confidence),
            session_id,
            created_at: now,
            access_count: 0,
            decay_score: ONE,
            feature_vec: vector,
        };
        let id = match graph.add_node(event) {
            Ok(id) => id,
            Err(_) => {
                assert(false);
                0
            },
        };
        let ghost g1 = graph@;
        proof {
            assert(g1.has_node(id)) by {
                assert(g1.nodes[g0.nodes.len() as int].id == id);
            }
            assert forall|v: u64| g0.has_node(v) implies g1.has_node(v) by {
                let c = g0.index_of(v);
                assert(g1.nodes[c].id == v);
            }
            assert(g1.edges + Seq::<Edge>::empty() =~= g1.edges);
            assert(edges_of_new(id, now, explicit_edges@).take(0) =~= Seq::<Edge>::empty());
        }
        let mut i: usize = 0;
        while i < explicit_edges.len()
            invariant
                i <= explicit_edges@.len(),
                graph.wf(),
                g0.wf(),
                id == g0.next_id,
                forall|j: int| !bad_edge(g0, explicit_edges@, j),
                forall|v: u64| g0.has_node(v) ==> graph@.has_node(v),
                graph@.has_node(id),
                graph@.nodes == g1.nodes,
                graph@.next_id == g1.next_id,
                graph@.dimension == g1.dimension,
                graph@.edges == g0.edges + edges_of_new(id, now, explicit_edges@).take(i as int),
            decreases explicit_edges@.len() - i,
        {
            let e = explicit_edges[i];
            let edge = Edge {
                source_id: id,
                target_id: e.target_id,
                edge_type: e.edge_type,
                weight: e.weight,
                created_at: now,
            };
            proof {
                let all = edges_of_new(id, now, explicit_edges@);
                let cur = graph@;
                assert(!bad_edge(g0, explicit_edges@, i as int));
                assert(g0.has_node(e.target_id));
                assert(!cur.has_arc(id, e.target_id, e.edge_type)) by {
                    if cur.has_arc(id, e.target_id, e.edge_type) {
                        let k = choose|k: int|
                            0 <= k < cur.edges.len() && (#[trigger] cur.edges[k]).source_id == id
                                && cur.edges[k].target_id == e.target_id && cur.edges[k].edge_type
                                == e.edge_type;
                        if k < g0.edges.len() {
                            assert(cur.edges[k] == g0.edges[k]);
                            assert(g0.has_node(g0.edges[k].source_id));
                            let c = g0.index_of(id);
                            assert(g0.nodes[c].id < g0.next_id);
                        } else {
                            let j = k - g0.edges.len();
                            assert(cur.edges[k] == all[j]);
                            assert(explicit_edges@[j].target_id == e.target_id);
                        }
                    }
                }
                assert(add_edge_outcome(cur, edge) is Ok);
                assert(all.take(i + 1) =~= all.take(i as int).push(edge));
                assert(g0.edges + all.take(i + 1) =~= (g0.edges + all.take(i as int)).push(edge));
            }
            let _ = graph.add_edge(edge);
            i += 1;
        }
        proof {
            let all = edges_of_new(id, now, explicit_edges@);
            assert(all.take(i as int) =~= all);
        }
        if auto_chain {
            match previous {
                None => {},
                Some(prev) => {
                    let edge = Edge {
                        source_id: prev,
                        target_id: id,
                        edge_type: EdgeType::TemporalNext,
                        weight: ONE,
                        created_at: now,
                    };
                    proof {
                        let cur = graph@;
                        lemma_last_is_node(g0.nodes, session_id);
                        assert(g0.has_node(prev));
                        assert(!cur.has_arc(prev, id, EdgeType::TemporalNext)) by {
                            if cur.has_arc(prev, id, EdgeType::TemporalNext) {
                                let k = choose|k: int|
                                    0 <= k < cur.edges.len() && (#[trigger] cur.edges[k]).source_id
                                        == prev && cur.edges[k].target_id == id
                                        && cur.edges[k].edge_type == EdgeType::TemporalNext;
                                let c = g0.index_of(prev);
                                assert(g0.nodes[c].id < g0.next_id);
                                if k < g0.edges.len() {
                                    assert(cur.edges[k] == g0.edges[k]);
                                    assert(g0.has_node(g0.edges[k].target_id));
                                    let d = g0.index_of(id);
                                    assert(g0.nodes[d].id < g0.next_id);
                                } else {
                                    let all = edges_of_new(id, now, explicit_edges@);
                                    assert(cur.edges[k] == all[k - g0.edges.len()]);
                                }
                            }
                        }
                        assert(add_edge_outcome(cur, edge) is Ok);
                    }
                    let _ = graph.add_edge(edge);
                },
            }
        }
        proof {
            let want = g0.edges + edges_of_new(id, now, explicit_edges@) + chain_edge(
                g0,
                session_id,
                now,
                auto_chain,
            );
            assert(graph@.edges =~= want);
        }
        let created = graph.edge_count() - count_before;
        Ok((id, created))
    }

    /// Replaces the content of a node: adds a Correction with the new
    /// content, of the confidence of the old node, and a Supersedes edge of
    /// weight one from it to the old node, which stays as it is.
    pub fn correct(
        &self,
        graph: &mut MemoryGraph,
        old_id: u64,
        new_content: &str,
        session_id: u32,
        now: u64,
    ) -> (r: Result<u64, AmemError>)
        requires
            old(graph).wf(),
        ensures
            final(graph).wf(),
            r is Err ==> *final(graph) == *old(graph),
            !old(graph)@.has_node(old_id) ==> r == Err::<u64, AmemError>(
                AmemError::NodeNotFound(old_id),
            ),
            old(graph)@.has_node(old_id) && self.dim() != old(graph)@.dimension ==> r == Err::<
                u64,
                AmemError,
            >(AmemError::DimensionMismatch { expected: old(graph)@.dimension, got: self.dim() }),
            old(graph)@.has_node(old_id) && self.dim() == old(graph)@.dimension && old(graph)@.next_id
                == u64::MAX ==> r == Err::<u64, AmemError>(AmemError::InvalidParams),
            old(graph)@.has_node(old_id) && self.dim() == old(graph)@.dimension && old(graph)@.next_id
                < u64::MAX ==> r == Ok::<u64, AmemError>(old(graph)@.next_id) && final(graph)@ == (GraphView {
                nodes: old(graph)@.nodes.push(
                    EventView {
                        id: old(graph)@.next_id,
                        event_type: EventType::Correction,
                        content: new_content@,
                        confidence: old(graph)@.node(old_id).confidence,
                        session_id,
                        created_at: now,
                        access_count: 0,
                        decay_score: ONE,
                        feature_vec: Seq::new(self.dim() as nat, |i: int| 0u32),
                    },
                ),
                edges: old(graph)@.edges.push(
                    Edge {
                        source_id: old(graph)@.next_id,
                        target_id: old_id,
                        edge_type: EdgeType::Supersedes,
                        weight: ONE,
                        created_at: now,
                    },
                ),
                next_id: (old(graph)@.next_id + 1) as u64,
                dimension: old(graph)@.dimension,
            }),
    {
        let ghost g0 = graph@;
        let confidence = match graph.get_node(old_id) {
            Some(node) => node.confidence,
            None => {
                return Err(AmemError::NodeNotFound(old_id));
            },
        };
        let vector = zero_vec(self.dimension);
        assert(vector@ =~= Seq::new(self.dim() as nat, |i: int| 0u32));
        if vector.len() != graph.dimension() {
            return Err(
                AmemError::DimensionMismatch { expected: graph.dimension(), got: self.dimension },
            );
        }
        if graph.next_id() == u64::MAX {
            return Err(AmemError::InvalidParams);
        }
        let event = CognitiveEvent {
            id: 0,
            event_type: EventType::Correction,
            content: new_content.to_owned(),
            confidence,
            session_id,
            created_at: now,
            access_count: 0,
            decay_score: ONE,
            feature_vec: vector,
        };
        let id = match graph.add_node(event) {
            Ok(id) => id,
            Err(_) => {
                assert(false);
                0
            },
        };
        let edge = Edge {
            source_id: id,
            target_id: old_id,
            edge_type: EdgeType::Supersedes,
            weight: ONE,
            created_at: now,
        };
        proof {
            let cur = graph@;
            assert(cur.nodes[g0.nodes.len() as int].id == id);
            assert(cur.has_node(id));
            let c = g0.index_of(old_id);
            assert(cur.nodes[c].id == old_id);
            assert(cur.has_node(old_id));
            assert(!cur.has_arc(id, old_id, EdgeType::Supersedes)) by {
                if cur.has_arc(id, old_id, EdgeType::Supersedes) {
                    let k = choose|k: int|
                        0 <= k < cur.edges.len() && (#[trigger] cur.edges[k]).source_id == id
                            && cur.edges[k].target_id == old_id && cur.edges[k].edge_type
                            == EdgeType::Supersedes;
                    assert(g0.has_node(g0.edges[k].source_id));
                    let d = g0.index_of(id);
                    assert(g0.nodes[d].id < g0.next_id);
                }
            }
            assert(add_edge_outcome(cur, edge) is Ok);
        }
        let _ = graph.add_edge(edge);
        Ok(id)
    }
}

/// The latest node of a session is a node.
pub proof fn lemma_last_is_node(nodes: Seq<EventView>, session: u32)
    ensures
        match last_in_session(nodes, session) {
            Some(id) => exists|i: int|
                0 <= i < nodes.len() && (#[trigger] nodes[i]).id == id && nodes[i].session_id
                    == session,
            None => forall|i: int| 0 <= i < nodes.len() ==> (#[trigger] nodes[i]).session_id != session,
        },
    decreases nodes.len(),
{
    if nodes.len() > 0 {
        if nodes.last().session_id == session {
            assert(nodes[nodes.len() - 1].id == nodes.last().id);
        } else {
            lemma_last_is_node(nodes.drop_last(), session);
            match last_in_session(nodes.drop_last(), session) {
                Some(id) => {
                    let i = choose|i: int|
                        0 <= i < nodes.len() - 1 && (#[trigger] nodes.drop_last()[i]).id == id
                            && nodes.drop_last()[i].session_id == session;
                    assert(nodes[i] == nodes.drop_last()[i]);
                },
                None => {
                    assert forall|i: int| 0 <= i < nodes.len() implies (
                    #[trigger] nodes[i]).session_id != session by {
                        if i < nodes.len() - 1 {
                            assert(nodes[i] == nodes.drop_last()[i]);
                        }
                    }
                },
            }
        }
    }
}

} // verus!
