//! The authoritative store of nodes and edges.
//!
//! Nodes are kept in ascending order of id; ids are handed out in insertion
//! order and never reused. Every edge joins two live nodes, and no two edges
//! join the same nodes in the same direction with the same type.

use vstd::prelude::*;
use crate::index::doc_lengths::{holds_lengths, lemma_lengths_added, lemma_lengths_kept,
    lemma_lengths_removed, DocLengths};
use crate::index::term_index::{has_id, lemma_knows_added, lemma_knows_kept, lemma_knows_removed,
    lemma_terms_added, lemma_terms_kept, lemma_terms_removed, TermIndex};
use crate::index::session_index::{lemma_session_added, lemma_session_kept, lemma_session_removed,
    SessionIndex};
use crate::index::temporal_index::{lemma_time_added, lemma_time_kept, lemma_time_removed,
    TemporalIndex};
use crate::index::type_index::{distinct_ids, lemma_type_added, lemma_type_changed, lemma_type_kept,
    lemma_type_removed, TypeIndex};
use crate::types::{AmemError, CognitiveEvent, Edge, EdgeType, EventType, EventView};

pub mod traversal;

verus! {

/// The views of a sequence of events.
pub open spec fn event_views(s: Seq<CognitiveEvent>) -> Seq<EventView> {
    Seq::new(s.len(), |i: int| s[i]@)
}

/// The edges of `edges` that leave `id`, in order.
pub open spec fn out_edges(edges: Seq<Edge>, id: u64) -> Seq<Edge>
    decreases edges.len(),
{
    if edges.len() == 0 {
        Seq::empty()
    } else if edges.last().source_id == id {
        out_edges(edges.drop_last(), id).push(edges.last())
    } else {
        out_edges(edges.drop_last(), id)
    }
}

/// The edges of `edges` that enter `id`, in order.
pub open spec fn in_edges(edges: Seq<Edge>, id: u64) -> Seq<Edge>
    decreases edges.len(),
{
    if edges.len() == 0 {
        Seq::empty()
    } else if edges.last().target_id == id {
        in_edges(edges.drop_last(), id).push(edges.last())
    } else {
        in_edges(edges.drop_last(), id)
    }
}

/// The edges of `edges` that neither leave nor enter `id`, in order.
pub open spec fn edges_off(edges: Seq<Edge>, id: u64) -> Seq<Edge>
    decreases edges.len(),
{
    if edges.len() == 0 {
        Seq::empty()
    } else if edges.last().source_id != id && edges.last().target_id != id {
        edges_off(edges.drop_last(), id).push(edges.last())
    } else {
        edges_off(edges.drop_last(), id)
    }
}

/// Whether edge `k` is the first edge of type `t` that leaves `u`.
pub open spec fn first_out(edges: Seq<Edge>, u: u64, t: EdgeType, k: int) -> bool {
    &&& 0 <= k < edges.len()
    &&& edges[k].source_id == u
    &&& edges[k].edge_type == t
    &&& forall|l: int| 0 <= l < k ==> !((#[trigger] edges[l]).source_id == u && edges[l].edge_type == t)
}

/// Whether edge `k` is the first edge of type `t` that enters `u`.
pub open spec fn first_in(edges: Seq<Edge>, u: u64, t: EdgeType, k: int) -> bool {
    &&& 0 <= k < edges.len()
    &&& edges[k].target_id == u
    &&& edges[k].edge_type == t
    &&& forall|l: int| 0 <= l < k ==> !((#[trigger] edges[l]).target_id == u && edges[l].edge_type == t)
}

/// The mathematical value of a graph.
pub struct GraphView {
    /// The live nodes, in ascending order of id.
    pub nodes: Seq<EventView>,
    /// The edges, in insertion order.
    pub edges: Seq<Edge>,
    /// The id that the next node gets.
    pub next_id: u64,
    /// The length of every feature vector.
    pub dimension: usize,
}

impl GraphView {
    /// Whether a live node has this id.
    pub open spec fn has_node(self, id: u64) -> bool {
        exists|i: int| 0 <= i < self.nodes.len() && #[trigger] self.nodes[i].id == id
    }

    /// The place of the node with this id among the nodes.
    pub open spec fn index_of(self, id: u64) -> int {
        choose|i: int| 0 <= i < self.nodes.len() && #[trigger] self.nodes[i].id == id
    }

    /// The node with this id.
    pub open spec fn node(self, id: u64) -> EventView
        recommends
            self.has_node(id),
    {
        self.nodes[self.index_of(id)]
    }

    /// The edges that leave `id`, in insertion order.
    pub open spec fn edges_from(self, id: u64) -> Seq<Edge> {
        out_edges(self.edges, id)
    }

    /// The edges that enter `id`, in insertion order.
    pub open spec fn edges_to(self, id: u64) -> Seq<Edge> {
        in_edges(self.edges, id)
    }

    /// Whether an edge joins `source` to `target` with type `t`.
    pub open spec fn has_arc(self, source: u64, target: u64, t: EdgeType) -> bool {
        exists|k: int|
            0 <= k < self.edges.len() && (#[trigger] self.edges[k]).source_id == source
                && self.edges[k].target_id == target && self.edges[k].edge_type == t
    }

    /// The ids of the live nodes.
    pub open spec fn node_ids(self) -> Set<u64> {
        Set::new(|id: u64| self.has_node(id))
    }

    /// The target of the first edge of type `t` that leaves `u`, if any.
    pub open spec fn first_target(self, u: u64, t: EdgeType) -> Option<u64> {
        if exists|k: int| first_out(self.edges, u, t, k) {
            Some(self.edges[choose|k: int| first_out(self.edges, u, t, k)].target_id)
        } else {
            None
        }
    }

    /// The source of the first edge of type `t` that enters `u`, if any.
    pub open spec fn first_source(self, u: u64, t: EdgeType) -> Option<u64> {
        if exists|k: int| first_in(self.edges, u, t, k) {
            Some(self.edges[choose|k: int| first_in(self.edges, u, t, k)].source_id)
        } else {
            None
        }
    }

    /// The invariants of a graph.
    pub open spec fn wf(self) -> bool {
        &&& self.dimension > 0
        &&& forall|i: int| 0 <= i < self.nodes.len() ==> (#[trigger] self.nodes[i]).id < self.next_id
        &&& forall|i: int, j: int|
            0 <= i < j < self.nodes.len() ==> (#[trigger] self.nodes[i]).id < (
            #[trigger] self.nodes[j]).id
        &&& forall|i: int|
            0 <= i < self.nodes.len() ==> (#[trigger] self.nodes[i]).feature_vec.len()
                == self.dimension
        &&& forall|k: int|
            0 <= k < self.edges.len() ==> self.has_node((#[trigger] self.edges[k]).source_id)
                && self.has_node(self.edges[k].target_id)
        &&& forall|k: int, l: int|
            0 <= k < l < self.edges.len() ==> !(#[trigger] self.edges[k]).same_arc(
                #[trigger] self.edges[l],
            )
    }
}

/// An edge is among `out_edges(edges, id)` exactly when it is among `edges`
/// and leaves `id`.
pub proof fn lemma_out_edges(edges: Seq<Edge>, id: u64, e: Edge)
    ensures
        out_edges(edges, id).contains(e) <==> edges.contains(e) && e.source_id == id,
        out_edges(edges, id).len() <= edges.len(),
    decreases edges.len(),
{
    if edges.len() > 0 {
        let p = edges.drop_last();
        lemma_out_edges(p, id, e);
        let r = out_edges(p, id);
        let full = out_edges(edges, id);
        if full.contains(e) {
            let j = choose|j: int| 0 <= j < full.len() && full[j] == e;
            if j < r.len() {
                assert(r[j] == e);
                let k = choose|k: int| 0 <= k < p.len() && p[k] == e;
                assert(edges[k] == e);
            } else {
                assert(edges[edges.len() - 1] == e);
            }
        }
        if edges.contains(e) && e.source_id == id {
            let k = choose|k: int| 0 <= k < edges.len() && edges[k] == e;
            if k < p.len() {
                assert(p[k] == e);
                let j = choose|j: int| 0 <= j < r.len() && r[j] == e;
                assert(full[j] == e);
            } else {
                assert(full[r.len() as int] == e);
            }
        }
    }
}

/// An edge is among `in_edges(edges, id)` exactly when it is among `edges`
/// and enters `id`.
pub proof fn lemma_in_edges(edges: Seq<Edge>, id: u64, e: Edge)
    ensures
        in_edges(edges, id).contains(e) <==> edges.contains(e) && e.target_id == id,
        in_edges(edges, id).len() <= edges.len(),
    decreases edges.len(),
{
    if edges.len() > 0 {
        let p = edges.drop_last();
        lemma_in_edges(p, id, e);
        let r = in_edges(p, id);
        let full = in_edges(edges, id);
        if full.contains(e) {
            let j = choose|j: int| 0 <= j < full.len() && full[j] == e;
            if j < r.len() {
                assert(r[j] == e);
                let k = choose|k: int| 0 <= k < p.len() && p[k] == e;
                assert(edges[k] == e);
            } else {
                assert(edges[edges.len() - 1] == e);
            }
        }
        if edges.contains(e) && e.target_id == id {
            let k = choose|k: int| 0 <= k < edges.len() && edges[k] == e;
            if k < p.len() {
                assert(p[k] == e);
                let j = choose|j: int| 0 <= j < r.len() && r[j] == e;
                assert(full[j] == e);
            } else {
                assert(full[r.len() as int] == e);
            }
        }
    }
}

/// An edge is among `edges_off(edges, id)` exactly when it is among `edges`
/// and does not touch `id`.
pub proof fn lemma_edges_off_members(edges: Seq<Edge>, id: u64, e: Edge)
    ensures
        edges_off(edges, id).contains(e) <==> edges.contains(e) && e.source_id != id
            && e.target_id != id,
        edges_off(edges, id).len() <= edges.len(),
    decreases edges.len(),
{
    if edges.len() > 0 {
        let p = edges.drop_last();
        lemma_edges_off_members(p, id, e);
        let r = edges_off(p, id);
        let full = edges_off(edges, id);
        if full.contains(e) {
            let j = choose|j: int| 0 <= j < full.len() && full[j] == e;
            if j < r.len() {
                assert(r[j] == e);
                let k = choose|k: int| 0 <= k < p.len() && p[k] == e;
                assert(edges[k] == e);
            } else {
                assert(edges[edges.len() - 1] == e);
            }
        }
        if edges.contains(e) && e.source_id != id && e.target_id != id {
            let k = choose|k: int| 0 <= k < edges.len() && edges[k] == e;
            if k < p.len() {
                assert(p[k] == e);
                let j = choose|j: int| 0 <= j < r.len() && r[j] == e;
                assert(full[j] == e);
            } else {
                assert(full[r.len() as int] == e);
            }
        }
    }
}

/// `edges_off(edges, id)` keeps the relative order of `edges`.
pub proof fn lemma_edges_off_order(edges: Seq<Edge>, id: u64, a: int, b: int)
    requires
        0 <= a < b < edges_off(edges, id).len(),
    ensures
        exists|k: int, l: int|
            0 <= k < l < edges.len() && edges[k] == edges_off(edges, id)[a] && edges[l]
                == edges_off(edges, id)[b],
    decreases edges.len(),
{
    if edges.len() > 0 {
        let p = edges.drop_last();
        let r = edges_off(p, id);
        let full = edges_off(edges, id);
        if b < r.len() {
            lemma_edges_off_order(p, id, a, b);
            let (k, l) = choose|k: int, l: int|
                0 <= k < l < p.len() && p[k] == r[a] && p[l] == r[b];
            assert(edges[k] == full[a] && edges[l] == full[b]);
        } else {
            assert(r[a] == full[a]);
            assert(r.contains(full[a]));
            lemma_edges_off_members(p, id, full[a]);
            let k = choose|k: int| 0 <= k < p.len() && p[k] == full[a];
            assert(edges[k] == full[a] && edges[edges.len() - 1] == full[b]);
        }
    }
}

/// The graph of cognitive events.
pub struct MemoryGraph {
    nodes: Vec<CognitiveEvent>,
    edges: Vec<Edge>,
    next_id: u64,
    dimension: usize,
    type_index: TypeIndex,
    session_index: SessionIndex,
    temporal_index: TemporalIndex,
    term_index: Option<TermIndex>,
    doc_lengths: Option<DocLengths>,
}

impl View for MemoryGraph {
    type V = GraphView;

    closed spec fn view(&self) -> GraphView {
        GraphView {
            nodes: event_views(self.nodes@),
            edges: self.edges@,
            next_id: self.next_id,
            dimension: self.dimension,
        }
    }
}

impl MemoryGraph {
    /// The invariants of the graph: those of its value, and that its
    /// indexes record exactly its nodes.
    pub open spec fn wf(&self) -> bool {
        self@.wf() && self.indexed()
    }

    /// Whether the indexes record exactly the nodes.
    pub closed spec fn indexed(&self) -> bool {
        &&& self.type_index.wf()
        &&& self.type_index.reflects(self@.nodes)
        &&& self.session_index.wf()
        &&& self.session_index.reflects(self@.nodes)
        &&& self.temporal_index.wf()
        &&& self.temporal_index.reflects(self@.nodes)
        &&& self.term_index is Some ==> self.term_index->0.wf() && self.term_index->0.reflects(
            self@.nodes,
        ) && self.term_index->0.documents() == self@.nodes.len() && self.term_index->0.knows(
            self@.nodes,
        )
        &&& self.doc_lengths is Some ==> holds_lengths(self.doc_lengths->0@, self@.nodes)
    }

    /// The inverted index, as a value; a graph read from an older file has
    /// none.
    pub closed spec fn terms(&self) -> Option<TermIndex> {
        self.term_index
    }

    /// The table of document lengths, as a value; a graph read from an older
    /// file has none.
    pub closed spec fn lengths(&self) -> Option<DocLengths> {
        self.doc_lengths
    }

    /// The index by kind, as a value.
    pub closed spec fn types(&self) -> TypeIndex {
        self.type_index
    }

    /// The index by session, as a value.
    pub closed spec fn sessions(&self) -> SessionIndex {
        self.session_index
    }

    /// The index by time, as a value.
    pub closed spec fn times(&self) -> TemporalIndex {
        self.temporal_index
    }

    /// The indexes of a graph with its invariants record exactly its nodes.
    pub proof fn lemma_indexed(&self)
        requires
            self.wf(),
        ensures
            self.types().wf(),
            self.types().reflects(self@.nodes),
            self.sessions().wf(),
            self.sessions().reflects(self@.nodes),
            self.times().wf(),
            self.times().reflects(self@.nodes),
            self.terms() is Some ==> self.terms()->0.wf() && self.terms()->0.reflects(self@.nodes)
                && self.terms()->0.documents() == self@.nodes.len() && self.terms()->0.knows(
                self@.nodes,
            ),
            self.lengths() is Some ==> holds_lengths(self.lengths()->0@, self@.nodes),
    {
    }

    /// The inverted index, if the graph has one.
    pub fn term_index(&self) -> (r: Option<&TermIndex>)
        requires
            self.wf(),
        ensures
            r is Some <==> self.terms() is Some,
            r is Some ==> *r->0 == self.terms()->0 && r->0.wf() && r->0.reflects(self@.nodes),
    {
        self.term_index.as_ref()
    }

    /// The table of document lengths, if the graph has one.
    pub fn doc_lengths(&self) -> (r: Option<&DocLengths>)
        requires
            self.wf(),
        ensures
            r is Some <==> self.lengths() is Some,
            r is Some ==> *r->0 == self.lengths()->0 && holds_lengths(r->0@, self@.nodes),
    {
        self.doc_lengths.as_ref()
    }

    /// Keeps or drops the inverted index and the table of document lengths.
    pub fn keep_text_indexes(&mut self, terms: bool, lengths: bool)
        requires
            old(self).wf(),
            old(self).terms() is Some,
            old(self).lengths() is Some,
        ensures
            final(self).wf(),
            final(self)@ == old(self)@,
            final(self).terms() is Some <==> terms,
            final(self).lengths() is Some <==> lengths,
    {
        if !terms {
            self.term_index = None;
        }
        if !lengths {
            self.doc_lengths = None;
        }
    }

    /// As `restore_node`, for a graph that has its text indexes, which it
    /// keeps.
    pub(crate) fn restore_terms_kept(&mut self, event: CognitiveEvent) -> (r: Result<(), AmemError>)
        requires
            old(self).wf(),
            old(self).terms() is Some,
            old(self).lengths() is Some,
        ensures
            final(self).wf(),
            final(self).terms() is Some,
            final(self).lengths() is Some,
            r is Ok <==> can_restore(old(self)@, event@),
            r is Err ==> final(self)@ == old(self)@,
            r is Ok ==> final(self)@ == restored(old(self)@, event@),
    {
        self.restore_node(event)
    }

    /// As `add_edge`, for a graph that has its text indexes, which it
    /// keeps.
    pub(crate) fn add_edge_keeping(&mut self, edge: Edge) -> (r: Result<(), AmemError>)
        requires
            old(self).wf(),
            old(self).terms() is Some,
            old(self).lengths() is Some,
        ensures
            final(self).wf(),
            final(self).terms() is Some,
            final(self).lengths() is Some,
            r == add_edge_outcome(old(self)@, edge),
            r is Err ==> final(self)@ == old(self)@,
            r is Ok ==> final(self)@ == (GraphView {
                edges: old(self)@.edges.push(edge),
                ..old(self)@
            }),
    {
        self.add_edge(edge)
    }

    /// Sets the average document length of the inverted index, where the
    /// graph has one. The graph does no arithmetic on it.
    pub fn set_avg_doc_length(&mut self, bits: u32)
        requires
            old(self).wf(),
        ensures
            final(self).wf(),
            final(self)@ == old(self)@,
            final(self).terms() is Some <==> old(self).terms() is Some,
            final(self).terms() is Some ==> final(self).terms()->0.average() == bits,
            final(self).lengths() == old(self).lengths(),
    {
        let mut held: Option<TermIndex> = None;
        std::mem::swap(&mut held, &mut self.term_index);
        match held {
            Some(mut index) => {
                index.set_avg_doc_length(bits);
                self.term_index = Some(index);
            },
            None => {},
        }
    }

    /// Drops the inverted index and the table of document lengths, as a
    /// graph read from an older file has none.
    pub fn drop_text_indexes(&mut self)
        requires
            old(self).wf(),
        ensures
            final(self).wf(),
            final(self)@ == old(self)@,
            final(self).terms() is None,
            final(self).lengths() is None,
    {
        self.term_index = None;
        self.doc_lengths = None;
    }

    /// The index by kind.
    pub fn type_index(&self) -> (r: &TypeIndex)
        requires
            self.wf(),
        ensures
            *r == self.types(),
            r.wf(),
            r.reflects(self@.nodes),
    {
        &self.type_index
    }

    /// The index by session.
    pub fn session_index(&self) -> (r: &SessionIndex)
        requires
            self.wf(),
        ensures
            *r == self.sessions(),
            r.wf(),
            r.reflects(self@.nodes),
    {
        &self.session_index
    }

    /// The index by time.
    pub fn temporal_index(&self) -> (r: &TemporalIndex)
        requires
            self.wf(),
        ensures
            *r == self.times(),
            r.wf(),
            r.reflects(self@.nodes),
    {
        &self.temporal_index
    }

    /// An empty graph whose feature vectors have `dimension` components.
    pub fn new(dimension: usize) -> (r: Result<MemoryGraph, AmemError>)
        ensures
            dimension == 0 <==> r is Err,
            r is Err ==> r->Err_0 == AmemError::InvalidDimension,
            r is Ok ==> r->Ok_0.wf() && r->Ok_0@ == (GraphView {
                nodes: Seq::empty(),
                edges: Seq::empty(),
                next_id: 0,
                dimension,
            }) && r->Ok_0.terms() is Some && r->Ok_0.lengths() is Some,
    {
        if dimension == 0 {
            return Err(AmemError::InvalidDimension);
        }
        let g = MemoryGraph {
            nodes: Vec::new(),
            edges: Vec::new(),
            next_id: 0,
            dimension,
            type_index: TypeIndex::new(),
            session_index: SessionIndex::new(),
            temporal_index: TemporalIndex::new(),
            term_index: Some(TermIndex::new()),
            doc_lengths: Some(DocLengths::new()),
        };
        assert(g@.nodes =~= Seq::<EventView>::empty());
        Ok(g)
    }

    /// The length of every feature vector.
    pub fn dimension(&self) -> (r: usize)
        ensures
            r == self@.dimension,
    {
        self.dimension
    }

    /// The number of live nodes.
    pub fn node_count(&self) -> (r: usize)
        ensures
            r == self@.nodes.len(),
    {
        self.nodes.len()
    }

    /// The number of edges.
    pub fn edge_count(&self) -> (r: usize)
        ensures
            r == self@.edges.len(),
    {
        self.edges.len()
    }

    /// The id that the next node gets.
    pub fn next_id(&self) -> (r: u64)
        ensures
            r == self@.next_id,
    {
        self.next_id
    }

    /// The live nodes in ascending order of id.
    pub fn nodes(&self) -> (r: &Vec<CognitiveEvent>)
        ensures
            event_views(r@) == self@.nodes,
    {
        &self.nodes
    }

    /// The edges in insertion order.
    pub fn edges(&self) -> (r: &Vec<Edge>)
        ensures
            r@ == self@.edges,
    {
        &self.edges
    }

    /// The place of the node with this id among the nodes, by binary search.
    fn position(&self, id: u64) -> (r: Option<usize>)
        requires
            self.wf(),
        ensures
            r is Some <==> self@.has_node(id),
            r is Some ==> r->0 < self@.nodes.len() && self@.nodes[r->0 as int].id == id
                && self@.index_of(id) == r->0,
    {
        let mut lo: usize = 0;
        let mut hi: usize = self.nodes.len();
        while lo < hi
            invariant
                self.wf(),
                lo <= hi <= self.nodes@.len(),
                forall|i: int| 0 <= i < lo ==> (#[trigger] self@.nodes[i]).id < id,
                forall|i: int| hi <= i < self.nodes@.len() ==> (#[trigger] self@.nodes[i]).id > id,
            decreases hi - lo,
        {
            let mid = lo + (hi - lo) / 2;
            let mid_id = self.nodes[mid].id;
            assert(self@.nodes[mid as int].id == mid_id);
            if mid_id == id {
                assert(self@.has_node(id));
                let ghost c = self@.index_of(id);
                assert(c == mid) by {
                    if c < mid {
                        assert(self@.nodes[c].id < self@.nodes[mid as int].id);
                    } else if c > mid {
                        assert(self@.nodes[mid as int].id < self@.nodes[c].id);
                    }
                }
                return Some(mid);
            } else if mid_id < id {
                assert forall|i: int| 0 <= i < mid + 1 implies (#[trigger] self@.nodes[i]).id
                    < id by {
                    if i < mid {
                        assert(self@.nodes[i].id < self@.nodes[mid as int].id);
                    }
                }
                lo = mid + 1;
            } else {
                assert forall|i: int| mid <= i < self.nodes@.len() implies (
                #[trigger] self@.nodes[i]).id > id by {
                    if i > mid {
                        assert(self@.nodes[mid as int].id < self@.nodes[i].id);
                    }
                }
                hi = mid;
            }
        }
        assert(!self@.has_node(id)) by {
            if self@.has_node(id) {
                let c = self@.index_of(id);
                assert(self@.nodes[c].id == id);
            }
        }
        None
    }

    /// Whether a live node has this id.
    pub fn contains_node(&self, id: u64) -> (r: bool)
        requires
            self.wf(),
        ensures
            r == self@.has_node(id),
    {
        self.position(id).is_some()
    }

    /// The node with this id, if it is live.
    pub fn get_node(&self, id: u64) -> (r: Option<&CognitiveEvent>)
        requires
            self.wf(),
        ensures
            r is Some <==> self@.has_node(id),
            r is Some ==> r->0@ == self@.node(id) && r->0@.id == id,
    {
        match self.position(id) {
            Some(i) => {
                assert(self@.nodes[i as int] == self.nodes@[i as int]@);
                Some(&self.nodes[i])
            },
            None => None,
        }
    }

    /// The edges that leave `id`, in insertion order.
    pub fn edges_from(&self, id: u64) -> (r: Vec<Edge>)
        ensures
            r@ == self@.edges_from(id),
    {
        let mut out: Vec<Edge> = Vec::new();
        let mut k: usize = 0;
        assert(self.edges@.take(0) =~= Seq::<Edge>::empty());
        while k < self.edges.len()
            invariant
                k <= self.edges@.len(),
                out@ == out_edges(self.edges@.take(k as int), id),
            decreases self.edges@.len() - k,
        {
            assert(self.edges@.take(k + 1).drop_last() =~= self.edges@.take(k as int));
            let e = self.edges[k];
            if e.source_id == id {
                out.push(e);
            }
            k += 1;
        }
        assert(self.edges@.take(k as int) =~= self.edges@);
        out
    }

    /// The edges that enter `id`, in insertion order.
    pub fn edges_to(&self, id: u64) -> (r: Vec<Edge>)
        ensures
            r@ == self@.edges_to(id),
    {
        let mut out: Vec<Edge> = Vec::new();
        let mut k: usize = 0;
        assert(self.edges@.take(0) =~= Seq::<Edge>::empty());
        while k < self.edges.len()
            invariant
                k <= self.edges@.len(),
                out@ == in_edges(self.edges@.take(k as int), id),
            decreases self.edges@.len() - k,
        {
            assert(self.edges@.take(k + 1).drop_last() =~= self.edges@.take(k as int));
            let e = self.edges[k];
            if e.target_id == id {
                out.push(e);
            }
            k += 1;
        }
        assert(self.edges@.take(k as int) =~= self.edges@);
        out
    }

    /// The target of the first edge of type `t` that leaves `u`, if any.
    pub fn first_target(&self, u: u64, t: EdgeType) -> (r: Option<u64>)
        ensures
            r == self@.first_target(u, t),
            r is Some ==> exists|k: int| first_out(self@.edges, u, t, k) && self@.edges[k].target_id
                == r->0,
    {
        let mut k: usize = 0;
        while k < self.edges.len()
            invariant
                k <= self.edges@.len(),
                forall|l: int|
                    0 <= l < k ==> !((#[trigger] self.edges@[l]).source_id == u
                        && self.edges@[l].edge_type == t),
            decreases self.edges@.len() - k,
        {
            let e = self.edges[k];
            if e.source_id == u && e.edge_type == t {
                proof {
                    assert(first_out(self@.edges, u, t, k as int));
                    let c = choose|c: int| first_out(self@.edges, u, t, c);
                    assert(c == k) by {
                        if c < k {
                            assert(self@.edges[c].source_id == u);
                        } else if c > k {
                            assert(self@.edges[k as int].source_id == u);
                        }
                    }
                }
                return Some(e.target_id);
            }
            k += 1;
        }
        proof {
            if exists|c: int| first_out(self@.edges, u, t, c) {
                let c = choose|c: int| first_out(self@.edges, u, t, c);
                assert(self@.edges[c].source_id == u);
            }
        }
        None
    }

    /// The source of the first edge of type `t` that enters `u`, if any.
    pub fn first_source(&self, u: u64, t: EdgeType) -> (r: Option<u64>)
        ensures
            r == self@.first_source(u, t),
            r is Some ==> exists|k: int| first_in(self@.edges, u, t, k) && self@.edges[k].source_id
                == r->0,
    {
        let mut k: usize = 0;
        while k < self.edges.len()
            invariant
                k <= self.edges@.len(),
                forall|l: int|
                    0 <= l < k ==> !((#[trigger] self.edges@[l]).target_id == u
                        && self.edges@[l].edge_type == t),
            decreases self.edges@.len() - k,
        {
            let e = self.edges[k];
            if e.target_id == u && e.edge_type == t {
                proof {
                    assert(first_in(self@.edges, u, t, k as int));
                    let c = choose|c: int| first_in(self@.edges, u, t, c);
                    assert(c == k) by {
                        if c < k {
                            assert(self@.edges[c].target_id == u);
                        } else if c > k {
                            assert(self@.edges[k as int].target_id == u);
                        }
                    }
                }
                return Some(e.source_id);
            }
            k += 1;
        }
        proof {
            if exists|c: int| first_in(self@.edges, u, t, c) {
                let c = choose|c: int| first_in(self@.edges, u, t, c);
                assert(self@.edges[c].target_id == u);
            }
        }
        None
    }

    /// Whether an edge joins `source` to `target` with type `t`.
    pub fn has_edge(&self, source: u64, target: u64, t: EdgeType) -> (r: bool)
        ensures
            r == self@.has_arc(source, target, t),
    {
        let mut k: usize = 0;
        while k < self.edges.len()
            invariant
                k <= self.edges@.len(),
                forall|l: int|
                    0 <= l < k ==> !((#[trigger] self.edges@[l]).source_id == source
                        && self.edges@[l].target_id == target && self.edges@[l].edge_type == t),
            decreases self.edges@.len() - k,
        {
            let e = self.edges[k];
            if e.source_id == source && e.target_id == target && e.edge_type == t {
                return true;
            }
            k += 1;
        }
        false
    }

    /// Stores `event` as a new node under the next id, whatever id it carries.
    /// A feature vector of another length than the dimension is rejected,
    /// and so is any event once no id is left; the graph then stays as it
    /// is.
    pub fn add_node(&mut self, event: CognitiveEvent) -> (r: Result<u64, AmemError>)
        requires
            old(self).wf(),
        ensures
            final(self).wf(),
            r is Err <==> event@.feature_vec.len() != old(self)@.dimension || old(self)@.next_id
                == u64::MAX,
            r is Err ==> *final(self) == *old(self) && r->Err_0 == (if event@.feature_vec.len()
                != old(self)@.dimension {
                AmemError::DimensionMismatch {
                    expected: old(self)@.dimension,
                    got: event.feature_vec.len(),
                }
            } else {
                AmemError::InvalidParams
            }),
            r is Ok ==> r->Ok_0 == old(self)@.next_id && final(self)@ == (GraphView {
                nodes: old(self)@.nodes.push(EventView { id: old(self)@.next_id, ..event@ }),
                next_id: (old(self)@.next_id + 1) as u64,
                ..old(self)@
            }),
            final(self).terms() is Some <==> old(self).terms() is Some,
            final(self).lengths() is Some <==> old(self).lengths() is Some,
    {
        if event.feature_vec.len() != self.dimension {
            return Err(
                AmemError::DimensionMismatch {
                    expected: self.dimension,
                    got: event.feature_vec.len(),
                },
            );
        }
        if self.next_id == u64::MAX {
            return Err(AmemError::InvalidParams);
        }
        let id = self.next_id;
        let mut event = event;
        event.id = id;
        let ghost before = self@;
        let ghost old_types = self.type_index;
        let ghost old_sessions = self.session_index;
        let ghost old_times = self.temporal_index@;
        self.type_index.add_node(&event);
        self.session_index.add_node(&event);
        self.temporal_index.add_node(&event);
        let ghost old_terms = self.term_index;
        let ghost old_lengths = self.doc_lengths;
        let mut terms = self.term_index.take();
        match terms {
            Some(mut index) => {
                index.add_node(&event);
                self.term_index = Some(index);
            },
            None => {},
        }
        let mut lengths = self.doc_lengths.take();
        match lengths {
            Some(mut table) => {
                table.add_node(&event);
                self.doc_lengths = Some(table);
            },
            None => {},
        }
        self.nodes.push(event);
        self.next_id = id + 1;
        proof {
            let after = self@;
            assert(after.nodes =~= before.nodes.push(event@));
            if old_terms is Some {
                assert forall|i: int| 0 <= i < before.nodes.len() implies (
                #[trigger] before.nodes[i]).id != event@.id by {
                    assert(before.nodes[i].id < before.next_id);
                }
                lemma_terms_added(old_terms->0, self.term_index->0, before.nodes, event@);
                lemma_knows_added(old_terms->0, self.term_index->0, before.nodes, event@);
                assert(!has_id(before.nodes, event@.id)) by {
                    if has_id(before.nodes, event@.id) {
                        let j = choose|j: int|
                            0 <= j < before.nodes.len() && (#[trigger] before.nodes[j]).id
                                == event@.id;
                        assert(before.nodes[j].id < before.next_id);
                    }
                }
                if before.nodes.len() > 0 {
                    lemma_ids_count(before.nodes, before.nodes.len() - 1);
                    assert(before.nodes[before.nodes.len() - 1].id < before.next_id);
                }
            }
            if old_lengths is Some {
                lemma_lengths_added(old_lengths->0@, before.nodes, event@);
            }
            lemma_type_added(old_types, self.type_index, before.nodes, event@);
            lemma_session_added(old_sessions, self.session_index, before.nodes, event@);
            lemma_time_added(old_times, self.temporal_index@, before.nodes, event@);
            assert forall|k: int| 0 <= k < after.edges.len() implies after.has_node(
                (#[trigger] after.edges[k]).source_id,
            ) && after.has_node(after.edges[k].target_id) by {
                let s = before.index_of(before.edges[k].source_id);
                let t = before.index_of(before.edges[k].target_id);
                assert(before.has_node(before.edges[k].source_id));
                assert(before.has_node(before.edges[k].target_id));
                assert(after.nodes[s].id == before.edges[k].source_id);
                assert(after.nodes[t].id == before.edges[k].target_id);
            }
        }
        Ok(id)
    }

    /// Stores a node under the id that it carries, as a reader of a file
    /// does. The id must be one that no node has had yet and that leaves
    /// room for a next one, and the vector must have the graph's dimension;
    /// otherwise the graph stays as it is.
    pub fn restore_node(&mut self, event: CognitiveEvent) -> (r: Result<(), AmemError>)
        requires
            old(self).wf(),
        ensures
            final(self).wf(),
            r is Ok <==> can_restore(old(self)@, event@),
            r is Err ==> *final(self) == *old(self) && r->Err_0 == AmemError::InvalidParams,
            r is Ok ==> final(self)@ == restored(old(self)@, event@),
            final(self).terms() is Some <==> old(self).terms() is Some,
            final(self).lengths() is Some <==> old(self).lengths() is Some,
    {
        if event.id < self.next_id || event.id == u64::MAX || event.feature_vec.len()
            != self.dimension {
            return Err(AmemError::InvalidParams);
        }
        let ghost before = self@;
        let ghost old_types = self.type_index;
        let ghost old_sessions = self.session_index;
        let ghost old_times = self.temporal_index@;
        let ghost old_terms = self.term_index;
        let ghost old_lengths = self.doc_lengths;
        self.type_index.add_node(&event);
        self.session_index.add_node(&event);
        self.temporal_index.add_node(&event);
        let mut terms = self.term_index.take();
        match terms {
            Some(mut index) => {
                index.add_node(&event);
                self.term_index = Some(index);
            },
            None => {},
        }
        let mut lengths = self.doc_lengths.take();
        match lengths {
            Some(mut table) => {
                table.add_node(&event);
                self.doc_lengths = Some(table);
            },
            None => {},
        }
        let id = event.id;
        self.nodes.push(event);
        self.next_id = id + 1;
        proof {
            let after = self@;
            assert(after.nodes =~= before.nodes.push(event@));
            if old_terms is Some {
                assert forall|i: int| 0 <= i < before.nodes.len() implies (
                #[trigger] before.nodes[i]).id != event@.id by {
                    assert(before.nodes[i].id < before.next_id);
                }
                lemma_terms_added(old_terms->0, self.term_index->0, before.nodes, event@);
                lemma_knows_added(old_terms->0, self.term_index->0, before.nodes, event@);
                assert(!has_id(before.nodes, event@.id)) by {
                    if has_id(before.nodes, event@.id) {
                        let j = choose|j: int|
                            0 <= j < before.nodes.len() && (#[trigger] before.nodes[j]).id
                                == event@.id;
                        assert(before.nodes[j].id < before.next_id);
                    }
                }
                if before.nodes.len() > 0 {
                    lemma_ids_count(before.nodes, before.nodes.len() - 1);
                    assert(before.nodes[before.nodes.len() - 1].id < before.next_id);
                }
            }
            if old_lengths is Some {
                lemma_lengths_added(old_lengths->0@, before.nodes, event@);
            }
            lemma_type_added(old_types, self.type_index, before.nodes, event@);
            lemma_session_added(old_sessions, self.session_index, before.nodes, event@);
            lemma_time_added(old_times, self.temporal_index@, before.nodes, event@);
            assert forall|i: int, j: int| 0 <= i < j < after.nodes.len() implies (
            #[trigger] after.nodes[i]).id < (#[trigger] after.nodes[j]).id by {
                if j < before.nodes.len() {
                    assert(before.nodes[i].id < before.nodes[j].id);
                } else {
                    assert(before.nodes[i].id < before.next_id);
                }
            }
            assert forall|i: int| 0 <= i < after.nodes.len() implies (#[trigger] after.nodes[i]).id
                < after.next_id && after.nodes[i].feature_vec.len() == after.dimension by {
                if i < before.nodes.len() {
                    assert(before.nodes[i].id < before.next_id);
                }
            }
            assert forall|k: int| 0 <= k < after.edges.len() implies after.has_node(
                (#[trigger] after.edges[k]).source_id,
            ) && after.has_node(after.edges[k].target_id) by {
                let s = before.index_of(before.edges[k].source_id);
                let t = before.index_of(before.edges[k].target_id);
                assert(before.has_node(before.edges[k].source_id));
                assert(before.has_node(before.edges[k].target_id));
                assert(after.nodes[s].id == before.edges[k].source_id);
                assert(after.nodes[t].id == before.edges[k].target_id);
            }
        }
        Ok(())
    }

    /// Adds an edge. Both ends must be live nodes, and no edge of the same
    /// type may already join them in the same direction; otherwise the graph
    /// stays as it is.
    pub fn add_edge(&mut self, edge: Edge) -> (r: Result<(), AmemError>)
        requires
            old(self).wf(),
        ensures
            final(self).wf(),
            r == add_edge_outcome(old(self)@, edge),
            r is Err ==> *final(self) == *old(self),
            r is Ok ==> final(self)@ == (GraphView {
                edges: old(self)@.edges.push(edge),
                ..old(self)@
            }),
            final(self).terms() == old(self).terms(),
            final(self).lengths() == old(self).lengths(),
    {
        if !self.contains_node(edge.source_id) {
            return Err(AmemError::NodeNotFound(edge.source_id));
        }
        if !self.contains_node(edge.target_id) {
            return Err(AmemError::NodeNotFound(edge.target_id));
        }
        if self.has_edge(edge.source_id, edge.target_id, edge.edge_type) {
            return Err(AmemError::DuplicateEdge(edge.source_id, edge.target_id));
        }
        let ghost before = self@;
        self.edges.push(edge);
        proof {
            let after = self@;
            assert(after.nodes == before.nodes);
            assert forall|k: int| 0 <= k < after.edges.len() implies after.has_node(
                (#[trigger] after.edges[k]).source_id,
            ) && after.has_node(after.edges[k].target_id) by {
                if k < before.edges.len() {
                    assert(after.edges[k] == before.edges[k]);
                    assert(before.has_node(before.edges[k].source_id));
                    assert(before.has_node(before.edges[k].target_id));
                }
            }
            assert forall|k: int, l: int| 0 <= k < l < after.edges.len() implies !(
            #[trigger] after.edges[k]).same_arc(#[trigger] after.edges[l]) by {
                if l < before.edges.len() {
                    assert(!before.edges[k].same_arc(before.edges[l]));
                } else {
                    assert(before.edges[k] == after.edges[k]);
                }
            }
        }
        Ok(())
    }

    /// Removes the node with this id together with every edge that leaves or
    /// enters it, and returns it.
    pub fn remove_node(&mut self, id: u64) -> (r: Result<CognitiveEvent, AmemError>)
        requires
            old(self).wf(),
        ensures
            final(self).wf(),
            r is Ok <==> old(self)@.has_node(id),
            r is Err ==> r->Err_0 == AmemError::NodeNotFound(id) && *final(self) == *old(self),
            r is Ok ==> r->Ok_0@ == old(self)@.node(id) && final(self)@ == (GraphView {
                nodes: old(self)@.nodes.remove(old(self)@.index_of(id)),
                edges: edges_off(old(self)@.edges, id),
                ..old(self)@
            }),
            r is Ok ==> !final(self)@.has_node(id),
            final(self).terms() is Some <==> old(self).terms() is Some,
            final(self).lengths() is Some <==> old(self).lengths() is Some,
    {
        let pos = match self.position(id) {
            Some(p) => p,
            None => {
                return Err(AmemError::NodeNotFound(id));
            },
        };
        let ghost before = self@;
        let mut kept: Vec<Edge> = Vec::new();
        let mut k: usize = 0;
        assert(self.edges@.take(0) =~= Seq::<Edge>::empty());
        while k < self.edges.len()
            invariant
                k <= self.edges@.len(),
                kept@ == edges_off(self.edges@.take(k as int), id),
            decreases self.edges@.len() - k,
        {
            assert(self.edges@.take(k + 1).drop_last() =~= self.edges@.take(k as int));
            let e = self.edges[k];
            if e.source_id != id && e.target_id != id {
                kept.push(e);
            }
            k += 1;
        }
        assert(self.edges@.take(k as int) =~= self.edges@);
        self.edges = kept;
        let ghost old_types = self.type_index;
        let ghost old_sessions = self.session_index;
        let ghost old_times = self.temporal_index@;
        self.type_index.remove_node(id);
        self.session_index.remove_node(id);
        self.temporal_index.remove_node(id);
        let ghost old_terms = self.term_index;
        let ghost old_lengths = self.doc_lengths;
        let mut terms = self.term_index.take();
        match terms {
            Some(mut index) => {
                index.remove_node(id);
                self.term_index = Some(index);
            },
            None => {},
        }
        let mut lengths = self.doc_lengths.take();
        match lengths {
            Some(mut table) => {
                table.remove_node(id);
                self.doc_lengths = Some(table);
            },
            None => {},
        }
        let node = self.nodes.remove(pos);
        proof {
            let after = self@;
            assert(after.nodes =~= before.nodes.remove(pos as int));
            assert(distinct_ids(before.nodes)) by {
                assert forall|i: int, j: int| 0 <= i < j < before.nodes.len() implies (
                #[trigger] before.nodes[i]).id != (#[trigger] before.nodes[j]).id by {
                    assert(before.nodes[i].id < before.nodes[j].id);
                }
            }
            assert(!after.has_node(id)) by {
                if after.has_node(id) {
                    let c = after.index_of(id);
                    let b = if c < pos { c } else { c + 1 };
                    assert(before.nodes[b] == after.nodes[c]);
                    if b < pos {
                        assert(before.nodes[b].id != before.nodes[pos as int].id);
                    } else {
                        assert(before.nodes[pos as int].id != before.nodes[b].id);
                    }
                }
            }
            if old_terms is Some {
                lemma_terms_removed(old_terms->0, self.term_index->0, before.nodes, pos as int);
                lemma_knows_removed(old_terms->0, self.term_index->0, before.nodes, pos as int);
                assert(has_id(before.nodes, id)) by {
                    assert(before.nodes[pos as int].id == id);
                }
            }
            if old_lengths is Some {
                lemma_lengths_removed(old_lengths->0@, before.nodes, pos as int);
            }
            lemma_type_removed(old_types, self.type_index, before.nodes, pos as int);
            lemma_session_removed(old_sessions, self.session_index, before.nodes, pos as int);
            lemma_time_removed(old_times, self.temporal_index@, before.nodes, pos as int);
            assert(node@ == before.nodes[pos as int]);
            assert forall|i: int, j: int| 0 <= i < j < after.nodes.len() implies (
            #[trigger] after.nodes[i]).id < (#[trigger] after.nodes[j]).id by {
                let a = if i < pos { i } else { i + 1 };
                let b = if j < pos { j } else { j + 1 };
                assert(before.nodes[a].id < before.nodes[b].id);
            }
            assert forall|i: int| 0 <= i < after.nodes.len() implies (#[trigger] after.nodes[i]).id
                < after.next_id && after.nodes[i].feature_vec.len() == after.dimension by {
                let a = if i < pos { i } else { i + 1 };
                assert(after.nodes[i] == before.nodes[a]);
            }
            assert forall|k: int| 0 <= k < after.edges.len() implies after.has_node(
                (#[trigger] after.edges[k]).source_id,
            ) && after.has_node(after.edges[k].target_id) by {
                let e = after.edges[k];
                assert(after.edges.contains(e));
                lemma_edges_off_members(before.edges, id, e);
                assert(before.edges.contains(e));
                let m = choose|m: int| 0 <= m < before.edges.len() && before.edges[m] == e;
                assert(before.has_node(before.edges[m].source_id));
                assert(before.has_node(before.edges[m].target_id));
                let s = before.index_of(e.source_id);
                let t = before.index_of(e.target_id);
                assert(s != pos && t != pos);
                let s2 = if s < pos { s } else { s - 1 };
                let t2 = if t < pos { t } else { t - 1 };
                assert(after.nodes[s2].id == e.source_id);
                assert(after.nodes[t2].id == e.target_id);
            }
            assert forall|k: int, l: int| 0 <= k < l < after.edges.len() implies !(
            #[trigger] after.edges[k]).same_arc(#[trigger] after.edges[l]) by {
                lemma_edges_off_order(before.edges, id, k, l);
                let (m, n) = choose|m: int, n: int|
                    0 <= m < n < before.edges.len() && before.edges[m] == after.edges[k]
                        && before.edges[n] == after.edges[l];
                assert(!before.edges[m].same_arc(before.edges[n]));
            }
        }
        Ok(node)
    }

    /// Changes the kind of the node with this id, if it is live.
    pub fn set_event_type(&mut self, id: u64, event_type: EventType) -> (r: bool)
        requires
            old(self).wf(),
        ensures
            final(self).wf(),
            final(self).terms() is Some <==> old(self).terms() is Some,
            final(self).lengths() is Some <==> old(self).lengths() is Some,
            r == old(self)@.has_node(id),
            !r ==> *final(self) == *old(self),
            r ==> final(self)@ == (GraphView {
                nodes: old(self)@.nodes.update(
                    old(self)@.index_of(id),
                    EventView { event_type, ..old(self)@.node(id) },
                ),
                ..old(self)@
            }),
    {
        match self.position(id) {
            Some(pos) => {
                let ghost before = self@;
                let ghost old_types = self.type_index;
                let mut node = self.nodes[pos].clone();
                node.event_type = event_type;
                self.type_index.remove_node(id);
                self.type_index.add_node(&node);
                self.nodes.set(pos, node);
                proof {
                    lemma_same_ids_keep_wf(
                        before,
                        self@,
                        pos as int,
                    );
                    let e = self@.nodes[pos as int];
                    assert(distinct_ids(before.nodes)) by {
                        assert forall|i: int, j: int| 0 <= i < j < before.nodes.len() implies (
                        #[trigger] before.nodes[i]).id != (#[trigger] before.nodes[j]).id by {
                            assert(before.nodes[i].id < before.nodes[j].id);
                        }
                    }
                    lemma_type_changed(old_types, self.type_index, before.nodes, pos as int, e);
                    lemma_session_kept(self.session_index, before.nodes, pos as int, e);
                    lemma_time_kept(self.temporal_index@, before.nodes, pos as int, e);
                    if self.term_index is Some {
                        lemma_terms_kept(self.term_index->0, before.nodes, pos as int, e);
                        lemma_knows_kept(self.term_index->0, before.nodes, pos as int, e);
                    }
                    if self.doc_lengths is Some {
                        lemma_lengths_kept(self.doc_lengths->0@, before.nodes, pos as int, e);
                    }
                }
                true
            },
            None => false,
        }
    }

    /// Counts one more access to the node with this id, if it is live; the
    /// count stays at the largest value once it is reached.
    pub fn record_access(&mut self, id: u64) -> (r: bool)
        requires
            old(self).wf(),
        ensures
            final(self).wf(),
            final(self).terms() is Some <==> old(self).terms() is Some,
            final(self).lengths() is Some <==> old(self).lengths() is Some,
            r == old(self)@.has_node(id),
            !r ==> *final(self) == *old(self),
            r ==> final(self)@ == (GraphView {
                nodes: old(self)@.nodes.update(
                    old(self)@.index_of(id),
                    EventView {
                        access_count: if old(self)@.node(id).access_count < u32::MAX {
                            (old(self)@.node(id).access_count + 1) as u32
                        } else {
                            u32::MAX
                        },
                        ..old(self)@.node(id)
                    },
                ),
                ..old(self)@
            }),
    {
        match self.position(id) {
            Some(pos) => {
                let ghost before = self@;
                let mut node = self.nodes[pos].clone();
                if node.access_count < u32::MAX {
                    node.access_count = node.access_count + 1;
                }
                self.nodes.set(pos, node);
                proof {
                    lemma_same_ids_keep_wf(
                        before,
                        self@,
                        pos as int,
                    );
                    let e = self@.nodes[pos as int];
                    lemma_type_kept(self.type_index, before.nodes, pos as int, e);
                    lemma_session_kept(self.session_index, before.nodes, pos as int, e);
                    lemma_time_kept(self.temporal_index@, before.nodes, pos as int, e);
                    if self.term_index is Some {
                        lemma_terms_kept(self.term_index->0, before.nodes, pos as int, e);
                        lemma_knows_kept(self.term_index->0, before.nodes, pos as int, e);
                    }
                    if self.doc_lengths is Some {
                        lemma_lengths_kept(self.doc_lengths->0@, before.nodes, pos as int, e);
                    }
                }
                true
            },
            None => false,
        }
    }

    /// Sets the decay score of the node with this id, if it is live.
    pub fn set_decay_score(&mut self, id: u64, decay_score: u32) -> (r: bool)
        requires
            old(self).wf(),
        ensures
            final(self).wf(),
            final(self).terms() is Some <==> old(self).terms() is Some,
            final(self).lengths() is Some <==> old(self).lengths() is Some,
            r == old(self)@.has_node(id),
            !r ==> *final(self) == *old(self),
            r ==> final(self)@ == (GraphView {
                nodes: old(self)@.nodes.update(
                    old(self)@.index_of(id),
                    EventView { decay_score, ..old(self)@.node(id) },
                ),
                ..old(self)@
            }),
    {
        match self.position(id) {
            Some(pos) => {
                let ghost before = self@;
                let mut node = self.nodes[pos].clone();
                node.decay_score = decay_score;
                self.nodes.set(pos, node);
                proof {
                    lemma_same_ids_keep_wf(
                        before,
                        self@,
                        pos as int,
                    );
                    let e = self@.nodes[pos as int];
                    lemma_type_kept(self.type_index, before.nodes, pos as int, e);
                    lemma_session_kept(self.session_index, before.nodes, pos as int, e);
                    lemma_time_kept(self.temporal_index@, before.nodes, pos as int, e);
                    if self.term_index is Some {
                        lemma_terms_kept(self.term_index->0, before.nodes, pos as int, e);
                        lemma_knows_kept(self.term_index->0, before.nodes, pos as int, e);
                    }
                    if self.doc_lengths is Some {
                        lemma_lengths_kept(self.doc_lengths->0@, before.nodes, pos as int, e);
                    }
                }
                true
            },
            None => false,
        }
    }
}

/// The ids of the live nodes form a finite set, no larger than the number
/// of nodes.
pub proof fn lemma_node_ids_finite(g: GraphView)
    ensures
        g.node_ids().finite(),
        g.node_ids().len() <= g.nodes.len(),
{
    broadcast use vstd::seq_lib::seq_to_set_is_finite;

    let ids = Seq::new(g.nodes.len(), |i: int| g.nodes[i].id);
    assert(ids.to_set() =~= g.node_ids()) by {
        assert forall|id: u64| ids.to_set().contains(id) <==> g.node_ids().contains(id) by {
            if ids.contains(id) {
                let i = choose|i: int| 0 <= i < ids.len() && ids[i] == id;
                assert(g.nodes[i].id == id);
            }
            if g.has_node(id) {
                let i = g.index_of(id);
                assert(ids[i] == id);
            }
        }
    }
    ids.lemma_cardinality_of_set();
}

/// Visiting one more member of a finite universe leaves fewer to visit.
pub proof fn lemma_visit(universe: Set<u64>, visited: Set<u64>, x: u64)
    requires
        universe.finite(),
        universe.contains(x),
        !visited.contains(x),
    ensures
        universe.difference(visited.insert(x)).len() < universe.difference(visited).len(),
{
    broadcast use vstd::set::group_set_axioms;

    let before = universe.difference(visited);
    let after = universe.difference(visited.insert(x));
    assert(before.contains(x));
    assert(after =~= before.remove(x));
}

/// Whether a node can be stored under the id that it carries.
pub open spec fn can_restore(g: GraphView, e: EventView) -> bool {
    e.id >= g.next_id && e.id < u64::MAX && e.feature_vec.len() == g.dimension
}

/// The graph with a node stored under the id that it carries.
pub open spec fn restored(g: GraphView, e: EventView) -> GraphView {
    GraphView { nodes: g.nodes.push(e), next_id: (e.id + 1) as u64, ..g }
}

/// What `add_edge` answers on a graph: the first missing end, else a
/// duplicate, else success.
pub open spec fn add_edge_outcome(g: GraphView, edge: Edge) -> Result<(), AmemError> {
    if !g.has_node(edge.source_id) {
        Err(AmemError::NodeNotFound(edge.source_id))
    } else if !g.has_node(edge.target_id) {
        Err(AmemError::NodeNotFound(edge.target_id))
    } else if g.has_arc(edge.source_id, edge.target_id, edge.edge_type) {
        Err(AmemError::DuplicateEdge(edge.source_id, edge.target_id))
    } else {
        Ok(())
    }
}

/// Nodes whose ids ascend are no more than their ids allow: the `i`-th has
/// an id of at least `i`.
pub proof fn lemma_ids_count(nodes: Seq<EventView>, i: int)
    requires
        forall|a: int, b: int|
            0 <= a < b < nodes.len() ==> (#[trigger] nodes[a]).id < (#[trigger] nodes[b]).id,
        0 <= i < nodes.len(),
    ensures
        nodes[i].id >= i,
    decreases i,
{
    if i > 0 {
        lemma_ids_count(nodes, i - 1);
        assert(nodes[i - 1].id < nodes[i].id);
    }
}

/// Replacing one node by a node with the same id and a vector of the same
/// length keeps the invariants.
pub proof fn lemma_same_ids_keep_wf(before: GraphView, after: GraphView, pos: int)
    requires
        before.wf(),
        0 <= pos < before.nodes.len(),
        after.nodes.len() == before.nodes.len(),
        forall|i: int| 0 <= i < before.nodes.len() && i != pos ==> after.nodes[i] == before.nodes[i],
        after.nodes[pos].id == before.nodes[pos].id,
        after.nodes[pos].feature_vec.len() == before.nodes[pos].feature_vec.len(),
        after.edges == before.edges,
        after.next_id == before.next_id,
        after.dimension == before.dimension,
    ensures
        after.wf(),
        after.nodes =~= before.nodes.update(pos, after.nodes[pos]),
        forall|id: u64| before.has_node(id) <==> after.has_node(id),
{
    assert forall|i: int| 0 <= i < after.nodes.len() implies (#[trigger] after.nodes[i]).id
        == before.nodes[i].id by {}
    assert forall|id: u64| before.has_node(id) <==> after.has_node(id) by {
        if before.has_node(id) {
            let i = before.index_of(id);
            assert(after.nodes[i].id == id);
        }
        if after.has_node(id) {
            let i = after.index_of(id);
            assert(before.nodes[i].id == id);
        }
    }
    assert forall|i: int, j: int| 0 <= i < j < after.nodes.len() implies (
    #[trigger] after.nodes[i]).id < (#[trigger] after.nodes[j]).id by {
        assert(before.nodes[i].id < before.nodes[j].id);
    }
    assert forall|k: int| 0 <= k < after.edges.len() implies after.has_node(
        (#[trigger] after.edges[k]).source_id,
    ) && after.has_node(after.edges[k].target_id) by {
        assert(before.has_node(before.edges[k].source_id));
        assert(before.has_node(before.edges[k].target_id));
    }
}

/// Every node carries a feature vector of the graph's dimension.
pub proof fn lemma_vectors_have_dimension(g: GraphView, id: u64)
    requires
        g.wf(),
        g.has_node(id),
    ensures
        g.node(id).feature_vec.len() == g.dimension,
        g.node(id).id == id,
{
}

/// Both ends of every edge are live nodes.
pub proof fn lemma_edges_join_nodes(g: GraphView, e: Edge)
    requires
        g.wf(),
        g.edges.contains(e),
    ensures
        g.has_node(e.source_id),
        g.has_node(e.target_id),
{
    let k = choose|k: int| 0 <= k < g.edges.len() && g.edges[k] == e;
    assert(g.has_node(g.edges[k].source_id) && g.has_node(g.edges[k].target_id));
}

/// The edges that leave their source are the edges that enter their target:
/// an edge is listed among those from its source exactly when it is listed
/// among those to its target, and exactly when the graph has it.
pub proof fn lemma_edges_from_to_inverse(g: GraphView, e: Edge)
    ensures
        g.edges_from(e.source_id).contains(e) <==> g.edges_to(e.target_id).contains(e),
        g.edges_from(e.source_id).contains(e) <==> g.edges.contains(e),
        forall|u: u64| g.edges_from(u).contains(e) ==> e.source_id == u,
        forall|v: u64| g.edges_to(v).contains(e) ==> e.target_id == v,
{
    lemma_out_edges(g.edges, e.source_id, e);
    lemma_in_edges(g.edges, e.target_id, e);
    assert forall|u: u64| g.edges_from(u).contains(e) implies e.source_id == u by {
        lemma_out_edges(g.edges, u, e);
    }
    assert forall|v: u64| g.edges_to(v).contains(e) implies e.target_id == v by {
        lemma_in_edges(g.edges, v, e);
    }
}

/// Every live node is in the index of its kind, in the index of its
/// session and in the index by time.
pub proof fn lemma_indexes_hold_node(graph: &MemoryGraph, id: u64)
    requires
        graph.wf(),
        graph@.has_node(id),
    ensures
        graph.types().ids(graph@.node(id).event_type).contains(id),
        graph.sessions().ids(graph@.node(id).session_id).contains(id),
        graph.times()@.contains(
            crate::index::temporal_index::TimeEntry {
                created_at: graph@.node(id).created_at,
                node_id: id,
            },
        ),
        graph.terms() is Some ==> forall|t: Seq<char>| #[trigger]
            crate::tokenizer::tokens(graph@.node(id).content).contains(t)
                ==> graph.terms()->0.postings_of(t).contains(
                crate::index::term_index::Posting {
                    node_id: id,
                    term_freq: crate::index::term_index::frequency(graph@.node(id), t),
                },
            ),
        graph.lengths() is Some && id < usize::MAX ==> graph.lengths()->0.entry(id)
            == crate::index::doc_lengths::token_count(graph@.node(id)),
{
    graph.lemma_indexed();
    let g = graph@;
    let c = g.index_of(id);
    assert(g.nodes[c].id == id);
    if graph.terms() is Some {
        assert forall|t: Seq<char>| #[trigger]
            crate::tokenizer::tokens(g.node(id).content).contains(t) implies graph.terms()->0.postings_of(
            t,
        ).contains(
            crate::index::term_index::Posting {
                node_id: id,
                term_freq: crate::index::term_index::frequency(g.node(id), t),
            },
        ) by {
            let p = crate::index::term_index::Posting {
                node_id: id,
                term_freq: crate::index::term_index::frequency(g.node(id), t),
            };
            assert(crate::index::term_index::has_posting(g.nodes, t, p));
        }
    }
    if graph.lengths() is Some && id < usize::MAX {
        assert(distinct_ids(g.nodes)) by {
            assert forall|i: int, j: int| 0 <= i < j < g.nodes.len() implies (
            #[trigger] g.nodes[i]).id != (#[trigger] g.nodes[j]).id by {
                assert(g.nodes[i].id < g.nodes[j].id);
            }
        }
        crate::index::doc_lengths::lemma_expected_present(g.nodes, c);
        assert(crate::index::doc_lengths::entry_in(graph.lengths()->0@, id)
            == crate::index::doc_lengths::expected_length(g.nodes, id));
    }
    assert(crate::index::type_index::has_typed(g.nodes, id, g.node(id).event_type));
    assert(crate::index::session_index::has_in_session(g.nodes, id, g.node(id).session_id));
    assert(crate::index::temporal_index::has_timed(
        g.nodes,
        crate::index::temporal_index::TimeEntry { created_at: g.node(id).created_at, node_id: id },
    ));
}

/// Graphs with the same nodes hold the same in their indexes: the same ids
/// under each kind and each session, the same entries by time, the same
/// postings under each term and the same document lengths. So a graph that
/// is read back from what was written has the index contents of the graph
/// that was written, for each index that both have.
pub proof fn lemma_same_nodes_same_indexes(a: &MemoryGraph, b: &MemoryGraph)
    requires
        a.wf(),
        b.wf(),
        a@.nodes == b@.nodes,
    ensures
        forall|t: EventType, id: u64|
            #![trigger a.types().ids(t).contains(id)]
            #![trigger b.types().ids(t).contains(id)]
            a.types().ids(t).contains(id) <==> b.types().ids(t).contains(id),
        forall|s: u32, id: u64|
            #![trigger a.sessions().ids(s).contains(id)]
            #![trigger b.sessions().ids(s).contains(id)]
            a.sessions().ids(s).contains(id) <==> b.sessions().ids(s).contains(id),
        forall|e: crate::index::temporal_index::TimeEntry|
            #![trigger a.times()@.contains(e)]
            #![trigger b.times()@.contains(e)]
            a.times()@.contains(e) <==> b.times()@.contains(e),
        a.terms() is Some && b.terms() is Some ==> forall|
            t: Seq<char>,
            q: crate::index::term_index::Posting,
        |
            #![trigger a.terms()->0.postings_of(t).contains(q)]
            #![trigger b.terms()->0.postings_of(t).contains(q)]
            a.terms()->0.postings_of(t).contains(q) <==> b.terms()->0.postings_of(t).contains(q),
        a.lengths() is Some && b.lengths() is Some ==> forall|id: u64|
            id < usize::MAX ==> #[trigger] a.lengths()->0.entry(id) == b.lengths()->0.entry(id),
{
    a.lemma_indexed();
    b.lemma_indexed();
    if a.lengths() is Some && b.lengths() is Some {
        assert forall|id: u64| id < usize::MAX implies #[trigger] a.lengths()->0.entry(id)
            == b.lengths()->0.entry(id) by {
            assert(crate::index::doc_lengths::entry_in(a.lengths()->0@, id)
                == crate::index::doc_lengths::expected_length(a@.nodes, id));
            assert(crate::index::doc_lengths::entry_in(b.lengths()->0@, id)
                == crate::index::doc_lengths::expected_length(b@.nodes, id));
        }
    }
}

/// No index and no edge mentions an id that is not the id of a live node.
pub proof fn lemma_nothing_holds_absent(graph: &MemoryGraph, id: u64)
    requires
        graph.wf(),
        !graph@.has_node(id),
    ensures
        forall|t: EventType| !(#[trigger] graph.types().ids(t)).contains(id),
        forall|s: u32| !(#[trigger] graph.sessions().ids(s)).contains(id),
        forall|e: crate::index::temporal_index::TimeEntry| #[trigger]
            graph.times()@.contains(e) ==> e.node_id != id,
        forall|k: int|
            0 <= k < graph@.edges.len() ==> (#[trigger] graph@.edges[k]).source_id != id
                && graph@.edges[k].target_id != id,
        graph.terms() is Some ==> forall|t: Seq<char>, q: crate::index::term_index::Posting|
            #![trigger graph.terms()->0.postings_of(t).contains(q)]
            graph.terms()->0.postings_of(t).contains(q) ==> q.node_id != id,
        graph.lengths() is Some && id < usize::MAX ==> graph.lengths()->0.entry(id) == 0,
{
    graph.lemma_indexed();
    let g = graph@;
    if graph.terms() is Some {
        assert forall|t: Seq<char>, q: crate::index::term_index::Posting|
            #![trigger graph.terms()->0.postings_of(t).contains(q)]
            graph.terms()->0.postings_of(t).contains(q) implies q.node_id != id by {
            assert(crate::index::term_index::has_posting(g.nodes, t, q));
            let i = choose|i: int|
                0 <= i < g.nodes.len() && (#[trigger] g.nodes[i]).id == q.node_id
                    && crate::tokenizer::tokens(g.nodes[i].content).contains(t) && q.term_freq
                    == crate::index::term_index::frequency(g.nodes[i], t);
            assert(g.nodes[i].id == q.node_id);
        }
    }
    if graph.lengths() is Some && id < usize::MAX {
        assert forall|i: int| 0 <= i < g.nodes.len() implies (#[trigger] g.nodes[i]).id != id by {
            if g.nodes[i].id == id {
                assert(g.has_node(id));
            }
        }
        crate::index::doc_lengths::lemma_expected_absent(g.nodes, id);
        assert(crate::index::doc_lengths::entry_in(graph.lengths()->0@, id)
            == crate::index::doc_lengths::expected_length(g.nodes, id));
    }
    assert forall|t: EventType| !(#[trigger] graph.types().ids(t)).contains(id) by {
        if graph.types().ids(t).contains(id) {
            assert(crate::index::type_index::has_typed(g.nodes, id, t));
            let i = choose|i: int|
                0 <= i < g.nodes.len() && (#[trigger] g.nodes[i]).id == id && g.nodes[i].event_type
                    == t;
            assert(g.nodes[i].id == id);
        }
    }
    assert forall|s: u32| !(#[trigger] graph.sessions().ids(s)).contains(id) by {
        if graph.sessions().ids(s).contains(id) {
            assert(crate::index::session_index::has_in_session(g.nodes, id, s));
            let i = choose|i: int|
                0 <= i < g.nodes.len() && (#[trigger] g.nodes[i]).id == id && g.nodes[i].session_id
                    == s;
            assert(g.nodes[i].id == id);
        }
    }
    assert forall|e: crate::index::temporal_index::TimeEntry| #[trigger]
        graph.times()@.contains(e) implies e.node_id != id by {
        assert(crate::index::temporal_index::has_timed(g.nodes, e));
        let i = choose|i: int|
            0 <= i < g.nodes.len() && (#[trigger] g.nodes[i]).id == e.node_id
                && g.nodes[i].created_at == e.created_at;
        assert(g.nodes[i].id == e.node_id);
    }
    assert forall|k: int| 0 <= k < g.edges.len() implies (#[trigger] g.edges[k]).source_id != id
        && g.edges[k].target_id != id by {
        assert(g.has_node(g.edges[k].source_id) && g.has_node(g.edges[k].target_id));
    }
}

} // verus!
