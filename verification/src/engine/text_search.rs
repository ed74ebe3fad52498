//! The discrete part of text search: which nodes have which terms of a
//! query, how often, and in how many documents each term occurs. The
//! scores are left to the caller; ranking by score is done by `rank`.

use vstd::prelude::*;
use std::collections::HashMap;
use crate::engine::query::QueryEngine;
use crate::graph::{event_views, GraphView, MemoryGraph};
use crate::index::doc_lengths::{entry_in, DocLengths};
use crate::index::term_index::{token_total, Posting, TermIndex};
use crate::text::str_eq;
use crate::tokenizer::{capped, distinct, is_frequency_table, lemma_distinct_members, lemma_occurrences,
    occurrences, terms_of, texts, tokens, Tokenizer};
use crate::types::{event_type_allowed, event_type_passes, EventType, EventView};

verus! {

/// Parameters of a text search.
pub struct TextSearchParams {
    /// The query, which is cut into terms.
    pub query: String,
    /// The largest number of results.
    pub max_results: usize,
    /// The kinds of event to search; empty means all.
    pub event_types: Vec<EventType>,
    /// The sessions to search; empty means all.
    pub session_ids: Vec<u32>,
}

/// One term of the query found in a node.
#[derive(Clone, Copy, Debug, PartialEq, Eq, Structural)]
pub struct TermHit {
    /// The place of the term in the query.
    pub term: usize,
    /// How often the term occurs in the node.
    pub tf: u32,
    /// In how many documents the term occurs.
    pub df: usize,
}

/// A node that has terms of the query.
pub struct TextCandidate {
    pub node_id: u64,
    /// The number of tokens of the node's content.
    pub doc_len: u32,
    /// The terms found, in the order of the query.
    pub hits: Vec<TermHit>,
}

/// The mathematical value of a candidate.
pub struct CandidateView {
    pub node_id: u64,
    pub doc_len: u32,
    pub hits: Seq<TermHit>,
}

impl View for TextCandidate {
    type V = CandidateView;

    open spec fn view(&self) -> CandidateView {
        CandidateView { node_id: self.node_id, doc_len: self.doc_len, hits: self.hits@ }
    }
}

/// What a search found, before scoring.
pub struct TextCandidates {
    /// The terms of the query, in order, with repetitions.
    pub query_terms: Vec<String>,
    pub candidates: Vec<TextCandidate>,
    /// The number of documents searched.
    pub doc_count: u64,
    /// The number of tokens of the documents searched, where they were
    /// scanned; zero where an index was used.
    pub total_tokens: u64,
    /// The average document length of the index, as a bit pattern, where an
    /// index was used; zero otherwise.
    pub avg_doc_length: u32,
    /// Whether an index was used.
    pub indexed: bool,
}

/// The views of a sequence of candidates.
pub open spec fn candidate_views(s: Seq<TextCandidate>) -> Seq<CandidateView> {
    Seq::new(s.len(), |i: int| s[i]@)
}

/// Whether a session is among those asked for; an empty list asks for all.
pub open spec fn session_allowed(sessions: Seq<u32>, s: u32) -> bool {
    sessions.len() == 0 || sessions.contains(s)
}

/// Whether a node passes the filters of a search.
pub open spec fn passes(e: EventView, types: Seq<EventType>, sessions: Seq<u32>) -> bool {
    event_type_allowed(types, e.event_type) && session_allowed(sessions, e.session_id)
}

/// In how many of the nodes a term occurs, whatever the filters of the
/// search: the statistics of a search are those of the whole graph.
pub open spec fn doc_freq(nodes: Seq<EventView>, term: Seq<char>) -> nat
    decreases nodes.len(),
{
    if nodes.len() == 0 {
        0
    } else {
        doc_freq(nodes.drop_last(), term) + if tokens(nodes.last().content).contains(term) {
            1nat
        } else {
            0nat
        }
    }
}

/// The terms among the first `n` of the query that a node has, each with
/// its frequency in the node and its document frequency.
pub open spec fn hits_of(e: EventView, query: Seq<Seq<char>>, dfs: Seq<usize>, n: int) -> Seq<
    TermHit,
>
    decreases n,
{
    if n <= 0 {
        Seq::empty()
    } else if tokens(e.content).contains(query[n - 1]) {
        hits_of(e, query, dfs, n - 1).push(
            TermHit {
                term: (n - 1) as usize,
                tf: capped(occurrences(tokens(e.content), query[n - 1])),
                df: dfs[n - 1],
            },
        )
    } else {
        hits_of(e, query, dfs, n - 1)
    }
}

/// The candidates among the nodes: those that pass the filters and have a
/// term of the query, in order.
pub open spec fn scanned(
    nodes: Seq<EventView>,
    types: Seq<EventType>,
    sessions: Seq<u32>,
    query: Seq<Seq<char>>,
    dfs: Seq<usize>,
) -> Seq<CandidateView>
    decreases nodes.len(),
{
    if nodes.len() == 0 {
        Seq::empty()
    } else {
        let e = nodes.last();
        let hits = hits_of(e, query, dfs, query.len() as int);
        if passes(e, types, sessions) && hits.len() > 0 {
            scanned(nodes.drop_last(), types, sessions, query, dfs).push(
                CandidateView { node_id: e.id, doc_len: capped(tokens(e.content).len()), hits },
            )
        } else {
            scanned(nodes.drop_last(), types, sessions, query, dfs)
        }
    }
}

/// The document frequencies of the terms of a query.
pub open spec fn doc_freqs(nodes: Seq<EventView>, query: Seq<Seq<char>>) -> Seq<usize> {
    Seq::new(query.len(), |j: int| doc_freq(nodes, query[j]) as usize)
}

/// Whether the candidates are in the order of their nodes' ids.
pub open spec fn nodes_ascend(cands: Seq<CandidateView>) -> bool {
    forall|a: int, b: int|
        0 <= a < b < cands.len() ==> (#[trigger] cands[a]).node_id < (#[trigger] cands[b]).node_id
}

/// A scan of nodes whose ids ascend finds candidates whose ids ascend, each
/// the id of a node.
pub proof fn lemma_scanned_ascend(
    nodes: Seq<EventView>,
    types: Seq<EventType>,
    sessions: Seq<u32>,
    query: Seq<Seq<char>>,
    dfs: Seq<usize>,
)
    requires
        forall|i: int, j: int|
            0 <= i < j < nodes.len() ==> (#[trigger] nodes[i]).id < (#[trigger] nodes[j]).id,
    ensures
        nodes_ascend(scanned(nodes, types, sessions, query, dfs)),
        distinct_nodes(scanned(nodes, types, sessions, query, dfs)),
        forall|a: int|
            0 <= a < scanned(nodes, types, sessions, query, dfs).len() ==> exists|c: int|
                0 <= c < nodes.len() && (#[trigger] nodes[c]).id == (#[trigger] scanned(
                    nodes,
                    types,
                    sessions,
                    query,
                    dfs,
                )[a]).node_id,
    decreases nodes.len(),
{
    let out = scanned(nodes, types, sessions, query, dfs);
    if nodes.len() > 0 {
        let rest = nodes.drop_last();
        let before = scanned(rest, types, sessions, query, dfs);
        assert forall|i: int, j: int| 0 <= i < j < rest.len() implies (#[trigger] rest[i]).id < (
        #[trigger] rest[j]).id by {
            assert(nodes[i].id < nodes[j].id);
        }
        lemma_scanned_ascend(rest, types, sessions, query, dfs);
        assert forall|a: int| 0 <= a < out.len() implies exists|c: int|
            0 <= c < nodes.len() && (#[trigger] nodes[c]).id == (#[trigger] out[a]).node_id by {
            if a < before.len() {
                let c = choose|c: int|
                    0 <= c < rest.len() && (#[trigger] rest[c]).id == before[a].node_id;
                assert(nodes[c].id == out[a].node_id);
            } else {
                assert(nodes[nodes.len() - 1].id == out[a].node_id);
            }
        }
        assert forall|a: int, b: int| 0 <= a < b < out.len() implies (#[trigger] out[a]).node_id < (
        #[trigger] out[b]).node_id by {
            if b < before.len() {
                assert(before[a].node_id < before[b].node_id);
            } else {
                let c = choose|c: int|
                    0 <= c < rest.len() && (#[trigger] rest[c]).id == before[a].node_id;
                assert(nodes[c].id < nodes[nodes.len() - 1].id);
            }
        }
    }
}

/// Whether a posting is taken: its node passes the filters, or is not a
/// node of the graph.
pub open spec fn keep_posting(g: GraphView, types: Seq<EventType>, sessions: Seq<u32>, p: Posting) -> bool {
    !g.has_node(p.node_id) || passes(g.node(p.node_id), types, sessions)
}

/// Whether candidate `i` is the candidate of the node.
pub open spec fn slot_at(cands: Seq<CandidateView>, node: u64, i: int) -> bool {
    0 <= i < cands.len() && cands[i].node_id == node
}

/// The candidates with one more hit: on the candidate of the node if there
/// is one, on a new candidate at the end if not.
pub open spec fn with_hit(cands: Seq<CandidateView>, node: u64, doc_len: u32, hit: TermHit) -> Seq<
    CandidateView,
> {
    if exists|i: int| slot_at(cands, node, i) {
        let i = choose|i: int| slot_at(cands, node, i);
        cands.update(i, CandidateView { hits: cands[i].hits.push(hit), ..cands[i] })
    } else {
        cands.push(CandidateView { node_id: node, doc_len, hits: seq![hit] })
    }
}

/// The candidates after the first `n` postings of term `j` of the query.
pub open spec fn after_postings(
    start: Seq<CandidateView>,
    g: GraphView,
    types: Seq<EventType>,
    sessions: Seq<u32>,
    lengths: Seq<u32>,
    postings: Seq<Posting>,
    j: usize,
    n: int,
) -> Seq<CandidateView>
    decreases n,
{
    if n <= 0 {
        start
    } else {
        let prev = after_postings(start, g, types, sessions, lengths, postings, j, n - 1);
        let p = postings[n - 1];
        if keep_posting(g, types, sessions, p) {
            with_hit(
                prev,
                p.node_id,
                entry_in(lengths, p.node_id),
                TermHit { term: j, tf: p.term_freq, df: postings.len() as usize },
            )
        } else {
            prev
        }
    }
}

/// The candidates after the first `n` terms of the query have been looked
/// up in the index.
pub open spec fn looked_up(
    g: GraphView,
    index: TermIndex,
    lengths: Seq<u32>,
    types: Seq<EventType>,
    sessions: Seq<u32>,
    query: Seq<Seq<char>>,
    n: int,
) -> Seq<CandidateView>
    decreases n,
{
    if n <= 0 {
        Seq::empty()
    } else {
        let postings = index.postings_of(query[n - 1]);
        after_postings(
            looked_up(g, index, lengths, types, sessions, query, n - 1),
            g,
            types,
            sessions,
            lengths,
            postings,
            (n - 1) as usize,
            postings.len() as int,
        )
    }
}

/// Whether no two candidates are of the same node.
pub open spec fn distinct_nodes(cands: Seq<CandidateView>) -> bool {
    forall|a: int, b: int|
        0 <= a < b < cands.len() ==> (#[trigger] cands[a]).node_id != (#[trigger] cands[b]).node_id
}

/// Whether the map leads from each node to its candidate.
pub open spec fn slots_ok(cands: Seq<CandidateView>, slots: Map<u64, usize>) -> bool {
    &&& forall|v: u64| #[trigger]
        slots.contains_key(v) ==> slots[v] < cands.len() && cands[slots[v] as int].node_id == v
    &&& forall|i: int| 0 <= i < cands.len() ==> slots.contains_key((#[trigger] cands[i]).node_id)
}

/// Decides `session_allowed`.
pub fn session_passes(sessions: &Vec<u32>, s: u32) -> (r: bool)
    ensures
        r == session_allowed(sessions@, s),
{
    if sessions.len() == 0 {
        return true;
    }
    let mut i: usize = 0;
    while i < sessions.len()
        invariant
            i <= sessions@.len(),
            forall|j: int| 0 <= j < i ==> sessions@[j] != s,
        decreases sessions@.len() - i,
    {
        if sessions[i] == s {
            return true;
        }
        i += 1;
    }
    false
}

/// How often a term occurs according to a frequency table, zero if the
/// table does not have it.
fn table_count(table: &Vec<(String, u32)>, term: &str, Ghost(toks): Ghost<Seq<Seq<char>>>) -> (r:
    u32)
    requires
        is_frequency_table(table@, toks),
    ensures
        toks.contains(term@) <==> r > 0,
        toks.contains(term@) ==> r == capped(occurrences(toks, term@)),
{
    let mut i: usize = 0;
    while i < table.len()
        invariant
            i <= table@.len(),
            is_frequency_table(table@, toks),
            forall|j: int| 0 <= j < i ==> terms_of(table@)[j] != term@,
        decreases table@.len() - i,
    {
        if str_eq(table[i].0.as_str(), term) {
            proof {
                assert(terms_of(table@)[i as int] == term@);
                assert(distinct(toks).contains(term@));
                lemma_distinct_members(toks, term@);
                lemma_occurrences(toks, term@);
            }
            return table[i].1;
        }
        i += 1;
    }
    proof {
        lemma_distinct_members(toks, term@);
        if distinct(toks).contains(term@) {
            let j = choose|j: int| 0 <= j < distinct(toks).len() && distinct(toks)[j] == term@;
            assert(terms_of(table@)[j] == term@);
        }
    }
    0
}

impl QueryEngine {
    /// Scans the nodes for the terms of a query.
    pub fn bm25_slow_path(
        &self,
        graph: &MemoryGraph,
        tokenizer: &Tokenizer,
        query_terms: &Vec<String>,
        event_types: &Vec<EventType>,
        session_ids: &Vec<u32>,
    ) -> (r: (Vec<TextCandidate>, u64))
        requires
            tokenizer.wf(),
        ensures
            candidate_views(r.0@) == scanned(
                graph@.nodes,
                event_types@,
                session_ids@,
                texts(query_terms@),
                doc_freqs(graph@.nodes, texts(query_terms@)),
            ),
            r.1 == if token_total(graph@.nodes) > u64::MAX {
                u64::MAX
            } else {
                token_total(graph@.nodes) as u64
            },
    {
        let ghost g = graph@;
        let ghost q = texts(query_terms@);
        let ghost types = event_types@;
        let ghost sessions = session_ids@;
        let nodes = graph.nodes();
        let mut tables: Vec<Vec<(String, u32)>> = Vec::new();
        let mut lens: Vec<usize> = Vec::new();
        let mut pass: Vec<bool> = Vec::new();
        let mut total: u64 = 0;
        let mut i: usize = 0;
        assert(g.nodes.take(0) =~= Seq::<EventView>::empty());
        while i < nodes.len()
            invariant
                i <= nodes@.len(),
                tokenizer.wf(),
                g == graph@,
                event_views(nodes@) == g.nodes,
                types == event_types@,
                sessions == session_ids@,
                tables@.len() == i,
                lens@.len() == i,
                pass@.len() == i,
                forall|k: int|
                    0 <= k < i ==> is_frequency_table(
                        (#[trigger] tables@[k])@,
                        tokens(g.nodes[k].content),
                    ),
                forall|k: int| 0 <= k < i ==> #[trigger] lens@[k] == tokens(g.nodes[k].content).len(),
                forall|k: int| 0 <= k < i ==> #[trigger] pass@[k] == passes(g.nodes[k], types, sessions),
                total == if token_total(g.nodes.take(i as int)) > u64::MAX {
                    u64::MAX
                } else {
                    token_total(g.nodes.take(i as int)) as u64
                },
            decreases nodes@.len() - i,
        {
            assert(g.nodes.take(i + 1).drop_last() =~= g.nodes.take(i as int));
            assert(g.nodes.take(i + 1).last() == nodes@[i as int]@);
            assert(g.nodes[i as int] == nodes@[i as int]@);
            let node = &nodes[i];
            let toks = tokenizer.tokenize(node.content.as_str());
            let n = toks.len();
            assert(texts(toks@).len() == n);
            let table = crate::tokenizer::count_terms(&toks);
            let ok = event_type_passes(event_types, node.event_type) && session_passes(
                session_ids,
                node.session_id,
            );
            let add = n as u64;
            total = if total > u64::MAX - add { u64::MAX } else { total + add };
            tables.push(table);
            lens.push(n);
            pass.push(ok);
            i += 1;
        }
        assert(g.nodes.take(i as int) =~= g.nodes);
        let mut dfs: Vec<usize> = Vec::new();
        let mut j: usize = 0;
        while j < query_terms.len()
            invariant
                j <= query_terms@.len(),
                q == texts(query_terms@),
                tables@.len() == nodes@.len(),
                pass@.len() == nodes@.len(),
                event_views(nodes@) == g.nodes,
                forall|k: int|
                    0 <= k < nodes@.len() ==> is_frequency_table(
                        (#[trigger] tables@[k])@,
                        tokens(g.nodes[k].content),
                    ),
                forall|k: int|
                    0 <= k < nodes@.len() ==> #[trigger] pass@[k] == passes(
                        g.nodes[k],
                        types,
                        sessions,
                    ),
                dfs@.len() == j,
                forall|x: int| 0 <= x < j ==> #[trigger] dfs@[x] == doc_freq(g.nodes, q[x]),
            decreases query_terms@.len() - j,
        {
            let mut df: usize = 0;
            let mut k: usize = 0;
            assert(g.nodes.take(0) =~= Seq::<EventView>::empty());
            while k < tables.len()
                invariant
                    k <= tables@.len(),
                    j < query_terms@.len(),
                    q == texts(query_terms@),
                    tables@.len() == nodes@.len(),
                    pass@.len() == nodes@.len(),
                    event_views(nodes@) == g.nodes,
                    df <= k,
                    forall|x: int|
                        0 <= x < nodes@.len() ==> is_frequency_table(
                            (#[trigger] tables@[x])@,
                            tokens(g.nodes[x].content),
                        ),
                    forall|x: int|
                        0 <= x < nodes@.len() ==> #[trigger] pass@[x] == passes(
                            g.nodes[x],
                            types,
                            sessions,
                        ),
                    df == doc_freq(g.nodes.take(k as int), q[j as int]),
                decreases tables@.len() - k,
            {
                assert(g.nodes.take(k + 1).drop_last() =~= g.nodes.take(k as int));
                assert(g.nodes.take(k + 1).last() == g.nodes[k as int]);
                assert(q[j as int] == query_terms@[j as int]@);
                if table_count(
                    &tables[k],
                    query_terms[j].as_str(),
                    Ghost(tokens(g.nodes[k as int].content)),
                ) > 0 {
                    df += 1;
                }
                k += 1;
            }
            assert(g.nodes.take(k as int) =~= g.nodes);
            dfs.push(df);
            j += 1;
        }
        assert(dfs@ =~= doc_freqs(g.nodes, q));
        let mut out: Vec<TextCandidate> = Vec::new();
        let mut m: usize = 0;
        assert(candidate_views(out@) =~= Seq::<CandidateView>::empty());
        assert(g.nodes.take(0) =~= Seq::<EventView>::empty());
        while m < nodes.len()
            invariant
                m <= nodes@.len(),
                q == texts(query_terms@),
                tables@.len() == nodes@.len(),
                pass@.len() == nodes@.len(),
                lens@.len() == nodes@.len(),
                event_views(nodes@) == g.nodes,
                dfs@ == doc_freqs(g.nodes, q),
                forall|x: int|
                    0 <= x < nodes@.len() ==> is_frequency_table(
                        (#[trigger] tables@[x])@,
                        tokens(g.nodes[x].content),
                    ),
                forall|x: int|
                    0 <= x < nodes@.len() ==> #[trigger] pass@[x] == passes(
                        g.nodes[x],
                        types,
                        sessions,
                    ),
                forall|x: int|
                    0 <= x < nodes@.len() ==> #[trigger] lens@[x] == tokens(g.nodes[x].content).len(),
                candidate_views(out@) == scanned(g.nodes.take(m as int), types, sessions, q, dfs@),
            decreases nodes@.len() - m,
        {
            assert(g.nodes.take(m + 1).drop_last() =~= g.nodes.take(m as int));
            assert(g.nodes.take(m + 1).last() == g.nodes[m as int]);
            assert(g.nodes[m as int] == nodes@[m as int]@);
            let ghost e = g.nodes[m as int];
            let mut hits: Vec<TermHit> = Vec::new();
            let mut j: usize = 0;
            while j < query_terms.len()
                invariant
                    j <= query_terms@.len(),
                    m < nodes@.len(),
                    q == texts(query_terms@),
                    dfs@.len() == q.len(),
                    tables@.len() == nodes@.len(),
                    e == g.nodes[m as int],
                    is_frequency_table(tables@[m as int]@, tokens(e.content)),
                    hits@ == hits_of(e, q, dfs@, j as int),
                decreases query_terms@.len() - j,
            {
                assert(q[j as int] == query_terms@[j as int]@);
                let tf = table_count(&tables[m], query_terms[j].as_str(), Ghost(tokens(e.content)));
                if tf > 0 {
                    hits.push(TermHit { term: j, tf, df: dfs[j] });
                }
                j += 1;
            }
            if pass[m] && hits.len() > 0 {
                let len = lens[m];
                let doc_len: u32 = if len >= u32::MAX as usize { u32::MAX } else { len as u32 };
                let ghost before = out@;
                let cand = TextCandidate { node_id: nodes[m].id, doc_len, hits };
                let ghost cv = cand@;
                out.push(cand);
                assert(candidate_views(out@) =~= candidate_views(before).push(cv));
            }
            m += 1;
        }
        assert(g.nodes.take(m as int) =~= g.nodes);
        (out, total)
    }

    /// Looks the terms of a query up in the index. A posting whose node is
    /// not in the graph is taken whatever the filters.
    pub fn bm25_fast_path(
        &self,
        graph: &MemoryGraph,
        term_index: &TermIndex,
        doc_lengths: &DocLengths,
        query_terms: &Vec<String>,
        event_types: &Vec<EventType>,
        session_ids: &Vec<u32>,
    ) -> (r: Vec<TextCandidate>)
        requires
            graph.wf(),
            term_index.wf(),
        ensures
            candidate_views(r@) == looked_up(
                graph@,
                *term_index,
                doc_lengths@,
                event_types@,
                session_ids@,
                texts(query_terms@),
                query_terms@.len() as int,
            ),
            distinct_nodes(candidate_views(r@)),
    {
        broadcast use vstd::std_specs::hash::group_hash_axioms;

        let ghost g = graph@;
        let ghost q = texts(query_terms@);
        let ghost types = event_types@;
        let ghost sessions = session_ids@;
        let ghost lengths = doc_lengths@;
        let mut out: Vec<TextCandidate> = Vec::new();
        let mut slots: HashMap<u64, usize> = HashMap::new();
        let mut j: usize = 0;
        assert(candidate_views(out@) =~= Seq::<CandidateView>::empty());
        while j < query_terms.len()
            invariant
                j <= query_terms@.len(),
                g == graph@,
                graph.wf(),
                term_index.wf(),
                q == texts(query_terms@),
                types == event_types@,
                sessions == session_ids@,
                lengths == doc_lengths@,
                candidate_views(out@) == looked_up(g, *term_index, lengths, types, sessions, q, j as int),
                distinct_nodes(candidate_views(out@)),
                slots_ok(candidate_views(out@), slots@),
            decreases query_terms@.len() - j,
        {
            let postings = term_index.get(query_terms[j].as_str());
            assert(q[j as int] == query_terms@[j as int]@);
            let df = postings.len();
            let ghost start = candidate_views(out@);
            let mut k: usize = 0;
            while k < postings.len()
                invariant
                    k <= postings@.len(),
                    j < query_terms@.len(),
                    g == graph@,
                    graph.wf(),
                    types == event_types@,
                    sessions == session_ids@,
                    lengths == doc_lengths@,
                    df == postings@.len(),
                    candidate_views(out@) == after_postings(
                        start,
                        g,
                        types,
                        sessions,
                        lengths,
                        postings@,
                        j,
                        k as int,
                    ),
                    distinct_nodes(candidate_views(out@)),
                    slots_ok(candidate_views(out@), slots@),
                decreases postings@.len() - k,
            {
                let p = postings[k];
                let keep = match graph.get_node(p.node_id) {
                    Some(node) => event_type_passes(event_types, node.event_type) && session_passes(
                        session_ids,
                        node.session_id,
                    ),
                    None => true,
                };
                if keep {
                    let hit = TermHit { term: j, tf: p.term_freq, df };
                    let doc_len = doc_lengths.get(p.node_id);
                    let ghost before = candidate_views(out@);
                    let found: Option<usize> = match slots.get(&p.node_id) {
                        Some(i) => Some(*i),
                        None => None,
                    };
                    match found {
                        Some(i) => {
                            proof {
                                assert(slot_at(before, p.node_id, i as int));
                                let c = choose|c: int| slot_at(before, p.node_id, c);
                                if c < i {
                                    assert(before[c].node_id != before[i as int].node_id);
                                } else if c > i {
                                    assert(before[i as int].node_id != before[c].node_id);
                                }
                            }
                            let mut hits: Vec<TermHit> = Vec::new();
                            std::mem::swap(&mut hits, &mut out[i].hits);
                            hits.push(hit);
                            let old_len = out[i].doc_len;
                            out.set(i, TextCandidate { node_id: p.node_id, doc_len: old_len, hits });
                            proof {
                                let after = candidate_views(out@);
                                assert(after =~= with_hit(before, p.node_id, doc_len, hit));
                                assert forall|a: int, b: int| 0 <= a < b < after.len() implies (
                                #[trigger] after[a]).node_id != (#[trigger] after[b]).node_id by {
                                    assert(before[a].node_id != before[b].node_id);
                                }
                                assert forall|v: u64| #[trigger]
                                    slots@.contains_key(v) implies slots@[v] < after.len()
                                    && after[slots@[v] as int].node_id == v by {
                                    assert(before[slots@[v] as int].node_id == v);
                                }
                                assert forall|x: int| 0 <= x < after.len() implies slots@.contains_key(
                                    (#[trigger] after[x]).node_id,
                                ) by {
                                    assert(slots@.contains_key(before[x].node_id));
                                }
                            }
                        },
                        None => {
                            proof {
                                assert forall|c: int| !slot_at(before, p.node_id, c) by {
                                    if slot_at(before, p.node_id, c) {
                                        assert(slots@.contains_key(before[c].node_id));
                                    }
                                }
                            }
                            let mut hits: Vec<TermHit> = Vec::new();
                            hits.push(hit);
                            let at = out.len();
                            let ghost old_slots = slots@;
                            slots.insert(p.node_id, at);
                            let cand = TextCandidate { node_id: p.node_id, doc_len, hits };
                            let ghost cv = cand@;
                            out.push(cand);
                            proof {
                                let after = candidate_views(out@);
                                assert(cv.hits =~= seq![hit]);
                                assert(after =~= before.push(cv));
                                assert(after =~= with_hit(before, p.node_id, doc_len, hit));
                                assert forall|a: int, b: int| 0 <= a < b < after.len() implies (
                                #[trigger] after[a]).node_id != (#[trigger] after[b]).node_id by {
                                    if b < before.len() {
                                        assert(before[a].node_id != before[b].node_id);
                                    } else {
                                        assert(old_slots.contains_key(before[a].node_id));
                                    }
                                }
                                assert forall|v: u64| #[trigger]
                                    slots@.contains_key(v) implies slots@[v] < after.len()
                                    && after[slots@[v] as int].node_id == v by {
                                    if v != p.node_id {
                                        assert(old_slots.contains_key(v));
                                        assert(before[old_slots[v] as int].node_id == v);
                                    }
                                }
                                assert forall|x: int| 0 <= x < after.len() implies slots@.contains_key(
                                    (#[trigger] after[x]).node_id,
                                ) by {
                                    if x < before.len() {
                                        assert(old_slots.contains_key(before[x].node_id));
                                    }
                                }
                            }
                        },
                    }
                }
                k += 1;
            }
            j += 1;
        }
        out
    }

    /// Gathers what a text search needs for scoring: with an index and a
    /// table of document lengths by looking the terms up, without by
    /// scanning the nodes.
    pub fn text_search(
        &self,
        graph: &MemoryGraph,
        term_index: Option<&TermIndex>,
        doc_lengths: Option<&DocLengths>,
        params: &TextSearchParams,
    ) -> (r: TextCandidates)
        requires
            graph.wf(),
            term_index is Some ==> term_index->0.wf(),
        ensures
            texts(r.query_terms@) == tokens(params.query@),
            r.indexed == (term_index is Some && doc_lengths is Some),
            r.indexed ==> candidate_views(r.candidates@) == looked_up(
                graph@,
                *term_index->0,
                doc_lengths->0@,
                params.event_types@,
                params.session_ids@,
                tokens(params.query@),
                tokens(params.query@).len() as int,
            ) && r.doc_count == term_index->0.documents() && r.avg_doc_length
                == term_index->0.average() && r.total_tokens == 0,
            !r.indexed ==> candidate_views(r.candidates@) == scanned(
                graph@.nodes,
                params.event_types@,
                params.session_ids@,
                tokens(params.query@),
                doc_freqs(graph@.nodes, tokens(params.query@)),
            ) && r.doc_count == graph@.nodes.len() && r.avg_doc_length == 0 && r.total_tokens
                == if token_total(graph@.nodes) > u64::MAX {
                u64::MAX
            } else {
                token_total(graph@.nodes) as u64
            },
            distinct_nodes(candidate_views(r.candidates@)),
    {
        let tokenizer = Tokenizer::new();
        let query_terms = tokenizer.tokenize(params.query.as_str());
        match (term_index, doc_lengths) {
            (Some(index), Some(table)) => {
                let candidates = self.bm25_fast_path(
                    graph,
                    index,
                    table,
                    &query_terms,
                    &params.event_types,
                    &params.session_ids,
                );
                TextCandidates {
                    query_terms,
                    candidates,
                    doc_count: index.doc_count(),
                    total_tokens: 0,
                    avg_doc_length: index.avg_doc_length(),
                    indexed: true,
                }
            },
            _ => {
                proof {
                    lemma_scanned_ascend(
                        graph@.nodes,
                        params.event_types@,
                        params.session_ids@,
                        tokens(params.query@),
                        doc_freqs(graph@.nodes, tokens(params.query@)),
                    );
                }
                let (candidates, total) = self.bm25_slow_path(
                    graph,
                    &tokenizer,
                    &query_terms,
                    &params.event_types,
                    &params.session_ids,
                );
                TextCandidates {
                    query_terms,
                    candidates,
                    doc_count: graph.node_count() as u64,
                    total_tokens: total,
                    avg_doc_length: 0,
                    indexed: false,
                }
            },
        }
    }
}

/// The ranks of a node in the two lists that a hybrid search fuses.
#[derive(Clone, Copy, Debug, PartialEq, Eq, Structural)]
pub struct RankPair {
    pub node_id: u64,
    /// The place of the node in the list of text results, counted from
    /// one, or one more than the length of the list if it is not there.
    pub text_rank: u64,
    /// The same for the list of vector results.
    pub vector_rank: u64,
}

/// The members of a list, each at the place of its first occurrence.
pub open spec fn first_seen(s: Seq<u64>) -> Seq<u64>
    decreases s.len(),
{
    if s.len() == 0 {
        Seq::empty()
    } else if first_seen(s.drop_last()).contains(s.last()) {
        first_seen(s.drop_last())
    } else {
        first_seen(s.drop_last()).push(s.last())
    }
}

/// Whether `i` is the first place of `id` in the list.
pub open spec fn first_place(list: Seq<u64>, id: u64, i: int) -> bool {
    0 <= i < list.len() && list[i] == id && forall|j: int| 0 <= j < i ==> list[j] != id
}

/// A number as a rank holds it: capped at the largest `u64`.
pub open spec fn as_rank(n: int) -> u64 {
    if n >= u64::MAX {
        u64::MAX
    } else {
        n as u64
    }
}

/// The rank of a node in a list: its first place counted from one, or one
/// more than the length of the list if it is not there.
pub open spec fn rank_in(list: Seq<u64>, id: u64) -> u64 {
    if exists|i: int| first_place(list, id, i) {
        as_rank((choose|i: int| first_place(list, id, i)) + 1)
    } else {
        as_rank(list.len() as int + 1)
    }
}

/// The nodes of both lists, those of the first list first, each with its
/// ranks in the two lists.
pub open spec fn fused(text: Seq<u64>, vector: Seq<u64>) -> Seq<RankPair> {
    let ids = first_seen(text + vector);
    Seq::new(
        ids.len(),
        |i: int|
            RankPair {
                node_id: ids[i],
                text_rank: rank_in(text, ids[i]),
                vector_rank: rank_in(vector, ids[i]),
            },
    )
}

/// Computes `rank_in`.
pub fn rank_of(list: &Vec<u64>, id: u64) -> (r: u64)
    ensures
        r == rank_in(list@, id),
{
    let mut i: usize = 0;
    while i < list.len()
        invariant
            i <= list@.len(),
            forall|j: int| 0 <= j < i ==> list@[j] != id,
        decreases list@.len() - i,
    {
        if list[i] == id {
            proof {
                assert(first_place(list@, id, i as int));
                let c = choose|c: int| first_place(list@, id, c);
                if c < i {
                    assert(list@[c] != id);
                } else if c > i {
                    assert(list@[i as int] != id);
                }
            }
            return if i as u64 >= u64::MAX - 1 { u64::MAX } else { i as u64 + 1 };
        }
        i += 1;
    }
    proof {
        if exists|c: int| first_place(list@, id, c) {
            let c = choose|c: int| first_place(list@, id, c);
            assert(list@[c] != id);
        }
    }
    if list.len() as u64 >= u64::MAX - 1 {
        u64::MAX
    } else {
        list.len() as u64 + 1
    }
}

/// Whether `id` is in the list.
fn has_id(list: &Vec<u64>, id: u64) -> (r: bool)
    ensures
        r == list@.contains(id),
{
    let mut i: usize = 0;
    while i < list.len()
        invariant
            i <= list@.len(),
            forall|j: int| 0 <= j < i ==> list@[j] != id,
        decreases list@.len() - i,
    {
        if list[i] == id {
            return true;
        }
        i += 1;
    }
    false
}

impl QueryEngine {
    /// Fuses two ranked lists of nodes: every node of either list once,
    /// those of the text list first, with its rank in each list.
    pub fn fuse_ranks(&self, text: &Vec<u64>, vector: &Vec<u64>) -> (r: Vec<RankPair>)
        ensures
            r@ == fused(text@, vector@),
    {
        let mut ids: Vec<u64> = Vec::new();
        let ghost all = text@ + vector@;
        let mut i: usize = 0;
        assert(all.take(0) =~= Seq::<u64>::empty());
        while i < text.len()
            invariant
                i <= text@.len(),
                all == text@ + vector@,
                ids@ == first_seen(all.take(i as int)),
            decreases text@.len() - i,
        {
            assert(all.take(i + 1).drop_last() =~= all.take(i as int));
            assert(all.take(i + 1).last() == text@[i as int]);
            if !has_id(&ids, text[i]) {
                ids.push(text[i]);
            }
            i += 1;
        }
        let n = text.len();
        let mut k: usize = 0;
        while k < vector.len()
            invariant
                k <= vector@.len(),
                n == text@.len(),
                all == text@ + vector@,
                ids@ == first_seen(all.take(n + k)),
            decreases vector@.len() - k,
        {
            assert(all.take(n + k + 1).drop_last() =~= all.take(n + k));
            assert(all.take(n + k + 1).last() == vector@[k as int]);
            if !has_id(&ids, vector[k]) {
                ids.push(vector[k]);
            }
            k += 1;
        }
        assert(all.take(n + k) =~= all);
        let mut out: Vec<RankPair> = Vec::new();
        let mut m: usize = 0;
        while m < ids.len()
            invariant
                m <= ids@.len(),
                ids@ == first_seen(text@ + vector@),
                out@.len() == m,
                forall|x: int|
                    0 <= x < m ==> out@[x] == (RankPair {
                        node_id: ids@[x],
                        text_rank: rank_in(text@, ids@[x]),
                        vector_rank: rank_in(vector@, ids@[x]),
                    }),
            decreases ids@.len() - m,
        {
            let id = ids[m];
            out.push(
                RankPair { node_id: id, text_rank: rank_of(text, id), vector_rank: rank_of(vector, id) },
            );
            m += 1;
        }
        assert(out@ =~= fused(text@, vector@));
        out
    }
}

} // verus!
