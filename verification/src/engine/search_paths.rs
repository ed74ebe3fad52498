//! The two paths of a text search agree: what is looked up in the indexes
//! of a graph is what a scan of its nodes finds.

use vstd::prelude::*;
use crate::engine::text_search::{after_postings, distinct_nodes, doc_freq, doc_freqs, hits_of,
    keep_posting, looked_up, passes, scanned, slot_at, with_hit, CandidateView, TermHit};
use crate::graph::{GraphView, MemoryGraph};
use crate::index::doc_lengths::{entry_in, expected_length, holds_lengths, lemma_expected_present};
use crate::index::term_index::{by_id, frequency, has_posting, Posting, TermIndex};
use crate::index::type_index::distinct_ids;
use crate::tokenizer::{capped, tokens};
use crate::types::{EventType, EventView};

verus! {

/// Whether the ids of the nodes ascend strictly.
pub open spec fn ids_ascend(nodes: Seq<EventView>) -> bool {
    forall|i: int, j: int|
        0 <= i < j < nodes.len() ==> (#[trigger] nodes[i]).id < (#[trigger] nodes[j]).id
}

/// The postings that the nodes give for a term, in the order of the nodes.
pub open spec fn postings_from(nodes: Seq<EventView>, term: Seq<char>) -> Seq<Posting>
    decreases nodes.len(),
{
    if nodes.len() == 0 {
        Seq::empty()
    } else if tokens(nodes.last().content).contains(term) {
        postings_from(nodes.drop_last(), term).push(
            Posting { node_id: nodes.last().id, term_freq: frequency(nodes.last(), term) },
        )
    } else {
        postings_from(nodes.drop_last(), term)
    }
}

/// The postings that nodes in order give are in order, stand for exactly
/// the nodes that have the term, and are as many as those nodes.
pub proof fn lemma_postings_from(nodes: Seq<EventView>, term: Seq<char>)
    requires
        ids_ascend(nodes),
    ensures
        by_id(postings_from(nodes, term)),
        forall|p: Posting| #[trigger]
            postings_from(nodes, term).contains(p) <==> has_posting(nodes, term, p),
        postings_from(nodes, term).len() == doc_freq(nodes, term),
    decreases nodes.len(),
{
    let out = postings_from(nodes, term);
    if nodes.len() > 0 {
        let rest = nodes.drop_last();
        let e = nodes.last();
        let before = postings_from(rest, term);
        assert(ids_ascend(rest)) by {
            assert forall|i: int, j: int| 0 <= i < j < rest.len() implies (#[trigger] rest[i]).id < (
            #[trigger] rest[j]).id by {
                assert(nodes[i].id < nodes[j].id);
            }
        }
        lemma_postings_from(rest, term);
        let own = Posting { node_id: e.id, term_freq: frequency(e, term) };
        assert forall|p: Posting| #[trigger] out.contains(p) <==> has_posting(nodes, term, p) by {
            if out.contains(p) {
                let k = choose|k: int| 0 <= k < out.len() && out[k] == p;
                if k < before.len() {
                    assert(before.contains(before[k]));
                    assert(has_posting(rest, term, p));
                    let i = choose|i: int|
                        0 <= i < rest.len() && (#[trigger] rest[i]).id == p.node_id && tokens(
                            rest[i].content,
                        ).contains(term) && p.term_freq == frequency(rest[i], term);
                    assert(nodes[i] == rest[i]);
                } else {
                    assert(p == own);
                    assert(nodes[nodes.len() - 1] == e);
                }
            }
            if has_posting(nodes, term, p) {
                let i = choose|i: int|
                    0 <= i < nodes.len() && (#[trigger] nodes[i]).id == p.node_id && tokens(
                        nodes[i].content,
                    ).contains(term) && p.term_freq == frequency(nodes[i], term);
                if i < rest.len() {
                    assert(rest[i] == nodes[i]);
                    assert(has_posting(rest, term, p));
                    assert(before.contains(p));
                    let k = choose|k: int| 0 <= k < before.len() && before[k] == p;
                    assert(out[k] == p);
                } else {
                    assert(out[before.len() as int] == p);
                }
            }
        }
        assert(by_id(out)) by {
            assert forall|a: int, b: int| 0 <= a < b < out.len() implies out[a].node_id
                < out[b].node_id by {
                if b < before.len() {
                    assert(before[a].node_id < before[b].node_id);
                } else {
                    assert(before.contains(before[a]));
                    assert(has_posting(rest, term, before[a]));
                    let i = choose|i: int|
                        0 <= i < rest.len() && (#[trigger] rest[i]).id == before[a].node_id;
                    assert(nodes[i].id < nodes[nodes.len() - 1].id);
                }
            }
        }
    }
}

/// Two sequences of postings in order that hold the same postings are the
/// same sequence.
pub proof fn lemma_ordered_postings_equal(a: Seq<Posting>, b: Seq<Posting>)
    requires
        by_id(a),
        by_id(b),
        forall|p: Posting| a.contains(p) <==> b.contains(p),
    ensures
        a == b,
    decreases a.len(),
{
    if a.len() == 0 {
        if b.len() > 0 {
            assert(b.contains(b[0]));
        }
        assert(a =~= b);
    } else {
        let x = a.last();
        assert(a.contains(x));
        let j = choose|j: int| 0 <= j < b.len() && b[j] == x;
        let y = b.last();
        assert(b.contains(y));
        let i = choose|i: int| 0 <= i < a.len() && a[i] == y;
        if i < a.len() - 1 {
            assert(a[i].node_id < a[a.len() - 1].node_id);
        }
        if j < b.len() - 1 {
            assert(b[j].node_id < b[b.len() - 1].node_id);
        }
        assert(x == y);
        let a0 = a.drop_last();
        let b0 = b.drop_last();
        assert forall|p: Posting| a0.contains(p) <==> b0.contains(p) by {
            if a0.contains(p) {
                let k = choose|k: int| 0 <= k < a0.len() && a0[k] == p;
                assert(a[k] == p);
                assert(a[k].node_id < a[a.len() - 1].node_id);
                assert(a.contains(p));
                let l = choose|l: int| 0 <= l < b.len() && b[l] == p;
                assert(l < b.len() - 1);
                assert(b0[l] == p);
            }
            if b0.contains(p) {
                let k = choose|k: int| 0 <= k < b0.len() && b0[k] == p;
                assert(b[k] == p);
                assert(b[k].node_id < b[b.len() - 1].node_id);
                assert(b.contains(p));
                let l = choose|l: int| 0 <= l < a.len() && a[l] == p;
                assert(l < a.len() - 1);
                assert(a0[l] == p);
            }
        }
        lemma_ordered_postings_equal(a0, b0);
        assert(a =~= a0.push(x));
        assert(b =~= b0.push(y));
    }
}

/// An index that records the nodes holds for each term the postings that
/// the nodes give for it, as many as there are nodes with the term.
pub proof fn lemma_postings_are_from_nodes(index: TermIndex, nodes: Seq<EventView>, term: Seq<char>)
    requires
        index.wf(),
        index.reflects(nodes),
        ids_ascend(nodes),
    ensures
        index.postings_of(term) == postings_from(nodes, term),
        index.postings_of(term).len() == doc_freq(nodes, term),
{
    lemma_postings_from(nodes, term);
    index.lemma_postings_ordered(term);
    let a = index.postings_of(term);
    let b = postings_from(nodes, term);
    assert forall|p: Posting| a.contains(p) <==> b.contains(p) by {
        assert(a.contains(p) <==> has_posting(nodes, term, p));
        assert(b.contains(p) <==> has_posting(nodes, term, p));
    }
    lemma_ordered_postings_equal(a, b);
}

/// Whether one of the first `m` postings is of the node.
pub open spec fn posted(postings: Seq<Posting>, m: int, id: u64) -> bool {
    exists|k: int| 0 <= k < m && k < postings.len() && (#[trigger] postings[k]).node_id == id
}

/// The hits of a node for the first `n` terms of the query, and for term
/// `n` too if one of the first `m` postings of that term is of the node.
pub open spec fn hits_so_far(
    e: EventView,
    query: Seq<Seq<char>>,
    dfs: Seq<usize>,
    n: int,
    postings: Seq<Posting>,
    m: int,
) -> Seq<TermHit> {
    if posted(postings, m, e.id) {
        hits_of(e, query, dfs, n).push(
            TermHit { term: n as usize, tf: frequency(e, query[n]), df: postings.len() as usize },
        )
    } else {
        hits_of(e, query, dfs, n)
    }
}

/// Whether the candidate is that of the node, with the hits given.
pub open spec fn stands_for(c: CandidateView, e: EventView, lengths: Seq<u32>, hits: Seq<TermHit>) -> bool {
    c.node_id == e.id && c.doc_len == entry_in(lengths, e.id) && c.hits == hits && hits.len() > 0
}

/// Whether the candidate is that of one of the nodes, with its hits so far.
pub open spec fn is_candidate(
    types: Seq<EventType>,
    sessions: Seq<u32>,
    nodes: Seq<EventView>,
    lengths: Seq<u32>,
    query: Seq<Seq<char>>,
    dfs: Seq<usize>,
    n: int,
    postings: Seq<Posting>,
    m: int,
    x: CandidateView,
) -> bool {
    exists|c: int|
        0 <= c < nodes.len() && passes(nodes[c], types, sessions) && #[trigger] stands_for(
            x,
            nodes[c],
            lengths,
            hits_so_far(nodes[c], query, dfs, n, postings, m),
        )
}

/// Whether the candidates are those of the nodes that have hits so far,
/// each once and with its hits so far.
pub open spec fn candidates_so_far(
    types: Seq<EventType>,
    sessions: Seq<u32>,
    nodes: Seq<EventView>,
    lengths: Seq<u32>,
    query: Seq<Seq<char>>,
    dfs: Seq<usize>,
    n: int,
    postings: Seq<Posting>,
    m: int,
    cands: Seq<CandidateView>,
) -> bool {
    &&& distinct_nodes(cands)
    &&& forall|i: int|
        0 <= i < cands.len() ==> #[trigger] is_candidate(types, sessions, nodes,
            lengths,
            query,
            dfs,
            n,
            postings,
            m,
            cands[i],
        )
    &&& forall|c: int|
        0 <= c < nodes.len() && passes(#[trigger] nodes[c], types, sessions) && hits_so_far(
            nodes[c],
            query,
            dfs,
            n,
            postings,
            m,
        ).len() > 0 ==> exists|i: int| slot_at(cands, nodes[c].id, i)
}

/// Taking the postings of a term one by one keeps the candidates those of
/// the nodes that have hits so far.
pub proof fn lemma_after_postings(
    g: GraphView,
    types: Seq<EventType>,
    sessions: Seq<u32>,
    lengths: Seq<u32>,
    query: Seq<Seq<char>>,
    dfs: Seq<usize>,
    n: int,
    m: int,
    start: Seq<CandidateView>,
)
    requires
        ids_ascend(g.nodes),
        0 <= n < query.len(),
        n <= usize::MAX,
        0 <= m <= postings_from(g.nodes, query[n]).len(),
        candidates_so_far(types, sessions, g.nodes, lengths, query, dfs, n, postings_from(g.nodes, query[n]), 0, start),
    ensures
        candidates_so_far(types, sessions, g.nodes,
            lengths,
            query,
            dfs,
            n,
            postings_from(g.nodes, query[n]),
            m,
            after_postings(
                start,
                g,
                types,
                sessions,
                lengths,
                postings_from(g.nodes, query[n]),
                n as usize,
                m,
            ),
        ),
    decreases m,
{
    let nodes = g.nodes;
    let term = query[n];
    let ps = postings_from(nodes, term);
    if m > 0 {
        lemma_after_postings(g, types, sessions, lengths, query, dfs, n, m - 1, start);
        lemma_postings_from(nodes, term);
        let prev = after_postings(start, g, types, sessions, lengths, ps, n as usize, m - 1);
        let next = after_postings(start, g, types, sessions, lengths, ps, n as usize, m);
        let p = ps[m - 1];
        let hit = TermHit { term: n as usize, tf: p.term_freq, df: ps.len() as usize };
        assert(ps.contains(p));
        assert(has_posting(nodes, term, p));
        let own = choose|i: int|
            0 <= i < nodes.len() && (#[trigger] nodes[i]).id == p.node_id && tokens(
                nodes[i].content,
            ).contains(term) && p.term_freq == frequency(nodes[i], term);
        let e = nodes[own];
        // No earlier posting is of this node, and this one is.
        assert(!posted(ps, m - 1, e.id)) by {
            if posted(ps, m - 1, e.id) {
                let k = choose|k: int|
                    0 <= k < m - 1 && k < ps.len() && (#[trigger] ps[k]).node_id == e.id;
                assert(ps[k].node_id < ps[m - 1].node_id);
            }
        }
        assert(posted(ps, m, e.id)) by {
            assert(ps[m - 1].node_id == e.id);
        }
        // For every other node nothing changes.
        assert forall|c: int| 0 <= c < nodes.len() && c != own implies posted(
            ps,
            m,
            (#[trigger] nodes[c]).id,
        ) == posted(ps, m - 1, nodes[c].id) by {
            if c < own {
                assert(nodes[c].id < nodes[own].id);
            } else {
                assert(nodes[own].id < nodes[c].id);
            }
            if posted(ps, m, nodes[c].id) {
                let k = choose|k: int|
                    0 <= k < m && k < ps.len() && (#[trigger] ps[k]).node_id == nodes[c].id;
                assert(k != m - 1);
                assert(ps[k].node_id == nodes[c].id);
            }
            if posted(ps, m - 1, nodes[c].id) {
                let k = choose|k: int|
                    0 <= k < m - 1 && k < ps.len() && (#[trigger] ps[k]).node_id == nodes[c].id;
                assert(ps[k].node_id == nodes[c].id);
            }
        }
        let before = hits_so_far(e, query, dfs, n, ps, m - 1);
        let after = hits_so_far(e, query, dfs, n, ps, m);
        assert(before == hits_of(e, query, dfs, n));
        assert(after == before.push(hit));
        assert(g.has_node(p.node_id) && g.node(p.node_id) == e) by {
            assert(nodes[own].id == p.node_id);
            let at = g.index_of(p.node_id);
            if at < own {
                assert(nodes[at].id < nodes[own].id);
            } else if own < at {
                assert(nodes[own].id < nodes[at].id);
            }
        }
        assert(keep_posting(g, types, sessions, p) == passes(e, types, sessions));
        if !passes(e, types, sessions) {
            assert(next == prev);
            assert forall|i: int| 0 <= i < next.len() implies #[trigger] is_candidate(
                types,
                sessions,
                nodes,
                lengths,
                query,
                dfs,
                n,
                ps,
                m,
                next[i],
            ) by {
                assert(is_candidate(types, sessions, nodes, lengths, query, dfs, n, ps, m - 1, prev[i]));
                let c = choose|c: int|
                    0 <= c < nodes.len() && passes(nodes[c], types, sessions) && #[trigger] stands_for(
                        prev[i],
                        nodes[c],
                        lengths,
                        hits_so_far(nodes[c], query, dfs, n, ps, m - 1),
                    );
                assert(c != own);
                assert(posted(ps, m, nodes[c].id) == posted(ps, m - 1, nodes[c].id));
                assert(stands_for(
                    next[i],
                    nodes[c],
                    lengths,
                    hits_so_far(nodes[c], query, dfs, n, ps, m),
                ));
            }
            assert forall|c: int|
                0 <= c < nodes.len() && passes(#[trigger] nodes[c], types, sessions) && hits_so_far(
                    nodes[c],
                    query,
                    dfs,
                    n,
                    ps,
                    m,
                ).len() > 0 implies exists|i: int| slot_at(next, nodes[c].id, i) by {
                assert(c != own);
                assert(posted(ps, m, nodes[c].id) == posted(ps, m - 1, nodes[c].id));
                let i = choose|i: int| slot_at(prev, nodes[c].id, i);
                assert(slot_at(next, nodes[c].id, i));
            }
        } else if exists|i: int| slot_at(prev, p.node_id, i) {
            assert(next == with_hit(prev, p.node_id, entry_in(lengths, p.node_id), hit));
            let at = choose|i: int| slot_at(prev, p.node_id, i);
            let changed = CandidateView { hits: prev[at].hits.push(hit), ..prev[at] };
            assert(next == prev.update(at, changed));
            assert(is_candidate(types, sessions, nodes, lengths, query, dfs, n, ps, m - 1, prev[at]));
            let c0 = choose|c: int|
                0 <= c < nodes.len() && passes(nodes[c], types, sessions) && #[trigger] stands_for(
                    prev[at],
                    nodes[c],
                    lengths,
                    hits_so_far(nodes[c], query, dfs, n, ps, m - 1),
                );
            assert(c0 == own) by {
                if c0 < own {
                    assert(nodes[c0].id < nodes[own].id);
                } else if c0 > own {
                    assert(nodes[own].id < nodes[c0].id);
                }
            }
            assert(distinct_nodes(next)) by {
                assert forall|a: int, b: int| 0 <= a < b < next.len() implies (
                #[trigger] next[a]).node_id != (#[trigger] next[b]).node_id by {
                    assert(prev[a].node_id != prev[b].node_id);
                }
            }
            assert forall|i: int| 0 <= i < next.len() implies #[trigger] is_candidate(types, sessions, nodes,
                lengths,
                query,
                dfs,
                n,
                ps,
                m,
                next[i],
            ) by {
                if i == at {
                    assert(stands_for(next[i], nodes[own], lengths, after));
                } else {
                    assert(is_candidate(types, sessions, nodes, lengths, query, dfs, n, ps, m - 1, prev[i]));
                    let c = choose|c: int|
                        0 <= c < nodes.len() && passes(nodes[c], types, sessions) && #[trigger] stands_for(
                            prev[i],
                            nodes[c],
                            lengths,
                            hits_so_far(nodes[c], query, dfs, n, ps, m - 1),
                        );
                    assert(prev[i].node_id != prev[at].node_id);
                    assert(c != own);
                    assert(posted(ps, m, nodes[c].id) == posted(ps, m - 1, nodes[c].id));
                    assert(stands_for(
                        next[i],
                        nodes[c],
                        lengths,
                        hits_so_far(nodes[c], query, dfs, n, ps, m),
                    ));
                }
            }
            assert forall|c: int|
                0 <= c < nodes.len() && passes(#[trigger] nodes[c], types, sessions) && hits_so_far(
                    nodes[c],
                    query,
                    dfs,
                    n,
                    ps,
                    m,
                ).len() > 0 implies exists|i: int| slot_at(next, nodes[c].id, i) by {
                if c == own {
                    assert(slot_at(next, nodes[c].id, at));
                } else {
                    assert(posted(ps, m, nodes[c].id) == posted(ps, m - 1, nodes[c].id));
                    let i = choose|i: int| slot_at(prev, nodes[c].id, i);
                    assert(slot_at(next, nodes[c].id, i));
                }
            }
        } else {
            assert(next == with_hit(prev, p.node_id, entry_in(lengths, p.node_id), hit));
            let added = CandidateView {
                node_id: p.node_id,
                doc_len: entry_in(lengths, p.node_id),
                hits: seq![hit],
            };
            assert(next == prev.push(added));
            assert(before.len() == 0) by {
                if before.len() > 0 {
                    let i = choose|i: int| slot_at(prev, nodes[own].id, i);
                    assert(slot_at(prev, p.node_id, i));
                }
            }
            assert(after =~= seq![hit]);
            assert(distinct_nodes(next)) by {
                assert forall|a: int, b: int| 0 <= a < b < next.len() implies (
                #[trigger] next[a]).node_id != (#[trigger] next[b]).node_id by {
                    if b < prev.len() {
                        assert(prev[a].node_id != prev[b].node_id);
                    } else {
                        assert(!slot_at(prev, p.node_id, a));
                    }
                }
            }
            assert forall|i: int| 0 <= i < next.len() implies #[trigger] is_candidate(types, sessions, nodes,
                lengths,
                query,
                dfs,
                n,
                ps,
                m,
                next[i],
            ) by {
                if i == prev.len() {
                    assert(stands_for(next[i], nodes[own], lengths, after));
                } else {
                    assert(is_candidate(types, sessions, nodes, lengths, query, dfs, n, ps, m - 1, prev[i]));
                    let c = choose|c: int|
                        0 <= c < nodes.len() && passes(nodes[c], types, sessions) && #[trigger] stands_for(
                            prev[i],
                            nodes[c],
                            lengths,
                            hits_so_far(nodes[c], query, dfs, n, ps, m - 1),
                        );
                    assert(!slot_at(prev, p.node_id, i));
                    assert(c != own);
                    assert(posted(ps, m, nodes[c].id) == posted(ps, m - 1, nodes[c].id));
                    assert(stands_for(
                        next[i],
                        nodes[c],
                        lengths,
                        hits_so_far(nodes[c], query, dfs, n, ps, m),
                    ));
                }
            }
            assert forall|c: int|
                0 <= c < nodes.len() && passes(#[trigger] nodes[c], types, sessions) && hits_so_far(
                    nodes[c],
                    query,
                    dfs,
                    n,
                    ps,
                    m,
                ).len() > 0 implies exists|i: int| slot_at(next, nodes[c].id, i) by {
                if c == own {
                    assert(slot_at(next, nodes[c].id, prev.len() as int));
                } else {
                    assert(posted(ps, m, nodes[c].id) == posted(ps, m - 1, nodes[c].id));
                    let i = choose|i: int| slot_at(prev, nodes[c].id, i);
                    assert(slot_at(next, nodes[c].id, i));
                }
            }
        }
    }
}

/// One of the postings that the nodes give for a term is of a node exactly
/// when the node has the term.
pub proof fn lemma_posted(nodes: Seq<EventView>, term: Seq<char>, c: int)
    requires
        ids_ascend(nodes),
        0 <= c < nodes.len(),
    ensures
        posted(postings_from(nodes, term), postings_from(nodes, term).len() as int, nodes[c].id)
            <==> tokens(nodes[c].content).contains(term),
{
    let ps = postings_from(nodes, term);
    lemma_postings_from(nodes, term);
    if posted(ps, ps.len() as int, nodes[c].id) {
        let k = choose|k: int|
            0 <= k < ps.len() && k < ps.len() && (#[trigger] ps[k]).node_id == nodes[c].id;
        assert(ps.contains(ps[k]));
        assert(has_posting(nodes, term, ps[k]));
        let i = choose|i: int|
            0 <= i < nodes.len() && (#[trigger] nodes[i]).id == ps[k].node_id && tokens(
                nodes[i].content,
            ).contains(term) && ps[k].term_freq == frequency(nodes[i], term);
        if i < c {
            assert(nodes[i].id < nodes[c].id);
        } else if c < i {
            assert(nodes[c].id < nodes[i].id);
        }
    }
    if tokens(nodes[c].content).contains(term) {
        let p = Posting { node_id: nodes[c].id, term_freq: frequency(nodes[c], term) };
        assert(has_posting(nodes, term, p));
        assert(ps.contains(p));
        let k = choose|k: int| 0 <= k < ps.len() && ps[k] == p;
        assert(ps[k].node_id == nodes[c].id);
    }
}

/// What is looked up for the first `n` terms of a query, in an index that
/// records the nodes, are the candidates of the nodes that pass the
/// filters and have one of those terms, each once and with its hits.
pub proof fn lemma_looked_up(
    g: GraphView,
    index: TermIndex,
    types: Seq<EventType>,
    sessions: Seq<u32>,
    lengths: Seq<u32>,
    query: Seq<Seq<char>>,
    n: int,
)
    requires
        ids_ascend(g.nodes),
        index.wf(),
        index.reflects(g.nodes),
        0 <= n <= query.len() <= usize::MAX,
    ensures
        candidates_so_far(types, sessions, g.nodes,
            lengths,
            query,
            doc_freqs(g.nodes, query),
            n,
            Seq::<Posting>::empty(),
            0,
            looked_up(
                g,
                index,
                lengths,
                types,
                sessions,
                query,
                n,
            ),
        ),
    decreases n,
{
    let nodes = g.nodes;
    let none_p = Seq::<Posting>::empty();
    let dfs = doc_freqs(nodes, query);
    let found = looked_up(g, index, lengths, types, sessions, query, n);
    if n > 0 {
        lemma_looked_up(g, index, types, sessions, lengths, query, n - 1);
        let term = query[n - 1];
        let ps = postings_from(nodes, term);
        lemma_postings_are_from_nodes(index, nodes, term);
        lemma_postings_from(nodes, term);
        let start = looked_up(g, index, lengths, types, sessions, query, n - 1);
        assert forall|c: int| 0 <= c < nodes.len() implies hits_so_far(
            #[trigger] nodes[c],
            query,
            dfs,
            n - 1,
            ps,
            0,
        ) == hits_so_far(nodes[c], query, dfs, n - 1, none_p, 0) by {}
        assert(candidates_so_far(types, sessions, nodes, lengths, query, dfs, n - 1, ps, 0, start)) by {
            assert forall|i: int| 0 <= i < start.len() implies #[trigger] is_candidate(types, sessions, nodes,
                lengths,
                query,
                dfs,
                n - 1,
                ps,
                0,
                start[i],
            ) by {
                assert(is_candidate(types, sessions, nodes, lengths, query, dfs, n - 1, none_p, 0, start[i]));
                let c = choose|c: int|
                    0 <= c < nodes.len() && passes(nodes[c], types, sessions) && #[trigger] stands_for(
                        start[i],
                        nodes[c],
                        lengths,
                        hits_so_far(nodes[c], query, dfs, n - 1, none_p, 0),
                    );
                assert(stands_for(
                    start[i],
                    nodes[c],
                    lengths,
                    hits_so_far(nodes[c], query, dfs, n - 1, ps, 0),
                ));
            }
        }
        lemma_after_postings(g, types, sessions, lengths, query, dfs, n - 1, ps.len() as int, start);
        assert(found == after_postings(
            start,
            g,
            types,
            sessions,
            lengths,
            ps,
            (n - 1) as usize,
            ps.len() as int,
        ));
        assert forall|c: int| 0 <= c < nodes.len() implies hits_so_far(
            #[trigger] nodes[c],
            query,
            dfs,
            n - 1,
            ps,
            ps.len() as int,
        ) == hits_so_far(nodes[c], query, dfs, n, none_p, 0) by {
            lemma_posted(nodes, term, c);
            assert(dfs[n - 1] == ps.len() as usize);
        }
        assert forall|i: int| 0 <= i < found.len() implies #[trigger] is_candidate(types, sessions, nodes,
            lengths,
            query,
            dfs,
            n,
            none_p,
            0,
            found[i],
        ) by {
            assert(is_candidate(types, sessions, nodes, lengths, query, dfs, n - 1, ps, ps.len() as int, found[i]));
            let c = choose|c: int|
                0 <= c < nodes.len() && passes(nodes[c], types, sessions) && #[trigger] stands_for(
                    found[i],
                    nodes[c],
                    lengths,
                    hits_so_far(nodes[c], query, dfs, n - 1, ps, ps.len() as int),
                );
            assert(stands_for(
                found[i],
                nodes[c],
                lengths,
                hits_so_far(nodes[c], query, dfs, n, none_p, 0),
            ));
        }
    }
}

/// What a scan finds of a node: its id, its length, and its hits for the
/// whole query, of which there is at least one.
pub open spec fn found_by_scan(x: CandidateView, e: EventView, query: Seq<Seq<char>>, dfs: Seq<usize>) -> bool {
    x == (CandidateView {
        node_id: e.id,
        doc_len: capped(tokens(e.content).len()),
        hits: hits_of(e, query, dfs, query.len() as int),
    }) && x.hits.len() > 0
}

/// A scan finds exactly the candidates of the nodes that pass the filters
/// and have a term of the query.
pub proof fn lemma_scanned(
    nodes: Seq<EventView>,
    types: Seq<EventType>,
    sessions: Seq<u32>,
    query: Seq<Seq<char>>,
    dfs: Seq<usize>,
    x: CandidateView,
)
    ensures
        scanned(nodes, types, sessions, query, dfs).contains(x)
            <==> exists|c: int|
                0 <= c < nodes.len() && passes(nodes[c], types, sessions) && found_by_scan(
                    x,
                    #[trigger] nodes[c],
                    query,
                    dfs,
                ),
    decreases nodes.len(),
{
    let out = scanned(nodes, types, sessions, query, dfs);
    if nodes.len() > 0 {
        let rest = nodes.drop_last();
        let before = scanned(rest, types, sessions, query, dfs);
        lemma_scanned(rest, types, sessions, query, dfs, x);
        if out.contains(x) {
            let k = choose|k: int| 0 <= k < out.len() && out[k] == x;
            if k < before.len() {
                assert(before[k] == x);
                assert(before.contains(x));
                let c = choose|c: int|
                    0 <= c < rest.len() && passes(rest[c], types, sessions) && found_by_scan(
                        x,
                        #[trigger] rest[c],
                        query,
                        dfs,
                    );
                assert(found_by_scan(x, nodes[c], query, dfs));
            } else {
                assert(found_by_scan(x, nodes[nodes.len() - 1], query, dfs));
            }
        }
        if exists|c: int|
            0 <= c < nodes.len() && passes(nodes[c], types, sessions) && found_by_scan(
                x,
                #[trigger] nodes[c],
                query,
                dfs,
            ) {
            let c = choose|c: int|
                0 <= c < nodes.len() && passes(nodes[c], types, sessions) && found_by_scan(
                    x,
                    #[trigger] nodes[c],
                    query,
                    dfs,
                );
            if c < rest.len() {
                assert(found_by_scan(x, rest[c], query, dfs));
                assert(before.contains(x));
                let k = choose|k: int| 0 <= k < before.len() && before[k] == x;
                assert(out[k] == x);
            } else {
                assert(out[before.len() as int] == x);
            }
        }
    }
}

/// The two paths of a text search agree, whatever the filters. Where the
/// index records the nodes of the graph and the table holds their lengths,
/// what is looked up in the index and what a scan of the nodes finds are
/// the same candidates: the same nodes, each once, each with the same length
/// and the same hits, term by term, with the same frequencies.
pub proof fn lemma_paths_agree(
    g: GraphView,
    index: TermIndex,
    types: Seq<EventType>,
    sessions: Seq<u32>,
    lengths: Seq<u32>,
    query: Seq<Seq<char>>,
)
    requires
        g.wf(),
        index.wf(),
        index.reflects(g.nodes),
        holds_lengths(lengths, g.nodes),
        forall|i: int| 0 <= i < g.nodes.len() ==> (#[trigger] g.nodes[i]).id < usize::MAX,
        query.len() <= usize::MAX,
    ensures
        distinct_nodes(
            looked_up(
                g,
                index,
                lengths,
                types,
                sessions,
                query,
                query.len() as int,
            ),
        ),
        forall|x: CandidateView|
            looked_up(
                g,
                index,
                lengths,
                types,
                sessions,
                query,
                query.len() as int,
            ).contains(x) <==> scanned(
                g.nodes,
                types,
                sessions,
                query,
                doc_freqs(g.nodes, query),
            ).contains(x),
{
    let nodes = g.nodes;
    let none_p = Seq::<Posting>::empty();
    let dfs = doc_freqs(nodes, query);
    let n = query.len() as int;
    let fast = looked_up(g, index, lengths, types, sessions, query, n);
    let slow = scanned(nodes, types, sessions, query, dfs);
    assert(ids_ascend(nodes));
    assert(distinct_ids(nodes));
    lemma_looked_up(g, index, types, sessions, lengths, query, n);
    assert forall|c: int| 0 <= c < nodes.len() implies entry_in(lengths, (#[trigger] nodes[c]).id)
        == capped(tokens(nodes[c].content).len()) by {
        lemma_expected_present(nodes, c);
        assert(entry_in(lengths, nodes[c].id) == expected_length(nodes, nodes[c].id));
    }
    assert forall|x: CandidateView| fast.contains(x) <==> slow.contains(x) by {
        lemma_scanned(nodes, types, sessions, query, dfs, x);
        if fast.contains(x) {
            let i = choose|i: int| 0 <= i < fast.len() && fast[i] == x;
            assert(is_candidate(types, sessions, nodes, lengths, query, dfs, n, none_p, 0, fast[i]));
            let c = choose|c: int|
                0 <= c < nodes.len() && passes(nodes[c], types, sessions) && #[trigger] stands_for(
                    fast[i],
                    nodes[c],
                    lengths,
                    hits_so_far(nodes[c], query, dfs, n, none_p, 0),
                );
            assert(found_by_scan(x, nodes[c], query, dfs));
        }
        if slow.contains(x) {
            let c = choose|c: int|
                0 <= c < nodes.len() && passes(nodes[c], types, sessions) && found_by_scan(
                    x,
                    #[trigger] nodes[c],
                    query,
                    dfs,
                );
            assert(hits_so_far(nodes[c], query, dfs, n, none_p, 0).len() > 0);
            let i = choose|i: int| slot_at(fast, nodes[c].id, i);
            assert(is_candidate(types, sessions, nodes, lengths, query, dfs, n, none_p, 0, fast[i]));
            let d = choose|d: int|
                0 <= d < nodes.len() && passes(nodes[d], types, sessions) && #[trigger] stands_for(
                    fast[i],
                    nodes[d],
                    lengths,
                    hits_so_far(nodes[d], query, dfs, n, none_p, 0),
                );
            if d < c {
                assert(nodes[d].id < nodes[c].id);
            } else if c < d {
                assert(nodes[c].id < nodes[d].id);
            }
            assert(fast[i] == x);
        }
    }
}

/// For a graph with its own indexes the two paths agree, whatever the
/// filters: what is looked up in the graph's term index and what a scan of
/// its nodes finds are the same candidates, with the same document
/// frequencies, and the index counts as many documents as the graph has
/// nodes.
pub proof fn lemma_graph_paths_agree(
    graph: &MemoryGraph,
    types: Seq<EventType>,
    sessions: Seq<u32>,
    query: Seq<Seq<char>>,
)
    requires
        graph.wf(),
        graph.terms() is Some,
        graph.lengths() is Some,
        forall|i: int| 0 <= i < graph@.nodes.len() ==> (#[trigger] graph@.nodes[i]).id < usize::MAX,
        query.len() <= usize::MAX,
    ensures
        graph.terms()->0.documents() == graph@.nodes.len(),
        forall|x: CandidateView|
            looked_up(
                graph@,
                graph.terms()->0,
                graph.lengths()->0@,
                types,
                sessions,
                query,
                query.len() as int,
            ).contains(x) <==> scanned(
                graph@.nodes,
                types,
                sessions,
                query,
                doc_freqs(graph@.nodes, query),
            ).contains(x),
{
    graph.lemma_indexed();
    lemma_paths_agree(graph@, graph.terms()->0, types, sessions, graph.lengths()->0@, query);
}

} // verus!
