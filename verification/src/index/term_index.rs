//! The inverted index: for each term the nodes whose content has it, with
//! the number of times it occurs there.

use vstd::prelude::*;
use vstd::slice::slice_subrange;
use vstd::utf8::encode_utf8;
use vstd::utf8::{decode_utf8, valid_utf8};
use crate::graph::{event_views, MemoryGraph};
use crate::index::term_order::{comes_first, compare_terms, lemma_irreflexive, lemma_total,
    lemma_transitive, Standing};
use crate::index::type_index::distinct_ids;
use crate::text::chars_of;
use crate::text::utf8_text;
use crate::tokenizer::{capped, is_frequency_table, lemma_distinct_members,
    lemma_distinct_no_duplicates, occurrences, terms_of, texts, tokens, Tokenizer};
use crate::types::{CognitiveEvent, EventView};
use crate::wire::{le16, le32, le64, lemma_le, lemma_window, put_bytes, put_u16, put_u32, put_u64,
    read_u16, read_u32, read_u64, u16_at, u32_at, u64_at};

verus! {

/// A node that has a term, and how often.
#[derive(Clone, Copy, Debug, PartialEq, Eq, Structural)]
pub struct Posting {
    pub node_id: u64,
    pub term_freq: u32,
}

/// A term and the nodes that have it.
pub struct TermEntry {
    pub term: String,
    /// In ascending order of node id.
    pub postings: Vec<Posting>,
}

/// Whether the postings ascend strictly by node id.
pub open spec fn by_id(s: Seq<Posting>) -> bool {
    forall|i: int, j: int| 0 <= i < j < s.len() ==> s[i].node_id < s[j].node_id
}

/// How often a term occurs in the content of a node, as an index holds it.
pub open spec fn frequency(e: EventView, term: Seq<char>) -> u32 {
    capped(occurrences(tokens(e.content), term))
}

/// Whether the posting stands for one of the nodes: the node has the term,
/// as often as the posting says.
pub open spec fn has_posting(nodes: Seq<EventView>, term: Seq<char>, p: Posting) -> bool {
    exists|i: int|
        0 <= i < nodes.len() && (#[trigger] nodes[i]).id == p.node_id && tokens(
            nodes[i].content,
        ).contains(term) && p.term_freq == frequency(nodes[i], term)
}

/// A document that the index knows: the id of the node and the number of
/// its tokens.
pub struct DocMark {
    pub id: u64,
    pub tokens: u64,
}

/// The inverted index.
pub struct TermIndex {
    entries: Vec<TermEntry>,
    docs: Vec<DocMark>,
    doc_count: u64,
    total_tokens: u64,
    avg_doc_length: u32,
}

/// Whether one of the nodes has the id.
pub open spec fn has_id(nodes: Seq<EventView>, id: u64) -> bool {
    exists|j: int| 0 <= j < nodes.len() && (#[trigger] nodes[j]).id == id
}

/// Whether mark `i` is the mark of the document.
pub open spec fn mark_in(docs: Seq<DocMark>, id: u64, i: int) -> bool {
    0 <= i < docs.len() && docs[i].id == id
}

/// Whether one of the postings before posting `b` of entry `a` is of the
/// node.
pub open spec fn mentioned_before(entries: Seq<EntryView>, a: int, b: int, id: u64) -> bool {
    exists|k: int, j: int|
        0 <= k < entries.len() && 0 <= j < entries[k].postings.len() && (k < a || (k == a && j
            < b)) && (#[trigger] entries[k].postings[j]).node_id == id
}

/// Whether one of the postings of the entries is of the node.
pub open spec fn mentioned(entries: Seq<EntryView>, id: u64) -> bool {
    mentioned_before(entries, entries.len() as int, 0, id)
}

/// Whether a document is among the marks.
pub open spec fn has_mark(docs: Seq<DocMark>, id: u64) -> bool {
    exists|i: int| mark_in(docs, id, i)
}

/// Whether the marks are of different documents and none records tokens.
pub open spec fn bare_marks(docs: Seq<DocMark>) -> bool {
    &&& forall|a: int, b: int|
        0 <= a < b < docs.len() ==> (#[trigger] docs[a]).id != (#[trigger] docs[b]).id
    &&& forall|i: int| 0 <= i < docs.len() ==> (#[trigger] docs[i]).tokens == 0
}

/// Decides `has_mark`.
fn is_marked(docs: &Vec<DocMark>, id: u64) -> (r: bool)
    ensures
        r == has_mark(docs@, id),
{
    let mut i: usize = 0;
    while i < docs.len()
        invariant
            i <= docs@.len(),
            forall|j: int| 0 <= j < i ==> !mark_in(docs@, id, j),
        decreases docs@.len() - i,
    {
        if docs[i].id == id {
            assert(mark_in(docs@, id, i as int));
            return true;
        }
        i += 1;
    }
    false
}

/// The marks of the documents that the postings of the entries are of,
/// with no tokens recorded.
fn marks_of(entries: &Vec<TermEntry>) -> (docs: Vec<DocMark>)
    ensures
        bare_marks(docs@),
        forall|id: u64|
            #[trigger] has_mark(docs@, id) <==> mentioned(entry_views(entries@), id),
{
    let ghost views = entry_views(entries@);
    let mut docs: Vec<DocMark> = Vec::new();
    let mut a: usize = 0;
    while a < entries.len()
        invariant
            a <= entries@.len(),
            views == entry_views(entries@),
            bare_marks(docs@),
            forall|id: u64|
                #[trigger] has_mark(docs@, id) <==> mentioned_before(views, a as int, 0, id),
        decreases entries@.len() - a,
    {
        let list = &entries[a].postings;
        assert(views[a as int].postings == list@);
        let mut b: usize = 0;
        while b < list.len()
            invariant
                a < entries@.len(),
                b <= list@.len(),
                views == entry_views(entries@),
                views[a as int].postings == list@,
                bare_marks(docs@),
                forall|id: u64|
                    #[trigger] has_mark(docs@, id) <==> mentioned_before(
                        views,
                        a as int,
                        b as int,
                        id,
                    ),
            decreases list@.len() - b,
        {
            let id = list[b].node_id;
            let ghost before = docs@;
            let known = is_marked(&docs, id);
            if !known {
                docs.push(DocMark { id, tokens: 0 });
            }
            proof {
                assert forall|x: u64|
                    #[trigger] has_mark(docs@, x) <==> mentioned_before(
                        views,
                        a as int,
                        b + 1,
                        x,
                    ) by {
                    if has_mark(docs@, x) {
                        let i = choose|i: int| mark_in(docs@, x, i);
                        if i < before.len() {
                            assert(mark_in(before, x, i));
                            assert(has_mark(before, x));
                            assert(mentioned_before(views, a as int, b as int, x));
                            let (k, j) = choose|k: int, j: int|
                                0 <= k < views.len() && 0 <= j < views[k].postings.len() && (k
                                    < a || (k == a && j < b)) && (
                                #[trigger] views[k].postings[j]).node_id == x;
                            assert(views[k].postings[j].node_id == x);
                        } else {
                            assert(x == id);
                            assert(views[a as int].postings[b as int].node_id == x);
                        }
                    }
                    if mentioned_before(views, a as int, b + 1, x) {
                        let (k, j) = choose|k: int, j: int|
                            0 <= k < views.len() && 0 <= j < views[k].postings.len() && (k < a || (k
                                == a && j < b + 1)) && (#[trigger] views[k].postings[j]).node_id
                                == x;
                        if k == a && j == b {
                            assert(x == id);
                            if known {
                                assert(has_mark(before, id));
                                let i = choose|i: int| mark_in(before, id, i);
                                assert(mark_in(docs@, id, i));
                            } else {
                                assert(mark_in(docs@, id, before.len() as int));
                            }
                        } else {
                            assert(views[k].postings[j].node_id == x);
                            assert(mentioned_before(views, a as int, b as int, x));
                            assert(has_mark(before, x));
                            let i = choose|i: int| mark_in(before, x, i);
                            assert(mark_in(docs@, x, i));
                        }
                    }
                }
                assert(bare_marks(docs@)) by {
                    if !known {
                        assert forall|p: int, q: int| 0 <= p < q < docs@.len() implies (
                        #[trigger] docs@[p]).id != (#[trigger] docs@[q]).id by {
                            if q < before.len() {
                                assert(before[p].id != before[q].id);
                            } else {
                                assert(!mark_in(before, id, p));
                            }
                        }
                    }
                }
            }
            b += 1;
        }
        proof {
            assert forall|x: u64|
                mentioned_before(views, a as int, list@.len() as int, x) <==> mentioned_before(
                    views,
                    a + 1,
                    0,
                    x,
                ) by {
                if mentioned_before(views, a as int, list@.len() as int, x) {
                    let (k, j) = choose|k: int, j: int|
                        0 <= k < views.len() && 0 <= j < views[k].postings.len() && (k < a || (k
                            == a && j < list@.len())) && (#[trigger] views[k].postings[j]).node_id
                            == x;
                    assert(views[k].postings[j].node_id == x);
                }
                if mentioned_before(views, a + 1, 0, x) {
                    let (k, j) = choose|k: int, j: int|
                        0 <= k < views.len() && 0 <= j < views[k].postings.len() && (k < a + 1 || (k
                            == a + 1 && j < 0)) && (#[trigger] views[k].postings[j]).node_id == x;
                    assert(views[k].postings[j].node_id == x);
                }
            }
        }
        a += 1;
    }
    docs
}

/// A number of tokens as the index counts it: not above the largest `u64`.
pub open spec fn capped_tokens(n: nat) -> u64 {
    if n >= u64::MAX {
        u64::MAX
    } else {
        n as u64
    }
}

/// The number of tokens of all the nodes.
pub open spec fn token_total(nodes: Seq<EventView>) -> nat
    decreases nodes.len(),
{
    if nodes.len() == 0 {
        0
    } else {
        token_total(nodes.drop_last()) + tokens(nodes.last().content).len()
    }
}

/// A count of documents with one more, not above the largest `u64`.
pub open spec fn one_more(n: u64) -> u64 {
    if n < u64::MAX {
        (n + 1) as u64
    } else {
        u64::MAX
    }
}

/// A count of documents with one fewer, not below zero.
pub open spec fn one_fewer(n: u64) -> u64 {
    if n > 0 {
        (n - 1) as u64
    } else {
        0
    }
}

/// A total without a part of it, not below zero.
pub open spec fn without(total: u64, part: u64) -> u64 {
    if total >= part {
        (total - part) as u64
    } else {
        0
    }
}

/// A total with a part added, not above the largest `u64`.
pub open spec fn with_part(total: u64, part: u64) -> u64 {
    if total + part >= u64::MAX {
        u64::MAX
    } else {
        (total + part) as u64
    }
}

/// Puts a posting into a list at its place; a posting of the same node is
/// replaced.
fn put_posting(list: &mut Vec<Posting>, p: Posting)
    requires
        by_id(old(list)@),
    ensures
        by_id(final(list)@),
        forall|q: Posting| #[trigger]
            final(list)@.contains(q) <==> (old(list)@.contains(q) && q.node_id != p.node_id) || q
                == p,
{
    let ghost before = list@;
    let mut lo: usize = 0;
    let mut hi: usize = list.len();
    while lo < hi
        invariant
            lo <= hi <= list@.len(),
            list@ == before,
            by_id(before),
            forall|i: int| 0 <= i < lo ==> before[i].node_id < p.node_id,
            forall|i: int| hi <= i < before.len() ==> before[i].node_id >= p.node_id,
        decreases hi - lo,
    {
        let mid = lo + (hi - lo) / 2;
        if list[mid].node_id < p.node_id {
            lo = mid + 1;
        } else {
            hi = mid;
        }
    }
    let pos = lo;
    if pos < list.len() && list[pos].node_id == p.node_id {
        list.set(pos, p);
        proof {
            let after = list@;
            assert forall|i: int, j: int| 0 <= i < j < after.len() implies after[i].node_id
                < after[j].node_id by {
                assert(before[i].node_id < before[j].node_id);
            }
            assert forall|q: Posting| #[trigger]
                after.contains(q) <==> (before.contains(q) && q.node_id != p.node_id) || q == p by {
                if after.contains(q) {
                    let i = choose|i: int| 0 <= i < after.len() && after[i] == q;
                    if i != pos {
                        assert(before[i] == q);
                        if i < pos {
                            assert(before[i].node_id < before[pos as int].node_id);
                        } else {
                            assert(before[pos as int].node_id < before[i].node_id);
                        }
                    }
                }
                if before.contains(q) && q.node_id != p.node_id {
                    let i = choose|i: int| 0 <= i < before.len() && before[i] == q;
                    assert(after[i] == q);
                }
                if q == p {
                    assert(after[pos as int] == p);
                }
            }
        }
        return;
    }
    list.insert(pos, p);
    proof {
        let after = list@;
        assert forall|i: int, j: int| 0 <= i < j < after.len() implies after[i].node_id
            < after[j].node_id by {
            let a = if i < pos { i } else { i - 1 };
            let b = if j < pos { j } else { j - 1 };
            if i != pos && j != pos {
                assert(before[a].node_id < before[b].node_id);
            } else if i == pos {
                assert(after[j] == before[j - 1]);
                if j - 1 > pos {
                    assert(before[pos as int].node_id < before[j - 1].node_id);
                }
            } else {
                assert(after[i] == before[i]);
            }
        }
        assert forall|q: Posting| #[trigger]
            after.contains(q) <==> (before.contains(q) && q.node_id != p.node_id) || q == p by {
            if after.contains(q) {
                let i = choose|i: int| 0 <= i < after.len() && after[i] == q;
                if i < pos {
                    assert(before[i] == q);
                } else if i > pos {
                    assert(before[i - 1] == q);
                    if i - 1 > pos {
                        assert(before[pos as int].node_id < before[i - 1].node_id);
                    }
                }
            }
            if before.contains(q) && q.node_id != p.node_id {
                let i = choose|i: int| 0 <= i < before.len() && before[i] == q;
                if i < pos {
                    assert(after[i] == q);
                } else {
                    assert(after[i + 1] == q);
                }
            }
            if q == p {
                assert(after[pos as int] == p);
            }
        }
    }
}

/// Takes the posting of a node out of a list.
fn drop_posting(list: &mut Vec<Posting>, id: u64)
    requires
        by_id(old(list)@),
    ensures
        by_id(final(list)@),
        forall|q: Posting| #[trigger]
            final(list)@.contains(q) <==> old(list)@.contains(q) && q.node_id != id,
{
    let ghost before = list@;
    let mut k: usize = 0;
    while k < list.len()
        invariant
            k <= list@.len(),
            list@ == before,
            before == old(list)@,
            by_id(before),
            forall|i: int| 0 <= i < k ==> (#[trigger] before[i]).node_id != id,
        decreases list@.len() - k,
    {
        if list[k].node_id == id {
            list.remove(k);
            proof {
                let after = list@;
                assert forall|i: int, j: int| 0 <= i < j < after.len() implies after[i].node_id
                    < after[j].node_id by {
                    let a = if i < k { i } else { i + 1 };
                    let b = if j < k { j } else { j + 1 };
                    assert(before[a].node_id < before[b].node_id);
                }
                assert forall|q: Posting| #[trigger]
                    after.contains(q) <==> before.contains(q) && q.node_id != id by {
                    if after.contains(q) {
                        let i = choose|i: int| 0 <= i < after.len() && after[i] == q;
                        let a = if i < k { i } else { i + 1 };
                        assert(before[a] == q);
                        assert(before.contains(q));
                        if a > k {
                            assert(before[k as int].node_id < before[a].node_id);
                        } else {
                            assert(before[a].node_id != id);
                        }
                    }
                    if before.contains(q) && q.node_id != id {
                        let i = choose|i: int| 0 <= i < before.len() && before[i] == q;
                        if i < k {
                            assert(after[i] == q);
                        } else {
                            assert(after[i - 1] == q);
                        }
                    }
                }
            }
            return;
        }
        k += 1;
    }
    proof {
        assert forall|q: Posting| #[trigger] before.contains(q) implies q.node_id != id by {
            let i = choose|i: int| 0 <= i < before.len() && before[i] == q;
        }
    }
}

/// Whether entry `k` is the entry of the term.
pub open spec fn entry_at(entries: Seq<TermEntry>, term: Seq<char>, k: int) -> bool {
    0 <= k < entries.len() && entries[k].term@ == term
}

/// The postings that the entries hold for a term.
pub open spec fn find_postings(entries: Seq<TermEntry>, term: Seq<char>) -> Seq<Posting> {
    if exists|k: int| entry_at(entries, term, k) {
        entries[choose|k: int| entry_at(entries, term, k)].postings@
    } else {
        Seq::empty()
    }
}

/// The bytes of a posting.
pub open spec fn posting_bytes(p: Posting) -> Seq<u8> {
    le64(p.node_id) + le32(p.term_freq)
}

/// The bytes of a list of postings.
pub open spec fn postings_bytes(s: Seq<Posting>) -> Seq<u8>
    decreases s.len(),
{
    if s.len() == 0 {
        Seq::empty()
    } else {
        postings_bytes(s.drop_last()) + posting_bytes(s.last())
    }
}

/// The bytes of an entry: the length of the term in bytes, the term in
/// UTF-8, the number of postings, and the postings.
pub open spec fn entry_bytes(term: Seq<char>, postings: Seq<Posting>) -> Seq<u8> {
    le16(encode_utf8(term).len() as u16) + encode_utf8(term) + le32(postings.len() as u32)
        + postings_bytes(postings)
}

/// A term with its postings.
pub struct EntryView {
    pub term: Seq<char>,
    pub postings: Seq<Posting>,
}

/// The views of a sequence of entries.
pub open spec fn entry_views(entries: Seq<TermEntry>) -> Seq<EntryView> {
    Seq::new(entries.len(), |i: int| EntryView { term: entries[i].term@, postings: entries[i].postings@ })
}

/// The bytes of a sequence of entries.
pub open spec fn entries_bytes(entries: Seq<EntryView>) -> Seq<u8>
    decreases entries.len(),
{
    if entries.len() == 0 {
        Seq::empty()
    } else {
        entry_bytes(entries[0].term, entries[0].postings) + entries_bytes(entries.skip(1))
    }
}

/// The bytes of a sequence of entries with one more entry at the end.
pub proof fn lemma_entries_bytes_push(entries: Seq<EntryView>, e: EntryView)
    ensures
        entries_bytes(entries.push(e)) == entries_bytes(entries) + entry_bytes(e.term, e.postings),
    decreases entries.len(),
{
    let more = entries.push(e);
    if entries.len() == 0 {
        assert(more.skip(1) =~= Seq::<EntryView>::empty());
        assert(more[0] == e);
        assert(entries_bytes(more.skip(1)) =~= Seq::<u8>::empty());
        assert(entries_bytes(more) == entry_bytes(more[0].term, more[0].postings) + entries_bytes(
            more.skip(1),
        ));
        assert(entries_bytes(more) =~= entry_bytes(e.term, e.postings));
        assert(entries_bytes(entries) + entry_bytes(e.term, e.postings) =~= entry_bytes(
            e.term,
            e.postings,
        ));
    } else {
        assert(more.skip(1) =~= entries.skip(1).push(e));
        lemma_entries_bytes_push(entries.skip(1), e);
        assert(more[0] == entries[0]);
        assert(entries_bytes(more) =~= entries_bytes(entries) + entry_bytes(e.term, e.postings));
    }
}

/// The posting whose record stands at `at`.
pub open spec fn posting_at(data: Seq<u8>, at: int) -> Posting {
    Posting { node_id: u64_at(data, at), term_freq: u32_at(data, at + 8) }
}

/// Where the entry at `at` ends, by the lengths that it names.
pub open spec fn entry_end(data: Seq<u8>, at: int) -> int {
    at + 2 + u16_at(data, at) + 4 + 12 * u32_at(data, at + 2 + u16_at(data, at))
}

/// The entry that stands at `at`, if a whole entry with a term that is
/// text stands there.
pub open spec fn entry_in(data: Seq<u8>, at: int) -> Option<EntryView> {
    if at + 2 > data.len() {
        None
    } else {
        let term_len = u16_at(data, at);
        if at + 2 + term_len + 4 > data.len() {
            None
        } else {
            let count = u32_at(data, at + 2 + term_len);
            let text = data.subrange(at + 2, at + 2 + term_len);
            if at + 2 + term_len + 4 + 12 * count > data.len() || !valid_utf8(text) {
                None
            } else {
                Some(
                    EntryView {
                        term: decode_utf8(text),
                        postings: Seq::new(
                            count as nat,
                            |i: int| posting_at(data, at + 2 + term_len + 4 + 12 * i),
                        ),
                    },
                )
            }
        }
    }
}

/// The `n` entries that stand in the data from `at` on, if there are.
pub open spec fn entries_in(data: Seq<u8>, at: int, n: nat) -> Option<Seq<EntryView>>
    decreases n,
{
    if n == 0 {
        Some(Seq::empty())
    } else {
        match entry_in(data, at) {
            None => None,
            Some(e) => match entries_in(data, entry_end(data, at), (n - 1) as nat) {
                None => None,
                Some(rest) => Some(seq![e] + rest),
            },
        }
    }
}

/// What serialized data holds of an index.
pub struct ParsedIndex {
    pub doc_count: u64,
    pub avg_doc_length: u32,
    pub entries: Seq<EntryView>,
}

/// What the data holds of an index, if it is long enough for its header
/// and for the entries that the header announces. Bytes after the last
/// entry are ignored.
pub open spec fn parsed(data: Seq<u8>) -> Option<ParsedIndex> {
    if data.len() < 16 {
        None
    } else {
        match entries_in(data, 16, u32_at(data, 12) as nat) {
            None => None,
            Some(entries) => Some(
                ParsedIndex { doc_count: u64_at(data, 0), avg_doc_length: u32_at(data, 8), entries },
            ),
        }
    }
}

/// Whether the terms of the entries ascend strictly, and the postings of
/// each entry by node id.
pub open spec fn entries_ordered(entries: Seq<EntryView>) -> bool {
    &&& forall|a: int, b: int|
        0 <= a < b < entries.len() ==> comes_first(
            (#[trigger] entries[a]).term,
            (#[trigger] entries[b]).term,
        )
    &&& forall|k: int| 0 <= k < entries.len() ==> by_id((#[trigger] entries[k]).postings)
}

/// The postings of a sequence of postings take 12 bytes each, and the
/// `i`-th stands at offset `12 * i`.
pub proof fn lemma_postings_bytes(s: Seq<Posting>)
    ensures
        postings_bytes(s).len() == 12 * s.len(),
        forall|i: int|
            0 <= i < s.len() ==> #[trigger] postings_bytes(s).subrange(12 * i, 12 * i + 12)
                == posting_bytes(s[i]),
    decreases s.len(),
{
    lemma_le();
    if s.len() > 0 {
        let p = s.drop_last();
        lemma_postings_bytes(p);
        let full = postings_bytes(s);
        assert forall|i: int| 0 <= i < s.len() implies #[trigger] full.subrange(12 * i, 12 * i + 12)
            == posting_bytes(s[i]) by {
            if i < p.len() {
                assert(full.subrange(12 * i, 12 * i + 12) =~= postings_bytes(p).subrange(
                    12 * i,
                    12 * i + 12,
                ));
                assert(p[i] == s[i]);
            } else {
                assert(full.subrange(12 * i, 12 * i + 12) =~= posting_bytes(s.last()));
            }
        }
    }
}

/// Where the record of an entry stands in the data, the entry is read
/// back.
pub proof fn lemma_entry_read_back(data: Seq<u8>, at: int, e: EntryView)
    requires
        0 <= at,
        encode_utf8(e.term).len() <= u16::MAX,
        e.postings.len() <= u32::MAX,
        at + entry_bytes(e.term, e.postings).len() <= data.len(),
        data.subrange(at, at + entry_bytes(e.term, e.postings).len()) == entry_bytes(
            e.term,
            e.postings,
        ),
    ensures
        entry_in(data, at) == Some(e),
        entry_end(data, at) == at + entry_bytes(e.term, e.postings).len(),
{
    lemma_le();
    lemma_postings_bytes(e.postings);
    let text = encode_utf8(e.term);
    let posts = postings_bytes(e.postings);
    let f1 = le16(text.len() as u16);
    let f3 = le32(e.postings.len() as u32);
    assert(entry_bytes(e.term, e.postings) =~= f1 + (text + (f3 + posts)));
    lemma_window(data, at, f1, text + (f3 + posts));
    lemma_window(data, at + 2, text, f3 + posts);
    lemma_window(data, at + 2 + text.len(), f3, posts);
    vstd::utf8::encode_utf8_valid_utf8(e.term);
    vstd::utf8::encode_utf8_decode_utf8(e.term);
    let term_len = u16_at(data, at);
    assert(term_len == text.len());
    let count = u32_at(data, at + 2 + term_len);
    assert(count == e.postings.len());
    let base = at + 2 + term_len + 4;
    let got = Seq::new(count as nat, |i: int| posting_at(data, base + 12 * i));
    assert forall|i: int| 0 <= i < e.postings.len() implies got[i] == e.postings[i] by {
        assert(data.subrange(base, base + posts.len()) == posts);
        assert(data.subrange(base + 12 * i, base + 12 * i + 12) =~= posts.subrange(
            12 * i,
            12 * i + 12,
        ));
        assert(posts.subrange(12 * i, 12 * i + 12) == posting_bytes(e.postings[i]));
        let a = le64(e.postings[i].node_id);
        let b = le32(e.postings[i].term_freq);
        lemma_window(data, base + 12 * i, a, b);
        assert(got[i] == posting_at(data, base + 12 * i));
    }
    assert(got =~= e.postings);
}

/// Where the records of a sequence of entries stand in the data, the
/// entries are read back.
pub proof fn lemma_entries_read_back(data: Seq<u8>, at: int, entries: Seq<EntryView>)
    requires
        0 <= at,
        at + entries_bytes(entries).len() <= data.len(),
        data.subrange(at, at + entries_bytes(entries).len()) == entries_bytes(entries),
        forall|i: int|
            0 <= i < entries.len() ==> encode_utf8((#[trigger] entries[i]).term).len() <= u16::MAX
                && entries[i].postings.len() <= u32::MAX,
    ensures
        entries_in(data, at, entries.len()) == Some(entries),
    decreases entries.len(),
{
    if entries.len() > 0 {
        let first = entries[0];
        let rest = entries.skip(1);
        let fb = entry_bytes(first.term, first.postings);
        lemma_window(data, at, fb, entries_bytes(rest));
        lemma_entry_read_back(data, at, first);
        assert forall|i: int| 0 <= i < rest.len() implies encode_utf8(
            (#[trigger] rest[i]).term,
        ).len() <= u16::MAX && rest[i].postings.len() <= u32::MAX by {
            assert(rest[i] == entries[i + 1]);
        }
        lemma_entries_read_back(data, at + fb.len(), rest);
        assert(seq![first] + rest =~= entries);
    }
}

/// Whether the lengths of an entry fit the fields of its record.
pub open spec fn entry_fits(e: TermEntry) -> bool {
    encode_utf8(e.term@).len() <= u16::MAX && e.postings@.len() <= u32::MAX
}

impl TermIndex {
    /// The postings of a term, in ascending order of node id.
    pub closed spec fn postings_of(&self, term: Seq<char>) -> Seq<Posting> {
        find_postings(self.entries@, term)
    }

    /// The number of documents added and not removed.
    pub closed spec fn documents(&self) -> u64 {
        self.doc_count
    }

    /// The number of terms that the index has an entry for.
    pub closed spec fn terms(&self) -> nat {
        self.entries@.len()
    }

    /// The average document length that the index was given.
    pub closed spec fn average(&self) -> u32 {
        self.avg_doc_length
    }

    /// The number of tokens of the documents added and not removed.
    pub closed spec fn tokens_total(&self) -> u64 {
        self.total_tokens
    }

    /// Whether the index knows the document: it was added and not removed.
    pub closed spec fn holds(&self, id: u64) -> bool {
        exists|i: int| mark_in(self.docs@, id, i)
    }

    /// The number of tokens that the index has recorded for a document;
    /// zero for a document that it does not know.
    pub closed spec fn recorded(&self, id: u64) -> u64 {
        if self.holds(id) {
            self.docs@[choose|i: int| mark_in(self.docs@, id, i)].tokens
        } else {
            0
        }
    }

    /// The terms ascend strictly, and so do the postings of each term.
    pub closed spec fn wf(&self) -> bool {
        &&& forall|a: int, b: int|
            0 <= a < b < self.entries@.len() ==> comes_first(
                (#[trigger] self.entries@[a]).term@,
                (#[trigger] self.entries@[b]).term@,
            )
        &&& forall|k: int| 0 <= k < self.entries@.len() ==> by_id((#[trigger] self.entries@[k]).postings@)
        &&& forall|a: int, b: int|
            0 <= a < b < self.docs@.len() ==> (#[trigger] self.docs@[a]).id != (
            #[trigger] self.docs@[b]).id
    }

    /// Whether the documents that the index knows are exactly the given
    /// nodes.
    pub open spec fn knows(&self, nodes: Seq<EventView>) -> bool {
        forall|id: u64| #[trigger] self.holds(id) <==> has_id(nodes, id)
    }

    /// Whether the index records exactly the given nodes.
    pub open spec fn reflects(&self, nodes: Seq<EventView>) -> bool {
        forall|term: Seq<char>, p: Posting|
            #![trigger self.postings_of(term).contains(p)]
            self.postings_of(term).contains(p) <==> has_posting(nodes, term, p)
    }

    /// The postings of a term are those of its entry, in order.
    proof fn lemma_postings(&self, term: Seq<char>, k: int)
        requires
            self.wf(),
            entry_at(self.entries@, term, k),
        ensures
            self.postings_of(term) == self.entries@[k].postings@,
            by_id(self.postings_of(term)),
    {
        let c = choose|c: int| entry_at(self.entries@, term, c);
        lemma_irreflexive(term);
        if c < k {
            assert(comes_first(self.entries@[c].term@, self.entries@[k].term@));
        } else if c > k {
            assert(comes_first(self.entries@[k].term@, self.entries@[c].term@));
        }
    }

    /// The postings depend on the entries alone.
    proof fn lemma_same_entries(&self, other: &TermIndex)
        requires
            self.entries@ == other.entries@,
            self.docs@ == other.docs@,
        ensures
            self.wf() == other.wf(),
            forall|term: Seq<char>| #[trigger] self.postings_of(term) == other.postings_of(term),
            forall|id: u64| #[trigger] self.holds(id) == other.holds(id),
            forall|id: u64| #[trigger] self.recorded(id) == other.recorded(id),
    {
        assert forall|id: u64| #[trigger] self.holds(id) == other.holds(id) by {
            if self.holds(id) {
                let i = choose|i: int| mark_in(self.docs@, id, i);
                assert(mark_in(other.docs@, id, i));
            }
            if other.holds(id) {
                let i = choose|i: int| mark_in(other.docs@, id, i);
                assert(mark_in(self.docs@, id, i));
            }
        }
        assert forall|id: u64| #[trigger] self.recorded(id) == other.recorded(id) by {
            assert forall|i: int| mark_in(self.docs@, id, i) == mark_in(other.docs@, id, i) by {}
        }
    }

    /// What the index knows depends on the marks alone.
    proof fn lemma_same_docs(&self, other: &TermIndex)
        requires
            self.docs@ == other.docs@,
        ensures
            forall|id: u64| #[trigger] self.holds(id) == other.holds(id),
            forall|id: u64| #[trigger] self.recorded(id) == other.recorded(id),
    {
        assert forall|id: u64| #[trigger] self.holds(id) == other.holds(id) by {
            if self.holds(id) {
                let i = choose|i: int| mark_in(self.docs@, id, i);
                assert(mark_in(other.docs@, id, i));
            }
            if other.holds(id) {
                let i = choose|i: int| mark_in(other.docs@, id, i);
                assert(mark_in(self.docs@, id, i));
            }
        }
        assert forall|id: u64| #[trigger] self.recorded(id) == other.recorded(id) by {
            assert forall|i: int| mark_in(self.docs@, id, i) == mark_in(other.docs@, id, i) by {}
        }
    }

    /// The postings depend on the entries alone.
    proof fn lemma_same_postings(&self, other: &TermIndex)
        requires
            self.entries@ == other.entries@,
        ensures
            forall|term: Seq<char>| #[trigger] self.postings_of(term) == other.postings_of(term),
    {
    }

    /// The place of the mark of a document, if the index knows it.
    fn find_doc(&self, id: u64) -> (r: Option<usize>)
        requires
            self.wf(),
        ensures
            r is Some <==> self.holds(id),
            r is Some ==> r->0 < self.docs@.len() && self.docs@[r->0 as int].id == id
                && self.docs@[r->0 as int].tokens == self.recorded(id),
    {
        let mut i: usize = 0;
        while i < self.docs.len()
            invariant
                i <= self.docs@.len(),
                self.wf(),
                forall|j: int| 0 <= j < i ==> self.docs@[j].id != id,
            decreases self.docs@.len() - i,
        {
            if self.docs[i].id == id {
                proof {
                    assert(mark_in(self.docs@, id, i as int));
                    let c = choose|c: int| mark_in(self.docs@, id, c);
                    if c < i {
                        assert(self.docs@[c].id != self.docs@[i as int].id);
                    } else if c > i {
                        assert(self.docs@[i as int].id != self.docs@[c].id);
                    }
                }
                return Some(i);
            }
            i += 1;
        }
        assert(!self.holds(id)) by {
            if self.holds(id) {
                let c = choose|c: int| mark_in(self.docs@, id, c);
                assert(self.docs@[c].id != id);
            }
        }
        None
    }

    /// The postings of every term are in order.
    pub proof fn lemma_postings_ordered(&self, term: Seq<char>)
        requires
            self.wf(),
        ensures
            by_id(self.postings_of(term)),
    {
        if exists|k: int| entry_at(self.entries@, term, k) {
            let k = choose|k: int| entry_at(self.entries@, term, k);
            self.lemma_postings(term, k);
        }
    }

    /// Whether `after` has the counts of this index with a node added: a
    /// node that the index knows already is counted once, with the number
    /// of tokens that it has now.
    pub open spec fn counts_added(&self, after: TermIndex, e: EventView) -> bool {
        let len = capped_tokens(tokens(e.content).len());
        &&& after.documents() == if self.holds(e.id) {
            self.documents()
        } else {
            one_more(self.documents())
        }
        &&& after.tokens_total() == with_part(
            without(self.tokens_total(), self.recorded(e.id)),
            len,
        )
        &&& forall|x: u64| #[trigger] after.holds(x) == (self.holds(x) || x == e.id)
        &&& forall|x: u64| #[trigger]
            after.recorded(x) == if x == e.id {
                len
            } else {
                self.recorded(x)
            }
    }

    /// Whether `after` has the counts of this index without a node: they
    /// change only if the index knows the node.
    pub open spec fn counts_removed(&self, after: TermIndex, id: u64) -> bool {
        &&& after.documents() == if self.holds(id) {
            one_fewer(self.documents())
        } else {
            self.documents()
        }
        &&& after.tokens_total() == without(self.tokens_total(), self.recorded(id))
        &&& forall|x: u64| #[trigger] after.holds(x) == (self.holds(x) && x != id)
        &&& forall|x: u64| #[trigger]
            after.recorded(x) == if x == id {
                0
            } else {
                self.recorded(x)
            }
    }

    /// The marks of the documents decide what the index knows.
    proof fn lemma_marks(&self, i: int)
        requires
            self.wf(),
            0 <= i < self.docs@.len(),
        ensures
            self.holds(self.docs@[i].id),
            self.recorded(self.docs@[i].id) == self.docs@[i].tokens,
    {
        let id = self.docs@[i].id;
        assert(mark_in(self.docs@, id, i));
        let c = choose|c: int| mark_in(self.docs@, id, c);
        if c < i {
            assert(self.docs@[c].id != self.docs@[i].id);
        } else if c > i {
            assert(self.docs@[i].id != self.docs@[c].id);
        }
    }

    /// Records the number of tokens of a document, which the index then
    /// knows.
    fn mark(&mut self, id: u64, len: u64)
        requires
            old(self).wf(),
        ensures
            final(self).wf(),
            final(self).entries@ == old(self).entries@,
            final(self).avg_doc_length == old(self).avg_doc_length,
            final(self).doc_count == if old(self).holds(id) {
                old(self).doc_count
            } else {
                one_more(old(self).doc_count)
            },
            final(self).total_tokens == with_part(
                without(old(self).total_tokens, old(self).recorded(id)),
                len,
            ),
            forall|x: u64| #[trigger] final(self).holds(x) == (old(self).holds(x) || x == id),
            forall|x: u64| #[trigger]
                final(self).recorded(x) == if x == id {
                    len
                } else {
                    old(self).recorded(x)
                },
    {
        let ghost before = *self;
        let found = self.find_doc(id);
        let mut rest = self.total_tokens;
        match found {
            Some(pos) => {
                let had = self.docs[pos].tokens;
                rest = if rest >= had { rest - had } else { 0 };
                self.docs.set(pos, DocMark { id, tokens: len });
                proof {
                    assert forall|a: int, b: int| 0 <= a < b < self.docs@.len() implies (
                    #[trigger] self.docs@[a]).id != (#[trigger] self.docs@[b]).id by {
                        assert(before.docs@[a].id != before.docs@[b].id);
                    }
                }
            },
            None => {
                if self.doc_count < u64::MAX {
                    self.doc_count = self.doc_count + 1;
                }
                self.docs.push(DocMark { id, tokens: len });
                proof {
                    assert forall|a: int, b: int| 0 <= a < b < self.docs@.len() implies (
                    #[trigger] self.docs@[a]).id != (#[trigger] self.docs@[b]).id by {
                        if b < before.docs@.len() {
                            assert(before.docs@[a].id != before.docs@[b].id);
                        } else {
                            assert(mark_in(before.docs@, before.docs@[a].id, a));
                        }
                    }
                }
            },
        }
        self.total_tokens = if rest > u64::MAX - len { u64::MAX } else { rest + len };
        proof {
            assert(self.wf()) by {
                assert forall|a: int, b: int| 0 <= a < b < self.entries@.len() implies comes_first(
                    (#[trigger] self.entries@[a]).term@,
                    (#[trigger] self.entries@[b]).term@,
                ) by {
                    assert(comes_first(before.entries@[a].term@, before.entries@[b].term@));
                }
            }
            assert forall|x: u64| #[trigger] self.holds(x) == (before.holds(x) || x == id) by {
                if self.holds(x) {
                    let i = choose|i: int| mark_in(self.docs@, x, i);
                    if x != id {
                        assert(mark_in(before.docs@, x, i));
                    }
                }
                if before.holds(x) {
                    let i = choose|i: int| mark_in(before.docs@, x, i);
                    assert(mark_in(self.docs@, self.docs@[i].id, i));
                    if x != id {
                        assert(mark_in(self.docs@, x, i));
                    }
                }
                if x == id {
                    match found {
                        Some(pos) => {
                            assert(mark_in(self.docs@, id, pos as int));
                        },
                        None => {
                            assert(mark_in(self.docs@, id, before.docs@.len() as int));
                        },
                    }
                }
            }
            assert forall|x: u64| #[trigger]
                self.recorded(x) == if x == id {
                    len
                } else {
                    before.recorded(x)
                } by {
                if x == id {
                    match found {
                        Some(pos) => {
                            self.lemma_marks(pos as int);
                        },
                        None => {
                            self.lemma_marks(before.docs@.len() as int);
                        },
                    }
                } else if before.holds(x) {
                    let i = choose|i: int| mark_in(before.docs@, x, i);
                    before.lemma_marks(i);
                    assert(self.docs@[i] == before.docs@[i]);
                    self.lemma_marks(i);
                } else {
                    assert(!self.holds(x));
                }
            }
        }
    }

    /// Forgets a document.
    fn unmark(&mut self, id: u64)
        requires
            old(self).wf(),
        ensures
            final(self).wf(),
            final(self).entries@ == old(self).entries@,
            final(self).avg_doc_length == old(self).avg_doc_length,
            old(self).counts_removed(*final(self), id),
    {
        let ghost before = *self;
        match self.find_doc(id) {
            Some(pos) => {
                let had = self.docs[pos].tokens;
                self.total_tokens = if self.total_tokens >= had { self.total_tokens - had } else { 0 };
                if self.doc_count > 0 {
                    self.doc_count = self.doc_count - 1;
                }
                self.docs.remove(pos);
                proof {
                    assert forall|a: int, b: int| 0 <= a < b < self.docs@.len() implies (
                    #[trigger] self.docs@[a]).id != (#[trigger] self.docs@[b]).id by {
                        let a0 = if a < pos { a } else { a + 1 };
                        let b0 = if b < pos { b } else { b + 1 };
                        assert(before.docs@[a0].id != before.docs@[b0].id);
                    }
                    assert forall|a: int, b: int| 0 <= a < b < self.entries@.len() implies comes_first(
                        (#[trigger] self.entries@[a]).term@,
                        (#[trigger] self.entries@[b]).term@,
                    ) by {
                        assert(comes_first(before.entries@[a].term@, before.entries@[b].term@));
                    }
                    assert forall|x: u64| #[trigger] self.holds(x) == (before.holds(x) && x != id) by {
                        if self.holds(x) {
                            let i = choose|i: int| mark_in(self.docs@, x, i);
                            let i0 = if i < pos { i } else { i + 1 };
                            assert(mark_in(before.docs@, x, i0));
                            assert(before.docs@[i0].id != before.docs@[pos as int].id);
                        }
                        if before.holds(x) && x != id {
                            let i = choose|i: int| mark_in(before.docs@, x, i);
                            let i1 = if i < pos { i } else { i - 1 };
                            assert(mark_in(self.docs@, x, i1));
                        }
                    }
                    assert forall|x: u64| #[trigger]
                        self.recorded(x) == if x == id {
                            0
                        } else {
                            before.recorded(x)
                        } by {
                        if x != id && before.holds(x) {
                            let i = choose|i: int| mark_in(before.docs@, x, i);
                            before.lemma_marks(i);
                            let i1 = if i < pos { i } else { i - 1 };
                            assert(self.docs@[i1] == before.docs@[i]);
                            self.lemma_marks(i1);
                        }
                    }
                }
            },
            None => {
                proof {
                    self.lemma_same_entries(&before);
                }
            },
        }
    }

    /// An empty index.
    pub fn new() -> (r: TermIndex)
        ensures
            r.wf(),
            r.documents() == 0,
            r.terms() == 0,
            r.average() == 0,
            r.tokens_total() == 0,
            forall|term: Seq<char>| (#[trigger] r.postings_of(term)).len() == 0,
            forall|id: u64| !(#[trigger] r.holds(id)),
    {
        TermIndex {
            entries: Vec::new(),
            docs: Vec::new(),
            doc_count: 0,
            total_tokens: 0,
            avg_doc_length: 0,
        }
    }

    /// The place of a term among the entries, and whether it has an entry.
    fn locate(&self, term: &Vec<char>) -> (r: (usize, bool))
        requires
            self.wf(),
        ensures
            r.0 <= self.entries@.len(),
            r.1 ==> entry_at(self.entries@, term@, r.0 as int),
            !r.1 ==> forall|k: int| !entry_at(self.entries@, term@, k),
            forall|i: int| 0 <= i < r.0 ==> comes_first((#[trigger] self.entries@[i]).term@, term@),
            forall|i: int|
                r.0 <= i < self.entries@.len() && !(r.1 && i == r.0) ==> comes_first(
                    term@,
                    (#[trigger] self.entries@[i]).term@,
                ),
    {
        let mut lo: usize = 0;
        let mut hi: usize = self.entries.len();
        while lo < hi
            invariant
                lo <= hi <= self.entries@.len(),
                self.wf(),
                forall|i: int| 0 <= i < lo ==> comes_first((#[trigger] self.entries@[i]).term@, term@),
                forall|i: int|
                    hi <= i < self.entries@.len() ==> comes_first(
                        term@,
                        (#[trigger] self.entries@[i]).term@,
                    ),
            decreases hi - lo,
        {
            let mid = lo + (hi - lo) / 2;
            let here = chars_of(self.entries[mid].term.as_str());
            let ghost t = self.entries@[mid as int].term@;
            match compare_terms(&here, term) {
                Standing::Same => {
                    proof {
                        assert forall|i: int| 0 <= i < mid implies comes_first(
                            (#[trigger] self.entries@[i]).term@,
                            term@,
                        ) by {
                            assert(comes_first(self.entries@[i].term@, self.entries@[mid as int].term@));
                        }
                        assert forall|i: int|
                            mid <= i < self.entries@.len() && i != mid implies comes_first(
                            term@,
                            (#[trigger] self.entries@[i]).term@,
                        ) by {
                            assert(comes_first(self.entries@[mid as int].term@, self.entries@[i].term@));
                        }
                    }
                    return (mid, true);
                },
                Standing::Before => {
                    proof {
                        lemma_total(t, term@);
                        assert forall|i: int| 0 <= i < mid + 1 implies comes_first(
                            (#[trigger] self.entries@[i]).term@,
                            term@,
                        ) by {
                            if i < mid {
                                assert(comes_first(self.entries@[i].term@, self.entries@[mid as int].term@));
                                lemma_transitive(self.entries@[i].term@, t, term@);
                            }
                        }
                    }
                    lo = mid + 1;
                },
                Standing::After => {
                    proof {
                        lemma_total(t, term@);
                        assert forall|i: int| mid <= i < self.entries@.len() implies comes_first(
                            term@,
                            (#[trigger] self.entries@[i]).term@,
                        ) by {
                            if i > mid {
                                assert(comes_first(self.entries@[mid as int].term@, self.entries@[i].term@));
                                lemma_transitive(term@, t, self.entries@[i].term@);
                            }
                        }
                    }
                    hi = mid;
                },
            }
        }
        proof {
            assert forall|k: int| !entry_at(self.entries@, term@, k) by {
                if entry_at(self.entries@, term@, k) {
                    lemma_irreflexive(term@);
                    if k < lo {
                        assert(comes_first(self.entries@[k].term@, term@));
                    } else {
                        assert(comes_first(term@, self.entries@[k].term@));
                    }
                }
            }
        }
        (lo, false)
    }

    /// The postings of a term, in ascending order of node id.
    pub fn get(&self, term: &str) -> (r: Vec<Posting>)
        requires
            self.wf(),
        ensures
            r@ == self.postings_of(term@),
            by_id(r@),
    {
        let chars = chars_of(term);
        let (pos, found) = self.locate(&chars);
        let mut out: Vec<Posting> = Vec::new();
        if found {
            proof {
                self.lemma_postings(term@, pos as int);
            }
            let list = &self.entries[pos].postings;
            let mut i: usize = 0;
            while i < list.len()
                invariant
                    i <= list@.len(),
                    out@ == list@.take(i as int),
                decreases list@.len() - i,
            {
                out.push(list[i]);
                assert(list@.take(i + 1) =~= list@.take(i as int).push(list@[i as int]));
                i += 1;
            }
            assert(list@.take(i as int) =~= list@);
        }
        out
    }

    /// The number of nodes that have a term.
    pub fn doc_frequency(&self, term: &str) -> (r: usize)
        requires
            self.wf(),
        ensures
            r == self.postings_of(term@).len(),
    {
        let chars = chars_of(term);
        let (pos, found) = self.locate(&chars);
        if found {
            proof {
                self.lemma_postings(term@, pos as int);
            }
            self.entries[pos].postings.len()
        } else {
            0
        }
    }

    /// The number of documents added and not removed.
    pub fn doc_count(&self) -> (r: u64)
        ensures
            r == self.documents(),
    {
        self.doc_count
    }

    /// The number of terms that the index has an entry for.
    pub fn term_count(&self) -> (r: usize)
        ensures
            r == self.terms(),
    {
        self.entries.len()
    }

    /// The average document length, as a bit pattern. The index does no
    /// arithmetic on it: it is what `set_avg_doc_length` was given last.
    pub fn avg_doc_length(&self) -> (r: u32)
        ensures
            r == self.average(),
    {
        self.avg_doc_length
    }

    /// The number of tokens of the documents added, or the largest number
    /// if there were more.
    pub fn total_tokens(&self) -> (r: u64)
        ensures
            r == self.tokens_total(),
    {
        self.total_tokens
    }

    /// Sets the average document length.
    pub fn set_avg_doc_length(&mut self, bits: u32)
        requires
            old(self).wf(),
        ensures
            final(self).wf(),
            final(self).average() == bits,
            final(self).documents() == old(self).documents(),
            final(self).terms() == old(self).terms(),
            final(self).tokens_total() == old(self).tokens_total(),
            forall|term: Seq<char>| #[trigger]
                final(self).postings_of(term) == old(self).postings_of(term),
            forall|id: u64| #[trigger] final(self).holds(id) == old(self).holds(id),
            forall|id: u64| #[trigger] final(self).recorded(id) == old(self).recorded(id),
    {
        let ghost before = *self;
        self.avg_doc_length = bits;
        proof {
            self.lemma_same_entries(&before);
        }
    }

    /// Records one posting under a term.
    fn upsert(&mut self, term: &str, p: Posting)
        requires
            old(self).wf(),
        ensures
            final(self).wf(),
            final(self).doc_count == old(self).doc_count,
            final(self).total_tokens == old(self).total_tokens,
            final(self).avg_doc_length == old(self).avg_doc_length,
            final(self).docs@ == old(self).docs@,
            forall|t: Seq<char>, q: Posting|
                #![trigger final(self).postings_of(t).contains(q)]
                final(self).postings_of(t).contains(q) <==> if t == term@ {
                    (old(self).postings_of(t).contains(q) && q.node_id != p.node_id) || q == p
                } else {
                    old(self).postings_of(t).contains(q)
                },
    {
        let ghost before = *self;
        let chars = chars_of(term);
        let (pos, found) = self.locate(&chars);
        if found {
            let mut list: Vec<Posting> = Vec::new();
            std::mem::swap(&mut list, &mut self.entries[pos].postings);
            put_posting(&mut list, p);
            self.entries.set(pos, TermEntry { term: term.to_owned(), postings: list });
            proof {
                assert forall|a: int, b: int| 0 <= a < b < self.entries@.len() implies comes_first(
                    (#[trigger] self.entries@[a]).term@,
                    (#[trigger] self.entries@[b]).term@,
                ) by {
                    assert(comes_first(before.entries@[a].term@, before.entries@[b].term@));
                }
                assert forall|k: int| 0 <= k < self.entries@.len() implies by_id(
                    (#[trigger] self.entries@[k]).postings@,
                ) by {
                    if k != pos {
                        assert(self.entries@[k] == before.entries@[k]);
                    }
                }
                assert forall|t: Seq<char>, q: Posting|
                    #![trigger self.postings_of(t).contains(q)]
                    self.postings_of(t).contains(q) <==> if t == term@ {
                        (before.postings_of(t).contains(q) && q.node_id != p.node_id) || q == p
                    } else {
                        before.postings_of(t).contains(q)
                    } by {
                    if t == term@ {
                        assert(entry_at(self.entries@, t, pos as int));
                        self.lemma_postings(t, pos as int);
                        before.lemma_postings(t, pos as int);
                    } else {
                        self.lemma_other_term(&before, t, pos as int);
                    }
                }
            }
        } else {
            let mut list: Vec<Posting> = Vec::new();
            list.push(p);
            self.entries.insert(pos, TermEntry { term: term.to_owned(), postings: list });
            proof {
                assert forall|a: int, b: int| 0 <= a < b < self.entries@.len() implies comes_first(
                    (#[trigger] self.entries@[a]).term@,
                    (#[trigger] self.entries@[b]).term@,
                ) by {
                    let x = if a < pos { a } else { a - 1 };
                    let y = if b < pos { b } else { b - 1 };
                    if a != pos && b != pos {
                        assert(comes_first(before.entries@[x].term@, before.entries@[y].term@));
                    } else if a == pos {
                        assert(self.entries@[b] == before.entries@[b - 1]);
                        assert(comes_first(term@, before.entries@[b - 1].term@));
                    } else {
                        assert(self.entries@[a] == before.entries@[a]);
                        assert(comes_first(before.entries@[a].term@, term@));
                    }
                }
                assert forall|k: int| 0 <= k < self.entries@.len() implies by_id(
                    (#[trigger] self.entries@[k]).postings@,
                ) by {
                    if k < pos {
                        assert(self.entries@[k] == before.entries@[k]);
                    } else if k > pos {
                        assert(self.entries@[k] == before.entries@[k - 1]);
                    }
                }
                assert forall|t: Seq<char>, q: Posting|
                    #![trigger self.postings_of(t).contains(q)]
                    self.postings_of(t).contains(q) <==> if t == term@ {
                        (before.postings_of(t).contains(q) && q.node_id != p.node_id) || q == p
                    } else {
                        before.postings_of(t).contains(q)
                    } by {
                    if t == term@ {
                        assert(entry_at(self.entries@, t, pos as int));
                        self.lemma_postings(t, pos as int);
                        assert(self.entries@[pos as int].postings@ =~= seq![p]);
                        if q == p {
                            assert(seq![p][0] == q);
                        }
                    } else {
                        if exists|c: int| entry_at(before.entries@, t, c) {
                            let c = choose|c: int| entry_at(before.entries@, t, c);
                            let d = if c < pos { c } else { c + 1 };
                            assert(self.entries@[d] == before.entries@[c]);
                            assert(entry_at(self.entries@, t, d));
                            self.lemma_postings(t, d);
                            before.lemma_postings(t, c);
                        } else {
                            assert forall|d: int| !entry_at(self.entries@, t, d) by {
                                if entry_at(self.entries@, t, d) {
                                    let c = if d < pos { d } else { d - 1 };
                                    assert(before.entries@[c] == self.entries@[d]);
                                    assert(entry_at(before.entries@, t, c));
                                }
                            }
                        }
                    }
                }
            }
        }
    }

    /// A term keeps its postings where only the entry of another term has
    /// changed.
    proof fn lemma_other_term(&self, before: &TermIndex, t: Seq<char>, pos: int)
        requires
            self.wf(),
            before.wf(),
            0 <= pos < self.entries@.len(),
            self.entries@.len() == before.entries@.len(),
            self.entries@[pos].term@ != t,
            self.entries@[pos].term@ == before.entries@[pos].term@,
            forall|k: int|
                0 <= k < self.entries@.len() && k != pos ==> self.entries@[k] == before.entries@[k],
        ensures
            self.postings_of(t) == before.postings_of(t),
    {
        if exists|c: int| entry_at(before.entries@, t, c) {
            let c = choose|c: int| entry_at(before.entries@, t, c);
            assert(entry_at(self.entries@, t, c));
            self.lemma_postings(t, c);
            before.lemma_postings(t, c);
        } else {
            assert forall|c: int| !entry_at(self.entries@, t, c) by {
                if entry_at(self.entries@, t, c) {
                    assert(entry_at(before.entries@, t, c));
                }
            }
        }
    }

    /// Records the terms of a node. A node that the index has already is
    /// recorded anew.
    pub fn add_node(&mut self, event: &CognitiveEvent)
        requires
            old(self).wf(),
        ensures
            final(self).wf(),
            final(self).average() == old(self).average(),
            old(self).counts_added(*final(self), event@),
            forall|t: Seq<char>, q: Posting|
                #![trigger final(self).postings_of(t).contains(q)]
                final(self).postings_of(t).contains(q) <==> (old(self).postings_of(t).contains(q)
                    && (q.node_id != event.id || !tokens(event@.content).contains(t))) || (
                q.node_id == event.id && tokens(event@.content).contains(t) && q.term_freq
                    == frequency(event@, t)),
    {
        let tokenizer = Tokenizer::new();
        self.add_with(&tokenizer, event);
    }

    /// Records the terms of a node, cut by the given tokenizer.
    fn add_with(&mut self, tokenizer: &Tokenizer, event: &CognitiveEvent)
        requires
            old(self).wf(),
            tokenizer.wf(),
        ensures
            final(self).wf(),
            final(self).average() == old(self).average(),
            old(self).counts_added(*final(self), event@),
            forall|t: Seq<char>, q: Posting|
                #![trigger final(self).postings_of(t).contains(q)]
                final(self).postings_of(t).contains(q) <==> (old(self).postings_of(t).contains(q)
                    && (q.node_id != event.id || !tokens(event@.content).contains(t))) || (
                q.node_id == event.id && tokens(event@.content).contains(t) && q.term_freq
                    == frequency(event@, t)),
    {
        let pieces = tokenizer.tokenize(event.content.as_str());
        let count = pieces.len();
        let freqs = crate::tokenizer::count_terms(&pieces);
        let ghost toks = tokens(event@.content);
        assert(texts(pieces@).len() == count);
        let ghost start = *self;
        let mut j: usize = 0;
        while j < freqs.len()
            invariant
                j <= freqs@.len(),
                self.wf(),
                toks == tokens(event@.content),
                is_frequency_table(freqs@, toks),
                self.doc_count == start.doc_count,
                self.avg_doc_length == start.avg_doc_length,
                self.total_tokens == start.total_tokens,
                self.docs@ == start.docs@,
                forall|t: Seq<char>, q: Posting|
                    #![trigger self.postings_of(t).contains(q)]
                    self.postings_of(t).contains(q) <==> if terms_of(freqs@).take(
                        j as int,
                    ).contains(t) {
                        (start.postings_of(t).contains(q) && q.node_id != event.id) || (q.node_id
                            == event.id && q.term_freq == frequency(event@, t))
                    } else {
                        start.postings_of(t).contains(q)
                    },
            decreases freqs@.len() - j,
        {
            let ghost before = *self;
            let ghost done = terms_of(freqs@).take(j as int);
            let ghost next = terms_of(freqs@).take(j + 1);
            let ghost term = freqs@[j as int].0@;
            let p = Posting { node_id: event.id, term_freq: freqs[j].1 };
            self.upsert(freqs[j].0.as_str(), p);
            proof {
                assert(terms_of(freqs@)[j as int] == term);
                assert(next =~= done.push(term));
                lemma_distinct_no_duplicates(toks);
                assert(!done.contains(term)) by {
                    if done.contains(term) {
                        let x = choose|x: int| 0 <= x < done.len() && done[x] == term;
                        assert(terms_of(freqs@)[x] == terms_of(freqs@)[j as int]);
                    }
                }
                assert forall|t: Seq<char>, q: Posting|
                    #![trigger self.postings_of(t).contains(q)]
                    self.postings_of(t).contains(q) <==> if next.contains(t) {
                        (start.postings_of(t).contains(q) && q.node_id != event.id) || (q.node_id
                            == event.id && q.term_freq == frequency(event@, t))
                    } else {
                        start.postings_of(t).contains(q)
                    } by {
                    assert(before.postings_of(t).contains(q) <==> if done.contains(t) {
                        (start.postings_of(t).contains(q) && q.node_id != event.id) || (q.node_id
                            == event.id && q.term_freq == frequency(event@, t))
                    } else {
                        start.postings_of(t).contains(q)
                    });
                    if done.contains(t) {
                        let x = choose|x: int| 0 <= x < done.len() && done[x] == t;
                        assert(next[x] == t);
                    }
                    if next.contains(t) {
                        let x = choose|x: int| 0 <= x < next.len() && next[x] == t;
                        if x < done.len() {
                            assert(done[x] == t);
                        }
                    }
                    if t == term {
                        assert(next[j as int] == term);
                    }
                }
            }
            j += 1;
        }
        proof {
            assert(terms_of(freqs@).take(j as int) =~= terms_of(freqs@));
            assert forall|t: Seq<char>, q: Posting|
                #![trigger self.postings_of(t).contains(q)]
                self.postings_of(t).contains(q) <==> (start.postings_of(t).contains(q) && (q.node_id
                    != event.id || !toks.contains(t))) || (q.node_id == event.id && toks.contains(t)
                    && q.term_freq == frequency(event@, t)) by {
                lemma_distinct_members(toks, t);
                assert(self.postings_of(t).contains(q) <==> if terms_of(freqs@).contains(t) {
                    (start.postings_of(t).contains(q) && q.node_id != event.id) || (q.node_id
                        == event.id && q.term_freq == frequency(event@, t))
                } else {
                    start.postings_of(t).contains(q)
                });
            }
        }
        let ghost filled = *self;
        proof {
            filled.lemma_same_docs(&start);
        }
        self.mark(event.id, count as u64);
        proof {
            self.lemma_same_postings(&filled);
        }
    }

    /// Takes a node out of the index.
    pub fn remove_node(&mut self, id: u64)
        requires
            old(self).wf(),
        ensures
            final(self).wf(),
            final(self).average() == old(self).average(),
            old(self).counts_removed(*final(self), id),
            forall|t: Seq<char>, q: Posting|
                #![trigger final(self).postings_of(t).contains(q)]
                final(self).postings_of(t).contains(q) <==> old(self).postings_of(t).contains(q)
                    && q.node_id != id,
    {
        let ghost start = *self;
        let n = self.entries.len();
        let mut k: usize = 0;
        while k < n
            invariant
                k <= n,
                n == self.entries@.len(),
                n == start.entries@.len(),
                start.wf(),
                self.doc_count == start.doc_count,
                self.total_tokens == start.total_tokens,
                self.docs@ == start.docs@,
                self.avg_doc_length == start.avg_doc_length,
                forall|j: int|
                    0 <= j < n ==> (#[trigger] self.entries@[j]).term@ == start.entries@[j].term@,
                forall|j: int| 0 <= j < n ==> by_id((#[trigger] self.entries@[j]).postings@),
                forall|j: int, q: Posting|
                    #![trigger self.entries@[j].postings@.contains(q)]
                    0 <= j < k ==> (self.entries@[j].postings@.contains(q)
                        <==> start.entries@[j].postings@.contains(q) && q.node_id != id),
                forall|j: int| k <= j < n ==> self.entries@[j] == start.entries@[j],
            decreases n - k,
        {
            let ghost before = self.entries@;
            let mut list: Vec<Posting> = Vec::new();
            std::mem::swap(&mut list, &mut self.entries[k].postings);
            drop_posting(&mut list, id);
            let mut term = String::new();
            std::mem::swap(&mut term, &mut self.entries[k].term);
            self.entries.set(k, TermEntry { term, postings: list });
            proof {
                assert forall|j: int| 0 <= j < n implies (#[trigger] self.entries@[j]).term@
                    == start.entries@[j].term@ && by_id(self.entries@[j].postings@) by {
                    if j != k {
                        assert(self.entries@[j] == before[j]);
                    }
                }
                assert forall|j: int, q: Posting|
                    #![trigger self.entries@[j].postings@.contains(q)]
                    0 <= j < k + 1 implies (self.entries@[j].postings@.contains(q)
                        <==> start.entries@[j].postings@.contains(q) && q.node_id != id) by {
                    if j != k {
                        assert(self.entries@[j] == before[j]);
                    }
                }
                assert forall|j: int| k + 1 <= j < n implies self.entries@[j]
                    == start.entries@[j] by {
                    assert(self.entries@[j] == before[j]);
                }
            }
            k += 1;
        }
        proof {
            assert forall|a: int, b: int| 0 <= a < b < self.entries@.len() implies comes_first(
                (#[trigger] self.entries@[a]).term@,
                (#[trigger] self.entries@[b]).term@,
            ) by {
                assert(comes_first(start.entries@[a].term@, start.entries@[b].term@));
            }
            assert forall|t: Seq<char>, q: Posting|
                #![trigger self.postings_of(t).contains(q)]
                self.postings_of(t).contains(q) <==> start.postings_of(t).contains(q) && q.node_id
                    != id by {
                if exists|c: int| entry_at(start.entries@, t, c) {
                    let c = choose|c: int| entry_at(start.entries@, t, c);
                    assert(self.entries@[c].term@ == t);
                    assert(entry_at(self.entries@, t, c));
                    self.lemma_postings(t, c);
                    start.lemma_postings(t, c);
                } else {
                    assert forall|c: int| !entry_at(self.entries@, t, c) by {
                        if entry_at(self.entries@, t, c) {
                            assert(self.entries@[c].term@ == start.entries@[c].term@);
                            assert(entry_at(start.entries@, t, c));
                        }
                    }
                }
            }
        }
        let ghost emptied = *self;
        proof {
            emptied.lemma_same_docs(&start);
        }
        self.unmark(id);
        proof {
            self.lemma_same_postings(&emptied);
        }
    }

    /// Empties the index.
    pub fn clear(&mut self)
        ensures
            final(self).wf(),
            final(self).documents() == 0,
            final(self).terms() == 0,
            final(self).average() == 0,
            final(self).tokens_total() == 0,
            forall|term: Seq<char>| (#[trigger] final(self).postings_of(term)).len() == 0,
            forall|id: u64| !(#[trigger] final(self).holds(id)),
    {
        *self = TermIndex::new();
    }

    /// Whether the index can be written: the numbers of its terms and of
    /// the postings of each term fit four bytes, and the length of each
    /// term in UTF-8 fits two.
    pub closed spec fn encodable(&self) -> bool {
        self.entries@.len() <= u32::MAX && forall|k: int|
            0 <= k < self.entries@.len() ==> entry_fits(#[trigger] self.entries@[k])
    }

    /// The serialized form of the index: the number of documents, the
    /// average document length, the number of terms, and the entries in
    /// the order of their terms.
    pub closed spec fn encoding(&self) -> Seq<u8> {
        le64(self.doc_count) + le32(self.avg_doc_length) + le32(self.entries@.len() as u32)
            + entries_bytes(entry_views(self.entries@))
    }

    /// The terms of the index with their postings, in the order of the
    /// terms.
    pub closed spec fn listing(&self) -> Seq<EntryView> {
        entry_views(self.entries@)
    }

    /// The serialized form of an index holds its average document length in
    /// the four bytes from the eighth on.
    pub proof fn lemma_average_at(&self)
        ensures
            self.encoding().len() >= 16,
            u32_at(self.encoding(), 8) == self.average(),
    {
        lemma_le();
        let a = le64(self.doc_count);
        let b = le32(self.avg_doc_length);
        let c = le32(self.entries@.len() as u32);
        let body = entries_bytes(entry_views(self.entries@));
        let data = self.encoding();
        assert(data =~= a + (b + (c + body)));
        assert(data.subrange(0, data.len() as int) =~= data);
        lemma_window(data, 0, a, b + (c + body));
        lemma_window(data, 8, b, c + body);
    }

    /// The terms of a well-formed index are listed in order, and so are the
    /// postings of each.
    pub proof fn lemma_listing_ordered(&self)
        requires
            self.wf(),
        ensures
            entries_ordered(self.listing()),
    {
        let views = entry_views(self.entries@);
        assert forall|a: int, b: int| 0 <= a < b < views.len() implies comes_first(
            (#[trigger] views[a]).term,
            (#[trigger] views[b]).term,
        ) by {
            assert(comes_first(self.entries@[a].term@, self.entries@[b].term@));
        }
        assert forall|k: int| 0 <= k < views.len() implies by_id((#[trigger] views[k]).postings) by {
            assert(by_id(self.entries@[k].postings@));
        }
    }

    /// What is read from the serialized form of an index is the index: its
    /// number of documents, its average document length, and its terms
    /// with their postings; those of a well-formed index are in order, so
    /// that reading what was written of it succeeds.
    pub proof fn lemma_round_trip(&self)
        requires
            self.encodable(),
        ensures
            parsed(self.encoding()) == Some(
                ParsedIndex {
                    doc_count: self.documents(),
                    avg_doc_length: self.average(),
                    entries: self.listing(),
                },
            ),
            self.wf() ==> entries_ordered(self.listing()),
    {
        if self.wf() {
            self.lemma_listing_ordered();
        }
        lemma_le();
        let views = entry_views(self.entries@);
        let a = le64(self.doc_count);
        let b = le32(self.avg_doc_length);
        let c = le32(self.entries@.len() as u32);
        let body = entries_bytes(views);
        let data = self.encoding();
        assert(data =~= a + (b + (c + body)));
        assert(data.subrange(0, data.len() as int) =~= data);
        lemma_window(data, 0, a, b + (c + body));
        lemma_window(data, 8, b, c + body);
        lemma_window(data, 12, c, body);
        assert forall|i: int| 0 <= i < views.len() implies encode_utf8(
            (#[trigger] views[i]).term,
        ).len() <= u16::MAX && views[i].postings.len() <= u32::MAX by {
            assert(entry_fits(self.entries@[i]));
        }
        lemma_entries_read_back(data, 16, views);
    }

    /// The serialized form of the index, if it can be written.
    pub fn to_bytes(&self) -> (r: Option<Vec<u8>>)
        ensures
            r is Some <==> self.encodable(),
            r is Some ==> r->0@ == self.encoding(),
    {
        if self.entries.len() > u32::MAX as usize {
            return None;
        }
        let mut buf: Vec<u8> = Vec::new();
        put_u64(&mut buf, self.doc_count);
        put_u32(&mut buf, self.avg_doc_length);
        put_u32(&mut buf, self.entries.len() as u32);
        let ghost head = buf@;
        let ghost views = entry_views(self.entries@);
        let mut k: usize = 0;
        assert(views.take(0) =~= Seq::<EntryView>::empty());
        assert(buf@ =~= head + entries_bytes(views.take(0)));
        while k < self.entries.len()
            invariant
                k <= self.entries@.len(),
                views == entry_views(self.entries@),
                head == le64(self.doc_count) + le32(self.avg_doc_length) + le32(
                    self.entries@.len() as u32,
                ),
                buf@ == head + entries_bytes(views.take(k as int)),
                forall|j: int| 0 <= j < k ==> entry_fits(#[trigger] self.entries@[j]),
            decreases self.entries@.len() - k,
        {
            let entry = &self.entries[k];
            let bytes = entry.term.as_str().as_bytes();
            if bytes.len() > u16::MAX as usize || entry.postings.len() > u32::MAX as usize {
                assert(!entry_fits(self.entries@[k as int]));
                return None;
            }
            let ghost before = buf@;
            put_u16(&mut buf, bytes.len() as u16);
            put_bytes(&mut buf, bytes);
            put_u32(&mut buf, entry.postings.len() as u32);
            let ghost start = buf@;
            let mut i: usize = 0;
            assert(entry.postings@.take(0) =~= Seq::<Posting>::empty());
            assert(buf@ =~= start + postings_bytes(entry.postings@.take(0)));
            while i < entry.postings.len()
                invariant
                    i <= entry.postings@.len(),
                    buf@ == start + postings_bytes(entry.postings@.take(i as int)),
                decreases entry.postings@.len() - i,
            {
                let p = entry.postings[i];
                put_u64(&mut buf, p.node_id);
                put_u32(&mut buf, p.term_freq);
                proof {
                    assert(entry.postings@.take(i + 1).drop_last() =~= entry.postings@.take(
                        i as int,
                    ));
                    assert(entry.postings@.take(i + 1).last() == p);
                    assert(buf@ =~= start + postings_bytes(entry.postings@.take(i + 1)));
                }
                i += 1;
            }
            proof {
                assert(entry.postings@.take(i as int) =~= entry.postings@);
                let ev = views[k as int];
                assert(ev.term == entry.term@ && ev.postings == entry.postings@);
                assert(views.take(k + 1) =~= views.take(k as int).push(ev));
                lemma_entries_bytes_push(views.take(k as int), ev);
                assert(buf@ =~= before + entry_bytes(ev.term, ev.postings));
                assert(buf@ =~= head + entries_bytes(views.take(k + 1)));
            }
            k += 1;
        }
        assert(views.take(k as int) =~= views);
        Some(buf)
    }

    /// Reads a serialized index. Data that is too short, or whose terms
    /// or postings are not in order, gives no index. The data do not say
    /// which documents were counted, nor how many tokens each has: the
    /// index that is read has the count that was written, and knows the
    /// documents that its postings are of, with no tokens recorded.
    pub fn from_bytes(data: &[u8]) -> (r: Option<TermIndex>)
        ensures
            r is Some <==> parsed(data@) is Some && entries_ordered(parsed(data@)->0.entries),
            r is Some ==> r->0.wf() && r->0.documents() == parsed(data@)->0.doc_count
                && r->0.average() == parsed(data@)->0.avg_doc_length && r->0.listing() == parsed(
                data@,
            )->0.entries && r->0.tokens_total() == 0,
            r is Some ==> forall|id: u64| #[trigger]
                r->0.holds(id) <==> mentioned(parsed(data@)->0.entries, id),
            r is Some ==> forall|id: u64| #[trigger] r->0.recorded(id) == 0,
    {
        let total = data.len();
        if total < 16 {
            return None;
        }
        let doc_count = read_u64(data, 0);
        let avg = read_u32(data, 8);
        let n = read_u32(data, 12) as usize;
        let mut entries: Vec<TermEntry> = Vec::new();
        let mut pos: usize = 16;
        let mut k: usize = 0;
        assert(entry_views(entries@) =~= Seq::<EntryView>::empty());
        while k < n
            invariant
                k <= n,
                16 <= pos <= data@.len(),
                total == data@.len(),
                n == u32_at(data@, 12),
                entries@.len() == k,
                entries_in(data@, 16, n as nat) == match entries_in(
                    data@,
                    pos as int,
                    (n - k) as nat,
                ) {
                    Some(rest) => Some(entry_views(entries@) + rest),
                    None => None,
                },
            decreases n - k,
        {
            match read_entry(data, pos) {
                None => {
                    return None;
                },
                Some((entry, next)) => {
                    let ghost before = entry_views(entries@);
                    let ghost ev = EntryView { term: entry.term@, postings: entry.postings@ };
                    entries.push(entry);
                    proof {
                        assert(entry_views(entries@) =~= before.push(ev));
                        match entries_in(data@, next as int, (n - k - 1) as nat) {
                            Some(rest) => {
                                assert(before + (seq![ev] + rest) =~= before.push(ev) + rest);
                            },
                            None => {},
                        }
                    }
                    pos = next;
                },
            }
            k += 1;
        }
        let ghost views = entry_views(entries@);
        proof {
            assert(views + Seq::<EntryView>::empty() =~= views);
            assert(parsed(data@) == Some(
                ParsedIndex { doc_count, avg_doc_length: avg, entries: views },
            ));
        }
        let mut j: usize = 0;
        while j < entries.len()
            invariant
                j <= entries@.len(),
                views == entry_views(entries@),
                parsed(data@) == Some(
                    ParsedIndex { doc_count, avg_doc_length: avg, entries: views },
                ),
                forall|a: int, b: int|
                    0 <= a < b < j ==> comes_first(
                        (#[trigger] views[a]).term,
                        (#[trigger] views[b]).term,
                    ),
                forall|x: int| 0 <= x < j ==> by_id((#[trigger] views[x]).postings),
            decreases entries@.len() - j,
        {
            if !postings_ascend(&entries[j].postings) {
                assert(!by_id(views[j as int].postings));
                return None;
            }
            if j > 0 {
                let a = chars_of(entries[j - 1].term.as_str());
                let b = chars_of(entries[j].term.as_str());
                match compare_terms(&a, &b) {
                    Standing::Before => {
                        proof {
                            assert forall|x: int, y: int| 0 <= x < y < j + 1 implies comes_first(
                                (#[trigger] views[x]).term,
                                (#[trigger] views[y]).term,
                            ) by {
                                if y == j && x < j - 1 {
                                    assert(comes_first(views[x].term, views[j - 1].term));
                                    lemma_transitive(
                                        views[x].term,
                                        views[j - 1].term,
                                        views[j as int].term,
                                    );
                                }
                            }
                        }
                    },
                    _ => {
                        proof {
                            lemma_total(views[j - 1].term, views[j as int].term);
                            lemma_irreflexive(views[j as int].term);
                            assert(!comes_first(views[j - 1].term, views[j as int].term));
                        }
                        return None;
                    },
                }
            }
            j += 1;
        }
        let docs = marks_of(&entries);
        let index = TermIndex { entries, docs, doc_count, total_tokens: 0, avg_doc_length: avg };
        proof {
            assert forall|id: u64| #[trigger]
                index.holds(id) <==> mentioned(entry_views(index.entries@), id) by {
                assert(index.holds(id) == has_mark(index.docs@, id));
            }
            assert forall|id: u64| #[trigger] index.recorded(id) == 0 by {
                if index.holds(id) {
                    let i = choose|i: int| mark_in(index.docs@, id, i);
                    assert(index.docs@[i].tokens == 0);
                }
            }
            assert forall|a: int, b: int| 0 <= a < b < index.entries@.len() implies comes_first(
                (#[trigger] index.entries@[a]).term@,
                (#[trigger] index.entries@[b]).term@,
            ) by {
                assert(comes_first(views[a].term, views[b].term));
            }
            assert forall|x: int| 0 <= x < index.entries@.len() implies by_id(
                (#[trigger] index.entries@[x]).postings@,
            ) by {
                assert(by_id(views[x].postings));
            }
        }
        Some(index)
    }

    /// The index of a graph's nodes.
    pub fn build(graph: &MemoryGraph, tokenizer: &Tokenizer) -> (r: TermIndex)
        requires
            graph@.wf(),
            tokenizer.wf(),
        ensures
            r.wf(),
            r.reflects(graph@.nodes),
            r.average() == 0,
            r.documents() == graph@.nodes.len(),
            r.knows(graph@.nodes),
            r.tokens_total() == capped_tokens(token_total(graph@.nodes)),
    {
        let mut index = TermIndex::new();
        let nodes = graph.nodes();
        let mut i: usize = 0;
        proof {
            lemma_no_postings(graph@.nodes.take(0));
        }
        while i < nodes.len()
            invariant
                i <= nodes@.len(),
                graph@.wf(),
                tokenizer.wf(),
                event_views(nodes@) == graph@.nodes,
                index.wf(),
                index.average() == 0,
                index.documents() == i,
                index.knows(graph@.nodes.take(i as int)),
                index.tokens_total() == capped_tokens(token_total(graph@.nodes.take(i as int))),
                index.reflects(graph@.nodes.take(i as int)),
            decreases nodes@.len() - i,
        {
            let ghost before = index;
            proof {
                let prev = graph@.nodes.take(i as int);
                let e = nodes@[i as int]@;
                assert(graph@.nodes[i as int] == e);
                assert(!has_id(prev, e.id)) by {
                    if has_id(prev, e.id) {
                        let j = choose|j: int| 0 <= j < prev.len() && (#[trigger] prev[j]).id == e.id;
                        assert(graph@.nodes[j].id < graph@.nodes[i as int].id);
                    }
                }
            }
            index.add_with(tokenizer, &nodes[i]);
            proof {
                let prev = graph@.nodes.take(i as int);
                let next = graph@.nodes.take(i + 1);
                let e = nodes@[i as int]@;
                assert(next =~= prev.push(e));
                assert(next.drop_last() =~= prev);
                assert forall|j: int| 0 <= j < prev.len() implies (#[trigger] prev[j]).id != e.id by {
                    assert(graph@.nodes[j].id < graph@.nodes[i as int].id);
                }
                lemma_terms_added(before, index, prev, e);
                assert forall|id: u64| #[trigger] index.holds(id) <==> has_id(next, id) by {
                    if has_id(prev, id) {
                        let j = choose|j: int| 0 <= j < prev.len() && (#[trigger] prev[j]).id == id;
                        assert(next[j].id == id);
                    }
                    if has_id(next, id) {
                        let j = choose|j: int| 0 <= j < next.len() && (#[trigger] next[j]).id == id;
                        if j < prev.len() {
                            assert(prev[j].id == id);
                        }
                    }
                    if id == e.id {
                        assert(next[i as int].id == id);
                    }
                }
            }
            i += 1;
        }
        assert(graph@.nodes.take(i as int) =~= graph@.nodes);
        index
    }

    /// Replaces the index by the index of a graph's nodes.
    pub fn rebuild(&mut self, graph: &MemoryGraph)
        requires
            graph@.wf(),
        ensures
            final(self).wf(),
            final(self).reflects(graph@.nodes),
            final(self).average() == 0,
            final(self).documents() == graph@.nodes.len(),
            final(self).knows(graph@.nodes),
            final(self).tokens_total() == capped_tokens(token_total(graph@.nodes)),
    {
        let tokenizer = Tokenizer::new();
        *self = TermIndex::build(graph, &tokenizer);
    }
}

/// No posting stands for a node where there are no nodes.
pub proof fn lemma_no_postings(nodes: Seq<EventView>)
    requires
        nodes.len() == 0,
    ensures
        forall|term: Seq<char>, p: Posting| !has_posting(nodes, term, p),
{
}

/// An index that has taken up one more node records the nodes with it.
pub proof fn lemma_terms_added(
    before: TermIndex,
    after: TermIndex,
    nodes: Seq<EventView>,
    e: EventView,
)
    requires
        before.reflects(nodes),
        forall|i: int| 0 <= i < nodes.len() ==> (#[trigger] nodes[i]).id != e.id,
        forall|t: Seq<char>, q: Posting|
            #![trigger after.postings_of(t).contains(q)]
            after.postings_of(t).contains(q) <==> (before.postings_of(t).contains(q) && (q.node_id
                != e.id || !tokens(e.content).contains(t))) || (q.node_id == e.id && tokens(
                e.content,
            ).contains(t) && q.term_freq == frequency(e, t)),
    ensures
        after.reflects(nodes.push(e)),
{
    let next = nodes.push(e);
    assert forall|t: Seq<char>, q: Posting|
        #![trigger after.postings_of(t).contains(q)]
        after.postings_of(t).contains(q) <==> has_posting(next, t, q) by {
        assert(before.postings_of(t).contains(q) <==> has_posting(nodes, t, q));
        if has_posting(nodes, t, q) {
            let j = choose|j: int|
                0 <= j < nodes.len() && (#[trigger] nodes[j]).id == q.node_id && tokens(
                    nodes[j].content,
                ).contains(t) && q.term_freq == frequency(nodes[j], t);
            assert(next[j] == nodes[j]);
            assert(nodes[j].id != e.id);
        }
        if has_posting(next, t, q) {
            let j = choose|j: int|
                0 <= j < next.len() && (#[trigger] next[j]).id == q.node_id && tokens(
                    next[j].content,
                ).contains(t) && q.term_freq == frequency(next[j], t);
            if j < nodes.len() {
                assert(nodes[j] == next[j]);
                assert(nodes[j].id != e.id);
            }
        }
        if q.node_id == e.id && tokens(e.content).contains(t) && q.term_freq == frequency(e, t) {
            assert(next[nodes.len() as int] == e);
        }
    }
}

/// An index that has dropped a node records the nodes without it.
pub proof fn lemma_terms_removed(
    before: TermIndex,
    after: TermIndex,
    nodes: Seq<EventView>,
    pos: int,
)
    requires
        before.reflects(nodes),
        distinct_ids(nodes),
        0 <= pos < nodes.len(),
        forall|t: Seq<char>, q: Posting|
            #![trigger after.postings_of(t).contains(q)]
            after.postings_of(t).contains(q) <==> before.postings_of(t).contains(q) && q.node_id
                != nodes[pos].id,
    ensures
        after.reflects(nodes.remove(pos)),
{
    let next = nodes.remove(pos);
    assert forall|t: Seq<char>, q: Posting|
        #![trigger after.postings_of(t).contains(q)]
        after.postings_of(t).contains(q) <==> has_posting(next, t, q) by {
        assert(before.postings_of(t).contains(q) <==> has_posting(nodes, t, q));
        if has_posting(nodes, t, q) && q.node_id != nodes[pos].id {
            let j = choose|j: int|
                0 <= j < nodes.len() && (#[trigger] nodes[j]).id == q.node_id && tokens(
                    nodes[j].content,
                ).contains(t) && q.term_freq == frequency(nodes[j], t);
            let k = if j < pos { j } else { j - 1 };
            assert(next[k] == nodes[j]);
        }
        if has_posting(next, t, q) {
            let k = choose|k: int|
                0 <= k < next.len() && (#[trigger] next[k]).id == q.node_id && tokens(
                    next[k].content,
                ).contains(t) && q.term_freq == frequency(next[k], t);
            let j = if k < pos { k } else { k + 1 };
            assert(nodes[j] == next[k]);
            if j < pos {
                assert(nodes[j].id != nodes[pos].id);
            } else {
                assert(nodes[pos].id != nodes[j].id);
            }
        }
    }
}

/// An index still records the nodes after one of them was replaced by a
/// node of the same id and content.
pub proof fn lemma_terms_kept(index: TermIndex, nodes: Seq<EventView>, pos: int, e: EventView)
    requires
        index.reflects(nodes),
        0 <= pos < nodes.len(),
        e.id == nodes[pos].id,
        e.content == nodes[pos].content,
    ensures
        index.reflects(nodes.update(pos, e)),
{
    let next = nodes.update(pos, e);
    assert forall|t: Seq<char>, q: Posting|
        #![trigger index.postings_of(t).contains(q)]
        index.postings_of(t).contains(q) <==> has_posting(next, t, q) by {
        assert(index.postings_of(t).contains(q) <==> has_posting(nodes, t, q));
        if has_posting(nodes, t, q) {
            let j = choose|j: int|
                0 <= j < nodes.len() && (#[trigger] nodes[j]).id == q.node_id && tokens(
                    nodes[j].content,
                ).contains(t) && q.term_freq == frequency(nodes[j], t);
            assert(next[j].id == q.node_id && next[j].content == nodes[j].content);
        }
        if has_posting(next, t, q) {
            let j = choose|j: int|
                0 <= j < next.len() && (#[trigger] next[j]).id == q.node_id && tokens(
                    next[j].content,
                ).contains(t) && q.term_freq == frequency(next[j], t);
            assert(nodes[j].id == q.node_id && nodes[j].content == next[j].content);
        }
    }
}

/// Whether the postings ascend strictly by node id.
fn postings_ascend(list: &Vec<Posting>) -> (r: bool)
    ensures
        r == by_id(list@),
{
    let mut i: usize = 1;
    while i < list.len()
        invariant
            1 <= i,
            forall|a: int, b: int| 0 <= a < b < i && b < list@.len() ==> list@[a].node_id < list@[b].node_id,
        decreases list@.len() - i,
    {
        if list[i - 1].node_id >= list[i].node_id {
            return false;
        }
        proof {
            assert forall|a: int, b: int| 0 <= a < b < i + 1 && b < list@.len() implies list@[a].node_id
                < list@[b].node_id by {
                if b == i && a < i - 1 {
                    assert(list@[a].node_id < list@[i - 1].node_id);
                }
            }
        }
        i += 1;
    }
    true
}

/// Reads the entry that stands at `at`.
fn read_entry(data: &[u8], at: usize) -> (r: Option<(TermEntry, usize)>)
    requires
        at <= data@.len(),
    ensures
        match r {
            Some((entry, next)) => entry_in(data@, at as int) == Some(
                EntryView { term: entry.term@, postings: entry.postings@ },
            ) && next == entry_end(data@, at as int) && at < next <= data@.len(),
            None => entry_in(data@, at as int) is None,
        },
{
    let n = data.len();
    if n - at < 2 {
        return None;
    }
    let term_len = read_u16(data, at) as usize;
    if n - at - 2 < term_len || n - at - 2 - term_len < 4 {
        return None;
    }
    let count = read_u32(data, at + 2 + term_len) as usize;
    let room = n - at - 2 - term_len - 4;
    if count > room / 12 {
        return None;
    }
    assert(12 * count <= room);
    let text = slice_subrange(data, at + 2, at + 2 + term_len);
    let term = match utf8_text(text) {
        None => {
            return None;
        },
        Some(t) => t,
    };
    let base = at + 2 + term_len + 4;
    let mut postings: Vec<Posting> = Vec::new();
    let mut i: usize = 0;
    while i < count
        invariant
            i <= count,
            base + 12 * count <= data@.len(),
            n == data@.len(),
            postings@.len() == i,
            forall|j: int| 0 <= j < i ==> postings@[j] == posting_at(data@, base + 12 * j),
        decreases count - i,
    {
        postings.push(
            Posting {
                node_id: read_u64(data, base + 12 * i),
                term_freq: read_u32(data, base + 12 * i + 8),
            },
        );
        i += 1;
    }
    assert(postings@ =~= Seq::new(
        count as nat,
        |j: int| posting_at(data@, at + 2 + term_len + 4 + 12 * j),
    ));
    Some((TermEntry { term, postings }, base + 12 * count))
}

/// An index that knows the nodes knows them and one more after that one was
/// added.
pub proof fn lemma_knows_added(before: TermIndex, after: TermIndex, nodes: Seq<EventView>, e: EventView)
    requires
        before.knows(nodes),
        forall|x: u64| #[trigger] after.holds(x) == (before.holds(x) || x == e.id),
    ensures
        after.knows(nodes.push(e)),
{
    let next = nodes.push(e);
    assert forall|id: u64| #[trigger] after.holds(id) <==> has_id(next, id) by {
        if has_id(nodes, id) {
            let j = choose|j: int| 0 <= j < nodes.len() && (#[trigger] nodes[j]).id == id;
            assert(next[j].id == id);
        }
        if has_id(next, id) {
            let j = choose|j: int| 0 <= j < next.len() && (#[trigger] next[j]).id == id;
            if j < nodes.len() {
                assert(nodes[j].id == id);
            }
        }
        if id == e.id {
            assert(next[nodes.len() as int].id == id);
        }
    }
}

/// An index that knows the nodes knows the others after one was removed.
pub proof fn lemma_knows_removed(before: TermIndex, after: TermIndex, nodes: Seq<EventView>, pos: int)
    requires
        before.knows(nodes),
        distinct_ids(nodes),
        0 <= pos < nodes.len(),
        forall|x: u64| #[trigger] after.holds(x) == (before.holds(x) && x != nodes[pos].id),
    ensures
        after.knows(nodes.remove(pos)),
{
    let next = nodes.remove(pos);
    assert forall|id: u64| #[trigger] after.holds(id) <==> has_id(next, id) by {
        if has_id(next, id) {
            let j = choose|j: int| 0 <= j < next.len() && (#[trigger] next[j]).id == id;
            let j0 = if j < pos { j } else { j + 1 };
            assert(nodes[j0].id == id);
            if j0 < pos {
                assert(nodes[j0].id != nodes[pos].id);
            } else {
                assert(nodes[pos].id != nodes[j0].id);
            }
        }
        if has_id(nodes, id) && id != nodes[pos].id {
            let j = choose|j: int| 0 <= j < nodes.len() && (#[trigger] nodes[j]).id == id;
            let j1 = if j < pos { j } else { j - 1 };
            assert(next[j1].id == id);
        }
    }
}

/// An index that knows the nodes knows them when one is replaced by a node
/// of the same id.
pub proof fn lemma_knows_kept(index: TermIndex, nodes: Seq<EventView>, pos: int, e: EventView)
    requires
        index.knows(nodes),
        0 <= pos < nodes.len(),
        e.id == nodes[pos].id,
    ensures
        index.knows(nodes.update(pos, e)),
{
    let next = nodes.update(pos, e);
    assert forall|id: u64| #[trigger] index.holds(id) <==> has_id(next, id) by {
        if has_id(nodes, id) {
            let j = choose|j: int| 0 <= j < nodes.len() && (#[trigger] nodes[j]).id == id;
            assert(next[j].id == id);
        }
        if has_id(next, id) {
            let j = choose|j: int| 0 <= j < next.len() && (#[trigger] next[j]).id == id;
            assert(nodes[j].id == id);
        }
    }
}

} // verus!
