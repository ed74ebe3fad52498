//! Document lengths for BM25 normalization: for each node id the number of
//! tokens of the node's content, in a dense table indexed by id.

use vstd::bytes::{spec_u32_from_le_bytes, spec_u32_to_le_bytes, spec_u64_from_le_bytes,
    spec_u64_to_le_bytes, u32_from_le_bytes, u32_to_le_bytes, u64_from_le_bytes, u64_to_le_bytes,
    lemma_auto_spec_u32_to_from_le_bytes, lemma_auto_spec_u64_to_from_le_bytes};
use vstd::prelude::*;
use vstd::slice::slice_subrange;
use crate::graph::MemoryGraph;
use crate::tokenizer::{capped, tokens, Tokenizer};
use crate::types::{CognitiveEvent, EventView};

verus! {

/// `s` extended with zeros to length `n`, or `s` itself if it is that long.
pub open spec fn padded(s: Seq<u32>, n: nat) -> Seq<u32> {
    if s.len() >= n {
        s
    } else {
        s + Seq::new((n - s.len()) as nat, |i: int| 0u32)
    }
}

/// The table after `count` has been recorded for `id`. An id that no table
/// can address leaves the table as it is.
pub open spec fn recorded(s: Seq<u32>, id: u64, count: u32) -> Seq<u32> {
    if id >= usize::MAX {
        s
    } else {
        padded(s, (id + 1) as nat).update(id as int, count)
    }
}

/// The table after the entry of `id` has been cleared.
pub open spec fn cleared(s: Seq<u32>, id: u64) -> Seq<u32> {
    if id < s.len() {
        s.update(id as int, 0u32)
    } else {
        s
    }
}

/// The number of tokens of an event's content, as a table holds it.
pub open spec fn token_count(e: EventView) -> u32 {
    capped(tokens(e.content).len())
}

/// The table of a sequence of nodes: each node's token count recorded under
/// its id, in order.
pub open spec fn lengths_of(nodes: Seq<EventView>) -> Seq<u32>
    decreases nodes.len(),
{
    if nodes.len() == 0 {
        Seq::empty()
    } else {
        recorded(lengths_of(nodes.drop_last()), nodes.last().id, token_count(nodes.last()))
    }
}

/// The number of entries of `s` that are not zero.
pub open spec fn count_nonzero(s: Seq<u32>) -> nat
    decreases s.len(),
{
    if s.len() == 0 {
        0
    } else {
        count_nonzero(s.drop_last()) + if s.last() > 0 { 1nat } else { 0nat }
    }
}

/// The sum of the entries of `s`.
pub open spec fn sum(s: Seq<u32>) -> nat
    decreases s.len(),
{
    if s.len() == 0 {
        0
    } else {
        sum(s.drop_last()) + s.last() as nat
    }
}

/// The entries of `s`, four little-endian bytes each.
pub open spec fn encoded_entries(s: Seq<u32>) -> Seq<u8>
    decreases s.len(),
{
    if s.len() == 0 {
        Seq::empty()
    } else {
        encoded_entries(s.drop_last()) + spec_u32_to_le_bytes(s.last())
    }
}

/// The serialized form of a table: the number of entries as eight
/// little-endian bytes, then the entries.
pub open spec fn encoded(s: Seq<u32>) -> Seq<u8> {
    spec_u64_to_le_bytes(s.len() as u64) + encoded_entries(s)
}

/// The number of entries that serialized data announces.
pub open spec fn announced(data: Seq<u8>) -> u64
    recommends
        data.len() >= 8,
{
    spec_u64_from_le_bytes(data.subrange(0, 8))
}

/// The `i`-th entry of serialized data.
pub open spec fn entry_at(data: Seq<u8>, i: int) -> u32 {
    spec_u32_from_le_bytes(data.subrange(8 + 4 * i, 12 + 4 * i))
}

/// The table that serialized data holds, if the data is long enough for its
/// header and for the entries that the header announces. Bytes after the last
/// entry are ignored.
pub open spec fn decoded(data: Seq<u8>) -> Option<Seq<u32>> {
    if data.len() < 8 {
        None
    } else if 8 + 4 * announced(data) > data.len() {
        None
    } else {
        Some(Seq::new(announced(data) as nat, |i: int| entry_at(data, i)))
    }
}

/// The serialized entries take four bytes each, and the `i`-th entry stands
/// at offset `4 * i`.
pub proof fn lemma_encoded_entries(s: Seq<u32>)
    ensures
        encoded_entries(s).len() == 4 * s.len(),
        forall|i: int|
            0 <= i < s.len() ==> #[trigger] encoded_entries(s).subrange(4 * i, 4 * i + 4)
                == spec_u32_to_le_bytes(s[i]),
    decreases s.len(),
{
    lemma_auto_spec_u32_to_from_le_bytes();
    if s.len() > 0 {
        let p = s.drop_last();
        lemma_encoded_entries(p);
        let full = encoded_entries(s);
        assert forall|i: int| 0 <= i < s.len() implies #[trigger] full.subrange(4 * i, 4 * i + 4)
            == spec_u32_to_le_bytes(s[i]) by {
            if i < p.len() {
                assert(full.subrange(4 * i, 4 * i + 4) =~= encoded_entries(p).subrange(
                    4 * i,
                    4 * i + 4,
                ));
                assert(p[i] == s[i]);
            } else {
                assert(full.subrange(4 * i, 4 * i + 4) =~= spec_u32_to_le_bytes(s.last()));
            }
        }
    }
}

/// Reading a serialized table gives the table back.
pub proof fn lemma_round_trip(s: Seq<u32>)
    requires
        s.len() <= u64::MAX,
    ensures
        decoded(encoded(s)) == Some(s),
{
    lemma_auto_spec_u32_to_from_le_bytes();
    lemma_auto_spec_u64_to_from_le_bytes();
    lemma_encoded_entries(s);
    let data = encoded(s);
    let head = spec_u64_to_le_bytes(s.len() as u64);
    assert(data.subrange(0, 8) =~= head);
    assert(announced(data) == s.len());
    let got = Seq::new(announced(data) as nat, |i: int| entry_at(data, i));
    assert forall|i: int| 0 <= i < s.len() implies got[i] == s[i] by {
        assert(data.subrange(8 + 4 * i, 12 + 4 * i) =~= encoded_entries(s).subrange(
            4 * i,
            4 * i + 4,
        ));
    }
    assert(got =~= s);
}

/// Document length table.
pub struct DocLengths {
    lengths: Vec<u32>,
}

impl View for DocLengths {
    type V = Seq<u32>;

    closed spec fn view(&self) -> Seq<u32> {
        self.lengths@
    }
}

impl DocLengths {
    /// The entry of `id`: what was recorded for it, or zero.
    pub open spec fn entry(&self, id: u64) -> u32 {
        if id < self@.len() {
            self@[id as int]
        } else {
            0
        }
    }

    /// An empty table.
    pub fn new() -> (r: DocLengths)
        ensures
            r@ == Seq::<u32>::empty(),
    {
        DocLengths { lengths: Vec::new() }
    }

    /// The table of a graph's nodes.
    pub fn build(graph: &MemoryGraph, tokenizer: &Tokenizer) -> (r: DocLengths)
        requires
            tokenizer.wf(),
        ensures
            r@ == lengths_of(graph@.nodes),
    {
        let mut table = DocLengths::new();
        let nodes = graph.nodes();
        let mut i: usize = 0;
        assert(graph@.nodes.take(0) =~= Seq::<EventView>::empty());
        while i < nodes.len()
            invariant
                tokenizer.wf(),
                i <= nodes@.len(),
                crate::graph::event_views(nodes@) == graph@.nodes,
                table@ == lengths_of(graph@.nodes.take(i as int)),
            decreases nodes@.len() - i,
        {
            assert(graph@.nodes.take(i + 1).drop_last() =~= graph@.nodes.take(i as int));
            assert(graph@.nodes.take(i + 1).last() == nodes@[i as int]@);
            table.record(&nodes[i], tokenizer);
            i += 1;
        }
        assert(graph@.nodes.take(i as int) =~= graph@.nodes);
        table
    }

    /// Records the token count of `event` under its id.
    fn record(&mut self, event: &CognitiveEvent, tokenizer: &Tokenizer)
        requires
            tokenizer.wf(),
        ensures
            final(self)@ == recorded(old(self)@, event@.id, token_count(event@)),
    {
        let toks = tokenizer.tokenize(event.content.as_str());
        let n = toks.len();
        assert(crate::tokenizer::texts(toks@).len() == n);
        let count: u32 = if n >= u32::MAX as usize { u32::MAX } else { n as u32 };
        if event.id >= usize::MAX as u64 {
            return;
        }
        let idx = event.id as usize;
        let ghost before = self.lengths@;
        while self.lengths.len() <= idx
            invariant
                idx < usize::MAX,
                before.len() <= self.lengths@.len(),
                self.lengths@.len() <= idx + 1 || self.lengths@.len() == before.len(),
                self.lengths@ == padded(before, self.lengths@.len() as nat),
            decreases idx + 1 - self.lengths@.len(),
        {
            self.lengths.push(0);
            assert(self.lengths@ =~= padded(before, self.lengths@.len() as nat));
        }
        assert(self.lengths@ =~= padded(before, (idx + 1) as nat));
        self.lengths.set(idx, count);
    }

    /// The token count recorded for a node, zero if there is none.
    pub fn get(&self, node_id: u64) -> (r: u32)
        ensures
            r == self.entry(node_id),
    {
        if node_id < self.lengths.len() as u64 {
            self.lengths[node_id as usize]
        } else {
            0
        }
    }

    /// The number of nodes with a count above zero.
    pub fn len(&self) -> (r: usize)
        ensures
            r == count_nonzero(self@),
    {
        let mut n: usize = 0;
        let mut i: usize = 0;
        assert(self.lengths@.take(0) =~= Seq::<u32>::empty());
        while i < self.lengths.len()
            invariant
                i <= self.lengths@.len(),
                n <= i,
                n == count_nonzero(self.lengths@.take(i as int)),
            decreases self.lengths@.len() - i,
        {
            assert(self.lengths@.take(i + 1).drop_last() =~= self.lengths@.take(i as int));
            if self.lengths[i] > 0 {
                n += 1;
            }
            i += 1;
        }
        assert(self.lengths@.take(i as int) =~= self.lengths@);
        n
    }

    /// Whether no node has a count above zero.
    pub fn is_empty(&self) -> (r: bool)
        ensures
            r == (count_nonzero(self@) == 0),
    {
        self.len() == 0
    }

    /// The sum of all counts, or the largest `u64` if the sum exceeds it.
    pub fn total(&self) -> (r: u64)
        ensures
            r == if sum(self@) >= u64::MAX { u64::MAX } else { sum(self@) as u64 },
    {
        let mut t: u64 = 0;
        let mut i: usize = 0;
        assert(self.lengths@.take(0) =~= Seq::<u32>::empty());
        while i < self.lengths.len()
            invariant
                i <= self.lengths@.len(),
                t == if sum(self.lengths@.take(i as int)) >= u64::MAX {
                    u64::MAX
                } else {
                    sum(self.lengths@.take(i as int)) as u64
                },
            decreases self.lengths@.len() - i,
        {
            assert(self.lengths@.take(i + 1).drop_last() =~= self.lengths@.take(i as int));
            let x = self.lengths[i] as u64;
            if t > u64::MAX - x {
                t = u64::MAX;
            } else {
                t = t + x;
            }
            i += 1;
        }
        assert(self.lengths@.take(i as int) =~= self.lengths@);
        t
    }

    /// Records the token count of a new node.
    pub fn add_node(&mut self, event: &CognitiveEvent)
        ensures
            final(self)@ == recorded(old(self)@, event@.id, token_count(event@)),
    {
        let tokenizer = Tokenizer::new();
        self.record(event, &tokenizer);
    }

    /// Clears the entry of a removed node.
    pub fn remove_node(&mut self, id: u64)
        ensures
            final(self)@ == cleared(old(self)@, id),
    {
        if id < self.lengths.len() as u64 {
            self.lengths.set(id as usize, 0);
        }
    }

    /// Empties the table.
    pub fn clear(&mut self)
        ensures
            final(self)@ == Seq::<u32>::empty(),
    {
        self.lengths.clear();
    }

    /// Replaces the table by the table of a graph's nodes.
    pub fn rebuild(&mut self, graph: &MemoryGraph)
        ensures
            final(self)@ == lengths_of(graph@.nodes),
    {
        let tokenizer = Tokenizer::new();
        *self = DocLengths::build(graph, &tokenizer);
    }

    /// The serialized form of the table.
    pub fn to_bytes(&self) -> (r: Vec<u8>)
        ensures
            r@ == encoded(self@),
    {
        let mut buf: Vec<u8> = u64_to_le_bytes(self.lengths.len() as u64);
        let mut i: usize = 0;
        assert(self.lengths@.take(0) =~= Seq::<u32>::empty());
        while i < self.lengths.len()
            invariant
                i <= self.lengths@.len(),
                buf@ == spec_u64_to_le_bytes(self.lengths@.len() as u64) + encoded_entries(
                    self.lengths@.take(i as int),
                ),
            decreases self.lengths@.len() - i,
        {
            assert(self.lengths@.take(i + 1).drop_last() =~= self.lengths@.take(i as int));
            let mut word = u32_to_le_bytes(self.lengths[i]);
            buf.append(&mut word);
            assert(buf@ =~= spec_u64_to_le_bytes(self.lengths@.len() as u64) + encoded_entries(
                self.lengths@.take(i + 1),
            ));
            i += 1;
        }
        assert(self.lengths@.take(i as int) =~= self.lengths@);
        buf
    }

    /// Reads a serialized table. Data too short for its header, or for the
    /// entries that the header announces, gives `None`.
    pub fn from_bytes(data: &[u8]) -> (r: Option<DocLengths>)
        ensures
            r is Some <==> decoded(data@) is Some,
            r is Some ==> r->0@ == decoded(data@)->0,
    {
        if data.len() < 8 {
            return None;
        }
        let count = u64_from_le_bytes(slice_subrange(data, 0, 8));
        let room = ((data.len() - 8) / 4) as u64;
        if count > room {
            return None;
        }
        let n = count as usize;
        assert(4 * room <= data@.len() - 8);
        assert(8 + 4 * n <= data@.len());
        let mut lengths: Vec<u32> = Vec::new();
        let mut i: usize = 0;
        while i < n
            invariant
                i <= n,
                n == announced(data@),
                8 + 4 * n <= data@.len() <= usize::MAX,
                lengths@.len() == i,
                forall|j: int| 0 <= j < i ==> lengths@[j] == entry_at(data@, j),
            decreases n - i,
        {
            let word = u32_from_le_bytes(slice_subrange(data, 8 + 4 * i, 12 + 4 * i));
            lengths.push(word);
            i += 1;
        }
        assert(lengths@ =~= decoded(data@)->0);
        Some(DocLengths { lengths })
    }
}

/// The length that a table should hold for an id: the token count of the
/// node with that id, zero if there is none.
pub open spec fn expected_length(nodes: Seq<EventView>, id: u64) -> u32
    decreases nodes.len(),
{
    if nodes.len() == 0 {
        0
    } else if nodes.last().id == id {
        token_count(nodes.last())
    } else {
        expected_length(nodes.drop_last(), id)
    }
}

/// The entry of a table for an id.
pub open spec fn entry_in(s: Seq<u32>, id: u64) -> u32 {
    if id < s.len() {
        s[id as int]
    } else {
        0
    }
}

/// Whether a table holds, for every id that a table can address, the token
/// count of the node with that id, and zero where there is no such node.
pub open spec fn holds_lengths(s: Seq<u32>, nodes: Seq<EventView>) -> bool {
    forall|id: u64| id < usize::MAX ==> #[trigger] entry_in(s, id) == expected_length(nodes, id)
}

/// The length expected for an id that no node has is zero.
pub proof fn lemma_expected_absent(nodes: Seq<EventView>, id: u64)
    requires
        forall|i: int| 0 <= i < nodes.len() ==> (#[trigger] nodes[i]).id != id,
    ensures
        expected_length(nodes, id) == 0,
    decreases nodes.len(),
{
    if nodes.len() > 0 {
        assert(nodes[nodes.len() - 1].id != id);
        assert forall|i: int| 0 <= i < nodes.drop_last().len() implies (
        #[trigger] nodes.drop_last()[i]).id != id by {
            assert(nodes[i].id != id);
        }
        lemma_expected_absent(nodes.drop_last(), id);
    }
}

/// The length expected for the id of a node is the token count of the
/// node, where no two nodes have the same id.
pub proof fn lemma_expected_present(nodes: Seq<EventView>, pos: int)
    requires
        0 <= pos < nodes.len(),
        forall|i: int, j: int|
            0 <= i < j < nodes.len() ==> (#[trigger] nodes[i]).id != (#[trigger] nodes[j]).id,
    ensures
        expected_length(nodes, nodes[pos].id) == token_count(nodes[pos]),
    decreases nodes.len(),
{
    if pos < nodes.len() - 1 {
        assert(nodes[pos].id != nodes[nodes.len() - 1].id);
        assert(nodes.drop_last()[pos] == nodes[pos]);
        assert forall|i: int, j: int| 0 <= i < j < nodes.drop_last().len() implies (
        #[trigger] nodes.drop_last()[i]).id != (#[trigger] nodes.drop_last()[j]).id by {
            assert(nodes[i].id != nodes[j].id);
        }
        lemma_expected_present(nodes.drop_last(), pos);
    }
}

/// A table that has recorded one more node holds the lengths of the nodes
/// with it.
pub proof fn lemma_lengths_added(before: Seq<u32>, nodes: Seq<EventView>, e: EventView)
    requires
        holds_lengths(before, nodes),
    ensures
        holds_lengths(recorded(before, e.id, token_count(e)), nodes.push(e)),
{
    let after = recorded(before, e.id, token_count(e));
    let next = nodes.push(e);
    assert(next.drop_last() =~= nodes);
    assert forall|id: u64| id < usize::MAX implies #[trigger] entry_in(after, id)
        == expected_length(next, id) by {
        assert(entry_in(before, id) == expected_length(nodes, id));
    }
}

/// A table that has cleared the entry of a node holds the lengths of the
/// nodes without it.
pub proof fn lemma_lengths_removed(before: Seq<u32>, nodes: Seq<EventView>, pos: int)
    requires
        holds_lengths(before, nodes),
        0 <= pos < nodes.len(),
        forall|i: int, j: int|
            0 <= i < j < nodes.len() ==> (#[trigger] nodes[i]).id != (#[trigger] nodes[j]).id,
    ensures
        holds_lengths(cleared(before, nodes[pos].id), nodes.remove(pos)),
{
    let gone = nodes[pos].id;
    let after = cleared(before, gone);
    let next = nodes.remove(pos);
    assert forall|id: u64| id < usize::MAX implies #[trigger] entry_in(after, id)
        == expected_length(next, id) by {
        assert(entry_in(before, id) == expected_length(nodes, id));
        lemma_expected_without(nodes, pos, id);
    }
}

/// What is expected of the nodes without one of them.
proof fn lemma_expected_without(nodes: Seq<EventView>, pos: int, id: u64)
    requires
        0 <= pos < nodes.len(),
        forall|i: int, j: int|
            0 <= i < j < nodes.len() ==> (#[trigger] nodes[i]).id != (#[trigger] nodes[j]).id,
    ensures
        expected_length(nodes.remove(pos), id) == if id == nodes[pos].id {
            0u32
        } else {
            expected_length(nodes, id)
        },
    decreases nodes.len(),
{
    let next = nodes.remove(pos);
    if pos == nodes.len() - 1 {
        assert(next =~= nodes.drop_last());
        if id == nodes[pos].id {
            assert forall|i: int| 0 <= i < next.len() implies (#[trigger] next[i]).id != id by {
                assert(nodes[i].id != nodes[pos].id);
            }
            lemma_expected_absent(next, id);
        }
    } else {
        assert(next.last() == nodes.last());
        assert(next.drop_last() =~= nodes.drop_last().remove(pos));
        assert(nodes.drop_last()[pos] == nodes[pos]);
        assert(nodes[pos].id != nodes[nodes.len() - 1].id);
        assert forall|i: int, j: int| 0 <= i < j < nodes.drop_last().len() implies (
        #[trigger] nodes.drop_last()[i]).id != (#[trigger] nodes.drop_last()[j]).id by {
            assert(nodes[i].id != nodes[j].id);
        }
        lemma_expected_without(nodes.drop_last(), pos, id);
    }
}

/// A table still holds the lengths after a node was replaced by a node of
/// the same id and content.
pub proof fn lemma_lengths_kept(table: Seq<u32>, nodes: Seq<EventView>, pos: int, e: EventView)
    requires
        holds_lengths(table, nodes),
        0 <= pos < nodes.len(),
        e.id == nodes[pos].id,
        e.content == nodes[pos].content,
    ensures
        holds_lengths(table, nodes.update(pos, e)),
{
    let next = nodes.update(pos, e);
    assert forall|id: u64| id < usize::MAX implies #[trigger] entry_in(table, id)
        == expected_length(next, id) by {
        assert(entry_in(table, id) == expected_length(nodes, id));
        lemma_expected_same(nodes, pos, e, id);
    }
}

/// What is expected does not change where a node is replaced by a node of
/// the same id and content.
proof fn lemma_expected_same(nodes: Seq<EventView>, pos: int, e: EventView, id: u64)
    requires
        0 <= pos < nodes.len(),
        e.id == nodes[pos].id,
        e.content == nodes[pos].content,
    ensures
        expected_length(nodes.update(pos, e), id) == expected_length(nodes, id),
    decreases nodes.len(),
{
    let next = nodes.update(pos, e);
    if pos == nodes.len() - 1 {
        assert(next.drop_last() =~= nodes.drop_last());
    } else {
        assert(next.last() == nodes.last());
        assert(next.drop_last() =~= nodes.drop_last().update(pos, e));
        assert(nodes.drop_last()[pos] == nodes[pos]);
        lemma_expected_same(nodes.drop_last(), pos, e, id);
    }
}

} // verus!
