//! The nodes in order of time.

use vstd::prelude::*;
use crate::graph::{event_views, MemoryGraph};
use crate::index::type_index::distinct_ids;
use crate::types::{CognitiveEvent, EventView};

verus! {

/// A node and the time of its creation.
#[derive(Clone, Copy, Debug, PartialEq, Eq, Structural)]
pub struct TimeEntry {
    pub created_at: u64,
    pub node_id: u64,
}

/// Whether `a` comes before `b`: by time, and at the same time by id.
pub open spec fn earlier(a: TimeEntry, b: TimeEntry) -> bool {
    a.created_at < b.created_at || (a.created_at == b.created_at && a.node_id < b.node_id)
}

/// Whether each entry comes before all that follow it.
pub open spec fn in_time_order(s: Seq<TimeEntry>) -> bool {
    forall|i: int, j: int| 0 <= i < j < s.len() ==> earlier(s[i], s[j])
}

/// Whether a node with this id and time is among the nodes.
pub open spec fn has_timed(nodes: Seq<EventView>, e: TimeEntry) -> bool {
    exists|i: int|
        0 <= i < nodes.len() && (#[trigger] nodes[i]).id == e.node_id && nodes[i].created_at
            == e.created_at
}

/// The ids of the entries whose time lies between `start` and `end`, both
/// included, in order.
pub open spec fn ids_between(s: Seq<TimeEntry>, start: u64, end: u64) -> Seq<u64>
    decreases s.len(),
{
    if s.len() == 0 {
        Seq::empty()
    } else if start <= s.last().created_at <= end {
        ids_between(s.drop_last(), start, end).push(s.last().node_id)
    } else {
        ids_between(s.drop_last(), start, end)
    }
}

/// The ids of the last `k` entries, latest first.
pub open spec fn latest(s: Seq<TimeEntry>, k: nat) -> Seq<u64> {
    Seq::new(if k < s.len() { k } else { s.len() }, |i: int| s[s.len() - 1 - i].node_id)
}

/// The nodes in order of time, and at the same time in order of id.
pub struct TemporalIndex {
    entries: Vec<TimeEntry>,
}

impl View for TemporalIndex {
    type V = Seq<TimeEntry>;

    closed spec fn view(&self) -> Seq<TimeEntry> {
        self.entries@
    }
}

/// Decides `earlier`.
fn is_earlier(a: TimeEntry, b: TimeEntry) -> (r: bool)
    ensures
        r == earlier(a, b),
{
    a.created_at < b.created_at || (a.created_at == b.created_at && a.node_id < b.node_id)
}

impl TemporalIndex {
    /// The entries are in order of time.
    pub open spec fn wf(&self) -> bool {
        in_time_order(self@)
    }

    /// Whether the index records exactly the given nodes.
    pub open spec fn reflects(&self, nodes: Seq<EventView>) -> bool {
        forall|e: TimeEntry| #[trigger] self@.contains(e) <==> has_timed(nodes, e)
    }

    /// An empty index.
    pub fn new() -> (r: TemporalIndex)
        ensures
            r@ == Seq::<TimeEntry>::empty(),
            r.wf(),
    {
        TemporalIndex { entries: Vec::new() }
    }

    /// The number of entries.
    pub fn len(&self) -> (r: usize)
        ensures
            r == self@.len(),
    {
        self.entries.len()
    }

    /// Records a node at its place in time.
    pub fn add_node(&mut self, event: &CognitiveEvent)
        requires
            old(self).wf(),
        ensures
            final(self).wf(),
            forall|e: TimeEntry| #[trigger]
                final(self)@.contains(e) <==> old(self)@.contains(e) || e == (TimeEntry {
                    created_at: event.created_at,
                    node_id: event.id,
                }),
    {
        let x = TimeEntry { created_at: event.created_at, node_id: event.id };
        let ghost before = self.entries@;
        let mut lo: usize = 0;
        let mut hi: usize = self.entries.len();
        while lo < hi
            invariant
                lo <= hi <= self.entries@.len(),
                self.entries@ == before,
                in_time_order(before),
                forall|i: int| 0 <= i < lo ==> earlier(before[i], x),
                forall|i: int| hi <= i < before.len() ==> !earlier(before[i], x),
            decreases hi - lo,
        {
            let mid = lo + (hi - lo) / 2;
            if is_earlier(self.entries[mid], x) {
                assert forall|i: int| 0 <= i < mid + 1 implies earlier(before[i], x) by {
                    if i < mid {
                        assert(earlier(before[i], before[mid as int]));
                    }
                }
                lo = mid + 1;
            } else {
                assert forall|i: int| mid <= i < before.len() implies !earlier(before[i], x) by {
                    if i > mid {
                        assert(earlier(before[mid as int], before[i]));
                    }
                }
                hi = mid;
            }
        }
        let pos = lo;
        if pos < self.entries.len() && self.entries[pos].created_at == x.created_at
            && self.entries[pos].node_id == x.node_id {
            assert(before[pos as int] == x);
            return;
        }
        self.entries.insert(pos, x);
        proof {
            let after = self.entries@;
            assert forall|i: int, j: int| 0 <= i < j < after.len() implies earlier(
                after[i],
                after[j],
            ) by {
                let a = if i < pos { i } else { i - 1 };
                let b = if j < pos { j } else { j - 1 };
                if i != pos && j != pos {
                    assert(earlier(before[a], before[b]));
                } else if i == pos {
                    assert(after[j] == before[j - 1]);
                    assert(!earlier(before[j - 1], x));
                    if j - 1 > pos {
                        assert(earlier(before[pos as int], before[j - 1]));
                    }
                } else {
                    assert(after[i] == before[i]);
                }
            }
            assert forall|e: TimeEntry| #[trigger] after.contains(e) <==> before.contains(e) || e
                == x by {
                if after.contains(e) {
                    let i = choose|i: int| 0 <= i < after.len() && after[i] == e;
                    if i < pos {
                        assert(before[i] == e);
                    } else if i > pos {
                        assert(before[i - 1] == e);
                    }
                }
                if before.contains(e) {
                    let i = choose|i: int| 0 <= i < before.len() && before[i] == e;
                    if i < pos {
                        assert(after[i] == e);
                    } else {
                        assert(after[i + 1] == e);
                    }
                }
                if e == x {
                    assert(after[pos as int] == x);
                }
            }
        }
    }

    /// Takes a node out of the index.
    pub fn remove_node(&mut self, id: u64)
        requires
            old(self).wf(),
        ensures
            final(self).wf(),
            forall|e: TimeEntry| #[trigger]
                final(self)@.contains(e) <==> old(self)@.contains(e) && e.node_id != id,
    {
        let ghost before = self.entries@;
        let mut kept: Vec<TimeEntry> = Vec::new();
        let mut k: usize = 0;
        while k < self.entries.len()
            invariant
                k <= self.entries@.len(),
                self.entries@ == before,
                in_time_order(before),
                in_time_order(kept@),
                forall|a: int, j: int|
                    0 <= a < kept@.len() && k <= j < before.len() ==> earlier(
                        #[trigger] kept@[a],
                        #[trigger] before[j],
                    ),
                forall|e: TimeEntry| #[trigger]
                    kept@.contains(e) <==> (exists|j: int| 0 <= j < k && before[j] == e)
                        && e.node_id != id,
            decreases self.entries@.len() - k,
        {
            let e0 = self.entries[k];
            let ghost prev = kept@;
            if e0.node_id != id {
                kept.push(e0);
            }
            proof {
                assert forall|a: int, j: int|
                    0 <= a < kept@.len() && k + 1 <= j < before.len() implies earlier(
                    #[trigger] kept@[a],
                    #[trigger] before[j],
                ) by {
                    if a < prev.len() {
                        assert(kept@[a] == prev[a]);
                    } else {
                        assert(earlier(before[k as int], before[j]));
                    }
                }
                assert forall|a: int, b: int| 0 <= a < b < kept@.len() implies earlier(
                    kept@[a],
                    kept@[b],
                ) by {
                    if b < prev.len() {
                        assert(earlier(prev[a], prev[b]));
                    } else {
                        assert(earlier(prev[a], before[k as int]));
                    }
                }
                assert forall|e: TimeEntry| #[trigger]
                    kept@.contains(e) <==> (exists|j: int| 0 <= j < k + 1 && before[j] == e)
                        && e.node_id != id by {
                    if kept@.contains(e) {
                        let x = choose|x: int| 0 <= x < kept@.len() && kept@[x] == e;
                        if x < prev.len() {
                            assert(prev[x] == e);
                            assert(prev.contains(e));
                        } else {
                            assert(before[k as int] == e);
                        }
                    }
                    if prev.contains(e) {
                        let x = choose|x: int| 0 <= x < prev.len() && prev[x] == e;
                        assert(kept@[x] == e);
                    }
                    if (exists|j: int| 0 <= j < k + 1 && before[j] == e) && e.node_id != id {
                        let j = choose|j: int| 0 <= j < k + 1 && before[j] == e;
                        if j == k {
                            assert(kept@[prev.len() as int] == e);
                        } else {
                            assert(prev.contains(e));
                        }
                    }
                }
            }
            k += 1;
        }
        self.entries = kept;
        proof {
            assert forall|e: TimeEntry| #[trigger]
                self.entries@.contains(e) <==> before.contains(e) && e.node_id != id by {
                if before.contains(e) {
                    let j = choose|j: int| 0 <= j < before.len() && before[j] == e;
                    assert(0 <= j < k && before[j] == e);
                }
            }
        }
    }

    /// The ids of the nodes created between `start` and `end`, both
    /// included, in order of time.
    pub fn range(&self, start: u64, end: u64) -> (r: Vec<u64>)
        ensures
            r@ == ids_between(self@, start, end),
    {
        let mut out: Vec<u64> = Vec::new();
        let mut i: usize = 0;
        assert(self.entries@.take(0) =~= Seq::<TimeEntry>::empty());
        while i < self.entries.len()
            invariant
                i <= self.entries@.len(),
                out@ == ids_between(self.entries@.take(i as int), start, end),
            decreases self.entries@.len() - i,
        {
            assert(self.entries@.take(i + 1).drop_last() =~= self.entries@.take(i as int));
            let e = self.entries[i];
            if start <= e.created_at && e.created_at <= end {
                out.push(e.node_id);
            }
            i += 1;
        }
        assert(self.entries@.take(i as int) =~= self.entries@);
        out
    }

    /// The ids of the `k` latest nodes, latest first.
    pub fn most_recent(&self, k: usize) -> (r: Vec<u64>)
        ensures
            r@ == latest(self@, k as nat),
    {
        let n = self.entries.len();
        let m = if k < n { k } else { n };
        let mut out: Vec<u64> = Vec::new();
        let mut i: usize = 0;
        while i < m
            invariant
                i <= m,
                m <= n,
                n == self.entries@.len(),
                out@.len() == i,
                forall|j: int| 0 <= j < i ==> out@[j] == self.entries@[n - 1 - j].node_id,
            decreases m - i,
        {
            out.push(self.entries[n - 1 - i].node_id);
            i += 1;
        }
        assert(out@ =~= latest(self@, k as nat));
        out
    }

    /// Empties the index.
    pub fn clear(&mut self)
        ensures
            final(self)@ == Seq::<TimeEntry>::empty(),
            final(self).wf(),
    {
        self.entries = Vec::new();
    }

    /// The index of a graph's nodes.
    pub fn build(graph: &MemoryGraph) -> (r: TemporalIndex)
        ensures
            r.wf(),
            r.reflects(graph@.nodes),
    {
        let mut index = TemporalIndex::new();
        let nodes = graph.nodes();
        let mut i: usize = 0;
        while i < nodes.len()
            invariant
                i <= nodes@.len(),
                event_views(nodes@) == graph@.nodes,
                index.wf(),
                index.reflects(graph@.nodes.take(i as int)),
            decreases nodes@.len() - i,
        {
            let ghost before = index@;
            index.add_node(&nodes[i]);
            proof {
                let prev = graph@.nodes.take(i as int);
                let next = graph@.nodes.take(i + 1);
                let n = nodes@[i as int]@;
                assert(next[i as int] == n);
                assert forall|e: TimeEntry| #[trigger] index@.contains(e) <==> has_timed(
                    next,
                    e,
                ) by {
                    assert(before.contains(e) <==> has_timed(prev, e));
                    if has_timed(prev, e) {
                        let j = choose|j: int|
                            0 <= j < prev.len() && (#[trigger] prev[j]).id == e.node_id
                                && prev[j].created_at == e.created_at;
                        assert(next[j] == prev[j]);
                    }
                    if has_timed(next, e) {
                        let j = choose|j: int|
                            0 <= j < next.len() && (#[trigger] next[j]).id == e.node_id
                                && next[j].created_at == e.created_at;
                        if j < i {
                            assert(prev[j] == next[j]);
                        }
                    }
                }
            }
            i += 1;
        }
        assert(graph@.nodes.take(i as int) =~= graph@.nodes);
        index
    }

    /// Replaces the index by the index of a graph's nodes.
    pub fn rebuild(&mut self, graph: &MemoryGraph)
        ensures
            final(self).wf(),
            final(self).reflects(graph@.nodes),
    {
        *self = TemporalIndex::build(graph);
    }
}

/// An index that has taken up one more node records the nodes with it.
pub proof fn lemma_time_added(
    before: Seq<TimeEntry>,
    after: Seq<TimeEntry>,
    nodes: Seq<EventView>,
    e: EventView,
)
    requires
        forall|x: TimeEntry| #[trigger] before.contains(x) <==> has_timed(nodes, x),
        forall|x: TimeEntry| #[trigger]
            after.contains(x) <==> before.contains(x) || x == (TimeEntry {
                created_at: e.created_at,
                node_id: e.id,
            }),
    ensures
        forall|x: TimeEntry| #[trigger] after.contains(x) <==> has_timed(nodes.push(e), x),
{
    let next = nodes.push(e);
    assert forall|x: TimeEntry| #[trigger] after.contains(x) <==> has_timed(next, x) by {
        assert(before.contains(x) <==> has_timed(nodes, x));
        if has_timed(nodes, x) {
            let j = choose|j: int|
                0 <= j < nodes.len() && (#[trigger] nodes[j]).id == x.node_id && nodes[j].created_at
                    == x.created_at;
            assert(next[j] == nodes[j]);
        }
        if has_timed(next, x) {
            let j = choose|j: int|
                0 <= j < next.len() && (#[trigger] next[j]).id == x.node_id && next[j].created_at
                    == x.created_at;
            if j < nodes.len() {
                assert(nodes[j] == next[j]);
            }
        }
        if x == (TimeEntry { created_at: e.created_at, node_id: e.id }) {
            assert(next[nodes.len() as int] == e);
        }
    }
}

/// An index that has dropped a node records the nodes without it.
pub proof fn lemma_time_removed(
    before: Seq<TimeEntry>,
    after: Seq<TimeEntry>,
    nodes: Seq<EventView>,
    pos: int,
)
    requires
        forall|x: TimeEntry| #[trigger] before.contains(x) <==> has_timed(nodes, x),
        distinct_ids(nodes),
        0 <= pos < nodes.len(),
        forall|x: TimeEntry| #[trigger]
            after.contains(x) <==> before.contains(x) && x.node_id != nodes[pos].id,
    ensures
        forall|x: TimeEntry| #[trigger] after.contains(x) <==> has_timed(nodes.remove(pos), x),
{
    let next = nodes.remove(pos);
    assert forall|x: TimeEntry| #[trigger] after.contains(x) <==> has_timed(next, x) by {
        assert(before.contains(x) <==> has_timed(nodes, x));
        if has_timed(nodes, x) && x.node_id != nodes[pos].id {
            let j = choose|j: int|
                0 <= j < nodes.len() && (#[trigger] nodes[j]).id == x.node_id && nodes[j].created_at
                    == x.created_at;
            let k = if j < pos { j } else { j - 1 };
            assert(next[k] == nodes[j]);
        }
        if has_timed(next, x) {
            let k = choose|k: int|
                0 <= k < next.len() && (#[trigger] next[k]).id == x.node_id && next[k].created_at
                    == x.created_at;
            let j = if k < pos { k } else { k + 1 };
            assert(nodes[j] == next[k]);
            if j < pos {
                assert(nodes[j].id != nodes[pos].id);
            } else {
                assert(nodes[pos].id != nodes[j].id);
            }
        }
    }
}

/// An index still records the nodes after one of them was replaced by a
/// node of the same id and time.
pub proof fn lemma_time_kept(index: Seq<TimeEntry>, nodes: Seq<EventView>, pos: int, e: EventView)
    requires
        forall|x: TimeEntry| #[trigger] index.contains(x) <==> has_timed(nodes, x),
        0 <= pos < nodes.len(),
        e.id == nodes[pos].id,
        e.created_at == nodes[pos].created_at,
    ensures
        forall|x: TimeEntry| #[trigger] index.contains(x) <==> has_timed(nodes.update(pos, e), x),
{
    let next = nodes.update(pos, e);
    assert forall|x: TimeEntry| #[trigger] index.contains(x) <==> has_timed(next, x) by {
        assert(index.contains(x) <==> has_timed(nodes, x));
        if has_timed(nodes, x) {
            let j = choose|j: int|
                0 <= j < nodes.len() && (#[trigger] nodes[j]).id == x.node_id && nodes[j].created_at
                    == x.created_at;
            assert(next[j].id == x.node_id && next[j].created_at == x.created_at);
        }
        if has_timed(next, x) {
            let j = choose|j: int|
                0 <= j < next.len() && (#[trigger] next[j]).id == x.node_id && next[j].created_at
                    == x.created_at;
            assert(nodes[j].id == x.node_id && nodes[j].created_at == x.created_at);
        }
    }
}

} // verus!
