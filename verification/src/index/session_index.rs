//! The ids of the nodes of each session.

use vstd::prelude::*;
use crate::graph::{event_views, MemoryGraph};
use crate::index::sorted::{ascending, insert_sorted, remove_sorted};
use crate::index::type_index::distinct_ids;
use crate::types::{CognitiveEvent, EventView};

verus! {

/// The nodes of one session.
pub struct SessionEntry {
    pub session_id: u32,
    /// The ids of the nodes, ascending.
    pub ids: Vec<u64>,
}

/// For each session the ids of its nodes, ascending.
pub struct SessionIndex {
    entries: Vec<SessionEntry>,
}

/// Whether a node with this id and session is among the nodes.
pub open spec fn has_in_session(nodes: Seq<EventView>, id: u64, session: u32) -> bool {
    exists|i: int|
        0 <= i < nodes.len() && (#[trigger] nodes[i]).id == id && nodes[i].session_id == session
}

impl SessionIndex {
    /// Whether entry `k` is the entry of the session.
    pub closed spec fn entry_of(&self, session: u32, k: int) -> bool {
        0 <= k < self.entries@.len() && self.entries@[k].session_id == session
    }

    /// The ids recorded for a session.
    pub closed spec fn ids(&self, session: u32) -> Seq<u64> {
        if exists|k: int| self.entry_of(session, k) {
            self.entries@[choose|k: int| self.entry_of(session, k)].ids@
        } else {
            Seq::empty()
        }
    }

    /// No session has two entries, and every list ascends.
    pub closed spec fn wf(&self) -> bool {
        &&& forall|a: int, b: int|
            0 <= a < b < self.entries@.len() ==> (#[trigger] self.entries@[a]).session_id != (
            #[trigger] self.entries@[b]).session_id
        &&& forall|k: int| 0 <= k < self.entries@.len() ==> ascending((#[trigger] self.entries@[k]).ids@)
    }

    /// Whether the index records exactly the given nodes.
    pub open spec fn reflects(&self, nodes: Seq<EventView>) -> bool {
        forall|s: u32, id: u64|
            #![trigger self.ids(s).contains(id)]
            self.ids(s).contains(id) <==> has_in_session(nodes, id, s)
    }

    /// An empty index.
    pub fn new() -> (r: SessionIndex)
        ensures
            r.wf(),
            forall|s: u32| (#[trigger] r.ids(s)).len() == 0,
    {
        SessionIndex { entries: Vec::new() }
    }

    /// The place of the entry of a session.
    fn find(&self, session: u32) -> (r: Option<usize>)
        requires
            self.wf(),
        ensures
            match r {
                Some(k) => self.entry_of(session, k as int) && self.ids(session)
                    == self.entries@[k as int].ids@,
                None => (forall|k: int| !self.entry_of(session, k)) && self.ids(session)
                    == Seq::<u64>::empty(),
            },
    {
        let mut k: usize = 0;
        while k < self.entries.len()
            invariant
                k <= self.entries@.len(),
                self.wf(),
                forall|j: int| 0 <= j < k ==> (#[trigger] self.entries@[j]).session_id != session,
            decreases self.entries@.len() - k,
        {
            if self.entries[k].session_id == session {
                proof {
                    assert(self.entry_of(session, k as int));
                    let c = choose|c: int| self.entry_of(session, c);
                    if c < k {
                        assert(self.entries@[c].session_id != self.entries@[k as int].session_id);
                    } else if c > k {
                        assert(self.entries@[k as int].session_id != self.entries@[c].session_id);
                    }
                }
                return Some(k);
            }
            k += 1;
        }
        proof {
            assert forall|j: int| !self.entry_of(session, j) by {
                if self.entry_of(session, j) {
                    assert(self.entries@[j].session_id != session);
                }
            }
        }
        None
    }

    /// The ids of the nodes of a session, ascending.
    pub fn get(&self, session: u32) -> (r: Vec<u64>)
        requires
            self.wf(),
        ensures
            r@ == self.ids(session),
            ascending(r@),
    {
        match self.find(session) {
            Some(k) => {
                let list = &self.entries[k].ids;
                let mut out: Vec<u64> = Vec::new();
                let mut i: usize = 0;
                while i < list.len()
                    invariant
                        i <= list@.len(),
                        out@ == list@.take(i as int),
                    decreases list@.len() - i,
                {
                    out.push(list[i]);
                    assert(list@.take(i + 1) =~= list@.take(i as int).push(list@[i as int]));
                    i += 1;
                }
                assert(list@.take(i as int) =~= list@);
                out
            },
            None => Vec::new(),
        }
    }

    /// The sessions that have a node, in the order in which they came up.
    pub fn session_ids(&self) -> (r: Vec<u32>)
        requires
            self.wf(),
        ensures
            forall|s: u32| r@.contains(s) <==> self.ids(s).len() > 0,
            r@.no_duplicates(),
    {
        let mut out: Vec<u32> = Vec::new();
        let mut k: usize = 0;
        while k < self.entries.len()
            invariant
                k <= self.entries@.len(),
                self.wf(),
                forall|s: u32|
                    out@.contains(s) <==> exists|j: int|
                        0 <= j < k && (#[trigger] self.entries@[j]).session_id == s
                            && self.entries@[j].ids@.len() > 0,
                out@.no_duplicates(),
            decreases self.entries@.len() - k,
        {
            let ghost before = out@;
            let s0 = self.entries[k].session_id;
            let take = self.entries[k].ids.len() > 0;
            if take {
                proof {
                    if before.contains(s0) {
                        let j = choose|j: int|
                            0 <= j < k && (#[trigger] self.entries@[j]).session_id == s0
                                && self.entries@[j].ids@.len() > 0;
                        assert(self.entries@[j].session_id != self.entries@[k as int].session_id);
                    }
                }
                out.push(s0);
            }
            proof {
                assert forall|s: u32|
                    out@.contains(s) <==> exists|j: int|
                        0 <= j < k + 1 && (#[trigger] self.entries@[j]).session_id == s
                            && self.entries@[j].ids@.len() > 0 by {
                    if out@.contains(s) {
                        let x = choose|x: int| 0 <= x < out@.len() && out@[x] == s;
                        if x < before.len() {
                            assert(before[x] == s);
                            assert(before.contains(s));
                        } else {
                            assert(self.entries@[k as int].session_id == s);
                        }
                    }
                    if before.contains(s) {
                        let x = choose|x: int| 0 <= x < before.len() && before[x] == s;
                        assert(out@[x] == s);
                    }
                    if take && s == s0 {
                        assert(out@[before.len() as int] == s);
                    }
                }
            }
            k += 1;
        }
        proof {
            assert forall|s: u32| out@.contains(s) <==> self.ids(s).len() > 0 by {
                if out@.contains(s) {
                    let j = choose|j: int|
                        0 <= j < k && (#[trigger] self.entries@[j]).session_id == s
                            && self.entries@[j].ids@.len() > 0;
                    self.lemma_ids(s, j);
                }
                if self.ids(s).len() > 0 {
                    let c = choose|c: int| self.entry_of(s, c);
                    assert(self.entries@[c].session_id == s);
                }
            }
        }
        out
    }

    /// The ids of a session are those of its entry.
    proof fn lemma_ids(&self, session: u32, k: int)
        requires
            self.wf(),
            self.entry_of(session, k),
        ensures
            self.ids(session) == self.entries@[k].ids@,
    {
        let c = choose|c: int| self.entry_of(session, c);
        if c < k {
            assert(self.entries@[c].session_id != self.entries@[k].session_id);
        } else if c > k {
            assert(self.entries@[k].session_id != self.entries@[c].session_id);
        }
    }

    /// Records a node under its session.
    pub fn add_node(&mut self, event: &CognitiveEvent)
        requires
            old(self).wf(),
        ensures
            final(self).wf(),
            forall|s: u32, id: u64|
                #![trigger final(self).ids(s).contains(id)]
                final(self).ids(s).contains(id) <==> old(self).ids(s).contains(id) || (s
                    == event.session_id && id == event.id),
    {
        let ghost before = *self;
        match self.find(event.session_id) {
            Some(k) => {
                let mut list: Vec<u64> = Vec::new();
                std::mem::swap(&mut list, &mut self.entries[k].ids);
                insert_sorted(&mut list, event.id);
                self.entries.set(k, SessionEntry { session_id: event.session_id, ids: list });
                proof {
                    assert forall|a: int, b: int| 0 <= a < b < self.entries@.len() implies (
                    #[trigger] self.entries@[a]).session_id != (
                    #[trigger] self.entries@[b]).session_id by {
                        assert(before.entries@[a].session_id != before.entries@[b].session_id);
                    }
                    assert forall|j: int| 0 <= j < self.entries@.len() implies ascending(
                        (#[trigger] self.entries@[j]).ids@,
                    ) by {
                        if j != k {
                            assert(self.entries@[j] == before.entries@[j]);
                        }
                    }
                    assert forall|s: u32, id: u64|
                        #![trigger self.ids(s).contains(id)]
                        self.ids(s).contains(id) <==> before.ids(s).contains(id) || (s
                            == event.session_id && id == event.id) by {
                        if s == event.session_id {
                            assert(self.entry_of(s, k as int));
                            self.lemma_ids(s, k as int);
                        } else {
                            self.lemma_same_ids(&before, s, k as int);
                        }
                    }
                }
            },
            None => {
                let mut list: Vec<u64> = Vec::new();
                list.push(event.id);
                self.entries.push(SessionEntry { session_id: event.session_id, ids: list });
                proof {
                    let n = before.entries@.len() as int;
                    assert forall|a: int, b: int| 0 <= a < b < self.entries@.len() implies (
                    #[trigger] self.entries@[a]).session_id != (
                    #[trigger] self.entries@[b]).session_id by {
                        if b < n {
                            assert(before.entries@[a].session_id != before.entries@[b].session_id);
                        } else {
                            assert(!before.entry_of(event.session_id, a));
                        }
                    }
                    assert forall|j: int| 0 <= j < self.entries@.len() implies ascending(
                        (#[trigger] self.entries@[j]).ids@,
                    ) by {
                        if j < n {
                            assert(self.entries@[j] == before.entries@[j]);
                        }
                    }
                    assert forall|s: u32, id: u64|
                        #![trigger self.ids(s).contains(id)]
                        self.ids(s).contains(id) <==> before.ids(s).contains(id) || (s
                            == event.session_id && id == event.id) by {
                        if s == event.session_id {
                            assert(self.entry_of(s, n));
                            self.lemma_ids(s, n);
                            assert(self.entries@[n].ids@ =~= seq![event.id]);
                            if id == event.id {
                                assert(seq![event.id][0] == id);
                            }
                        } else {
                            self.lemma_same_ids(&before, s, n);
                        }
                    }
                }
            },
        }
    }

    /// A session keeps its ids where only the entry of another session has
    /// changed or come.
    proof fn lemma_same_ids(&self, before: &SessionIndex, session: u32, k: int)
        requires
            self.wf(),
            before.wf(),
            0 <= k < self.entries@.len(),
            self.entries@[k].session_id != session,
            before.entries@.len() == self.entries@.len() || before.entries@.len() == k,
            before.entries@.len() <= self.entries@.len(),
            self.entries@.len() <= before.entries@.len() + 1,
            forall|j: int|
                0 <= j < before.entries@.len() && j != k ==> self.entries@[j] == before.entries@[j],
            k < before.entries@.len() ==> self.entries@[k].session_id
                == before.entries@[k].session_id,
        ensures
            self.ids(session) == before.ids(session),
    {
        if exists|c: int| self.entry_of(session, c) {
            let c = choose|c: int| self.entry_of(session, c);
            assert(before.entry_of(session, c));
            before.lemma_ids(session, c);
        } else {
            assert forall|c: int| !before.entry_of(session, c) by {
                if before.entry_of(session, c) {
                    assert(self.entry_of(session, c));
                }
            }
        }
    }

    /// Takes a node out of the index.
    pub fn remove_node(&mut self, id: u64)
        requires
            old(self).wf(),
        ensures
            final(self).wf(),
            forall|s: u32, x: u64|
                #![trigger final(self).ids(s).contains(x)]
                final(self).ids(s).contains(x) <==> old(self).ids(s).contains(x) && x != id,
    {
        let ghost start = *self;
        let n = self.entries.len();
        let mut k: usize = 0;
        while k < n
            invariant
                k <= n,
                n == self.entries@.len(),
                n == start.entries@.len(),
                start.wf(),
                forall|j: int|
                    0 <= j < n ==> (#[trigger] self.entries@[j]).session_id
                        == start.entries@[j].session_id,
                forall|j: int| 0 <= j < n ==> ascending((#[trigger] self.entries@[j]).ids@),
                forall|j: int, x: u64|
                    #![trigger self.entries@[j].ids@.contains(x)]
                    0 <= j < k ==> (self.entries@[j].ids@.contains(x)
                        <==> start.entries@[j].ids@.contains(x) && x != id),
                forall|j: int| k <= j < n ==> self.entries@[j] == start.entries@[j],
            decreases n - k,
        {
            let ghost before = self.entries@;
            let session = self.entries[k].session_id;
            let mut list: Vec<u64> = Vec::new();
            std::mem::swap(&mut list, &mut self.entries[k].ids);
            remove_sorted(&mut list, id);
            self.entries.set(k, SessionEntry { session_id: session, ids: list });
            proof {
                assert forall|j: int| 0 <= j < n implies (#[trigger] self.entries@[j]).session_id
                    == start.entries@[j].session_id && ascending(self.entries@[j].ids@) by {
                    if j != k {
                        assert(self.entries@[j] == before[j]);
                    }
                }
                assert forall|j: int, x: u64|
                    #![trigger self.entries@[j].ids@.contains(x)]
                    0 <= j < k + 1 implies (self.entries@[j].ids@.contains(x)
                        <==> start.entries@[j].ids@.contains(x) && x != id) by {
                    if j != k {
                        assert(self.entries@[j] == before[j]);
                    }
                }
                assert forall|j: int| k + 1 <= j < n implies self.entries@[j]
                    == start.entries@[j] by {
                    assert(self.entries@[j] == before[j]);
                }
            }
            k += 1;
        }
        proof {
            assert forall|a: int, b: int| 0 <= a < b < self.entries@.len() implies (
            #[trigger] self.entries@[a]).session_id != (#[trigger] self.entries@[b]).session_id by {
                assert(start.entries@[a].session_id != start.entries@[b].session_id);
            }
            assert forall|s: u32, x: u64|
                #![trigger self.ids(s).contains(x)]
                self.ids(s).contains(x) <==> start.ids(s).contains(x) && x != id by {
                if exists|c: int| start.entry_of(s, c) {
                    let c = choose|c: int| start.entry_of(s, c);
                    assert(self.entries@[c].session_id == s);
                    assert(self.entry_of(s, c));
                    self.lemma_ids(s, c);
                } else {
                    assert forall|c: int| !self.entry_of(s, c) by {
                        if self.entry_of(s, c) {
                            assert(self.entries@[c].session_id == start.entries@[c].session_id);
                            assert(start.entry_of(s, c));
                        }
                    }
                }
            }
        }
    }

    /// Empties the index.
    pub fn clear(&mut self)
        ensures
            final(self).wf(),
            forall|s: u32| (#[trigger] final(self).ids(s)).len() == 0,
    {
        *self = SessionIndex::new();
    }

    /// The index of a graph's nodes.
    pub fn build(graph: &MemoryGraph) -> (r: SessionIndex)
        ensures
            r.wf(),
            r.reflects(graph@.nodes),
    {
        let mut index = SessionIndex::new();
        let nodes = graph.nodes();
        let mut i: usize = 0;
        while i < nodes.len()
            invariant
                i <= nodes@.len(),
                event_views(nodes@) == graph@.nodes,
                index.wf(),
                index.reflects(graph@.nodes.take(i as int)),
            decreases nodes@.len() - i,
        {
            let ghost before = index;
            index.add_node(&nodes[i]);
            proof {
                let prev = graph@.nodes.take(i as int);
                let next = graph@.nodes.take(i + 1);
                let e = nodes@[i as int]@;
                assert(next[i as int] == e);
                assert forall|s: u32, id: u64|
                    #![trigger index.ids(s).contains(id)]
                    index.ids(s).contains(id) <==> has_in_session(next, id, s) by {
                    assert(before.ids(s).contains(id) <==> has_in_session(prev, id, s));
                    if has_in_session(prev, id, s) {
                        let j = choose|j: int|
                            0 <= j < prev.len() && (#[trigger] prev[j]).id == id && prev[j].session_id
                                == s;
                        assert(next[j] == prev[j]);
                    }
                    if has_in_session(next, id, s) {
                        let j = choose|j: int|
                            0 <= j < next.len() && (#[trigger] next[j]).id == id && next[j].session_id
                                == s;
                        if j < i {
                            assert(prev[j] == next[j]);
                        }
                    }
                }
            }
            i += 1;
        }
        assert(graph@.nodes.take(i as int) =~= graph@.nodes);
        index
    }

    /// Replaces the index by the index of a graph's nodes.
    pub fn rebuild(&mut self, graph: &MemoryGraph)
        ensures
            final(self).wf(),
            final(self).reflects(graph@.nodes),
    {
        *self = SessionIndex::build(graph);
    }
}

/// An index that has taken up one more node records the nodes with it.
pub proof fn lemma_session_added(
    before: SessionIndex,
    after: SessionIndex,
    nodes: Seq<EventView>,
    e: EventView,
)
    requires
        before.reflects(nodes),
        forall|s: u32, id: u64|
            #![trigger after.ids(s).contains(id)]
            after.ids(s).contains(id) <==> before.ids(s).contains(id) || (s == e.session_id && id
                == e.id),
    ensures
        after.reflects(nodes.push(e)),
{
    let next = nodes.push(e);
    assert forall|s: u32, id: u64|
        #![trigger after.ids(s).contains(id)]
        after.ids(s).contains(id) <==> has_in_session(next, id, s) by {
        assert(before.ids(s).contains(id) <==> has_in_session(nodes, id, s));
        if has_in_session(nodes, id, s) {
            let j = choose|j: int|
                0 <= j < nodes.len() && (#[trigger] nodes[j]).id == id && nodes[j].session_id == s;
            assert(next[j] == nodes[j]);
        }
        if has_in_session(next, id, s) {
            let j = choose|j: int|
                0 <= j < next.len() && (#[trigger] next[j]).id == id && next[j].session_id == s;
            if j < nodes.len() {
                assert(nodes[j] == next[j]);
            }
        }
        if s == e.session_id && id == e.id {
            assert(next[nodes.len() as int] == e);
        }
    }
}

/// An index that has dropped a node records the nodes without it.
pub proof fn lemma_session_removed(
    before: SessionIndex,
    after: SessionIndex,
    nodes: Seq<EventView>,
    pos: int,
)
    requires
        before.reflects(nodes),
        distinct_ids(nodes),
        0 <= pos < nodes.len(),
        forall|s: u32, x: u64|
            #![trigger after.ids(s).contains(x)]
            after.ids(s).contains(x) <==> before.ids(s).contains(x) && x != nodes[pos].id,
    ensures
        after.reflects(nodes.remove(pos)),
{
    let next = nodes.remove(pos);
    assert forall|s: u32, id: u64|
        #![trigger after.ids(s).contains(id)]
        after.ids(s).contains(id) <==> has_in_session(next, id, s) by {
        assert(before.ids(s).contains(id) <==> has_in_session(nodes, id, s));
        if has_in_session(nodes, id, s) && id != nodes[pos].id {
            let j = choose|j: int|
                0 <= j < nodes.len() && (#[trigger] nodes[j]).id == id && nodes[j].session_id == s;
            let k = if j < pos { j } else { j - 1 };
            assert(next[k] == nodes[j]);
        }
        if has_in_session(next, id, s) {
            let k = choose|k: int|
                0 <= k < next.len() && (#[trigger] next[k]).id == id && next[k].session_id == s;
            let j = if k < pos { k } else { k + 1 };
            assert(nodes[j] == next[k]);
            if j < pos {
                assert(nodes[j].id != nodes[pos].id);
            } else {
                assert(nodes[pos].id != nodes[j].id);
            }
        }
    }
}

/// An index still records the nodes after one of them was replaced by a
/// node of the same id and session.
pub proof fn lemma_session_kept(index: SessionIndex, nodes: Seq<EventView>, pos: int, e: EventView)
    requires
        index.reflects(nodes),
        0 <= pos < nodes.len(),
        e.id == nodes[pos].id,
        e.session_id == nodes[pos].session_id,
    ensures
        index.reflects(nodes.update(pos, e)),
{
    let next = nodes.update(pos, e);
    assert forall|s: u32, id: u64|
        #![trigger index.ids(s).contains(id)]
        index.ids(s).contains(id) <==> has_in_session(next, id, s) by {
        assert(index.ids(s).contains(id) <==> has_in_session(nodes, id, s));
        if has_in_session(nodes, id, s) {
            let j = choose|j: int|
                0 <= j < nodes.len() && (#[trigger] nodes[j]).id == id && nodes[j].session_id == s;
            assert(next[j].id == id && next[j].session_id == s);
        }
        if has_in_session(next, id, s) {
            let j = choose|j: int|
                0 <= j < next.len() && (#[trigger] next[j]).id == id && next[j].session_id == s;
            assert(nodes[j].id == id && nodes[j].session_id == s);
        }
    }
}

} // verus!
