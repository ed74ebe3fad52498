//! The ids of the nodes of each kind.

use vstd::prelude::*;
use crate::graph::{event_views, MemoryGraph};
use crate::index::sorted::{ascending, insert_sorted, remove_sorted};
use crate::types::{CognitiveEvent, EventType, EventView};

verus! {

/// For each kind of event the ids of the nodes of that kind, ascending.
pub struct TypeIndex {
    lists: Vec<Vec<u64>>,
}

/// Whether a node with this id and kind is among the nodes.
pub open spec fn has_typed(nodes: Seq<EventView>, id: u64, t: EventType) -> bool {
    exists|i: int| 0 <= i < nodes.len() && (#[trigger] nodes[i]).id == id && nodes[i].event_type == t
}

impl TypeIndex {
    /// The ids recorded for a kind.
    pub closed spec fn ids(&self, t: EventType) -> Seq<u64> {
        self.lists@[t.code() as int]@
    }

    /// The index has one ascending list for each kind.
    pub closed spec fn wf(&self) -> bool {
        &&& self.lists@.len() == 6
        &&& forall|k: int| 0 <= k < 6 ==> ascending(#[trigger] self.lists@[k]@)
    }

    /// Whether the index records exactly the given nodes.
    pub open spec fn reflects(&self, nodes: Seq<EventView>) -> bool {
        forall|t: EventType, id: u64|
            #![trigger self.ids(t).contains(id)]
            self.ids(t).contains(id) <==> has_typed(nodes, id, t)
    }

    /// An empty index.
    pub fn new() -> (r: TypeIndex)
        ensures
            r.wf(),
            forall|t: EventType| (#[trigger] r.ids(t)).len() == 0,
    {
        let mut lists: Vec<Vec<u64>> = Vec::new();
        let mut k: usize = 0;
        while k < 6
            invariant
                k <= 6,
                lists@.len() == k,
                forall|j: int| 0 <= j < k ==> (#[trigger] lists@[j])@.len() == 0,
            decreases 6 - k,
        {
            lists.push(Vec::new());
            k += 1;
        }
        TypeIndex { lists }
    }

    /// The ids of the nodes of a kind, ascending.
    pub fn get(&self, t: EventType) -> (r: &Vec<u64>)
        requires
            self.wf(),
        ensures
            r@ == self.ids(t),
            ascending(r@),
    {
        &self.lists[t.to_u8() as usize]
    }

    /// Records a node under its kind.
    pub fn add_node(&mut self, event: &CognitiveEvent)
        requires
            old(self).wf(),
        ensures
            final(self).wf(),
            forall|t: EventType, id: u64|
                #![trigger final(self).ids(t).contains(id)]
                final(self).ids(t).contains(id) <==> old(self).ids(t).contains(id) || (t
                    == event.event_type && id == event.id),
    {
        let k = event.event_type.to_u8() as usize;
        let ghost before = self.lists@;
        let mut list: Vec<u64> = Vec::new();
        std::mem::swap(&mut list, &mut self.lists[k]);
        insert_sorted(&mut list, event.id);
        self.lists.set(k, list);
        proof {
            assert forall|j: int| 0 <= j < 6 implies ascending(#[trigger] self.lists@[j]@) by {
                if j != k {
                    assert(self.lists@[j] == before[j]);
                }
            }
            assert forall|t: EventType, id: u64|
                #![trigger self.ids(t).contains(id)]
                self.ids(t).contains(id) <==> old(self).ids(t).contains(id) || (t
                    == event.event_type && id == event.id) by {
                if t.code() != k {
                    assert(self.lists@[t.code() as int] == before[t.code() as int]);
                }
            }
        }
    }

    /// Takes a node out of the index.
    pub fn remove_node(&mut self, id: u64)
        requires
            old(self).wf(),
        ensures
            final(self).wf(),
            forall|t: EventType, x: u64|
                #![trigger final(self).ids(t).contains(x)]
                final(self).ids(t).contains(x) <==> old(self).ids(t).contains(x) && x != id,
    {
        let mut k: usize = 0;
        while k < 6
            invariant
                k <= 6,
                self.lists@.len() == 6,
                forall|j: int| 0 <= j < 6 ==> ascending(#[trigger] self.lists@[j]@),
                forall|j: int, x: u64|
                    #![trigger self.lists@[j]@.contains(x)]
                    0 <= j < k ==> (self.lists@[j]@.contains(x) <==> old(self).lists@[j]@.contains(
                        x,
                    ) && x != id),
                forall|j: int| k <= j < 6 ==> self.lists@[j] == old(self).lists@[j],
            decreases 6 - k,
        {
            let ghost before = self.lists@;
            let mut list: Vec<u64> = Vec::new();
            std::mem::swap(&mut list, &mut self.lists[k]);
            remove_sorted(&mut list, id);
            self.lists.set(k, list);
            proof {
                assert forall|j: int| 0 <= j < 6 implies ascending(#[trigger] self.lists@[j]@) by {
                    if j != k {
                        assert(self.lists@[j] == before[j]);
                    }
                }
                assert forall|j: int, x: u64|
                    #![trigger self.lists@[j]@.contains(x)]
                    0 <= j < k + 1 implies (self.lists@[j]@.contains(x) <==> old(
                        self,
                    ).lists@[j]@.contains(x) && x != id) by {
                    if j != k {
                        assert(self.lists@[j] == before[j]);
                    }
                }
                assert forall|j: int| k + 1 <= j < 6 implies self.lists@[j] == old(self).lists@[j] by {
                    assert(self.lists@[j] == before[j]);
                }
            }
            k += 1;
        }
    }

    /// Empties the index.
    pub fn clear(&mut self)
        ensures
            final(self).wf(),
            forall|t: EventType| (#[trigger] final(self).ids(t)).len() == 0,
    {
        *self = TypeIndex::new();
    }

    /// The index of a graph's nodes.
    pub fn build(graph: &MemoryGraph) -> (r: TypeIndex)
        ensures
            r.wf(),
            r.reflects(graph@.nodes),
    {
        let mut index = TypeIndex::new();
        let nodes = graph.nodes();
        let mut i: usize = 0;
        while i < nodes.len()
            invariant
                i <= nodes@.len(),
                event_views(nodes@) == graph@.nodes,
                index.wf(),
                index.reflects(graph@.nodes.take(i as int)),
            decreases nodes@.len() - i,
        {
            let ghost before = index;
            index.add_node(&nodes[i]);
            proof {
                let prev = graph@.nodes.take(i as int);
                let next = graph@.nodes.take(i + 1);
                let e = nodes@[i as int]@;
                assert(next[i as int] == e);
                assert forall|t: EventType, id: u64|
                    #![trigger index.ids(t).contains(id)]
                    index.ids(t).contains(id) <==> has_typed(next, id, t) by {
                    assert(before.ids(t).contains(id) <==> has_typed(prev, id, t));
                    if has_typed(prev, id, t) {
                        let j = choose|j: int|
                            0 <= j < prev.len() && (#[trigger] prev[j]).id == id && prev[j].event_type
                                == t;
                        assert(next[j] == prev[j]);
                    }
                    if has_typed(next, id, t) {
                        let j = choose|j: int|
                            0 <= j < next.len() && (#[trigger] next[j]).id == id && next[j].event_type
                                == t;
                        if j < i {
                            assert(prev[j] == next[j]);
                        }
                    }
                }
            }
            i += 1;
        }
        assert(graph@.nodes.take(i as int) =~= graph@.nodes);
        index
    }

    /// Replaces the index by the index of a graph's nodes.
    pub fn rebuild(&mut self, graph: &MemoryGraph)
        ensures
            final(self).wf(),
            final(self).reflects(graph@.nodes),
    {
        *self = TypeIndex::build(graph);
    }
}

/// Whether no two nodes have the same id.
pub open spec fn distinct_ids(nodes: Seq<EventView>) -> bool {
    forall|i: int, j: int|
        0 <= i < j < nodes.len() ==> (#[trigger] nodes[i]).id != (#[trigger] nodes[j]).id
}

/// An index that has taken up one more node records the nodes with it.
pub proof fn lemma_type_added(before: TypeIndex, after: TypeIndex, nodes: Seq<EventView>, e: EventView)
    requires
        before.reflects(nodes),
        forall|t: EventType, id: u64|
            #![trigger after.ids(t).contains(id)]
            after.ids(t).contains(id) <==> before.ids(t).contains(id) || (t == e.event_type && id
                == e.id),
    ensures
        after.reflects(nodes.push(e)),
{
    let next = nodes.push(e);
    assert forall|t: EventType, id: u64|
        #![trigger after.ids(t).contains(id)]
        after.ids(t).contains(id) <==> has_typed(next, id, t) by {
        assert(before.ids(t).contains(id) <==> has_typed(nodes, id, t));
        if has_typed(nodes, id, t) {
            let j = choose|j: int|
                0 <= j < nodes.len() && (#[trigger] nodes[j]).id == id && nodes[j].event_type == t;
            assert(next[j] == nodes[j]);
        }
        if has_typed(next, id, t) {
            let j = choose|j: int|
                0 <= j < next.len() && (#[trigger] next[j]).id == id && next[j].event_type == t;
            if j < nodes.len() {
                assert(nodes[j] == next[j]);
            }
        }
        if t == e.event_type && id == e.id {
            assert(next[nodes.len() as int] == e);
        }
    }
}

/// An index that has dropped a node records the nodes without it.
pub proof fn lemma_type_removed(before: TypeIndex, after: TypeIndex, nodes: Seq<EventView>, pos: int)
    requires
        before.reflects(nodes),
        distinct_ids(nodes),
        0 <= pos < nodes.len(),
        forall|t: EventType, x: u64|
            #![trigger after.ids(t).contains(x)]
            after.ids(t).contains(x) <==> before.ids(t).contains(x) && x != nodes[pos].id,
    ensures
        after.reflects(nodes.remove(pos)),
{
    let next = nodes.remove(pos);
    assert forall|t: EventType, id: u64|
        #![trigger after.ids(t).contains(id)]
        after.ids(t).contains(id) <==> has_typed(next, id, t) by {
        assert(before.ids(t).contains(id) <==> has_typed(nodes, id, t));
        if has_typed(nodes, id, t) && id != nodes[pos].id {
            let j = choose|j: int|
                0 <= j < nodes.len() && (#[trigger] nodes[j]).id == id && nodes[j].event_type == t;
            let k = if j < pos { j } else { j - 1 };
            assert(next[k] == nodes[j]);
        }
        if has_typed(next, id, t) {
            let k = choose|k: int|
                0 <= k < next.len() && (#[trigger] next[k]).id == id && next[k].event_type == t;
            let j = if k < pos { k } else { k + 1 };
            assert(nodes[j] == next[k]);
            if j < pos {
                assert(nodes[j].id != nodes[pos].id);
            } else {
                assert(nodes[pos].id != nodes[j].id);
            }
        }
    }
}

/// An index still records the nodes after one of them was replaced by a
/// node of the same id and kind.
pub proof fn lemma_type_kept(index: TypeIndex, nodes: Seq<EventView>, pos: int, e: EventView)
    requires
        index.reflects(nodes),
        0 <= pos < nodes.len(),
        e.id == nodes[pos].id,
        e.event_type == nodes[pos].event_type,
    ensures
        index.reflects(nodes.update(pos, e)),
{
    let next = nodes.update(pos, e);
    assert forall|t: EventType, id: u64|
        #![trigger index.ids(t).contains(id)]
        index.ids(t).contains(id) <==> has_typed(next, id, t) by {
        assert(index.ids(t).contains(id) <==> has_typed(nodes, id, t));
        if has_typed(nodes, id, t) {
            let j = choose|j: int|
                0 <= j < nodes.len() && (#[trigger] nodes[j]).id == id && nodes[j].event_type == t;
            assert(next[j].id == id && next[j].event_type == t);
        }
        if has_typed(next, id, t) {
            let j = choose|j: int|
                0 <= j < next.len() && (#[trigger] next[j]).id == id && next[j].event_type == t;
            assert(nodes[j].id == id && nodes[j].event_type == t);
        }
    }
}

/// An index that has moved a node to another kind records the nodes with
/// the node of the new kind in its place.
pub proof fn lemma_type_changed(
    before: TypeIndex,
    after: TypeIndex,
    nodes: Seq<EventView>,
    pos: int,
    e: EventView,
)
    requires
        before.reflects(nodes),
        distinct_ids(nodes),
        0 <= pos < nodes.len(),
        e.id == nodes[pos].id,
        forall|t: EventType, x: u64|
            #![trigger after.ids(t).contains(x)]
            after.ids(t).contains(x) <==> (before.ids(t).contains(x) && x != e.id) || (t
                == e.event_type && x == e.id),
    ensures
        after.reflects(nodes.update(pos, e)),
{
    let next = nodes.update(pos, e);
    assert forall|t: EventType, id: u64|
        #![trigger after.ids(t).contains(id)]
        after.ids(t).contains(id) <==> has_typed(next, id, t) by {
        assert(before.ids(t).contains(id) <==> has_typed(nodes, id, t));
        if has_typed(nodes, id, t) && id != e.id {
            let j = choose|j: int|
                0 <= j < nodes.len() && (#[trigger] nodes[j]).id == id && nodes[j].event_type == t;
            assert(next[j] == nodes[j]);
        }
        if has_typed(next, id, t) {
            let j = choose|j: int|
                0 <= j < next.len() && (#[trigger] next[j]).id == id && next[j].event_type == t;
            if j != pos {
                assert(nodes[j] == next[j]);
                if j < pos {
                    assert(nodes[j].id != nodes[pos].id);
                } else {
                    assert(nodes[pos].id != nodes[j].id);
                }
            }
        }
        if t == e.event_type && id == e.id {
            assert(next[pos].id == id && next[pos].event_type == t);
        }
    }
}

} // verus!
