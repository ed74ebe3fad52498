//! Lists of ids in strictly ascending order.

use vstd::prelude::*;

verus! {

/// Whether a list ascends strictly.
pub open spec fn ascending(s: Seq<u64>) -> bool {
    forall|i: int, j: int| 0 <= i < j < s.len() ==> s[i] < s[j]
}

/// The place of the first member that is not below `x`.
pub fn lower_bound(list: &Vec<u64>, x: u64) -> (pos: usize)
    requires
        ascending(list@),
    ensures
        pos <= list@.len(),
        forall|i: int| 0 <= i < pos ==> list@[i] < x,
        forall|i: int| pos <= i < list@.len() ==> list@[i] >= x,
{
    let mut lo: usize = 0;
    let mut hi: usize = list.len();
    while lo < hi
        invariant
            lo <= hi <= list@.len(),
            ascending(list@),
            forall|i: int| 0 <= i < lo ==> list@[i] < x,
            forall|i: int| hi <= i < list@.len() ==> list@[i] >= x,
        decreases hi - lo,
    {
        let mid = lo + (hi - lo) / 2;
        if list[mid] < x {
            lo = mid + 1;
        } else {
            hi = mid;
        }
    }
    lo
}

/// Whether `x` is in the list.
pub fn contains_sorted(list: &Vec<u64>, x: u64) -> (r: bool)
    requires
        ascending(list@),
    ensures
        r == list@.contains(x),
{
    let pos = lower_bound(list, x);
    if pos < list.len() && list[pos] == x {
        true
    } else {
        assert(!list@.contains(x)) by {
            if list@.contains(x) {
                let i = choose|i: int| 0 <= i < list@.len() && list@[i] == x;
                if i > pos {
                    assert(list@[pos as int] < list@[i]);
                }
            }
        }
        false
    }
}

/// Puts `x` into the list at its place, unless it is there already.
pub fn insert_sorted(list: &mut Vec<u64>, x: u64)
    requires
        ascending(old(list)@),
    ensures
        ascending(final(list)@),
        forall|y: u64| final(list)@.contains(y) <==> old(list)@.contains(y) || y == x,
{
    let pos = lower_bound(list, x);
    let ghost before = list@;
    if pos < list.len() && list[pos] == x {
        assert(before[pos as int] == x);
        return;
    }
    list.insert(pos, x);
    proof {
        let after = list@;
        assert forall|i: int, j: int| 0 <= i < j < after.len() implies after[i] < after[j] by {
            let a = if i < pos { i } else { i - 1 };
            let b = if j < pos { j } else { j - 1 };
            if i != pos && j != pos {
                assert(before[a] < before[b]);
            } else if i == pos {
                assert(after[j] == before[j - 1]);
            } else {
                assert(after[i] == before[i]);
            }
        }
        assert forall|y: u64| after.contains(y) <==> before.contains(y) || y == x by {
            if after.contains(y) {
                let i = choose|i: int| 0 <= i < after.len() && after[i] == y;
                if i < pos {
                    assert(before[i] == y);
                } else if i > pos {
                    assert(before[i - 1] == y);
                }
            }
            if before.contains(y) {
                let i = choose|i: int| 0 <= i < before.len() && before[i] == y;
                if i < pos {
                    assert(after[i] == y);
                } else {
                    assert(after[i + 1] == y);
                }
            }
            if y == x {
                assert(after[pos as int] == x);
            }
        }
    }
}

/// Takes `x` out of the list, if it is there.
pub fn remove_sorted(list: &mut Vec<u64>, x: u64)
    requires
        ascending(old(list)@),
    ensures
        ascending(final(list)@),
        forall|y: u64| final(list)@.contains(y) <==> old(list)@.contains(y) && y != x,
{
    let pos = lower_bound(list, x);
    let ghost before = list@;
    if pos < list.len() && list[pos] == x {
        list.remove(pos);
        proof {
            let after = list@;
            assert forall|i: int, j: int| 0 <= i < j < after.len() implies after[i] < after[j] by {
                let a = if i < pos { i } else { i + 1 };
                let b = if j < pos { j } else { j + 1 };
                assert(before[a] < before[b]);
            }
            assert forall|y: u64| after.contains(y) <==> before.contains(y) && y != x by {
                if after.contains(y) {
                    let i = choose|i: int| 0 <= i < after.len() && after[i] == y;
                    let a = if i < pos { i } else { i + 1 };
                    assert(before[a] == y);
                    if a < pos {
                        assert(before[a] < before[pos as int]);
                    } else {
                        assert(before[pos as int] < before[a]);
                    }
                }
                if before.contains(y) && y != x {
                    let i = choose|i: int| 0 <= i < before.len() && before[i] == y;
                    if i < pos {
                        assert(after[i] == y);
                    } else {
                        assert(after[i - 1] == y);
                    }
                }
            }
        }
    } else {
        assert forall|y: u64| before.contains(y) implies y != x by {
            let i = choose|i: int| 0 <= i < before.len() && before[i] == y;
            if y == x && i > pos {
                assert(before[pos as int] < before[i]);
            }
        }
    }
}

} // verus!
