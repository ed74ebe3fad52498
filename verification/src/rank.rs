//! Stable ranking by integer keys.
//!
//! Whatever is ranked (a score, a count, a time) is handed in as one `u64`
//! key per item. The answer is the order in which the items are to be read:
//! by key, and among equal keys by position, so that the same input gives
//! the same order every time.

use vstd::prelude::*;

verus! {

/// Whether item `i` comes strictly before item `j`: by key in the chosen
/// direction, and among equal keys by position.
pub open spec fn precedes(keys: Seq<u64>, descending: bool, i: int, j: int) -> bool {
    if keys[i] == keys[j] {
        i < j
    } else if descending {
        keys[i] > keys[j]
    } else {
        keys[i] < keys[j]
    }
}

/// Whether `order` lists every position of `keys` below `n` once, each
/// before all that it precedes.
pub open spec fn is_ranking_of(keys: Seq<u64>, descending: bool, order: Seq<usize>, n: int) -> bool {
    &&& order.len() == n
    &&& forall|a: int| 0 <= a < order.len() ==> 0 <= #[trigger] order[a] < n
    &&& forall|a: int, b: int|
        0 <= a < b < order.len() ==> precedes(
            keys,
            descending,
            #[trigger] order[a] as int,
            #[trigger] order[b] as int,
        )
}

/// Whether `order` is the ranking of all of `keys`.
pub open spec fn is_ranking(keys: Seq<u64>, descending: bool, order: Seq<usize>) -> bool {
    is_ranking_of(keys, descending, order, keys.len() as int)
}

/// The ranking of `keys`.
pub open spec fn ranking(keys: Seq<u64>, descending: bool) -> Seq<usize> {
    choose|order: Seq<usize>| is_ranking(keys, descending, order)
}

/// The first `limit` items in ranked order.
pub open spec fn top_ranked<T>(items: Seq<T>, keys: Seq<u64>, descending: bool, limit: nat) -> Seq<T> {
    Seq::new(
        if limit < items.len() { limit } else { items.len() },
        |i: int| items[ranking(keys, descending)[i] as int],
    )
}

/// Decides `precedes`.
fn comes_before(keys: &Vec<u64>, descending: bool, i: usize, j: usize) -> (r: bool)
    requires
        i < keys@.len(),
        j < keys@.len(),
    ensures
        r == precedes(keys@, descending, i as int, j as int),
{
    if keys[i] == keys[j] {
        i < j
    } else if descending {
        keys[i] > keys[j]
    } else {
        keys[i] < keys[j]
    }
}

/// The positions of `keys` in ranked order: largest key first if
/// `descending`, smallest first otherwise; equal keys keep their order.
pub fn rank_by_key(keys: &Vec<u64>, descending: bool) -> (order: Vec<usize>)
    ensures
        is_ranking(keys@, descending, order@),
        order@ == ranking(keys@, descending),
{
    let mut order: Vec<usize> = Vec::new();
    let mut i: usize = 0;
    while i < keys.len()
        invariant
            i <= keys@.len(),
            is_ranking_of(keys@, descending, order@, i as int),
        decreases keys@.len() - i,
    {
        let mut p: usize = order.len();
        while p > 0 && comes_before(keys, descending, i, order[p - 1])
            invariant
                p <= order@.len(),
                i < keys@.len(),
                is_ranking_of(keys@, descending, order@, i as int),
                forall|k: int|
                    p <= k < order@.len() ==> precedes(
                        keys@,
                        descending,
                        i as int,
                        #[trigger] order@[k] as int,
                    ),
            decreases p,
        {
            p -= 1;
        }
        let ghost prev = order@;
        order.insert(p, i);
        proof {
            let next = order@;
            assert forall|a: int, b: int| 0 <= a < b < next.len() implies precedes(
                keys@,
                descending,
                #[trigger] next[a] as int,
                #[trigger] next[b] as int,
            ) by {
                if b < p {
                    assert(next[a] == prev[a] && next[b] == prev[b]);
                } else if b == p {
                    assert(next[a] == prev[a]);
                    assert(!precedes(keys@, descending, i as int, prev[p - 1] as int));
                    if a < p - 1 {
                        assert(precedes(keys@, descending, prev[a] as int, prev[p - 1] as int));
                    }
                } else if a == p {
                    assert(next[b] == prev[b - 1]);
                } else if a < p {
                    assert(next[a] == prev[a] && next[b] == prev[b - 1]);
                } else {
                    assert(next[a] == prev[a - 1] && next[b] == prev[b - 1]);
                }
            }
            assert forall|a: int| 0 <= a < next.len() implies 0 <= #[trigger] next[a] < i + 1 by {
                if a < p {
                    assert(next[a] == prev[a]);
                } else if a > p {
                    assert(next[a] == prev[a - 1]);
                }
            }
        }
        i += 1;
    }
    proof {
        lemma_ranking_unique(keys@, descending, order@, ranking(keys@, descending));
    }
    order
}

/// The first `limit` of `items` in the order that `keys` rank them.
pub fn select_top<T: Copy>(items: &Vec<T>, keys: &Vec<u64>, descending: bool, limit: usize) -> (r:
    Vec<T>)
    requires
        items@.len() == keys@.len(),
    ensures
        r@ == top_ranked(items@, keys@, descending, limit as nat),
{
    let order = rank_by_key(keys, descending);
    let n = if limit < items.len() { limit } else { items.len() };
    let mut out: Vec<T> = Vec::new();
    let mut i: usize = 0;
    while i < n
        invariant
            i <= n,
            n <= items@.len(),
            items@.len() == keys@.len(),
            is_ranking(keys@, descending, order@),
            out@.len() == i,
            forall|j: int| 0 <= j < i ==> out@[j] == items@[order@[j] as int],
        decreases n - i,
    {
        let at = order[i];
        out.push(items[at]);
        i += 1;
    }
    assert(out@ =~= top_ranked(items@, keys@, descending, limit as nat));
    out
}

/// A ranking holds no position twice.
pub proof fn lemma_ranking_distinct(keys: Seq<u64>, descending: bool, order: Seq<usize>)
    requires
        is_ranking(keys, descending, order),
    ensures
        order.no_duplicates(),
{
    assert forall|a: int, b: int| 0 <= a < order.len() && 0 <= b < order.len() && a != b implies order[a]
        != order[b] by {
        if a < b {
            assert(precedes(keys, descending, order[a] as int, order[b] as int));
        } else {
            assert(precedes(keys, descending, order[b] as int, order[a] as int));
        }
    }
}

/// Two rankings of the same keys are the same: the order of the result does
/// not depend on anything but the keys.
pub proof fn lemma_ranking_unique(
    keys: Seq<u64>,
    descending: bool,
    first: Seq<usize>,
    second: Seq<usize>,
)
    requires
        is_ranking(keys, descending, first),
        is_ranking(keys, descending, second),
    ensures
        first == second,
{
    lemma_ranking_distinct(keys, descending, first);
    lemma_ranking_distinct(keys, descending, second);
    let n = keys.len() as int;
    // Each ranking lists every position: a duplicate-free list of n numbers below n.
    lemma_lists_all(first, n);
    lemma_lists_all(second, n);
    assert forall|a: int| 0 <= a < n implies first[a] == second[a] by {
        lemma_same_place(keys, descending, first, second, a);
    }
    assert(first =~= second);
}

/// A duplicate-free list of `n` numbers below `n` holds every number below `n`.
proof fn lemma_lists_all(order: Seq<usize>, n: int)
    requires
        order.len() == n,
        order.no_duplicates(),
        forall|a: int| 0 <= a < order.len() ==> 0 <= #[trigger] order[a] < n,
    ensures
        forall|v: usize| v < n ==> #[trigger] order.contains(v),
{
    let ints = Seq::new(order.len(), |a: int| order[a] as int);
    let s = ints.to_set();
    let full = vstd::set_lib::set_int_range(0, n);
    assert(ints.no_duplicates());
    ints.unique_seq_to_set();
    vstd::set_lib::lemma_int_range(0, n);
    assert(s.subset_of(full)) by {
        assert forall|v: int| s.contains(v) implies full.contains(v) by {
            let a = choose|a: int| 0 <= a < ints.len() && ints[a] == v;
            assert(0 <= order[a] < n);
        }
    }
    assert(s.finite()) by {
        broadcast use vstd::seq_lib::group_seq_properties;

    }
    vstd::set_lib::lemma_subset_equality(s, full);
    assert forall|v: usize| v < n implies #[trigger] order.contains(v) by {
        assert(full.contains(v as int));
        assert(s.contains(v as int));
        let a = choose|a: int| 0 <= a < ints.len() && ints[a] == v as int;
        assert(order[a] == v);
    }
}

/// The position at place `a` is the same in both rankings.
proof fn lemma_same_place(
    keys: Seq<u64>,
    descending: bool,
    first: Seq<usize>,
    second: Seq<usize>,
    a: int,
)
    requires
        is_ranking(keys, descending, first),
        is_ranking(keys, descending, second),
        first.no_duplicates(),
        second.no_duplicates(),
        forall|v: usize| v < keys.len() ==> #[trigger] first.contains(v),
        forall|v: usize| v < keys.len() ==> #[trigger] second.contains(v),
        0 <= a < keys.len(),
    ensures
        first[a] == second[a],
    decreases a,
{
    // By induction the two rankings agree before place `a`.
    assert forall|k: int| 0 <= k < a implies first[k] == second[k] by {
        lemma_same_place(keys, descending, first, second, k);
    }
    let x = first[a];
    let y = second[a];
    if x != y {
        assert(second.contains(x));
        let bx = choose|b: int| 0 <= b < second.len() && second[b] == x;
        assert(first.contains(y));
        let by = choose|b: int| 0 <= b < first.len() && first[b] == y;
        // `x` stands after place `a` in the second ranking, `y` after place `a` in the first.
        if bx < a {
            assert(first[bx] == second[bx]);
        }
        if by < a {
            assert(first[by] == second[by]);
        }
        assert(bx > a && by > a);
        assert(precedes(keys, descending, second[a] as int, second[bx] as int));
        assert(precedes(keys, descending, first[a] as int, first[by] as int));
    }
}

} // verus!
