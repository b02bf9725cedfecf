//! Stable sorting by a total preorder.

use vstd::prelude::*;

verus! {

/// Values with a rank: a total, transitive "not after" relation. Different
/// values may share a rank.
pub trait Ranked: Sized {
    spec fn ranks_le(&self, other: &Self) -> bool;

    proof fn lemma_rank_total(a: &Self, b: &Self)
        ensures
            a.ranks_le(b) || b.ranks_le(a),
    ;

    proof fn lemma_rank_transitive(a: &Self, b: &Self, c: &Self)
        requires
            a.ranks_le(b),
            b.ranks_le(c),
        ensures
            a.ranks_le(c),
    ;

    fn not_after(&self, other: &Self) -> (r: bool)
        ensures
            r == self.ranks_le(other),
    ;
}

/// Position `i` precedes position `j` in the stable order of `v`: by rank, and
/// among equal ranks by position.
pub open spec fn goes_first<T: Ranked>(v: Seq<T>, i: int, j: int) -> bool {
    &&& v[i].ranks_le(&v[j])
    &&& v[j].ranks_le(&v[i]) ==> i < j
}

/// Each position below `n`, once.
pub open spec fn is_permutation(order: Seq<usize>, n: nat) -> bool {
    &&& order.len() == n
    &&& forall|i: int| 0 <= i < n ==> (#[trigger] order[i]) < n
    &&& forall|i: int, j: int| 0 <= i < j < n ==> order[i] != order[j]
}

/// `order` lists the positions of `v` from the first rank to the last, keeping
/// the given order among equal ranks.
pub open spec fn is_stable_order<T: Ranked>(order: Seq<usize>, v: Seq<T>) -> bool {
    &&& is_permutation(order, v.len())
    &&& forall|i: int, j: int|
        0 <= i < j < v.len() ==> goes_first(v, #[trigger] order[i] as int, #[trigger] order[j] as int)
}

/// `out` holds the items of `v` at the positions that `order` lists.
pub open spec fn arranged<T>(out: Seq<T>, v: Seq<T>, order: Seq<usize>) -> bool {
    &&& out.len() == order.len()
    &&& forall|k: int| 0 <= k < out.len() ==> #[trigger] out[k] == v[order[k] as int]
}

/// `out` is the stable sort of `v`.
pub open spec fn is_stable_sort<T: Ranked>(out: Seq<T>, v: Seq<T>) -> bool {
    exists|order: Seq<usize>| #[trigger] is_stable_order(order, v) && arranged(out, v, order)
}

proof fn lemma_goes_first_transitive<T: Ranked>(v: Seq<T>, i: int, j: int, k: int)
    requires
        goes_first(v, i, j),
        goes_first(v, j, k),
    ensures
        goes_first(v, i, k),
{
    T::lemma_rank_transitive(&v[i], &v[j], &v[k]);
    if v[k].ranks_le(&v[i]) {
        T::lemma_rank_transitive(&v[k], &v[i], &v[j]);
        T::lemma_rank_transitive(&v[j], &v[k], &v[i]);
    }
}

/// A part of a stable order: positions from `lo` up to `hi`, each goes first
/// before those that follow it.
spec fn is_run<T: Ranked>(run: Seq<usize>, v: Seq<T>, lo: int, hi: int) -> bool {
    &&& run.len() == hi - lo
    &&& forall|i: int| 0 <= i < run.len() ==> lo <= #[trigger] run[i] < hi
    &&& forall|i: int, j: int|
        0 <= i < j < run.len() ==> goes_first(v, #[trigger] run[i] as int, #[trigger] run[j] as int)
}

fn merge<T: Ranked>(
    v: &[T],
    left: &Vec<usize>,
    right: &Vec<usize>,
    Ghost(lo): Ghost<int>,
    Ghost(mid): Ghost<int>,
    Ghost(hi): Ghost<int>,
) -> (out: Vec<usize>)
    requires
        0 <= lo <= mid <= hi <= v@.len(),
        is_run(left@, v@, lo, mid),
        is_run(right@, v@, mid, hi),
    ensures
        is_run(out@, v@, lo, hi),
{
    let mut out: Vec<usize> = Vec::new();
    let mut i: usize = 0;
    let mut j: usize = 0;
    while i < left.len() || j < right.len()
        invariant
            0 <= lo <= mid <= hi <= v@.len(),
            is_run(left@, v@, lo, mid),
            is_run(right@, v@, mid, hi),
            i <= left@.len(),
            j <= right@.len(),
            out@.len() == i + j,
            forall|a: int| 0 <= a < out@.len() ==> lo <= #[trigger] out@[a] < hi,
            forall|a: int, b: int|
                0 <= a < b < out@.len() ==> goes_first(
                    v@,
                    #[trigger] out@[a] as int,
                    #[trigger] out@[b] as int,
                ),
            forall|a: int, b: int|
                0 <= a < out@.len() && i <= b < left@.len() ==> goes_first(
                    v@,
                    #[trigger] out@[a] as int,
                    #[trigger] left@[b] as int,
                ),
            forall|a: int, b: int|
                0 <= a < out@.len() && j <= b < right@.len() ==> goes_first(
                    v@,
                    #[trigger] out@[a] as int,
                    #[trigger] right@[b] as int,
                ),
        decreases left@.len() - i + right@.len() - j,
    {
        let take_left = if j == right.len() {
            true
        } else if i == left.len() {
            false
        } else {
            v[left[i]].not_after(&v[right[j]])
        };
        let ghost before = out@;
        if take_left {
            proof {
                let p = left@[i as int] as int;
                assert forall|b: int| j <= b < right@.len() implies goes_first(
                    v@,
                    p,
                    #[trigger] right@[b] as int,
                ) by {
                    let q = right@[j as int] as int;
                    assert(goes_first(v@, p, q));
                    if b > j {
                        lemma_goes_first_transitive(v@, p, q, right@[b] as int);
                    }
                }
            }
            out.push(left[i]);
            i += 1;
        } else {
            proof {
                let p = right@[j as int] as int;
                assert forall|b: int| i <= b < left@.len() implies goes_first(
                    v@,
                    p,
                    #[trigger] left@[b] as int,
                ) by {
                    let q = left@[i as int] as int;
                    T::lemma_rank_total(&v@[p], &v@[q]);
                    assert(goes_first(v@, p, q));
                    if b > i {
                        lemma_goes_first_transitive(v@, p, q, left@[b] as int);
                    }
                }
            }
            out.push(right[j]);
            j += 1;
        }
        assert(forall|a: int| 0 <= a < before.len() ==> out@[a] == before[a]);
    }
    out
}

fn sort_range<T: Ranked>(v: &[T], lo: usize, hi: usize) -> (out: Vec<usize>)
    requires
        lo <= hi <= v@.len(),
    ensures
        is_run(out@, v@, lo as int, hi as int),
    decreases hi - lo,
{
    if hi - lo < 2 {
        let mut out: Vec<usize> = Vec::new();
        if lo < hi {
            out.push(lo);
        }
        return out;
    }
    let mid: usize = lo + (hi - lo) / 2;
    let left = sort_range(v, lo, mid);
    let right = sort_range(v, mid, hi);
    merge(v, &left, &right, Ghost(lo as int), Ghost(mid as int), Ghost(hi as int))
}

/// The positions of `v` in stable order.
pub fn stable_order<T: Ranked>(v: &[T]) -> (order: Vec<usize>)
    ensures
        is_stable_order(order@, v@),
{
    let order = sort_range(v, 0, v.len());
    proof {
        assert forall|i: int, j: int| 0 <= i < j < order@.len() implies order@[i] != order@[j] by {
            assert(goes_first(v@, order@[i] as int, order@[j] as int));
        }
    }
    order
}

/// Moves the items of `v` to the places that `order` gives them.
pub fn arrange<T>(v: Vec<T>, order: &Vec<usize>) -> (out: Vec<T>)
    requires
        is_permutation(order@, v@.len()),
    ensures
        arranged(out@, v@, order@),
{
    let mut slots: Vec<Option<T>> = Vec::new();
    let ghost items = v@;
    for item in it: v
        invariant
            it.seq() == items,
            slots@.len() == it.index(),
            forall|k: int| 0 <= k < slots@.len() ==> #[trigger] slots@[k] == Some(items[k]),
    {
        slots.push(Some(item));
    }
    let mut out: Vec<T> = Vec::new();
    let mut i: usize = 0;
    while i < order.len()
        invariant
            is_permutation(order@, items.len()),
            slots@.len() == items.len(),
            i <= order@.len(),
            out@.len() == i,
            forall|k: int| 0 <= k < i ==> #[trigger] out@[k] == items[order@[k] as int],
            forall|k: int|
                i <= k < order@.len() ==> slots@[#[trigger] order@[k] as int] == Some(
                    items[order@[k] as int],
                ),
        decreases order@.len() - i,
    {
        let k = order[i];
        let ghost before = slots@;
        let mut slot: Option<T> = None;
        core::mem::swap(&mut slot, &mut slots[k]);
        match slot {
            Some(item) => {
                out.push(item);
            },
            None => {
                assert(false);
            },
        }
        i += 1;
    }
    out
}

/// Sorts by rank, keeping the given order among equal ranks.
pub fn stable_sort<T: Ranked>(v: Vec<T>) -> (out: Vec<T>)
    ensures
        is_stable_sort(out@, v@),
{
    let order = stable_order(v.as_slice());
    let ghost items = v@;
    let out = arrange(v, &order);
    assert(is_stable_order(order@, items) && arranged(out@, items, order@));
    out
}

/// A stable sort is in the order of the ranks.
pub proof fn lemma_sort_is_ordered<T: Ranked>(out: Seq<T>, v: Seq<T>, i: int, j: int)
    requires
        is_stable_sort(out, v),
        0 <= i < j < out.len(),
    ensures
        out[i].ranks_le(&out[j]),
{
    let order = choose|order: Seq<usize>| is_stable_order(order, v) && arranged(out, v, order);
    assert(goes_first(v, order[i] as int, order[j] as int));
    assert(out[i] == v[order[i] as int] && out[j] == v[order[j] as int]);
}

/// There is one stable sort only.
pub proof fn lemma_sort_is_unique<T: Ranked>(a: Seq<T>, b: Seq<T>, v: Seq<T>)
    requires
        is_stable_sort(a, v),
        is_stable_sort(b, v),
    ensures
        a == b,
{
    let p = choose|order: Seq<usize>| is_stable_order(order, v) && arranged(a, v, order);
    let q = choose|order: Seq<usize>| is_stable_order(order, v) && arranged(b, v, order);
    assert forall|k: int| 0 <= k < v.len() implies p[k] == q[k] by {
        lemma_orders_agree(p, q, v, k);
    }
    assert(a =~= b);
}

proof fn lemma_orders_agree<T: Ranked>(p: Seq<usize>, q: Seq<usize>, v: Seq<T>, k: int)
    requires
        is_stable_order(p, v),
        is_stable_order(q, v),
        0 <= k < v.len(),
    ensures
        p[k] == q[k],
    decreases k,
{
    assert forall|i: int| 0 <= i < k implies p[i] == q[i] by {
        lemma_orders_agree(p, q, v, i);
    }
    if p[k] != q[k] {
        // Each of the two stands later in the other order, so each goes first.
        lemma_permutation_hits(q, v.len(), p[k] as int);
        let i = choose|i: int| 0 <= i < v.len() && q[i] == p[k];
        lemma_permutation_hits(p, v.len(), q[k] as int);
        let j = choose|j: int| 0 <= j < v.len() && p[j] == q[k];
        if i < k {
            assert(p[i] == q[i]);
        }
        if j < k {
            assert(p[j] == q[j]);
        }
        assert(goes_first(v, q[k] as int, q[i] as int));
        assert(goes_first(v, p[k] as int, p[j] as int));
        lemma_goes_first_transitive(v, q[k] as int, p[k] as int, q[k] as int);
    }
}

/// A stable sort holds exactly the items that were given.
pub proof fn lemma_sort_keeps_items<T: Ranked>(out: Seq<T>, v: Seq<T>)
    requires
        is_stable_sort(out, v),
    ensures
        out.to_multiset() == v.to_multiset(),
{
    let order = choose|order: Seq<usize>| is_stable_order(order, v) && arranged(out, v, order);
    lemma_arranged_multiset(out, v, order);
}

proof fn lemma_arranged_multiset<T>(out: Seq<T>, v: Seq<T>, order: Seq<usize>)
    requires
        is_permutation(order, v.len()),
        arranged(out, v, order),
    ensures
        out.to_multiset() == v.to_multiset(),
    decreases v.len(),
{
    broadcast use vstd::seq_lib::group_to_multiset_ensures;
    if v.len() == 0 {
        assert(out =~= v);
    } else {
        let n = v.len() as int;
        // The last item goes to some place.
        lemma_permutation_hits(order, v.len(), n - 1);
        let p = choose|p: int| 0 <= p < n && order[p] == n - 1;
        let rest = v.drop_last();
        let order2 = order.remove(p);
        let out2 = out.remove(p);
        lemma_arranged_multiset(out2, rest, order2);
        assert(out[p] == v.last());
        assert(out2.insert(p, v.last()) =~= out);
        assert(rest.push(v.last()) =~= v);
        vstd::seq_lib::to_multiset_insert(out2, p, v.last());
        vstd::seq_lib::to_multiset_build(rest, v.last());
    }
}

/// A permutation reaches each position.
pub proof fn lemma_permutation_hits(order: Seq<usize>, n: nat, x: int)
    requires
        is_permutation(order, n),
        0 <= x < n,
    ensures
        exists|p: int| 0 <= p < n && order[p] == x,
{
    let s = order.to_set();
    order.unique_seq_to_set();
    let all = vstd::set_lib::set_int_range(0, n as int);
    vstd::set_lib::lemma_int_range(0, n as int);
    let ints = s.map(|k: usize| k as int);
    assert(ints.subset_of(all)) by {
        assert forall|y: int| ints.contains(y) implies all.contains(y) by {
            let k = choose|k: usize| s.contains(k) && y == k as int;
            let i = choose|i: int| 0 <= i < order.len() && order[i] == k;
            assert(order[i] < n);
        }
    }
    vstd::set_lib::lemma_map_size(s, ints, |k: usize| k as int);
    vstd::set_lib::lemma_subset_equality(ints, all);
    assert(ints.contains(x));
    let k = choose|k: usize| s.contains(k) && x == k as int;
    let i = choose|i: int| 0 <= i < order.len() && order[i] == k;
    assert(0 <= i < n && order[i] == x);
}

} // verus!
