//! Stable ordering: which item comes where when a list is shown sorted.

use vstd::prelude::*;

use crate::text;

verus! {

/// Keys that a list is sorted by. `precedes` is a strict weak order.
pub trait Ranked: Sized {
    /// Whether this key stands strictly before `other`.
    spec fn precedes(self, other: Self) -> bool;

    /// No two keys stand before each other.
    proof fn asymmetric(a: Self, b: Self)
        requires
            a.precedes(b),
        ensures
            !b.precedes(a),
    ;

    /// Not standing before is transitive.
    proof fn negatively_transitive(a: Self, b: Self, c: Self)
        requires
            !a.precedes(b),
            !b.precedes(c),
        ensures
            !a.precedes(c),
    ;

    /// Decides `precedes`.
    fn before(&self, other: &Self) -> (r: bool)
        ensures
            r == self.precedes(*other),
    ;
}

/// `order` lists every index below `n` once, sorted by `less`; of two indices
/// that `less` leaves open, the smaller comes first.
pub open spec fn stable_order(n: nat, less: spec_fn(int, int) -> bool, order: Seq<usize>) -> bool {
    &&& order.len() == n
    &&& forall|i: int| 0 <= i < order.len() ==> (#[trigger] order[i] as int) < n
    &&& order.no_duplicates()
    &&& sorted_so_far(less, order)
}

/// Each two indices of `order` stand as `less` asks.
pub open spec fn sorted_so_far(less: spec_fn(int, int) -> bool, order: Seq<usize>) -> bool {
    forall|i: int, j: int|
        0 <= i < j < order.len() ==> in_place(less, #[trigger] order[i], #[trigger] order[j])
}

/// Index `a` may stand before index `b`.
pub open spec fn in_place(less: spec_fn(int, int) -> bool, a: usize, b: usize) -> bool {
    less(a as int, b as int) || (!less(b as int, a as int) && a < b)
}

/// How keys order the indices at which they stand.
pub open spec fn by_keys<K: Ranked>(keys: Seq<K>) -> spec_fn(int, int) -> bool {
    |a: int, b: int| keys[a].precedes(keys[b])
}

/// How `less` orders the indices at which items stand.
pub open spec fn by_items<T>(items: Seq<T>, less: spec_fn(T, T) -> bool) -> spec_fn(int, int) -> bool {
    |a: int, b: int| less(items[a], items[b])
}

/// The items at the given indices.
pub open spec fn picked<T>(items: Seq<T>, order: Seq<usize>) -> Seq<T> {
    order.map_values(|i: usize| items[i as int])
}

/// The items, stably sorted by `less`.
pub open spec fn sorted<T>(items: Seq<T>, less: spec_fn(T, T) -> bool) -> Seq<T> {
    picked(
        items,
        choose|order: Seq<usize>| stable_order(items.len(), by_items(items, less), order),
    )
}

/// No two indices below `n` stand before each other.
pub open spec fn asymmetric_below(n: nat, less: spec_fn(int, int) -> bool) -> bool {
    forall|a: int, b: int| 0 <= a < n && 0 <= b < n && #[trigger] less(a, b) ==> !less(b, a)
}

/// Every index occurs in a stable order.
pub proof fn lemma_order_covers(
    n: nat,
    less: spec_fn(int, int) -> bool,
    order: Seq<usize>,
    i: usize,
)
    requires
        stable_order(n, less, order),
        i < n,
    ensures
        exists|k: int| 0 <= k < order.len() && order[k] == i,
{
    let ints = order.map_values(|x: usize| x as int);
    assert(ints.no_duplicates()) by {
        assert forall|p: int, q: int| 0 <= p < ints.len() && 0 <= q < ints.len() && p != q implies ints[p]
            != ints[q] by {
            assert(order[p] != order[q]);
        }
    }
    ints.unique_seq_to_set();
    let range = vstd::set_lib::set_int_range(0, n as int);
    vstd::set_lib::lemma_int_range(0, n as int);
    assert(ints.to_set().subset_of(range)) by {
        assert forall|x: int| ints.to_set().contains(x) implies range.contains(x) by {
            let k = choose|k: int| 0 <= k < ints.len() && ints[k] == x;
            assert(ints[k] == order[k] as int);
        }
    }
    vstd::set_lib::lemma_subset_equality(ints.to_set(), range);
    assert(range.contains(i as int));
    let k = choose|k: int| 0 <= k < ints.len() && ints[k] == i as int;
    assert(order[k] == i);
}

proof fn lemma_order_unique_at(
    n: nat,
    less: spec_fn(int, int) -> bool,
    a: Seq<usize>,
    b: Seq<usize>,
    i: int,
)
    requires
        asymmetric_below(n, less),
        stable_order(n, less, a),
        stable_order(n, less, b),
        0 <= i < a.len(),
    ensures
        forall|k: int| 0 <= k <= i ==> a[k] == b[k],
    decreases i,
{
    if i > 0 {
        lemma_order_unique_at(n, less, a, b, i - 1);
    }
    if a[i] != b[i] {
        lemma_order_covers(n, less, b, a[i]);
        lemma_order_covers(n, less, a, b[i]);
        let p = choose|p: int| 0 <= p < b.len() && b[p] == a[i];
        let q = choose|q: int| 0 <= q < a.len() && a[q] == b[i];
        assert(p > i) by {
            if p < i {
                assert(a[p] == b[p]);
            }
        }
        assert(q > i) by {
            if q < i {
                assert(a[q] == b[q]);
            }
        }
        assert(in_place(less, b[i], b[p]));
        assert(in_place(less, a[i], a[q]));
        let x = a[i] as int;
        let y = b[i] as int;
        assert(less(x, y) ==> !less(y, x));
        assert(less(y, x) ==> !less(x, y));
    }
}

/// There is only one stable order.
pub proof fn law_order_is_unique(
    n: nat,
    less: spec_fn(int, int) -> bool,
    a: Seq<usize>,
    b: Seq<usize>,
)
    requires
        asymmetric_below(n, less),
        stable_order(n, less, a),
        stable_order(n, less, b),
    ensures
        a == b,
{
    if a.len() > 0 {
        lemma_order_unique_at(n, less, a, b, a.len() - 1);
    }
    assert(a =~= b);
}

/// Items picked in the stable order of keys that order them as `less` does are
/// the sorted items.
pub proof fn lemma_picked_is_sorted<T, K: Ranked>(
    items: Seq<T>,
    less: spec_fn(T, T) -> bool,
    keys: Seq<K>,
    order: Seq<usize>,
)
    requires
        items.len() == keys.len(),
        stable_order(keys.len(), by_keys(keys), order),
        forall|a: int, b: int|
            0 <= a < keys.len() && 0 <= b < keys.len() ==> #[trigger] keys[a].precedes(keys[b])
                == less(items[a], items[b]),
    ensures
        picked(items, order) == sorted(items, less),
        sorted(items, less).len() == items.len(),
{
    let rel = by_items(items, less);
    assert forall|a: int, b: int| 0 <= a < items.len() && 0 <= b < items.len() && #[trigger] rel(
        a,
        b,
    ) implies !rel(b, a) by {
        assert(keys[a].precedes(keys[b]));
        K::asymmetric(keys[a], keys[b]);
        assert(!keys[b].precedes(keys[a]));
    }
    assert(stable_order(items.len(), rel, order)) by {
        assert forall|i: int, j: int| 0 <= i < j < order.len() implies in_place(
            rel,
            #[trigger] order[i],
            #[trigger] order[j],
        ) by {
            assert(in_place(by_keys(keys), order[i], order[j]));
            let a = order[i] as int;
            let b = order[j] as int;
            assert(keys[a].precedes(keys[b]) == less(items[a], items[b]));
            assert(keys[b].precedes(keys[a]) == less(items[b], items[a]));
        }
    }
    let chosen = choose|o: Seq<usize>| stable_order(items.len(), rel, o);
    law_order_is_unique(items.len(), rel, order, chosen);
}

/// `less` is a strict weak order.
pub open spec fn strict_weak<T>(less: spec_fn(T, T) -> bool) -> bool {
    &&& forall|a: T, b: T| #[trigger] less(a, b) ==> !less(b, a)
    &&& forall|a: T, b: T, c: T|
        #![trigger less(a, b), less(b, c)]
        !less(a, b) && !less(b, c) ==> !less(a, c)
}

/// How many of the indices in `order`, from the front, are not to stand behind
/// index `i`.
spec fn insertion_point(less: spec_fn(int, int) -> bool, order: Seq<usize>, i: int) -> int
    decreases order.len(),
{
    if order.len() == 0 {
        0
    } else if less(i, order.last() as int) {
        insertion_point(less, order.drop_last(), i)
    } else {
        order.len() as int
    }
}

proof fn lemma_insertion_point(less: spec_fn(int, int) -> bool, order: Seq<usize>, i: int)
    ensures
        0 <= insertion_point(less, order, i) <= order.len(),
        forall|k: int|
            insertion_point(less, order, i) <= k < order.len() ==> less(
                i,
                #[trigger] order[k] as int,
            ),
        insertion_point(less, order, i) > 0 ==> !less(
            i,
            order[insertion_point(less, order, i) - 1] as int,
        ),
    decreases order.len(),
{
    if order.len() > 0 && less(i, order.last() as int) {
        let shorter = order.drop_last();
        lemma_insertion_point(less, shorter, i);
        let p = insertion_point(less, order, i);
        assert forall|k: int| p <= k < order.len() implies less(i, #[trigger] order[k] as int) by {
            if k < shorter.len() {
                assert(order[k] == shorter[k]);
            }
        }
    }
}

proof fn lemma_order_exists_below<T>(items: Seq<T>, less: spec_fn(T, T) -> bool, n: nat) -> (order:
    Seq<usize>)
    requires
        strict_weak(less),
        n <= items.len() <= usize::MAX,
    ensures
        stable_order(n, by_items(items, less), order),
    decreases n,
{
    if n == 0 {
        Seq::empty()
    } else {
        let i = n - 1;
        let rel = by_items(items, less);
        let before = lemma_order_exists_below(items, less, i as nat);
        lemma_insertion_point(rel, before, i);
        let p = insertion_point(rel, before, i);
        let order = before.insert(p, i as usize);
        assert forall|k: int| 0 <= k < p implies !rel(i, #[trigger] before[k] as int) by {
            if k < p - 1 {
                let pivot = before[p - 1] as int;
                assert(in_place(rel, before[k], before[p - 1]));
                assert(!less(items[i], items[pivot]));
                assert(!less(items[pivot], items[before[k] as int]));
            }
        }
        assert forall|k: int| 0 <= k < order.len() implies (#[trigger] order[k] as int) < n by {
            if k < p {
                assert(order[k] == before[k]);
            } else if k > p {
                assert(order[k] == before[k - 1]);
            }
        }
        assert forall|a: int, b: int| 0 <= a < b < order.len() implies in_place(
            rel,
            #[trigger] order[a],
            #[trigger] order[b],
        ) by {
            if b == p {
                assert(order[a] == before[a]);
            } else if a == p {
                assert(order[b] == before[b - 1]);
            } else {
                let a0 = if a < p { a } else { a - 1 };
                let b0 = if b < p { b } else { b - 1 };
                assert(order[a] == before[a0]);
                assert(order[b] == before[b0]);
                assert(in_place(rel, before[a0], before[b0]));
            }
        }
        assert(order.no_duplicates()) by {
            assert forall|a: int, b: int| 0 <= a < order.len() && 0 <= b < order.len() && a != b implies order[a]
                != order[b] by {
                let a0 = if a < p { a } else { a - 1 };
                let b0 = if b < p { b } else { b - 1 };
                if a != p {
                    assert(order[a] == before[a0]);
                }
                if b != p {
                    assert(order[b] == before[b0]);
                }
            }
        }
        order
    }
}

/// A sorted list holds what the list held, in the order asked for.
pub proof fn law_sorted<T>(items: Seq<T>, less: spec_fn(T, T) -> bool)
    requires
        strict_weak(less),
        items.len() <= usize::MAX,
    ensures
        sorted(items, less).len() == items.len(),
        forall|x: T| sorted(items, less).contains(x) <==> items.contains(x),
        forall|i: int, j: int|
            0 <= i < j < items.len() ==> !less(
                #[trigger] sorted(items, less)[j],
                #[trigger] sorted(items, less)[i],
            ),
{
    let rel = by_items(items, less);
    let witness = lemma_order_exists_below(items, less, items.len());
    let order = choose|o: Seq<usize>| stable_order(items.len(), rel, o);
    assert(stable_order(items.len(), rel, order));
    let s = sorted(items, less);
    assert(s == picked(items, order));
    assert forall|x: T| s.contains(x) <==> items.contains(x) by {
        if s.contains(x) {
            let k = choose|k: int| 0 <= k < s.len() && s[k] == x;
            assert(items[order[k] as int] == x);
        }
        if items.contains(x) {
            let i = choose|i: int| 0 <= i < items.len() && items[i] == x;
            lemma_order_covers(items.len(), rel, order, i as usize);
            let k = choose|k: int| 0 <= k < order.len() && order[k] == i as usize;
            assert(s[k] == x);
        }
    }
    assert forall|i: int, j: int| 0 <= i < j < items.len() implies !less(
        #[trigger] s[j],
        #[trigger] s[i],
    ) by {
        assert(in_place(rel, order[i], order[j]));
        assert(s[i] == items[order[i] as int]);
        assert(s[j] == items[order[j] as int]);
    }
}

/// Sorting moves each item to one place, before every item that it precedes,
/// and leaves those in the order they had of which neither precedes the other.
pub proof fn law_sorted_is_stable<T>(items: Seq<T>, less: spec_fn(T, T) -> bool)
    requires
        strict_weak(less),
        items.len() <= usize::MAX,
    ensures
        exists|from: Seq<usize>|
            {
                &&& from.len() == items.len()
                &&& from.no_duplicates()
                &&& forall|k: int| 0 <= k < from.len() ==> (#[trigger] from[k] as int) < items.len()
                &&& #[trigger] picked(items, from) == sorted(items, less)
                &&& forall|i: int, j: int|
                    0 <= i < j < from.len() ==> !less(
                        items[#[trigger] from[j] as int],
                        items[#[trigger] from[i] as int],
                    ) && (less(items[from[i] as int], items[from[j] as int]) || from[i] < from[j])
            },
        picked(items, Seq::new(items.len(), |i: int| i as usize)) == items,
{
    let rel = by_items(items, less);
    let witness = lemma_order_exists_below(items, less, items.len());
    let order = choose|o: Seq<usize>| stable_order(items.len(), rel, o);
    assert(stable_order(items.len(), rel, order));
    assert(picked(items, order) == sorted(items, less));
    assert forall|i: int, j: int| 0 <= i < j < order.len() implies !less(
        items[#[trigger] order[j] as int],
        items[#[trigger] order[i] as int],
    ) && (less(items[order[i] as int], items[order[j] as int]) || order[i] < order[j]) by {
        assert(in_place(rel, order[i], order[j]));
    }
    assert(picked(items, Seq::new(items.len(), |i: int| i as usize)) =~= items);
}

/// The stable order of `keys`.
pub fn order_by<K: Ranked>(keys: &Vec<K>) -> (order: Vec<usize>)
    ensures
        stable_order(keys@.len(), by_keys(keys@), order@),
{
    let mut order: Vec<usize> = Vec::new();
    let mut i: usize = 0;
    while i < keys.len()
        invariant
            i <= keys@.len(),
            order@.len() == i,
            forall|k: int| 0 <= k < order@.len() ==> (#[trigger] order@[k] as int) < i,
            order@.no_duplicates(),
            sorted_so_far(by_keys(keys@), order@),
        decreases keys@.len() - i,
    {
        let mut lo: usize = 0;
        let mut hi: usize = order.len();
        while lo < hi
            invariant
                lo <= hi <= order@.len(),
                order@.len() == i < keys@.len(),
                forall|k: int| 0 <= k < order@.len() ==> (#[trigger] order@[k] as int) < i,
                sorted_so_far(by_keys(keys@), order@),
                forall|k: int|
                    0 <= k < lo ==> !keys@[i as int].precedes(keys@[#[trigger] order@[k] as int]),
                forall|k: int|
                    hi <= k < order@.len() ==> keys@[i as int].precedes(
                        keys@[#[trigger] order@[k] as int],
                    ),
            decreases hi - lo,
        {
            let mid: usize = lo + (hi - lo) / 2;
            let ghost key = keys@[i as int];
            let ghost pivot = keys@[order@[mid as int] as int];
            if keys[i].before(&keys[order[mid]]) {
                proof {
                    assert forall|k: int| mid <= k < order@.len() implies key.precedes(
                        keys@[#[trigger] order@[k] as int],
                    ) by {
                        if k > mid {
                            let other = keys@[order@[k] as int];
                            assert(in_place(by_keys(keys@), order@[mid as int], order@[k]));
                            if pivot.precedes(other) {
                                K::asymmetric(pivot, other);
                            }
                            if !key.precedes(other) {
                                K::negatively_transitive(key, other, pivot);
                            }
                        }
                    }
                }
                hi = mid;
            } else {
                proof {
                    assert forall|k: int| 0 <= k < mid + 1 implies !key.precedes(
                        keys@[#[trigger] order@[k] as int],
                    ) by {
                        if k < mid {
                            let other = keys@[order@[k] as int];
                            assert(in_place(by_keys(keys@), order@[k], order@[mid as int]));
                            if other.precedes(pivot) {
                                K::asymmetric(other, pivot);
                            }
                            K::negatively_transitive(key, pivot, other);
                        }
                    }
                }
                lo = mid + 1;
            }
        }
        let ghost old_order = order@;
        order.insert(lo, i);
        proof {
            let new_order = order@;
            assert forall|p: int, q: int| 0 <= p < q < new_order.len() implies in_place(
                by_keys(keys@),
                #[trigger] new_order[p],
                #[trigger] new_order[q],
            ) by {
                let key = keys@[i as int];
                if p == lo {
                    assert(new_order[q] == old_order[q - 1]);
                } else if q == lo {
                    assert(new_order[p] == old_order[p]);
                } else {
                    let p0 = if p < lo { p } else { p - 1 };
                    let q0 = if q < lo { q } else { q - 1 };
                    assert(new_order[p] == old_order[p0]);
                    assert(new_order[q] == old_order[q0]);
                    assert(in_place(by_keys(keys@), old_order[p0], old_order[q0]));
                }
            }
            assert forall|p: int, q: int| 0 <= p < new_order.len() && 0 <= q < new_order.len() && p
                != q implies new_order[p] != new_order[q] by {
                let p0 = if p < lo { p } else { p - 1 };
                let q0 = if q < lo { q } else { q - 1 };
                if p != lo {
                    assert(new_order[p] == old_order[p0]);
                }
                if q != lo {
                    assert(new_order[q] == old_order[q0]);
                }
            }
            assert forall|k: int| 0 <= k < new_order.len() implies (#[trigger] new_order[k] as int) < i
                + 1 by {
                let k0 = if k < lo { k } else { k - 1 };
                if k != lo {
                    assert(new_order[k] == old_order[k0]);
                }
            }
        }
        i += 1;
    }
    order
}

impl Ranked for i64 {
    open spec fn precedes(self, other: Self) -> bool {
        self < other
    }

    proof fn asymmetric(a: Self, b: Self) {
    }

    proof fn negatively_transitive(a: Self, b: Self, c: Self) {
    }

    fn before(&self, other: &Self) -> (r: bool) {
        *self < *other
    }
}

/// Sorted the other way round: the largest first.
pub struct Descending<K>(pub K);

impl<K: Ranked> Ranked for Descending<K> {
    open spec fn precedes(self, other: Self) -> bool {
        other.0.precedes(self.0)
    }

    proof fn asymmetric(a: Self, b: Self) {
        K::asymmetric(b.0, a.0);
    }

    proof fn negatively_transitive(a: Self, b: Self, c: Self) {
        K::negatively_transitive(c.0, b.0, a.0);
    }

    fn before(&self, other: &Self) -> (r: bool) {
        other.0.before(&self.0)
    }
}

/// Sorted by the first key, and by the second where the first leaves it open.
pub struct Then<A, B>(pub A, pub B);

impl<A: Ranked, B: Ranked> Ranked for Then<A, B> {
    open spec fn precedes(self, other: Self) -> bool {
        self.0.precedes(other.0) || (!other.0.precedes(self.0) && self.1.precedes(other.1))
    }

    proof fn asymmetric(a: Self, b: Self) {
        if a.0.precedes(b.0) {
            A::asymmetric(a.0, b.0);
        }
        if a.1.precedes(b.1) {
            B::asymmetric(a.1, b.1);
        }
    }

    proof fn negatively_transitive(a: Self, b: Self, c: Self) {
        A::negatively_transitive(a.0, b.0, c.0);
        if !c.0.precedes(a.0) {
            if b.0.precedes(a.0) {
                // c !< a and a !< b, so c !< b, and with b < a the keys differ.
                A::negatively_transitive(c.0, a.0, b.0);
                A::asymmetric(b.0, a.0);
                if !b.0.precedes(c.0) {
                    A::negatively_transitive(b.0, c.0, a.0);
                }
            } else if c.0.precedes(b.0) {
                if !c.0.precedes(a.0) {
                    A::negatively_transitive(c.0, a.0, b.0);
                }
            } else {
                B::negatively_transitive(a.1, b.1, c.1);
            }
        }
    }

    fn before(&self, other: &Self) -> (r: bool) {
        self.0.before(&other.0) || (!other.0.before(&self.0) && self.1.before(&other.1))
    }
}

impl Ranked for String {
    open spec fn precedes(self, other: Self) -> bool {
        text::text_precedes(self@, other@)
    }

    proof fn asymmetric(a: Self, b: Self) {
        text::lemma_text_asymmetric(a@, b@);
    }

    proof fn negatively_transitive(a: Self, b: Self, c: Self) {
        text::lemma_text_negatively_transitive(a@, b@, c@);
    }

    fn before(&self, other: &Self) -> (r: bool) {
        text::text_before(self.as_str(), other.as_str())
    }
}

} // verus!
