//! Rows of a table: copying, picking and dropping them.

use vstd::prelude::*;

use crate::sorting;

verus! {

/// A row that can be copied out of its table.
pub trait Record: View + Sized {
    /// A copy that holds the same.
    fn copied(&self) -> (r: Self)
        ensures
            r@ == self@,
    ;
}

/// What the rows hold.
pub open spec fn contents<R: View>(rows: Seq<R>) -> Seq<R::V> {
    rows.map_values(|r: R| r@)
}

/// Copies of the rows at the given indices.
pub fn pick<R: Record>(rows: &Vec<R>, order: &Vec<usize>) -> (r: Vec<R>)
    requires
        forall|i: int| 0 <= i < order@.len() ==> (#[trigger] order@[i] as int) < rows@.len(),
    ensures
        contents(r@) == sorting::picked(contents(rows@), order@),
{
    let mut r: Vec<R> = Vec::new();
    let ghost picks = sorting::picked(contents(rows@), order@);
    let mut i: usize = 0;
    assert(contents(r@) =~= picks.take(0));
    while i < order.len()
        invariant
            forall|i: int| 0 <= i < order@.len() ==> (#[trigger] order@[i] as int) < rows@.len(),
            picks == sorting::picked(contents(rows@), order@),
            i <= order@.len(),
            contents(r@) == picks.take(i as int),
        decreases order@.len() - i,
    {
        let ghost before = r@;
        r.push(rows[order[i]].copied());
        assert(contents(r@) =~= contents(before).push(picks[i as int]));
        assert(contents(r@) =~= picks.take(i + 1));
        i += 1;
    }
    assert(picks.take(i as int) =~= picks);
    r
}

/// The first `limit` of the indices, or all where there are fewer.
pub open spec fn at_most<T>(s: Seq<T>, limit: int) -> Seq<T> {
    if s.len() > limit {
        s.take(limit)
    } else {
        s
    }
}

/// How a counter goes up: by one, and not past the largest number a column holds.
pub open spec fn bumped(n: i64) -> i64 {
    if n < i64::MAX {
        (n + 1) as i64
    } else {
        n
    }
}

/// Counts a counter up.
pub fn bump(n: i64) -> (r: i64)
    ensures
        r == bumped(n),
{
    if n < i64::MAX {
        n + 1
    } else {
        n
    }
}

// Laws.

/// A cut list is the beginning of the list, as long as the limit allows.
pub proof fn law_at_most<T>(s: Seq<T>, limit: int)
    requires
        limit >= 0,
    ensures
        at_most(s, limit).len() <= limit,
        s.len() <= limit ==> at_most(s, limit) == s,
        s.len() > limit ==> at_most(s, limit).len() == limit,
        forall|i: int| 0 <= i < at_most(s, limit).len() ==> #[trigger] at_most(s, limit)[i] == s[i],
{
}

/// A counter goes up by one; only where there is no higher number it stays.
pub proof fn law_bumped(n: i64)
    ensures
        n != i64::MAX ==> bumped(n) - n == 1,
        n == i64::MAX ==> bumped(n) == n,
{
}

/// Keeping the items that are asked for keeps them all, in their order, and no
/// others.
pub proof fn lemma_filter_pieces<T>(a: Seq<T>, x: T, b: Seq<T>, f: spec_fn(T) -> bool)
    ensures
        (a + seq![x] + b).filter(f) == a.filter(f) + (if f(x) {
            seq![x]
        } else {
            Seq::empty()
        }) + b.filter(f),
    decreases b.len(),
{
    reveal(Seq::filter);
    if b.len() == 0 {
        assert((a + seq![x] + b).drop_last() =~= a);
        assert((a + seq![x] + b).last() == x);
        assert(b.filter(f) =~= Seq::empty());
        assert((a + seq![x] + b).filter(f) =~= a.filter(f) + (if f(x) {
            seq![x]
        } else {
            Seq::empty()
        }) + b.filter(f));
    } else {
        let t = b.drop_last();
        lemma_filter_pieces(a, x, t, f);
        assert((a + seq![x] + b).drop_last() =~= a + seq![x] + t);
        assert((a + seq![x] + b).last() == b.last());
        assert((a + seq![x] + b).filter(f) =~= a.filter(f) + (if f(x) {
            seq![x]
        } else {
            Seq::empty()
        }) + b.filter(f));
    }
}

/// A list of which all items are asked for is kept as it is.
pub proof fn lemma_filter_all<T>(s: Seq<T>, f: spec_fn(T) -> bool)
    requires
        forall|i: int| 0 <= i < s.len() ==> f(#[trigger] s[i]),
    ensures
        s.filter(f) == s,
    decreases s.len(),
{
    reveal(Seq::filter);
    if s.len() > 0 {
        let t = s.drop_last();
        assert forall|i: int| 0 <= i < t.len() implies f(#[trigger] t[i]) by {
            assert(t[i] == s[i]);
        }
        lemma_filter_all(t, f);
        assert(f(s[s.len() - 1]));
        assert(t.push(s.last()) =~= s);
    } else {
        assert(s.filter(f) =~= s);
    }
}

/// What a kept list holds is what the list holds of what is asked for.
pub proof fn lemma_filter_holds<T>(s: Seq<T>, f: spec_fn(T) -> bool, x: T)
    ensures
        s.filter(f).contains(x) <==> s.contains(x) && f(x),
    decreases s.len(),
{
    reveal(Seq::filter);
    if s.len() > 0 {
        let t = s.drop_last();
        let kept = t.filter(f);
        lemma_filter_holds(t, f, x);
        assert(s.contains(x) <==> t.contains(x) || x == s.last()) by {
            if t.contains(x) {
                let i = choose|i: int| 0 <= i < t.len() && t[i] == x;
                assert(s[i] == x);
            }
            assert(s[s.len() - 1] == s.last());
            if s.contains(x) {
                let i = choose|i: int| 0 <= i < s.len() && s[i] == x;
                if i < t.len() {
                    assert(t[i] == x);
                }
            }
        }
        if f(s.last()) {
            let now = kept.push(s.last());
            assert(now[kept.len() as int] == s.last());
            if kept.contains(x) {
                let i = choose|i: int| 0 <= i < kept.len() && kept[i] == x;
                assert(now[i] == x);
            }
            if now.contains(x) {
                let i = choose|i: int| 0 <= i < now.len() && now[i] == x;
                if i < kept.len() {
                    assert(kept[i] == x);
                }
            }
        }
    }
}

} // verus!
