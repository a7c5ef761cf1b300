//! Bookmarks: adding, removing, toggling and listing them.

use vstd::prelude::*;

use crate::records;
use crate::records::Record;
use crate::sorting;
use crate::text;

verus! {

/// A single bookmark.
#[derive(Debug, Clone)]
pub struct Bookmark {
    pub id: i64,
    pub url: String,
    pub title: String,
    pub folder: String,
    pub created: String,
}

/// What a bookmark holds.
#[verifier::ext_equal]
pub struct Mark {
    pub id: i64,
    pub url: Seq<char>,
    pub title: Seq<char>,
    pub folder: Seq<char>,
    pub created: Seq<char>,
}

impl View for Bookmark {
    type V = Mark;

    open spec fn view(&self) -> Mark {
        Mark {
            id: self.id,
            url: self.url@,
            title: self.title@,
            folder: self.folder@,
            created: self.created@,
        }
    }
}

impl Record for Bookmark {
    fn copied(&self) -> (r: Self) {
        Bookmark {
            id: self.id,
            url: self.url.clone(),
            title: self.title.clone(),
            folder: self.folder.clone(),
            created: self.created.clone(),
        }
    }
}

/// The bookmarks in the order in which they were made, and the highest number
/// ever given to one.
pub struct Bookmarks {
    rows: Vec<Bookmark>,
    last_id: i64,
}

/// What the bookmarks hold.
#[verifier::ext_equal]
pub struct BookmarkTable {
    pub rows: Seq<Mark>,
    pub last_id: i64,
}

impl View for Bookmarks {
    type V = BookmarkTable;

    closed spec fn view(&self) -> BookmarkTable {
        BookmarkTable { rows: records::contents(self.rows@), last_id: self.last_id }
    }
}

/// No bookmark has a number that is still to be given.
pub open spec fn numbered(t: BookmarkTable) -> bool {
    forall|i: int| 0 <= i < t.rows.len() ==> (#[trigger] t.rows[i]).id <= t.last_id
}

/// No address is bookmarked twice.
pub open spec fn one_per_address(t: BookmarkTable) -> bool {
    forall|i: int, j: int|
        0 <= i < j < t.rows.len() ==> (#[trigger] t.rows[i]).url != (#[trigger] t.rows[j]).url
}

/// Whether an address is bookmarked.
pub open spec fn marked(t: BookmarkTable, url: Seq<char>) -> bool {
    exists|i: int| 0 <= i < t.rows.len() && (#[trigger] t.rows[i]).url == url
}

/// Whether a bookmark for the address would be made: there is an address, it
/// has none, and a number is left.
pub open spec fn addable(t: BookmarkTable, url: Seq<char>) -> bool {
    url.len() > 0 && !marked(t, url) && t.last_id < i64::MAX
}

/// The bookmarks after one is added.
pub open spec fn with_mark(
    t: BookmarkTable,
    url: Seq<char>,
    title: Seq<char>,
    now: Seq<char>,
) -> BookmarkTable {
    if addable(t, url) {
        let id = (t.last_id + 1) as i64;
        BookmarkTable {
            rows: t.rows.push(Mark { id, url, title, folder: ""@, created: now }),
            last_id: id,
        }
    } else {
        t
    }
}

/// Having another number.
pub open spec fn other_id(id: i64) -> spec_fn(Mark) -> bool {
    |m: Mark| m.id != id
}

/// Having another address.
pub open spec fn other_url(url: Seq<char>) -> spec_fn(Mark) -> bool {
    |m: Mark| m.url != url
}

/// The bookmarks after those of an address are removed.
pub open spec fn without_url(t: BookmarkTable, url: Seq<char>) -> BookmarkTable {
    BookmarkTable { rows: t.rows.filter(other_url(url)), ..t }
}

/// The bookmarks after that with a number is removed.
pub open spec fn without_id(t: BookmarkTable, id: i64) -> BookmarkTable {
    BookmarkTable { rows: t.rows.filter(other_id(id)), ..t }
}

/// The bookmarks after a toggle.
pub open spec fn toggled(
    t: BookmarkTable,
    url: Seq<char>,
    title: Seq<char>,
    now: Seq<char>,
) -> BookmarkTable {
    if marked(t, url) {
        without_url(t, url)
    } else {
        with_mark(t, url, title, now)
    }
}

/// The newer bookmark first; of two made at the same time, that with the
/// higher number.
pub open spec fn by_newest() -> spec_fn(Mark, Mark) -> bool {
    |a: Mark, b: Mark|
        text::text_precedes(b.created, a.created) || (!text::text_precedes(a.created, b.created) && b.id
            < a.id)
}

/// The bookmarks, newest first.
pub open spec fn newest_first(rows: Seq<Mark>) -> Seq<Mark> {
    sorting::sorted(rows, by_newest())
}

impl Bookmarks {
    /// No bookmarks.
    pub fn new() -> (r: Self)
        ensures
            r@ == (BookmarkTable { rows: Seq::empty(), last_id: 0 }),
            numbered(r@),
            one_per_address(r@),
    {
        let r = Bookmarks { rows: Vec::new(), last_id: 0 };
        assert(r@.rows =~= Seq::empty());
        r
    }

    /// The given bookmarks, in the order in which they were made; `last_id` is
    /// the highest number known to have been given.
    pub fn with_entries(rows: Vec<Bookmark>, last_id: i64) -> (r: Self)
        ensures
            r@.rows == records::contents(rows@),
            numbered(r@),
            r@.last_id >= last_id,
            r@.last_id == last_id || exists|i: int|
                0 <= i < rows@.len() && (#[trigger] rows@[i]).id == r@.last_id,
    {
        let mut highest: i64 = last_id;
        let mut i: usize = 0;
        while i < rows.len()
            invariant
                i <= rows@.len(),
                highest >= last_id,
                forall|k: int| 0 <= k < i ==> (#[trigger] rows@[k]).id <= highest,
                highest == last_id || exists|k: int|
                    0 <= k < rows@.len() && (#[trigger] rows@[k]).id == highest,
            decreases rows@.len() - i,
        {
            if rows[i].id > highest {
                highest = rows[i].id;
            }
            i += 1;
        }
        Bookmarks { rows, last_id: highest }
    }

    /// The bookmarks, in the order in which they were made.
    pub fn entries(&self) -> (r: &Vec<Bookmark>)
        ensures
            records::contents(r@) == self@.rows,
    {
        &self.rows
    }
}

/// Check whether a URL is bookmarked.
pub fn is_bookmarked(b: &Bookmarks, url: &str) -> (r: bool)
    ensures
        r == marked(b@, url@),
{
    let mut i: usize = 0;
    while i < b.rows.len()
        invariant
            i <= b.rows@.len(),
            forall|k: int| 0 <= k < i ==> (#[trigger] b@.rows[k]).url != url@,
        decreases b.rows@.len() - i,
    {
        if text::same(b.rows[i].url.as_str(), url) {
            assert(b@.rows[i as int].url == url@);
            return true;
        }
        i += 1;
    }
    false
}

/// Add a new bookmark. Does nothing if the URL is empty or already bookmarked.
pub fn add_bookmark(b: &mut Bookmarks, url: &str, title: &str, now: &str)
    ensures
        final(b)@ == with_mark(old(b)@, url@, title@, now@),
{
    if url.is_empty() || is_bookmarked(b, url) || b.last_id == i64::MAX {
        return;
    }
    let id: i64 = b.last_id + 1;
    let row = Bookmark {
        id,
        url: url.to_owned(),
        title: title.to_owned(),
        folder: "".to_owned(),
        created: now.to_owned(),
    };
    let ghost made = row@;
    let ghost start = b@;
    b.rows.push(row);
    b.last_id = id;
    assert(b@.rows =~= start.rows.push(made));
}

/// Remove a bookmark by its number.
pub fn remove_bookmark(b: &mut Bookmarks, id: i64)
    ensures
        final(b)@ == without_id(old(b)@, id),
{
    let ghost items = b@.rows;
    let ghost f = other_id(id);
    let mut rows: Vec<Bookmark> = Vec::new();
    let mut i: usize = 0;
    assert(records::contents(rows@) =~= items.take(0).filter(f)) by {
        reveal(Seq::filter);
    }
    while i < b.rows.len()
        invariant
            items == records::contents(b.rows@),
            f == other_id(id),
            i <= b.rows@.len(),
            records::contents(rows@) == items.take(i as int).filter(f),
        decreases b.rows@.len() - i,
    {
        proof {
            reveal(Seq::filter);
            assert(items.take(i + 1).drop_last() =~= items.take(i as int));
            assert(items[i as int] == b.rows@[i as int]@);
        }
        if b.rows[i].id != id {
            let ghost before = rows@;
            rows.push(b.rows[i].copied());
            assert(records::contents(rows@) =~= records::contents(before).push(items[i as int]));
        }
        i += 1;
    }
    assert(items.take(i as int) =~= items);
    b.rows = rows;
}

/// Remove a bookmark by URL.
pub fn remove_bookmark_by_url(b: &mut Bookmarks, url: &str)
    ensures
        final(b)@ == without_url(old(b)@, url@),
{
    let ghost items = b@.rows;
    let ghost f = other_url(url@);
    let mut rows: Vec<Bookmark> = Vec::new();
    let mut i: usize = 0;
    assert(records::contents(rows@) =~= items.take(0).filter(f)) by {
        reveal(Seq::filter);
    }
    while i < b.rows.len()
        invariant
            items == records::contents(b.rows@),
            f == other_url(url@),
            i <= b.rows@.len(),
            records::contents(rows@) == items.take(i as int).filter(f),
        decreases b.rows@.len() - i,
    {
        proof {
            reveal(Seq::filter);
            assert(items.take(i + 1).drop_last() =~= items.take(i as int));
            assert(items[i as int] == b.rows@[i as int]@);
        }
        if !text::same(b.rows[i].url.as_str(), url) {
            let ghost before = rows@;
            rows.push(b.rows[i].copied());
            assert(records::contents(rows@) =~= records::contents(before).push(items[i as int]));
        }
        i += 1;
    }
    assert(items.take(i as int) =~= items);
    b.rows = rows;
}

/// Toggle: add the bookmark if not present, remove if present.
/// Returns `true` if the bookmark now exists (was added).
pub fn toggle_bookmark(b: &mut Bookmarks, url: &str, title: &str, now: &str) -> (added: bool)
    ensures
        final(b)@ == toggled(old(b)@, url@, title@, now@),
        added == addable(old(b)@, url@),
{
    if is_bookmarked(b, url) {
        remove_bookmark_by_url(b, url);
        false
    } else {
        let added = !url.is_empty() && b.last_id < i64::MAX;
        add_bookmark(b, url, title, now);
        added
    }
}

/// Return all bookmarks, newest first.
pub fn all_bookmarks(b: &Bookmarks) -> (r: Vec<Bookmark>)
    ensures
        records::contents(r@) == newest_first(b@.rows),
{
    let mut keys: Vec<sorting::Descending<sorting::Then<String, i64>>> = Vec::new();
    let ghost items = b@.rows;
    let mut i: usize = 0;
    while i < b.rows.len()
        invariant
            items == records::contents(b.rows@),
            i <= b.rows@.len(),
            keys@.len() == i,
            forall|k: int|
                0 <= k < i ==> (#[trigger] keys@[k]).0.0@ == items[k].created && keys@[k].0.1
                    == items[k].id,
        decreases b.rows@.len() - i,
    {
        keys.push(sorting::Descending(sorting::Then(b.rows[i].created.clone(), b.rows[i].id)));
        i += 1;
    }
    let order = sorting::order_by(&keys);
    proof {
        sorting::lemma_picked_is_sorted(items, by_newest(), keys@, order@);
    }
    records::pick(&b.rows, &order)
}

// Laws.

/// Whatever happens to the bookmarks keeps the numbering sound and each
/// address to one bookmark.
pub proof fn law_bookmarks_keep_invariants(
    t: BookmarkTable,
    url: Seq<char>,
    title: Seq<char>,
    now: Seq<char>,
    id: i64,
)
    requires
        numbered(t),
        one_per_address(t),
    ensures
        numbered(toggled(t, url, title, now)),
        one_per_address(toggled(t, url, title, now)),
        numbered(with_mark(t, url, title, now)),
        one_per_address(with_mark(t, url, title, now)),
        numbered(without_id(t, id)),
        one_per_address(without_id(t, id)),
{
    let u = with_mark(t, url, title, now);
    assert forall|i: int| 0 <= i < u.rows.len() implies (#[trigger] u.rows[i]).id <= u.last_id by {
        if i < t.rows.len() {
            assert(t.rows[i].id <= t.last_id);
        }
    }
    assert forall|i: int, j: int| 0 <= i < j < u.rows.len() implies (#[trigger] u.rows[i]).url
        != (#[trigger] u.rows[j]).url by {
        assert(u.rows[i] == t.rows[i]);
        if j < t.rows.len() {
            assert(t.rows[i].url != t.rows[j].url);
        }
    }
    lemma_filter_keeps_invariants(t, other_url(url));
    lemma_filter_keeps_invariants(t, other_id(id));
}

proof fn lemma_filter_keeps_invariants(t: BookmarkTable, f: spec_fn(Mark) -> bool)
    requires
        numbered(t),
        one_per_address(t),
    ensures
        numbered(BookmarkTable { rows: t.rows.filter(f), ..t }),
        one_per_address(BookmarkTable { rows: t.rows.filter(f), ..t }),
    decreases t.rows.len(),
{
    reveal(Seq::filter);
    if t.rows.len() > 0 {
        let shorter = BookmarkTable { rows: t.rows.drop_last(), ..t };
        assert forall|i: int| 0 <= i < shorter.rows.len() implies (#[trigger] shorter.rows[i]).id
            <= shorter.last_id by {
            assert(t.rows[i].id <= t.last_id);
        }
        assert forall|i: int, j: int| 0 <= i < j < shorter.rows.len() implies (
        #[trigger] shorter.rows[i]).url != (#[trigger] shorter.rows[j]).url by {
            assert(t.rows[i].url != t.rows[j].url);
        }
        lemma_filter_keeps_invariants(shorter, f);
        let kept = shorter.rows.filter(f);
        let now = t.rows.filter(f);
        let last = t.rows.len() - 1;
        assert(t.rows[last].id <= t.last_id);
        assert forall|i: int| 0 <= i < now.len() implies (#[trigger] now[i]).id <= t.last_id by {
            if i < kept.len() {
                assert(BookmarkTable { rows: kept, ..t }.rows[i].id <= t.last_id);
            }
        }
        assert forall|i: int, j: int| 0 <= i < j < now.len() implies (#[trigger] now[i]).url != (
        #[trigger] now[j]).url by {
            let k = BookmarkTable { rows: kept, ..t };
            if j < kept.len() {
                assert(k.rows[i].url != k.rows[j].url);
            } else {
                shorter.rows.lemma_filter_contains_rev(f, kept[i]);
                let p = choose|p: int| 0 <= p < shorter.rows.len() && shorter.rows[p] == kept[i];
                assert(t.rows[p].url != t.rows[last].url);
            }
        }
    } else {
        assert(t.rows.filter(f) =~= t.rows);
    }
}

/// An address is bookmarked after it was added, and not after it was removed.
pub proof fn law_mark_then_unmark(
    t: BookmarkTable,
    url: Seq<char>,
    title: Seq<char>,
    now: Seq<char>,
)
    ensures
        addable(t, url) ==> marked(with_mark(t, url, title, now), url),
        !marked(without_url(t, url), url),
{
    broadcast use vstd::seq_lib::group_filter_ensures;

    let u = with_mark(t, url, title, now);
    if addable(t, url) {
        assert(u.rows[t.rows.len() as int].url == url);
    }
    let w = without_url(t, url);
    if marked(w, url) {
        let i = choose|i: int| 0 <= i < w.rows.len() && (#[trigger] w.rows[i]).url == url;
        assert(other_url(url)(t.rows.filter(other_url(url))[i]));
    }
}

/// Two toggles of an address that had no bookmark leave the bookmarks as they
/// were, but for the number used up.
pub proof fn law_toggle_twice(t: BookmarkTable, url: Seq<char>, title: Seq<char>, now: Seq<char>)
    requires
        addable(t, url),
    ensures
        toggled(toggled(t, url, title, now), url, title, now).rows == t.rows,
{
    let u = with_mark(t, url, title, now);
    assert(u.rows[t.rows.len() as int].url == url);
    assert(marked(u, url));
    lemma_filter_all(t.rows, url);
    reveal(Seq::filter);
    assert(u.rows.drop_last() =~= t.rows);
}

proof fn lemma_filter_all(rows: Seq<Mark>, url: Seq<char>)
    requires
        forall|i: int| 0 <= i < rows.len() ==> (#[trigger] rows[i]).url != url,
    ensures
        rows.filter(other_url(url)) == rows,
    decreases rows.len(),
{
    reveal(Seq::filter);
    if rows.len() > 0 {
        let shorter = rows.drop_last();
        assert forall|i: int| 0 <= i < shorter.len() implies (#[trigger] shorter[i]).url != url by {
            assert(rows[i].url != url);
        }
        lemma_filter_all(shorter, url);
        assert(rows[rows.len() - 1].url != url);
        assert(shorter.push(rows.last()) =~= rows);
    }
}

proof fn lemma_by_newest()
    ensures
        sorting::strict_weak(by_newest()),
{
    let less = by_newest();
    assert forall|a: Mark, b: Mark| #[trigger] less(a, b) implies !less(b, a) by {
        if text::text_precedes(b.created, a.created) {
            text::lemma_text_asymmetric(b.created, a.created);
        }
    }
    assert forall|a: Mark, b: Mark, c: Mark|
        #![trigger less(a, b), less(b, c)]
        !less(a, b) && !less(b, c) implies !less(a, c) by {
        let (x, y, z) = (a.created, b.created, c.created);
        text::lemma_text_negatively_transitive(z, y, x);
        if !text::text_precedes(x, z) {
            if text::text_precedes(x, y) {
                text::lemma_text_asymmetric(x, y);
                if !text::text_precedes(z, y) {
                    text::lemma_text_negatively_transitive(x, z, y);
                }
            } else if text::text_precedes(y, z) {
                text::lemma_text_negatively_transitive(y, x, z);
            }
        }
    }
}

/// The list of bookmarks holds each of them, and none stands before one that
/// was made later.
pub proof fn law_newest_first(rows: Seq<Mark>)
    requires
        rows.len() <= usize::MAX,
    ensures
        newest_first(rows).len() == rows.len(),
        forall|m: Mark| newest_first(rows).contains(m) <==> rows.contains(m),
        forall|i: int, j: int|
            0 <= i < j < rows.len() ==> !text::text_precedes(
                (#[trigger] newest_first(rows)[i]).created,
                (#[trigger] newest_first(rows)[j]).created,
            ),
{
    lemma_by_newest();
    let less = by_newest();
    sorting::law_sorted(rows, less);
    let s = newest_first(rows);
    assert forall|i: int, j: int| 0 <= i < j < rows.len() implies !text::text_precedes(
        (#[trigger] s[i]).created,
        (#[trigger] s[j]).created,
    ) by {
        assert(!less(s[j], s[i]));
    }
}

/// A bookmark is added behind the others, which stay as they are, with the next
/// number, the address, the title and the time; unless there is no address, the
/// address has a bookmark already, or no number is left: then nothing changes.
pub proof fn law_bookmark_is_added(
    t: BookmarkTable,
    url: Seq<char>,
    title: Seq<char>,
    now: Seq<char>,
)
    ensures
        ({
            let u = with_mark(t, url, title, now);
            let n = t.rows.len() as int;
            let new = url.len() > 0 && t.last_id != i64::MAX && forall|i: int|
                0 <= i < n ==> (#[trigger] t.rows[i]).url != url;
            &&& addable(t, url) == new
            &&& !new ==> u == t
            &&& new ==> {
                &&& u.rows.len() == n + 1
                &&& forall|i: int| 0 <= i < n ==> #[trigger] u.rows[i] == t.rows[i]
                &&& u.rows[n].id == t.last_id + 1
                &&& u.rows[n].url == url
                &&& u.rows[n].title == title
                &&& u.rows[n].created == now
                &&& u.rows[n].folder.len() == 0
                &&& u.last_id == t.last_id + 1
            }
        }),
{
    reveal_strlit("");
}

/// Removing the bookmarks of an address removes these and no others, and keeps
/// the order of the rest and the numbers given.
pub proof fn law_removing_an_address(t: BookmarkTable, url: Seq<char>, m: Mark, a: Seq<Mark>, b: Seq<Mark>)
    ensures
        without_url(t, url).last_id == t.last_id,
        without_url(t, url).rows.contains(m) <==> t.rows.contains(m) && m.url != url,
        t.rows == a + seq![m] + b && m.url == url && (forall|i: int|
            0 <= i < a.len() ==> (#[trigger] a[i]).url != url) && (forall|i: int|
            0 <= i < b.len() ==> (#[trigger] b[i]).url != url) ==> without_url(t, url).rows == a + b,
        (forall|i: int| 0 <= i < t.rows.len() ==> (#[trigger] t.rows[i]).url != url) ==> without_url(
            t,
            url,
        ).rows == t.rows,
{
    let f = other_url(url);
    records::lemma_filter_holds(t.rows, f, m);
    if forall|i: int| 0 <= i < t.rows.len() ==> (#[trigger] t.rows[i]).url != url {
        records::lemma_filter_all(t.rows, f);
    }
    if t.rows == a + seq![m] + b && m.url == url && (forall|i: int|
        0 <= i < a.len() ==> (#[trigger] a[i]).url != url) && (forall|i: int|
        0 <= i < b.len() ==> (#[trigger] b[i]).url != url) {
        records::lemma_filter_pieces(a, m, b, f);
        records::lemma_filter_all(a, f);
        records::lemma_filter_all(b, f);
        assert(a + Seq::<Mark>::empty() + b =~= a + b);
    }
}

/// Removing the bookmark with a number removes it and no other, and keeps the
/// order of the rest and the numbers given.
pub proof fn law_removing_a_number(t: BookmarkTable, id: i64, m: Mark, a: Seq<Mark>, b: Seq<Mark>)
    ensures
        without_id(t, id).last_id == t.last_id,
        without_id(t, id).rows.contains(m) <==> t.rows.contains(m) && m.id != id,
        t.rows == a + seq![m] + b && m.id == id && (forall|i: int|
            0 <= i < a.len() ==> (#[trigger] a[i]).id != id) && (forall|i: int|
            0 <= i < b.len() ==> (#[trigger] b[i]).id != id) ==> without_id(t, id).rows == a + b,
        (forall|i: int| 0 <= i < t.rows.len() ==> (#[trigger] t.rows[i]).id != id) ==> without_id(
            t,
            id,
        ).rows == t.rows,
{
    let f = other_id(id);
    records::lemma_filter_holds(t.rows, f, m);
    if forall|i: int| 0 <= i < t.rows.len() ==> (#[trigger] t.rows[i]).id != id {
        records::lemma_filter_all(t.rows, f);
    }
    if t.rows == a + seq![m] + b && m.id == id && (forall|i: int|
        0 <= i < a.len() ==> (#[trigger] a[i]).id != id) && (forall|i: int|
        0 <= i < b.len() ==> (#[trigger] b[i]).id != id) {
        records::lemma_filter_pieces(a, m, b, f);
        records::lemma_filter_all(a, f);
        records::lemma_filter_all(b, f);
        assert(a + Seq::<Mark>::empty() + b =~= a + b);
    }
}

/// A toggle leaves an address with a bookmark where it had none, and with none
/// where it had one; it does so for no other address, and leaves every other
/// bookmark as it was.
pub proof fn law_toggle_turns_one_address_over(
    t: BookmarkTable,
    url: Seq<char>,
    title: Seq<char>,
    now: Seq<char>,
    other: Mark,
)
    requires
        url.len() > 0,
        t.last_id < i64::MAX,
        other.url != url,
    ensures
        (exists|i: int|
            0 <= i < toggled(t, url, title, now).rows.len() && (#[trigger] toggled(
                t,
                url,
                title,
                now,
            ).rows[i]).url == url) <==> !(exists|i: int|
            0 <= i < t.rows.len() && (#[trigger] t.rows[i]).url == url),
        toggled(t, url, title, now).rows.contains(other) <==> t.rows.contains(other),
{
    let u = toggled(t, url, title, now);
    if exists|i: int| 0 <= i < t.rows.len() && (#[trigger] t.rows[i]).url == url {
        assert(marked(t, url));
        records::lemma_filter_holds(t.rows, other_url(url), other);
        assert forall|i: int| 0 <= i < u.rows.len() implies (#[trigger] u.rows[i]).url != url by {
            assert(u.rows.contains(u.rows[i]));
            records::lemma_filter_holds(t.rows, other_url(url), u.rows[i]);
        }
    } else {
        assert(addable(t, url));
        let n = t.rows.len() as int;
        assert(u.rows[n].url == url);
        if t.rows.contains(other) {
            let i = choose|i: int| 0 <= i < n && t.rows[i] == other;
            assert(u.rows[i] == other);
        }
        if u.rows.contains(other) {
            let i = choose|i: int| 0 <= i < u.rows.len() && u.rows[i] == other;
            assert(i < n);
            assert(t.rows[i] == other);
        }
    }
}

/// Of bookmarks made at the same time, that with the higher number is listed
/// first.
pub proof fn law_higher_number_first(rows: Seq<Mark>, i: int, j: int)
    requires
        rows.len() <= usize::MAX,
        0 <= i < j < rows.len(),
        newest_first(rows)[i].created == newest_first(rows)[j].created,
    ensures
        newest_first(rows)[i].id >= newest_first(rows)[j].id,
{
    lemma_by_newest();
    sorting::law_sorted(rows, by_newest());
    let less = by_newest();
    let s = newest_first(rows);
    assert(!less(s[j], s[i]));
    if text::text_precedes(s[i].created, s[j].created) {
        text::lemma_text_asymmetric(s[i].created, s[j].created);
    }
}

} // verus!
