//! Browsing history: recording visits, listing and searching them.

use vstd::prelude::*;

use crate::records;
use crate::records::Record;
use crate::sorting;
use crate::text;

verus! {

/// A single history entry.
#[derive(Debug, Clone)]
pub struct HistoryEntry {
    pub id: i64,
    pub url: String,
    pub title: String,
    pub visit_count: i64,
    pub last_visit: String,
}

/// What a history entry holds.
#[verifier::ext_equal]
pub struct Visit {
    pub id: i64,
    pub url: Seq<char>,
    pub title: Seq<char>,
    pub visit_count: i64,
    pub last_visit: Seq<char>,
}

impl View for HistoryEntry {
    type V = Visit;

    open spec fn view(&self) -> Visit {
        Visit {
            id: self.id,
            url: self.url@,
            title: self.title@,
            visit_count: self.visit_count,
            last_visit: self.last_visit@,
        }
    }
}

impl Record for HistoryEntry {
    fn copied(&self) -> (r: Self) {
        HistoryEntry {
            id: self.id,
            url: self.url.clone(),
            title: self.title.clone(),
            visit_count: self.visit_count,
            last_visit: self.last_visit.clone(),
        }
    }
}

/// The history: its entries in the order in which they were first made, and
/// the highest number ever given to one.
pub struct History {
    rows: Vec<HistoryEntry>,
    last_id: i64,
}

/// What the history holds.
#[verifier::ext_equal]
pub struct HistoryTable {
    pub rows: Seq<Visit>,
    pub last_id: i64,
}

impl View for History {
    type V = HistoryTable;

    closed spec fn view(&self) -> HistoryTable {
        HistoryTable { rows: records::contents(self.rows@), last_id: self.last_id }
    }
}

/// No entry has a number that is still to be given.
pub open spec fn numbered(t: HistoryTable) -> bool {
    forall|i: int| 0 <= i < t.rows.len() ==> (#[trigger] t.rows[i]).id <= t.last_id
}

/// Each page has one entry.
pub open spec fn one_entry_per_page(t: HistoryTable) -> bool {
    forall|i: int, j: int|
        0 <= i < j < t.rows.len() ==> (#[trigger] t.rows[i]).url != (#[trigger] t.rows[j]).url
}

/// Whether a page has an entry.
pub open spec fn visited(t: HistoryTable, url: Seq<char>) -> bool {
    exists|i: int| 0 <= i < t.rows.len() && (#[trigger] t.rows[i]).url == url
}

/// Pages whose visits are not recorded.
pub open spec fn internal_page(url: Seq<char>) -> bool {
    url.len() == 0 || url == "about:blank"@
}

/// An entry after one more visit to `url`.
pub open spec fn revisited(v: Visit, url: Seq<char>, title: Seq<char>, now: Seq<char>) -> Visit {
    if v.url == url {
        Visit { visit_count: records::bumped(v.visit_count), last_visit: now, title, ..v }
    } else {
        v
    }
}

/// The history after a visit.
pub open spec fn after_visit(
    t: HistoryTable,
    url: Seq<char>,
    title: Seq<char>,
    now: Seq<char>,
) -> HistoryTable {
    if internal_page(url) {
        t
    } else if visited(t, url) {
        HistoryTable { rows: t.rows.map_values(|v: Visit| revisited(v, url, title, now)), ..t }
    } else if t.last_id == i64::MAX {
        t
    } else {
        let id = (t.last_id + 1) as i64;
        HistoryTable {
            rows: t.rows.push(Visit { id, url, title, visit_count: 1, last_visit: now }),
            last_id: id,
        }
    }
}

/// The later visit first.
pub open spec fn by_last_visit() -> spec_fn(Visit, Visit) -> bool {
    |a: Visit, b: Visit| text::text_precedes(b.last_visit, a.last_visit)
}

/// The entries, the latest visit first.
pub open spec fn newest_first(rows: Seq<Visit>) -> Seq<Visit> {
    sorting::sorted(rows, by_last_visit())
}

/// Whether the address or the title holds the query, whatever the case of
/// ASCII letters.
pub open spec fn mentions(query: Seq<char>) -> spec_fn(Visit) -> bool {
    |v: Visit|
        text::holds(text::folded(v.url), text::folded(query)) || text::holds(
            text::folded(v.title),
            text::folded(query),
        )
}

/// How many entries a search gives at most.
pub const SEARCH_LIMIT: usize = 200;

/// How many entries the history dialog lists at most.
pub const DIALOG_LIMIT: u32 = 500;

impl History {
    /// An empty history.
    pub fn new() -> (r: Self)
        ensures
            r@ == (HistoryTable { rows: Seq::empty(), last_id: 0 }),
            numbered(r@),
            one_entry_per_page(r@),
    {
        let r = History { rows: Vec::new(), last_id: 0 };
        assert(r@.rows =~= Seq::empty());
        r
    }

    /// A history with the given entries, in the order in which they were made;
    /// `last_id` is the highest number known to have been given.
    pub fn with_entries(rows: Vec<HistoryEntry>, last_id: i64) -> (r: Self)
        ensures
            r@.rows == records::contents(rows@),
            numbered(r@),
            r@.last_id >= last_id,
            r@.last_id == last_id || exists|i: int|
                0 <= i < rows@.len() && (#[trigger] rows@[i]).id == r@.last_id,
    {
        let mut highest: i64 = last_id;
        let mut i: usize = 0;
        while i < rows.len()
            invariant
                i <= rows@.len(),
                highest >= last_id,
                forall|k: int| 0 <= k < i ==> (#[trigger] rows@[k]).id <= highest,
                highest == last_id || exists|k: int|
                    0 <= k < rows@.len() && (#[trigger] rows@[k]).id == highest,
            decreases rows@.len() - i,
        {
            if rows[i].id > highest {
                highest = rows[i].id;
            }
            i += 1;
        }
        History { rows, last_id: highest }
    }

    /// The entries, in the order in which they were made.
    pub fn entries(&self) -> (r: &Vec<HistoryEntry>)
        ensures
            records::contents(r@) == self@.rows,
    {
        &self.rows
    }
}

fn find_page(rows: &Vec<HistoryEntry>, url: &str) -> (r: bool)
    ensures
        r == exists|i: int| 0 <= i < rows@.len() && (#[trigger] rows@[i])@.url == url@,
{
    let mut i: usize = 0;
    while i < rows.len()
        invariant
            i <= rows@.len(),
            forall|k: int| 0 <= k < i ==> (#[trigger] rows@[k])@.url != url@,
        decreases rows@.len() - i,
    {
        if text::same(rows[i].url.as_str(), url) {
            assert(rows@[i as int]@.url == url@);
            return true;
        }
        i += 1;
    }
    false
}

/// Record a page visit. If the page has an entry already, count the visit and
/// note its time and title; else make an entry. Internal pages are skipped.
pub fn record_visit(h: &mut History, url: &str, title: &str, now: &str)
    ensures
        final(h)@ == after_visit(old(h)@, url@, title@, now@),
{
    if url.is_empty() || text::same(url, "about:blank") {
        return;
    }
    let ghost start = h@;
    let found = find_page(&h.rows, url);
    proof {
        if found {
            let i = choose|i: int| 0 <= i < h.rows@.len() && (#[trigger] h.rows@[i])@.url == url@;
            assert(start.rows[i].url == url@);
        }
        if visited(start, url@) {
            let i = choose|i: int| 0 <= i < start.rows.len() && (#[trigger] start.rows[i]).url == url@;
            assert(h.rows@[i]@.url == url@);
        }
    }
    if found {
        let mut rows: Vec<HistoryEntry> = Vec::new();
        let mut i: usize = 0;
        let ghost f = |v: Visit| revisited(v, url@, title@, now@);
        let ghost wanted = start.rows.map_values(f);
        assert(records::contents(rows@) =~= wanted.take(0));
        while i < h.rows.len()
            invariant
                start == h@,
                start.rows == records::contents(h.rows@),
                f == (|v: Visit| revisited(v, url@, title@, now@)),
                wanted == start.rows.map_values(f),
                i <= h.rows@.len(),
                records::contents(rows@) == wanted.take(i as int),
            decreases h.rows@.len() - i,
        {
            let mut row = h.rows[i].copied();
            assert(row@ == start.rows[i as int]);
            if text::same(row.url.as_str(), url) {
                row.visit_count = records::bump(row.visit_count);
                row.last_visit = now.to_owned();
                row.title = title.to_owned();
            }
            assert(row@ =~= wanted[i as int]);
            let ghost before = rows@;
            rows.push(row);
            assert(records::contents(rows@) =~= records::contents(before).push(wanted[i as int]));
            assert(records::contents(rows@) =~= wanted.take(i + 1));
            i += 1;
        }
        h.rows = rows;
        assert(wanted.take(i as int) =~= wanted);
        assert(h@.rows =~= wanted);
        return;
    }
    if h.last_id == i64::MAX {
        return;
    }
    let id: i64 = h.last_id + 1;
    let row = HistoryEntry {
        id,
        url: url.to_owned(),
        title: title.to_owned(),
        visit_count: 1,
        last_visit: now.to_owned(),
    };
    let ghost made = row@;
    h.rows.push(row);
    h.last_id = id;
    assert(h@.rows =~= start.rows.push(made));
}

fn list_newest(rows: &Vec<HistoryEntry>, limit: usize) -> (r: Vec<HistoryEntry>)
    ensures
        records::contents(r@) == records::at_most(
            newest_first(records::contents(rows@)),
            limit as int,
        ),
{
    let mut keys: Vec<sorting::Descending<String>> = Vec::new();
    let ghost items = records::contents(rows@);
    let mut i: usize = 0;
    while i < rows.len()
        invariant
            items == records::contents(rows@),
            i <= rows@.len(),
            keys@.len() == i,
            forall|k: int| 0 <= k < i ==> (#[trigger] keys@[k]).0@ == items[k].last_visit,
        decreases rows@.len() - i,
    {
        keys.push(sorting::Descending(rows[i].last_visit.clone()));
        i += 1;
    }
    let mut order = sorting::order_by(&keys);
    proof {
        sorting::lemma_picked_is_sorted(items, by_last_visit(), keys@, order@);
    }
    let ghost full = order@;
    if order.len() > limit {
        order.truncate(limit);
        assert(sorting::picked(items, order@) =~= sorting::picked(items, full).take(limit as int));
    }
    records::pick(rows, &order)
}

/// Return the most recent history entries.
pub fn all_entries(h: &History, limit: u32) -> (r: Vec<HistoryEntry>)
    ensures
        records::contents(r@) == records::at_most(newest_first(h@.rows), limit as int),
{
    list_newest(&h.rows, limit as usize)
}

/// Search history by URL or title (case-insensitive substring match), the
/// latest visit first.
pub fn search(h: &History, query: &str) -> (r: Vec<HistoryEntry>)
    ensures
        records::contents(r@) == records::at_most(
            newest_first(h@.rows.filter(mentions(query@))),
            SEARCH_LIMIT as int,
        ),
{
    let q = text::fold(query);
    let ghost f = mentions(query@);
    let ghost items = h@.rows;
    let mut found: Vec<HistoryEntry> = Vec::new();
    let mut i: usize = 0;
    assert(records::contents(found@) =~= items.take(0).filter(f)) by {
        reveal(Seq::filter);
    }
    while i < h.rows.len()
        invariant
            items == records::contents(h.rows@),
            f == mentions(query@),
            q@ == text::folded(query@),
            i <= h.rows@.len(),
            records::contents(found@) == items.take(i as int).filter(f),
        decreases h.rows@.len() - i,
    {
        let url = text::fold(h.rows[i].url.as_str());
        let title = text::fold(h.rows[i].title.as_str());
        proof {
            reveal(Seq::filter);
            assert(items.take(i + 1).drop_last() =~= items.take(i as int));
            assert(items[i as int] == h.rows@[i as int]@);
        }
        if text::has(url.as_str(), q.as_str()) || text::has(title.as_str(), q.as_str()) {
            let ghost before = found@;
            found.push(h.rows[i].copied());
            assert(records::contents(found@) =~= records::contents(before).push(items[i as int]));
        }
        i += 1;
    }
    assert(items.take(i as int) =~= items);
    list_newest(&found, SEARCH_LIMIT)
}

/// What the history dialog lists for a query: everything, up to a limit, for
/// an empty one.
pub open spec fn dialog_rows(t: HistoryTable, query: Seq<char>) -> Seq<Visit> {
    if query.len() == 0 {
        records::at_most(newest_first(t.rows), DIALOG_LIMIT as int)
    } else {
        records::at_most(newest_first(t.rows.filter(mentions(query))), SEARCH_LIMIT as int)
    }
}

/// The entries that the history dialog lists for a query.
pub fn list_for_dialog(h: &History, query: &str) -> (r: Vec<HistoryEntry>)
    ensures
        records::contents(r@) == dialog_rows(h@, query@),
{
    if query.is_empty() {
        all_entries(h, DIALOG_LIMIT)
    } else {
        search(h, query)
    }
}

/// The label that counts an entry's visits.
pub fn visits_label(visit_count: i64) -> (r: String)
    ensures
        r@ == text::signed_decimal(visit_count as int) + "\u{d7}"@,
{
    let n = text::signed_decimal_of(visit_count);
    text::joined(n.as_str(), "\u{d7}")
}

/// Delete all history entries. Numbers given before are not given again.
pub fn clear_all(h: &mut History)
    ensures
        final(h)@ == (HistoryTable { rows: Seq::empty(), last_id: old(h)@.last_id }),
{
    h.rows = Vec::new();
    assert(h@.rows =~= Seq::empty());
}

// Laws.

/// A visit keeps the numbering sound and the pages to one entry each.
pub proof fn law_visit_keeps_invariants(
    t: HistoryTable,
    url: Seq<char>,
    title: Seq<char>,
    now: Seq<char>,
)
    requires
        numbered(t),
    ensures
        numbered(after_visit(t, url, title, now)),
        one_entry_per_page(t) ==> one_entry_per_page(after_visit(t, url, title, now)),
{
    let u = after_visit(t, url, title, now);
    let f = |v: Visit| revisited(v, url, title, now);
    assert forall|i: int| 0 <= i < u.rows.len() implies (#[trigger] u.rows[i]).id <= u.last_id by {
        if i < t.rows.len() {
            assert(t.rows[i].id <= t.last_id);
        }
    }
    if one_entry_per_page(t) {
        assert forall|i: int, j: int| 0 <= i < j < u.rows.len() implies (#[trigger] u.rows[i]).url
            != (#[trigger] u.rows[j]).url by {
            assert(u.rows[i].url == t.rows[i].url);
            if j < t.rows.len() {
                assert(t.rows[i].url != t.rows[j].url);
            }
        }
    }
}

/// After a visit to an ordinary page, the page has an entry that carries the
/// title and the time of the visit.
pub proof fn law_visit_is_recorded(
    t: HistoryTable,
    url: Seq<char>,
    title: Seq<char>,
    now: Seq<char>,
)
    requires
        !internal_page(url),
        t.last_id < i64::MAX,
    ensures
        exists|i: int|
            {
                &&& 0 <= i < after_visit(t, url, title, now).rows.len()
                &&& (#[trigger] after_visit(t, url, title, now).rows[i]).url == url
                &&& after_visit(t, url, title, now).rows[i].title == title
                &&& after_visit(t, url, title, now).rows[i].last_visit == now
            },
{
    let u = after_visit(t, url, title, now);
    if visited(t, url) {
        let i = choose|i: int| 0 <= i < t.rows.len() && (#[trigger] t.rows[i]).url == url;
        assert(u.rows[i] == revisited(t.rows[i], url, title, now));
    } else {
        assert(u.rows[t.rows.len() as int].url == url);
    }
}

/// A visit leaves the entries of other pages as they were.
pub proof fn law_visit_spares_other_pages(
    t: HistoryTable,
    url: Seq<char>,
    title: Seq<char>,
    now: Seq<char>,
    i: int,
)
    requires
        0 <= i < t.rows.len(),
        t.rows[i].url != url,
    ensures
        after_visit(t, url, title, now).rows.len() >= t.rows.len(),
        after_visit(t, url, title, now).rows[i] == t.rows[i],
{
}

proof fn lemma_by_last_visit()
    ensures
        sorting::strict_weak(by_last_visit()),
{
    let less = by_last_visit();
    assert forall|a: Visit, b: Visit| #[trigger] less(a, b) implies !less(b, a) by {
        text::lemma_text_asymmetric(b.last_visit, a.last_visit);
    }
    assert forall|a: Visit, b: Visit, c: Visit|
        #![trigger less(a, b), less(b, c)]
        !less(a, b) && !less(b, c) implies !less(a, c) by {
        text::lemma_text_negatively_transitive(c.last_visit, b.last_visit, a.last_visit);
    }
}

/// Listing the latest visit first keeps every entry, and no entry stands
/// before one with a later visit.
pub proof fn law_newest_first(rows: Seq<Visit>)
    requires
        rows.len() <= usize::MAX,
    ensures
        newest_first(rows).len() == rows.len(),
        forall|v: Visit| newest_first(rows).contains(v) <==> rows.contains(v),
        forall|i: int, j: int|
            0 <= i < j < rows.len() ==> !text::text_precedes(
                (#[trigger] newest_first(rows)[i]).last_visit,
                (#[trigger] newest_first(rows)[j]).last_visit,
            ),
{
    lemma_by_last_visit();
    let less = by_last_visit();
    sorting::law_sorted(rows, less);
    let s = newest_first(rows);
    assert forall|i: int, j: int| 0 <= i < j < rows.len() implies !text::text_precedes(
        (#[trigger] s[i]).last_visit,
        (#[trigger] s[j]).last_visit,
    ) by {
        assert(!less(s[j], s[i]));
    }
}

/// A search gives entries of the history that mention the query, and, where
/// they are no more than the limit, all of them.
pub proof fn law_search_finds_mentions(rows: Seq<Visit>, query: Seq<char>, v: Visit)
    requires
        rows.len() <= usize::MAX,
    ensures
        records::at_most(newest_first(rows.filter(mentions(query))), SEARCH_LIMIT as int).contains(v)
            ==> rows.contains(v) && mentions(query)(v),
        rows.filter(mentions(query)).len() <= SEARCH_LIMIT && rows.contains(v) && mentions(query)(v)
            ==> records::at_most(
            newest_first(rows.filter(mentions(query))),
            SEARCH_LIMIT as int,
        ).contains(v),
{
    broadcast use vstd::seq_lib::group_filter_ensures;

    let f = mentions(query);
    let kept = rows.filter(f);
    law_newest_first(kept);
    let all = newest_first(kept);
    let shown = records::at_most(all, SEARCH_LIMIT as int);
    if shown.contains(v) {
        let k = choose|k: int| 0 <= k < shown.len() && shown[k] == v;
        assert(all[k] == v);
        assert(all.contains(v));
        assert(kept.contains(v));
        rows.lemma_filter_contains_rev(f, v);
        let j = choose|j: int| 0 <= j < kept.len() && kept[j] == v;
        assert(f(kept[j]));
    }
    if rows.contains(v) && f(v) {
        let k = choose|k: int| 0 <= k < rows.len() && rows[k] == v;
        assert(kept.contains(rows[k]));
        assert(all.contains(v));
    }
}

/// A query that stands in an address or a title as it is mentions the entry,
/// and the case of its ASCII letters does not matter.
pub proof fn law_search_ignores_case(query: Seq<char>, v: Visit)
    ensures
        text::holds(v.url, query) || text::holds(v.title, query) ==> mentions(query)(v),
        mentions(text::folded(query))(v) == mentions(query)(v),
{
    text::lemma_folded(v.url, query);
    text::lemma_folded(v.title, query);
}

/// A further visit to a page counts one up, notes its time and title, and
/// changes nothing else about the entry, nor how many entries there are.
pub proof fn law_visits_are_counted(
    t: HistoryTable,
    url: Seq<char>,
    title: Seq<char>,
    now: Seq<char>,
    i: int,
)
    requires
        0 <= i < t.rows.len(),
        t.rows[i].url == url,
        url.len() > 0,
        url != "about:blank"@,
    ensures
        ({
            let u = after_visit(t, url, title, now);
            &&& u.rows.len() == t.rows.len()
            &&& u.last_id == t.last_id
            &&& u.rows[i].id == t.rows[i].id
            &&& u.rows[i].url == url
            &&& u.rows[i].title == title
            &&& u.rows[i].last_visit == now
            &&& t.rows[i].visit_count < i64::MAX ==> u.rows[i].visit_count - t.rows[i].visit_count == 1
            &&& t.rows[i].visit_count == i64::MAX ==> u.rows[i].visit_count == i64::MAX
        }),
{
    assert(visited(t, url));
}

/// A first visit adds one entry behind the others, which stay as they are: it
/// has the next number, what was visited and when, and the count one. Where no
/// number is left, nothing changes.
pub proof fn law_first_visit(t: HistoryTable, url: Seq<char>, title: Seq<char>, now: Seq<char>)
    requires
        url.len() > 0,
        url != "about:blank"@,
        forall|i: int| 0 <= i < t.rows.len() ==> (#[trigger] t.rows[i]).url != url,
    ensures
        ({
            let u = after_visit(t, url, title, now);
            let n = t.rows.len() as int;
            &&& t.last_id == i64::MAX ==> u == t
            &&& t.last_id < i64::MAX ==> {
                &&& u.rows.len() == n + 1
                &&& forall|i: int| 0 <= i < n ==> #[trigger] u.rows[i] == t.rows[i]
                &&& u.rows[n].id == t.last_id + 1
                &&& u.rows[n].url == url
                &&& u.rows[n].title == title
                &&& u.rows[n].visit_count == 1
                &&& u.rows[n].last_visit == now
                &&& u.last_id == t.last_id + 1
            }
        }),
{
}

/// A visit to no address, or to the blank page, leaves no trace.
pub proof fn law_blank_pages_are_skipped(
    t: HistoryTable,
    url: Seq<char>,
    title: Seq<char>,
    now: Seq<char>,
)
    requires
        url.len() == 0 || url == "about:blank"@,
    ensures
        after_visit(t, url, title, now) == t,
{
}

/// The history after so many visits to a page, all with the same title and time.
pub open spec fn after_visits(
    t: HistoryTable,
    url: Seq<char>,
    title: Seq<char>,
    now: Seq<char>,
    n: nat,
) -> HistoryTable
    decreases n,
{
    if n == 0 {
        t
    } else {
        after_visit(after_visits(t, url, title, now, (n - 1) as nat), url, title, now)
    }
}

/// So many visits to a new page make one entry, which counts them all.
pub proof fn law_visits_add_up(
    t: HistoryTable,
    url: Seq<char>,
    title: Seq<char>,
    now: Seq<char>,
    n: nat,
)
    requires
        url.len() > 0,
        url != "about:blank"@,
        t.last_id < i64::MAX,
        forall|i: int| 0 <= i < t.rows.len() ==> (#[trigger] t.rows[i]).url != url,
        0 < n <= i64::MAX,
    ensures
        after_visits(t, url, title, now, n).rows.len() == t.rows.len() + 1,
        after_visits(t, url, title, now, n).rows.last().url == url,
        after_visits(t, url, title, now, n).rows.last().visit_count == n,
    decreases n,
{
    if n == 1 {
        reveal_with_fuel(after_visits, 2);
        law_first_visit(t, url, title, now);
    } else {
        let before = after_visits(t, url, title, now, (n - 1) as nat);
        law_visits_add_up(t, url, title, now, (n - 1) as nat);
        law_visits_are_counted(before, url, title, now, before.rows.len() - 1);
    }
}

/// Whether two characters are the same letter, whatever the case of ASCII
/// letters.
pub open spec fn same_letter(a: char, b: char) -> bool {
    ||| a == b
    ||| 65 <= a as int <= 90 && b as int == a as int + 32
    ||| 65 <= b as int <= 90 && a as int == b as int + 32
}

/// Whether a query stands in a text, letter for letter.
pub open spec fn stands_in(query: Seq<char>, text: Seq<char>) -> bool {
    exists|i: int| #[trigger] stands_from(query, text, i)
}

/// Whether a query stands in a text from an index on, letter for letter.
pub open spec fn stands_from(query: Seq<char>, text: Seq<char>, i: int) -> bool {
    &&& 0 <= i
    &&& i + query.len() <= text.len()
    &&& forall|k: int| 0 <= k < query.len() ==> same_letter(text[i + k], #[trigger] query[k])
}

proof fn lemma_same_letter(a: char, b: char)
    ensures
        text::folded_char(a) == text::folded_char(b) <==> same_letter(a, b),
{
}

proof fn lemma_stands_in(query: Seq<char>, s: Seq<char>)
    ensures
        text::holds(text::folded(s), text::folded(query)) <==> stands_in(query, s),
{
    let fs = text::folded(s);
    let fq = text::folded(query);
    if text::holds(fs, fq) {
        let i = choose|i: int| text::occurs_at(fs, fq, i);
        text::law_occurrence(fs, fq, i);
        assert forall|k: int| 0 <= k < query.len() implies same_letter(s[i + k], #[trigger] query[k]) by {
            assert(fs[i + k] == fq[k]);
            lemma_same_letter(s[i + k], query[k]);
        }
        assert(stands_from(query, s, i));
    }
    if stands_in(query, s) {
        let i = choose|i: int| #[trigger] stands_from(query, s, i);
        assert forall|k: int| 0 <= k < fq.len() implies fs[i + k] == #[trigger] fq[k] by {
            assert(same_letter(s[i + k], query[k]));
            lemma_same_letter(s[i + k], query[k]);
        }
        text::law_occurrence(fs, fq, i);
        assert(text::occurs_at(fs, fq, i));
    }
}

/// An entry is a hit of a search exactly where the query stands in its address
/// or its title, letter for letter.
pub proof fn law_hits_hold_the_query(query: Seq<char>, v: Visit)
    ensures
        mentions(query)(v) <==> stands_in(query, v.url) || stands_in(query, v.title),
{
    lemma_stands_in(query, v.url);
    lemma_stands_in(query, v.title);
}

/// What a search lists: hits only, no more than two hundred, the latest first,
/// and none is left out for one that was visited before it. An empty query
/// lists what was visited, up to five hundred, in the same order.
pub proof fn law_dialog_lists_the_latest(t: HistoryTable, query: Seq<char>, v: Visit)
    requires
        t.rows.len() <= usize::MAX,
    ensures
        ({
            let shown = dialog_rows(t, query);
            let limit: int = if query.len() == 0 {
                500
            } else {
                200
            };
            let hit = query.len() == 0 || stands_in(query, v.url) || stands_in(query, v.title);
            &&& shown.len() <= limit
            &&& shown.contains(v) ==> t.rows.contains(v) && hit
            &&& forall|i: int, j: int|
                0 <= i < j < shown.len() ==> !text::text_precedes(
                    (#[trigger] shown[i]).last_visit,
                    (#[trigger] shown[j]).last_visit,
                )
            &&& t.rows.contains(v) && hit && !shown.contains(v) ==> shown.len() == limit && forall|i: int|
                0 <= i < shown.len() ==> !text::text_precedes(
                    (#[trigger] shown[i]).last_visit,
                    v.last_visit,
                )
        }),
{
    let f = mentions(query);
    let kept = if query.len() == 0 {
        t.rows
    } else {
        t.rows.filter(f)
    };
    broadcast use vstd::seq_lib::group_filter_ensures;

    let all = newest_first(kept);
    let shown = dialog_rows(t, query);
    law_newest_first(kept);
    law_hits_hold_the_query(query, v);
    records::lemma_filter_holds(t.rows, f, v);
    if shown.contains(v) {
        let k = choose|k: int| 0 <= k < shown.len() && shown[k] == v;
        assert(all[k] == v);
        assert(all.contains(v));
    }
    if kept.contains(v) && !shown.contains(v) {
        assert(all.contains(v));
        let k = choose|k: int| 0 <= k < all.len() && all[k] == v;
        assert(k >= shown.len()) by {
            if k < shown.len() {
                assert(shown[k] == v);
            }
        }
        assert forall|i: int| 0 <= i < shown.len() implies !text::text_precedes(
            (#[trigger] shown[i]).last_visit,
            v.last_visit,
        ) by {
            assert(all[i] == shown[i]);
        }
    }
}

/// How many entries of the history are listed: as many as are asked for, or
/// all where there are fewer; and of two visits the later stands first.
pub proof fn law_all_entries_are_the_latest(rows: Seq<Visit>, limit: int)
    requires
        rows.len() <= usize::MAX,
        limit >= 0,
    ensures
        ({
            let shown = records::at_most(newest_first(rows), limit);
            &&& shown.len() == if rows.len() < limit {
                rows.len() as int
            } else {
                limit
            }
            &&& forall|i: int, j: int|
                0 <= i < shown.len() && shown.len() <= j < rows.len() ==> !text::text_precedes(
                    (#[trigger] shown[i]).last_visit,
                    (#[trigger] newest_first(rows)[j]).last_visit,
                )
        }),
{
    law_newest_first(rows);
    let all = newest_first(rows);
    let shown = records::at_most(all, limit);
    assert forall|i: int, j: int|
        0 <= i < shown.len() && shown.len() <= j < rows.len() implies !text::text_precedes(
        (#[trigger] shown[i]).last_visit,
        (#[trigger] all[j]).last_visit,
    ) by {
        assert(shown[i] == all[i]);
    }
}

} // verus!
