use wynn_browser::history;
use wynn_browser::history::History;
use wynn_browser::history::HistoryEntry;

fn entry(id: i64, url: &str, title: &str, visit_count: i64, last_visit: &str) -> HistoryEntry {
    HistoryEntry {
        id,
        url: url.to_string(),
        title: title.to_string(),
        visit_count,
        last_visit: last_visit.to_string(),
    }
}

fn urls(v: &[HistoryEntry]) -> Vec<&str> {
    v.iter().map(|e| e.url.as_str()).collect()
}

#[test]
fn a_visit_is_recorded_once_per_page() {
    let mut h = History::new();
    history::record_visit(&mut h, "https://a.example/", "A", "2024-01-01 10:00:00");
    history::record_visit(&mut h, "https://b.example/", "B", "2024-01-01 10:00:01");
    history::record_visit(&mut h, "https://a.example/", "A2", "2024-01-01 10:00:02");
    let rows = h.entries();
    assert_eq!(rows.len(), 2);
    assert_eq!((rows[0].id, rows[0].visit_count), (1, 2));
    assert_eq!(rows[0].title, "A2");
    assert_eq!(rows[0].last_visit, "2024-01-01 10:00:02");
    assert_eq!((rows[1].id, rows[1].visit_count), (2, 1));
    assert_eq!(rows[1].title, "B");
}

#[test]
fn blank_pages_are_not_recorded() {
    let mut h = History::new();
    history::record_visit(&mut h, "", "", "now");
    history::record_visit(&mut h, "about:blank", "x", "now");
    assert!(h.entries().is_empty());
    history::record_visit(&mut h, "about:config", "x", "now");
    assert_eq!(h.entries().len(), 1);
}

#[test]
fn the_newest_come_first() {
    let h = History::with_entries(
        vec![
            entry(1, "u1", "", 1, "2024-01-01"),
            entry(2, "u2", "", 1, "2024-01-03"),
            entry(3, "u3", "", 1, "2024-01-02"),
        ],
        0,
    );
    assert_eq!(urls(&history::all_entries(&h, 10)), vec!["u2", "u3", "u1"]);
    assert_eq!(urls(&history::all_entries(&h, 2)), vec!["u2", "u3"]);
    assert!(history::all_entries(&h, 0).is_empty());
}

#[test]
fn search_ignores_case_in_address_and_title() {
    let h = History::with_entries(
        vec![
            entry(1, "https://rust-lang.org/", "Rust", 1, "1"),
            entry(2, "https://example.org/", "All about RUST", 1, "2"),
            entry(3, "https://example.com/100%", "Percent", 1, "3"),
            entry(4, "https://a_b.example/", "ÉCOLE", 1, "4"),
            entry(5, "https://odos.example/", "ΟΔΟΣ", 1, "5"),
        ],
        0,
    );
    assert_eq!(history::search(&h, "rust").len(), 2);
    assert_eq!(urls(&history::search(&h, "RUST-LANG")), vec!["https://rust-lang.org/"]);
    assert_eq!(urls(&history::search(&h, "100%")), vec!["https://example.com/100%"]);
    assert_eq!(urls(&history::search(&h, "a_b")), vec!["https://a_b.example/"]);
    assert_eq!(urls(&history::search(&h, "École")), vec!["https://a_b.example/"]);
    assert_eq!(urls(&history::search(&h, "ΟΔΟΣ")), vec!["https://odos.example/"]);
    assert_eq!(urls(&history::search(&h, "Σ")), vec!["https://odos.example/"]);
    assert!(history::search(&h, "σ").is_empty());
    assert!(history::search(&h, "a%b").is_empty());
    assert!(history::search(&h, "nothing").is_empty());
    assert_eq!(history::search(&h, "").len(), 5);
}

#[test]
fn search_gives_at_most_two_hundred() {
    let rows: Vec<HistoryEntry> =
        (0..250).map(|i| entry(i, "https://x.example/", "t", 1, &format!("{:03}", i))).collect();
    let h = History::with_entries(rows, 0);
    let found = history::search(&h, "x.example");
    assert_eq!(found.len(), 200);
    assert_eq!(found[0].last_visit, "249");
    assert_eq!(found[199].last_visit, "050");
}

#[test]
fn numbers_go_on_after_those_stored() {
    let mut h = History::with_entries(vec![entry(7, "u", "", 1, "1")], 3);
    history::record_visit(&mut h, "v", "", "2");
    assert_eq!(h.entries()[1].id, 8);
    let mut h = History::with_entries(vec![], 41);
    history::record_visit(&mut h, "v", "", "2");
    assert_eq!(h.entries()[0].id, 42);
}

#[test]
fn numbers_are_not_used_again_after_clearing() {
    let mut h = History::new();
    history::record_visit(&mut h, "a", "", "1");
    history::clear_all(&mut h);
    assert!(h.entries().is_empty());
    history::record_visit(&mut h, "b", "", "2");
    assert_eq!(h.entries()[0].id, 2);
}

#[test]
fn counters_stay_at_their_limits() {
    let mut h = History::with_entries(vec![entry(i64::MAX, "u", "", i64::MAX, "1")], 0);
    history::record_visit(&mut h, "u", "t", "2");
    assert_eq!(h.entries()[0].visit_count, i64::MAX);
    assert_eq!(h.entries()[0].title, "t");
    history::record_visit(&mut h, "v", "", "3");
    assert_eq!(h.entries().len(), 1);
}

#[test]
fn the_dialog_labels_visits() {
    assert_eq!(history::visits_label(1), "1\u{d7}");
    assert_eq!(history::visits_label(12), "12\u{d7}");
}

#[test]
fn the_dialog_lists_the_latest_or_searches() {
    let rows: Vec<HistoryEntry> =
        (0..520).map(|i| entry(i, &format!("https://{}.example/", i), "t", 1, &format!("{:03}", i))).collect();
    let h = History::with_entries(rows, 0);
    assert_eq!(history::list_for_dialog(&h, "").len(), 500);
    assert_eq!(urls(&history::list_for_dialog(&h, "/119.")), vec!["https://119.example/"]);
}
