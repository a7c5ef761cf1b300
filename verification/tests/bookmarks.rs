use wynn_browser::bookmarks;
use wynn_browser::bookmarks::Bookmark;
use wynn_browser::bookmarks::Bookmarks;

fn bookmark(id: i64, url: &str, created: &str) -> Bookmark {
    Bookmark {
        id,
        url: url.to_string(),
        title: String::new(),
        folder: "f".to_string(),
        created: created.to_string(),
    }
}

#[test]
fn a_page_is_bookmarked_once() {
    let mut b = Bookmarks::new();
    bookmarks::add_bookmark(&mut b, "u", "t", "1");
    bookmarks::add_bookmark(&mut b, "u", "other", "2");
    assert_eq!(b.entries().len(), 1);
    assert_eq!(b.entries()[0].title, "t");
    assert_eq!(b.entries()[0].folder, "");
    assert_eq!(b.entries()[0].created, "1");
    assert!(bookmarks::is_bookmarked(&b, "u"));
    assert!(!bookmarks::is_bookmarked(&b, "v"));
}

#[test]
fn an_empty_address_is_not_bookmarked() {
    let mut b = Bookmarks::new();
    bookmarks::add_bookmark(&mut b, "", "t", "1");
    assert!(b.entries().is_empty());
    assert!(!bookmarks::toggle_bookmark(&mut b, "", "t", "1"));
    assert!(b.entries().is_empty());
}

#[test]
fn toggling_twice_changes_nothing() {
    let mut b = Bookmarks::with_entries(vec![bookmark(4, "x", "1")], 0);
    assert!(bookmarks::toggle_bookmark(&mut b, "u", "t", "2"));
    assert!(bookmarks::is_bookmarked(&b, "u"));
    assert_eq!(b.entries()[1].id, 5);
    assert!(!bookmarks::toggle_bookmark(&mut b, "u", "t", "3"));
    assert!(!bookmarks::is_bookmarked(&b, "u"));
    assert!(bookmarks::is_bookmarked(&b, "x"));
    assert_eq!(b.entries().len(), 1);
}

#[test]
fn bookmarks_are_removed_by_number_or_address() {
    let mut b = Bookmarks::with_entries(
        vec![bookmark(1, "a", "1"), bookmark(2, "b", "2"), bookmark(3, "b", "3")],
        0,
    );
    bookmarks::remove_bookmark(&mut b, 2);
    assert_eq!(b.entries().len(), 2);
    bookmarks::remove_bookmark(&mut b, 99);
    assert_eq!(b.entries().len(), 2);
    bookmarks::remove_bookmark_by_url(&mut b, "b");
    assert_eq!(b.entries().len(), 1);
    assert!(!bookmarks::is_bookmarked(&b, "b"));
    assert!(bookmarks::is_bookmarked(&b, "a"));
}

#[test]
fn the_newest_bookmarks_come_first() {
    let b = Bookmarks::with_entries(
        vec![bookmark(1, "old", "2024-01-01"), bookmark(2, "new", "2024-02-01"),
            bookmark(3, "same second", "2024-02-01")],
        0,
    );
    let all: Vec<String> = bookmarks::all_bookmarks(&b).into_iter().map(|m| m.url).collect();
    assert_eq!(all, vec!["same second", "new", "old"]);
}
