use wynn_browser::bookmarks;
use wynn_browser::bookmarks::Bookmarks;
use wynn_browser::settings::Settings;
use wynn_browser::window;
use wynn_browser::window::StoredWorkspace;
use wynn_browser::window::Workspaces;

fn stored(id: i64, name: &str, position: i64) -> StoredWorkspace {
    StoredWorkspace { id, name: name.to_string(), color: "#000000".to_string(), position }
}

#[test]
fn there_is_always_a_workspace() {
    let mut w = Workspaces::new();
    window::ensure_default_workspace(&mut w);
    window::ensure_default_workspace(&mut w);
    let all = window::load_workspaces(&w);
    assert_eq!(all.len(), 1);
    assert_eq!((all[0].id, all[0].position), (1, 0));
    assert_eq!(all[0].name, "Default");
    assert_eq!(all[0].color, "#3584e4");
}

#[test]
fn workspaces_are_listed_by_position() {
    let w = Workspaces::with_entries(
        vec![stored(1, "c", 5), stored(2, "a", -1), stored(3, "b", 5), stored(4, "far", 1 << 40)],
        0,
    );
    let names: Vec<String> = window::load_workspaces(&w).into_iter().map(|x| x.name).collect();
    // A position that the list cannot hold drops the workspace from it.
    assert_eq!(names, vec!["a", "c", "b"]);
}

#[test]
fn a_new_workspace_comes_last() {
    let mut w = Workspaces::with_entries(vec![stored(1, "a", 3)], 9);
    let made = window::create_workspace(&mut w, "n", "#ffffff");
    assert_eq!((made.id, made.position), (10, 4));
    assert_eq!(window::load_workspaces(&w).last().unwrap().name, "n");
    let mut empty = Workspaces::new();
    let made = window::create_workspace(&mut empty, "n", "#ffffff");
    assert_eq!((made.id, made.position), (1, 1));
}

#[test]
fn new_workspaces_are_named_and_coloured_in_turn() {
    let mut w = Workspaces::new();
    window::ensure_default_workspace(&mut w);
    let colors: Vec<String> = (0..7).map(|_| window::new_workspace(&mut w).color).collect();
    assert_eq!(
        colors,
        vec!["#33d17a", "#ff7800", "#e01b24", "#9141ac", "#f6d32d", "#3584e4", "#33d17a"]
    );
    let all = window::load_workspaces(&w);
    assert_eq!(all[1].name, "Workspace 2");
    assert_eq!(all[7].name, "Workspace 8");
    assert!(w.has_room());
}

#[test]
fn new_tabs_belong_to_the_active_workspace() {
    assert_eq!(window::assign_workspace(0), 1);
    assert_eq!(window::assign_workspace(7), 7);
}

#[test]
fn tabs_are_filtered_by_workspace_and_text() {
    assert!(window::filter_tab(0, Some(5), "", Some("t")));
    assert!(window::filter_tab(5, Some(5), "", Some("t")));
    assert!(!window::filter_tab(5, Some(1), "", Some("t")));
    assert!(window::filter_tab(1, None, "", None));
    assert!(!window::filter_tab(2, None, "", None));
    assert!(window::filter_tab(0, Some(1), "NEWS", Some("Daily News")));
    assert!(!window::filter_tab(0, Some(1), "sport", Some("Daily News")));
    assert!(window::filter_tab(0, Some(1), "sport", None));
    assert!(!window::filter_tab(2, Some(1), "news", Some("Daily News")));
}

#[test]
fn the_first_tab_of_a_workspace_is_selected() {
    let tabs = vec![Some(2), None, Some(3), Some(1), Some(3)];
    assert_eq!(window::select_first_visible_tab(&tabs, 0), Some(0));
    assert_eq!(window::select_first_visible_tab(&tabs, 1), Some(1));
    assert_eq!(window::select_first_visible_tab(&tabs, 3), Some(2));
    assert_eq!(window::select_first_visible_tab(&tabs, 9), None);
    assert_eq!(window::select_first_visible_tab(&vec![], 0), None);
}

#[test]
fn tabs_go_round() {
    for n in 2..6 {
        for pos in 0..n {
            let next = window::next_tab(pos, n).unwrap();
            assert_eq!(next, (pos + 1) % n);
            assert_eq!(window::prev_tab(next, n), Some(pos));
        }
    }
    assert_eq!(window::next_tab(0, 1), None);
    assert_eq!(window::prev_tab(0, 1), None);
    assert_eq!(window::prev_tab(0, 0), None);
}

#[test]
fn rows_stand_for_pages() {
    assert_eq!(window::row_to_page(2, 3), Some(2));
    assert_eq!(window::row_to_page(3, 3), None);
    assert_eq!(window::row_to_page(-1, 3), None);
}

#[test]
fn the_last_page_closes_the_window() {
    let plan = window::close_page(1, 3, 3);
    assert_eq!((plan.row, plan.close_window), (Some(1), false));
    let plan = window::close_page(0, 1, 1);
    assert_eq!((plan.row, plan.close_window), (Some(0), true));
    let plan = window::close_page(4, 3, 5);
    assert_eq!((plan.row, plan.close_window), (None, false));
}

#[test]
fn the_sidebar_gets_its_width_back() {
    let mut s = window::new_sidebar_state();
    assert_eq!((s.visible, s.saved_position), (true, 280));
    assert_eq!(window::toggle_sidebar(&mut s, 333), 0);
    assert!(!s.visible);
    assert_eq!(window::toggle_sidebar(&mut s, 0), 333);
    assert!(s.visible);
}

#[test]
fn the_view_splits_in_the_middle() {
    let mut active = false;
    assert_eq!(window::toggle_split(&mut active), "Split view opened");
    assert!(active);
    assert_eq!(window::toggle_split(&mut active), "Split view closed");
    assert!(!active);
    assert_eq!(window::split_position(1001), Some(500));
    assert_eq!(window::split_position(0), None);
    assert_eq!(window::split_position(-4), None);
}

#[test]
fn the_window_is_titled_after_the_page() {
    assert_eq!(window::window_title(Some("News")), "News \u{2014} Wynn Browser");
    assert_eq!(window::window_title(Some("")), "Wynn Browser");
    assert_eq!(window::window_title(None), "Wynn Browser");
}

#[test]
fn the_source_of_a_source_is_itself() {
    let once = window::view_source_url("https://a.example");
    assert_eq!(once, "view-source:https://a.example");
    assert_eq!(window::view_source_url(&once), once);
}

#[test]
fn an_empty_address_bar_leads_nowhere() {
    let s = Settings::new();
    assert_eq!(window::entry_target(&s, ""), None);
    assert_eq!(window::entry_target(&s, "a.example"), Some("https://a.example".to_string()));
    assert_eq!(window::entry_target(&s, " "), Some("https://duckduckgo.com".to_string()));
}

#[test]
fn the_controls_show_the_selected_page() {
    let mut b = Bookmarks::new();
    bookmarks::add_bookmark(&mut b, "https://a.example/", "A", "now");
    let c = window::select_page(&b, Some("https://a.example/"), Some("A"), true);
    assert_eq!(c.address, "https://a.example/");
    assert_eq!(c.security.icon, "channel-secure-symbolic");
    assert_eq!(c.security.class, Some("security-secure"));
    assert_eq!(c.bookmark_icon, "starred-symbolic");
    assert_eq!(c.title, "A \u{2014} Wynn Browser");
    assert!(c.loading);
    assert_eq!((c.refresh.icon, c.refresh.tooltip), ("process-stop-symbolic", "Stop"));
    let c = window::select_page(&b, Some("http://b.example/"), None, false);
    assert_eq!(c.security.class, Some("security-insecure"));
    assert_eq!(c.bookmark_icon, "non-starred-symbolic");
    assert_eq!((c.refresh.icon, c.refresh.tooltip), ("view-refresh-symbolic", "Reload (F5)"));
    let c = window::select_page(&b, None, Some(""), false);
    assert_eq!(c.address, "");
    assert_eq!(c.security.icon, "system-search-symbolic");
    assert_eq!(c.security.class, None);
    assert_eq!(c.title, "Wynn Browser");
}

#[test]
fn buttons_have_faces() {
    assert_eq!(window::bookmark_button(true).tooltip, "Remove Bookmark (Ctrl+D)");
    assert_eq!(window::bookmark_button(false).icon, "non-starred-symbolic");
    assert_eq!(window::row_icon(true, true), Some("content-loading-symbolic"));
    assert_eq!(window::row_icon(false, false), Some("globe-symbolic"));
    assert_eq!(window::row_icon(false, true), None);
}

#[test]
fn ad_blocking_is_toggled() {
    let mut s = Settings::new();
    assert!(!window::toggle_adblock(&mut s));
    assert!(window::toggle_adblock(&mut s));
    assert_eq!(window::adblock_toast(true), "Ad blocker enabled");
    assert_eq!(window::adblock_toast(false), "Ad blocker disabled");
}

#[test]
fn toasts_count_domains() {
    assert_eq!(window::refresh_toast(12), "Blocklist updated: 12 domains blocked");
    assert_eq!(window::refresh_toast(0), "Failed to refresh blocklist");
    assert_eq!(
        window::startup_toast(3500),
        Some("Ad blocker active: 3500 domains blocked".to_string())
    );
    assert_eq!(window::startup_toast(0), None);
}

#[test]
fn every_key_has_one_action() {
    let all = window::accelerators();
    assert_eq!(all.len(), 23);
    let mut keys: Vec<&str> = all.iter().flat_map(|a| a.keys.iter().copied()).collect();
    assert_eq!(keys.len(), 25);
    keys.sort();
    keys.dedup();
    assert_eq!(keys.len(), 25);
    let reload = all.iter().find(|a| a.action == "win.reload").unwrap();
    assert_eq!(reload.keys, vec!["F5", "<Ctrl>r"]);
}
