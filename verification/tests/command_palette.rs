use wynn_browser::command_palette;
use wynn_browser::command_palette::CommandCategory;
use wynn_browser::command_palette::PaletteCommand;
use wynn_browser::command_palette::PaletteListing;
use wynn_browser::command_palette::PaletteRow;
use wynn_browser::command_palette::RecentActions;
use wynn_browser::window;

#[test]
fn scores_the_kinds_of_match() {
    assert_eq!(command_palette::fuzzy_score("", "Reload"), Some(0));
    assert_eq!(command_palette::fuzzy_score("ReLoAd", "reload"), Some(1000));
    assert_eq!(command_palette::fuzzy_score("rel", "Reload Page"), Some(803));
    assert_eq!(command_palette::fuzzy_score("page", "Reload Page"), Some(604));
    assert_eq!(command_palette::fuzzy_score("tab", "x-tab"), Some(603));
    assert_eq!(command_palette::fuzzy_score("tab", "x_tab"), Some(603));
    assert_eq!(command_palette::fuzzy_score("load", "Reload"), Some(404));
    assert_eq!(command_palette::fuzzy_score("rp", "Reload Page"), Some(200));
    assert_eq!(command_palette::fuzzy_score("relpag", "Reload Page"), Some(240));
    assert_eq!(command_palette::fuzzy_score("zz", "Reload"), None);
    assert_eq!(command_palette::fuzzy_score("reload!", "Reload"), None);
}

#[test]
fn a_later_word_boundary_counts() {
    assert_eq!(command_palette::fuzzy_score("ab", "xab ab"), Some(602));
    // Matches do not overlap; the second one starts a word.
    assert_eq!(command_palette::fuzzy_score("aa", "xaaa aa"), Some(602));
    assert_eq!(command_palette::fuzzy_score("aba", "xababa"), Some(403));
}

#[test]
fn a_bonus_never_reaches_the_next_kind() {
    let q = "abcdefghijklmnopqrstuvwxyz";
    assert_eq!(command_palette::fuzzy_score(q, "0abcdefghijklmnopqrstuvwxyz"), Some(426));
    assert_eq!(command_palette::fuzzy_score(q, "a0bcdefghijklmnopqrstuvwxyz"), Some(399));
    assert_eq!(command_palette::fuzzy_score("abcdefghijklmnopqrst", "a0bcdefghijklmnopqrst"), Some(380));
    let long = "a".repeat(300);
    assert_eq!(command_palette::fuzzy_score(&long, &format!("{}x", long)), Some(999));
    assert_eq!(command_palette::fuzzy_score(&long, &format!("x {}", long)), Some(799));
    assert_eq!(command_palette::fuzzy_score(&long, &format!("x{}", long)), Some(599));
    assert_eq!(command_palette::fuzzy_score(&long, &long), Some(1000));
}

#[test]
fn scores_count_bytes() {
    assert_eq!(command_palette::fuzzy_score("é", "école"), Some(802));
    assert_eq!(command_palette::fuzzy_score("ÉC", "école"), Some(803));
    // Lower case can be longer than upper case.
    assert_eq!(command_palette::fuzzy_score("\u{130}", "i\u{307}x"), Some(803));
}

#[test]
fn better_kinds_of_match_score_higher() {
    let tiers = ["tab", "tab new", "new tab", "stable", "t a b"];
    let scores: Vec<i32> =
        tiers.iter().map(|t| command_palette::fuzzy_score("tab", t).unwrap()).collect();
    assert_eq!(scores, vec![1000, 803, 603, 403, 200]);
    assert!(scores.windows(2).all(|w| w[0] > w[1]));
}

#[test]
fn the_description_counts_less_than_the_name() {
    assert_eq!(command_palette::combine_scores(Some(800), Some(800)), Some(800));
    assert_eq!(command_palette::combine_scores(Some(200), Some(800)), Some(750));
    assert_eq!(command_palette::combine_scores(None, Some(400)), Some(350));
    assert_eq!(command_palette::combine_scores(Some(1), None), Some(1));
    assert_eq!(command_palette::combine_scores(None, None), None);
    let cmds = command_palette::build_commands();
    let home = cmds.iter().find(|c| c.action == "win.go-home").unwrap();
    let by_name = command_palette::fuzzy_score("home", &home.name);
    let by_description = command_palette::fuzzy_score("home", &home.description);
    assert_eq!(
        command_palette::score_command("home", home),
        command_palette::combine_scores(by_name, by_description)
    );
}

#[test]
fn there_are_29_commands_in_5_categories() {
    let cmds = command_palette::build_commands();
    assert_eq!(cmds.len(), 29);
    let count = |c: CommandCategory| cmds.iter().filter(|x| x.category == c).count();
    let all = [
        CommandCategory::Navigation,
        CommandCategory::Tabs,
        CommandCategory::View,
        CommandCategory::PrivacySecurity,
        CommandCategory::Tools,
    ];
    assert_eq!(all.iter().map(|c| count(*c)).sum::<usize>(), 29);
    assert!(all.iter().all(|c| count(*c) > 0));
    let labels: Vec<&str> = all.iter().map(|c| c.label()).collect();
    assert_eq!(labels, vec!["Navigation", "Tabs", "View", "Privacy & Security", "Tools"]);
    let keys: Vec<u8> = all.iter().map(|c| c.sort_key()).collect();
    assert_eq!(keys, vec![0, 1, 2, 3, 4]);
    for a in &cmds {
        assert!(a.action.starts_with("win."));
        assert_eq!(cmds.iter().filter(|b| b.action == a.action).count(), 1);
    }
}

#[test]
fn commands_show_the_keys_that_work() {
    let accelerators = wynn_browser::window::accelerators();
    for c in command_palette::build_commands() {
        let bound = accelerators.iter().any(|a| a.action == c.action);
        assert_eq!(bound, !c.shortcut.is_empty(), "{}", c.action);
    }
}

#[test]
fn recent_actions_are_newest_first_and_at_most_eight() {
    let mut recent = RecentActions::new();
    assert!(recent.get_recent().is_empty());
    for i in 0..10 {
        recent.record_recent(&format!("win.a{}", i));
    }
    let expected: Vec<String> = (2..10).rev().map(|i| format!("win.a{}", i)).collect();
    assert_eq!(recent.get_recent(), expected);
    recent.record_recent("win.a5");
    assert_eq!(recent.get_recent()[0], "win.a5");
    assert_eq!(recent.get_recent().len(), 8);
    recent.record_recent("win.a5");
    assert_eq!(recent.get_recent().iter().filter(|a| *a == "win.a5").count(), 1);
}

fn rows(cmds: &[PaletteCommand], listing: &PaletteListing) -> Vec<String> {
    listing
        .rows
        .iter()
        .map(|r| match r {
            PaletteRow::Header(h) => format!("# {}", h),
            PaletteRow::Command(i) => cmds[*i].name.clone(),
        })
        .collect()
}

#[test]
fn browsing_lists_every_command_under_its_category() {
    let cmds = command_palette::build_commands();
    let listing = command_palette::list_commands(&cmds, &vec![], "  ");
    assert_eq!(listing.count_text, "29 commands");
    assert_eq!(listing.rows.len(), 29 + 5);
    assert_eq!(listing.selectable.len(), 29);
    let shown = rows(&cmds, &listing);
    assert_eq!(shown[0], "# Navigation");
    for (i, row) in listing.rows.iter().enumerate() {
        assert_eq!(listing.selectable.contains(&i), matches!(row, PaletteRow::Command(_)));
    }
}

#[test]
fn recent_commands_float_to_the_top() {
    let cmds = command_palette::build_commands();
    let recent = vec!["win.go-home".to_string(), "win.gone".to_string()];
    let listing = command_palette::list_commands(&cmds, &recent, "");
    let shown = rows(&cmds, &listing);
    let home = cmds.iter().find(|c| c.action == "win.go-home").unwrap();
    assert_eq!(shown[0], "# Recently Used");
    assert_eq!(shown[1], home.name);
    assert_eq!(shown[2], "# Navigation");
    assert_eq!(listing.rows.len(), 2 + 29 + 5);
    assert_eq!(command_palette::first_selection(&listing.selectable), Some(1));
}

#[test]
fn few_matches_are_listed_by_score() {
    let cmds = command_palette::build_commands();
    let listing = command_palette::list_commands(&cmds, &vec![], "zoom");
    let hits: Vec<&PaletteCommand> =
        cmds.iter().filter(|c| command_palette::score_command("zoom", c).is_some()).collect();
    assert!(hits.len() <= 6);
    assert_eq!(listing.rows.len(), hits.len());
    assert!(listing.rows.iter().all(|r| matches!(r, PaletteRow::Command(_))));
    assert_eq!(listing.count_text, format!("{} of 29 commands", hits.len()));
    let scores: Vec<i32> = listing
        .rows
        .iter()
        .map(|r| match r {
            PaletteRow::Command(i) => command_palette::score_command("zoom", &cmds[*i]).unwrap(),
            PaletteRow::Header(_) => unreachable!(),
        })
        .collect();
    assert!(scores.windows(2).all(|w| w[0] >= w[1]));
}

#[test]
fn many_matches_are_grouped_best_category_first() {
    let cmds = command_palette::build_commands();
    let query = "e";
    let listing = command_palette::list_commands(&cmds, &vec![], query);
    let score = |i: usize| command_palette::score_command(query, &cmds[i]);
    let hits = (0..cmds.len()).filter(|i| score(*i).is_some()).count();
    assert!(hits > 6);
    assert_eq!(listing.selectable.len(), hits);
    assert!(matches!(listing.rows[0], PaletteRow::Header(_)));
    let mut best: Vec<i32> = vec![];
    let mut last: Option<i32> = None;
    for row in &listing.rows {
        match row {
            PaletteRow::Header(_) => last = None,
            PaletteRow::Command(i) => {
                let s = score(*i).unwrap();
                match last {
                    None => best.push(s),
                    Some(before) => assert!(before >= s),
                }
                last = Some(s);
            }
        }
    }
    assert!(best.windows(2).all(|w| w[0] >= w[1]));
}

#[test]
fn nothing_matches() {
    let cmds = command_palette::build_commands();
    let listing = command_palette::list_commands(&cmds, &vec![], "qqqq");
    assert!(listing.rows.is_empty());
    assert_eq!(listing.count_text, "0 of 29 commands");
    assert_eq!(command_palette::first_selection(&listing.selectable), None);
}

#[test]
fn moving_stays_in_the_list() {
    let rows = vec![1usize, 2, 4];
    assert_eq!(command_palette::move_selection(&rows, Some(1), 1), Some(2));
    assert_eq!(command_palette::move_selection(&rows, Some(2), 1), Some(4));
    assert_eq!(command_palette::move_selection(&rows, Some(4), -1), Some(2));
    for start in [None, Some(1), Some(2), Some(4), Some(9)] {
        for delta in [-1, 1] {
            let next = command_palette::move_selection(&rows, start, delta);
            assert!(rows.contains(&next.unwrap()));
        }
    }
    assert_eq!(command_palette::move_selection(&vec![], Some(3), 1), None);
}

#[test]
fn actions_belong_to_the_window() {
    assert_eq!(command_palette::window_action("win.new-tab"), Some("new-tab".to_string()));
    assert_eq!(command_palette::window_action("app.quit"), None);
}

#[test]
fn commands_are_the_actions_of_the_window() {
    let cmds = command_palette::build_commands();
    let actions = window::window_actions();
    assert_eq!(cmds.len(), 29);
    assert_eq!(actions.len(), 30);
    for c in &cmds {
        let name = command_palette::window_action(&c.action).unwrap();
        assert!(actions.contains(&name.as_str()), "{}", name);
        assert!(!c.name.is_empty() && !c.description.is_empty() && !c.icon.is_empty());
    }
    for a in &actions {
        let found = cmds.iter().filter(|c| c.action == format!("win.{}", a)).count();
        assert_eq!(found, if *a == "command-palette" { 0 } else { 1 }, "{}", a);
    }
    for (i, c) in cmds.iter().enumerate() {
        assert!(cmds[..i].iter().all(|d| d.name != c.name));
    }
}
