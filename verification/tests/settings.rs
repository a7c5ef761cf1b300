use wynn_browser::settings;
use wynn_browser::settings::Settings;

#[test]
fn a_setting_reads_back() {
    let mut s = Settings::new();
    assert_eq!(settings::get_setting(&s, "k"), None);
    settings::set_setting(&mut s, "k", "v");
    settings::set_setting(&mut s, "other", "x");
    assert_eq!(settings::get_setting(&s, "k"), Some("v".to_string()));
    settings::set_setting(&mut s, "k", "");
    assert_eq!(settings::get_setting(&s, "k"), Some(String::new()));
    assert_eq!(settings::get_setting(&s, "other"), Some("x".to_string()));
    assert_eq!(settings::setting_or(&s, "none", "d"), "d");
}

#[test]
fn a_switch_reads_back() {
    let mut s = Settings::new();
    for default in [true, false] {
        assert_eq!(settings::get_flag(&s, "none", default), default);
        for on in [true, false] {
            settings::set_flag(&mut s, "switch", on);
            assert_eq!(settings::get_flag(&s, "switch", default), on);
        }
    }
    settings::set_setting(&mut s, "switch", "yes");
    assert!(!settings::get_flag(&s, "switch", true));
}

#[test]
fn defaults_are_duckduckgo() {
    let s = Settings::new();
    assert_eq!(settings::homepage(&s), "https://duckduckgo.com");
    assert_eq!(settings::search_engine_url(&s), "https://duckduckgo.com/?q=");
}

#[test]
fn the_form_shows_the_defaults() {
    let form = settings::show_settings(&Settings::new(), 0);
    assert_eq!(form.homepage, "https://duckduckgo.com");
    assert_eq!((form.search_engine, form.cookies, form.sidebar), (0, 0, 0));
    assert!(form.itp && form.dnt && form.custom_ua && form.webrtc_leak && form.adblock);
    assert!(!form.webrtc);
    assert_eq!(
        form.blocklist_status,
        "No blocklist cached \u{2014} use Refresh to download"
    );
    let form = settings::show_settings(&Settings::new(), 3517);
    assert_eq!(form.blocklist_status, "3517 domains in blocklist");
}

#[test]
fn the_form_shows_what_was_chosen() {
    let mut s = Settings::new();
    for index in 0..4 {
        settings::choose_search_engine(&mut s, index);
        assert_eq!(settings::show_settings(&s, 0).search_engine, index);
    }
    for index in 0..3 {
        settings::choose_cookies(&mut s, index);
        assert_eq!(settings::show_settings(&s, 0).cookies, index);
    }
    for index in 0..2 {
        settings::choose_sidebar(&mut s, index);
        assert_eq!(settings::show_settings(&s, 0).sidebar, index);
    }
    settings::choose_search_engine(&mut s, 1);
    assert_eq!(settings::search_engine_url(&s), "https://www.google.com/search?q=");
    settings::choose_search_engine(&mut s, 99);
    assert_eq!(settings::search_engine_url(&s), "https://duckduckgo.com/?q=");
    settings::choose_cookies(&mut s, 2);
    assert_eq!(settings::get_setting(&s, "privacy_cookies"), Some("block-all".to_string()));
    settings::choose_sidebar(&mut s, 1);
    assert_eq!(settings::get_setting(&s, "sidebar_position"), Some("right".to_string()));
}

#[test]
fn an_empty_homepage_is_not_applied() {
    let mut s = Settings::new();
    settings::apply_homepage(&mut s, "https://example.org");
    settings::apply_homepage(&mut s, "");
    assert_eq!(settings::homepage(&s), "https://example.org");
}
