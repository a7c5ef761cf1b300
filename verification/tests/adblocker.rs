use wynn_browser::adblocker;
use wynn_browser::adblocker::DomainSet;
use wynn_browser::settings::Settings;
use wynn_browser::webview::InjectedFrames;
use wynn_browser::webview::InjectionKind;

const HOSTS: &str = "# Blocklist\n\
    127.0.0.1 localhost\n\
    127.0.0.1 localhost.localdomain\n\
    255.255.255.255 broadcasthost\n\
    ::1 local\n\
    0.0.0.0 Ads.Example.COM # comment\n\
    \t 127.0.0.1\ttracker.example \r\n\
    \n\
    lonely\n\
    0.0.0.0 ads.example.com\n\
    0.0.0.0 challenges.cloudflare.com\n";

fn lines(content: &str) -> Vec<String> {
    content.lines().map(|l| l.to_string()).collect()
}

#[test]
fn a_hosts_file_lists_domains() {
    let d = adblocker::parse_hosts_file(HOSTS);
    assert_eq!(d.len(), 3);
    assert!(d.contains("ads.example.com"));
    assert!(d.contains("tracker.example"));
    assert!(d.contains("challenges.cloudflare.com"));
    assert!(!d.contains("Ads.Example.COM"));
    for name in ["localhost", "localhost.localdomain", "broadcasthost", "local", "lonely", "#"] {
        assert!(!d.contains(name), "{}", name);
    }
    assert_eq!(adblocker::parse_hosts_file("").len(), 0);
}

#[test]
fn a_line_names_at_most_one_domain() {
    assert_eq!(adblocker::read_line("0.0.0.0 A.example b.example"), Some("A.example".to_string()));
    assert_eq!(adblocker::read_line("0.0.0.0"), None);
    assert_eq!(adblocker::read_line("  # 0.0.0.0 a.example"), None);
    assert_eq!(adblocker::read_line(" \t"), None);
}

#[test]
fn the_cached_list_leaves_out_only_localhost() {
    let d = adblocker::load_cached_blocklist(&lines(HOSTS));
    assert_eq!(d.len(), 6);
    assert!(!d.contains("localhost"));
    for name in ["localhost.localdomain", "broadcasthost", "local"] {
        assert!(d.contains(name), "{}", name);
        assert!(adblocker::is_accepted(name, true), "{}", name);
        assert!(!adblocker::is_accepted(name, false), "{}", name);
    }
    for cached in [false, true] {
        assert!(adblocker::is_accepted("tracker.example", cached));
        assert!(!adblocker::is_accepted("localhost", cached));
        assert!(!adblocker::is_accepted("", cached));
    }
}

#[test]
fn the_cache_is_read_once() {
    let mut d = DomainSet::new();
    assert_eq!(adblocker::blocklist_domain_count(&mut d, &vec![]), 0);
    assert_eq!(adblocker::blocklist_domain_count(&mut d, &lines(HOSTS)), 6);
    let other = vec!["0.0.0.0 z.example".to_string()];
    assert_eq!(adblocker::blocklist_domain_count(&mut d, &other), 6);
    adblocker::ensure_domains_loaded(&mut d, &other);
    assert!(!d.contains("z.example"));
}

#[test]
fn a_refresh_replaces_the_list() {
    let mut d = adblocker::load_cached_blocklist(&lines("0.0.0.0 old.example"));
    assert_eq!(adblocker::refresh_blocklist(&mut d, None), 0);
    assert!(d.contains("old.example"));
    assert_eq!(adblocker::refresh_blocklist(&mut d, Some(HOSTS)), 3);
    assert!(!d.contains("old.example"));
    assert_eq!(adblocker::refresh_blocklist(&mut d, Some("")), 0);
    assert_eq!(d.len(), 0);
}

#[test]
fn the_list_is_fetched_with_curl_or_wget() {
    let commands = adblocker::fetch_commands();
    assert_eq!(commands.len(), 2);
    assert_eq!(commands[0].program, "curl");
    assert_eq!(commands[0].args[..5], ["-sL", "--connect-timeout", "10", "--max-time", "30"]);
    assert_eq!(commands[1].program, "wget");
    assert_eq!(commands[1].args[..2], ["-qO-", "--timeout=10"]);
    assert_eq!(commands[0].args.last(), commands[1].args.last());
    assert!(commands[0].args[5].starts_with("https://pgl.yoyo.org/"));
}

#[test]
fn the_script_blocks_the_listed_domains() {
    let mut d = DomainSet::new();
    let js = adblocker::generate_blocker_js(&d);
    assert!(js.contains("new Set([\"doubleclick.net\",\"googlesyndication.com\","));
    assert!(js.contains("\"amazon-adsystem.com\"]);"));
    d.insert("a.example".to_string());
    d.insert("b\\.example".to_string());
    let js = adblocker::generate_blocker_js(&d);
    assert!(js.contains("new Set([\"a.example\",\"b\\\\.example\"]);"));
    d.insert("a\"b".to_string());
    let js = adblocker::generate_blocker_js(&d);
    assert!(js.contains(r#","a\"b"]);"#));
    assert!(!js.contains("doubleclick.net"));
    assert!(js.starts_with("(function() {\n    'use strict';"));
    assert!(js.contains("function isDomainBlocked(hostname) {"));
    assert!(js.trim_end().ends_with("})();"));
}

#[test]
fn the_content_filter_spares_cloudflare() {
    let mut d = DomainSet::new();
    assert_eq!(adblocker::generate_content_blocker_json(&d), "[]");
    d.insert("cloudflare.com".to_string());
    d.insert("x.challenges.cloudflare.com".to_string());
    assert_eq!(adblocker::generate_content_blocker_json(&d), "[]");
    d.insert("ads.example".to_string());
    d.insert("notcloudflare.com".to_string());
    let rule = |name: &str| {
        format!(
            "{{\"trigger\":{{\"url-filter\":\"^https?://([^/]*\\\\.)?{}[/:?#]\",\"load-type\":[\"third-party\"],\"resource-type\":[\"document\",\"image\",\"style-sheet\",\"script\",\"font\",\"raw\",\"svg-document\",\"media\",\"popup\"]}},\"action\":{{\"type\":\"block\"}}}}",
            name
        )
    };
    assert_eq!(
        adblocker::generate_content_blocker_json(&d),
        format!("[{},{}]", rule("ads\\\\.example"), rule("notcloudflare\\\\.com"))
    );
}

#[test]
fn the_content_filter_is_json() {
    let d = adblocker::parse_hosts_file(HOSTS);
    let json = adblocker::generate_content_blocker_json(&d);
    let v: serde_json::Value = serde_json::from_str(&json).unwrap();
    assert_eq!(v.as_array().unwrap().len(), 2);
    assert_eq!(
        v.pointer("/0/trigger/url-filter").unwrap().as_str().unwrap(),
        "^https?://([^/]*\\.)?ads\\.example\\.com[/:?#]"
    );
    assert_eq!(v.pointer("/1/action/type").unwrap().as_str(), Some("block"));
    let types = v.pointer("/0/trigger/resource-type").unwrap().as_array().unwrap();
    assert_eq!(types.len(), 9);
    for name in ["image", "script", "style-sheet", "font", "raw", "media", "svg-document"] {
        assert!(types.iter().any(|t| t.as_str() == Some(name)), "{}", name);
    }
}

#[test]
fn odd_names_keep_the_content_filter_intact() {
    assert_eq!(adblocker::filter_pattern("a-b.c"), r"a-b\\.c");
    assert_eq!(adblocker::filter_pattern("a+(b)"), r"a\\+\\(b\\)");
    let mut d = DomainSet::new();
    d.insert("a\"b\\c*d".to_string());
    let json = adblocker::generate_content_blocker_json(&d);
    let v: serde_json::Value = serde_json::from_str(&json).unwrap();
    assert_eq!(
        v.pointer("/0/trigger/url-filter").unwrap().as_str().unwrap(),
        r#"^https?://([^/]*\.)?a"b\\c\*d[/:?#]"#
    );
}

#[test]
fn cloudflare_is_recognised() {
    for name in ["cloudflare.com", "cdnjs.cloudflare.com", "a.cloudflare-dns.com", "cloudflareinsights.com"] {
        assert!(adblocker::is_cloudflare(name), "{}", name);
    }
    for name in ["cloudflare.com.evil.example", "xcloudflare.com", "cloudflare.co", ""] {
        assert!(!adblocker::is_cloudflare(name), "{}", name);
    }
}

#[test]
fn no_filter_is_compiled_without_domains() {
    let mut d = DomainSet::new();
    assert_eq!(adblocker::apply_native_filter(&mut d, &vec![]), None);
    let json = adblocker::apply_native_filter(&mut d, &lines("0.0.0.0 a.example"));
    assert!(json.unwrap().contains("a\\\\.example"));
    assert_eq!(d.len(), 1);
}

#[test]
fn rules_are_injected_where_they_apply() {
    let mut d = DomainSet::new();
    let rules = adblocker::load_rules(&mut d, &lines("0.0.0.0 a.example"));
    let kinds: Vec<InjectionKind> = rules.iter().map(|r| r.kind).collect();
    assert!(
        kinds
            == vec![
                InjectionKind::StyleSheet,
                InjectionKind::ScriptAtStart,
                InjectionKind::StyleSheet,
                InjectionKind::ScriptAtEnd,
                InjectionKind::StyleSheet,
            ]
    );
    assert!(rules[0].allow.is_empty() && !rules[0].block.is_empty());
    assert!(rules[1].source.contains("\"a.example\""));
    assert_eq!(rules[2].allow, vec!["https://*.youtube.com/*", "https://youtube.com/*"]);
    assert!(rules[3].frames == InjectedFrames::TopFrame);
    assert!(rules[3].source.contains("ad-showing"));
    assert_eq!(rules[4].allow, vec!["https://*.spotify.com/*", "https://spotify.com/*"]);
    assert!(rules[4].block.is_empty());
}

#[test]
fn nothing_is_injected_when_it_is_off() {
    let mut d = DomainSet::new();
    assert!(adblocker::create_content_manager(false, &mut d, &vec![]).is_empty());
    assert_eq!(adblocker::create_content_manager(true, &mut d, &vec![]).len(), 5);
}

#[test]
fn blocking_is_on_by_default() {
    let mut s = Settings::new();
    assert!(adblocker::is_enabled(&s));
    adblocker::set_enabled(&mut s, false);
    assert!(!adblocker::is_enabled(&s));
    adblocker::set_enabled(&mut s, true);
    assert!(adblocker::is_enabled(&s));
}

#[test]
fn files_lie_in_the_data_directory() {
    assert_eq!(adblocker::blocklist_path("/d"), "/d/blocklist.txt");
    assert_eq!(adblocker::filter_store_path("/d"), "/d/content-filters");
}
