use wynn_browser::settings;
use wynn_browser::settings::Settings;
use wynn_browser::webview;
use wynn_browser::webview::CookiePolicy;
use wynn_browser::webview::InjectedFrames;
use wynn_browser::webview::InjectionKind;

#[test]
fn addresses_are_kept() {
    let s = Settings::new();
    for url in ["https://a.example/x y", "file:///etc", "about://x"] {
        assert_eq!(webview::normalise_uri(&s, url), url);
        assert_eq!(webview::normalise_uri(&s, &format!("  {}\n", url)), url);
    }
}

#[test]
fn bare_domains_get_a_scheme() {
    let s = Settings::new();
    assert_eq!(webview::normalise_uri(&s, "example.org"), "https://example.org");
    assert_eq!(webview::normalise_uri(&s, " a.b/c?d=e "), "https://a.b/c?d=e");
    assert_eq!(webview::normalise_uri(&s, "1.5\tx"), "https://1.5\tx");
}

#[test]
fn nothing_typed_goes_home() {
    let mut s = Settings::new();
    assert_eq!(webview::normalise_uri(&s, ""), "https://duckduckgo.com");
    settings::apply_homepage(&mut s, "https://home.example");
    assert_eq!(webview::normalise_uri(&s, " \t"), "https://home.example");
    assert_eq!(webview::home_url(&s), "https://home.example");
}

#[test]
fn other_texts_are_searched_for() {
    let mut s = Settings::new();
    assert_eq!(
        webview::normalise_uri(&s, "rust & verus"),
        "https://duckduckgo.com/?q=rust%20%26%20verus"
    );
    assert_eq!(webview::normalise_uri(&s, "what is 1.5"), "https://duckduckgo.com/?q=what%20is%201.5");
    settings::choose_search_engine(&mut s, 1);
    assert_eq!(
        webview::normalise_uri(&s, "école"),
        "https://www.google.com/search?q=%C3%A9cole"
    );
}

fn unescape(s: &str) -> Vec<u8> {
    let b = s.as_bytes();
    let mut out = vec![];
    let mut i = 0;
    while i < b.len() {
        if b[i] == b'%' {
            out.push(u8::from_str_radix(&s[i + 1..i + 3], 16).unwrap());
            i += 3;
        } else {
            out.push(b[i]);
            i += 1;
        }
    }
    out
}

#[test]
fn escaping_keeps_the_meaning() {
    for s in ["", "abc-._~XYZ019", "a b+c", "100%", "%41", "\u{20ac}\u{1f600}", "\u{7f}\u{1}"] {
        let escaped = webview::uri_escape(s);
        assert_eq!(unescape(&escaped), s.as_bytes());
        assert!(escaped
            .bytes()
            .all(|c| c.is_ascii_alphanumeric() || b"-._~%".contains(&c)));
    }
    assert_eq!(webview::uri_escape("a/b?c"), "a%2Fb%3Fc");
    assert_eq!(webview::uri_escape("~\u{e9}"), "~%C3%A9");
}

#[test]
fn privacy_scripts_are_on_by_default() {
    let mut s = Settings::new();
    let scripts = webview::inject_privacy_scripts(&s);
    assert_eq!(scripts.len(), 2);
    assert!(scripts[0].source.contains("doNotTrack"));
    assert!(scripts[1].source.contains("RTCPeerConnection"));
    for script in &scripts {
        assert!(script.kind == InjectionKind::ScriptAtStart);
        assert!(script.frames == InjectedFrames::AllFrames);
        assert!(script.allow.is_empty());
        assert!(script.block.iter().any(|p| p.contains("challenges.cloudflare.com")));
    }
    settings::set_flag(&mut s, "privacy_dnt", false);
    assert_eq!(webview::inject_privacy_scripts(&s).len(), 1);
    settings::set_flag(&mut s, "privacy_webrtc_leak", false);
    assert!(webview::inject_privacy_scripts(&s).is_empty());
}

#[test]
fn pages_are_hardened_by_default() {
    let mut s = Settings::new();
    let v = webview::create_webview(&s);
    assert!(v.user_agent.unwrap().starts_with("Mozilla/5.0 "));
    assert!(!v.webrtc);
    settings::set_flag(&mut s, "privacy_custom_ua", false);
    settings::set_flag(&mut s, "privacy_webrtc", true);
    let v = webview::create_webview(&s);
    assert!(v.user_agent.is_none());
    assert!(v.webrtc);
}

#[test]
fn the_session_follows_the_settings() {
    let mut s = Settings::new();
    let session = webview::setup_privacy_on_session(&s);
    assert!(session.itp);
    assert!(session.cookies == CookiePolicy::NoThirdParty);
    assert_eq!(settings::show_settings(&s, 0).cookies, 0);
    settings::set_flag(&mut s, "privacy_itp", false);
    settings::choose_cookies(&mut s, 0);
    let session = webview::setup_privacy_on_session(&s);
    assert!(!session.itp);
    assert!(session.cookies == CookiePolicy::NoThirdParty);
    settings::choose_cookies(&mut s, 2);
    assert!(webview::setup_privacy_on_session(&s).cookies == CookiePolicy::Never);
    settings::choose_cookies(&mut s, 1);
    assert!(webview::setup_privacy_on_session(&s).cookies == CookiePolicy::Always);
}
