//! Pages: what the address bar leads to, and the privacy settings under which
//! pages are shown.

use vstd::prelude::*;

use crate::settings;
use crate::settings::Settings;
use crate::text;

verus! {

/// A user agent that matches the WebKit engine, so that a site's bot detection
/// finds no contradiction between the two.
pub const PRIVACY_USER_AGENT: &'static str = "Mozilla/5.0 (X11; Linux x86_64) AppleWebKit/605.1.15 (KHTML, like Gecko) Version/17.4 Safari/605.1.15";

/// Tells a page, by properties of its navigator, not to track.
pub const DNT_JS: &'static str = r#"
(function() {
    'use strict';
    // Override navigator.doNotTrack to signal DNT.
    Object.defineProperty(navigator, 'doNotTrack', {
        get: function() { return '1'; },
        configurable: false,
        enumerable: true
    });
    // Also set the GPC (Global Privacy Control) signal.
    Object.defineProperty(navigator, 'globalPrivacyControl', {
        get: function() { return true; },
        configurable: false,
        enumerable: true
    });
})();
"#;

/// Keeps a page from learning addresses through WebRTC.
pub const WEBRTC_LEAK_PREVENTION_JS: &'static str = r#"
(function() {
    'use strict';
    // Disable WebRTC IP leak by wrapping RTCPeerConnection.
    if (window.RTCPeerConnection) {
        const origRTC = window.RTCPeerConnection;
        window.RTCPeerConnection = function(config, constraints) {
            if (config && config.iceServers) {
                // Force relay-only mode to prevent IP leak.
                config.iceTransportPolicy = 'relay';
            }
            return new origRTC(config, constraints);
        };
        window.RTCPeerConnection.prototype = origRTC.prototype;
    }
})();
"#;

/// Frames that nothing may be injected into, lest the challenges that run in
/// them take the browser for a bot.
pub const CF_BLOCK_LIST: [&'static str; 5] = [
    "https://*.challenges.cloudflare.com/*",
    "https://challenges.cloudflare.com/*",
    "https://*.cloudflare.com/cdn-cgi/*",
    "https://*.cloudflareinsights.com/*",
    "https://static.cloudflareinsights.com/*",
];

/// The addresses of the frames that nothing may be injected into.
pub open spec fn challenge_frames() -> Seq<Seq<char>> {
    patterns(CF_BLOCK_LIST@)
}

// What is injected into pages.

/// What kind of content is injected, and when.
#[derive(Clone, Copy, PartialEq, Eq, Structural)]
pub enum InjectionKind {
    StyleSheet,
    ScriptAtStart,
    ScriptAtEnd,
}

/// Into which frames content is injected.
#[derive(Clone, Copy, PartialEq, Eq, Structural)]
pub enum InjectedFrames {
    AllFrames,
    TopFrame,
}

/// Content that is injected into pages.
pub struct Injection {
    pub kind: InjectionKind,
    pub source: String,
    pub frames: InjectedFrames,
    /// The addresses it is injected into; all where there are none.
    pub allow: Vec<&'static str>,
    /// The addresses it is not injected into.
    pub block: Vec<&'static str>,
}

/// What an injection holds.
#[verifier::ext_equal]
pub struct Injected {
    pub kind: InjectionKind,
    pub source: Seq<char>,
    pub frames: InjectedFrames,
    pub allow: Seq<Seq<char>>,
    pub block: Seq<Seq<char>>,
}

/// The texts of a list of address patterns.
pub open spec fn patterns(v: Seq<&'static str>) -> Seq<Seq<char>> {
    v.map_values(|s: &'static str| s@)
}

impl View for Injection {
    type V = Injected;

    open spec fn view(&self) -> Injected {
        Injected {
            kind: self.kind,
            source: self.source@,
            frames: self.frames,
            allow: patterns(self.allow@),
            block: patterns(self.block@),
        }
    }
}

/// A list of the frames that nothing may be injected into.
pub fn challenge_block_list() -> (r: Vec<&'static str>)
    ensures
        patterns(r@) == challenge_frames(),
{
    let mut r: Vec<&'static str> = Vec::new();
    let mut i: usize = 0;
    while i < 5
        invariant
            i <= 5,
            r@ == CF_BLOCK_LIST@.take(i as int),
        decreases 5 - i,
    {
        r.push(CF_BLOCK_LIST[i]);
        assert(r@ =~= CF_BLOCK_LIST@.take(i + 1));
        i += 1;
    }
    assert(CF_BLOCK_LIST@.take(5) =~= CF_BLOCK_LIST@);
    r
}

/// A script for every frame but those of challenges, run before the page.
pub open spec fn early_script(source: Seq<char>) -> Injected {
    Injected {
        kind: InjectionKind::ScriptAtStart,
        source,
        frames: InjectedFrames::AllFrames,
        allow: Seq::empty(),
        block: challenge_frames(),
    }
}

/// A script for every frame but those of challenges, run before the page.
pub fn new_early_script(source: &str) -> (r: Injection)
    ensures
        r@ == early_script(source@),
{
    let r = Injection {
        kind: InjectionKind::ScriptAtStart,
        source: source.to_owned(),
        frames: InjectedFrames::AllFrames,
        allow: Vec::new(),
        block: challenge_block_list(),
    };
    assert(r@.allow =~= Seq::empty());
    r
}

// Privacy.

/// The scripts that the privacy settings ask for.
pub open spec fn privacy_scripts(s: Map<Seq<char>, Seq<char>>) -> Seq<Injected> {
    (if settings::flag(s, "privacy_dnt"@, true) {
        seq![early_script(DNT_JS@)]
    } else {
        Seq::empty()
    }) + (if settings::flag(s, "privacy_webrtc_leak"@, true) {
        seq![early_script(WEBRTC_LEAK_PREVENTION_JS@)]
    } else {
        Seq::empty()
    })
}

/// What a list of injections holds.
pub open spec fn injections_of(v: Seq<Injection>) -> Seq<Injected> {
    v.map_values(|i: Injection| i@)
}

/// The privacy-related scripts (Do Not Track, WebRTC leak prevention) that are
/// injected into pages.
pub fn inject_privacy_scripts(s: &Settings) -> (r: Vec<Injection>)
    ensures
        injections_of(r@) == privacy_scripts(s@),
{
    let mut r: Vec<Injection> = Vec::new();
    if settings::get_flag(s, "privacy_dnt", true) {
        r.push(new_early_script(DNT_JS));
    }
    if settings::get_flag(s, "privacy_webrtc_leak", true) {
        r.push(new_early_script(WEBRTC_LEAK_PREVENTION_JS));
    }
    assert(injections_of(r@) =~= privacy_scripts(s@));
    r
}

/// How a new page view is set up.
pub struct WebViewSettings {
    /// The user agent to send, where it is not the engine's own.
    pub user_agent: Option<&'static str>,
    /// Whether WebRTC is available. Cameras and microphones do not depend on it.
    pub webrtc: bool,
}

/// How a new page view is set up under the settings.
pub fn create_webview(s: &Settings) -> (r: WebViewSettings)
    ensures
        match r.user_agent {
            Some(agent) => settings::flag(s@, "privacy_custom_ua"@, true) && agent@
                == PRIVACY_USER_AGENT@,
            None => !settings::flag(s@, "privacy_custom_ua"@, true),
        },
        r.webrtc == settings::flag(s@, "privacy_webrtc"@, false),
{
    WebViewSettings {
        user_agent: if settings::get_flag(s, "privacy_custom_ua", true) {
            Some(PRIVACY_USER_AGENT)
        } else {
            None
        },
        webrtc: settings::get_flag(s, "privacy_webrtc", false),
    }
}

/// Which cookies are accepted.
#[derive(Clone, Copy, PartialEq, Eq, Structural)]
pub enum CookiePolicy {
    Always,
    NoThirdParty,
    Never,
}

/// The cookies that a stored policy accepts.
pub open spec fn cookie_policy(stored: Seq<char>) -> CookiePolicy {
    if stored == "block-all"@ {
        CookiePolicy::Never
    } else if stored == "no-third-party"@ {
        CookiePolicy::NoThirdParty
    } else {
        CookiePolicy::Always
    }
}

/// How the network session is set up.
pub struct SessionSettings {
    /// Whether Intelligent Tracking Prevention is on.
    pub itp: bool,
    pub cookies: CookiePolicy,
}

/// How the network session is set up under the settings. Where they say
/// nothing, tracking prevention is on and third-party cookies are refused.
pub fn setup_privacy_on_session(s: &Settings) -> (r: SessionSettings)
    ensures
        r.itp == settings::flag(s@, "privacy_itp"@, true),
        r.cookies == cookie_policy(settings::value_or(s@, "privacy_cookies"@, "no-third-party"@)),
{
    let stored = settings::setting_or(s, "privacy_cookies", "no-third-party");
    let cookies = if text::same(stored.as_str(), "block-all") {
        CookiePolicy::Never
    } else if text::same(stored.as_str(), "no-third-party") {
        CookiePolicy::NoThirdParty
    } else {
        CookiePolicy::Always
    };
    SessionSettings { itp: settings::get_flag(s, "privacy_itp", true), cookies }
}

// The address bar.

/// The bytes that stand for themselves in an address: letters, digits, dash,
/// dot, underscore and tilde.
pub open spec fn unreserved(b: u8) -> bool {
    ||| 0x30 <= b <= 0x39
    ||| 0x41 <= b <= 0x5a
    ||| 0x61 <= b <= 0x7a
    ||| b == 0x2d
    ||| b == 0x2e
    ||| b == 0x5f
    ||| b == 0x7e
}

/// The digit for a value below sixteen.
pub open spec fn hex_digit(d: int) -> char {
    if d < 10 {
        (48 + d) as char
    } else {
        (55 + d) as char
    }
}

/// How a byte is written in an address.
pub open spec fn percent(b: u8) -> Seq<char> {
    if unreserved(b) {
        seq![b as char]
    } else {
        seq!['%', hex_digit(b as int / 16), hex_digit(b as int % 16)]
    }
}

/// How text is written in an address, byte for byte, up to a zero byte if it
/// holds one.
pub open spec fn escaped(bytes: Seq<u8>) -> Seq<char>
    decreases bytes.len(),
{
    if bytes.len() == 0 || bytes[0] == 0 {
        Seq::empty()
    } else {
        percent(bytes[0]) + escaped(bytes.drop_first())
    }
}

/// What the address bar leads to: home for a blank input, the input where it
/// has a scheme, a site where it looks like a domain, else a web search.
pub open spec fn normalised(s: Map<Seq<char>, Seq<char>>, input: Seq<char>) -> Seq<char> {
    let t = text::trimmed(input);
    if t.len() == 0 {
        settings::value_or(s, "homepage"@, settings::DEFAULT_HOMEPAGE@)
    } else if text::holds(t, "://"@) {
        t
    } else if text::holds(t, "."@) && !text::holds(t, " "@) {
        "https://"@ + t
    } else {
        settings::value_or(s, "search_engine"@, settings::DEFAULT_SEARCH_ENGINE@) + escaped(
            vstd::utf8::encode_utf8(t),
        )
    }
}

fn hex_of(d: u8) -> (c: char)
    requires
        d < 16,
    ensures
        c == hex_digit(d as int),
{
    if d < 10 {
        (48 + d) as char
    } else {
        (55 + d) as char
    }
}

/// Escapes text for use in an address.
pub fn uri_escape(s: &str) -> (r: String)
    ensures
        r@ == escaped(vstd::utf8::encode_utf8(s@)),
{
    let bytes = s.as_bytes();
    let mut r = String::new();
    let mut i: usize = 0;
    assert(bytes@.skip(0) =~= bytes@);
    assert(r@ + escaped(bytes@) =~= escaped(bytes@));
    while i < bytes.len() && bytes[i] != 0
        invariant
            bytes@ == vstd::utf8::encode_utf8(s@),
            i <= bytes@.len(),
            r@ + escaped(bytes@.skip(i as int)) == escaped(bytes@),
        decreases bytes@.len() - i,
    {
        let b: u8 = bytes[i];
        let ghost before = r@;
        if (0x30 <= b && b <= 0x39) || (0x41 <= b && b <= 0x5a) || (0x61 <= b && b <= 0x7a) || b
            == 0x2d || b == 0x2e || b == 0x5f || b == 0x7e {
            r.push(b as char);
        } else {
            r.push('%');
            r.push(hex_of(b / 16));
            r.push(hex_of(b % 16));
        }
        proof {
            assert(r@ =~= before + percent(b));
            assert(bytes@.skip(i as int).drop_first() =~= bytes@.skip(i + 1));
            assert(r@ + escaped(bytes@.skip(i + 1)) =~= before + escaped(bytes@.skip(i as int)));
        }
        i += 1;
    }
    assert(r@ + Seq::<char>::empty() =~= r@);
    r
}

/// Turn arbitrary address-bar text into a valid address.
pub fn normalise_uri(s: &Settings, input: &str) -> (r: String)
    ensures
        r@ == normalised(s@, input@),
{
    let t = text::trim(input);
    if t.as_str().is_empty() {
        return home_url(s);
    }
    if text::has(t.as_str(), "://") {
        return t;
    }
    if text::has(t.as_str(), ".") && !text::has(t.as_str(), " ") {
        return text::joined("https://", t.as_str());
    }
    let search = settings::search_engine_url(s);
    let query = uri_escape(t.as_str());
    text::joined(search.as_str(), query.as_str())
}

/// Return the configured homepage URL.
pub fn home_url(s: &Settings) -> (r: String)
    ensures
        r@ == settings::value_or(s@, "homepage"@, settings::DEFAULT_HOMEPAGE@),
{
    settings::homepage(s)
}

// Laws.

/// The network session accepts the cookies that the settings window shows as
/// accepted, where the window stored the policy or none is stored.
pub proof fn law_session_follows_the_cookie_list(s: Map<Seq<char>, Seq<char>>, index: u32)
    requires
        settings::value_or(s, "privacy_cookies"@, "no-third-party"@) == settings::cookie_name(index),
    ensures
        cookie_policy(settings::value_or(s, "privacy_cookies"@, "no-third-party"@)) == match settings::cookie_index(
            settings::value_or(s, "privacy_cookies"@, "no-third-party"@),
        ) {
            1 => CookiePolicy::Always,
            2 => CookiePolicy::Never,
            _ => CookiePolicy::NoThirdParty,
        },
{
    reveal_strlit("allow-all");
    reveal_strlit("block-all");
    reveal_strlit("no-third-party");
    assert("allow-all"@[0] != "block-all"@[0]);
    assert("no-third-party"@.len() != "allow-all"@.len());
    assert("no-third-party"@.len() != "block-all"@.len());
}

/// The value of a hexadecimal digit.
pub open spec fn hex_value(c: char) -> int {
    if c <= '9' {
        c as int - 48
    } else {
        c as int - 55
    }
}

/// The bytes that escaped text stands for.
pub open spec fn unescaped(s: Seq<char>) -> Seq<u8>
    decreases s.len(),
{
    if s.len() == 0 {
        Seq::empty()
    } else if s[0] == '%' && s.len() >= 3 {
        seq![(hex_value(s[1]) * 16 + hex_value(s[2])) as u8] + unescaped(s.skip(3))
    } else {
        seq![s[0] as u8] + unescaped(s.drop_first())
    }
}

/// Escaped text stands for the bytes it was made from.
pub proof fn law_unescape_inverts_escape(bytes: Seq<u8>)
    requires
        forall|i: int| 0 <= i < bytes.len() ==> bytes[i] != 0,
    ensures
        unescaped(escaped(bytes)) == bytes,
    decreases bytes.len(),
{
    if bytes.len() > 0 {
        let rest = bytes.drop_first();
        law_unescape_inverts_escape(rest);
        let s = escaped(bytes);
        let b = bytes[0];
        if unreserved(b) {
            assert(s.drop_first() =~= escaped(rest));
            assert(s[0] == b as char);
            assert(s[0] as u8 == b);
        } else {
            assert(s.skip(3) =~= escaped(rest));
            let hi = hex_digit(b as int / 16);
            let lo = hex_digit(b as int % 16);
            assert(s[1] == hi && s[2] == lo);
            assert(hex_value(hi) == b as int / 16);
            assert(hex_value(lo) == b as int % 16);
            assert(hex_value(hi) * 16 + hex_value(lo) == b);
        }
        assert(seq![b] + rest =~= bytes);
    } else {
        assert(bytes =~= Seq::<u8>::empty());
    }
}

/// Characters that escaped text is made of.
pub open spec fn address_safe(c: char) -> bool {
    ||| c == '%'
    ||| '0' <= c <= '9'
    ||| 'A' <= c <= 'Z'
    ||| 'a' <= c <= 'z'
    ||| c == '-'
    ||| c == '.'
    ||| c == '_'
    ||| c == '~'
}

/// Escaped text holds no character that has a meaning of its own in an address.
pub proof fn law_escaped_is_safe(bytes: Seq<u8>)
    ensures
        forall|i: int| 0 <= i < escaped(bytes).len() ==> address_safe(#[trigger] escaped(bytes)[i]),
    decreases bytes.len(),
{
    if bytes.len() > 0 && bytes[0] != 0 {
        let rest = escaped(bytes.drop_first());
        law_escaped_is_safe(bytes.drop_first());
        let head = percent(bytes[0]);
        let all = escaped(bytes);
        assert forall|i: int| 0 <= i < all.len() implies address_safe(#[trigger] all[i]) by {
            if i < head.len() {
                assert(all[i] == head[i]);
            } else {
                assert(all[i] == rest[i - head.len()]);
            }
        }
    }
}

/// An address with a scheme and no white space around it is left as it is.
pub proof fn law_full_addresses_are_kept(s: Map<Seq<char>, Seq<char>>, url: Seq<char>)
    requires
        text::trimmed(url) == url,
        text::holds(url, "://"@),
    ensures
        normalised(s, url) == url,
{
    reveal_strlit("://");
    let i = choose|i: int| text::occurs_at(url, "://"@, i);
    assert(url.len() >= 3);
}

/// Where a typed text leads, white space around it aside: home where there is
/// none; to itself where a scheme stands in it; to the site, under `https`,
/// where it has a dot and no blank; and to a search for it in every other case.
pub proof fn law_typed_text_leads(
    s: Map<Seq<char>, Seq<char>>,
    before: Seq<char>,
    t: Seq<char>,
    after: Seq<char>,
)
    requires
        forall|k: int| 0 <= k < before.len() ==> text::white(#[trigger] before[k]),
        forall|k: int| 0 <= k < after.len() ==> text::white(#[trigger] after[k]),
        t.len() > 0,
        !text::white(t[0]),
        !text::white(t.last()),
    ensures
        ({
            let typed = before + t + after;
            let schemed = exists|i: int|
                0 <= i && i + 2 < t.len() && #[trigger] t[i] == ':' && t[i + 1] == '/' && t[i + 2] == '/';
            &&& schemed ==> normalised(s, typed) == t
            &&& !schemed && t.contains('.') && !t.contains(' ') ==> normalised(s, typed)
                == "https://"@ + t
            &&& !schemed && (!t.contains('.') || t.contains(' ')) && s.dom().contains(
                "search_engine"@,
            ) ==> normalised(s, typed) == s["search_engine"@] + escaped(
                vstd::utf8::encode_utf8(t),
            )
            &&& !schemed && (!t.contains('.') || t.contains(' ')) && !s.dom().contains(
                "search_engine"@,
            ) ==> normalised(s, typed) == "https://duckduckgo.com/?q="@ + escaped(
                vstd::utf8::encode_utf8(t),
            )
        }),
{
    let typed = before + t + after;
    text::law_trimming_is_about_the_ends(before, t, after);
    reveal_strlit("://");
    reveal_strlit(".");
    reveal_strlit(" ");
    assert("."@ =~= seq!['.']);
    assert(" "@ =~= seq![' ']);
    text::law_holds_one(t, '.');
    text::law_holds_one(t, ' ');
    if text::holds(t, "://"@) {
        let i = choose|i: int| text::occurs_at(t, "://"@, i);
        assert(t.subrange(i, i + 3)[0] == t[i]);
        assert(t.subrange(i, i + 3)[1] == t[i + 1]);
        assert(t.subrange(i, i + 3)[2] == t[i + 2]);
    }
    if exists|i: int|
        0 <= i && i + 2 < t.len() && #[trigger] t[i] == ':' && t[i + 1] == '/' && t[i + 2] == '/' {
        let i = choose|i: int|
            0 <= i && i + 2 < t.len() && #[trigger] t[i] == ':' && t[i + 1] == '/' && t[i + 2] == '/';
        assert(t.subrange(i, i + 3) =~= "://"@);
        assert(text::occurs_at(t, "://"@, i));
    }
}

/// A text of white space alone leads home.
pub proof fn law_blank_text_leads_home(s: Map<Seq<char>, Seq<char>>, blank: Seq<char>)
    requires
        forall|k: int| 0 <= k < blank.len() ==> text::white(#[trigger] blank[k]),
    ensures
        s.dom().contains("homepage"@) ==> normalised(s, blank) == s["homepage"@],
        !s.dom().contains("homepage"@) ==> normalised(s, blank) == "https://duckduckgo.com"@,
{
    text::law_trimmed(blank);
    let (a, b) = choose|a: int, b: int|
        {
            &&& 0 <= a <= b <= blank.len()
            &&& text::trimmed(blank) == #[trigger] blank.subrange(a, b)
            &&& forall|k: int| 0 <= k < a || b <= k < blank.len() ==> text::white(#[trigger] blank[k])
            &&& a < b ==> !text::white(blank[a]) && !text::white(blank[b - 1])
        };
    if a < b {
        assert(text::white(blank[a]));
    }
}

/// Escaping goes byte by byte: letters, digits, dash, dot, underscore and tilde
/// of ASCII stand for themselves, and every other byte is a percent sign and
/// two upper-case hexadecimal digits.
pub proof fn law_escaped_bytes(a: Seq<u8>, b: u8, rest: Seq<u8>)
    requires
        b != 0,
        forall|i: int| 0 <= i < a.len() ==> #[trigger] a[i] != 0,
    ensures
        escaped(a + seq![b] + rest) == escaped(a) + escaped(seq![b]) + escaped(rest),
        escaped(a + seq![0u8] + rest) == escaped(a),
        ({
            let c = b as char;
            let plain = ('0' <= c <= '9') || ('A' <= c <= 'Z') || ('a' <= c <= 'z') || c == '-' || c == '.'
                || c == '_' || c == '~';
            let e = escaped(seq![b]);
            &&& plain ==> e == seq![c]
            &&& !plain ==> e.len() == 3 && e[0] == '%' && (forall|k: int|
                1 <= k < 3 ==> ('0' <= #[trigger] e[k] <= '9') || ('A' <= e[k] <= 'F'))
                && hex_value(e[1]) * 16 + hex_value(e[2]) == b
        }),
    decreases a.len(),
{
    let one = seq![b];
    assert(one.drop_first() =~= Seq::<u8>::empty());
    assert(escaped(one.drop_first()) =~= Seq::<char>::empty());
    assert(escaped(one) =~= percent(b));
    if a.len() == 0 {
        assert((a + seq![b] + rest).drop_first() =~= rest);
        assert((a + seq![b] + rest)[0] == b);
        assert(escaped(a) =~= Seq::<char>::empty());
        assert(escaped(a + seq![b] + rest) =~= escaped(a) + escaped(one) + escaped(rest));
        assert((a + seq![0u8] + rest)[0] == 0);
        assert(escaped(a + seq![0u8] + rest) =~= escaped(a));
    } else {
        let t = a.drop_first();
        assert(a[0] != 0);
        assert forall|i: int| 0 <= i < t.len() implies #[trigger] t[i] != 0 by {
            assert(t[i] == a[i + 1]);
        }
        law_escaped_bytes(t, b, rest);
        assert((a + seq![b] + rest).drop_first() =~= t + seq![b] + rest);
        assert((a + seq![0u8] + rest).drop_first() =~= t + seq![0u8] + rest);
        assert(escaped(a + seq![b] + rest) =~= escaped(a) + escaped(one) + escaped(rest));
        assert(escaped(a + seq![0u8] + rest) =~= escaped(a));
    }
}

/// Which cookies a stored policy accepts: none, those of the site itself, or
/// all; what is no policy accepts all.
pub proof fn law_cookie_policy(stored: Seq<char>)
    ensures
        cookie_policy(stored) is Never <==> stored == "block-all"@,
        cookie_policy(stored) is NoThirdParty <==> stored == "no-third-party"@,
{
    reveal_strlit("block-all");
    reveal_strlit("no-third-party");
    assert("block-all"@.len() != "no-third-party"@.len());
}

/// Each privacy script is injected where its switch is on or was never moved,
/// and only there; into every frame but those of challenges, before the page.
pub proof fn law_privacy_scripts(s: Map<Seq<char>, Seq<char>>)
    ensures
        ({
            let r = privacy_scripts(s);
            let dnt = !s.dom().contains("privacy_dnt"@) || s["privacy_dnt"@] == "true"@;
            let leak = !s.dom().contains("privacy_webrtc_leak"@) || s["privacy_webrtc_leak"@]
                == "true"@;
            &&& r.len() == (if dnt {
                1int
            } else {
                0
            }) + (if leak {
                1int
            } else {
                0
            })
            &&& dnt ==> r[0].source == DNT_JS@
            &&& leak ==> r.last().source == WEBRTC_LEAK_PREVENTION_JS@
            &&& forall|i: int|
                0 <= i < r.len() ==> (#[trigger] r[i]).kind is ScriptAtStart
                    && r[i].frames is AllFrames && r[i].allow.len() == 0 && r[i].block
                    == patterns(CF_BLOCK_LIST@)
        }),
{
}

/// Every pattern of a list stands for its text, in the order of the list.
pub proof fn law_patterns(v: Seq<&'static str>, i: int)
    requires
        0 <= i < v.len(),
    ensures
        patterns(v).len() == v.len(),
        patterns(v)[i] == v[i]@,
{
}

/// Every injection of a list is there, in the order of the list.
pub proof fn law_injections(v: Seq<Injection>, i: int)
    requires
        0 <= i < v.len(),
    ensures
        injections_of(v).len() == v.len(),
        injections_of(v)[i] == v[i]@,
{
}

} // verus!
