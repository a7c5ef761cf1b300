//! User preferences: a key-value store, and what the preferences window makes
//! of it.

use vstd::hash_map::StringHashMap;
use vstd::prelude::*;

use crate::text;

verus! {

/// The stored preferences.
pub struct Settings {
    values: StringHashMap<String>,
}

impl View for Settings {
    type V = Map<Seq<char>, Seq<char>>;

    closed spec fn view(&self) -> Map<Seq<char>, Seq<char>> {
        self.values@.map_values(|v: String| v@)
    }
}

impl Settings {
    /// Nothing is set.
    pub fn new() -> (r: Self)
        ensures
            r@ == Map::<Seq<char>, Seq<char>>::empty(),
    {
        let r = Settings { values: StringHashMap::new() };
        assert(r@ =~= Map::<Seq<char>, Seq<char>>::empty());
        r
    }
}

/// The value of `key`, or `default` where it is not set.
pub open spec fn value_or(s: Map<Seq<char>, Seq<char>>, key: Seq<char>, default: Seq<char>) -> Seq<
    char,
> {
    if s.dom().contains(key) {
        s[key]
    } else {
        default
    }
}

/// Whether `key` is set to "true", or `default` where it is not set.
pub open spec fn flag(s: Map<Seq<char>, Seq<char>>, key: Seq<char>, default: bool) -> bool {
    if s.dom().contains(key) {
        s[key] == "true"@
    } else {
        default
    }
}

/// Read a setting. `None` if it is not set.
pub fn get_setting(s: &Settings, key: &str) -> (r: Option<String>)
    ensures
        match r {
            Some(v) => s@.dom().contains(key@) && v@ == s@[key@],
            None => !s@.dom().contains(key@),
        },
{
    match s.values.get(key) {
        Some(v) => Some(v.clone()),
        None => None,
    }
}

/// Write a setting, whether or not it was set before.
pub fn set_setting(s: &mut Settings, key: &str, value: &str)
    ensures
        final(s)@ == old(s)@.insert(key@, value@),
{
    s.values.insert(key.to_owned(), value.to_owned());
    assert(s@ =~= old(s)@.insert(key@, value@));
}

/// Read a setting, with a default.
pub fn setting_or(s: &Settings, key: &str, default: &str) -> (r: String)
    ensures
        r@ == value_or(s@, key@, default@),
{
    match get_setting(s, key) {
        Some(v) => v,
        None => default.to_owned(),
    }
}

/// Read a switch, with a default.
pub fn get_flag(s: &Settings, key: &str, default: bool) -> (r: bool)
    ensures
        r == flag(s@, key@, default),
{
    match get_setting(s, key) {
        Some(v) => text::same(v.as_str(), "true"),
        None => default,
    }
}

/// How a switch is stored.
pub open spec fn flag_text(on: bool) -> Seq<char> {
    if on {
        "true"@
    } else {
        "false"@
    }
}

/// Write a switch.
pub fn set_flag(s: &mut Settings, key: &str, on: bool)
    ensures
        final(s)@ == old(s)@.insert(key@, flag_text(on)),
{
    set_setting(
        s,
        key,
        if on {
            "true"
        } else {
            "false"
        },
    );
}

/// The homepage where none is configured.
pub const DEFAULT_HOMEPAGE: &'static str = "https://duckduckgo.com";

/// The search engine where none is configured.
pub const DEFAULT_SEARCH_ENGINE: &'static str = "https://duckduckgo.com/?q=";

/// Return the configured homepage URL (default: DuckDuckGo).
pub fn homepage(s: &Settings) -> (r: String)
    ensures
        r@ == value_or(s@, "homepage"@, DEFAULT_HOMEPAGE@),
{
    setting_or(s, "homepage", DEFAULT_HOMEPAGE)
}

/// Return the configured search engine URL prefix.
pub fn search_engine_url(s: &Settings) -> (r: String)
    ensures
        r@ == value_or(s@, "search_engine"@, DEFAULT_SEARCH_ENGINE@),
{
    setting_or(s, "search_engine", DEFAULT_SEARCH_ENGINE)
}

// The preferences window.

/// The entry of the search engine list that stands for a URL prefix:
/// DuckDuckGo, Google, Bing, Brave Search.
pub open spec fn search_index(url: Seq<char>) -> u32 {
    if text::holds(url, "google.com"@) {
        1
    } else if text::holds(url, "bing.com"@) {
        2
    } else if text::holds(url, "brave.com"@) || text::holds(url, "search.brave"@) {
        3
    } else {
        0
    }
}

/// The URL prefix of an entry of the search engine list.
pub open spec fn search_url(index: u32) -> Seq<char> {
    if index == 1 {
        "https://www.google.com/search?q="@
    } else if index == 2 {
        "https://www.bing.com/search?q="@
    } else if index == 3 {
        "https://search.brave.com/search?q="@
    } else {
        "https://duckduckgo.com/?q="@
    }
}

/// The entry of the cookie policy list that stands for a stored policy: block
/// third-party, allow all, block all.
pub open spec fn cookie_index(policy: Seq<char>) -> u32 {
    if policy == "allow-all"@ {
        1
    } else if policy == "block-all"@ {
        2
    } else {
        0
    }
}

/// How an entry of the cookie policy list is stored.
pub open spec fn cookie_name(index: u32) -> Seq<char> {
    if index == 1 {
        "allow-all"@
    } else if index == 2 {
        "block-all"@
    } else {
        "no-third-party"@
    }
}

/// The entry of the sidebar position list: left, right.
pub open spec fn sidebar_index(position: Seq<char>) -> u32 {
    if position == "right"@ {
        1
    } else {
        0
    }
}

/// How an entry of the sidebar position list is stored.
pub open spec fn sidebar_name(index: u32) -> Seq<char> {
    if index == 1 {
        "right"@
    } else {
        "left"@
    }
}

/// What the blocklist row says.
pub open spec fn blocklist_status(domains: nat) -> Seq<char> {
    if domains > 0 {
        text::decimal(domains) + " domains in blocklist"@
    } else {
        "No blocklist cached \u{2014} use Refresh to download"@
    }
}

/// What the preferences window shows when it opens.
pub struct SettingsForm {
    pub homepage: String,
    pub search_engine: u32,
    pub itp: bool,
    pub dnt: bool,
    pub custom_ua: bool,
    pub cookies: u32,
    pub webrtc: bool,
    pub webrtc_leak: bool,
    pub adblock: bool,
    pub blocklist_status: String,
    pub sidebar: u32,
}

/// The preferences, as the window shows them.
pub fn show_settings(s: &Settings, blocked_domains: usize) -> (r: SettingsForm)
    ensures
        r.homepage@ == value_or(s@, "homepage"@, DEFAULT_HOMEPAGE@),
        r.search_engine == search_index(value_or(s@, "search_engine"@, DEFAULT_SEARCH_ENGINE@)),
        r.itp == flag(s@, "privacy_itp"@, true),
        r.dnt == flag(s@, "privacy_dnt"@, true),
        r.custom_ua == flag(s@, "privacy_custom_ua"@, true),
        r.cookies == cookie_index(value_or(s@, "privacy_cookies"@, "no-third-party"@)),
        r.webrtc == flag(s@, "privacy_webrtc"@, false),
        r.webrtc_leak == flag(s@, "privacy_webrtc_leak"@, true),
        r.adblock == flag(s@, "adblock_enabled"@, true),
        r.blocklist_status@ == blocklist_status(blocked_domains as nat),
        r.sidebar == sidebar_index(value_or(s@, "sidebar_position"@, "left"@)),
{
    let url = search_engine_url(s);
    let search_engine: u32 = if text::has(url.as_str(), "google.com") {
        1
    } else if text::has(url.as_str(), "bing.com") {
        2
    } else if text::has(url.as_str(), "brave.com") || text::has(url.as_str(), "search.brave") {
        3
    } else {
        0
    };
    let policy = setting_or(s, "privacy_cookies", "no-third-party");
    let cookies: u32 = if text::same(policy.as_str(), "allow-all") {
        1
    } else if text::same(policy.as_str(), "block-all") {
        2
    } else {
        0
    };
    let position = setting_or(s, "sidebar_position", "left");
    let status = if blocked_domains > 0 {
        let n = text::decimal_of(blocked_domains as u128);
        text::joined(n.as_str(), " domains in blocklist")
    } else {
        "No blocklist cached \u{2014} use Refresh to download".to_owned()
    };
    SettingsForm {
        homepage: homepage(s),
        search_engine,
        itp: get_flag(s, "privacy_itp", true),
        dnt: get_flag(s, "privacy_dnt", true),
        custom_ua: get_flag(s, "privacy_custom_ua", true),
        cookies,
        webrtc: get_flag(s, "privacy_webrtc", false),
        webrtc_leak: get_flag(s, "privacy_webrtc_leak", true),
        adblock: get_flag(s, "adblock_enabled", true),
        blocklist_status: status,
        sidebar: if text::same(position.as_str(), "right") {
            1
        } else {
            0
        },
    }
}

/// Applies the text of the homepage row. An empty text changes nothing.
pub fn apply_homepage(s: &mut Settings, entry: &str)
    ensures
        final(s)@ == if entry@.len() == 0 {
            old(s)@
        } else {
            old(s)@.insert("homepage"@, entry@)
        },
{
    if !entry.is_empty() {
        set_setting(s, "homepage", entry);
    }
}

/// Stores the search engine chosen in the list.
pub fn choose_search_engine(s: &mut Settings, index: u32)
    ensures
        final(s)@ == old(s)@.insert("search_engine"@, search_url(index)),
{
    let url = if index == 1 {
        "https://www.google.com/search?q="
    } else if index == 2 {
        "https://www.bing.com/search?q="
    } else if index == 3 {
        "https://search.brave.com/search?q="
    } else {
        "https://duckduckgo.com/?q="
    };
    set_setting(s, "search_engine", url);
}

/// Stores the cookie policy chosen in the list.
pub fn choose_cookies(s: &mut Settings, index: u32)
    ensures
        final(s)@ == old(s)@.insert("privacy_cookies"@, cookie_name(index)),
{
    let name = if index == 1 {
        "allow-all"
    } else if index == 2 {
        "block-all"
    } else {
        "no-third-party"
    };
    set_setting(s, "privacy_cookies", name);
}

/// Stores the sidebar position chosen in the list.
pub fn choose_sidebar(s: &mut Settings, index: u32)
    ensures
        final(s)@ == old(s)@.insert("sidebar_position"@, sidebar_name(index)),
{
    set_setting(
        s,
        "sidebar_position",
        if index == 1 {
            "right"
        } else {
            "left"
        },
    );
}

// Laws.

/// A switch reads as it was last written, whatever its default.
pub proof fn law_flag_reads_back(
    s: Map<Seq<char>, Seq<char>>,
    key: Seq<char>,
    on: bool,
    default: bool,
)
    ensures
        flag(s.insert(key, flag_text(on)), key, default) == on,
{
    reveal_strlit("true");
    reveal_strlit("false");
    assert("true"@.len() != "false"@.len());
}

/// Writing one setting leaves the others as they were.
pub proof fn law_settings_are_independent(
    s: Map<Seq<char>, Seq<char>>,
    key: Seq<char>,
    value: Seq<char>,
    other: Seq<char>,
    default: Seq<char>,
)
    requires
        other != key,
    ensures
        value_or(s.insert(key, value), other, default) == value_or(s, other, default),
{
}

/// The cookie policy list shows the entry that was chosen.
pub proof fn law_cookie_choice_shows(index: u32)
    requires
        index < 3,
    ensures
        cookie_index(cookie_name(index)) == index,
{
    reveal_strlit("allow-all");
    reveal_strlit("block-all");
    reveal_strlit("no-third-party");
    assert("allow-all"@[0] != "block-all"@[0]);
    assert("no-third-party"@.len() != "allow-all"@.len());
    assert("no-third-party"@.len() != "block-all"@.len());
}

/// The sidebar position list shows the entry that was chosen.
pub proof fn law_sidebar_choice_shows(index: u32)
    requires
        index < 2,
    ensures
        sidebar_index(sidebar_name(index)) == index,
{
    reveal_strlit("left");
    reveal_strlit("right");
    assert("left"@.len() != "right"@.len());
}

/// `p` stands at no index of `s`: at none of them do its first characters match.
proof fn lemma_not_held(s: Seq<char>, p: Seq<char>)
    requires
        p.len() >= 3,
        forall|i: int|
            0 <= i < s.len() - 2 ==> !(s[i] == p[0] && s[i + 1] == p[1] && #[trigger] s[i + 2]
                == p[2]),
    ensures
        !text::holds(s, p),
{
    if text::holds(s, p) {
        let i = choose|i: int| text::occurs_at(s, p, i);
        assert(s.subrange(i, i + p.len())[0] == p[0]);
        assert(s.subrange(i, i + p.len())[1] == p[1]);
        assert(s.subrange(i, i + p.len())[2] == p[2]);
        assert(s[i + 2] == p[2]);
    }
}

/// The search engine list shows the entry that was chosen.
pub proof fn law_search_choice_shows(index: u32)
    requires
        index < 4,
    ensures
        search_index(search_url(index)) == index,
{
    reveal_strlit("https://www.google.com/search?q=");
    reveal_strlit("https://www.bing.com/search?q=");
    reveal_strlit("https://search.brave.com/search?q=");
    reveal_strlit("https://duckduckgo.com/?q=");
    reveal_strlit("google.com");
    reveal_strlit("bing.com");
    reveal_strlit("brave.com");
    reveal_strlit("search.brave");
    let url = search_url(index);
    if index == 1 {
        assert(url.subrange(12, 22) =~= "google.com"@);
        assert(text::occurs_at(url, "google.com"@, 12));
    } else {
        lemma_not_held(url, "google.com"@);
        if index == 2 {
            assert(url.subrange(12, 20) =~= "bing.com"@);
            assert(text::occurs_at(url, "bing.com"@, 12));
        } else {
            lemma_not_held(url, "bing.com"@);
            if index == 3 {
                assert(url.subrange(15, 24) =~= "brave.com"@);
                assert(text::occurs_at(url, "brave.com"@, 15));
            } else {
                lemma_not_held(url, "brave.com"@);
                lemma_not_held(url, "search.brave"@);
            }
        }
    }
}

/// A setting reads as it was last written, and as its default where it was
/// never written.
pub proof fn law_setting_reads_back(
    s: Map<Seq<char>, Seq<char>>,
    key: Seq<char>,
    value: Seq<char>,
    default: Seq<char>,
)
    ensures
        value_or(s.insert(key, value), key, default) == value,
        value_or(s.remove(key), key, default) == default,
{
}

/// A switch is on where its text is "true", off where it is any other, and at
/// its default where it has none; writing another setting does not move it.
pub proof fn law_switches(
    s: Map<Seq<char>, Seq<char>>,
    key: Seq<char>,
    value: Seq<char>,
    other: Seq<char>,
    default: bool,
)
    ensures
        flag(s.insert(key, value), key, default) <==> value == "true"@,
        flag(s.remove(key), key, default) == default,
        other != key ==> flag(s.insert(other, value), key, default) == flag(s, key, default),
        flag_text(true) == "true"@,
        flag_text(false) == "false"@,
{
}

/// Which entry of the search engine list an address stands for depends on the
/// name it holds alone: Google's before Bing's before Brave's, and DuckDuckGo
/// for all others.
pub proof fn law_search_list(url: Seq<char>)
    ensures
        search_index(url) == 1 <==> text::holds(url, "google.com"@),
        search_index(url) == 2 <==> text::holds(url, "bing.com"@) && !text::holds(
            url,
            "google.com"@,
        ),
        search_index(url) == 3 <==> (text::holds(url, "brave.com"@) || text::holds(
            url,
            "search.brave"@,
        )) && !text::holds(url, "google.com"@) && !text::holds(url, "bing.com"@),
        search_index(url) <= 3,
{
}

/// Every entry of the search engine list leads to a site under `https`, and to
/// the field that takes the query; what is no entry of the list leads to
/// DuckDuckGo.
pub proof fn law_search_urls(index: u32)
    ensures
        text::begins(search_url(index), "https://"@),
        text::ends(search_url(index), "?q="@),
        index == 1 ==> text::holds(search_url(index), "//www.google.com/search"@),
        index == 2 ==> text::holds(search_url(index), "//www.bing.com/search"@),
        index == 3 ==> text::holds(search_url(index), "//search.brave.com/search"@),
        index == 0 || index > 3 ==> search_url(index) == "https://duckduckgo.com/?q="@,
{
    reveal_strlit("https://");
    reveal_strlit("?q=");
    let u = search_url(index);
    reveal_strlit("https://www.google.com/search?q=");
    reveal_strlit("https://www.bing.com/search?q=");
    reveal_strlit("https://search.brave.com/search?q=");
    reveal_strlit("https://duckduckgo.com/?q=");
    assert(u.subrange(0, 8) =~= "https://"@);
    assert(u.subrange(u.len() - 3, u.len() as int) =~= "?q="@);
    if index == 1 {
        reveal_strlit("//www.google.com/search");
        assert(u.subrange(6, 29) =~= "//www.google.com/search"@);
        assert(text::occurs_at(u, "//www.google.com/search"@, 6));
    } else if index == 2 {
        reveal_strlit("//www.bing.com/search");
        assert(u.subrange(6, 27) =~= "//www.bing.com/search"@);
        assert(text::occurs_at(u, "//www.bing.com/search"@, 6));
    } else if index == 3 {
        reveal_strlit("//search.brave.com/search");
        assert(u.subrange(6, 31) =~= "//search.brave.com/search"@);
        assert(text::occurs_at(u, "//search.brave.com/search"@, 6));
    }
}

/// What the other lists make of a stored text: its own entry for each text that
/// they store, and the first entry for any other.
pub proof fn law_other_lists(stored: Seq<char>)
    ensures
        cookie_index(stored) == 1 <==> stored == "allow-all"@,
        cookie_index(stored) == 2 <==> stored == "block-all"@,
        cookie_index(stored) <= 2,
        sidebar_index(stored) == 1 <==> stored == "right"@,
        sidebar_index(stored) <= 1,
{
    reveal_strlit("allow-all");
    reveal_strlit("block-all");
    assert("allow-all"@[0] != "block-all"@[0]);
}

/// The status of the blocklist begins with the number of its domains.
pub proof fn law_blocklist_status(n: nat)
    ensures
        n > 0 ==> exists|k: int|
            0 < k < blocklist_status(n).len() && text::digits_value(
                #[trigger] blocklist_status(n).take(k),
            ) == n && blocklist_status(n).skip(k) == " domains in blocklist"@,
        n == 0 ==> text::begins(blocklist_status(n), "No blocklist cached"@),
{
    if n > 0 {
        reveal_strlit(" domains in blocklist");
        text::law_decimal_reads_back(n);
        let d = text::decimal(n);
        let k = d.len() as int;
        assert(blocklist_status(n).take(k) =~= d);
        assert(blocklist_status(n).skip(k) =~= " domains in blocklist"@);
    } else {
        reveal_strlit("No blocklist cached \u{2014} use Refresh to download");
        reveal_strlit("No blocklist cached");
        assert(blocklist_status(n).subrange(0, 19) =~= "No blocklist cached"@);
    }
}

} // verus!
