//! Ad blocking: the list of blocked domains, and the scripts, style sheets and
//! content rules made from it.

use vstd::hash_set::StringHashSet;
use vstd::prelude::*;

use crate::database;
use crate::script;
use crate::settings;
use crate::settings::Settings;
use crate::text;
use crate::webview;
use crate::webview::Injected;
use crate::webview::InjectedFrames;
use crate::webview::Injection;
use crate::webview::InjectionKind;

verus! {

/// Where the blocklist is fetched from.
pub const BLOCKLIST_URL: &'static str = "https://pgl.yoyo.org/adservers/serverlist.php?hostformat=hosts&showintro=0&mimetype=plaintext";

/// The blocked domains, each once, in the order in which they were read.
pub struct DomainSet {
    order: Vec<String>,
    index: StringHashSet,
}

impl View for DomainSet {
    type V = Seq<Seq<char>>;

    closed spec fn view(&self) -> Seq<Seq<char>> {
        text::texts(self.order@)
    }
}

/// `list` with `domain` at its end, unless it is in it already.
pub open spec fn with_domain(list: Seq<Seq<char>>, domain: Seq<char>) -> Seq<Seq<char>> {
    if list.contains(domain) {
        list
    } else {
        list.push(domain)
    }
}

impl DomainSet {
    /// The index holds the domains of the list, and no domain stands in the
    /// list twice.
    pub closed spec fn wf(&self) -> bool {
        &&& self@.no_duplicates()
        &&& forall|d: Seq<char>| self.index@.contains(d) <==> self@.contains(d)
    }

    /// No domains.
    pub fn new() -> (r: Self)
        ensures
            r.wf(),
            r@ == Seq::<Seq<char>>::empty(),
    {
        let r = DomainSet { order: Vec::new(), index: StringHashSet::new() };
        assert(r@ =~= Seq::<Seq<char>>::empty());
        r
    }

    /// Adds a domain.
    pub fn insert(&mut self, domain: String)
        requires
            old(self).wf(),
        ensures
            final(self).wf(),
            final(self)@ == with_domain(old(self)@, domain@),
    {
        let ghost before = self@;
        let ghost rows = self.order@;
        if self.index.contains(domain.as_str()) {
            return;
        }
        let ghost d = domain@;
        self.index.insert(domain.clone());
        self.order.push(domain);
        assert(self@ =~= before.push(d));
        assert(self@.no_duplicates()) by {
            assert forall|i: int, j: int| 0 <= i < self@.len() && 0 <= j < self@.len() && i
                != j implies self@[i] != self@[j] by {
                if i == before.len() {
                    assert(before.contains(before[j]));
                }
                if j == before.len() {
                    assert(before.contains(before[i]));
                }
            }
        }
        assert forall|x: Seq<char>| self.index@.contains(x) <==> self@.contains(x) by {
            if self@.contains(x) {
                let k = choose|k: int| 0 <= k < self@.len() && self@[k] == x;
                if k < before.len() {
                    assert(before[k] == x);
                }
            }
            if before.contains(x) {
                let k = choose|k: int| 0 <= k < before.len() && before[k] == x;
                assert(self@[k] == x);
            }
            assert(self@[before.len() as int] == d);
        }
    }

    /// How many domains there are.
    pub fn len(&self) -> (n: usize)
        ensures
            n == self@.len(),
    {
        self.order.len()
    }

    /// Whether a domain is among them.
    pub fn contains(&self, domain: &str) -> (r: bool)
        requires
            self.wf(),
        ensures
            r == self@.contains(domain@),
    {
        self.index.contains(domain)
    }
}

// Reading a blocklist.

/// The name that a line of a hosts file gives an address to, in lower case.
/// Blank lines, comments and lines with a single word give none.
pub open spec fn line_domain(line: Seq<char>) -> Option<Seq<char>> {
    let t = text::trimmed(line);
    let w = text::words(t);
    if t.len() == 0 || t[0] == '#' || w.len() < 2 {
        None
    } else {
        Some(text::lowercase(w[1]))
    }
}

/// Whether a name of a hosts file is to be blocked: the names that every hosts
/// file gives to the machine itself are not.
pub open spec fn blockable(domain: Seq<char>) -> bool {
    &&& domain != "localhost"@
    &&& domain != "localhost.localdomain"@
    &&& domain != "broadcasthost"@
    &&& domain != "local"@
    &&& domain.len() > 0
}

/// Whether a name of the cached list is to be blocked.
pub open spec fn cached_blockable(domain: Seq<char>) -> bool {
    domain != "localhost"@ && domain.len() > 0
}

/// Whether a name is to be blocked, by the rule for fetched lists or by that
/// for the cached one.
pub open spec fn accepted(domain: Seq<char>, cached: bool) -> bool {
    if cached {
        cached_blockable(domain)
    } else {
        blockable(domain)
    }
}

/// The domains to block that the lines of a hosts file name.
pub open spec fn listed(lines: Seq<Seq<char>>, cached: bool) -> Seq<Seq<char>>
    decreases lines.len(),
{
    if lines.len() == 0 {
        Seq::empty()
    } else {
        let before = listed(lines.drop_last(), cached);
        match line_domain(lines.last()) {
            Some(d) => if accepted(d, cached) {
                with_domain(before, d)
            } else {
                before
            },
            None => before,
        }
    }
}

/// Whether a domain, in lower case, is to be blocked, by the rule for fetched
/// lists or by that for the cached one.
pub fn is_accepted(domain: &str, cached: bool) -> (r: bool)
    ensures
        r == accepted(domain@, cached),
{
    if text::same(domain, "localhost") || domain.is_empty() {
        return false;
    }
    cached || !(text::same(domain, "localhost.localdomain") || text::same(domain, "broadcasthost")
        || text::same(domain, "local"))
}

/// The word of a hosts file's line that stands for its domain, as written.
pub open spec fn domain_word(line: Seq<char>) -> Option<Seq<char>> {
    let t = text::trimmed(line);
    let w = text::words(t);
    if t.len() == 0 || t[0] == '#' || w.len() < 2 {
        None
    } else {
        Some(w[1])
    }
}

/// Reads the domain of a line, as written.
pub fn read_line(line: &str) -> (r: Option<String>)
    ensures
        match r {
            Some(d) => domain_word(line@) == Some(d@),
            None => domain_word(line@) is None,
        },
{
    let t = text::trim(line);
    let v = text::chars_of(t.as_str());
    if v.len() == 0 || v[0] == '#' {
        return None;
    }
    let words = text::words_of(v.as_slice());
    assert(words@.len() == text::words(t@).len());
    if words.len() < 2 {
        return None;
    }
    assert(text::views(words@)[1] == words@[1]@);
    Some(text::string_of(words[1].as_slice()))
}

fn add_line(domains: &mut DomainSet, line: &str, cached: bool)
    requires
        old(domains).wf(),
    ensures
        final(domains).wf(),
        final(domains)@ == match line_domain(line@) {
            Some(d) => if accepted(d, cached) {
                with_domain(old(domains)@, d)
            } else {
                old(domains)@
            },
            None => old(domains)@,
        },
{
    if let Some(word) = read_line(line) {
        let domain = text::to_lowercase(word.as_str());
        if is_accepted(domain.as_str(), cached) {
            domains.insert(domain);
        }
    }
}

/// Parse a hosts-format blocklist into the domains it blocks.
///
/// Expected line format:  `127.0.0.1 ad.example.com`
/// Lines starting with `#` or empty lines are skipped.
pub fn parse_hosts_file(content: &str) -> (r: DomainSet)
    ensures
        r.wf(),
        r@ == listed(text::lines(content@), false),
{
    let chars = text::chars_of(content);
    let lines = text::lines_of(chars.as_slice());
    let ghost all = text::lines(content@);
    let mut domains = DomainSet::new();
    let mut i: usize = 0;
    while i < lines.len()
        invariant
            domains.wf(),
            all == text::views(lines@),
            i <= lines@.len(),
            domains@ == listed(all.take(i as int), false),
        decreases lines@.len() - i,
    {
        assert(all.take(i + 1).drop_last() =~= all.take(i as int));
        assert(all[i as int] == lines@[i as int]@);
        let line = text::string_of(lines[i].as_slice());
        add_line(&mut domains, line.as_str(), false);
        i += 1;
    }
    assert(all.take(i as int) =~= all);
    domains
}

/// Load the blocklist from the readable lines of the cache file; there are
/// none where the file is missing.
pub fn load_cached_blocklist(lines: &Vec<String>) -> (r: DomainSet)
    ensures
        r.wf(),
        r@ == listed(text::texts(lines@), true),
{
    let ghost all = text::texts(lines@);
    let mut domains = DomainSet::new();
    let mut i: usize = 0;
    while i < lines.len()
        invariant
            domains.wf(),
            all == text::texts(lines@),
            i <= lines@.len(),
            domains@ == listed(all.take(i as int), true),
        decreases lines@.len() - i,
    {
        assert(all.take(i + 1).drop_last() =~= all.take(i as int));
        assert(all[i as int] == lines@[i as int]@);
        add_line(&mut domains, lines[i].as_str(), true);
        i += 1;
    }
    assert(all.take(i as int) =~= all);
    domains
}

/// The domains in use: those loaded, or those of the cache where none are.
pub open spec fn loaded(domains: Seq<Seq<char>>, cached: Seq<Seq<char>>) -> Seq<Seq<char>> {
    if domains.len() == 0 {
        listed(cached, true)
    } else {
        domains
    }
}

/// Initialise the domains from the lines of the cache file, unless there are
/// some already.
pub fn ensure_domains_loaded(domains: &mut DomainSet, cached: &Vec<String>)
    requires
        old(domains).wf(),
    ensures
        final(domains).wf(),
        final(domains)@ == loaded(old(domains)@, text::texts(cached@)),
{
    if domains.len() == 0 {
        *domains = load_cached_blocklist(cached);
    }
}

/// Return the number of blocked domains currently loaded.
pub fn blocklist_domain_count(domains: &mut DomainSet, cached: &Vec<String>) -> (n: usize)
    requires
        old(domains).wf(),
    ensures
        final(domains).wf(),
        final(domains)@ == loaded(old(domains)@, text::texts(cached@)),
        n == final(domains)@.len(),
{
    ensure_domains_loaded(domains, cached);
    domains.len()
}

// Refreshing.

/// A program that fetches the blocklist to its output.
pub struct FetchCommand {
    pub program: &'static str,
    pub args: Vec<&'static str>,
}

/// The programs that fetch the blocklist, to be tried in order until one of
/// them succeeds.
pub fn fetch_commands() -> (r: Vec<FetchCommand>)
    ensures
        r@.len() == 2,
        r@[0].program@ == "curl"@,
        webview::patterns(r@[0].args@) == seq![
            "-sL"@,
            "--connect-timeout"@,
            "10"@,
            "--max-time"@,
            "30"@,
            BLOCKLIST_URL@,
        ],
        r@[1].program@ == "wget"@,
        webview::patterns(r@[1].args@) == seq!["-qO-"@, "--timeout=10"@, BLOCKLIST_URL@],
{
    let mut curl: Vec<&'static str> = Vec::new();
    curl.push("-sL");
    curl.push("--connect-timeout");
    curl.push("10");
    curl.push("--max-time");
    curl.push("30");
    curl.push(BLOCKLIST_URL);
    let mut wget: Vec<&'static str> = Vec::new();
    wget.push("-qO-");
    wget.push("--timeout=10");
    wget.push(BLOCKLIST_URL);
    assert(webview::patterns(curl@) =~= seq![
        "-sL"@,
        "--connect-timeout"@,
        "10"@,
        "--max-time"@,
        "30"@,
        BLOCKLIST_URL@,
    ]);
    assert(webview::patterns(wget@) =~= seq!["-qO-"@, "--timeout=10"@, BLOCKLIST_URL@]);
    let mut r: Vec<FetchCommand> = Vec::new();
    r.push(FetchCommand { program: "curl", args: curl });
    r.push(FetchCommand { program: "wget", args: wget });
    r
}

/// Refresh the blocklist with what was fetched, if anything was. Returns the
/// number of domains loaded: none where nothing was fetched.
pub fn refresh_blocklist(domains: &mut DomainSet, fetched: Option<&str>) -> (n: usize)
    requires
        old(domains).wf(),
    ensures
        final(domains).wf(),
        match fetched {
            Some(content) => final(domains)@ == listed(text::lines(content@), false) && n
                == final(domains)@.len(),
            None => final(domains)@ == old(domains)@ && n == 0,
        },
{
    match fetched {
        Some(content) => {
            *domains = parse_hosts_file(content);
            domains.len()
        },
        None => 0,
    }
}

// Scripts and rules.

/// The parts, with `sep` between each two.
pub open spec fn joined_with(parts: Seq<Seq<char>>, sep: Seq<char>) -> Seq<char>
    decreases parts.len(),
{
    if parts.len() == 0 {
        Seq::empty()
    } else if parts.len() == 1 {
        parts[0]
    } else {
        joined_with(parts.drop_last(), sep) + sep + parts.last()
    }
}

/// A domain as an item of the script's list.
pub open spec fn script_item(domain: Seq<char>) -> Seq<char> {
    "\""@ + script::double_quoted(domain) + "\""@
}

/// The domains as items of the script's list.
pub open spec fn script_items(domains: Seq<Seq<char>>) -> Seq<Seq<char>> {
    domains.map_values(|d: Seq<char>| script_item(d))
}

/// The few domains that are blocked where no list is loaded.
pub const FALLBACK_DOMAINS: [&'static str; 8] = [
    "doubleclick.net",
    "googlesyndication.com",
    "googleadservices.com",
    "adnxs.com",
    "advertising.com",
    "outbrain.com",
    "taboola.com",
    "amazon-adsystem.com",
];

/// The domains that the script blocks.
pub open spec fn script_domains(domains: Seq<Seq<char>>) -> Seq<Seq<char>> {
    if domains.len() == 0 {
        webview::patterns(FALLBACK_DOMAINS@)
    } else {
        domains
    }
}

/// The blocker script up to its list of domains.
pub const BLOCKER_HEAD: &'static str = r#"(function() {
    'use strict';

    const blockedDomains = new Set(["#;

/// The blocker script behind its list of domains.
pub const BLOCKER_TAIL: &'static str = r#"]);
    const pageDomain = location.hostname.toLowerCase();

    // Extract the registrable domain (eTLD+1 approximation).
    function getBaseDomain(hostname) {
        const parts = hostname.split('.');
        if (parts.length <= 2) return hostname;
        return parts.slice(-2).join('.');
    }

    const pageBase = getBaseDomain(pageDomain);

    function isDomainBlocked(hostname) {
        if (!hostname) return false;
        hostname = hostname.toLowerCase();
        // Never block first-party requests.
        if (hostname === pageDomain) return false;
        if (getBaseDomain(hostname) === pageBase) return false;
        // Exact match.
        if (blockedDomains.has(hostname)) return true;
        // Check parent domains (e.g. sub.ad.com → ad.com).
        const parts = hostname.split('.');
        for (let i = 1; i < parts.length - 1; i++) {
            if (blockedDomains.has(parts.slice(i).join('.'))) return true;
        }
        return false;
    }

    function isUrlBlocked(url) {
        if (!url) return false;
        try {
            const u = new URL(url, location.href);
            // Only block http/https — never block data:, blob:, etc.
            if (u.protocol !== 'http:' && u.protocol !== 'https:') return false;
            return isDomainBlocked(u.hostname);
        } catch (e) {
            return false;
        }
    }

    // Hide (don't remove) iframes pointing to ad domains.
    // Removing elements can break page JS that references them.
    function hideBlockedIframes() {
        document.querySelectorAll('iframe[src]').forEach(function(el) {
            if (el.dataset.wynnChecked) return;
            el.dataset.wynnChecked = '1';
            if (isUrlBlocked(el.src)) {
                el.style.setProperty('display', 'none', 'important');
                el.style.setProperty('height', '0', 'important');
                el.style.setProperty('width', '0', 'important');
                el.removeAttribute('src');
            }
        });
    }

    // Block fetch() to ad domains.
    const origFetch = window.fetch;
    window.fetch = function(input, init) {
        try {
            const url = (typeof input === 'string') ? input : (input && input.url);
            if (isUrlBlocked(url)) {
                return new Response('', { status: 200, statusText: 'Blocked' });
            }
        } catch(e) {}
        return origFetch.apply(this, arguments);
    };

    // Block XMLHttpRequest to ad domains.
    const origOpen = XMLHttpRequest.prototype.open;
    XMLHttpRequest.prototype.open = function(method, url) {
        if (typeof url === 'string' && isUrlBlocked(url)) {
            // Redirect to an empty data URI instead of the ad server.
            return origOpen.call(this, method, 'data:text/plain,');
        }
        return origOpen.apply(this, arguments);
    };

    // Initial pass.
    if (document.readyState === 'loading') {
        document.addEventListener('DOMContentLoaded', hideBlockedIframes);
    } else {
        hideBlockedIframes();
    }

    // Observe for dynamically inserted iframes only.
    // Debounce so we don't fire on every tiny DOM change.
    let debounceTimer = null;
    const observer = new MutationObserver(function() {
        if (debounceTimer) return;
        debounceTimer = setTimeout(function() {
            debounceTimer = null;
            hideBlockedIframes();
        }, 250);
    });
    observer.observe(document.documentElement, {
        childList: true,
        subtree: true,
    });
})();
"#;

/// The script that keeps pages from fetching from blocked domains.
pub open spec fn blocker_js(domains: Seq<Seq<char>>) -> Seq<char> {
    BLOCKER_HEAD@ + joined_with(script_items(script_domains(domains)), ","@) + BLOCKER_TAIL@
}

fn append_item(list: &mut String, first: bool, domain: &str)
    ensures
        final(list)@ == old(list)@ + (if first {
            Seq::empty()
        } else {
            ","@
        }) + script_item(domain@),
{
    let ghost start = list@;
    if !first {
        list.append(",");
    }
    let quoted = script::quote_double(domain);
    list.append("\"");
    list.append(quoted.as_str());
    list.append("\"");
    assert(list@ =~= start + (if first {
        Seq::empty()
    } else {
        ","@
    }) + script_item(domain@));
}

/// Generate the blocker script with the current domains embedded.
pub fn generate_blocker_js(domains: &DomainSet) -> (r: String)
    ensures
        r@ == blocker_js(domains@),
{
    let mut list = String::new();
    let ghost items = script_items(script_domains(domains@));
    let mut i: usize = 0;
    assert(list@ =~= joined_with(items.take(0), ","@));
    if domains.len() == 0 {
        while i < 8
            invariant
                domains@.len() == 0,
                items == script_items(webview::patterns(FALLBACK_DOMAINS@)),
                i <= 8,
                list@ == joined_with(items.take(i as int), ","@),
            decreases 8 - i,
        {
            let d = FALLBACK_DOMAINS[i];
            assert(items[i as int] == script_item(d@));
            append_item(&mut list, i == 0, d);
            proof {
                lemma_join_step(items, i as int, ","@);
            }
            i += 1;
        }
    } else {
        while i < domains.order.len()
            invariant
                domains@ == text::texts(domains.order@),
                items == script_items(domains@),
                i <= domains.order@.len(),
                list@ == joined_with(items.take(i as int), ","@),
            decreases domains.order@.len() - i,
        {
            assert(items[i as int] == script_item(domains.order@[i as int]@));
            append_item(&mut list, i == 0, domains.order[i].as_str());
            proof {
                lemma_join_step(items, i as int, ","@);
            }
            i += 1;
        }
    }
    assert(items.take(i as int) =~= items);
    let mut r = BLOCKER_HEAD.to_owned();
    r.append(list.as_str());
    r.append(BLOCKER_TAIL);
    r
}

/// Joining one part more.
proof fn lemma_join_step(parts: Seq<Seq<char>>, i: int, sep: Seq<char>)
    requires
        0 <= i < parts.len(),
    ensures
        joined_with(parts.take(i + 1), sep) == joined_with(parts.take(i), sep) + (if i == 0 {
            Seq::empty()
        } else {
            sep
        }) + parts[i],
{
    let now = parts.take(i + 1);
    assert(now.drop_last() =~= parts.take(i));
    if i == 0 {
        assert(parts.take(0) =~= Seq::empty());
        assert(joined_with(now, sep) =~= joined_with(parts.take(0), sep) + Seq::empty() + parts[0]);
    }
}

/// Domains that must never be blocked: challenges load from them.
pub const CLOUDFLARE_DOMAINS: [&'static str; 6] = [
    "challenges.cloudflare.com",
    "cloudflare.com",
    "cloudflareinsights.com",
    "static.cloudflareinsights.com",
    "cdnjs.cloudflare.com",
    "cloudflare-dns.com",
];

/// Whether a domain is one of those that must never be blocked, or lies under
/// one of them.
pub open spec fn cloudflare(domain: Seq<char>) -> bool {
    exists|i: int|
        0 <= i < 6 && (domain == (#[trigger] CLOUDFLARE_DOMAINS@[i])@ || text::ends(
            domain,
            "."@ + CLOUDFLARE_DOMAINS@[i]@,
        ))
}

/// The content rule for a domain up to the domain.
pub const RULE_HEAD: &'static str = r#"{"trigger":{"url-filter":"^https?://([^/]*\\.)?"#;

/// The content rule for a domain behind the domain. An address that WebKit
/// matches against has a port or a path behind its host, so the host ends where
/// the domain does.
pub const RULE_TAIL: &'static str = r##"[/:?#]","load-type":["third-party"],"resource-type":["document","image","style-sheet","script","font","raw","svg-document","media","popup"]},"action":{"type":"block"}}"##;

/// Whether a character means something else than itself in a regex.
pub open spec fn regex_sign(c: char) -> bool {
    ||| c == '.'
    ||| c == '*'
    ||| c == '+'
    ||| c == '?'
    ||| c == '^'
    ||| c == '$'
    ||| c == '('
    ||| c == ')'
    ||| c == '['
    ||| c == ']'
    ||| c == '{'
    ||| c == '}'
    ||| c == '|'
}

/// The regex that matches one character, as it is written in a JSON string.
pub open spec fn filter_char(c: char) -> Seq<char> {
    if regex_sign(c) {
        seq!['\\', '\\', c]
    } else if c == '\\' {
        seq!['\\', '\\', '\\', '\\']
    } else if c == '"' {
        seq!['\\', '"']
    } else {
        seq![c]
    }
}

/// The regex that matches a domain, as it is written in a JSON string.
pub open spec fn filter_text(domain: Seq<char>) -> Seq<char>
    decreases domain.len(),
{
    if domain.len() == 0 {
        Seq::empty()
    } else {
        filter_text(domain.drop_last()) + filter_char(domain.last())
    }
}

/// The content rule that blocks third-party requests to a domain and to what
/// lies under it.
pub open spec fn block_rule(domain: Seq<char>) -> Seq<char> {
    RULE_HEAD@ + filter_text(domain) + RULE_TAIL@
}

/// The content rules for the domains that may be blocked.
pub open spec fn block_rules(domains: Seq<Seq<char>>) -> Seq<Seq<char>>
    decreases domains.len(),
{
    if domains.len() == 0 {
        Seq::empty()
    } else {
        let before = block_rules(domains.drop_last());
        if cloudflare(domains.last()) {
            before
        } else {
            before.push(block_rule(domains.last()))
        }
    }
}

/// The content rules as one text.
pub open spec fn content_blocker_json(domains: Seq<Seq<char>>) -> Seq<char> {
    "["@ + joined_with(block_rules(domains), ","@) + "]"@
}

/// Whether a domain must never be blocked.
pub fn is_cloudflare(domain: &str) -> (r: bool)
    ensures
        r == cloudflare(domain@),
{
    let mut i: usize = 0;
    while i < 6
        invariant
            i <= 6,
            forall|k: int|
                0 <= k < i ==> !(domain@ == (#[trigger] CLOUDFLARE_DOMAINS@[k])@ || text::ends(
                    domain@,
                    "."@ + CLOUDFLARE_DOMAINS@[k]@,
                )),
        decreases 6 - i,
    {
        let known = CLOUDFLARE_DOMAINS[i];
        let suffix = text::joined(".", known);
        assert(known == CLOUDFLARE_DOMAINS@[i as int]);
        if text::same(domain, known) || text::finishes(domain, suffix.as_str()) {
            return true;
        }
        i += 1;
    }
    false
}

fn is_regex_sign(c: char) -> (r: bool)
    ensures
        r == regex_sign(c),
{
    c == '.' || c == '*' || c == '+' || c == '?' || c == '^' || c == '$' || c == '(' || c == ')'
        || c == '[' || c == ']' || c == '{' || c == '}' || c == '|'
}

/// Writes the regex that matches a domain, for a JSON string.
pub fn filter_pattern(domain: &str) -> (r: String)
    ensures
        r@ == filter_text(domain@),
{
    let v = text::chars_of(domain);
    let mut r = String::new();
    let mut i: usize = 0;
    assert(r@ =~= filter_text(domain@.take(0)));
    while i < v.len()
        invariant
            v@ == domain@,
            i <= v@.len(),
            r@ == filter_text(domain@.take(i as int)),
        decreases v@.len() - i,
    {
        let ghost before = r@;
        let c: char = v[i];
        assert(domain@.take(i + 1).drop_last() =~= domain@.take(i as int));
        if is_regex_sign(c) {
            r.push('\\');
            r.push('\\');
            r.push(c);
        } else if c == '\\' {
            r.push('\\');
            r.push('\\');
            r.push('\\');
            r.push('\\');
        } else if c == '"' {
            r.push('\\');
            r.push('"');
        } else {
            r.push(c);
        }
        assert(r@ =~= before + filter_char(c));
        i += 1;
    }
    assert(domain@.take(i as int) =~= domain@);
    r
}

/// Generate content blocker rules, in the JSON format that WebKit compiles,
/// from the domains.
///
/// Each rule has:
///   - `trigger.url-filter`: regex matching the domain
///   - `trigger.load-type`: ["third-party"] to avoid blocking first-party
///   - `trigger.resource-type`: all sub-resource types
///   - `action.type`: "block"
pub fn generate_content_blocker_json(domains: &DomainSet) -> (r: String)
    ensures
        r@ == content_blocker_json(domains@),
{
    let mut r = "[".to_owned();
    let ghost all = domains@;
    let mut first = true;
    let mut i: usize = 0;
    assert(block_rules(all.take(0)) =~= Seq::empty());
    assert(r@ =~= "["@ + joined_with(block_rules(all.take(0)), ","@));
    while i < domains.order.len()
        invariant
            all == text::texts(domains.order@),
            all == domains@,
            i <= domains.order@.len(),
            first == (block_rules(all.take(i as int)).len() == 0),
            r@ == "["@ + joined_with(block_rules(all.take(i as int)), ","@),
        decreases domains.order@.len() - i,
    {
        let ghost before = r@;
        let ghost rules = block_rules(all.take(i as int));
        assert(all.take(i + 1).drop_last() =~= all.take(i as int));
        assert(all[i as int] == domains.order@[i as int]@);
        let domain = domains.order[i].as_str();
        if !is_cloudflare(domain) {
            if !first {
                r.append(",");
            }
            let pattern = filter_pattern(domain);
            r.append(RULE_HEAD);
            r.append(pattern.as_str());
            r.append(RULE_TAIL);
            first = false;
            proof {
                let now = block_rules(all.take(i + 1));
                let rule = block_rule(all[i as int]);
                assert(now == rules.push(rule));
                assert(now.drop_last() =~= rules);
                if rules.len() == 0 {
                    assert(joined_with(now, ","@) == rule);
                    assert(joined_with(rules, ","@) =~= Seq::empty());
                    assert(r@ =~= "["@ + joined_with(now, ","@));
                } else {
                    assert(r@ =~= "["@ + joined_with(now, ","@));
                }
            }
        }
        i += 1;
    }
    assert(all.take(i as int) =~= all);
    r.append("]");
    r
}

/// The rules to compile into WebKit's content filter; none where no domain is
/// blocked.
pub fn apply_native_filter(domains: &mut DomainSet, cached: &Vec<String>) -> (r: Option<String>)
    requires
        old(domains).wf(),
    ensures
        final(domains).wf(),
        final(domains)@ == loaded(old(domains)@, text::texts(cached@)),
        match r {
            Some(json) => final(domains)@.len() > 0 && json@ == content_blocker_json(
                final(domains)@,
            ),
            None => final(domains)@.len() == 0,
        },
{
    ensure_domains_loaded(domains, cached);
    if domains.len() == 0 {
        None
    } else {
        Some(generate_content_blocker_json(domains))
    }
}

/// Hides the elements that ad networks put into pages.
pub const AD_HIDING_CSS: &'static str = r#"
/* Google Ads */
ins.adsbygoogle,
.adsbygoogle,
[id^="google_ads_iframe"],
[id^="div-gpt-ad"],

/* Common ad network containers (exact or prefix matches only) */
[id^="taboola-"],
.taboola-widget,
[id^="outbrain_widget"],
.OUTBRAIN,
.ob-widget,
.ob-widget-items-container
{
    display: none !important;
    visibility: hidden !important;
    height: 0 !important;
    max-height: 0 !important;
    overflow: hidden !important;
    pointer-events: none !important;
}
"#;

/// Hides ads on YouTube.
pub const YOUTUBE_AD_CSS: &'static str = r#"
/* Pre-roll / mid-roll ad overlay & container */
.video-ads,
.ytp-ad-module,
.ytp-ad-overlay-container,
.ytp-ad-overlay-slot,
.ytp-ad-text-overlay,
.ytp-ad-image-overlay,

/* Skip button area — we auto-click it via JS, but hide any residual */
.ytp-ad-skip-button-modern,
.ytp-ad-preview-container,

/* Companion ads (sidebar ads that appear alongside video) */
#companion,
#player-ads,
ytd-companion-slot-renderer,
ytd-action-companion-ad-renderer,
ytd-promoted-sparkles-web-renderer,

/* Banner ads and display ads in feed */
ytd-banner-promo-renderer,
ytd-statement-banner-renderer,
ytd-in-feed-ad-layout-renderer,
ytd-ad-slot-renderer,
ytd-display-ad-renderer,
ytd-promoted-video-renderer,
ytd-carousel-ad-renderer,

/* Masthead ad (homepage hero ad) */
#masthead-ad,
ytd-primetime-promo-renderer,

/* "Ad" badge and labels */
.ytp-ad-badge,
.ytp-ad-visit-advertiser-button,

/* Merch shelf and paid promotions */
ytd-merch-shelf-renderer,
.ytd-promoted-sparkles-text-search-renderer,

/* Survey / feedback ads */
.ytp-ad-survey,
tp-yt-paper-dialog.ytd-popup-container
{
    display: none !important;
    visibility: hidden !important;
    height: 0 !important;
    max-height: 0 !important;
    overflow: hidden !important;
    pointer-events: none !important;
}

/* Make the ad player progress bar invisible */
.ytp-ad-progress-list {
    display: none !important;
}
"#;

/// Mutes, speeds through and skips ads on YouTube.
pub const YOUTUBE_AD_JS: &'static str = r#"(function() {
    'use strict';

    let savedVolume = -1;

    function trySkipAd() {
        const player = document.querySelector('.html5-video-player');
        if (!player) return;

        const isAd = player.classList.contains('ad-showing') ||
                     player.classList.contains('ad-interrupting');

        if (isAd) {
            const video = player.querySelector('video');
            if (video) {
                // Save volume on first detection, then mute.
                if (savedVolume < 0) {
                    savedVolume = video.volume;
                }
                video.volume = 0;

                // Speed through the ad as fast as possible.
                try { video.playbackRate = 16; } catch(e) {}

                // If we can determine the ad duration, skip to end.
                if (video.duration && isFinite(video.duration)) {
                    video.currentTime = video.duration;
                }
            }

            // Click the skip button if available.
            const skipSelectors = [
                '.ytp-skip-ad-button',
                '.ytp-ad-skip-button',
                '.ytp-ad-skip-button-modern',
                'button.ytp-ad-skip-button-modern',
                '.ytp-skip-ad-button__text',
                '[id="skip-button:a"] button',
                '[id="skip-button:b"] button'
            ];
            for (const sel of skipSelectors) {
                const btn = document.querySelector(sel);
                if (btn) {
                    btn.click();
                    break;
                }
            }

            // Also dismiss any overlay ads.
            const closeOverlay = document.querySelector('.ytp-ad-overlay-close-button');
            if (closeOverlay) closeOverlay.click();
        } else {
            // Ad finished — restore volume.
            if (savedVolume >= 0) {
                const video = player.querySelector('video');
                if (video) {
                    video.volume = savedVolume;
                    try { video.playbackRate = 1; } catch(e) {}
                }
                savedVolume = -1;
            }
        }
    }

    // Poll for ads.  MutationObserver on class changes is less
    // reliable here because YouTube's player mutates heavily.
    setInterval(trySkipAd, 500);

    // Also run on page navigation (YouTube is a SPA).
    const origPushState = history.pushState;
    history.pushState = function() {
        origPushState.apply(this, arguments);
        setTimeout(trySkipAd, 1000);
    };
})();"#;

/// Hides ads in the Spotify web player.
pub const SPOTIFY_AD_CSS: &'static str = r#"
/* Upgrade / Premium upsell banners */
.upgrade-cta,
[data-testid="upgrade-button"],
[data-testid="upgrade-menu-item"],
.main-premiumTrialBanner-container,

/* Sponsored / ad slots in browse and playlists */
[data-testid="ad-slot-container"],
.sponsor-container,
.desktopLayoutRightSidebar [aria-label="Sponsored"],

/* Leaderboard / display ad iframe at bottom */
.main-leaderboardAd-container,
iframe[src*="spclient"],

/* "Sponsored" labels and recommendation cards that are ads */
[aria-label="Sponsored"],
[data-testid="hpto-banner"],

/* Free-tier limitations nag */
.main-shuffleButton-disabled-overlay
{
    display: none !important;
    visibility: hidden !important;
    height: 0 !important;
    max-height: 0 !important;
    overflow: hidden !important;
    pointer-events: none !important;
}
"#;

/// The addresses of YouTube.
pub open spec fn youtube() -> Seq<Seq<char>> {
    seq!["https://*.youtube.com/*"@, "https://youtube.com/*"@]
}

/// The addresses of Spotify.
pub open spec fn spotify() -> Seq<Seq<char>> {
    seq!["https://*.spotify.com/*"@, "https://spotify.com/*"@]
}

/// A style sheet for every frame of the given addresses.
pub open spec fn style_sheet(source: Seq<char>, allow: Seq<Seq<char>>, block: Seq<Seq<char>>) -> Injected {
    Injected {
        kind: InjectionKind::StyleSheet,
        source,
        frames: InjectedFrames::AllFrames,
        allow,
        block,
    }
}

/// What ad blocking injects into pages.
pub open spec fn ad_rules(domains: Seq<Seq<char>>) -> Seq<Injected> {
    seq![
        style_sheet(AD_HIDING_CSS@, Seq::empty(), webview::challenge_frames()),
        webview::early_script(blocker_js(domains)),
        style_sheet(YOUTUBE_AD_CSS@, youtube(), Seq::empty()),
        Injected {
            kind: InjectionKind::ScriptAtEnd,
            source: YOUTUBE_AD_JS@,
            frames: InjectedFrames::TopFrame,
            allow: youtube(),
            block: Seq::empty(),
        },
        style_sheet(SPOTIFY_AD_CSS@, spotify(), Seq::empty()),
    ]
}

fn two_patterns(a: &'static str, b: &'static str) -> (r: Vec<&'static str>)
    ensures
        webview::patterns(r@) == seq![a@, b@],
{
    let mut r: Vec<&'static str> = Vec::new();
    r.push(a);
    r.push(b);
    assert(webview::patterns(r@) =~= seq![a@, b@]);
    r
}

fn new_style_sheet(source: &str, allow: Vec<&'static str>, block: Vec<&'static str>) -> (r: Injection)
    ensures
        r@ == style_sheet(source@, webview::patterns(allow@), webview::patterns(block@)),
{
    Injection {
        kind: InjectionKind::StyleSheet,
        source: source.to_owned(),
        frames: InjectedFrames::AllFrames,
        allow,
        block,
    }
}

/// What ad blocking injects into pages: the domain blocker, the cosmetic
/// filters and what is specific to YouTube and Spotify. The content filter is
/// applied beside it.
pub fn load_rules(domains: &mut DomainSet, cached: &Vec<String>) -> (r: Vec<Injection>)
    requires
        old(domains).wf(),
    ensures
        final(domains).wf(),
        final(domains)@ == loaded(old(domains)@, text::texts(cached@)),
        webview::injections_of(r@) == ad_rules(final(domains)@),
{
    ensure_domains_loaded(domains, cached);
    let js = generate_blocker_js(domains);
    let mut r: Vec<Injection> = Vec::new();
    let none: Vec<&'static str> = Vec::new();
    assert(webview::patterns(none@) =~= Seq::empty());
    r.push(new_style_sheet(AD_HIDING_CSS, none, webview::challenge_block_list()));
    r.push(webview::new_early_script(js.as_str()));
    let youtube_sites = two_patterns("https://*.youtube.com/*", "https://youtube.com/*");
    let none: Vec<&'static str> = Vec::new();
    assert(webview::patterns(none@) =~= Seq::empty());
    r.push(new_style_sheet(YOUTUBE_AD_CSS, youtube_sites, none));
    let none: Vec<&'static str> = Vec::new();
    assert(webview::patterns(none@) =~= Seq::empty());
    r.push(
        Injection {
            kind: InjectionKind::ScriptAtEnd,
            source: YOUTUBE_AD_JS.to_owned(),
            frames: InjectedFrames::TopFrame,
            allow: two_patterns("https://*.youtube.com/*", "https://youtube.com/*"),
            block: none,
        },
    );
    let spotify_sites = two_patterns("https://*.spotify.com/*", "https://spotify.com/*");
    let none: Vec<&'static str> = Vec::new();
    assert(webview::patterns(none@) =~= Seq::empty());
    r.push(new_style_sheet(SPOTIFY_AD_CSS, spotify_sites, none));
    assert(webview::injections_of(r@) =~= ad_rules(domains@));
    r
}

/// What a new content manager starts with: the ad-blocking rules where ad
/// blocking is enabled, else nothing.
pub fn create_content_manager(enabled: bool, domains: &mut DomainSet, cached: &Vec<String>) -> (r: Vec<
    Injection,
>)
    requires
        old(domains).wf(),
    ensures
        final(domains).wf(),
        enabled ==> final(domains)@ == loaded(old(domains)@, text::texts(cached@))
            && webview::injections_of(r@) == ad_rules(final(domains)@),
        !enabled ==> final(domains)@ == old(domains)@ && r@.len() == 0,
{
    if enabled {
        load_rules(domains, cached)
    } else {
        Vec::new()
    }
}

// The switch.

/// Check whether ad blocking is enabled.
pub fn is_enabled(s: &Settings) -> (r: bool)
    ensures
        r == settings::flag(s@, "adblock_enabled"@, true),
{
    settings::get_flag(s, "adblock_enabled", true)
}

/// Persist whether ad blocking is enabled.
pub fn set_enabled(s: &mut Settings, enabled: bool)
    ensures
        final(s)@ == old(s)@.insert("adblock_enabled"@, settings::flag_text(enabled)),
        settings::flag(final(s)@, "adblock_enabled"@, true) == enabled,
{
    proof {
        settings::law_flag_reads_back(s@, "adblock_enabled"@, enabled, true);
    }
    settings::set_flag(s, "adblock_enabled", enabled);
}

/// Path to the locally cached blocklist file.
pub fn blocklist_path(data_dir: &str) -> (r: String)
    ensures
        r@ == database::path_join(data_dir@, "blocklist.txt"@),
{
    database::join_path(data_dir, "blocklist.txt")
}

/// Path to the compiled content filter storage directory.
pub fn filter_store_path(data_dir: &str) -> (r: String)
    ensures
        r@ == database::path_join(data_dir@, "content-filters"@),
{
    database::join_path(data_dir, "content-filters")
}

// Laws.

proof fn lemma_with_domain(list: Seq<Seq<char>>, d: Seq<char>)
    requires
        list.no_duplicates(),
    ensures
        with_domain(list, d).no_duplicates(),
        with_domain(list, d).contains(d),
        forall|x: Seq<char>| with_domain(list, d).contains(x) <==> list.contains(x) || x == d,
{
    let now = with_domain(list, d);
    if !list.contains(d) {
        assert(now[list.len() as int] == d);
        assert forall|i: int, j: int| 0 <= i < now.len() && 0 <= j < now.len() && i != j implies now[i]
            != now[j] by {
            if i == list.len() {
                assert(list.contains(list[j]));
            }
            if j == list.len() {
                assert(list.contains(list[i]));
            }
        }
        assert forall|x: Seq<char>| now.contains(x) <==> list.contains(x) || x == d by {
            if now.contains(x) {
                let k = choose|k: int| 0 <= k < now.len() && now[k] == x;
                if k < list.len() {
                    assert(list[k] == x);
                }
            }
            if list.contains(x) {
                let k = choose|k: int| 0 <= k < list.len() && list[k] == x;
                assert(now[k] == x);
            }
        }
    }
}

/// A list of blocked domains holds each of them once, and holds exactly those
/// that some line names and that may be blocked.
pub proof fn law_listed(lines: Seq<Seq<char>>, cached: bool, d: Seq<char>)
    ensures
        listed(lines, cached).no_duplicates(),
        listed(lines, cached).contains(d) <==> accepted(d, cached) && exists|i: int|
            0 <= i < lines.len() && line_domain(#[trigger] lines[i]) == Some(d),
    decreases lines.len(),
{
    if lines.len() > 0 {
        let shorter = lines.drop_last();
        let last = lines.len() - 1;
        law_listed(shorter, cached, d);
        let before = listed(shorter, cached);
        if let Some(x) = line_domain(lines[last]) {
            lemma_with_domain(before, x);
        }
        if exists|i: int| 0 <= i < lines.len() && line_domain(#[trigger] lines[i]) == Some(d) {
            let i = choose|i: int| 0 <= i < lines.len() && line_domain(#[trigger] lines[i]) == Some(d);
            if i < last {
                assert(shorter[i] == lines[i]);
            }
        }
        if exists|i: int| 0 <= i < shorter.len() && line_domain(#[trigger] shorter[i]) == Some(d) {
            let i = choose|i: int|
                0 <= i < shorter.len() && line_domain(#[trigger] shorter[i]) == Some(d);
            assert(lines[i] == shorter[i]);
        }
    }
}

/// An item of the blocker script's list means the domain it was made from.
pub proof fn law_script_item_means_its_domain(domain: Seq<char>)
    requires
        forall|i: int| 0 <= i < domain.len() ==> domain[i] != '\n' && domain[i] != '\r',
    ensures
        script_item(domain).first() == '"',
        script_item(domain).last() == '"',
        script::literal_value(
            script_item(domain).subrange(1, script_item(domain).len() - 1),
            '"',
        ) == Some(domain),
{
    reveal_strlit("\"");
    let item = script_item(domain);
    assert(item.subrange(1, item.len() - 1) =~= script::double_quoted(domain));
    script::law_double_quoted_means_itself(domain);
}

/// No content rule is made for a domain that must never be blocked.
pub proof fn law_cloudflare_is_never_blocked(domains: Seq<Seq<char>>, d: Seq<char>)
    requires
        cloudflare(d),
    ensures
        block_rules(domains.push(d)) == block_rules(domains),
        content_blocker_json(domains.push(d)) == content_blocker_json(domains),
{
    assert(domains.push(d).drop_last() =~= domains);
}

/// Without domains there are no content rules, and still a script that blocks
/// the worst.
pub proof fn law_empty_list()
    ensures
        content_blocker_json(Seq::empty()) == "[]"@,
        blocker_js(Seq::empty()) == blocker_js(webview::patterns(FALLBACK_DOMAINS@)),
{
    assert(block_rules(Seq::empty()) =~= Seq::empty());
    assert(joined_with(Seq::empty(), ","@) =~= Seq::empty());
    reveal_strlit("[");
    reveal_strlit("]");
    reveal_strlit("[]");
    assert("["@ + Seq::<char>::empty() + "]"@ =~= "[]"@);
}

proof fn lemma_trimmed_line(before: Seq<char>, first: Seq<char>, rest: Seq<char>) -> (cut: Seq<char>)
    requires
        forall|k: int| 0 <= k < before.len() ==> text::white(#[trigger] before[k]),
        first.len() > 0,
        !text::white(first[0]),
        !text::white(first.last()),
    ensures
        text::trimmed(before + first + rest) == first + cut,
        cut.len() <= rest.len(),
        cut == rest.take(cut.len() as int),
        forall|k: int| cut.len() <= k < rest.len() ==> text::white(#[trigger] rest[k]),
{
    let line = before + first + rest;
    text::law_trimmed(line);
    let (a, b) = choose|a: int, b: int|
        {
            &&& 0 <= a <= b <= line.len()
            &&& text::trimmed(line) == #[trigger] line.subrange(a, b)
            &&& forall|k: int| 0 <= k < a || b <= k < line.len() ==> text::white(#[trigger] line[k])
            &&& a < b ==> !text::white(line[a]) && !text::white(line[b - 1])
        };
    let n = before.len() as int;
    let m = n + first.len();
    assert(line[n] == first[0]);
    assert(line[m - 1] == first.last());
    assert(a <= n && m <= b);
    if a < n {
        assert(line[a] == before[a]);
    }
    let cut = rest.take(b - m);
    assert(line.subrange(a, b) =~= first + cut);
    assert forall|k: int| cut.len() <= k < rest.len() implies text::white(#[trigger] rest[k]) by {
        assert(line[m + k] == rest[k]);
    }
    cut
}

/// A line that gives an address to a name names a domain: the second word,
/// in lower case, whatever stands behind it.
pub proof fn law_line_names_a_domain(
    before: Seq<char>,
    address: Seq<char>,
    gap: Seq<char>,
    name: Seq<char>,
    rest: Seq<char>,
)
    requires
        forall|k: int| 0 <= k < before.len() ==> text::white(#[trigger] before[k]),
        forall|k: int| 0 <= k < address.len() ==> !text::white(#[trigger] address[k]),
        address.len() > 0,
        address[0] != '#',
        forall|k: int| 0 <= k < gap.len() ==> text::white(#[trigger] gap[k]),
        gap.len() > 0,
        forall|k: int| 0 <= k < name.len() ==> !text::white(#[trigger] name[k]),
        name.len() > 0,
        rest.len() > 0 ==> text::white(rest[0]),
    ensures
        line_domain(before + address + gap + name + rest) == Some(text::lowercase(name)),
        domain_word(before + address + gap + name + rest) == Some(name),
{
    let first = address + gap + name;
    let line = before + address + gap + name + rest;
    assert(line =~= before + first + rest);
    assert(first[0] == address[0]);
    assert(first.last() == name.last());
    assert(!text::white(address[0]));
    assert(!text::white(name[name.len() - 1]));
    let cut = lemma_trimmed_line(before, first, rest);
    let t = text::trimmed(line);
    let none = Seq::<char>::empty();
    assert(cut.len() > 0 ==> cut[0] == rest[0]);
    text::law_words(gap, name, cut);
    text::law_words(none, address, gap + name + cut);
    assert(none + address + (gap + name + cut) =~= t);
    let w = text::words(t);
    assert(w =~= seq![address] + (seq![name] + text::words(cut)));
    assert(t[0] == address[0]);
    assert(w.len() >= 2);
    assert(w[1] == name);
}

/// A blank line, a comment and a line of a single word name no domain.
pub proof fn law_line_names_no_domain(before: Seq<char>, first: Seq<char>, rest: Seq<char>)
    requires
        forall|k: int| 0 <= k < before.len() ==> text::white(#[trigger] before[k]),
        forall|k: int| 0 <= k < first.len() ==> !text::white(#[trigger] first[k]),
    ensures
        line_domain(before) is None,
        first.len() > 0 && first[0] == '#' ==> line_domain(before + first + rest) is None,
        first.len() > 0 && (forall|k: int| 0 <= k < rest.len() ==> text::white(#[trigger] rest[k]))
            ==> line_domain(before + first + rest) is None,
{
    text::law_trimmed(before);
    let (a, b) = choose|a: int, b: int|
        {
            &&& 0 <= a <= b <= before.len()
            &&& text::trimmed(before) == #[trigger] before.subrange(a, b)
            &&& forall|k: int| 0 <= k < a || b <= k < before.len() ==> text::white(#[trigger] before[k])
            &&& a < b ==> !text::white(before[a]) && !text::white(before[b - 1])
        };
    if a < b {
        assert(text::white(before[a]));
    }
    if first.len() > 0 {
        assert(!text::white(first[0]));
        assert(!text::white(first[first.len() - 1]));
        let cut = lemma_trimmed_line(before, first, rest);
        let t = text::trimmed(before + first + rest);
        assert(t[0] == first[0]);
        if forall|k: int| 0 <= k < rest.len() ==> text::white(#[trigger] rest[k]) {
            assert(t.last() == first.last()) by {
                text::law_trimming_is_about_the_ends(before, first, rest);
            }
            text::law_trimming_is_about_the_ends(before, first, rest);
            let none = Seq::<char>::empty();
            text::law_words(none, first, none);
            assert(none + first + none =~= t);
            assert(text::words(none) =~= Seq::<Seq<char>>::empty());
            assert(text::words(t).len() == 1);
        }
    }
}

/// Every name is blocked but those that a hosts file gives to the machine
/// itself; of the cached list, every name but `localhost`.
pub proof fn law_accepted(d: Seq<char>)
    ensures
        accepted(d, false) <==> d.len() > 0 && !seq![
            "localhost"@,
            "localhost.localdomain"@,
            "broadcasthost"@,
            "local"@,
        ].contains(d),
        accepted(d, true) <==> d.len() > 0 && d != "localhost"@,
{
    let own = seq!["localhost"@, "localhost.localdomain"@, "broadcasthost"@, "local"@];
    assert(own[0] == "localhost"@);
    assert(own[1] == "localhost.localdomain"@);
    assert(own[2] == "broadcasthost"@);
    assert(own[3] == "local"@);
}

/// A list that was loaded is kept, and the cache is read in place of an empty
/// one.
pub proof fn law_loaded(domains: Seq<Seq<char>>, cached: Seq<Seq<char>>)
    ensures
        domains.len() > 0 ==> loaded(domains, cached) == domains,
        domains.len() == 0 ==> loaded(domains, cached) == listed(cached, true),
{
}

/// What must never be blocked: six names, and what lies under them.
pub proof fn law_exempt(d: Seq<char>)
    ensures
        cloudflare(d) <==> {
            ||| d == "challenges.cloudflare.com"@
            ||| d == "cloudflare.com"@
            ||| d == "cloudflareinsights.com"@
            ||| d == "static.cloudflareinsights.com"@
            ||| d == "cdnjs.cloudflare.com"@
            ||| d == "cloudflare-dns.com"@
            ||| text::ends(d, "."@ + "challenges.cloudflare.com"@)
            ||| text::ends(d, "."@ + "cloudflare.com"@)
            ||| text::ends(d, "."@ + "cloudflareinsights.com"@)
            ||| text::ends(d, "."@ + "static.cloudflareinsights.com"@)
            ||| text::ends(d, "."@ + "cdnjs.cloudflare.com"@)
            ||| text::ends(d, "."@ + "cloudflare-dns.com"@)
        },
{
    let names = CLOUDFLARE_DOMAINS@;
    assert(names[0]@ == "challenges.cloudflare.com"@);
    assert(names[1]@ == "cloudflare.com"@);
    assert(names[2]@ == "cloudflareinsights.com"@);
    assert(names[3]@ == "static.cloudflareinsights.com"@);
    assert(names[4]@ == "cdnjs.cloudflare.com"@);
    assert(names[5]@ == "cloudflare-dns.com"@);
}

/// Not being exempt.
pub open spec fn may_be_blocked() -> spec_fn(Seq<char>) -> bool {
    |d: Seq<char>| !cloudflare(d)
}

/// The rules of a list are those of its parts, in order: one for each domain
/// that is not exempt, and none for one that is.
pub proof fn law_one_rule_per_domain(a: Seq<Seq<char>>, d: Seq<char>, b: Seq<Seq<char>>)
    ensures
        block_rules(a + seq![d] + b) == block_rules(a) + (if cloudflare(d) {
            Seq::empty()
        } else {
            seq![block_rule(d)]
        }) + block_rules(b),
        block_rules(Seq::<Seq<char>>::empty()).len() == 0,
        !cloudflare(d) ==> block_rules(a + seq![d] + b).contains(block_rule(d)),
    decreases b.len(),
{
    let all = a + seq![d] + b;
    let here = if cloudflare(d) {
        Seq::empty()
    } else {
        seq![block_rule(d)]
    };
    assert(block_rules(Seq::<Seq<char>>::empty()) =~= Seq::empty());
    if b.len() == 0 {
        assert(all.drop_last() =~= a);
        assert(all.last() == d);
        assert(block_rules(b) =~= Seq::empty());
        assert(block_rules(all) =~= block_rules(a) + here + block_rules(b));
    } else {
        let t = b.drop_last();
        law_one_rule_per_domain(a, d, t);
        assert(all.drop_last() =~= a + seq![d] + t);
        assert(all.last() == b.last());
        assert(block_rules(all) =~= block_rules(a) + here + block_rules(b));
    }
    if !cloudflare(d) {
        assert(block_rules(all)[block_rules(a).len() as int] == block_rule(d));
    }
}

/// Every listed domain that is not exempt has its rule, every rule is that of
/// such a domain, and there are as many rules as such domains.
pub proof fn law_every_domain_is_blocked(domains: Seq<Seq<char>>)
    ensures
        forall|i: int|
            0 <= i < domains.len() && !cloudflare(#[trigger] domains[i]) ==> block_rules(
                domains,
            ).contains(block_rule(domains[i])),
        forall|k: int|
            0 <= k < block_rules(domains).len() ==> exists|i: int|
                0 <= i < domains.len() && !cloudflare(domains[i]) && #[trigger] block_rules(domains)[k]
                    == block_rule(#[trigger] domains[i]),
        block_rules(domains).len() == domains.filter(may_be_blocked()).len(),
    decreases domains.len(),
{
    reveal(Seq::filter);
    if domains.len() > 0 {
        let shorter = domains.drop_last();
        let before = block_rules(shorter);
        let now = block_rules(domains);
        law_every_domain_is_blocked(shorter);
        assert forall|i: int| 0 <= i < domains.len() && !cloudflare(#[trigger] domains[i]) implies now.contains(
            block_rule(domains[i]),
        ) by {
            if i < shorter.len() {
                assert(shorter[i] == domains[i]);
                let k = choose|k: int| 0 <= k < before.len() && before[k] == block_rule(shorter[i]);
                assert(now[k] == before[k]);
            } else {
                assert(now[before.len() as int] == block_rule(domains[i]));
            }
        }
        assert forall|k: int| 0 <= k < now.len() implies exists|i: int|
            0 <= i < domains.len() && !cloudflare(domains[i]) && #[trigger] now[k] == block_rule(
                #[trigger] domains[i],
            ) by {
            if k < before.len() {
                assert(now[k] == before[k]);
                let i = choose|i: int|
                    0 <= i < shorter.len() && !cloudflare(shorter[i]) && before[k] == block_rule(
                        #[trigger] shorter[i],
                    );
                assert(domains[i] == shorter[i]);
            } else {
                assert(domains[domains.len() - 1] == domains.last());
            }
        }
    }
}

/// Joining two lists of parts is joining each and putting the separator
/// between; a single part is joined to itself.
pub proof fn law_joined(a: Seq<Seq<char>>, b: Seq<Seq<char>>, sep: Seq<char>)
    requires
        a.len() > 0,
        b.len() > 0,
    ensures
        joined_with(a + b, sep) == joined_with(a, sep) + sep + joined_with(b, sep),
        a.len() == 1 ==> joined_with(a, sep) == a[0],
        joined_with(Seq::<Seq<char>>::empty(), sep).len() == 0,
    decreases b.len(),
{
    assert((a + b).last() == b.last());
    if b.len() == 1 {
        assert((a + b).drop_last() =~= a);
    } else {
        let t = b.drop_last();
        law_joined(a, t, sep);
        assert((a + b).drop_last() =~= a + t);
        assert(joined_with(a + b, sep) =~= joined_with(a, sep) + sep + joined_with(b, sep));
    }
}

/// The content rules stand in brackets, with commas between them.
pub proof fn law_rules_are_a_list(domains: Seq<Seq<char>>)
    ensures
        content_blocker_json(domains).first() == '[',
        content_blocker_json(domains).last() == ']',
        content_blocker_json(domains).subrange(1, content_blocker_json(domains).len() - 1)
            == joined_with(block_rules(domains), seq![',']),
{
    reveal_strlit("[");
    reveal_strlit("]");
    reveal_strlit(",");
    assert(","@ =~= seq![',']);
    let inner = joined_with(block_rules(domains), ","@);
    let r = content_blocker_json(domains);
    assert(r.subrange(1, r.len() - 1) =~= inner);
}

/// The pattern of a domain is made character by character. What means something
/// else in a pattern, or in a JSON string, is escaped; all else stands for
/// itself.
pub proof fn law_filter_text(a: Seq<char>, c: char, b: Seq<char>)
    ensures
        filter_text(a + seq![c] + b) == filter_text(a) + filter_text(seq![c]) + filter_text(b),
        seq!['.', '*', '+', '?', '^', '$', '(', ')', '[', ']', '{', '}', '|'].contains(c)
            ==> filter_text(seq![c]) == seq!['\\', '\\', c],
        c == '\\' ==> filter_text(seq![c]) == seq!['\\', '\\', '\\', '\\'],
        c == '"' ==> filter_text(seq![c]) == seq!['\\', '"'],
        !seq!['.', '*', '+', '?', '^', '$', '(', ')', '[', ']', '{', '}', '|', '\\', '"'].contains(c)
            ==> filter_text(seq![c]) == seq![c],
        block_rule(b) == RULE_HEAD@ + filter_text(b) + RULE_TAIL@,
    decreases b.len(),
{
    let all = a + seq![c] + b;
    assert(seq![c].drop_last() =~= Seq::<char>::empty());
    assert(filter_text(Seq::<char>::empty()) =~= Seq::<char>::empty());
    assert(filter_text(seq![c]) =~= filter_char(c));
    let signs = seq!['.', '*', '+', '?', '^', '$', '(', ')', '[', ']', '{', '}', '|', '\\', '"'];
    assert(signs[0] == '.' && signs[1] == '*' && signs[2] == '+' && signs[3] == '?' && signs[4] == '^');
    assert(signs[5] == '$' && signs[6] == '(' && signs[7] == ')' && signs[8] == '[' && signs[9] == ']');
    assert(signs[10] == '{' && signs[11] == '}' && signs[12] == '|' && signs[13] == '\\' && signs[14]
        == '"');
    if b.len() == 0 {
        assert(all.drop_last() =~= a);
        assert(filter_text(b) =~= Seq::<char>::empty());
        assert(filter_text(all) =~= filter_text(a) + filter_text(seq![c]) + filter_text(b));
    } else {
        let t = b.drop_last();
        law_filter_text(a, c, t);
        assert(all.drop_last() =~= a + seq![c] + t);
        assert(all.last() == b.last());
        assert(filter_text(all) =~= filter_text(a) + filter_text(seq![c]) + filter_text(b));
    }
}

/// The blocker script lists every blocked domain, in order, and a few known
/// ones where none is loaded.
pub proof fn law_script_lists_the_domains(domains: Seq<Seq<char>>)
    ensures
        domains.len() > 0 ==> exists|items: Seq<Seq<char>>|
            {
                &&& items.len() == domains.len()
                &&& forall|i: int|
                    0 <= i < items.len() ==> #[trigger] items[i] == seq!['"'] + script::double_quoted(
                        domains[i],
                    ) + seq!['"']
                &&& blocker_js(domains) == BLOCKER_HEAD@ + #[trigger] joined_with(items, seq![','])
                    + BLOCKER_TAIL@
            },
        blocker_js(Seq::empty()) == blocker_js(
            seq![
                "doubleclick.net"@,
                "googlesyndication.com"@,
                "googleadservices.com"@,
                "adnxs.com"@,
                "advertising.com"@,
                "outbrain.com"@,
                "taboola.com"@,
                "amazon-adsystem.com"@,
            ],
        ),
{
    reveal_strlit("\"");
    reveal_strlit(",");
    assert("\""@ =~= seq!['"']);
    assert(","@ =~= seq![',']);
    if domains.len() > 0 {
        let items = script_items(domains);
        assert forall|i: int| 0 <= i < items.len() implies #[trigger] items[i] == seq!['"']
            + script::double_quoted(domains[i]) + seq!['"'] by {
            assert(items[i] == script_item(domains[i]));
        }
        assert(blocker_js(domains) == BLOCKER_HEAD@ + joined_with(items, seq![',']) + BLOCKER_TAIL@);
    }
    assert(webview::patterns(FALLBACK_DOMAINS@) =~= seq![
        "doubleclick.net"@,
        "googlesyndication.com"@,
        "googleadservices.com"@,
        "adnxs.com"@,
        "advertising.com"@,
        "outbrain.com"@,
        "taboola.com"@,
        "amazon-adsystem.com"@,
    ]);
}

/// What ad blocking injects: the blocker script, before every page, and the
/// style sheets; nothing of the general kind into the frames of challenges, and
/// what is for YouTube or Spotify only there.
pub proof fn law_ad_rules(domains: Seq<Seq<char>>)
    ensures
        ({
            let r = ad_rules(domains);
            &&& r.len() == 5
            &&& r[0].source == AD_HIDING_CSS@ && r[0].kind is StyleSheet
            &&& r[1].source == blocker_js(domains) && r[1].kind is ScriptAtStart
            &&& r[2].source == YOUTUBE_AD_CSS@ && r[2].kind is StyleSheet
            &&& r[3].source == YOUTUBE_AD_JS@ && r[3].kind is ScriptAtEnd && r[3].frames is TopFrame
            &&& r[4].source == SPOTIFY_AD_CSS@ && r[4].kind is StyleSheet
            &&& forall|i: int|
                0 <= i < 5 && i != 3 ==> (#[trigger] r[i]).frames is AllFrames
            &&& forall|i: int|
                0 <= i < 2 ==> (#[trigger] r[i]).allow.len() == 0 && r[i].block == webview::patterns(
                    webview::CF_BLOCK_LIST@,
                )
            &&& forall|i: int| 2 <= i < 5 ==> (#[trigger] r[i]).block.len() == 0
            &&& r[2].allow == seq!["https://*.youtube.com/*"@, "https://youtube.com/*"@]
            &&& r[3].allow == r[2].allow
            &&& r[4].allow == seq!["https://*.spotify.com/*"@, "https://spotify.com/*"@]
        }),
{
}

} // verus!
