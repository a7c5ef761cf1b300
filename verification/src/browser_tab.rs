//! A tab: credentials typed into its page, permissions and dialogs that the
//! page asks for, and what is shown of it.

use vstd::prelude::*;

use crate::crypto;
use crate::passwords;
use crate::passwords::Passwords;
use crate::records;
use crate::text;
use crate::webview;
use crate::webview::Injected;
use crate::webview::InjectedFrames;
use crate::webview::Injection;
use crate::webview::InjectionKind;

verus! {

// Credentials typed into a page.

/// Sends the credentials that are submitted in a page's forms.
pub const PASSWORD_CAPTURE_JS: &'static str = r#"(function() {
    'use strict';
    if (window.__wynnPwCapture) return;
    window.__wynnPwCapture = true;

    var STORAGE_KEY = '__wynnCapturedUser';

    // ── Utility: find the best username on the current page ───────
    function findUsername(scope) {
        var sel = 'input[type="text"], input[type="email"], input[type="tel"], input:not([type])';
        var inputs = (scope || document).querySelectorAll(sel);
        for (var i = 0; i < inputs.length; i++) {
            var inp = inputs[i];
            // Skip hidden / off-screen inputs.
            if (inp.value && inp.offsetParent !== null) {
                return inp.value;
            }
        }
        return '';
    }

    // ── Utility: find the password value on the current page ──────
    function findPassword(scope) {
        var pwFields = (scope || document).querySelectorAll('input[type="password"]');
        var pw = '';
        for (var i = 0; i < pwFields.length; i++) {
            if (pwFields[i].value) pw = pwFields[i].value;
        }
        return pw;
    }

    // ── Utility: send credentials to Rust backend ────────────────
    // Deduplication: only send once per unique (user, pw) combo
    // within a short window.  Multiple events (submit, click, keydown)
    // often fire for the same form action.
    var _lastSent = '';
    var _lastSentTime = 0;

    function sendCreds(user, pw) {
        if (!pw) return;
        var key = (user || '') + '\x00' + pw;
        var now = Date.now();
        // Suppress duplicate within 3 seconds.
        if (key === _lastSent && (now - _lastSentTime) < 3000) return;
        _lastSent = key;
        _lastSentTime = now;
        try {
            window.webkit.messageHandlers.wynnPasswordCapture.postMessage(
                JSON.stringify({ username: user || '', password: pw })
            );
        } catch(err) {}
    }

    // ── Stash / recall username across page navigations ──────────
    // Google (and similar) show email on page 1, password on page 2.
    function stashUsername(user) {
        if (user) {
            try { sessionStorage.setItem(STORAGE_KEY, user); } catch(e) {}
        }
    }

    function recallUsername() {
        try { return sessionStorage.getItem(STORAGE_KEY) || ''; } catch(e) { return ''; }
    }

    // ── Attempt to capture credentials ──────────────────────────
    function attemptCapture(scope) {
        var pw = findPassword(scope);
        if (!pw) return false;

        var user = findUsername(scope);
        if (!user) user = recallUsername();
        sendCreds(user, pw);
        return true;
    }

    // ── 1. Native form submit ────────────────────────────────────
    document.addEventListener('submit', function(e) {
        var form = e.target;
        if (!form || form.tagName !== 'FORM') return;
        // Before submitting: stash any username we see.
        var user = findUsername(form);
        stashUsername(user);
        attemptCapture(form);
    }, true);

    // ── 2. Click on any submit-like element (broad matching) ────
    //   Matches: <button>, <input type=submit>, [role="button"],
    //   and Google's jsaction-powered divs.
    document.addEventListener('click', function(e) {
        var el = e.target.closest(
            'button[type="submit"], input[type="submit"], ' +
            'button:not([type]), [role="button"], [jsaction]'
        );
        if (!el) return;

        // Check if there's a password field anywhere on the page.
        var pw = findPassword();
        if (pw) {
            // Password page — capture and send.
            var user = findUsername() || recallUsername();
            sendCreds(user, pw);
            return;
        }

        // No password field — maybe this is the "Next" button on the
        // username step (Google-style).  Stash the username.
        var user = findUsername();
        stashUsername(user);
    }, true);

    // ── 3. Enter key on password field ──────────────────────────
    document.addEventListener('keydown', function(e) {
        if (e.key !== 'Enter') return;
        var el = e.target;
        if (!el || el.tagName !== 'INPUT') return;
        if (el.type === 'password') {
            var user = findUsername() || recallUsername();
            sendCreds(user, el.value);
        } else if (el.type === 'text' || el.type === 'email' || el.type === 'tel') {
            // Pressing Enter on the username field — stash it.
            stashUsername(el.value);
        }
    }, true);

    // ── 4. Watch for dynamically inserted password fields ────────
    //   Some sites (Google) add the password input only after the
    //   username step completes.  When we see a new password field,
    //   we attach a listener so we catch Enter presses even on
    //   late-added inputs.
    var observer = new MutationObserver(function(mutations) {
        for (var i = 0; i < mutations.length; i++) {
            var added = mutations[i].addedNodes;
            for (var j = 0; j < added.length; j++) {
                var node = added[j];
                if (node.nodeType !== 1) continue;
                var pws = node.querySelectorAll
                    ? node.querySelectorAll('input[type="password"]')
                    : [];
                if (node.tagName === 'INPUT' && node.type === 'password') {
                    // Direct password input added.
                }
                // No action needed — the keydown/click listeners on
                // document already cover dynamically added elements.
            }
        }
    });
    observer.observe(document.documentElement, { childList: true, subtree: true });
})();"#;

/// The script that captures credentials, for every frame but those of
/// challenges, run when the page is there.
pub open spec fn capture_script() -> Injected {
    Injected {
        kind: InjectionKind::ScriptAtEnd,
        source: PASSWORD_CAPTURE_JS@,
        frames: InjectedFrames::AllFrames,
        allow: Seq::empty(),
        block: webview::challenge_frames(),
    }
}

/// The script that captures credentials.
pub fn password_capture_script() -> (r: Injection)
    ensures
        r@ == capture_script(),
{
    let r = Injection {
        kind: InjectionKind::ScriptAtEnd,
        source: PASSWORD_CAPTURE_JS.to_owned(),
        frames: InjectedFrames::AllFrames,
        allow: Vec::new(),
        block: webview::challenge_block_list(),
    };
    assert(r@.allow =~= Seq::empty());
    r
}

/// The value of a hexadecimal digit.
pub open spec fn hex_value(c: char) -> Option<int> {
    if '0' <= c <= '9' {
        Some(c as int - 48)
    } else if 'a' <= c <= 'f' {
        Some(c as int - 87)
    } else if 'A' <= c <= 'F' {
        Some(c as int - 55)
    } else {
        None
    }
}

/// The code unit that an escape of four hexadecimal digits at the start of `s`
/// stands for; `None` where there is no such escape.
pub open spec fn code_unit(s: Seq<char>) -> Option<int> {
    if s.len() < 6 || s[0] != '\\' || s[1] != 'u' {
        None
    } else {
        match (hex_value(s[2]), hex_value(s[3]), hex_value(s[4]), hex_value(s[5])) {
            (Some(a), Some(b), Some(c), Some(d)) => Some(a * 4096 + b * 256 + c * 16 + d),
            _ => None,
        }
    }
}

/// The character that a backslash and `c` stand for.
pub open spec fn short_escape(c: char) -> char {
    if c == 'n' {
        '\n'
    } else if c == 't' {
        '\t'
    } else if c == 'r' {
        '\r'
    } else if c == 'b' {
        '\u{8}'
    } else if c == 'f' {
        '\u{c}'
    } else {
        c
    }
}

/// The character that the escape at the start of `s` stands for, and the
/// length of the escape. Two code units that form a surrogate pair stand for
/// one character; a surrogate by itself stands for the replacement character.
pub open spec fn escape_at(s: Seq<char>) -> (char, int) {
    match code_unit(s) {
        Some(u) => if 0xD800 <= u < 0xDC00 {
            match code_unit(s.skip(6)) {
                Some(l) => if 0xDC00 <= l < 0xE000 {
                    ((0x10000 + (u - 0xD800) * 1024 + (l - 0xDC00)) as char, 12)
                } else {
                    ('\u{FFFD}', 6)
                },
                None => ('\u{FFFD}', 6),
            }
        } else if 0xDC00 <= u < 0xE000 {
            ('\u{FFFD}', 6)
        } else {
            (u as char, 6)
        },
        None => (short_escape(s[1]), 2),
    }
}

/// What a quoted value stands for, read from behind its opening quote to its
/// closing one.
pub open spec fn quoted_value(s: Seq<char>) -> Seq<char>
    decreases s.len(),
{
    if s.len() == 0 || s[0] == '"' {
        Seq::empty()
    } else if s[0] == '\\' {
        if s.len() == 1 {
            Seq::empty()
        } else {
            let (c, n) = escape_at(s);
            seq![c] + quoted_value(s.skip(n))
        }
    } else {
        seq![s[0]] + quoted_value(s.skip(1))
    }
}

/// The string value of a field of a simple JSON object; empty where the field
/// is missing or no string.
pub open spec fn json_field(json: Seq<char>, field: Seq<char>) -> Seq<char> {
    let name = "\""@ + field + "\""@;
    match text::position(json, name) {
        Some(k) => {
            let after = json.skip(k + name.len());
            match text::position(after, ":"@) {
                Some(i) => {
                    let value = text::trimmed_start(after.skip(i + 1));
                    if value.len() > 0 && value[0] == '"' {
                        quoted_value(value.skip(1))
                    } else {
                        Seq::empty()
                    }
                },
                None => Seq::empty(),
            }
        },
        None => Seq::empty(),
    }
}

fn hex_digit_value(c: char) -> (r: Option<u32>)
    ensures
        match r {
            Some(d) => hex_value(c) == Some(d as int) && d < 16,
            None => hex_value(c) is None,
        },
{
    if '0' <= c && c <= '9' {
        Some(c as u32 - 48)
    } else if 'a' <= c && c <= 'f' {
        Some(c as u32 - 87)
    } else if 'A' <= c && c <= 'F' {
        Some(c as u32 - 55)
    } else {
        None
    }
}

fn read_code_unit(v: &[char], at: usize) -> (r: Option<u32>)
    requires
        at <= v@.len(),
    ensures
        match r {
            Some(u) => code_unit(v@.skip(at as int)) == Some(u as int) && u < 0x10000,
            None => code_unit(v@.skip(at as int)) is None,
        },
{
    if v.len() - at < 6 || v[at] != '\\' || v[at + 1] != 'u' {
        return None;
    }
    let a = hex_digit_value(v[at + 2]);
    let b = hex_digit_value(v[at + 3]);
    let c = hex_digit_value(v[at + 4]);
    let d = hex_digit_value(v[at + 5]);
    match (a, b, c, d) {
        (Some(a), Some(b), Some(c), Some(d)) => Some(a * 4096 + b * 256 + c * 16 + d),
        _ => None,
    }
}

fn read_short_escape(c: char) -> (r: char)
    ensures
        r == short_escape(c),
{
    match c {
        'n' => '\n',
        't' => '\t',
        'r' => '\r',
        'b' => '\u{8}',
        'f' => '\u{c}',
        _ => c,
    }
}

fn read_escape(v: &[char], at: usize) -> (r: (char, usize))
    requires
        at + 2 <= v@.len(),
    ensures
        r.0 == escape_at(v@.skip(at as int)).0,
        r.1 == escape_at(v@.skip(at as int)).1,
        2 <= r.1 <= v@.len() - at,
{
    let len: usize = v.len();
    assert(at + 2 <= len);
    let unit: u32 = match read_code_unit(v, at) {
        Some(u) => u,
        None => {
            return (read_short_escape(v[at + 1]), 2);
        },
    };
    assert(v@.skip(at as int).skip(6) =~= v@.skip(at + 6));
    if 0xD800 <= unit && unit < 0xDC00 {
        if let Some(low) = read_code_unit(v, at + 6) {
            if 0xDC00 <= low && low < 0xE000 {
                let code: u32 = 0x10000 + (unit - 0xD800) * 1024 + (low - 0xDC00);
                if let Some(c) = char::from_u32(code) {
                    return (c, 12);
                }
            }
        }
        return ('\u{FFFD}', 6);
    }
    match char::from_u32(unit) {
        Some(c) => (c, 6),
        None => ('\u{FFFD}', 6),
    }
}

fn read_quoted(v: &[char], from: usize) -> (r: String)
    requires
        from <= v@.len(),
    ensures
        r@ == quoted_value(v@.skip(from as int)),
{
    let mut r = String::new();
    let mut i: usize = from;
    let ghost whole = quoted_value(v@.skip(from as int));
    assert(r@ + whole =~= whole);
    while i < v.len() && v[i] != '"'
        invariant
            from <= i <= v@.len(),
            whole == quoted_value(v@.skip(from as int)),
            r@ + quoted_value(v@.skip(i as int)) == whole,
        decreases v@.len() - i,
    {
        let ghost before = r@;
        let ghost rest = v@.skip(i as int);
        if v[i] == '\\' {
            if i + 1 == v.len() {
                assert(r@ + Seq::<char>::empty() =~= r@);
                return r;
            }
            let (c, n) = read_escape(v, i);
            r.push(c);
            assert(rest.skip(n as int) =~= v@.skip(i + n));
            assert(r@ + quoted_value(v@.skip(i + n)) =~= before + quoted_value(rest));
            i += n;
        } else {
            r.push(v[i]);
            assert(rest.skip(1) =~= v@.skip(i + 1));
            assert(r@ + quoted_value(v@.skip(i + 1)) =~= before + quoted_value(rest));
            i += 1;
        }
    }
    assert(r@ + Seq::<char>::empty() =~= r@);
    r
}

/// Extract a string field value from a simple JSON object.
/// Reads the escapes within the value, those of quotes among them.
pub fn extract_json_field(json: &str, field: &str) -> (r: String)
    ensures
        r@ == json_field(json@, field@),
{
    let mut name = "\"".to_owned();
    name.append(field);
    name.append("\"");
    let v = text::chars_of(json);
    let pattern = text::chars_of(name.as_str());
    let colon = text::chars_of(":");
    let empty = String::new();
    assert(empty@ =~= Seq::empty());
    proof {
        reveal_strlit(":");
        text::lemma_position(json@, name@);
    }
    let start: usize = match text::find(v.as_slice(), pattern.as_slice()) {
        Some(k) => {
            assert(text::occurs_at(json@, name@, k as int));
            assert(v.len() == json@.len());
            k + pattern.len()
        },
        None => {
            return empty;
        },
    };
    let after = vstd::slice::slice_subrange(v.as_slice(), start, v.len());
    assert(after@ =~= json@.skip(start as int));
    proof {
        text::lemma_position(after@, ":"@);
    }
    let mut i: usize = match text::find(after, colon.as_slice()) {
        Some(i) => {
            assert(text::occurs_at(after@, ":"@, i as int));
            i + 1
        },
        None => {
            return empty;
        },
    };
    let ghost value = after@.skip(i as int);
    while i < after.len() && text::is_white(after[i])
        invariant
            i <= after@.len(),
            text::trimmed_start(value) == text::trimmed_start(after@.skip(i as int)),
        decreases after@.len() - i,
    {
        assert(after@.skip(i as int).drop_first() =~= after@.skip(i + 1));
        i += 1;
    }
    assert(text::trimmed_start(value) == after@.skip(i as int));
    if i < after.len() && after[i] == '"' {
        assert(after@.skip(i as int).skip(1) =~= after@.skip(i + 1));
        read_quoted(after, i + 1)
    } else {
        empty
    }
}

/// How long, in nanoseconds, the same credentials are not asked about again.
pub const CAPTURE_PAUSE: u64 = 60_000_000_000;

/// The credentials that were asked about last, and when.
pub struct CaptureGuard {
    last_key: String,
    last_time: u64,
}

/// What a guard holds.
#[verifier::ext_equal]
pub struct LastCapture {
    pub key: Seq<char>,
    pub time: u64,
}

impl View for CaptureGuard {
    type V = LastCapture;

    closed spec fn view(&self) -> LastCapture {
        LastCapture { key: self.last_key@, time: self.last_time }
    }
}

/// Captured credentials.
pub struct Captured {
    pub username: String,
    pub password: String,
}

/// What tells captured credentials apart.
pub open spec fn capture_key(origin: Seq<char>, username: Seq<char>, password: Seq<char>) -> Seq<char> {
    origin + "\u{0}"@ + username + "\u{0}"@ + password
}

/// Whether captured credentials are passed over: there is no password or no
/// origin, the origin is never to be asked about, or the same credentials were
/// asked about within the pause.
pub open spec fn passed_over(
    g: LastCapture,
    t: passwords::PasswordTable,
    origin: Seq<char>,
    username: Seq<char>,
    password: Seq<char>,
    now: u64,
) -> bool {
    ||| password.len() == 0
    ||| origin.len() == 0
    ||| passwords::known(t, origin, passwords::NEVER_MARKER@)
    ||| g.key == capture_key(origin, username, password) && now - g.time < CAPTURE_PAUSE
}

impl CaptureGuard {
    /// Nothing was asked about yet.
    pub fn new(now: u64) -> (r: Self)
        ensures
            r@ == (LastCapture { key: Seq::empty(), time: now }),
    {
        let r = CaptureGuard { last_key: String::new(), last_time: now };
        assert(r@.key =~= Seq::empty());
        r
    }

    /// Takes a message of the capture script, from a page of the given origin,
    /// at a time in nanoseconds. Returns the credentials to ask about, unless
    /// they are passed over.
    pub fn capture(&mut self, p: &Passwords, message: &str, origin: &str, now: u64) -> (r: Option<
        Captured,
    >)
        ensures
            match r {
                Some(c) => {
                    &&& c.username@ == json_field(message@, "username"@)
                    &&& c.password@ == json_field(message@, "password"@)
                    &&& !passed_over(old(self)@, p@, origin@, c.username@, c.password@, now)
                    &&& final(self)@ == (LastCapture {
                        key: capture_key(origin@, c.username@, c.password@),
                        time: now,
                    })
                },
                None => {
                    &&& passed_over(
                        old(self)@,
                        p@,
                        origin@,
                        json_field(message@, "username"@),
                        json_field(message@, "password"@),
                        now,
                    )
                    &&& final(self)@ == old(self)@
                },
            },
    {
        let username = extract_json_field(message, "username");
        let password = extract_json_field(message, "password");
        if password.as_str().is_empty() || origin.is_empty() || passwords::is_never_save(p, origin) {
            return None;
        }
        let mut key = origin.to_owned();
        key.append("\u{0}");
        key.append(username.as_str());
        key.append("\u{0}");
        key.append(password.as_str());
        let recent = now < self.last_time || now - self.last_time < CAPTURE_PAUSE;
        if text::same(self.last_key.as_str(), key.as_str()) && recent {
            return None;
        }
        self.last_key = key;
        self.last_time = now;
        Some(Captured { username, password })
    }
}

// Filling credentials into a page.

/// Whether an address is that of a web page.
pub open spec fn on_the_web(uri: Seq<char>) -> bool {
    text::begins(uri, "http://"@) || text::begins(uri, "https://"@)
}

/// What is done when a page has loaded.
pub enum AutofillPlan {
    /// Nothing.
    Nothing,
    /// This script is run.
    Run(String),
    /// The store is to be unlocked, and the script for this origin run then.
    UnlockFirst(String),
}

/// Plans what is filled into a page that has loaded.
pub fn autofill_on_load(p: &Passwords, uri: &str) -> (r: AutofillPlan)
    ensures
        match r {
            AutofillPlan::Nothing => !on_the_web(uri@) || (passwords::logins_at(
                p@,
                passwords::origin_of(uri@),
            ).len() == 0 && !passwords::saved_for(p@, passwords::origin_of(uri@))),
            AutofillPlan::Run(js) => on_the_web(uri@) && passwords::logins_at(
                p@,
                passwords::origin_of(uri@),
            ).len() > 0 && js@ == passwords::fill_script(
                passwords::logins_at(p@, passwords::origin_of(uri@))[0].username,
                passwords::logins_at(p@, passwords::origin_of(uri@))[0].password,
            ),
            AutofillPlan::UnlockFirst(origin) => on_the_web(uri@) && passwords::logins_at(
                p@,
                passwords::origin_of(uri@),
            ).len() == 0 && passwords::saved_for(p@, passwords::origin_of(uri@)) && origin@
                == passwords::origin_of(uri@),
        },
{
    if !(text::starts(uri, "http://") || text::starts(uri, "https://")) {
        return AutofillPlan::Nothing;
    }
    let origin = passwords::extract_origin(uri);
    match passwords::autofill_js(p, origin.as_str()) {
        Some(js) => AutofillPlan::Run(js),
        None => if passwords::has_credentials_for(p, origin.as_str()) {
            AutofillPlan::UnlockFirst(origin)
        } else {
            AutofillPlan::Nothing
        },
    }
}

/// The script to run when a page changes its address without loading anew.
/// Nobody is asked to unlock the store for it.
pub fn autofill_on_change(p: &Passwords, uri: &str) -> (r: Option<String>)
    ensures
        match r {
            Some(js) => on_the_web(uri@) && passwords::logins_at(
                p@,
                passwords::origin_of(uri@),
            ).len() > 0 && js@ == passwords::fill_script(
                passwords::logins_at(p@, passwords::origin_of(uri@))[0].username,
                passwords::logins_at(p@, passwords::origin_of(uri@))[0].password,
            ),
            None => !on_the_web(uri@) || passwords::logins_at(
                p@,
                passwords::origin_of(uri@),
            ).len() == 0,
        },
{
    if !(text::starts(uri, "http://") || text::starts(uri, "https://")) {
        return None;
    }
    let origin = passwords::extract_origin(uri);
    passwords::autofill_js(p, origin.as_str())
}

// What is shown of a page.

/// The title of a tab.
pub open spec fn title_of_tab(title: Option<Seq<char>>) -> Seq<char> {
    match title {
        Some(t) => if t.len() > 0 {
            t
        } else {
            "Untitled"@
        },
        None => "Untitled"@,
    }
}

/// The title of a tab, given that of its page.
pub fn tab_title(title: Option<&str>) -> (r: String)
    ensures
        r@ == title_of_tab(
            match title {
                Some(t) => Some(t@),
                None => None,
            },
        ),
{
    match title {
        Some(t) => if t.is_empty() {
            "Untitled".to_owned()
        } else {
            t.to_owned()
        },
        None => "Untitled".to_owned(),
    }
}

/// The icon that says how safe the connection is, and its style class.
pub struct SecurityIcon {
    pub icon: &'static str,
    pub class: Option<&'static str>,
}

/// The name of the icon for an address.
pub open spec fn security_icon(uri: Seq<char>) -> Seq<char> {
    if text::begins(uri, "https://"@) {
        "channel-secure-symbolic"@
    } else if text::begins(uri, "http://"@) {
        "channel-insecure-symbolic"@
    } else {
        "system-search-symbolic"@
    }
}

/// The style class of the icon for an address on the web.
pub open spec fn security_class(uri: Seq<char>) -> Seq<char> {
    if text::begins(uri, "https://"@) {
        "security-secure"@
    } else {
        "security-insecure"@
    }
}

/// The security indicator for an address.
pub fn update_security_icon(uri: &str) -> (r: SecurityIcon)
    ensures
        r.icon@ == security_icon(uri@),
        match r.class {
            Some(c) => on_the_web(uri@) && c@ == security_class(uri@),
            None => !on_the_web(uri@),
        },
{
    if text::starts(uri, "https://") {
        SecurityIcon { icon: "channel-secure-symbolic", class: Some("security-secure") }
    } else if text::starts(uri, "http://") {
        SecurityIcon { icon: "channel-insecure-symbolic", class: Some("security-insecure") }
    } else {
        SecurityIcon { icon: "system-search-symbolic", class: None }
    }
}

/// The origin of a page for display, or a fallback where it has no address.
pub fn display_origin(uri: Option<&str>, fallback: &str) -> (r: String)
    ensures
        r@ == match uri {
            Some(u) => passwords::origin_of(u@),
            None => fallback@,
        },
{
    match uri {
        Some(u) => passwords::extract_origin(u),
        None => fallback.to_owned(),
    }
}

// Permissions.

/// What a page asks permission for.
pub enum PermissionKind {
    Media {
        audio: bool,
        video: bool,
    },
    Location,
    Notifications,
    Clipboard,
    DeviceInfo,
    PointerLock,
    /// Access to the data of another site, asked for by this domain.
    WebsiteData(String),
    MediaKeys,
    Other,
}

/// What is done about a request for permission.
pub enum PermissionPlan {
    Allow,
    Deny,
    /// The user is asked, under this name, with this icon and description.
    Ask {
        name: &'static str,
        icon: &'static str,
        description: &'static str,
    },
}

/// What the user is asked.
#[verifier::ext_equal]
pub struct Question {
    pub name: Seq<char>,
    pub icon: Seq<char>,
    pub description: Seq<char>,
}

/// What the user is asked about a permission; nothing about those that are
/// decided without.
pub open spec fn question(kind: PermissionKind) -> Option<Question> {
    match kind {
        PermissionKind::Media { audio, video } => Some(
            if audio && video {
                Question {
                    name: "Camera & Microphone"@,
                    icon: "camera-video-symbolic"@,
                    description: "This site wants to use your camera and microphone."@,
                }
            } else if video {
                Question {
                    name: "Camera"@,
                    icon: "camera-video-symbolic"@,
                    description: "This site wants to use your camera."@,
                }
            } else if audio {
                Question {
                    name: "Microphone"@,
                    icon: "audio-input-microphone-symbolic"@,
                    description: "This site wants to use your microphone."@,
                }
            } else {
                Question {
                    name: "Media Device"@,
                    icon: "camera-video-symbolic"@,
                    description: "This site is requesting access to a media device."@,
                }
            },
        ),
        PermissionKind::Location => Some(
            Question {
                name: "Location"@,
                icon: "find-location-symbolic"@,
                description: "This site wants to know your location."@,
            },
        ),
        PermissionKind::Notifications => Some(
            Question {
                name: "Notifications"@,
                icon: "preferences-system-notifications-symbolic"@,
                description: "This site wants to show you notifications."@,
            },
        ),
        PermissionKind::Clipboard => Some(
            Question {
                name: "Clipboard"@,
                icon: "edit-paste-symbolic"@,
                description: "This site wants to access your clipboard."@,
            },
        ),
        PermissionKind::PointerLock => Some(
            Question {
                name: "Pointer Lock"@,
                icon: "input-mouse-symbolic"@,
                description: "This site wants to lock your mouse pointer."@,
            },
        ),
        PermissionKind::Other => Some(
            Question {
                name: "Permission"@,
                icon: "dialog-question-symbolic"@,
                description: "This site is requesting a permission."@,
            },
        ),
        _ => None,
    }
}

/// Whether a permission is given without asking. Device labels and media keys
/// are; the data of another site is where a challenge asks for it.
pub open spec fn granted(kind: PermissionKind) -> bool {
    match kind {
        PermissionKind::DeviceInfo => true,
        PermissionKind::MediaKeys => true,
        PermissionKind::WebsiteData(domain) => text::ends(domain@, "cloudflare.com"@) || text::ends(
            domain@,
            "cloudflareinsights.com"@,
        ),
        _ => false,
    }
}

/// Decides about a request for permission.
pub fn plan_permission(kind: &PermissionKind) -> (r: PermissionPlan)
    ensures
        match r {
            PermissionPlan::Allow => question(*kind) is None && granted(*kind),
            PermissionPlan::Deny => question(*kind) is None && !granted(*kind),
            PermissionPlan::Ask { name, icon, description } => question(*kind) == Some(
                Question { name: name@, icon: icon@, description: description@ },
            ),
        },
{
    match kind {
        PermissionKind::Media { audio, video } => if *audio && *video {
            PermissionPlan::Ask {
                name: "Camera & Microphone",
                icon: "camera-video-symbolic",
                description: "This site wants to use your camera and microphone.",
            }
        } else if *video {
            PermissionPlan::Ask {
                name: "Camera",
                icon: "camera-video-symbolic",
                description: "This site wants to use your camera.",
            }
        } else if *audio {
            PermissionPlan::Ask {
                name: "Microphone",
                icon: "audio-input-microphone-symbolic",
                description: "This site wants to use your microphone.",
            }
        } else {
            PermissionPlan::Ask {
                name: "Media Device",
                icon: "camera-video-symbolic",
                description: "This site is requesting access to a media device.",
            }
        },
        PermissionKind::Location => PermissionPlan::Ask {
            name: "Location",
            icon: "find-location-symbolic",
            description: "This site wants to know your location.",
        },
        PermissionKind::Notifications => PermissionPlan::Ask {
            name: "Notifications",
            icon: "preferences-system-notifications-symbolic",
            description: "This site wants to show you notifications.",
        },
        PermissionKind::Clipboard => PermissionPlan::Ask {
            name: "Clipboard",
            icon: "edit-paste-symbolic",
            description: "This site wants to access your clipboard.",
        },
        PermissionKind::PointerLock => PermissionPlan::Ask {
            name: "Pointer Lock",
            icon: "input-mouse-symbolic",
            description: "This site wants to lock your mouse pointer.",
        },
        PermissionKind::Other => PermissionPlan::Ask {
            name: "Permission",
            icon: "dialog-question-symbolic",
            description: "This site is requesting a permission.",
        },
        PermissionKind::DeviceInfo => PermissionPlan::Allow,
        PermissionKind::MediaKeys => PermissionPlan::Allow,
        PermissionKind::WebsiteData(domain) => if text::finishes(domain.as_str(), "cloudflare.com")
            || text::finishes(domain.as_str(), "cloudflareinsights.com") {
            PermissionPlan::Allow
        } else {
            PermissionPlan::Deny
        },
    }
}

/// The heading and the text of a dialog.
pub struct DialogTexts {
    pub heading: String,
    pub body: String,
}

/// The texts of the dialog that asks for a permission.
pub fn permission_texts(name: &str, description: &str, origin: &str) -> (r: DialogTexts)
    ensures
        r.heading@ == name@ + " Access"@,
        r.body@ == description@ + "\n\nOrigin: "@ + origin@,
{
    let mut body = description.to_owned();
    body.append("\n\nOrigin: ");
    body.append(origin);
    DialogTexts { heading: text::joined(name, " Access"), body }
}

// Notifications.

/// What a notification is known by: its tag, or else its number.
pub fn notification_id(tag: Option<&str>, id: u64) -> (r: String)
    ensures
        r@ == match tag {
            Some(t) => t@,
            None => "web-notif-"@ + text::decimal(id as nat),
        },
{
    match tag {
        Some(t) => t.to_owned(),
        None => {
            let n = text::decimal_of(id as u128);
            text::joined("web-notif-", n.as_str())
        },
    }
}

/// What the toast for a notification says.
pub fn notification_toast(title: &str, body: &str) -> (r: String)
    ensures
        r@ == if body@.len() == 0 {
            title@
        } else {
            title@ + ": "@ + body@
        },
{
    let mut r = title.to_owned();
    if !body.is_empty() {
        r.append(": ");
        r.append(body);
    }
    r
}

// Dialogs of a page's scripts.

/// The dialogs that a script can open.
#[derive(Clone, Copy, PartialEq, Eq, Structural)]
pub enum ScriptDialogKind {
    Alert,
    Confirm,
    Prompt,
    BeforeUnload,
    Other,
}

/// How a script's dialog is shown.
pub struct ScriptDialogPlan {
    /// The heading, where it is not the origin of the page.
    pub heading: Option<&'static str>,
    /// The answers, and their labels.
    pub decline: Option<(&'static str, &'static str)>,
    pub accept: (&'static str, &'static str),
    /// The answer that stands for closing the dialog.
    pub close: &'static str,
    /// The answer that the Enter key gives.
    pub default: &'static str,
}

/// The answer by which a script's dialog is accepted.
pub open spec fn accepting(kind: ScriptDialogKind) -> Seq<char> {
    match kind {
        ScriptDialogKind::BeforeUnload => "leave"@,
        _ => "ok"@,
    }
}

/// The answer by which a script's dialog is declined; an alert has none.
pub open spec fn declining(kind: ScriptDialogKind) -> Option<Seq<char>> {
    match kind {
        ScriptDialogKind::Alert => None,
        ScriptDialogKind::BeforeUnload => Some("stay"@),
        _ => Some("cancel"@),
    }
}

/// Plans a script's dialog. Unknown dialogs are left to the engine.
pub fn plan_script_dialog(kind: ScriptDialogKind) -> (r: Option<ScriptDialogPlan>)
    ensures
        match r {
            Some(plan) => {
                &&& !(kind is Other)
                &&& plan.accept.0@ == accepting(kind)
                &&& plan.accept.1@ == if kind is BeforeUnload {
                    "Leave"@
                } else {
                    "OK"@
                }
                &&& match plan.decline {
                    Some(d) => declining(kind) == Some(d.0@) && d.1@ == if kind is BeforeUnload {
                        "Stay"@
                    } else {
                        "Cancel"@
                    } && plan.close@ == d.0@,
                    None => declining(kind) is None && plan.close@ == plan.accept.0@,
                }
                &&& plan.default@ == if kind is BeforeUnload {
                    "stay"@
                } else {
                    "ok"@
                }
                &&& match plan.heading {
                    Some(h) => kind is BeforeUnload && h@ == "Leave this page?"@,
                    None => !(kind is BeforeUnload),
                }
            },
            None => kind is Other,
        },
{
    match kind {
        ScriptDialogKind::Alert => Some(
            ScriptDialogPlan {
                heading: None,
                decline: None,
                accept: ("ok", "OK"),
                close: "ok",
                default: "ok",
            },
        ),
        ScriptDialogKind::Confirm => Some(
            ScriptDialogPlan {
                heading: None,
                decline: Some(("cancel", "Cancel")),
                accept: ("ok", "OK"),
                close: "cancel",
                default: "ok",
            },
        ),
        ScriptDialogKind::Prompt => Some(
            ScriptDialogPlan {
                heading: None,
                decline: Some(("cancel", "Cancel")),
                accept: ("ok", "OK"),
                close: "cancel",
                default: "ok",
            },
        ),
        ScriptDialogKind::BeforeUnload => Some(
            ScriptDialogPlan {
                heading: Some("Leave this page?"),
                decline: Some(("stay", "Stay")),
                accept: ("leave", "Leave"),
                close: "stay",
                default: "stay",
            },
        ),
        ScriptDialogKind::Other => None,
    }
}

/// What a script is told of the answer to its dialog.
#[derive(Clone, Copy, PartialEq, Eq, Structural)]
pub struct ScriptAnswer {
    /// Whether the dialog was confirmed, where the script asked for that.
    pub confirmed: Option<bool>,
    /// Whether it gets the text that was entered.
    pub with_text: bool,
}

/// What a script is told of the answer to its dialog.
pub fn answer_script_dialog(kind: ScriptDialogKind, response: &str) -> (r: ScriptAnswer)
    ensures
        r.confirmed == if kind is Alert || kind is Other {
            None
        } else {
            Some(response@ == accepting(kind))
        },
        r.with_text == (kind is Prompt && response@ == "ok"@),
{
    match kind {
        ScriptDialogKind::Alert => ScriptAnswer { confirmed: None, with_text: false },
        ScriptDialogKind::Other => ScriptAnswer { confirmed: None, with_text: false },
        ScriptDialogKind::Confirm => ScriptAnswer {
            confirmed: Some(text::same(response, "ok")),
            with_text: false,
        },
        ScriptDialogKind::Prompt => {
            let ok = text::same(response, "ok");
            ScriptAnswer { confirmed: Some(ok), with_text: ok }
        },
        ScriptDialogKind::BeforeUnload => ScriptAnswer {
            confirmed: Some(text::same(response, "leave")),
            with_text: false,
        },
    }
}

/// What a script is told where its dialog cannot be shown.
pub fn unshown_script_dialog(kind: ScriptDialogKind) -> (r: ScriptAnswer)
    ensures
        r.confirmed == if kind is Confirm || kind is BeforeUnload {
            Some(false)
        } else {
            None
        },
        !r.with_text,
{
    match kind {
        ScriptDialogKind::Confirm => ScriptAnswer { confirmed: Some(false), with_text: false },
        ScriptDialogKind::BeforeUnload => ScriptAnswer { confirmed: Some(false), with_text: false },
        _ => ScriptAnswer { confirmed: None, with_text: false },
    }
}

// Signing in to a server.

/// The origin that credentials for a server are kept under: that of the page,
/// or else the server itself.
pub open spec fn auth_origin(uri: Option<&str>, host: Seq<char>) -> Seq<char> {
    match uri {
        Some(u) => passwords::origin_of(u@),
        None => "https://"@ + host,
    }
}

/// How a sign-in dialog is shown.
pub struct AuthPlan {
    pub origin: String,
    pub heading: String,
    pub body: String,
    /// The saved credential to fill in, whose use is to be counted.
    pub saved: Option<passwords::SavedCredential>,
}

/// The heading of a sign-in dialog.
pub open spec fn auth_heading(host: Seq<char>, retry: bool) -> Seq<char> {
    if retry {
        "Authentication Failed \u{2014} "@ + host
    } else {
        "Sign in to "@ + host
    }
}

/// The text of a sign-in dialog.
pub open spec fn auth_body(realm: Seq<char>) -> Seq<char> {
    if realm.len() == 0 {
        "This server requires authentication."@
    } else {
        "Realm: "@ + realm
    }
}

/// The host that asks, or a word for it where it has no name.
pub open spec fn auth_host(host: Option<&str>) -> Seq<char> {
    match host {
        Some(h) => h@,
        None => "Unknown host"@,
    }
}

/// Plans a sign-in dialog.
pub fn plan_authentication(
    p: &Passwords,
    uri: Option<&str>,
    host: Option<&str>,
    realm: Option<&str>,
    retry: bool,
) -> (r: AuthPlan)
    ensures
        r.origin@ == auth_origin(uri, auth_host(host)),
        r.heading@ == auth_heading(auth_host(host), retry),
        r.body@ == auth_body(
            match realm {
                Some(x) => x@,
                None => Seq::empty(),
            },
        ),
        match r.saved {
            Some(c) => passwords::found_at(p@, r.origin@).len() > 0 && c@ == passwords::found_at(
                p@,
                r.origin@,
            )[0],
            None => passwords::found_at(p@, r.origin@).len() == 0,
        },
{
    let name = match host {
        Some(h) => h,
        None => "Unknown host",
    };
    let origin = match uri {
        Some(u) => passwords::extract_origin(u),
        None => text::joined("https://", name),
    };
    let heading = if retry {
        text::joined("Authentication Failed \u{2014} ", name)
    } else {
        text::joined("Sign in to ", name)
    };
    let body = match realm {
        Some(x) => if x.is_empty() {
            "This server requires authentication.".to_owned()
        } else {
            text::joined("Realm: ", x)
        },
        None => "This server requires authentication.".to_owned(),
    };
    let mut found = passwords::lookup_credentials(p, origin.as_str());
    let ghost all = passwords::found_at(p@, origin@);
    let saved = if found.len() > 0 {
        assert(records::contents(found@)[0] == all[0]);
        Some(found.remove(0))
    } else {
        None
    };
    AuthPlan { origin, heading, body, saved }
}

/// What is done with an answer to a sign-in dialog.
#[derive(Clone, Copy, PartialEq, Eq, Structural)]
pub enum AuthAnswer {
    /// The request is cancelled.
    Cancel,
    /// The credentials are sent.
    SignIn,
}

/// Whether the credentials of a sign-in are saved.
pub open spec fn worth_saving(
    t: passwords::PasswordTable,
    origin: Seq<char>,
    username: Seq<char>,
    password: Seq<char>,
) -> bool {
    username.len() > 0 && password.len() > 0 && !passwords::known(
        t,
        origin,
        passwords::NEVER_MARKER@,
    )
}

/// Handles an answer to a sign-in dialog: whether to sign in. Credentials that
/// are signed in with are saved, where the origin allows it.
pub fn answer_authentication(
    p: &mut Passwords,
    response: &str,
    origin: &str,
    username: &str,
    password: &str,
    now: &str,
) -> (r: AuthAnswer)
    requires
        response@ == "sign-in"@ && old(p)@.key is Some && worth_saving(
            old(p)@,
            origin@,
            username@,
            password@,
        ) ==> (passwords::known(old(p)@, origin@, username@) || old(p)@.last_id < i64::MAX)
            && vstd::utf8::encode_utf8(password@).len() <= crypto::AES_MAX_LEN,
    ensures
        r == if response@ == "sign-in"@ {
            AuthAnswer::SignIn
        } else {
            AuthAnswer::Cancel
        },
        r is Cancel || old(p)@.key is None || !worth_saving(old(p)@, origin@, username@, password@)
            ==> final(p)@ == old(p)@,
        r is SignIn && old(p)@.key is Some && worth_saving(
            old(p)@,
            origin@,
            username@,
            password@,
        ) ==> exists|enc: Seq<char>|
            passwords::encrypts(old(p)@.key, password@, enc) && final(p)@
                == #[trigger] passwords::with_credential(
                old(p)@,
                origin@,
                username@,
                enc,
                now@,
            ),
{
    if !text::same(response, "sign-in") {
        return AuthAnswer::Cancel;
    }
    if p.is_unlocked() && !username.is_empty() && !password.is_empty() && !passwords::is_never_save(
        p,
        origin,
    ) {
        passwords::save_credential(p, origin, username, password, now);
    }
    AuthAnswer::SignIn
}

// Laws.

/// The hexadecimal digit for a value below sixteen.
pub open spec fn hex_digit(d: int) -> char {
    if d < 10 {
        (48 + d) as char
    } else {
        (87 + d) as char
    }
}

/// A character as `JSON.stringify` writes it between quotes.
pub open spec fn json_char(c: char) -> Seq<char> {
    if c == '"' || c == '\\' {
        seq!['\\', c]
    } else if c == '\n' {
        seq!['\\', 'n']
    } else if c == '\t' {
        seq!['\\', 't']
    } else if c == '\r' {
        seq!['\\', 'r']
    } else if c == '\u{8}' {
        seq!['\\', 'b']
    } else if c == '\u{c}' {
        seq!['\\', 'f']
    } else if (c as int) < 32 {
        seq!['\\', 'u', '0', '0', hex_digit(c as int / 16), hex_digit(c as int % 16)]
    } else {
        seq![c]
    }
}

/// A value as `JSON.stringify` writes it between quotes.
pub open spec fn json_escaped(s: Seq<char>) -> Seq<char>
    decreases s.len(),
{
    if s.len() == 0 {
        Seq::empty()
    } else {
        json_char(s[0]) + json_escaped(s.drop_first())
    }
}

proof fn lemma_character_reads_back(c: char, tail: Seq<char>)
    ensures
        quoted_value(json_char(c) + tail) == seq![c] + quoted_value(tail),
{
    let head = json_char(c);
    let written = head + tail;
    assert(written.skip(head.len() as int) =~= tail);
    if head.len() == 6 {
        let n = c as int;
        assert(0 <= n < 32);
        assert(hex_value(hex_digit(n / 16)) == Some(n / 16));
        assert(hex_value(hex_digit(n % 16)) == Some(n % 16));
        assert(code_unit(written) == Some(n));
    } else if head.len() == 2 {
        assert(code_unit(written) is None);
    }
}

/// A value that `JSON.stringify` wrote is read back as it was, whatever follows
/// its closing quote.
pub proof fn law_escaped_value_reads_back(s: Seq<char>, rest: Seq<char>)
    ensures
        quoted_value(json_escaped(s) + seq!['"'] + rest) == s,
    decreases s.len(),
{
    let tail = seq!['"'] + rest;
    assert(json_escaped(s) + seq!['"'] + rest =~= json_escaped(s) + tail);
    if s.len() == 0 {
        assert(json_escaped(s) + tail =~= tail);
        assert(s =~= Seq::<char>::empty());
    } else {
        let t = s.drop_first();
        law_escaped_value_reads_back(t, rest);
        assert(json_escaped(t) + seq!['"'] + rest =~= json_escaped(t) + tail);
        assert(json_escaped(s) + tail =~= json_char(s[0]) + (json_escaped(t) + tail));
        lemma_character_reads_back(s[0], json_escaped(t) + tail);
        assert(seq![s[0]] + t =~= s);
    }
}

/// The message that the capture script sends for a username and a password.
pub open spec fn capture_message(username: Seq<char>, password: Seq<char>) -> Seq<char> {
    "{\"username\":\""@ + json_escaped(username) + "\",\"password\":\""@ + json_escaped(password)
        + "\"}"@
}

proof fn lemma_character_quotes(c: char, i: int)
    requires
        0 <= i < json_char(c).len(),
        json_char(c)[i] == '"',
    ensures
        i == 1,
        json_char(c)[0] == '\\',
{
    if json_char(c).len() == 6 {
        let n = c as int;
        assert(0 <= n < 32);
        assert(hex_digit(n / 16) != '"');
        assert(hex_digit(n % 16) != '"');
    }
}

/// A quote within an escaped value stands behind a backslash.
proof fn lemma_escaped_quotes(s: Seq<char>, i: int)
    requires
        0 <= i < json_escaped(s).len(),
        json_escaped(s)[i] == '"',
    ensures
        i > 0,
        json_escaped(s)[i - 1] == '\\',
    decreases s.len(),
{
    if s.len() > 0 {
        let head = json_char(s[0]);
        let rest = json_escaped(s.drop_first());
        if i < head.len() {
            lemma_character_quotes(s[0], i);
        } else {
            assert(rest[i - head.len()] == '"');
            lemma_escaped_quotes(s.drop_first(), i - head.len());
        }
    }
}

/// The value of a field is read behind the next colon.
proof fn lemma_field_value(json: Seq<char>, field: Seq<char>, start: int, colon: int, value: Seq<char>)
    requires
        text::position(json, "\""@ + field + "\""@) == Some(start - field.len() - 2),
        field.len() + 2 <= start <= colon < json.len() - 1,
        json[colon] == ':',
        forall|j: int| start <= j < colon ==> json[j] != ':',
        json[colon + 1] == '"',
        quoted_value(json.skip(colon + 2)) == value,
    ensures
        json_field(json, field) == value,
{
    reveal_strlit("\"");
    reveal_strlit(":");
    let after = json.skip(start);
    text::lemma_position(after, ":"@);
    let at = colon - start;
    assert(after.subrange(at, at + 1) =~= ":"@);
    assert(text::occurs_at(after, ":"@, at));
    assert forall|j: int| 0 <= j < at implies !text::occurs_at(after, ":"@, j) by {
        if text::occurs_at(after, ":"@, j) {
            assert(after.subrange(j, j + 1)[0] == after[j]);
        }
    }
    assert(text::first_at(after, ":"@, at));
    let tail = after.skip(at + 1);
    assert(tail[0] == '"');
    assert(text::trimmed_start(tail) == tail);
    assert(tail.skip(1) =~= json.skip(colon + 2));
}

/// The name of the password's field stands in a message for the first time
/// where the field does, or right before it, at the end of the username.
proof fn lemma_password_name(u: Seq<char>, p: Seq<char>)
    ensures
        ({
            let n = json_escaped(u).len() as int;
            let at = text::position(capture_message(u, p), "\"password\""@);
            at == Some(15 + n) || at == Some(4 + n)
        }),
{
    reveal_strlit("{\"username\":\"");
    reveal_strlit("\",\"password\":\"");
    reveal_strlit("\"}");
    reveal_strlit("\"password\"");
    let m = capture_message(u, p);
    let e = json_escaped(u);
    let n = e.len() as int;
    let name = "\"password\""@;
    assert(m.subrange(15 + n, 25 + n) =~= name);
    assert(text::occurs_at(m, name, 15 + n));
    text::lemma_position(m, name);
    let k = text::position(m, name)->0;
    assert(text::first_at(m, name, k));
    assert(k <= 15 + n);
    let seen = m.subrange(k, k + 10);
    assert(seen[0] == m[k] && seen[1] == m[k + 1] && seen[8] == m[k + 8] && seen[9] == m[k + 9]);
    assert(m[k] == '"' && m[k + 1] == 'p' && m[k + 8] == 'd' && m[k + 9] == '"');
    let end = k + 9;
    if end < 13 {
        assert(m[end] == "{\"username\":\""@[end]);
        assert(k == 1 || k == 3);
        assert(m[k] == "{\"username\":\""@[k]);
        assert(m[k + 1] == "{\"username\":\""@[k + 1]);
        assert(false);
    } else if end < 13 + n {
        assert(e[end - 13] == '"');
        lemma_escaped_quotes(u, end - 13);
        assert(m[end - 1] == e[end - 14]);
        assert(false);
    } else {
        assert(m[end] == "\",\"password\":\""@[end - 13 - n]);
        if end > 13 + n && end < 24 + n {
            assert(m[end - 1] == "\",\"password\":\""@[end - 14 - n]);
            assert(false);
        }
    }
}

/// The credentials that the capture script sends are read back as they were
/// typed.
pub proof fn law_captured_credentials_read_back(username: Seq<char>, password: Seq<char>)
    ensures
        json_field(capture_message(username, password), "username"@) == username,
        json_field(capture_message(username, password), "password"@) == password,
{
    reveal_strlit("{\"username\":\"");
    reveal_strlit("\",\"password\":\"");
    reveal_strlit("\"}");
    reveal_strlit("\"username\"");
    reveal_strlit("\"password\"");
    reveal_strlit("username");
    reveal_strlit("password");
    reveal_strlit("\"");
    let m = capture_message(username, password);
    let n = json_escaped(username).len() as int;
    assert("\""@ + "username"@ + "\""@ =~= "\"username\""@);
    assert("\""@ + "password"@ + "\""@ =~= "\"password\""@);
    assert(m.subrange(1, 11) =~= "\"username\""@);
    assert(text::occurs_at(m, "\"username\""@, 1));
    assert(!text::occurs_at(m, "\"username\""@, 0)) by {
        if text::occurs_at(m, "\"username\""@, 0) {
            assert(m.subrange(0, 10)[0] == m[0]);
        }
    }
    assert(text::first_at(m, "\"username\""@, 1));
    text::lemma_position(m, "\"username\""@);
    let behind = m.skip(14 + n);
    assert(m.skip(13) =~= json_escaped(username) + seq!['"'] + behind);
    law_escaped_value_reads_back(username, behind);
    lemma_field_value(m, "username"@, 11, 11, username);

    lemma_password_name(username, password);
    let last = seq!['}'];
    assert(m.skip(27 + n) =~= json_escaped(password) + seq!['"'] + last);
    law_escaped_value_reads_back(password, last);
    let start = text::position(m, "\"password\""@)->0 + 10;
    assert forall|j: int| start <= j < 25 + n implies m[j] != ':' by {
        assert(m[j] == "\",\"password\":\""@[j - 13 - n]);
    }
    lemma_field_value(m, "password"@, start, 25 + n, password);
}

/// Credentials that were just asked about are passed over until the pause is
/// over, and others are not on their account.
pub proof fn law_capture_pause(
    t: passwords::PasswordTable,
    origin: Seq<char>,
    username: Seq<char>,
    password: Seq<char>,
    asked: u64,
    now: u64,
)
    requires
        password.len() > 0,
        origin.len() > 0,
        !passwords::known(t, origin, passwords::NEVER_MARKER@),
        asked <= now,
    ensures
        passed_over(
            LastCapture { key: capture_key(origin, username, password), time: asked },
            t,
            origin,
            username,
            password,
            now,
        ) <==> now - asked < CAPTURE_PAUSE,
{
}

/// When captured credentials are passed over: there is no password, no origin,
/// the origin bears the mark that it is never to be asked about, or the very
/// same credentials were asked about less than a minute ago.
pub proof fn law_passed_over(
    g: LastCapture,
    t: passwords::PasswordTable,
    origin: Seq<char>,
    username: Seq<char>,
    password: Seq<char>,
    now: u64,
)
    ensures
        passed_over(g, t, origin, username, password, now) <==> {
            ||| password.len() == 0
            ||| origin.len() == 0
            ||| exists|i: int|
                0 <= i < t.rows.len() && (#[trigger] t.rows[i]).origin == origin && t.rows[i].username
                    == passwords::NEVER_MARKER@
            ||| g.key == capture_key(origin, username, password) && now - g.time < 60_000_000_000
        },
{
    passwords::law_known(t, origin, passwords::NEVER_MARKER@);
}

/// Credentials that differ in one part are told apart.
pub proof fn law_captures_are_told_apart(
    origin: Seq<char>,
    username: Seq<char>,
    password: Seq<char>,
    other: Seq<char>,
)
    ensures
        other != password ==> capture_key(origin, username, password) != capture_key(
            origin,
            username,
            other,
        ),
        other != username ==> capture_key(origin, username, password) != capture_key(
            origin,
            other,
            password,
        ),
        other != origin ==> capture_key(origin, username, password) != capture_key(
            other,
            username,
            password,
        ),
{
    reveal_strlit("\u{0}");
    let key = capture_key(origin, username, password);
    let n = origin.len() as int;
    let m = n + 1 + username.len() + 1;
    let p2 = capture_key(origin, username, other);
    if p2 == key {
        assert(key.skip(m) =~= password);
        assert(p2.skip(m) =~= other);
    }
    let u2 = capture_key(origin, other, password);
    if u2 == key {
        assert(u2.len() == n + 1 + other.len() + 1 + password.len());
        assert(key.subrange(n + 1, n + 1 + username.len()) =~= username);
        assert(u2.subrange(n + 1, n + 1 + other.len()) =~= other);
    }
    let o2 = capture_key(other, username, password);
    if o2 == key {
        assert(o2.len() == other.len() + 1 + username.len() + 1 + password.len());
        assert(key.take(n) =~= origin);
        assert(o2.take(other.len() as int) =~= other);
    }
}

/// A page of the web has an address under `http` or `https`; only the latter is
/// shown as safe, and what is no page of the web as neither safe nor unsafe.
pub proof fn law_security_icon(uri: Seq<char>)
    ensures
        on_the_web(uri) <==> text::occurs_at(uri, "http://"@, 0) || text::occurs_at(
            uri,
            "https://"@,
            0,
        ),
        text::occurs_at(uri, "https://"@, 0) <==> security_icon(uri) == "channel-secure-symbolic"@,
        text::occurs_at(uri, "https://"@, 0) <==> security_class(uri) == "security-secure"@,
        !on_the_web(uri) <==> security_icon(uri) == "system-search-symbolic"@,
        on_the_web(uri) && !text::occurs_at(uri, "https://"@, 0) <==> security_icon(uri)
            == "channel-insecure-symbolic"@,
        text::occurs_at(uri, "https://"@, 0) || security_class(uri) == "security-insecure"@,
{
    reveal_strlit("http://");
    reveal_strlit("https://");
    reveal_strlit("channel-secure-symbolic");
    reveal_strlit("channel-insecure-symbolic");
    reveal_strlit("system-search-symbolic");
    reveal_strlit("security-secure");
    reveal_strlit("security-insecure");
    assert("channel-secure-symbolic"@.len() != "channel-insecure-symbolic"@.len());
    assert("channel-secure-symbolic"@.len() != "system-search-symbolic"@.len());
    assert("channel-insecure-symbolic"@.len() != "system-search-symbolic"@.len());
    assert("security-secure"@.len() != "security-insecure"@.len());
}

/// Which permissions the user is asked about: all but those for device labels,
/// for media keys and for the data of another site. Of these the first two are
/// given, and the last only to a domain that ends in one of two names.
pub proof fn law_permissions(kind: PermissionKind)
    ensures
        question(kind) is None <==> kind is DeviceInfo || kind is MediaKeys || kind is WebsiteData,
        kind is DeviceInfo || kind is MediaKeys ==> granted(kind),
        kind is WebsiteData ==> (granted(kind) <==> text::ends(
            kind->WebsiteData_0@,
            "cloudflare.com"@,
        ) || text::ends(kind->WebsiteData_0@, "cloudflareinsights.com"@)),
        question(kind) is Some ==> !granted(kind),
{
}

/// A request for camera or microphone is asked about as what it is for.
pub proof fn law_media_questions(audio: bool, video: bool)
    ensures
        ({
            let q = question(PermissionKind::Media { audio, video })->0;
            &&& video && audio ==> q.name == "Camera & Microphone"@ && q.description
                == "This site wants to use your camera and microphone."@
            &&& video && !audio ==> q.name == "Camera"@ && q.description
                == "This site wants to use your camera."@
            &&& audio && !video ==> q.name == "Microphone"@ && q.description
                == "This site wants to use your microphone."@
        }),
{
}

/// A tab bears the title of its page, and a word in its place where there is
/// none.
pub proof fn law_tab_title(title: Option<Seq<char>>)
    ensures
        title is Some && title->0.len() > 0 ==> title_of_tab(title) == title->0,
        title is None || title->0.len() == 0 ==> title_of_tab(title) == "Untitled"@,
{
}

/// A sign-in is saved where it has a username and a password, and its origin
/// does not bear the mark that it is never to be asked about.
pub proof fn law_worth_saving(
    t: passwords::PasswordTable,
    origin: Seq<char>,
    username: Seq<char>,
    password: Seq<char>,
)
    ensures
        worth_saving(t, origin, username, password) <==> username.len() > 0 && password.len() > 0
            && forall|i: int|
            0 <= i < t.rows.len() ==> !((#[trigger] t.rows[i]).origin == origin && t.rows[i].username
                == passwords::NEVER_MARKER@),
{
    passwords::law_known(t, origin, passwords::NEVER_MARKER@);
}

/// A sign-in dialog names the host that asks, and the realm where there is one.
pub proof fn law_sign_in_names(host: Seq<char>, realm: Seq<char>, retry: bool)
    ensures
        text::ends(auth_heading(host, retry), host),
        retry ==> text::begins(auth_heading(host, retry), "Authentication Failed"@),
        retry ==> auth_heading(host, retry).len() == 24 + host.len(),
        !retry ==> text::begins(auth_heading(host, retry), "Sign in to "@),
        !retry ==> auth_heading(host, retry).len() == 11 + host.len(),
        realm.len() > 0 ==> text::ends(auth_body(realm), realm),
        realm.len() > 0 ==> text::begins(auth_body(realm), "Realm: "@),
        realm.len() > 0 ==> auth_body(realm).len() == 7 + realm.len(),
        realm.len() == 0 ==> auth_body(realm) == "This server requires authentication."@,
        auth_origin(None, host) == "https://"@ + host,
{
    reveal_strlit("Authentication Failed \u{2014} ");
    reveal_strlit("Authentication Failed");
    reveal_strlit("Sign in to ");
    let h = auth_heading(host, retry);
    assert(h.subrange(h.len() - host.len(), h.len() as int) =~= host);
    if retry {
        assert(h.subrange(0, 21) =~= "Authentication Failed"@);
    } else {
        assert(h.subrange(0, 11) =~= "Sign in to "@);
    }
    if realm.len() > 0 {
        reveal_strlit("Realm: ");
        let b = auth_body(realm);
        assert(b.subrange(b.len() - realm.len(), b.len() as int) =~= realm);
        assert(b.subrange(0, 7) =~= "Realm: "@);
    }
}

/// How a field of a message is read: its name in quotes where that stands
/// first, a colon, and then a string, with white space between. A field that
/// is not there, or has no string, reads as nothing.
pub proof fn law_fields_are_read(
    before: Seq<char>,
    field: Seq<char>,
    gap: Seq<char>,
    space: Seq<char>,
    value: Seq<char>,
    rest: Seq<char>,
)
    requires
        forall|k: int| 0 <= k < gap.len() ==> #[trigger] gap[k] != ':',
        forall|k: int| 0 <= k < space.len() ==> text::white(#[trigger] space[k]),
    ensures
        ({
            let name = seq!['"'] + field + seq!['"'];
            let start = before + name + gap + seq![':'] + space;
            let json = start + seq!['"'] + json_escaped(value) + seq!['"'] + rest;
            &&& text::position(json, name) == Some(before.len() as int) ==> json_field(json, field)
                == value
            &&& !text::holds(before, name) ==> json_field(before, field).len() == 0
            &&& rest.len() > 0 && rest[0] != '"' && !text::white(rest[0]) && text::position(
                start + rest,
                name,
            ) == Some(before.len() as int) ==> json_field(start + rest, field).len() == 0
        }),
{
    reveal_strlit("\"");
    reveal_strlit(":");
    assert("\""@ =~= seq!['"']);
    let name = "\""@ + field + "\""@;
    assert(name =~= seq!['"'] + field + seq!['"']);
    let start = before + name + gap + seq![':'] + space;
    let tail = seq!['"'] + json_escaped(value) + seq!['"'] + rest;
    let json = start + seq!['"'] + json_escaped(value) + seq!['"'] + rest;
    assert(json =~= start + tail);
    text::lemma_position(before, name);
    if text::position(json, name) == Some(before.len() as int) {
        lemma_value_behind(before, name, gap, space, tail);
        let inner = json_escaped(value) + seq!['"'] + rest;
        assert(tail.skip(1) =~= inner);
        law_escaped_value_reads_back(value, rest);
    }
    if rest.len() > 0 && rest[0] != '"' && !text::white(rest[0]) && text::position(start + rest, name)
        == Some(before.len() as int) {
        lemma_value_behind(before, name, gap, space, rest);
    }
}

/// What is read of a field's value: what stands behind the colon and the white
/// space.
proof fn lemma_value_behind(
    before: Seq<char>,
    name: Seq<char>,
    gap: Seq<char>,
    space: Seq<char>,
    tail: Seq<char>,
)
    requires
        forall|k: int| 0 <= k < gap.len() ==> #[trigger] gap[k] != ':',
        forall|k: int| 0 <= k < space.len() ==> text::white(#[trigger] space[k]),
        tail.len() > 0,
        !text::white(tail[0]),
    ensures
        ({
            let json = before + name + gap + seq![':'] + space + tail;
            let after = json.skip((before.len() + name.len()) as int);
            &&& text::position(after, ":"@) == Some(gap.len() as int)
            &&& text::trimmed_start(after.skip(gap.len() as int + 1)) == tail
        }),
{
    reveal_strlit(":");
    let json = before + name + gap + seq![':'] + space + tail;
    let after = json.skip((before.len() + name.len()) as int);
    let n = gap.len() as int;
    assert(after =~= gap + seq![':'] + space + tail);
    text::lemma_position(after, ":"@);
    assert(after.subrange(n, n + 1) =~= ":"@);
    assert(text::occurs_at(after, ":"@, n));
    assert forall|j: int| 0 <= j < n implies !text::occurs_at(after, ":"@, j) by {
        if text::occurs_at(after, ":"@, j) {
            assert(after.subrange(j, j + 1)[0] == after[j]);
            assert(after[j] == gap[j]);
        }
    }
    assert(text::first_at(after, ":"@, n));
    assert(after.skip(n + 1) =~= space + tail);
    lemma_skip_white(space, tail);
}

proof fn lemma_skip_white(space: Seq<char>, tail: Seq<char>)
    requires
        forall|k: int| 0 <= k < space.len() ==> text::white(#[trigger] space[k]),
        tail.len() > 0,
        !text::white(tail[0]),
    ensures
        text::trimmed_start(space + tail) == tail,
    decreases space.len(),
{
    if space.len() == 0 {
        assert(space + tail =~= tail);
    } else {
        let t = space.drop_first();
        assert(text::white(space[0]));
        assert forall|k: int| 0 <= k < t.len() implies text::white(#[trigger] t[k]) by {
            assert(t[k] == space[k + 1]);
        }
        lemma_skip_white(t, tail);
        assert((space + tail)[0] == space[0]);
        assert((space + tail).drop_first() =~= t + tail);
    }
}

/// A code unit as an escape of four hexadecimal digits.
pub open spec fn unit_escape(n: int) -> Seq<char> {
    seq![
        '\\',
        'u',
        hex_digit(n / 4096),
        hex_digit(n / 256 % 16),
        hex_digit(n / 16 % 16),
        hex_digit(n % 16),
    ]
}

proof fn lemma_hex(d: int)
    requires
        0 <= d < 16,
    ensures
        hex_value(hex_digit(d)) == Some(d),
{
}

/// Four hexadecimal digits make up the number that they are taken from.
proof fn lemma_four_digits(n: int)
    requires
        0 <= n < 0x10000,
    ensures
        0 <= n / 4096 < 16,
        n == n / 4096 * 4096 + n / 256 % 16 * 256 + n / 16 % 16 * 16 + n % 16,
{
    let b = n / 16;
    let c = n / 256;
    let d = n / 4096;
    assert(c == b / 16);
    assert(d == c / 16);
    assert(n == 16 * b + n % 16);
    assert(b == 16 * c + b % 16);
    assert(c == 16 * d + c % 16);
}

/// What four digits after a backslash and `u` stand for, from what each does.
proof fn lemma_unit_of_digits(a: char, b: char, c: char, d: char, tail: Seq<char>)
    requires
        hex_value(a) is Some,
        hex_value(b) is Some,
        hex_value(c) is Some,
        hex_value(d) is Some,
    ensures
        code_unit(seq!['\\', 'u', a, b, c, d] + tail) == Some(
            hex_value(a)->0 * 4096 + hex_value(b)->0 * 256 + hex_value(c)->0 * 16 + hex_value(d)->0,
        ),
        (seq!['\\', 'u', a, b, c, d] + tail).skip(6) == tail,
{
    let s = seq!['\\', 'u', a, b, c, d] + tail;
    assert(s.skip(6) =~= tail);
    assert(s.len() >= 6);
    assert(s[0] == '\\' && s[1] == 'u' && s[2] == a && s[3] == b && s[4] == c && s[5] == d);
}

proof fn lemma_code_unit(n: int, tail: Seq<char>)
    requires
        0 <= n < 0x10000,
    ensures
        code_unit(unit_escape(n) + tail) == Some(n),
        (unit_escape(n) + tail).skip(6) == tail,
{
    lemma_four_digits(n);
    lemma_hex(n / 4096);
    lemma_hex(n / 256 % 16);
    lemma_hex(n / 16 % 16);
    lemma_hex(n % 16);
    lemma_unit_of_digits(
        hex_digit(n / 4096),
        hex_digit(n / 256 % 16),
        hex_digit(n / 16 % 16),
        hex_digit(n % 16),
        tail,
    );
}

/// Every character is read from its escape in hexadecimal digits: one code unit
/// for those of the first plane, two for the others.
pub proof fn law_hexadecimal_escapes(c: char, tail: Seq<char>)
    ensures
        (c as int) < 0x10000 ==> quoted_value(unit_escape(c as int) + tail) == seq![c] + quoted_value(
            tail,
        ),
        (c as int) >= 0x10000 ==> quoted_value(
            unit_escape(0xD800 + (c as int - 0x10000) / 1024) + (unit_escape(
                0xDC00 + (c as int - 0x10000) % 1024,
            ) + tail),
        ) == seq![c] + quoted_value(tail),
{
    let n = c as int;
    if n < 0x10000 {
        lemma_code_unit(n, tail);
    } else {
        let high = 0xD800 + (n - 0x10000) / 1024;
        let low = 0xDC00 + (n - 0x10000) % 1024;
        let second = unit_escape(low) + tail;
        lemma_code_unit(low, tail);
        lemma_code_unit(high, second);
        let s = unit_escape(high) + second;
        assert(escape_at(s).0 as int == n);
        assert(escape_at(s) == (c, 12int));
        assert(s.skip(12) =~= tail);
    }
}

/// The short escapes stand for line feed, tab, carriage return, backspace and
/// form feed; before a quote, a slash or a backslash the backslash changes
/// nothing; and what is no escape reads as it is.
pub proof fn law_short_escapes(c: char, tail: Seq<char>)
    ensures
        quoted_value(seq!['\\', 'n'] + tail) == seq!['\n'] + quoted_value(tail),
        quoted_value(seq!['\\', 't'] + tail) == seq!['\t'] + quoted_value(tail),
        quoted_value(seq!['\\', 'r'] + tail) == seq!['\r'] + quoted_value(tail),
        quoted_value(seq!['\\', 'b'] + tail) == seq!['\u{8}'] + quoted_value(tail),
        quoted_value(seq!['\\', 'f'] + tail) == seq!['\u{c}'] + quoted_value(tail),
        c == '"' || c == '/' || c == '\\' ==> quoted_value(seq!['\\', c] + tail) == seq![c]
            + quoted_value(tail),
        c != '"' && c != '\\' ==> quoted_value(seq![c] + tail) == seq![c] + quoted_value(tail),
        quoted_value(seq!['"'] + tail).len() == 0,
{
    assert((seq!['\\', 'n'] + tail).skip(2) =~= tail);
    assert((seq!['\\', 't'] + tail).skip(2) =~= tail);
    assert((seq!['\\', 'r'] + tail).skip(2) =~= tail);
    assert((seq!['\\', 'b'] + tail).skip(2) =~= tail);
    assert((seq!['\\', 'f'] + tail).skip(2) =~= tail);
    assert((seq!['\\', c] + tail).skip(2) =~= tail);
    assert((seq![c] + tail).skip(1) =~= tail);
    assert(code_unit(seq!['\\', 'n'] + tail) is None);
    assert(code_unit(seq!['\\', 't'] + tail) is None);
    assert(code_unit(seq!['\\', 'r'] + tail) is None);
    assert(code_unit(seq!['\\', 'b'] + tail) is None);
    assert(code_unit(seq!['\\', 'f'] + tail) is None);
    if c != 'u' {
        assert(code_unit(seq!['\\', c] + tail) is None);
    }
}

/// A script is told that its dialog was accepted only by the answer that
/// accepts it, and a dialog is accepted and declined by different answers.
pub proof fn law_dialog_answers(kind: ScriptDialogKind)
    ensures
        declining(kind) is None <==> kind is Alert,
        declining(kind) is Some ==> declining(kind)->0 != accepting(kind),
        kind is BeforeUnload ==> accepting(kind) == "leave"@ && declining(kind) == Some("stay"@),
        !(kind is BeforeUnload) ==> accepting(kind) == "ok"@,
        kind is Confirm || kind is Prompt ==> declining(kind) == Some("cancel"@),
{
    reveal_strlit("leave");
    reveal_strlit("stay");
    reveal_strlit("ok");
    reveal_strlit("cancel");
    assert("leave"@.len() != "stay"@.len());
    assert("ok"@.len() != "cancel"@.len());
}

/// The capture script runs in every frame but those of challenges, once the
/// page is there.
pub proof fn law_capture_script()
    ensures
        capture_script().kind is ScriptAtEnd,
        capture_script().frames is AllFrames,
        capture_script().allow.len() == 0,
        capture_script().block == webview::patterns(webview::CF_BLOCK_LIST@),
        capture_script().source == PASSWORD_CAPTURE_JS@,
{
}

/// A hexadecimal digit counts the same in capitals as in small letters, every
/// digit below sixteen has a character, and no other character counts.
pub proof fn law_hexadecimal_digits(c: char, d: int)
    ensures
        'A' <= c <= 'F' ==> hex_value(c) == hex_value((c as int + 32) as char),
        'a' <= c <= 'f' ==> hex_value(c) == Some(c as int - 'a' as int + 10),
        '0' <= c <= '9' ==> hex_value(c) == Some(c as int - '0' as int),
        hex_value(c) is Some <==> ('0' <= c <= '9') || ('a' <= c <= 'f') || ('A' <= c <= 'F'),
        0 <= d < 16 ==> hex_value(hex_digit(d)) == Some(d),
{
}

/// What the user is asked about a request that is for one thing.
pub proof fn law_questions(kind: PermissionKind)
    ensures
        kind is Location ==> question(kind)->0.name == "Location"@ && question(kind)->0.description
            == "This site wants to know your location."@,
        kind is Notifications ==> question(kind)->0.name == "Notifications"@ && question(
            kind,
        )->0.description == "This site wants to show you notifications."@,
        kind is Clipboard ==> question(kind)->0.name == "Clipboard"@ && question(kind)->0.description
            == "This site wants to access your clipboard."@,
        kind is PointerLock ==> question(kind)->0.name == "Pointer Lock"@ && question(
            kind,
        )->0.description == "This site wants to lock your mouse pointer."@,
        kind is Other ==> question(kind)->0.name == "Permission"@ && question(kind)->0.description
            == "This site is requesting a permission."@,
{
}

/// A host is called by its name, and by two words where it has none.
pub proof fn law_host_names(host: Option<&str>)
    ensures
        host is Some ==> auth_host(host) == host->0@,
        host is None ==> auth_host(host) == "Unknown host"@,
{
}

} // verus!
