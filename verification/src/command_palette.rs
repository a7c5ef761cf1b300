//! The command palette: which commands there are, how a query is scored
//! against them, and which rows the palette shows.

use vstd::prelude::*;

use crate::number;
use crate::records;
use crate::sorting;
use crate::text;
use crate::window;

verus! {

/// Categories for organising commands.
#[derive(Debug, Clone, Copy, PartialEq, Eq, Hash, Structural)]
pub enum CommandCategory {
    Navigation,
    Tabs,
    View,
    PrivacySecurity,
    Tools,
}

/// The heading of a category.
pub open spec fn category_label(c: CommandCategory) -> Seq<char> {
    match c {
        CommandCategory::Navigation => "Navigation"@,
        CommandCategory::Tabs => "Tabs"@,
        CommandCategory::View => "View"@,
        CommandCategory::PrivacySecurity => "Privacy & Security"@,
        CommandCategory::Tools => "Tools"@,
    }
}

/// The place of a category among the categories.
pub open spec fn category_rank(c: CommandCategory) -> int {
    match c {
        CommandCategory::Navigation => 0,
        CommandCategory::Tabs => 1,
        CommandCategory::View => 2,
        CommandCategory::PrivacySecurity => 3,
        CommandCategory::Tools => 4,
    }
}

/// All categories in the order in which they appear.
pub open spec fn all_categories() -> Seq<CommandCategory> {
    seq![
        CommandCategory::Navigation,
        CommandCategory::Tabs,
        CommandCategory::View,
        CommandCategory::PrivacySecurity,
        CommandCategory::Tools,
    ]
}

impl CommandCategory {
    /// The heading under which the category's commands stand.
    pub fn label(self) -> (r: &'static str)
        ensures
            r@ == category_label(self),
    {
        match self {
            CommandCategory::Navigation => "Navigation",
            CommandCategory::Tabs => "Tabs",
            CommandCategory::View => "View",
            CommandCategory::PrivacySecurity => "Privacy & Security",
            CommandCategory::Tools => "Tools",
        }
    }

    /// Order in which categories appear.
    pub fn sort_key(self) -> (r: u8)
        ensures
            r == category_rank(self),
    {
        match self {
            CommandCategory::Navigation => 0,
            CommandCategory::Tabs => 1,
            CommandCategory::View => 2,
            CommandCategory::PrivacySecurity => 3,
            CommandCategory::Tools => 4,
        }
    }
}

/// A single command in the palette.
#[derive(Clone)]
pub struct PaletteCommand {
    pub name: String,
    pub description: String,
    pub shortcut: String,
    /// The action to activate (e.g. "win.new-tab").
    pub action: String,
    /// Symbolic icon name (e.g. "go-home-symbolic").
    pub icon: String,
    pub category: CommandCategory,
}

/// What a command holds.
#[verifier::ext_equal]
pub struct Command {
    pub name: Seq<char>,
    pub description: Seq<char>,
    pub shortcut: Seq<char>,
    pub action: Seq<char>,
    pub icon: Seq<char>,
    pub category: CommandCategory,
}

impl View for PaletteCommand {
    type V = Command;

    open spec fn view(&self) -> Command {
        Command {
            name: self.name@,
            description: self.description@,
            shortcut: self.shortcut@,
            action: self.action@,
            icon: self.icon@,
            category: self.category,
        }
    }
}

/// What a list of commands holds.
pub open spec fn commands_of(v: Seq<PaletteCommand>) -> Seq<Command> {
    v.map_values(|c: PaletteCommand| c@)
}

// Scores.

/// Where `q` stands in `t` from index `from` on, read left to right without
/// overlaps.
pub open spec fn match_starts(t: Seq<char>, q: Seq<char>, from: int) -> Seq<int>
    decreases t.len() - from,
{
    if q.len() == 0 || from < 0 || from > t.len() {
        Seq::empty()
    } else {
        match text::position(t.skip(from), q) {
            Some(p) => if p < 0 {
                Seq::empty()
            } else {
                seq![from + p] + match_starts(t, q, from + p + q.len())
            },
            None => Seq::empty(),
        }
    }
}

/// A word begins at index `i`: a blank, a hyphen or an underscore stands before.
pub open spec fn word_start(t: Seq<char>, i: int) -> bool {
    0 < i <= t.len() && (t[i - 1] == ' ' || t[i - 1] == '-' || t[i - 1] == '_')
}

/// One of the matches of `q` in `t` begins a word.
pub open spec fn matches_word(t: Seq<char>, q: Seq<char>) -> bool {
    exists|k: int|
        0 <= k < match_starts(t, q, 0).len() && word_start(t, #[trigger] match_starts(t, q, 0)[k])
}

/// The first index from `from` on at which `c` stands in `t`.
pub open spec fn next_at(t: Seq<char>, c: char, from: int) -> Option<int>
    decreases t.len() - from,
{
    if from < 0 || from >= t.len() {
        None
    } else if t[from] == c {
        Some(from)
    } else {
        next_at(t, c, from + 1)
    }
}

/// Where the characters of `q` are found in `t`, each as early as possible
/// after the one before.
pub open spec fn scattered(q: Seq<char>, t: Seq<char>, from: int) -> Option<Seq<int>>
    decreases q.len(),
{
    if q.len() == 0 {
        Some(Seq::empty())
    } else {
        match next_at(t, q[0], from) {
            Some(i) => match scattered(q.drop_first(), t, i + 1) {
                Some(rest) => Some(seq![i] + rest),
                None => None,
            },
            None => None,
        }
    }
}

/// How many of the places stand right behind the place before.
pub open spec fn adjacent(places: Seq<int>) -> int
    decreases places.len(),
{
    if places.len() < 2 {
        0
    } else {
        adjacent(places.drop_last()) + if places.last() == places[places.len() - 2] + 1 {
            1int
        } else {
            0
        }
    }
}

/// A tier's bonus, which stays short of the next tier.
pub open spec fn bonus(n: int) -> int {
    if n < 200 {
        n
    } else {
        199
    }
}

/// The score of a lower-case query against a lower-case target: exact match,
/// prefix, start of a word, substring, scattered characters. Within a tier a
/// longer match scores higher, and so do more characters in a row.
pub open spec fn match_score(q: Seq<char>, t: Seq<char>) -> Option<i32> {
    let n = vstd::utf8::encode_utf8(q).len() as int;
    if t == q {
        Some(1000)
    } else if text::begins(t, q) {
        Some((800 + bonus(n)) as i32)
    } else if matches_word(t, q) {
        Some((600 + bonus(n)) as i32)
    } else if text::holds(t, q) {
        Some((400 + bonus(n)) as i32)
    } else {
        match scattered(q, t, 0) {
            Some(places) => Some((200 + bonus(10 * adjacent(places))) as i32),
            None => None,
        }
    }
}

/// The score of a query against a target, whatever their case. An empty query
/// matches everything.
pub open spec fn score(query: Seq<char>, target: Seq<char>) -> Option<i32> {
    if query.len() == 0 {
        Some(0)
    } else {
        match_score(text::lowercase(query), text::lowercase(target))
    }
}

/// The better of the score against the name and that against the description,
/// the latter less fifty.
pub open spec fn better(name: Option<i32>, description: Option<i32>) -> Option<i32> {
    match (name, description) {
        (Some(a), Some(b)) => {
            let d = number::wrapped(b - 50);
            Some(if a >= d {
                a
            } else {
                d
            })
        },
        (Some(a), None) => Some(a),
        (None, Some(b)) => Some(number::wrapped(b - 50)),
        (None, None) => None,
    }
}

/// The score of a query against a command.
pub open spec fn command_score(query: Seq<char>, c: Command) -> Option<i32> {
    better(score(query, c.name), score(query, c.description))
}

/// A tier's score, with the bonus for `n`.
fn tier(base: i32, n: usize) -> (r: i32)
    requires
        0 <= base <= 800,
    ensures
        r == base + bonus(n as int),
{
    if n < 200 {
        base + n as i32
    } else {
        base + 199
    }
}

fn is_word_start(t: &[char], i: usize) -> (r: bool)
    ensures
        r == word_start(t@, i as int),
{
    0 < i && i <= t.len() && (t[i - 1] == ' ' || t[i - 1] == '-' || t[i - 1] == '_')
}

fn begins_word(t: &[char], q: &[char]) -> (r: bool)
    ensures
        r == matches_word(t@, q@),
{
    if q.len() == 0 {
        return false;
    }
    let mut from: usize = 0;
    let ghost mut done: Seq<int> = Seq::empty();
    assert(done + match_starts(t@, q@, 0) =~= match_starts(t@, q@, 0));
    while from <= t.len()
        invariant
            0 < q@.len(),
            0 <= from <= t@.len(),
            done + match_starts(t@, q@, from as int) == match_starts(t@, q@, 0),
            forall|k: int| 0 <= k < done.len() ==> !word_start(t@, #[trigger] done[k]),
        decreases t@.len() - from,
    {
        let rest = vstd::slice::slice_subrange(t, from, t.len());
        assert(rest@ =~= t@.skip(from as int));
        proof {
            text::lemma_position(rest@, q@);
        }
        match text::find(rest, q) {
            Some(p) => {
                let at: usize = from + p;
                let ghost tail = match_starts(t@, q@, at + q@.len());
                assert(match_starts(t@, q@, from as int) == seq![at as int] + tail);
                if is_word_start(t, at) {
                    assert(match_starts(t@, q@, 0)[done.len() as int] == at as int);
                    return true;
                }
                proof {
                    assert(done.push(at as int) + tail =~= done + (seq![at as int] + tail));
                    done = done.push(at as int);
                }
                from = at + q.len();
            },
            None => {
                assert(done + Seq::<int>::empty() =~= done);
                assert(match_starts(t@, q@, 0) == done);
                return false;
            },
        }
    }
    false
}

proof fn lemma_next_at(t: Seq<char>, c: char, from: int, i: int)
    requires
        0 <= from <= i <= t.len(),
        forall|k: int| from <= k < i ==> t[k] != c,
    ensures
        next_at(t, c, from) == next_at(t, c, i),
    decreases i - from,
{
    if from < i {
        lemma_next_at(t, c, from + 1, i);
    }
}

/// The fuzzy tier: the score where the characters of `q` occur in `t` in order.
fn scattered_score(q: &[char], t: &[char]) -> (r: Option<i32>)
    ensures
        r == match scattered(q@, t@, 0) {
            Some(places) => Some((200 + bonus(10 * adjacent(places))) as i32),
            None => None::<i32>,
        },
{
    let mut row: i32 = 0;
    let mut prev: Option<usize> = None;
    let mut from: usize = 0;
    let mut k: usize = 0;
    let ghost mut done: Seq<int> = Seq::empty();
    assert(q@.skip(0) =~= q@);
    assert(scattered(q@, t@, 0) is Some ==> done + scattered(q@, t@, 0)->0 =~= scattered(q@, t@, 0)->0);
    while k < q.len()
        invariant
            k <= q@.len(),
            from <= t@.len(),
            row == bonus(10 * adjacent(done)),
            0 <= adjacent(done),
            match prev {
                Some(p) => done.len() > 0 && done.last() == p && p < t@.len(),
                None => done.len() == 0,
            },
            match scattered(q@.skip(k as int), t@, from as int) {
                Some(rest) => scattered(q@, t@, 0) == Some(done + rest),
                None => scattered(q@, t@, 0) is None,
            },
        decreases q@.len() - k,
    {
        let c: char = q[k];
        let ghost here = q@.skip(k as int);
        assert(here.drop_first() =~= q@.skip(k + 1));
        let mut i: usize = from;
        while i < t.len() && t[i] != c
            invariant
                from <= i <= t@.len(),
                forall|j: int| from <= j < i ==> t@[j] != c,
            decreases t@.len() - i,
        {
            i += 1;
        }
        proof {
            lemma_next_at(t@, c, from as int, i as int);
        }
        if i == t.len() {
            return None;
        }
        let ghost longer = done.push(i as int);
        assert(longer.drop_last() =~= done);
        if let Some(p) = prev {
            if i == p + 1 {
                row = if row < 190 {
                    row + 10
                } else {
                    199
                };
            }
        }
        prev = Some(i);
        proof {
            if let Some(rest) = scattered(here.drop_first(), t@, i + 1) {
                assert(longer + rest =~= done + (seq![i as int] + rest));
            }
            done = longer;
        }
        from = i + 1;
        k += 1;
    }
    assert(scattered(q@.skip(k as int), t@, from as int) == Some(Seq::<int>::empty()));
    assert(done + Seq::<int>::empty() =~= done);
    Some(200 + row)
}

/// Scores a lower-case query against a lower-case target.
pub fn score_lowered(q: &str, t: &str) -> (r: Option<i32>)
    ensures
        r == match_score(q@, t@),
{
    if text::same(t, q) {
        return Some(1000);
    }
    let qv = text::chars_of(q);
    let tv = text::chars_of(t);
    let bytes: usize = text::byte_len(q);
    proof {
        text::lemma_position(t@, q@);
    }
    if text::stands_at(tv.as_slice(), qv.as_slice(), 0) {
        return Some(tier(800, bytes));
    }
    if begins_word(tv.as_slice(), qv.as_slice()) {
        return Some(tier(600, bytes));
    }
    if text::find(tv.as_slice(), qv.as_slice()).is_some() {
        return Some(tier(400, bytes));
    }
    scattered_score(qv.as_slice(), tv.as_slice())
}

/// Score how well `query` matches `target`, whatever the case of either.
/// `None` if there is no match at all.
pub fn fuzzy_score(query: &str, target: &str) -> (r: Option<i32>)
    ensures
        r == score(query@, target@),
{
    if query.is_empty() {
        return Some(0);
    }
    let q = text::to_lowercase(query);
    let t = text::to_lowercase(target);
    score_lowered(q.as_str(), t.as_str())
}

/// The better of a score against the name and one against the description.
pub fn combine_scores(name: Option<i32>, description: Option<i32>) -> (r: Option<i32>)
    ensures
        r == better(name, description),
{
    match (name, description) {
        (Some(a), Some(b)) => {
            let d: i32 = b.wrapping_sub(50);
            if a >= d {
                Some(a)
            } else {
                Some(d)
            }
        },
        (Some(a), None) => Some(a),
        (None, Some(b)) => Some(b.wrapping_sub(50)),
        (None, None) => None,
    }
}

/// Score a command against a query.
pub fn score_command(query: &str, cmd: &PaletteCommand) -> (r: Option<i32>)
    ensures
        r == command_score(query@, cmd@),
{
    let name = fuzzy_score(query, cmd.name.as_str());
    let description = fuzzy_score(query, cmd.description.as_str());
    combine_scores(name, description)
}

// The commands.

/// A command made of its parts.
pub open spec fn command(
    name: Seq<char>,
    description: Seq<char>,
    shortcut: Seq<char>,
    action: Seq<char>,
    icon: Seq<char>,
    category: CommandCategory,
) -> Command {
    Command { name, description, shortcut, action, icon, category }
}

/// All commands of the browser, in the order in which they are listed.
pub open spec fn command_table() -> Seq<Command> {
    seq![
        command(
            "Go Home"@,
            "Navigate to the homepage"@,
            "Alt+Home"@,
            "win.go-home"@,
            "go-home-symbolic"@,
            CommandCategory::Navigation,
        ),
        command(
            "Go Back"@,
            "Navigate back"@,
            "Alt+Left"@,
            "win.go-back"@,
            "go-previous-symbolic"@,
            CommandCategory::Navigation,
        ),
        command(
            "Go Forward"@,
            "Navigate forward"@,
            "Alt+Right"@,
            "win.go-forward"@,
            "go-next-symbolic"@,
            CommandCategory::Navigation,
        ),
        command(
            "Reload Page"@,
            "Reload the current page"@,
            "F5"@,
            "win.reload"@,
            "view-refresh-symbolic"@,
            CommandCategory::Navigation,
        ),
        command(
            "Stop Loading"@,
            "Stop loading the current page"@,
            ""@,
            "win.stop-loading"@,
            "process-stop-symbolic"@,
            CommandCategory::Navigation,
        ),
        command(
            "Focus Address Bar"@,
            "Jump to the URL entry"@,
            "Ctrl+L"@,
            "win.focus-url"@,
            "edit-find-symbolic"@,
            CommandCategory::Navigation,
        ),
        command(
            "Copy URL"@,
            "Copy current page URL to clipboard"@,
            "Ctrl+Shift+C"@,
            "win.copy-url"@,
            "edit-copy-symbolic"@,
            CommandCategory::Navigation,
        ),
        command(
            "New Tab"@,
            "Open a new browser tab"@,
            "Ctrl+T"@,
            "win.new-tab"@,
            "tab-new-symbolic"@,
            CommandCategory::Tabs,
        ),
        command(
            "Close Tab"@,
            "Close the current tab"@,
            "Ctrl+W"@,
            "win.close-tab"@,
            "window-close-symbolic"@,
            CommandCategory::Tabs,
        ),
        command(
            "Next Tab"@,
            "Switch to the next tab"@,
            "Ctrl+Tab"@,
            "win.next-tab"@,
            "go-down-symbolic"@,
            CommandCategory::Tabs,
        ),
        command(
            "Previous Tab"@,
            "Switch to the previous tab"@,
            "Ctrl+Shift+Tab"@,
            "win.prev-tab"@,
            "go-up-symbolic"@,
            CommandCategory::Tabs,
        ),
        command(
            "Toggle Sidebar"@,
            "Show or hide the vertical tab sidebar"@,
            "Ctrl+\\"@,
            "win.toggle-sidebar"@,
            "sidebar-show-symbolic"@,
            CommandCategory::View,
        ),
        command(
            "Toggle Split View"@,
            "Enable or disable side-by-side browsing"@,
            "Ctrl+Shift+E"@,
            "win.toggle-split-view"@,
            "view-dual-symbolic"@,
            CommandCategory::View,
        ),
        command(
            "Toggle Fullscreen"@,
            "Enter or exit fullscreen mode"@,
            "F11"@,
            "win.toggle-fullscreen"@,
            "view-fullscreen-symbolic"@,
            CommandCategory::View,
        ),
        command(
            "Zoom In"@,
            "Increase page zoom level"@,
            "Ctrl+="@,
            "win.zoom-in"@,
            "zoom-in-symbolic"@,
            CommandCategory::View,
        ),
        command(
            "Zoom Out"@,
            "Decrease page zoom level"@,
            "Ctrl+-"@,
            "win.zoom-out"@,
            "zoom-out-symbolic"@,
            CommandCategory::View,
        ),
        command(
            "Reset Zoom"@,
            "Reset page zoom to 100%"@,
            "Ctrl+0"@,
            "win.zoom-reset"@,
            "zoom-original-symbolic"@,
            CommandCategory::View,
        ),
        command(
            "Toggle Ad Blocker"@,
            "Enable or disable the ad blocker"@,
            ""@,
            "win.toggle-adblock"@,
            "security-high-symbolic"@,
            CommandCategory::PrivacySecurity,
        ),
        command(
            "Refresh Ad Blocklist"@,
            "Re-fetch Pete Lowe's ad/tracker blocklist"@,
            ""@,
            "win.refresh-blocklist"@,
            "emblem-synchronizing-symbolic"@,
            CommandCategory::PrivacySecurity,
        ),
        command(
            "Clear History"@,
            "Delete all browsing history"@,
            ""@,
            "win.clear-history"@,
            "user-trash-symbolic"@,
            CommandCategory::PrivacySecurity,
        ),
        command(
            "Toggle Bookmark"@,
            "Add or remove bookmark for current page"@,
            "Ctrl+D"@,
            "win.toggle-bookmark"@,
            "starred-symbolic"@,
            CommandCategory::Tools,
        ),
        command(
            "Show History"@,
            "Open browsing history"@,
            "Ctrl+H"@,
            "win.show-history"@,
            "document-open-recent-symbolic"@,
            CommandCategory::Tools,
        ),
        command(
            "Show Bookmarks"@,
            "Open bookmarks list"@,
            ""@,
            "win.show-bookmarks"@,
            "bookmark-new-symbolic"@,
            CommandCategory::Tools,
        ),
        command(
            "Show Downloads"@,
            "Open downloads list"@,
            "Ctrl+J"@,
            "win.show-downloads"@,
            "folder-download-symbolic"@,
            CommandCategory::Tools,
        ),
        command(
            "Show Passwords"@,
            "Manage saved passwords"@,
            ""@,
            "win.show-passwords"@,
            "dialog-password-symbolic"@,
            CommandCategory::Tools,
        ),
        command(
            "Settings"@,
            "Open browser settings"@,
            "Ctrl+,"@,
            "win.show-settings"@,
            "emblem-system-symbolic"@,
            CommandCategory::Tools,
        ),
        command(
            "Print Page"@,
            "Print the current page"@,
            "Ctrl+P"@,
            "win.print-page"@,
            "printer-symbolic"@,
            CommandCategory::Tools,
        ),
        command(
            "View Source"@,
            "View the HTML source of the current page"@,
            ""@,
            "win.view-source"@,
            "text-x-generic-symbolic"@,
            CommandCategory::Tools,
        ),
        command(
            "Open Developer Tools"@,
            "Open the WebKit Web Inspector"@,
            "F12"@,
            "win.open-devtools"@,
            "utilities-terminal-symbolic"@,
            CommandCategory::Tools,
        ),
    ]
}

fn new_command(
    name: &str,
    description: &str,
    shortcut: &str,
    action: &str,
    icon: &str,
    category: CommandCategory,
) -> (r: PaletteCommand)
    ensures
        r@ == command(name@, description@, shortcut@, action@, icon@, category),
{
    PaletteCommand {
        name: name.to_owned(),
        description: description.to_owned(),
        shortcut: shortcut.to_owned(),
        action: action.to_owned(),
        icon: icon.to_owned(),
        category,
    }
}

/// The full command list.
pub fn build_commands() -> (v: Vec<PaletteCommand>)
    ensures
        commands_of(v@) == command_table(),
{
    let mut v: Vec<PaletteCommand> = Vec::new();
    v.push(
        new_command(
            "Go Home",
            "Navigate to the homepage",
            "Alt+Home",
            "win.go-home",
            "go-home-symbolic",
            CommandCategory::Navigation,
        ),
    );
    v.push(
        new_command(
            "Go Back",
            "Navigate back",
            "Alt+Left",
            "win.go-back",
            "go-previous-symbolic",
            CommandCategory::Navigation,
        ),
    );
    v.push(
        new_command(
            "Go Forward",
            "Navigate forward",
            "Alt+Right",
            "win.go-forward",
            "go-next-symbolic",
            CommandCategory::Navigation,
        ),
    );
    v.push(
        new_command(
            "Reload Page",
            "Reload the current page",
            "F5",
            "win.reload",
            "view-refresh-symbolic",
            CommandCategory::Navigation,
        ),
    );
    v.push(
        new_command(
            "Stop Loading",
            "Stop loading the current page",
            "",
            "win.stop-loading",
            "process-stop-symbolic",
            CommandCategory::Navigation,
        ),
    );
    v.push(
        new_command(
            "Focus Address Bar",
            "Jump to the URL entry",
            "Ctrl+L",
            "win.focus-url",
            "edit-find-symbolic",
            CommandCategory::Navigation,
        ),
    );
    v.push(
        new_command(
            "Copy URL",
            "Copy current page URL to clipboard",
            "Ctrl+Shift+C",
            "win.copy-url",
            "edit-copy-symbolic",
            CommandCategory::Navigation,
        ),
    );
    v.push(
        new_command(
            "New Tab",
            "Open a new browser tab",
            "Ctrl+T",
            "win.new-tab",
            "tab-new-symbolic",
            CommandCategory::Tabs,
        ),
    );
    v.push(
        new_command(
            "Close Tab",
            "Close the current tab",
            "Ctrl+W",
            "win.close-tab",
            "window-close-symbolic",
            CommandCategory::Tabs,
        ),
    );
    v.push(
        new_command(
            "Next Tab",
            "Switch to the next tab",
            "Ctrl+Tab",
            "win.next-tab",
            "go-down-symbolic",
            CommandCategory::Tabs,
        ),
    );
    v.push(
        new_command(
            "Previous Tab",
            "Switch to the previous tab",
            "Ctrl+Shift+Tab",
            "win.prev-tab",
            "go-up-symbolic",
            CommandCategory::Tabs,
        ),
    );
    v.push(
        new_command(
            "Toggle Sidebar",
            "Show or hide the vertical tab sidebar",
            "Ctrl+\\",
            "win.toggle-sidebar",
            "sidebar-show-symbolic",
            CommandCategory::View,
        ),
    );
    v.push(
        new_command(
            "Toggle Split View",
            "Enable or disable side-by-side browsing",
            "Ctrl+Shift+E",
            "win.toggle-split-view",
            "view-dual-symbolic",
            CommandCategory::View,
        ),
    );
    v.push(
        new_command(
            "Toggle Fullscreen",
            "Enter or exit fullscreen mode",
            "F11",
            "win.toggle-fullscreen",
            "view-fullscreen-symbolic",
            CommandCategory::View,
        ),
    );
    v.push(
        new_command(
            "Zoom In",
            "Increase page zoom level",
            "Ctrl+=",
            "win.zoom-in",
            "zoom-in-symbolic",
            CommandCategory::View,
        ),
    );
    v.push(
        new_command(
            "Zoom Out",
            "Decrease page zoom level",
            "Ctrl+-",
            "win.zoom-out",
            "zoom-out-symbolic",
            CommandCategory::View,
        ),
    );
    v.push(
        new_command(
            "Reset Zoom",
            "Reset page zoom to 100%",
            "Ctrl+0",
            "win.zoom-reset",
            "zoom-original-symbolic",
            CommandCategory::View,
        ),
    );
    v.push(
        new_command(
            "Toggle Ad Blocker",
            "Enable or disable the ad blocker",
            "",
            "win.toggle-adblock",
            "security-high-symbolic",
            CommandCategory::PrivacySecurity,
        ),
    );
    v.push(
        new_command(
            "Refresh Ad Blocklist",
            "Re-fetch Pete Lowe's ad/tracker blocklist",
            "",
            "win.refresh-blocklist",
            "emblem-synchronizing-symbolic",
            CommandCategory::PrivacySecurity,
        ),
    );
    v.push(
        new_command(
            "Clear History",
            "Delete all browsing history",
            "",
            "win.clear-history",
            "user-trash-symbolic",
            CommandCategory::PrivacySecurity,
        ),
    );
    v.push(
        new_command(
            "Toggle Bookmark",
            "Add or remove bookmark for current page",
            "Ctrl+D",
            "win.toggle-bookmark",
            "starred-symbolic",
            CommandCategory::Tools,
        ),
    );
    v.push(
        new_command(
            "Show History",
            "Open browsing history",
            "Ctrl+H",
            "win.show-history",
            "document-open-recent-symbolic",
            CommandCategory::Tools,
        ),
    );
    v.push(
        new_command(
            "Show Bookmarks",
            "Open bookmarks list",
            "",
            "win.show-bookmarks",
            "bookmark-new-symbolic",
            CommandCategory::Tools,
        ),
    );
    v.push(
        new_command(
            "Show Downloads",
            "Open downloads list",
            "Ctrl+J",
            "win.show-downloads",
            "folder-download-symbolic",
            CommandCategory::Tools,
        ),
    );
    v.push(
        new_command(
            "Show Passwords",
            "Manage saved passwords",
            "",
            "win.show-passwords",
            "dialog-password-symbolic",
            CommandCategory::Tools,
        ),
    );
    v.push(
        new_command(
            "Settings",
            "Open browser settings",
            "Ctrl+,",
            "win.show-settings",
            "emblem-system-symbolic",
            CommandCategory::Tools,
        ),
    );
    v.push(
        new_command(
            "Print Page",
            "Print the current page",
            "Ctrl+P",
            "win.print-page",
            "printer-symbolic",
            CommandCategory::Tools,
        ),
    );
    v.push(
        new_command(
            "View Source",
            "View the HTML source of the current page",
            "",
            "win.view-source",
            "text-x-generic-symbolic",
            CommandCategory::Tools,
        ),
    );
    v.push(
        new_command(
            "Open Developer Tools",
            "Open the WebKit Web Inspector",
            "F12",
            "win.open-devtools",
            "utilities-terminal-symbolic",
            CommandCategory::Tools,
        ),
    );
    assert(commands_of(v@) =~= command_table());
    v
}

// Recently used commands.

/// How many recently used actions are kept.
pub const RECENT_LIMIT: usize = 8;

/// Being another action than the given one.
pub open spec fn other_than(action: Seq<char>) -> spec_fn(Seq<char>) -> bool {
    |a: Seq<char>| a != action
}

/// `list` with `action` moved or added to the front, cut to the limit.
pub open spec fn recorded(list: Seq<Seq<char>>, action: Seq<char>) -> Seq<Seq<char>> {
    let longer = seq![action] + list.filter(other_than(action));
    if longer.len() > RECENT_LIMIT {
        longer.take(RECENT_LIMIT as int)
    } else {
        longer
    }
}

/// The actions used in this session, the latest first.
pub struct RecentActions {
    list: Vec<String>,
}

impl View for RecentActions {
    type V = Seq<Seq<char>>;

    closed spec fn view(&self) -> Seq<Seq<char>> {
        text::texts(self.list@)
    }
}

impl RecentActions {
    /// No action has been used yet.
    pub fn new() -> (r: Self)
        ensures
            r@ == Seq::<Seq<char>>::empty(),
    {
        let r = RecentActions { list: Vec::new() };
        assert(r@ =~= Seq::<Seq<char>>::empty());
        r
    }

    /// Moves `action` to the front.
    pub fn record_recent(&mut self, action: &str)
        ensures
            final(self)@ == recorded(old(self)@, action@),
    {
        let mut list: Vec<String> = Vec::new();
        list.push(action.to_owned());
        let ghost all = self@;
        let ghost other = other_than(action@);
        let mut i: usize = 0;
        assert(text::texts(list@) =~= seq![action@] + all.take(0).filter(other)) by {
            reveal(Seq::filter);
        }
        while i < self.list.len()
            invariant
                all == text::texts(self.list@),
                i <= self.list@.len(),
                other == other_than(action@),
                text::texts(list@) == seq![action@] + all.take(i as int).filter(other),
            decreases self.list@.len() - i,
        {
            let ghost before = list@;
            proof {
                reveal(Seq::filter);
                assert(all.take(i + 1).drop_last() =~= all.take(i as int));
                assert(all[i as int] == self.list@[i as int]@);
            }
            if !text::same(self.list[i].as_str(), action) {
                list.push(self.list[i].clone());
                assert(text::texts(list@) =~= text::texts(before).push(all[i as int]));
                assert(text::texts(list@) =~= seq![action@] + all.take(i + 1).filter(other));
            }
            i += 1;
        }
        assert(all.take(i as int) =~= all);
        let ghost longer = text::texts(list@);
        if list.len() > RECENT_LIMIT {
            list.truncate(RECENT_LIMIT);
        }
        self.list = list;
        assert(longer == seq![action@] + all.filter(other));
        assert(self@ =~= recorded(all, action@));
    }

    /// The actions, the latest first.
    pub fn get_recent(&self) -> (r: Vec<String>)
        ensures
            text::texts(r@) == self@,
    {
        let mut r: Vec<String> = Vec::new();
        let mut i: usize = 0;
        while i < self.list.len()
            invariant
                i <= self.list@.len(),
                text::texts(r@) == self@.take(i as int),
            decreases self.list@.len() - i,
        {
            let ghost before = r@;
            r.push(self.list[i].clone());
            assert(text::texts(r@) =~= text::texts(before).push(self@[i as int]));
            assert(text::texts(r@) =~= self@.take(i + 1));
            i += 1;
        }
        assert(self@.take(i as int) =~= self@);
        r
    }
}

// The rows of the palette.

/// A row of the palette: a heading, or the command at an index of the list.
pub enum PaletteRow {
    Header(String),
    Command(usize),
}

/// What a row shows.
#[verifier::ext_equal]
pub enum Row {
    Header(Seq<char>),
    Command(int),
}

impl View for PaletteRow {
    type V = Row;

    open spec fn view(&self) -> Row {
        match *self {
            PaletteRow::Header(label) => Row::Header(label@),
            PaletteRow::Command(i) => Row::Command(i as int),
        }
    }
}

/// What a list of rows shows.
pub open spec fn rows_of(v: Seq<PaletteRow>) -> Seq<Row> {
    v.map_values(|r: PaletteRow| r@)
}

/// The first command with the given action.
pub open spec fn with_action(cmds: Seq<Command>, action: Seq<char>) -> Option<int>
    decreases cmds.len(),
{
    if cmds.len() == 0 {
        None
    } else {
        match with_action(cmds.drop_last(), action) {
            Some(i) => Some(i),
            None => if cmds.last().action == action {
                Some(cmds.len() - 1)
            } else {
                None
            },
        }
    }
}

/// A row for each recent action that is a command's.
pub open spec fn recent_rows(cmds: Seq<Command>, recent: Seq<Seq<char>>) -> Seq<Row>
    decreases recent.len(),
{
    if recent.len() == 0 {
        Seq::empty()
    } else {
        let before = recent_rows(cmds, recent.drop_last());
        match with_action(cmds, recent.last()) {
            Some(i) => before.push(Row::Command(i)),
            None => before,
        }
    }
}

/// A row for each command of a category.
pub open spec fn category_rows(cmds: Seq<Command>, category: CommandCategory) -> Seq<Row>
    decreases cmds.len(),
{
    if cmds.len() == 0 {
        Seq::empty()
    } else {
        let before = category_rows(cmds.drop_last(), category);
        if cmds.last().category == category {
            before.push(Row::Command(cmds.len() - 1))
        } else {
            before
        }
    }
}

/// A heading and the rows under it; nothing where there are no rows.
pub open spec fn section(label: Seq<char>, rows: Seq<Row>) -> Seq<Row> {
    if rows.len() == 0 {
        Seq::empty()
    } else {
        seq![Row::Header(label)] + rows
    }
}

/// The sections of the given categories.
pub open spec fn category_sections(cmds: Seq<Command>, categories: Seq<CommandCategory>) -> Seq<Row>
    decreases categories.len(),
{
    if categories.len() == 0 {
        Seq::empty()
    } else {
        category_sections(cmds, categories.drop_last()) + section(
            category_label(categories.last()),
            category_rows(cmds, categories.last()),
        )
    }
}

/// The rows for a blank query: what was used recently, then everything by category.
pub open spec fn browsing_rows(cmds: Seq<Command>, recent: Seq<Seq<char>>) -> Seq<Row> {
    (if recent.len() == 0 {
        Seq::empty()
    } else {
        seq![Row::Header("Recently Used"@)] + recent_rows(cmds, recent)
    }) + category_sections(cmds, all_categories())
}

fn find_action(cmds: &Vec<PaletteCommand>, action: &str) -> (r: Option<usize>)
    ensures
        match r {
            Some(i) => with_action(commands_of(cmds@), action@) == Some(i as int) && i < cmds@.len(),
            None => with_action(commands_of(cmds@), action@) is None,
        },
{
    let mut i: usize = 0;
    let ghost all = commands_of(cmds@);
    while i < cmds.len()
        invariant
            all == commands_of(cmds@),
            i <= cmds@.len(),
            with_action(all.take(i as int), action@) is None,
        decreases cmds@.len() - i,
    {
        assert(all.take(i + 1).drop_last() =~= all.take(i as int));
        assert(all[i as int] == cmds@[i as int]@);
        if text::same(cmds[i].action.as_str(), action) {
            assert(with_action(all.take(i + 1), action@) == Some(i as int));
            proof {
                lemma_with_action_grows(all, action@, i + 1);
            }
            return Some(i);
        }
        i += 1;
    }
    assert(all.take(i as int) =~= all);
    None
}

proof fn lemma_with_action_grows(cmds: Seq<Command>, action: Seq<char>, n: int)
    requires
        0 <= n <= cmds.len(),
        with_action(cmds.take(n), action) is Some,
    ensures
        with_action(cmds, action) == with_action(cmds.take(n), action),
    decreases cmds.len() - n,
{
    if n < cmds.len() {
        assert(cmds.take(n + 1).drop_last() =~= cmds.take(n));
        lemma_with_action_grows(cmds, action, n + 1);
    } else {
        assert(cmds.take(n) =~= cmds);
    }
}

fn list_category(cmds: &Vec<PaletteCommand>, category: CommandCategory) -> (rows: Vec<PaletteRow>)
    ensures
        rows_of(rows@) == category_rows(commands_of(cmds@), category),
{
    let mut rows: Vec<PaletteRow> = Vec::new();
    let ghost all = commands_of(cmds@);
    let mut i: usize = 0;
    assert(rows_of(rows@) =~= category_rows(all.take(0), category));
    while i < cmds.len()
        invariant
            all == commands_of(cmds@),
            i <= cmds@.len(),
            rows_of(rows@) == category_rows(all.take(i as int), category),
        decreases cmds@.len() - i,
    {
        assert(all.take(i + 1).drop_last() =~= all.take(i as int));
        assert(all[i as int] == cmds@[i as int]@);
        if cmds[i].category == category {
            let ghost before = rows@;
            rows.push(PaletteRow::Command(i));
            assert(rows_of(rows@) =~= rows_of(before).push(Row::Command(i as int)));
        }
        i += 1;
    }
    assert(all.take(i as int) =~= all);
    rows
}

/// Moves `rows` to the end of `list`, under a heading.
fn add_section(list: &mut Vec<PaletteRow>, label: &str, rows: Vec<PaletteRow>)
    ensures
        rows_of(final(list)@) == rows_of(old(list)@) + section(label@, rows_of(rows@)),
{
    let mut rows = rows;
    let ghost given = rows@;
    let ghost start = list@;
    if rows.len() == 0 {
        assert(rows_of(list@) =~= rows_of(list@) + section(label@, rows_of(rows@)));
        return;
    }
    list.push(PaletteRow::Header(label.to_owned()));
    list.append(&mut rows);
    assert(rows_of(list@) =~= rows_of(start) + section(label@, rows_of(given)));
}

fn list_browsing(cmds: &Vec<PaletteCommand>, recent: &Vec<String>) -> (list: Vec<PaletteRow>)
    ensures
        rows_of(list@) == browsing_rows(commands_of(cmds@), text::texts(recent@)),
{
    let mut list: Vec<PaletteRow> = Vec::new();
    let ghost all = commands_of(cmds@);
    let ghost used = text::texts(recent@);
    if recent.len() > 0 {
        list.push(PaletteRow::Header("Recently Used".to_owned()));
        let ghost head = seq![Row::Header("Recently Used"@)];
        assert(rows_of(list@) =~= head + recent_rows(all, used.take(0)));
        let mut i: usize = 0;
        while i < recent.len()
            invariant
                all == commands_of(cmds@),
                used == text::texts(recent@),
                i <= recent@.len(),
                rows_of(list@) == head + recent_rows(all, used.take(i as int)),
            decreases recent@.len() - i,
        {
            assert(used.take(i + 1).drop_last() =~= used.take(i as int));
            assert(used[i as int] == recent@[i as int]@);
            if let Some(k) = find_action(cmds, recent[i].as_str()) {
                let ghost before = list@;
                list.push(PaletteRow::Command(k));
                assert(rows_of(list@) =~= rows_of(before).push(Row::Command(k as int)));
                assert(rows_of(list@) =~= head + recent_rows(all, used.take(i + 1)));
            }
            i += 1;
        }
        assert(used.take(i as int) =~= used);
    } else {
        assert(rows_of(list@) =~= Seq::empty());
    }
    let ghost top = rows_of(list@);
    let ghost cats = all_categories();
    let categories: [CommandCategory; 5] = [
        CommandCategory::Navigation,
        CommandCategory::Tabs,
        CommandCategory::View,
        CommandCategory::PrivacySecurity,
        CommandCategory::Tools,
    ];
    assert(categories@ =~= cats);
    let mut c: usize = 0;
    assert(rows_of(list@) =~= top + category_sections(all, cats.take(0)));
    while c < 5
        invariant
            all == commands_of(cmds@),
            cats == all_categories(),
            categories@ == cats,
            c <= 5,
            rows_of(list@) == top + category_sections(all, cats.take(c as int)),
        decreases 5 - c,
    {
        assert(cats.take(c + 1).drop_last() =~= cats.take(c as int));
        let rows = list_category(cmds, categories[c]);
        add_section(&mut list, categories[c].label(), rows);
        assert(rows_of(list@) =~= top + category_sections(all, cats.take(c + 1)));
        c += 1;
    }
    assert(cats.take(5) =~= cats);
    list
}

// The rows for a query.

/// A command that matches a query: its index in the list, and its score.
#[derive(Clone, Copy)]
pub struct Hit {
    pub index: usize,
    pub score: i32,
}

/// The commands that match the query, in the order of the list.
pub open spec fn hits(query: Seq<char>, cmds: Seq<Command>) -> Seq<Hit>
    decreases cmds.len(),
{
    if cmds.len() == 0 {
        Seq::empty()
    } else {
        let before = hits(query, cmds.drop_last());
        match command_score(query, cmds.last()) {
            Some(score) => before.push(Hit { index: (cmds.len() - 1) as usize, score }),
            None => before,
        }
    }
}

/// The better score first.
pub open spec fn by_score() -> spec_fn(Hit, Hit) -> bool {
    |a: Hit, b: Hit| a.score > b.score
}

/// The hits with the best score first; equal scores keep the order of the list.
pub open spec fn ranked(found: Seq<Hit>) -> Seq<Hit> {
    sorting::sorted(found, by_score())
}

/// A row for each hit.
pub open spec fn hit_rows(found: Seq<Hit>) -> Seq<Row> {
    found.map_values(|h: Hit| Row::Command(h.index as int))
}

/// The hits of a category.
pub open spec fn category_hits(
    cmds: Seq<Command>,
    found: Seq<Hit>,
    category: CommandCategory,
) -> Seq<Hit>
    decreases found.len(),
{
    if found.len() == 0 {
        Seq::empty()
    } else {
        let before = category_hits(cmds, found.drop_last(), category);
        if cmds[found.last().index as int].category == category {
            before.push(found.last())
        } else {
            before
        }
    }
}

/// The largest score among the hits, or zero where there is none.
pub open spec fn best_score(found: Seq<Hit>) -> int
    decreases found.len(),
{
    if found.len() == 0 {
        0
    } else if found.len() == 1 {
        found[0].score as int
    } else {
        let before = best_score(found.drop_last());
        if found.last().score > before {
            found.last().score as int
        } else {
            before
        }
    }
}

/// The categories, in their order, that have a hit.
pub open spec fn hit_categories(
    cmds: Seq<Command>,
    found: Seq<Hit>,
    categories: Seq<CommandCategory>,
) -> Seq<CommandCategory>
    decreases categories.len(),
{
    if categories.len() == 0 {
        Seq::empty()
    } else {
        let before = hit_categories(cmds, found, categories.drop_last());
        if category_hits(cmds, found, categories.last()).len() > 0 {
            before.push(categories.last())
        } else {
            before
        }
    }
}

/// The category with the better hit first.
pub open spec fn by_best(cmds: Seq<Command>, found: Seq<Hit>) -> spec_fn(
    CommandCategory,
    CommandCategory,
) -> bool {
    |a: CommandCategory, b: CommandCategory|
        best_score(category_hits(cmds, found, a)) > best_score(category_hits(cmds, found, b))
}

/// The categories with a hit, that with the best hit first.
pub open spec fn category_order(cmds: Seq<Command>, found: Seq<Hit>) -> Seq<CommandCategory> {
    sorting::sorted(hit_categories(cmds, found, all_categories()), by_best(cmds, found))
}

/// The hits of the given categories, each under the category's heading.
pub open spec fn hit_sections(
    cmds: Seq<Command>,
    found: Seq<Hit>,
    categories: Seq<CommandCategory>,
) -> Seq<Row>
    decreases categories.len(),
{
    if categories.len() == 0 {
        Seq::empty()
    } else {
        hit_sections(cmds, found, categories.drop_last()) + section(
            category_label(categories.last()),
            hit_rows(category_hits(cmds, found, categories.last())),
        )
    }
}

/// Up to this many results are shown without headings.
pub const FLAT_LIMIT: usize = 6;

/// The rows for a query: the matching commands by score, and where they are
/// many, grouped by category.
pub open spec fn search_rows(cmds: Seq<Command>, query: Seq<char>) -> Seq<Row> {
    let found = ranked(hits(query, cmds));
    if found.len() <= FLAT_LIMIT {
        hit_rows(found)
    } else {
        hit_sections(cmds, found, category_order(cmds, found))
    }
}

/// The rows that the palette shows.
pub open spec fn palette_rows(
    cmds: Seq<Command>,
    recent: Seq<Seq<char>>,
    query: Seq<char>,
) -> Seq<Row> {
    if text::trimmed(query).len() == 0 {
        browsing_rows(cmds, recent)
    } else {
        search_rows(cmds, query)
    }
}

/// The label that says how many commands there are, or how many match.
pub open spec fn count_text(cmds: Seq<Command>, query: Seq<char>) -> Seq<char> {
    if text::trimmed(query).len() == 0 {
        text::decimal(cmds.len()) + " commands"@
    } else {
        text::decimal(hits(query, cmds).len()) + " of "@ + text::decimal(cmds.len()) + " commands"@
    }
}

/// The indices of the rows that can be selected: all but the headings.
pub open spec fn selectable(rows: Seq<Row>) -> Seq<int>
    decreases rows.len(),
{
    if rows.len() == 0 {
        Seq::empty()
    } else {
        let before = selectable(rows.drop_last());
        match rows.last() {
            Row::Header(_) => before,
            Row::Command(_) => before.push(rows.len() - 1),
        }
    }
}

/// Hits name commands of the list.
proof fn lemma_hits_in_range(query: Seq<char>, cmds: Seq<Command>)
    requires
        cmds.len() <= usize::MAX,
    ensures
        forall|i: int|
            0 <= i < hits(query, cmds).len() ==> (#[trigger] hits(query, cmds)[i]).index < cmds.len(),
        hits(query, cmds).len() <= cmds.len(),
    decreases cmds.len(),
{
    if cmds.len() > 0 {
        lemma_hits_in_range(query, cmds.drop_last());
        let before = hits(query, cmds.drop_last());
        let now = hits(query, cmds);
        assert forall|i: int| 0 <= i < now.len() implies (#[trigger] now[i]).index < cmds.len() by {
            if i < before.len() {
                assert(now[i] == before[i]);
            }
        }
    }
}

fn find_hits(cmds: &Vec<PaletteCommand>, query: &str) -> (found: Vec<Hit>)
    ensures
        found@ == hits(query@, commands_of(cmds@)),
{
    let mut found: Vec<Hit> = Vec::new();
    let ghost all = commands_of(cmds@);
    let mut i: usize = 0;
    while i < cmds.len()
        invariant
            all == commands_of(cmds@),
            i <= cmds@.len(),
            found@ == hits(query@, all.take(i as int)),
        decreases cmds@.len() - i,
    {
        assert(all.take(i + 1).drop_last() =~= all.take(i as int));
        assert(all[i as int] == cmds@[i as int]@);
        if let Some(score) = score_command(query, &cmds[i]) {
            found.push(Hit { index: i, score });
        }
        i += 1;
    }
    assert(all.take(i as int) =~= all);
    found
}

fn rank_hits(found: &Vec<Hit>) -> (r: Vec<Hit>)
    ensures
        r@ == ranked(found@),
        forall|i: int| 0 <= i < r@.len() ==> found@.contains(#[trigger] r@[i]),
        r@.len() == found@.len(),
{
    let mut keys: Vec<sorting::Descending<i64>> = Vec::new();
    let mut i: usize = 0;
    while i < found.len()
        invariant
            i <= found@.len(),
            keys@.len() == i,
            forall|k: int| 0 <= k < i ==> #[trigger] keys@[k].0 == found@[k].score,
        decreases found@.len() - i,
    {
        keys.push(sorting::Descending(found[i].score as i64));
        i += 1;
    }
    let order = sorting::order_by(&keys);
    let mut r: Vec<Hit> = Vec::new();
    let mut k: usize = 0;
    let ghost picks = sorting::picked(found@, order@);
    while k < order.len()
        invariant
            k <= order@.len(),
            picks == sorting::picked(found@, order@),
            forall|j: int| 0 <= j < order@.len() ==> (#[trigger] order@[j] as int) < found@.len(),
            r@ == picks.take(k as int),
            forall|j: int| 0 <= j < r@.len() ==> found@.contains(#[trigger] r@[j]),
        decreases order@.len() - k,
    {
        let h: Hit = found[order[k]];
        assert(found@.contains(h));
        r.push(h);
        assert(r@ =~= picks.take(k + 1));
        k += 1;
    }
    assert(picks.take(k as int) =~= picks);
    proof {
        sorting::lemma_picked_is_sorted(found@, by_score(), keys@, order@);
    }
    r
}

/// Hits that name commands of the list.
spec fn hits_in(found: Seq<Hit>, n: nat) -> bool {
    forall|i: int| 0 <= i < found.len() ==> (#[trigger] found[i]).index < n
}

fn pick_category(
    cmds: &Vec<PaletteCommand>,
    found: &Vec<Hit>,
    category: CommandCategory,
) -> (r: Vec<Hit>)
    requires
        hits_in(found@, cmds@.len()),
    ensures
        r@ == category_hits(commands_of(cmds@), found@, category),
{
    let mut r: Vec<Hit> = Vec::new();
    let ghost all = commands_of(cmds@);
    let mut i: usize = 0;
    while i < found.len()
        invariant
            all == commands_of(cmds@),
            hits_in(found@, cmds@.len()),
            i <= found@.len(),
            r@ == category_hits(all, found@.take(i as int), category),
        decreases found@.len() - i,
    {
        assert(found@.take(i + 1).drop_last() =~= found@.take(i as int));
        let h: Hit = found[i];
        assert(all[h.index as int] == cmds@[h.index as int]@);
        if cmds[h.index].category == category {
            r.push(h);
        }
        i += 1;
    }
    assert(found@.take(i as int) =~= found@);
    r
}

fn best_of(found: &Vec<Hit>) -> (r: i64)
    ensures
        r == best_score(found@),
{
    if found.len() == 0 {
        return 0;
    }
    let mut best: i64 = found[0].score as i64;
    let mut i: usize = 1;
    assert(best == best_score(found@.take(1)));
    while i < found.len()
        invariant
            1 <= i <= found@.len(),
            best == best_score(found@.take(i as int)),
        decreases found@.len() - i,
    {
        assert(found@.take(i + 1).drop_last() =~= found@.take(i as int));
        if found[i].score as i64 > best {
            best = found[i].score as i64;
        }
        i += 1;
    }
    assert(found@.take(i as int) =~= found@);
    best
}

fn rows_for_hits(found: &Vec<Hit>) -> (rows: Vec<PaletteRow>)
    ensures
        rows_of(rows@) == hit_rows(found@),
{
    let mut rows: Vec<PaletteRow> = Vec::new();
    let mut i: usize = 0;
    while i < found.len()
        invariant
            i <= found@.len(),
            rows_of(rows@) == hit_rows(found@.take(i as int)),
        decreases found@.len() - i,
    {
        let ghost before = rows@;
        rows.push(PaletteRow::Command(found[i].index));
        assert(rows_of(rows@) =~= rows_of(before).push(Row::Command(found@[i as int].index as int)));
        assert(rows_of(rows@) =~= hit_rows(found@.take(i + 1)));
        i += 1;
    }
    assert(found@.take(i as int) =~= found@);
    rows
}

fn order_categories(cmds: &Vec<PaletteCommand>, found: &Vec<Hit>) -> (r: Vec<CommandCategory>)
    requires
        hits_in(found@, cmds@.len()),
    ensures
        r@ == category_order(commands_of(cmds@), found@),
{
    let ghost all = commands_of(cmds@);
    let ghost cats = all_categories();
    let categories: [CommandCategory; 5] = [
        CommandCategory::Navigation,
        CommandCategory::Tabs,
        CommandCategory::View,
        CommandCategory::PrivacySecurity,
        CommandCategory::Tools,
    ];
    assert(categories@ =~= cats);
    let mut present: Vec<CommandCategory> = Vec::new();
    let mut keys: Vec<sorting::Descending<i64>> = Vec::new();
    let mut c: usize = 0;
    while c < 5
        invariant
            all == commands_of(cmds@),
            hits_in(found@, cmds@.len()),
            cats == all_categories(),
            categories@ == cats,
            c <= 5,
            present@ == hit_categories(all, found@, cats.take(c as int)),
            keys@.len() == present@.len(),
            forall|k: int|
                0 <= k < keys@.len() ==> #[trigger] keys@[k].0 == best_score(
                    category_hits(all, found@, present@[k]),
                ),
        decreases 5 - c,
    {
        assert(cats.take(c + 1).drop_last() =~= cats.take(c as int));
        let group = pick_category(cmds, found, categories[c]);
        if group.len() > 0 {
            keys.push(sorting::Descending(best_of(&group)));
            present.push(categories[c]);
        }
        c += 1;
    }
    assert(cats.take(5) =~= cats);
    let order = sorting::order_by(&keys);
    let mut r: Vec<CommandCategory> = Vec::new();
    let ghost picks = sorting::picked(present@, order@);
    let mut k: usize = 0;
    while k < order.len()
        invariant
            k <= order@.len(),
            picks == sorting::picked(present@, order@),
            forall|j: int| 0 <= j < order@.len() ==> (#[trigger] order@[j] as int) < present@.len(),
            r@ == picks.take(k as int),
        decreases order@.len() - k,
    {
        r.push(present[order[k]]);
        assert(r@ =~= picks.take(k + 1));
        k += 1;
    }
    assert(picks.take(k as int) =~= picks);
    proof {
        sorting::lemma_picked_is_sorted(present@, by_best(all, found@), keys@, order@);
    }
    r
}

fn list_search(cmds: &Vec<PaletteCommand>, query: &str) -> (list: Vec<PaletteRow>)
    ensures
        rows_of(list@) == search_rows(commands_of(cmds@), query@),
{
    let ghost all = commands_of(cmds@);
    let unsorted = find_hits(cmds, query);
    let found = rank_hits(&unsorted);
    assert(all.len() == cmds.len());
    proof {
        lemma_hits_in_range(query@, all);
        assert forall|i: int| 0 <= i < found@.len() implies (#[trigger] found@[i]).index
            < cmds@.len() by {
            let k = choose|k: int| 0 <= k < unsorted@.len() && unsorted@[k] == found@[i];
            assert(unsorted@[k].index < all.len());
        }
    }
    if found.len() <= FLAT_LIMIT {
        return rows_for_hits(&found);
    }
    let categories = order_categories(cmds, &found);
    let ghost cats = categories@;
    let mut list: Vec<PaletteRow> = Vec::new();
    let mut c: usize = 0;
    assert(rows_of(list@) =~= hit_sections(all, found@, cats.take(0)));
    while c < categories.len()
        invariant
            all == commands_of(cmds@),
            hits_in(found@, cmds@.len()),
            cats == categories@,
            c <= cats.len(),
            rows_of(list@) == hit_sections(all, found@, cats.take(c as int)),
        decreases cats.len() - c,
    {
        assert(cats.take(c + 1).drop_last() =~= cats.take(c as int));
        let group = pick_category(cmds, &found, categories[c]);
        let rows = rows_for_hits(&group);
        add_section(&mut list, categories[c].label(), rows);
        c += 1;
    }
    assert(cats.take(c as int) =~= cats);
    list
}

/// What the palette shows for a query.
pub struct PaletteListing {
    /// The rows, top to bottom.
    pub rows: Vec<PaletteRow>,
    /// The indices of the rows that can be selected.
    pub selectable: Vec<usize>,
    /// How many commands there are, or how many match.
    pub count_text: String,
}

fn selectable_rows(rows: &Vec<PaletteRow>) -> (r: Vec<usize>)
    ensures
        r@.map_values(|i: usize| i as int) == selectable(rows_of(rows@)),
{
    let mut r: Vec<usize> = Vec::new();
    let ghost all = rows_of(rows@);
    let ghost f = |i: usize| i as int;
    let mut i: usize = 0;
    assert(r@.map_values(f) =~= selectable(all.take(0)));
    while i < rows.len()
        invariant
            all == rows_of(rows@),
            f == (|i: usize| i as int),
            i <= rows@.len(),
            r@.map_values(f) == selectable(all.take(i as int)),
        decreases rows@.len() - i,
    {
        assert(all.take(i + 1).drop_last() =~= all.take(i as int));
        assert(all[i as int] == rows@[i as int]@);
        if let PaletteRow::Command(_) = &rows[i] {
            let ghost before = r@;
            r.push(i);
            assert(r@.map_values(f) =~= before.map_values(f).push(i as int));
        }
        i += 1;
    }
    assert(all.take(i as int) =~= all);
    r
}

/// Lists the commands for a query, given which actions were used recently.
pub fn list_commands(cmds: &Vec<PaletteCommand>, recent: &Vec<String>, query: &str) -> (r:
    PaletteListing)
    ensures
        rows_of(r.rows@) == palette_rows(commands_of(cmds@), text::texts(recent@), query@),
        r.selectable@.map_values(|i: usize| i as int) == selectable(
            palette_rows(commands_of(cmds@), text::texts(recent@), query@),
        ),
        r.count_text@ == count_text(commands_of(cmds@), query@),
{
    let blank = text::trim(query).as_str().is_empty();
    let total = text::decimal_of(cmds.len() as u128);
    let ghost all = commands_of(cmds@);
    let mut count_text = String::new();
    let rows = if blank {
        count_text.append(total.as_str());
        count_text.append(" commands");
        assert(count_text@ =~= text::decimal(all.len()) + " commands"@);
        list_browsing(cmds, recent)
    } else {
        let matching = find_hits(cmds, query);
        let n = text::decimal_of(matching.len() as u128);
        count_text.append(n.as_str());
        count_text.append(" of ");
        count_text.append(total.as_str());
        count_text.append(" commands");
        assert(count_text@ =~= text::decimal(hits(query@, all).len()) + " of "@ + text::decimal(all.len())
            + " commands"@);
        list_search(cmds, query)
    };
    let selectable = selectable_rows(&rows);
    PaletteListing { rows, selectable, count_text }
}

/// The row that is selected when the list is first shown.
pub fn first_selection(selectable: &Vec<usize>) -> (r: Option<usize>)
    ensures
        r == if selectable@.len() == 0 {
            None
        } else {
            Some(selectable@[0])
        },
{
    if selectable.len() == 0 {
        None
    } else {
        Some(selectable[0])
    }
}

/// The place in the list of selectable rows after a move by `delta`: clamped
/// to the list; where nothing selectable is selected, the first row for a move
/// down and the last for a move up.
pub open spec fn moved_to(selectable: Seq<usize>, current: Option<usize>, delta: i32) -> int {
    if current is Some && selectable.contains(current->0) {
        let to = selectable.index_of_first(current->0)->0 + delta;
        if to < 0 {
            0
        } else if to >= selectable.len() {
            selectable.len() - 1
        } else {
            to
        }
    } else if delta > 0 {
        0
    } else {
        selectable.len() - 1
    }
}

/// The row to select after a move by `delta` among the selectable rows. `None`
/// where no row can be selected.
pub fn move_selection(selectable: &Vec<usize>, current: Option<usize>, delta: i32) -> (r: Option<
    usize,
>)
    ensures
        r == if selectable@.len() == 0 {
            None
        } else {
            Some(selectable@[moved_to(selectable@, current, delta)])
        },
{
    if selectable.len() == 0 {
        return None;
    }
    let mut place: Option<usize> = None;
    if let Some(row) = current {
        let mut i: usize = 0;
        while i < selectable.len() && selectable[i] != row
            invariant
                i <= selectable@.len(),
                forall|k: int| 0 <= k < i ==> selectable@[k] != row,
            decreases selectable@.len() - i,
        {
            i += 1;
        }
        if i < selectable.len() {
            proof {
                assert(selectable@.contains(row));
                selectable@.index_of_first_ensures(row);
                let k = selectable@.index_of_first(row)->0;
                assert(selectable@[i as int] == row);
            }
            place = Some(i);
        }
    }
    let last: usize = selectable.len() - 1;
    let to: usize = match place {
        Some(p) => {
            if delta >= 0 {
                let d: usize = delta as usize;
                if d > last - p {
                    last
                } else {
                    p + d
                }
            } else {
                let d: u64 = (-(delta as i64)) as u64;
                if d > p as u64 {
                    0
                } else {
                    p - d as usize
                }
            }
        },
        None => if delta > 0 {
            0
        } else {
            last
        },
    };
    Some(selectable[to])
}

/// The name under which the window knows an action, for actions of the window.
pub fn window_action(action: &str) -> (r: Option<String>)
    ensures
        match r {
            Some(name) => action@ == "win."@ + name@,
            None => !text::begins(action@, "win."@),
        },
{
    let v = text::chars_of(action);
    let prefix = text::chars_of("win.");
    if text::stands_at(v.as_slice(), prefix.as_slice(), 0) {
        let name = text::string_between(v.as_slice(), prefix.len(), v.len());
        assert("win."@ + name@ =~= action@);
        Some(name)
    } else {
        None
    }
}

// Laws.

/// The tier in which a lower-case query matches a lower-case target; zero
/// where it does not match.
pub open spec fn tier_of(q: Seq<char>, t: Seq<char>) -> int {
    if t == q {
        5
    } else if text::begins(t, q) {
        4
    } else if matches_word(t, q) {
        3
    } else if text::holds(t, q) {
        2
    } else if scattered(q, t, 0) is Some {
        1
    } else {
        0
    }
}

proof fn lemma_adjacent_is_natural(places: Seq<int>)
    ensures
        0 <= adjacent(places),
    decreases places.len(),
{
    if places.len() >= 2 {
        lemma_adjacent_is_natural(places.drop_last());
    }
}

/// An exact match scores above a prefix, a prefix above the start of a word,
/// that above any other substring, and that above scattered characters.
pub proof fn law_better_tier_scores_higher(q: Seq<char>, a: Seq<char>, b: Seq<char>)
    requires
        tier_of(q, a) > tier_of(q, b) > 0,
    ensures
        match_score(q, a) is Some,
        match_score(q, b) is Some,
        match_score(q, a)->0 > match_score(q, b)->0,
{
    if tier_of(q, b) == 1 {
        lemma_adjacent_is_natural(scattered(q, b, 0)->0);
    }
}

/// A target scores exactly where it matches in some tier.
pub proof fn law_score_iff_match(q: Seq<char>, t: Seq<char>)
    ensures
        match_score(q, t) is Some <==> tier_of(q, t) > 0,
{
}

/// Recording an action puts it first, keeps the others in order and the list
/// without repetitions and within its limit.
pub proof fn law_recent_stays_bounded(list: Seq<Seq<char>>, action: Seq<char>)
    requires
        list.no_duplicates(),
    ensures
        recorded(list, action).no_duplicates(),
        recorded(list, action).len() <= RECENT_LIMIT,
        recorded(list, action)[0] == action,
        forall|a: Seq<char>|
            list.len() < RECENT_LIMIT && list.contains(a) ==> recorded(list, action).contains(a),
{
    let f = other_than(action);
    let kept = list.filter(f);
    lemma_filter_no_duplicates(list, f);
    broadcast use vstd::seq_lib::group_filter_ensures;

    let longer = seq![action] + kept;
    assert(recorded(list, action) == if longer.len() > RECENT_LIMIT {
        longer.take(RECENT_LIMIT as int)
    } else {
        longer
    });
    assert(longer.no_duplicates()) by {
        assert forall|i: int, j: int| 0 <= i < longer.len() && 0 <= j < longer.len() && i != j implies longer[i]
            != longer[j] by {
            if i > 0 {
                assert(longer[i] == kept[i - 1]);
                assert(f(kept[i - 1]));
            }
            if j > 0 {
                assert(longer[j] == kept[j - 1]);
                assert(f(kept[j - 1]));
            }
        }
    }
    assert forall|a: Seq<char>| list.len() < RECENT_LIMIT && list.contains(a) implies recorded(
        list,
        action,
    ).contains(a) by {
        if a == action {
            assert(longer[0] == a);
        } else {
            let i = choose|i: int| 0 <= i < list.len() && list[i] == a;
            assert(kept.contains(list[i]));
            let k = choose|k: int| 0 <= k < kept.len() && kept[k] == a;
            assert(longer[k + 1] == a);
        }
    }
}

proof fn lemma_filter_no_duplicates(list: Seq<Seq<char>>, f: spec_fn(Seq<char>) -> bool)
    requires
        list.no_duplicates(),
    ensures
        list.filter(f).no_duplicates(),
    decreases list.len(),
{
    reveal(Seq::filter);
    if list.len() > 0 {
        let shorter = list.drop_last();
        lemma_filter_no_duplicates(shorter, f);
        let kept = shorter.filter(f);
        if f(list.last()) {
            let now = kept.push(list.last());
            assert forall|i: int, j: int| 0 <= i < now.len() && 0 <= j < now.len() && i != j implies now[i]
                != now[j] by {
                if i < kept.len() && j == kept.len() {
                    shorter.lemma_filter_contains_rev(f, kept[i]);
                }
                if j < kept.len() && i == kept.len() {
                    shorter.lemma_filter_contains_rev(f, kept[j]);
                }
            }
        }
    }
}

/// Some hit names the command at index `i`.
pub open spec fn names(found: Seq<Hit>, i: int) -> bool {
    exists|k: int| 0 <= k < found.len() && (#[trigger] found[k]).index == i
}

proof fn lemma_hits_name_matches(query: Seq<char>, cmds: Seq<Command>, i: int)
    requires
        cmds.len() <= usize::MAX,
        0 <= i < cmds.len(),
    ensures
        names(hits(query, cmds), i) <==> command_score(query, cmds[i]) is Some,
    decreases cmds.len(),
{
    let before = hits(query, cmds.drop_last());
    let now = hits(query, cmds);
    lemma_hits_in_range(query, cmds.drop_last());
    if i < cmds.len() - 1 {
        lemma_hits_name_matches(query, cmds.drop_last(), i);
        if names(before, i) {
            let k = choose|k: int| 0 <= k < before.len() && (#[trigger] before[k]).index == i;
            assert(now[k] == before[k]);
        }
        if names(now, i) {
            let k = choose|k: int| 0 <= k < now.len() && (#[trigger] now[k]).index == i;
            assert(before[k] == now[k]);
        }
    } else {
        if names(now, i) {
            let k = choose|k: int| 0 <= k < now.len() && (#[trigger] now[k]).index == i;
            if k < before.len() {
                assert(now[k] == before[k]);
            }
        }
        if command_score(query, cmds[i]) is Some {
            assert(now[before.len() as int].index == i);
        }
    }
}

/// Ranking keeps the hits and puts no hit before a better one.
pub proof fn law_ranked(found: Seq<Hit>)
    requires
        found.len() <= usize::MAX,
    ensures
        ranked(found).len() == found.len(),
        forall|h: Hit| ranked(found).contains(h) <==> found.contains(h),
        forall|i: int, j: int|
            0 <= i < j < found.len() ==> #[trigger] ranked(found)[i].score
                >= #[trigger] ranked(found)[j].score,
{
    let less = by_score();
    assert(sorting::strict_weak(less));
    sorting::law_sorted(found, less);
    let r = ranked(found);
    assert forall|i: int, j: int| 0 <= i < j < found.len() implies #[trigger] r[i].score
        >= #[trigger] r[j].score by {
        assert(!less(r[j], r[i]));
    }
}

proof fn lemma_names_members(a: Seq<Hit>, b: Seq<Hit>, i: int)
    requires
        forall|h: Hit| a.contains(h) ==> b.contains(h),
        names(a, i),
    ensures
        names(b, i),
{
    let k = choose|k: int| 0 <= k < a.len() && (#[trigger] a[k]).index == i;
    assert(a.contains(a[k]));
    let j = choose|j: int| 0 <= j < b.len() && b[j] == a[k];
    assert(b[j].index == i);
}

proof fn lemma_hit_rows(found: Seq<Hit>, i: int)
    ensures
        hit_rows(found).contains(Row::Command(i)) <==> names(found, i),
{
    let rows = hit_rows(found);
    if rows.contains(Row::Command(i)) {
        let k = choose|k: int| 0 <= k < rows.len() && rows[k] == Row::Command(i);
        assert(found[k].index == i);
    }
    if names(found, i) {
        let k = choose|k: int| 0 <= k < found.len() && (#[trigger] found[k]).index == i;
        assert(rows[k] == Row::Command(i));
    }
}

proof fn lemma_category_hits(
    cmds: Seq<Command>,
    found: Seq<Hit>,
    category: CommandCategory,
    h: Hit,
)
    ensures
        category_hits(cmds, found, category).contains(h) <==> found.contains(h)
            && cmds[h.index as int].category == category,
    decreases found.len(),
{
    if found.len() > 0 {
        let shorter = found.drop_last();
        lemma_category_hits(cmds, shorter, category, h);
        let before = category_hits(cmds, shorter, category);
        let now = category_hits(cmds, found, category);
        assert(found =~= shorter.push(found.last()));
        assert(found.contains(h) <==> shorter.contains(h) || found.last() == h) by {
            if found.contains(h) {
                let k = choose|k: int| 0 <= k < found.len() && found[k] == h;
                if k < shorter.len() {
                    assert(shorter[k] == h);
                }
            }
            if shorter.contains(h) {
                let k = choose|k: int| 0 <= k < shorter.len() && shorter[k] == h;
                assert(found[k] == h);
            }
        }
        if now.contains(h) {
            let k = choose|k: int| 0 <= k < now.len() && now[k] == h;
            if k < before.len() {
                assert(before[k] == h);
            }
        }
        if before.contains(h) {
            let k = choose|k: int| 0 <= k < before.len() && before[k] == h;
            assert(now[k] == h);
        }
        if found.last() == h && cmds[h.index as int].category == category {
            assert(now[before.len() as int] == h);
        }
    }
}

proof fn lemma_hit_categories(
    cmds: Seq<Command>,
    found: Seq<Hit>,
    categories: Seq<CommandCategory>,
    c: CommandCategory,
)
    ensures
        hit_categories(cmds, found, categories).contains(c) <==> categories.contains(c)
            && category_hits(cmds, found, c).len() > 0,
        hit_categories(cmds, found, categories).len() <= categories.len(),
    decreases categories.len(),
{
    if categories.len() > 0 {
        let shorter = categories.drop_last();
        lemma_hit_categories(cmds, found, shorter, c);
        let before = hit_categories(cmds, found, shorter);
        let now = hit_categories(cmds, found, categories);
        if categories.contains(c) {
            let k = choose|k: int| 0 <= k < categories.len() && categories[k] == c;
            if k < shorter.len() {
                assert(shorter[k] == c);
            }
        }
        if shorter.contains(c) {
            let k = choose|k: int| 0 <= k < shorter.len() && shorter[k] == c;
            assert(categories[k] == c);
        }
        if now.contains(c) {
            let k = choose|k: int| 0 <= k < now.len() && now[k] == c;
            if k < before.len() {
                assert(before[k] == c);
            } else {
                assert(categories[categories.len() - 1] == c);
            }
        }
        if before.contains(c) {
            let k = choose|k: int| 0 <= k < before.len() && before[k] == c;
            assert(now[k] == c);
        }
        if categories.last() == c && category_hits(cmds, found, c).len() > 0 {
            assert(now[before.len() as int] == c);
        }
    }
}

proof fn lemma_section_commands(label: Seq<char>, rows: Seq<Row>, i: int)
    ensures
        section(label, rows).contains(Row::Command(i)) <==> rows.contains(Row::Command(i)),
{
    let s = section(label, rows);
    if s.contains(Row::Command(i)) {
        let k = choose|k: int| 0 <= k < s.len() && s[k] == Row::Command(i);
        assert(rows[k - 1] == Row::Command(i));
    }
    if rows.contains(Row::Command(i)) {
        let k = choose|k: int| 0 <= k < rows.len() && rows[k] == Row::Command(i);
        assert(s[k + 1] == Row::Command(i));
    }
}

proof fn lemma_concat_contains(a: Seq<Row>, b: Seq<Row>, r: Row)
    ensures
        (a + b).contains(r) <==> a.contains(r) || b.contains(r),
{
    let s = a + b;
    if s.contains(r) {
        let k = choose|k: int| 0 <= k < s.len() && s[k] == r;
        if k < a.len() {
            assert(a[k] == r);
        } else {
            assert(b[k - a.len()] == r);
        }
    }
    if a.contains(r) {
        let k = choose|k: int| 0 <= k < a.len() && a[k] == r;
        assert(s[k] == r);
    }
    if b.contains(r) {
        let k = choose|k: int| 0 <= k < b.len() && b[k] == r;
        assert(s[k + a.len()] == r);
    }
}

proof fn lemma_hit_sections(
    cmds: Seq<Command>,
    found: Seq<Hit>,
    categories: Seq<CommandCategory>,
    i: int,
)
    requires
        forall|k: int| 0 <= k < found.len() ==> (#[trigger] found[k]).index < cmds.len(),
    ensures
        hit_sections(cmds, found, categories).contains(Row::Command(i)) <==> (names(found, i)
            && categories.contains(cmds[i].category)),
    decreases categories.len(),
{
    if categories.len() > 0 {
        let shorter = categories.drop_last();
        let c = categories.last();
        lemma_hit_sections(cmds, found, shorter, i);
        let group = category_hits(cmds, found, c);
        lemma_hit_rows(group, i);
        lemma_section_commands(category_label(c), hit_rows(group), i);
        lemma_concat_contains(
            hit_sections(cmds, found, shorter),
            section(category_label(c), hit_rows(group)),
            Row::Command(i),
        );
        assert(names(group, i) <==> names(found, i) && cmds[i].category == c) by {
            if names(group, i) {
                let k = choose|k: int| 0 <= k < group.len() && (#[trigger] group[k]).index == i;
                assert(group.contains(group[k]));
                lemma_category_hits(cmds, found, c, group[k]);
                let j = choose|j: int| 0 <= j < found.len() && found[j] == group[k];
                assert(found[j].index == i);
            }
            if names(found, i) && cmds[i].category == c {
                let k = choose|k: int| 0 <= k < found.len() && (#[trigger] found[k]).index == i;
                assert(found.contains(found[k]));
                lemma_category_hits(cmds, found, c, found[k]);
                let j = choose|j: int| 0 <= j < group.len() && group[j] == found[k];
                assert(group[j].index == i);
            }
        }
        if shorter.contains(cmds[i].category) {
            let k = choose|k: int| 0 <= k < shorter.len() && shorter[k] == cmds[i].category;
            assert(categories[k] == cmds[i].category);
        }
        if categories.contains(cmds[i].category) {
            let k = choose|k: int| 0 <= k < categories.len() && categories[k] == cmds[i].category;
            if k < shorter.len() {
                assert(shorter[k] == cmds[i].category);
            }
        }
        assert(categories[categories.len() - 1] == c);
    }
}

proof fn lemma_every_category_listed(c: CommandCategory)
    ensures
        all_categories().contains(c),
{
    assert(all_categories()[category_rank(c)] == c);
}

/// A search lists the commands that match the query, all of them and no others.
pub proof fn law_search_lists_matches(cmds: Seq<Command>, query: Seq<char>, i: int)
    requires
        cmds.len() <= usize::MAX,
        0 <= i < cmds.len(),
    ensures
        search_rows(cmds, query).contains(Row::Command(i)) <==> command_score(query, cmds[i]) is Some,
{
    let unsorted = hits(query, cmds);
    let found = ranked(unsorted);
    lemma_hits_in_range(query, cmds);
    lemma_hits_name_matches(query, cmds, i);
    law_ranked(unsorted);
    if names(unsorted, i) {
        lemma_names_members(unsorted, found, i);
    }
    if names(found, i) {
        lemma_names_members(found, unsorted, i);
    }
    lemma_hit_rows(found, i);
    if found.len() > FLAT_LIMIT {
        assert forall|k: int| 0 <= k < found.len() implies (#[trigger] found[k]).index
            < cmds.len() by {
            assert(ranked(unsorted).contains(found[k]));
            assert(unsorted.contains(found[k]));
            let j = choose|j: int| 0 <= j < unsorted.len() && unsorted[j] == found[k];
            assert(unsorted[j].index < cmds.len());
        }
        let order = category_order(cmds, found);
        lemma_hit_sections(cmds, found, order, i);
        let c = cmds[i].category;
        let present = hit_categories(cmds, found, all_categories());
        lemma_every_category_listed(c);
        lemma_hit_categories(cmds, found, all_categories(), c);
        let less = by_best(cmds, found);
        assert(sorting::strict_weak(less));
        sorting::law_sorted(present, less);
        if names(found, i) {
            let k = choose|k: int| 0 <= k < found.len() && (#[trigger] found[k]).index == i;
            assert(found.contains(found[k]));
            lemma_category_hits(cmds, found, c, found[k]);
            assert(category_hits(cmds, found, c).len() > 0);
            assert(present.contains(c));
            assert(order.contains(c));
        }
    }
}

proof fn lemma_category_rows(cmds: Seq<Command>, category: CommandCategory, i: int)
    ensures
        category_rows(cmds, category).contains(Row::Command(i)) <==> 0 <= i < cmds.len()
            && cmds[i].category == category,
    decreases cmds.len(),
{
    if cmds.len() > 0 {
        let shorter = cmds.drop_last();
        lemma_category_rows(shorter, category, i);
        let before = category_rows(shorter, category);
        let now = category_rows(cmds, category);
        if now.contains(Row::Command(i)) {
            let k = choose|k: int| 0 <= k < now.len() && now[k] == Row::Command(i);
            if k < before.len() {
                assert(before[k] == Row::Command(i));
            }
        }
        if before.contains(Row::Command(i)) {
            let k = choose|k: int| 0 <= k < before.len() && before[k] == Row::Command(i);
            assert(now[k] == Row::Command(i));
        }
        if i == cmds.len() - 1 && cmds[i].category == category {
            assert(now[before.len() as int] == Row::Command(i));
        }
    }
}

proof fn lemma_category_sections(cmds: Seq<Command>, categories: Seq<CommandCategory>, i: int)
    requires
        0 <= i < cmds.len(),
    ensures
        categories.contains(cmds[i].category) ==> category_sections(cmds, categories).contains(
            Row::Command(i),
        ),
    decreases categories.len(),
{
    if categories.len() > 0 {
        let shorter = categories.drop_last();
        let c = categories.last();
        lemma_category_sections(cmds, shorter, i);
        lemma_category_rows(cmds, c, i);
        lemma_section_commands(category_label(c), category_rows(cmds, c), i);
        lemma_concat_contains(
            category_sections(cmds, shorter),
            section(category_label(c), category_rows(cmds, c)),
            Row::Command(i),
        );
        if categories.contains(cmds[i].category) {
            let k = choose|k: int| 0 <= k < categories.len() && categories[k] == cmds[i].category;
            if k < shorter.len() {
                assert(shorter[k] == cmds[i].category);
            }
        }
    }
}

/// A blank query lists every command.
pub proof fn law_browsing_lists_all(cmds: Seq<Command>, recent: Seq<Seq<char>>, i: int)
    requires
        0 <= i < cmds.len(),
    ensures
        browsing_rows(cmds, recent).contains(Row::Command(i)),
{
    lemma_every_category_listed(cmds[i].category);
    lemma_category_sections(cmds, all_categories(), i);
    let top = if recent.len() == 0 {
        Seq::<Row>::empty()
    } else {
        seq![Row::Header("Recently Used"@)] + recent_rows(cmds, recent)
    };
    lemma_concat_contains(top, category_sections(cmds, all_categories()), Row::Command(i));
    assert(browsing_rows(cmds, recent) =~= top + category_sections(cmds, all_categories()));
}

proof fn lemma_first_recent(cmds: Seq<Command>, recent: Seq<Seq<char>>)
    requires
        recent.len() > 0,
        with_action(cmds, recent[0]) is Some,
    ensures
        recent_rows(cmds, recent).len() > 0,
        recent_rows(cmds, recent)[0] == Row::Command(with_action(cmds, recent[0])->0),
    decreases recent.len(),
{
    if recent.len() > 1 {
        assert(recent.drop_last()[0] == recent[0]);
        lemma_first_recent(cmds, recent.drop_last());
    } else {
        assert(recent_rows(cmds, recent.drop_last()) =~= Seq::empty());
    }
}

/// The action that was used last is the first that a blank query lists, under
/// the heading for those used recently.
pub proof fn law_recent_float_to_the_top(
    cmds: Seq<Command>,
    recent: Seq<Seq<char>>,
    action: Seq<char>,
)
    requires
        with_action(cmds, action) is Some,
    ensures
        browsing_rows(cmds, recorded(recent, action)).len() >= 2,
        browsing_rows(cmds, recorded(recent, action))[0] == Row::Header("Recently Used"@),
        browsing_rows(cmds, recorded(recent, action))[1] == Row::Command(
            with_action(cmds, action)->0,
        ),
{
    let list = recorded(recent, action);
    assert(list.len() > 0 && list[0] == action);
    lemma_first_recent(cmds, list);
}

/// A move of the selection stays within the rows that can be selected.
pub proof fn law_move_stays_in_list(selectable: Seq<usize>, current: Option<usize>, delta: i32)
    requires
        selectable.len() > 0,
    ensures
        0 <= moved_to(selectable, current, delta) < selectable.len(),
{
    if current is Some {
        selectable.index_of_first_ensures(current->0);
    }
}

/// Where a command with the name stands in the table.
spec fn name_rank(s: Seq<char>) -> int {
    let m = (s.len() as int, s[3], s[s.len() - 6]);
    if m == (7int, 'H', 'o') {
        0
    } else if m == (7int, 'B', 'o') {
        1
    } else if m == (10int, 'F', 'o') {
        2
    } else if m == (11int, 'o', 'd') {
        3
    } else if m == (12int, 'p', 'o') {
        4
    } else if m == (17int, 'u', 's') {
        5
    } else if m == (8int, 'y', 'p') {
        6
    } else if m == (7int, ' ', 'e') {
        7
    } else if m == (9int, 's', 's') {
        8
    } else if m == (8int, 't', 'x') {
        9
    } else if m == (12int, 'v', 'u') {
        10
    } else if m == (14int, 'g', 'i') {
        11
    } else if m == (17int, 'g', 't') {
        12
    } else if m == (17int, 'g', 's') {
        13
    } else if m == (7int, 'm', 'o') {
        14
    } else if m == (8int, 'm', 'o') {
        15
    } else if m == (10int, 'e', 't') {
        16
    } else if m == (17int, 'g', 'l') {
        17
    } else if m == (20int, 'r', 'c') {
        18
    } else if m == (13int, 'a', 'i') {
        19
    } else if m == (15int, 'g', 'o') {
        20
    } else if m == (12int, 'w', 'i') {
        21
    } else if m == (14int, 'w', 'k') {
        22
    } else if m == (14int, 'w', 'n') {
        23
    } else if m == (14int, 'w', 's') {
        24
    } else if m == (8int, 't', 't') {
        25
    } else if m == (10int, 'n', 't') {
        26
    } else if m == (11int, 'w', 'S') {
        27
    } else if m == (20int, 'n', ' ') {
        28
    } else {
        -1
    }
}

/// Where a command with the action stands in the table.
spec fn action_rank(s: Seq<char>) -> int {
    let m = (s.len() as int, s[7], s[s.len() - 5]);
    if m == (11int, 'h', '-') {
        0
    } else if m == (11int, 'b', '-') {
        1
    } else if m == (14int, 'f', 'r') {
        2
    } else if m == (10int, 'o', 'e') {
        3
    } else if m == (16int, 'p', 'a') {
        4
    } else if m == (13int, 'u', 's') {
        5
    } else if m == (12int, 'y', 'y') {
        6
    } else if m == (11int, '-', 'w') {
        7
    } else if m == (13int, 's', 'e') {
        8
    } else if m == (12int, 't', 't') {
        9
    } else if m == (12int, 'v', 'v') {
        10
    } else if m == (18int, 'g', 'd') {
        11
    } else if m == (21int, 'g', '-') {
        12
    } else if m == (21int, 'g', 'c') {
        13
    } else if m == (11int, 'm', 'o') {
        14
    } else if m == (12int, 'm', 'm') {
        15
    } else if m == (14int, 'm', 'r') {
        16
    } else if m == (18int, 'g', 'b') {
        17
    } else if m == (21int, 'r', 'k') {
        18
    } else if m == (17int, 'a', 's') {
        19
    } else if m == (19int, 'g', 'k') {
        20
    } else if m == (16int, 'w', 's') {
        21
    } else if m == (18int, 'w', 'm') {
        22
    } else if m == (18int, 'w', 'l') {
        23
    } else if m == (18int, 'w', 'w') {
        24
    } else if m == (17int, 'w', 't') {
        25
    } else if m == (14int, 'n', '-') {
        26
    } else if m == (15int, 'w', 'o') {
        27
    } else if m == (17int, 'n', 't') {
        28
    } else {
        -1
    }
}

proof fn lemma_ranks(i: int)
    requires
        0 <= i < 29,
    ensures
        name_rank(command_table()[i].name) == i,
        action_rank(command_table()[i].action) == i,
{
    if i == 0 {
        reveal_strlit("Go Home");
        reveal_strlit("win.go-home");
    } else if i == 1 {
        reveal_strlit("Go Back");
        reveal_strlit("win.go-back");
    } else if i == 2 {
        reveal_strlit("Go Forward");
        reveal_strlit("win.go-forward");
    } else if i == 3 {
        reveal_strlit("Reload Page");
        reveal_strlit("win.reload");
    } else if i == 4 {
        reveal_strlit("Stop Loading");
        reveal_strlit("win.stop-loading");
    } else if i == 5 {
        reveal_strlit("Focus Address Bar");
        reveal_strlit("win.focus-url");
    } else if i == 6 {
        reveal_strlit("Copy URL");
        reveal_strlit("win.copy-url");
    } else if i == 7 {
        reveal_strlit("New Tab");
        reveal_strlit("win.new-tab");
    } else if i == 8 {
        reveal_strlit("Close Tab");
        reveal_strlit("win.close-tab");
    } else if i == 9 {
        reveal_strlit("Next Tab");
        reveal_strlit("win.next-tab");
    } else if i == 10 {
        reveal_strlit("Previous Tab");
        reveal_strlit("win.prev-tab");
    } else if i == 11 {
        reveal_strlit("Toggle Sidebar");
        reveal_strlit("win.toggle-sidebar");
    } else if i == 12 {
        reveal_strlit("Toggle Split View");
        reveal_strlit("win.toggle-split-view");
    } else if i == 13 {
        reveal_strlit("Toggle Fullscreen");
        reveal_strlit("win.toggle-fullscreen");
    } else if i == 14 {
        reveal_strlit("Zoom In");
        reveal_strlit("win.zoom-in");
    } else if i == 15 {
        reveal_strlit("Zoom Out");
        reveal_strlit("win.zoom-out");
    } else if i == 16 {
        reveal_strlit("Reset Zoom");
        reveal_strlit("win.zoom-reset");
    } else if i == 17 {
        reveal_strlit("Toggle Ad Blocker");
        reveal_strlit("win.toggle-adblock");
    } else if i == 18 {
        reveal_strlit("Refresh Ad Blocklist");
        reveal_strlit("win.refresh-blocklist");
    } else if i == 19 {
        reveal_strlit("Clear History");
        reveal_strlit("win.clear-history");
    } else if i == 20 {
        reveal_strlit("Toggle Bookmark");
        reveal_strlit("win.toggle-bookmark");
    } else if i == 21 {
        reveal_strlit("Show History");
        reveal_strlit("win.show-history");
    } else if i == 22 {
        reveal_strlit("Show Bookmarks");
        reveal_strlit("win.show-bookmarks");
    } else if i == 23 {
        reveal_strlit("Show Downloads");
        reveal_strlit("win.show-downloads");
    } else if i == 24 {
        reveal_strlit("Show Passwords");
        reveal_strlit("win.show-passwords");
    } else if i == 25 {
        reveal_strlit("Settings");
        reveal_strlit("win.show-settings");
    } else if i == 26 {
        reveal_strlit("Print Page");
        reveal_strlit("win.print-page");
    } else if i == 27 {
        reveal_strlit("View Source");
        reveal_strlit("win.view-source");
    } else if i == 28 {
        reveal_strlit("Open Developer Tools");
        reveal_strlit("win.open-devtools");
    }
}

proof fn lemma_texts(i: int)
    requires
        0 <= i < 29,
    ensures
        command_table()[i].name.len() > 0,
        command_table()[i].description.len() > 0,
        command_table()[i].icon.len() > 0,
{
    if i == 0 {
        reveal_strlit("Go Home");
        reveal_strlit("Navigate to the homepage");
        reveal_strlit("go-home-symbolic");
    } else if i == 1 {
        reveal_strlit("Go Back");
        reveal_strlit("Navigate back");
        reveal_strlit("go-previous-symbolic");
    } else if i == 2 {
        reveal_strlit("Go Forward");
        reveal_strlit("Navigate forward");
        reveal_strlit("go-next-symbolic");
    } else if i == 3 {
        reveal_strlit("Reload Page");
        reveal_strlit("Reload the current page");
        reveal_strlit("view-refresh-symbolic");
    } else if i == 4 {
        reveal_strlit("Stop Loading");
        reveal_strlit("Stop loading the current page");
        reveal_strlit("process-stop-symbolic");
    } else if i == 5 {
        reveal_strlit("Focus Address Bar");
        reveal_strlit("Jump to the URL entry");
        reveal_strlit("edit-find-symbolic");
    } else if i == 6 {
        reveal_strlit("Copy URL");
        reveal_strlit("Copy current page URL to clipboard");
        reveal_strlit("edit-copy-symbolic");
    } else if i == 7 {
        reveal_strlit("New Tab");
        reveal_strlit("Open a new browser tab");
        reveal_strlit("tab-new-symbolic");
    } else if i == 8 {
        reveal_strlit("Close Tab");
        reveal_strlit("Close the current tab");
        reveal_strlit("window-close-symbolic");
    } else if i == 9 {
        reveal_strlit("Next Tab");
        reveal_strlit("Switch to the next tab");
        reveal_strlit("go-down-symbolic");
    } else if i == 10 {
        reveal_strlit("Previous Tab");
        reveal_strlit("Switch to the previous tab");
        reveal_strlit("go-up-symbolic");
    } else if i == 11 {
        reveal_strlit("Toggle Sidebar");
        reveal_strlit("Show or hide the vertical tab sidebar");
        reveal_strlit("sidebar-show-symbolic");
    } else if i == 12 {
        reveal_strlit("Toggle Split View");
        reveal_strlit("Enable or disable side-by-side browsing");
        reveal_strlit("view-dual-symbolic");
    } else if i == 13 {
        reveal_strlit("Toggle Fullscreen");
        reveal_strlit("Enter or exit fullscreen mode");
        reveal_strlit("view-fullscreen-symbolic");
    } else if i == 14 {
        reveal_strlit("Zoom In");
        reveal_strlit("Increase page zoom level");
        reveal_strlit("zoom-in-symbolic");
    } else if i == 15 {
        reveal_strlit("Zoom Out");
        reveal_strlit("Decrease page zoom level");
        reveal_strlit("zoom-out-symbolic");
    } else if i == 16 {
        reveal_strlit("Reset Zoom");
        reveal_strlit("Reset page zoom to 100%");
        reveal_strlit("zoom-original-symbolic");
    } else if i == 17 {
        reveal_strlit("Toggle Ad Blocker");
        reveal_strlit("Enable or disable the ad blocker");
        reveal_strlit("security-high-symbolic");
    } else if i == 18 {
        reveal_strlit("Refresh Ad Blocklist");
        reveal_strlit("Re-fetch Pete Lowe's ad/tracker blocklist");
        reveal_strlit("emblem-synchronizing-symbolic");
    } else if i == 19 {
        reveal_strlit("Clear History");
        reveal_strlit("Delete all browsing history");
        reveal_strlit("user-trash-symbolic");
    } else if i == 20 {
        reveal_strlit("Toggle Bookmark");
        reveal_strlit("Add or remove bookmark for current page");
        reveal_strlit("starred-symbolic");
    } else if i == 21 {
        reveal_strlit("Show History");
        reveal_strlit("Open browsing history");
        reveal_strlit("document-open-recent-symbolic");
    } else if i == 22 {
        reveal_strlit("Show Bookmarks");
        reveal_strlit("Open bookmarks list");
        reveal_strlit("bookmark-new-symbolic");
    } else if i == 23 {
        reveal_strlit("Show Downloads");
        reveal_strlit("Open downloads list");
        reveal_strlit("folder-download-symbolic");
    } else if i == 24 {
        reveal_strlit("Show Passwords");
        reveal_strlit("Manage saved passwords");
        reveal_strlit("dialog-password-symbolic");
    } else if i == 25 {
        reveal_strlit("Settings");
        reveal_strlit("Open browser settings");
        reveal_strlit("emblem-system-symbolic");
    } else if i == 26 {
        reveal_strlit("Print Page");
        reveal_strlit("Print the current page");
        reveal_strlit("printer-symbolic");
    } else if i == 27 {
        reveal_strlit("View Source");
        reveal_strlit("View the HTML source of the current page");
        reveal_strlit("text-x-generic-symbolic");
    } else if i == 28 {
        reveal_strlit("Open Developer Tools");
        reveal_strlit("Open the WebKit Web Inspector");
        reveal_strlit("utilities-terminal-symbolic");
    }
}

/// Where the window's action of each command stands in the list of its actions.
spec fn action_places() -> Seq<int> {
    seq![16, 4, 5, 3, 17, 2, 23, 0, 1, 28, 29, 12, 14, 24, 20, 21, 22, 19, 15, 18, 6, 7, 8, 9, 11, 10, 25, 26, 27]
}

proof fn lemma_command_action(i: int)
    requires
        0 <= i < 29,
    ensures
        command_table()[i].action == "win."@ + window::action_list()[action_places()[i]],
{
    reveal_strlit("win.");
    if i == 0 {
        reveal_strlit("win.go-home");
        reveal_strlit("go-home");
        assert("win.go-home"@ =~= "win."@ + "go-home"@);
    } else if i == 1 {
        reveal_strlit("win.go-back");
        reveal_strlit("go-back");
        assert("win.go-back"@ =~= "win."@ + "go-back"@);
    } else if i == 2 {
        reveal_strlit("win.go-forward");
        reveal_strlit("go-forward");
        assert("win.go-forward"@ =~= "win."@ + "go-forward"@);
    } else if i == 3 {
        reveal_strlit("win.reload");
        reveal_strlit("reload");
        assert("win.reload"@ =~= "win."@ + "reload"@);
    } else if i == 4 {
        reveal_strlit("win.stop-loading");
        reveal_strlit("stop-loading");
        assert("win.stop-loading"@ =~= "win."@ + "stop-loading"@);
    } else if i == 5 {
        reveal_strlit("win.focus-url");
        reveal_strlit("focus-url");
        assert("win.focus-url"@ =~= "win."@ + "focus-url"@);
    } else if i == 6 {
        reveal_strlit("win.copy-url");
        reveal_strlit("copy-url");
        assert("win.copy-url"@ =~= "win."@ + "copy-url"@);
    } else if i == 7 {
        reveal_strlit("win.new-tab");
        reveal_strlit("new-tab");
        assert("win.new-tab"@ =~= "win."@ + "new-tab"@);
    } else if i == 8 {
        reveal_strlit("win.close-tab");
        reveal_strlit("close-tab");
        assert("win.close-tab"@ =~= "win."@ + "close-tab"@);
    } else if i == 9 {
        reveal_strlit("win.next-tab");
        reveal_strlit("next-tab");
        assert("win.next-tab"@ =~= "win."@ + "next-tab"@);
    } else if i == 10 {
        reveal_strlit("win.prev-tab");
        reveal_strlit("prev-tab");
        assert("win.prev-tab"@ =~= "win."@ + "prev-tab"@);
    } else if i == 11 {
        reveal_strlit("win.toggle-sidebar");
        reveal_strlit("toggle-sidebar");
        assert("win.toggle-sidebar"@ =~= "win."@ + "toggle-sidebar"@);
    } else if i == 12 {
        reveal_strlit("win.toggle-split-view");
        reveal_strlit("toggle-split-view");
        assert("win.toggle-split-view"@ =~= "win."@ + "toggle-split-view"@);
    } else if i == 13 {
        reveal_strlit("win.toggle-fullscreen");
        reveal_strlit("toggle-fullscreen");
        assert("win.toggle-fullscreen"@ =~= "win."@ + "toggle-fullscreen"@);
    } else if i == 14 {
        reveal_strlit("win.zoom-in");
        reveal_strlit("zoom-in");
        assert("win.zoom-in"@ =~= "win."@ + "zoom-in"@);
    } else if i == 15 {
        reveal_strlit("win.zoom-out");
        reveal_strlit("zoom-out");
        assert("win.zoom-out"@ =~= "win."@ + "zoom-out"@);
    } else if i == 16 {
        reveal_strlit("win.zoom-reset");
        reveal_strlit("zoom-reset");
        assert("win.zoom-reset"@ =~= "win."@ + "zoom-reset"@);
    } else if i == 17 {
        reveal_strlit("win.toggle-adblock");
        reveal_strlit("toggle-adblock");
        assert("win.toggle-adblock"@ =~= "win."@ + "toggle-adblock"@);
    } else if i == 18 {
        reveal_strlit("win.refresh-blocklist");
        reveal_strlit("refresh-blocklist");
        assert("win.refresh-blocklist"@ =~= "win."@ + "refresh-blocklist"@);
    } else if i == 19 {
        reveal_strlit("win.clear-history");
        reveal_strlit("clear-history");
        assert("win.clear-history"@ =~= "win."@ + "clear-history"@);
    } else if i == 20 {
        reveal_strlit("win.toggle-bookmark");
        reveal_strlit("toggle-bookmark");
        assert("win.toggle-bookmark"@ =~= "win."@ + "toggle-bookmark"@);
    } else if i == 21 {
        reveal_strlit("win.show-history");
        reveal_strlit("show-history");
        assert("win.show-history"@ =~= "win."@ + "show-history"@);
    } else if i == 22 {
        reveal_strlit("win.show-bookmarks");
        reveal_strlit("show-bookmarks");
        assert("win.show-bookmarks"@ =~= "win."@ + "show-bookmarks"@);
    } else if i == 23 {
        reveal_strlit("win.show-downloads");
        reveal_strlit("show-downloads");
        assert("win.show-downloads"@ =~= "win."@ + "show-downloads"@);
    } else if i == 24 {
        reveal_strlit("win.show-passwords");
        reveal_strlit("show-passwords");
        assert("win.show-passwords"@ =~= "win."@ + "show-passwords"@);
    } else if i == 25 {
        reveal_strlit("win.show-settings");
        reveal_strlit("show-settings");
        assert("win.show-settings"@ =~= "win."@ + "show-settings"@);
    } else if i == 26 {
        reveal_strlit("win.print-page");
        reveal_strlit("print-page");
        assert("win.print-page"@ =~= "win."@ + "print-page"@);
    } else if i == 27 {
        reveal_strlit("win.view-source");
        reveal_strlit("view-source");
        assert("win.view-source"@ =~= "win."@ + "view-source"@);
    } else if i == 28 {
        reveal_strlit("win.open-devtools");
        reveal_strlit("open-devtools");
        assert("win.open-devtools"@ =~= "win."@ + "open-devtools"@);
    }
}

/// The command for each of the window's actions.
spec fn command_places() -> Seq<int> {
    seq![7, 8, 5, 3, 1, 2, 20, 21, 22, 23, 25, 24, 11, -1, 12, 18, 0, 4, 19, 17, 14, 15, 16, 6, 13, 26, 27, 28, 9, 10]
}

proof fn lemma_other_action(k: int)
    requires
        0 <= k < 30,
        k != 13,
    ensures
        window::action_list()[k] != "command-palette"@,
{
    reveal_strlit("command-palette");
    if k == 0 {
        reveal_strlit("new-tab");
        assert("new-tab"@.len() != "command-palette"@.len());
    } else if k == 1 {
        reveal_strlit("close-tab");
        assert("close-tab"@.len() != "command-palette"@.len());
    } else if k == 2 {
        reveal_strlit("focus-url");
        assert("focus-url"@.len() != "command-palette"@.len());
    } else if k == 3 {
        reveal_strlit("reload");
        assert("reload"@.len() != "command-palette"@.len());
    } else if k == 4 {
        reveal_strlit("go-back");
        assert("go-back"@.len() != "command-palette"@.len());
    } else if k == 5 {
        reveal_strlit("go-forward");
        assert("go-forward"@.len() != "command-palette"@.len());
    } else if k == 6 {
        reveal_strlit("toggle-bookmark");
        assert("toggle-bookmark"@[0] != "command-palette"@[0]);
    } else if k == 7 {
        reveal_strlit("show-history");
        assert("show-history"@.len() != "command-palette"@.len());
    } else if k == 8 {
        reveal_strlit("show-bookmarks");
        assert("show-bookmarks"@.len() != "command-palette"@.len());
    } else if k == 9 {
        reveal_strlit("show-downloads");
        assert("show-downloads"@.len() != "command-palette"@.len());
    } else if k == 10 {
        reveal_strlit("show-settings");
        assert("show-settings"@.len() != "command-palette"@.len());
    } else if k == 11 {
        reveal_strlit("show-passwords");
        assert("show-passwords"@.len() != "command-palette"@.len());
    } else if k == 12 {
        reveal_strlit("toggle-sidebar");
        assert("toggle-sidebar"@.len() != "command-palette"@.len());
    } else if k == 14 {
        reveal_strlit("toggle-split-view");
        assert("toggle-split-view"@.len() != "command-palette"@.len());
    } else if k == 15 {
        reveal_strlit("refresh-blocklist");
        assert("refresh-blocklist"@.len() != "command-palette"@.len());
    } else if k == 16 {
        reveal_strlit("go-home");
        assert("go-home"@.len() != "command-palette"@.len());
    } else if k == 17 {
        reveal_strlit("stop-loading");
        assert("stop-loading"@.len() != "command-palette"@.len());
    } else if k == 18 {
        reveal_strlit("clear-history");
        assert("clear-history"@.len() != "command-palette"@.len());
    } else if k == 19 {
        reveal_strlit("toggle-adblock");
        assert("toggle-adblock"@.len() != "command-palette"@.len());
    } else if k == 20 {
        reveal_strlit("zoom-in");
        assert("zoom-in"@.len() != "command-palette"@.len());
    } else if k == 21 {
        reveal_strlit("zoom-out");
        assert("zoom-out"@.len() != "command-palette"@.len());
    } else if k == 22 {
        reveal_strlit("zoom-reset");
        assert("zoom-reset"@.len() != "command-palette"@.len());
    } else if k == 23 {
        reveal_strlit("copy-url");
        assert("copy-url"@.len() != "command-palette"@.len());
    } else if k == 24 {
        reveal_strlit("toggle-fullscreen");
        assert("toggle-fullscreen"@.len() != "command-palette"@.len());
    } else if k == 25 {
        reveal_strlit("print-page");
        assert("print-page"@.len() != "command-palette"@.len());
    } else if k == 26 {
        reveal_strlit("view-source");
        assert("view-source"@.len() != "command-palette"@.len());
    } else if k == 27 {
        reveal_strlit("open-devtools");
        assert("open-devtools"@.len() != "command-palette"@.len());
    } else if k == 28 {
        reveal_strlit("next-tab");
        assert("next-tab"@.len() != "command-palette"@.len());
    } else if k == 29 {
        reveal_strlit("prev-tab");
        assert("prev-tab"@.len() != "command-palette"@.len());
    }
}

proof fn lemma_action_command(k: int)
    requires
        0 <= k < 30,
    ensures
        has_command(window::action_list()[k]) <==> window::action_list()[k] != "command-palette"@,
{
    let t = command_table();
    let actions = window::action_list();
    if k == 13 {
        if has_command(actions[k]) {
            let i = choose|i: int| 0 <= i < t.len() && (#[trigger] t[i]).action == "win."@ + actions[k];
            lemma_command_action(i);
            let other = actions[action_places()[i]];
            assert(("win."@ + other).skip("win."@.len() as int) =~= other);
            assert(("win."@ + actions[k]).skip("win."@.len() as int) =~= actions[k]);
            assert(action_places()[i] != 13 && 0 <= action_places()[i] < 30);
            lemma_other_action(action_places()[i]);
        }
    } else {
        lemma_other_action(k);
        let i = command_places()[k];
        assert(0 <= i < 29 && action_places()[i] == k);
        lemma_command_action(i);
        assert(t[i].action == "win."@ + actions[k]);
    }
}

/// No two commands have the same name or the same action, and each has a name,
/// a description and an icon.
pub proof fn law_commands_are_told_apart()
    ensures
        forall|i: int, j: int|
            0 <= i < j < command_table().len() ==> (#[trigger] command_table()[i]).name != (
            #[trigger] command_table()[j]).name && command_table()[i].action
                != command_table()[j].action,
        forall|i: int|
            0 <= i < command_table().len() ==> (#[trigger] command_table()[i]).name.len() > 0
                && command_table()[i].description.len() > 0 && command_table()[i].icon.len() > 0,
{
    let t = command_table();
    assert forall|i: int, j: int| 0 <= i < j < t.len() implies (#[trigger] t[i]).name != (
    #[trigger] t[j]).name && t[i].action != t[j].action by {
        lemma_ranks(i);
        lemma_ranks(j);
    }
    assert forall|i: int| 0 <= i < t.len() implies (#[trigger] t[i]).name.len() > 0
        && t[i].description.len() > 0 && t[i].icon.len() > 0 by {
        lemma_texts(i);
    }
}

/// Whether an action, as commands name it, is one of the window's.
pub open spec fn is_window_action(action: Seq<char>) -> bool {
    exists|k: int|
        0 <= k < window::action_list().len() && action == "win."@ + #[trigger] window::action_list()[k]
}

/// Whether a command activates an action of the window.
pub open spec fn has_command(action: Seq<char>) -> bool {
    exists|i: int|
        0 <= i < command_table().len() && (#[trigger] command_table()[i]).action == "win."@ + action
}

/// The palette offers the window's actions: each command activates one of
/// them, and each of them has a command, but for the one that opens the palette.
pub proof fn law_commands_are_the_windows_actions()
    ensures
        forall|i: int|
            0 <= i < command_table().len() ==> is_window_action((#[trigger] command_table()[i]).action),
        forall|k: int|
            0 <= k < window::action_list().len() ==> (has_command(
                #[trigger] window::action_list()[k],
            ) <==> window::action_list()[k] != "command-palette"@),
{
    let t = command_table();
    let actions = window::action_list();
    assert forall|i: int| 0 <= i < t.len() implies is_window_action((#[trigger] t[i]).action) by {
        lemma_command_action(i);
        assert(0 <= action_places()[i] < actions.len());
    }
    assert forall|k: int| 0 <= k < actions.len() implies (has_command(#[trigger] actions[k])
        <==> actions[k] != "command-palette"@) by {
        lemma_action_command(k);
    }
}

proof fn lemma_score_range(query: Seq<char>, target: Seq<char>)
    ensures
        score(query, target) is Some ==> 0 <= score(query, target)->0 <= 1000,
{
    let q = text::lowercase(query);
    let t = text::lowercase(target);
    if scattered(q, t, 0) is Some {
        lemma_adjacent_is_natural(scattered(q, t, 0)->0);
    }
}

/// A command matches a query exactly where its name or its description does. It
/// scores as its name does, or as its description does less fifty, whichever
/// is more.
pub proof fn law_names_and_descriptions_are_searched(query: Seq<char>, c: Command)
    ensures
        command_score(query, c) is Some <==> score(query, c.name) is Some || score(
            query,
            c.description,
        ) is Some,
        score(query, c.name) is Some ==> command_score(query, c)->0 >= score(query, c.name)->0,
        score(query, c.description) is Some ==> command_score(query, c)->0 >= score(
            query,
            c.description,
        )->0 - 50,
        command_score(query, c) is Some ==> {
            ||| score(query, c.name) is Some && command_score(query, c)->0 == score(query, c.name)->0
            ||| score(query, c.description) is Some && command_score(query, c)->0 == score(
                query,
                c.description,
            )->0 - 50
        },
{
    lemma_score_range(query, c.name);
    lemma_score_range(query, c.description);
}

/// What each kind of match scores: a thousand for the whole target, eight
/// hundred for its beginning, six hundred for the beginning of a word, four
/// hundred for any other part, each with the query's bytes on top, up to
/// 199; else two hundred, and ten for each character right behind the one
/// before, up to 199, where the characters occur in order.
pub proof fn law_scores(q: Seq<char>, t: Seq<char>)
    ensures
        ({
            let n = vstd::utf8::encode_utf8(q).len() as int;
            let top: int = if n > 199 {
                199
            } else {
                n
            };
            let part = exists|i: int| text::occurs_at(t, q, i);
            &&& t == q ==> match_score(q, t) == Some(1000i32)
            &&& t != q && text::occurs_at(t, q, 0) ==> match_score(q, t) is Some && match_score(q, t)->0
                == 800 + top
            &&& t != q && !text::occurs_at(t, q, 0) && matches_word(t, q) ==> match_score(q, t) is Some
                && match_score(q, t)->0 == 600 + top
            &&& part && !text::occurs_at(t, q, 0) && !matches_word(t, q) ==> match_score(q, t) is Some
                && match_score(q, t)->0 == 400 + top
            &&& !part && scattered(q, t, 0) is Some ==> match_score(q, t) is Some && ({
                let run = 10 * adjacent(scattered(q, t, 0)->0);
                match_score(q, t)->0 == 200 + (if run > 199 {
                    199
                } else {
                    run
                })
            })
            &&& !part && scattered(q, t, 0) is None ==> match_score(q, t) is None
        }),
{
    if t == q {
        assert(t.subrange(0, t.len() as int) =~= q);
        assert(text::occurs_at(t, q, 0));
    }
    if matches_word(t, q) {
        lemma_word_match_occurs(t, q);
    }
    if scattered(q, t, 0) is Some {
        lemma_adjacent_is_natural(scattered(q, t, 0)->0);
    }
}

proof fn lemma_match_starts_occur(t: Seq<char>, q: Seq<char>, from: int, k: int)
    requires
        0 <= k < match_starts(t, q, from).len(),
    ensures
        text::occurs_at(t, q, match_starts(t, q, from)[k]),
    decreases t.len() - from,
{
    let rest = t.skip(from);
    text::lemma_position(rest, q);
    let p = text::position(rest, q)->0;
    assert(rest.subrange(p, p + q.len()) =~= t.subrange(from + p, from + p + q.len()));
    let tail = match_starts(t, q, from + p + q.len());
    assert(match_starts(t, q, from) == seq![from + p] + tail);
    if k > 0 {
        lemma_match_starts_occur(t, q, from + p + q.len(), k - 1);
        assert(match_starts(t, q, from)[k] == tail[k - 1]);
    }
}

proof fn lemma_word_match_occurs(t: Seq<char>, q: Seq<char>)
    requires
        matches_word(t, q),
    ensures
        exists|i: int| text::occurs_at(t, q, i) && #[trigger] word_start(t, i),
{
    let k = choose|k: int|
        0 <= k < match_starts(t, q, 0).len() && word_start(t, #[trigger] match_starts(t, q, 0)[k]);
    lemma_match_starts_occur(t, q, 0, k);
    let i = match_starts(t, q, 0)[k];
    assert(text::occurs_at(t, q, i) && word_start(t, i));
}

/// Whether a character parts words.
pub open spec fn parts_words(c: char) -> bool {
    c == ' ' || c == '-' || c == '_'
}

proof fn lemma_word_match_found(t: Seq<char>, q: Seq<char>, from: int, i: int)
    requires
        q.len() > 0,
        forall|k: int| 0 <= k < q.len() ==> !parts_words(#[trigger] q[k]),
        0 <= from <= i,
        0 < i,
        parts_words(t[i - 1]),
        text::occurs_at(t, q, i),
    ensures
        exists|k: int|
            0 <= k < match_starts(t, q, from).len() && #[trigger] match_starts(t, q, from)[k] == i,
    decreases t.len() - from,
{
    let rest = t.skip(from);
    text::lemma_position(rest, q);
    assert(rest.subrange(i - from, i - from + q.len()) =~= t.subrange(i, i + q.len()));
    assert(text::occurs_at(rest, q, i - from));
    let p = text::position(rest, q)->0;
    assert(text::first_at(rest, q, p));
    assert(p <= i - from);
    let next = from + p + q.len();
    let tail = match_starts(t, q, next);
    let all = match_starts(t, q, from);
    assert(all == seq![from + p] + tail);
    if from + p == i {
        assert(all[0] == i);
    } else {
        assert(next <= i) by {
            if next > i {
                let k = i - 1 - from - p;
                assert(rest.subrange(p, p + q.len())[k] == rest[p + k]);
                assert(rest[p + k] == t[i - 1]);
                assert(!parts_words(q[k]));
            }
        }
        lemma_word_match_found(t, q, next, i);
        let k = choose|k: int| 0 <= k < tail.len() && #[trigger] tail[k] == i;
        assert(all[k + 1] == i);
    }
}

/// A query of one word begins a word of the target where it stands behind a
/// blank, a hyphen or an underscore, and only there.
pub proof fn law_word_matches(t: Seq<char>, q: Seq<char>)
    requires
        q.len() > 0,
        forall|k: int| 0 <= k < q.len() ==> !parts_words(#[trigger] q[k]),
    ensures
        matches_word(t, q) <==> exists|i: int|
            0 < i && text::occurs_at(t, q, i) && parts_words(#[trigger] t[i - 1]),
{
    if matches_word(t, q) {
        lemma_word_match_occurs(t, q);
        let i = choose|i: int| text::occurs_at(t, q, i) && #[trigger] word_start(t, i);
        assert(0 < i && text::occurs_at(t, q, i) && parts_words(t[i - 1]));
    }
    if exists|i: int| 0 < i && text::occurs_at(t, q, i) && parts_words(#[trigger] t[i - 1]) {
        let i = choose|i: int| 0 < i && text::occurs_at(t, q, i) && parts_words(#[trigger] t[i - 1]);
        lemma_word_match_found(t, q, 0, i);
        let k = choose|k: int|
            0 <= k < match_starts(t, q, 0).len() && #[trigger] match_starts(t, q, 0)[k] == i;
        assert(word_start(t, match_starts(t, q, 0)[k]));
    }
}

/// Whether the characters of `q` stand in `t` at the places, in order, from
/// `from` on.
pub open spec fn in_order(q: Seq<char>, t: Seq<char>, from: int, places: Seq<int>) -> bool {
    &&& places.len() == q.len()
    &&& forall|k: int|
        0 <= k < q.len() ==> from <= #[trigger] places[k] < t.len() && t[places[k]] == q[k]
    &&& forall|i: int, j: int| 0 <= i < j < q.len() ==> #[trigger] places[i] < #[trigger] places[j]
}

proof fn lemma_next_at_found(t: Seq<char>, c: char, from: int, i: int)
    requires
        0 <= from,
    ensures
        next_at(t, c, from) is Some ==> from <= next_at(t, c, from)->0 < t.len() && t[next_at(
            t,
            c,
            from,
        )->0] == c,
        from <= i < t.len() && t[i] == c ==> next_at(t, c, from) is Some && next_at(t, c, from)->0 <= i,
    decreases t.len() - from,
{
    if from < t.len() && t[from] != c {
        lemma_next_at_found(t, c, from + 1, i);
    }
}

/// The characters of a query are found scattered where they stand in the target
/// in order; each is then found at the earliest place there is for it.
pub proof fn law_scattered(q: Seq<char>, t: Seq<char>, from: int, other: Seq<int>)
    requires
        0 <= from,
    ensures
        scattered(q, t, from) is Some ==> in_order(q, t, from, scattered(q, t, from)->0),
        in_order(q, t, from, other) ==> scattered(q, t, from) is Some && forall|k: int|
            0 <= k < q.len() ==> #[trigger] (scattered(q, t, from)->0)[k] <= other[k],
    decreases q.len(),
{
    if q.len() > 0 {
        let rest = q.drop_first();
        lemma_next_at_found(t, q[0], from, if other.len() > 0 {
            other[0]
        } else {
            0
        });
        if in_order(q, t, from, other) {
            assert(from <= other[0] < t.len() && t[other[0]] == q[0]);
        }
        if next_at(t, q[0], from) is Some {
            let i = next_at(t, q[0], from)->0;
            let others = if other.len() > 0 {
                other.drop_first()
            } else {
                other
            };
            law_scattered(rest, t, i + 1, others);
            if in_order(q, t, from, other) {
                assert(in_order(rest, t, i + 1, others)) by {
                    assert forall|k: int| 0 <= k < rest.len() implies i + 1 <= #[trigger] others[k]
                        < t.len() && t[others[k]] == rest[k] by {
                        assert(others[k] == other[k + 1]);
                        assert(other[0] < other[k + 1]);
                    }
                    assert forall|a: int, b: int| 0 <= a < b < rest.len() implies #[trigger] others[a]
                        < #[trigger] others[b] by {
                        assert(other[a + 1] < other[b + 1]);
                    }
                }
            }
            if scattered(q, t, from) is Some {
                let tail = scattered(rest, t, i + 1)->0;
                let all = scattered(q, t, from)->0;
                assert(all == seq![i] + tail);
                assert forall|k: int| 0 <= k < q.len() implies from <= #[trigger] all[k] < t.len()
                    && t[all[k]] == q[k] by {
                    if k > 0 {
                        assert(all[k] == tail[k - 1]);
                    }
                }
                assert forall|a: int, b: int| 0 <= a < b < q.len() implies #[trigger] all[a]
                    < #[trigger] all[b] by {
                    assert(all[b] == tail[b - 1]);
                    if a > 0 {
                        assert(all[a] == tail[a - 1]);
                    }
                }
                if in_order(q, t, from, other) {
                    assert forall|k: int| 0 <= k < q.len() implies #[trigger] all[k] <= other[k] by {
                        if k > 0 {
                            assert(all[k] == tail[k - 1]);
                            assert(others[k - 1] == other[k]);
                        }
                    }
                }
            }
        }
    }
}

/// Places are counted as adjacent pair by pair: those of two lists of places,
/// and the pair where they meet.
pub proof fn law_adjacent(a: Seq<int>, b: Seq<int>)
    requires
        a.len() > 0,
        b.len() > 0,
    ensures
        adjacent(a + b) == adjacent(a) + adjacent(b) + (if b[0] == a.last() + 1 {
            1int
        } else {
            0
        }),
        a.len() == 1 ==> adjacent(a) == 0,
    decreases b.len(),
{
    let all = a + b;
    assert(all.last() == b.last());
    if b.len() == 1 {
        assert(all.drop_last() =~= a);
        assert(all[all.len() - 2] == a.last());
    } else {
        let t = b.drop_last();
        law_adjacent(a, t);
        assert(all.drop_last() =~= a + t);
        assert(all[all.len() - 2] == b[b.len() - 2]);
    }
}

/// The case of query and target makes no difference, and an empty query matches
/// everything alike.
pub proof fn law_score_ignores_case(query: Seq<char>, target: Seq<char>, other: Seq<char>)
    ensures
        query.len() == 0 ==> score(query, target) == Some(0i32),
        query.len() > 0 ==> score(query, target) == match_score(
            text::lowercase(query),
            text::lowercase(target),
        ),
        query.len() > 0 && other.len() > 0 && text::lowercase(query) == text::lowercase(other)
            ==> score(query, target) == score(other, target),
{
}

/// Recording an action puts it first and leaves the others behind it, in their
/// order and without it, as far as there is room for eight.
pub proof fn law_recorded(a: Seq<Seq<char>>, b: Seq<Seq<char>>, action: Seq<char>)
    requires
        !a.contains(action),
        !b.contains(action),
    ensures
        recorded(a + seq![action] + b, action) == if a.len() + b.len() < 8 {
            seq![action] + a + b
        } else {
            (seq![action] + a + b).take(8)
        },
        recorded(a, action) == if a.len() < 8 {
            seq![action] + a
        } else {
            (seq![action] + a).take(8)
        },
{
    let f = other_than(action);
    assert forall|i: int| 0 <= i < a.len() implies f(#[trigger] a[i]) by {
        assert(a.contains(a[i]));
    }
    assert forall|i: int| 0 <= i < b.len() implies f(#[trigger] b[i]) by {
        assert(b.contains(b[i]));
    }
    records::lemma_filter_pieces(a, action, b, f);
    records::lemma_filter_all(a, f);
    records::lemma_filter_all(b, f);
    assert(a + Seq::<Seq<char>>::empty() + b =~= a + b);
    assert(seq![action] + (a + b) =~= seq![action] + a + b);
}

/// The command of an action is the first that has it.
pub proof fn law_command_of_an_action(cmds: Seq<Command>, action: Seq<char>)
    ensures
        match with_action(cmds, action) {
            Some(i) => 0 <= i < cmds.len() && cmds[i].action == action && forall|j: int|
                0 <= j < i ==> (#[trigger] cmds[j]).action != action,
            None => forall|j: int| 0 <= j < cmds.len() ==> (#[trigger] cmds[j]).action != action,
        },
    decreases cmds.len(),
{
    if cmds.len() > 0 {
        let shorter = cmds.drop_last();
        law_command_of_an_action(shorter, action);
        assert forall|j: int| 0 <= j < shorter.len() implies (#[trigger] cmds[j]) == shorter[j] by {
        }
    }
}

/// What was used recently is listed in its order: a row for each action that a
/// command has, and none for another.
pub proof fn law_recent_rows(
    cmds: Seq<Command>,
    a: Seq<Seq<char>>,
    action: Seq<char>,
    b: Seq<Seq<char>>,
)
    ensures
        recent_rows(cmds, a + seq![action] + b) == recent_rows(cmds, a) + (match with_action(
            cmds,
            action,
        ) {
            Some(i) => seq![Row::Command(i)],
            None => Seq::empty(),
        }) + recent_rows(cmds, b),
        recent_rows(cmds, Seq::<Seq<char>>::empty()).len() == 0,
    decreases b.len(),
{
    let all = a + seq![action] + b;
    let here = match with_action(cmds, action) {
        Some(i) => seq![Row::Command(i)],
        None => Seq::empty(),
    };
    if b.len() == 0 {
        assert(all.drop_last() =~= a);
        assert(all.last() == action);
        assert(recent_rows(cmds, all) =~= recent_rows(cmds, a) + here + recent_rows(cmds, b));
    } else {
        let t = b.drop_last();
        law_recent_rows(cmds, a, action, t);
        assert(all.drop_last() =~= a + seq![action] + t);
        assert(all.last() == b.last());
        assert(recent_rows(cmds, all) =~= recent_rows(cmds, a) + here + recent_rows(cmds, b));
    }
}

/// A category lists its commands, all of them and no others, in the order of
/// the list.
pub proof fn law_category_rows(cmds: Seq<Command>, category: CommandCategory, r: Row)
    ensures
        category_rows(cmds, category).contains(r) <==> r is Command && 0 <= r->Command_0 < cmds.len()
            && cmds[r->Command_0].category == category,
        forall|i: int, j: int|
            0 <= i < j < category_rows(cmds, category).len() ==> (#[trigger] category_rows(
                cmds,
                category,
            )[i])->Command_0 < (#[trigger] category_rows(cmds, category)[j])->Command_0,
    decreases cmds.len(),
{
    let now = category_rows(cmds, category);
    if cmds.len() > 0 {
        let shorter = cmds.drop_last();
        let before = category_rows(shorter, category);
        let last = Row::Command(cmds.len() - 1);
        law_category_rows(shorter, category, r);
        assert forall|k: int| 0 <= k < before.len() implies (#[trigger] before[k])->Command_0
            < shorter.len() by {
            law_category_rows(shorter, category, before[k]);
            assert(before.contains(before[k]));
        }
        if r is Command && 0 <= r->Command_0 < shorter.len() {
            assert(shorter[r->Command_0] == cmds[r->Command_0]);
        }
        if cmds.last().category == category {
            assert(now == before.push(last));
            assert(now[before.len() as int] == last);
            if before.contains(r) {
                let k = choose|k: int| 0 <= k < before.len() && before[k] == r;
                assert(now[k] == r);
            }
            if now.contains(r) {
                let k = choose|k: int| 0 <= k < now.len() && now[k] == r;
                if k < before.len() {
                    assert(before[k] == r);
                }
            }
            if r is Command && r->Command_0 == cmds.len() - 1 {
                assert(r == last);
            }
            assert forall|i: int, j: int| 0 <= i < j < now.len() implies (#[trigger] now[i])->Command_0
                < (#[trigger] now[j])->Command_0 by {
                assert(now[i] == before[i]);
                if j < before.len() {
                    assert(now[j] == before[j]);
                }
            }
        }
    }
}

/// The headings, and the order in which they appear.
pub proof fn law_categories()
    ensures
        all_categories().len() == 5,
        category_label(all_categories()[0]) == "Navigation"@,
        category_label(all_categories()[1]) == "Tabs"@,
        category_label(all_categories()[2]) == "View"@,
        category_label(all_categories()[3]) == "Privacy & Security"@,
        category_label(all_categories()[4]) == "Tools"@,
        forall|i: int| 0 <= i < 5 ==> category_rank(#[trigger] all_categories()[i]) == i,
        forall|c: CommandCategory| #[trigger] all_categories().contains(c),
{
    assert forall|c: CommandCategory| #[trigger] all_categories().contains(c) by {
        lemma_every_category_listed(c);
    }
}

/// Sections follow each other, each a heading over its rows; a category without
/// commands has none.
pub proof fn law_sections(
    cmds: Seq<Command>,
    found: Seq<Hit>,
    a: Seq<CommandCategory>,
    c: CommandCategory,
    b: Seq<CommandCategory>,
)
    ensures
        category_sections(cmds, a + seq![c] + b) == category_sections(cmds, a) + (if category_rows(
            cmds,
            c,
        ).len() == 0 {
            Seq::empty()
        } else {
            seq![Row::Header(category_label(c))] + category_rows(cmds, c)
        }) + category_sections(cmds, b),
        hit_sections(cmds, found, a + seq![c] + b) == hit_sections(cmds, found, a) + (if category_hits(
            cmds,
            found,
            c,
        ).len() == 0 {
            Seq::empty()
        } else {
            seq![Row::Header(category_label(c))] + hit_rows(category_hits(cmds, found, c))
        }) + hit_sections(cmds, found, b),
        category_sections(cmds, Seq::<CommandCategory>::empty()).len() == 0,
        hit_sections(cmds, found, Seq::<CommandCategory>::empty()).len() == 0,
    decreases b.len(),
{
    let all = a + seq![c] + b;
    let browsed = if category_rows(cmds, c).len() == 0 {
        Seq::empty()
    } else {
        seq![Row::Header(category_label(c))] + category_rows(cmds, c)
    };
    let searched = if category_hits(cmds, found, c).len() == 0 {
        Seq::empty()
    } else {
        seq![Row::Header(category_label(c))] + hit_rows(category_hits(cmds, found, c))
    };
    if b.len() == 0 {
        assert(all.drop_last() =~= a);
        assert(all.last() == c);
    } else {
        let t = b.drop_last();
        law_sections(cmds, found, a, c, t);
        assert(all.drop_last() =~= a + seq![c] + t);
        assert(all.last() == b.last());
    }
    assert(category_sections(cmds, all) =~= category_sections(cmds, a) + browsed + category_sections(
        cmds,
        b,
    ));
    assert(hit_sections(cmds, found, all) =~= hit_sections(cmds, found, a) + searched + hit_sections(
        cmds,
        found,
        b,
    ));
}

/// A blank query lists what was used recently, under its heading, and then the
/// sections of all categories; any other query lists what it finds.
pub proof fn law_palette(cmds: Seq<Command>, recent: Seq<Seq<char>>, query: Seq<char>)
    ensures
        ({
            let blank = forall|k: int| 0 <= k < query.len() ==> text::white(#[trigger] query[k]);
            let r = palette_rows(cmds, recent, query);
            &&& blank && recent.len() == 0 ==> r == category_sections(cmds, all_categories())
            &&& blank && recent.len() > 0 ==> r == seq![Row::Header("Recently Used"@)] + recent_rows(
                cmds,
                recent,
            ) + category_sections(cmds, all_categories())
            &&& !blank ==> r == search_rows(cmds, query)
            &&& blank ==> count_text(cmds, query) == text::decimal(cmds.len()) + " commands"@
            &&& !blank ==> count_text(cmds, query) == text::decimal(hits(query, cmds).len())
                + " of "@ + text::decimal(cmds.len()) + " commands"@
        }),
{
    text::law_trimmed(query);
    let (a, b) = choose|a: int, b: int|
        {
            &&& 0 <= a <= b <= query.len()
            &&& text::trimmed(query) == #[trigger] query.subrange(a, b)
            &&& forall|k: int| 0 <= k < a || b <= k < query.len() ==> text::white(#[trigger] query[k])
            &&& a < b ==> !text::white(query[a]) && !text::white(query[b - 1])
        };
    if forall|k: int| 0 <= k < query.len() ==> text::white(#[trigger] query[k]) {
        if a < b {
            assert(text::white(query[a]));
        }
        if recent.len() == 0 {
            assert(palette_rows(cmds, recent, query) =~= category_sections(cmds, all_categories()));
        }
    } else {
        if a == b {
            assert forall|k: int| 0 <= k < query.len() implies text::white(#[trigger] query[k]) by {
            }
        }
    }
}

/// The hits of a query are the commands that match it, each once, in the order
/// of the list, with their scores.
pub proof fn law_hits(query: Seq<char>, cmds: Seq<Command>)
    requires
        cmds.len() <= usize::MAX,
    ensures
        forall|k: int|
            0 <= k < hits(query, cmds).len() ==> (#[trigger] hits(query, cmds)[k]).index < cmds.len()
                && command_score(query, cmds[hits(query, cmds)[k].index as int]) == Some(
                hits(query, cmds)[k].score,
            ),
        forall|i: int, j: int|
            0 <= i < j < hits(query, cmds).len() ==> (#[trigger] hits(query, cmds)[i]).index < (
            #[trigger] hits(query, cmds)[j]).index,
        forall|i: int|
            0 <= i < cmds.len() && command_score(query, #[trigger] cmds[i]) is Some ==> names(
                hits(query, cmds),
                i,
            ),
        hits(query, cmds).len() == cmds.filter(
            |c: Command| command_score(query, c) is Some,
        ).len(),
    decreases cmds.len(),
{
    reveal(Seq::filter);
    let now = hits(query, cmds);
    if cmds.len() > 0 {
        let shorter = cmds.drop_last();
        let before = hits(query, shorter);
        law_hits(query, shorter);
        assert forall|k: int| 0 <= k < now.len() implies (#[trigger] now[k]).index < cmds.len()
            && command_score(query, cmds[now[k].index as int]) == Some(now[k].score) by {
            if k < before.len() {
                assert(now[k] == before[k]);
                assert(shorter[before[k].index as int] == cmds[before[k].index as int]);
            }
        }
        assert forall|i: int, j: int| 0 <= i < j < now.len() implies (#[trigger] now[i]).index < (
        #[trigger] now[j]).index by {
            assert(now[i] == before[i]);
            if j < before.len() {
                assert(now[j] == before[j]);
            }
        }
        assert forall|i: int|
            0 <= i < cmds.len() && command_score(query, #[trigger] cmds[i]) is Some implies names(
            now,
            i,
        ) by {
            if i < shorter.len() {
                assert(shorter[i] == cmds[i]);
                assert(names(before, i));
                let k = choose|k: int| 0 <= k < before.len() && (#[trigger] before[k]).index == i;
                assert(now[k].index == i);
            } else {
                assert(now[before.len() as int].index == i);
            }
        }
    }
}

/// A few hits, six at most, are listed without headings: a row for each, the
/// best score first, and those of equal score in the order of the list.
pub proof fn law_few_hits_are_listed(cmds: Seq<Command>, query: Seq<char>)
    requires
        cmds.len() <= usize::MAX,
        hits(query, cmds).len() <= 6,
    ensures
        ({
            let r = search_rows(cmds, query);
            &&& r.len() == hits(query, cmds).len()
            &&& forall|k: int|
                0 <= k < r.len() ==> #[trigger] r[k] is Command && 0 <= r[k]->Command_0 < cmds.len()
                    && command_score(query, cmds[r[k]->Command_0]) is Some
            &&& forall|i: int, j: int|
                0 <= i < j < r.len() ==> {
                    let x = command_score(query, cmds[(#[trigger] r[i])->Command_0])->0;
                    let y = command_score(query, cmds[(#[trigger] r[j])->Command_0])->0;
                    x > y || (x == y && r[i]->Command_0 < r[j]->Command_0)
                }
        }),
{
    law_hits(query, cmds);
    lemma_ranked_hits(cmds, query);
    let found = ranked(hits(query, cmds));
    let r = search_rows(cmds, query);
    assert forall|k: int| 0 <= k < r.len() implies #[trigger] r[k] == Row::Command(
        found[k].index as int,
    ) by {
    }
}

proof fn lemma_ranked_hits(cmds: Seq<Command>, query: Seq<char>)
    requires
        cmds.len() <= usize::MAX,
    ensures
        ({
            let found = ranked(hits(query, cmds));
            &&& found.len() == hits(query, cmds).len()
            &&& forall|k: int|
                0 <= k < found.len() ==> (#[trigger] found[k]).index < cmds.len() && command_score(
                    query,
                    cmds[found[k].index as int],
                ) == Some(found[k].score)
            &&& forall|i: int, j: int|
                0 <= i < j < found.len() ==> (#[trigger] found[i]).score > (#[trigger] found[j]).score
                    || (found[i].score == found[j].score && found[i].index < found[j].index)
        }),
{
    let all = hits(query, cmds);
    law_hits(query, cmds);
    lemma_hits_in_range(query, cmds);
    let less = by_score();
    assert(all.len() <= usize::MAX) by {
        lemma_filter_shorter(cmds, |c: Command| command_score(query, c) is Some);
    }
    sorting::law_sorted_is_stable(all, less);
    let found = ranked(all);
    let from = choose|from: Seq<usize>|
        {
            &&& from.len() == all.len()
            &&& from.no_duplicates()
            &&& forall|k: int| 0 <= k < from.len() ==> (#[trigger] from[k] as int) < all.len()
            &&& #[trigger] sorting::picked(all, from) == sorting::sorted(all, less)
            &&& forall|i: int, j: int|
                0 <= i < j < from.len() ==> !less(
                    all[#[trigger] from[j] as int],
                    all[#[trigger] from[i] as int],
                ) && (less(all[from[i] as int], all[from[j] as int]) || from[i] < from[j])
        };
    assert forall|k: int| 0 <= k < found.len() implies (#[trigger] found[k]).index < cmds.len()
        && command_score(query, cmds[found[k].index as int]) == Some(found[k].score) by {
        assert(found[k] == all[from[k] as int]);
    }
    assert forall|i: int, j: int| 0 <= i < j < found.len() implies (#[trigger] found[i]).score > (
    #[trigger] found[j]).score || (found[i].score == found[j].score && found[i].index
        < found[j].index) by {
        assert(found[i] == all[from[i] as int]);
        assert(found[j] == all[from[j] as int]);
        assert(!less(all[from[j] as int], all[from[i] as int]));
    }
}

proof fn lemma_filter_shorter(cmds: Seq<Command>, f: spec_fn(Command) -> bool)
    ensures
        cmds.filter(f).len() <= cmds.len(),
    decreases cmds.len(),
{
    reveal(Seq::filter);
    if cmds.len() > 0 {
        lemma_filter_shorter(cmds.drop_last(), f);
    }
}

/// More than six hits are listed by category: the categories that have a hit,
/// that with the best hit first, each once and with its hits under its heading.
pub proof fn law_many_hits_are_grouped(cmds: Seq<Command>, query: Seq<char>)
    requires
        cmds.len() <= usize::MAX,
        hits(query, cmds).len() > 6,
    ensures
        ({
            let found = ranked(hits(query, cmds));
            let order = category_order(cmds, found);
            &&& search_rows(cmds, query) == hit_sections(cmds, found, order)
            &&& forall|c: CommandCategory|
                #[trigger] order.contains(c) <==> category_hits(cmds, found, c).len() > 0
            &&& forall|i: int, j: int|
                0 <= i < j < order.len() ==> best_score(
                    category_hits(cmds, found, #[trigger] order[i]),
                ) >= best_score(category_hits(cmds, found, #[trigger] order[j]))
        }),
{
    lemma_ranked_hits(cmds, query);
    let found = ranked(hits(query, cmds));
    let less = by_best(cmds, found);
    let listed = hit_categories(cmds, found, all_categories());
    lemma_hit_categories_are_few(cmds, found, all_categories());
    assert(sorting::strict_weak(less));
    sorting::law_sorted(listed, less);
    let order = category_order(cmds, found);
    assert forall|c: CommandCategory|
        #[trigger] order.contains(c) <==> category_hits(cmds, found, c).len() > 0 by {
        lemma_every_category_listed(c);
        lemma_hit_categories_hold(cmds, found, all_categories(), c);
    }
    assert forall|i: int, j: int| 0 <= i < j < order.len() implies best_score(
        category_hits(cmds, found, #[trigger] order[i]),
    ) >= best_score(category_hits(cmds, found, #[trigger] order[j])) by {
        assert(!less(order[j], order[i]));
    }
}

proof fn lemma_hit_categories_are_few(
    cmds: Seq<Command>,
    found: Seq<Hit>,
    categories: Seq<CommandCategory>,
)
    ensures
        hit_categories(cmds, found, categories).len() <= categories.len(),
    decreases categories.len(),
{
    if categories.len() > 0 {
        lemma_hit_categories_are_few(cmds, found, categories.drop_last());
    }
}

proof fn lemma_hit_categories_hold(
    cmds: Seq<Command>,
    found: Seq<Hit>,
    categories: Seq<CommandCategory>,
    c: CommandCategory,
)
    ensures
        hit_categories(cmds, found, categories).contains(c) <==> categories.contains(c)
            && category_hits(cmds, found, c).len() > 0,
    decreases categories.len(),
{
    if categories.len() > 0 {
        let shorter = categories.drop_last();
        let before = hit_categories(cmds, found, shorter);
        let now = hit_categories(cmds, found, categories);
        lemma_hit_categories_hold(cmds, found, shorter, c);
        assert(categories.contains(c) <==> shorter.contains(c) || c == categories.last()) by {
            if shorter.contains(c) {
                let i = choose|i: int| 0 <= i < shorter.len() && shorter[i] == c;
                assert(categories[i] == c);
            }
            assert(categories[categories.len() - 1] == categories.last());
            if categories.contains(c) {
                let i = choose|i: int| 0 <= i < categories.len() && categories[i] == c;
                if i < shorter.len() {
                    assert(shorter[i] == c);
                }
            }
        }
        if category_hits(cmds, found, categories.last()).len() > 0 {
            assert(now == before.push(categories.last()));
            assert(now[before.len() as int] == categories.last());
            if before.contains(c) {
                let i = choose|i: int| 0 <= i < before.len() && before[i] == c;
                assert(now[i] == c);
            }
            if now.contains(c) {
                let i = choose|i: int| 0 <= i < now.len() && now[i] == c;
                if i < before.len() {
                    assert(before[i] == c);
                }
            }
        }
    }
}

/// The hits of a category are those of its commands, in the order they had, and
/// its best score is that of one of them and no less than any.
pub proof fn law_category_hits(
    cmds: Seq<Command>,
    a: Seq<Hit>,
    h: Hit,
    b: Seq<Hit>,
    category: CommandCategory,
)
    ensures
        category_hits(cmds, a + seq![h] + b, category) == category_hits(cmds, a, category) + (
        if cmds[h.index as int].category == category {
            seq![h]
        } else {
            Seq::empty()
        }) + category_hits(cmds, b, category),
        category_hits(cmds, Seq::<Hit>::empty(), category).len() == 0,
        best_score(a + seq![h] + b) >= h.score,
        exists|k: int|
            0 <= k < (a + seq![h] + b).len() && (#[trigger] (a + seq![h] + b)[k]).score == best_score(
                a + seq![h] + b,
            ),
    decreases b.len(),
{
    let all = a + seq![h] + b;
    let here = if cmds[h.index as int].category == category {
        seq![h]
    } else {
        Seq::empty()
    };
    if b.len() == 0 {
        assert(all.drop_last() =~= a);
        assert(all.last() == h);
    } else {
        let t = b.drop_last();
        law_category_hits(cmds, a, h, t, category);
        assert(all.drop_last() =~= a + seq![h] + t);
        assert(all.last() == b.last());
    }
    assert(category_hits(cmds, all, category) =~= category_hits(cmds, a, category) + here
        + category_hits(cmds, b, category));
    lemma_best_is_taken(all);
}

proof fn lemma_best_is_taken(found: Seq<Hit>)
    requires
        found.len() > 0,
    ensures
        exists|k: int| 0 <= k < found.len() && (#[trigger] found[k]).score == best_score(found),
    decreases found.len(),
{
    if found.len() == 1 {
        assert(found[0].score == best_score(found));
    } else {
        let shorter = found.drop_last();
        lemma_best_is_taken(shorter);
        let k = choose|k: int|
            0 <= k < shorter.len() && (#[trigger] shorter[k]).score == best_score(shorter);
        assert(found[k] == shorter[k]);
        assert(found[found.len() - 1] == found.last());
    }
}

/// The rows that can be selected are the commands, from the top down.
pub proof fn law_selectable(rows: Seq<Row>, i: int)
    ensures
        selectable(rows).contains(i) <==> 0 <= i < rows.len() && rows[i] is Command,
        forall|j: int, k: int|
            0 <= j < k < selectable(rows).len() ==> #[trigger] selectable(rows)[j]
                < #[trigger] selectable(rows)[k],
    decreases rows.len(),
{
    let now = selectable(rows);
    if rows.len() > 0 {
        let shorter = rows.drop_last();
        let before = selectable(shorter);
        law_selectable(shorter, i);
        assert forall|k: int| 0 <= k < before.len() implies #[trigger] before[k] < shorter.len() by {
            law_selectable(shorter, before[k]);
            assert(before.contains(before[k]));
        }
        if rows.last() is Command {
            assert(now == before.push(rows.len() - 1));
            assert(now[before.len() as int] == rows.len() - 1);
            if before.contains(i) {
                let k = choose|k: int| 0 <= k < before.len() && before[k] == i;
                assert(now[k] == i);
            }
            if now.contains(i) {
                let k = choose|k: int| 0 <= k < now.len() && now[k] == i;
                if k < before.len() {
                    assert(before[k] == i);
                }
            }
        }
    }
}

/// A move goes so many rows on from the selected one, and stops at the ends;
/// where none is selected, it goes to the first row or to the last.
pub proof fn law_moved_to(selectable: Seq<usize>, k: int, delta: i32)
    requires
        selectable.no_duplicates(),
        0 <= k < selectable.len(),
    ensures
        ({
            let to = moved_to(selectable, Some(selectable[k]), delta);
            &&& 0 <= k + delta < selectable.len() ==> to == k + delta
            &&& k + delta < 0 ==> to == 0
            &&& k + delta >= selectable.len() ==> to == selectable.len() - 1
        }),
        delta > 0 ==> moved_to(selectable, None, delta) == 0,
        delta <= 0 ==> moved_to(selectable, None, delta) == selectable.len() - 1,
{
    assert(selectable.contains(selectable[k]));
    selectable.index_of_first_ensures(selectable[k]);
}

/// The command of each action that has keys.
spec fn keyed_commands() -> Seq<int> {
    seq![7, 8, 5, 3, 1, 2, 20, 21, 23, 25, 11, -1, 12, 0, 14, 15, 16, 13, 26, 28, 9, 10, 6]
}

/// Where each command's action stands among those that have keys.
spec fn command_keys() -> Seq<int> {
    seq![13, 4, 5, 3, -1, 2, 22, 0, 1, 20, 21, 10, 12, 17, 14, 15, 16, -1, -1, -1, 6, 7, -1, 8, -1, 9, 18, -1, 19]
}

proof fn lemma_keyed_command(m: int)
    requires
        0 <= m < 23,
    ensures
        action_rank(window::accelerator_table()[m].action) == keyed_commands()[m],
{
    if m == 0 {
        reveal_strlit("win.new-tab");
    } else if m == 1 {
        reveal_strlit("win.close-tab");
    } else if m == 2 {
        reveal_strlit("win.focus-url");
    } else if m == 3 {
        reveal_strlit("win.reload");
    } else if m == 4 {
        reveal_strlit("win.go-back");
    } else if m == 5 {
        reveal_strlit("win.go-forward");
    } else if m == 6 {
        reveal_strlit("win.toggle-bookmark");
    } else if m == 7 {
        reveal_strlit("win.show-history");
    } else if m == 8 {
        reveal_strlit("win.show-downloads");
    } else if m == 9 {
        reveal_strlit("win.show-settings");
    } else if m == 10 {
        reveal_strlit("win.toggle-sidebar");
    } else if m == 11 {
        reveal_strlit("win.command-palette");
    } else if m == 12 {
        reveal_strlit("win.toggle-split-view");
    } else if m == 13 {
        reveal_strlit("win.go-home");
    } else if m == 14 {
        reveal_strlit("win.zoom-in");
    } else if m == 15 {
        reveal_strlit("win.zoom-out");
    } else if m == 16 {
        reveal_strlit("win.zoom-reset");
    } else if m == 17 {
        reveal_strlit("win.toggle-fullscreen");
    } else if m == 18 {
        reveal_strlit("win.print-page");
    } else if m == 19 {
        reveal_strlit("win.open-devtools");
    } else if m == 20 {
        reveal_strlit("win.next-tab");
    } else if m == 21 {
        reveal_strlit("win.prev-tab");
    } else if m == 22 {
        reveal_strlit("win.copy-url");
    }
}

proof fn lemma_modifiers(rest: Seq<char>)
    requires
        rest.len() > 0,
    ensures
        window::key_label("<Ctrl>"@ + rest) == "Ctrl+"@ + window::key_label(rest),
        window::key_label("<Shift>"@ + rest) == "Shift+"@ + window::key_label(rest),
        window::key_label("<Alt>"@ + rest) == "Alt+"@ + window::key_label(rest),
{
    reveal_strlit("<Ctrl>");
    reveal_strlit("<Shift>");
    reveal_strlit("<Alt>");
    let c = "<Ctrl>"@ + rest;
    let s = "<Shift>"@ + rest;
    let a = "<Alt>"@ + rest;
    assert(c.subrange(0, 6) =~= "<Ctrl>"@);
    assert(s.subrange(0, 7) =~= "<Shift>"@);
    assert(a.subrange(0, 5) =~= "<Alt>"@);
    assert(c.skip(6) =~= rest);
    assert(s.skip(7) =~= rest);
    assert(a.skip(5) =~= rest);
    assert(!text::begins(s, "<Ctrl>"@)) by {
        assert(s.subrange(0, 6)[1] == s[1]);
    }
    if a.len() >= 6 {
        assert(a.subrange(0, 6)[1] == a[1]);
    }
    if a.len() >= 7 {
        assert(a.subrange(0, 7)[1] == a[1]);
    }
}

proof fn lemma_plain_key(key: Seq<char>)
    requires
        key.len() > 0,
        key[0] != '<',
    ensures
        !text::begins(key, "<Ctrl>"@),
        !text::begins(key, "<Shift>"@),
        !text::begins(key, "<Alt>"@),
{
    reveal_strlit("<Ctrl>");
    reveal_strlit("<Shift>");
    reveal_strlit("<Alt>");
    if key.len() >= 6 {
        assert(key.subrange(0, 6)[0] == key[0]);
    }
    if key.len() >= 7 {
        assert(key.subrange(0, 7)[0] == key[0]);
    }
    if key.len() >= 5 {
        assert(key.subrange(0, 5)[0] == key[0]);
    }
}

/// Keys alone.
proof fn lemma_bare_keys()
    ensures
        window::key_label("F5"@) == "F5"@,
        "F5"@.len() > 0,
        window::key_label("F11"@) == "F11"@,
        "F11"@.len() > 0,
        window::key_label("F12"@) == "F12"@,
        "F12"@.len() > 0,
{
    reveal_strlit("<Ctrl>");
    reveal_strlit("<Shift>");
    reveal_strlit("<Alt>");
    reveal_strlit("Ctrl+");
    reveal_strlit("Shift+");
    reveal_strlit("Alt+");
    reveal_strlit("comma");
    reveal_strlit("backslash");
    reveal_strlit("equal");
    reveal_strlit("minus");
    assert(window::key_label("F5"@) == "F5"@ && "F5"@.len() > 0) by {
        reveal_strlit("F5");
        lemma_plain_key("F5"@);
        assert(window::key_label("F5"@) == "F5"@);
    }
    assert(window::key_label("F11"@) == "F11"@ && "F11"@.len() > 0) by {
        reveal_strlit("F11");
        lemma_plain_key("F11"@);
        assert(window::key_label("F11"@) == "F11"@);
    }
    assert(window::key_label("F12"@) == "F12"@ && "F12"@.len() > 0) by {
        reveal_strlit("F12");
        lemma_plain_key("F12"@);
        assert(window::key_label("F12"@) == "F12"@);
    }
}

/// Keys that are held with Alt.
proof fn lemma_alt_keys()
    ensures
        window::key_label("<Alt>Home"@) == "Alt+Home"@,
        "Alt+Home"@.len() > 0,
        window::key_label("<Alt>Left"@) == "Alt+Left"@,
        "Alt+Left"@.len() > 0,
        window::key_label("<Alt>Right"@) == "Alt+Right"@,
        "Alt+Right"@.len() > 0,
{
    reveal_strlit("<Ctrl>");
    reveal_strlit("<Shift>");
    reveal_strlit("<Alt>");
    reveal_strlit("Ctrl+");
    reveal_strlit("Shift+");
    reveal_strlit("Alt+");
    reveal_strlit("comma");
    reveal_strlit("backslash");
    reveal_strlit("equal");
    reveal_strlit("minus");
    assert(window::key_label("<Alt>Home"@) == "Alt+Home"@ && "Alt+Home"@.len() > 0) by {
        reveal_strlit("<Alt>Home");
        reveal_strlit("Alt+Home");
        reveal_strlit("Home");
        lemma_plain_key("Home"@);
        assert(window::key_label("Home"@) == "Home"@);
        lemma_modifiers("Home"@);
        assert("<Alt>Home"@ =~= "<Alt>"@ + "Home"@);
        assert("Alt+Home"@ =~= "Alt+"@ + "Home"@);
    }
    assert(window::key_label("<Alt>Left"@) == "Alt+Left"@ && "Alt+Left"@.len() > 0) by {
        reveal_strlit("<Alt>Left");
        reveal_strlit("Alt+Left");
        reveal_strlit("Left");
        lemma_plain_key("Left"@);
        assert(window::key_label("Left"@) == "Left"@);
        lemma_modifiers("Left"@);
        assert("<Alt>Left"@ =~= "<Alt>"@ + "Left"@);
        assert("Alt+Left"@ =~= "Alt+"@ + "Left"@);
    }
    assert(window::key_label("<Alt>Right"@) == "Alt+Right"@ && "Alt+Right"@.len() > 0) by {
        reveal_strlit("<Alt>Right");
        reveal_strlit("Alt+Right");
        reveal_strlit("Right");
        lemma_plain_key("Right"@);
        assert("Right"@[0] == 'R' && "comma"@[0] == 'c' && "equal"@[0] == 'e' && "minus"@[0] == 'm');
        assert(window::key_label("Right"@) == "Right"@);
        lemma_modifiers("Right"@);
        assert("<Alt>Right"@ =~= "<Alt>"@ + "Right"@);
        assert("Alt+Right"@ =~= "Alt+"@ + "Right"@);
    }
}

/// Letters that are held with Ctrl.
proof fn lemma_ctrl_letters()
    ensures
        window::key_label("<Ctrl>l"@) == "Ctrl+L"@,
        "Ctrl+L"@.len() > 0,
        window::key_label("<Ctrl>t"@) == "Ctrl+T"@,
        "Ctrl+T"@.len() > 0,
        window::key_label("<Ctrl>w"@) == "Ctrl+W"@,
        "Ctrl+W"@.len() > 0,
        window::key_label("<Ctrl>d"@) == "Ctrl+D"@,
        "Ctrl+D"@.len() > 0,
        window::key_label("<Ctrl>h"@) == "Ctrl+H"@,
        "Ctrl+H"@.len() > 0,
        window::key_label("<Ctrl>j"@) == "Ctrl+J"@,
        "Ctrl+J"@.len() > 0,
        window::key_label("<Ctrl>p"@) == "Ctrl+P"@,
        "Ctrl+P"@.len() > 0,
{
    reveal_strlit("<Ctrl>");
    reveal_strlit("<Shift>");
    reveal_strlit("<Alt>");
    reveal_strlit("Ctrl+");
    reveal_strlit("Shift+");
    reveal_strlit("Alt+");
    reveal_strlit("comma");
    reveal_strlit("backslash");
    reveal_strlit("equal");
    reveal_strlit("minus");
    assert(window::key_label("<Ctrl>l"@) == "Ctrl+L"@ && "Ctrl+L"@.len() > 0) by {
        reveal_strlit("<Ctrl>l");
        reveal_strlit("Ctrl+L");
        reveal_strlit("l");
        reveal_strlit("L");
        lemma_plain_key("l"@);
        assert(window::key_label("l"@) =~= "L"@);
        lemma_modifiers("l"@);
        assert("<Ctrl>l"@ =~= "<Ctrl>"@ + "l"@);
        assert("Ctrl+L"@ =~= "Ctrl+"@ + "L"@);
    }
    assert(window::key_label("<Ctrl>t"@) == "Ctrl+T"@ && "Ctrl+T"@.len() > 0) by {
        reveal_strlit("<Ctrl>t");
        reveal_strlit("Ctrl+T");
        reveal_strlit("t");
        reveal_strlit("T");
        lemma_plain_key("t"@);
        assert(window::key_label("t"@) =~= "T"@);
        lemma_modifiers("t"@);
        assert("<Ctrl>t"@ =~= "<Ctrl>"@ + "t"@);
        assert("Ctrl+T"@ =~= "Ctrl+"@ + "T"@);
    }
    assert(window::key_label("<Ctrl>w"@) == "Ctrl+W"@ && "Ctrl+W"@.len() > 0) by {
        reveal_strlit("<Ctrl>w");
        reveal_strlit("Ctrl+W");
        reveal_strlit("w");
        reveal_strlit("W");
        lemma_plain_key("w"@);
        assert(window::key_label("w"@) =~= "W"@);
        lemma_modifiers("w"@);
        assert("<Ctrl>w"@ =~= "<Ctrl>"@ + "w"@);
        assert("Ctrl+W"@ =~= "Ctrl+"@ + "W"@);
    }
    assert(window::key_label("<Ctrl>d"@) == "Ctrl+D"@ && "Ctrl+D"@.len() > 0) by {
        reveal_strlit("<Ctrl>d");
        reveal_strlit("Ctrl+D");
        reveal_strlit("d");
        reveal_strlit("D");
        lemma_plain_key("d"@);
        assert(window::key_label("d"@) =~= "D"@);
        lemma_modifiers("d"@);
        assert("<Ctrl>d"@ =~= "<Ctrl>"@ + "d"@);
        assert("Ctrl+D"@ =~= "Ctrl+"@ + "D"@);
    }
    assert(window::key_label("<Ctrl>h"@) == "Ctrl+H"@ && "Ctrl+H"@.len() > 0) by {
        reveal_strlit("<Ctrl>h");
        reveal_strlit("Ctrl+H");
        reveal_strlit("h");
        reveal_strlit("H");
        lemma_plain_key("h"@);
        assert(window::key_label("h"@) =~= "H"@);
        lemma_modifiers("h"@);
        assert("<Ctrl>h"@ =~= "<Ctrl>"@ + "h"@);
        assert("Ctrl+H"@ =~= "Ctrl+"@ + "H"@);
    }
    assert(window::key_label("<Ctrl>j"@) == "Ctrl+J"@ && "Ctrl+J"@.len() > 0) by {
        reveal_strlit("<Ctrl>j");
        reveal_strlit("Ctrl+J");
        reveal_strlit("j");
        reveal_strlit("J");
        lemma_plain_key("j"@);
        assert(window::key_label("j"@) =~= "J"@);
        lemma_modifiers("j"@);
        assert("<Ctrl>j"@ =~= "<Ctrl>"@ + "j"@);
        assert("Ctrl+J"@ =~= "Ctrl+"@ + "J"@);
    }
    assert(window::key_label("<Ctrl>p"@) == "Ctrl+P"@ && "Ctrl+P"@.len() > 0) by {
        reveal_strlit("<Ctrl>p");
        reveal_strlit("Ctrl+P");
        reveal_strlit("p");
        reveal_strlit("P");
        lemma_plain_key("p"@);
        assert(window::key_label("p"@) =~= "P"@);
        lemma_modifiers("p"@);
        assert("<Ctrl>p"@ =~= "<Ctrl>"@ + "p"@);
        assert("Ctrl+P"@ =~= "Ctrl+"@ + "P"@);
    }
}

/// Other keys that are held with Ctrl.
proof fn lemma_ctrl_keys()
    ensures
        window::key_label("<Ctrl>Tab"@) == "Ctrl+Tab"@,
        "Ctrl+Tab"@.len() > 0,
        window::key_label("<Ctrl>backslash"@) == "Ctrl+\\"@,
        "Ctrl+\\"@.len() > 0,
        window::key_label("<Ctrl>equal"@) == "Ctrl+="@,
        "Ctrl+="@.len() > 0,
        window::key_label("<Ctrl>minus"@) == "Ctrl+-"@,
        "Ctrl+-"@.len() > 0,
        window::key_label("<Ctrl>0"@) == "Ctrl+0"@,
        "Ctrl+0"@.len() > 0,
        window::key_label("<Ctrl>comma"@) == "Ctrl+,"@,
        "Ctrl+,"@.len() > 0,
{
    reveal_strlit("<Ctrl>");
    reveal_strlit("<Shift>");
    reveal_strlit("<Alt>");
    reveal_strlit("Ctrl+");
    reveal_strlit("Shift+");
    reveal_strlit("Alt+");
    reveal_strlit("comma");
    reveal_strlit("backslash");
    reveal_strlit("equal");
    reveal_strlit("minus");
    assert(window::key_label("<Ctrl>Tab"@) == "Ctrl+Tab"@ && "Ctrl+Tab"@.len() > 0) by {
        reveal_strlit("<Ctrl>Tab");
        reveal_strlit("Ctrl+Tab");
        reveal_strlit("Tab");
        lemma_plain_key("Tab"@);
        assert(window::key_label("Tab"@) == "Tab"@);
        lemma_modifiers("Tab"@);
        assert("<Ctrl>Tab"@ =~= "<Ctrl>"@ + "Tab"@);
        assert("Ctrl+Tab"@ =~= "Ctrl+"@ + "Tab"@);
    }
    assert(window::key_label("<Ctrl>backslash"@) == "Ctrl+\\"@ && "Ctrl+\\"@.len() > 0) by {
        reveal_strlit("<Ctrl>backslash");
        reveal_strlit("Ctrl+\\");
        reveal_strlit("backslash");
        reveal_strlit("\\");
        lemma_plain_key("backslash"@);
        assert(window::key_label("backslash"@) == "\\"@);
        lemma_modifiers("backslash"@);
        assert("<Ctrl>backslash"@ =~= "<Ctrl>"@ + "backslash"@);
        assert("Ctrl+\\"@ =~= "Ctrl+"@ + "\\"@);
    }
    assert(window::key_label("<Ctrl>equal"@) == "Ctrl+="@ && "Ctrl+="@.len() > 0) by {
        reveal_strlit("<Ctrl>equal");
        reveal_strlit("Ctrl+=");
        reveal_strlit("equal");
        reveal_strlit("=");
        lemma_plain_key("equal"@);
        assert("equal"@[0] == 'e' && "comma"@[0] == 'c');
        assert(window::key_label("equal"@) == "="@);
        lemma_modifiers("equal"@);
        assert("<Ctrl>equal"@ =~= "<Ctrl>"@ + "equal"@);
        assert("Ctrl+="@ =~= "Ctrl+"@ + "="@);
    }
    assert(window::key_label("<Ctrl>minus"@) == "Ctrl+-"@ && "Ctrl+-"@.len() > 0) by {
        reveal_strlit("<Ctrl>minus");
        reveal_strlit("Ctrl+-");
        reveal_strlit("minus");
        reveal_strlit("-");
        lemma_plain_key("minus"@);
        assert("minus"@[0] == 'm' && "comma"@[0] == 'c' && "equal"@[0] == 'e');
        assert(window::key_label("minus"@) == "-"@);
        lemma_modifiers("minus"@);
        assert("<Ctrl>minus"@ =~= "<Ctrl>"@ + "minus"@);
        assert("Ctrl+-"@ =~= "Ctrl+"@ + "-"@);
    }
    assert(window::key_label("<Ctrl>0"@) == "Ctrl+0"@ && "Ctrl+0"@.len() > 0) by {
        reveal_strlit("<Ctrl>0");
        reveal_strlit("Ctrl+0");
        reveal_strlit("0");
        lemma_plain_key("0"@);
        assert(window::key_label("0"@) == "0"@);
        lemma_modifiers("0"@);
        assert("<Ctrl>0"@ =~= "<Ctrl>"@ + "0"@);
        assert("Ctrl+0"@ =~= "Ctrl+"@ + "0"@);
    }
    assert(window::key_label("<Ctrl>comma"@) == "Ctrl+,"@ && "Ctrl+,"@.len() > 0) by {
        reveal_strlit("<Ctrl>comma");
        reveal_strlit("Ctrl+,");
        reveal_strlit("comma");
        reveal_strlit(",");
        lemma_plain_key("comma"@);
        assert(window::key_label("comma"@) == ","@);
        lemma_modifiers("comma"@);
        assert("<Ctrl>comma"@ =~= "<Ctrl>"@ + "comma"@);
        assert("Ctrl+,"@ =~= "Ctrl+"@ + ","@);
    }
}

/// Keys that are held with Ctrl and Shift.
proof fn lemma_ctrl_shift_keys()
    ensures
        window::key_label("<Ctrl><Shift>c"@) == "Ctrl+Shift+C"@,
        "Ctrl+Shift+C"@.len() > 0,
        window::key_label("<Ctrl><Shift>Tab"@) == "Ctrl+Shift+Tab"@,
        "Ctrl+Shift+Tab"@.len() > 0,
        window::key_label("<Ctrl><Shift>e"@) == "Ctrl+Shift+E"@,
        "Ctrl+Shift+E"@.len() > 0,
{
    reveal_strlit("<Ctrl>");
    reveal_strlit("<Shift>");
    reveal_strlit("<Alt>");
    reveal_strlit("Ctrl+");
    reveal_strlit("Shift+");
    reveal_strlit("Alt+");
    reveal_strlit("comma");
    reveal_strlit("backslash");
    reveal_strlit("equal");
    reveal_strlit("minus");
    assert(window::key_label("<Ctrl><Shift>c"@) == "Ctrl+Shift+C"@ && "Ctrl+Shift+C"@.len() > 0) by {
        reveal_strlit("<Ctrl><Shift>c");
        reveal_strlit("Ctrl+Shift+C");
        reveal_strlit("c");
        reveal_strlit("C");
        lemma_plain_key("c"@);
        assert(window::key_label("c"@) =~= "C"@);
        lemma_modifiers("c"@);
        lemma_modifiers("<Shift>"@ + "c"@);
        assert("<Ctrl><Shift>c"@ =~= "<Ctrl>"@ + ("<Shift>"@ + "c"@));
        assert("Ctrl+Shift+C"@ =~= "Ctrl+"@ + ("Shift+"@ + "C"@));
    }
    assert(window::key_label("<Ctrl><Shift>Tab"@) == "Ctrl+Shift+Tab"@ && "Ctrl+Shift+Tab"@.len() > 0) by {
        reveal_strlit("<Ctrl><Shift>Tab");
        reveal_strlit("Ctrl+Shift+Tab");
        reveal_strlit("Tab");
        lemma_plain_key("Tab"@);
        assert(window::key_label("Tab"@) == "Tab"@);
        lemma_modifiers("Tab"@);
        lemma_modifiers("<Shift>"@ + "Tab"@);
        assert("<Ctrl><Shift>Tab"@ =~= "<Ctrl>"@ + ("<Shift>"@ + "Tab"@));
        assert("Ctrl+Shift+Tab"@ =~= "Ctrl+"@ + ("Shift+"@ + "Tab"@));
    }
    assert(window::key_label("<Ctrl><Shift>e"@) == "Ctrl+Shift+E"@ && "Ctrl+Shift+E"@.len() > 0) by {
        reveal_strlit("<Ctrl><Shift>e");
        reveal_strlit("Ctrl+Shift+E");
        reveal_strlit("e");
        reveal_strlit("E");
        lemma_plain_key("e"@);
        assert(window::key_label("e"@) =~= "E"@);
        lemma_modifiers("e"@);
        lemma_modifiers("<Shift>"@ + "e"@);
        assert("<Ctrl><Shift>e"@ =~= "<Ctrl>"@ + ("<Shift>"@ + "e"@));
        assert("Ctrl+Shift+E"@ =~= "Ctrl+"@ + ("Shift+"@ + "E"@));
    }
}

proof fn lemma_shortcut(i: int)
    requires
        0 <= i < 29,
        command_keys()[i] >= 0,
    ensures
        0 <= command_keys()[i] < 23,
        command_table()[i].shortcut.len() > 0,
        window::accelerator_table()[command_keys()[i]].action == command_table()[i].action,
        window::key_label(window::accelerator_table()[command_keys()[i]].keys[0])
            == command_table()[i].shortcut,
{
    lemma_bare_keys();
    lemma_alt_keys();
    lemma_ctrl_letters();
    lemma_ctrl_keys();
    lemma_ctrl_shift_keys();
}

/// A command shows the first key of its action, and none where its action has
/// no keys.
pub proof fn law_shortcuts(i: int)
    requires
        0 <= i < command_table().len(),
    ensures
        command_table()[i].shortcut.len() == 0 ==> forall|m: int|
            0 <= m < window::accelerator_table().len() ==> (#[trigger] window::accelerator_table()[m]).action
                != command_table()[i].action,
        command_table()[i].shortcut.len() > 0 ==> exists|m: int|
            0 <= m < window::accelerator_table().len() && (#[trigger] window::accelerator_table()[m]).action
                == command_table()[i].action && window::key_label(
                window::accelerator_table()[m].keys[0],
            ) == command_table()[i].shortcut,
{
    lemma_unkeyed(i);
    if command_keys()[i] >= 0 {
        lemma_shortcut(i);
        let m = command_keys()[i];
        assert(window::accelerator_table()[m].action == command_table()[i].action);
    } else {
        lemma_ranks(i);
        assert forall|m: int| 0 <= m < window::accelerator_table().len() implies (
        #[trigger] window::accelerator_table()[m]).action != command_table()[i].action by {
            lemma_keyed_command(m);
            assert(keyed_commands()[m] != i);
        }
    }
}

proof fn lemma_unkeyed(i: int)
    requires
        0 <= i < 29,
    ensures
        command_keys()[i] < 0 ==> command_table()[i].shortcut.len() == 0,
{
    reveal_strlit("");
}

} // verus!
