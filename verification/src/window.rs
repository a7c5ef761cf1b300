//! The window: workspaces, the tabs that belong to them, and what the controls
//! around the page show.

use vstd::prelude::*;

use crate::adblocker;
use crate::bookmarks;
use crate::bookmarks::Bookmarks;
use crate::browser_tab;
use crate::browser_tab::SecurityIcon;
use crate::number;
use crate::records;
use crate::records::Record;
use crate::settings;
use crate::settings::Settings;
use crate::sorting;
use crate::text;
use crate::webview;

verus! {

// Workspaces.

/// A named group of tabs.
#[derive(Clone, Debug)]
pub struct Workspace {
    pub id: i64,
    pub name: String,
    pub color: String,
    pub position: i32,
}

/// What a workspace holds.
#[verifier::ext_equal]
pub struct Space {
    pub id: i64,
    pub name: Seq<char>,
    pub color: Seq<char>,
    pub position: i32,
}

impl View for Workspace {
    type V = Space;

    open spec fn view(&self) -> Space {
        Space { id: self.id, name: self.name@, color: self.color@, position: self.position }
    }
}

/// A workspace as it is stored.
pub struct StoredWorkspace {
    pub id: i64,
    pub name: String,
    pub color: String,
    pub position: i64,
}

/// What a stored workspace holds.
#[verifier::ext_equal]
pub struct StoredSpace {
    pub id: i64,
    pub name: Seq<char>,
    pub color: Seq<char>,
    pub position: i64,
}

impl View for StoredWorkspace {
    type V = StoredSpace;

    open spec fn view(&self) -> StoredSpace {
        StoredSpace { id: self.id, name: self.name@, color: self.color@, position: self.position }
    }
}

impl Record for StoredWorkspace {
    fn copied(&self) -> (r: Self) {
        StoredWorkspace {
            id: self.id,
            name: self.name.clone(),
            color: self.color.clone(),
            position: self.position,
        }
    }
}

/// The workspaces in the order in which they were made, and the highest number
/// ever given to one.
pub struct Workspaces {
    rows: Vec<StoredWorkspace>,
    last_id: i64,
}

/// What the workspaces hold.
#[verifier::ext_equal]
pub struct WorkspaceTable {
    pub rows: Seq<StoredSpace>,
    pub last_id: i64,
}

impl View for Workspaces {
    type V = WorkspaceTable;

    closed spec fn view(&self) -> WorkspaceTable {
        WorkspaceTable { rows: records::contents(self.rows@), last_id: self.last_id }
    }
}

/// No workspace has a number that is still to be given.
pub open spec fn numbered(t: WorkspaceTable) -> bool {
    forall|i: int| 0 <= i < t.rows.len() ==> (#[trigger] t.rows[i]).id <= t.last_id
}

/// The workspace further to the front first.
pub open spec fn by_position() -> spec_fn(StoredSpace, StoredSpace) -> bool {
    |a: StoredSpace, b: StoredSpace| a.position < b.position
}

/// Having a position that a workspace can show.
pub open spec fn placeable() -> spec_fn(StoredSpace) -> bool {
    |w: StoredSpace| i32::MIN <= w.position <= i32::MAX
}

/// A stored workspace as it is shown.
pub open spec fn shown(w: StoredSpace) -> Space {
    Space { id: w.id, name: w.name, color: w.color, position: w.position as i32 }
}

/// Stored workspaces as they are shown.
pub open spec fn shown_all(rows: Seq<StoredSpace>) -> Seq<Space> {
    rows.map_values(|w: StoredSpace| shown(w))
}

/// The workspaces by position.
pub open spec fn listed(t: WorkspaceTable) -> Seq<Space> {
    shown_all(sorting::sorted(t.rows, by_position()).filter(placeable()))
}

/// The largest position, or zero where there are no workspaces.
pub open spec fn last_position(rows: Seq<StoredSpace>) -> i64
    decreases rows.len(),
{
    if rows.len() == 0 {
        0
    } else if rows.len() == 1 {
        rows[0].position
    } else {
        let before = last_position(rows.drop_last());
        if rows.last().position > before {
            rows.last().position
        } else {
            before
        }
    }
}

/// The position of a new workspace: behind all others, or zero where no number
/// is left behind them.
pub open spec fn next_position(rows: Seq<StoredSpace>) -> i64 {
    if last_position(rows) < i64::MAX {
        (last_position(rows) + 1) as i64
    } else {
        0
    }
}

/// The workspaces with one more, at a position.
pub open spec fn with_workspace(
    t: WorkspaceTable,
    name: Seq<char>,
    color: Seq<char>,
    position: i64,
) -> WorkspaceTable {
    let id = (t.last_id + 1) as i64;
    WorkspaceTable { rows: t.rows.push(StoredSpace { id, name, color, position }), last_id: id }
}

/// The colour of the first workspace.
pub const DEFAULT_COLOR: &'static str = "#3584e4";

/// The colours that new workspaces take in turn.
pub const WORKSPACE_COLORS: [&'static str; 6] = [
    "#3584e4",
    "#33d17a",
    "#ff7800",
    "#e01b24",
    "#9141ac",
    "#f6d32d",
];

impl Workspaces {
    /// No workspaces.
    pub fn new() -> (r: Self)
        ensures
            r@ == (WorkspaceTable { rows: Seq::empty(), last_id: 0 }),
            numbered(r@),
    {
        let r = Workspaces { rows: Vec::new(), last_id: 0 };
        assert(r@.rows =~= Seq::empty());
        r
    }

    /// The given workspaces, in the order in which they were made; `last_id` is
    /// the highest number known to have been given.
    pub fn with_entries(rows: Vec<StoredWorkspace>, last_id: i64) -> (r: Self)
        ensures
            r@.rows == records::contents(rows@),
            numbered(r@),
            r@.last_id >= last_id,
            r@.last_id == last_id || exists|i: int|
                0 <= i < rows@.len() && (#[trigger] rows@[i]).id == r@.last_id,
    {
        let mut highest: i64 = last_id;
        let mut i: usize = 0;
        while i < rows.len()
            invariant
                i <= rows@.len(),
                highest >= last_id,
                forall|k: int| 0 <= k < i ==> (#[trigger] rows@[k]).id <= highest,
                highest == last_id || exists|k: int|
                    0 <= k < rows@.len() && (#[trigger] rows@[k]).id == highest,
            decreases rows@.len() - i,
        {
            if rows[i].id > highest {
                highest = rows[i].id;
            }
            i += 1;
        }
        Workspaces { rows, last_id: highest }
    }

    /// The workspaces, in the order in which they were made.
    pub fn entries(&self) -> (r: &Vec<StoredWorkspace>)
        ensures
            records::contents(r@) == self@.rows,
    {
        &self.rows
    }

    /// Whether a number is left for a further workspace.
    pub fn has_room(&self) -> (r: bool)
        ensures
            r == (self@.last_id < i64::MAX),
    {
        self.last_id < i64::MAX
    }

    fn add_row(&mut self, name: &str, color: &str, position: i64)
        requires
            old(self)@.last_id < i64::MAX,
        ensures
            final(self)@ == with_workspace(old(self)@, name@, color@, position),
    {
        let ghost start = self@;
        let id: i64 = self.last_id + 1;
        let row = StoredWorkspace { id, name: name.to_owned(), color: color.to_owned(), position };
        let ghost made = row@;
        self.rows.push(row);
        self.last_id = id;
        assert(self@.rows =~= start.rows.push(made));
    }
}

/// Ensure there is always at least one workspace ("Default").
pub fn ensure_default_workspace(w: &mut Workspaces)
    requires
        old(w)@.rows.len() == 0 ==> old(w)@.last_id < i64::MAX,
    ensures
        final(w)@ == if old(w)@.rows.len() == 0 {
            with_workspace(old(w)@, "Default"@, DEFAULT_COLOR@, 0)
        } else {
            old(w)@
        },
        final(w)@.rows.len() > 0,
{
    if w.rows.len() == 0 {
        w.add_row("Default", DEFAULT_COLOR, 0);
    }
}

/// All workspaces, by position.
pub fn load_workspaces(w: &Workspaces) -> (r: Vec<Workspace>)
    ensures
        records::contents(r@) == listed(w@),
{
    let ghost items = w@.rows;
    let mut keys: Vec<i64> = Vec::new();
    let mut i: usize = 0;
    while i < w.rows.len()
        invariant
            items == records::contents(w.rows@),
            i <= w.rows@.len(),
            keys@.len() == i,
            forall|k: int| 0 <= k < i ==> #[trigger] keys@[k] == items[k].position,
        decreases w.rows@.len() - i,
    {
        keys.push(w.rows[i].position);
        i += 1;
    }
    let order = sorting::order_by(&keys);
    proof {
        sorting::lemma_picked_is_sorted(items, by_position(), keys@, order@);
    }
    let rows = records::pick(&w.rows, &order);
    let ghost all = sorting::sorted(items, by_position());
    let ghost f = placeable();
    let mut r: Vec<Workspace> = Vec::new();
    let mut k: usize = 0;
    assert(all.take(0).filter(f) =~= Seq::empty()) by {
        reveal(Seq::filter);
    }
    assert(records::contents(r@) =~= shown_all(all.take(0).filter(f)));
    while k < rows.len()
        invariant
            all == records::contents(rows@),
            f == placeable(),
            k <= rows@.len(),
            records::contents(r@) == shown_all(all.take(k as int).filter(f)),
        decreases rows@.len() - k,
    {
        proof {
            reveal(Seq::filter);
            assert(all.take(k + 1).drop_last() =~= all.take(k as int));
            assert(all[k as int] == rows@[k as int]@);
        }
        let position: i64 = rows[k].position;
        if i32::MIN as i64 <= position && position <= i32::MAX as i64 {
            let ghost before = r@;
            let ghost kept = all.take(k as int).filter(f);
            r.push(
                Workspace {
                    id: rows[k].id,
                    name: rows[k].name.clone(),
                    color: rows[k].color.clone(),
                    position: position as i32,
                },
            );
            assert(records::contents(r@) =~= records::contents(before).push(shown(all[k as int])));
            assert(shown_all(kept.push(all[k as int])) =~= shown_all(kept).push(shown(all[k as int])));
        }
        k += 1;
    }
    assert(all.take(k as int) =~= all);
    r
}

fn find_last_position(rows: &Vec<StoredWorkspace>) -> (r: i64)
    ensures
        r == last_position(records::contents(rows@)),
{
    if rows.len() == 0 {
        return 0;
    }
    let ghost items = records::contents(rows@);
    let mut last: i64 = rows[0].position;
    let mut i: usize = 1;
    assert(last == last_position(items.take(1)));
    while i < rows.len()
        invariant
            items == records::contents(rows@),
            1 <= i <= rows@.len(),
            last == last_position(items.take(i as int)),
        decreases rows@.len() - i,
    {
        assert(items.take(i + 1).drop_last() =~= items.take(i as int));
        assert(items[i as int] == rows@[i as int]@);
        if rows[i].position > last {
            last = rows[i].position;
        }
        i += 1;
    }
    assert(items.take(i as int) =~= items);
    last
}

/// Add a new workspace and return it.
pub fn create_workspace(w: &mut Workspaces, name: &str, color: &str) -> (r: Workspace)
    requires
        old(w)@.last_id < i64::MAX,
    ensures
        final(w)@ == with_workspace(old(w)@, name@, color@, next_position(old(w)@.rows)),
        r@ == (Space {
            id: final(w)@.last_id,
            name: name@,
            color: color@,
            position: number::wrapped(next_position(old(w)@.rows) as int),
        }),
{
    let last = find_last_position(&w.rows);
    let position: i64 = if last < i64::MAX {
        last + 1
    } else {
        0
    };
    w.add_row(name, color, position);
    Workspace {
        id: w.last_id,
        name: name.to_owned(),
        color: color.to_owned(),
        position: number::wrap(position as i128),
    }
}

/// The name of the next workspace.
pub open spec fn next_name(count: nat) -> Seq<char> {
    "Workspace "@ + text::decimal(count + 1)
}

/// Add a workspace named by its place among the workspaces, with the next
/// colour, and return it.
pub fn new_workspace(w: &mut Workspaces) -> (r: Workspace)
    requires
        old(w)@.last_id < i64::MAX,
    ensures
        final(w)@ == with_workspace(
            old(w)@,
            next_name(listed(old(w)@).len()),
            WORKSPACE_COLORS@[listed(old(w)@).len() as int % 6]@,
            next_position(old(w)@.rows),
        ),
        r@ == (Space {
            id: final(w)@.last_id,
            name: next_name(listed(old(w)@).len()),
            color: WORKSPACE_COLORS@[listed(old(w)@).len() as int % 6]@,
            position: number::wrapped(next_position(old(w)@.rows) as int),
        }),
{
    let existing = load_workspaces(w);
    let count: usize = existing.len();
    let color = WORKSPACE_COLORS[count % 6];
    assert(count == listed(w@).len());
    assert(color@ == WORKSPACE_COLORS@[count as int % 6]@);
    let number = text::decimal_of(count as u128 + 1);
    let name = text::joined("Workspace ", number.as_str());
    create_workspace(w, name.as_str(), color)
}

// Tabs.

/// The workspace that a new tab belongs to: the active one, or the first where
/// all are shown.
pub fn assign_workspace(active: i64) -> (r: i64)
    ensures
        r == if active == 0 {
            1
        } else {
            active
        },
{
    if active == 0 {
        1
    } else {
        active
    }
}

/// The workspace that a tab belongs to; the first where none is noted.
pub open spec fn workspace_of(tab: Option<i64>) -> i64 {
    match tab {
        Some(id) => id,
        None => 1,
    }
}

/// Whether a tab is shown, its label and the filter in lower case: it belongs
/// to the active workspace, or all are shown, and the filter is empty or
/// stands in its label. Without a label the filter does not apply.
pub open spec fn tab_shown(
    active: i64,
    tab: Option<i64>,
    filter: Seq<char>,
    label: Option<Seq<char>>,
) -> bool {
    &&& active <= 0 || workspace_of(tab) == active
    &&& filter.len() == 0 || match label {
        Some(l) => text::holds(l, filter),
        None => true,
    }
}

/// Whether a tab is shown, its label and the filter in lower case.
pub fn is_tab_shown(active: i64, tab: Option<i64>, filter: &str, label: Option<&str>) -> (r: bool)
    ensures
        r == tab_shown(
            active,
            tab,
            filter@,
            match label {
                Some(l) => Some(l@),
                None => None,
            },
        ),
{
    let workspace: i64 = match tab {
        Some(id) => id,
        None => 1,
    };
    if active > 0 && workspace != active {
        return false;
    }
    if filter.is_empty() {
        return true;
    }
    match label {
        Some(l) => text::has(l, filter),
        None => true,
    }
}

/// Filters a tab by the active workspace and by the text in the filter entry,
/// whatever its case.
pub fn filter_tab(active: i64, tab: Option<i64>, filter: &str, label: Option<&str>) -> (r: bool)
    ensures
        r == tab_shown(
            active,
            tab,
            if filter@.len() == 0 {
                Seq::empty()
            } else {
                text::lowercase(filter@)
            },
            match label {
                Some(l) => Some(text::lowercase(l@)),
                None => None,
            },
        ),
{
    let q = if filter.is_empty() {
        String::new()
    } else {
        text::to_lowercase(filter)
    };
    assert(filter@.len() == 0 ==> q@ =~= Seq::empty());
    match label {
        Some(l) => {
            let lowered = text::to_lowercase(l);
            is_tab_shown(active, tab, q.as_str(), Some(lowered.as_str()))
        },
        None => is_tab_shown(active, tab, q.as_str(), None),
    }
}

/// The first tab of a workspace, or the first of all where `active` is zero.
pub open spec fn first_tab(tabs: Seq<Option<i64>>, active: i64) -> Option<int>
    decreases tabs.len(),
{
    if tabs.len() == 0 {
        None
    } else {
        match first_tab(tabs.drop_last(), active) {
            Some(i) => Some(i),
            None => if active == 0 || workspace_of(tabs.last()) == active {
                Some(tabs.len() - 1)
            } else {
                None
            },
        }
    }
}

proof fn lemma_first_tab_grows(tabs: Seq<Option<i64>>, active: i64, n: int)
    requires
        0 <= n <= tabs.len(),
        first_tab(tabs.take(n), active) is Some,
    ensures
        first_tab(tabs, active) == first_tab(tabs.take(n), active),
    decreases tabs.len() - n,
{
    if n < tabs.len() {
        assert(tabs.take(n + 1).drop_last() =~= tabs.take(n));
        lemma_first_tab_grows(tabs, active, n + 1);
    } else {
        assert(tabs.take(n) =~= tabs);
    }
}

/// After a workspace switch, the tab to select: the first that belongs to the
/// new workspace. If `active` is 0 ("All Workspaces"), the first tab.
pub fn select_first_visible_tab(tabs: &Vec<Option<i64>>, active: i64) -> (r: Option<usize>)
    ensures
        match r {
            Some(i) => first_tab(tabs@, active) == Some(i as int),
            None => first_tab(tabs@, active) is None,
        },
{
    let mut i: usize = 0;
    while i < tabs.len()
        invariant
            i <= tabs@.len(),
            first_tab(tabs@.take(i as int), active) is None,
        decreases tabs@.len() - i,
    {
        assert(tabs@.take(i + 1).drop_last() =~= tabs@.take(i as int));
        let workspace: i64 = match tabs[i] {
            Some(id) => id,
            None => 1,
        };
        if active == 0 || workspace == active {
            assert(first_tab(tabs@.take(i + 1), active) == Some(i as int));
            proof {
                lemma_first_tab_grows(tabs@, active, i + 1);
            }
            return Some(i);
        }
        i += 1;
    }
    assert(tabs@.take(i as int) =~= tabs@);
    None
}

/// The tab after the one at `pos` of `n`, round to the first.
pub open spec fn tab_after(pos: int, n: int) -> int {
    if pos + 1 < n {
        pos + 1
    } else {
        0
    }
}

/// The tab before the one at `pos` of `n`, round to the last.
pub open spec fn tab_before(pos: int, n: int) -> int {
    if pos > 0 {
        pos - 1
    } else {
        n - 1
    }
}

/// The next tab, where there is more than one.
pub fn next_tab(pos: i32, n: i32) -> (r: Option<i32>)
    ensures
        match r {
            Some(next) => n > 1 && next == tab_after(pos as int, n as int),
            None => n <= 1,
        },
{
    if n <= 1 {
        None
    } else if pos < n - 1 {
        Some(pos + 1)
    } else {
        Some(0)
    }
}

/// The previous tab, where there is more than one.
pub fn prev_tab(pos: i32, n: i32) -> (r: Option<i32>)
    ensures
        match r {
            Some(prev) => n > 1 && prev == tab_before(pos as int, n as int),
            None => n <= 1,
        },
{
    if n <= 1 {
        None
    } else if pos > 0 {
        Some(pos - 1)
    } else {
        Some(n - 1)
    }
}

/// The page that a row of the sidebar stands for, if there is one.
pub fn row_to_page(row: i32, pages: i32) -> (r: Option<i32>)
    ensures
        r == if 0 <= row < pages {
            Some(row)
        } else {
            None
        },
{
    if 0 <= row && row < pages {
        Some(row)
    } else {
        None
    }
}

// The sidebar and the split view.

/// Whether the sidebar is shown, and the width to go back to.
#[derive(Clone, Copy, PartialEq, Eq, Structural)]
pub struct SidebarState {
    pub visible: bool,
    pub saved_position: i32,
}

/// The sidebar's state when the window opens.
pub fn new_sidebar_state() -> (r: SidebarState)
    ensures
        r == (SidebarState { visible: true, saved_position: 280 }),
{
    SidebarState { visible: true, saved_position: 280 }
}

/// The sidebar's state after a toggle at a width.
pub open spec fn sidebar_toggled(s: SidebarState, position: i32) -> SidebarState {
    if s.visible {
        SidebarState { visible: false, saved_position: position }
    } else {
        SidebarState { visible: true, ..s }
    }
}

/// Toggles the sidebar, which is `position` wide now. Returns the width to give
/// it: none where it is hidden, else that which it had.
pub fn toggle_sidebar(s: &mut SidebarState, position: i32) -> (width: i32)
    ensures
        *final(s) == sidebar_toggled(*old(s), position),
        width == if old(s).visible {
            0
        } else {
            old(s).saved_position
        },
{
    if s.visible {
        s.saved_position = position;
        s.visible = false;
        0
    } else {
        s.visible = true;
        s.saved_position
    }
}

/// Toggles the split view. Returns what the toast says.
pub fn toggle_split(active: &mut bool) -> (toast: &'static str)
    ensures
        *final(active) == !*old(active),
        toast@ == if *old(active) {
            "Split view closed"@
        } else {
            "Split view opened"@
        },
{
    if *active {
        *active = false;
        "Split view closed"
    } else {
        *active = true;
        "Split view opened"
    }
}

/// Where the split view is divided: in the middle, once the width is known.
pub fn split_position(width: i32) -> (r: Option<i32>)
    ensures
        r == if width > 0 {
            Some((width as int / 2) as i32)
        } else {
            None
        },
{
    if width > 0 {
        Some(width / 2)
    } else {
        None
    }
}

// Titles, addresses and buttons.

/// The title of the window.
pub open spec fn title_of_window(title: Option<Seq<char>>) -> Seq<char> {
    match title {
        Some(t) => if t.len() > 0 {
            t + " \u{2014} Wynn Browser"@
        } else {
            "Wynn Browser"@
        },
        None => "Wynn Browser"@,
    }
}

/// The title of the window, given that of the page.
pub fn window_title(title: Option<&str>) -> (r: String)
    ensures
        r@ == title_of_window(text_of(title)),
{
    match title {
        Some(t) => if t.is_empty() {
            "Wynn Browser".to_owned()
        } else {
            text::joined(t, " \u{2014} Wynn Browser")
        },
        None => "Wynn Browser".to_owned(),
    }
}

/// The address of a page's source.
pub open spec fn source_address(uri: Seq<char>) -> Seq<char> {
    if text::begins(uri, "view-source:"@) {
        uri
    } else {
        "view-source:"@ + uri
    }
}

/// The address of a page's source.
pub fn view_source_url(uri: &str) -> (r: String)
    ensures
        r@ == source_address(uri@),
{
    if text::starts(uri, "view-source:") {
        uri.to_owned()
    } else {
        text::joined("view-source:", uri)
    }
}

/// Where the text of the address bar leads; nowhere for an empty text.
pub fn entry_target(s: &Settings, entry: &str) -> (r: Option<String>)
    ensures
        match r {
            Some(url) => entry@.len() > 0 && url@ == webview::normalised(s@, entry@),
            None => entry@.len() == 0,
        },
{
    if entry.is_empty() {
        None
    } else {
        Some(webview::normalise_uri(s, entry))
    }
}

/// The icon and the tooltip of a button.
pub struct ButtonFace {
    pub icon: &'static str,
    pub tooltip: &'static str,
}

/// How the button that reloads or stops a page looks.
pub fn refresh_button(loading: bool) -> (r: ButtonFace)
    ensures
        r.icon@ == if loading {
            "process-stop-symbolic"@
        } else {
            "view-refresh-symbolic"@
        },
        r.tooltip@ == if loading {
            "Stop"@
        } else {
            "Reload (F5)"@
        },
{
    if loading {
        ButtonFace { icon: "process-stop-symbolic", tooltip: "Stop" }
    } else {
        ButtonFace { icon: "view-refresh-symbolic", tooltip: "Reload (F5)" }
    }
}

/// How the bookmark button looks.
pub fn bookmark_button(bookmarked: bool) -> (r: ButtonFace)
    ensures
        r.icon@ == if bookmarked {
            "starred-symbolic"@
        } else {
            "non-starred-symbolic"@
        },
        r.tooltip@ == if bookmarked {
            "Remove Bookmark (Ctrl+D)"@
        } else {
            "Bookmark (Ctrl+D)"@
        },
{
    if bookmarked {
        ButtonFace { icon: "starred-symbolic", tooltip: "Remove Bookmark (Ctrl+D)" }
    } else {
        ButtonFace { icon: "non-starred-symbolic", tooltip: "Bookmark (Ctrl+D)" }
    }
}

/// What the controls show of the selected page.
pub struct PageChrome {
    pub address: String,
    pub security: SecurityIcon,
    pub bookmark_icon: &'static str,
    pub title: String,
    pub loading: bool,
    pub refresh: ButtonFace,
}

/// A text that may be absent.
pub open spec fn text_of(t: Option<&str>) -> Option<Seq<char>> {
    match t {
        Some(t) => Some(t@),
        None => None,
    }
}

/// The address of a page, empty where it has none.
pub open spec fn address_of(uri: Option<&str>) -> Seq<char> {
    match uri {
        Some(u) => u@,
        None => Seq::empty(),
    }
}

/// What the controls show when a page is selected. A page without an address
/// has no bookmark.
pub fn select_page(b: &Bookmarks, uri: Option<&str>, title: Option<&str>, loading: bool) -> (r:
    PageChrome)
    ensures
        r.address@ == address_of(uri),
        r.security.icon@ == browser_tab::security_icon(address_of(uri)),
        match r.security.class {
            Some(c) => browser_tab::on_the_web(address_of(uri)) && c@
                == browser_tab::security_class(address_of(uri)),
            None => !browser_tab::on_the_web(address_of(uri)),
        },
        r.bookmark_icon@ == (if uri is Some && bookmarks::marked(b@, uri->0@) {
            "starred-symbolic"@
        } else {
            "non-starred-symbolic"@
        }),
        r.title@ == title_of_window(text_of(title)),
        r.loading == loading,
        r.refresh.icon@ == (if loading {
            "process-stop-symbolic"@
        } else {
            "view-refresh-symbolic"@
        }),
        r.refresh.tooltip@ == (if loading {
            "Stop"@
        } else {
            "Reload (F5)"@
        }),
{
    let (address, marked): (String, bool) = match uri {
        Some(u) => (u.to_owned(), bookmarks::is_bookmarked(b, u)),
        None => (String::new(), false),
    };
    assert(address@ =~= address_of(uri));
    let security = browser_tab::update_security_icon(address.as_str());
    let face = bookmark_button(marked);
    PageChrome {
        address,
        security,
        bookmark_icon: face.icon,
        title: window_title(title),
        loading,
        refresh: refresh_button(loading),
    }
}

/// The named icon of a tab's row: a spinner while the page loads, else the
/// globe, unless the page has an icon of its own.
pub fn row_icon(loading: bool, has_icon: bool) -> (r: Option<&'static str>)
    ensures
        match r {
            Some(name) => (loading || !has_icon) && name@ == (if loading {
                "content-loading-symbolic"@
            } else {
                "globe-symbolic"@
            }),
            None => !loading && has_icon,
        },
{
    if loading {
        Some("content-loading-symbolic")
    } else if has_icon {
        None
    } else {
        Some("globe-symbolic")
    }
}

/// What closing a page entails.
pub struct ClosePlan {
    /// The row of the sidebar to take out.
    pub row: Option<i32>,
    /// Whether the window closes too, as it does with its last page.
    pub close_window: bool,
}

/// Closes the page at `pos` of `pages`, of which `rows` have a row in the
/// sidebar.
pub fn close_page(pos: i32, rows: i32, pages: i32) -> (r: ClosePlan)
    ensures
        r.row == (if 0 <= pos < rows {
            Some(pos)
        } else {
            None
        }),
        r.close_window == (pages <= 1),
{
    ClosePlan { row: row_to_page(pos, rows), close_window: pages <= 1 }
}

// Ad blocking.

/// Turns ad blocking on or off. Returns whether it is on now.
pub fn toggle_adblock(s: &mut Settings) -> (on: bool)
    ensures
        on == !settings::flag(old(s)@, "adblock_enabled"@, true),
        final(s)@ == old(s)@.insert("adblock_enabled"@, settings::flag_text(on)),
        settings::flag(final(s)@, "adblock_enabled"@, true) == on,
{
    let on = !adblocker::is_enabled(s);
    adblocker::set_enabled(s, on);
    on
}

/// What the toast says when ad blocking is turned on or off.
pub fn adblock_toast(on: bool) -> (r: &'static str)
    ensures
        r@ == if on {
            "Ad blocker enabled"@
        } else {
            "Ad blocker disabled"@
        },
{
    if on {
        "Ad blocker enabled"
    } else {
        "Ad blocker disabled"
    }
}

/// What the toast says after the blocklist was refreshed.
pub fn refresh_toast(domains: usize) -> (r: String)
    ensures
        r@ == if domains > 0 {
            "Blocklist updated: "@ + text::decimal(domains as nat) + " domains blocked"@
        } else {
            "Failed to refresh blocklist"@
        },
{
    if domains > 0 {
        let mut r = "Blocklist updated: ".to_owned();
        let n = text::decimal_of(domains as u128);
        r.append(n.as_str());
        r.append(" domains blocked");
        r
    } else {
        "Failed to refresh blocklist".to_owned()
    }
}

/// What the toast says when the window opens; there is none without domains.
pub fn startup_toast(domains: usize) -> (r: Option<String>)
    ensures
        match r {
            Some(t) => domains > 0 && t@ == "Ad blocker active: "@ + text::decimal(domains as nat)
                + " domains blocked"@,
            None => domains == 0,
        },
{
    if domains > 0 {
        let mut r = "Ad blocker active: ".to_owned();
        let n = text::decimal_of(domains as u128);
        r.append(n.as_str());
        r.append(" domains blocked");
        Some(r)
    } else {
        None
    }
}

// Keyboard.

/// The names of the window's actions.
pub open spec fn action_list() -> Seq<Seq<char>> {
    seq![
        "new-tab"@,
        "close-tab"@,
        "focus-url"@,
        "reload"@,
        "go-back"@,
        "go-forward"@,
        "toggle-bookmark"@,
        "show-history"@,
        "show-bookmarks"@,
        "show-downloads"@,
        "show-settings"@,
        "show-passwords"@,
        "toggle-sidebar"@,
        "command-palette"@,
        "toggle-split-view"@,
        "refresh-blocklist"@,
        "go-home"@,
        "stop-loading"@,
        "clear-history"@,
        "toggle-adblock"@,
        "zoom-in"@,
        "zoom-out"@,
        "zoom-reset"@,
        "copy-url"@,
        "toggle-fullscreen"@,
        "print-page"@,
        "view-source"@,
        "open-devtools"@,
        "next-tab"@,
        "prev-tab"@,
    ]
}

/// The names of the window's actions.
pub fn window_actions() -> (v: Vec<&'static str>)
    ensures
        webview::patterns(v@) == action_list(),
{
    let mut v: Vec<&'static str> = Vec::new();
    v.push("new-tab");
    v.push("close-tab");
    v.push("focus-url");
    v.push("reload");
    v.push("go-back");
    v.push("go-forward");
    v.push("toggle-bookmark");
    v.push("show-history");
    v.push("show-bookmarks");
    v.push("show-downloads");
    v.push("show-settings");
    v.push("show-passwords");
    v.push("toggle-sidebar");
    v.push("command-palette");
    v.push("toggle-split-view");
    v.push("refresh-blocklist");
    v.push("go-home");
    v.push("stop-loading");
    v.push("clear-history");
    v.push("toggle-adblock");
    v.push("zoom-in");
    v.push("zoom-out");
    v.push("zoom-reset");
    v.push("copy-url");
    v.push("toggle-fullscreen");
    v.push("print-page");
    v.push("view-source");
    v.push("open-devtools");
    v.push("next-tab");
    v.push("prev-tab");
    assert(webview::patterns(v@) =~= action_list());
    v
}

/// The keys that activate an action.
pub struct Accelerator {
    pub action: &'static str,
    pub keys: Vec<&'static str>,
}

/// What an accelerator holds.
#[verifier::ext_equal]
pub struct Keys {
    pub action: Seq<char>,
    pub keys: Seq<Seq<char>>,
}

impl View for Accelerator {
    type V = Keys;

    open spec fn view(&self) -> Keys {
        Keys { action: self.action@, keys: webview::patterns(self.keys@) }
    }
}

/// An accelerator made of its parts.
pub open spec fn accelerator(action: Seq<char>, keys: Seq<Seq<char>>) -> Keys {
    Keys { action, keys }
}

/// The keys of all actions that have any.
pub open spec fn accelerator_table() -> Seq<Keys> {
    seq![
        accelerator("win.new-tab"@, seq!["<Ctrl>t"@]),
        accelerator("win.close-tab"@, seq!["<Ctrl>w"@]),
        accelerator("win.focus-url"@, seq!["<Ctrl>l"@]),
        accelerator("win.reload"@, seq!["F5"@, "<Ctrl>r"@]),
        accelerator("win.go-back"@, seq!["<Alt>Left"@]),
        accelerator("win.go-forward"@, seq!["<Alt>Right"@]),
        accelerator("win.toggle-bookmark"@, seq!["<Ctrl>d"@]),
        accelerator("win.show-history"@, seq!["<Ctrl>h"@]),
        accelerator("win.show-downloads"@, seq!["<Ctrl>j"@]),
        accelerator("win.show-settings"@, seq!["<Ctrl>comma"@]),
        accelerator("win.toggle-sidebar"@, seq!["<Ctrl>backslash"@]),
        accelerator("win.command-palette"@, seq!["<Ctrl><Shift>p"@]),
        accelerator("win.toggle-split-view"@, seq!["<Ctrl><Shift>e"@]),
        accelerator("win.go-home"@, seq!["<Alt>Home"@]),
        accelerator("win.zoom-in"@, seq!["<Ctrl>equal"@, "<Ctrl>plus"@]),
        accelerator("win.zoom-out"@, seq!["<Ctrl>minus"@]),
        accelerator("win.zoom-reset"@, seq!["<Ctrl>0"@]),
        accelerator("win.toggle-fullscreen"@, seq!["F11"@]),
        accelerator("win.print-page"@, seq!["<Ctrl>p"@]),
        accelerator("win.open-devtools"@, seq!["F12"@]),
        accelerator("win.next-tab"@, seq!["<Ctrl>Tab"@]),
        accelerator("win.prev-tab"@, seq!["<Ctrl><Shift>Tab"@]),
        accelerator("win.copy-url"@, seq!["<Ctrl><Shift>c"@]),
    ]
}

fn one_key(action: &'static str, key: &'static str) -> (r: Accelerator)
    ensures
        r@ == accelerator(action@, seq![key@]),
{
    let mut keys: Vec<&'static str> = Vec::new();
    keys.push(key);
    assert(webview::patterns(keys@) =~= seq![key@]);
    Accelerator { action, keys }
}

fn two_keys(action: &'static str, first: &'static str, second: &'static str) -> (r: Accelerator)
    ensures
        r@ == accelerator(action@, seq![first@, second@]),
{
    let mut keys: Vec<&'static str> = Vec::new();
    keys.push(first);
    keys.push(second);
    assert(webview::patterns(keys@) =~= seq![first@, second@]);
    Accelerator { action, keys }
}

/// The keys of all actions that have any.
pub fn accelerators() -> (v: Vec<Accelerator>)
    ensures
        records::contents(v@) == accelerator_table(),
{
    let mut v: Vec<Accelerator> = Vec::new();
    v.push(one_key("win.new-tab", "<Ctrl>t"));
    v.push(one_key("win.close-tab", "<Ctrl>w"));
    v.push(one_key("win.focus-url", "<Ctrl>l"));
    v.push(two_keys("win.reload", "F5", "<Ctrl>r"));
    v.push(one_key("win.go-back", "<Alt>Left"));
    v.push(one_key("win.go-forward", "<Alt>Right"));
    v.push(one_key("win.toggle-bookmark", "<Ctrl>d"));
    v.push(one_key("win.show-history", "<Ctrl>h"));
    v.push(one_key("win.show-downloads", "<Ctrl>j"));
    v.push(one_key("win.show-settings", "<Ctrl>comma"));
    v.push(one_key("win.toggle-sidebar", "<Ctrl>backslash"));
    v.push(one_key("win.command-palette", "<Ctrl><Shift>p"));
    v.push(one_key("win.toggle-split-view", "<Ctrl><Shift>e"));
    v.push(one_key("win.go-home", "<Alt>Home"));
    v.push(two_keys("win.zoom-in", "<Ctrl>equal", "<Ctrl>plus"));
    v.push(one_key("win.zoom-out", "<Ctrl>minus"));
    v.push(one_key("win.zoom-reset", "<Ctrl>0"));
    v.push(one_key("win.toggle-fullscreen", "F11"));
    v.push(one_key("win.print-page", "<Ctrl>p"));
    v.push(one_key("win.open-devtools", "F12"));
    v.push(one_key("win.next-tab", "<Ctrl>Tab"));
    v.push(one_key("win.prev-tab", "<Ctrl><Shift>Tab"));
    v.push(one_key("win.copy-url", "<Ctrl><Shift>c"));
    assert(records::contents(v@) =~= accelerator_table());
    v
}

// Laws.

proof fn lemma_last_position(rows: Seq<StoredSpace>, i: int)
    requires
        0 <= i < rows.len(),
    ensures
        rows[i].position <= last_position(rows),
    decreases rows.len(),
{
    if rows.len() > 1 && i < rows.len() - 1 {
        lemma_last_position(rows.drop_last(), i);
    }
}

/// A new workspace stands behind all others, while there is a position left
/// behind them.
pub proof fn law_new_workspace_is_last(
    t: WorkspaceTable,
    name: Seq<char>,
    color: Seq<char>,
    i: int,
)
    requires
        0 <= i < t.rows.len(),
        last_position(t.rows) < i64::MAX,
    ensures
        t.rows[i].position < next_position(t.rows),
        with_workspace(t, name, color, next_position(t.rows)).rows.last().position
            == next_position(t.rows),
{
    lemma_last_position(t.rows, i);
}

/// A new workspace has a number that no other has or had.
pub proof fn law_new_workspace_is_numbered(
    t: WorkspaceTable,
    name: Seq<char>,
    color: Seq<char>,
    position: i64,
)
    requires
        numbered(t),
        t.last_id < i64::MAX,
    ensures
        numbered(with_workspace(t, name, color, position)),
        with_workspace(t, name, color, position).rows.last().id > t.last_id,
        with_workspace(t, name, color, position).rows.len() == t.rows.len() + 1,
{
    let u = with_workspace(t, name, color, position);
    assert forall|i: int| 0 <= i < u.rows.len() implies (#[trigger] u.rows[i]).id <= u.last_id by {
        if i < t.rows.len() {
            assert(t.rows[i].id <= t.last_id);
        }
    }
}

/// The list of workspaces goes by position.
pub proof fn law_listed_by_position(t: WorkspaceTable)
    requires
        t.rows.len() <= usize::MAX,
        forall|i: int| 0 <= i < t.rows.len() ==> placeable()(#[trigger] t.rows[i]),
    ensures
        listed(t).len() == t.rows.len(),
        forall|i: int, j: int|
            0 <= i < j < listed(t).len() ==> (#[trigger] listed(t)[i]).position <= (
            #[trigger] listed(t)[j]).position,
{
    let less = by_position();
    assert(sorting::strict_weak(less));
    sorting::law_sorted(t.rows, less);
    let all = sorting::sorted(t.rows, less);
    assert forall|i: int| 0 <= i < all.len() implies placeable()(#[trigger] all[i]) by {
        assert(all.contains(all[i]));
        assert(t.rows.contains(all[i]));
        let k = choose|k: int| 0 <= k < t.rows.len() && t.rows[k] == all[i];
        assert(placeable()(t.rows[k]));
    }
    lemma_all_kept(all);
    let l = listed(t);
    assert forall|i: int, j: int| 0 <= i < j < l.len() implies (#[trigger] l[i]).position <= (
    #[trigger] l[j]).position by {
        assert(!less(all[j], all[i]));
        assert(placeable()(all[i]));
        assert(placeable()(all[j]));
    }
}

proof fn lemma_all_kept(rows: Seq<StoredSpace>)
    requires
        forall|i: int| 0 <= i < rows.len() ==> placeable()(#[trigger] rows[i]),
    ensures
        rows.filter(placeable()) == rows,
    decreases rows.len(),
{
    reveal(Seq::filter);
    if rows.len() > 0 {
        let shorter = rows.drop_last();
        assert forall|i: int| 0 <= i < shorter.len() implies placeable()(#[trigger] shorter[i]) by {
            assert(placeable()(rows[i]));
        }
        lemma_all_kept(shorter);
        assert(placeable()(rows[rows.len() - 1]));
        assert(shorter.push(rows.last()) =~= rows);
    }
}

/// The tab selected after a switch is shown in the new workspace, and none
/// before it is.
pub proof fn law_first_tab(tabs: Seq<Option<i64>>, active: i64)
    requires
        active >= 0,
    ensures
        match first_tab(tabs, active) {
            Some(i) => {
                &&& 0 <= i < tabs.len()
                &&& tab_shown(active, tabs[i], Seq::empty(), None)
                &&& forall|j: int|
                    0 <= j < i ==> !tab_shown(active, #[trigger] tabs[j], Seq::empty(), None)
            },
            None => forall|j: int|
                0 <= j < tabs.len() ==> !tab_shown(active, #[trigger] tabs[j], Seq::empty(), None),
        },
    decreases tabs.len(),
{
    if tabs.len() > 0 {
        let shorter = tabs.drop_last();
        law_first_tab(shorter, active);
        match first_tab(shorter, active) {
            Some(i) => {
                assert forall|j: int| 0 <= j < i implies !tab_shown(
                    active,
                    #[trigger] tabs[j],
                    Seq::empty(),
                    None,
                ) by {
                    assert(!tab_shown(active, shorter[j], Seq::empty(), None));
                }
            },
            None => {
                assert forall|j: int| 0 <= j < shorter.len() implies !tab_shown(
                    active,
                    #[trigger] tabs[j],
                    Seq::empty(),
                    None,
                ) by {
                    assert(!tab_shown(active, shorter[j], Seq::empty(), None));
                }
            },
        }
    }
}

/// Going on and going back undo each other, and both stay among the tabs.
pub proof fn law_tab_cycling(pos: int, n: int)
    requires
        n > 1,
        0 <= pos < n,
    ensures
        0 <= tab_after(pos, n) < n,
        0 <= tab_before(pos, n) < n,
        tab_before(tab_after(pos, n), n) == pos,
        tab_after(tab_before(pos, n), n) == pos,
{
}

/// Hiding the sidebar and showing it again gives it back its width.
pub proof fn law_sidebar_width_returns(s: SidebarState, position: i32, hidden: i32)
    requires
        s.visible,
    ensures
        sidebar_toggled(sidebar_toggled(s, position), hidden) == (SidebarState {
            visible: true,
            saved_position: position,
        }),
{
}

/// The source of a page's source is the page's source.
pub proof fn law_view_source_once(uri: Seq<char>)
    ensures
        source_address(source_address(uri)) == source_address(uri),
{
    let s = source_address(uri);
    if !text::begins(uri, "view-source:"@) {
        assert(s.subrange(0, "view-source:"@.len() as int) =~= "view-source:"@);
    }
}

proof fn lemma_last_position_is_taken(rows: Seq<StoredSpace>)
    requires
        rows.len() > 0,
    ensures
        exists|i: int| 0 <= i < rows.len() && (#[trigger] rows[i]).position == last_position(rows),
    decreases rows.len(),
{
    if rows.len() == 1 {
        assert(rows[0].position == last_position(rows));
    } else {
        let shorter = rows.drop_last();
        lemma_last_position_is_taken(shorter);
        let i = choose|i: int|
            0 <= i < shorter.len() && (#[trigger] shorter[i]).position == last_position(shorter);
        assert(rows[i] == shorter[i]);
        assert(rows[rows.len() - 1] == rows.last());
    }
}

/// A new workspace stands right behind the last one: its position is one more
/// than some other's. The first of all stands at one.
pub proof fn law_new_workspace_is_next(t: WorkspaceTable)
    requires
        last_position(t.rows) < i64::MAX,
    ensures
        t.rows.len() > 0 ==> exists|i: int|
            0 <= i < t.rows.len() && (#[trigger] t.rows[i]).position + 1 == next_position(t.rows),
        t.rows.len() == 0 ==> next_position(t.rows) == 1,
{
    if t.rows.len() > 0 {
        lemma_last_position_is_taken(t.rows);
        let i = choose|i: int|
            0 <= i < t.rows.len() && (#[trigger] t.rows[i]).position == last_position(t.rows);
        assert(t.rows[i].position + 1 == next_position(t.rows));
    }
}

/// Adding a workspace adds one row behind the others, which stay as they are,
/// with the next number and what it was given.
pub proof fn law_new_workspace_spares_others(
    t: WorkspaceTable,
    name: Seq<char>,
    color: Seq<char>,
    position: i64,
)
    requires
        t.last_id < i64::MAX,
    ensures
        ({
            let u = with_workspace(t, name, color, position);
            let n = t.rows.len() as int;
            &&& u.rows.len() == n + 1
            &&& forall|i: int| 0 <= i < n ==> #[trigger] u.rows[i] == t.rows[i]
            &&& u.rows[n].id == t.last_id + 1
            &&& u.rows[n].name == name
            &&& u.rows[n].color == color
            &&& u.rows[n].position == position
            &&& u.last_id == t.last_id + 1
        }),
{
}

/// The list of workspaces holds each row whose position can be shown, with its
/// number, name, colour and position, and nothing else.
pub proof fn law_listed_workspaces(t: WorkspaceTable, w: Space)
    requires
        t.rows.len() <= usize::MAX,
    ensures
        listed(t).contains(w) <==> exists|i: int|
            {
                &&& 0 <= i < t.rows.len()
                &&& (#[trigger] t.rows[i]).position == w.position
                &&& t.rows[i].id == w.id
                &&& t.rows[i].name == w.name
                &&& t.rows[i].color == w.color
            },
{
    let less = by_position();
    assert(sorting::strict_weak(less));
    sorting::law_sorted(t.rows, less);
    let order = sorting::sorted(t.rows, less);
    let kept = order.filter(placeable());
    let all = listed(t);
    if all.contains(w) {
        let k = choose|k: int| 0 <= k < all.len() && all[k] == w;
        assert(kept.contains(kept[k]));
        records::lemma_filter_holds(order, placeable(), kept[k]);
        assert(t.rows.contains(kept[k]));
        let i = choose|i: int| 0 <= i < t.rows.len() && t.rows[i] == kept[k];
        assert(t.rows[i].position == w.position);
    }
    if exists|i: int|
        {
            &&& 0 <= i < t.rows.len()
            &&& (#[trigger] t.rows[i]).position == w.position
            &&& t.rows[i].id == w.id
            &&& t.rows[i].name == w.name
            &&& t.rows[i].color == w.color
        } {
        let i = choose|i: int|
            {
                &&& 0 <= i < t.rows.len()
                &&& (#[trigger] t.rows[i]).position == w.position
                &&& t.rows[i].id == w.id
                &&& t.rows[i].name == w.name
                &&& t.rows[i].color == w.color
            };
        let row = t.rows[i];
        assert(t.rows.contains(row));
        records::lemma_filter_holds(order, placeable(), row);
        let k = choose|k: int| 0 <= k < kept.len() && kept[k] == row;
        assert(all[k] == shown(row));
        assert(shown(row) == w);
    }
}

/// The name of a new workspace ends in the number that it is of its kind.
pub proof fn law_workspace_names(count: nat)
    ensures
        text::begins(next_name(count), "Workspace "@),
        text::digits_value(next_name(count).skip(10)) == count + 1,
{
    reveal_strlit("Workspace ");
    text::law_decimal_reads_back(count + 1);
    assert(next_name(count).subrange(0, 10) =~= "Workspace "@);
    assert(next_name(count).skip(10) =~= text::decimal(count + 1));
}

/// Which tabs are shown: those of the active workspace, or of all where none is
/// active, whose label holds the filter; a tab that belongs to none counts to
/// the first, and one without label passes every filter.
pub proof fn law_shown_tabs(
    active: i64,
    tab: Option<i64>,
    filter: Seq<char>,
    label: Option<Seq<char>>,
)
    ensures
        active <= 0 && filter.len() == 0 ==> tab_shown(active, tab, filter, label),
        active > 0 && tab is Some && tab->0 != active ==> !tab_shown(active, tab, filter, label),
        active > 1 && tab is None ==> !tab_shown(active, tab, filter, label),
        active <= 0 || tab == Some(active) || (active == 1 && tab is None) ==> (tab_shown(
            active,
            tab,
            filter,
            label,
        ) <==> filter.len() == 0 || label is None || exists|i: int|
            text::occurs_at(label->0, filter, i)),
{
}

/// After the last tab comes the first, before the first the last; else the
/// neighbours.
pub proof fn law_tab_neighbours(pos: int, n: int)
    requires
        0 <= pos < n,
    ensures
        tab_after(pos, n) == (pos + 1) % n,
        pos > 0 ==> tab_before(pos, n) == pos - 1,
        tab_before(0, n) == n - 1,
{
    if pos + 1 < n {
        assert((pos + 1) % n == pos + 1) by (nonlinear_arith)
            requires
                0 <= pos + 1 < n,
        ;
    } else {
        assert((pos + 1) % n == 0) by (nonlinear_arith)
            requires
                pos + 1 == n,
                n > 0,
        ;
    }
}

/// A toggle turns the sidebar over, whatever its width, and notes the width
/// only where it hides it.
pub proof fn law_sidebar_toggles(s: SidebarState, position: i32)
    ensures
        sidebar_toggled(s, position).visible == !s.visible,
        s.visible ==> sidebar_toggled(s, position).saved_position == position,
        !s.visible ==> sidebar_toggled(s, position).saved_position == s.saved_position,
{
}

/// The source of a page lies behind its address; an address of a source is left
/// as it is.
pub proof fn law_source_address(uri: Seq<char>)
    ensures
        text::begins(source_address(uri), "view-source:"@),
        !text::begins(uri, "view-source:"@) ==> source_address(uri).skip(12) == uri,
        text::begins(uri, "view-source:"@) ==> source_address(uri) == uri,
{
    reveal_strlit("view-source:");
    if !text::begins(uri, "view-source:"@) {
        let r = source_address(uri);
        assert(r.subrange(0, 12) =~= "view-source:"@);
        assert(r.skip(12) =~= uri);
    }
}

/// The window is titled by its page, where that has a title, and always by its
/// own name.
pub proof fn law_window_title(title: Option<Seq<char>>)
    ensures
        text::ends(title_of_window(title), "Wynn Browser"@),
        title is Some ==> text::begins(title_of_window(title), title->0),
        title is None || title->0.len() == 0 ==> title_of_window(title) == "Wynn Browser"@,
        title is Some && title->0.len() > 0 ==> title_of_window(title).len() == title->0.len() + 15,
{
    reveal_strlit("Wynn Browser");
    reveal_strlit(" \u{2014} Wynn Browser");
    let r = title_of_window(title);
    assert(r.subrange(r.len() - 12, r.len() as int) =~= "Wynn Browser"@);
    if title is Some {
        let t = title->0;
        assert(r.subrange(0, t.len() as int) =~= t);
    }
}

/// Where an action stands among those that have keys.
spec fn keyed_rank(s: Seq<char>) -> int {
    let m = (s.len() as int, s[4], s[s.len() - 1]);
    if m == (11int, 'n', 'b') {
        0
    } else if m == (13int, 'c', 'b') {
        1
    } else if m == (13int, 'f', 'l') {
        2
    } else if m == (10int, 'r', 'd') {
        3
    } else if m == (11int, 'g', 'k') {
        4
    } else if m == (14int, 'g', 'd') {
        5
    } else if m == (19int, 't', 'k') {
        6
    } else if m == (16int, 's', 'y') {
        7
    } else if m == (18int, 's', 's') {
        8
    } else if m == (17int, 's', 's') {
        9
    } else if m == (18int, 't', 'r') {
        10
    } else if m == (19int, 'c', 'e') {
        11
    } else if m == (21int, 't', 'w') {
        12
    } else if m == (11int, 'g', 'e') {
        13
    } else if m == (11int, 'z', 'n') {
        14
    } else if m == (12int, 'z', 't') {
        15
    } else if m == (14int, 'z', 't') {
        16
    } else if m == (21int, 't', 'n') {
        17
    } else if m == (14int, 'p', 'e') {
        18
    } else if m == (17int, 'o', 's') {
        19
    } else if m == (12int, 'n', 'b') {
        20
    } else if m == (12int, 'p', 'b') {
        21
    } else if m == (12int, 'c', 'l') {
        22
    } else {
        -1
    }
}

/// Which action a key stands with, and where among its keys.
spec fn key_rank(s: Seq<char>) -> (int, int) {
    let m = (s.len() as int, s[s.len() - 1]);
    if m == (7int, 't') {
        (0, 0)
    } else if m == (7int, 'w') {
        (1, 0)
    } else if m == (7int, 'l') {
        (2, 0)
    } else if m == (2int, '5') {
        (3, 0)
    } else if m == (7int, 'r') {
        (3, 1)
    } else if m == (9int, 't') {
        (4, 0)
    } else if m == (10int, 't') {
        (5, 0)
    } else if m == (7int, 'd') {
        (6, 0)
    } else if m == (7int, 'h') {
        (7, 0)
    } else if m == (7int, 'j') {
        (8, 0)
    } else if m == (11int, 'a') {
        (9, 0)
    } else if m == (15int, 'h') {
        (10, 0)
    } else if m == (14int, 'p') {
        (11, 0)
    } else if m == (14int, 'e') {
        (12, 0)
    } else if m == (9int, 'e') {
        (13, 0)
    } else if m == (11int, 'l') {
        (14, 0)
    } else if m == (10int, 's') {
        (14, 1)
    } else if m == (11int, 's') {
        (15, 0)
    } else if m == (7int, '0') {
        (16, 0)
    } else if m == (3int, '1') {
        (17, 0)
    } else if m == (7int, 'p') {
        (18, 0)
    } else if m == (3int, '2') {
        (19, 0)
    } else if m == (9int, 'b') {
        (20, 0)
    } else if m == (16int, 'b') {
        (21, 0)
    } else if m == (14int, 'c') {
        (22, 0)
    } else {
        (-1, -1)
    }
}

/// Where each action that has keys stands in the list of all.
spec fn keyed_places() -> Seq<int> {
    seq![0, 1, 2, 3, 4, 5, 6, 7, 9, 10, 12, 13, 14, 16, 20, 21, 22, 24, 25, 27, 28, 29, 23]
}

proof fn lemma_keyed(i: int, a: int)
    requires
        0 <= i < 23,
        0 <= a < accelerator_table()[i].keys.len(),
    ensures
        keyed_rank(accelerator_table()[i].action) == i,
        key_rank(accelerator_table()[i].keys[a]) == (i, a),
        accelerator_table()[i].action == "win."@ + action_list()[keyed_places()[i]],
        0 <= keyed_places()[i] < 30,
{
    reveal_strlit("win.");
    if i == 0 {
        reveal_strlit("win.new-tab");
        reveal_strlit("new-tab");
        reveal_strlit("<Ctrl>t");
        assert("win.new-tab"@ =~= "win."@ + "new-tab"@);
    } else if i == 1 {
        reveal_strlit("win.close-tab");
        reveal_strlit("close-tab");
        reveal_strlit("<Ctrl>w");
        assert("win.close-tab"@ =~= "win."@ + "close-tab"@);
    } else if i == 2 {
        reveal_strlit("win.focus-url");
        reveal_strlit("focus-url");
        reveal_strlit("<Ctrl>l");
        assert("win.focus-url"@ =~= "win."@ + "focus-url"@);
    } else if i == 3 {
        reveal_strlit("win.reload");
        reveal_strlit("reload");
        reveal_strlit("F5");
        reveal_strlit("<Ctrl>r");
        assert("win.reload"@ =~= "win."@ + "reload"@);
    } else if i == 4 {
        reveal_strlit("win.go-back");
        reveal_strlit("go-back");
        reveal_strlit("<Alt>Left");
        assert("win.go-back"@ =~= "win."@ + "go-back"@);
    } else if i == 5 {
        reveal_strlit("win.go-forward");
        reveal_strlit("go-forward");
        reveal_strlit("<Alt>Right");
        assert("win.go-forward"@ =~= "win."@ + "go-forward"@);
    } else if i == 6 {
        reveal_strlit("win.toggle-bookmark");
        reveal_strlit("toggle-bookmark");
        reveal_strlit("<Ctrl>d");
        assert("win.toggle-bookmark"@ =~= "win."@ + "toggle-bookmark"@);
    } else if i == 7 {
        reveal_strlit("win.show-history");
        reveal_strlit("show-history");
        reveal_strlit("<Ctrl>h");
        assert("win.show-history"@ =~= "win."@ + "show-history"@);
    } else if i == 8 {
        reveal_strlit("win.show-downloads");
        reveal_strlit("show-downloads");
        reveal_strlit("<Ctrl>j");
        assert("win.show-downloads"@ =~= "win."@ + "show-downloads"@);
    } else if i == 9 {
        reveal_strlit("win.show-settings");
        reveal_strlit("show-settings");
        reveal_strlit("<Ctrl>comma");
        assert("win.show-settings"@ =~= "win."@ + "show-settings"@);
    } else if i == 10 {
        reveal_strlit("win.toggle-sidebar");
        reveal_strlit("toggle-sidebar");
        reveal_strlit("<Ctrl>backslash");
        assert("win.toggle-sidebar"@ =~= "win."@ + "toggle-sidebar"@);
    } else if i == 11 {
        reveal_strlit("win.command-palette");
        reveal_strlit("command-palette");
        reveal_strlit("<Ctrl><Shift>p");
        assert("win.command-palette"@ =~= "win."@ + "command-palette"@);
    } else if i == 12 {
        reveal_strlit("win.toggle-split-view");
        reveal_strlit("toggle-split-view");
        reveal_strlit("<Ctrl><Shift>e");
        assert("win.toggle-split-view"@ =~= "win."@ + "toggle-split-view"@);
    } else if i == 13 {
        reveal_strlit("win.go-home");
        reveal_strlit("go-home");
        reveal_strlit("<Alt>Home");
        assert("win.go-home"@ =~= "win."@ + "go-home"@);
    } else if i == 14 {
        reveal_strlit("win.zoom-in");
        reveal_strlit("zoom-in");
        reveal_strlit("<Ctrl>equal");
        reveal_strlit("<Ctrl>plus");
        assert("win.zoom-in"@ =~= "win."@ + "zoom-in"@);
    } else if i == 15 {
        reveal_strlit("win.zoom-out");
        reveal_strlit("zoom-out");
        reveal_strlit("<Ctrl>minus");
        assert("win.zoom-out"@ =~= "win."@ + "zoom-out"@);
    } else if i == 16 {
        reveal_strlit("win.zoom-reset");
        reveal_strlit("zoom-reset");
        reveal_strlit("<Ctrl>0");
        assert("win.zoom-reset"@ =~= "win."@ + "zoom-reset"@);
    } else if i == 17 {
        reveal_strlit("win.toggle-fullscreen");
        reveal_strlit("toggle-fullscreen");
        reveal_strlit("F11");
        assert("win.toggle-fullscreen"@ =~= "win."@ + "toggle-fullscreen"@);
    } else if i == 18 {
        reveal_strlit("win.print-page");
        reveal_strlit("print-page");
        reveal_strlit("<Ctrl>p");
        assert("win.print-page"@ =~= "win."@ + "print-page"@);
    } else if i == 19 {
        reveal_strlit("win.open-devtools");
        reveal_strlit("open-devtools");
        reveal_strlit("F12");
        assert("win.open-devtools"@ =~= "win."@ + "open-devtools"@);
    } else if i == 20 {
        reveal_strlit("win.next-tab");
        reveal_strlit("next-tab");
        reveal_strlit("<Ctrl>Tab");
        assert("win.next-tab"@ =~= "win."@ + "next-tab"@);
    } else if i == 21 {
        reveal_strlit("win.prev-tab");
        reveal_strlit("prev-tab");
        reveal_strlit("<Ctrl><Shift>Tab");
        assert("win.prev-tab"@ =~= "win."@ + "prev-tab"@);
    } else if i == 22 {
        reveal_strlit("win.copy-url");
        reveal_strlit("copy-url");
        reveal_strlit("<Ctrl><Shift>c");
        assert("win.copy-url"@ =~= "win."@ + "copy-url"@);
    }
}

/// Each action that has keys is the window's, and has them once; and no key is
/// given to two actions, or twice to one.
pub proof fn law_keys()
    ensures
        forall|i: int|
            0 <= i < accelerator_table().len() ==> (#[trigger] accelerator_table()[i]).keys.len() > 0
                && exists|k: int|
                0 <= k < action_list().len() && accelerator_table()[i].action == "win."@
                    + #[trigger] action_list()[k],
        forall|i: int, j: int|
            0 <= i < j < accelerator_table().len() ==> (#[trigger] accelerator_table()[i]).action != (
            #[trigger] accelerator_table()[j]).action,
        forall|i: int, a: int, j: int, b: int|
            0 <= i < accelerator_table().len() && 0 <= a < accelerator_table()[i].keys.len() && 0 <= j
                < accelerator_table().len() && 0 <= b < accelerator_table()[j].keys.len() && (
            #[trigger] accelerator_table()[i].keys[a]) == (#[trigger] accelerator_table()[j].keys[b])
                ==> i == j && a == b,
{
    let t = accelerator_table();
    assert forall|i: int| 0 <= i < t.len() implies (#[trigger] t[i]).keys.len() > 0 && exists|k: int|
        0 <= k < action_list().len() && t[i].action == "win."@ + #[trigger] action_list()[k] by {
        lemma_has_key(i);
        lemma_keyed(i, 0);
        let k = keyed_places()[i];
        assert(t[i].action == "win."@ + action_list()[k]);
    }
    assert forall|i: int, j: int| 0 <= i < j < t.len() implies (#[trigger] t[i]).action != (
    #[trigger] t[j]).action by {
        lemma_has_key(i);
        lemma_has_key(j);
        lemma_keyed(i, 0);
        lemma_keyed(j, 0);
    }
    assert forall|i: int, a: int, j: int, b: int|
        0 <= i < t.len() && 0 <= a < t[i].keys.len() && 0 <= j < t.len() && 0 <= b < t[j].keys.len()
            && (#[trigger] t[i].keys[a]) == (#[trigger] t[j].keys[b]) implies i == j && a == b by {
        lemma_keyed(i, a);
        lemma_keyed(j, b);
    }
}

proof fn lemma_has_key(i: int)
    requires
        0 <= i < 23,
    ensures
        accelerator_table()[i].keys.len() > 0,
{
}

/// How a key is shown: what is held down with it, and the key.
pub open spec fn key_label(key: Seq<char>) -> Seq<char>
    decreases key.len(),
{
    if text::begins(key, "<Ctrl>"@) && key.len() > 6 {
        "Ctrl+"@ + key_label(key.skip(6))
    } else if text::begins(key, "<Shift>"@) && key.len() > 7 {
        "Shift+"@ + key_label(key.skip(7))
    } else if text::begins(key, "<Alt>"@) && key.len() > 5 {
        "Alt+"@ + key_label(key.skip(5))
    } else if key == "comma"@ {
        ","@
    } else if key == "backslash"@ {
        "\\"@
    } else if key == "equal"@ {
        "="@
    } else if key == "minus"@ {
        "-"@
    } else if key.len() == 1 && 'a' <= key[0] <= 'z' {
        seq![(key[0] as int - 32) as char]
    } else {
        key
    }
}

} // verus!
