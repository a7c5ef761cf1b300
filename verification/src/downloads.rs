//! Downloads: where they go, and how far they are.

use vstd::prelude::*;

use crate::database;
use crate::records;
use crate::records::Record;
use crate::text;

verus! {

/// A single download.
#[derive(Debug, Clone)]
pub struct DownloadInfo {
    pub filename: String,
    pub destination: String,
    /// The fraction that has arrived, as the bits of a 64-bit floating-point
    /// number.
    pub progress: u64,
    pub finished: bool,
    pub failed: bool,
    pub error_msg: String,
}

/// What a download holds.
#[verifier::ext_equal]
pub struct Download {
    pub filename: Seq<char>,
    pub destination: Seq<char>,
    pub progress: u64,
    pub finished: bool,
    pub failed: bool,
    pub error_msg: Seq<char>,
}

impl View for DownloadInfo {
    type V = Download;

    open spec fn view(&self) -> Download {
        Download {
            filename: self.filename@,
            destination: self.destination@,
            progress: self.progress,
            finished: self.finished,
            failed: self.failed,
            error_msg: self.error_msg@,
        }
    }
}

impl Record for DownloadInfo {
    fn copied(&self) -> (r: Self) {
        DownloadInfo {
            filename: self.filename.clone(),
            destination: self.destination.clone(),
            progress: self.progress,
            finished: self.finished,
            failed: self.failed,
            error_msg: self.error_msg.clone(),
        }
    }
}

/// The bits of zero.
pub const NOTHING_ARRIVED: u64 = 0;

/// The bits of one.
pub const ALL_ARRIVED: u64 = 0x3FF0_0000_0000_0000;

/// The downloads of this session, the first one first.
pub struct DownloadList {
    rows: Vec<DownloadInfo>,
}

impl View for DownloadList {
    type V = Seq<Download>;

    closed spec fn view(&self) -> Seq<Download> {
        records::contents(self.rows@)
    }
}

/// Create a new download list.
pub fn new_download_list() -> (r: DownloadList)
    ensures
        r@ == Seq::<Download>::empty(),
{
    let r = DownloadList { rows: Vec::new() };
    assert(r@ =~= Seq::<Download>::empty());
    r
}

/// The default download directory, given the values of `XDG_DOWNLOAD_DIR` and
/// `HOME` where they are set.
pub fn download_directory(xdg_download_dir: Option<String>, home: Option<String>) -> (r: String)
    ensures
        r@ == match xdg_download_dir {
            Some(dir) => dir@,
            None => database::path_join(database::text_or(home, "/tmp"@), "Downloads"@),
        },
{
    match xdg_download_dir {
        Some(dir) => dir,
        None => {
            let base = database::dirs_fallback(home);
            database::join_path(base.as_str(), "Downloads")
        },
    }
}

/// The address of the file that a download is written to.
pub open spec fn destination_of(dir: Seq<char>, filename: Seq<char>) -> Seq<char> {
    "file://"@ + database::path_join(dir, filename)
}

/// The first download with a destination.
pub open spec fn bound_for(list: Seq<Download>, destination: Seq<char>) -> Option<int>
    decreases list.len(),
{
    if list.len() == 0 {
        None
    } else {
        match bound_for(list.drop_last(), destination) {
            Some(i) => Some(i),
            None => if list.last().destination == destination {
                Some(list.len() - 1)
            } else {
                None
            },
        }
    }
}

/// The list with the first download for a destination changed, if there is one.
pub open spec fn with_change(
    list: Seq<Download>,
    destination: Seq<char>,
    change: spec_fn(Download) -> Download,
) -> Seq<Download> {
    match bound_for(list, destination) {
        Some(i) => list.update(i, change(list[i])),
        None => list,
    }
}

/// More has arrived.
pub open spec fn advanced(progress: u64) -> spec_fn(Download) -> Download {
    |d: Download| Download { progress, ..d }
}

/// All has arrived.
pub open spec fn completed() -> spec_fn(Download) -> Download {
    |d: Download| Download { progress: ALL_ARRIVED, finished: true, ..d }
}

/// No more will arrive.
pub open spec fn broken_off(error_msg: Seq<char>) -> spec_fn(Download) -> Download {
    |d: Download| Download { failed: true, error_msg, ..d }
}

proof fn lemma_bound_for_grows(list: Seq<Download>, destination: Seq<char>, n: int)
    requires
        0 <= n <= list.len(),
        bound_for(list.take(n), destination) is Some,
    ensures
        bound_for(list, destination) == bound_for(list.take(n), destination),
    decreases list.len() - n,
{
    if n < list.len() {
        assert(list.take(n + 1).drop_last() =~= list.take(n));
        lemma_bound_for_grows(list, destination, n + 1);
    } else {
        assert(list.take(n) =~= list);
    }
}

impl DownloadList {
    /// The downloads, the first one first.
    pub fn entries(&self) -> (r: &Vec<DownloadInfo>)
        ensures
            records::contents(r@) == self@,
    {
        &self.rows
    }

    fn find(&self, destination: &str) -> (r: Option<usize>)
        ensures
            match r {
                Some(i) => i < self.rows@.len() && bound_for(self@, destination@) == Some(i as int),
                None => bound_for(self@, destination@) is None,
            },
    {
        let ghost all = self@;
        let mut i: usize = 0;
        while i < self.rows.len()
            invariant
                all == records::contents(self.rows@),
                all == self@,
                i <= self.rows@.len(),
                bound_for(all.take(i as int), destination@) is None,
            decreases self.rows@.len() - i,
        {
            assert(all.take(i + 1).drop_last() =~= all.take(i as int));
            assert(all[i as int] == self.rows@[i as int]@);
            if text::same(self.rows[i].destination.as_str(), destination) {
                assert(bound_for(all.take(i + 1), destination@) == Some(i as int));
                proof {
                    lemma_bound_for_grows(all, destination@, i + 1);
                }
                return Some(i);
            }
            i += 1;
        }
        assert(all.take(i as int) =~= all);
        None
    }

    fn replace(&mut self, i: usize, row: DownloadInfo)
        requires
            i < old(self)@.len(),
        ensures
            final(self)@ == old(self)@.update(i as int, row@),
    {
        let ghost start = self@;
        let ghost model = row@;
        self.rows.set(i, row);
        assert(self@ =~= start.update(i as int, model));
    }

    /// Decides where a download goes: into the directory, under the suggested
    /// name. Returns the address of the file.
    pub fn start(&mut self, dir: &str, suggested_filename: &str) -> (destination: String)
        ensures
            destination@ == destination_of(dir@, suggested_filename@),
            final(self)@ == old(self)@.push(
                Download {
                    filename: suggested_filename@,
                    destination: destination_of(dir@, suggested_filename@),
                    progress: NOTHING_ARRIVED,
                    finished: false,
                    failed: false,
                    error_msg: ""@,
                },
            ),
    {
        let path = database::join_path(dir, suggested_filename);
        let destination = text::joined("file://", path.as_str());
        let row = DownloadInfo {
            filename: suggested_filename.to_owned(),
            destination: destination.clone(),
            progress: NOTHING_ARRIVED,
            finished: false,
            failed: false,
            error_msg: "".to_owned(),
        };
        let ghost start = self@;
        let ghost model = row@;
        self.rows.push(row);
        assert(self@ =~= start.push(model));
        destination
    }

    /// Notes how much of a download has arrived.
    pub fn set_progress(&mut self, destination: &str, progress: u64)
        ensures
            final(self)@ == with_change(old(self)@, destination@, advanced(progress)),
    {
        if let Some(i) = self.find(destination) {
            let mut row = self.rows[i].copied();
            row.progress = progress;
            self.replace(i, row);
        }
    }

    /// Notes that a download is complete.
    pub fn finish(&mut self, destination: &str)
        ensures
            final(self)@ == with_change(old(self)@, destination@, completed()),
    {
        if let Some(i) = self.find(destination) {
            let mut row = self.rows[i].copied();
            row.progress = ALL_ARRIVED;
            row.finished = true;
            self.replace(i, row);
        }
    }

    /// Notes that a download has failed.
    pub fn fail(&mut self, destination: &str, error_msg: &str)
        ensures
            final(self)@ == with_change(old(self)@, destination@, broken_off(error_msg@)),
    {
        if let Some(i) = self.find(destination) {
            let mut row = self.rows[i].copied();
            row.failed = true;
            row.error_msg = error_msg.to_owned();
            self.replace(i, row);
        }
    }
}

/// What a download's row says.
pub enum DownloadStatus {
    /// A text.
    Text(String),
    /// How much has arrived, in percent, and a bar for it.
    Percentage,
}

/// The status and the icon of a download.
pub struct DownloadRow {
    pub status: DownloadStatus,
    pub icon: &'static str,
}

/// How a download is shown.
pub fn show_download(info: &DownloadInfo) -> (r: DownloadRow)
    ensures
        match r.status {
            DownloadStatus::Text(t) => t@ == (if info@.failed {
                "Failed: "@ + info@.error_msg
            } else {
                "Completed"@
            }) && (info@.failed || info@.finished),
            DownloadStatus::Percentage => !info@.failed && !info@.finished,
        },
        r.icon@ == if info@.failed {
            "dialog-error-symbolic"@
        } else if info@.finished {
            "emblem-ok-symbolic"@
        } else {
            "content-loading-symbolic"@
        },
{
    if info.failed {
        DownloadRow {
            status: DownloadStatus::Text(text::joined("Failed: ", info.error_msg.as_str())),
            icon: "dialog-error-symbolic",
        }
    } else if info.finished {
        DownloadRow {
            status: DownloadStatus::Text("Completed".to_owned()),
            icon: "emblem-ok-symbolic",
        }
    } else {
        DownloadRow { status: DownloadStatus::Percentage, icon: "content-loading-symbolic" }
    }
}

/// The downloads as the dialog lists them, the last one first.
pub fn list_for_dialog(list: &DownloadList) -> (r: Vec<DownloadInfo>)
    ensures
        records::contents(r@) == list@.reverse(),
{
    let mut r: Vec<DownloadInfo> = Vec::new();
    let ghost wanted = list@.reverse();
    let mut i: usize = list.rows.len();
    let n: usize = list.rows.len();
    while i > 0
        invariant
            wanted == list@.reverse(),
            list@ == records::contents(list.rows@),
            n == list.rows@.len(),
            i <= n,
            records::contents(r@) == wanted.take(n - i),
        decreases i,
    {
        i -= 1;
        let ghost before = r@;
        r.push(list.rows[i].copied());
        assert(wanted[n - i - 1] == list@[i as int]);
        assert(records::contents(r@) =~= records::contents(before).push(wanted[n - i - 1]));
        assert(records::contents(r@) =~= wanted.take(n - i));
    }
    assert(wanted.take(n as int) =~= wanted);
    r
}

// Laws.

/// An event of one download leaves the others, and what every download is
/// called and where it goes, as they were.
pub proof fn law_events_touch_one_download(
    list: Seq<Download>,
    destination: Seq<char>,
    progress: u64,
    error_msg: Seq<char>,
    i: int,
)
    requires
        0 <= i < list.len(),
        bound_for(list, destination) != Some(i),
    ensures
        with_change(list, destination, advanced(progress))[i] == list[i],
        with_change(list, destination, completed())[i] == list[i],
        with_change(list, destination, broken_off(error_msg))[i] == list[i],
        with_change(list, destination, completed()).len() == list.len(),
{
    lemma_bound_for_in_range(list, destination);
}

proof fn lemma_bound_for_in_range(list: Seq<Download>, destination: Seq<char>)
    ensures
        bound_for(list, destination) is Some ==> 0 <= bound_for(list, destination)->0 < list.len()
            && list[bound_for(list, destination)->0].destination == destination,
    decreases list.len(),
{
    if list.len() > 0 {
        lemma_bound_for_in_range(list.drop_last(), destination);
    }
}

/// A download that was started can be finished: it then is, whole, whatever
/// was noted of its progress.
pub proof fn law_started_can_finish(
    list: Seq<Download>,
    dir: Seq<char>,
    filename: Seq<char>,
    d: Download,
)
    requires
        d.destination == destination_of(dir, filename),
    ensures
        bound_for(list.push(d), destination_of(dir, filename)) is Some,
        ({
            let i = bound_for(list.push(d), destination_of(dir, filename))->0;
            let done = with_change(list.push(d), destination_of(dir, filename), completed());
            &&& 0 <= i < done.len()
            &&& done[i].finished
            &&& done[i].progress == ALL_ARRIVED
        }),
{
    let all = list.push(d);
    assert(all.drop_last() =~= list);
    lemma_bound_for_in_range(all, destination_of(dir, filename));
}

/// An event is for the first download with its destination, if there is one.
pub proof fn law_event_finds_the_first(list: Seq<Download>, destination: Seq<char>)
    ensures
        match bound_for(list, destination) {
            Some(i) => 0 <= i < list.len() && list[i].destination == destination && forall|j: int|
                0 <= j < i ==> (#[trigger] list[j]).destination != destination,
            None => forall|j: int|
                0 <= j < list.len() ==> (#[trigger] list[j]).destination != destination,
        },
    decreases list.len(),
{
    if list.len() > 0 {
        let shorter = list.drop_last();
        law_event_finds_the_first(shorter, destination);
        assert forall|j: int| 0 <= j < shorter.len() implies list[j] == #[trigger] shorter[j] by {
        }
        match bound_for(shorter, destination) {
            Some(i) => {
                assert forall|j: int| 0 <= j < i implies (#[trigger] list[j]).destination
                    != destination by {
                    assert(list[j] == shorter[j]);
                }
            },
            None => {
                assert forall|j: int| 0 <= j < shorter.len() implies (#[trigger] list[j]).destination
                    != destination by {
                    assert(list[j] == shorter[j]);
                }
            },
        }
    }
}

/// What an event does to the download that it is for: it notes how much has
/// arrived, that all has, or that it failed and why, and nothing else. Without
/// such a download nothing changes.
pub proof fn law_events_are_noted(
    list: Seq<Download>,
    destination: Seq<char>,
    progress: u64,
    error_msg: Seq<char>,
    i: int,
)
    requires
        0 <= i < list.len(),
        list[i].destination == destination,
        forall|j: int| 0 <= j < i ==> (#[trigger] list[j]).destination != destination,
    ensures
        ({
            let more = with_change(list, destination, advanced(progress));
            let done = with_change(list, destination, completed());
            let broken = with_change(list, destination, broken_off(error_msg));
            let d = list[i];
            &&& more.len() == list.len() && done.len() == list.len() && broken.len() == list.len()
            &&& more[i].progress == progress
            &&& more[i].finished == d.finished && more[i].failed == d.failed
            &&& more[i].error_msg == d.error_msg
            &&& done[i].progress == 0x3FF0_0000_0000_0000
            &&& done[i].finished && done[i].failed == d.failed
            &&& done[i].error_msg == d.error_msg
            &&& broken[i].failed && broken[i].error_msg == error_msg
            &&& broken[i].progress == d.progress && broken[i].finished == d.finished
            &&& more[i].filename == d.filename && more[i].destination == d.destination
            &&& done[i].filename == d.filename && done[i].destination == d.destination
            &&& broken[i].filename == d.filename && broken[i].destination == d.destination
            &&& forall|k: int|
                0 <= k < list.len() && k != i ==> #[trigger] more[k] == list[k] && done[k] == list[k]
                    && broken[k] == list[k]
        }),
{
    law_event_finds_the_first(list, destination);
    assert(bound_for(list, destination) == Some(i));
}

/// An event for no download on the list changes nothing.
pub proof fn law_stray_events(
    list: Seq<Download>,
    destination: Seq<char>,
    change: spec_fn(Download) -> Download,
)
    requires
        forall|j: int| 0 <= j < list.len() ==> (#[trigger] list[j]).destination != destination,
    ensures
        with_change(list, destination, change) == list,
{
    law_event_finds_the_first(list, destination);
}

/// A download is written to the suggested name in the directory.
pub proof fn law_destination(dir: Seq<char>, filename: Seq<char>)
    requires
        dir.len() > 0,
        filename.len() > 0,
        filename[0] != '/',
    ensures
        text::begins(destination_of(dir, filename), "file://"@ + dir),
        text::ends(destination_of(dir, filename), "/"@ + filename),
        destination_of(dir, filename).len() <= 7 + dir.len() + 1 + filename.len(),
{
    reveal_strlit("file://");
    reveal_strlit("/");
    let r = destination_of(dir, filename);
    let head = "file://"@ + dir;
    let tail = "/"@ + filename;
    assert(r.subrange(0, head.len() as int) =~= head);
    if dir.last() == '/' {
        assert(r =~= head + filename);
    } else {
        assert(r =~= head + tail);
    }
    assert(r.subrange(r.len() - tail.len(), r.len() as int) =~= tail);
}

} // verus!
