//! What the user is told: short notices in a corner of the window, and the log.
use vstd::prelude::*;
use crate::lists;
use crate::text;
use crate::text::{chars_of, decimal_of, str_eq, str_starts_with, string_of, sub_chars, trim_chars};

verus! {

broadcast use vstd::string::group_string_axioms;

// ---------------------------------------------------------------------------
// Notices
// ---------------------------------------------------------------------------

/// How many notices are shown at once.
pub const TOAST_LIMIT: usize = 4;

/// How long a notice is shown, in milliseconds.
pub const TOAST_MS: u64 = 4000;

/// A notice that is shown.
pub struct Toast {
    pub id: i32,
    pub title: String,
    pub description: String,
    /// Whether it tells of a failure.
    pub destructive: bool,
    /// When it goes, in milliseconds.
    pub deadline: u64,
}

/// A notice that is shown, by the texts it holds.
#[verifier::ext_equal]
pub struct ToastText {
    pub id: i32,
    pub title: Seq<char>,
    pub description: Seq<char>,
    pub destructive: bool,
    pub deadline: u64,
}

impl View for Toast {
    type V = ToastText;

    open spec fn view(&self) -> ToastText {
        ToastText {
            id: self.id,
            title: self.title@,
            description: self.description@,
            destructive: self.destructive,
            deadline: self.deadline,
        }
    }
}

/// The notices of a list.
pub open spec fn toast_texts(v: Seq<Toast>) -> Seq<ToastText> {
    Seq::new(v.len(), |i: int| v[i]@)
}

/// The notices that are shown, the oldest first, and the number of the last one.
pub struct Toasts {
    pub items: Vec<Toast>,
    pub counter: i32,
}

/// The last items of a list, at most `n`.
pub open spec fn last_of<T>(s: Seq<T>, n: int) -> Seq<T> {
    if s.len() > n {
        s.subrange(s.len() - n, s.len() as int)
    } else {
        s
    }
}

/// The notices that have not gone yet.
pub open spec fn alive(v: Seq<ToastText>, now: u64) -> Seq<ToastText>
    decreases v.len(),
{
    if v.len() == 0 {
        Seq::empty()
    } else if now >= v.last().deadline {
        alive(v.drop_last(), now)
    } else {
        alive(v.drop_last(), now).push(v.last())
    }
}

/// The place of the notice with a number.
pub open spec fn toast_place(v: Seq<ToastText>, id: i32) -> Option<int>
    decreases v.len(),
{
    if v.len() == 0 {
        None
    } else {
        match toast_place(v.drop_last(), id) {
            Some(i) => Some(i),
            None => if v.last().id == id {
                Some(v.len() - 1)
            } else {
                None
            },
        }
    }
}

impl Toasts {
    /// At most four notices are shown, their numbers rise, and none is above the last
    /// number.
    pub open spec fn wf(self) -> bool {
        &&& self.items@.len() <= TOAST_LIMIT
        &&& forall|i: int, j: int|
            0 <= i < j < self.items@.len() ==> (#[trigger] self.items@[i]).id < (#[trigger] self.items@[j]).id
        &&& forall|i: int| 0 <= i < self.items@.len() ==> (#[trigger] self.items@[i]).id <= self.counter
    }

    /// No notices.
    pub fn new() -> (t: Toasts)
        ensures
            t.wf(),
            t.items@.len() == 0,
            t.counter == 0,
    {
        Toasts { items: Vec::new(), counter: 0 }
    }

    /// Shows a notice; where there are too many, the oldest goes.
    pub fn push_toast(&mut self, title: &str, description: &str, destructive: bool, now: u64)
        requires
            old(self).wf(),
            old(self).counter < i32::MAX,
            now <= u64::MAX - TOAST_MS,
        ensures
            final(self).wf(),
            final(self).counter == old(self).counter + 1,
            toast_texts(final(self).items@) == last_of(
                toast_texts(old(self).items@).push(
                    ToastText {
                        id: (old(self).counter + 1) as i32,
                        title: title@,
                        description: description@,
                        destructive,
                        deadline: (now + TOAST_MS) as u64,
                    },
                ),
                TOAST_LIMIT as int,
            ),
    {
        let ghost before = toast_texts(self.items@);
        let id: i32 = self.counter + 1;
        self.counter = id;
        let t = Toast {
            id,
            title: title.to_owned(),
            description: description.to_owned(),
            destructive,
            deadline: now + TOAST_MS,
        };
        let ghost tt = t@;
        self.items.push(t);
        assert(toast_texts(self.items@) =~= before.push(tt));
        if self.items.len() > TOAST_LIMIT {
            let ghost all = self.items@;
            self.items.remove(0);
            assert(self.items@ =~= all.subrange(1, all.len() as int));
            assert(toast_texts(self.items@) =~= last_of(before.push(tt), TOAST_LIMIT as int));
        }
    }

    /// Takes a notice away that the user closed.
    pub fn dismiss(&mut self, id: i32)
        requires
            old(self).wf(),
        ensures
            final(self).wf(),
            final(self).counter == old(self).counter,
            toast_texts(final(self).items@) == (match toast_place(toast_texts(old(self).items@), id) {
                Some(i) => toast_texts(old(self).items@).remove(i),
                None => toast_texts(old(self).items@),
            }),
    {
        let ghost ts = toast_texts(self.items@);
        let mut i: usize = 0;
        assert(ts.subrange(0, 0) =~= Seq::empty());
        while i < self.items.len()
            invariant
                i <= self.items@.len(),
                *self == *old(self),
                self.wf(),
                ts == toast_texts(self.items@),
                toast_place(ts.subrange(0, i as int), id) is None,
            decreases self.items.len() - i,
        {
            assert(ts.subrange(0, i + 1).drop_last() =~= ts.subrange(0, i as int));
            assert(ts.subrange(0, i + 1).last() == self.items@[i as int]@);
            if self.items[i].id == id {
                proof {
                    lemma_place_stays(ts, id, i as int, ts.len() as int);
                    assert(ts.subrange(0, ts.len() as int) =~= ts);
                }
                self.items.remove(i);
                assert(toast_texts(self.items@) =~= ts.remove(i as int));
                return;
            }
            i = i + 1;
        }
        assert(ts.subrange(0, i as int) =~= ts);
    }

    /// Takes the notices away whose time is over.
    pub fn expire(&mut self, now: u64)
        requires
            old(self).wf(),
        ensures
            final(self).wf(),
            final(self).counter == old(self).counter,
            toast_texts(final(self).items@) == alive(toast_texts(old(self).items@), now),
    {
        let ghost ts = toast_texts(self.items@);
        let mut i: usize = 0;
        assert(alive(ts.subrange(0, 0), now) + ts.subrange(0, ts.len() as int) =~= ts);
        let ghost mut seen: int = 0;
        while i < self.items.len()
            invariant
                i <= self.items@.len(),
                self.wf(),
                self.counter == old(self).counter,
                0 <= seen <= ts.len(),
                ts.len() - seen == self.items@.len() - i,
                i == alive(ts.subrange(0, seen), now).len(),
                toast_texts(self.items@) == alive(ts.subrange(0, seen), now) + ts.subrange(seen, ts.len() as int),
            decreases self.items.len() - i,
        {
            let ghost head = alive(ts.subrange(0, seen), now);
            assert(ts.subrange(0, seen + 1).drop_last() =~= ts.subrange(0, seen));
            assert(ts.subrange(0, seen + 1).last() == ts[seen]);
            assert(toast_texts(self.items@)[i as int] == ts[seen]);
            if now >= self.items[i].deadline {
                let ghost was = self.items@;
                self.items.remove(i);
                assert(self.items@ == was.remove(i as int));
                assert(toast_texts(self.items@) =~= toast_texts(was).remove(i as int));
                assert(toast_texts(was).remove(i as int) =~= head + ts.subrange(seen + 1, ts.len() as int));
            } else {
                assert(head + ts.subrange(seen, ts.len() as int) =~= head.push(ts[seen]) + ts.subrange(
                    seen + 1,
                    ts.len() as int,
                ));
                i = i + 1;
            }
            proof {
                seen = seen + 1;
            }
        }
        assert(ts.subrange(0, seen) =~= ts);
        assert(alive(ts, now) + ts.subrange(seen, ts.len() as int) =~= alive(ts, now));
    }
}

proof fn lemma_place_stays(ts: Seq<ToastText>, id: i32, i: int, n: int)
    requires
        0 <= i < n <= ts.len(),
        toast_place(ts.subrange(0, i), id) is None,
        ts[i].id == id,
    ensures
        toast_place(ts.subrange(0, n), id) == Some(i),
    decreases n,
{
    assert(ts.subrange(0, n).drop_last() =~= ts.subrange(0, n - 1));
    assert(ts.subrange(0, n).last() == ts[n - 1]);
    if n - 1 > i {
        lemma_place_stays(ts, id, i, n - 1);
    }
}

/// What there is to tell.
pub enum UiEvent {
    NoUserFolder,
    Imported,
    ImportFailed,
    MovieImported,
    /// A movie could not be imported, for a reason.
    MovieFailed(String),
    RefreshBusy,
    /// The library changed, and holds so many wallpapers.
    LibraryUpdated(u64),
    /// The library did not change, and holds so many wallpapers.
    LibraryUpToDate(u64),
    DeleteFailed,
    Deleted,
    /// So many monitors were found.
    MonitorsRefreshed(u64),
    UpdatesAvailable,
    LibraryDownloading,
    LibraryReady,
    LibraryFailed,
    OverlayChanged,
    LogsCopied,
    CopyFailed,
    ParallaxCreated,
    ParallaxFailed,
    ModelsReady,
    ModelsFailed,
    ShaderFailed,
}

/// The title of a notice, its text, and whether it tells of a failure.
pub open spec fn notice_of(e: UiEvent) -> (Seq<char>, Seq<char>, bool) {
    match e {
        UiEvent::NoUserFolder => ("Import Failed"@, "Could not resolve the user data directory."@, true),
        UiEvent::Imported => ("Wallpaper Imported"@, "Added to your library."@, false),
        UiEvent::ImportFailed => ("Import Failed"@, "Shader couldn't be imported - see logs for details."@, true),
        UiEvent::MovieImported => (
            "Wallpaper Imported"@,
            "Your movie wallpaper was added to the library."@,
            false,
        ),
        UiEvent::MovieFailed(reason) => ("Import Failed"@, reason@, true),
        UiEvent::RefreshBusy => (
            "Refresh In Progress"@,
            "Thumbnails are still generating - please wait."@,
            false,
        ),
        UiEvent::LibraryUpdated(n) => (
            "Library Updated"@,
            "Shader manifests synchronized - "@ + text::decimal(n as nat) + " found."@,
            false,
        ),
        UiEvent::LibraryUpToDate(n) => (
            "Library Up To Date"@,
            text::decimal(n as nat) + " shaders - no changes found."@,
            false,
        ),
        UiEvent::DeleteFailed => ("Delete Failed"@, "Could not remove the wallpaper folder."@, true),
        UiEvent::Deleted => ("Wallpaper Deleted"@, "The wallpaper was removed."@, false),
        UiEvent::MonitorsRefreshed(n) => (
            "Monitors Refreshed"@,
            "Detected "@ + text::decimal(n as nat) + " display(s)."@,
            false,
        ),
        UiEvent::UpdatesAvailable => (
            "Updates Available"@,
            "Open Settings \u{2192} Updates to get the latest."@,
            false,
        ),
        UiEvent::LibraryDownloading => (
            "Downloading Library"@,
            "Fetching the wallpaper library - this happens only once."@,
            false,
        ),
        UiEvent::LibraryReady => ("Library Ready"@, "Your wallpaper library has been downloaded."@, false),
        UiEvent::LibraryFailed => (
            "Library Download Failed"@,
            "Couldn't fetch the library - check your connection, then retry in Settings \u{2192} Updates."@,
            true,
        ),
        UiEvent::OverlayChanged => (
            "Restart Required"@,
            "Restart your PC for the Multi-Plane Overlay change to take effect."@,
            false,
        ),
        UiEvent::LogsCopied => ("Logs Copied"@, "Diagnostics data has been copied to clipboard."@, false),
        UiEvent::CopyFailed => ("Copy Failed"@, "Could not access the clipboard."@, true),
        UiEvent::ParallaxCreated => (
            "Parallax Created"@,
            "Your 3D wallpaper was added to the Library."@,
            false,
        ),
        UiEvent::ParallaxFailed => ("Parallax Failed"@, "Could not create the wallpaper."@, true),
        UiEvent::ModelsReady => (
            "Models Ready"@,
            "All required models downloaded - ready to generate."@,
            false,
        ),
        UiEvent::ModelsFailed => ("Download Failed"@, "Could not download the models."@, true),
        UiEvent::ShaderFailed => (
            "Failed to Apply Shader"@,
            "A shader could not be loaded - see the Diagnostics log for details."@,
            true,
        ),
    }
}

/// The title of a notice, its text, and whether it tells of a failure.
pub fn notice_for(e: &UiEvent) -> (r: (String, String, bool))
    ensures
        (r.0@, r.1@, r.2) == notice_of(*e),
{
    match e {
        UiEvent::NoUserFolder => told("Import Failed", "Could not resolve the user data directory.", true),
        UiEvent::Imported => told("Wallpaper Imported", "Added to your library.", false),
        UiEvent::ImportFailed => told(
            "Import Failed",
            "Shader couldn't be imported - see logs for details.",
            true,
        ),
        UiEvent::MovieImported => told(
            "Wallpaper Imported",
            "Your movie wallpaper was added to the library.",
            false,
        ),
        UiEvent::MovieFailed(reason) => told("Import Failed", reason.as_str(), true),
        UiEvent::RefreshBusy => told(
            "Refresh In Progress",
            "Thumbnails are still generating - please wait.",
            false,
        ),
        UiEvent::LibraryUpdated(n) => {
            let mut s = "Shader manifests synchronized - ".to_owned();
            s.append(decimal_of(*n).as_str());
            s.append(" found.");
            told("Library Updated", s.as_str(), false)
        },
        UiEvent::LibraryUpToDate(n) => {
            let mut s = decimal_of(*n);
            s.append(" shaders - no changes found.");
            told("Library Up To Date", s.as_str(), false)
        },
        UiEvent::DeleteFailed => told("Delete Failed", "Could not remove the wallpaper folder.", true),
        UiEvent::Deleted => told("Wallpaper Deleted", "The wallpaper was removed.", false),
        UiEvent::MonitorsRefreshed(n) => {
            let mut s = "Detected ".to_owned();
            s.append(decimal_of(*n).as_str());
            s.append(" display(s).");
            told("Monitors Refreshed", s.as_str(), false)
        },
        UiEvent::UpdatesAvailable => told(
            "Updates Available",
            "Open Settings \u{2192} Updates to get the latest.",
            false,
        ),
        UiEvent::LibraryDownloading => told(
            "Downloading Library",
            "Fetching the wallpaper library - this happens only once.",
            false,
        ),
        UiEvent::LibraryReady => told("Library Ready", "Your wallpaper library has been downloaded.", false),
        UiEvent::LibraryFailed => told(
            "Library Download Failed",
            "Couldn't fetch the library - check your connection, then retry in Settings \u{2192} Updates.",
            true,
        ),
        UiEvent::OverlayChanged => told(
            "Restart Required",
            "Restart your PC for the Multi-Plane Overlay change to take effect.",
            false,
        ),
        UiEvent::LogsCopied => told("Logs Copied", "Diagnostics data has been copied to clipboard.", false),
        UiEvent::CopyFailed => told("Copy Failed", "Could not access the clipboard.", true),
        UiEvent::ParallaxCreated => told(
            "Parallax Created",
            "Your 3D wallpaper was added to the Library.",
            false,
        ),
        UiEvent::ParallaxFailed => told("Parallax Failed", "Could not create the wallpaper.", true),
        UiEvent::ModelsReady => told(
            "Models Ready",
            "All required models downloaded - ready to generate.",
            false,
        ),
        UiEvent::ModelsFailed => told("Download Failed", "Could not download the models.", true),
        UiEvent::ShaderFailed => told(
            "Failed to Apply Shader",
            "A shader could not be loaded - see the Diagnostics log for details.",
            true,
        ),
    }
}

fn told(title: &str, description: &str, destructive: bool) -> (r: (String, String, bool))
    ensures
        r.0@ == title@,
        r.1@ == description@,
        r.2 == destructive,
{
    (title.to_owned(), description.to_owned(), destructive)
}

/// What came of work in the background.
#[derive(Clone, Copy, PartialEq, Eq, Structural)]
pub enum WorkStatus {
    Idle,
    Done,
    Failed,
}

/// What is still to be told of work in the background.
#[derive(Clone, Copy, PartialEq, Eq, Structural)]
pub struct Pending {
    /// Whether updates were found.
    pub updates: bool,
    /// What came of the first download of the library.
    pub library: WorkStatus,
    /// What came of a change of the overlay setting.
    pub overlay: WorkStatus,
}

/// What is told of work in the background.
pub struct PendingNotices {
    pub events: Vec<UiEvent>,
    /// Whether the overlay setting is read again.
    pub read_overlay: bool,
}

/// What is told of work in the background. Updates and the library wait until the window
/// can be seen.
pub open spec fn events_of(p: Pending, visible: bool) -> Seq<UiEvent> {
    (if visible && p.updates {
        seq![UiEvent::UpdatesAvailable]
    } else {
        Seq::empty()
    }) + (if visible && p.library == WorkStatus::Done {
        seq![UiEvent::LibraryReady]
    } else if visible && p.library == WorkStatus::Failed {
        seq![UiEvent::LibraryFailed]
    } else {
        Seq::empty()
    }) + (if p.overlay == WorkStatus::Done {
        seq![UiEvent::OverlayChanged]
    } else {
        Seq::empty()
    })
}

/// Takes what is to be told of work in the background; each thing is told once.
pub fn take_pending(p: &mut Pending, visible: bool) -> (r: PendingNotices)
    ensures
        r.events@ == events_of(*old(p), visible),
        r.read_overlay == (old(p).overlay != WorkStatus::Idle),
        *final(p) == (Pending {
            updates: old(p).updates && !visible,
            library: if visible {
                WorkStatus::Idle
            } else {
                old(p).library
            },
            overlay: WorkStatus::Idle,
        }),
{
    let mut events: Vec<UiEvent> = Vec::new();
    if visible && p.updates {
        p.updates = false;
        events.push(UiEvent::UpdatesAvailable);
    }
    if visible {
        if p.library == WorkStatus::Done {
            events.push(UiEvent::LibraryReady);
        } else if p.library == WorkStatus::Failed {
            events.push(UiEvent::LibraryFailed);
        }
        p.library = WorkStatus::Idle;
    }
    let read_overlay = p.overlay != WorkStatus::Idle;
    if p.overlay == WorkStatus::Done {
        events.push(UiEvent::OverlayChanged);
    }
    p.overlay = WorkStatus::Idle;
    assert(events@ =~= events_of(*old(p), visible));
    PendingNotices { events, read_overlay }
}

/// Each thing is told once: taken a second time, nothing is left to tell.
pub proof fn law_work_is_told_once(p: Pending, visible: bool)
    ensures
        ({
            let rest = Pending {
                updates: p.updates && !visible,
                library: if visible {
                    WorkStatus::Idle
                } else {
                    p.library
                },
                overlay: WorkStatus::Idle,
            };
            events_of(rest, visible) == Seq::<UiEvent>::empty()
        }),
{
    let rest = Pending {
        updates: p.updates && !visible,
        library: if visible {
            WorkStatus::Idle
        } else {
            p.library
        },
        overlay: WorkStatus::Idle,
    };
    assert(events_of(rest, visible) =~= Seq::<UiEvent>::empty());
}

// ---------------------------------------------------------------------------
// The log
// ---------------------------------------------------------------------------

/// How many lines of the log are shown.
pub const LOG_LIMIT: usize = 200;

/// A line of the log.
pub struct LogEntry {
    pub time: String,
    pub level: String,
    pub message: String,
}

/// A line of the log, by the texts it holds.
#[verifier::ext_equal]
pub struct LogText {
    pub time: Seq<char>,
    pub level: Seq<char>,
    pub message: Seq<char>,
}

impl View for LogEntry {
    type V = LogText;

    open spec fn view(&self) -> LogText {
        LogText { time: self.time@, level: self.level@, message: self.message@ }
    }
}

/// The lines of a log.
pub open spec fn log_texts(v: Seq<LogEntry>) -> Seq<LogText> {
    Seq::new(v.len(), |i: int| v[i]@)
}

/// The level and the message of a line such as `[ERROR] message`; a line without a level
/// is information.
pub open spec fn line_parts(line: Seq<char>) -> (Seq<char>, Seq<char>) {
    if line.len() > 0 && line[0] == '[' {
        match lists::first_where(line, |c: char| c == ']') {
            Some(end) => (
                text::trim(line.subrange(1, end)),
                text::trim(line.subrange(end + 1, line.len() as int)),
            ),
            None => ("INFO"@, line),
        }
    } else {
        ("INFO"@, line)
    }
}

fn find_bracket(c: &Vec<char>) -> (r: Option<usize>)
    ensures
        match r {
            Some(i) => lists::first_where(c@, |x: char| x == ']') == Some(i as int) && i < c@.len(),
            None => lists::first_where(c@, |x: char| x == ']') is None,
        },
{
    let ghost p = |x: char| x == ']';
    let mut i: usize = 0;
    while i < c.len()
        invariant
            i <= c.len(),
            p == (|x: char| x == ']'),
            forall|j: int| 0 <= j < i ==> !p(#[trigger] c@[j]),
        decreases c.len() - i,
    {
        if c[i] == ']' {
            proof {
                lists::lemma_first(c@, p, i as int);
            }
            return Some(i);
        }
        i = i + 1;
    }
    proof {
        lists::lemma_no_first(c@, p);
    }
    None
}

/// The level and the message of a line of the log.
pub fn parse_log_line(line: &str) -> (r: (String, String))
    ensures
        (r.0@, r.1@) == line_parts(line@),
{
    let c = chars_of(line);
    if c.len() > 0 && c[0] == '[' {
        if let Some(end) = find_bracket(&c) {
            let n: usize = c.len();
            return (
                string_of(&trim_chars(&sub_chars(&c, 1, end))),
                string_of(&trim_chars(&sub_chars(&c, end + 1, n))),
            );
        }
    }
    ("INFO".to_owned(), line.to_owned())
}

/// A line of the log.
pub open spec fn line_of(level: Seq<char>, message: Seq<char>) -> Seq<char> {
    "["@ + level + "] "@ + message
}

/// A line of the log.
pub fn log_line(level: &str, message: &str) -> (r: String)
    ensures
        r@ == line_of(level@, message@),
{
    let mut s = "[".to_owned();
    s.append(level);
    s.append("] ");
    s.append(message);
    s
}

/// A line of the log file, which begins with the time.
pub fn file_line(time: &str, level: &str, message: &str) -> (r: String)
    ensures
        r@ == time@ + " "@ + line_of(level@, message@) + "\n"@,
{
    let mut s = time.to_owned();
    s.append(" ");
    s.append(log_line(level, message).as_str());
    s.append("\n");
    s
}

/// The line of the log file at which a run of the program begins.
pub fn session_line(time: &str) -> (r: String)
    ensures
        r@ == "\n========== Strata session started "@ + time@ + " ==========\n"@,
{
    let mut s = "\n========== Strata session started ".to_owned();
    s.append(time);
    s.append(" ==========\n");
    s
}

/// A line of the log is read back as it was written: the level and the message come out
/// again, but for space around them.
pub proof fn law_log_lines_are_read_back(level: Seq<char>, message: Seq<char>)
    requires
        !level.contains(']'),
    ensures
        line_parts(line_of(level, message)) == (text::trim(level), text::trim(seq![' '] + message)),
{
    reveal_strlit("[");
    reveal_strlit("] ");
    let line = line_of(level, message);
    let p = |c: char| c == ']';
    let end: int = level.len() as int + 1;
    assert(line[0] == '[');
    assert(line[end] == ']');
    assert forall|j: int| 0 <= j < end implies !p(#[trigger] line[j]) by {
        if j > 0 {
            assert(line[j] == level[j - 1]);
            if line[j] == ']' {
                assert(level.contains(level[j - 1]));
            }
        }
    }
    lists::lemma_first(line, p, end);
    assert(line.subrange(1, end) =~= level);
    assert(line.subrange(end + 1, line.len() as int) =~= seq![' '] + message);
}

/// Whether a line tells that a shader could not be loaded, which the user is told too.
pub open spec fn is_shader_failure(level: Seq<char>, message: Seq<char>) -> bool {
    level == "ERROR"@ && text::begins_with(message, "Layer reload error"@)
}

/// Adds a line to the log, which keeps the last lines only. Tells whether the user is
/// told of it.
pub fn push_log(log: &mut Vec<LogEntry>, line: &str, time: String) -> (toast: bool)
    requires
        old(log)@.len() <= LOG_LIMIT,
    ensures
        final(log)@.len() <= LOG_LIMIT,
        log_texts(final(log)@) == last_of(
            log_texts(old(log)@).push(
                LogText { time: time@, level: line_parts(line@).0, message: line_parts(line@).1 },
            ),
            LOG_LIMIT as int,
        ),
        toast == is_shader_failure(line_parts(line@).0, line_parts(line@).1),
{
    let ghost before = log_texts(log@);
    let (level, message) = parse_log_line(line);
    let toast = str_eq(level.as_str(), "ERROR") && str_starts_with(message.as_str(), "Layer reload error");
    let e = LogEntry { time, level, message };
    let ghost et = e@;
    log.push(e);
    assert(log_texts(log@) =~= before.push(et));
    if log.len() > LOG_LIMIT {
        let ghost all = log@;
        log.remove(0);
        assert(log@ =~= all.subrange(1, all.len() as int));
        assert(log_texts(log@) =~= last_of(before.push(et), LOG_LIMIT as int));
    }
    toast
}

/// The log as a text.
pub open spec fn log_text(v: Seq<LogText>) -> Seq<char>
    decreases v.len(),
{
    if v.len() == 0 {
        Seq::empty()
    } else {
        log_text(v.drop_last()) + "["@ + v.last().time + "] "@ + v.last().level + " "@ + v.last().message + "\n"@
    }
}

/// The log as a text, for the clipboard.
pub fn copy_logs(log: &Vec<LogEntry>) -> (r: String)
    ensures
        r@ == log_text(log_texts(log@)),
{
    let ghost ls = log_texts(log@);
    let mut s = String::new();
    let mut i: usize = 0;
    assert(ls.subrange(0, 0) =~= Seq::empty());
    assert(s@ =~= Seq::empty());
    while i < log.len()
        invariant
            i <= log.len(),
            ls == log_texts(log@),
            s@ == log_text(ls.subrange(0, i as int)),
        decreases log.len() - i,
    {
        assert(ls.subrange(0, i + 1).drop_last() =~= ls.subrange(0, i as int));
        assert(ls.subrange(0, i + 1).last() == log@[i as int]@);
        s.append("[");
        s.append(log[i].time.as_str());
        s.append("] ");
        s.append(log[i].level.as_str());
        s.append(" ");
        s.append(log[i].message.as_str());
        s.append("\n");
        i = i + 1;
    }
    assert(ls.subrange(0, i as int) =~= ls);
    s
}

// ---------------------------------------------------------------------------
// What can be relied on
// ---------------------------------------------------------------------------

/// At most four notices are shown, the newest ones, each for four seconds; the log keeps
/// its last two hundred lines.
pub proof fn law_newest_are_kept<T>(older: Seq<T>, newer: Seq<T>)
    ensures
        last_of(older + newer, newer.len() as int) == newer,
        last_of(newer, (older.len() + newer.len()) as int) == newer,
        TOAST_LIMIT == 4,
        TOAST_MS == 4000,
        LOG_LIMIT == 200,
{
    let all = older + newer;
    if older.len() > 0 {
        assert(all.subrange(all.len() - newer.len(), all.len() as int) =~= newer);
    } else {
        assert(all =~= newer);
    }
}

/// A notice stays until its time is over, and the others keep their order.
pub proof fn law_notices_go_when_their_time_is_over(v: Seq<ToastText>, now: u64)
    ensures
        alive(v, now) == v.filter(|t: ToastText| now < t.deadline),
    decreases v.len(),
{
    reveal(Seq::filter);
    if v.len() > 0 {
        law_notices_go_when_their_time_is_over(v.drop_last(), now);
    }
}

/// A notice is found by its number, the first where several have it.
pub proof fn law_notices_are_found_by_number(v: Seq<ToastText>, id: i32, k: int)
    ensures
        0 <= k < v.len() && v[k].id == id && (forall|j: int| 0 <= j < k ==> (#[trigger] v[j]).id != id) ==> toast_place(
            v,
            id,
        ) == Some(k),
        (forall|j: int| 0 <= j < v.len() ==> (#[trigger] v[j]).id != id) ==> toast_place(v, id) is None,
    decreases v.len(),
{
    if v.len() > 0 {
        let d = v.drop_last();
        law_notices_are_found_by_number(d, id, k);
        assert(forall|j: int| 0 <= j < d.len() ==> #[trigger] d[j] == v[j]);
        assert(v[v.len() - 1] == v.last());
        if k == v.len() - 1 && (forall|j: int| 0 <= j < k ==> (#[trigger] v[j]).id != id) {
            assert forall|j: int| 0 <= j < d.len() implies (#[trigger] d[j]).id != id by {
                assert(v[j].id != id);
            }
        }
    }
}

/// Only what failed is told as a failure, and counts and reasons are told.
pub proof fn law_failures_are_told_as_such(e: UiEvent)
    ensures
        notice_of(e).2 <==> e is NoUserFolder || e is ImportFailed || e is MovieFailed || e is DeleteFailed
            || e is LibraryFailed || e is CopyFailed || e is ParallaxFailed || e is ModelsFailed || e is ShaderFailed,
        e matches UiEvent::MovieFailed(reason) ==> notice_of(e).1 == reason@,
        e matches UiEvent::LibraryUpdated(n) ==> notice_of(e).1 == "Shader manifests synchronized - "@ + text::decimal(
            n as nat,
        ) + " found."@,
        e matches UiEvent::LibraryUpToDate(n) ==> notice_of(e).1 == text::decimal(n as nat)
            + " shaders - no changes found."@,
        e matches UiEvent::MonitorsRefreshed(n) ==> notice_of(e).1 == "Detected "@ + text::decimal(n as nat)
            + " display(s)."@,
        e is NoUserFolder || e is ImportFailed || e is MovieFailed ==> notice_of(e).0 == "Import Failed"@,
        e is Imported || e is MovieImported ==> notice_of(e).0 == "Wallpaper Imported"@,
        e is DeleteFailed ==> notice_of(e).0 == "Delete Failed"@,
        e is Deleted ==> notice_of(e).0 == "Wallpaper Deleted"@,
        e is LibraryUpdated ==> notice_of(e).0 == "Library Updated"@,
        e is LibraryUpToDate ==> notice_of(e).0 == "Library Up To Date"@,
        e is RefreshBusy ==> notice_of(e).0 == "Refresh In Progress"@,
        e is MonitorsRefreshed ==> notice_of(e).0 == "Monitors Refreshed"@,
        e is UpdatesAvailable ==> notice_of(e).0 == "Updates Available"@,
        e is LibraryDownloading ==> notice_of(e).0 == "Downloading Library"@,
        e is LibraryReady ==> notice_of(e).0 == "Library Ready"@,
        e is LibraryFailed ==> notice_of(e).0 == "Library Download Failed"@,
        e is OverlayChanged ==> notice_of(e).0 == "Restart Required"@,
        e is LogsCopied ==> notice_of(e).0 == "Logs Copied"@,
        e is CopyFailed ==> notice_of(e).0 == "Copy Failed"@,
        e is ParallaxCreated ==> notice_of(e).0 == "Parallax Created"@,
        e is ParallaxFailed ==> notice_of(e).0 == "Parallax Failed"@,
        e is ModelsReady ==> notice_of(e).0 == "Models Ready"@,
        e is ModelsFailed ==> notice_of(e).0 == "Download Failed"@,
        e is ShaderFailed ==> notice_of(e).0 == "Failed to Apply Shader"@,
{
}

/// The texts of the notices.
pub proof fn law_notices_say_what_happened(e: UiEvent)
    ensures
        e is NoUserFolder ==> notice_of(e).1 == "Could not resolve the user data directory."@,
        e is Imported ==> notice_of(e).1 == "Added to your library."@,
        e is ImportFailed ==> notice_of(e).1 == "Shader couldn't be imported - see logs for details."@,
        e is MovieImported ==> notice_of(e).1 == "Your movie wallpaper was added to the library."@,
        e is RefreshBusy ==> notice_of(e).1 == "Thumbnails are still generating - please wait."@,
        e is DeleteFailed ==> notice_of(e).1 == "Could not remove the wallpaper folder."@,
        e is Deleted ==> notice_of(e).1 == "The wallpaper was removed."@,
        e is UpdatesAvailable ==> notice_of(e).1 == "Open Settings \u{2192} Updates to get the latest."@,
        e is LibraryDownloading ==> notice_of(e).1 == "Fetching the wallpaper library - this happens only once."@,
        e is LibraryReady ==> notice_of(e).1 == "Your wallpaper library has been downloaded."@,
        e is LibraryFailed ==> notice_of(e).1
            == "Couldn't fetch the library - check your connection, then retry in Settings \u{2192} Updates."@,
        e is OverlayChanged ==> notice_of(e).1 == "Restart your PC for the Multi-Plane Overlay change to take effect."@,
        e is LogsCopied ==> notice_of(e).1 == "Diagnostics data has been copied to clipboard."@,
        e is CopyFailed ==> notice_of(e).1 == "Could not access the clipboard."@,
        e is ParallaxCreated ==> notice_of(e).1 == "Your 3D wallpaper was added to the Library."@,
        e is ParallaxFailed ==> notice_of(e).1 == "Could not create the wallpaper."@,
        e is ModelsReady ==> notice_of(e).1 == "All required models downloaded - ready to generate."@,
        e is ModelsFailed ==> notice_of(e).1 == "Could not download the models."@,
        e is ShaderFailed ==> notice_of(e).1 == "A shader could not be loaded - see the Diagnostics log for details."@,
{
}

/// Work in the background is told once it is done or failed; what concerns updates and
/// the library only while the window can be seen.
pub proof fn law_work_is_told(p: Pending, visible: bool)
    ensures
        events_of(p, visible).contains(UiEvent::UpdatesAvailable) <==> visible && p.updates,
        events_of(p, visible).contains(UiEvent::LibraryReady) <==> visible && p.library == WorkStatus::Done,
        events_of(p, visible).contains(UiEvent::LibraryFailed) <==> visible && p.library == WorkStatus::Failed,
        events_of(p, visible).contains(UiEvent::OverlayChanged) <==> p.overlay == WorkStatus::Done,
        forall|i: int|
            0 <= i < events_of(p, visible).len() ==> #[trigger] events_of(p, visible)[i] is UpdatesAvailable
                || events_of(p, visible)[i] is LibraryReady || events_of(p, visible)[i] is LibraryFailed || events_of(
                p,
                visible,
            )[i] is OverlayChanged,
        events_of(p, visible).len() <= 3,
{
    let es = events_of(p, visible);
    let a = if visible && p.updates {
        1int
    } else {
        0
    };
    let b = if visible && p.library != WorkStatus::Idle {
        1int
    } else {
        0
    };
    if visible && p.updates {
        assert(es[0] == UiEvent::UpdatesAvailable);
    }
    if visible && p.library == WorkStatus::Done {
        assert(es[a] == UiEvent::LibraryReady);
    }
    if visible && p.library == WorkStatus::Failed {
        assert(es[a] == UiEvent::LibraryFailed);
    }
    if p.overlay == WorkStatus::Done {
        assert(es[a + b] == UiEvent::OverlayChanged);
    }
}

/// A line without a level is information, whole.
pub proof fn law_plain_lines_are_information(line: Seq<char>)
    requires
        line.len() == 0 || line[0] != '[' || !line.contains(']'),
    ensures
        line_parts(line) == ("INFO"@, line),
{
    if line.len() > 0 && line[0] == '[' {
        let p = |c: char| c == ']';
        assert forall|j: int| 0 <= j < line.len() implies !p(#[trigger] line[j]) by {
            if line[j] == ']' {
                assert(line.contains(']'));
            }
        }
        lists::lemma_no_first(line, p);
    }
}

/// The user is told of errors that tell of a layer that could not be loaded, and of no
/// other line.
pub proof fn law_failed_layers_are_told(rest: Seq<char>, level: Seq<char>, message: Seq<char>)
    ensures
        is_shader_failure("ERROR"@, "Layer reload error"@ + rest),
        is_shader_failure(level, message) ==> level == "ERROR"@ && text::begins_with(message, "Layer reload error"@),
{
    reveal_strlit("Layer reload error");
    let m = "Layer reload error"@ + rest;
    let n = "Layer reload error"@.len() as int;
    assert(m.subrange(0, n) =~= "Layer reload error"@);
}

/// The log as a text has a line for each of its entries, in their order.
pub proof fn law_logs_are_copied_line_by_line(v: Seq<LogText>, e: LogText)
    ensures
        log_text(v.push(e)) == log_text(v) + ("["@ + e.time + "] "@ + e.level + " "@ + e.message + "\n"@),
        log_text(Seq::empty()) == Seq::<char>::empty(),
{
    assert(v.push(e).drop_last() =~= v);
    assert(v.push(e).last() == e);
    assert(log_text(v.push(e)) =~= log_text(v) + ("["@ + e.time + "] "@ + e.level + " "@ + e.message + "\n"@));
}

/// While notices are shown there are no more than four, and newer ones have higher
/// numbers, up to that of the last.
pub proof fn law_notices_are_numbered(t: Toasts, i: int, j: int)
    requires
        t.wf(),
        0 <= i < j < t.items@.len(),
    ensures
        t.items@.len() <= 4,
        t.items@[i].id < t.items@[j].id <= t.counter,
{
}

} // verus!
