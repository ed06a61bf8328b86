//! Movie wallpapers: importing them, and the process that plays them.
use vstd::prelude::*;
use crate::compositor;
use crate::compositor::{find_movie, positioning_to_object_fit, Movie};
use crate::controller;
use crate::controller::{LayerInfo, MonitorInfo};
use crate::lists;
use crate::paths::Location;
use crate::text;
use crate::text::{
    char_is_alphanumeric, char_lower, chars_of, replace_char, str_eq, string_of, trim_chars, trim_end_set,
    trim_start_set,
};

verus! {

broadcast use vstd::string::group_string_axioms;

// ---------------------------------------------------------------------------
// Importing
// ---------------------------------------------------------------------------

/// A character of a folder name: letters, digits, spaces, dashes and underscores stay,
/// others become underscores.
pub open spec fn safe_char(c: char) -> char {
    kept_char(c, text::unicode_alphanumeric(c))
}

/// A character of a folder name, once it is known whether it is a letter or a digit.
pub open spec fn kept_char(c: char, alphanumeric: bool) -> char {
    if alphanumeric || c == ' ' || c == '-' || c == '_' {
        c
    } else {
        '_'
    }
}

/// A folder name for a text.
pub open spec fn safe_name(s: Seq<char>) -> Seq<char> {
    name_of_cleaned(Seq::new(s.len(), |i: int| safe_char(s[i])))
}

/// A folder name for characters that may stand in one: without the spaces and the
/// underscores around it, or "video" where nothing is left.
pub open spec fn name_of_cleaned(cleaned: Seq<char>) -> Seq<char> {
    let inner = text::trim(controller::without_around(text::trim(cleaned), '_'));
    if inner.len() == 0 {
        "video"@
    } else {
        inner
    }
}

/// A folder name for a text, made of characters that every file system takes.
pub fn sanitize_name(s: &str) -> (r: String)
    ensures
        r@ == safe_name(s@),
{
    let c = chars_of(s);
    let mut cleaned: Vec<char> = Vec::new();
    let mut i: usize = 0;
    while i < c.len()
        invariant
            i <= c.len(),
            c@ == s@,
            cleaned@.len() == i,
            forall|j: int| 0 <= j < i ==> #[trigger] cleaned@[j] == safe_char(s@[j]),
        decreases c.len() - i,
    {
        let x = c[i];
        cleaned.push(clean_char(x, char_is_alphanumeric(x)));
        i = i + 1;
    }
    assert(cleaned@ =~= Seq::new(s@.len(), |i: int| safe_char(s@[i])));
    name_cleaned(&cleaned)
}

/// A character of a folder name, once it is known whether it is a letter or a digit.
pub fn clean_char(c: char, alphanumeric: bool) -> (r: char)
    ensures
        r == kept_char(c, alphanumeric),
{
    if alphanumeric || c == ' ' || c == '-' || c == '_' {
        c
    } else {
        '_'
    }
}

/// A folder name for characters that may stand in one.
pub fn name_cleaned(cleaned: &Vec<char>) -> (r: String)
    ensures
        r@ == name_of_cleaned(cleaned@),
{
    let mut line: Vec<char> = Vec::new();
    line.push('_');
    assert(line@ =~= seq!['_']);
    let inner = trim_chars(&trim_end_set(&trim_start_set(&trim_chars(cleaned), &line), &line));
    if inner.len() == 0 {
        "video".to_owned()
    } else {
        string_of(&inner)
    }
}

/// The name of a movie: the one that was typed, else that of its file.
pub open spec fn movie_name(typed: Seq<char>, stem: Option<Seq<char>>) -> Seq<char> {
    safe_name(
        if text::trim(typed).len() > 0 {
            typed
        } else {
            match stem {
                Some(s) => s,
                None => "video"@,
            }
        },
    )
}

/// The name of a movie that is imported.
pub fn video_pack_name(typed: &str, stem: &Option<String>) -> (r: String)
    ensures
        r@ == movie_name(typed@, text::opt_text(*stem)),
{
    if trim_chars(&chars_of(typed)).len() > 0 {
        sanitize_name(typed)
    } else {
        match stem {
            Some(s) => sanitize_name(s.as_str()),
            None => sanitize_name("video"),
        }
    }
}

/// What is written to import a movie.
pub struct VideoPack {
    /// The folder that is made.
    pub dir: Location,
    /// The name of the video file in the folder.
    pub file: String,
    pub manifest: String,
    /// Whether a thumbnail can be made.
    pub thumbnail: bool,
}

/// The extension of a video file, in lower case; `mp4` where there is none.
pub open spec fn video_extension(ext: Option<Seq<char>>) -> Seq<char> {
    match ext {
        Some(e) => Seq::new(e.len(), |i: int| text::lower(e[i])),
        None => "mp4"@,
    }
}

fn write_extension(ext: &Option<String>) -> (r: String)
    ensures
        r@ == video_extension(text::opt_text(*ext)),
{
    match ext {
        Some(e) => {
            let c = chars_of(e.as_str());
            let mut out: Vec<char> = Vec::new();
            let mut i: usize = 0;
            while i < c.len()
                invariant
                    i <= c.len(),
                    c@ == e@,
                    out@.len() == i,
                    forall|j: int| 0 <= j < i ==> #[trigger] out@[j] == text::lower(e@[j]),
                decreases c.len() - i,
            {
                out.push(char_lower(c[i]));
                i = i + 1;
            }
            assert(out@ =~= Seq::new(e@.len(), |i: int| text::lower(e@[i])));
            string_of(&out)
        },
        None => "mp4".to_owned(),
    }
}

/// The manifest of a movie.
pub open spec fn movie_manifest(name: Seq<char>, file: Seq<char>) -> Seq<char> {
    "[wallpaper]\nname = \""@ + text::replace_each(name, '"', "'"@)
        + "\"\nauthor = \"\"\nversion = \"1.0.0\"\ntags = [\"video\"]\npasses = []\nvideo = \""@ + file
        + "\"\n"@
}

/// What is written to import a movie into a folder of its own below `base`; `exists`
/// says whether that folder is already there.
pub fn import_video_wallpaper(base: &Option<Location>, name: &str, ext: &Option<String>, exists: bool) -> (r:
    Result<VideoPack, String>)
    ensures
        match r {
            Ok(p) => {
                let file = "video."@ + video_extension(text::opt_text(*ext));
                &&& base matches Some(b) && p.dir@ == b@.push(name@)
                &&& !exists
                &&& p.file@ == file
                &&& p.manifest@ == movie_manifest(name@, file)
                &&& p.thumbnail == (video_extension(text::opt_text(*ext)) == "mp4"@)
            },
            Err(e) => if base is None {
                e@ == "could not resolve the user data directory"@
            } else {
                exists && e@ == "A wallpaper named \""@ + name@ + "\" already exists"@
            },
        },
{
    let base = match base {
        Some(b) => b,
        None => {
            return Err("could not resolve the user data directory".to_owned());
        },
    };
    if exists {
        let mut e = "A wallpaper named \"".to_owned();
        e.append(name);
        e.append("\" already exists");
        return Err(e);
    }
    let ext = write_extension(ext);
    let mut file = "video.".to_owned();
    file.append(ext.as_str());
    let quoted = string_of(&replace_char(&chars_of(name), '"', &chars_of("'")));
    let mut manifest = "[wallpaper]\nname = \"".to_owned();
    manifest.append(quoted.as_str());
    manifest.append(
        "\"\nauthor = \"\"\nversion = \"1.0.0\"\ntags = [\"video\"]\npasses = []\nvideo = \"",
    );
    manifest.append(file.as_str());
    manifest.append("\"\n");
    let thumbnail = str_eq(ext.as_str(), "mp4");
    Ok(VideoPack { dir: base.join(name), file, manifest, thumbnail })
}

/// What is done while the first frame of a movie is awaited for its thumbnail.
#[derive(Clone, Copy, PartialEq, Eq, Structural)]
pub enum FirstFrame {
    /// Take the frame.
    Take,
    /// Ask again after so many milliseconds.
    Wait(u64),
    /// Give up.
    TimedOut,
}

/// What is done while the first frame of a movie is awaited: it is asked for every 20
/// milliseconds, for 4 seconds.
pub fn generate_video_thumbnail(decoded: bool, elapsed_ms: u64) -> (r: FirstFrame)
    ensures
        r == (if decoded {
            FirstFrame::Take
        } else if elapsed_ms > 4000 {
            FirstFrame::TimedOut
        } else {
            FirstFrame::Wait(20)
        }),
{
    if decoded {
        FirstFrame::Take
    } else if elapsed_ms > 4000 {
        FirstFrame::TimedOut
    } else {
        FirstFrame::Wait(20)
    }
}

/// How a file that the user chose is imported.
#[derive(Clone, Copy, PartialEq, Eq, Structural)]
pub enum ImportRoute {
    /// As a movie, once the user has named it.
    Movie,
    /// As a Shadertoy export.
    Shadertoy,
    /// As a wallpaper pack.
    Pack,
}

/// Whether an extension is the given one, whatever the case of its letters.
pub open spec fn extension_is(ext: Option<Seq<char>>, other: Seq<char>) -> bool {
    match ext {
        Some(e) => text::same_ignoring_case(e, other),
        None => false,
    }
}

fn is_extension(ext: &Option<String>, other: &str) -> (r: bool)
    ensures
        r == extension_is(text::opt_text(*ext), other@),
{
    match ext {
        Some(e) => text::eq_ignoring_case(e.as_str(), other),
        None => false,
    }
}

/// How a file that the user chose is imported: a video as a movie, a `.json` file and
/// an archive without a manifest as a Shadertoy export, another archive as a pack.
pub fn import_route(ext: &Option<String>, native_pack: bool) -> (r: ImportRoute)
    ensures
        r == ({
            let e = text::opt_text(*ext);
            if extension_is(e, "mp4"@) || extension_is(e, "webm"@) {
                ImportRoute::Movie
            } else if extension_is(e, "json"@) || !native_pack {
                ImportRoute::Shadertoy
            } else {
                ImportRoute::Pack
            }
        }),
{
    if is_extension(ext, "mp4") || is_extension(ext, "webm") {
        ImportRoute::Movie
    } else if is_extension(ext, "json") || !native_pack {
        ImportRoute::Shadertoy
    } else {
        ImportRoute::Pack
    }
}

// ---------------------------------------------------------------------------
// Pages
// ---------------------------------------------------------------------------

/// The address of a file.
pub open spec fn url_of(path: Seq<char>) -> Seq<char> {
    "file:///"@ + text::trim_start_of(text::replace_each(path, '\\', "/"@), seq!['/'])
}

/// The address of a file, with slashes between the parts of its path.
pub fn file_url(path: &str) -> (r: String)
    ensures
        r@ == url_of(path@),
{
    let slashed = replace_char(&chars_of(path), '\\', &chars_of("/"));
    let mut slash: Vec<char> = Vec::new();
    slash.push('/');
    assert(slash@ =~= seq!['/']);
    let mut s = "file:///".to_owned();
    s.append(string_of(&trim_start_set(&slashed, &slash)).as_str());
    s
}

/// The part of the page of a movie before its fit.
pub const PAGE_HEAD: &'static str = "<!doctype html><html><head><meta charset=\"utf-8\"><style>\
html,body{margin:0;height:100%;background:#000;overflow:hidden}\
video{position:fixed;inset:0;width:100%;height:100%;object-fit:";

/// The part of the page of a movie between its fit and its address.
pub const PAGE_MIDDLE: &'static str = "}\
</style></head><body>\
<video src=\"";

/// The part of the page of a movie behind its address.
pub const PAGE_TAIL: &'static str = "\" autoplay loop muted playsinline preload=\"auto\"></video>\
</body></html>";

/// The page that plays a movie.
pub fn video_page(video_url: &str, fit: &str) -> (r: String)
    ensures
        r@ == PAGE_HEAD@ + fit@ + PAGE_MIDDLE@ + video_url@ + PAGE_TAIL@,
{
    let mut s = PAGE_HEAD.to_owned();
    s.append(fit);
    s.append(PAGE_MIDDLE);
    s.append(video_url);
    s.append(PAGE_TAIL);
    s
}

/// The name of the page of a monitor.
pub fn page_name(monitor_id: &str) -> (r: String)
    ensures
        r@ == "strata-wallpaper-"@ + safe_name(monitor_id@) + ".html"@,
{
    let mut s = "strata-wallpaper-".to_owned();
    s.append(sanitize_name(monitor_id).as_str());
    s.append(".html");
    s
}

// ---------------------------------------------------------------------------
// The player
// ---------------------------------------------------------------------------

/// What a monitor plays.
pub struct VideoEntry {
    pub monitor_id: String,
    pub path: Location,
    pub fit: String,
    /// Left, top, width and height.
    pub geom: (i32, i32, u32, u32),
}

/// What a monitor plays, by the texts it holds.
#[verifier::ext_equal]
pub struct VideoText {
    pub monitor_id: Seq<char>,
    pub path: Seq<Seq<char>>,
    pub fit: Seq<char>,
    pub geom: (i32, i32, u32, u32),
}

impl View for VideoEntry {
    type V = VideoText;

    open spec fn view(&self) -> VideoText {
        VideoText { monitor_id: self.monitor_id@, path: self.path@, fit: self.fit@, geom: self.geom }
    }
}

impl VideoEntry {
    /// A copy.
    pub fn copy(&self) -> (r: VideoEntry)
        ensures
            r@ == self@,
    {
        VideoEntry {
            monitor_id: self.monitor_id.clone(),
            path: self.path.copy(),
            fit: self.fit.clone(),
            geom: self.geom,
        }
    }
}

/// What the monitors of a list play.
pub open spec fn video_texts(v: Seq<VideoEntry>) -> Seq<VideoText> {
    Seq::new(v.len(), |i: int| v[i]@)
}

/// What the player is told.
pub enum DaemonCmd {
    SetVideo(VideoEntry),
    RemoveVideo(String),
    SetFit { monitor_id: String, fit: String },
    SetPaused { monitor_id: String, paused: bool },
    Shutdown,
}

/// What the player is told, by the texts it holds.
#[verifier::ext_equal]
pub enum CmdText {
    SetVideo(VideoText),
    RemoveVideo(Seq<char>),
    SetFit(Seq<char>, Seq<char>),
    SetPaused(Seq<char>, bool),
    Shutdown,
}

impl View for DaemonCmd {
    type V = CmdText;

    open spec fn view(&self) -> CmdText {
        match self {
            DaemonCmd::SetVideo(e) => CmdText::SetVideo(e@),
            DaemonCmd::RemoveVideo(id) => CmdText::RemoveVideo(id@),
            DaemonCmd::SetFit { monitor_id, fit } => CmdText::SetFit(monitor_id@, fit@),
            DaemonCmd::SetPaused { monitor_id, paused } => CmdText::SetPaused(monitor_id@, *paused),
            DaemonCmd::Shutdown => CmdText::Shutdown,
        }
    }
}

/// The commands of a list.
pub open spec fn cmd_texts(v: Seq<DaemonCmd>) -> Seq<CmdText> {
    Seq::new(v.len(), |i: int| v[i]@)
}

fn push_cmd(v: &mut Vec<DaemonCmd>, c: DaemonCmd)
    ensures
        cmd_texts(final(v)@) == cmd_texts(old(v)@).push(c@),
{
    let ghost cv = c@;
    v.push(c);
    assert(cmd_texts(v@) =~= cmd_texts(old(v)@).push(cv));
}

/// The first movie among layers, with the way it is fitted.
pub open spec fn first_movie(movies: Seq<Movie>, layers: Seq<controller::LayerText>) -> Option<
    (Seq<Seq<char>>, Seq<char>),
>
    decreases layers.len(),
{
    if layers.len() == 0 {
        None
    } else {
        match compositor::movie_file(movies, layers[0].path) {
            Some(f) => Some((f, compositor::object_fit(layers[0].positioning))),
            None => first_movie(movies, layers.subrange(1, layers.len() as int)),
        }
    }
}

fn find_first_movie(movies: &Vec<Movie>, layers: &Vec<LayerInfo>) -> (r: Option<(Location, String)>)
    ensures
        match r {
            Some(p) => first_movie(movies@, controller::layer_texts(layers@)) == Some((p.0@, p.1@)),
            None => first_movie(movies@, controller::layer_texts(layers@)) is None,
        },
{
    let ghost ls = controller::layer_texts(layers@);
    let mut i: usize = 0;
    assert(ls.subrange(0, ls.len() as int) =~= ls);
    while i < layers.len()
        invariant
            i <= layers.len(),
            ls == controller::layer_texts(layers@),
            first_movie(movies@, ls) == first_movie(movies@, ls.subrange(i as int, ls.len() as int)),
        decreases layers.len() - i,
    {
        let ghost rest = ls.subrange(i as int, ls.len() as int);
        assert(rest[0] == layers@[i as int]@);
        assert(rest.subrange(1, rest.len() as int) =~= ls.subrange(i + 1, ls.len() as int));
        if let Some(f) = find_movie(movies, &layers[i].wallpaper_path) {
            return Some((f, positioning_to_object_fit(layers[i].positioning.as_str()).to_owned()));
        }
        i = i + 1;
    }
    None
}

/// What a monitor is to play.
pub open spec fn wanted_video(movies: Seq<Movie>, m: controller::MonitorText) -> Option<VideoText> {
    match first_movie(movies, m.layers) {
        Some(p) => Some(
            VideoText {
                monitor_id: m.id,
                path: p.0,
                fit: p.1,
                geom: (m.position.0, m.position.1, m.resolution.0, m.resolution.1),
            },
        ),
        None => None,
    }
}

/// The place of a monitor in a list.
pub open spec fn video_place(vs: Seq<VideoText>, id: Seq<char>) -> Option<int> {
    lists::first_where(vs, |v: VideoText| v.monitor_id == id)
}

fn find_video(vs: &Vec<VideoEntry>, id: &str) -> (r: Option<usize>)
    ensures
        match r {
            Some(i) => video_place(video_texts(vs@), id@) == Some(i as int) && i < vs@.len(),
            None => video_place(video_texts(vs@), id@) is None,
        },
{
    let ghost ts = video_texts(vs@);
    let ghost p = |v: VideoText| v.monitor_id == id@;
    let mut i: usize = 0;
    while i < vs.len()
        invariant
            i <= vs.len(),
            ts == video_texts(vs@),
            p == (|v: VideoText| v.monitor_id == id@),
            forall|j: int| 0 <= j < i ==> !p(#[trigger] ts[j]),
        decreases vs.len() - i,
    {
        if str_eq(vs[i].monitor_id.as_str(), id) {
            proof {
                lists::lemma_first(ts, p, i as int);
            }
            return Some(i);
        }
        assert(!p(ts[i as int]));
        i = i + 1;
    }
    proof {
        lists::lemma_no_first(ts, p);
    }
    None
}

/// A list with the entry of a monitor put in: in the place of an earlier entry of the
/// same monitor, or else at the end.
pub open spec fn put(vs: Seq<VideoText>, v: VideoText) -> Seq<VideoText> {
    match video_place(vs, v.monitor_id) {
        Some(i) => vs.update(i, v),
        None => vs.push(v),
    }
}

/// What the monitors are to play, one entry for each id: of monitors with the same id the
/// later one counts.
pub open spec fn desired(movies: Seq<Movie>, ms: Seq<controller::MonitorText>) -> Seq<VideoText>
    decreases ms.len(),
{
    if ms.len() == 0 {
        Seq::empty()
    } else {
        match wanted_video(movies, ms.last()) {
            Some(v) => put(desired(movies, ms.drop_last()), v),
            None => desired(movies, ms.drop_last()),
        }
    }
}

fn put_video(v: &mut Vec<VideoEntry>, e: VideoEntry)
    ensures
        video_texts(final(v)@) == put(video_texts(old(v)@), e@),
{
    let ghost ev = e@;
    let ghost before = video_texts(v@);
    match find_video(v, e.monitor_id.as_str()) {
        Some(i) => {
            v[i] = e;
            assert(video_texts(v@) =~= before.update(i as int, ev));
        },
        None => {
            v.push(e);
            assert(video_texts(v@) =~= before.push(ev));
        },
    }
}

fn desired_videos(movies: &Vec<Movie>, monitors: &Vec<MonitorInfo>) -> (r: Vec<VideoEntry>)
    ensures
        video_texts(r@) == desired(movies@, controller::monitor_texts(monitors@)),
{
    let ghost ms = controller::monitor_texts(monitors@);
    let mut r: Vec<VideoEntry> = Vec::new();
    let mut i: usize = 0;
    assert(ms.subrange(0, 0) =~= Seq::empty());
    assert(video_texts(r@) =~= Seq::empty());
    while i < monitors.len()
        invariant
            i <= monitors.len(),
            ms == controller::monitor_texts(monitors@),
            video_texts(r@) == desired(movies@, ms.subrange(0, i as int)),
        decreases monitors.len() - i,
    {
        assert(ms.subrange(0, i + 1).drop_last() =~= ms.subrange(0, i as int));
        assert(ms.subrange(0, i + 1).last() == monitors@[i as int]@);
        let m = &monitors[i];
        if let Some((path, fit)) = find_first_movie(movies, &m.layers) {
            let e = VideoEntry {
                monitor_id: m.id.clone(),
                path,
                fit,
                geom: (m.position.0, m.position.1, m.resolution.0, m.resolution.1),
            };
            assert(wanted_video(movies@, m@) == Some(e@));
            put_video(&mut r, e);
        }
        i = i + 1;
    }
    assert(ms.subrange(0, i as int) =~= ms);
    r
}

/// Whether a monitor has to be told to play something else: another movie, or in another
/// place. Another fit alone is told at once, when it changes.
pub open spec fn needs_set(cur: Seq<VideoText>, want: VideoText) -> bool {
    match video_place(cur, want.monitor_id) {
        Some(i) => cur[i].path != want.path || cur[i].geom != want.geom,
        None => true,
    }
}

/// What a monitor plays after it was told.
pub open spec fn next_video(cur: Seq<VideoText>, want: VideoText) -> VideoText {
    if needs_set(cur, want) {
        want
    } else {
        cur[video_place(cur, want.monitor_id)->0]
    }
}

/// What the monitors play after they were told.
pub open spec fn next_videos(cur: Seq<VideoText>, want: Seq<VideoText>) -> Seq<VideoText> {
    Seq::new(want.len(), |i: int| next_video(cur, want[i]))
}

/// The commands that end movies nobody wants any more.
pub open spec fn removals(cur: Seq<VideoText>, want: Seq<VideoText>) -> Seq<CmdText>
    decreases cur.len(),
{
    if cur.len() == 0 {
        Seq::empty()
    } else if video_place(want, cur.last().monitor_id) is None {
        removals(cur.drop_last(), want).push(CmdText::RemoveVideo(cur.last().monitor_id))
    } else {
        removals(cur.drop_last(), want)
    }
}

/// The commands that start or replace movies.
pub open spec fn starts(cur: Seq<VideoText>, want: Seq<VideoText>) -> Seq<CmdText>
    decreases want.len(),
{
    if want.len() == 0 {
        Seq::empty()
    } else if needs_set(cur, want.last()) {
        starts(cur, want.drop_last()).push(CmdText::SetVideo(want.last()))
    } else {
        starts(cur, want.drop_last())
    }
}

/// What is done so that the monitors play what they are to play.
pub struct VideoChanges {
    pub commands: Vec<DaemonCmd>,
    /// Whether the player has to be running.
    pub spawn: bool,
    /// Whether the player is ended, because nothing is left to play.
    pub shutdown: bool,
}

/// Brings the player in line with the monitors: ends movies that nobody wants, and
/// starts or replaces those that changed.
pub fn reconcile_video_daemon(cur: &mut Vec<VideoEntry>, movies: &Vec<Movie>, monitors: &Vec<MonitorInfo>) -> (r:
    VideoChanges)
    ensures
        ({
            let have = video_texts(old(cur)@);
            let want = desired(movies@, controller::monitor_texts(monitors@));
            &&& video_texts(final(cur)@) == next_videos(have, want)
            &&& cmd_texts(r.commands@) == removals(have, want) + starts(have, want)
            &&& r.spawn == (starts(have, want).len() > 0)
            &&& r.shutdown == (want.len() == 0)
        }),
{
    let want = desired_videos(movies, monitors);
    let ghost have = video_texts(cur@);
    let ghost wt = video_texts(want@);
    let mut commands: Vec<DaemonCmd> = Vec::new();
    let mut i: usize = 0;
    assert(have.subrange(0, 0) =~= Seq::empty());
    assert(cmd_texts(commands@) =~= Seq::empty());
    while i < cur.len()
        invariant
            i <= cur@.len(),
            have == video_texts(cur@),
            wt == video_texts(want@),
            cmd_texts(commands@) == removals(have.subrange(0, i as int), wt),
        decreases cur.len() - i,
    {
        assert(have.subrange(0, i + 1).drop_last() =~= have.subrange(0, i as int));
        assert(have.subrange(0, i + 1).last() == cur@[i as int]@);
        if find_video(&want, cur[i].monitor_id.as_str()).is_none() {
            push_cmd(&mut commands, DaemonCmd::RemoveVideo(cur[i].monitor_id.clone()));
        }
        i = i + 1;
    }
    assert(have.subrange(0, i as int) =~= have);
    let ghost ends = cmd_texts(commands@);
    let mut next: Vec<VideoEntry> = Vec::new();
    let mut spawn = false;
    let mut k: usize = 0;
    assert(wt.subrange(0, 0) =~= Seq::empty());
    assert(ends + starts(have, wt.subrange(0, 0)) =~= ends);
    while k < want.len()
        invariant
            k <= want@.len(),
            have == video_texts(cur@),
            wt == video_texts(want@),
            next@.len() == k,
            forall|j: int| 0 <= j < k ==> (#[trigger] next@[j])@ == next_video(have, wt[j]),
            cmd_texts(commands@) == ends + starts(have, wt.subrange(0, k as int)),
            spawn == (starts(have, wt.subrange(0, k as int)).len() > 0),
        decreases want.len() - k,
    {
        assert(wt.subrange(0, k + 1).drop_last() =~= wt.subrange(0, k as int));
        assert(wt.subrange(0, k + 1).last() == want@[k as int]@);
        let w = &want[k];
        let found = find_video(cur, w.monitor_id.as_str());
        let told: bool = match found {
            Some(j) => {
                assert(have[j as int] == cur@[j as int]@);
                let g = cur[j].geom;
                !cur[j].path.same(&w.path) || g.0 != w.geom.0 || g.1 != w.geom.1 || g.2 != w.geom.2 || g.3
                    != w.geom.3
            },
            None => true,
        };
        assert(told == needs_set(have, wt[k as int]));
        if told {
            let ghost before = cmd_texts(commands@);
            push_cmd(&mut commands, DaemonCmd::SetVideo(w.copy()));
            assert(cmd_texts(commands@) =~= ends + starts(have, wt.subrange(0, k + 1)));
            spawn = true;
            next.push(w.copy());
        } else {
            match found {
                Some(j) => {
                    next.push(cur[j].copy());
                },
                None => {
                    next.push(w.copy());
                },
            }
        }
        k = k + 1;
    }
    assert(wt.subrange(0, k as int) =~= wt);
    assert(video_texts(next@) =~= next_videos(have, wt));
    let shutdown = next.len() == 0;
    *cur = next;
    VideoChanges { commands, spawn, shutdown }
}

/// After the player was brought in line, each monitor plays its movie in its place, and
/// doing it again changes nothing.
pub proof fn law_player_is_in_line(cur: Seq<VideoText>, movies: Seq<Movie>, ms: Seq<controller::MonitorText>)
    ensures
        ({
            let want = desired(movies, ms);
            let next = next_videos(cur, want);
            &&& forall|i: int|
                0 <= i < want.len() ==> (#[trigger] next[i]).monitor_id == want[i].monitor_id && next[i].path
                    == want[i].path && next[i].geom == want[i].geom
            &&& next_videos(next, want) == next
            &&& removals(next, want) == Seq::<CmdText>::empty()
            &&& starts(next, want) == Seq::<CmdText>::empty()
            &&& distinct_ids(next)
        }),
{
    let want = desired(movies, ms);
    law_one_movie_for_each_id(movies, ms);
    let next = next_videos(cur, want);
    assert forall|i: int| 0 <= i < want.len() implies (#[trigger] next[i]).monitor_id == want[i].monitor_id
        && next[i].path == want[i].path && next[i].geom == want[i].geom by {
        lemma_next(cur, want[i]);
    }
    assert forall|i: int| 0 <= i < want.len() implies video_place(next, want[i].monitor_id) == Some(i)
        && video_place(want, want[i].monitor_id) == Some(i) && !needs_set(next, #[trigger] want[i]) by {
        let id = want[i].monitor_id;
        let p = |v: VideoText| v.monitor_id == id;
        assert forall|j: int| 0 <= j < i implies !p(#[trigger] next[j]) by {
            assert(want[j].monitor_id != want[i].monitor_id);
        }
        assert(lists::is_first(next, p, i));
        lists::lemma_first(next, p, i);
        assert forall|j: int| 0 <= j < i implies !p(#[trigger] want[j]) by {
        }
        assert(lists::is_first(want, p, i));
        lists::lemma_first(want, p, i);
    }
    assert(next_videos(next, want) =~= next);
    lemma_nothing_to_start(next, want, want.len() as int);
    assert(want.subrange(0, want.len() as int) =~= want);
    assert forall|i: int| 0 <= i < next.len() implies video_place(want, (#[trigger] next[i]).monitor_id) is Some by {
        assert(next[i].monitor_id == want[i].monitor_id);
        assert(!needs_set(next, want[i]));
    }
    lemma_nothing_to_remove(next, want, next.len() as int);
    assert(next.subrange(0, next.len() as int) =~= next);
}

/// No two entries are for the same monitor.
pub open spec fn distinct_ids(vs: Seq<VideoText>) -> bool {
    forall|i: int, j: int|
        0 <= i < vs.len() && 0 <= j < vs.len() && i != j ==> (#[trigger] vs[i]).monitor_id != (
        #[trigger] vs[j]).monitor_id
}

/// The player is never asked to play two movies on one monitor, and each monitor that has
/// a movie is among those that play one.
pub proof fn law_one_movie_for_each_id(movies: Seq<Movie>, ms: Seq<controller::MonitorText>)
    ensures
        distinct_ids(desired(movies, ms)),
        forall|i: int|
            0 <= i < ms.len() && wanted_video(movies, #[trigger] ms[i]) is Some ==> video_place(
                desired(movies, ms),
                ms[i].id,
            ) is Some,
    decreases ms.len(),
{
    if ms.len() > 0 {
        let rest = ms.drop_last();
        let before = desired(movies, rest);
        law_one_movie_for_each_id(movies, rest);
        if let Some(v) = wanted_video(movies, ms.last()) {
            lemma_put(before, v);
            assert forall|i: int| 0 <= i < ms.len() && wanted_video(movies, #[trigger] ms[i]) is Some implies video_place(
                desired(movies, ms),
                ms[i].id,
            ) is Some by {
                if i < rest.len() {
                    assert(rest[i] == ms[i]);
                    assert(video_place(before, ms[i].id) is Some);
                }
            }
        } else {
            assert forall|i: int| 0 <= i < ms.len() && wanted_video(movies, #[trigger] ms[i]) is Some implies video_place(
                desired(movies, ms),
                ms[i].id,
            ) is Some by {
                assert(i < rest.len());
                assert(rest[i] == ms[i]);
            }
        }
    }
}

proof fn lemma_put(vs: Seq<VideoText>, v: VideoText)
    requires
        distinct_ids(vs),
    ensures
        distinct_ids(put(vs, v)),
        video_place(put(vs, v), v.monitor_id) is Some,
        forall|id: Seq<char>|
            #[trigger] video_place(vs, id) is Some ==> video_place(put(vs, v), id) is Some,
{
    let after = put(vs, v);
    let same = |w: VideoText| w.monitor_id == v.monitor_id;
    match video_place(vs, v.monitor_id) {
        Some(i) => {
            assert(lists::is_first(vs, same, i));
            lists::lemma_some_first(after, same, i);
        },
        None => {
            assert forall|i: int| 0 <= i < vs.len() implies (#[trigger] vs[i]).monitor_id != v.monitor_id by {
                if same(vs[i]) {
                    lists::lemma_some_first(vs, same, i);
                }
            }
            lists::lemma_some_first(after, same, vs.len() as int);
        },
    }
    assert forall|id: Seq<char>| #[trigger] video_place(vs, id) is Some implies video_place(after, id) is Some by {
        let p = |w: VideoText| w.monitor_id == id;
        let k = video_place(vs, id)->0;
        assert(lists::is_first(vs, p, k));
        lists::lemma_some_first(after, p, k);
    }
}

proof fn lemma_next(cur: Seq<VideoText>, want: VideoText)
    ensures
        next_video(cur, want).monitor_id == want.monitor_id,
        next_video(cur, want).path == want.path,
        next_video(cur, want).geom == want.geom,
{
    if !needs_set(cur, want) {
        let i = video_place(cur, want.monitor_id)->0;
        let p = |v: VideoText| v.monitor_id == want.monitor_id;
        assert(lists::is_first(cur, p, i));
    }
}

proof fn lemma_nothing_to_start(cur: Seq<VideoText>, want: Seq<VideoText>, n: int)
    requires
        0 <= n <= want.len(),
        forall|i: int| 0 <= i < want.len() ==> !needs_set(cur, #[trigger] want[i]),
    ensures
        starts(cur, want.subrange(0, n)) == Seq::<CmdText>::empty(),
    decreases n,
{
    if n > 0 {
        lemma_nothing_to_start(cur, want, n - 1);
        assert(want.subrange(0, n).drop_last() =~= want.subrange(0, n - 1));
        assert(want.subrange(0, n).last() == want[n - 1]);
    }
}

proof fn lemma_nothing_to_remove(cur: Seq<VideoText>, want: Seq<VideoText>, n: int)
    requires
        0 <= n <= cur.len(),
        forall|i: int| 0 <= i < cur.len() ==> video_place(want, (#[trigger] cur[i]).monitor_id) is Some,
    ensures
        removals(cur.subrange(0, n), want) == Seq::<CmdText>::empty(),
    decreases n,
{
    if n > 0 {
        lemma_nothing_to_remove(cur, want, n - 1);
        assert(cur.subrange(0, n).drop_last() =~= cur.subrange(0, n - 1));
        assert(cur.subrange(0, n).last() == cur[n - 1]);
    }
}

/// Fits the movie of a monitor in another way: the player is told, and what it plays is
/// kept up to date.
pub fn daemon_set_fit(cur: &mut Vec<VideoEntry>, monitor_id: &str, fit: &str) -> (r: DaemonCmd)
    ensures
        r@ == CmdText::SetFit(monitor_id@, fit@),
        video_texts(final(cur)@) == (match video_place(video_texts(old(cur)@), monitor_id@) {
            Some(i) => video_texts(old(cur)@).update(
                i,
                VideoText { fit: fit@, ..video_texts(old(cur)@)[i] },
            ),
            None => video_texts(old(cur)@),
        }),
{
    let ghost before = video_texts(cur@);
    if let Some(i) = find_video(cur, monitor_id) {
        cur[i].fit = fit.to_owned();
        assert(video_texts(cur@) =~= before.update(i as int, VideoText { fit: fit@, ..before[i as int] }));
    }
    DaemonCmd::SetFit { monitor_id: monitor_id.to_owned(), fit: fit.to_owned() }
}

// ---------------------------------------------------------------------------
// Pausing
// ---------------------------------------------------------------------------

/// Whether the movie of a monitor is paused.
pub struct PauseEntry {
    pub monitor_id: String,
    pub paused: bool,
}

/// Whether the movies of monitors are paused, by their ids.
pub open spec fn pauses(v: Seq<PauseEntry>) -> Seq<(Seq<char>, bool)> {
    Seq::new(v.len(), |i: int| (v[i].monitor_id@, v[i].paused))
}

/// What is known of a monitor: the last entry with its id.
pub open spec fn pause_of(ps: Seq<(Seq<char>, bool)>, id: Seq<char>) -> Option<bool>
    decreases ps.len(),
{
    if ps.len() == 0 {
        None
    } else if ps.last().0 == id {
        Some(ps.last().1)
    } else {
        pause_of(ps.drop_last(), id)
    }
}

fn find_pause(ps: &Vec<PauseEntry>, id: &str) -> (r: Option<bool>)
    ensures
        r == pause_of(pauses(ps@), id@),
{
    let ghost all = pauses(ps@);
    let mut i: usize = ps.len();
    assert(all.subrange(0, all.len() as int) =~= all);
    while i > 0
        invariant
            i <= ps.len(),
            all == pauses(ps@),
            pause_of(all, id@) == pause_of(all.subrange(0, i as int), id@),
        decreases i,
    {
        assert(all.subrange(0, i as int).drop_last() =~= all.subrange(0, i - 1));
        assert(all.subrange(0, i as int).last() == (ps@[i - 1].monitor_id@, ps@[i - 1].paused));
        if str_eq(ps[i - 1].monitor_id.as_str(), id) {
            return Some(ps[i - 1].paused);
        }
        i = i - 1;
    }
    None
}

/// A monitor that is looked at to see whether a window covers it.
pub struct PauseCheck {
    pub monitor_id: String,
    pub origin: (i32, i32),
    pub size: (u32, u32),
}

/// The monitor with an id.
pub open spec fn monitor_place(ms: Seq<controller::MonitorText>, id: Seq<char>) -> Option<int> {
    lists::first_where(ms, |m: controller::MonitorText| m.id == id)
}

fn find_monitor(monitors: &Vec<MonitorInfo>, id: &str) -> (r: Option<usize>)
    ensures
        match r {
            Some(i) => monitor_place(controller::monitor_texts(monitors@), id@) == Some(i as int) && i
                < monitors@.len(),
            None => monitor_place(controller::monitor_texts(monitors@), id@) is None,
        },
{
    let ghost ms = controller::monitor_texts(monitors@);
    let ghost p = |m: controller::MonitorText| m.id == id@;
    let mut i: usize = 0;
    while i < monitors.len()
        invariant
            i <= monitors.len(),
            ms == controller::monitor_texts(monitors@),
            p == (|m: controller::MonitorText| m.id == id@),
            forall|j: int| 0 <= j < i ==> !p(#[trigger] ms[j]),
        decreases monitors.len() - i,
    {
        if str_eq(monitors[i].id.as_str(), id) {
            proof {
                lists::lemma_first(ms, p, i as int);
            }
            return Some(i);
        }
        assert(!p(ms[i as int]));
        i = i + 1;
    }
    proof {
        lists::lemma_no_first(ms, p);
    }
    None
}

/// Where a monitor that plays a movie is, as far as it is known.
pub open spec fn check_of(ms: Seq<controller::MonitorText>, id: Seq<char>) -> Option<
    (Seq<char>, (i32, i32), (u32, u32)),
> {
    match monitor_place(ms, id) {
        Some(i) => Some((id, ms[i].position, ms[i].resolution)),
        None => None,
    }
}

/// Where the monitors that play movies are, as far as they are known.
pub open spec fn checks_of(videos: Seq<VideoText>, ms: Seq<controller::MonitorText>) -> Seq<
    (Seq<char>, (i32, i32), (u32, u32)),
>
    decreases videos.len(),
{
    if videos.len() == 0 {
        Seq::empty()
    } else {
        controller::with(checks_of(videos.drop_last(), ms), check_of(ms, videos.last().monitor_id))
    }
}

/// The checks of a list, by the texts they hold.
pub open spec fn check_texts(v: Seq<PauseCheck>) -> Seq<(Seq<char>, (i32, i32), (u32, u32))> {
    Seq::new(v.len(), |i: int| (v[i].monitor_id@, v[i].origin, v[i].size))
}

/// The monitors that are looked at to see whether their movies have to pause.
pub fn pause_checks(videos: &Vec<VideoEntry>, monitors: &Vec<MonitorInfo>) -> (r: Vec<PauseCheck>)
    ensures
        check_texts(r@) == checks_of(video_texts(videos@), controller::monitor_texts(monitors@)),
{
    let ghost vs = video_texts(videos@);
    let ghost ms = controller::monitor_texts(monitors@);
    let mut r: Vec<PauseCheck> = Vec::new();
    let mut i: usize = 0;
    assert(vs.subrange(0, 0) =~= Seq::empty());
    assert(check_texts(r@) =~= Seq::empty());
    while i < videos.len()
        invariant
            i <= videos.len(),
            vs == video_texts(videos@),
            ms == controller::monitor_texts(monitors@),
            check_texts(r@) == checks_of(vs.subrange(0, i as int), ms),
        decreases videos.len() - i,
    {
        assert(vs.subrange(0, i + 1).drop_last() =~= vs.subrange(0, i as int));
        assert(vs.subrange(0, i + 1).last() == videos@[i as int]@);
        if let Some(k) = find_monitor(monitors, videos[i].monitor_id.as_str()) {
            assert(ms[k as int] == monitors@[k as int]@);
            let c = PauseCheck {
                monitor_id: videos[i].monitor_id.clone(),
                origin: monitors[k].position,
                size: monitors[k].resolution,
            };
            let ghost before = check_texts(r@);
            let ghost ct = (c.monitor_id@, c.origin, c.size);
            r.push(c);
            assert(check_texts(r@) =~= before.push(ct));
        }
        i = i + 1;
    }
    assert(vs.subrange(0, i as int) =~= vs);
    r
}

/// The movies whose pause has to change: those that are covered and play, or the
/// reverse.
pub open spec fn pause_changes(known: Seq<(Seq<char>, bool)>, covered: Seq<(Seq<char>, bool)>) -> Seq<CmdText>
    decreases covered.len(),
{
    if covered.len() == 0 {
        Seq::empty()
    } else if pause_of(known, covered.last().0) != Some(covered.last().1) {
        pause_changes(known, covered.drop_last()).push(
            CmdText::SetPaused(covered.last().0, covered.last().1),
        )
    } else {
        pause_changes(known, covered.drop_last())
    }
}

/// What is still known of the monitors of a list that play movies.
pub open spec fn still_known(known: Seq<(Seq<char>, bool)>, videos: Seq<VideoText>) -> Seq<(Seq<char>, bool)>
    decreases known.len(),
{
    if known.len() == 0 {
        Seq::empty()
    } else if video_place(videos, known.last().0) is Some {
        still_known(known.drop_last(), videos).push(known.last())
    } else {
        still_known(known.drop_last(), videos)
    }
}

fn keep_known(known: &Vec<PauseEntry>, videos: &Vec<VideoEntry>) -> (r: Vec<PauseEntry>)
    ensures
        pauses(r@) == still_known(pauses(known@), video_texts(videos@)),
{
    let ghost all = pauses(known@);
    let ghost vs = video_texts(videos@);
    let mut r: Vec<PauseEntry> = Vec::new();
    let mut i: usize = 0;
    assert(all.subrange(0, 0) =~= Seq::empty());
    assert(pauses(r@) =~= Seq::empty());
    while i < known.len()
        invariant
            i <= known.len(),
            all == pauses(known@),
            vs == video_texts(videos@),
            pauses(r@) == still_known(all.subrange(0, i as int), vs),
        decreases known.len() - i,
    {
        assert(all.subrange(0, i + 1).drop_last() =~= all.subrange(0, i as int));
        assert(all.subrange(0, i + 1).last() == (known@[i as int].monitor_id@, known@[i as int].paused));
        if find_video(videos, known[i].monitor_id.as_str()).is_some() {
            let e = PauseEntry { monitor_id: known[i].monitor_id.clone(), paused: known[i].paused };
            let ghost before = pauses(r@);
            let ghost et = (e.monitor_id@, e.paused);
            r.push(e);
            assert(pauses(r@) =~= before.push(et));
        }
        i = i + 1;
    }
    assert(all.subrange(0, i as int) =~= all);
    r
}

/// What is known of monitors that were not looked at.
pub open spec fn not_checked(known: Seq<(Seq<char>, bool)>, covered: Seq<(Seq<char>, bool)>) -> Seq<
    (Seq<char>, bool),
>
    decreases known.len(),
{
    if known.len() == 0 {
        Seq::empty()
    } else if pause_of(covered, known.last().0) is None {
        not_checked(known.drop_last(), covered).push(known.last())
    } else {
        not_checked(known.drop_last(), covered)
    }
}

fn keep_not_checked(known: &Vec<PauseEntry>, covered: &Vec<PauseEntry>) -> (r: Vec<PauseEntry>)
    ensures
        pauses(r@) == not_checked(pauses(known@), pauses(covered@)),
{
    let ghost all = pauses(known@);
    let ghost cs = pauses(covered@);
    let mut r: Vec<PauseEntry> = Vec::new();
    let mut i: usize = 0;
    assert(all.subrange(0, 0) =~= Seq::empty());
    assert(pauses(r@) =~= Seq::empty());
    while i < known.len()
        invariant
            i <= known.len(),
            all == pauses(known@),
            cs == pauses(covered@),
            pauses(r@) == not_checked(all.subrange(0, i as int), cs),
        decreases known.len() - i,
    {
        assert(all.subrange(0, i + 1).drop_last() =~= all.subrange(0, i as int));
        assert(all.subrange(0, i + 1).last() == (known@[i as int].monitor_id@, known@[i as int].paused));
        if find_pause(covered, known[i].monitor_id.as_str()).is_none() {
            let e = PauseEntry { monitor_id: known[i].monitor_id.clone(), paused: known[i].paused };
            let ghost before = pauses(r@);
            let ghost et = (e.monitor_id@, e.paused);
            r.push(e);
            assert(pauses(r@) =~= before.push(et));
        }
        i = i + 1;
    }
    assert(all.subrange(0, i as int) =~= all);
    r
}

/// Pauses the movies that a full-screen window covers and resumes the others. `covered`
/// says of the monitors that were looked at, each once, whether they are covered. The
/// player is told what changed; what is known of monitors without a movie is forgotten.
pub fn update_video_pause(known: &mut Vec<PauseEntry>, videos: &Vec<VideoEntry>, covered: Vec<PauseEntry>) -> (r:
    Vec<DaemonCmd>)
    ensures
        videos@.len() == 0 ==> final(known)@.len() == 0 && r@.len() == 0,
        videos@.len() > 0 ==> ({
            let kept = still_known(pauses(old(known)@), video_texts(videos@));
            &&& pauses(final(known)@) == not_checked(kept, pauses(covered@)) + pauses(covered@)
            &&& cmd_texts(r@) == pause_changes(kept, pauses(covered@))
        }),
{
    let mut r: Vec<DaemonCmd> = Vec::new();
    if videos.len() == 0 {
        known.clear();
        return r;
    }
    let kept = keep_known(known, videos);
    let ghost before = pauses(kept@);
    let ghost all = pauses(covered@);
    let mut i: usize = 0;
    assert(all.subrange(0, 0) =~= Seq::empty());
    assert(cmd_texts(r@) =~= Seq::empty());
    while i < covered.len()
        invariant
            i <= covered.len(),
            before == pauses(kept@),
            all == pauses(covered@),
            cmd_texts(r@) == pause_changes(before, all.subrange(0, i as int)),
        decreases covered.len() - i,
    {
        assert(all.subrange(0, i + 1).drop_last() =~= all.subrange(0, i as int));
        assert(all.subrange(0, i + 1).last() == (covered@[i as int].monitor_id@, covered@[i as int].paused));
        let paused = covered[i].paused;
        let same: bool = match find_pause(&kept, covered[i].monitor_id.as_str()) {
            Some(p) => p == paused,
            None => false,
        };
        if !same {
            push_cmd(
                &mut r,
                DaemonCmd::SetPaused { monitor_id: covered[i].monitor_id.clone(), paused },
            );
        }
        i = i + 1;
    }
    assert(all.subrange(0, i as int) =~= all);
    let mut next = keep_not_checked(&kept, &covered);
    let ghost rest = pauses(next@);
    let mut covered = covered;
    next.append(&mut covered);
    assert(pauses(next@) =~= rest + all);
    *known = next;
    r
}

/// No monitor is looked at twice, and none that plays no movie.
pub proof fn law_monitors_are_looked_at_once(videos: Seq<VideoText>, ms: Seq<controller::MonitorText>)
    requires
        distinct_ids(videos),
    ensures
        ({
            let checks = checks_of(videos, ms);
            &&& forall|i: int, j: int|
                0 <= i < checks.len() && 0 <= j < checks.len() && i != j ==> (#[trigger] checks[i]).0 != (
                #[trigger] checks[j]).0
            &&& forall|i: int| 0 <= i < checks.len() ==> video_place(videos, (#[trigger] checks[i]).0) is Some
        }),
    decreases videos.len(),
{
    if videos.len() > 0 {
        let rest = videos.drop_last();
        let last = videos.last();
        let checks = checks_of(videos, ms);
        law_monitors_are_looked_at_once(rest, ms);
        assert(videos[videos.len() - 1] == last);
        assert forall|i: int| 0 <= i < checks.len() implies video_place(videos, (#[trigger] checks[i]).0) is Some by {
            let id = checks[i].0;
            let p = |v: VideoText| v.monitor_id == id;
            if i < checks_of(rest, ms).len() {
                let k = video_place(rest, id)->0;
                assert(lists::is_first(rest, p, k));
                lists::lemma_some_first(videos, p, k);
            } else {
                lists::lemma_some_first(videos, p, videos.len() - 1);
            }
        }
        assert forall|i: int| 0 <= i < checks_of(rest, ms).len() implies (#[trigger] checks_of(rest, ms)[i]).0
            != last.monitor_id by {
            let id = checks_of(rest, ms)[i].0;
            let p = |v: VideoText| v.monitor_id == id;
            let k = video_place(rest, id)->0;
            assert(lists::is_first(rest, p, k));
            assert(videos[k].monitor_id == id);
        }
    }
}

/// The player is told only what changed: when the same monitors are found covered or not
/// a second time, it is told nothing.
pub proof fn law_pauses_are_told_once(
    known: Seq<(Seq<char>, bool)>,
    videos: Seq<VideoText>,
    covered: Seq<(Seq<char>, bool)>,
)
    requires
        forall|i: int, j: int|
            0 <= i < covered.len() && 0 <= j < covered.len() && i != j ==> (#[trigger] covered[i]).0 != (
            #[trigger] covered[j]).0,
        forall|i: int| 0 <= i < covered.len() ==> video_place(videos, (#[trigger] covered[i]).0) is Some,
    ensures
        ({
            let next = not_checked(still_known(known, videos), covered) + covered;
            pause_changes(still_known(next, videos), covered) == Seq::<CmdText>::empty()
        }),
{
    let rest = not_checked(still_known(known, videos), covered);
    lemma_all_still_known(rest, videos, covered, covered.len() as int);
    assert(covered.subrange(0, covered.len() as int) =~= covered);
    let kept = still_known(rest, videos);
    assert forall|i: int| 0 <= i < covered.len() implies pause_of(kept + covered, (#[trigger] covered[i]).0)
        == Some(covered[i].1) by {
        lemma_last_known(kept, covered, i, covered.len() as int);
    }
    lemma_no_changes(kept + covered, covered, covered.len() as int);
}

proof fn lemma_all_still_known(
    rest: Seq<(Seq<char>, bool)>,
    videos: Seq<VideoText>,
    covered: Seq<(Seq<char>, bool)>,
    n: int,
)
    requires
        0 <= n <= covered.len(),
        forall|i: int| 0 <= i < covered.len() ==> video_place(videos, (#[trigger] covered[i]).0) is Some,
    ensures
        still_known(rest + covered.subrange(0, n), videos) == still_known(rest, videos) + covered.subrange(0, n),
    decreases n,
{
    if n > 0 {
        lemma_all_still_known(rest, videos, covered, n - 1);
        let s = rest + covered.subrange(0, n);
        assert(s.last() == covered[n - 1]);
        assert(s.drop_last() =~= rest + covered.subrange(0, n - 1));
        assert((still_known(rest, videos) + covered.subrange(0, n - 1)).push(covered[n - 1]) =~= still_known(
            rest,
            videos,
        ) + covered.subrange(0, n));
    } else {
        assert(rest + covered.subrange(0, 0) =~= rest);
        assert(still_known(rest, videos) + covered.subrange(0, 0) =~= still_known(rest, videos));
    }
}

proof fn lemma_last_known(kept: Seq<(Seq<char>, bool)>, covered: Seq<(Seq<char>, bool)>, i: int, n: int)
    requires
        0 <= i < n <= covered.len(),
        forall|j: int| 0 <= j < covered.len() && i != j ==> (#[trigger] covered[j]).0 != covered[i].0,
    ensures
        pause_of(kept + covered.subrange(0, n), covered[i].0) == Some(covered[i].1),
    decreases n,
{
    let s = kept + covered.subrange(0, n);
    assert(s.last() == covered[n - 1]);
    assert(s.drop_last() =~= kept + covered.subrange(0, n - 1));
    if n - 1 != i {
        lemma_last_known(kept, covered, i, n - 1);
    }
}

proof fn lemma_no_changes(known: Seq<(Seq<char>, bool)>, covered: Seq<(Seq<char>, bool)>, n: int)
    requires
        0 <= n <= covered.len(),
        forall|i: int| 0 <= i < covered.len() ==> pause_of(known, (#[trigger] covered[i]).0) == Some(covered[i].1),
    ensures
        pause_changes(known, covered.subrange(0, n)) == Seq::<CmdText>::empty(),
    decreases n,
{
    if n > 0 {
        lemma_no_changes(known, covered, n - 1);
        assert(covered.subrange(0, n).drop_last() =~= covered.subrange(0, n - 1));
        assert(covered.subrange(0, n).last() == covered[n - 1]);
    }
}

// ---------------------------------------------------------------------------
// The player process
// ---------------------------------------------------------------------------

/// What becomes of a line that the player reads.
pub enum DaemonLine {
    /// The line is blank.
    Skip,
    /// The line holds a command.
    Parse(String),
    /// There are no more lines: the program that told the player what to do is gone.
    Shutdown,
}

/// What becomes of a line that the player reads, `None` at the end of its input.
pub fn next_line(line: Option<String>) -> (r: DaemonLine)
    ensures
        match line {
            Some(l) => if text::trim(l@).len() == 0 {
                r is Skip
            } else {
                r matches DaemonLine::Parse(t) && t == l
            },
            None => r is Shutdown,
        },
{
    match line {
        Some(l) => if trim_chars(&chars_of(l.as_str())).len() == 0 {
            DaemonLine::Skip
        } else {
            DaemonLine::Parse(l)
        },
        None => DaemonLine::Shutdown,
    }
}

/// What the player does.
pub enum PlayerAction {
    Nothing,
    /// Close the window of the monitor, if it has one, and open another.
    Open(VideoEntry),
    /// Close the window of a monitor.
    Close(String),
    /// Run a script in the window of a monitor.
    Script { monitor_id: String, script: String },
    /// End.
    Exit,
}

/// The script that fits a movie.
pub open spec fn fit_script(fit: Seq<char>) -> Seq<char> {
    "{var e=document.querySelector('video');if(e)e.style.objectFit='"@ + fit + "';}"@
}

/// The script that pauses or resumes a movie.
pub open spec fn pause_script(paused: bool) -> Seq<char> {
    if paused {
        "{var e=document.querySelector('video');if(e)e.pause();}"@
    } else {
        "{var e=document.querySelector('video');if(e)e.play();}"@
    }
}

/// What the player does when it is told something; `open` lists the monitors that have
/// a window.
pub fn run_video_daemon(open: &Vec<String>, cmd: DaemonCmd) -> (r: PlayerAction)
    ensures
        match cmd {
            DaemonCmd::SetVideo(e) => r matches PlayerAction::Open(x) && x == e,
            DaemonCmd::RemoveVideo(id) => if text::texts(open@).contains(id@) {
                r matches PlayerAction::Close(x) && x@ == id@
            } else {
                r is Nothing
            },
            DaemonCmd::SetFit { monitor_id, fit } => if text::texts(open@).contains(monitor_id@) {
                r matches PlayerAction::Script { monitor_id: id, script } && id@ == monitor_id@ && script@
                    == fit_script(fit@)
            } else {
                r is Nothing
            },
            DaemonCmd::SetPaused { monitor_id, paused } => if text::texts(open@).contains(monitor_id@) {
                r matches PlayerAction::Script { monitor_id: id, script } && id@ == monitor_id@ && script@
                    == pause_script(paused)
            } else {
                r is Nothing
            },
            DaemonCmd::Shutdown => r is Exit,
        },
{
    match cmd {
        DaemonCmd::SetVideo(e) => PlayerAction::Open(e),
        DaemonCmd::RemoveVideo(id) => if text::list_has(open, id.as_str()) {
            PlayerAction::Close(id)
        } else {
            PlayerAction::Nothing
        },
        DaemonCmd::SetFit { monitor_id, fit } => if text::list_has(open, monitor_id.as_str()) {
            let mut script = "{var e=document.querySelector('video');if(e)e.style.objectFit='".to_owned();
            script.append(fit.as_str());
            script.append("';}");
            PlayerAction::Script { monitor_id, script }
        } else {
            PlayerAction::Nothing
        },
        DaemonCmd::SetPaused { monitor_id, paused } => if text::list_has(open, monitor_id.as_str()) {
            let script = if paused {
                "{var e=document.querySelector('video');if(e)e.pause();}".to_owned()
            } else {
                "{var e=document.querySelector('video');if(e)e.play();}".to_owned()
            };
            PlayerAction::Script { monitor_id, script }
        } else {
            PlayerAction::Nothing
        },
        DaemonCmd::Shutdown => PlayerAction::Exit,
    }
}

// ---------------------------------------------------------------------------
// What can be relied on
// ---------------------------------------------------------------------------

/// Letters, digits, spaces, dashes and underscores stay in a folder name; every other
/// character becomes an underscore.
pub proof fn law_other_characters_become_underscores(c: char)
    ensures
        kept_char(c, true) == c,
        kept_char(' ', false) == ' ',
        kept_char('-', false) == '-',
        kept_char('_', false) == '_',
        c != ' ' && c != '-' ==> kept_char(c, false) == '_',
        text::unicode_alphanumeric(c) ==> safe_char(c) == c,
        !text::unicode_alphanumeric(c) && c != ' ' && c != '-' ==> safe_char(c) == '_',
{
}

/// What stands between white space, and within that between underscores, is the name of
/// the folder.
pub proof fn law_folder_names_stand_inside(
    front: Seq<char>,
    left: Seq<char>,
    s: Seq<char>,
    right: Seq<char>,
    behind: Seq<char>,
)
    requires
        s.len() > 0,
        !text::is_whitespace(s[0]) && s[0] != '_',
        !text::is_whitespace(s.last()) && s.last() != '_',
        forall|i: int| 0 <= i < front.len() ==> text::is_whitespace(#[trigger] front[i]),
        forall|i: int| 0 <= i < behind.len() ==> text::is_whitespace(#[trigger] behind[i]),
        forall|i: int| 0 <= i < left.len() ==> #[trigger] left[i] == '_',
        forall|i: int| 0 <= i < right.len() ==> #[trigger] right[i] == '_',
    ensures
        name_of_cleaned(front + (left + s + right) + behind) == s,
{
    let core = left + s + right;
    assert(core[0] == (if left.len() > 0 {
        left[0]
    } else {
        s[0]
    }));
    assert(core.last() == (if right.len() > 0 {
        right[right.len() - 1]
    } else {
        s.last()
    }));
    text::law_trimmed_texts_stay(front, core, behind);
    let set = seq!['_'];
    assert(set[0] == '_');
    assert(forall|c: char| set.contains(c) <==> c == '_');
    text::law_inner_texts_stay(left, s, right, set);
    let none = Seq::<char>::empty();
    assert(none + s + none =~= s);
    text::law_trimmed_texts_stay(none, s, none);
}

/// Where nothing but underscores is left, the folder is named after what it holds.
pub proof fn law_nameless_movies_get_a_name(cleaned: Seq<char>)
    requires
        forall|i: int| 0 <= i < cleaned.len() ==> #[trigger] cleaned[i] == '_',
    ensures
        name_of_cleaned(cleaned) == "video"@,
{
    let none = Seq::<char>::empty();
    let set = seq!['_'];
    assert(forall|c: char| set.contains(c) <==> c == '_') by {
        assert(set[0] == '_');
    }
    if cleaned.len() > 0 {
        assert(none + cleaned + none =~= cleaned);
        assert(cleaned[cleaned.len() - 1] == cleaned.last());
        text::law_trimmed_texts_stay(none, cleaned, none);
    } else {
        assert(text::trim(cleaned) == cleaned);
    }
    text::law_sets_are_taken_off(cleaned, set);
    let a = choose|a: int|
        0 <= a <= cleaned.len() && #[trigger] cleaned.subrange(a, cleaned.len() as int) == text::trim_start_of(
            cleaned,
            set,
        ) && (forall|i: int| 0 <= i < a ==> set.contains(#[trigger] cleaned[i])) && (a < cleaned.len()
            ==> !set.contains(cleaned[a]));
    assert(a == cleaned.len());
    assert(text::trim_start_of(cleaned, set) =~= none);
    assert(text::trim_end_of(none, set) == none);
    assert(text::trim(none) == none);
}

/// A movie is called as was typed, or as its file where nothing was.
pub proof fn law_movies_are_called_as_typed(typed: Seq<char>, stem: Seq<char>)
    ensures
        text::trim(typed).len() > 0 ==> movie_name(typed, Some(stem)) == safe_name(typed) && movie_name(typed, None)
            == safe_name(typed),
        text::trim(typed).len() == 0 ==> movie_name(typed, Some(stem)) == safe_name(stem) && movie_name(typed, None)
            == safe_name("video"@),
{
}

/// The extension of a video is kept in lower case.
pub proof fn law_extensions_are_kept(ext: Seq<char>, i: int)
    ensures
        video_extension(Some(ext)).len() == ext.len(),
        0 <= i < ext.len() ==> video_extension(Some(ext))[i] == text::lower(ext[i]),
        video_extension(None) == "mp4"@,
        extension_is(Some(ext), ext),
        extension_is(Some(video_extension(Some(ext))), ext),
        forall|other: Seq<char>| extension_is(Some(ext), other) ==> other.len() == ext.len(),
        !extension_is(None, ext),
{
    assert forall|k: int| 0 <= k < ext.len() implies text::lower(#[trigger] video_extension(Some(ext))[k])
        == text::lower(ext[k]) by {
        text::law_letters_have_two_cases(ext[k]);
        text::law_letters_have_two_cases(text::lower(ext[k]));
    }
}

/// The manifest of a movie names it and its file, in one line each; quotes in the name
/// become apostrophes.
pub proof fn law_movie_manifests_name_the_movie(name: Seq<char>, file: Seq<char>)
    ensures
        !name.contains('"') ==> movie_manifest(name, file) == "[wallpaper]\nname = \""@ + name
            + "\"\nauthor = \"\"\nversion = \"1.0.0\"\ntags = [\"video\"]\npasses = []\nvideo = \""@ + file + "\"\n"@,
        movie_manifest(name, file) == movie_manifest(
            Seq::new(
                name.len(),
                |i: int|
                    if name[i] == '"' {
                        '\''
                    } else {
                        name[i]
                    },
            ),
            file,
        ),
{
    reveal_strlit("'");
    let n = Seq::new(
        name.len(),
        |i: int|
            if name[i] == '"' {
                '\''
            } else {
                name[i]
            },
    );
    lemma_replaced(name, '"', "'"@, '\'');
    lemma_replaced(n, '"', "'"@, '\'');
    assert(text::replace_each(n, '"', "'"@) =~= text::replace_each(name, '"', "'"@));
    if !name.contains('"') {
        assert(text::replace_each(name, '"', "'"@) =~= name);
    }
}

proof fn lemma_replaced(s: Seq<char>, c: char, to: Seq<char>, d: char)
    requires
        to.len() == 1 && to[0] == d,
    ensures
        text::replace_each(s, c, to) == Seq::new(
            s.len(),
            |i: int|
                if s[i] == c {
                    d
                } else {
                    s[i]
                },
        ),
    decreases s.len(),
{
    let r = Seq::new(
        s.len(),
        |i: int|
            if s[i] == c {
                d
            } else {
                s[i]
            },
    );
    if s.len() > 0 {
        lemma_replaced(s.drop_last(), c, to, d);
    }
    assert(text::replace_each(s, c, to) =~= r);
}

/// The address of a file is its path with slashes for backslashes, behind three slashes;
/// separators in front of the path are left out.
pub proof fn law_addresses_have_slashes(path: Seq<char>)
    ensures
        path.len() == 0 || path[0] != '/' && path[0] != '\\' ==> url_of(path) == "file:///"@ + Seq::new(
            path.len(),
            |i: int|
                if path[i] == '\\' {
                    '/'
                } else {
                    path[i]
                },
        ),
        url_of(seq!['/'] + path) == url_of(path),
        url_of(seq!['\\'] + path) == url_of(path),
{
    reveal_strlit("/");
    let f = |s: Seq<char>|
        Seq::new(
            s.len(),
            |i: int|
                if s[i] == '\\' {
                    '/'
                } else {
                    s[i]
                },
        );
    lemma_replaced(path, '\\', "/"@, '/');
    lemma_replaced(seq!['/'] + path, '\\', "/"@, '/');
    lemma_replaced(seq!['\\'] + path, '\\', "/"@, '/');
    let set = seq!['/'];
    assert(set[0] == '/');
    assert(forall|c: char| set.contains(c) <==> c == '/');
    let a = text::replace_each(seq!['/'] + path, '\\', "/"@);
    let b = text::replace_each(seq!['\\'] + path, '\\', "/"@);
    let p = text::replace_each(path, '\\', "/"@);
    assert(a[0] == '/' && b[0] == '/');
    assert(a.subrange(1, a.len() as int) =~= p);
    assert(b.subrange(1, b.len() as int) =~= p);
}

/// The page of a movie shows it over the whole window, in a loop and without sound.
pub proof fn law_pages_play_in_a_loop()
    ensures
        PAGE_HEAD@
            == "<!doctype html><html><head><meta charset=\"utf-8\"><style>html,body{margin:0;height:100%;background:#000;overflow:hidden}video{position:fixed;inset:0;width:100%;height:100%;object-fit:"@,
        PAGE_MIDDLE@ == "}</style></head><body><video src=\""@,
        PAGE_TAIL@ == "\" autoplay loop muted playsinline preload=\"auto\"></video></body></html>"@,
{
}

/// A monitor plays the movie of its topmost layer that is one, fitted as that layer says,
/// where the monitor is; one without such a layer plays none.
pub proof fn law_topmost_movie_is_played(movies: Seq<Movie>, m: controller::MonitorText, k: int)
    ensures
        0 <= k < m.layers.len() && compositor::is_movie(movies, m.layers[k].path) && (forall|j: int|
            0 <= j < k ==> !compositor::is_movie(movies, (#[trigger] m.layers[j]).path)) ==> wanted_video(movies, m)
            == Some(
            VideoText {
                monitor_id: m.id,
                path: compositor::movie_file(movies, m.layers[k].path)->0,
                fit: compositor::object_fit(m.layers[k].positioning),
                geom: (m.position.0, m.position.1, m.resolution.0, m.resolution.1),
            },
        ),
        (forall|j: int| 0 <= j < m.layers.len() ==> !compositor::is_movie(movies, (#[trigger] m.layers[j]).path))
            ==> wanted_video(movies, m) is None,
{
    if 0 <= k < m.layers.len() && compositor::is_movie(movies, m.layers[k].path) && (forall|j: int|
        0 <= j < k ==> !compositor::is_movie(movies, (#[trigger] m.layers[j]).path)) {
        lemma_first_movie(movies, m.layers, k);
    }
    if forall|j: int| 0 <= j < m.layers.len() ==> !compositor::is_movie(movies, (#[trigger] m.layers[j]).path) {
        lemma_no_first_movie(movies, m.layers);
    }
}

proof fn lemma_first_movie(movies: Seq<Movie>, layers: Seq<controller::LayerText>, k: int)
    requires
        0 <= k < layers.len(),
        compositor::is_movie(movies, layers[k].path),
        forall|j: int| 0 <= j < k ==> !compositor::is_movie(movies, (#[trigger] layers[j]).path),
    ensures
        first_movie(movies, layers) == Some(
            (
                compositor::movie_file(movies, layers[k].path)->0,
                compositor::object_fit(layers[k].positioning),
            ),
        ),
    decreases layers.len(),
{
    if k > 0 {
        let rest = layers.subrange(1, layers.len() as int);
        assert(!compositor::is_movie(movies, layers[0].path));
        assert(rest[k - 1] == layers[k]);
        assert forall|j: int| 0 <= j < k - 1 implies !compositor::is_movie(movies, (#[trigger] rest[j]).path) by {
            assert(rest[j] == layers[j + 1]);
        }
        lemma_first_movie(movies, rest, k - 1);
    }
}

proof fn lemma_no_first_movie(movies: Seq<Movie>, layers: Seq<controller::LayerText>)
    requires
        forall|j: int| 0 <= j < layers.len() ==> !compositor::is_movie(movies, (#[trigger] layers[j]).path),
    ensures
        first_movie(movies, layers) is None,
    decreases layers.len(),
{
    if layers.len() > 0 {
        let rest = layers.subrange(1, layers.len() as int);
        assert(!compositor::is_movie(movies, layers[0].path));
        assert forall|j: int| 0 <= j < rest.len() implies !compositor::is_movie(
            movies,
            (#[trigger] rest[j]).path,
        ) by {
            assert(rest[j] == layers[j + 1]);
        }
        lemma_no_first_movie(movies, rest);
    }
}

/// What the player is to play is what the monitors want, and of monitors with one id what
/// the last of them wants.
pub proof fn law_wanted_movies_are_played(movies: Seq<Movie>, ms: Seq<controller::MonitorText>, i: int)
    requires
        0 <= i < ms.len(),
        wanted_video(movies, ms[i]) is Some,
        forall|j: int|
            i < j < ms.len() && (#[trigger] ms[j]).id == ms[i].id ==> wanted_video(movies, ms[j]) is None,
    ensures
        desired(movies, ms).contains(wanted_video(movies, ms[i])->0),
    decreases ms.len(),
{
    let d = ms.drop_last();
    let before = desired(movies, d);
    let v = wanted_video(movies, ms[i])->0;
    assert(ms[ms.len() - 1] == ms.last());
    if i == ms.len() - 1 {
        let r = put(before, v);
        let p = |x: VideoText| x.monitor_id == v.monitor_id;
        match video_place(before, v.monitor_id) {
            Some(k) => {
                assert(lists::is_first(before, p, k)) by {
                    lemma_place_is_first(before, p);
                }
                assert(r[k] == v);
            },
            None => {
                assert(r[before.len() as int] == v);
            },
        }
    } else {
        assert(d[i] == ms[i]);
        assert forall|j: int| i < j < d.len() && (#[trigger] d[j]).id == d[i].id implies wanted_video(movies, d[j])
            is None by {
            assert(ms[j] == d[j]);
        }
        law_wanted_movies_are_played(movies, d, i);
        let at = choose|at: int| 0 <= at < before.len() && before[at] == v;
        match wanted_video(movies, ms.last()) {
            Some(w) => {
                assert(ms.last().id != ms[i].id);
                assert(w.monitor_id == ms.last().id);
                assert(v.monitor_id == ms[i].id);
                let p = |x: VideoText| x.monitor_id == w.monitor_id;
                let r = put(before, w);
                match video_place(before, w.monitor_id) {
                    Some(k) => {
                        assert(lists::is_first(before, p, k)) by {
                            lemma_place_is_first(before, p);
                        }
                        assert(p(before[k]));
                        assert(k != at);
                        assert(r[at] == v);
                    },
                    None => {
                        assert(r[at] == v);
                    },
                }
            },
            None => {},
        }
    }
}

proof fn lemma_place_is_first(vs: Seq<VideoText>, p: spec_fn(VideoText) -> bool)
    ensures
        lists::first_where(vs, p) matches Some(k) ==> lists::is_first(vs, p, k),
{
    if exists|i: int| 0 <= i < vs.len() && p(#[trigger] vs[i]) {
        let i = choose|i: int| 0 <= i < vs.len() && p(#[trigger] vs[i]);
        lists::lemma_some_first(vs, p, i);
    } else {
        lists::lemma_no_first(vs, p);
    }
}

/// Nothing is played that no monitor wants.
pub proof fn law_only_wanted_movies_are_played(movies: Seq<Movie>, ms: Seq<controller::MonitorText>, v: VideoText)
    requires
        desired(movies, ms).contains(v),
    ensures
        exists|i: int| 0 <= i < ms.len() && wanted_video(movies, #[trigger] ms[i]) == Some(v),
    decreases ms.len(),
{
    let d = ms.drop_last();
    let before = desired(movies, d);
    let all = desired(movies, ms);
    let at = choose|at: int| 0 <= at < all.len() && all[at] == v;
    if before.contains(v) {
        law_only_wanted_movies_are_played(movies, d, v);
        let i = choose|i: int| 0 <= i < d.len() && wanted_video(movies, #[trigger] d[i]) == Some(v);
        assert(ms[i] == d[i]);
    } else {
        let w = wanted_video(movies, ms.last());
        assert(ms[ms.len() - 1] == ms.last());
        if w is Some {
            lemma_place_is_first(before, |x: VideoText| x.monitor_id == w->0.monitor_id);
            if at < before.len() {
                assert(all[at] == before[at] || all[at] == w->0);
            }
            assert(v == w->0);
        }
    }
}

/// A monitor is told to play where it plays nothing yet, another file or elsewhere, and
/// not where only the fit differs.
pub proof fn law_movies_are_set_where_they_differ(cur: Seq<VideoText>, want: VideoText, k: int)
    ensures
        (forall|j: int| 0 <= j < cur.len() ==> (#[trigger] cur[j]).monitor_id != want.monitor_id) ==> needs_set(
            cur,
            want,
        ) && next_video(cur, want) == want,
        0 <= k < cur.len() && cur[k].monitor_id == want.monitor_id && (forall|j: int|
            0 <= j < k ==> (#[trigger] cur[j]).monitor_id != want.monitor_id) ==> {
            &&& needs_set(cur, want) <==> cur[k].path != want.path || cur[k].geom != want.geom
            &&& needs_set(cur, want) ==> next_video(cur, want) == want
            &&& !needs_set(cur, want) ==> next_video(cur, want) == cur[k]
        },
{
    let p = |v: VideoText| v.monitor_id == want.monitor_id;
    if forall|j: int| 0 <= j < cur.len() ==> (#[trigger] cur[j]).monitor_id != want.monitor_id {
        assert(forall|j: int| 0 <= j < cur.len() ==> !p(#[trigger] cur[j]));
        lists::lemma_no_first(cur, p);
    }
    if 0 <= k < cur.len() && cur[k].monitor_id == want.monitor_id && (forall|j: int|
        0 <= j < k ==> (#[trigger] cur[j]).monitor_id != want.monitor_id) {
        assert(forall|j: int| 0 <= j < k ==> !p(#[trigger] cur[j]));
        lists::lemma_first(cur, p, k);
    }
}

/// The player is told to end the movies of monitors that want none, and to play what
/// differs, each in order.
pub proof fn law_player_is_told_what_differs(cur: Seq<VideoText>, want: Seq<VideoText>)
    ensures
        removals(cur, want) == cur.filter(|v: VideoText| !plays(want, v.monitor_id)).map_values(
            |v: VideoText| CmdText::RemoveVideo(v.monitor_id),
        ),
        starts(cur, want) == want.filter(|v: VideoText| needs_set(cur, v)).map_values(
            |v: VideoText| CmdText::SetVideo(v),
        ),
{
    lemma_removals(cur, want);
    lemma_starts(cur, want);
}

/// Whether an entry of a list is for the given monitor.
pub open spec fn plays(vs: Seq<VideoText>, id: Seq<char>) -> bool {
    exists|i: int| 0 <= i < vs.len() && (#[trigger] vs[i]).monitor_id == id
}

proof fn lemma_plays(vs: Seq<VideoText>, id: Seq<char>)
    ensures
        video_place(vs, id) is Some <==> plays(vs, id),
{
    let p = |v: VideoText| v.monitor_id == id;
    if plays(vs, id) {
        let i = choose|i: int| 0 <= i < vs.len() && (#[trigger] vs[i]).monitor_id == id;
        assert(p(vs[i]));
        lists::lemma_some_first(vs, p, i);
    } else {
        assert(forall|j: int| 0 <= j < vs.len() ==> !p(#[trigger] vs[j]));
        lists::lemma_no_first(vs, p);
    }
}

proof fn lemma_removals(cur: Seq<VideoText>, want: Seq<VideoText>)
    ensures
        removals(cur, want) == cur.filter(|v: VideoText| !plays(want, v.monitor_id)).map_values(
            |v: VideoText| CmdText::RemoveVideo(v.monitor_id),
        ),
    decreases cur.len(),
{
    reveal(Seq::filter);
    let p = |v: VideoText| !plays(want, v.monitor_id);
    let f = |v: VideoText| CmdText::RemoveVideo(v.monitor_id);
    if cur.len() > 0 {
        lemma_removals(cur.drop_last(), want);
        lemma_plays(want, cur.last().monitor_id);
    }
    assert(removals(cur, want) =~= cur.filter(p).map_values(f));
}

proof fn lemma_starts(cur: Seq<VideoText>, want: Seq<VideoText>)
    ensures
        starts(cur, want) == want.filter(|v: VideoText| needs_set(cur, v)).map_values(
            |v: VideoText| CmdText::SetVideo(v),
        ),
    decreases want.len(),
{
    reveal(Seq::filter);
    let p = |v: VideoText| needs_set(cur, v);
    let f = |v: VideoText| CmdText::SetVideo(v);
    if want.len() > 0 {
        lemma_starts(cur, want.drop_last());
    }
    assert(starts(cur, want) =~= want.filter(p).map_values(f));
}

/// What is known of a monitor is what the last entry with its id says.
pub proof fn law_last_pause_counts(before: Seq<(Seq<char>, bool)>, id: Seq<char>, paused: bool, after: Seq<(Seq<char>, bool)>)
    requires
        forall|i: int| 0 <= i < after.len() ==> (#[trigger] after[i]).0 != id,
    ensures
        pause_of(before.push((id, paused)) + after, id) == Some(paused),
        pause_of(after, id) is None,
    decreases after.len(),
{
    let all = before.push((id, paused)) + after;
    if after.len() > 0 {
        let d = after.drop_last();
        assert(forall|i: int| 0 <= i < d.len() ==> #[trigger] d[i] == after[i]);
        assert(after[after.len() - 1] == after.last());
        law_last_pause_counts(before, id, paused, d);
        assert(all.drop_last() =~= before.push((id, paused)) + d);
        assert(all.last() == after.last());
    } else {
        assert(all =~= before.push((id, paused)));
        assert(all.last() == (id, paused));
    }
}

/// A monitor that plays a movie is looked at where it is: the first monitor with its id.
pub proof fn law_monitors_are_looked_at_where_they_are(videos: Seq<VideoText>, ms: Seq<controller::MonitorText>, id: Seq<char>, k: int)
    ensures
        checks_of(videos, ms) == videos.filter_map(|v: VideoText| check_of(ms, v.monitor_id)),
        0 <= k < ms.len() && ms[k].id == id && (forall|j: int| 0 <= j < k ==> (#[trigger] ms[j]).id != id)
            ==> check_of(ms, id) == Some((id, ms[k].position, ms[k].resolution)),
        (forall|j: int| 0 <= j < ms.len() ==> (#[trigger] ms[j]).id != id) ==> check_of(ms, id) is None,
    decreases videos.len(),
{
    let f = |v: VideoText| check_of(ms, v.monitor_id);
    if videos.len() > 0 {
        let d = videos.drop_last();
        law_monitors_are_looked_at_where_they_are(d, ms, id, k);
        match f(videos.last()) {
            Some(c) => {
                assert(d.filter_map(f) + seq![c] =~= d.filter_map(f).push(c));
            },
            None => {},
        }
    } else {
        assert(checks_of(videos, ms) =~= videos.filter_map(f));
    }
    let p = |m: controller::MonitorText| m.id == id;
    if 0 <= k < ms.len() && ms[k].id == id && (forall|j: int| 0 <= j < k ==> (#[trigger] ms[j]).id != id) {
        assert(forall|j: int| 0 <= j < k ==> !p(#[trigger] ms[j]));
        lists::lemma_first(ms, p, k);
    }
    if forall|j: int| 0 <= j < ms.len() ==> (#[trigger] ms[j]).id != id {
        assert(forall|j: int| 0 <= j < ms.len() ==> !p(#[trigger] ms[j]));
        lists::lemma_no_first(ms, p);
    }
}

/// The player is told to pause or to go on exactly for the monitors of which something
/// else is known, or nothing.
pub proof fn law_changed_pauses_are_told(known: Seq<(Seq<char>, bool)>, covered: Seq<(Seq<char>, bool)>)
    ensures
        pause_changes(known, covered) == covered.filter(
            |c: (Seq<char>, bool)| pause_of(known, c.0) != Some(c.1),
        ).map_values(|c: (Seq<char>, bool)| CmdText::SetPaused(c.0, c.1)),
    decreases covered.len(),
{
    reveal(Seq::filter);
    let p = |c: (Seq<char>, bool)| pause_of(known, c.0) != Some(c.1);
    let f = |c: (Seq<char>, bool)| CmdText::SetPaused(c.0, c.1);
    if covered.len() > 0 {
        law_changed_pauses_are_told(known, covered.drop_last());
    }
    assert(pause_changes(known, covered) =~= covered.filter(p).map_values(f));
}

/// What is known of monitors that play no movie any more is forgotten, and what was found
/// anew takes the place of what was known.
pub proof fn law_old_pauses_are_forgotten(
    known: Seq<(Seq<char>, bool)>,
    videos: Seq<VideoText>,
    covered: Seq<(Seq<char>, bool)>,
)
    ensures
        still_known(known, videos) == known.filter(|c: (Seq<char>, bool)| plays(videos, c.0)),
        not_checked(known, covered) == known.filter(|c: (Seq<char>, bool)| pause_of(covered, c.0) is None),
    decreases known.len(),
{
    reveal(Seq::filter);
    if known.len() > 0 {
        law_old_pauses_are_forgotten(known.drop_last(), videos, covered);
        lemma_plays(videos, known.last().0);
    }
}

/// The scripts fit, pause and resume the movie of the page.
pub proof fn law_scripts_say_what_they_do(fit: Seq<char>)
    ensures
        fit_script(fit) == "{var e=document.querySelector('video');if(e)e.style.objectFit='"@ + fit + "';}"@,
        pause_script(true) == "{var e=document.querySelector('video');if(e)e.pause();}"@,
        pause_script(false) == "{var e=document.querySelector('video');if(e)e.play();}"@,
{
}

} // verus!
