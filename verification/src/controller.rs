//! The library of wallpapers and the monitors that show them.
use vstd::prelude::*;
use crate::archive;
use crate::archive::{is_plain, open_zip, zip_heading, zip_len, zip_read, zip_read_text, ArchiveEntry};
use crate::lists;
use crate::manifest::{Bits32, WallpaperInfo, ONE_BITS};
use crate::paths;
use crate::paths::{join_opt, Location};
use crate::renderer::Rect32;
use crate::text;
use crate::text::{
    chars_of, copy_strings, decimal_of, is_ending, is_text_at, lines_of, list_has, split_chars,
    split_text, str_eq, str_to_lowercase, string_of, sub_chars, trim_chars, trim_end_set, trim_start_set, drop_endings,
};

verus! {

broadcast use vstd::string::group_string_axioms;

// ---------------------------------------------------------------------------
// Layers and monitors
// ---------------------------------------------------------------------------

/// A wallpaper that is assigned to a monitor, and how it is shown.
pub struct LayerInfo {
    pub wallpaper_path: Location,
    pub name: String,
    pub opacity: Bits32,
    pub resolution_scale: Bits32,
    /// `Fill`, `Fit`, `Stretch`, `Center` or `Custom`.
    pub positioning: String,
    /// The place on the monitor, where the positioning is `Custom`.
    pub transform: Rect32,
    pub visible: bool,
    /// `normal`, `additive`, `multiply` or `screen`.
    pub blend_mode: String,
}

/// A layer, by the texts it holds.
#[verifier::ext_equal]
pub struct LayerText {
    pub path: Seq<Seq<char>>,
    pub name: Seq<char>,
    pub opacity: Bits32,
    pub scale: Bits32,
    pub positioning: Seq<char>,
    pub transform: Rect32,
    pub visible: bool,
    pub blend: Seq<char>,
}

impl View for LayerInfo {
    type V = LayerText;

    open spec fn view(&self) -> LayerText {
        LayerText {
            path: self.wallpaper_path@,
            name: self.name@,
            opacity: self.opacity,
            scale: self.resolution_scale,
            positioning: self.positioning@,
            transform: self.transform,
            visible: self.visible,
            blend: self.blend_mode@,
        }
    }
}

/// The layers of a list.
pub open spec fn layer_texts(v: Seq<LayerInfo>) -> Seq<LayerText> {
    Seq::new(v.len(), |i: int| v[i]@)
}

/// Whether a layer is shown, where its settings do not say.
pub fn default_true() -> (r: bool)
    ensures
        r,
{
    true
}

/// How a layer is blended, where its settings do not say.
pub fn default_blend() -> (r: String)
    ensures
        r@ == "normal"@,
{
    "normal".to_owned()
}

/// The whole of a monitor: from the corner, one wide and one high.
pub open spec fn whole() -> Rect32 {
    Rect32 { x: Bits32(0), y: Bits32(0), w: Bits32(ONE_BITS), h: Bits32(ONE_BITS) }
}

/// The layer of a wallpaper that was just assigned.
pub open spec fn fresh_layer(path: Seq<Seq<char>>, name: Seq<char>) -> LayerText {
    LayerText {
        path,
        name,
        opacity: Bits32(ONE_BITS),
        scale: Bits32(ONE_BITS),
        positioning: "Fill"@,
        transform: whole(),
        visible: true,
        blend: "normal"@,
    }
}

impl Default for LayerInfo {
    fn default() -> (r: LayerInfo)
        ensures
            r@ == fresh_layer(Seq::empty(), Seq::empty()),
    {
        let r = LayerInfo {
            wallpaper_path: Location { parts: Vec::new() },
            name: String::new(),
            opacity: Bits32(ONE_BITS),
            resolution_scale: Bits32(ONE_BITS),
            positioning: "Fill".to_owned(),
            transform: Rect32 { x: Bits32(0), y: Bits32(0), w: Bits32(ONE_BITS), h: Bits32(ONE_BITS) },
            visible: default_true(),
            blend_mode: default_blend(),
        };
        assert(r@.path =~= Seq::empty());
        assert(r@.name =~= Seq::empty());
        r
    }
}

impl LayerInfo {
    /// A copy.
    pub fn copy(&self) -> (r: LayerInfo)
        ensures
            r@ == self@,
    {
        LayerInfo {
            wallpaper_path: self.wallpaper_path.copy(),
            name: self.name.clone(),
            opacity: self.opacity,
            resolution_scale: self.resolution_scale,
            positioning: self.positioning.clone(),
            transform: self.transform,
            visible: self.visible,
            blend_mode: self.blend_mode.clone(),
        }
    }
}

/// A copy of a list of layers.
pub fn copy_layers(v: &Vec<LayerInfo>) -> (r: Vec<LayerInfo>)
    ensures
        layer_texts(r@) == layer_texts(v@),
{
    let mut r: Vec<LayerInfo> = Vec::new();
    let mut i: usize = 0;
    while i < v.len()
        invariant
            i <= v.len(),
            r@.len() == i,
            forall|j: int| 0 <= j < i ==> (#[trigger] r@[j])@ == v@[j]@,
        decreases v.len() - i,
    {
        r.push(v[i].copy());
        i = i + 1;
    }
    assert(layer_texts(r@) =~= layer_texts(v@));
    r
}

/// A monitor and what it shows.
pub struct MonitorInfo {
    pub id: String,
    pub name: String,
    /// `orange`, `blue`, `purple`, `emerald` or `rose`.
    pub color: String,
    pub resolution: (u32, u32),
    pub position: (i32, i32),
    pub is_primary: bool,
    /// The first layer is on top.
    pub layers: Vec<LayerInfo>,
}

/// A monitor, by the texts it holds.
#[verifier::ext_equal]
pub struct MonitorText {
    pub id: Seq<char>,
    pub name: Seq<char>,
    pub color: Seq<char>,
    pub resolution: (u32, u32),
    pub position: (i32, i32),
    pub is_primary: bool,
    pub layers: Seq<LayerText>,
}

impl View for MonitorInfo {
    type V = MonitorText;

    open spec fn view(&self) -> MonitorText {
        MonitorText {
            id: self.id@,
            name: self.name@,
            color: self.color@,
            resolution: self.resolution,
            position: self.position,
            is_primary: self.is_primary,
            layers: layer_texts(self.layers@),
        }
    }
}

/// The monitors of a list.
pub open spec fn monitor_texts(v: Seq<MonitorInfo>) -> Seq<MonitorText> {
    Seq::new(v.len(), |i: int| v[i]@)
}

/// The state of the program.
pub struct AppState {
    pub wallpapers: Vec<WallpaperEntry>,
    pub monitors: Vec<MonitorInfo>,
    /// `system`, `dark` or `light`.
    pub theme_mode: String,
    pub span_monitors: bool,
    pub autostart: bool,
}

impl Default for AppState {
    fn default() -> (r: AppState)
        ensures
            r.wallpapers@.len() == 0,
            r.monitors@.len() == 0,
            r.theme_mode@ == "system"@,
            !r.span_monitors,
            !r.autostart,
    {
        AppState {
            wallpapers: Vec::new(),
            monitors: Vec::new(),
            theme_mode: "system".to_owned(),
            span_monitors: false,
            autostart: false,
        }
    }
}

/// The place of the monitor that the system marks as primary, else of the one at the
/// origin of the desktop, else of the first.
pub open spec fn primary_index(ms: Seq<MonitorText>) -> Option<int> {
    match lists::first_where(ms, |m: MonitorText| m.is_primary) {
        Some(i) => Some(i),
        None => match lists::first_where(ms, |m: MonitorText| m.position == (0i32, 0i32)) {
            Some(i) => Some(i),
            None => if ms.len() > 0 {
                Some(0)
            } else {
                None
            },
        },
    }
}

/// The place of the primary monitor.
pub fn primary_position(monitors: &Vec<MonitorInfo>) -> (r: Option<usize>)
    ensures
        match r {
            Some(i) => primary_index(monitor_texts(monitors@)) == Some(i as int) && i < monitors@.len(),
            None => primary_index(monitor_texts(monitors@)) is None && monitors@.len() == 0,
        },
{
    let ghost ms = monitor_texts(monitors@);
    let ghost marked = |m: MonitorText| m.is_primary;
    let ghost at_origin = |m: MonitorText| m.position == (0i32, 0i32);
    let mut i: usize = 0;
    while i < monitors.len()
        invariant
            i <= monitors.len(),
            ms == monitor_texts(monitors@),
            marked == (|m: MonitorText| m.is_primary),
            forall|j: int| 0 <= j < i ==> !marked(#[trigger] ms[j]),
        decreases monitors.len() - i,
    {
        if monitors[i].is_primary {
            proof {
                lists::lemma_first(ms, marked, i as int);
            }
            return Some(i);
        }
        assert(!marked(ms[i as int]));
        i = i + 1;
    }
    proof {
        lists::lemma_no_first(ms, marked);
    }
    let mut k: usize = 0;
    while k < monitors.len()
        invariant
            k <= monitors.len(),
            ms == monitor_texts(monitors@),
            marked == (|m: MonitorText| m.is_primary),
            at_origin == (|m: MonitorText| m.position == (0i32, 0i32)),
            lists::first_where(ms, marked) is None,
            forall|j: int| 0 <= j < k ==> !at_origin(#[trigger] ms[j]),
        decreases monitors.len() - k,
    {
        if monitors[k].position.0 == 0 && monitors[k].position.1 == 0 {
            proof {
                lists::lemma_first(ms, at_origin, k as int);
            }
            return Some(k);
        }
        assert(!at_origin(ms[k as int]));
        k = k + 1;
    }
    proof {
        lists::lemma_no_first(ms, at_origin);
    }
    if monitors.len() > 0 {
        Some(0)
    } else {
        None
    }
}

/// The primary monitor, whose layers are shown across all monitors in span mode.
pub fn primary_monitor<'a>(monitors: &'a Vec<MonitorInfo>) -> (r: Option<&'a MonitorInfo>)
    ensures
        match r {
            Some(m) => primary_index(monitor_texts(monitors@)) matches Some(i) && 0 <= i < monitors@.len()
                && *m == monitors@[i],
            None => monitors@.len() == 0,
        },
{
    match primary_position(monitors) {
        Some(i) => Some(&monitors[i]),
        None => None,
    }
}

/// What the system tells of a display.
#[derive(Clone, Copy)]
pub struct Display {
    pub width: u32,
    pub height: u32,
    pub x: i32,
    pub y: i32,
    pub is_primary: bool,
}

/// The monitor of the display with the given number.
pub open spec fn monitor_of(d: Display, i: nat) -> MonitorText {
    MonitorText {
        id: "monitor-"@ + text::decimal(i),
        name: "Display "@ + text::decimal(i + 1),
        color: Seq::empty(),
        resolution: (d.width, d.height),
        position: (d.x, d.y),
        is_primary: d.is_primary,
        layers: Seq::empty(),
    }
}

/// The monitors, numbered in the order in which the system lists the displays.
pub fn discover_monitors(displays: &Vec<Display>) -> (r: Vec<MonitorInfo>)
    requires
        displays@.len() < u64::MAX,
    ensures
        monitor_texts(r@) == Seq::new(displays@.len(), |i: int| monitor_of(displays@[i], i as nat)),
{
    let mut r: Vec<MonitorInfo> = Vec::new();
    let mut i: usize = 0;
    while i < displays.len()
        invariant
            displays@.len() < u64::MAX,
            i <= displays.len(),
            r@.len() == i,
            forall|j: int| 0 <= j < i ==> (#[trigger] r@[j])@ == monitor_of(displays@[j], j as nat),
        decreases displays.len() - i,
    {
        let mut id = "monitor-".to_owned();
        id.append(decimal_of(i as u64).as_str());
        let mut name = "Display ".to_owned();
        name.append(decimal_of(i as u64 + 1).as_str());
        let d = displays[i];
        let m = MonitorInfo {
            id,
            name,
            color: String::new(),
            resolution: (d.width, d.height),
            position: (d.x, d.y),
            is_primary: d.is_primary,
            layers: Vec::new(),
        };
        assert(m@ =~= monitor_of(displays@[i as int], i as nat));
        r.push(m);
        i = i + 1;
    }
    assert(monitor_texts(r@) =~= Seq::new(displays@.len(), |i: int| monitor_of(displays@[i], i as nat)));
    r
}

/// Different monitors get different ids.
pub proof fn law_monitor_ids_are_distinct(a: Display, i: nat, b: Display, j: nat)
    requires
        i != j,
    ensures
        monitor_of(a, i).id != monitor_of(b, j).id,
{
    let x = monitor_of(a, i).id;
    let y = monitor_of(b, j).id;
    let n = "monitor-"@.len() as int;
    assert(x.subrange(n, x.len() as int) =~= text::decimal(i));
    assert(y.subrange(n, y.len() as int) =~= text::decimal(j));
    text::lemma_decimal_value(i);
    text::lemma_decimal_value(j);
}

// ---------------------------------------------------------------------------
// The folders of the library
// ---------------------------------------------------------------------------

/// The thumbnail of a wallpaper stands in the folder of the wallpaper.
pub fn thumbnail_path(wallpaper_dir: &Location) -> (r: Location)
    ensures
        r@ == wallpaper_dir@.push("thumbnail.png"@),
{
    wallpaper_dir.join("thumbnail.png")
}

/// The folder of the user's content, inside the data folder of the system.
pub fn user_data_dir(data_dir: &Option<Location>) -> (r: Option<Location>)
    ensures
        paths::opt_view(r) == user_dir(paths::opt_view(*data_dir)),
{
    join_opt(data_dir, "Strata")
}

/// The folder of the user's content, inside the data folder of the system.
pub open spec fn user_dir(data: Option<Seq<Seq<char>>>) -> Option<Seq<Seq<char>>> {
    inner(data, "Strata"@)
}

/// The place `name` inside a place that may be missing.
pub open spec fn inner(base: Option<Seq<Seq<char>>>, name: Seq<char>) -> Option<Seq<Seq<char>>> {
    match base {
        Some(b) => Some(b.push(name)),
        None => None,
    }
}

/// Where the creations of the Parallax Studio are kept.
pub fn parallax_library_dir(data_dir: &Option<Location>) -> (r: Option<Location>)
    ensures
        paths::opt_view(r) == inner(user_dir(paths::opt_view(*data_dir)), "parallax-wallpapers"@),
{
    join_opt(&user_data_dir(data_dir), "parallax-wallpapers")
}

/// Where imported shaders are kept.
pub fn import_library_dir(data_dir: &Option<Location>) -> (r: Option<Location>)
    ensures
        paths::opt_view(r) == inner(user_dir(paths::opt_view(*data_dir)), "import"@),
{
    join_opt(&user_data_dir(data_dir), "import")
}

/// The folder `name`, in the working directory if it is there, else two levels up.
pub open spec fn near_or_up(here: bool, name: Seq<Seq<char>>) -> Seq<Seq<char>> {
    if here {
        name
    } else {
        seq![".."@, ".."@] + name
    }
}

fn upper_folder() -> (r: Location)
    ensures
        r@ == seq![".."@, ".."@],
{
    let none = Location { parts: Vec::new() };
    assert(none@ =~= Seq::empty());
    let r = none.join("..").join("..");
    assert(r@ =~= seq![".."@, ".."@]);
    r
}

/// The wallpapers that came with the program; `here` says whether there is such a
/// folder in the working directory.
pub fn bundled_library_dir(here: bool) -> (r: Location)
    ensures
        r@ == near_or_up(here, seq!["wallpapers"@]),
{
    let base = if here {
        Location { parts: Vec::new() }
    } else {
        upper_folder()
    };
    let r = base.join("wallpapers");
    assert(r@ =~= near_or_up(here, seq!["wallpapers"@]));
    r
}

/// Where the shaders of the downloaded library are.
pub fn fetched_library_dir(data_dir: &Option<Location>) -> (r: Option<Location>)
    ensures
        paths::opt_view(r) == inner(
            inner(user_dir(paths::opt_view(*data_dir)), "strata-library"@),
            "shader-library"@,
        ),
{
    join_opt(&fetched_library_root(data_dir), "shader-library")
}

/// Where the downloaded library is.
pub fn fetched_library_root(data_dir: &Option<Location>) -> (r: Option<Location>)
    ensures
        paths::opt_view(r) == inner(user_dir(paths::opt_view(*data_dir)), "strata-library"@),
{
    join_opt(&user_data_dir(data_dir), "strata-library")
}

/// Whether a shader was downloaded; `manifests` says of each entry of the downloaded
/// library whether it holds a manifest, and is missing where there is no such folder.
pub fn library_installed(manifests: &Option<Vec<bool>>) -> (r: bool)
    ensures
        r == (manifests matches Some(v) && v@.contains(true)),
{
    match manifests {
        Some(v) => {
            let mut i: usize = 0;
            while i < v.len()
                invariant
                    i <= v.len(),
                    *manifests == Some(*v),
                    forall|j: int| 0 <= j < i ==> !#[trigger] v@[j],
                decreases v.len() - i,
            {
                if v[i] {
                    assert(v@[i as int] == true);
                    return true;
                }
                i = i + 1;
            }
            false
        },
        None => false,
    }
}

/// A list with one more item, if there is one.
pub open spec fn with<T>(s: Seq<T>, item: Option<T>) -> Seq<T> {
    match item {
        Some(x) => s.push(x),
        None => s,
    }
}

fn push_some(v: &mut Vec<Location>, item: Option<Location>)
    ensures
        paths::views(final(v)@) == with(paths::views(old(v)@), paths::opt_view(item)),
{
    match item {
        Some(x) => {
            let ghost xv = x@;
            v.push(x);
            assert(paths::views(v@) =~= paths::views(old(v)@).push(xv));
        },
        None => {
        },
    }
}

/// The folders that hold wallpapers: those that came with the program, the
/// downloaded ones, and the user's.
pub fn library_roots(data_dir: &Option<Location>, here: bool) -> (r: Vec<Location>)
    ensures
        paths::views(r@) == ({
            let user = user_dir(paths::opt_view(*data_dir));
            with(
                with(
                    with(
                        seq![near_or_up(here, seq!["wallpapers"@])],
                        inner(inner(user, "strata-library"@), "shader-library"@),
                    ),
                    inner(user, "parallax-wallpapers"@),
                ),
                inner(user, "import"@),
            )
        }),
{
    let mut roots: Vec<Location> = Vec::new();
    roots.push(bundled_library_dir(here));
    assert(paths::views(roots@) =~= seq![near_or_up(here, seq!["wallpapers"@])]);
    push_some(&mut roots, fetched_library_dir(data_dir));
    push_some(&mut roots, parallax_library_dir(data_dir));
    push_some(&mut roots, import_library_dir(data_dir));
    roots
}

/// The textures that came with the program.
pub fn assets_external_dir(here: bool) -> (r: Location)
    ensures
        r@ == near_or_up(here, seq!["assets"@, "external"@]),
{
    let base = if here {
        Location { parts: Vec::new() }
    } else {
        upper_folder()
    };
    let r = base.join("assets").join("external");
    assert(r@ =~= near_or_up(here, seq!["assets"@, "external"@]));
    r
}

/// The folders in which shaders find their textures, first to last.
pub fn library_asset_dirs(data_dir: &Option<Location>, here: bool) -> (r: Vec<Location>)
    ensures
        paths::views(r@) == with(
            seq![near_or_up(here, seq!["assets"@, "external"@])],
            inner(inner(user_dir(paths::opt_view(*data_dir)), "strata-library"@), "external"@),
        ),
{
    let mut dirs: Vec<Location> = Vec::new();
    dirs.push(assets_external_dir(here));
    assert(paths::views(dirs@) =~= seq![near_or_up(here, seq!["assets"@, "external"@])]);
    push_some(&mut dirs, join_opt(&fetched_library_root(data_dir), "external"));
    dirs
}

/// Whether a wallpaper may be deleted: it is inside a folder of the user. All places
/// are without links; one that cannot be resolved is missing.
pub fn is_user_deletable(path: &Option<Location>, user_roots: &Vec<Option<Location>>) -> (r: bool)
    ensures
        r == (exists|i: int|
            0 <= i < user_roots@.len() && in_root(paths::opt_view(*path), paths::opt_view(
                #[trigger] user_roots@[i],
            ))),
{
    let mut i: usize = 0;
    while i < user_roots.len()
        invariant
            i <= user_roots.len(),
            forall|j: int|
                0 <= j < i ==> !in_root(paths::opt_view(*path), paths::opt_view(#[trigger] user_roots@[j])),
        decreases user_roots.len() - i,
    {
        if let Some(root) = &user_roots[i] {
            if let Some(p) = path {
                if p.starts_with(root) {
                    assert(in_root(paths::opt_view(*path), paths::opt_view(user_roots@[i as int])));
                    return true;
                }
            }
        }
        i = i + 1;
    }
    false
}

/// Whether a place is inside another; both are known.
pub open spec fn in_root(path: Option<Seq<Seq<char>>>, root: Option<Seq<Seq<char>>>) -> bool {
    match path {
        Some(p) => match root {
            Some(r) => paths::inside(p, r),
            None => false,
        },
        None => false,
    }
}

// ---------------------------------------------------------------------------
// Scanning
// ---------------------------------------------------------------------------

/// A wallpaper of the library.
pub struct WallpaperEntry {
    pub name: String,
    pub author: String,
    pub source_url: String,
    pub path: Location,
    pub tags: Vec<String>,
    pub thumbnail: Option<Location>,
}

/// A wallpaper of the library, by the texts it holds.
#[verifier::ext_equal]
pub struct EntryText {
    pub name: Seq<char>,
    pub author: Seq<char>,
    pub source_url: Seq<char>,
    pub path: Seq<Seq<char>>,
    pub tags: Seq<Seq<char>>,
    pub thumbnail: Option<Seq<Seq<char>>>,
}

impl View for WallpaperEntry {
    type V = EntryText;

    open spec fn view(&self) -> EntryText {
        EntryText {
            name: self.name@,
            author: self.author@,
            source_url: self.source_url@,
            path: self.path@,
            tags: text::texts(self.tags@),
            thumbnail: paths::opt_view(self.thumbnail),
        }
    }
}

/// The wallpapers of a list.
pub open spec fn entry_texts(v: Seq<WallpaperEntry>) -> Seq<EntryText> {
    Seq::new(v.len(), |i: int| v[i]@)
}

/// What is found in an entry of a library folder.
pub struct FolderScan {
    pub path: Location,
    pub is_dir: bool,
    pub has_manifest: bool,
    /// What the wallpaper says about itself, where it can be loaded.
    pub info: Option<WallpaperInfo>,
    pub has_png: bool,
    pub has_jpg: bool,
    pub has_jpeg: bool,
}

/// The thumbnail in a folder.
pub open spec fn thumbnail_of(f: FolderScan) -> Option<Seq<Seq<char>>> {
    if f.has_png {
        Some(f.path@.push("thumbnail.png"@))
    } else if f.has_jpg {
        Some(f.path@.push("thumbnail.jpg"@))
    } else if f.has_jpeg {
        Some(f.path@.push("thumbnail.jpeg"@))
    } else {
        None
    }
}

/// The wallpaper in a folder: there is one where the folder has a manifest that can
/// be loaded.
pub open spec fn entry_of(f: FolderScan) -> Option<EntryText> {
    match f.info {
        Some(info) => if f.is_dir && f.has_manifest {
            Some(
                EntryText {
                    name: info.name@,
                    author: info.author@,
                    source_url: info.source_url@,
                    path: f.path@,
                    tags: text::texts(info.tags@),
                    thumbnail: thumbnail_of(f),
                },
            )
        } else {
            None
        },
        None => None,
    }
}

/// The wallpapers of a library folder, in the order of its entries.
pub open spec fn entries_of(fs: Seq<FolderScan>) -> Seq<EntryText>
    decreases fs.len(),
{
    if fs.len() == 0 {
        Seq::empty()
    } else {
        with(entries_of(fs.drop_last()), entry_of(fs.last()))
    }
}

/// The wallpapers of a library folder.
pub fn scan_wallpapers(folders: &Vec<FolderScan>) -> (r: Vec<WallpaperEntry>)
    ensures
        entry_texts(r@) == entries_of(folders@),
{
    let mut r: Vec<WallpaperEntry> = Vec::new();
    let mut i: usize = 0;
    assert(entry_texts(r@) =~= entries_of(folders@.subrange(0, 0)));
    while i < folders.len()
        invariant
            i <= folders.len(),
            entry_texts(r@) == entries_of(folders@.subrange(0, i as int)),
        decreases folders.len() - i,
    {
        let ghost before = r@;
        let f = &folders[i];
        assert(folders@.subrange(0, i + 1).drop_last() =~= folders@.subrange(0, i as int));
        if let Some(info) = &f.info {
            if f.is_dir && f.has_manifest {
                let thumbnail = if f.has_png {
                    Some(f.path.join("thumbnail.png"))
                } else if f.has_jpg {
                    Some(f.path.join("thumbnail.jpg"))
                } else if f.has_jpeg {
                    Some(f.path.join("thumbnail.jpeg"))
                } else {
                    None
                };
                let e = WallpaperEntry {
                    name: info.name.clone(),
                    author: info.author.clone(),
                    source_url: info.source_url.clone(),
                    path: f.path.copy(),
                    tags: copy_strings(&info.tags),
                    thumbnail,
                };
                let ghost ev = e@;
                assert(entry_of(*f) == Some(ev));
                r.push(e);
                assert(entry_texts(r@) =~= entry_texts(before).push(ev));
            }
        }
        i = i + 1;
    }
    assert(folders@.subrange(0, i as int) =~= folders@);
    r
}

/// The wallpapers of several library folders, folder after folder.
pub open spec fn all_entries(roots: Seq<Vec<FolderScan>>) -> Seq<EntryText>
    decreases roots.len(),
{
    if roots.len() == 0 {
        Seq::empty()
    } else {
        all_entries(roots.drop_last()) + entries_of(roots.last()@)
    }
}

/// The wallpapers of all library folders.
pub fn scan_all_wallpapers(roots: &Vec<Vec<FolderScan>>) -> (r: Vec<WallpaperEntry>)
    ensures
        entry_texts(r@) == all_entries(roots@),
{
    let mut r: Vec<WallpaperEntry> = Vec::new();
    let mut i: usize = 0;
    assert(entry_texts(r@) =~= all_entries(roots@.subrange(0, 0)));
    while i < roots.len()
        invariant
            i <= roots.len(),
            entry_texts(r@) == all_entries(roots@.subrange(0, i as int)),
        decreases roots.len() - i,
    {
        let ghost before = r@;
        assert(roots@.subrange(0, i + 1).drop_last() =~= roots@.subrange(0, i as int));
        let mut found = scan_wallpapers(&roots[i]);
        let ghost fv = found@;
        r.append(&mut found);
        assert(entry_texts(r@) =~= entry_texts(before) + entry_texts(fv));
        i = i + 1;
    }
    assert(roots@.subrange(0, i as int) =~= roots@);
    r
}

/// A folder without a manifest never appears in the library, and every wallpaper has
/// its thumbnail inside its own folder.
pub proof fn law_entries_have_manifests(fs: Seq<FolderScan>, k: int)
    requires
        0 <= k < entries_of(fs).len(),
    ensures
        exists|i: int|
            0 <= i < fs.len() && (#[trigger] fs[i]).is_dir && fs[i].has_manifest && entry_of(fs[i]) == Some(
                entries_of(fs)[k],
            ),
        entries_of(fs)[k].thumbnail matches Some(t) ==> paths::inside(t, entries_of(fs)[k].path),
    decreases fs.len(),
{
    let rest = fs.drop_last();
    if k < entries_of(rest).len() {
        law_entries_have_manifests(rest, k);
        let i = choose|i: int|
            0 <= i < rest.len() && (#[trigger] rest[i]).is_dir && rest[i].has_manifest && entry_of(rest[i])
                == Some(entries_of(rest)[k]);
        assert(fs[i] == rest[i]);
    } else {
        let f = fs[fs.len() - 1];
        assert(fs.last() == f);
        if let Some(t) = entries_of(fs)[k].thumbnail {
            assert(t.subrange(0, f.path@.len() as int) =~= f.path@);
        }
    }
}

// ---------------------------------------------------------------------------
// Archives
// ---------------------------------------------------------------------------

/// What is done with an entry of an archive.
pub enum UnpackStep {
    Skip,
    MakeFolder(Location),
    /// Write the entry to a file.
    WriteFile(Location),
}

/// What is done with an entry, by the texts it holds.
#[verifier::ext_equal]
pub enum UnpackText {
    Skip,
    MakeFolder(Seq<Seq<char>>),
    WriteFile(Seq<Seq<char>>),
}

impl View for UnpackStep {
    type V = UnpackText;

    open spec fn view(&self) -> UnpackText {
        match self {
            UnpackStep::Skip => UnpackText::Skip,
            UnpackStep::MakeFolder(l) => UnpackText::MakeFolder(l@),
            UnpackStep::WriteFile(l) => UnpackText::WriteFile(l@),
        }
    }
}

/// Whether a name is that of a folder.
pub open spec fn folder_name(name: Seq<char>) -> bool {
    name.len() > 0 && name.last() == '/'
}

/// What is done with an entry that goes to `rel` inside `dest`.
pub open spec fn unpack_to(name: Seq<char>, dest: Seq<Seq<char>>, rel: Seq<Seq<char>>) -> UnpackText {
    if folder_name(name) {
        UnpackText::MakeFolder(dest + rel)
    } else {
        UnpackText::WriteFile(dest + rel)
    }
}

/// What is done with an entry of an archive that has the given place. One without a
/// place is skipped, and one whose place leads out of the folder. The first `drop`
/// components of the place are left out, and where nothing is left the entry is skipped.
pub open spec fn unpack_at(
    name: Seq<char>,
    place: Option<Seq<Seq<char>>>,
    dest: Seq<Seq<char>>,
    drop: nat,
) -> UnpackText {
    match place {
        Some(l) => if !archive::plain_parts(l) || drop > 0 && l.len() <= drop {
            UnpackText::Skip
        } else {
            unpack_to(name, dest, l.subrange(drop as int, l.len() as int))
        },
        None => UnpackText::Skip,
    }
}

fn is_folder_name(name: &str) -> (r: bool)
    ensures
        r == folder_name(name@),
{
    let c = chars_of(name);
    c.len() > 0 && c[c.len() - 1] == '/'
}

/// What is done with an entry of an archive.
pub fn unpack_step(e: &ArchiveEntry, dest: &Location, drop: usize) -> (r: UnpackStep)
    ensures
        r@ == unpack_at(e.name@, paths::opt_view(e.enclosed), dest@, drop as nat),
{
    match &e.enclosed {
        Some(rel) => {
            if !is_plain(rel) || drop > 0 && rel.parts.len() <= drop {
                return UnpackStep::Skip;
            }
            let mut out = dest.copy();
            let mut i: usize = drop;
            assert(rel@.subrange(drop as int, drop as int) =~= Seq::empty());
            assert(out@ =~= dest@ + rel@.subrange(drop as int, i as int));
            while i < rel.parts.len()
                invariant
                    drop <= i <= rel.parts.len(),
                    out@ == dest@ + rel@.subrange(drop as int, i as int),
                decreases rel.parts.len() - i,
            {
                out = out.join(rel.parts[i].as_str());
                assert(out@ =~= dest@ + rel@.subrange(drop as int, i + 1));
                i = i + 1;
            }
            if is_folder_name(e.name.as_str()) {
                UnpackStep::MakeFolder(out)
            } else {
                UnpackStep::WriteFile(out)
            }
        },
        None => UnpackStep::Skip,
    }
}

/// Nothing of an archive is written outside the folder it is unpacked into, whatever
/// place an entry has: what is behind the place of the folder are plain names.
pub proof fn law_unpacking_stays_inside(
    name: Seq<char>,
    place: Option<Seq<Seq<char>>>,
    dest: Seq<Seq<char>>,
    drop: nat,
)
    ensures
        match unpack_at(name, place, dest, drop) {
            UnpackText::Skip => true,
            UnpackText::MakeFolder(l) => plainly_inside(l, dest),
            UnpackText::WriteFile(l) => plainly_inside(l, dest),
        },
{
    if let Some(rel) = place {
        if rel.len() >= drop && archive::plain_parts(rel) {
            let tail = rel.subrange(drop as int, rel.len() as int);
            assert((dest + tail).subrange(0, dest.len() as int) =~= dest);
            assert((dest + tail).subrange(dest.len() as int, (dest + tail).len() as int) =~= tail);
        }
    }
}

/// No entry with a portable name is lost: where its place is inside the folder, it is
/// unpacked there, unless nothing of the place is left.
pub proof fn law_entries_are_unpacked(name: Seq<char>, dest: Seq<Seq<char>>, drop: nat)
    requires
        archive::is_portable(name),
    ensures
        unpack_at(name, archive::place_of(name), dest, drop) is Skip <==> match archive::place_of(name) {
            Some(l) => drop > 0 && l.len() <= drop,
            None => true,
        },
{
    archive::lemma_portable_places_are_plain(name);
}

/// Whether a place is inside another, with plain names behind it.
pub open spec fn plainly_inside(l: Seq<Seq<char>>, dest: Seq<Seq<char>>) -> bool {
    paths::inside(l, dest) && archive::plain_parts(l.subrange(dest.len() as int, l.len() as int))
}

/// An archive that is open.
pub struct Archive {
    zip: zip::ZipArchive<std::io::Cursor<Vec<u8>>>,
}

/// An entry that is unpacked: what is done, and the contents of a file.
pub struct Unpacked {
    pub step: UnpackStep,
    pub data: Vec<u8>,
}

impl Archive {
    /// The bytes of the archive.
    pub closed spec fn bytes(self) -> Seq<u8> {
        archive::zip_bytes(self.zip)
    }

    /// Opens an archive.
    pub fn open(bytes: Vec<u8>) -> (r: Result<Archive, String>)
        ensures
            match r {
                Ok(a) => a.bytes() == bytes@ && archive::zip_count(bytes@) is Ok,
                Err(e) => archive::zip_count(bytes@) == Err::<nat, _>(e@),
            },
    {
        match open_zip(bytes) {
            Ok(zip) => Ok(Archive { zip }),
            Err(e) => Err(e),
        }
    }

    /// The number of entries.
    pub fn len(&self) -> (r: usize)
        ensures
            r == archive::entry_count(self.bytes()),
    {
        zip_len(&self.zip)
    }

    /// What is done with an entry; the first `drop` components of its place are left
    /// out. Where an entry goes whose name is not portable is up to the system; wherever
    /// it is, nothing is written outside `dest`.
    pub fn unpack(&mut self, i: usize, dest: &Location, drop: usize) -> (r: Result<Unpacked, String>)
        ensures
            final(self).bytes() == old(self).bytes(),
            ({
                let name = archive::zip_name(old(self).bytes(), i as nat);
                let data = archive::zip_data(old(self).bytes(), i as nat);
                match r {
                    Ok(u) => {
                        &&& name is Ok
                        &&& archive::is_portable(name->Ok_0) ==> u.step@ == unpack_at(
                            name->Ok_0,
                            archive::place_of(name->Ok_0),
                            dest@,
                            drop as nat,
                        )
                        &&& match u.step@ {
                            UnpackText::Skip => u.data@.len() == 0,
                            UnpackText::MakeFolder(l) => folder_name(name->Ok_0) && plainly_inside(l, dest@)
                                && u.data@.len() == 0,
                            UnpackText::WriteFile(l) => !folder_name(name->Ok_0) && plainly_inside(l, dest@)
                                && data == Ok::<_, Seq<char>>(u.data@),
                        }
                    },
                    Err(e) => name == Err::<Seq<char>, _>(e@) || (name is Ok && data == Err::<Seq<u8>, _>(e@)),
                }
            }),
    {
        let entry = match zip_heading(&mut self.zip, i) {
            Ok(e) => e,
            Err(e) => {
                return Err(e);
            },
        };
        let step = unpack_step(&entry, dest, drop);
        proof {
            law_unpacking_stays_inside(entry.name@, paths::opt_view(entry.enclosed), dest@, drop as nat);
        }
        match &step {
            UnpackStep::WriteFile(_) => match zip_read(&mut self.zip, i) {
                Ok(data) => Ok(Unpacked { step, data }),
                Err(e) => Err(e),
            },
            _ => Ok(Unpacked { step, data: Vec::new() }),
        }
    }
}

/// Opens an archive with a wallpaper that is unpacked into a folder of its own; `exists`
/// says whether that folder is already there.
pub fn import_wallpaper_zip(bytes: Vec<u8>, stem: &str, dest_base: &Location, exists: bool) -> (r: Result<
    (Archive, Location),
    String,
>)
    ensures
        match r {
            Ok(p) => p.0.bytes() == bytes@ && archive::zip_count(bytes@) is Ok && p.1@ == dest_base@.push(stem@)
                && !exists,
            Err(e) => if archive::zip_count(bytes@) is Err {
                archive::zip_count(bytes@) == Err::<nat, _>(e@)
            } else {
                exists && e@ == "Wallpaper already exists"@
            },
        },
{
    let a = match Archive::open(bytes) {
        Ok(a) => a,
        Err(e) => {
            return Err(e);
        },
    };
    if exists {
        return Err("Wallpaper already exists".to_owned());
    }
    Ok((a, dest_base.join(stem)))
}

/// Whether an archive that was unpacked is a wallpaper; where it is not, the folder
/// is removed again.
pub fn imported_wallpaper(has_manifest: bool) -> (r: Result<(), String>)
    ensures
        r is Ok == has_manifest,
        r matches Err(e) ==> e@ == "No valid live wallpaper found! (Missing manifest.toml)"@,
{
    if has_manifest {
        Ok(())
    } else {
        Err("No valid live wallpaper found! (Missing manifest.toml)".to_owned())
    }
}

/// Whether one of the places of a list is that of a manifest.
pub open spec fn some_manifest(places: Seq<Option<Location>>) -> bool {
    exists|i: int| 0 <= i < places.len() && is_manifest(paths::opt_view(#[trigger] places[i]))
}

/// Whether an entry of an archive is a manifest on every system.
pub open spec fn names_manifest(bytes: Seq<u8>, i: nat) -> bool {
    match archive::zip_name(bytes, i) {
        Ok(name) => archive::is_portable(name) && is_manifest(archive::place_of(name)),
        Err(_) => false,
    }
}

/// Whether an entry of an archive is a manifest on some system.
pub open spec fn may_name_manifest(bytes: Seq<u8>, i: nat) -> bool {
    match archive::zip_name(bytes, i) {
        Ok(name) => archive::is_portable(name) ==> is_manifest(archive::place_of(name)),
        Err(_) => false,
    }
}

/// Whether an archive is a wallpaper pack: one of its entries is a manifest. The bytes
/// are missing where the archive cannot be read; such a file, and one that is no archive
/// or an empty one, is no pack. Only of entries whose names are not portable is it up to
/// the system whether they count.
pub fn zip_is_native_pack(bytes: Option<Vec<u8>>) -> (r: bool)
    ensures
        r ==> bytes is Some && exists|i: nat|
            i < archive::entry_count(bytes->0@) && #[trigger] may_name_manifest(bytes->0@, i),
        bytes matches Some(b) ==> (exists|i: nat| i < archive::entry_count(b@) && #[trigger] names_manifest(b@, i))
            ==> r,
{
    let bytes = match bytes {
        Some(b) => b,
        None => {
            return false;
        },
    };
    let ghost b = bytes@;
    let mut a = match Archive::open(bytes) {
        Ok(a) => a,
        Err(_) => {
            return false;
        },
    };
    let n: usize = a.len();
    let mut places: Vec<Option<Location>> = Vec::new();
    let mut i: usize = 0;
    while i < n
        invariant
            i <= n,
            a.bytes() == b,
            archive::zip_count(b) == Ok::<_, Seq<char>>(n as nat),
            some_manifest(places@) ==> exists|j: nat| j < n && #[trigger] may_name_manifest(b, j),
            (exists|j: nat| j < i && #[trigger] names_manifest(b, j)) ==> some_manifest(places@),
        decreases n - i,
    {
        if let Ok(e) = zip_heading(&mut a.zip, i) {
            let ghost before = places@;
            places.push(e.enclosed);
            proof {
                assert(is_manifest(paths::opt_view(places@[before.len() as int])) ==> some_manifest(places@));
                if some_manifest(places@) && !some_manifest(before) {
                    let k = choose|k: int| 0 <= k < places@.len() && is_manifest(paths::opt_view(#[trigger] places@[k]));
                    if k < before.len() {
                        assert(before[k] == places@[k]);
                    }
                    assert(may_name_manifest(b, i as nat));
                }
                if some_manifest(before) {
                    let k = choose|k: int| 0 <= k < before.len() && is_manifest(paths::opt_view(#[trigger] before[k]));
                    assert(places@[k] == before[k]);
                }
            }
        }
        i = i + 1;
    }
    has_manifest(&places)
}

/// Whether one of the places of a list is that of a manifest.
pub fn has_manifest(places: &Vec<Option<Location>>) -> (r: bool)
    ensures
        r == some_manifest(places@),
{
    let mut i: usize = 0;
    while i < places.len()
        invariant
            i <= places.len(),
            forall|j: int| 0 <= j < i ==> !is_manifest(paths::opt_view(#[trigger] places@[j])),
        decreases places.len() - i,
    {
        if let Some(p) = &places[i] {
            if let Some(name) = p.file_name() {
                if str_eq(name.as_str(), "manifest.toml") {
                    assert(is_manifest(paths::opt_view(places@[i as int])));
                    return true;
                }
            }
        }
        i = i + 1;
    }
    false
}

/// Whether a place is that of a manifest.
pub open spec fn is_manifest(place: Option<Seq<Seq<char>>>) -> bool {
    match place {
        Some(p) => p.len() > 0 && p.last() == "manifest.toml"@,
        None => false,
    }
}

/// Whether the name of an archive entry is that of a JSON file; a name that cannot be
/// read is missing.
pub open spec fn is_json(name: Option<Seq<char>>) -> bool {
    match name {
        Some(n) => is_json_name(text::unicode_lowercase(n)),
        None => false,
    }
}

/// Whether a name in lower case is that of a JSON file.
pub open spec fn is_json_name(lowered: Seq<char>) -> bool {
    text::ends_with(lowered, ".json"@)
}

/// Whether a name in lower case is that of a JSON file.
pub fn names_json(lowered: &str) -> (r: bool)
    ensures
        r == is_json_name(lowered@),
{
    is_ending(&chars_of(lowered), &chars_of(".json"))
}

/// The place of the export in an archive: the first JSON file.
pub fn json_entry(names: &Vec<Option<String>>) -> (r: Result<usize, String>)
    ensures
        match r {
            Ok(i) => i < names@.len() && is_json(text::opt_text(names@[i as int])) && forall|j: int|
                0 <= j < i ==> !is_json(text::opt_text(#[trigger] names@[j])),
            Err(e) => e@ == "No .json found inside the ZIP"@ && forall|j: int|
                0 <= j < names@.len() ==> !is_json(text::opt_text(#[trigger] names@[j])),
        },
{
    let mut i: usize = 0;
    while i < names.len()
        invariant
            i <= names.len(),
            forall|j: int| 0 <= j < i ==> !is_json(text::opt_text(#[trigger] names@[j])),
        decreases names.len() - i,
    {
        if let Some(n) = &names[i] {
            if names_json(str_to_lowercase(n.as_str()).as_str()) {
                return Ok(i);
            }
        }
        i = i + 1;
    }
    Err("No .json found inside the ZIP".to_owned())
}

/// The name of an entry of an archive, missing where it cannot be read.
pub open spec fn entry_name(bytes: Seq<u8>, i: int) -> Option<Seq<char>> {
    match archive::zip_name(bytes, i as nat) {
        Ok(name) => Some(name),
        Err(_) => None,
    }
}

/// Whether an entry of an archive is its first JSON file.
pub open spec fn first_json(bytes: Seq<u8>, n: int, i: int) -> bool {
    0 <= i < n && is_json(entry_name(bytes, i)) && forall|j: int| 0 <= j < i ==> !is_json(
        #[trigger] entry_name(bytes, j),
    )
}

/// The Shadertoy export in an archive: the text of the first JSON file.
pub fn read_shadertoy_json(bytes: Vec<u8>) -> (r: Result<String, String>)
    ensures
        match archive::zip_count(bytes@) {
            Err(m) => r matches Err(e) && e@ == m,
            Ok(n) => if exists|i: int| first_json(bytes@, n as int, i) {
                exists|i: int| #[trigger]
                    first_json(bytes@, n as int, i) && match r {
                        Ok(s) => archive::zip_text(bytes@, i as nat) == Ok::<_, Seq<char>>(s@),
                        Err(e) => archive::zip_text(bytes@, i as nat) == Err::<Seq<char>, _>(e@),
                    }
            } else {
                r matches Err(e) && e@ == "No .json found inside the ZIP"@
            },
        },
{
    let ghost b = bytes@;
    let mut a = match Archive::open(bytes) {
        Ok(a) => a,
        Err(e) => {
            return Err(e);
        },
    };
    let n: usize = a.len();
    let mut names: Vec<Option<String>> = Vec::new();
    let mut i: usize = 0;
    while i < n
        invariant
            i <= n,
            a.bytes() == b,
            names@.len() == i,
            forall|j: int| 0 <= j < i ==> text::opt_text(#[trigger] names@[j]) == entry_name(b, j),
        decreases n - i,
    {
        match zip_heading(&mut a.zip, i) {
            Ok(e) => names.push(Some(e.name)),
            Err(_) => names.push(None),
        }
        i = i + 1;
    }
    match json_entry(&names) {
        Ok(k) => {
            assert(first_json(b, n as int, k as int)) by {
                assert forall|j: int| 0 <= j < k implies !is_json(#[trigger] entry_name(b, j)) by {
                    assert(text::opt_text(names@[j]) == entry_name(b, j));
                }
                assert(text::opt_text(names@[k as int]) == entry_name(b, k as int));
            }
            zip_read_text(&mut a.zip, k)
        },
        Err(e) => {
            assert forall|j: int| !first_json(b, n as int, j) by {
                if 0 <= j < n {
                    assert(text::opt_text(names@[j]) == entry_name(b, j));
                }
            }
            Err(e)
        },
    }
}

// ---------------------------------------------------------------------------
// Names of new folders
// ---------------------------------------------------------------------------

/// The letters and digits of a text, with one dash for each run of other characters.
pub open spec fn dashed(s: Seq<char>) -> Seq<char>
    decreases s.len(),
{
    if s.len() == 0 {
        Seq::empty()
    } else {
        let before = dashed(s.drop_last());
        if text::is_digit(s.last()) || text::is_letter(s.last()) {
            before.push(s.last())
        } else if before.len() > 0 && before.last() == '-' {
            before
        } else {
            before.push('-')
        }
    }
}

/// The name of a folder for what has the given display name.
pub open spec fn slug(name: Seq<char>, fallback: Seq<char>) -> Seq<char> {
    slug_of_lowered(text::unicode_lowercase(text::trim(name)), fallback)
}

/// The name of a folder for what has the given display name in lower case.
pub open spec fn slug_of_lowered(lowered: Seq<char>, fallback: Seq<char>) -> Seq<char> {
    let inner = text::trim_end_of(text::trim_start_of(dashed(lowered), seq!['-']), seq!['-']);
    if inner.len() == 0 {
        fallback
    } else {
        inner
    }
}

/// The name of a folder for what has the given display name: its letters and digits
/// in lower case, with dashes between them, or `fallback` where there are none. What
/// comes out is a slug where `fallback` is one, and a slug comes out as it is: so what
/// came out once comes out again.
pub fn slugify(name: &str, fallback: &str) -> (r: String)
    ensures
        r@ == slug(name@, fallback@),
        is_slug(fallback@) ==> is_slug(r@),
        is_slug(name@) ==> r@ == name@,
        text::all_ascii(text::trim(name@)) ==> r@ == slug_of_lowered(
            text::ascii_lowered(text::trim(name@)),
            fallback@,
        ),
{
    let trimmed = string_of(&trim_chars(&chars_of(name)));
    let lowered = str_to_lowercase(trimmed.as_str());
    proof {
        if is_slug(fallback@) {
            law_slugs_are_slugs(lowered@, fallback@);
        }
        if is_slug(name@) {
            assert(slug_char(name@[0]) && slug_char(name@[name@.len() - 1]));
            assert(trimmed@ == name@);
            assert forall|i: int| 0 <= i < name@.len() implies #[trigger] name@[i] <= '\u{7f}' && text::lower(name@[i])
                == name@[i] by {
                assert(slug_char(name@[i]));
            }
            assert(lowered@ =~= name@);
            lemma_slug_is_kept(name@, fallback@);
        }
    }
    slugify_lowered(lowered.as_str(), fallback)
}

/// The name of a folder for what has the given display name in lower case: its letters
/// and digits with dashes between them, or `fallback` where there are none.
pub fn slugify_lowered(lowered: &str, fallback: &str) -> (r: String)
    ensures
        r@ == slug_of_lowered(lowered@, fallback@),
{
    let low = chars_of(lowered);
    let mut out: Vec<char> = Vec::new();
    let mut i: usize = 0;
    assert(low@.subrange(0, 0) =~= Seq::empty());
    while i < low.len()
        invariant
            i <= low.len(),
            out@ == dashed(low@.subrange(0, i as int)),
        decreases low.len() - i,
    {
        let c = low[i];
        assert(low@.subrange(0, i + 1).drop_last() =~= low@.subrange(0, i as int));
        if text::char_is_digit(c) || text::char_is_letter(c) {
            out.push(c);
        } else if !(out.len() > 0 && out[out.len() - 1] == '-') {
            out.push('-');
        }
        i = i + 1;
    }
    assert(low@.subrange(0, i as int) =~= low@);
    let mut dash: Vec<char> = Vec::new();
    dash.push('-');
    assert(dash@ =~= seq!['-']);
    let inner = trim_end_set(&trim_start_set(&out, &dash), &dash);
    if inner.len() == 0 {
        fallback.to_owned()
    } else {
        string_of(&inner)
    }
}

/// A character of a slug: a small ASCII letter, a digit or a dash.
pub open spec fn slug_char(c: char) -> bool {
    'a' <= c <= 'z' || '0' <= c <= '9' || c == '-'
}

/// Whether a text is made of the characters of a slug, with no two dashes in a row.
pub open spec fn slug_text(s: Seq<char>) -> bool {
    &&& forall|i: int| 0 <= i < s.len() ==> slug_char(#[trigger] s[i])
    &&& forall|i: int, j: int| 0 <= i < s.len() && j == i + 1 && j < s.len() ==> !(#[trigger] s[i] == '-' && #[trigger] s[j] == '-')
}

/// Whether a text is a slug: not empty, of small ASCII letters, digits and single dashes
/// between them.
pub open spec fn is_slug(s: Seq<char>) -> bool {
    s.len() > 0 && slug_text(s) && s[0] != '-' && s.last() != '-'
}

/// What comes out for a display name in lower case is a slug, and a slug is its own. The
/// name has no ASCII capitals, and what stands in where it has no letters is a slug.
pub proof fn law_slugs_are_slugs(lowered: Seq<char>, fallback: Seq<char>)
    requires
        text::no_capitals(lowered),
        is_slug(fallback),
    ensures
        is_slug(slug_of_lowered(lowered, fallback)),
        is_slug(lowered) ==> slug_of_lowered(lowered, fallback) == lowered,
        slug_of_lowered(slug_of_lowered(lowered, fallback), fallback) == slug_of_lowered(lowered, fallback),
{
    let dash = seq!['-'];
    assert(forall|c: char| dash.contains(c) <==> c == '-') by {
        assert(dash[0] == '-');
    }
    lemma_dashed_is_slug_text(lowered);
    let all = dashed(lowered);
    let tail = text::trim_start_of(all, dash);
    let a = lemma_trim_start(all);
    let inner = text::trim_end_of(tail, dash);
    let b = lemma_trim_end(tail);
    assert(inner =~= all.subrange(a, a + b));
    assert forall|i: int, j: int| 0 <= i < inner.len() && j == i + 1 && j < inner.len() implies !(#[trigger] inner[i]
        == '-' && #[trigger] inner[j] == '-') by {
        assert(inner[i] == all[a + i] && inner[j] == all[a + j]);
    }
    let slug = slug_of_lowered(lowered, fallback);
    assert(is_slug(slug));
    lemma_slug_is_kept(slug, fallback);
    if is_slug(lowered) {
        lemma_slug_is_kept(lowered, fallback);
    }
}

proof fn lemma_slug_is_kept(s: Seq<char>, fallback: Seq<char>)
    requires
        is_slug(s),
    ensures
        slug_of_lowered(s, fallback) == s,
{
    let dash = seq!['-'];
    assert(forall|c: char| dash.contains(c) <==> c == '-') by {
        assert(dash[0] == '-');
    }
    lemma_slug_text_is_dashed(s);
    assert(text::trim_start_of(s, dash) == s);
    assert(text::trim_end_of(s, dash) == s);
}

proof fn lemma_dashed_is_slug_text(s: Seq<char>)
    requires
        text::no_capitals(s),
    ensures
        slug_text(dashed(s)),
    decreases s.len(),
{
    if s.len() > 0 {
        let rest = s.drop_last();
        assert forall|i: int| 0 <= i < rest.len() implies !('A' <= #[trigger] rest[i] <= 'Z') by {
            assert(rest[i] == s[i]);
        }
        lemma_dashed_is_slug_text(rest);
        assert(s.last() == s[s.len() - 1]);
    }
}

proof fn lemma_slug_text_is_dashed(s: Seq<char>)
    requires
        slug_text(s),
    ensures
        dashed(s) == s,
    decreases s.len(),
{
    if s.len() > 0 {
        let rest = s.drop_last();
        assert forall|i: int| 0 <= i < rest.len() implies slug_char(#[trigger] rest[i]) by {
            assert(rest[i] == s[i]);
        }
        assert forall|i: int, j: int| 0 <= i < rest.len() && j == i + 1 && j < rest.len() implies !(#[trigger] rest[i]
            == '-' && #[trigger] rest[j] == '-') by {
            assert(rest[i] == s[i] && rest[j] == s[j]);
        }
        lemma_slug_text_is_dashed(rest);
        assert(slug_char(s[s.len() - 1]));
        if rest.len() > 0 {
            assert(!(s[s.len() - 2] == '-' && s[s.len() - 1] == '-'));
            assert(rest.last() == s[s.len() - 2]);
        }
        assert(rest.push(s.last()) =~= s);
    }
}

/// How many dashes at the start are left out.
proof fn lemma_trim_start(s: Seq<char>) -> (a: int)
    ensures
        0 <= a <= s.len(),
        text::trim_start_of(s, seq!['-']) == s.subrange(a, s.len() as int),
        a < s.len() ==> s[a] != '-',
    decreases s.len(),
{
    let dash = seq!['-'];
    assert(dash[0] == '-');
    if s.len() > 0 && dash.contains(s[0]) {
        let rest = s.subrange(1, s.len() as int);
        let a = lemma_trim_start(rest);
        assert(rest.subrange(a, rest.len() as int) =~= s.subrange(a + 1, s.len() as int));
        a + 1
    } else {
        assert(s.subrange(0, s.len() as int) =~= s);
        0
    }
}

/// How many characters are left without the dashes at the end.
proof fn lemma_trim_end(s: Seq<char>) -> (b: int)
    ensures
        0 <= b <= s.len(),
        text::trim_end_of(s, seq!['-']) == s.subrange(0, b),
        b > 0 ==> s[b - 1] != '-',
    decreases s.len(),
{
    let dash = seq!['-'];
    assert(dash[0] == '-');
    if s.len() > 0 && dash.contains(s.last()) {
        let b = lemma_trim_end(s.drop_last());
        assert(s.drop_last().subrange(0, b) =~= s.subrange(0, b));
        b
    } else {
        assert(s.subrange(0, s.len() as int) =~= s);
        s.len() as int
    }
}

/// The `n`-th name that is tried for a folder.
pub open spec fn candidate(slug: Seq<char>, n: nat) -> Seq<char> {
    if n <= 1 {
        slug
    } else {
        slug + "-"@ + text::decimal(n)
    }
}

proof fn lemma_candidates_differ(slug: Seq<char>, a: nat, b: nat)
    requires
        1 <= a < b,
    ensures
        candidate(slug, a) != candidate(slug, b),
{
    reveal_strlit("-");
    let y = candidate(slug, b);
    let n = slug.len() + 1;
    text::lemma_decimal_value(b);
    assert(y.subrange(n as int, y.len() as int) =~= text::decimal(b));
    if a == 1 {
        assert(y.len() > slug.len());
    } else {
        let x = candidate(slug, a);
        text::lemma_decimal_value(a);
        assert(x.subrange(n as int, x.len() as int) =~= text::decimal(a));
    }
}

proof fn lemma_taken_names(slug: Seq<char>, taken: Seq<Seq<char>>, n: nat)
    requires
        forall|k: nat| 1 <= k <= n ==> taken.contains(#[trigger] candidate(slug, k)),
    ensures
        n <= taken.len(),
{
    let names = Seq::new(n, |i: int| candidate(slug, (i + 1) as nat));
    assert(names.no_duplicates()) by {
        assert forall|i: int, j: int| 0 <= i < names.len() && 0 <= j < names.len() && i != j implies names[i]
            != names[j] by {
            if i < j {
                lemma_candidates_differ(slug, (i + 1) as nat, (j + 1) as nat);
            } else {
                lemma_candidates_differ(slug, (j + 1) as nat, (i + 1) as nat);
            }
        }
    }
    names.unique_seq_to_set();
    taken.lemma_cardinality_of_set();
    assert(names.to_set().subset_of(taken.to_set())) by {
        assert forall|x: Seq<char>| names.to_set().contains(x) implies taken.to_set().contains(x) by {
            let i = choose|i: int| 0 <= i < names.len() && names[i] == x;
            assert(taken.contains(candidate(slug, (i + 1) as nat)));
        }
    }
    vstd::set_lib::lemma_len_subset(names.to_set(), taken.to_set());
}

/// Whether `name` is the first of the names for a folder that is not taken.
pub open spec fn is_free_name(slug: Seq<char>, taken: Seq<Seq<char>>, name: Seq<char>) -> bool {
    exists|n: nat|
        1 <= n && name == #[trigger] candidate(slug, n) && !taken.contains(name) && forall|k: nat|
            1 <= k < n ==> taken.contains(#[trigger] candidate(slug, k))
}

/// A new folder inside `base`: `slug`, or `slug-2`, `slug-3` and so on where that is
/// taken. What is already there is never overwritten.
pub fn unique_dir(base: &Location, slug: &str, taken: &Vec<String>) -> (r: Location)
    requires
        taken@.len() < u64::MAX,
    ensures
        exists|name: Seq<char>|
            r@ == base@.push(name) && #[trigger] is_free_name(slug@, text::texts(taken@), name),
{
    let mut n: u64 = 1;
    loop
        invariant
            taken@.len() < u64::MAX,
            1 <= n <= taken@.len() + 1,
            forall|k: nat| 1 <= k < n ==> text::texts(taken@).contains(#[trigger] candidate(slug@, k)),
        decreases taken@.len() + 1 - n,
    {
        let mut name = slug.to_owned();
        if n > 1 {
            name.append("-");
            name.append(decimal_of(n).as_str());
        }
        assert(name@ == candidate(slug@, n as nat));
        if !list_has(taken, name.as_str()) {
            assert(is_free_name(slug@, text::texts(taken@), name@));
            return base.join(name.as_str());
        }
        proof {
            lemma_taken_names(slug@, text::texts(taken@), n as nat);
        }
        n = n + 1;
    }
}

/// The display name of an imported shader: its own, unless it has none, else that of
/// its file.
pub open spec fn import_name(peeked: Option<Seq<char>>, stem: Option<Seq<char>>) -> Seq<char> {
    match peeked {
        Some(n) => if n != "Imported Shader"@ {
            n
        } else {
            stem_name(stem)
        },
        None => stem_name(stem),
    }
}

/// The display name of a shader that has none: that of its file.
pub open spec fn stem_name(stem: Option<Seq<char>>) -> Seq<char> {
    match stem {
        Some(s) => s,
        None => "imported-shader"@,
    }
}

fn name_of_stem(stem: &Option<String>) -> (r: String)
    ensures
        r@ == stem_name(text::opt_text(*stem)),
{
    match stem {
        Some(s) => s.clone(),
        None => "imported-shader".to_owned(),
    }
}

/// The folder of an imported shader, named after it.
pub fn import_shadertoy(peeked: &Option<String>, stem: &Option<String>, dest_base: &Location, taken: &Vec<String>) -> (r:
    Location)
    requires
        taken@.len() < u64::MAX,
    ensures
        exists|name: Seq<char>|
            r@ == dest_base@.push(name) && #[trigger] is_free_name(
                slug(import_name(text::opt_text(*peeked), text::opt_text(*stem)), "imported-shader"@),
                text::texts(taken@),
                name,
            ),
{
    let name = match peeked {
        Some(n) => if str_eq(n.as_str(), "Imported Shader") {
            name_of_stem(stem)
        } else {
            n.clone()
        },
        None => name_of_stem(stem),
    };
    assert(name@ == import_name(text::opt_text(*peeked), text::opt_text(*stem)));
    let s = slugify(name.as_str(), "imported-shader");
    unique_dir(dest_base, s.as_str(), taken)
}

// ---------------------------------------------------------------------------
// The repository of the library
// ---------------------------------------------------------------------------

/// `s` without the leading and trailing characters that are `c`.
pub open spec fn without_around(s: Seq<char>, c: char) -> Seq<char> {
    text::trim_end_of(text::trim_start_of(s, seq![c]), seq![c])
}

fn drop_around(s: &Vec<char>, c: char) -> (r: Vec<char>)
    ensures
        r@ == without_around(s@, c),
{
    let mut set: Vec<char> = Vec::new();
    set.push(c);
    assert(set@ =~= seq![c]);
    trim_end_set(&trim_start_set(s, &set), &set)
}

/// What a line of a repository list gives as the address.
pub open spec fn line_url(line: Seq<char>) -> Option<Seq<char>> {
    let l = text::trim(line);
    if text::begins_with(l, "url"@) {
        let rest = text::trim_start(l.subrange(3, l.len() as int));
        if rest.len() > 0 && rest[0] == '=' {
            Some(without_around(text::trim(rest.subrange(1, rest.len() as int)), '"'))
        } else {
            None
        }
    } else {
        None
    }
}

/// The address in a list of lines: that of the first line that gives one.
pub open spec fn lines_url(ls: Seq<Seq<char>>) -> Option<Seq<char>>
    decreases ls.len(),
{
    if ls.len() == 0 {
        None
    } else {
        match line_url(ls[0]) {
            Some(u) => Some(u),
            None => lines_url(ls.subrange(1, ls.len() as int)),
        }
    }
}

/// Whether a line marks its repository as official.
pub open spec fn says_official(line: Seq<char>) -> bool {
    text::begins_with(text::trim(line), "official"@) && text::has_text(line, "true"@)
}

/// Whether a repository is marked as official.
pub open spec fn block_official(block: Seq<char>) -> bool {
    exists|i: int| 0 <= i < text::lines(block).len() && #[trigger] says_official(text::lines(block)[i])
}

/// The address of a repository, unless it is missing or empty.
pub open spec fn block_url(block: Seq<char>) -> Option<Seq<char>> {
    match lines_url(text::lines(block)) {
        Some(u) => if u.len() > 0 {
            Some(u)
        } else {
            None
        },
        None => None,
    }
}

/// The address of the first repository that is marked as official.
pub open spec fn official_url(blocks: Seq<Seq<char>>) -> Option<Seq<char>>
    decreases blocks.len(),
{
    if blocks.len() == 0 {
        None
    } else if block_url(blocks[0]) is Some && block_official(blocks[0]) {
        block_url(blocks[0])
    } else {
        official_url(blocks.subrange(1, blocks.len() as int))
    }
}

/// The address of the first repository.
pub open spec fn first_url(blocks: Seq<Seq<char>>) -> Option<Seq<char>>
    decreases blocks.len(),
{
    if blocks.len() == 0 {
        None
    } else if block_url(blocks[0]) is Some {
        block_url(blocks[0])
    } else {
        first_url(blocks.subrange(1, blocks.len() as int))
    }
}

/// The repositories of a list.
pub open spec fn repository_blocks(list: Seq<char>) -> Seq<Seq<char>> {
    let parts = text::pieces(list, "[[repository]]"@);
    parts.subrange(1, parts.len() as int)
}

/// The address of the repository to use: the first official one, else the first.
pub open spec fn repository_url(list: Seq<char>) -> Option<Seq<char>> {
    match official_url(repository_blocks(list)) {
        Some(u) => Some(u),
        None => first_url(repository_blocks(list)),
    }
}

fn url_of_line(line: &Vec<char>) -> (r: Option<Vec<char>>)
    ensures
        match r {
            Some(u) => line_url(line@) == Some(u@),
            None => line_url(line@) is None,
        },
{
    proof {
        reveal_strlit("url");
    }
    let l = trim_chars(line);
    if !is_text_at(&l, &chars_of("url"), 0) {
        return None;
    }
    let rest = text::trim_start_chars(&sub_chars(&l, 3, l.len()));
    if rest.len() > 0 && rest[0] == '=' {
        let value = trim_chars(&sub_chars(&rest, 1, rest.len()));
        Some(drop_around(&value, '"'))
    } else {
        None
    }
}

fn url_of_lines(ls: &Vec<Vec<char>>) -> (r: Option<Vec<char>>)
    ensures
        match r {
            Some(u) => lines_url(text::buffers(ls@)) == Some(u@),
            None => lines_url(text::buffers(ls@)) is None,
        },
{
    let ghost all = text::buffers(ls@);
    let mut i: usize = 0;
    assert(all.subrange(0, all.len() as int) =~= all);
    while i < ls.len()
        invariant
            i <= ls.len(),
            all == text::buffers(ls@),
            lines_url(all) == lines_url(all.subrange(i as int, all.len() as int)),
        decreases ls.len() - i,
    {
        let ghost rest = all.subrange(i as int, all.len() as int);
        assert(rest[0] == ls@[i as int]@);
        assert(rest.subrange(1, rest.len() as int) =~= all.subrange(i + 1, all.len() as int));
        if let Some(u) = url_of_line(&ls[i]) {
            return Some(u);
        }
        i = i + 1;
    }
    None
}

fn lines_official(ls: &Vec<Vec<char>>) -> (r: bool)
    ensures
        r == exists|i: int| 0 <= i < ls@.len() && #[trigger] says_official(text::buffers(ls@)[i]),
{
    let mut i: usize = 0;
    while i < ls.len()
        invariant
            i <= ls.len(),
            forall|j: int| 0 <= j < i ==> !#[trigger] says_official(text::buffers(ls@)[j]),
        decreases ls.len() - i,
    {
        assert(text::buffers(ls@)[i as int] == ls@[i as int]@);
        if is_text_at(&trim_chars(&ls[i]), &chars_of("official"), 0) && text::find_text(
            &ls[i],
            &chars_of("true"),
        ).is_some() {
            assert(says_official(text::buffers(ls@)[i as int]));
            return true;
        }
        i = i + 1;
    }
    false
}

/// The address of the official repository in a list of repositories, else of the
/// first one.
pub fn official_repo_url(list: &str) -> (r: Option<String>)
    ensures
        text::opt_text(r) == repository_url(list@),
{
    proof {
        reveal_strlit("[[repository]]");
    }
    let parts = split_text(&chars_of(list), &chars_of("[[repository]]"));
    let ghost blocks = repository_blocks(list@);
    let mut first: Option<String> = None;
    let mut i: usize = 1;
    assert(blocks.subrange(0, blocks.len() as int) =~= blocks);
    while i < parts.len()
        invariant
            1 <= i <= parts.len(),
            text::buffers(parts@) == text::pieces(list@, "[[repository]]"@),
            blocks == repository_blocks(list@),
            blocks.len() == parts@.len() - 1,
            official_url(blocks) == official_url(blocks.subrange(i - 1, blocks.len() as int)),
            first_url(blocks) == (match text::opt_text(first) {
                Some(u) => Some(u),
                None => first_url(blocks.subrange(i - 1, blocks.len() as int)),
            }),
        decreases parts.len() - i,
    {
        let ghost rest = blocks.subrange(i - 1, blocks.len() as int);
        assert(rest[0] == text::buffers(parts@)[i as int]);
        assert(rest[0] == parts@[i as int]@);
        assert(rest.subrange(1, rest.len() as int) =~= blocks.subrange(i as int, blocks.len() as int));
        let ls = lines_of(&parts[i]);
        if let Some(u) = url_of_lines(&ls) {
            if u.len() > 0 {
                assert(block_url(rest[0]) == Some(u@));
                let official = lines_official(&ls);
                assert(official == block_official(rest[0]));
                if official {
                    return Some(string_of(&u));
                }
                if first.is_none() {
                    first = Some(string_of(&u));
                }
            }
        }
        i = i + 1;
    }
    first
}

/// What stands behind the first `mark` in an address.
pub open spec fn behind(url: Seq<char>, mark: Seq<char>) -> Option<Seq<char>> {
    let parts = text::pieces(url, mark);
    if parts.len() > 1 {
        Some(parts[1])
    } else {
        None
    }
}

/// The owner and the name of a repository in what stands behind the host: what
/// follows an `@`, `#` or `?` is left out, and so is an ending of `.git`.
pub open spec fn owner_and_name(rest: Seq<char>) -> Option<(Seq<char>, Seq<char>)> {
    let path = text::split(rest, seq!['@', '#', '?'])[0];
    let parts = text::split(without_around(path, '/'), seq!['/']);
    if parts.len() < 2 {
        None
    } else {
        let owner = parts[0];
        let name = text::trim_end_of(text::without_ending(parts[1], ".git"@), seq!['/']);
        if owner.len() == 0 || name.len() == 0 {
            None
        } else {
            Some((owner, name))
        }
    }
}

/// The owner and the name of the repository at an address: of the form
/// `.../gh/OWNER/NAME@tag` or `github.com/OWNER/NAME.git`.
pub open spec fn owner_repo(url: Seq<char>) -> Option<(Seq<char>, Seq<char>)> {
    match behind(url, "/gh/"@) {
        Some(r) => owner_and_name(r),
        None => match behind(url, "github.com/"@) {
            Some(r) => owner_and_name(r),
            None => None,
        },
    }
}

fn piece_behind(url: &Vec<char>, mark: &Vec<char>) -> (r: Option<Vec<char>>)
    requires
        mark@.len() > 0,
    ensures
        match r {
            Some(p) => behind(url@, mark@) == Some(p@),
            None => behind(url@, mark@) is None,
        },
{
    let parts = split_text(url, mark);
    assert(text::buffers(parts@).len() == parts@.len());
    if parts.len() > 1 {
        assert(text::buffers(parts@)[1] == parts@[1]@);
        Some(text::copy_chars(&parts[1]))
    } else {
        None
    }
}

fn parse_owner_and_name(rest: &Vec<char>) -> (r: Option<(String, String)>)
    ensures
        match r {
            Some(p) => owner_and_name(rest@) == Some((p.0@, p.1@)),
            None => owner_and_name(rest@) is None,
        },
{
    let mut ends: Vec<char> = Vec::new();
    ends.push('@');
    ends.push('#');
    ends.push('?');
    assert(ends@ =~= seq!['@', '#', '?']);
    let heads = split_chars(rest, &ends);
    assert(text::buffers(heads@)[0] == heads@[0]@);
    let path = drop_around(&heads[0], '/');
    let mut slash: Vec<char> = Vec::new();
    slash.push('/');
    assert(slash@ =~= seq!['/']);
    let parts = split_chars(&path, &slash);
    assert(text::buffers(parts@).len() == parts@.len());
    if parts.len() < 2 {
        return None;
    }
    assert(text::buffers(parts@)[0] == parts@[0]@);
    assert(text::buffers(parts@)[1] == parts@[1]@);
    proof {
        reveal_strlit(".git");
    }
    let name = trim_end_set(&drop_endings(&parts[1], &chars_of(".git")), &slash);
    if parts[0].len() == 0 || name.len() == 0 {
        None
    } else {
        Some((string_of(&parts[0]), string_of(&name)))
    }
}

/// The owner and the name of the repository of the library, out of the list of
/// repositories; the list is missing where it cannot be read.
pub fn official_owner_repo(list: &Option<String>) -> (r: Option<(String, String)>)
    ensures
        match r {
            Some(p) => named_repository(text::opt_text(*list)) == Some((p.0@, p.1@)),
            None => named_repository(text::opt_text(*list)) is None,
        },
{
    let text_of_list = match list {
        Some(t) => t,
        None => {
            return None;
        },
    };
    let url = match official_repo_url(text_of_list.as_str()) {
        Some(u) => chars_of(u.as_str()),
        None => {
            return None;
        },
    };
    proof {
        reveal_strlit("/gh/");
        reveal_strlit("github.com/");
    }
    match piece_behind(&url, &chars_of("/gh/")) {
        Some(rest) => parse_owner_and_name(&rest),
        None => match piece_behind(&url, &chars_of("github.com/")) {
            Some(rest) => parse_owner_and_name(&rest),
            None => None,
        },
    }
}

/// The owner and the name of the repository of the library.
pub open spec fn named_repository(list: Option<Seq<char>>) -> Option<(Seq<char>, Seq<char>)> {
    match list {
        Some(t) => match repository_url(t) {
            Some(u) => owner_repo(u),
            None => None,
        },
        None => None,
    }
}

// ---------------------------------------------------------------------------
// What can be relied on
// ---------------------------------------------------------------------------

/// The primary monitor is the first that is marked as primary; where none is, the first
/// at the origin of the desktop; where there is none there either, the first of all.
pub proof fn law_primary_monitor_is_found(ms: Seq<MonitorText>, i: int)
    requires
        0 <= i < ms.len(),
    ensures
        ms[i].is_primary && (forall|j: int| 0 <= j < i ==> !(#[trigger] ms[j]).is_primary) ==> primary_index(ms)
            == Some(i),
        (forall|j: int| 0 <= j < ms.len() ==> !(#[trigger] ms[j]).is_primary) && ms[i].position == (0i32, 0i32) && (
        forall|j: int| 0 <= j < i ==> (#[trigger] ms[j]).position != (0i32, 0i32)) ==> primary_index(ms) == Some(i),
        (forall|j: int|
            0 <= j < ms.len() ==> !(#[trigger] ms[j]).is_primary && ms[j].position != (0i32, 0i32)) ==> primary_index(
            ms,
        ) == Some(0int),
        primary_index(Seq::empty()) is None,
{
    let p = |m: MonitorText| m.is_primary;
    let q = |m: MonitorText| m.position == (0i32, 0i32);
    if ms[i].is_primary && (forall|j: int| 0 <= j < i ==> !(#[trigger] ms[j]).is_primary) {
        assert(forall|j: int| 0 <= j < i ==> !p(#[trigger] ms[j]));
        lists::lemma_first(ms, p, i);
    }
    if forall|j: int| 0 <= j < ms.len() ==> !(#[trigger] ms[j]).is_primary {
        assert(forall|j: int| 0 <= j < ms.len() ==> !p(#[trigger] ms[j]));
        lists::lemma_no_first(ms, p);
        if ms[i].position == (0i32, 0i32) && (forall|j: int|
            0 <= j < i ==> (#[trigger] ms[j]).position != (0i32, 0i32)) {
            assert(forall|j: int| 0 <= j < i ==> !q(#[trigger] ms[j]));
            lists::lemma_first(ms, q, i);
        }
        if forall|j: int| 0 <= j < ms.len() ==> (#[trigger] ms[j]).position != (0i32, 0i32) {
            assert(forall|j: int| 0 <= j < ms.len() ==> !q(#[trigger] ms[j]));
            lists::lemma_no_first(ms, q);
        }
    }
    lists::lemma_no_first(Seq::<MonitorText>::empty(), p);
    lists::lemma_no_first(Seq::<MonitorText>::empty(), q);
}

/// A monitor is where its display is and as large, and has no layers yet; the names
/// count from one, the ids from zero.
pub proof fn law_monitors_are_as_the_displays(d: Display, i: nat)
    ensures
        monitor_of(d, i).resolution == (d.width, d.height),
        monitor_of(d, i).position == (d.x, d.y),
        monitor_of(d, i).is_primary == d.is_primary,
        monitor_of(d, i).layers.len() == 0,
        monitor_of(d, i).color.len() == 0,
        monitor_of(d, i).id == "monitor-"@ + text::decimal(i),
        monitor_of(d, i).name == "Display "@ + text::decimal(i + 1),
{
}

/// The folders of the user are inside the data folder of the system, and are missing
/// where it is.
pub proof fn law_user_folders_are_in_the_data_folder(data: Seq<Seq<char>>, name: Seq<char>)
    ensures
        user_dir(Some(data)) == Some(data.push("Strata"@)),
        user_dir(None) is None,
        inner(user_dir(Some(data)), name) == Some(data.push("Strata"@).push(name)),
        inner(None, name) is None,
        in_root(Some(data.push(name)), Some(data)),
        name != "Strata"@ ==> !in_root(Some(data.push(name)), user_dir(Some(data))),
        !in_root(None, Some(data)),
        !in_root(Some(data), None),
{
    assert(data.push(name).subrange(0, data.len() as int) =~= data);
    let root = data.push("Strata"@);
    let other = data.push(name);
    if other.subrange(0, root.len() as int) == root {
        assert(other.subrange(0, root.len() as int)[data.len() as int] == name);
        assert(root[data.len() as int] == "Strata"@);
    }
}

/// A folder is taken from the working directory where it is there, else from two levels
/// up.
pub proof fn law_folders_are_near_or_up(name: Seq<Seq<char>>)
    ensures
        near_or_up(true, name) == name,
        near_or_up(false, name).len() == name.len() + 2,
        near_or_up(false, name)[0] == ".."@ && near_or_up(false, name)[1] == ".."@,
        near_or_up(false, name).subrange(2, (name.len() + 2) as int) == name,
{
    assert(near_or_up(false, name).subrange(2, (name.len() + 2) as int) =~= name);
}

/// A folder is a wallpaper exactly where it is a folder with a manifest that can be
/// loaded; the wallpaper is called and tagged as that says.
pub proof fn law_folders_become_wallpapers(f: FolderScan)
    ensures
        entry_of(f) is Some <==> f.is_dir && f.has_manifest && f.info is Some,
        entry_of(f) matches Some(e) ==> {
            &&& e.name == f.info->0.name@
            &&& e.author == f.info->0.author@
            &&& e.source_url == f.info->0.source_url@
            &&& e.tags == text::texts(f.info->0.tags@)
            &&& e.path == f.path@
            &&& f.has_png ==> e.thumbnail == Some(f.path@.push("thumbnail.png"@))
            &&& !f.has_png && f.has_jpg ==> e.thumbnail == Some(f.path@.push("thumbnail.jpg"@))
            &&& !f.has_png && !f.has_jpg && f.has_jpeg ==> e.thumbnail == Some(f.path@.push("thumbnail.jpeg"@))
            &&& !f.has_png && !f.has_jpg && !f.has_jpeg ==> e.thumbnail is None
        },
{
}

/// The wallpapers of a folder are those of its entries, in their order.
pub proof fn law_all_wallpapers_are_listed(fs: Seq<FolderScan>)
    ensures
        entries_of(fs) == fs.filter_map(|f: FolderScan| entry_of(f)),
    decreases fs.len(),
{
    let g = |f: FolderScan| entry_of(f);
    if fs.len() > 0 {
        let d = fs.drop_last();
        law_all_wallpapers_are_listed(d);
        match g(fs.last()) {
            Some(e) => {
                assert(d.filter_map(g) + seq![e] =~= d.filter_map(g).push(e));
            },
            None => {},
        }
    } else {
        assert(entries_of(fs) =~= fs.filter_map(g));
    }
}

/// The wallpapers of several folders are those of each, folder after folder.
pub proof fn law_all_folders_are_listed(roots: Seq<Vec<FolderScan>>)
    ensures
        all_entries(roots) == roots.map_values(
            |v: Vec<FolderScan>| v@.filter_map(|f: FolderScan| entry_of(f)),
        ).flatten_alt(),
    decreases roots.len(),
{
    let g = |v: Vec<FolderScan>| v@.filter_map(|f: FolderScan| entry_of(f));
    let s = roots.map_values(g);
    if roots.len() > 0 {
        law_all_folders_are_listed(roots.drop_last());
        law_all_wallpapers_are_listed(roots.last()@);
        assert(s.drop_last() =~= roots.drop_last().map_values(g));
        assert(s.last() == g(roots.last()));
    } else {
        assert(all_entries(roots) =~= s.flatten_alt());
    }
}

/// An entry of an archive goes to its place inside the folder, without the components
/// that are left out; it is a folder where its name ends with a slash. Where its place
/// is missing or leads elsewhere, it is skipped.
pub proof fn law_entries_go_to_their_places(
    name: Seq<char>,
    gone: Seq<Seq<char>>,
    rel: Seq<Seq<char>>,
    dest: Seq<Seq<char>>,
)
    requires
        gone.len() == 0 || rel.len() > 0,
    ensures
        ({
            let step = unpack_at(name, Some(gone + rel), dest, gone.len());
            let plain = archive::plain_parts(gone + rel);
            &&& !plain ==> step is Skip
            &&& plain && name.len() > 0 && name[name.len() - 1] == '/' ==> step == UnpackText::MakeFolder(dest + rel)
            &&& plain && (name.len() == 0 || name[name.len() - 1] != '/') ==> step == UnpackText::WriteFile(dest + rel)
        }),
        unpack_at(name, None, dest, gone.len()) is Skip,
        gone.len() > 0 ==> unpack_at(name, Some(gone), dest, gone.len()) is Skip,
{
    let l = gone + rel;
    assert(l.subrange(gone.len() as int, l.len() as int) =~= rel);
}

/// An archive holds a manifest where a place ends with the name of one, in whatever
/// folder.
pub proof fn law_manifests_are_found(folder: Seq<Seq<char>>, name: Seq<char>)
    ensures
        is_manifest(Some(folder.push(name))) <==> name == "manifest.toml"@,
        !is_manifest(Some(Seq::empty())),
        !is_manifest(None),
{
}

/// A JSON file is one whose name ends so.
pub proof fn law_json_files_end_so(stem: Seq<char>, other: Seq<char>)
    ensures
        is_json_name(stem + ".json"@),
        is_json_name(other) ==> other.len() >= 5 && other.subrange(other.len() - 5, other.len() as int) == seq![
            '.',
            'j',
            's',
            'o',
            'n',
        ],
{
    reveal_strlit(".json");
    let s = stem + ".json"@;
    assert(s.subrange(s.len() - 5, s.len() as int) =~= ".json"@);
    assert(".json"@ =~= seq!['.', 'j', 's', 'o', 'n']);
}

/// What is plainly inside a folder begins with its place, and goes on with plain names.
pub proof fn law_plain_places_are_inside(l: Seq<Seq<char>>, dest: Seq<Seq<char>>, i: int)
    requires
        plainly_inside(l, dest),
    ensures
        l.len() >= dest.len(),
        0 <= i < dest.len() ==> l[i] == dest[i],
        dest.len() <= i < l.len() ==> archive::plain_part(l[i]),
{
    paths::law_places_are_inside_what_they_begin_with(dest, Seq::empty(), l);
    if dest.len() <= i < l.len() {
        assert(l.subrange(dest.len() as int, l.len() as int)[i - dest.len()] == l[i]);
    }
}

/// The letters and digits of a text stay, in their order.
pub proof fn law_letters_stay(s: Seq<char>)
    ensures
        dashed(s).filter(|c: char| text::is_ascii_word(c)) == s.filter(|c: char| text::is_ascii_word(c)),
        (forall|i: int| 0 <= i < s.len() ==> text::is_ascii_word(#[trigger] s[i])) ==> dashed(s) == s,
    decreases s.len(),
{
    reveal(Seq::filter);
    let p = |c: char| text::is_ascii_word(c);
    if s.len() > 0 {
        let d = s.drop_last();
        law_letters_stay(d);
        let b = dashed(d);
        let c = s.last();
        assert(b.push(c).drop_last() =~= b);
        assert(b.push('-').drop_last() =~= b);
        assert(!p('-'));
        assert(d.push(c) =~= s);
        assert(forall|i: int| 0 <= i < d.len() ==> #[trigger] d[i] == s[i]);
        assert(s[s.len() - 1] == c);
    } else {
        assert(dashed(s) =~= s);
    }
}

/// A run of other characters between letters or digits becomes one dash.
pub proof fn law_runs_become_dashes(a: Seq<char>, run: Seq<char>, b: Seq<char>)
    requires
        a.len() > 0 && text::is_ascii_word(a.last()),
        run.len() > 0 && forall|i: int| 0 <= i < run.len() ==> !text::is_ascii_word(#[trigger] run[i]),
        b.len() > 0 && text::is_ascii_word(b[0]),
    ensures
        dashed(a + run + b) == dashed(a) + seq!['-'] + dashed(b),
{
    lemma_run_is_one_dash(a, run);
    lemma_dashed_goes_on(a + run, b);
    assert(dashed(a).push('-') =~= dashed(a) + seq!['-']);
}

proof fn lemma_run_is_one_dash(a: Seq<char>, run: Seq<char>)
    requires
        a.len() > 0 && text::is_ascii_word(a.last()),
        run.len() > 0 && forall|i: int| 0 <= i < run.len() ==> !text::is_ascii_word(#[trigger] run[i]),
    ensures
        dashed(a + run) == dashed(a).push('-'),
    decreases run.len(),
{
    let all = a + run;
    let d = run.drop_last();
    assert(all.drop_last() =~= a + d);
    assert(all.last() == run.last());
    assert(run[run.len() - 1] == run.last());
    if d.len() > 0 {
        assert(forall|i: int| 0 <= i < d.len() ==> #[trigger] d[i] == run[i]);
        lemma_run_is_one_dash(a, d);
    } else {
        assert(a + d =~= a);
        assert(dashed(a).last() == a.last());
    }
}

proof fn lemma_dashed_goes_on(a: Seq<char>, b: Seq<char>)
    requires
        b.len() > 0 && text::is_ascii_word(b[0]),
    ensures
        dashed(a + b) == dashed(a) + dashed(b),
        dashed(b).len() > 0,
    decreases b.len(),
{
    let all = a + b;
    let d = b.drop_last();
    assert(all.drop_last() =~= a + d);
    assert(all.last() == b.last());
    if d.len() > 0 {
        assert(d[0] == b[0]);
        lemma_dashed_goes_on(a, d);
        assert((dashed(a) + dashed(d)).last() == dashed(d).last());
        assert(dashed(all) =~= dashed(a) + dashed(b));
    } else {
        assert(a + d =~= a);
        assert(d =~= Seq::<char>::empty());
        assert(b.last() == b[0]);
        assert(dashed(b) =~= seq![b[0]]);
        assert(dashed(all) =~= dashed(a) + dashed(b));
    }
}

/// Where a name has no letters or digits, the folder gets the name that stands in.
pub proof fn law_nameless_folders_get_a_name(lowered: Seq<char>, fallback: Seq<char>)
    requires
        forall|i: int| 0 <= i < lowered.len() ==> !text::is_ascii_word(#[trigger] lowered[i]),
    ensures
        slug_of_lowered(lowered, fallback) == fallback,
{
    lemma_only_dashes(lowered);
    let d = dashed(lowered);
    let set = seq!['-'];
    assert(set[0] == '-');
    if d.len() > 0 {
        assert(d[0] == '-');
        assert(d.subrange(1, d.len() as int) =~= Seq::<char>::empty());
        assert(text::trim_start_of(d, set) == text::trim_start_of(Seq::<char>::empty(), set));
    } else {
        assert(d =~= Seq::<char>::empty());
    }
    assert(text::trim_start_of(Seq::<char>::empty(), set) == Seq::<char>::empty());
    assert(text::trim_end_of(Seq::<char>::empty(), set) == Seq::<char>::empty());
}

proof fn lemma_only_dashes(s: Seq<char>)
    requires
        forall|i: int| 0 <= i < s.len() ==> !text::is_ascii_word(#[trigger] s[i]),
    ensures
        dashed(s).len() <= 1,
        dashed(s).len() == 1 ==> dashed(s)[0] == '-',
    decreases s.len(),
{
    if s.len() > 0 {
        let d = s.drop_last();
        assert(forall|i: int| 0 <= i < d.len() ==> #[trigger] d[i] == s[i]);
        assert(s[s.len() - 1] == s.last());
        lemma_only_dashes(d);
    }
}

/// The names that are tried for a folder are its slug and then the slug with a number,
/// from two on; the first that is free is taken.
pub proof fn law_free_names_are_taken(s: Seq<char>, taken: Seq<Seq<char>>, name: Seq<char>, n: nat)
    requires
        n >= 2,
    ensures
        candidate(s, 1) == s,
        candidate(s, n) == s + "-"@ + text::decimal(n),
        is_free_name(s, taken, name) ==> !taken.contains(name),
        !taken.contains(s) ==> (is_free_name(s, taken, name) <==> name == s),
        is_free_name(s, taken, name) && taken.contains(s) && !taken.contains(candidate(s, 2)) ==> name == s + "-"@
            + text::decimal(2),
{
    if !taken.contains(s) && name == s {
        assert(name == candidate(s, 1));
    }
    if is_free_name(s, taken, name) {
        let k = choose|k: nat|
            1 <= k && name == #[trigger] candidate(s, k) && !taken.contains(name) && forall|j: nat|
                1 <= j < k ==> taken.contains(#[trigger] candidate(s, j));
        if k > 1 {
            assert(taken.contains(candidate(s, 1)));
        }
        if k > 2 {
            assert(taken.contains(candidate(s, 2)));
        }
    }
}

/// An imported shader is called as it says, or as its file where it does not say.
pub proof fn law_imports_keep_their_name(name: Seq<char>, stem: Seq<char>)
    ensures
        name != "Imported Shader"@ ==> import_name(Some(name), Some(stem)) == name && import_name(Some(name), None)
            == name,
        import_name(Some("Imported Shader"@), Some(stem)) == stem,
        import_name(None, Some(stem)) == stem,
        import_name(None, None) == "imported-shader"@,
        import_name(Some("Imported Shader"@), None) == "imported-shader"@,
{
}

/// A line of the form `url = "..."` gives the address between the quotes, whatever white
/// space stands around it.
pub proof fn law_lines_give_addresses(
    front: Seq<char>,
    gap: Seq<char>,
    other: Seq<char>,
    u: Seq<char>,
    behind: Seq<char>,
)
    requires
        forall|i: int| 0 <= i < front.len() ==> text::is_whitespace(#[trigger] front[i]),
        forall|i: int| 0 <= i < gap.len() ==> text::is_whitespace(#[trigger] gap[i]),
        forall|i: int| 0 <= i < other.len() ==> text::is_whitespace(#[trigger] other[i]),
        forall|i: int| 0 <= i < behind.len() ==> text::is_whitespace(#[trigger] behind[i]),
        u.len() > 0 && u[0] != '"' && u.last() != '"',
    ensures
        line_url(front + ("url"@ + gap + seq!['='] + other + seq!['"'] + u + seq!['"']) + behind) == Some(u),
{
    reveal_strlit("url");
    let core = "url"@ + gap + seq!['='] + other + seq!['"'] + u + seq!['"'];
    assert(core[0] == 'u');
    assert(core.last() == '"');
    text::law_trimmed_texts_stay(front, core, behind);
    assert(text::begins_with(core, "url"@)) by {
        assert(core.subrange(0, 3) =~= "url"@);
    }
    let none = Seq::<char>::empty();
    let q = seq!['"'] + u + seq!['"'];
    let x = seq!['='] + other + q;
    assert(core.subrange(3, core.len() as int) =~= gap + x + none);
    assert(x[0] == '=' && x.last() == '"');
    text::law_trimmed_texts_stay(gap, x, none);
    assert(x + none =~= x);
    assert(x.subrange(1, x.len() as int) =~= other + q + none);
    assert(q[0] == '"' && q.last() == '"');
    text::law_trimmed_texts_stay(other, q, none);
    let set = seq!['"'];
    assert(set[0] == '"');
    assert(forall|c: char| set.contains(c) <==> c == '"');
    text::law_inner_texts_stay(seq!['"'], u, seq!['"'], set);
}

/// A line that begins otherwise gives no address.
pub proof fn law_other_lines_give_none(line: Seq<char>)
    requires
        !text::begins_with(text::trim(line), "url"@),
    ensures
        line_url(line) is None,
{
}

/// The address in a block is that of its first line that gives one, unless it is empty.
pub proof fn law_first_line_gives_the_address(ls: Seq<Seq<char>>, k: int)
    requires
        0 <= k < ls.len(),
        forall|j: int| 0 <= j < k ==> line_url(#[trigger] ls[j]) is None,
        line_url(ls[k]) is Some,
    ensures
        lines_url(ls) == line_url(ls[k]),
    decreases ls.len(),
{
    if k > 0 {
        let rest = ls.subrange(1, ls.len() as int);
        assert(line_url(ls[0]) is None);
        assert(rest[k - 1] == ls[k]);
        assert forall|j: int| 0 <= j < k - 1 implies line_url(#[trigger] rest[j]) is None by {
            assert(rest[j] == ls[j + 1]);
        }
        law_first_line_gives_the_address(rest, k - 1);
    }
}

/// A block without a line that gives an address has none, and neither has one whose
/// address is empty.
pub proof fn law_blocks_have_addresses(block: Seq<char>, k: int)
    ensures
        (forall|j: int| 0 <= j < text::lines(block).len() ==> line_url(#[trigger] text::lines(block)[j]) is None)
            ==> block_url(block) is None,
        block_url(block) is Some ==> block_url(block)->0.len() > 0 && lines_url(text::lines(block)) == block_url(block),
        lines_url(text::lines(block)) is Some && lines_url(text::lines(block))->0.len() > 0 ==> block_url(block)
            is Some,
        block_official(block) <==> exists|i: int|
            0 <= i < text::lines(block).len() && text::begins_with(
                text::trim(#[trigger] text::lines(block)[i]),
                "official"@,
            ) && text::has_text(text::lines(block)[i], "true"@),
{
    let ls = text::lines(block);
    if forall|j: int| 0 <= j < ls.len() ==> line_url(#[trigger] ls[j]) is None {
        lemma_no_line_gives_one(ls);
    }
    if block_official(block) {
        let i = choose|i: int| 0 <= i < ls.len() && #[trigger] says_official(ls[i]);
        assert(text::begins_with(text::trim(ls[i]), "official"@));
    }
    if exists|i: int|
        0 <= i < ls.len() && text::begins_with(text::trim(#[trigger] ls[i]), "official"@) && text::has_text(
            ls[i],
            "true"@,
        ) {
        let i = choose|i: int|
            0 <= i < ls.len() && text::begins_with(text::trim(#[trigger] ls[i]), "official"@) && text::has_text(
                ls[i],
                "true"@,
            );
        assert(says_official(ls[i]));
    }
}

proof fn lemma_no_line_gives_one(ls: Seq<Seq<char>>)
    requires
        forall|j: int| 0 <= j < ls.len() ==> line_url(#[trigger] ls[j]) is None,
    ensures
        lines_url(ls) is None,
    decreases ls.len(),
{
    if ls.len() > 0 {
        let rest = ls.subrange(1, ls.len() as int);
        assert(line_url(ls[0]) is None);
        assert forall|j: int| 0 <= j < rest.len() implies line_url(#[trigger] rest[j]) is None by {
            assert(rest[j] == ls[j + 1]);
        }
        lemma_no_line_gives_one(rest);
    }
}

/// The repository to use is the first official one with an address; where there is
/// none, the first with an address.
pub proof fn law_official_repository_is_used(list: Seq<char>, k: int)
    requires
        0 <= k < repository_blocks(list).len(),
        block_url(repository_blocks(list)[k]) is Some,
    ensures
        ({
            let bs = repository_blocks(list);
            &&& block_official(bs[k]) && (forall|j: int|
                0 <= j < k ==> block_url(#[trigger] bs[j]) is None || !block_official(bs[j])) ==> repository_url(list)
                == block_url(bs[k])
            &&& (forall|j: int|
                0 <= j < bs.len() ==> block_url(#[trigger] bs[j]) is None || !block_official(bs[j])) && (forall|j: int|
                0 <= j < k ==> block_url(#[trigger] bs[j]) is None) ==> repository_url(list) == block_url(bs[k])
        }),
{
    let bs = repository_blocks(list);
    if block_official(bs[k]) && (forall|j: int|
        0 <= j < k ==> block_url(#[trigger] bs[j]) is None || !block_official(bs[j])) {
        lemma_first_official(bs, k);
    }
    if (forall|j: int| 0 <= j < bs.len() ==> block_url(#[trigger] bs[j]) is None || !block_official(bs[j])) && (
    forall|j: int| 0 <= j < k ==> block_url(#[trigger] bs[j]) is None) {
        lemma_no_official(bs);
        lemma_first_address(bs, k);
    }
}

proof fn lemma_first_official(bs: Seq<Seq<char>>, k: int)
    requires
        0 <= k < bs.len(),
        block_url(bs[k]) is Some && block_official(bs[k]),
        forall|j: int| 0 <= j < k ==> block_url(#[trigger] bs[j]) is None || !block_official(bs[j]),
    ensures
        official_url(bs) == block_url(bs[k]),
    decreases bs.len(),
{
    if k > 0 {
        let rest = bs.subrange(1, bs.len() as int);
        assert(block_url(bs[0]) is None || !block_official(bs[0]));
        assert(rest[k - 1] == bs[k]);
        assert forall|j: int| 0 <= j < k - 1 implies block_url(#[trigger] rest[j]) is None || !block_official(
            rest[j],
        ) by {
            assert(rest[j] == bs[j + 1]);
        }
        lemma_first_official(rest, k - 1);
    }
}

proof fn lemma_no_official(bs: Seq<Seq<char>>)
    requires
        forall|j: int| 0 <= j < bs.len() ==> block_url(#[trigger] bs[j]) is None || !block_official(bs[j]),
    ensures
        official_url(bs) is None,
    decreases bs.len(),
{
    if bs.len() > 0 {
        let rest = bs.subrange(1, bs.len() as int);
        assert(block_url(bs[0]) is None || !block_official(bs[0]));
        assert forall|j: int| 0 <= j < rest.len() implies block_url(#[trigger] rest[j]) is None || !block_official(
            rest[j],
        ) by {
            assert(rest[j] == bs[j + 1]);
        }
        lemma_no_official(rest);
    }
}

proof fn lemma_first_address(bs: Seq<Seq<char>>, k: int)
    requires
        0 <= k < bs.len(),
        block_url(bs[k]) is Some,
        forall|j: int| 0 <= j < k ==> block_url(#[trigger] bs[j]) is None,
    ensures
        first_url(bs) == block_url(bs[k]),
    decreases bs.len(),
{
    if k > 0 {
        let rest = bs.subrange(1, bs.len() as int);
        assert(block_url(bs[0]) is None);
        assert(rest[k - 1] == bs[k]);
        assert forall|j: int| 0 <= j < k - 1 implies block_url(#[trigger] rest[j]) is None by {
            assert(rest[j] == bs[j + 1]);
        }
        lemma_first_address(rest, k - 1);
    }
}

/// A repository stands behind its heading; what is before the first heading is of none.
pub proof fn law_repositories_stand_behind_their_headings(front: Seq<char>, block: Seq<char>)
    requires
        forall|j: int|
            0 <= j < front.len() ==> !#[trigger] text::text_at(
                front + "[[repository]]"@ + block,
                "[[repository]]"@,
                j,
            ),
        !text::has_text(block, "[[repository]]"@),
    ensures
        repository_blocks(front + "[[repository]]"@ + block) == seq![block],
{
    reveal_strlit("[[repository]]");
    text::law_pieces_end_where_the_text_stands(front, "[[repository]]"@, block);
    let parts = text::pieces(front + "[[repository]]"@ + block, "[[repository]]"@);
    assert(parts =~= seq![front, block]);
    assert(parts.subrange(1, parts.len() as int) =~= seq![block]);
}

/// The owner and the name of a repository stand behind the host, with a slash between
/// them; an ending of `.git` is left out, and so is what follows an `@`, `#` or `?`.
pub proof fn law_repositories_have_owner_and_name(
    owner: Seq<char>,
    name: Seq<char>,
    mark: char,
    rest: Seq<char>,
)
    requires
        owner.len() > 0,
        name.len() > 0,
        forall|i: int| 0 <= i < owner.len() ==> !seq!['@', '#', '?', '/'].contains(#[trigger] owner[i]),
        forall|i: int| 0 <= i < name.len() ==> !seq!['@', '#', '?', '/'].contains(#[trigger] name[i]),
        !text::ends_with(name, ".git"@),
        seq!['@', '#', '?'].contains(mark),
    ensures
        owner_and_name(owner + seq!['/'] + name) == Some((owner, name)),
        owner_and_name((owner + seq!['/'] + name).push(mark) + rest) == Some((owner, name)),
        owner_and_name(owner + seq!['/'] + (name + ".git"@)) == Some((owner, name)),
        owner_and_name(owner) is None,
{
    reveal_strlit(".git");
    lemma_owner_and_name(owner, name, mark, rest);
    assert(name + ".git"@ != name) by {
        assert((name + ".git"@).len() == name.len() + 4);
    }
    let long = name + ".git"@;
    assert forall|i: int| 0 <= i < long.len() implies !seq!['@', '#', '?', '/'].contains(#[trigger] long[i]) by {
        if i >= name.len() {
            let k = i - name.len();
            assert(k == 0 || k == 1 || k == 2 || k == 3);
            assert(long[i] == ".git"@[k]);
        } else {
            assert(long[i] == name[i]);
        }
    }
    lemma_owner_and_name(owner, long, mark, rest);
    text::law_endings_are_taken_off(name, ".git"@);
    let all = seq!['@', '#', '?', '/'];
    assert(all[0] == '@' && all[1] == '#' && all[2] == '?' && all[3] == '/');
    let seps = seq!['@', '#', '?'];
    let slash = seq!['/'];
    assert forall|i: int| 0 <= i < owner.len() implies !seps.contains(#[trigger] owner[i]) && owner[i] != '/' by {
        assert(!all.contains(owner[i]));
    }
    assert(forall|c: char| slash.contains(c) <==> c == '/') by {
        assert(slash[0] == '/');
    }
    assert(seps[0] == '@');
    text::law_texts_are_split_at_separators(owner, '@', rest, seps);
    let none = Seq::<char>::empty();
    assert(none + owner + none =~= owner);
    text::law_inner_texts_stay(none, owner, none, slash);
    text::law_texts_are_split_at_separators(owner, '/', none, slash);
    lemma_last_stays(name, slash);
    lemma_last_stays(owner, slash);
}

proof fn lemma_last_stays(s: Seq<char>, set: Seq<char>)
    ensures
        s.len() > 0 && !set.contains(s.last()) ==> text::trim_end_of(s, set) == s,
{
}

proof fn lemma_owner_and_name(owner: Seq<char>, name: Seq<char>, mark: char, rest: Seq<char>)
    requires
        owner.len() > 0,
        name.len() > 0,
        forall|i: int| 0 <= i < owner.len() ==> !seq!['@', '#', '?', '/'].contains(#[trigger] owner[i]),
        forall|i: int| 0 <= i < name.len() ==> !seq!['@', '#', '?', '/'].contains(#[trigger] name[i]),
        seq!['@', '#', '?'].contains(mark),
    ensures
        ({
            let bare = text::trim_end_of(text::without_ending(name, ".git"@), seq!['/']);
            let r = if bare.len() == 0 {
                None
            } else {
                Some((owner, bare))
            };
            &&& owner_and_name(owner + seq!['/'] + name) == r
            &&& owner_and_name((owner + seq!['/'] + name).push(mark) + rest) == r
        }),
        !text::ends_with(name, ".git"@) ==> text::trim_end_of(text::without_ending(name, ".git"@), seq!['/']) == name,
        forall|s: Seq<char>|
            s.len() > 0 && s.last() != '/' ==> #[trigger] text::trim_end_of(s, seq!['/']) == s,
{
    reveal_strlit(".git");
    let all = seq!['@', '#', '?', '/'];
    assert(all[0] == '@' && all[1] == '#' && all[2] == '?' && all[3] == '/');
    let seps = seq!['@', '#', '?'];
    assert(seps[0] == '@' && seps[1] == '#' && seps[2] == '?');
    let slash = seq!['/'];
    assert(slash[0] == '/');
    assert(forall|c: char| slash.contains(c) <==> c == '/');
    let path = owner + slash + name;
    assert forall|i: int| 0 <= i < path.len() implies !seps.contains(#[trigger] path[i]) by {
        if i < owner.len() {
            assert(path[i] == owner[i]);
            assert(!all.contains(owner[i]));
        } else if i > owner.len() {
            assert(path[i] == name[i - owner.len() - 1]);
            assert(!all.contains(name[i - owner.len() - 1]));
        }
    }
    text::law_texts_are_split_at_separators(path, mark, rest, seps);
    assert(text::split(path.push(mark) + rest, seps)[0] == path);
    let none = Seq::<char>::empty();
    assert(none + path + none =~= path);
    assert(path[0] == owner[0]);
    assert(!all.contains(owner[0]));
    assert(path.last() == name[name.len() - 1]);
    assert(!all.contains(name[name.len() - 1]));
    text::law_inner_texts_stay(none, path, none, slash);
    assert forall|i: int| 0 <= i < owner.len() implies !slash.contains(#[trigger] owner[i]) by {
        assert(!all.contains(owner[i]));
    }
    assert forall|i: int| 0 <= i < name.len() implies !slash.contains(#[trigger] name[i]) by {
        assert(!all.contains(name[i]));
    }
    text::law_texts_are_split_at_separators(owner, '/', name, slash);
    text::law_texts_are_split_at_separators(name, '/', none, slash);
    assert(owner.push('/') + name =~= path);
    assert(text::split(path, slash) =~= seq![owner, name]);
    text::law_endings_are_taken_off(name, ".git"@);
    assert(name.last() == name[name.len() - 1]);
    lemma_last_stays(name, slash);
}

/// The repository at an address is what stands behind the host: behind `/gh/` where the
/// address has that, else behind `github.com/`.
pub proof fn law_addresses_name_their_repository(front: Seq<char>, rest: Seq<char>)
    ensures
        (forall|j: int| 0 <= j < front.len() ==> !#[trigger] text::text_at(front + "/gh/"@ + rest, "/gh/"@, j))
            && !text::has_text(rest, "/gh/"@) ==> owner_repo(front + "/gh/"@ + rest) == owner_and_name(rest),
        (forall|j: int|
            0 <= j < front.len() ==> !#[trigger] text::text_at(front + "github.com/"@ + rest, "github.com/"@, j))
            && !text::has_text(rest, "github.com/"@) && !text::has_text(front + "github.com/"@ + rest, "/gh/"@)
            ==> owner_repo(front + "github.com/"@ + rest) == owner_and_name(rest),
        !text::has_text(front, "/gh/"@) && !text::has_text(front, "github.com/"@) ==> owner_repo(front) is None,
{
    reveal_strlit("/gh/");
    reveal_strlit("github.com/");
    if forall|j: int| 0 <= j < front.len() ==> !#[trigger] text::text_at(front + "/gh/"@ + rest, "/gh/"@, j) {
        text::law_pieces_end_where_the_text_stands(front, "/gh/"@, rest);
    }
    if forall|j: int|
        0 <= j < front.len() ==> !#[trigger] text::text_at(front + "github.com/"@ + rest, "github.com/"@, j) {
        text::law_pieces_end_where_the_text_stands(front, "github.com/"@, rest);
    }
}

/// Without a list of repositories there is no repository of the library; with one it is
/// that at the address to use.
pub proof fn law_repository_comes_from_the_list(list: Seq<char>)
    ensures
        named_repository(None) is None,
        repository_url(list) is None ==> named_repository(Some(list)) is None,
        repository_url(list) matches Some(u) ==> named_repository(Some(list)) == owner_repo(u),
{
}

/// The layer of a wallpaper that was just assigned is opaque, in full size, over the whole
/// monitor, visible and blended as usual.
pub proof fn law_fresh_layers_are_plain(path: Seq<Seq<char>>, name: Seq<char>)
    ensures
        fresh_layer(path, name).path == path,
        fresh_layer(path, name).name == name,
        fresh_layer(path, name).opacity == Bits32(0x3f80_0000),
        fresh_layer(path, name).scale == Bits32(0x3f80_0000),
        fresh_layer(path, name).positioning == "Fill"@,
        fresh_layer(path, name).transform == (Rect32 {
            x: Bits32(0),
            y: Bits32(0),
            w: Bits32(0x3f80_0000),
            h: Bits32(0x3f80_0000),
        }),
        fresh_layer(path, name).visible,
        fresh_layer(path, name).blend == "normal"@,
{
}

/// An entry is a JSON file or a manifest by its name, and one whose name cannot be read is
/// neither.
pub proof fn law_entries_are_known_by_their_names(bytes: Seq<u8>, i: nat, name: Seq<char>)
    ensures
        is_json(Some(name)) <==> is_json_name(text::unicode_lowercase(name)),
        !is_json(None),
        archive::zip_name(bytes, i) is Err ==> !names_manifest(bytes, i) && !may_name_manifest(bytes, i),
        archive::zip_name(bytes, i) matches Ok(n) ==> {
            &&& archive::is_portable(n) ==> names_manifest(bytes, i) == is_manifest(archive::place_of(n))
            &&& archive::is_portable(n) ==> may_name_manifest(bytes, i) == is_manifest(archive::place_of(n))
            &&& !archive::is_portable(n) ==> !names_manifest(bytes, i) && may_name_manifest(bytes, i)
        },
{
}

/// A slug is made of small letters, digits and single dashes, with none at either end.
pub proof fn law_slugs_are_plain(s: Seq<char>, i: int)
    requires
        is_slug(s),
        0 <= i < s.len(),
    ensures
        97 <= s[i] as int <= 122 || 48 <= s[i] as int <= 57 || s[i] == '-',
        s[0] != '-' && s[s.len() - 1] != '-',
        i + 1 < s.len() && s[i] == '-' ==> s[i + 1] != '-',
{
}

} // verus!
