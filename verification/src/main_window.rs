//! The main window: when it is painted anew, and how it hides in the tray.
use vstd::prelude::*;
use crate::controller;
use crate::controller::MonitorInfo;
use crate::paths;
use crate::paths::Location;

verus! {

broadcast use vstd::string::group_string_axioms;

/// How long the window rests after a move before it is painted anew, in milliseconds.
pub const MOVE_SETTLE_MS: u64 = 150;

/// How long the program runs before it starts itself again when its device is lost, in
/// milliseconds: a device that is broken from the start does not make it start over and
/// over.
pub const RELAUNCH_AFTER_MS: u64 = 20_000;

/// The state of the main window.
#[derive(Clone, Copy)]
pub struct MainWindow {
    /// Whether the window can be seen.
    pub visible: bool,
    pub maximized: bool,
    /// Whether the window is to be painted anew.
    pub needs_repaint: bool,
    /// When the window moved last, in milliseconds, until it has been dealt with.
    pub moved_at: Option<u64>,
    /// The size that the window gets back, after it was made larger to be painted anew.
    pub restore_size: Option<(u32, u32)>,
    pub hidden_to_tray: bool,
}

/// The window once moves that came to rest were dealt with.
pub open spec fn settled(w: MainWindow, now: u64) -> MainWindow {
    match w.moved_at {
        Some(t) => if now - t >= MOVE_SETTLE_MS {
            MainWindow { moved_at: None, needs_repaint: true, ..w }
        } else {
            w
        },
        None => w,
    }
}

/// The window after a tick.
pub open spec fn after_tick(w: MainWindow, now: u64, size: (u32, u32)) -> MainWindow {
    let s = settled(w, now);
    if s.restore_size is Some {
        MainWindow { restore_size: None, ..s }
    } else if s.needs_repaint && !s.maximized {
        MainWindow { needs_repaint: false, restore_size: Some(size), ..s }
    } else {
        MainWindow { needs_repaint: false, ..s }
    }
}

/// The size that the window is given in a tick.
pub open spec fn tick_size(w: MainWindow, now: u64, size: (u32, u32)) -> Option<(u32, u32)> {
    let s = settled(w, now);
    if s.restore_size is Some {
        s.restore_size
    } else if s.needs_repaint && !s.maximized {
        Some((size.0, (size.1 + 2) as u32))
    } else {
        None
    }
}

impl MainWindow {
    /// The window at the start; minimized it starts in the tray.
    pub fn new(minimized: bool) -> (w: MainWindow)
        ensures
            w == (MainWindow {
                visible: !minimized,
                maximized: false,
                needs_repaint: false,
                moved_at: None,
                restore_size: None,
                hidden_to_tray: minimized,
            }),
    {
        MainWindow {
            visible: !minimized,
            maximized: false,
            needs_repaint: false,
            moved_at: None,
            restore_size: None,
            hidden_to_tray: minimized,
        }
    }

    /// The window was resized, which paints it anew: a move before is dealt with.
    pub fn resized(&mut self, maximized: bool)
        ensures
            *final(self) == (MainWindow { maximized, moved_at: None, ..*old(self) }),
    {
        self.maximized = maximized;
        self.moved_at = None;
    }

    /// The window was covered or uncovered. Tells whether it is redrawn.
    pub fn occluded(&mut self, covered: bool) -> (redraw: bool)
        ensures
            redraw == !covered,
            *final(self) == (MainWindow {
                visible: !covered,
                needs_repaint: old(self).needs_repaint || !covered,
                ..*old(self)
            }),
    {
        self.visible = !covered;
        if !covered {
            self.needs_repaint = true;
        }
        !covered
    }

    /// The window got the focus: it is redrawn, and painted anew where it was thought
    /// hidden.
    pub fn focused(&mut self)
        ensures
            *final(self) == (MainWindow {
                visible: true,
                needs_repaint: old(self).needs_repaint || !old(self).visible,
                ..*old(self)
            }),
    {
        if !self.visible {
            self.needs_repaint = true;
        }
        self.visible = true;
    }

    /// The window moved.
    pub fn moved(&mut self, now: u64)
        ensures
            *final(self) == (MainWindow { moved_at: Some(now), ..*old(self) }),
    {
        self.moved_at = Some(now);
    }

    /// A tick of the timer: the size that the window is given, if any. To be painted
    /// anew the window is made a little larger in one tick, and gets its size back in
    /// the next; not while it is maximized, which that would end.
    pub fn tick(&mut self, now: u64, size: (u32, u32)) -> (r: Option<(u32, u32)>)
        requires
            size.1 <= u32::MAX - 2,
        ensures
            r == tick_size(*old(self), now, size),
            *final(self) == after_tick(*old(self), now, size),
    {
        if let Some(t) = self.moved_at {
            if now >= t && now - t >= MOVE_SETTLE_MS {
                self.moved_at = None;
                self.needs_repaint = true;
            }
        }
        if let Some(s) = self.restore_size {
            self.restore_size = None;
            return Some(s);
        }
        let wanted = self.needs_repaint;
        self.needs_repaint = false;
        if wanted && !self.maximized {
            self.restore_size = Some(size);
            return Some((size.0, size.1 + 2));
        }
        None
    }

    /// The window is hidden in the tray.
    pub fn hide_to_tray(&mut self)
        ensures
            *final(self) == (MainWindow { visible: false, hidden_to_tray: true, ..*old(self) }),
    {
        self.visible = false;
        self.hidden_to_tray = true;
    }

    /// The window comes back from the tray. Tells the size that it is given, if any:
    /// where it did not come back maximized it is made a little larger, to be painted
    /// anew.
    pub fn show_from_tray(&mut self, maximized: bool, size: (u32, u32)) -> (r: Option<(u32, u32)>)
        requires
            size.1 <= u32::MAX - 2,
        ensures
            ({
                let nudged = !maximized && old(self).restore_size is None;
                &&& r == (if nudged {
                    Some((size.0, (size.1 + 2) as u32))
                } else {
                    None
                })
                &&& *final(self) == (MainWindow {
                    visible: true,
                    hidden_to_tray: false,
                    restore_size: if nudged {
                        Some(size)
                    } else {
                        old(self).restore_size
                    },
                    ..*old(self)
                })
            }),
    {
        self.visible = true;
        self.hidden_to_tray = false;
        if !maximized && self.restore_size.is_none() {
            self.restore_size = Some(size);
            return Some((size.0, size.1 + 2));
        }
        None
    }

    /// What the entry of the tray menu says that shows or hides the window.
    pub fn toggle_label(&self) -> (r: &'static str)
        ensures
            r@ == (if self.hidden_to_tray {
                "Show Strata"@
            } else {
                "Hide Strata"@
            }),
    {
        if self.hidden_to_tray {
            "Show Strata"
        } else {
            "Hide Strata"
        }
    }
}

/// The window gets its size back: when a tick made it larger, the next tick gives it the
/// size it had, whatever size it has by then.
pub proof fn law_size_comes_back(w: MainWindow, now: u64, size: (u32, u32), later: u64, grown: (u32, u32))
    requires
        w.restore_size is None,
        tick_size(w, now, size) is Some,
    ensures
        tick_size(after_tick(w, now, size), later, grown) == Some(size),
        after_tick(after_tick(w, now, size), later, grown).restore_size is None,
{
}

/// A maximized window is not resized, but to get back a size it had before.
pub proof fn law_maximized_windows_stay(w: MainWindow, now: u64, size: (u32, u32))
    requires
        w.maximized,
        w.restore_size is None,
    ensures
        tick_size(w, now, size) is None,
{
}

/// Whether the program starts itself again because its device is lost.
pub fn relaunches(device_lost: bool, uptime_ms: u64) -> (r: bool)
    ensures
        r == (device_lost && uptime_ms > RELAUNCH_AFTER_MS),
{
    device_lost && uptime_ms > RELAUNCH_AFTER_MS
}

// ---------------------------------------------------------------------------
// What is running
// ---------------------------------------------------------------------------

/// Whether a layer is a movie, going by where it is kept.
pub open spec fn in_movies(dir: Option<Seq<Seq<char>>>, l: controller::LayerText) -> bool {
    match dir {
        Some(d) => paths::inside(l.path, d),
        None => false,
    }
}

/// Whether a list of layers has a visible shader.
pub open spec fn draws(dir: Option<Seq<Seq<char>>>, layers: Seq<controller::LayerText>) -> bool {
    exists|k: int| 0 <= k < layers.len() && (#[trigger] layers[k]).visible && !in_movies(dir, layers[k])
}

/// Whether a list of layers has a movie.
pub open spec fn plays(dir: Option<Seq<Seq<char>>>, layers: Seq<controller::LayerText>) -> bool {
    exists|k: int| 0 <= k < layers.len() && in_movies(dir, #[trigger] layers[k])
}

fn layers_active(dir: &Option<Location>, m: &MonitorInfo) -> (r: (bool, bool))
    ensures
        r.0 == draws(paths::opt_view(*dir), m@.layers),
        r.1 == plays(paths::opt_view(*dir), m@.layers),
{
    let ghost d = paths::opt_view(*dir);
    let ghost ls = m@.layers;
    let mut active = false;
    let mut movie = false;
    let mut k: usize = 0;
    while k < m.layers.len()
        invariant
            k <= m.layers@.len(),
            d == paths::opt_view(*dir),
            ls == controller::layer_texts(m.layers@),
            active == (exists|j: int| 0 <= j < k && (#[trigger] ls[j]).visible && !in_movies(d, ls[j])),
            movie == (exists|j: int| 0 <= j < k && in_movies(d, #[trigger] ls[j])),
        decreases m.layers.len() - k,
    {
        assert(ls[k as int] == m.layers@[k as int]@);
        let is_movie = match dir {
            Some(root) => m.layers[k].wallpaper_path.starts_with(root),
            None => false,
        };
        if is_movie {
            movie = true;
        } else if m.layers[k].visible {
            active = true;
        }
        k = k + 1;
    }
    (active, movie)
}

/// Whether the engine draws anything, and whether a movie plays; movies are known by the
/// folder they are kept in.
pub fn activity(monitors: &Vec<MonitorInfo>, movie_dir: &Option<Location>) -> (r: (bool, bool))
    ensures
        ({
            let ms = controller::monitor_texts(monitors@);
            let d = paths::opt_view(*movie_dir);
            &&& r.0 == (exists|i: int| 0 <= i < ms.len() && draws(d, (#[trigger] ms[i]).layers))
            &&& r.1 == (exists|i: int| 0 <= i < ms.len() && plays(d, (#[trigger] ms[i]).layers))
        }),
{
    let ghost ms = controller::monitor_texts(monitors@);
    let ghost d = paths::opt_view(*movie_dir);
    let mut active = false;
    let mut movie = false;
    let mut i: usize = 0;
    while i < monitors.len()
        invariant
            i <= monitors.len(),
            ms == controller::monitor_texts(monitors@),
            d == paths::opt_view(*movie_dir),
            active == (exists|j: int| 0 <= j < i && draws(d, (#[trigger] ms[j]).layers)),
            movie == (exists|j: int| 0 <= j < i && plays(d, (#[trigger] ms[j]).layers)),
        decreases monitors.len() - i,
    {
        assert(ms[i as int] == monitors@[i as int]@);
        let (a, m) = layers_active(movie_dir, &monitors[i]);
        if a {
            active = true;
        }
        if m {
            movie = true;
        }
        i = i + 1;
    }
    (active, movie)
}

// ---------------------------------------------------------------------------
// The icon in the tray
// ---------------------------------------------------------------------------

/// The file of the icon in the tray.
pub fn tray_icon_name(is_dark: bool) -> (r: &'static str)
    ensures
        r@ == (if is_dark {
            "app-icon_dark.png"@
        } else {
            "app-icon_light.png"@
        }),
{
    if is_dark {
        "app-icon_dark.png"
    } else {
        "app-icon_light.png"
    }
}

/// The place of a file that comes with the program.
pub open spec fn asset_place(
    name: Seq<char>,
    exe_dir: Option<Seq<Seq<char>>>,
    installed: bool,
    built: bool,
    here: bool,
) -> Seq<Seq<char>> {
    if exe_dir is Some && installed {
        exe_dir->0.push("assets"@).push(name)
    } else if exe_dir is Some && built {
        exe_dir->0.push(".."@).push(".."@).push("assets"@).push(name)
    } else if here {
        seq!["assets"@, name]
    } else {
        seq![".."@, ".."@, "assets"@, name]
    }
}

/// The place of a file that comes with the program: beside it, two folders above it, in
/// the current folder, or two folders above that. The flags say where the file is there.
pub fn asset_path(name: &str, exe_dir: &Option<Location>, installed: bool, built: bool, here: bool) -> (r: Location)
    ensures
        r@ == asset_place(name@, paths::opt_view(*exe_dir), installed, built, here),
{
    if let Some(dir) = exe_dir {
        if installed {
            return dir.join("assets").join(name);
        }
        if built {
            return dir.join("..").join("..").join("assets").join(name);
        }
    }
    let empty = Location { parts: Vec::new() };
    assert(empty@ =~= Seq::empty());
    if here {
        let r = empty.join("assets").join(name);
        assert(r@ =~= seq!["assets"@, name@]);
        r
    } else {
        let r = empty.join("..").join("..").join("assets").join(name);
        assert(r@ =~= seq![".."@, ".."@, "assets"@, name@]);
        r
    }
}

/// The side of the icon that stands in where the file cannot be read.
pub const FALLBACK_SIDE: usize = 16;

/// The colour of the icon that stands in: red, green, blue and opacity.
pub open spec fn fallback_byte(i: int) -> u8 {
    if i % 4 == 0 {
        0x4f
    } else if i % 4 == 1 {
        0x8a
    } else if i % 4 == 2 {
        0xf7
    } else {
        0xff
    }
}

/// The icon that stands in where the file cannot be read: a square of one colour.
pub fn fallback_icon() -> (r: Vec<u8>)
    ensures
        r@.len() == FALLBACK_SIDE * FALLBACK_SIDE * 4,
        forall|i: int| 0 <= i < r@.len() ==> #[trigger] r@[i] == fallback_byte(i),
{
    let mut r: Vec<u8> = Vec::new();
    let mut n: usize = 0;
    while n < FALLBACK_SIDE * FALLBACK_SIDE
        invariant
            n <= 256,
            r@.len() == 4 * n,
            forall|i: int| 0 <= i < r@.len() ==> #[trigger] r@[i] == fallback_byte(i),
        decreases 256 - n,
    {
        r.push(0x4f);
        r.push(0x8a);
        r.push(0xf7);
        r.push(0xff);
        n = n + 1;
    }
    r
}

// ---------------------------------------------------------------------------
// What can be relied on
// ---------------------------------------------------------------------------

/// A window that moved is painted anew once it rested for 150 milliseconds, and not
/// before; then it is made two pixels higher, unless it is maximized.
pub proof fn law_moved_windows_are_painted_anew(w: MainWindow, moved: u64, now: u64, size: (u32, u32))
    requires
        w.moved_at == Some(moved),
        w.restore_size is None,
        !w.needs_repaint,
        size.1 <= u32::MAX - 2,
    ensures
        now - moved < 150 ==> tick_size(w, now, size) is None && after_tick(w, now, size) == w,
        now - moved >= 150 && w.maximized ==> tick_size(w, now, size) is None,
        now - moved >= 150 && !w.maximized ==> {
            &&& tick_size(w, now, size) matches Some(s) && s.0 == size.0 && s.1 == size.1 + 2
            &&& after_tick(w, now, size).restore_size == Some(size)
        },
        now - moved >= 150 ==> after_tick(w, now, size).moved_at is None && !after_tick(w, now, size).needs_repaint,
        after_tick(w, now, size).visible == w.visible,
        after_tick(w, now, size).maximized == w.maximized,
        after_tick(w, now, size).hidden_to_tray == w.hidden_to_tray,
        RELAUNCH_AFTER_MS == 20_000,
{
}

/// A window that did not move and need not be painted anew is left as it is; one that
/// has to be is made larger at the next tick.
pub proof fn law_resting_windows_stay(w: MainWindow, now: u64, size: (u32, u32))
    requires
        w.moved_at is None,
        w.restore_size is None,
        size.1 <= u32::MAX - 2,
    ensures
        !w.needs_repaint ==> tick_size(w, now, size) is None && after_tick(w, now, size) == w,
        w.needs_repaint && !w.maximized ==> (tick_size(w, now, size) matches Some(s) && s.0 == size.0 && s.1 == size.1
            + 2),
{
}

/// A layer plays where its wallpaper is inside the folder of the movies; any other layer
/// that is visible is drawn.
pub proof fn law_layers_play_or_are_drawn(
    dir: Seq<Seq<char>>,
    name: Seq<Seq<char>>,
    layers: Seq<controller::LayerText>,
    k: int,
)
    requires
        0 <= k < layers.len(),
    ensures
        layers[k].path == dir + name ==> plays(Some(dir), layers),
        layers[k].path.len() < dir.len() && layers[k].visible ==> draws(Some(dir), layers),
        layers[k].visible ==> draws(None, layers),
        !plays(None, layers),
        plays(Some(dir), layers) ==> exists|i: int|
            0 <= i < layers.len() && (#[trigger] layers[i]).path.len() >= dir.len() && layers[i].path.subrange(
                0,
                dir.len() as int,
            ) == dir,
        draws(Some(dir), layers) ==> exists|i: int|
            0 <= i < layers.len() && (#[trigger] layers[i]).visible && !(layers[i].path.len() >= dir.len()
                && layers[i].path.subrange(0, dir.len() as int) == dir),
{
    if layers[k].path == dir + name {
        assert(layers[k].path.subrange(0, dir.len() as int) =~= dir);
        assert(in_movies(Some(dir), layers[k]));
    }
    if layers[k].path.len() < dir.len() && layers[k].visible {
        assert(!in_movies(Some(dir), layers[k]));
    }
    if layers[k].visible {
        assert(!in_movies(None, layers[k]));
    }
    if plays(Some(dir), layers) {
        let i = choose|i: int| 0 <= i < layers.len() && in_movies(Some(dir), #[trigger] layers[i]);
        assert(layers[i].path.subrange(0, dir.len() as int) == dir);
    }
    if draws(Some(dir), layers) {
        let i = choose|i: int|
            0 <= i < layers.len() && (#[trigger] layers[i]).visible && !in_movies(Some(dir), layers[i]);
        assert(layers[i].visible);
    }
}

/// A file that comes with the program is looked for beside it, then two folders above it,
/// then in the current folder, and last two folders above that.
pub proof fn law_assets_are_found(name: Seq<char>, exe: Seq<Seq<char>>, built: bool, here: bool)
    ensures
        asset_place(name, Some(exe), true, built, here) == exe + seq!["assets"@, name],
        asset_place(name, Some(exe), false, true, here) == exe + seq![".."@, ".."@, "assets"@, name],
        asset_place(name, Some(exe), false, false, true) == seq!["assets"@, name],
        asset_place(name, None, true, built, true) == seq!["assets"@, name],
        asset_place(name, Some(exe), false, false, false) == seq![".."@, ".."@, "assets"@, name],
        asset_place(name, None, true, built, false) == seq![".."@, ".."@, "assets"@, name],
{
    assert(asset_place(name, Some(exe), true, built, here) =~= exe + seq!["assets"@, name]);
    assert(asset_place(name, Some(exe), false, true, here) =~= exe + seq![".."@, ".."@, "assets"@, name]);
}

/// The icon that stands in has sixteen pixels a side, each of one opaque blue.
pub proof fn law_stand_in_is_blue(pixel: int)
    ensures
        fallback_byte(4 * pixel) == 79,
        fallback_byte(4 * pixel + 1) == 138,
        fallback_byte(4 * pixel + 2) == 247,
        fallback_byte(4 * pixel + 3) == 255,
        FALLBACK_SIDE == 16,
{
}

} // verus!
