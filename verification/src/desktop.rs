//! The windows that show wallpapers on the monitors.
use vstd::prelude::*;
use crate::compositor;
use crate::compositor::{has_movie, has_shader, shader_layers, Movie};
use crate::controller;
use crate::controller::{copy_layers, primary_monitor, LayerInfo, MonitorInfo};
use crate::text;
use crate::text::{list_has, str_eq};

verus! {

broadcast use vstd::string::group_string_axioms;

// ---------------------------------------------------------------------------
// The canvas
// ---------------------------------------------------------------------------

/// The rectangle that holds the origin of the desktop and every monitor.
#[derive(Clone, Copy, PartialEq, Eq, Structural)]
pub struct Canvas {
    pub min_x: i64,
    pub min_y: i64,
    pub max_x: i64,
    pub max_y: i64,
}

/// The smaller of two numbers.
pub open spec fn lesser(a: int, b: int) -> int {
    if a < b {
        a
    } else {
        b
    }
}

/// The larger of two numbers.
pub open spec fn greater(a: int, b: int) -> int {
    if a > b {
        a
    } else {
        b
    }
}

/// The left edge of the canvas of a list of monitors.
pub open spec fn left(ms: Seq<controller::MonitorText>) -> int
    decreases ms.len(),
{
    if ms.len() == 0 {
        0
    } else {
        lesser(left(ms.drop_last()), ms.last().position.0 as int)
    }
}

/// The top edge of the canvas of a list of monitors.
pub open spec fn top(ms: Seq<controller::MonitorText>) -> int
    decreases ms.len(),
{
    if ms.len() == 0 {
        0
    } else {
        lesser(top(ms.drop_last()), ms.last().position.1 as int)
    }
}

/// The right edge of the canvas of a list of monitors.
pub open spec fn right(ms: Seq<controller::MonitorText>) -> int
    decreases ms.len(),
{
    if ms.len() == 0 {
        0
    } else {
        greater(right(ms.drop_last()), ms.last().position.0 + ms.last().resolution.0)
    }
}

/// The bottom edge of the canvas of a list of monitors.
pub open spec fn bottom(ms: Seq<controller::MonitorText>) -> int
    decreases ms.len(),
{
    if ms.len() == 0 {
        0
    } else {
        greater(bottom(ms.drop_last()), ms.last().position.1 + ms.last().resolution.1)
    }
}

/// Whether a canvas is that of a list of monitors.
pub open spec fn is_canvas(c: Canvas, ms: Seq<controller::MonitorText>) -> bool {
    &&& c.min_x == left(ms)
    &&& c.min_y == top(ms)
    &&& c.max_x == right(ms)
    &&& c.max_y == bottom(ms)
}

/// The canvas of a list of monitors.
pub fn canvas_of(monitors: &Vec<MonitorInfo>) -> (c: Canvas)
    ensures
        is_canvas(c, controller::monitor_texts(monitors@)),
        i32::MIN <= c.min_x <= 0,
        i32::MIN <= c.min_y <= 0,
        0 <= c.max_x <= i32::MAX + u32::MAX,
        0 <= c.max_y <= i32::MAX + u32::MAX,
{
    let ghost ms = controller::monitor_texts(monitors@);
    let mut c = Canvas { min_x: 0, min_y: 0, max_x: 0, max_y: 0 };
    let mut i: usize = 0;
    assert(ms.subrange(0, 0) =~= Seq::empty());
    while i < monitors.len()
        invariant
            i <= monitors.len(),
            ms == controller::monitor_texts(monitors@),
            is_canvas(c, ms.subrange(0, i as int)),
            i32::MIN <= c.min_x <= 0,
            i32::MIN <= c.min_y <= 0,
            0 <= c.max_x <= i32::MAX + u32::MAX,
            0 <= c.max_y <= i32::MAX + u32::MAX,
        decreases monitors.len() - i,
    {
        assert(ms.subrange(0, i + 1).drop_last() =~= ms.subrange(0, i as int));
        assert(ms.subrange(0, i + 1).last() == monitors@[i as int]@);
        let x: i64 = monitors[i].position.0 as i64;
        let y: i64 = monitors[i].position.1 as i64;
        let x_end: i64 = x + monitors[i].resolution.0 as i64;
        let y_end: i64 = y + monitors[i].resolution.1 as i64;
        if x < c.min_x {
            c.min_x = x;
        }
        if y < c.min_y {
            c.min_y = y;
        }
        if x_end > c.max_x {
            c.max_x = x_end;
        }
        if y_end > c.max_y {
            c.max_y = y_end;
        }
        i = i + 1;
    }
    assert(ms.subrange(0, i as int) =~= ms);
    c
}

/// Every monitor lies on the canvas.
pub proof fn law_monitors_lie_on_the_canvas(ms: Seq<controller::MonitorText>, i: int)
    requires
        0 <= i < ms.len(),
    ensures
        left(ms) <= ms[i].position.0,
        top(ms) <= ms[i].position.1,
        ms[i].position.0 + ms[i].resolution.0 <= right(ms),
        ms[i].position.1 + ms[i].resolution.1 <= bottom(ms),
    decreases ms.len(),
{
    if i < ms.len() - 1 {
        law_monitors_lie_on_the_canvas(ms.drop_last(), i);
    }
}

// ---------------------------------------------------------------------------
// Opening windows
// ---------------------------------------------------------------------------

/// A window that is to be opened.
pub struct WindowPlan {
    pub monitor_id: String,
    /// Where the monitor is.
    pub position: (i32, i32),
    pub resolution: (u32, u32),
    /// What the window shows.
    pub layers: Vec<LayerInfo>,
    /// Where on the canvas the window is.
    pub offset: (i64, i64),
    /// How large the canvas is; `None` where the window is a canvas of its own.
    pub canvas: Option<(i64, i64)>,
}

/// A window that is to be opened, by the texts it holds.
#[verifier::ext_equal]
pub struct PlanText {
    pub monitor_id: Seq<char>,
    pub position: (i32, i32),
    pub resolution: (u32, u32),
    pub layers: Seq<controller::LayerText>,
    pub offset: (int, int),
    pub canvas: Option<(int, int)>,
}

impl View for WindowPlan {
    type V = PlanText;

    open spec fn view(&self) -> PlanText {
        PlanText {
            monitor_id: self.monitor_id@,
            position: self.position,
            resolution: self.resolution,
            layers: controller::layer_texts(self.layers@),
            offset: (self.offset.0 as int, self.offset.1 as int),
            canvas: match self.canvas {
                Some(c) => Some((c.0 as int, c.1 as int)),
                None => None,
            },
        }
    }
}

/// The windows of a list.
pub open spec fn plan_texts(v: Seq<WindowPlan>) -> Seq<PlanText> {
    Seq::new(v.len(), |i: int| v[i]@)
}

/// The layers of the primary monitor, which every monitor shows in span mode.
pub open spec fn primary_layers(ms: Seq<controller::MonitorText>) -> Seq<controller::LayerText> {
    match controller::primary_index(ms) {
        Some(i) => ms[i].layers,
        None => Seq::empty(),
    }
}

/// The shaders that a monitor shows: those of the primary monitor in span mode, else
/// its own.
pub open spec fn shown(
    movies: Seq<Movie>,
    span: bool,
    ms: Seq<controller::MonitorText>,
    m: controller::MonitorText,
) -> Seq<controller::LayerText> {
    compositor::shaders_of(
        movies,
        if span {
            primary_layers(ms)
        } else {
            m.layers
        },
    )
}

/// The window that is opened for a monitor, if any: one that plays a movie, shows
/// nothing or has a window gets none.
pub open spec fn plan_of(
    movies: Seq<Movie>,
    span: bool,
    ms: Seq<controller::MonitorText>,
    existing: Seq<Seq<char>>,
    m: controller::MonitorText,
) -> Option<PlanText> {
    if compositor::some_movie(movies, m.layers) || shown(movies, span, ms, m).len() == 0 || existing.contains(
        m.id,
    ) {
        None
    } else {
        Some(
            PlanText {
                monitor_id: m.id,
                position: m.position,
                resolution: m.resolution,
                layers: shown(movies, span, ms, m),
                offset: if span {
                    (m.position.0 - left(ms), m.position.1 - top(ms))
                } else {
                    (0, 0)
                },
                canvas: if span {
                    Some((right(ms) - left(ms), bottom(ms) - top(ms)))
                } else {
                    None
                },
            },
        )
    }
}

/// The windows that are opened for the first `n` monitors.
pub open spec fn plans(
    movies: Seq<Movie>,
    span: bool,
    ms: Seq<controller::MonitorText>,
    existing: Seq<Seq<char>>,
    n: nat,
) -> Seq<PlanText>
    decreases n,
{
    if n == 0 {
        Seq::empty()
    } else {
        controller::with(
            plans(movies, span, ms, existing, (n - 1) as nat),
            plan_of(movies, span, ms, existing, ms[n - 1]),
        )
    }
}

/// The windows that are opened, beside those of the monitors in `existing`: one for each
/// monitor that shows shaders and plays no movie.
pub fn spawn_wallpaper_windows(
    movies: &Vec<Movie>,
    span: bool,
    monitors: &Vec<MonitorInfo>,
    existing: &Vec<String>,
) -> (r: Vec<WindowPlan>)
    ensures
        plan_texts(r@) == plans(
            movies@,
            span,
            controller::monitor_texts(monitors@),
            text::texts(existing@),
            monitors@.len(),
        ),
{
    let ghost ms = controller::monitor_texts(monitors@);
    let ghost ex = text::texts(existing@);
    let span_layers: Vec<LayerInfo> = match primary_monitor(monitors) {
        Some(m) => shader_layers(movies, &m.layers),
        None => {
            let none: Vec<LayerInfo> = Vec::new();
            assert(controller::layer_texts(none@) =~= Seq::empty());
            none
        },
    };
    assert(controller::layer_texts(span_layers@) == compositor::shaders_of(movies@, primary_layers(ms)));
    let c = canvas_of(monitors);
    let mut r: Vec<WindowPlan> = Vec::new();
    let mut i: usize = 0;
    assert(plan_texts(r@) =~= Seq::empty());
    while i < monitors.len()
        invariant
            i <= monitors.len(),
            ms == controller::monitor_texts(monitors@),
            ex == text::texts(existing@),
            controller::layer_texts(span_layers@) == compositor::shaders_of(movies@, primary_layers(ms)),
            is_canvas(c, ms),
            i32::MIN <= c.min_x <= 0,
            i32::MIN <= c.min_y <= 0,
            0 <= c.max_x <= i32::MAX + u32::MAX,
            0 <= c.max_y <= i32::MAX + u32::MAX,
            plan_texts(r@) == plans(movies@, span, ms, ex, i as nat),
        decreases monitors.len() - i,
    {
        let m = &monitors[i];
        assert(ms[i as int] == m@);
        if !has_movie(movies, &m.layers) {
            let layers: Vec<LayerInfo> = if span {
                copy_layers(&span_layers)
            } else {
                shader_layers(movies, &m.layers)
            };
            assert(controller::layer_texts(layers@) == shown(movies@, span, ms, ms[i as int]));
            assert(controller::layer_texts(layers@).len() == layers@.len());
            if layers.len() > 0 && !list_has(existing, m.id.as_str()) {
                let offset: (i64, i64) = if span {
                    (m.position.0 as i64 - c.min_x, m.position.1 as i64 - c.min_y)
                } else {
                    (0, 0)
                };
                let canvas: Option<(i64, i64)> = if span {
                    Some((c.max_x - c.min_x, c.max_y - c.min_y))
                } else {
                    None
                };
                let p = WindowPlan {
                    monitor_id: m.id.clone(),
                    position: m.position,
                    resolution: m.resolution,
                    layers,
                    offset,
                    canvas,
                };
                let ghost before = plan_texts(r@);
                let ghost pt = p@;
                assert(plan_of(movies@, span, ms, ex, ms[i as int]) == Some(pt));
                r.push(p);
                assert(plan_texts(r@) =~= before.push(pt));
            }
        }
        i = i + 1;
    }
    r
}

/// The size of the surface of a window: that of its inside where it has one, else that
/// of its monitor.
pub fn surface_size(inner: (u32, u32), monitor: (u32, u32)) -> (r: (u32, u32))
    ensures
        r == (if inner.0 > 0 && inner.1 > 0 {
            inner
        } else {
            monitor
        }),
{
    if inner.0 > 0 && inner.1 > 0 {
        inner
    } else {
        monitor
    }
}

/// The size of the canvas of a window that has a surface of the given size.
pub fn global_size(plan: &WindowPlan, surface: (u32, u32)) -> (r: (i64, i64))
    ensures
        r == (match plan.canvas {
            Some(c) => c,
            None => (surface.0 as i64, surface.1 as i64),
        }),
{
    match plan.canvas {
        Some(c) => c,
        None => (surface.0 as i64, surface.1 as i64),
    }
}

/// The ids of the monitors whose windows are to be opened.
pub open spec fn plan_ids(ps: Seq<PlanText>) -> Seq<Seq<char>> {
    Seq::new(ps.len(), |i: int| ps[i].monitor_id)
}

proof fn lemma_planned(
    movies: Seq<Movie>,
    span: bool,
    ms: Seq<controller::MonitorText>,
    existing: Seq<Seq<char>>,
    n: nat,
    i: int,
)
    requires
        0 <= i < n <= ms.len(),
        plan_of(movies, span, ms, existing, ms[i]) is Some,
    ensures
        plan_ids(plans(movies, span, ms, existing, n)).contains(ms[i].id),
    decreases n,
{
    let ids = plan_ids(plans(movies, span, ms, existing, n));
    if i == n - 1 {
        assert(ids.last() == ms[i].id);
        assert(ids[ids.len() - 1] == ms[i].id);
    } else {
        lemma_planned(movies, span, ms, existing, (n - 1) as nat, i);
        let before = plan_ids(plans(movies, span, ms, existing, (n - 1) as nat));
        let k = choose|k: int| 0 <= k < before.len() && before[k] == ms[i].id;
        assert(ids[k] == before[k]);
    }
}

proof fn lemma_plans_are_of_monitors(
    movies: Seq<Movie>,
    span: bool,
    ms: Seq<controller::MonitorText>,
    existing: Seq<Seq<char>>,
    n: nat,
    k: int,
) -> (i: int)
    requires
        n <= ms.len(),
        0 <= k < plans(movies, span, ms, existing, n).len(),
    ensures
        0 <= i < n,
        plan_of(movies, span, ms, existing, ms[i]) == Some(plans(movies, span, ms, existing, n)[k]),
    decreases n,
{
    let before = plans(movies, span, ms, existing, (n - 1) as nat);
    if k < before.len() {
        lemma_plans_are_of_monitors(movies, span, ms, existing, (n - 1) as nat, k)
    } else {
        n - 1
    }
}

/// Opening windows twice opens each once: with the windows of the first time there, no
/// more are opened.
pub proof fn law_spawning_again_opens_nothing(
    movies: Seq<Movie>,
    span: bool,
    ms: Seq<controller::MonitorText>,
    existing: Seq<Seq<char>>,
)
    ensures
        ({
            let opened = plan_ids(plans(movies, span, ms, existing, ms.len()));
            plans(movies, span, ms, existing + opened, ms.len()) == Seq::<PlanText>::empty()
        }),
{
    let opened = plan_ids(plans(movies, span, ms, existing, ms.len()));
    let again = plans(movies, span, ms, existing + opened, ms.len());
    if again.len() > 0 {
        let i = lemma_plans_are_of_monitors(movies, span, ms, existing + opened, ms.len(), 0);
        let id = ms[i].id;
        if existing.contains(id) {
            let k = choose|k: int| 0 <= k < existing.len() && existing[k] == id;
            assert((existing + opened)[k] == id);
        } else {
            lemma_planned(movies, span, ms, existing, ms.len(), i);
            let k = choose|k: int| 0 <= k < opened.len() && opened[k] == id;
            assert((existing + opened)[existing.len() + k] == id);
        }
        assert((existing + opened).contains(id));
    }
    assert(again =~= Seq::empty());
}

// ---------------------------------------------------------------------------
// Keeping windows in line
// ---------------------------------------------------------------------------

/// Whether a monitor wants a window: in span mode if the primary monitor has a shader,
/// else if it has one of its own.
pub open spec fn wants(
    movies: Seq<Movie>,
    span: bool,
    ms: Seq<controller::MonitorText>,
    m: controller::MonitorText,
) -> bool {
    compositor::some_shader(
        movies,
        if span {
            primary_layers(ms)
        } else {
            m.layers
        },
    )
}

/// Whether a monitor with an id wants a window.
pub open spec fn id_wants(movies: Seq<Movie>, span: bool, ms: Seq<controller::MonitorText>, id: Seq<char>) -> bool {
    exists|i: int| 0 <= i < ms.len() && (#[trigger] ms[i]).id == id && wants(movies, span, ms, ms[i])
}

fn monitor_wants(movies: &Vec<Movie>, span: bool, primary: bool, monitors: &Vec<MonitorInfo>, id: &str) -> (r: bool)
    requires
        primary == compositor::some_shader(movies@, primary_layers(controller::monitor_texts(monitors@))),
    ensures
        r == id_wants(movies@, span, controller::monitor_texts(monitors@), id@),
{
    let ghost ms = controller::monitor_texts(monitors@);
    let mut i: usize = 0;
    while i < monitors.len()
        invariant
            i <= monitors.len(),
            ms == controller::monitor_texts(monitors@),
            primary == compositor::some_shader(movies@, primary_layers(ms)),
            forall|j: int| 0 <= j < i ==> !((#[trigger] ms[j]).id == id@ && wants(movies@, span, ms, ms[j])),
        decreases monitors.len() - i,
    {
        assert(ms[i as int] == monitors@[i as int]@);
        let wanted: bool = if span {
            primary
        } else {
            has_shader(movies, &monitors[i].layers)
        };
        if wanted && str_eq(monitors[i].id.as_str(), id) {
            return true;
        }
        i = i + 1;
    }
    false
}

/// What is done to keep the windows in line with what the monitors show.
pub struct SyncPlan {
    /// Which of the windows stay; the others are closed.
    pub keep: Vec<bool>,
    /// The windows that are opened.
    pub open: Vec<WindowPlan>,
}

/// The windows of a list that stay.
pub open spec fn kept(
    movies: Seq<Movie>,
    span: bool,
    ms: Seq<controller::MonitorText>,
    windows: Seq<Seq<char>>,
) -> Seq<Seq<char>>
    decreases windows.len(),
{
    if windows.len() == 0 {
        Seq::empty()
    } else if id_wants(movies, span, ms, windows.last()) {
        kept(movies, span, ms, windows.drop_last()).push(windows.last())
    } else {
        kept(movies, span, ms, windows.drop_last())
    }
}

/// What is done to keep the windows in line with what the monitors show: windows that
/// no monitor wants any more are closed, the others are told to load their layers
/// again, and missing ones are opened. `windows` lists the monitors of the windows.
pub fn sync_wallpaper_windows(
    movies: &Vec<Movie>,
    span: bool,
    monitors: &Vec<MonitorInfo>,
    windows: &Vec<String>,
) -> (r: SyncPlan)
    ensures
        ({
            let ms = controller::monitor_texts(monitors@);
            let ws = text::texts(windows@);
            &&& r.keep@.len() == windows@.len()
            &&& forall|i: int|
                0 <= i < windows@.len() ==> #[trigger] r.keep@[i] == id_wants(movies@, span, ms, ws[i])
            &&& plan_texts(r.open@) == plans(movies@, span, ms, kept(movies@, span, ms, ws), ms.len())
        }),
{
    let ghost ms = controller::monitor_texts(monitors@);
    let ghost ws = text::texts(windows@);
    let primary: bool = match primary_monitor(monitors) {
        Some(m) => has_shader(movies, &m.layers),
        None => false,
    };
    assert(primary == compositor::some_shader(movies@, primary_layers(ms)));
    let mut keep: Vec<bool> = Vec::new();
    let mut stay: Vec<String> = Vec::new();
    let mut i: usize = 0;
    assert(ws.subrange(0, 0) =~= Seq::empty());
    assert(text::texts(stay@) =~= Seq::empty());
    while i < windows.len()
        invariant
            i <= windows.len(),
            ms == controller::monitor_texts(monitors@),
            ws == text::texts(windows@),
            primary == compositor::some_shader(movies@, primary_layers(ms)),
            keep@.len() == i,
            forall|j: int| 0 <= j < i ==> #[trigger] keep@[j] == id_wants(movies@, span, ms, ws[j]),
            text::texts(stay@) == kept(movies@, span, ms, ws.subrange(0, i as int)),
        decreases windows.len() - i,
    {
        assert(ws.subrange(0, i + 1).drop_last() =~= ws.subrange(0, i as int));
        assert(ws.subrange(0, i + 1).last() == windows@[i as int]@);
        let wanted = monitor_wants(movies, span, primary, monitors, windows[i].as_str());
        keep.push(wanted);
        if wanted {
            let id = windows[i].clone();
            let ghost before = text::texts(stay@);
            let ghost idt = id@;
            stay.push(id);
            assert(text::texts(stay@) =~= before.push(idt));
        }
        i = i + 1;
    }
    assert(ws.subrange(0, i as int) =~= ws);
    let open = spawn_wallpaper_windows(movies, span, monitors, &stay);
    SyncPlan { keep, open }
}

proof fn lemma_shaders_show(movies: Seq<Movie>, layers: Seq<controller::LayerText>)
    ensures
        (compositor::shaders_of(movies, layers).len() > 0) == compositor::some_shader(movies, layers),
    decreases layers.len(),
{
    if layers.len() > 0 {
        lemma_shaders_show(movies, layers.drop_last());
        let last = layers.len() - 1;
        if !compositor::is_movie(movies, layers.last().path) {
            assert(!compositor::is_movie(movies, layers[last].path));
        } else if compositor::some_shader(movies, layers.drop_last()) {
            let i = choose|i: int|
                0 <= i < layers.len() - 1 && !compositor::is_movie(
                    movies,
                    (#[trigger] layers.drop_last()[i]).path,
                );
            assert(!compositor::is_movie(movies, layers[i].path));
        } else if compositor::some_shader(movies, layers) {
            let i = choose|i: int| 0 <= i < layers.len() && !compositor::is_movie(movies, (#[trigger] layers[i]).path);
            assert(i < layers.len() - 1);
            assert(layers.drop_last()[i] == layers[i]);
        }
    }
}

proof fn lemma_kept(movies: Seq<Movie>, span: bool, ms: Seq<controller::MonitorText>, windows: Seq<Seq<char>>)
    ensures
        forall|id: Seq<char>| #[trigger]
            kept(movies, span, ms, windows).contains(id) <==> windows.contains(id) && id_wants(movies, span, ms, id),
        windows.no_duplicates() ==> kept(movies, span, ms, windows).no_duplicates(),
    decreases windows.len(),
{
    let k = kept(movies, span, ms, windows);
    if windows.len() > 0 {
        let rest = windows.drop_last();
        let kr = kept(movies, span, ms, rest);
        lemma_kept(movies, span, ms, rest);
        assert forall|id: Seq<char>| #[trigger]
            k.contains(id) <==> windows.contains(id) && id_wants(movies, span, ms, id) by {
            assert(windows.contains(id) == (rest.contains(id) || id == windows.last())) by {
                if rest.contains(id) {
                    let j = choose|j: int| 0 <= j < rest.len() && rest[j] == id;
                    assert(windows[j] == id);
                }
                if id == windows.last() {
                    assert(windows[windows.len() - 1] == id);
                }
                if windows.contains(id) && id != windows.last() {
                    let j = choose|j: int| 0 <= j < windows.len() && windows[j] == id;
                    assert(rest[j] == id);
                }
            }
            if id_wants(movies, span, ms, windows.last()) {
                assert(k == kr.push(windows.last()));
                assert(k.contains(id) == (kr.contains(id) || id == windows.last())) by {
                    if kr.contains(id) {
                        let j = choose|j: int| 0 <= j < kr.len() && kr[j] == id;
                        assert(k[j] == id);
                    }
                    if id == windows.last() {
                        assert(k[k.len() - 1] == id);
                    }
                    if k.contains(id) && id != windows.last() {
                        let j = choose|j: int| 0 <= j < k.len() && k[j] == id;
                        assert(kr[j] == id);
                    }
                }
            }
        }
        if windows.no_duplicates() {
            assert(rest.no_duplicates());
            if id_wants(movies, span, ms, windows.last()) {
                assert(k == kr.push(windows.last()));
                assert(!rest.contains(windows.last()));
                assert(!kr.contains(windows.last()));
                assert forall|a: int, b: int| 0 <= a < b < k.len() implies k[a] != k[b] by {
                    if b == kr.len() {
                        assert(kr.contains(kr[a]));
                    }
                }
            }
        }
    } else {
        assert(k =~= Seq::empty());
    }
}

/// Whether the monitors of a list have different ids.
pub open spec fn distinct_ids(ms: Seq<controller::MonitorText>) -> bool {
    forall|i: int, j: int|
        0 <= i < ms.len() && 0 <= j < ms.len() && i != j ==> (#[trigger] ms[i]).id != (#[trigger] ms[j]).id
}

proof fn lemma_plan_ids_are_distinct(
    movies: Seq<Movie>,
    span: bool,
    ms: Seq<controller::MonitorText>,
    existing: Seq<Seq<char>>,
    n: nat,
)
    requires
        n <= ms.len(),
        distinct_ids(ms),
    ensures
        plan_ids(plans(movies, span, ms, existing, n)).no_duplicates(),
    decreases n,
{
    let ids = plan_ids(plans(movies, span, ms, existing, n));
    if n > 0 {
        lemma_plan_ids_are_distinct(movies, span, ms, existing, (n - 1) as nat);
        let before = plans(movies, span, ms, existing, (n - 1) as nat);
        if plan_of(movies, span, ms, existing, ms[n - 1]) is Some {
            assert forall|a: int, b: int| 0 <= a < b < ids.len() implies ids[a] != ids[b] by {
                assert(ids[a] == plan_ids(before)[a]);
                if b == before.len() {
                    let i = lemma_plans_are_of_monitors(movies, span, ms, existing, (n - 1) as nat, a);
                    assert(ids[a] == ms[i].id);
                    assert(ids[b] == ms[n - 1].id);
                } else {
                    assert(ids[b] == plan_ids(before)[b]);
                }
            }
        } else {
            assert(ids == plan_ids(before));
        }
    }
}

/// Once the windows are in line, each monitor that wants a window and plays no movie
/// has one, no monitor has two, and there is none that no monitor wants: a monitor
/// without a shader shows the desktop itself.
pub proof fn law_windows_follow_shaders(
    movies: Seq<Movie>,
    span: bool,
    ms: Seq<controller::MonitorText>,
    windows: Seq<Seq<char>>,
)
    requires
        distinct_ids(ms),
        windows.no_duplicates(),
    ensures
        ({
            let stay = kept(movies, span, ms, windows);
            let after = stay + plan_ids(plans(movies, span, ms, stay, ms.len()));
            &&& forall|i: int|
                0 <= i < ms.len() && wants(movies, span, ms, ms[i]) && !compositor::some_movie(movies, ms[i].layers)
                    ==> after.contains((#[trigger] ms[i]).id)
            &&& forall|id: Seq<char>| #[trigger] after.contains(id) ==> id_wants(movies, span, ms, id)
            &&& after.no_duplicates()
        }),
{
    let stay = kept(movies, span, ms, windows);
    let ps = plans(movies, span, ms, stay, ms.len());
    let ids = plan_ids(ps);
    let after = stay + ids;
    lemma_kept(movies, span, ms, windows);
    lemma_plan_ids_are_distinct(movies, span, ms, stay, ms.len());
    assert forall|i: int|
        0 <= i < ms.len() && wants(movies, span, ms, ms[i]) && !compositor::some_movie(movies, ms[i].layers) implies after.contains(
    (#[trigger] ms[i]).id) by {
        let id = ms[i].id;
        if stay.contains(id) {
            let k = choose|k: int| 0 <= k < stay.len() && stay[k] == id;
            assert(after[k] == id);
        } else {
            lemma_shaders_show(
                movies,
                if span {
                    primary_layers(ms)
                } else {
                    ms[i].layers
                },
            );
            lemma_planned(movies, span, ms, stay, ms.len(), i);
            let k = choose|k: int| 0 <= k < ids.len() && ids[k] == id;
            assert(after[stay.len() + k] == id);
        }
    }
    assert forall|k: int| 0 <= k < ids.len() implies id_wants(movies, span, ms, #[trigger] ids[k]) && !stay.contains(
        ids[k],
    ) by {
        let i = lemma_plans_are_of_monitors(movies, span, ms, stay, ms.len(), k);
        lemma_shaders_show(
            movies,
            if span {
                primary_layers(ms)
            } else {
                ms[i].layers
            },
        );
        assert(ms[i].id == ids[k] && wants(movies, span, ms, ms[i]));
    }
    assert forall|id: Seq<char>| #[trigger] after.contains(id) implies id_wants(movies, span, ms, id) by {
        let k = choose|k: int| 0 <= k < after.len() && after[k] == id;
        if k < stay.len() {
            assert(stay[k] == id);
            assert(stay.contains(id));
        } else {
            assert(ids[k - stay.len()] == id);
        }
    }
    assert forall|a: int, b: int| 0 <= a < b < after.len() implies after[a] != after[b] by {
        if b < stay.len() {
            assert(stay[a] != stay[b]);
        } else if a < stay.len() {
            assert(stay.contains(stay[a]));
            assert(!stay.contains(ids[b - stay.len()]));
        } else {
            assert(ids[a - stay.len()] != ids[b - stay.len()]);
        }
    }
}

/// How long a closed window is kept before it is dropped, in milliseconds.
pub const CLOSE_DELAY_MS: u64 = 300;

/// Whether a window that was closed so many milliseconds ago is dropped: the thread that
/// draws it is given time to end.
pub fn is_dropped(closed_ms_ago: u64) -> (r: bool)
    ensures
        r == (closed_ms_ago >= CLOSE_DELAY_MS),
{
    closed_ms_ago >= CLOSE_DELAY_MS
}

// ---------------------------------------------------------------------------
// The composite of all monitors
// ---------------------------------------------------------------------------

/// Where a layer is in the composite of all monitors.
#[derive(Clone, Copy, PartialEq, Eq, Structural)]
pub enum CompositePlace {
    /// Over a whole monitor.
    Whole { x: i64, y: i64, width: u32, height: u32 },
    /// At its own place, moved by so much.
    Moved { x: i64, y: i64 },
}

/// A layer of the composite of all monitors.
pub struct CompositeLayer {
    pub layer: LayerInfo,
    pub place: CompositePlace,
}

/// The layers of a list, and where they are.
pub open spec fn composite_texts(v: Seq<CompositeLayer>) -> Seq<(controller::LayerText, CompositePlace)> {
    Seq::new(v.len(), |i: int| (v[i].layer@, v[i].place))
}

/// Where a layer of a monitor is in the composite of all monitors.
pub open spec fn place_of(ms: Seq<controller::MonitorText>, m: controller::MonitorText, l: controller::LayerText) -> CompositePlace {
    let x = (m.position.0 - left(ms)) as i64;
    let y = (m.position.1 - top(ms)) as i64;
    if l.positioning != "Custom"@ {
        CompositePlace::Whole { x, y, width: m.resolution.0, height: m.resolution.1 }
    } else {
        CompositePlace::Moved { x, y }
    }
}

/// The layers of a monitor in the composite of all monitors.
pub open spec fn placed(ms: Seq<controller::MonitorText>, m: controller::MonitorText) -> Seq<
    (controller::LayerText, CompositePlace),
> {
    Seq::new(m.layers.len(), |k: int| (m.layers[k], place_of(ms, m, m.layers[k])))
}

/// The layers of the first `n` monitors in the composite of all monitors.
pub open spec fn composite(ms: Seq<controller::MonitorText>, n: nat) -> Seq<(controller::LayerText, CompositePlace)>
    decreases n,
{
    if n == 0 {
        Seq::empty()
    } else {
        composite(ms, (n - 1) as nat) + placed(ms, ms[n - 1])
    }
}

/// The layers of all monitors, and where they are in the composite of them all.
pub fn debug_composite(monitors: &Vec<MonitorInfo>) -> (r: Vec<CompositeLayer>)
    ensures
        composite_texts(r@) == composite(controller::monitor_texts(monitors@), monitors@.len()),
{
    let ghost ms = controller::monitor_texts(monitors@);
    let c = canvas_of(monitors);
    let mut r: Vec<CompositeLayer> = Vec::new();
    let mut i: usize = 0;
    assert(composite_texts(r@) =~= Seq::empty());
    while i < monitors.len()
        invariant
            i <= monitors.len(),
            ms == controller::monitor_texts(monitors@),
            is_canvas(c, ms),
            i32::MIN <= c.min_x <= 0,
            i32::MIN <= c.min_y <= 0,
            composite_texts(r@) == composite(ms, i as nat),
        decreases monitors.len() - i,
    {
        let m = &monitors[i];
        assert(ms[i as int] == m@);
        let ghost before = composite_texts(r@);
        let x: i64 = m.position.0 as i64 - c.min_x;
        let y: i64 = m.position.1 as i64 - c.min_y;
        let mut k: usize = 0;
        assert(before + placed(ms, m@).subrange(0, 0) =~= before);
        while k < m.layers.len()
            invariant
                k <= m.layers@.len(),
                x == m@.position.0 - left(ms),
                y == m@.position.1 - top(ms),
                composite_texts(r@) == before + placed(ms, m@).subrange(0, k as int),
            decreases m.layers.len() - k,
        {
            let place = if str_eq(m.layers[k].positioning.as_str(), "Custom") {
                CompositePlace::Moved { x, y }
            } else {
                CompositePlace::Whole { x, y, width: m.resolution.0, height: m.resolution.1 }
            };
            assert(m@.layers[k as int] == m.layers@[k as int]@);
            assert(placed(ms, m@)[k as int] == (m.layers@[k as int]@, place));
            let l = CompositeLayer { layer: m.layers[k].copy(), place };
            let ghost was = composite_texts(r@);
            let ghost lt = (l.layer@, l.place);
            r.push(l);
            assert(composite_texts(r@) =~= was.push(lt));
            assert(was.push(lt) =~= before + placed(ms, m@).subrange(0, k + 1));
            k = k + 1;
        }
        assert(placed(ms, m@).subrange(0, k as int) =~= placed(ms, m@));
        i = i + 1;
    }
    r
}

// ---------------------------------------------------------------------------
// What can be relied on
// ---------------------------------------------------------------------------

/// The canvas is no larger than it needs to be: each of its edges goes through the
/// origin of the desktop or along the edge of a monitor.
pub proof fn law_canvas_is_tight(ms: Seq<controller::MonitorText>)
    ensures
        left(ms) <= 0 <= right(ms),
        top(ms) <= 0 <= bottom(ms),
        left(ms) == 0 || exists|i: int| 0 <= i < ms.len() && (#[trigger] ms[i]).position.0 == left(ms),
        top(ms) == 0 || exists|i: int| 0 <= i < ms.len() && (#[trigger] ms[i]).position.1 == top(ms),
        right(ms) == 0 || exists|i: int|
            0 <= i < ms.len() && (#[trigger] ms[i]).position.0 + ms[i].resolution.0 == right(ms),
        bottom(ms) == 0 || exists|i: int|
            0 <= i < ms.len() && (#[trigger] ms[i]).position.1 + ms[i].resolution.1 == bottom(ms),
    decreases ms.len(),
{
    if ms.len() > 0 {
        let d = ms.drop_last();
        law_canvas_is_tight(d);
        let e = ms.len() - 1;
        assert(ms[e] == ms.last());
        if left(d) == left(ms) && left(d) != 0 {
            let i = choose|i: int| 0 <= i < d.len() && (#[trigger] d[i]).position.0 == left(d);
            assert(ms[i] == d[i]);
        }
        if top(d) == top(ms) && top(d) != 0 {
            let i = choose|i: int| 0 <= i < d.len() && (#[trigger] d[i]).position.1 == top(d);
            assert(ms[i] == d[i]);
        }
        if right(d) == right(ms) && right(d) != 0 {
            let i = choose|i: int|
                0 <= i < d.len() && (#[trigger] d[i]).position.0 + d[i].resolution.0 == right(d);
            assert(ms[i] == d[i]);
        }
        if bottom(d) == bottom(ms) && bottom(d) != 0 {
            let i = choose|i: int|
                0 <= i < d.len() && (#[trigger] d[i]).position.1 + d[i].resolution.1 == bottom(d);
            assert(ms[i] == d[i]);
        }
    }
}

/// The sides of a canvas are those of its monitors.
pub proof fn law_canvas_holds_the_monitors(c: Canvas, ms: Seq<controller::MonitorText>, i: int)
    requires
        is_canvas(c, ms),
        0 <= i < ms.len(),
    ensures
        c.min_x <= ms[i].position.0,
        c.min_y <= ms[i].position.1,
        ms[i].position.0 + ms[i].resolution.0 <= c.max_x,
        ms[i].position.1 + ms[i].resolution.1 <= c.max_y,
        c.min_x == left(ms) && c.min_y == top(ms) && c.max_x == right(ms) && c.max_y == bottom(ms),
{
    law_monitors_lie_on_the_canvas(ms, i);
}

/// A monitor gets a window exactly where it plays no movie, has no window yet and has
/// shaders to show: its own, or those of the primary monitor in span mode. The window
/// is where the monitor is, and in span mode it is a part of the canvas.
pub proof fn law_windows_are_opened_where_needed(
    movies: Seq<Movie>,
    span: bool,
    ms: Seq<controller::MonitorText>,
    existing: Seq<Seq<char>>,
    i: int,
    p: int,
)
    requires
        0 <= i < ms.len(),
        controller::primary_index(ms) == Some(p),
    ensures
        ({
            let m = ms[i];
            let seen = if span {
                ms[p].layers
            } else {
                m.layers
            };
            let shaders = seen.filter(|l: controller::LayerText| !compositor::is_movie(movies, l.path));
            let plays = exists|k: int| 0 <= k < m.layers.len() && compositor::is_movie(movies, (#[trigger] m.layers[k]).path);
            match plan_of(movies, span, ms, existing, m) {
                None => plays || shaders.len() == 0 || existing.contains(m.id),
                Some(w) => {
                    &&& !plays && shaders.len() > 0 && !existing.contains(m.id)
                    &&& w.monitor_id == m.id
                    &&& w.position == m.position
                    &&& w.resolution == m.resolution
                    &&& w.layers == shaders
                    &&& !span ==> w.offset == (0int, 0int) && w.canvas is None
                    &&& span ==> w.offset.0 + left(ms) == m.position.0 && w.offset.1 + top(ms) == m.position.1
                    &&& span ==> w.canvas is Some && left(ms) + (w.canvas->0).0 == right(ms) && top(ms)
                        + (w.canvas->0).1 == bottom(ms)
                },
            }
        }),
{
    let seen = if span {
        ms[p].layers
    } else {
        ms[i].layers
    };
    compositor::law_shaders_are_the_other_layers(movies, seen);
}

/// The windows are opened monitor by monitor.
pub proof fn law_windows_are_opened_in_order(
    movies: Seq<Movie>,
    span: bool,
    ms: Seq<controller::MonitorText>,
    existing: Seq<Seq<char>>,
    n: nat,
)
    requires
        n <= ms.len(),
    ensures
        plans(movies, span, ms, existing, n) == ms.subrange(0, n as int).filter_map(
            |m: controller::MonitorText| plan_of(movies, span, ms, existing, m),
        ),
    decreases n,
{
    let f = |m: controller::MonitorText| plan_of(movies, span, ms, existing, m);
    let s = ms.subrange(0, n as int);
    if n > 0 {
        law_windows_are_opened_in_order(movies, span, ms, existing, (n - 1) as nat);
        assert(s.drop_last() =~= ms.subrange(0, n - 1));
        assert(s.last() == ms[n - 1]);
        match f(s.last()) {
            Some(w) => {
                assert(s.drop_last().filter_map(f) + seq![w] =~= s.drop_last().filter_map(f).push(w));
            },
            None => {},
        }
    } else {
        assert(plans(movies, span, ms, existing, n) =~= s.filter_map(f));
    }
}

/// A window stays exactly where a monitor with its id has shaders to show.
pub proof fn law_windows_stay_where_wanted(
    movies: Seq<Movie>,
    span: bool,
    ms: Seq<controller::MonitorText>,
    windows: Seq<Seq<char>>,
    id: Seq<char>,
    p: int,
)
    requires
        controller::primary_index(ms) == Some(p),
    ensures
        kept(movies, span, ms, windows) == windows.filter(|w: Seq<char>| id_wants(movies, span, ms, w)),
        !span ==> (id_wants(movies, span, ms, id) <==> exists|i: int|
            0 <= i < ms.len() && (#[trigger] ms[i]).id == id && compositor::shaders_of(movies, ms[i].layers).len() > 0),
        span ==> (id_wants(movies, span, ms, id) <==> compositor::shaders_of(movies, ms[p].layers).len() > 0
            && exists|i: int| 0 <= i < ms.len() && (#[trigger] ms[i]).id == id),
    decreases windows.len(),
{
    reveal(Seq::filter);
    if windows.len() > 0 {
        law_windows_stay_where_wanted(movies, span, ms, windows.drop_last(), id, p);
    }
    compositor::law_shaders_are_the_other_layers(movies, ms[p].layers);
    assert forall|i: int| 0 <= i < ms.len() implies (wants(movies, false, ms, #[trigger] ms[i])
        <==> compositor::shaders_of(movies, ms[i].layers).len() > 0) by {
        compositor::law_shaders_are_the_other_layers(movies, ms[i].layers);
    }
    if id_wants(movies, span, ms, id) {
        let i = choose|i: int| 0 <= i < ms.len() && (#[trigger] ms[i]).id == id && wants(movies, span, ms, ms[i]);
        assert(ms[i].id == id);
    }
    if exists|i: int| 0 <= i < ms.len() && (#[trigger] ms[i]).id == id {
        if span && compositor::shaders_of(movies, ms[p].layers).len() > 0 {
            let i = choose|i: int| 0 <= i < ms.len() && (#[trigger] ms[i]).id == id;
            assert(wants(movies, span, ms, ms[i]));
        }
    }
    if !span {
        if exists|i: int|
            0 <= i < ms.len() && (#[trigger] ms[i]).id == id && compositor::shaders_of(movies, ms[i].layers).len() > 0 {
            let i = choose|i: int|
                0 <= i < ms.len() && (#[trigger] ms[i]).id == id && compositor::shaders_of(movies, ms[i].layers).len()
                    > 0;
            assert(wants(movies, span, ms, ms[i]));
        }
    }
}

/// In the composite a layer with a place of its own is moved with its monitor, and any
/// other covers the monitor; monitors keep their distances.
pub proof fn law_layers_keep_to_their_monitors(
    ms: Seq<controller::MonitorText>,
    i: int,
    l: controller::LayerText,
)
    requires
        0 <= i < ms.len(),
    ensures
        match place_of(ms, ms[i], l) {
            CompositePlace::Whole { x, y, width, height } => {
                &&& l.positioning != "Custom"@
                &&& x + left(ms) == ms[i].position.0
                &&& y + top(ms) == ms[i].position.1
                &&& (width, height) == ms[i].resolution
            },
            CompositePlace::Moved { x, y } => {
                &&& l.positioning == "Custom"@
                &&& x + left(ms) == ms[i].position.0
                &&& y + top(ms) == ms[i].position.1
            },
        },
{
    law_canvas_is_tight(ms);
    law_monitors_lie_on_the_canvas(ms, i);
    lemma_edges_are_small(ms);
}

proof fn lemma_edges_are_small(ms: Seq<controller::MonitorText>)
    ensures
        i32::MIN <= left(ms),
        i32::MIN <= top(ms),
    decreases ms.len(),
{
    if ms.len() > 0 {
        lemma_edges_are_small(ms.drop_last());
    }
}

/// The composite holds the layers of all monitors, monitor by monitor, each where it
/// belongs.
pub proof fn law_composite_holds_all_layers(ms: Seq<controller::MonitorText>, n: nat)
    requires
        n <= ms.len(),
    ensures
        composite(ms, n) == ms.subrange(0, n as int).map_values(
            |m: controller::MonitorText|
                m.layers.map_values(|l: controller::LayerText| (l, place_of(ms, m, l))),
        ).flatten_alt(),
    decreases n,
{
    let g = |m: controller::MonitorText| m.layers.map_values(|l: controller::LayerText| (l, place_of(ms, m, l)));
    let s = ms.subrange(0, n as int).map_values(g);
    if n > 0 {
        law_composite_holds_all_layers(ms, (n - 1) as nat);
        assert(s.drop_last() =~= ms.subrange(0, n - 1).map_values(g));
        assert(s.last() == g(ms[n - 1]));
        assert(placed(ms, ms[n - 1]) =~= g(ms[n - 1]));
    } else {
        assert(composite(ms, n) =~= s.flatten_alt());
    }
}

/// A closed window is kept for three tenths of a second.
pub proof fn law_closed_windows_are_kept_for_a_while()
    ensures
        CLOSE_DELAY_MS == 300,
{
}

} // verus!
