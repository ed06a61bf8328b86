//! What the engine is told, what each monitor does with it, and the windows of the shell
//! that wallpapers live among.
use vstd::prelude::*;
use crate::compositor;
use crate::compositor::Movie;
use crate::controller;
use crate::controller::{copy_layers, primary_monitor, AppState, LayerInfo, MonitorInfo};
use crate::desktop;
use crate::lists;
use crate::manifest::Bits32;
use crate::paths::Location;
use crate::renderer::{PresentMode, Rect32};
use crate::text::str_eq;

verus! {

broadcast use vstd::string::group_string_axioms;

// ---------------------------------------------------------------------------
// Commands
// ---------------------------------------------------------------------------

/// What the engine, or the thread of a window, is told. Windows go by numbers.
pub enum EngineCommand {
    AddWindow { window: u64, monitor_id: String },
    WindowResized(u64, (u32, u32)),
    WindowClosed(u64),
    /// Load the layers of every window again.
    Reload,
    SetLayers(Vec<LayerInfo>),
    /// Show a layer in another place, without building it again.
    SetLayerTransform { monitor_id: String, pipeline_index: usize, transform: Rect32 },
    /// Show a layer with another opacity, without building it again.
    SetLayerOpacity { monitor_id: String, pipeline_index: usize, opacity: Bits32 },
    ReloadLibrary,
    LoadWallpaper(Location),
    SetMousePosition(Bits32, Bits32),
    SetMouseDown(bool),
    OpenDebugger,
    SetVSync(PresentMode),
    Shutdown,
}

/// What the engine is told, by the texts it holds.
#[verifier::ext_equal]
pub enum EngineText {
    AddWindow(u64, Seq<char>),
    WindowResized(u64, (u32, u32)),
    WindowClosed(u64),
    Reload,
    SetLayers(Seq<controller::LayerText>),
    SetLayerTransform(Seq<char>, usize, Rect32),
    SetLayerOpacity(Seq<char>, usize, Bits32),
    ReloadLibrary,
    LoadWallpaper(Seq<Seq<char>>),
    SetMousePosition(Bits32, Bits32),
    SetMouseDown(bool),
    OpenDebugger,
    SetVSync(PresentMode),
    Shutdown,
}

impl View for EngineCommand {
    type V = EngineText;

    open spec fn view(&self) -> EngineText {
        match self {
            EngineCommand::AddWindow { window, monitor_id } => EngineText::AddWindow(*window, monitor_id@),
            EngineCommand::WindowResized(window, size) => EngineText::WindowResized(*window, *size),
            EngineCommand::WindowClosed(window) => EngineText::WindowClosed(*window),
            EngineCommand::Reload => EngineText::Reload,
            EngineCommand::SetLayers(layers) => EngineText::SetLayers(controller::layer_texts(layers@)),
            EngineCommand::SetLayerTransform { monitor_id, pipeline_index, transform } => {
                EngineText::SetLayerTransform(monitor_id@, *pipeline_index, *transform)
            },
            EngineCommand::SetLayerOpacity { monitor_id, pipeline_index, opacity } => EngineText::SetLayerOpacity(
                monitor_id@,
                *pipeline_index,
                *opacity,
            ),
            EngineCommand::ReloadLibrary => EngineText::ReloadLibrary,
            EngineCommand::LoadWallpaper(path) => EngineText::LoadWallpaper(path@),
            EngineCommand::SetMousePosition(x, y) => EngineText::SetMousePosition(*x, *y),
            EngineCommand::SetMouseDown(down) => EngineText::SetMouseDown(*down),
            EngineCommand::OpenDebugger => EngineText::OpenDebugger,
            EngineCommand::SetVSync(mode) => EngineText::SetVSync(*mode),
            EngineCommand::Shutdown => EngineText::Shutdown,
        }
    }
}

// ---------------------------------------------------------------------------
// Passing commands on
// ---------------------------------------------------------------------------

/// A window, and the monitor it is on.
pub struct EngineWindow {
    pub window: u64,
    pub monitor_id: String,
}

/// The windows of a list, and the monitors they are on.
pub open spec fn window_texts(v: Seq<EngineWindow>) -> Seq<(u64, Seq<char>)> {
    Seq::new(v.len(), |i: int| (v[i].window, v[i].monitor_id@))
}

/// The windows that the engine knows, and whether it runs.
pub struct Engine {
    pub windows: Vec<EngineWindow>,
    pub running: bool,
}

/// A command for the thread of a window.
pub struct Message {
    pub window: u64,
    pub command: EngineCommand,
}

/// The messages of a list.
pub open spec fn message_texts(v: Seq<Message>) -> Seq<(u64, EngineText)> {
    Seq::new(v.len(), |i: int| (v[i].window, v[i].command@))
}

/// The layers of the monitor with an id.
pub open spec fn layers_of(ms: Seq<controller::MonitorText>, id: Seq<char>) -> Seq<controller::LayerText> {
    match lists::first_where(ms, |m: controller::MonitorText| m.id == id) {
        Some(i) => ms[i].layers,
        None => Seq::empty(),
    }
}

/// The layers that a window shows: those of the primary monitor in span mode, else
/// those of its own.
pub open spec fn window_layers(span: bool, ms: Seq<controller::MonitorText>, id: Seq<char>) -> Seq<
    controller::LayerText,
> {
    if span {
        desktop::primary_layers(ms)
    } else {
        layers_of(ms, id)
    }
}

/// What the thread of a window is told when the engine is told something.
pub open spec fn message_of(
    cmd: EngineText,
    span: bool,
    ms: Seq<controller::MonitorText>,
    w: (u64, Seq<char>),
) -> Option<EngineText> {
    match cmd {
        EngineText::WindowResized(window, size) => if window == w.0 {
            Some(cmd)
        } else {
            None
        },
        EngineText::WindowClosed(window) => if window == w.0 {
            Some(EngineText::Shutdown)
        } else {
            None
        },
        EngineText::Reload => Some(EngineText::SetLayers(window_layers(span, ms, w.1))),
        EngineText::SetLayerTransform(id, _, _) => if id == w.1 {
            Some(cmd)
        } else {
            None
        },
        EngineText::SetLayerOpacity(id, _, _) => if id == w.1 {
            Some(cmd)
        } else {
            None
        },
        EngineText::SetVSync(_) => Some(cmd),
        EngineText::Shutdown => Some(EngineText::Shutdown),
        _ => None,
    }
}

/// What the threads of windows are told when the engine is told something.
pub open spec fn messages_of(
    cmd: EngineText,
    span: bool,
    ms: Seq<controller::MonitorText>,
    ws: Seq<(u64, Seq<char>)>,
) -> Seq<(u64, EngineText)>
    decreases ws.len(),
{
    if ws.len() == 0 {
        Seq::empty()
    } else {
        match message_of(cmd, span, ms, ws.last()) {
            Some(m) => messages_of(cmd, span, ms, ws.drop_last()).push((ws.last().0, m)),
            None => messages_of(cmd, span, ms, ws.drop_last()),
        }
    }
}

/// The windows of a list but for one.
pub open spec fn without_window(ws: Seq<(u64, Seq<char>)>, window: u64) -> Seq<(u64, Seq<char>)>
    decreases ws.len(),
{
    if ws.len() == 0 {
        Seq::empty()
    } else if ws.last().0 == window {
        without_window(ws.drop_last(), window)
    } else {
        without_window(ws.drop_last(), window).push(ws.last())
    }
}

/// The windows that the engine knows once it was told something.
pub open spec fn windows_after(ws: Seq<(u64, Seq<char>)>, cmd: EngineText) -> Seq<(u64, Seq<char>)> {
    match cmd {
        EngineText::AddWindow(window, id) => without_window(ws, window).push((window, id)),
        EngineText::WindowClosed(window) => without_window(ws, window),
        _ => ws,
    }
}

fn drop_window(v: &Vec<EngineWindow>, window: u64) -> (r: Vec<EngineWindow>)
    ensures
        window_texts(r@) == without_window(window_texts(v@), window),
{
    let ghost all = window_texts(v@);
    let mut r: Vec<EngineWindow> = Vec::new();
    let mut i: usize = 0;
    assert(all.subrange(0, 0) =~= Seq::empty());
    assert(window_texts(r@) =~= Seq::empty());
    while i < v.len()
        invariant
            i <= v.len(),
            all == window_texts(v@),
            window_texts(r@) == without_window(all.subrange(0, i as int), window),
        decreases v.len() - i,
    {
        assert(all.subrange(0, i + 1).drop_last() =~= all.subrange(0, i as int));
        assert(all.subrange(0, i + 1).last() == (v@[i as int].window, v@[i as int].monitor_id@));
        if v[i].window != window {
            let w = EngineWindow { window: v[i].window, monitor_id: v[i].monitor_id.clone() };
            let ghost before = window_texts(r@);
            let ghost wt = (w.window, w.monitor_id@);
            r.push(w);
            assert(window_texts(r@) =~= before.push(wt));
        }
        i = i + 1;
    }
    assert(all.subrange(0, i as int) =~= all);
    r
}

fn find_layers(monitors: &Vec<MonitorInfo>, id: &str) -> (r: Vec<LayerInfo>)
    ensures
        controller::layer_texts(r@) == layers_of(controller::monitor_texts(monitors@), id@),
{
    let ghost ms = controller::monitor_texts(monitors@);
    let ghost p = |m: controller::MonitorText| m.id == id@;
    let mut i: usize = 0;
    while i < monitors.len()
        invariant
            i <= monitors.len(),
            ms == controller::monitor_texts(monitors@),
            p == (|m: controller::MonitorText| m.id == id@),
            forall|j: int| 0 <= j < i ==> !p(#[trigger] ms[j]),
        decreases monitors.len() - i,
    {
        if str_eq(monitors[i].id.as_str(), id) {
            proof {
                lists::lemma_first(ms, p, i as int);
            }
            assert(ms[i as int] == monitors@[i as int]@);
            return copy_layers(&monitors[i].layers);
        }
        assert(!p(ms[i as int]));
        i = i + 1;
    }
    proof {
        lists::lemma_no_first(ms, p);
    }
    let none: Vec<LayerInfo> = Vec::new();
    assert(controller::layer_texts(none@) =~= Seq::empty());
    none
}

fn find_window_layers(state: &AppState, id: &str) -> (r: Vec<LayerInfo>)
    ensures
        controller::layer_texts(r@) == window_layers(
            state.span_monitors,
            controller::monitor_texts(state.monitors@),
            id@,
        ),
{
    if state.span_monitors {
        match primary_monitor(&state.monitors) {
            Some(m) => copy_layers(&m.layers),
            None => {
                let none: Vec<LayerInfo> = Vec::new();
                assert(controller::layer_texts(none@) =~= Seq::empty());
                none
            },
        }
    } else {
        find_layers(&state.monitors, id)
    }
}

fn message_for(cmd: &EngineCommand, state: &AppState, w: &EngineWindow) -> (r: Option<EngineCommand>)
    ensures
        match r {
            Some(c) => message_of(
                cmd@,
                state.span_monitors,
                controller::monitor_texts(state.monitors@),
                (w.window, w.monitor_id@),
            ) == Some(c@),
            None => message_of(
                cmd@,
                state.span_monitors,
                controller::monitor_texts(state.monitors@),
                (w.window, w.monitor_id@),
            ) is None,
        },
{
    match cmd {
        EngineCommand::WindowResized(window, size) => if *window == w.window {
            Some(EngineCommand::WindowResized(*window, *size))
        } else {
            None
        },
        EngineCommand::WindowClosed(window) => if *window == w.window {
            Some(EngineCommand::Shutdown)
        } else {
            None
        },
        EngineCommand::Reload => Some(
            EngineCommand::SetLayers(find_window_layers(state, w.monitor_id.as_str())),
        ),
        EngineCommand::SetLayerTransform { monitor_id, pipeline_index, transform } => if str_eq(
            monitor_id.as_str(),
            w.monitor_id.as_str(),
        ) {
            Some(
                EngineCommand::SetLayerTransform {
                    monitor_id: monitor_id.clone(),
                    pipeline_index: *pipeline_index,
                    transform: *transform,
                },
            )
        } else {
            None
        },
        EngineCommand::SetLayerOpacity { monitor_id, pipeline_index, opacity } => if str_eq(
            monitor_id.as_str(),
            w.monitor_id.as_str(),
        ) {
            Some(
                EngineCommand::SetLayerOpacity {
                    monitor_id: monitor_id.clone(),
                    pipeline_index: *pipeline_index,
                    opacity: *opacity,
                },
            )
        } else {
            None
        },
        EngineCommand::SetVSync(mode) => Some(EngineCommand::SetVSync(*mode)),
        EngineCommand::Shutdown => Some(EngineCommand::Shutdown),
        _ => None,
    }
}

impl Engine {
    /// The windows that the engine knows have different numbers.
    pub open spec fn wf(self) -> bool {
        forall|i: int, j: int|
            0 <= i < self.windows@.len() && 0 <= j < self.windows@.len() && i != j ==> (
            #[trigger] self.windows@[i]).window != (#[trigger] self.windows@[j]).window
    }

    /// An engine without windows.
    pub fn new() -> (e: Engine)
        ensures
            e.wf(),
            e.windows@.len() == 0,
            e.running,
    {
        Engine { windows: Vec::new(), running: true }
    }

    /// Passes a command on to the threads of the windows it concerns.
    pub fn run_renderer(&mut self, cmd: EngineCommand, state: &AppState) -> (r: Vec<Message>)
        requires
            old(self).wf(),
        ensures
            final(self).wf(),
            window_texts(final(self).windows@) == windows_after(window_texts(old(self).windows@), cmd@),
            final(self).running == (old(self).running && !(cmd is Shutdown)),
            message_texts(r@) == messages_of(
                cmd@,
                state.span_monitors,
                controller::monitor_texts(state.monitors@),
                window_texts(old(self).windows@),
            ),
    {
        let ghost ws = window_texts(self.windows@);
        let ghost ms = controller::monitor_texts(state.monitors@);
        let mut r: Vec<Message> = Vec::new();
        let mut i: usize = 0;
        assert(ws.subrange(0, 0) =~= Seq::empty());
        assert(message_texts(r@) =~= Seq::empty());
        while i < self.windows.len()
            invariant
                i <= self.windows@.len(),
                *self == *old(self),
                ws == window_texts(self.windows@),
                ms == controller::monitor_texts(state.monitors@),
                message_texts(r@) == messages_of(cmd@, state.span_monitors, ms, ws.subrange(0, i as int)),
            decreases self.windows.len() - i,
        {
            assert(ws.subrange(0, i + 1).drop_last() =~= ws.subrange(0, i as int));
            assert(ws.subrange(0, i + 1).last() == (self.windows@[i as int].window, self.windows@[i as int].monitor_id@));
            if let Some(command) = message_for(&cmd, state, &self.windows[i]) {
                let m = Message { window: self.windows[i].window, command };
                let ghost before = message_texts(r@);
                let ghost mt = (m.window, m.command@);
                r.push(m);
                assert(message_texts(r@) =~= before.push(mt));
            }
            i = i + 1;
        }
        assert(ws.subrange(0, i as int) =~= ws);
        proof {
            lemma_distinct(self.windows@);
        }
        match cmd {
            EngineCommand::AddWindow { window, monitor_id } => {
                proof {
                    lemma_without(ws, window);
                }
                let mut windows = drop_window(&self.windows, window);
                let ghost before = window_texts(windows@);
                let ghost id = monitor_id@;
                windows.push(EngineWindow { window, monitor_id });
                assert(window_texts(windows@) =~= before.push((window, id)));
                proof {
                    assert(distinct_windows(window_texts(windows@)));
                    lemma_distinct(windows@);
                }
                self.windows = windows;
            },
            EngineCommand::WindowClosed(window) => {
                proof {
                    lemma_without(ws, window);
                }
                let windows = drop_window(&self.windows, window);
                proof {
                    lemma_distinct(windows@);
                }
                self.windows = windows;
            },
            EngineCommand::Shutdown => {
                self.running = false;
            },
            _ => {},
        }
        r
    }
}

/// Whether the windows of a list have different numbers.
pub open spec fn distinct_windows(ws: Seq<(u64, Seq<char>)>) -> bool {
    forall|i: int, j: int|
        0 <= i < ws.len() && 0 <= j < ws.len() && i != j ==> (#[trigger] ws[i]).0 != (#[trigger] ws[j]).0
}

proof fn lemma_distinct(v: Seq<EngineWindow>)
    ensures
        distinct_windows(window_texts(v)) == (forall|i: int, j: int|
            0 <= i < v.len() && 0 <= j < v.len() && i != j ==> (#[trigger] v[i]).window != (
            #[trigger] v[j]).window),
{
    let ws = window_texts(v);
    if distinct_windows(ws) {
        assert forall|i: int, j: int| 0 <= i < v.len() && 0 <= j < v.len() && i != j implies (
        #[trigger] v[i]).window != (#[trigger] v[j]).window by {
            assert(ws[i].0 != ws[j].0);
        }
    }
    if forall|i: int, j: int|
        0 <= i < v.len() && 0 <= j < v.len() && i != j ==> (#[trigger] v[i]).window != (
        #[trigger] v[j]).window {
        assert forall|i: int, j: int| 0 <= i < ws.len() && 0 <= j < ws.len() && i != j implies (
        #[trigger] ws[i]).0 != (#[trigger] ws[j]).0 by {
            assert(v[i].window != v[j].window);
        }
    }
}

proof fn lemma_without(ws: Seq<(u64, Seq<char>)>, window: u64)
    requires
        distinct_windows(ws),
    ensures
        distinct_windows(without_window(ws, window)),
        forall|i: int|
            0 <= i < without_window(ws, window).len() ==> (#[trigger] without_window(ws, window)[i]).0 != window,
        forall|i: int|
            0 <= i < without_window(ws, window).len() ==> exists|j: int|
                0 <= j < ws.len() && ws[j] == (#[trigger] without_window(ws, window)[i]),
    decreases ws.len(),
{
    if ws.len() > 0 {
        let rest = ws.drop_last();
        lemma_without(rest, window);
        let wr = without_window(rest, window);
        let w = without_window(ws, window);
        assert forall|i: int| 0 <= i < w.len() implies exists|j: int| 0 <= j < ws.len() && ws[j] == (
        #[trigger] w[i]) by {
            if i < wr.len() {
                let j = choose|j: int| 0 <= j < rest.len() && rest[j] == wr[i];
                assert(ws[j] == w[i]);
            } else {
                assert(ws[ws.len() - 1] == w[i]);
            }
        }
        if ws.last().0 != window {
            assert(w == wr.push(ws.last()));
            assert forall|i: int| 0 <= i < wr.len() implies (#[trigger] wr[i]).0 != ws.last().0 by {
                let j = choose|j: int| 0 <= j < rest.len() && rest[j] == wr[i];
                assert(ws[j].0 != ws[ws.len() - 1].0);
            }
        }
    }
}

proof fn lemma_all_shaders(movies: Seq<Movie>, layers: Seq<controller::LayerText>)
    requires
        !compositor::some_movie(movies, layers),
    ensures
        compositor::shaders_of(movies, layers) == layers,
    decreases layers.len(),
{
    if layers.len() > 0 {
        assert(!compositor::is_movie(movies, layers[layers.len() - 1].path));
        assert forall|i: int| 0 <= i < layers.len() - 1 implies !compositor::is_movie(
            movies,
            (#[trigger] layers.drop_last()[i]).path,
        ) by {
            assert(layers.drop_last()[i] == layers[i]);
        }
        lemma_all_shaders(movies, layers.drop_last());
        assert(layers.drop_last().push(layers.last()) =~= layers);
    } else {
        assert(compositor::shaders_of(movies, layers) =~= layers);
    }
}

/// When windows load their layers again they show what a window opened afresh would
/// show, as long as what is shown holds no movie.
pub proof fn law_reloading_matches_opening(
    movies: Seq<Movie>,
    span: bool,
    ms: Seq<controller::MonitorText>,
    i: int,
)
    requires
        0 <= i < ms.len(),
        desktop::distinct_ids(ms),
        !compositor::some_movie(movies, window_layers(span, ms, ms[i].id)),
    ensures
        window_layers(span, ms, ms[i].id) == desktop::shown(movies, span, ms, ms[i]),
{
    let id = ms[i].id;
    let p = |m: controller::MonitorText| m.id == id;
    assert forall|j: int| 0 <= j < i implies !p(#[trigger] ms[j]) by {
    }
    lists::lemma_first(ms, p, i);
    lemma_all_shaders(movies, window_layers(span, ms, id));
}

// ---------------------------------------------------------------------------
// The loop of a monitor
// ---------------------------------------------------------------------------

/// The state of the loop of a monitor.
#[derive(Clone, Copy, PartialEq, Eq, Structural)]
pub struct MonitorLoop {
    /// Whether the black frame of a monitor without layers was painted.
    pub painted_empty: bool,
    /// Whether the layers were told that the mouse is down.
    pub mouse_was_down: bool,
    /// The frames since the last report.
    pub frame_count: u32,
}

/// What came of a frame.
#[derive(Clone, Copy, PartialEq, Eq, Structural)]
pub enum FrameResult {
    Shown,
    /// The surface is lost or out of date.
    SurfaceLost,
    Failed,
}

/// What a monitor does next.
#[derive(Clone, Copy, PartialEq, Eq, Structural)]
pub enum LoopStep {
    /// End.
    Stop,
    /// Paint one black frame, then wait for a command.
    Paint,
    /// Wait for a command.
    Wait,
    /// Take the commands that are there, then draw.
    Draw,
}

/// How long a monitor without layers waits for a command, in milliseconds.
pub const IDLE_WAIT_MS: u64 = 250;

/// How long a monitor waits between reports, in milliseconds.
pub const REPORT_MS: u64 = 500;

/// What a monitor does at the start of a round.
pub struct Round {
    /// The frames since the last report, where one is due.
    pub report: Option<u32>,
    pub step: LoopStep,
}

/// What a monitor does next.
pub open spec fn next_step(l: MonitorLoop, running: bool, empty: bool) -> LoopStep {
    if !running {
        LoopStep::Stop
    } else if !empty {
        LoopStep::Draw
    } else if l.painted_empty {
        LoopStep::Wait
    } else {
        LoopStep::Paint
    }
}

/// The state of the loop after the black frame was painted.
pub open spec fn after_paint(l: MonitorLoop, result: FrameResult) -> MonitorLoop {
    MonitorLoop { painted_empty: l.painted_empty || result != FrameResult::SurfaceLost, ..l }
}

/// What the cursor does to the layers of a monitor.
#[derive(Clone, Copy, PartialEq, Eq, Structural)]
pub enum MouseFeed {
    Nothing,
    /// The mouse is down, so far from the corner of the monitor.
    Down { x: i64, y: i64 },
    /// The mouse is up.
    Up,
}

/// What a command does to a monitor.
pub enum CommandEffect {
    Nothing,
    Resize((u32, u32)),
    /// Drop the layers and build these, in this order.
    Rebuild(Vec<LayerInfo>),
    Transform { pipeline_index: usize, transform: Rect32 },
    Opacity { pipeline_index: usize, opacity: Bits32 },
    VSync(PresentMode),
    Shutdown,
}

/// The visible layers of a list, the last first: the order in which they are drawn, so
/// that the first of the list is on top.
pub fn draw_order(layers: &Vec<LayerInfo>) -> (r: Vec<LayerInfo>)
    ensures
        controller::layer_texts(r@) == compositor::drawn(controller::layer_texts(layers@)),
{
    let ghost ls = controller::layer_texts(layers@);
    let mut r: Vec<LayerInfo> = Vec::new();
    let mut i: usize = layers.len();
    assert(ls.subrange(0, ls.len() as int) =~= ls);
    assert(controller::layer_texts(r@) + compositor::drawn(ls) =~= compositor::drawn(ls));
    while i > 0
        invariant
            i <= layers.len(),
            ls == controller::layer_texts(layers@),
            controller::layer_texts(r@) + compositor::drawn(ls.subrange(0, i as int)) == compositor::drawn(ls),
        decreases i,
    {
        assert(ls.subrange(0, i as int).drop_last() =~= ls.subrange(0, i - 1));
        assert(ls.subrange(0, i as int).last() == layers@[i - 1]@);
        if layers[i - 1].visible {
            let l = layers[i - 1].copy();
            let ghost before = controller::layer_texts(r@);
            let ghost lt = l@;
            r.push(l);
            assert(controller::layer_texts(r@) =~= before.push(lt));
            assert(before.push(lt) + compositor::drawn(ls.subrange(0, i - 1)) =~= before + (seq![lt]
                + compositor::drawn(ls.subrange(0, i - 1))));
        }
        i = i - 1;
    }
    assert(ls.subrange(0, 0) =~= Seq::empty());
    assert(controller::layer_texts(r@) + Seq::<controller::LayerText>::empty() =~= controller::layer_texts(r@));
    r
}

impl MonitorLoop {
    /// The state of a loop that starts.
    pub fn new() -> (l: MonitorLoop)
        ensures
            l == (MonitorLoop { painted_empty: false, mouse_was_down: false, frame_count: 0 }),
    {
        MonitorLoop { painted_empty: false, mouse_was_down: false, frame_count: 0 }
    }

    /// What a monitor does at the start of a round; `empty` says whether it has no
    /// layers.
    pub fn run_monitor_loop(&mut self, running: bool, empty: bool, since_report_ms: u64) -> (r: Round)
        ensures
            r.step == next_step(*old(self), running, empty),
            r.report == (if running && since_report_ms >= REPORT_MS {
                Some(old(self).frame_count)
            } else {
                None
            }),
            *final(self) == (MonitorLoop {
                frame_count: if r.report is Some {
                    0
                } else {
                    old(self).frame_count
                },
                ..*old(self)
            }),
    {
        if !running {
            return Round { report: None, step: LoopStep::Stop };
        }
        let report: Option<u32> = if since_report_ms >= REPORT_MS {
            let frames: u32 = self.frame_count;
            self.frame_count = 0;
            Some(frames)
        } else {
            None
        };
        let step = if !empty {
            LoopStep::Draw
        } else if self.painted_empty {
            LoopStep::Wait
        } else {
            LoopStep::Paint
        };
        Round { report, step }
    }

    /// Takes note of what came of the black frame. Tells whether the surface is made
    /// again, at the size it had.
    pub fn painted(&mut self, result: FrameResult) -> (resize: bool)
        ensures
            resize == (result == FrameResult::SurfaceLost),
            *final(self) == after_paint(*old(self), result),
    {
        if result == FrameResult::SurfaceLost {
            true
        } else {
            self.painted_empty = true;
            false
        }
    }

    /// What the cursor does to the layers, by the mode of the mouse and by where the
    /// cursor and the monitor are.
    pub fn feed_mouse(&mut self, mode: u8, cursor: Option<(i32, i32)>, origin: (i32, i32)) -> (r: MouseFeed)
        ensures
            r == (if mode != 0 {
                match cursor {
                    Some(c) => MouseFeed::Down { x: (c.0 - origin.0) as i64, y: (c.1 - origin.1) as i64 },
                    None => MouseFeed::Nothing,
                }
            } else if old(self).mouse_was_down {
                MouseFeed::Up
            } else {
                MouseFeed::Nothing
            }),
            *final(self) == (MonitorLoop {
                mouse_was_down: if mode != 0 {
                    old(self).mouse_was_down || cursor is Some
                } else {
                    false
                },
                ..*old(self)
            }),
    {
        if mode != 0 {
            match cursor {
                Some(c) => {
                    self.mouse_was_down = true;
                    MouseFeed::Down { x: c.0 as i64 - origin.0 as i64, y: c.1 as i64 - origin.1 as i64 }
                },
                None => MouseFeed::Nothing,
            }
        } else if self.mouse_was_down {
            self.mouse_was_down = false;
            MouseFeed::Up
        } else {
            MouseFeed::Nothing
        }
    }

    /// Takes note of what came of a frame. Tells whether the surface is made again, at
    /// the size it had.
    pub fn rendered(&mut self, result: FrameResult) -> (resize: bool)
        requires
            old(self).frame_count < u32::MAX,
        ensures
            resize == (result == FrameResult::SurfaceLost),
            *final(self) == (MonitorLoop {
                frame_count: if result == FrameResult::Shown {
                    (old(self).frame_count + 1) as u32
                } else {
                    old(self).frame_count
                },
                ..*old(self)
            }),
    {
        if result == FrameResult::Shown {
            self.frame_count = self.frame_count + 1;
        }
        result == FrameResult::SurfaceLost
    }

    /// What a command does to a monitor.
    pub fn process_command(&mut self, cmd: EngineCommand) -> (r: CommandEffect)
        ensures
            *final(self) == (MonitorLoop {
                painted_empty: old(self).painted_empty && !(cmd is WindowResized) && !(cmd is SetLayers),
                ..*old(self)
            }),
            match cmd {
                EngineCommand::WindowResized(_, size) => r == CommandEffect::Resize(size),
                EngineCommand::SetLayers(layers) => r matches CommandEffect::Rebuild(order)
                    && controller::layer_texts(order@) == compositor::drawn(controller::layer_texts(layers@)),
                EngineCommand::SetLayerTransform { monitor_id, pipeline_index, transform } => r
                    == (CommandEffect::Transform { pipeline_index, transform }),
                EngineCommand::SetLayerOpacity { monitor_id, pipeline_index, opacity } => r
                    == (CommandEffect::Opacity { pipeline_index, opacity }),
                EngineCommand::SetVSync(mode) => r == CommandEffect::VSync(mode),
                EngineCommand::Shutdown => r is Shutdown,
                _ => r is Nothing,
            },
    {
        match cmd {
            EngineCommand::WindowResized(_, size) => {
                self.painted_empty = false;
                CommandEffect::Resize(size)
            },
            EngineCommand::SetLayers(layers) => {
                self.painted_empty = false;
                CommandEffect::Rebuild(draw_order(&layers))
            },
            EngineCommand::SetLayerTransform { monitor_id, pipeline_index, transform } => {
                CommandEffect::Transform { pipeline_index, transform }
            },
            EngineCommand::SetLayerOpacity { monitor_id, pipeline_index, opacity } => {
                CommandEffect::Opacity { pipeline_index, opacity }
            },
            EngineCommand::SetVSync(mode) => CommandEffect::VSync(mode),
            EngineCommand::Shutdown => CommandEffect::Shutdown,
            _ => CommandEffect::Nothing,
        }
    }
}

/// A monitor without layers rests: once its black frame was painted, or failed, it only
/// waits for commands.
pub proof fn law_empty_monitor_rests(l: MonitorLoop, result: FrameResult)
    requires
        result != FrameResult::SurfaceLost,
    ensures
        next_step(after_paint(l, result), true, true) == LoopStep::Wait,
{
}

/// The time that a frame may take, in microseconds.
pub open spec fn budget_us(fps: u32) -> int {
    1_000_000int / (if fps < 1 {
        1int
    } else if fps > 240 {
        240int
    } else {
        fps as int
    })
}

/// How long a monitor sleeps after a frame, in microseconds, so that it draws no more
/// frames in a second than it is allowed.
pub fn pace(fps: u32, elapsed_us: u64) -> (r: Option<u64>)
    ensures
        r == (if elapsed_us < budget_us(fps) {
            Some((budget_us(fps) - elapsed_us) as u64)
        } else {
            None
        }),
        4_166 <= budget_us(fps) <= 1_000_000,
{
    let f: u64 = if fps < 1 {
        1
    } else if fps > 240 {
        240
    } else {
        fps as u64
    };
    let budget: u64 = 1_000_000 / f;
    proof {
        vstd::arithmetic::div_mod::lemma_div_is_ordered_by_denominator(1_000_000, f as int, 240);
        vstd::arithmetic::div_mod::lemma_div_is_ordered_by_denominator(1_000_000, 1, f as int);
    }
    if elapsed_us < budget {
        Some(budget - elapsed_us)
    } else {
        None
    }
}

// ---------------------------------------------------------------------------
// Windows of the shell
// ---------------------------------------------------------------------------

/// A rectangle on the screen.
#[derive(Clone, Copy, PartialEq, Eq, Structural)]
pub struct ScreenRect {
    pub left: i32,
    pub top: i32,
    pub right: i32,
    pub bottom: i32,
}

/// A window that may be the one behind the icons of the desktop.
#[derive(Clone, Copy, PartialEq, Eq, Structural)]
pub struct ShellWindow {
    pub handle: i64,
    pub rect: ScreenRect,
    /// Whether it has no windows inside.
    pub empty: bool,
}

/// Whether a window is large enough to be that of a monitor.
pub open spec fn is_large(r: ScreenRect) -> bool {
    r.right - r.left >= 640 && r.bottom - r.top >= 480
}

fn large_enough(r: ScreenRect) -> (b: bool)
    ensures
        b == is_large(r),
{
    r.right as i64 - r.left as i64 >= 640 && r.bottom as i64 - r.top as i64 >= 480
}

/// The windows among which the one behind the icons is looked for.
pub struct ShellWindows {
    /// Whether the program manager was found.
    pub progman: bool,
    /// The window next to the one that holds the icons.
    pub sibling: Option<ShellWindow>,
    /// The window directly below the program manager.
    pub below: Option<ShellWindow>,
    /// All windows of the class, the topmost first.
    pub top_level: Vec<ShellWindow>,
    /// The window inside the program manager.
    pub child: Option<ShellWindow>,
}

/// The first large window of a list that has no windows inside, else the last large one.
pub open spec fn best_large(v: Seq<ShellWindow>) -> Option<i64> {
    match lists::first_where(v, |w: ShellWindow| is_large(w.rect) && w.empty) {
        Some(i) => Some(v[i].handle),
        None => last_large(v),
    }
}

/// The last large window of a list.
pub open spec fn last_large(v: Seq<ShellWindow>) -> Option<i64>
    decreases v.len(),
{
    if v.len() == 0 {
        None
    } else if is_large(v.last().rect) {
        Some(v.last().handle)
    } else {
        last_large(v.drop_last())
    }
}

/// The window behind the icons of the desktop.
pub open spec fn wallpaper_window(s: ShellWindows) -> Option<i64> {
    if !s.progman {
        None
    } else if s.sibling is Some && is_large(s.sibling->0.rect) {
        Some(s.sibling->0.handle)
    } else if s.below is Some && is_large(s.below->0.rect) {
        Some(s.below->0.handle)
    } else if best_large(s.top_level@) is Some {
        best_large(s.top_level@)
    } else {
        match s.child {
            Some(w) => Some(w.handle),
            None => None,
        }
    }
}

fn find_best_large(v: &Vec<ShellWindow>) -> (r: Option<i64>)
    ensures
        r == best_large(v@),
{
    let ghost p = |w: ShellWindow| is_large(w.rect) && w.empty;
    let mut i: usize = 0;
    while i < v.len()
        invariant
            i <= v.len(),
            p == (|w: ShellWindow| is_large(w.rect) && w.empty),
            forall|j: int| 0 <= j < i ==> !p(#[trigger] v@[j]),
        decreases v.len() - i,
    {
        if large_enough(v[i].rect) && v[i].empty {
            proof {
                lists::lemma_first(v@, p, i as int);
            }
            return Some(v[i].handle);
        }
        assert(!p(v@[i as int]));
        i = i + 1;
    }
    proof {
        lists::lemma_no_first(v@, p);
    }
    let mut k: usize = v.len();
    assert(v@.subrange(0, v@.len() as int) =~= v@);
    while k > 0
        invariant
            k <= v.len(),
            last_large(v@) == last_large(v@.subrange(0, k as int)),
            best_large(v@) == last_large(v@),
        decreases k,
    {
        assert(v@.subrange(0, k as int).drop_last() =~= v@.subrange(0, k - 1));
        assert(v@.subrange(0, k as int).last() == v@[k - 1]);
        if large_enough(v[k - 1].rect) {
            return Some(v[k - 1].handle);
        }
        k = k - 1;
    }
    None
}

/// The window behind the icons of the desktop, into which wallpapers are put.
pub fn get_wallpaper_window(s: &ShellWindows) -> (r: Option<i64>)
    ensures
        r == wallpaper_window(*s),
{
    if !s.progman {
        return None;
    }
    if let Some(w) = s.sibling {
        if large_enough(w.rect) {
            return Some(w.handle);
        }
    }
    if let Some(w) = s.below {
        if large_enough(w.rect) {
            return Some(w.handle);
        }
    }
    if let Some(h) = find_best_large(&s.top_level) {
        return Some(h);
    }
    match s.child {
        Some(w) => Some(w.handle),
        None => None,
    }
}

/// The style of a window that is listed in the taskbar.
pub const WS_EX_APPWINDOW: u32 = 0x0004_0000;

/// The style of a window that is not listed in the taskbar.
pub const WS_EX_TOOLWINDOW: u32 = 0x0000_0080;

/// The style of a window that is not activated.
pub const WS_EX_NOACTIVATE: u32 = 0x0800_0000;

/// The styles of the window of a wallpaper.
pub open spec fn wallpaper_style(ex: u32) -> u32 {
    (ex & !WS_EX_APPWINDOW) | WS_EX_TOOLWINDOW | WS_EX_NOACTIVATE
}

/// The styles of the window of a wallpaper, which keep it out of the taskbar.
pub fn prepare_wallpaper_window(ex: u32) -> (r: u32)
    ensures
        r == wallpaper_style(ex),
{
    (ex & !WS_EX_APPWINDOW) | WS_EX_TOOLWINDOW | WS_EX_NOACTIVATE
}

/// The window of a wallpaper is not listed in the taskbar and not activated, and its
/// styles can be set again without changing them.
pub proof fn law_wallpapers_keep_out_of_the_taskbar(ex: u32)
    ensures
        wallpaper_style(ex) & WS_EX_APPWINDOW == 0,
        wallpaper_style(ex) & WS_EX_TOOLWINDOW == WS_EX_TOOLWINDOW,
        wallpaper_style(ex) & WS_EX_NOACTIVATE == WS_EX_NOACTIVATE,
        wallpaper_style(wallpaper_style(ex)) == wallpaper_style(ex),
{
    let a: u32 = 0x0004_0000;
    let t: u32 = 0x0000_0080;
    let n: u32 = 0x0800_0000;
    let s: u32 = (ex & !a) | t | n;
    assert(s & a == 0 && s & t == t && s & n == n && ((s & !a) | t | n) == s) by (bit_vector)
        requires
            a == 0x0004_0000u32,
            t == 0x0000_0080u32,
            n == 0x0800_0000u32,
            s == (ex & !a) | t | n,
    ;
}

/// Where a window is inside the window behind the icons.
pub fn setup_wallpaper_window(screen: (i32, i32), parent: ScreenRect) -> (r: (i64, i64))
    ensures
        r.0 == screen.0 - parent.left,
        r.1 == screen.1 - parent.top,
{
    (screen.0 as i64 - parent.left as i64, screen.1 as i64 - parent.top as i64)
}

/// How a window is shown.
#[derive(Clone, Copy, PartialEq, Eq, Structural)]
pub enum ShowState {
    Normal,
    Minimized,
    Maximized,
    /// In another way, by its number.
    Other(u32),
}

/// How the main window is shown when it comes back, if it was shown before: never
/// minimized. `to_maximized` says whether it was maximized before it was minimized.
pub fn restore_window_placement(saved: Option<ShowState>, to_maximized: bool) -> (r: Option<ShowState>)
    ensures
        r == (match saved {
            Some(ShowState::Minimized) => if to_maximized {
                Some(ShowState::Maximized)
            } else {
                Some(ShowState::Normal)
            },
            other => other,
        }),
        r != Some(ShowState::Minimized),
{
    match saved {
        Some(ShowState::Minimized) => if to_maximized {
            Some(ShowState::Maximized)
        } else {
            Some(ShowState::Normal)
        },
        other => other,
    }
}

/// A window on the screen.
pub struct TopWindow {
    pub visible: bool,
    pub minimized: bool,
    /// Whether the system hides it, such as on another virtual desktop.
    pub cloaked: bool,
    /// Where it is, where that is known.
    pub rect: Option<ScreenRect>,
    pub class: String,
}

/// Whether a class is one of the shell's own.
pub open spec fn shell_class(class: Seq<char>) -> bool {
    ||| class == "Progman"@
    ||| class == "WorkerW"@
    ||| class == "Shell_TrayWnd"@
    ||| class == "Shell_SecondaryTrayWnd"@
    ||| class == "Windows.UI.Core.CoreWindow"@
    ||| class == "XamlExplorerHostIslandWindow"@
}

fn is_shell_class(class: &str) -> (r: bool)
    ensures
        r == shell_class(class@),
{
    str_eq(class, "Progman") || str_eq(class, "WorkerW") || str_eq(class, "Shell_TrayWnd") || str_eq(
        class,
        "Shell_SecondaryTrayWnd",
    ) || str_eq(class, "Windows.UI.Core.CoreWindow") || str_eq(class, "XamlExplorerHostIslandWindow")
}

/// Whether a rectangle overlaps a monitor.
pub open spec fn overlaps(r: ScreenRect, origin: (i32, i32), size: (u32, u32)) -> bool {
    &&& r.left < origin.0 + size.0
    &&& r.right > origin.0
    &&& r.top < origin.1 + size.1
    &&& r.bottom > origin.1
}

/// Whether a rectangle spans a monitor.
pub open spec fn spans(r: ScreenRect, origin: (i32, i32), size: (u32, u32)) -> bool {
    &&& r.left <= origin.0
    &&& r.top <= origin.1
    &&& r.right >= origin.0 + size.0
    &&& r.bottom >= origin.1 + size.1
}

/// Whether a window can be seen on a monitor and is not the shell's own.
pub open spec fn is_over(w: TopWindow, origin: (i32, i32), size: (u32, u32)) -> bool {
    &&& w.visible
    &&& !w.minimized
    &&& !w.cloaked
    &&& w.rect matches Some(r) && overlaps(r, origin, size)
    &&& !shell_class(w.class@)
}

/// Whether a monitor is covered: the topmost window that can be seen on it spans it.
pub open spec fn covered(ws: Seq<TopWindow>, origin: (i32, i32), size: (u32, u32)) -> bool {
    match lists::first_where(ws, |w: TopWindow| is_over(w, origin, size)) {
        Some(i) => spans(ws[i].rect->0, origin, size),
        None => false,
    }
}

fn rect_overlaps(r: ScreenRect, origin: (i32, i32), size: (u32, u32)) -> (b: bool)
    ensures
        b == overlaps(r, origin, size),
{
    (r.left as i64) < origin.0 as i64 + size.0 as i64 && r.right > origin.0 && (r.top as i64) < origin.1 as i64
        + size.1 as i64 && r.bottom > origin.1
}

/// Whether a full-screen window covers a monitor. `windows` lists the windows on the
/// screen, the topmost first; a window that is merely maximized leaves the taskbar.
pub fn monitor_covered(windows: &Vec<TopWindow>, origin: (i32, i32), size: (u32, u32)) -> (r: bool)
    ensures
        r == covered(windows@, origin, size),
{
    let ghost p = |w: TopWindow| is_over(w, origin, size);
    let mut i: usize = 0;
    while i < windows.len()
        invariant
            i <= windows.len(),
            p == (|w: TopWindow| is_over(w, origin, size)),
            forall|j: int| 0 <= j < i ==> !p(#[trigger] windows@[j]),
        decreases windows.len() - i,
    {
        let w = &windows[i];
        if let Some(r) = w.rect {
            if w.visible && !w.minimized && !w.cloaked && rect_overlaps(r, origin, size) && !is_shell_class(
                w.class.as_str(),
            ) {
                proof {
                    lists::lemma_first(windows@, p, i as int);
                }
                return r.left <= origin.0 && r.top <= origin.1 && r.right as i64 >= origin.0 as i64 + size.0 as i64
                    && r.bottom as i64 >= origin.1 as i64 + size.1 as i64;
            }
        }
        assert(!p(windows@[i as int]));
        i = i + 1;
    }
    proof {
        lists::lemma_no_first(windows@, p);
    }
    false
}

// ---------------------------------------------------------------------------
// Laws
// ---------------------------------------------------------------------------

/// Whether a window can be seen and belongs to a program: it is shown, and it is not a
/// part of the desktop such as the taskbar.
pub open spec fn seen(w: TopWindow) -> bool {
    &&& w.visible && !w.minimized && !w.cloaked
    &&& w.class@ != "Progman"@ && w.class@ != "WorkerW"@ && w.class@ != "Shell_TrayWnd"@
    &&& w.class@ != "Shell_SecondaryTrayWnd"@ && w.class@ != "Windows.UI.Core.CoreWindow"@
    &&& w.class@ != "XamlExplorerHostIslandWindow"@
}

/// Whether a pixel is on a monitor.
pub open spec fn on_monitor(x: int, y: int, origin: (i32, i32), size: (u32, u32)) -> bool {
    origin.0 <= x < origin.0 + size.0 && origin.1 <= y < origin.1 + size.1
}

/// Whether a pixel is in the rectangle of a window.
pub open spec fn has_pixel(w: TopWindow, x: int, y: int) -> bool {
    w.rect matches Some(r) && r.left <= x < r.right && r.top <= y < r.bottom
}

/// A movie is paused only where it cannot be seen: a monitor that counts as covered is
/// covered by one window of a program, to the last pixel.
pub proof fn law_covered_monitors_are_hidden(ws: Seq<TopWindow>, origin: (i32, i32), size: (u32, u32))
    requires
        covered(ws, origin, size),
    ensures
        exists|i: int|
            0 <= i < ws.len() && seen(#[trigger] ws[i]) && forall|x: int, y: int|
                on_monitor(x, y, origin, size) ==> #[trigger] has_pixel(ws[i], x, y),
{
    let p = |w: TopWindow| is_over(w, origin, size);
    let i = lists::first_where(ws, p)->0;
    assert(lists::is_first(ws, p, i));
    assert forall|x: int, y: int| on_monitor(x, y, origin, size) implies #[trigger] has_pixel(ws[i], x, y) by {
    }
    assert(seen(ws[i]));
}

/// The topmost window of a program on a monitor decides whether it is covered: it is where
/// that window hides every pixel, and it is not where the window leaves one, such as those
/// of the taskbar. Windows have pixels.
pub proof fn law_topmost_window_decides(ws: Seq<TopWindow>, i: int, x: int, y: int, origin: (i32, i32), size: (u32, u32))
    requires
        0 <= i < ws.len(),
        forall|k: int| 0 <= k < ws.len() ==> ((#[trigger] ws[k]).rect matches Some(r) ==> r.left < r.right && r.top < r.bottom),
        size.0 > 0 && size.1 > 0,
        seen(ws[i]),
        on_monitor(x, y, origin, size) && has_pixel(ws[i], x, y),
        forall|j: int, a: int, b: int|
            0 <= j < i && seen(#[trigger] ws[j]) && on_monitor(a, b, origin, size) ==> !#[trigger] has_pixel(ws[j], a, b),
    ensures
        covered(ws, origin, size) <==> forall|a: int, b: int|
            on_monitor(a, b, origin, size) ==> #[trigger] has_pixel(ws[i], a, b),
{
    let p = |w: TopWindow| is_over(w, origin, size);
    let r = ws[i].rect->0;
    assert(p(ws[i]));
    assert forall|j: int| 0 <= j < i implies !p(#[trigger] ws[j]) by {
        if p(ws[j]) {
            let q = ws[j].rect->0;
            let a: int = if q.left > origin.0 {
                q.left as int
            } else {
                origin.0 as int
            };
            let b: int = if q.top > origin.1 {
                q.top as int
            } else {
                origin.1 as int
            };
            assert(seen(ws[j]));
            assert(on_monitor(a, b, origin, size) && has_pixel(ws[j], a, b));
        }
    }
    assert(lists::is_first(ws, p, i));
    lists::lemma_first(ws, p, i);
    if forall|a: int, b: int| on_monitor(a, b, origin, size) ==> #[trigger] has_pixel(ws[i], a, b) {
        let last_x = origin.0 + size.0 - 1;
        let last_y = origin.1 + size.1 - 1;
        assert(has_pixel(ws[i], origin.0 as int, origin.1 as int));
        assert(has_pixel(ws[i], last_x, last_y));
    }
}

/// A monitor on which no window of a program shows is not covered.
pub proof fn law_free_monitors_are_not_covered(ws: Seq<TopWindow>, origin: (i32, i32), size: (u32, u32))
    requires
        size.0 > 0 && size.1 > 0,
        forall|j: int| 0 <= j < ws.len() && seen(#[trigger] ws[j]) ==> !has_pixel(ws[j], origin.0 as int, origin.1 as int),
    ensures
        !covered(ws, origin, size),
{
    let p = |w: TopWindow| is_over(w, origin, size);
    if covered(ws, origin, size) {
        let i = lists::first_where(ws, p)->0;
        assert(lists::is_first(ws, p, i));
        assert(seen(ws[i]));
        assert(has_pixel(ws[i], origin.0 as int, origin.1 as int));
    }
}

/// A command reaches the windows it concerns, and no others: a new size the window that has
/// it, a change of a layer the windows of its monitor; a window that is closed is told to
/// end; all windows are told to load their layers, how to wait for the screen, and to end
/// with the engine. No other command is passed on.
pub proof fn law_commands_reach_their_windows(
    cmd: EngineText,
    span: bool,
    ms: Seq<controller::MonitorText>,
    ws: Seq<(u64, Seq<char>)>,
    window: u64,
    told: EngineText,
)
    ensures
        messages_of(cmd, span, ms, ws).contains((window, told)) <==> exists|k: int|
            0 <= k < ws.len() && (#[trigger] ws[k]).0 == window && match cmd {
                EngineText::WindowResized(w, _) => w == window && told == cmd,
                EngineText::WindowClosed(w) => w == window && told == EngineText::Shutdown,
                EngineText::SetLayerTransform(id, _, _) => id == ws[k].1 && told == cmd,
                EngineText::SetLayerOpacity(id, _, _) => id == ws[k].1 && told == cmd,
                EngineText::SetVSync(_) => told == cmd,
                EngineText::Shutdown => told == cmd,
                EngineText::Reload => told == EngineText::SetLayers(window_layers(span, ms, ws[k].1)),
                EngineText::AddWindow(_, _) => false,
                EngineText::SetLayers(_) => false,
                EngineText::ReloadLibrary => false,
                EngineText::LoadWallpaper(_) => false,
                EngineText::SetMousePosition(_, _) => false,
                EngineText::SetMouseDown(_) => false,
                EngineText::OpenDebugger => false,
            },
    decreases ws.len(),
{
    let all = messages_of(cmd, span, ms, ws);
    if ws.len() > 0 {
        let d = ws.drop_last();
        let before = messages_of(cmd, span, ms, d);
        law_commands_reach_their_windows(cmd, span, ms, d, window, told);
        assert(ws[ws.len() - 1] == ws.last());
        assert(forall|k: int| 0 <= k < d.len() ==> d[k] == ws[k]);
        if before.contains((window, told)) {
            let i = choose|i: int| 0 <= i < before.len() && before[i] == (window, told);
            assert(all[i] == (window, told));
        }
        if message_of(cmd, span, ms, ws.last()) is Some {
            let m = (ws.last().0, message_of(cmd, span, ms, ws.last())->0);
            assert(all[all.len() - 1] == m);
            if all.contains((window, told)) && !before.contains((window, told)) {
                let i = choose|i: int| 0 <= i < all.len() && all[i] == (window, told);
                if i < before.len() {
                    assert(before[i] == (window, told));
                }
                assert(m == (window, told));
            }
        }
    }
}

/// A window that loads its layers gets those of its monitor, or in span mode those of the
/// primary monitor; a window of a monitor that is gone gets none.
pub proof fn law_windows_show_their_monitors(ms: Seq<controller::MonitorText>, id: Seq<char>, k: int)
    ensures
        0 <= k < ms.len() && ms[k].id == id && (forall|j: int| 0 <= j < k ==> (#[trigger] ms[j]).id != id)
            ==> window_layers(false, ms, id) == ms[k].layers,
        (forall|j: int| 0 <= j < ms.len() ==> (#[trigger] ms[j]).id != id) ==> window_layers(false, ms, id)
            == Seq::<controller::LayerText>::empty(),
        0 <= k < ms.len() && ms[k].is_primary && (forall|j: int| 0 <= j < k ==> !(#[trigger] ms[j]).is_primary)
            ==> window_layers(true, ms, id) == ms[k].layers,
{
    let p = |m: controller::MonitorText| m.id == id;
    let q = |m: controller::MonitorText| m.is_primary;
    if 0 <= k < ms.len() && ms[k].id == id && (forall|j: int| 0 <= j < k ==> (#[trigger] ms[j]).id != id) {
        assert(lists::is_first(ms, p, k));
        lists::lemma_first(ms, p, k);
    }
    if forall|j: int| 0 <= j < ms.len() ==> (#[trigger] ms[j]).id != id {
        lists::lemma_no_first(ms, p);
    }
    if 0 <= k < ms.len() && ms[k].is_primary && (forall|j: int| 0 <= j < k ==> !(#[trigger] ms[j]).is_primary) {
        assert(lists::is_first(ms, q, k));
        lists::lemma_first(ms, q, k);
    }
}

/// The engine knows a window from when it is added until it is closed, with the monitor
/// that it was added with last; no other command changes which windows it knows.
pub proof fn law_windows_are_known(ws: Seq<(u64, Seq<char>)>, cmd: EngineText, w: (u64, Seq<char>))
    ensures
        windows_after(ws, cmd).contains(w) <==> match cmd {
            EngineText::AddWindow(window, id) => w == (window, id) || ws.contains(w) && w.0 != window,
            EngineText::WindowClosed(window) => ws.contains(w) && w.0 != window,
            _ => ws.contains(w),
        },
{
    match cmd {
        EngineText::AddWindow(window, id) => {
            lemma_window_left_out(ws, window, w);
            let rest = without_window(ws, window);
            let all = rest.push((window, id));
            assert(all[rest.len() as int] == (window, id));
            if rest.contains(w) {
                let i = choose|i: int| 0 <= i < rest.len() && rest[i] == w;
                assert(all[i] == w);
            }
            if all.contains(w) && w != (window, id) {
                let i = choose|i: int| 0 <= i < all.len() && all[i] == w;
                assert(rest[i] == w);
            }
        },
        EngineText::WindowClosed(window) => {
            lemma_window_left_out(ws, window, w);
        },
        _ => {},
    }
}

proof fn lemma_window_left_out(ws: Seq<(u64, Seq<char>)>, window: u64, w: (u64, Seq<char>))
    ensures
        without_window(ws, window).contains(w) <==> ws.contains(w) && w.0 != window,
    decreases ws.len(),
{
    if ws.len() > 0 {
        let d = ws.drop_last();
        let before = without_window(d, window);
        let after = without_window(ws, window);
        lemma_window_left_out(d, window, w);
        assert(ws[ws.len() - 1] == ws.last());
        if d.contains(w) {
            let i = choose|i: int| 0 <= i < d.len() && d[i] == w;
            assert(ws[i] == w);
        }
        if ws.contains(w) && w != ws.last() {
            let i = choose|i: int| 0 <= i < ws.len() && ws[i] == w;
            assert(d[i] == w);
        }
        if ws.last().0 != window {
            assert(after[before.len() as int] == ws.last());
            if before.contains(w) {
                let i = choose|i: int| 0 <= i < before.len() && before[i] == w;
                assert(after[i] == w);
            }
            if after.contains(w) && w != ws.last() {
                let i = choose|i: int| 0 <= i < after.len() && after[i] == w;
                assert(before[i] == w);
            }
        }
    }
}

/// What a monitor does in a round: it ends when the engine does, draws while it has layers,
/// and without layers paints one frame that makes it black and then waits. A frame that the
/// surface lost is painted again.
pub proof fn law_monitors_draw_what_they_have(l: MonitorLoop, empty: bool, result: FrameResult)
    ensures
        next_step(l, false, empty) == LoopStep::Stop,
        next_step(l, true, false) == LoopStep::Draw,
        !l.painted_empty ==> next_step(l, true, true) == LoopStep::Paint,
        l.painted_empty ==> next_step(l, true, true) == LoopStep::Wait,
        !l.painted_empty ==> next_step(after_paint(l, FrameResult::SurfaceLost), true, true) == LoopStep::Paint,
        after_paint(l, result).mouse_was_down == l.mouse_was_down,
        after_paint(l, result).frame_count == l.frame_count,
{
}

/// The cap on frames holds: so many frames as the cap allows fit into a second, and not
/// much time is wasted. The cap is between 1 and 240.
pub proof fn law_frames_fit_into_a_second(fps: u32)
    ensures
        1 <= fps <= 240 ==> budget_us(fps) * fps <= 1_000_000 < (budget_us(fps) + 1) * fps,
        fps < 1 ==> budget_us(fps) == budget_us(1),
        fps > 240 ==> budget_us(fps) == budget_us(240),
{
    if 1 <= fps <= 240 {
        let f = fps as int;
        assert(1_000_000int / f * f <= 1_000_000 < (1_000_000int / f + 1) * f) by (nonlinear_arith)
            requires
                1 <= f <= 240,
        ;
    }
}

/// Whether a window of the shell has the size of a screen.
pub open spec fn of_screen_size(w: ShellWindow) -> bool {
    w.rect.left + 640 <= w.rect.right && w.rect.top + 480 <= w.rect.bottom
}

/// Wallpapers are put into a window of the shell that has the size of a screen: the one
/// next to the icons where it has, else the one below the program manager, else one of the
/// others, and only where there is none into the program manager's own. Without a program
/// manager there is no such window.
pub proof fn law_wallpapers_go_behind_the_icons(s: ShellWindows)
    ensures
        !s.progman ==> wallpaper_window(s) is None,
        s.progman ==> (s.sibling matches Some(w) ==> of_screen_size(w) ==> wallpaper_window(s) == Some(w.handle)),
        s.progman && !(s.sibling matches Some(w) && of_screen_size(w)) ==> {
            &&& s.below matches Some(w) ==> of_screen_size(w) ==> wallpaper_window(s) == Some(w.handle)
            &&& !(s.below matches Some(w) && of_screen_size(w)) ==> {
                &&& (exists|i: int| 0 <= i < s.top_level@.len() && of_screen_size(#[trigger] s.top_level@[i]))
                    ==> exists|i: int|
                    0 <= i < s.top_level@.len() && of_screen_size(#[trigger] s.top_level@[i]) && wallpaper_window(s)
                        == Some(s.top_level@[i].handle) && (s.top_level@[i].empty || forall|j: int|
                        0 <= j < s.top_level@.len() && of_screen_size(#[trigger] s.top_level@[j])
                            ==> !s.top_level@[j].empty && j <= i)
                &&& (forall|i: int| 0 <= i < s.top_level@.len() ==> !of_screen_size(#[trigger] s.top_level@[i]))
                    ==> wallpaper_window(s) == (match s.child {
                    Some(w) => Some(w.handle),
                    None => None,
                })
            }
        },
{
    let v = s.top_level@;
    let p = |w: ShellWindow| is_large(w.rect) && w.empty;
    lemma_last_large(v);
    match lists::first_where(v, p) {
        Some(i) => {
            assert(lists::is_first(v, p, i));
            assert(of_screen_size(v[i]));
        },
        None => {
            assert forall|j: int| 0 <= j < v.len() && of_screen_size(#[trigger] v[j]) implies !v[j].empty by {
                if v[j].empty {
                    assert(p(v[j]));
                    lists::lemma_some_first(v, p, j);
                }
            }
        },
    }
}

proof fn lemma_last_large(v: Seq<ShellWindow>)
    ensures
        match last_large(v) {
            Some(h) => exists|i: int|
                0 <= i < v.len() && of_screen_size(#[trigger] v[i]) && v[i].handle == h && forall|j: int|
                    0 <= j < v.len() && of_screen_size(#[trigger] v[j]) ==> j <= i,
            None => forall|i: int| 0 <= i < v.len() ==> !of_screen_size(#[trigger] v[i]),
        },
    decreases v.len(),
{
    if v.len() > 0 {
        let d = v.drop_last();
        lemma_last_large(d);
        assert(v[v.len() - 1] == v.last());
        assert(forall|i: int| 0 <= i < d.len() ==> d[i] == v[i]);
        if !is_large(v.last().rect) {
            if last_large(d) is Some {
                let i = choose|i: int|
                    0 <= i < d.len() && of_screen_size(#[trigger] d[i]) && d[i].handle == last_large(d)->0 && forall|j: int|
                        0 <= j < d.len() && of_screen_size(#[trigger] d[j]) ==> j <= i;
                assert(of_screen_size(v[i]));
                assert forall|j: int| 0 <= j < v.len() && of_screen_size(#[trigger] v[j]) implies j <= i by {
                    assert(of_screen_size(d[j]));
                }
            } else {
                assert forall|i: int| 0 <= i < v.len() implies !of_screen_size(#[trigger] v[i]) by {
                    if i < d.len() {
                        assert(!of_screen_size(d[i]));
                    }
                }
            }
        } else {
            assert(of_screen_size(v[v.len() - 1]));
        }
    }
}

/// An idle window is looked after four times a second, and the frame rate is reported
/// twice a second; the styles of windows have the values that the system gives them.
pub proof fn law_windows_keep_their_times()
    ensures
        IDLE_WAIT_MS == 250,
        REPORT_MS == 500,
        WS_EX_APPWINDOW == 0x0004_0000,
        WS_EX_TOOLWINDOW == 0x0000_0080,
        WS_EX_NOACTIVATE == 0x0800_0000,
{
}

/// No window is known twice.
pub proof fn law_no_window_is_known_twice(e: Engine, i: int, j: int)
    requires
        e.wf(),
        0 <= i < e.windows@.len(),
        0 <= j < e.windows@.len(),
        e.windows@[i].window == e.windows@[j].window,
    ensures
        i == j,
{
}

} // verus!
