//! Monitors, their layers and their windows.
use strata::compositor::{
    apply_conflict, apply_to_monitor, find_movie, find_pipeline, has_movie, has_shader, layer_transform_live,
    move_layer_down, move_layer_up, positioning_to_object_fit, recolor_monitor, remove_layer, remove_wallpaper,
    rename_monitor, restore_monitors, set_layer_blend, set_layer_opacity, set_layer_positioning, set_layer_scale,
    set_layer_transform, set_layer_visible, shader_layers, Movie, PositioningEffect,
};
use strata::config::{flush_config, Config};
use strata::controller::{AppState, LayerInfo, MonitorInfo, WallpaperEntry};
use strata::desktop::{
    canvas_of, debug_composite, global_size, is_dropped, spawn_wallpaper_windows, surface_size, sync_wallpaper_windows,
    CompositePlace,
};
use strata::manifest::{Bits32, ONE_BITS};
use strata::paths::Location;
use strata::platform::{
    draw_order, get_wallpaper_window, monitor_covered, pace, prepare_wallpaper_window, restore_window_placement,
    setup_wallpaper_window, CommandEffect, Engine, EngineCommand, FrameResult, LoopStep, MonitorLoop, MouseFeed,
    ScreenRect, ShellWindow, ShellWindows, ShowState, TopWindow, WS_EX_APPWINDOW, WS_EX_NOACTIVATE, WS_EX_TOOLWINDOW,
};
use strata::renderer::{PresentMode, Rect32};

fn place(parts: &[&str]) -> Location {
    Location { parts: parts.iter().map(|s| s.to_string()).collect() }
}

fn bits(x: f32) -> Bits32 {
    Bits32(x.to_bits())
}

fn layer(name: &str) -> LayerInfo {
    let one = Bits32(ONE_BITS);
    LayerInfo {
        wallpaper_path: place(&["w", name]),
        name: name.to_string(),
        opacity: one,
        resolution_scale: one,
        positioning: "Fill".to_string(),
        transform: Rect32 { x: Bits32(0), y: Bits32(0), w: one, h: one },
        visible: true,
        blend_mode: "normal".to_string(),
    }
}

fn monitor(i: usize, x: i32, layers: &[&str]) -> MonitorInfo {
    MonitorInfo {
        id: format!("monitor-{}", i),
        name: format!("Display {}", i + 1),
        color: "blue".to_string(),
        resolution: (1920, 1080),
        position: (x, 0),
        is_primary: i == 0,
        layers: layers.iter().map(|l| layer(l)).collect(),
    }
}

fn entry(name: &str) -> WallpaperEntry {
    WallpaperEntry {
        name: name.to_string(),
        author: String::new(),
        source_url: String::new(),
        path: place(&["w", name]),
        tags: vec![],
        thumbnail: None,
    }
}

fn movies() -> Vec<Movie> {
    vec![Movie { pack: place(&["w", "rain"]), file: place(&["w", "rain", "video.mp4"]) }]
}

fn state(span: bool, monitors: Vec<MonitorInfo>) -> AppState {
    AppState {
        wallpapers: vec![entry("sea"), entry("fire"), entry("rain")],
        monitors,
        theme_mode: "dark".to_string(),
        span_monitors: span,
        autostart: false,
    }
}

fn names(m: &MonitorInfo) -> Vec<String> {
    m.layers.iter().map(|l| l.name.clone()).collect()
}

#[test]
fn shaders_are_stacked_and_taken_off_again() {
    let mut s = state(false, vec![monitor(0, 0, &["sea"])]);
    let note = apply_to_monitor(&mut s, &movies(), 0, "fire").expect("a note");
    assert_eq!(note.title, "Engine Synchronizing");
    assert_eq!(note.text, "fire applied to Display 1.");
    assert_eq!(names(&s.monitors[0]), ["fire", "sea"]);
    let note = apply_to_monitor(&mut s, &movies(), 0, "fire").expect("a note");
    assert_eq!(note.title, "Shader Removed");
    assert_eq!(note.text, "fire removed from Display 1.");
    assert_eq!(names(&s.monitors[0]), ["sea"]);
    assert!(apply_to_monitor(&mut s, &movies(), 0, "unknown").is_none());
    assert!(apply_to_monitor(&mut s, &movies(), 7, "fire").is_none());
}

#[test]
fn movies_and_shaders_do_not_mix() {
    let mut s = state(false, vec![monitor(0, 0, &["sea", "fire"])]);
    assert_eq!(
        apply_conflict(&s, &movies(), 0, "rain"),
        Some(
            "Compositing shaders with movie-based wallpapers is not supported. Applying this movie wallpaper will \
             remove the current shader layers on Display 1."
                .to_string()
        )
    );
    let _ = apply_to_monitor(&mut s, &movies(), 0, "rain");
    assert_eq!(names(&s.monitors[0]), ["rain"]);
    assert_eq!(
        apply_conflict(&s, &movies(), 0, "sea"),
        Some(
            "Compositing shaders with movie-based wallpapers is not supported. Applying this shader will remove the \
             current movie wallpaper on Display 1."
                .to_string()
        )
    );
    assert_eq!(apply_conflict(&s, &movies(), 0, "rain"), None);
    let _ = apply_to_monitor(&mut s, &movies(), 0, "sea");
    assert_eq!(names(&s.monitors[0]), ["sea"]);
    assert_eq!(apply_conflict(&s, &movies(), 0, "fire"), None);
}

#[test]
fn a_movie_ends_the_spanning() {
    let mut s = state(true, vec![monitor(0, 0, &["sea"]), monitor(1, 1920, &[])]);
    assert_eq!(
        apply_conflict(&s, &movies(), 1, "rain"),
        Some(
            "Compositing shaders with movie-based wallpapers is not supported. Applying this movie wallpaper will \
             remove the shader layers spanning your displays."
                .to_string()
        )
    );
    let note = apply_to_monitor(&mut s, &movies(), 1, "rain").expect("a note");
    assert_eq!(note.text, "rain applied to Display 2.");
    assert!(!s.span_monitors);
    assert!(s.monitors[0].layers.is_empty());
    assert_eq!(names(&s.monitors[1]), ["rain"]);
    let mut s = state(true, vec![monitor(0, 0, &[])]);
    let note = apply_to_monitor(&mut s, &movies(), 0, "sea").expect("a note");
    assert_eq!(note.text, "Shader deployed to all monitors (Spanned mode).");
    assert!(s.span_monitors);
}

#[test]
fn kinds_of_layers_are_told_apart() {
    let layers = vec![layer("sea"), layer("rain")];
    assert!(has_movie(&movies(), &layers) && has_shader(&movies(), &layers));
    let kept = shader_layers(&movies(), &layers);
    assert_eq!(kept.len(), 1);
    assert_eq!(kept[0].name, "sea");
    assert_eq!(find_movie(&movies(), &place(&["w", "rain"])).expect("a movie").parts, ["w", "rain", "video.mp4"]);
    assert!(find_movie(&movies(), &place(&["w", "sea"])).is_none());
    assert_eq!(positioning_to_object_fit("Fit"), "contain");
    assert_eq!(positioning_to_object_fit("Stretch"), "fill");
    assert_eq!(positioning_to_object_fit("Center"), "none");
    assert_eq!(positioning_to_object_fit("Fill"), "cover");
}

#[test]
fn layers_are_edited() {
    let mut s = state(false, vec![monitor(0, 0, &["sea", "fire", "glow"])]);
    assert!(set_layer_visible(&mut s, 0, 2, false));
    let (changed, live) = set_layer_opacity(&mut s, 0, 0, bits(0.5));
    assert!(changed && s.monitors[0].layers[0].opacity == bits(0.5));
    let live = live.expect("a shown layer");
    assert_eq!((live.monitor_id.as_str(), live.pipeline_index), ("monitor-0", 1));
    assert!(set_layer_opacity(&mut s, 0, 2, bits(0.5)).1.is_none());
    assert!(!set_layer_opacity(&mut s, 0, 9, bits(0.5)).0);
    assert_eq!(layer_transform_live(&s, 0, 1).expect("a shown layer").pipeline_index, 0);
    assert!(layer_transform_live(&s, 0, 2).is_none());
    assert!(set_layer_blend(&mut s, 0, 1, "add") && s.monitors[0].layers[1].blend_mode == "add");
    assert!(set_layer_scale(&mut s, 0, 1, bits(0.75)) && s.monitors[0].layers[1].resolution_scale == bits(0.75));
    let half = Rect32 { x: bits(0.0), y: bits(0.0), w: bits(0.5), h: bits(0.5) };
    assert!(set_layer_transform(&mut s, 0, 1, half));
    assert_eq!(s.monitors[0].layers[1].positioning, "Custom");
    assert!(s.monitors[0].layers[1].transform == half);
    assert!(!set_layer_visible(&mut s, 3, 0, true));
    assert!(remove_layer(&mut s, 0, 1));
    assert_eq!(names(&s.monitors[0]), ["sea", "glow"]);
    assert!(!remove_layer(&mut s, 0, 5));
}

#[test]
fn positions_of_movies_go_to_the_player() {
    let mut s = state(false, vec![monitor(0, 0, &["rain"]), monitor(1, 1920, &["sea"])]);
    match set_layer_positioning(&mut s, &movies(), 0, 0, "Stretch") {
        PositioningEffect::Fit { monitor_id, fit } => assert_eq!((monitor_id.as_str(), fit.as_str()), ("monitor-0", "fill")),
        _ => panic!("a movie"),
    }
    assert!(matches!(set_layer_positioning(&mut s, &movies(), 1, 0, "Fit"), PositioningEffect::Reload));
    assert!(matches!(set_layer_positioning(&mut s, &movies(), 1, 1, "Fit"), PositioningEffect::Nothing));
    assert_eq!(s.monitors[1].layers[0].positioning, "Fit");
}

#[test]
fn layers_move_up_and_down() {
    let mut s = state(false, vec![monitor(0, 0, &["sea", "fire", "glow"])]);
    assert!(!move_layer_up(&mut s, 0, 0));
    assert!(move_layer_up(&mut s, 0, 2));
    assert_eq!(names(&s.monitors[0]), ["sea", "glow", "fire"]);
    assert!(move_layer_down(&mut s, 0, 1));
    assert_eq!(names(&s.monitors[0]), ["sea", "fire", "glow"]);
    assert!(!move_layer_down(&mut s, 0, 2));
    let order = draw_order(&s.monitors[0].layers);
    let drawn: Vec<&str> = order.iter().map(|l| l.name.as_str()).collect();
    assert_eq!(drawn, ["glow", "fire", "sea"]);
    for i in 0..3 {
        assert_eq!(order[find_pipeline(&s.monitors[0].layers, i)].name, s.monitors[0].layers[i].name);
    }
}

#[test]
fn assignments_survive_a_restart() {
    let mut s = state(true, vec![monitor(0, 0, &["sea", "lost"]), monitor(1, 1920, &[])]);
    assert!(rename_monitor(&mut s, 0, "Left") && recolor_monitor(&mut s, 0, "rose"));
    assert!(!rename_monitor(&mut s, 2, "x") && !recolor_monitor(&mut s, 2, "x"));
    let mut c = Config::load(None);
    flush_config(&mut c, &s, 144, bits(2.0), "Off", bits(0.5), bits(0.5));
    assert_eq!((c.target_fps, c.shader_quality.as_str(), c.mouse_mode.as_str()), (144, "Low (Performance Mode)", "Off"));
    assert!(c.span_monitors && c.theme_mode == "dark" && c.audio_sensitivity == bits(2.0));
    let mut found = vec![monitor(0, 0, &[]), monitor(1, 1920, &[]), monitor(2, 3840, &[])];
    found[2].color = String::new();
    let back = restore_monitors(&found, &c.monitors, &vec![place(&["w", "sea"])]);
    assert_eq!((back[0].name.as_str(), back[0].color.as_str()), ("Left", "rose"));
    assert_eq!(names(&back[0]), ["sea"]);
    assert_eq!(back[1].name, "Display 2");
    assert_eq!(back[2].color, "purple");
}

#[test]
fn deleted_wallpapers_are_on_no_monitor() {
    let mut s = state(false, vec![monitor(0, 0, &["sea", "fire"]), monitor(1, 1920, &["sea"])]);
    assert!(remove_wallpaper(&mut s, &place(&["w", "sea"])));
    assert_eq!(names(&s.monitors[0]), ["fire"]);
    assert!(s.monitors[1].layers.is_empty());
    assert!(!remove_wallpaper(&mut s, &place(&["w", "sea"])));
}

#[test]
fn windows_follow_the_shaders() {
    let ms = vec![monitor(0, -1920, &["sea"]), monitor(1, 0, &["rain"]), monitor(2, 1920, &[])];
    let c = canvas_of(&ms);
    assert_eq!((c.min_x, c.min_y, c.max_x, c.max_y), (-1920, 0, 3840, 1080));
    let plans = spawn_wallpaper_windows(&movies(), false, &ms, &vec![]);
    assert_eq!(plans.len(), 1);
    assert_eq!((plans[0].monitor_id.as_str(), plans[0].offset), ("monitor-0", (0, 0)));
    assert_eq!(global_size(&plans[0], (800, 600)), (800, 600));
    assert!(spawn_wallpaper_windows(&movies(), false, &ms, &vec!["monitor-0".to_string()]).is_empty());
    let spanned = spawn_wallpaper_windows(&movies(), true, &ms, &vec![]);
    let ids: Vec<&str> = spanned.iter().map(|p| p.monitor_id.as_str()).collect();
    assert_eq!(ids, ["monitor-0", "monitor-2"]);
    assert_eq!(spanned[1].offset, (3840, 0));
    assert_eq!(global_size(&spanned[1], (800, 600)), (5760, 1080));
    let windows = vec!["monitor-2".to_string(), "monitor-0".to_string()];
    let sync = sync_wallpaper_windows(&movies(), false, &ms, &windows);
    assert_eq!(sync.keep, [false, true]);
    assert!(sync.open.is_empty());
    assert_eq!(surface_size((0, 5), (1920, 1080)), (1920, 1080));
    assert_eq!(surface_size((7, 5), (1920, 1080)), (7, 5));
    assert!(!is_dropped(299) && is_dropped(300));
}

#[test]
fn composites_place_every_layer() {
    let mut ms = vec![monitor(0, -1920, &["sea"]), monitor(1, 0, &["fire"])];
    ms[1].layers[0].positioning = "Custom".to_string();
    let all = debug_composite(&ms);
    assert_eq!(all.len(), 2);
    assert!(all[0].place == CompositePlace::Whole { x: 0, y: 0, width: 1920, height: 1080 });
    assert!(all[1].place == CompositePlace::Moved { x: 1920, y: 0 });
}

#[test]
fn the_engine_tells_its_windows() {
    let mut e = Engine::new();
    let s = state(false, vec![monitor(0, 0, &["sea"]), monitor(1, 1920, &["fire"])]);
    for i in 0..2u64 {
        let sent = e.run_renderer(EngineCommand::AddWindow { window: i, monitor_id: format!("monitor-{}", i) }, &s);
        assert!(sent.is_empty());
    }
    let sent = e.run_renderer(EngineCommand::Reload, &s);
    assert_eq!(sent.len(), 2);
    match &sent[1].command {
        EngineCommand::SetLayers(l) => assert_eq!(l[0].name, "fire"),
        _ => panic!("layers"),
    }
    let sent = e.run_renderer(
        EngineCommand::SetLayerOpacity { monitor_id: "monitor-1".to_string(), pipeline_index: 0, opacity: bits(0.5) },
        &s,
    );
    assert_eq!((sent.len(), sent[0].window), (1, 1));
    let sent = e.run_renderer(EngineCommand::WindowResized(0, (5, 6)), &s);
    assert!(matches!(sent[0].command, EngineCommand::WindowResized(0, (5, 6))));
    let sent = e.run_renderer(EngineCommand::WindowClosed(0), &s);
    assert_eq!((sent.len(), sent[0].window, e.windows.len()), (1, 0, 1));
    assert!(matches!(sent[0].command, EngineCommand::Shutdown));
    let spanned = state(true, vec![monitor(0, 0, &["sea"]), monitor(1, 1920, &["fire"])]);
    let sent = e.run_renderer(EngineCommand::Reload, &spanned);
    match &sent[0].command {
        EngineCommand::SetLayers(l) => assert_eq!(l[0].name, "sea"),
        _ => panic!("layers"),
    }
    let sent = e.run_renderer(EngineCommand::Shutdown, &s);
    assert_eq!(sent.len(), 1);
    assert!(!e.running);
}

#[test]
fn a_monitor_paints_and_rests() {
    let mut l = MonitorLoop::new();
    assert!(l.run_monitor_loop(true, true, 0).step == LoopStep::Paint);
    assert!(l.painted(FrameResult::SurfaceLost));
    assert!(l.run_monitor_loop(true, true, 0).step == LoopStep::Paint);
    assert!(!l.painted(FrameResult::Shown));
    assert!(l.run_monitor_loop(true, true, 0).step == LoopStep::Wait);
    assert!(l.run_monitor_loop(true, false, 0).step == LoopStep::Draw);
    assert!(!l.rendered(FrameResult::Shown) && !l.rendered(FrameResult::Failed));
    assert!(l.rendered(FrameResult::SurfaceLost));
    let round = l.run_monitor_loop(true, false, 500);
    assert_eq!((round.report, l.frame_count), (Some(1), 0));
    assert!(l.run_monitor_loop(false, false, 900).step == LoopStep::Stop);
    match l.process_command(EngineCommand::SetLayers(vec![layer("sea"), layer("fire")])) {
        CommandEffect::Rebuild(order) => assert_eq!(order[0].name, "fire"),
        _ => panic!("layers"),
    }
    assert!(!l.painted_empty);
    assert!(matches!(l.process_command(EngineCommand::WindowResized(1, (5, 6))), CommandEffect::Resize((5, 6))));
    assert!(matches!(l.process_command(EngineCommand::SetVSync(PresentMode::Fifo)), CommandEffect::VSync(PresentMode::Fifo)));
    assert!(matches!(l.process_command(EngineCommand::OpenDebugger), CommandEffect::Nothing));
    assert!(matches!(l.process_command(EngineCommand::Shutdown), CommandEffect::Shutdown));
}

#[test]
fn the_mouse_reaches_the_shaders() {
    let mut l = MonitorLoop::new();
    assert!(l.feed_mouse(0, Some((5, 5)), (0, 0)) == MouseFeed::Nothing);
    assert!(l.feed_mouse(1, Some((1930, 5)), (1920, 0)) == MouseFeed::Down { x: 10, y: 5 });
    assert!(l.feed_mouse(1, None, (1920, 0)) == MouseFeed::Nothing);
    assert!(l.feed_mouse(0, None, (1920, 0)) == MouseFeed::Up);
    assert!(l.feed_mouse(0, None, (1920, 0)) == MouseFeed::Nothing);
    assert_eq!(pace(60, 6_666), Some(10_000));
    assert_eq!(pace(60, 16_666), None);
    assert_eq!(pace(0, 0), Some(1_000_000));
    assert_eq!(pace(1000, 0), Some(4_166));
}

fn shell(handle: i64, w: i32, h: i32, empty: bool) -> ShellWindow {
    ShellWindow { handle, rect: ScreenRect { left: 0, top: 0, right: w, bottom: h }, empty }
}

#[test]
fn wallpapers_find_their_place_in_the_shell() {
    let mut s = ShellWindows { progman: true, sibling: None, below: None, top_level: vec![], child: Some(shell(9, 1, 1, true)) };
    assert_eq!(get_wallpaper_window(&s), Some(9));
    s.top_level = vec![shell(1, 100, 100, true), shell(2, 800, 600, false), shell(3, 800, 600, true)];
    assert_eq!(get_wallpaper_window(&s), Some(3));
    s.top_level = vec![shell(2, 800, 600, false), shell(4, 640, 480, false)];
    assert_eq!(get_wallpaper_window(&s), Some(4));
    s.below = Some(shell(5, 800, 600, false));
    assert_eq!(get_wallpaper_window(&s), Some(5));
    s.sibling = Some(shell(6, 639, 600, false));
    assert_eq!(get_wallpaper_window(&s), Some(5));
    s.sibling = Some(shell(6, 640, 600, false));
    assert_eq!(get_wallpaper_window(&s), Some(6));
    s.progman = false;
    assert_eq!(get_wallpaper_window(&s), None);
    let style = prepare_wallpaper_window(WS_EX_APPWINDOW | 1);
    assert_eq!(style, WS_EX_TOOLWINDOW | WS_EX_NOACTIVATE | 1);
    assert_eq!(prepare_wallpaper_window(style), style);
    let parent = ScreenRect { left: -1920, top: 0, right: 1920, bottom: 1080 };
    assert_eq!(setup_wallpaper_window((0, 10), parent), (1920, 10));
}

#[test]
fn windows_come_back_as_they_were() {
    assert!(restore_window_placement(Some(ShowState::Minimized), true) == Some(ShowState::Maximized));
    assert!(restore_window_placement(Some(ShowState::Minimized), false) == Some(ShowState::Normal));
    assert!(restore_window_placement(Some(ShowState::Other(9)), true) == Some(ShowState::Other(9)));
    assert!(restore_window_placement(None, true).is_none());
}

fn top(class: &str, left: i32, right: i32) -> TopWindow {
    TopWindow {
        visible: true,
        minimized: false,
        cloaked: false,
        rect: Some(ScreenRect { left, top: 0, right, bottom: 1080 }),
        class: class.to_string(),
    }
}

#[test]
fn only_a_whole_window_in_front_covers_a_monitor() {
    let size = (1920, 1080);
    assert!(monitor_covered(&vec![top("Game", 0, 1920)], (0, 0), size));
    assert!(!monitor_covered(&vec![top("Game", 0, 1919)], (0, 0), size));
    assert!(!monitor_covered(&vec![top("Small", 10, 20), top("Game", 0, 1920)], (0, 0), size));
    assert!(monitor_covered(&vec![top("Small", 1920, 2000), top("Game", 0, 1920)], (0, 0), size));
    assert!(!monitor_covered(&vec![top("WorkerW", 0, 1920)], (0, 0), size));
    let mut hidden = top("Small", 10, 20);
    hidden.cloaked = true;
    assert!(monitor_covered(&vec![hidden, top("Game", 0, 1920)], (0, 0), size));
    assert!(!monitor_covered(&vec![], (0, 0), size));
}
