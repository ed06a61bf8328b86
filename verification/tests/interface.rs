//! What the window shows.
use strata::controller::{LayerInfo, MonitorInfo, WallpaperEntry};
use strata::library_sync::{AddedIn, Version};
use strata::library_view::{
    build_library_items, entry_added_key, finds_lowered, refresh_library, search, sort_entries, sort_key_lowered,
    sort_places, spawn_thumbnail_generation, thumbnail_from_source, thumbnail_made, usage, EntryFacts, RefreshOutcome,
};
use strata::main_window::{activity, asset_path, fallback_icon, relaunches, tray_icon_name, MainWindow};
use strata::manifest::{Bits32, ONE_BITS};
use strata::notices::{
    copy_logs, file_line, log_line, notice_for, parse_log_line, push_log, session_line, take_pending, LogEntry,
    Pending, Toasts, UiEvent, WorkStatus,
};
use strata::paths::Location;
use strata::renderer::Rect32;
use strata::studio::StudioPanel;
use strata::text::char_is_whitespace;

fn place(parts: &[&str]) -> Location {
    Location { parts: parts.iter().map(|s| s.to_string()).collect() }
}

fn entry(name: &str, tags: &[&str]) -> WallpaperEntry {
    WallpaperEntry {
        name: name.to_string(),
        author: "me".to_string(),
        source_url: String::new(),
        path: place(&["w", name]),
        tags: tags.iter().map(|t| t.to_string()).collect(),
        thumbnail: None,
    }
}

fn monitor(layers: &[&[&str]], visible: bool) -> MonitorInfo {
    let one = Bits32(ONE_BITS);
    MonitorInfo {
        id: "monitor-0".to_string(),
        name: "Display 1".to_string(),
        color: "blue".to_string(),
        resolution: (1920, 1080),
        position: (0, 0),
        is_primary: true,
        layers: layers
            .iter()
            .map(|p| LayerInfo {
                wallpaper_path: place(p),
                name: "L".to_string(),
                opacity: one,
                resolution_scale: one,
                positioning: "Fill".to_string(),
                transform: Rect32 { x: Bits32(0), y: Bits32(0), w: one, h: one },
                visible,
                blend_mode: "normal".to_string(),
            })
            .collect(),
    }
}

fn order(mode: &str) -> Vec<String> {
    let mut es = vec![entry("beta", &[]), entry("Alpha", &[]), entry("gamma", &[]), entry("ALPHA", &[])];
    let fact = |modified: Option<i64>, deletable: bool| EntryFacts { modified, deletable };
    let facts = vec![fact(Some(50), true), fact(None, false), fact(None, false), fact(Some(40), false)];
    let added = |slug: &str, minor: u32| AddedIn {
        slug: slug.to_string(),
        version: Version { major: 1, minor, patch: 0 },
    };
    let versions = vec![added("Alpha", 2), added("gamma", 1)];
    sort_entries(&mut es, &facts, &versions, mode);
    es.iter().map(|e| e.name.clone()).collect()
}

#[test]
fn entries_are_sorted() {
    assert_eq!(order("name-asc"), ["Alpha", "ALPHA", "beta", "gamma"]);
    assert_eq!(order("name-desc"), ["gamma", "beta", "Alpha", "ALPHA"]);
    assert_eq!(order("date-oldest"), ["gamma", "Alpha", "ALPHA", "beta"]);
    assert_eq!(order("date-newest"), ["beta", "ALPHA", "Alpha", "gamma"]);
    assert_eq!(order("default"), ["Alpha", "ALPHA", "gamma", "beta"]);
    let (version, time) = entry_added_key(&place(&["w", "x"]), Some(7), &vec![]);
    assert!(version == Version { major: u32::MAX, minor: u32::MAX, patch: u32::MAX } && time == 7);
}

#[test]
fn keys_are_sorted() {
    let fact = EntryFacts { modified: Some(3), deletable: true };
    let key = sort_key_lowered(&place(&["w", "sea"]), "sea", fact, &vec![], "default");
    assert!(key.own && key.time == 0 && key.name == ['s', 'e', 'a']);
    let key = sort_key_lowered(&place(&["w", "sea"]), "sea", fact, &vec![], "date-newest");
    assert!(!key.own && key.time == 3 && key.name.is_empty());
    let named = |n: &str| sort_key_lowered(&place(&["w", n]), n, fact, &vec![], "name-asc");
    assert_eq!(sort_places(&vec![named("b"), named("a"), named("b"), named("ab")], false), [1, 3, 0, 2]);
    assert_eq!(sort_places(&vec![named("b"), named("a"), named("b"), named("ab")], true), [0, 2, 3, 1]);
}

#[test]
fn white_space_is_that_of_unicode() {
    for c in '\0'..=char::MAX {
        assert_eq!(char_is_whitespace(c), c.is_whitespace());
    }
}

#[test]
fn items_tell_where_they_are_shown() {
    let es = vec![entry("sea", &["parallax", "Imported"]), entry("rain", &["VIDEO"])];
    let ms = vec![monitor(&[&["w", "sea"], &["w", "sea"]], true), monitor(&[], true)];
    assert_eq!(usage(&place(&["w", "sea"]), &ms), (vec![2, 0], true));
    let items = build_library_items(&es, &ms, &vec![false, true], &vec![true, true]);
    assert!(items[0].is_parallax && items[0].is_imported && !items[0].is_video && items[0].is_active);
    assert!(items[1].is_video && items[1].is_imported && !items[1].is_active && items[1].visible);
    assert!(!items[0].has_thumbnail);
}

#[test]
fn search_looks_at_names_and_tags() {
    let es = vec![entry("Deep Sea", &["Water"]), entry("Fire", &["hot", "glow"])];
    assert_eq!(search(&es, "SEA"), [true, false]);
    assert_eq!(search(&es, "water"), [true, false]);
    assert_eq!(search(&es, "hot glow"), [false, true]);
    assert_eq!(search(&es, ""), [true, true]);
    assert!(finds_lowered("deep sea", "water", "p s") && finds_lowered("deep sea", "water", "ter"));
    assert!(!finds_lowered("deep sea", "water", "sea water"));
}

#[test]
fn the_library_is_refreshed() {
    let mut ws = vec![entry("sea", &[])];
    assert!(refresh_library(true, &mut ws, vec![]) == RefreshOutcome::Busy);
    assert!(refresh_library(false, &mut ws, vec![entry("sea", &["new"])]) == RefreshOutcome::UpToDate);
    assert!(refresh_library(false, &mut ws, vec![entry("sea", &[]), entry("fire", &[])]) == RefreshOutcome::Updated);
    assert_eq!(ws.len(), 2);
    assert_eq!(thumbnail_made(&mut ws, &place(&["w", "fire"]), &place(&["t"])), Some(1));
    assert_eq!(ws[1].thumbnail.as_ref().expect("a picture").parts, ["t"]);
    assert_eq!(thumbnail_made(&mut ws, &place(&["w", "x"]), &place(&["t"])), None);
}

#[test]
fn missing_thumbnails_are_made() {
    let dirs: Vec<Location> = (0..9).map(|i| place(&["w", &format!("{}", i)])).collect();
    let mut there = vec![false; 9];
    there[0] = true;
    let jobs = spawn_thumbnail_generation(false, &dirs, &there);
    assert_eq!(jobs.len(), 8);
    assert_eq!(jobs[0].out.parts, ["w", "1", "thumbnail.png"]);
    let fresh: Vec<bool> = jobs.iter().map(|j| j.fresh_device).collect();
    assert_eq!(fresh, [false, false, false, false, false, false, true, false]);
    assert!(spawn_thumbnail_generation(true, &dirs, &there).is_empty());
    assert!(thumbnail_from_source(true, true) && !thumbnail_from_source(true, false));
}

#[test]
fn toasts_come_and_go() {
    let mut t = Toasts::new();
    for i in 0..6u64 {
        t.push_toast(&format!("t{}", i), "d", false, i * 1000);
    }
    let ids: Vec<i32> = t.items.iter().map(|x| x.id).collect();
    assert_eq!(ids, [3, 4, 5, 6]);
    assert_eq!(t.items[0].deadline, 6000);
    t.dismiss(4);
    t.dismiss(99);
    assert_eq!(t.items.len(), 3);
    t.expire(8000);
    assert_eq!(t.items.len(), 1);
    assert_eq!(t.items[0].title, "t5");
}

#[test]
fn events_have_notices() {
    let (title, text, bad) = notice_for(&UiEvent::LibraryUpdated(12));
    assert_eq!((title.as_str(), text.as_str(), bad), ("Library Updated", "Shader manifests synchronized - 12 found.", false));
    let (title, text, bad) = notice_for(&UiEvent::MovieFailed("no".to_string()));
    assert_eq!((title.as_str(), text.as_str(), bad), ("Import Failed", "no", true));
    assert_eq!(notice_for(&UiEvent::MonitorsRefreshed(2)).1, "Detected 2 display(s).");
    let mut p = Pending { updates: true, library: WorkStatus::Failed, overlay: WorkStatus::Done };
    let hidden = take_pending(&mut p, false);
    assert!(hidden.events.len() == 1 && hidden.read_overlay);
    assert!(p.updates && p.library == WorkStatus::Failed);
    let shown = take_pending(&mut p, true);
    assert!(matches!(shown.events[0], UiEvent::UpdatesAvailable));
    assert!(matches!(shown.events[1], UiEvent::LibraryFailed));
    assert!(take_pending(&mut p, true).events.is_empty());
}

#[test]
fn log_lines_are_read() {
    assert_eq!(parse_log_line("[WARN] slow"), ("WARN".to_string(), "slow".to_string()));
    assert_eq!(parse_log_line("plain"), ("INFO".to_string(), "plain".to_string()));
    assert_eq!(parse_log_line("[open"), ("INFO".to_string(), "[open".to_string()));
    assert_eq!(log_line("ERROR", "bad"), "[ERROR] bad");
    assert_eq!(parse_log_line(&log_line("ERROR", "bad")), ("ERROR".to_string(), "bad".to_string()));
    assert_eq!(file_line("12:00:00", "INFO", "hi"), "12:00:00 [INFO] hi\n");
    assert_eq!(session_line("now"), "\n========== Strata session started now ==========\n");
    let mut log: Vec<LogEntry> = Vec::new();
    assert!(push_log(&mut log, "[ERROR] Layer reload error: x", "t".to_string()));
    assert!(!push_log(&mut log, "[WARN] Layer reload error: x", "t".to_string()));
    assert_eq!(copy_logs(&log), "[t] ERROR Layer reload error: x\n[t] WARN Layer reload error: x\n");
    for i in 0..300 {
        push_log(&mut log, &format!("{}", i), "t".to_string());
    }
    assert_eq!(log.len(), 200);
    assert_eq!(log[0].message, "100");
}

#[test]
fn the_window_is_repainted_by_a_nudge() {
    let mut w = MainWindow::new(false);
    assert_eq!(w.toggle_label(), "Hide Strata");
    assert!(!w.occluded(true) && w.occluded(false));
    assert_eq!(w.tick(0, (800, 600)), Some((800, 602)));
    assert_eq!(w.tick(20, (800, 602)), Some((800, 600)));
    assert_eq!(w.tick(40, (800, 600)), None);
    w.moved(100);
    assert_eq!(w.tick(249, (800, 600)), None);
    assert_eq!(w.tick(250, (800, 600)), Some((800, 602)));
    let mut w = MainWindow::new(true);
    assert_eq!(w.toggle_label(), "Show Strata");
    assert_eq!(w.show_from_tray(false, (800, 600)), Some((800, 602)));
    assert_eq!(w.tick(0, (800, 602)), Some((800, 600)));
    w.hide_to_tray();
    assert!(w.hidden_to_tray && !w.visible);
    w.focused();
    assert!(w.needs_repaint && w.visible);
    w.resized(true);
    assert_eq!(w.tick(0, (800, 600)), None);
    assert_eq!(w.show_from_tray(true, (800, 600)), None);
}

#[test]
fn the_shell_finds_its_files() {
    assert!(relaunches(true, 20_001) && !relaunches(true, 20_000) && !relaunches(false, 90_000));
    let dir = Some(place(&["bin"]));
    assert_eq!(asset_path("i.png", &dir, true, true, true).parts, ["bin", "assets", "i.png"]);
    assert_eq!(asset_path("i.png", &dir, false, true, true).parts, ["bin", "..", "..", "assets", "i.png"]);
    assert_eq!(asset_path("i.png", &None, true, true, true).parts, ["assets", "i.png"]);
    assert_eq!(asset_path("i.png", &None, true, true, false).parts, ["..", "..", "assets", "i.png"]);
    assert_eq!((tray_icon_name(true), tray_icon_name(false)), ("app-icon_dark.png", "app-icon_light.png"));
    let icon = fallback_icon();
    assert_eq!(icon.len(), 16 * 16 * 4);
    assert_eq!(&icon[1020..], &[0x4f, 0x8a, 0xf7, 0xff]);
    let movies = Some(place(&["user", "import"]));
    let ms = vec![monitor(&[&["user", "import", "rain"]], true)];
    assert_eq!(activity(&ms, &movies), (false, true));
    assert_eq!(activity(&vec![monitor(&[&["w", "sea"]], true)], &movies), (true, false));
    assert_eq!(activity(&vec![monitor(&[&["w", "sea"]], false)], &movies), (false, false));
}

#[test]
fn the_studio_does_one_thing_at_a_time() {
    let mut p = StudioPanel::new();
    assert!(!p.create(false));
    assert_eq!(p.status, "Select an image first.");
    p.pick_image();
    assert_eq!(p.status, "Click Render to preview.");
    assert!(p.create(true) && !p.create(true) && !p.save(true));
    p.progressed(40);
    assert_eq!(p.progress, 40);
    p.preview_ready(true, true);
    assert!(p.has_preview && p.progress == 100 && !p.busy);
    assert_eq!(p.status, "Preview ready - Save to add it to your Library.");
    p.progressed(7);
    assert_eq!(p.progress, 100);
    assert!(!p.save(false));
    assert_eq!(p.status, "Render a preview first.");
    assert!(p.save(true));
    p.saved(&Some("Cliff".to_string()));
    assert_eq!(p.status, "Created \"Cliff\" - see the Library.");
    p.saved(&None);
    assert_eq!(p.status, "Failed - see Diagnostics.");
    p.preview_ready(false, true);
    assert_eq!((p.status.as_str(), p.progress), ("Failed - see Diagnostics.", 0));
    p.preview_ready(true, false);
    assert_eq!(p.status, "Preview failed - see Diagnostics.");
}

#[test]
fn the_studio_fetches_what_is_missing() {
    let mut p = StudioPanel::new();
    p.needs_download = true;
    assert!(!p.download(false, 2));
    assert!(!p.download(true, 0) && !p.needs_download);
    assert!(p.download(true, 2) && !p.download(true, 2));
    assert_eq!(p.download_text, "Starting download\u{2026}");
    assert!(!p.rechecks(5000, true));
    p.downloaded(false);
    assert_eq!(p.download_text, "Download failed - see Diagnostics.");
    assert!(p.rechecks(1000, true) && !p.rechecks(999, true) && !p.rechecks(1000, false));
    p.tuned(100);
    assert!(!p.rebakes(279, true, true));
    assert!(p.rebakes(280, true, true) && !p.rebakes(900, true, true));
    p.tuned(100);
    assert!(!p.rebakes(280, false, true) && p.tuned_at.is_none());
}
