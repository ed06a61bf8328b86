//! The library on disk, its updates, and the settings.
use strata::config::{
    default_audio_sensitivity, default_library_sort, default_library_version, default_mouse_mode, default_target_fps,
    Config,
};
use strata::controller::{
    assets_external_dir, bundled_library_dir, discover_monitors, fetched_library_dir, fetched_library_root,
    import_library_dir, is_user_deletable, library_asset_dirs, library_installed, library_roots, official_owner_repo,
    official_repo_url, parallax_library_dir, primary_monitor, primary_position, scan_all_wallpapers, scan_wallpapers,
    thumbnail_path, user_data_dir, AppState, Display, FolderScan, MonitorInfo,
};
use strata::library_sync::{
    added_versions, archive_url, check_library_update, is_newer, latest_library, latest_release, library_added_versions,
    library_source, open_library, semver, should_sync, sync_library, tags_url, IndexRow, Version,
};
use strata::manifest::{Bits32, WallpaperInfo, ONE_BITS};
use strata::paths::Location;
use strata::settings::{
    default_monitor_color, fps_cap, hms, is_dark, mouse_mode_to_u8, mouse_reaches, scale_to_shader_quality, shader_quality_to_scale,
    u8_to_mouse_mode,
};
use strata::updates::{
    check_github_latest, is_newer_version, newer_than, open_url, parse_semver, weekly_check_due, weekly_checked, Release,
    ReleaseAnswer, UpdateClick, UpdatePanel,
};

fn place(parts: &[&str]) -> Location {
    Location { parts: parts.iter().map(|s| s.to_string()).collect() }
}

fn some(s: &str) -> Option<String> {
    Some(s.to_string())
}

fn v(major: u32, minor: u32, patch: u32) -> Version {
    Version { major, minor, patch }
}

#[test]
fn monitors_are_numbered() {
    let d = |x: i32, is_primary: bool| Display { width: 1920, height: 1080, x, y: 0, is_primary };
    let mut ms: Vec<MonitorInfo> = discover_monitors(&vec![d(-1920, false), d(0, true)]);
    assert_eq!((ms[0].id.as_str(), ms[0].name.as_str()), ("monitor-0", "Display 1"));
    assert_eq!((ms[1].id.as_str(), ms[1].position), ("monitor-1", (0, 0)));
    assert_eq!(primary_position(&ms), Some(1));
    ms[0].is_primary = true;
    assert_eq!(primary_monitor(&ms).expect("a monitor").id, "monitor-0");
    ms[0].is_primary = false;
    ms[1].is_primary = false;
    assert_eq!(primary_position(&ms), Some(1));
    ms[1].position = (5, 0);
    assert_eq!(primary_position(&ms), Some(0));
    assert_eq!(primary_position(&vec![]), None);
    let s = AppState::default();
    assert!(s.monitors.is_empty() && s.wallpapers.is_empty() && !s.span_monitors);
}

#[test]
fn folders_of_the_library() {
    let data = Some(place(&["data"]));
    let parts = |l: Option<Location>| l.expect("a folder").parts.join("/");
    assert_eq!(parts(user_data_dir(&data)), "data/Strata");
    assert_eq!(parts(parallax_library_dir(&data)), "data/Strata/parallax-wallpapers");
    assert_eq!(parts(import_library_dir(&data)), "data/Strata/import");
    assert_eq!(parts(fetched_library_root(&data)), "data/Strata/strata-library");
    assert_eq!(parts(fetched_library_dir(&data)), "data/Strata/strata-library/shader-library");
    assert!(user_data_dir(&None).is_none() && import_library_dir(&None).is_none());
    assert_eq!(bundled_library_dir(true).parts, ["wallpapers"]);
    assert_eq!(bundled_library_dir(false).parts, ["..", "..", "wallpapers"]);
    assert_eq!(assets_external_dir(false).parts, ["..", "..", "assets", "external"]);
    assert_eq!(library_roots(&data, true).len(), 4);
    assert_eq!(library_roots(&None, true).len(), 1);
    assert_eq!(library_asset_dirs(&data, true)[1].parts.join("/"), "data/Strata/strata-library/external");
    assert_eq!(thumbnail_path(&place(&["a"])).parts, ["a", "thumbnail.png"]);
    assert!(library_installed(&Some(vec![false, true])));
    assert!(!library_installed(&Some(vec![false])) && !library_installed(&None));
}

#[test]
fn only_what_the_user_made_can_be_deleted() {
    let roots = vec![None, Some(place(&["data", "Strata", "import"]))];
    assert!(is_user_deletable(&Some(place(&["data", "Strata", "import", "x"])), &roots));
    assert!(!is_user_deletable(&Some(place(&["data", "Strata", "imports", "x"])), &roots));
    assert!(!is_user_deletable(&None, &roots));
}

fn info(name: &str) -> WallpaperInfo {
    WallpaperInfo {
        name: name.to_string(),
        author: "me".to_string(),
        version: "1.0.0".to_string(),
        source_url: String::new(),
        tags: vec!["water".to_string()],
        passes: vec![],
        video: None,
    }
}

fn folder(name: &str, has_manifest: bool, has_jpg: bool) -> FolderScan {
    FolderScan {
        path: place(&["w", name]),
        is_dir: true,
        has_manifest,
        info: if has_manifest { Some(info(name)) } else { None },
        has_png: false,
        has_jpg,
        has_jpeg: true,
    }
}

#[test]
fn wallpapers_are_found_by_their_manifests() {
    let found = scan_wallpapers(&vec![folder("sea", true, true), folder("junk", false, true)]);
    assert_eq!(found.len(), 1);
    assert_eq!((found[0].name.as_str(), found[0].author.as_str()), ("sea", "me"));
    assert_eq!(found[0].thumbnail.as_ref().expect("a picture").parts, ["w", "sea", "thumbnail.jpg"]);
    let all = scan_all_wallpapers(&vec![vec![folder("b", true, false)], vec![], vec![folder("a", true, false)]]);
    let names: Vec<&str> = all.iter().map(|e| e.name.as_str()).collect();
    assert_eq!(names, ["b", "a"]);
    assert_eq!(all[0].thumbnail.as_ref().expect("a picture").parts[2], "thumbnail.jpeg");
}

#[test]
fn the_official_repository_is_named() {
    let list = "[[repository]]\nurl = \"https://github.com/a/b.git\"\n\n[[repository]]\nname = \"x\"\n\
                url = \"https://cdn.jsdelivr.net/gh/Owner/Repo@main/index.toml\"\nofficial = true\n";
    assert_eq!(official_repo_url(list), some("https://cdn.jsdelivr.net/gh/Owner/Repo@main/index.toml"));
    assert_eq!(official_owner_repo(&some(list)), Some(("Owner".to_string(), "Repo".to_string())));
    let plain = "[[repository]]\nurl = \"https://github.com/a/b.git\"\n";
    assert_eq!(official_owner_repo(&some(plain)), Some(("a".to_string(), "b".to_string())));
    assert_eq!(official_owner_repo(&some("[[repository]]\nurl = \"https://x.org/a\"\n")), None);
    assert_eq!(official_owner_repo(&None), None);
    assert_eq!(official_repo_url("url = \"https://github.com/a/b\""), None);
    assert!(library_source(&some(plain)).is_ok());
    assert_eq!(
        library_source(&None),
        Err("no official content repository configured in repositories.toml".to_string())
    );
    assert_eq!(tags_url("a", "b"), "https://api.github.com/repos/a/b/tags?per_page=100");
    assert_eq!(archive_url("a", "b", "t"), "https://codeload.github.com/a/b/zip/refs/tags/t");
}

#[test]
fn versions_are_compared() {
    assert!(semver(" v1.2.3-rc4") == v(1, 2, 3));
    assert!(semver("2") == v(2, 0, 0));
    assert!(parse_semver("V1.10 beta.7") == v(1, 10, 7));
    assert!(is_newer("1.10.0", "1.9.9") && !is_newer("1.9.9", "1.10.0") && !is_newer("1.0.0", "1.0"));
    assert!(is_newer_version("v2.0.0", "1.9.0") && !is_newer_version("junk", "0.0.0"));
    assert!(should_sync(false, "1.0.0", "1.0.0") && !should_sync(true, "1.0.0", "1.0.0"));
    assert!(should_sync(true, "1.0.1", "1.0.0"));
    assert_eq!(check_library_update("1.1.0".to_string(), "1.0.0"), some("1.1.0"));
    assert_eq!(check_library_update("1.0.0".to_string(), "1.0.0"), None);
}

#[test]
fn the_latest_library_is_found() {
    let body = "[{\"name\": \"v9.0.0\"}, {\"name\": \"library-v1.2.0\"}, {\"name\": \"library-v1.10.0\"}, {\"id\": 3}]";
    match latest_library(body) {
        Ok(l) => assert_eq!((l.version.as_str(), l.tag.as_str()), ("1.10.0", "library-v1.10.0")),
        Err(e) => panic!("{}", e),
    }
    let none = "no library-v* tags found on the repository";
    for body in ["[]", "{\"name\": \"library-v1.0.0\"}", "[{\"name\": 3}]"] {
        match latest_library(body) {
            Ok(_) => panic!("no tag"),
            Err(e) => assert_eq!(e, none),
        }
    }
    assert!(latest_library("not json").is_err());
    match latest_release(vec![None, some("library-v1.0"), some("library-v1.0.0")]) {
        Ok(l) => assert_eq!((l.version.as_str(), l.tag.as_str()), ("1.0.0", "library-v1.0")),
        Err(e) => panic!("{}", e),
    }
    match open_library(vec![1, 2, 3]) {
        Ok(_) => panic!("no archive"),
        Err(e) => assert!(e.starts_with("open zip: ")),
    }
    assert!(sync_library(true).is_ok());
    assert_eq!(sync_library(false), Err("downloaded library has no shader-library/ folder".to_string()));
}

#[test]
fn the_index_tells_when_shaders_came() {
    let index = "[[shader]]\nslug = \"sea\"\nadded_in = \"1.2.0\"\n\n[[shader]]\nslug = \"fire\"\n\n\
                 [[shader]]\nslug = \"sea\"\nadded_in = \"1.3.0\"\n";
    let added = library_added_versions(&some(index));
    let last = added.iter().rev().find(|a| a.slug == "sea").expect("sea");
    assert!(last.version == v(1, 3, 0));
    assert!(added.iter().all(|a| a.slug != "fire"));
    let row = |slug: Option<String>, added_in: Option<String>| IndexRow { slug, added_in };
    let added = added_versions(vec![row(some("sea"), some("1.2.0")), row(None, some("2.0.0")), row(some("x"), None)]);
    assert_eq!(added.len(), 1);
    assert!(added[0].slug == "sea" && added[0].version == v(1, 2, 0));
    assert!(library_added_versions(&some("= broken")).is_empty());
    assert!(library_added_versions(&None).is_empty());
}

#[test]
fn releases_are_checked() {
    let body = "{\"tag_name\": \"v2.0.0\", \"html_url\": \"https://example.org/r\"}";
    let found = |body: &str, current: &str| match check_github_latest(ReleaseAnswer::Body(body.to_string()), current) {
        Ok(r) => r,
        Err(e) => panic!("{}", e),
    };
    let r = found(body, "1.9.0").expect("a release");
    assert_eq!((r.tag.as_str(), r.url.as_str()), ("v2.0.0", "https://example.org/r"));
    assert!(found(body, "2.0.0").is_none());
    assert!(found("{}", "0.0.0").is_none());
    let r = found("{\"tag_name\": \"v1\"}", "0.9.0").expect("a release");
    assert_eq!(r.url, "https://github.com/BadassBaboon/Strata/releases");
    assert!(matches!(check_github_latest(ReleaseAnswer::NotFound, "1.0.0"), Ok(None)));
    assert!(matches!(check_github_latest(ReleaseAnswer::Failed("down".to_string()), "1.0.0"), Err(e) if e == "down"));
    assert!(check_github_latest(ReleaseAnswer::Body("no json".to_string()), "1.0.0").is_err());
    assert!(newer_than(some(""), None, "0.0.0").is_none());
    assert_eq!(open_url("  https://x.org "), some("https://x.org"));
    assert_eq!(open_url("file:///etc"), None);
    assert!(weekly_check_due(604_800, 0) && !weekly_check_due(604_799, 0));
}

#[test]
fn the_update_panel_tells_what_it_knows() {
    let mut p = UpdatePanel::new("1.0.0");
    assert_eq!((p.badge.as_str(), p.label.as_str()), ("v1.0.0 (LATEST)", "CHECK FOR UPDATES"));
    assert!(matches!(p.check_for_updates(), UpdateClick::Check));
    assert_eq!(p.label, "CHECKING\u{2026}");
    assert!(matches!(p.check_for_updates(), UpdateClick::Nothing));
    p.checked(Err("down".to_string()), "1.0.0");
    assert_eq!(p.badge, "CHECK FAILED");
    p.checked(Ok(None), "1.0.0");
    assert_eq!(p.badge, "v1.0.0 (LATEST)");
    p.checked(Ok(Some(Release { tag: "v2".to_string(), url: "https://x.org".to_string() })), "1.0.0");
    assert_eq!((p.badge.as_str(), p.label.as_str()), ("v2 AVAILABLE", "DOWNLOAD UPDATE"));
    assert!(matches!(p.check_for_updates(), UpdateClick::Open(u) if u == "https://x.org"));
    let mut l = UpdatePanel::new("1.0.0");
    assert!(l.check_for_library_updates() && !l.check_for_library_updates());
    assert_eq!(l.label, "WORKING\u{2026}");
    assert!(!l.library_synced(Err("down".to_string()), "1.0.0"));
    assert_eq!(l.badge, "SYNC FAILED");
    assert!(l.library_synced(Ok(some("1.1.0")), "1.0.0"));
    assert_eq!(l.badge, "v1.1.0 (LATEST)");
    l.library_found("1.2.0");
    assert_eq!(l.badge, "v1.2.0 AVAILABLE");
}

#[test]
fn the_weekly_check_reports_both() {
    let mut app = UpdatePanel::new("1.0.0");
    let mut library = UpdatePanel::new("1.0.0");
    let r = weekly_checked(&mut app, &mut library, Err("down".to_string()), Err("down".to_string()));
    assert!(!r.keep_time && !r.notify);
    let r = weekly_checked(&mut app, &mut library, Ok(None), Ok(some("1.1.0")));
    assert!(r.keep_time && r.notify && !app.available && library.available);
    assert_eq!(library.badge, "v1.1.0 AVAILABLE");
}

#[test]
fn settings_have_labels() {
    for label in ["Off", "On (Everything)", "On (Only Shaders)", "On (Only Parallax Studio)"] {
        assert_eq!(u8_to_mouse_mode(mouse_mode_to_u8(label)), label);
    }
    assert_eq!(mouse_mode_to_u8("?"), 3);
    assert!(!mouse_reaches(0, false) && !mouse_reaches(0, true));
    assert!(mouse_reaches(1, false) && mouse_reaches(1, true));
    assert!(mouse_reaches(2, false) && !mouse_reaches(2, true));
    assert!(!mouse_reaches(3, false) && mouse_reaches(3, true));
    assert!(shader_quality_to_scale("Low (Performance Mode)") == Bits32(0.5f32.to_bits()));
    assert!(shader_quality_to_scale("Medium") == Bits32(0.75f32.to_bits()));
    assert!(shader_quality_to_scale("?") == Bits32(1.0f32.to_bits()));
    let label = |x: f32| scale_to_shader_quality(Bits32(x.to_bits()));
    assert_eq!(label(0.6249), "Low (Performance Mode)");
    assert_eq!(label(0.625), "Medium (Balanced)");
    assert_eq!(label(0.875), "High (Maximum Fidelity)");
    assert_eq!(label(-1.0), "Low (Performance Mode)");
    assert_eq!(label(f32::NAN), "High (Maximum Fidelity)");
    assert_eq!((fps_cap(-5), fps_cap(60), fps_cap(1000)), (1, 60, 240));
    assert!(is_dark("dark", false) && !is_dark("light", true) && is_dark("system", true));
    assert_eq!(default_monitor_color("monitor-0"), "orange");
    assert_eq!(default_monitor_color("monitor-8"), "emerald");
    assert_eq!(default_monitor_color("odd"), "orange");
    assert_eq!(hms(3_661), "01:01:01");
    assert_eq!(hms(86_399 + 86_400), "23:59:59");
}

#[test]
fn the_first_configuration() {
    let mut c = Config::load(None);
    assert_eq!((c.theme_mode.as_str(), c.target_fps, c.last_update_check), ("system", default_target_fps(), 0));
    assert_eq!((c.library_sort, c.library_version), (default_library_sort(), default_library_version()));
    assert!(c.audio_sensitivity == default_audio_sensitivity() && c.mouse_mode == default_mouse_mode());
    assert!(c.mouse_sensitivity == Bits32(ONE_BITS));
    c.library_sort = "name-asc".to_string();
    c.library_version = "1.0.0".to_string();
    c.update_from_state("light".to_string(), true, true, &vec![]);
    assert!(c.theme_mode == "light" && c.span_monitors && c.autostart && c.monitors.is_empty());
    assert_eq!(Config::load(Some(c)).library_sort, "name-asc");
}
