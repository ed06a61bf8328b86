//! What comes into the library: exports, movies and archives.
use std::io::Write;
use strata::compositor::Movie;
use strata::controller::{
    has_manifest, import_shadertoy, import_wallpaper_zip, imported_wallpaper, json_entry, names_json,
    read_shadertoy_json, slugify, slugify_lowered, unique_dir, unpack_step, zip_is_native_pack, Archive, LayerInfo, MonitorInfo, UnpackStep,
};
use strata::archive::{is_plain, ArchiveEntry};
use strata::manifest::{Bits32, ONE_BITS};
use strata::movies::{
    clean_char, daemon_set_fit, file_url, generate_video_thumbnail, import_route, import_video_wallpaper, name_cleaned, next_line,
    page_name,
    pause_checks, reconcile_video_daemon, run_video_daemon, sanitize_name, update_video_pause, video_pack_name,
    video_page, DaemonCmd, DaemonLine, FirstFrame, ImportRoute, PauseEntry, PlayerAction, VideoEntry,
};
use strata::paths::Location;
use strata::renderer::Rect32;
use strata::shadertoy_import::{
    basename, bind_input, compile_failure, convert_shadertoy, cube_mask_from_bindings, id_key, pass_target,
    patch_naga_mat2, peek_name, require_asset, require_cubemap, required_assets, toml_str, InputOut, StExport, StInfo,
    StInput, StOutput, StPass, TargetId,
};

fn place(parts: &[&str]) -> Location {
    Location { parts: parts.iter().map(|s| s.to_string()).collect() }
}

fn strings(v: &[&str]) -> Vec<String> {
    v.iter().map(|s| s.to_string()).collect()
}

fn input(channel: u32, kind: &str, id: &str, filepath: &str) -> StInput {
    StInput {
        channel,
        itype: kind.to_string(),
        id: if id.is_empty() { TargetId::Null } else { TargetId::Text(id.to_string()) },
        filepath: filepath.to_string(),
    }
}

fn st_pass(ptype: &str, name: &str, code: &str, out: &str, inputs: Vec<StInput>) -> StPass {
    StPass {
        inputs,
        outputs: vec![StOutput { id: TargetId::Text(out.to_string()) }],
        code: code.to_string(),
        name: name.to_string(),
        ptype: ptype.to_string(),
    }
}

fn export(passes: Vec<StPass>) -> StExport {
    StExport {
        renderpass: passes,
        info: StInfo {
            id: "33cGDj".to_string(),
            name: "  Sea \"Glow\" ".to_string(),
            username: String::new(),
            tags: strings(&["water", "Water", " ", "glow"]),
        },
    }
}

#[test]
fn exports_become_packages() {
    let e = export(vec![
        st_pass("common", "Common", "mat2 turn(float a) { return mat2(a); }", "", vec![]),
        st_pass(
            "image",
            "Image",
            "void mainImage(out vec4 c, vec2 p) { c = texture(iChannel0, p); }",
            "4dfGRr",
            vec![
                input(0, "buffer", "4dXGR8", ""),
                input(1, "texture", "", "/media/a/abc.png"),
                input(2, "keyboard", "", ""),
                input(3, "music", "", ""),
            ],
        ),
        st_pass("buffer", "Buffer A", "void mainImage(out vec4 c, vec2 p) { c = vec4(0.0); }", "4dXGR8", vec![]),
        st_pass("sound", "Sound", "vec2 mainSound(float t) { return vec2(0.0); }", "", vec![]),
    ]);
    assert_eq!(peek_name(&e), "Sea \"Glow\"");
    assert_eq!(required_assets(&e), strings(&["abc.png"]));
    let plan = match convert_shadertoy(&e, &strings(&["abc.png"])) {
        Ok(p) => p,
        Err(m) => panic!("{}", m),
    };
    assert_eq!(plan.report.name, "Sea \"Glow\"");
    assert_eq!(
        plan.report.warnings,
        strings(&[
            "image: channel 2 input type 'keyboard' is unsupported; left unbound",
            "Skipped unsupported pass type 'sound' (Sound)",
        ])
    );
    let names: Vec<&str> = plan.files.iter().map(|f| f.name.as_str()).collect();
    assert_eq!(names, ["common.glsl", "image.glsl", "bufferA.glsl", "manifest.toml"]);
    assert_eq!(plan.files[0].contents, "mat2 turn(float a) { return _stm2(a); }");
    assert_eq!(
        plan.files[3].contents,
        "[wallpaper]\nname = \"Sea \\\"Glow\\\"\"\nauthor = \"Shadertoy\"\nversion = \"1.0.0\"\n\
         source_url = \"https://www.shadertoy.com/view/33cGDj\"\ntags = [\"water\", \"glow\", \"Imported\"]\n\
         passes = [\"bufferA\", \"image\"]\n\n\
         [render_targets.bufferA]\nsource = \"bufferA.glsl\"\nbindings = []\n\n\
         [render_targets.image]\nsource = \"image.glsl\"\nbindings = [\n    { channel = 0, type = \"buffer\", target = \"bufferA\" },\n    \
         { channel = 1, type = \"texture\", path = \"abc.png\" },\n    { channel = 3, type = \"audio\" }\n]\n\n"
    );
    assert_eq!(plan.checks.len(), 2);
    assert_eq!(plan.checks[0].pass, "bufferA");
    assert_eq!(plan.checks[1].pass, "image");
    assert!(plan.checks[1].source.contains("_stm2(a)"));
}

#[test]
fn exports_that_cannot_be_converted() {
    let fail = |e: &StExport, assets: &[&str]| match convert_shadertoy(e, &strings(assets)) {
        Ok(_) => panic!("converted"),
        Err(m) => m,
    };
    assert_eq!(fail(&export(vec![]), &[]), "Shadertoy export has no render passes");
    let buffer = || st_pass("buffer", "Buffer B", "", "x", vec![]);
    assert_eq!(fail(&export(vec![buffer()]), &[]), "Shadertoy export has no Image pass");
    let with = |i: StInput| export(vec![st_pass("image", "Image", "", "y", vec![i])]);
    assert_eq!(fail(&with(input(0, "texture", "", "")), &[]), "image: texture input has no filepath");
    assert_eq!(fail(&with(input(0, "cubemap", "", "")), &[]), "image: cubemap input has no filepath");
    assert_eq!(
        fail(&with(input(0, "texture", "", "/media/a/abc.png")), &[]),
        "Required texture 'abc.png' isn't in the Strata-Library asset directory"
    );
    assert_eq!(
        fail(&with(input(0, "cubemap", "", "/media/a/sky.png")), &["sky.png", "sky_1.png"]),
        "cubemap 'sky.png' is missing face sky_2.png in the asset directory"
    );
    assert_eq!(compile_failure("image", "no"), "Pass 'image' failed to compile on the wgpu backend:\nno");
}

#[test]
fn inputs_are_bound() {
    let passes = vec![st_pass("buffer", "Buffer C", "", "id7", vec![])];
    let line = |i: StInput| match bind_input("image", &i, &passes, &strings(&["a.png"])) {
        InputOut::Line(l) => l,
        InputOut::Note(l) => format!("note: {}", l),
        InputOut::Fail(l) => format!("fail: {}", l),
    };
    assert_eq!(line(input(1, "buffer", "id7", "")), "    { channel = 1, type = \"buffer\", target = \"bufferC\" }");
    assert_eq!(
        line(input(1, "buffer", "id8", "")),
        "note: image: channel 1 references unknown buffer (id id8); left unbound"
    );
    assert_eq!(line(input(4, "texture", "", "a.png")), "note: image: ignoring input on channel 4 (>3)");
    assert_eq!(line(input(2, "mic", "", "")), "    { channel = 2, type = \"audio\" }");
}

#[test]
fn names_of_exports() {
    assert_eq!(id_key(&TargetId::Null), "");
    assert_eq!(id_key(&TargetId::Text("4dX".to_string())), "4dX");
    assert_eq!(id_key(&TargetId::Other("257".to_string())), "257");
    assert_eq!(pass_target("image", "anything"), Some(("image".to_string(), "image.glsl".to_string())));
    assert_eq!(pass_target("buffer", "Buf b"), Some(("bufferB".to_string(), "bufferB.glsl".to_string())));
    assert_eq!(pass_target("buffer", "7"), Some(("bufferA".to_string(), "bufferA.glsl".to_string())));
    assert_eq!(pass_target("sound", "Sound"), None);
    assert_eq!(basename("/media/a/x.png//"), Some("x.png".to_string()));
    assert_eq!(basename("media\\x.png"), Some("x.png".to_string()));
    assert_eq!(basename("///"), None);
    assert_eq!(basename("a\\"), None);
    assert_eq!(toml_str("a\\\"b"), "\"a\\\\\\\"b\"");
    assert!(require_asset("a.png", &strings(&["a.png"])).is_ok());
    let six = strings(&["s.png", "s_1.png", "s_2.png", "s_3.png", "s_4.png", "s_5.png"]);
    assert!(require_cubemap("s.png", &six).is_ok());
    assert_eq!(require_cubemap("s", &six), Err("cubemap 's' has no extension".to_string()));
    assert_eq!(
        cube_mask_from_bindings(&strings(&["    { channel = 2, type = \"cubemap\", path = \"s.png\" }"])),
        [false, false, true, false]
    );
}

#[test]
fn single_argument_matrices_are_rewritten() {
    assert_eq!(patch_naga_mat2("mat2(x)"), "_stm2(x)");
    assert_eq!(patch_naga_mat2("mat2 (vec4(a, b, c, d))"), "_stm2 (vec4(a, b, c, d))");
    assert_eq!(patch_naga_mat2("mat2(a, b, c, d)"), "mat2(a, b, c, d)");
    assert_eq!(patch_naga_mat2("mymat2(x)"), "mymat2(x)");
    assert_eq!(patch_naga_mat2("mat2(mat2(a))"), "_stm2(_stm2(a))");
    assert_eq!(patch_naga_mat2("mat2 (mat2(a, b) * mat2(c))"), "_stm2 (mat2(a, b) * _stm2(c))");
    assert_eq!(patch_naga_mat2("mat2 m = mat2(f(a, b));"), "mat2 m = _stm2(f(a, b));");
    let nested = "mat2 r = mat2 (mat2(a, b) * mat2(c)); // mymat2(x)";
    assert_eq!(patch_naga_mat2(nested).replace("_stm2", "mat2"), nested);
    let src = "mat3(x) + mat2(a, b) + vec2(1.0)";
    assert_eq!(patch_naga_mat2(src), src);
}

#[test]
fn imports_never_replace_a_folder() {
    let base = place(&["user", "import"]);
    assert_eq!(slugify("  Sea -- Glow! ", "x"), "sea-glow");
    assert_eq!(slugify("\u{c4}PFEL", "x"), "pfel");
    assert_eq!(slugify("!!!", "imported-shader"), "imported-shader");
    assert_eq!(unique_dir(&base, "sea", &strings(&[])).parts, ["user", "import", "sea"]);
    assert_eq!(unique_dir(&base, "sea", &strings(&["sea"])).parts, ["user", "import", "sea-2"]);
    assert_eq!(unique_dir(&base, "sea", &strings(&["sea-2", "sea"])).parts, ["user", "import", "sea-3"]);
    let peeked = Some("Sea Glow".to_string());
    let stem = Some("File Name".to_string());
    assert_eq!(import_shadertoy(&peeked, &stem, &base, &strings(&["sea-glow"])).parts, ["user", "import", "sea-glow-2"]);
    let stock = Some("Imported Shader".to_string());
    assert_eq!(import_shadertoy(&stock, &stem, &base, &vec![]).parts, ["user", "import", "file-name"]);
    assert_eq!(import_shadertoy(&None, &None, &base, &vec![]).parts, ["user", "import", "imported-shader"]);
}

fn zip_of(entries: &[(&str, &str)]) -> Vec<u8> {
    let mut w = zip::ZipWriter::new(std::io::Cursor::new(Vec::new()));
    let options = zip::write::SimpleFileOptions::default();
    for (name, data) in entries {
        if name.ends_with('/') {
            w.add_directory(*name, options).unwrap();
        } else {
            w.start_file(*name, options).unwrap();
            w.write_all(data.as_bytes()).unwrap();
        }
    }
    w.finish().unwrap().into_inner()
}

#[test]
fn archives_are_unpacked() {
    let bytes = zip_of(&[("glow/", ""), ("glow/image.glsl", "void main() {}"), ("glow/manifest.toml", "[wallpaper]")]);
    let dest = place(&["user", "import", "glow"]);
    let mut a = match Archive::open(bytes) {
        Ok(a) => a,
        Err(e) => panic!("{}", e),
    };
    assert_eq!(a.len(), 3);
    match a.unpack(0, &dest, 0) {
        Ok(u) => match u.step {
            UnpackStep::MakeFolder(l) => assert_eq!(l.parts, ["user", "import", "glow", "glow"]),
            _ => panic!("a folder"),
        },
        Err(e) => panic!("{}", e),
    }
    match a.unpack(1, &dest, 1) {
        Ok(u) => match u.step {
            UnpackStep::WriteFile(l) => {
                assert_eq!(l.parts, ["user", "import", "glow", "image.glsl"]);
                assert_eq!(u.data, b"void main() {}");
            }
            _ => panic!("a file"),
        },
        Err(e) => panic!("{}", e),
    }
    match a.unpack(0, &dest, 1) {
        Ok(u) => assert!(matches!(u.step, UnpackStep::Skip)),
        Err(e) => panic!("{}", e),
    }
    assert!(a.unpack(3, &dest, 0).is_err());
}

#[test]
fn entries_stay_inside_the_folder() {
    let dest = place(&["user", "import", "x"]);
    for name in ["../other.txt", "a/../../other.txt"] {
        let mut a = match Archive::open(zip_of(&[(name, "x")])) {
            Ok(a) => a,
            Err(e) => panic!("{}", e),
        };
        match a.unpack(0, &dest, 0) {
            Ok(u) => match u.step {
                UnpackStep::Skip => assert!(u.data.is_empty()),
                UnpackStep::WriteFile(l) => {
                    assert!(l.starts_with(&dest) && !l.parts.contains(&"..".to_string()));
                }
                UnpackStep::MakeFolder(_) => panic!("no folder"),
            },
            Err(e) => panic!("{}", e),
        }
    }
    let entry = |enclosed: Option<Location>| ArchiveEntry { name: "a/b".to_string(), enclosed };
    assert!(matches!(unpack_step(&entry(None), &dest, 0), UnpackStep::Skip));
    for odd in ["..", ".", "", "c:x", "a/b", "a\\b"] {
        assert!(matches!(unpack_step(&entry(Some(place(&["a", odd]))), &dest, 0), UnpackStep::Skip));
        assert!(!is_plain(&place(&[odd])));
    }
    assert!(is_plain(&place(&["My Wallpaper", "..a", "\u{e9}\u{e9}.txt"])));
}

#[test]
fn entries_go_where_their_names_say() {
    let dest = place(&["x"]);
    let cases: [(&str, &[&str]); 7] = [
        ("My Wallpaper/image.glsl", &["x", "My Wallpaper", "image.glsl"]),
        ("\u{e9}\u{e9}.txt", &["x", "\u{e9}\u{e9}.txt"]),
        ("ab\u{e9}.png", &["x", "ab\u{e9}.png"]),
        ("a\\b.txt", &["x", "a", "b.txt"]),
        ("/a//./b.txt", &["x", "a", "b.txt"]),
        ("a/../b.txt", &["x", "b.txt"]),
        ("con.txt. ", &["x", "con.txt. "]),
    ];
    for (name, expected) in cases {
        let mut a = match Archive::open(zip_of(&[(name, "x")])) {
            Ok(a) => a,
            Err(e) => panic!("{}", e),
        };
        match a.unpack(0, &dest, 0) {
            Ok(u) => match u.step {
                UnpackStep::WriteFile(l) => assert_eq!(l.parts, expected),
                _ => panic!("{}", name),
            },
            Err(e) => panic!("{}", e),
        }
    }
}

#[test]
fn packs_are_told_from_exports() {
    let pack = zip_of(&[("glow/image.glsl", ""), ("glow/manifest.toml", "")]);
    let export = zip_of(&[("readme.txt", ""), ("Shader.JSON", "{\"a\": 1}")]);
    assert!(zip_is_native_pack(Some(pack.clone())));
    assert!(!zip_is_native_pack(Some(export.clone())));
    assert!(!zip_is_native_pack(Some(zip_of(&[("../manifest.toml", ""), ("manifest.toml/a", "")]))));
    assert!(zip_is_native_pack(Some(zip_of(&[("My \u{e9}\u{e9}/manifest.toml", "")]))));
    assert!(!zip_is_native_pack(Some(b"no archive".to_vec())));
    assert!(!zip_is_native_pack(None));
    assert!(has_manifest(&vec![None, Some(place(&["a", "manifest.toml"]))]));
    assert!(!has_manifest(&vec![Some(place(&["manifest.toml", "a"])), None]));
    assert_eq!(read_shadertoy_json(export), Ok("{\"a\": 1}".to_string()));
    assert_eq!(read_shadertoy_json(pack), Err("No .json found inside the ZIP".to_string()));
    assert!(read_shadertoy_json(b"no archive".to_vec()).is_err());
    assert_eq!(json_entry(&vec![None, Some("a.txt".to_string()), Some("B.json".to_string())]), Ok(2));
}

#[test]
fn packs_get_a_folder_of_their_own() {
    let bytes = zip_of(&[("manifest.toml", "")]);
    let base = place(&["user", "import"]);
    match import_wallpaper_zip(bytes.clone(), "glow", &base, false) {
        Ok((a, dir)) => {
            assert_eq!(a.len(), 1);
            assert_eq!(dir.parts, ["user", "import", "glow"]);
        }
        Err(e) => panic!("{}", e),
    }
    match import_wallpaper_zip(bytes, "glow", &base, true) {
        Ok(_) => panic!("taken"),
        Err(e) => assert_eq!(e, "Wallpaper already exists"),
    }
    assert!(import_wallpaper_zip(vec![1, 2, 3], "glow", &base, false).is_err());
    assert_eq!(imported_wallpaper(true), Ok(()));
    assert_eq!(
        imported_wallpaper(false),
        Err("No valid live wallpaper found! (Missing manifest.toml)".to_string())
    );
}

#[test]
fn names_are_cleaned_step_by_step() {
    assert_eq!(slugify_lowered("--sea  glow!", "x"), "sea-glow");
    assert_eq!(slugify_lowered("?!", "x"), "x");
    assert_eq!(slugify_lowered("sea-glow-2", "x"), "sea-glow-2");
    assert_eq!(slugify("Clearly a bug", "x"), "clearly-a-bug");
    for name in ["Clearly a bug", "\u{c4}PFEL", "\u{212a}elvin \u{130}ce", "--", "a-2"] {
        let once = slugify(name, "imported-shader");
        assert_eq!(slugify(&once, "imported-shader"), once);
        assert!(once.chars().all(|c| c.is_ascii_lowercase() || c.is_ascii_digit() || c == '-'));
    }
    assert!(names_json("b.json") && !names_json("b.json.txt") && !names_json("json"));
    assert_eq!(clean_char('\u{e9}', true), '\u{e9}');
    assert_eq!(clean_char('\u{e9}', false), '_');
    assert_eq!(clean_char('-', false), '-');
    assert_eq!(name_cleaned(&" __a_b__ ".chars().collect()), "a_b");
    assert_eq!(name_cleaned(&" _ ".chars().collect()), "video");
}

#[test]
fn movies_become_packs() {
    assert_eq!(sanitize_name(" _my:movie*_ "), "my_movie");
    assert_eq!(sanitize_name("\u{e9}t\u{e9} 2-b_c"), "\u{e9}t\u{e9} 2-b_c");
    assert_eq!(sanitize_name("???"), "video");
    assert_eq!(video_pack_name("  ", &Some("clip".to_string())), "clip");
    assert_eq!(video_pack_name("  ", &None), "video");
    assert_eq!(video_pack_name("Rain", &Some("clip".to_string())), "Rain");
    let base = Some(place(&["user", "import"]));
    match import_video_wallpaper(&base, "Rain", &Some("MP4".to_string()), false) {
        Ok(p) => {
            assert_eq!(p.dir.parts, ["user", "import", "Rain"]);
            assert_eq!(p.file, "video.mp4");
            assert!(p.thumbnail);
            assert_eq!(
                p.manifest,
                "[wallpaper]\nname = \"Rain\"\nauthor = \"\"\nversion = \"1.0.0\"\ntags = [\"video\"]\npasses = []\n\
                 video = \"video.mp4\"\n"
            );
        }
        Err(e) => panic!("{}", e),
    }
    match import_video_wallpaper(&base, "Rain", &Some("webm".to_string()), false) {
        Ok(p) => assert!(!p.thumbnail),
        Err(e) => panic!("{}", e),
    }
    match import_video_wallpaper(&base, "Rain", &None, true) {
        Ok(_) => panic!("taken"),
        Err(e) => assert_eq!(e, "A wallpaper named \"Rain\" already exists"),
    }
    match import_video_wallpaper(&None, "Rain", &None, false) {
        Ok(_) => panic!("no folder"),
        Err(e) => assert_eq!(e, "could not resolve the user data directory"),
    }
    assert!(generate_video_thumbnail(true, 9000) == FirstFrame::Take);
    assert!(generate_video_thumbnail(false, 4000) == FirstFrame::Wait(20));
    assert!(generate_video_thumbnail(false, 4001) == FirstFrame::TimedOut);
}

#[test]
fn imports_go_where_they_belong() {
    let ext = |s: &str| Some(s.to_string());
    assert!(import_route(&ext("MP4"), false) == ImportRoute::Movie);
    assert!(import_route(&ext("webm"), true) == ImportRoute::Movie);
    assert!(import_route(&ext("json"), true) == ImportRoute::Shadertoy);
    assert!(import_route(&ext("zip"), false) == ImportRoute::Shadertoy);
    assert!(import_route(&ext("zip"), true) == ImportRoute::Pack);
}

#[test]
fn movies_are_shown_by_a_page() {
    assert_eq!(file_url("C:\\a\\b.mp4"), "file:///C:/a/b.mp4");
    assert_eq!(file_url("/home/a/b.mp4"), "file:///home/a/b.mp4");
    let page = video_page("file:///b.mp4", "contain");
    assert!(page.starts_with("<!doctype html>"));
    assert!(page.contains("object-fit:contain") && page.contains("src=\"file:///b.mp4\""));
    assert_eq!(page_name("monitor-0"), "strata-wallpaper-monitor-0.html");
    assert_eq!(page_name("\\\\.\\D"), "strata-wallpaper-D.html");
}

fn layer(path: &Location, positioning: &str) -> LayerInfo {
    let one = Bits32(ONE_BITS);
    LayerInfo {
        wallpaper_path: path.copy(),
        name: "L".to_string(),
        opacity: one,
        resolution_scale: one,
        positioning: positioning.to_string(),
        transform: Rect32 { x: Bits32(0), y: Bits32(0), w: one, h: one },
        visible: true,
        blend_mode: "normal".to_string(),
    }
}

fn monitor(id: &str, layers: Vec<LayerInfo>) -> MonitorInfo {
    MonitorInfo {
        id: id.to_string(),
        name: id.to_string(),
        color: "blue".to_string(),
        resolution: (1920, 1080),
        position: (0, 0),
        is_primary: true,
        layers,
    }
}

#[test]
fn the_player_follows_the_monitors() {
    let pack = place(&["packs", "rain"]);
    let movies = vec![Movie { pack: pack.copy(), file: pack.join("video.mp4") }];
    let mut cur: Vec<VideoEntry> = Vec::new();
    let ms = vec![monitor("m0", vec![layer(&pack, "Fit")]), monitor("m1", vec![])];
    let r = reconcile_video_daemon(&mut cur, &movies, &ms);
    assert!(r.spawn && !r.shutdown);
    assert_eq!(r.commands.len(), 1);
    match &r.commands[0] {
        DaemonCmd::SetVideo(v) => {
            assert_eq!(v.monitor_id, "m0");
            assert_eq!(v.fit, "contain");
            assert_eq!(v.path.parts, ["packs", "rain", "video.mp4"]);
            assert_eq!(v.geom, (0, 0, 1920, 1080));
        }
        _ => panic!("a movie"),
    }
    let again = reconcile_video_daemon(&mut cur, &movies, &ms);
    assert!(again.commands.is_empty() && !again.spawn);
    match daemon_set_fit(&mut cur, "m0", "fill") {
        DaemonCmd::SetFit { monitor_id, fit } => assert_eq!((monitor_id.as_str(), fit.as_str()), ("m0", "fill")),
        _ => panic!("a fit"),
    }
    assert_eq!(cur[0].fit, "fill");
    let checks = pause_checks(&cur, &ms);
    assert_eq!(checks.len(), 1);
    assert_eq!((checks[0].origin, checks[0].size), ((0, 0), (1920, 1080)));
    let none = reconcile_video_daemon(&mut cur, &movies, &vec![monitor("m0", vec![])]);
    assert!(none.shutdown && cur.is_empty());
    assert!(matches!(&none.commands[0], DaemonCmd::RemoveVideo(id) if id == "m0"));
}

#[test]
fn one_monitor_plays_one_movie() {
    let rain = place(&["packs", "rain"]);
    let snow = place(&["packs", "snow"]);
    let movies = vec![
        Movie { pack: rain.copy(), file: rain.join("video.mp4") },
        Movie { pack: snow.copy(), file: snow.join("video.mp4") },
    ];
    let mut cur: Vec<VideoEntry> = Vec::new();
    let ms = vec![
        monitor("m0", vec![layer(&rain, "Fit")]),
        monitor("m1", vec![layer(&rain, "Fill")]),
        monitor("m0", vec![layer(&snow, "Fill")]),
        monitor("m0", vec![]),
    ];
    let r = reconcile_video_daemon(&mut cur, &movies, &ms);
    assert_eq!(r.commands.len(), 2);
    let m0: Vec<&VideoEntry> = cur.iter().filter(|v| v.monitor_id == "m0").collect();
    assert_eq!(m0.len(), 1);
    assert_eq!(m0[0].path.parts, ["packs", "snow", "video.mp4"]);
    assert_eq!(m0[0].fit, "cover");
    assert_eq!(pause_checks(&cur, &ms).len(), 2);
    assert!(reconcile_video_daemon(&mut cur, &movies, &ms).commands.is_empty());
}

#[test]
fn covered_movies_pause_once() {
    let pack = place(&["packs", "rain"]);
    let movies = vec![Movie { pack: pack.copy(), file: pack.join("video.mp4") }];
    let mut cur: Vec<VideoEntry> = Vec::new();
    let _ = reconcile_video_daemon(&mut cur, &movies, &vec![monitor("m0", vec![layer(&pack, "Fill")])]);
    let mut known: Vec<PauseEntry> = Vec::new();
    let covered = |paused: bool| vec![PauseEntry { monitor_id: "m0".to_string(), paused }];
    let first = update_video_pause(&mut known, &cur, covered(true));
    assert!(matches!(&first[0], DaemonCmd::SetPaused { monitor_id, paused: true } if monitor_id == "m0"));
    assert!(update_video_pause(&mut known, &cur, covered(true)).is_empty());
    assert_eq!(update_video_pause(&mut known, &cur, covered(false)).len(), 1);
    assert!(update_video_pause(&mut known, &vec![], vec![]).is_empty());
    assert!(known.is_empty());
}

#[test]
fn the_player_does_as_it_is_told() {
    let open = strings(&["m0"]);
    let script = |cmd: DaemonCmd| match run_video_daemon(&open, cmd) {
        PlayerAction::Script { script, .. } => script,
        _ => panic!("a script"),
    };
    assert_eq!(
        script(DaemonCmd::SetFit { monitor_id: "m0".to_string(), fit: "fill".to_string() }),
        "{var e=document.querySelector('video');if(e)e.style.objectFit='fill';}"
    );
    assert_eq!(
        script(DaemonCmd::SetPaused { monitor_id: "m0".to_string(), paused: true }),
        "{var e=document.querySelector('video');if(e)e.pause();}"
    );
    assert_eq!(
        script(DaemonCmd::SetPaused { monitor_id: "m0".to_string(), paused: false }),
        "{var e=document.querySelector('video');if(e)e.play();}"
    );
    assert!(matches!(run_video_daemon(&open, DaemonCmd::RemoveVideo("m1".to_string())), PlayerAction::Nothing));
    assert!(matches!(run_video_daemon(&open, DaemonCmd::RemoveVideo("m0".to_string())), PlayerAction::Close(_)));
    assert!(matches!(run_video_daemon(&open, DaemonCmd::Shutdown), PlayerAction::Exit));
    assert!(matches!(next_line(None), DaemonLine::Shutdown));
    assert!(matches!(next_line(Some(" \t".to_string())), DaemonLine::Skip));
    assert!(matches!(next_line(Some("{}".to_string())), DaemonLine::Parse(l) if l == "{}"));
}
