//! The models of the depth studio and the images they work on.
use strata::depth::{
    birefnet_model, depth_models, gpu_class, is_cached, lama_model, model_by_id, preset_upscaler, recommended_tier,
    segment_models, u2net_model, upscale_models,
    DeviceType, GpuClass, ModelChoice, ModelFile, OnnxEstimator, Preset, Registry,
};
use strata::inpaint::{dilate_mask, feather_mask, foreground_mask, histogram, seam_width, GrayImage};
use strata::parallax::{
    build_preview, clean_label, download_models_queue, download_needed, files_to_fetch, missing_models,
    model_options,
    parallax_required_models, parallax_style_options, percent, prepare_clean_preview_dir, queue_text, render_choice,
    save_name, save_to_library, seg_choice_for_label, style_is_billboard, tier_for_label, upscaler_choice_for_label,
    upscaler_options, Build, CleanStep, DownloadQueue, Downloads, ModelDir, QueueEvent, QueuePhase, RemoveOutcome,
    StudioChoice,
};
use strata::paths::Location;
use strata::segment::{drop_small_subjects, input_side, label_subjects, largest_area, on_border};
use strata::thumbnail::{generate_thumbnail, strip_rows};
use strata::upscale::{origins, upscale_4x};

fn place(parts: &[&str]) -> Location {
    Location { parts: parts.iter().map(|s| s.to_string()).collect() }
}

fn model(id: &str, name: &str, arch: &str, tier: &str, input_size: u32, files: &[&str]) -> ModelChoice {
    ModelChoice {
        id: id.to_string(),
        name: name.to_string(),
        license: "MIT".to_string(),
        commercial_ok: true,
        size_mb: 27,
        input_size,
        invert: false,
        arch: arch.to_string(),
        tier: tier.to_string(),
        files: files
            .iter()
            .map(|f| ModelFile { name: f.to_string(), url: format!("https://example.org/{}", f) })
            .collect(),
    }
}

fn registry() -> Registry {
    Registry {
        depth: vec![
            model("da2-small", "Depth Anything V2 Small", "v2", "small", 518, &["model_int8.onnx"]),
            model("da2-base", "Depth Anything V2 Base (recommended)", "v2", "base", 518, &["model.onnx"]),
            model("da3-small", "Depth Anything V3 Small", "v3", "small", 504, &["model.onnx", "model.onnx_data"]),
        ],
        segment: vec![
            model("u2net", "U2-Net", "seg", "small", 320, &["u2net.onnx"]),
            model("birefnet-lite", "BiRefNet lite", "seg", "base", 1024, &["birefnet.onnx"]),
        ],
        inpaint: vec![model("lama", "LaMa", "inpaint", "base", 512, &["lama_fp32.onnx"])],
        upscale: vec![model("realesrgan", "Real-ESRGAN x4", "up", "base", 128, &["esrgan.onnx"])],
    }
}

#[test]
fn model_registry_and_recommendation() {
    let r = registry();
    let v3 = model_by_id(&r, "da3-small").expect("da3-small in registry");
    assert!(v3.is_v3());
    assert!(!v3.invert, "V3 metric distance is handled by disparity conversion, not invert");
    assert_eq!(v3.files.len(), 2, "V3 ships model.onnx + model.onnx_data");
    assert_eq!(v3.primary_file(), "model.onnx");

    let v2 = model_by_id(&r, "da2-small").expect("da2-small in registry");
    assert!(!v2.is_v3());
    assert_eq!(v2.primary_file(), "model_int8.onnx");

    assert!(model_by_id(&r, "birefnet-lite").is_some(), "BiRefNet lite present");
    assert_eq!(u2net_model(&r).input_size, 320);
    assert_eq!(birefnet_model(&r).input_size, 1024);
    assert_eq!(lama_model(&r).input_size, 512);

    assert_eq!(recommended_tier(&r, GpuClass::Discrete).tier, "base");
    assert_eq!(recommended_tier(&r, GpuClass::Integrated).tier, "small");
    assert_eq!(recommended_tier(&r, GpuClass::Cpu).tier, "small");
}

#[test]
fn models_are_listed_by_their_use() {
    let r = registry();
    assert_eq!(depth_models(&r).len(), r.depth.len());
    assert_eq!(depth_models(&r)[0].id, r.depth[0].id);
    assert!(segment_models(&r).iter().any(|m| m.id == "u2net"));
    assert!(upscale_models(&r).iter().any(|m| m.id == "realesrgan"));
}

#[test]
fn unknown_models_are_missing() {
    let r = registry();
    assert!(model_by_id(&r, "da9").is_none());
    let p = Preset { name: "Fast".to_string(), depth: "da2-small".to_string(), segment: "u2net".to_string(), upscaler: None };
    assert!(preset_upscaler(&r, &p).is_none());
    let q = Preset { upscaler: Some("realesrgan".to_string()), ..p };
    assert_eq!(preset_upscaler(&r, &q).unwrap().id, "realesrgan");
}

#[test]
fn devices_have_classes() {
    assert!(gpu_class(DeviceType::DiscreteGpu) == GpuClass::Discrete);
    assert!(gpu_class(DeviceType::IntegratedGpu) == GpuClass::Integrated);
    assert!(gpu_class(DeviceType::Cpu) == GpuClass::Cpu);
}

#[test]
fn estimators_follow_their_models() {
    let r = registry();
    let e = OnnxEstimator::from_choice(place(&["models", "m.onnx"]), model_by_id(&r, "da3-small").unwrap());
    assert_eq!(e.input_size, 504);
    assert!(e.rank5 && e.metric);
    let e = OnnxEstimator::from_choice(place(&["models", "m.onnx"]), model_by_id(&r, "da2-small").unwrap());
    assert_eq!(e.input_size, 518);
    assert!(!e.rank5 && !e.metric);
}

#[test]
fn depth_is_kept_while_it_is_newer() {
    assert!(is_cached(Some(5), Some(6)));
    assert!(!is_cached(Some(6), Some(5)));
    assert!(!is_cached(Some(6), None));
}

fn square(w: u32, h: u32, x0: u32, x1: u32, y0: u32, y1: u32) -> GrayImage {
    let mut data = Vec::new();
    for y in 0..h {
        for x in 0..w {
            data.push(if x >= x0 && x < x1 && y >= y0 && y < y1 { 255u8 } else { 0u8 });
        }
    }
    GrayImage { width: w, height: h, data }
}

#[test]
fn foreground_mask_thresholds_and_dilates() {
    let (w, h) = (40u32, 40u32);
    let depth = square(w, h, 16, 24, 16, 24);
    let cut = (0.6f32 * 255.0) as u8;
    let mask = foreground_mask(&depth, cut, 3);
    assert_eq!(mask.get_pixel(20, 20), 255);
    assert_eq!(mask.get_pixel(1, 1), 0);
    let on = mask.data.iter().filter(|p| **p == 255).count();
    assert!(on > 8 * 8, "dilation should expand the 8x8 core, got {} px", on);
    assert_eq!(on, 14 * 14);
}

#[test]
fn feathering_makes_a_gradient() {
    let mask = square(40, 40, 10, 30, 28, 40);
    let soft = feather_mask(&mask, 3);
    assert!(soft.data.iter().any(|p| *p > 0 && *p < 255));
    assert_eq!(soft.get_pixel(20, 36), 255);
    assert_eq!(soft.get_pixel(0, 0), 0);
    let same = feather_mask(&mask, 0);
    assert_eq!(same.data, mask.data);
}

#[test]
fn dilation_only_grows() {
    let mask = square(9, 9, 4, 5, 4, 5);
    let wide = dilate_mask(&mask, 2);
    for i in 0..mask.data.len() {
        assert!(wide.data[i] >= mask.data[i]);
    }
    assert_eq!(wide.data.iter().filter(|p| **p == 255).count(), 25);
}

#[test]
fn histograms_count_every_pixel() {
    let h = histogram(&square(10, 10, 0, 3, 0, 10));
    assert_eq!(h.len(), 256);
    assert_eq!(h[255], 30);
    assert_eq!(h[0], 70);
    assert!(seam_width(1920, 1080) > 0);
}

#[test]
fn subjects_are_connected_parts() {
    let mut data = vec![0u8; 36];
    for i in [0usize, 1, 6, 7] {
        data[i] = 200;
    }
    data[35] = 200;
    let mut mask = GrayImage { width: 6, height: 6, data };
    let s = label_subjects(&mask);
    assert_eq!(s.labels[0], s.labels[7]);
    assert!(s.labels[0] != s.labels[35] && s.labels[35] != 0);
    assert_eq!(s.labels[20], 0);
    assert_eq!(largest_area(&s), 4);
    drop_small_subjects(&mut mask, &s, 2);
    assert_eq!(mask.data[0], 200);
    assert_eq!(mask.data[35], 0);
    let s = label_subjects(&mask);
    drop_small_subjects(&mut mask, &s, 100);
    assert_eq!(mask.data[0], 200);
    let mut dot = GrayImage { width: 1, height: 1, data: vec![255] };
    let s = label_subjects(&dot);
    drop_small_subjects(&mut dot, &s, 2);
    assert_eq!(dot.data, [255]);
}

#[test]
fn faint_pixels_belong_to_no_subject() {
    let mask = GrayImage { width: 2, height: 1, data: vec![24, 25] };
    let s = label_subjects(&mask);
    assert_eq!(s.labels[0], 0);
    assert!(s.labels[1] != 0);
    assert_eq!(input_side(0), 64);
    assert_eq!(input_side(1024), 1024);
    assert!(on_border(320, 0, 5));
    assert!(!on_border(320, 160, 160));
}

#[test]
fn tiles_cover_the_picture() {
    let o = origins(300);
    assert_eq!(o[0], 0);
    assert_eq!(*o.last().unwrap() + 128, 300);
    match upscale_4x(300, 200) {
        Ok(p) => {
            assert_eq!((p.width, p.height), (1200, 800));
            assert_eq!(p.tiles.len(), origins(300).len() * origins(200).len());
        }
        Err(e) => panic!("{}", e),
    }
    match upscale_4x(0, 200) {
        Ok(_) => panic!("too small for a tile"),
        Err(e) => assert_eq!(e, "image 0x200 smaller than the 128px upscaler tile"),
    }
    match upscale_4x(128, 127) {
        Ok(_) => panic!("too small for a tile"),
        Err(e) => assert_eq!(e, "image 128x127 smaller than the 128px upscaler tile"),
    }
}

#[test]
fn thumbnails_lose_their_padding() {
    let r = generate_thumbnail(3, 2);
    assert_eq!(r.unpadded, 12);
    assert_eq!(r.padded, 256);
    let mut data = vec![9u8; 512];
    for i in 0..12usize {
        data[i] = i as u8;
        data[256 + i] = 100 + i as u8;
    }
    let rgba = strip_rows(r, &data);
    assert_eq!(rgba.len(), 24);
    assert_eq!(rgba[0..12], data[0..12]);
    assert_eq!(rgba[12..24], data[256..268]);
}

fn there(ids: &[(&str, &[&str])]) -> Downloads {
    Downloads {
        resolved: true,
        dirs: ids
            .iter()
            .map(|(id, files)| ModelDir { id: id.to_string(), files: files.iter().map(|f| f.to_string()).collect() })
            .collect(),
    }
}

#[test]
fn labels_lead_back_to_models() {
    let r = registry();
    assert_eq!(clean_label("Depth Anything V2 Base (recommended)"), "Depth Anything V2 Base");
    let opts = model_options(Build { depth_onnx: true }, &r);
    assert_eq!(opts.len(), 3);
    assert_eq!(tier_for_label(&r, &opts[1]).unwrap().id, "da2-base");
    assert_eq!(seg_choice_for_label(&r, "BiRefNet lite").id, "birefnet-lite");
    assert_eq!(upscaler_options(&r)[0], "Off");
    assert!(upscaler_choice_for_label(&r, "Off").is_none());
    for label in &upscaler_options(&r)[1..] {
        assert_eq!(&clean_label(&upscaler_choice_for_label(&r, label).unwrap().name), label);
    }
    assert_eq!(files_to_fetch(&vec![false, true, false]), [0, 2]);
    assert!(files_to_fetch(&vec![true]).is_empty());
    assert_eq!(upscaler_choice_for_label(&r, "Real-ESRGAN x4").unwrap().id, "realesrgan");
    let styles = parallax_style_options();
    assert!(styles.iter().any(|s| style_is_billboard(s)));
    assert!(styles.iter().any(|s| !style_is_billboard(s)));
}

fn choice(mode: &str) -> StudioChoice {
    StudioChoice {
        mode: mode.to_string(),
        preset: "Quality".to_string(),
        model: "Depth Anything V2 Small".to_string(),
        seg: "U2-Net".to_string(),
        upscaler: "Off".to_string(),
        style: parallax_style_options()[0].clone(),
    }
}

fn presets() -> Vec<Preset> {
    vec![
        Preset { name: "Fast".to_string(), depth: "da2-small".to_string(), segment: "u2net".to_string(), upscaler: None },
        Preset {
            name: "Quality".to_string(),
            depth: "da2-base".to_string(),
            segment: "birefnet-lite".to_string(),
            upscaler: Some("realesrgan".to_string()),
        },
    ]
}

#[test]
fn the_queue_holds_what_is_missing() {
    let r = registry();
    let need = parallax_required_models(&r, &presets(), &choice("manual"));
    let ids: Vec<&str> = need.iter().map(|m| m.id.as_str()).collect();
    assert_eq!(ids, vec!["da2-small", "u2net", "lama"]);
    let d = there(&[("u2net", &["u2net.onnx"])]);
    let missing = missing_models(&d, &need);
    assert_eq!(missing.len(), 2);
    let q = download_models_queue(&d, &need);
    assert_eq!(q.items.len(), 2);
    assert_eq!((q.items[0].number, q.items[0].total), (1, 2));
    assert_eq!(q.items[0].model.id, "da2-small");
    assert_eq!(q.items[1].model.id, "lama");
    assert!(download_needed(Build { depth_onnx: true }, &missing));
    assert!(!download_needed(Build { depth_onnx: false }, &missing));
    let auto = parallax_required_models(&r, &presets(), &choice("automatic"));
    assert_eq!(auto[0].id, "da2-base");
    let x = render_choice(&r, &presets(), &choice("automatic"));
    assert!(x.default_tuning);
    assert_eq!(x.seg.id, "birefnet-lite");
    assert!(!render_choice(&r, &presets(), &choice("manual")).default_tuning);
}

fn two_models() -> DownloadQueue {
    let r = registry();
    let need = parallax_required_models(&r, &presets(), &choice("manual"));
    download_models_queue(&there(&[("u2net", &["u2net.onnx"])]), &need)
}

#[test]
fn models_are_downloaded_one_after_the_other() {
    let mut q = two_models();
    let mut shown: Vec<(usize, usize, u8)> = Vec::new();
    let mut fetched: Vec<usize> = Vec::new();
    let events = vec![
        QueueEvent::Finished,
        QueueEvent::Begin,
        QueueEvent::Received { done: 1, all: 4 },
        QueueEvent::Finished,
        QueueEvent::Received { done: 9, all: 0 },
        QueueEvent::Received { done: 9, all: 3 },
        QueueEvent::Finished,
        QueueEvent::Begin,
    ];
    for e in events {
        let turn = q.step(e);
        for p in &turn.shown {
            assert_eq!(p.label, q.items[p.number - 1].label);
            assert_eq!(p.size_mb, q.items[p.number - 1].model.size_mb);
            shown.push((p.number, p.total, p.percent));
        }
        fetched.extend(turn.fetch);
    }
    assert_eq!(
        shown,
        vec![(1, 2, 0), (1, 2, 25), (1, 2, 100), (2, 2, 0), (2, 2, 0), (2, 2, 100), (2, 2, 100)]
    );
    assert_eq!(fetched, vec![0, 1]);
    assert!(matches!(q.phase, QueuePhase::Done));
}

#[test]
fn the_first_failure_ends_the_queue() {
    let mut q = two_models();
    assert_eq!(q.step(QueueEvent::Begin).fetch, Some(0));
    let turn = q.step(QueueEvent::Failed("no network".to_string()));
    assert!(turn.shown.is_empty() && turn.fetch.is_none());
    assert!(matches!(&q.phase, QueuePhase::Failed(e) if e == "no network"));
    let after = q.step(QueueEvent::Finished);
    assert!(after.shown.is_empty() && after.fetch.is_none());
    assert!(matches!(&q.phase, QueuePhase::Failed(e) if e == "no network"));
    assert_eq!(q.at, 0);
}

#[test]
fn an_empty_queue_is_done_at_once() {
    let mut q = download_models_queue(&there(&[]), &Vec::new());
    let turn = q.step(QueueEvent::Begin);
    assert!(turn.shown.is_empty() && turn.fetch.is_none());
    assert!(matches!(q.phase, QueuePhase::Done));
}

#[test]
fn a_model_is_there_with_all_its_files() {
    let r = registry();
    let m = model_by_id(&r, "da3-small").unwrap();
    assert!(!strata::parallax::is_model_downloaded(&there(&[("da3-small", &["model.onnx"])]), m));
    assert!(strata::parallax::is_model_downloaded(&there(&[("da3-small", &["model.onnx", "model.onnx_data"])]), m));
}

#[test]
fn progress_is_told_in_percent() {
    assert_eq!(percent(50, 200), 25);
    assert_eq!(percent(0, 0), 0);
    assert_eq!(queue_text("Depth Anything V2 Base", 195, 1, 3), "Depth Anything V2 Base \u{b7} 195 MB  (1/3)");
}

#[test]
fn previews_are_cleared_or_given_up() {
    assert!(matches!(prepare_clean_preview_dir(0, RemoveOutcome::Removed), CleanStep::Done));
    assert!(matches!(prepare_clean_preview_dir(0, RemoveOutcome::NotFound), CleanStep::Done));
    assert!(matches!(prepare_clean_preview_dir(0, RemoveOutcome::Failed), CleanStep::Retry));
    assert!(build_preview(Build { depth_onnx: true }, 1920, 1080, true, true).layered);
    assert!(!build_preview(Build { depth_onnx: false }, 1920, 1080, true, true).layered);
}

#[test]
fn saved_wallpapers_get_a_name() {
    assert_eq!(save_name("  Sunset ", &None), "Sunset");
    assert_eq!(save_name(" ", &Some("IMG_1".to_string())), "IMG_1");
    assert_eq!(save_name("", &None), "Parallax");
    let p = save_to_library(&place(&["parallax"]), "My Photo", &vec!["image.png".to_string()], &vec!["my-photo".to_string()]);
    assert_eq!(p.out.parts[0], "parallax");
    assert!(p.out.parts[1] != "my-photo");
}
