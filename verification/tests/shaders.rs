//! Shaders: preparing them, compiling them, and drawing them.
use naga::front::glsl::{Frontend, Options};
use naga::valid::{Capabilities, ValidationFlags, Validator};
use strata::manifest::{BindingConfig, Bits32, ManifestSource, PassConfig, RenderTarget, WallpaperConfig, WallpaperInfo};
use strata::pipeline::{
    cube_faces, faces_match, has_audio, pass_blend, target_needs_history, texture_loads, BlendFactor, ChannelSource,
    RenderTargetData, WallpaperPipeline,
};
use strata::preprocessor::{
    compile_shader, compile_shader_mapped, preprocess_shader, CompileOutcome, ShaderFault, ShaderStage,
};
use strata::renderer::{
    blend_mode_to_int, choose_format, clamp_quality, present_mode_for_label, DrawStep, ErrorLog, LayerPipeline, NamedTarget,
    NamedTexture, PresentMode, Rect32, Renderer,
};
use strata::uniform::{FrameClock, UniformState};

fn compile(source: &str) -> CompileOutcome {
    let mut frontend = Frontend::default();
    let options = Options { stage: naga::ShaderStage::Fragment, defines: Default::default() };
    let module = match frontend.parse(&options, source) {
        Ok(m) => m,
        Err(errors) => {
            let faults = errors
                .errors
                .iter()
                .map(|e| ShaderFault {
                    line: e.meta.location(source).line_number as usize,
                    kind: format!("{:?}", e.kind),
                })
                .collect();
            return CompileOutcome::ParseErrors(faults);
        }
    };
    let mut validator = Validator::new(ValidationFlags::all(), Capabilities::all());
    match validator.validate(&module) {
        Ok(_) => CompileOutcome::Valid,
        Err(e) => CompileOutcome::Invalid(
            e.location(source).map(|l| l.line_number as usize),
            format!("{}", e.as_inner()),
        ),
    }
}

#[test]
fn test_compile_simple_shader() {
    let source = "void mainImage(out vec4 fragColor, vec2 fragCoord) { fragColor = vec4(1.0); }";
    let (preprocessed, _map) = preprocess_shader(source, None, ShaderStage::Fragment, true, [false; 4]);
    let result = compile_shader(&compile(&preprocessed));
    if let Err(ref e) = result {
        println!("{}", e);
    }
    assert!(result.is_ok());
}

#[test]
fn test_compile_shader_with_channel() {
    let source = "void mainImage(out vec4 fragColor, vec2 fragCoord) { fragColor = texture(iChannel0, fragCoord/iResolution.xy); }";
    let (preprocessed, _map) = preprocess_shader(source, None, ShaderStage::Fragment, true, [false; 4]);
    let result = compile_shader(&compile(&preprocessed));
    if let Err(ref e) = result {
        println!("{}", e);
    }
    assert!(result.is_ok());
}

#[test]
fn offscreen_passes_and_cubemaps_compile() {
    let source = "void mainImage(out vec4 c, vec2 p) { c = texture(iChannel1, vec3(p, 1.0)); }";
    let (offscreen, _) = preprocess_shader(source, Some("float half_of(float x) { return x * 0.5; }"), ShaderStage::Fragment, false, [false, true, false, false]);
    let result = compile_shader(&compile(&offscreen));
    assert!(result.is_ok());
    assert!(offscreen.contains("samplerCube(iChannel1_tex, iChannel1_sampler)"));
    assert!(offscreen.contains("half_of"));
}

#[test]
fn faults_are_told_at_the_line_of_the_author() {
    let source = "void mainImage(out vec4 c, vec2 p) {\n  c = vec4(1.0);\n  c = nothing;\n}\n";
    let (pre, map) = preprocess_shader(source, None, ShaderStage::Fragment, true, [false; 4]);
    let outcome = compile(&pre);
    match compile_shader_mapped(&outcome, Some(&map)) {
        Ok(()) => panic!("the source has a fault"),
        Err(e) => {
            assert!(e.starts_with("GLSL compile error(s):\n"), "{}", e);
            assert!(e.contains(&map.describe(map.prelude_newlines + 3)), "{}", e);
        }
    }
    match compile_shader(&CompileOutcome::ParserPanicked) {
        Err(e) => assert_eq!(e, "GLSL frontend panicked (unsupported construct)"),
        Ok(()) => panic!("a panic is an error"),
    }
    match compile_shader(&CompileOutcome::Invalid(Some(7), "bad type".to_string())) {
        Err(e) => assert_eq!(e, "Shader validation error at line 7: bad type"),
        Ok(()) => panic!("an invalid module is an error"),
    }
    match compile_shader(&CompileOutcome::Invalid(None, "bad type".to_string())) {
        Err(e) => assert_eq!(e, "Shader validation error: bad type"),
        Ok(()) => panic!("an invalid module is an error"),
    }
    match compile_shader(&CompileOutcome::ValidatorPanicked) {
        Err(e) => assert_eq!(e, "Shader validator panicked"),
        Ok(()) => panic!("a panic is an error"),
    }
}

fn bind(channel: u32, kind: &str, path: Option<&str>, target: Option<&str>) -> BindingConfig {
    BindingConfig {
        channel,
        binding_type: kind.to_string(),
        path: path.map(|s| s.to_string()),
        target: target.map(|s| s.to_string()),
        stream: None,
        wrap: None,
    }
}

fn pass(name: &str, bindings: Vec<BindingConfig>) -> RenderTarget {
    RenderTarget {
        name: name.to_string(),
        config: PassConfig {
            source: format!("{}.glsl", name),
            double_buffered: false,
            blend: "replace".to_string(),
            scale: Bits32(1.0f32.to_bits()),
            bindings,
        },
    }
}

fn wallpaper(passes: &[&str], targets: Vec<RenderTarget>) -> WallpaperConfig {
    WallpaperConfig {
        wallpaper: WallpaperInfo {
            name: "Test".to_string(),
            author: "".to_string(),
            version: "1.0.0".to_string(),
            source_url: "".to_string(),
            tags: vec![],
            passes: passes.iter().map(|s| s.to_string()).collect(),
            video: None,
        },
        render_targets: targets,
    }
}

#[test]
fn feedback_needs_two_buffers() {
    let c = wallpaper(
        &["bufferA", "bufferB", "image"],
        vec![
            pass("bufferA", vec![bind(0, "buffer", None, Some("bufferA"))]),
            pass("bufferB", vec![bind(0, "buffer", None, Some("bufferA")), bind(1, "texture", Some("noise.png"), None)]),
            pass("image", vec![bind(0, "buffer", None, Some("bufferB")), bind(1, "cubemap", Some("sky.jpg"), None)]),
        ],
    );
    assert!(target_needs_history(&c, "bufferA"));
    assert!(!target_needs_history(&c, "bufferB"));
    let loads = texture_loads(&c);
    assert_eq!(loads.len(), 2);
    assert!(loads.iter().any(|l| l.path == "sky.jpg" && l.cube));
    assert!(!has_audio(&c));
    match WallpaperPipeline::new(&c, "normal") {
        Ok(p) => {
            assert_eq!(p.passes.len(), 3);
            assert!(p.passes[2].screen);
            assert!(matches!(&p.passes[1].even[0].source, ChannelSource::Buffer(n, _) if n == "bufferA"));
            assert!(p.passes[2].cube_channels[1]);
        }
        Err(e) => panic!("{}", e),
    }
}

#[test]
fn a_pass_without_a_description_is_an_error() {
    let c = wallpaper(&["bufferA", "image"], vec![pass("image", vec![])]);
    assert!(WallpaperPipeline::new(&c, "normal").is_err());
}

#[test]
fn cubemaps_have_six_faces() {
    let f = cube_faces("sky.jpg");
    assert_eq!(f, vec!["sky.jpg", "sky_1.jpg", "sky_2.jpg", "sky_3.jpg", "sky_4.jpg", "sky_5.jpg"]);
    assert!(faces_match(&vec![(8, 8), (8, 8)]));
    assert!(!faces_match(&vec![(8, 8), (8, 4)]));
}

#[test]
fn the_image_pass_is_blended_by_its_layer() {
    let add = pass_blend("image", "replace", "additive");
    assert!(add.color.dst_factor == BlendFactor::One);
    let own = pass_blend("bufferA", "alpha", "additive");
    assert!(own.color.src_factor == BlendFactor::SrcAlpha);
    assert_eq!(blend_mode_to_int("additive"), 1);
    assert_eq!(blend_mode_to_int("multiply"), 2);
    assert_eq!(blend_mode_to_int("screen"), 3);
    assert_eq!(blend_mode_to_int("normal"), 0);
}

fn layer(passes: &[&str], targets: &[(&str, usize, (u32, u32))]) -> LayerPipeline {
    let one = Bits32(1.0f32.to_bits());
    LayerPipeline {
        passes: passes.iter().map(|s| s.to_string()).collect(),
        textures: vec![NamedTexture { path: "noise.png".to_string(), width: 4, height: 4 }],
        targets: targets
            .iter()
            .map(|(n, slots, size)| NamedTarget {
                name: n.to_string(),
                data: RenderTargetData::new(size.0, size.1, *slots == 2),
            })
            .collect(),
        opacity: one,
        resolution_scale: one,
        positioning: "Fill".to_string(),
        transform: Rect32 { x: Bits32(0), y: Bits32(0), w: one, h: one },
        blend_mode: "normal".to_string(),
        audio: false,
    }
}

fn clock() -> FrameClock {
    let tick = Bits32(0.25f32.to_bits());
    FrameClock { elapsed: tick, delta: tick, rate: Bits32(4.0f32.to_bits()), date: [tick; 4] }
}

fn uniforms() -> UniformState {
    UniformState::new(Bits32(64.0f32.to_bits()), Bits32(32.0f32.to_bits()), [Bits32(0); 4])
}

#[test]
fn frames_draw_every_pass() {
    let mut r = Renderer::new_headless(64, 32);
    let mut u = uniforms();
    let empty = r.encode_frame(&mut u, clock(), None);
    assert!(empty.clear_only);
    r.add_layer(layer(&["bufferA", "image"], &[("bufferA", 2, (64, 32))]));
    let parity = r.frame_parity;
    let f = r.encode_frame(&mut u, clock(), None);
    assert_eq!(u.uniforms.frame, 2);
    assert!(u.uniforms.time == Bits32(0.25f32.to_bits()));
    assert_eq!(f.steps.len(), 2);
    assert!(f.steps[0] == DrawStep::Offscreen { layer: 0, pass: 0, slot: 1 - parity, parity });
    assert!(f.steps[1] == DrawStep::Image { layer: 0, pass: 1, clear: true, custom: false, blend: 0, parity });
    assert_eq!(r.frame_parity, 1 - parity);
    assert!(!f.upscale);
}

#[test]
fn frames_are_counted_and_slots_take_turns() {
    let mut r = Renderer::new_headless(64, 32);
    let mut u = uniforms();
    r.encode_frame(&mut u, clock(), None);
    assert_eq!((r.frame_parity, u.uniforms.frame), (1, 1));
    r.add_layer(layer(&["bufferA", "image"], &[("bufferA", 2, (64, 32))]));
    let mut read = r.frame_parity;
    for n in 2..8 {
        let f = r.encode_frame(&mut u, clock(), None);
        match f.steps[0] {
            DrawStep::Offscreen { slot, parity, .. } => {
                assert_eq!(parity, read);
                assert_eq!(slot, 1 - read);
                read = slot;
            }
            _ => panic!("a buffer"),
        }
        assert_eq!(u.uniforms.frame, n);
        assert_eq!(r.frame_parity, n as usize % 2);
        assert_eq!(r.pipelines.len(), 1);
    }
}

#[test]
fn a_pass_that_is_listed_twice_has_one_buffer() {
    let c = wallpaper(&["bufferA", "bufferA", "image"], vec![pass("bufferA", vec![]), pass("image", vec![])]);
    match WallpaperPipeline::new(&c, "normal") {
        Ok(p) => {
            assert_eq!(p.targets.len(), 1);
            assert_eq!(p.targets[0].name, "bufferA");
            let names: Vec<&str> = p.passes.iter().map(|p| p.name.as_str()).collect();
            assert_eq!(names, vec!["bufferA", "bufferA", "image"]);
        }
        Err(e) => panic!("{}", e),
    }
}

#[test]
fn quality_follows_memory_and_restores_it() {
    let mut r = Renderer::new_headless(1920, 1080);
    r.add_layer(layer(&["bufferA", "image"], &[("bufferA", 2, (1920, 1080)), ("image", 1, (1920, 1080))]));
    let full = r.estimate_vram();
    r.set_quality(true, &vec![vec![(960, 540), (960, 540)]]);
    let half = r.estimate_vram();
    assert!(half < full);
    let mut u = uniforms();
    let f = r.encode_frame(&mut u, clock(), Some((960, 540)));
    assert!(f.upscale && f.make_scene);
    assert!(!r.encode_frame(&mut u, clock(), Some((960, 540))).make_scene);
    r.set_quality(true, &vec![vec![(1920, 1080), (1920, 1080)]]);
    assert_eq!(r.estimate_vram(), full);
    r.set_quality(false, &vec![vec![(1, 1), (1, 1)]]);
    assert_eq!(r.estimate_vram(), full);
    assert_eq!(r.pipelines[0].targets[0].data.slots, 2);
}

#[test]
fn quality_stays_in_its_range() {
    for q in [0.0f32, -0.0, 0.1, 0.25, 0.5, 0.999, 1.0, 1.5, -3.0, f32::INFINITY, f32::NEG_INFINITY] {
        assert_eq!(clamp_quality(Bits32(q.to_bits())).0, q.clamp(0.25, 1.0).to_bits());
    }
    assert!(f32::from_bits(clamp_quality(Bits32(f32::NAN.to_bits())).0).is_nan());
}

#[test]
fn surfaces_take_sizes_with_pixels() {
    let mut r = Renderer::new_headless(64, 32);
    assert!(r.monitor_offset == (0, 0) && r.scene.is_none());
    assert!(!r.resize((0, 5), &vec![]));
    assert!(r.resize((10, 5), &vec![]));
    assert!(r.size == (10, 5) && r.global_resolution == (10, 5));
    r.set_global_info((3, 4), (100, 50));
    assert!(r.resize((20, 10), &vec![]));
    assert!(r.global_resolution == (100, 50));
    r.add_layer(layer(&["bufferA", "image"], &[("bufferA", 2, (20, 10))]));
    assert!(!r.resize((0, 0), &vec![vec![(1, 1)]]));
    assert!(r.pipelines[0].targets[0].data.size == (20, 10));
    assert!(r.resize((40, 20), &vec![vec![(40, 20)]]));
    assert!(r.pipelines[0].targets[0].data.size == (40, 20) && r.pipelines[0].targets[0].data.slots == 2);
    r.set_layer_opacity(0, Bits32(5));
    r.set_layer_transform(0, Rect32 { x: Bits32(1), y: Bits32(2), w: Bits32(3), h: Bits32(4) });
    assert_eq!(r.pipelines[0].positioning, "Custom");
    r.set_layer_opacity(9, Bits32(6));
    assert!(r.pipelines[0].opacity == Bits32(5));
    r.clear_layers();
    assert!(r.pipelines.is_empty());
}

#[test]
fn plain_formats_come_first() {
    assert_eq!(choose_format(&vec![true, true, false]), 2);
    assert_eq!(choose_format(&vec![true, true]), 0);
    assert!(present_mode_for_label("Immediate (VSync Off)") == PresentMode::Immediate);
    assert!(present_mode_for_label("Mailbox (Ultra-Fast)") == PresentMode::Mailbox);
    assert!(present_mode_for_label("VSync") == PresentMode::Fifo);
}

#[test]
fn repeated_errors_are_reported_once() {
    let mut log = ErrorLog { last: None };
    assert!(log.report("lost", 1000));
    assert!(!log.report("lost", 1001));
    assert!(log.report("other", 1002));
}

#[test]
fn wallpapers_without_a_manifest_are_built() {
    let files = vec!["image.glsl".to_string(), "noise.png".to_string()];
    match WallpaperConfig::load_from_dir("wp", Some("plasma"), false, true, &files) {
        Ok(ManifestSource::Built(c)) => {
            assert_eq!(c.wallpaper.passes.last().unwrap(), "image");
        }
        Ok(ManifestSource::File) => panic!("there is no manifest"),
        Err(e) => panic!("{}", e),
    }
    assert!(matches!(
        WallpaperConfig::load_from_dir("wp", Some("plasma"), true, true, &files),
        Ok(ManifestSource::File)
    ));
    assert!(WallpaperConfig::load_from_dir("wp", Some("plasma"), false, false, &files).is_err());
}
