//! Sound, moving pictures and what shaders are told of them.
use strata::audio::{
    is_stale, silent_texture, texture_rgba, AudioRing, Capture, CaptureAction, FFT_SIZE, RING_CAP, TEX_WIDTH,
};
use strata::manifest::Bits32;
use strata::uniform::{FrameClock, UniformState};
use strata::video::{
    frame_size, plane_uploads, stride_of, surface_extent, unpack_frame, wait_for, DecodeAction, DecodeLoop, ReadResult,
};

fn f(x: f32) -> Bits32 {
    Bits32(x.to_bits())
}

#[test]
fn the_ring_keeps_the_newest_samples() {
    let mut ring = AudioRing::new();
    let many: Vec<Bits32> = (0..RING_CAP as u32 + 5).map(Bits32).collect();
    ring.push(&many);
    assert_eq!(ring.samples.len(), RING_CAP);
    assert!(ring.samples[0] == Bits32(5));
    let mut split = AudioRing::new();
    split.push(&many[..100].to_vec());
    split.push(&many[100..].to_vec());
    assert!(split.samples == ring.samples);
    let s = ring.spectrum_input();
    assert_eq!(s.len(), FFT_SIZE);
    assert!(s[FFT_SIZE - 1] == Bits32(RING_CAP as u32 + 4));
    let w = ring.waveform();
    assert_eq!(w.len(), TEX_WIDTH as usize);
    assert!(w[0] == Bits32(RING_CAP as u32 + 5 - TEX_WIDTH));
    ring.clear();
    ring.push(&vec![Bits32(7)]);
    let s = ring.spectrum_input();
    assert!(s[0] == Bits32(7) && s[1] == Bits32(0));
}

#[test]
fn the_sound_texture_has_two_gray_rows() {
    let tex = texture_rgba(&vec![9u8; 512], &vec![200u8; 512]);
    assert_eq!(tex.len(), 512 * 2 * 4);
    assert_eq!(&tex[..4], &[9, 9, 9, 255]);
    assert_eq!(&tex[512 * 4..512 * 4 + 4], &[200, 200, 200, 255]);
    assert!(silent_texture().iter().all(|b| *b == 0));
    assert!(is_stale(None, 0));
    assert!(!is_stale(Some(100), 111));
    assert!(is_stale(Some(100), 112));
}

#[test]
fn capture_runs_while_it_is_wanted() {
    let mut c = Capture::new();
    assert!(matches!(c.run_capture(0, 5000), CaptureAction::Keep));
    assert!(matches!(c.run_capture(5000, 5000), CaptureAction::Open));
    assert!(c.opened(false));
    assert!(!c.opened(false));
    assert!(!c.opened(true));
    assert!(matches!(c.run_capture(5000, 6999), CaptureAction::Keep));
    assert!(matches!(c.run_capture(5000, 7000), CaptureAction::Close));
    assert!(!c.open);
    assert!(c.opened(false));
}

#[test]
fn frames_lose_their_padding() {
    assert_eq!(frame_size(0x0000_0780_0000_0438), (1920, 1080));
    assert_eq!(stride_of(None, 1918), 1918);
    assert_eq!(stride_of(Some(2048), 1918), 2048);
    assert_eq!(stride_of(Some((-2048i32) as u32), 1918), 2048);
    let src: Vec<u8> = vec![1, 2, 0, 3, 4, 0, 5, 6, 0];
    let fr = unpack_frame(&src, 2, 2, 3);
    assert_eq!(fr.y, [1, 2, 3, 4]);
    assert_eq!(fr.uv, [5, 6]);
    let short = unpack_frame(&vec![1, 2], 2, 2, 2);
    assert_eq!(short.y, [1, 2, 0, 0]);
    assert_eq!(short.uv, [0, 0]);
    let coded = unpack_frame(&(0..24).collect::<Vec<u8>>(), 4, 2, 4);
    assert_eq!(coded.uv, [16, 17, 18, 19]);
    let (y, uv) = plane_uploads(1920, 1080);
    assert_eq!((y.width, y.height, y.bytes_per_row, y.rows), (1920, 1080, 1920, 1080));
    assert_eq!((uv.width, uv.height, uv.bytes_per_row, uv.rows), (960, 540, 1920, 540));
    assert_eq!(surface_extent((0, 7)), (1, 7));
}

#[test]
fn frames_come_when_they_are_due() {
    let mut d = DecodeLoop::new();
    assert!(d.decode_loop(ReadResult::Gap) == DecodeAction::Continue);
    assert!(d.decode_loop(ReadResult::Sample(50)) == DecodeAction::Show { due_ns: 0, restart: true });
    assert!(d.decode_loop(ReadResult::Sample(60)) == DecodeAction::Show { due_ns: 1000, restart: false });
    assert!(d.decode_loop(ReadResult::Sample(40)) == DecodeAction::Show { due_ns: 0, restart: false });
    assert!(d.decode_loop(ReadResult::EndOfStream) == DecodeAction::Reopen);
    assert!(d.reopened(true) == DecodeAction::Continue);
    assert!(d.base.is_none());
    assert!(d.reopened(false) == DecodeAction::Stop);
    assert!(d.decode_loop(ReadResult::Failed) == DecodeAction::Stop);
    assert_eq!(wait_for(900, 400), Some(500));
    assert_eq!(wait_for(400, 400), None);
}

#[test]
fn shaders_are_told_of_the_screen_and_the_mouse() {
    let date = [f(2024.0), f(1.0), f(2.0), f(3.0)];
    let mut s = UniformState::new(f(1920.0), f(1080.0), date);
    assert!(s.uniforms.resolution == [f(1920.0), f(1080.0), f(1.0)]);
    assert!(s.uniforms.global_resolution == s.uniforms.resolution);
    assert!(s.uniforms.sample_rate == f(44100.0));
    assert!(s.uniforms.frame_rate == f(60.0));
    assert!(s.uniforms.time_delta == f(0.016));
    s.resize(f(10.0), f(20.0));
    s.set_global_resolution(f(30.0), f(40.0));
    s.set_monitor_offset(f(-5.0), f(6.0));
    assert!(s.uniforms.resolution[1] == f(20.0) && s.uniforms.global_resolution[0] == f(30.0));
    assert!(s.uniforms.monitor_offset == [f(-5.0), f(6.0)]);
    s.set_channel_resolution(2, f(512.0), f(2.0));
    s.set_channel_resolution(9, f(1.0), f(1.0));
    assert!(s.uniforms.channel_resolution[2] == [f(512.0), f(2.0), f(1.0), f(0.0)]);
    s.set_mouse_position(f(3.0), f(4.0));
    assert!(s.uniforms.mouse == [f(0.0); 4]);
    s.set_mouse_down(true);
    assert!(s.uniforms.mouse == [f(3.0), f(4.0), f(3.0), f(4.0)]);
    s.set_mouse_position(f(5.0), f(6.0));
    s.set_mouse_down(false);
    assert!(s.uniforms.mouse == [f(5.0), f(6.0), f(-3.0), f(-4.0)]);
}

#[test]
fn shaders_are_told_the_time() {
    let date = [f(0.0); 4];
    let clock = || FrameClock { elapsed: f(2.5), delta: f(0.5), rate: f(2.0), date: [f(1.0); 4] };
    let mut s = UniformState::new(f(1.0), f(1.0), date);
    s.update_global_only(clock());
    assert_eq!(s.uniforms.frame, 1);
    assert!(s.uniforms.time == f(2.5) && s.uniforms.date == [f(1.0); 4]);
    s.headless_time = Some(f(7.0));
    s.update_global_only(clock());
    assert_eq!(s.uniforms.frame, 2);
    assert!(s.uniforms.time == f(7.0) && s.uniforms.time_delta == f(1.0 / 60.0) && s.uniforms.frame_rate == f(60.0));
}
