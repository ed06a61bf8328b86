//! The values that every shader reads: resolution, time, mouse and channels.
use vstd::prelude::*;
use crate::manifest::Bits32;

verus! {

/// 60, the frame rate that is reported where none was measured.
pub const SIXTY_BITS: u32 = 0x4270_0000;

/// A sixtieth, the time step of a capture.
pub const SIXTIETH_BITS: u32 = 0x3c88_8889;

/// 0.016, the first time step.
pub const FIRST_DELTA_BITS: u32 = 0x3c83_126f;

/// 44100, the sample rate.
pub const SAMPLE_RATE_BITS: u32 = 0x472c_4400;

/// 1.
pub const UNIT_BITS: u32 = 0x3f80_0000;

/// The uniform block of the shaders. Numbers with a fraction are held by their bits.
#[derive(Clone, Copy)]
pub struct ShaderUniforms {
    pub resolution: [Bits32; 3],
    pub time: Bits32,
    pub time_delta: Bits32,
    pub frame_rate: Bits32,
    pub frame: i32,
    pub sample_rate: Bits32,
    pub mouse: [Bits32; 4],
    pub date: [Bits32; 4],
    pub channel_time: [Bits32; 4],
    pub channel_resolution: [[Bits32; 4]; 4],
    pub global_resolution: [Bits32; 3],
    pub monitor_offset: [Bits32; 2],
    pub opacity: Bits32,
    pub blend_mode: i32,
}

/// The uniforms, with what is needed to keep them up to date.
pub struct UniformState {
    pub uniforms: ShaderUniforms,
    /// A time that replaces the clock.
    pub headless_time: Option<Bits32>,
    pub mouse_down: bool,
    pub click_pos: (Bits32, Bits32),
    pub current_pos: (Bits32, Bits32),
}

/// What the clock says when a frame begins.
#[derive(Clone, Copy)]
pub struct FrameClock {
    /// Since the start, in seconds.
    pub elapsed: Bits32,
    /// Since the last frame, in seconds.
    pub delta: Bits32,
    /// Frames per second, 60 where no time passed.
    pub rate: Bits32,
    /// Year, month from zero, day, and seconds since midnight.
    pub date: [Bits32; 4],
}

/// The negative of a number's size: its bits with the sign bit set.
pub open spec fn negative(b: Bits32) -> Bits32 {
    Bits32(b.0 | 0x8000_0000)
}

fn make_negative(b: Bits32) -> (r: Bits32)
    ensures
        r == negative(b),
{
    Bits32(b.0 | 0x8000_0000)
}

/// The sign bit of the result is set, and the other bits stay.
pub proof fn law_negative_keeps_the_size(b: Bits32)
    ensures
        negative(b).0 >= 0x8000_0000,
        negative(b).0 & 0x7fff_ffff == b.0 & 0x7fff_ffff,
        negative(negative(b)) == negative(b),
{
    let x = b.0;
    assert((x | 0x8000_0000u32) >= 0x8000_0000u32) by (bit_vector);
    assert((x | 0x8000_0000u32) & 0x7fff_ffffu32 == x & 0x7fff_ffffu32) by (bit_vector);
    assert((x | 0x8000_0000u32) | 0x8000_0000u32 == x | 0x8000_0000u32) by (bit_vector);
}

/// Whether `after` is the uniforms of the frame that follows `before`: one frame on, at the
/// time of the clock, or at the time of a capture, which goes on in steps of a sixtieth of
/// a second.
pub open spec fn begun(after: UniformState, before: UniformState, clock: FrameClock) -> bool {
    &&& after.uniforms.frame == before.uniforms.frame + 1
    &&& match before.headless_time {
        Some(t) => after.uniforms == (ShaderUniforms {
            frame: after.uniforms.frame,
            time: t,
            time_delta: Bits32(SIXTIETH_BITS),
            frame_rate: Bits32(SIXTY_BITS),
            ..before.uniforms
        }),
        None => after.uniforms == (ShaderUniforms {
            frame: after.uniforms.frame,
            time: clock.elapsed,
            time_delta: clock.delta,
            frame_rate: clock.rate,
            date: clock.date,
            ..before.uniforms
        }),
    }
    &&& after.headless_time == before.headless_time
    &&& after.same_mouse(before)
}

impl UniformState {
    /// The first uniforms of a surface of the given size.
    pub fn new(width: Bits32, height: Bits32, date: [Bits32; 4]) -> (s: UniformState)
        ensures
            s.uniforms.resolution@ =~= seq![width, height, Bits32(UNIT_BITS)],
            s.uniforms.time.0 == 0,
            s.uniforms.time_delta.0 == FIRST_DELTA_BITS,
            s.uniforms.frame_rate.0 == SIXTY_BITS,
            s.uniforms.frame == 0,
            s.uniforms.sample_rate.0 == SAMPLE_RATE_BITS,
            s.uniforms.mouse@ =~= seq![Bits32(0), Bits32(0), Bits32(0), Bits32(0)],
            s.uniforms.date == date,
            s.uniforms.channel_time@ =~= seq![Bits32(0), Bits32(0), Bits32(0), Bits32(0)],
            forall|i: int|
                0 <= i < 4 ==> (#[trigger] s.uniforms.channel_resolution@[i])@ =~= seq![
                    Bits32(0),
                    Bits32(0),
                    Bits32(0),
                    Bits32(0),
                ],
            s.uniforms.global_resolution@ =~= seq![width, height, Bits32(UNIT_BITS)],
            s.uniforms.monitor_offset@ =~= seq![Bits32(0), Bits32(0)],
            s.uniforms.opacity.0 == UNIT_BITS,
            s.uniforms.blend_mode == 0,
            s.headless_time is None,
            !s.mouse_down,
            s.click_pos == (Bits32(0), Bits32(0)),
            s.current_pos == (Bits32(0), Bits32(0)),
    {
        let zero = Bits32(0);
        let none = [zero, zero, zero, zero];
        UniformState {
            uniforms: ShaderUniforms {
                resolution: [width, height, Bits32(UNIT_BITS)],
                time: zero,
                time_delta: Bits32(FIRST_DELTA_BITS),
                frame_rate: Bits32(SIXTY_BITS),
                frame: 0,
                sample_rate: Bits32(SAMPLE_RATE_BITS),
                mouse: none,
                date,
                channel_time: none,
                channel_resolution: [none, none, none, none],
                global_resolution: [width, height, Bits32(UNIT_BITS)],
                monitor_offset: [zero, zero],
                opacity: Bits32(UNIT_BITS),
                blend_mode: 0,
            },
            headless_time: None,
            mouse_down: false,
            click_pos: (zero, zero),
            current_pos: (zero, zero),
        }
    }

    /// Takes in a new size of the surface.
    pub fn resize(&mut self, width: Bits32, height: Bits32)
        ensures
            final(self).uniforms == (ShaderUniforms {
                resolution: final(self).uniforms.resolution,
                ..old(self).uniforms
            }),
            final(self).uniforms.resolution@ =~= seq![width, height, Bits32(UNIT_BITS)],
            final(self).headless_time == old(self).headless_time,
            final(self).same_mouse(*old(self)),
    {
        self.uniforms.resolution = [width, height, Bits32(UNIT_BITS)];
    }

    /// Whether the mouse is in the same state.
    pub open spec fn same_mouse(self, other: UniformState) -> bool {
        &&& self.mouse_down == other.mouse_down
        &&& self.click_pos == other.click_pos
        &&& self.current_pos == other.current_pos
    }

    /// Places the surface on the desktop.
    pub fn set_monitor_offset(&mut self, x: Bits32, y: Bits32)
        ensures
            final(self).uniforms == (ShaderUniforms {
                monitor_offset: final(self).uniforms.monitor_offset,
                ..old(self).uniforms
            }),
            final(self).uniforms.monitor_offset@ =~= seq![x, y],
            final(self).headless_time == old(self).headless_time,
            final(self).same_mouse(*old(self)),
    {
        self.uniforms.monitor_offset = [x, y];
    }

    /// Sets the size of the whole desktop.
    pub fn set_global_resolution(&mut self, width: Bits32, height: Bits32)
        ensures
            final(self).uniforms == (ShaderUniforms {
                global_resolution: final(self).uniforms.global_resolution,
                ..old(self).uniforms
            }),
            final(self).uniforms.global_resolution@ =~= seq![width, height, Bits32(UNIT_BITS)],
            final(self).headless_time == old(self).headless_time,
            final(self).same_mouse(*old(self)),
    {
        self.uniforms.global_resolution = [width, height, Bits32(UNIT_BITS)];
    }

    /// Sets the size of a channel; there are four.
    pub fn set_channel_resolution(&mut self, index: usize, width: Bits32, height: Bits32)
        ensures
            final(self).uniforms == (ShaderUniforms {
                channel_resolution: final(self).uniforms.channel_resolution,
                ..old(self).uniforms
            }),
            index >= 4 ==> final(self).uniforms.channel_resolution == old(self).uniforms.channel_resolution,
            index < 4 ==> final(self).uniforms.channel_resolution@[index as int]@ =~= seq![
                width,
                height,
                Bits32(UNIT_BITS),
                Bits32(0),
            ],
            forall|i: int|
                0 <= i < 4 && i != index ==> #[trigger] final(self).uniforms.channel_resolution@[i]
                    == old(self).uniforms.channel_resolution@[i],
            final(self).headless_time == old(self).headless_time,
            final(self).same_mouse(*old(self)),
    {
        if index < 4 {
            self.uniforms.channel_resolution[index] = [width, height, Bits32(UNIT_BITS), Bits32(0)];
        }
    }

    /// Takes in where the mouse is: `x` from the left and `y` from below. Shaders see
    /// it move only while the button is down.
    pub fn set_mouse_position(&mut self, x: Bits32, y: Bits32)
        ensures
            final(self).current_pos == (x, y),
            final(self).mouse_down == old(self).mouse_down,
            final(self).click_pos == old(self).click_pos,
            final(self).headless_time == old(self).headless_time,
            final(self).uniforms == (ShaderUniforms { mouse: final(self).uniforms.mouse, ..old(self).uniforms }),
            final(self).uniforms.mouse@ =~= (if old(self).mouse_down {
                seq![x, y, old(self).uniforms.mouse@[2], old(self).uniforms.mouse@[3]]
            } else {
                old(self).uniforms.mouse@
            }),
    {
        self.current_pos = (x, y);
        if self.mouse_down {
            self.uniforms.mouse[0] = x;
            self.uniforms.mouse[1] = y;
        }
    }

    /// Takes in whether the button is down. Pressing it marks the place of the click;
    /// letting go turns the mark negative.
    pub fn set_mouse_down(&mut self, down: bool)
        ensures
            final(self).mouse_down == down,
            final(self).current_pos == old(self).current_pos,
            final(self).click_pos == (if down {
                old(self).current_pos
            } else {
                old(self).click_pos
            }),
            final(self).headless_time == old(self).headless_time,
            final(self).uniforms == (ShaderUniforms { mouse: final(self).uniforms.mouse, ..old(self).uniforms }),
            final(self).uniforms.mouse@ =~= (if down {
                seq![
                    old(self).current_pos.0,
                    old(self).current_pos.1,
                    old(self).current_pos.0,
                    old(self).current_pos.1,
                ]
            } else {
                seq![
                    old(self).uniforms.mouse@[0],
                    old(self).uniforms.mouse@[1],
                    negative(old(self).click_pos.0),
                    negative(old(self).click_pos.1),
                ]
            }),
    {
        self.mouse_down = down;
        if down {
            self.click_pos = self.current_pos;
            self.uniforms.mouse[0] = self.current_pos.0;
            self.uniforms.mouse[1] = self.current_pos.1;
            self.uniforms.mouse[2] = self.current_pos.0;
            self.uniforms.mouse[3] = self.current_pos.1;
        } else {
            self.uniforms.mouse[2] = make_negative(self.click_pos.0);
            self.uniforms.mouse[3] = make_negative(self.click_pos.1);
        }
    }

    /// Begins a frame: by the clock, or by the time of a capture, which goes on in
    /// steps of a sixtieth of a second.
    pub fn update_global_only(&mut self, clock: FrameClock)
        requires
            old(self).uniforms.frame < i32::MAX,
        ensures
            begun(*final(self), *old(self), clock),
    {
        match self.headless_time {
            Some(t) => {
                self.uniforms.time = t;
                self.uniforms.time_delta = Bits32(SIXTIETH_BITS);
                self.uniforms.frame_rate = Bits32(SIXTY_BITS);
            },
            None => {
                self.uniforms.time = clock.elapsed;
                self.uniforms.time_delta = clock.delta;
                self.uniforms.frame_rate = clock.rate;
                self.uniforms.date = clock.date;
            },
        }
        self.uniforms.frame = self.uniforms.frame + 1;
    }
}

/// A frame is one further than the last, at the time of the clock, or of a capture; of
/// everything else nothing changes.
pub proof fn law_frames_follow_the_clock(after: UniformState, before: UniformState, clock: FrameClock)
    requires
        begun(after, before, clock),
    ensures
        after.uniforms.frame == before.uniforms.frame + 1,
        before.headless_time is None ==> after.uniforms.time == clock.elapsed && after.uniforms.time_delta
            == clock.delta && after.uniforms.frame_rate == clock.rate && after.uniforms.date == clock.date,
        before.headless_time matches Some(t) ==> after.uniforms.time == t && after.uniforms.time_delta == Bits32(
            0x3c88_8889,
        ) && after.uniforms.frame_rate == Bits32(0x4270_0000) && after.uniforms.date == before.uniforms.date,
        after.uniforms.resolution == before.uniforms.resolution,
        after.uniforms.sample_rate == before.uniforms.sample_rate,
        after.uniforms.mouse == before.uniforms.mouse,
        after.uniforms.channel_time == before.uniforms.channel_time,
        after.uniforms.channel_resolution == before.uniforms.channel_resolution,
        after.uniforms.global_resolution == before.uniforms.global_resolution,
        after.uniforms.monitor_offset == before.uniforms.monitor_offset,
        after.uniforms.opacity == before.uniforms.opacity,
        after.uniforms.blend_mode == before.uniforms.blend_mode,
        after.headless_time == before.headless_time,
        after.mouse_down == before.mouse_down,
        after.click_pos == before.click_pos,
        after.current_pos == before.current_pos,
{
}

/// The numbers that the uniforms start with.
pub proof fn law_numbers_have_their_bits()
    ensures
        SIXTY_BITS == 0x4270_0000,
        SIXTIETH_BITS == 0x3c88_8889,
        FIRST_DELTA_BITS == 0x3c83_126f,
        SAMPLE_RATE_BITS == 0x472c_4400,
        UNIT_BITS == 0x3f80_0000,
{
}

} // verus!
