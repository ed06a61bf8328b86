//! System audio for audio-reactive shaders: the samples that are kept, when audio is
//! captured, and the texture that shaders read.
use std::collections::VecDeque;
use vstd::prelude::*;
use crate::manifest::Bits32;

verus! {

/// Width of the audio texture.
pub const TEX_WIDTH: u32 = 512;

/// Height of the audio texture: a row of frequencies and a row of samples.
pub const TEX_HEIGHT: u32 = 2;

/// How many samples a spectrum is computed from.
pub const FFT_SIZE: usize = 1024;

/// How many samples are kept.
pub const RING_CAP: usize = 8192;

/// How long after the last request capturing stops, in milliseconds.
pub const IDLE_STOP_MS: u64 = 2000;

/// How long a texture is kept before it is computed again, in milliseconds.
pub const FRESH_MS: u64 = 12;

/// The latest mono samples, oldest first.
pub struct AudioRing {
    pub samples: VecDeque<Bits32>,
}

/// The last `n` items of a list, or all of them if there are fewer.
pub open spec fn newest(s: Seq<Bits32>, n: int) -> Seq<Bits32> {
    if s.len() <= n {
        s
    } else {
        s.subrange(s.len() - n, s.len() as int)
    }
}

/// The sample at the given place, or silence.
pub open spec fn sample_or_zero(s: Seq<Bits32>, i: int) -> Bits32 {
    if 0 <= i < s.len() {
        s[i]
    } else {
        Bits32(0)
    }
}

/// Where the last `n` items of a list of the given length begin.
pub open spec fn start_of_newest(len: int, n: int) -> int {
    if len <= n {
        0
    } else {
        len - n
    }
}

impl AudioRing {
    /// No more samples than are kept.
    pub open spec fn wf(self) -> bool {
        self.samples@.len() <= RING_CAP
    }

    /// A ring without samples.
    pub fn new() -> (r: AudioRing)
        ensures
            r.wf(),
            r.samples@ == Seq::<Bits32>::empty(),
    {
        AudioRing { samples: VecDeque::new() }
    }

    /// Adds samples; the oldest make room.
    pub fn push(&mut self, frame: &Vec<Bits32>)
        requires
            old(self).wf(),
        ensures
            final(self).wf(),
            final(self).samples@ == newest(old(self).samples@ + frame@, RING_CAP as int),
    {
        let ghost before = self.samples@;
        let mut i: usize = 0;
        assert(before + frame@.subrange(0, 0) =~= before);
        while i < frame.len()
            invariant
                i <= frame.len(),
                self.wf(),
                self.samples@ == newest(before + frame@.subrange(0, i as int), RING_CAP as int),
            decreases frame.len() - i,
        {
            let ghost all = before + frame@.subrange(0, i as int);
            let m = frame[i];
            if self.samples.len() >= RING_CAP {
                self.samples.pop_front();
            }
            self.samples.push_back(m);
            assert(before + frame@.subrange(0, i + 1) =~= all.push(m));
            i = i + 1;
            assert(self.samples@ =~= newest(all.push(m), RING_CAP as int));
        }
        assert(frame@.subrange(0, i as int) =~= frame@);
    }

    /// Forgets all samples.
    pub fn clear(&mut self)
        ensures
            final(self).wf(),
            final(self).samples@ == Seq::<Bits32>::empty(),
    {
        self.samples = VecDeque::new();
    }

    /// `count` samples from `start` on, with silence where there is none.
    fn window(&self, start: usize, count: usize) -> (r: Vec<Bits32>)
        requires
            start + count <= usize::MAX,
        ensures
            r@.len() == count,
            forall|i: int| 0 <= i < count ==> #[trigger] r@[i] == sample_or_zero(self.samples@, start + i),
    {
        let mut r: Vec<Bits32> = Vec::new();
        while r.len() < count
            invariant
                r@.len() <= count,
                start + count <= usize::MAX,
                forall|i: int|
                    0 <= i < r@.len() ==> #[trigger] r@[i] == sample_or_zero(self.samples@, start + i),
            decreases count - r.len(),
        {
            let i: usize = start + r.len();
            if i < self.samples.len() {
                r.push(self.samples[i]);
            } else {
                r.push(Bits32(0));
            }
        }
        r
    }

    /// The samples that the spectrum is computed from: the latest, oldest first, and
    /// silence behind them where there are not enough.
    pub fn spectrum_input(&self) -> (r: Vec<Bits32>)
        requires
            self.wf(),
        ensures
            r@.len() == FFT_SIZE,
            forall|i: int|
                0 <= i < FFT_SIZE ==> #[trigger] r@[i] == sample_or_zero(
                    self.samples@,
                    start_of_newest(self.samples@.len() as int, FFT_SIZE as int) + i,
                ),
    {
        let len: usize = self.samples.len();
        let start: usize = if len <= FFT_SIZE { 0 } else { len - FFT_SIZE };
        self.window(start, FFT_SIZE)
    }

    /// The samples of the waveform: the latest, oldest first, and silence behind them
    /// where there are not enough.
    pub fn waveform(&self) -> (r: Vec<Bits32>)
        requires
            self.wf(),
        ensures
            r@.len() == TEX_WIDTH,
            forall|i: int|
                0 <= i < TEX_WIDTH ==> #[trigger] r@[i] == sample_or_zero(
                    self.samples@,
                    start_of_newest(self.samples@.len() as int, TEX_WIDTH as int) + i,
                ),
    {
        let bins: usize = TEX_WIDTH as usize;
        let len: usize = self.samples.len();
        let start: usize = if len <= bins { 0 } else { len - bins };
        self.window(start, bins)
    }
}

/// Whether samples come one by one or together makes no difference to what the ring
/// holds, which is never more than its size.
pub proof fn law_batches_make_no_difference(s: Seq<Bits32>, a: Seq<Bits32>, b: Seq<Bits32>)
    ensures
        newest(newest(s + a, RING_CAP as int) + b, RING_CAP as int) == newest(s + (a + b), RING_CAP as int),
        newest(s + a, RING_CAP as int).len() <= RING_CAP,
{
    let cap = RING_CAP as int;
    let all = s + (a + b);
    let part = newest(s + a, cap);
    assert(all =~= s + a + b);
    assert(newest(part + b, cap) =~= newest(all, cap));
}

// ---------------------------------------------------------------------------
// The texture
// ---------------------------------------------------------------------------

/// A gray pixel, byte by byte.
pub open spec fn gray_byte(v: u8, c: int) -> u8 {
    if c == 3 {
        255
    } else {
        v
    }
}

/// The bytes of the audio texture: the row of frequencies and the row of samples,
/// each value a gray pixel.
pub open spec fn texture_bytes(spectrum: Seq<u8>, wave: Seq<u8>) -> Seq<u8> {
    let row = spectrum + wave;
    Seq::new(row.len() * 4, |i: int| gray_byte(row[i / 4], i % 4))
}

fn push_gray(tex: &mut Vec<u8>, v: u8)
    ensures
        final(tex)@ == old(tex)@ + seq![v, v, v, 255],
{
    tex.push(v);
    tex.push(v);
    tex.push(v);
    tex.push(255);
    assert(tex@ =~= old(tex)@ + seq![v, v, v, 255]);
}

/// The audio texture, from a byte for each frequency and each sample.
pub fn texture_rgba(spectrum: &Vec<u8>, wave: &Vec<u8>) -> (tex: Vec<u8>)
    requires
        spectrum@.len() == TEX_WIDTH,
        wave@.len() == TEX_WIDTH,
    ensures
        tex@ == texture_bytes(spectrum@, wave@),
        tex@.len() == TEX_WIDTH * TEX_HEIGHT * 4,
{
    let mut tex: Vec<u8> = Vec::new();
    let ghost row = spectrum@ + wave@;
    let bins: usize = TEX_WIDTH as usize;
    let mut i: usize = 0;
    while i < 2 * bins
        invariant
            bins == TEX_WIDTH,
            spectrum@.len() == bins,
            wave@.len() == bins,
            i <= 2 * bins,
            row == spectrum@ + wave@,
            tex@.len() == i * 4,
            forall|k: int| 0 <= k < i * 4 ==> #[trigger] tex@[k] == gray_byte(row[k / 4], k % 4),
        decreases 2 * bins - i,
    {
        let v: u8 = if i < bins { spectrum[i] } else { wave[i - bins] };
        assert(v == row[i as int]);
        push_gray(&mut tex, v);
        i = i + 1;
    }
    assert(tex@ =~= texture_bytes(spectrum@, wave@));
    tex
}

/// The texture of silence.
pub fn silent_texture() -> (tex: Vec<u8>)
    ensures
        tex@.len() == TEX_WIDTH * TEX_HEIGHT * 4,
        forall|i: int| 0 <= i < tex@.len() ==> #[trigger] tex@[i] == 0,
{
    let n: usize = (TEX_WIDTH * TEX_HEIGHT * 4) as usize;
    let mut tex: Vec<u8> = Vec::new();
    while tex.len() < n
        invariant
            tex@.len() <= n,
            forall|i: int| 0 <= i < tex@.len() ==> #[trigger] tex@[i] == 0,
        decreases n - tex.len(),
    {
        tex.push(0);
    }
    tex
}

/// Whether the texture has to be computed again; times are in milliseconds.
pub fn is_stale(last_compute: Option<u64>, now: u64) -> (r: bool)
    ensures
        r == (match last_compute {
            Some(t) => now - t >= FRESH_MS,
            None => true,
        }),
{
    match last_compute {
        Some(t) => now >= t && now - t >= FRESH_MS,
        None => true,
    }
}

// ---------------------------------------------------------------------------
// Capturing
// ---------------------------------------------------------------------------

/// Whether audio is wanted: somebody asked for it lately. Times are milliseconds
/// since the engine was made, and zero means that nobody asked.
pub open spec fn wanted(last_request: u64, now: u64) -> bool {
    last_request > 0 && now - last_request < IDLE_STOP_MS
}

/// What the capture thread does next.
#[derive(Clone, Copy, PartialEq, Eq, Structural)]
pub enum CaptureAction {
    /// Open the audio stream.
    Open,
    /// Close the audio stream and forget what was captured.
    Close,
    /// Leave things as they are.
    Keep,
}

/// The state of the capture thread.
#[derive(Clone, Copy, PartialEq, Eq, Structural)]
pub struct Capture {
    /// Whether an audio stream is open.
    pub open: bool,
    /// Whether a failure was reported since the last stream was open.
    pub warned: bool,
}

impl Capture {
    /// A capture thread without a stream.
    pub fn new() -> (c: Capture)
        ensures
            !c.open,
            !c.warned,
    {
        Capture { open: false, warned: false }
    }

    /// What to do at the given time: a stream is open as long as audio is wanted.
    pub fn run_capture(&mut self, last_request: u64, now: u64) -> (a: CaptureAction)
        ensures
            a == (if wanted(last_request, now) && !old(self).open {
                CaptureAction::Open
            } else if !wanted(last_request, now) && old(self).open {
                CaptureAction::Close
            } else {
                CaptureAction::Keep
            }),
            final(self).open == (old(self).open && wanted(last_request, now)),
            final(self).warned == old(self).warned,
    {
        let is_wanted: bool = last_request > 0 && (now <= last_request || now - last_request < IDLE_STOP_MS);
        if is_wanted && !self.open {
            CaptureAction::Open
        } else if !is_wanted && self.open {
            self.open = false;
            CaptureAction::Close
        } else {
            CaptureAction::Keep
        }
    }

    /// Takes in whether the stream could be opened, and tells whether a failure is
    /// reported: only the first one is.
    pub fn opened(&mut self, ok: bool) -> (report: bool)
        ensures
            ok ==> final(self).open && !final(self).warned,
            !ok ==> final(self).open == old(self).open && final(self).warned,
            report == (!ok && !old(self).warned),
    {
        if ok {
            self.open = true;
            self.warned = false;
            false
        } else {
            let report = !self.warned;
            self.warned = true;
            report
        }
    }
}

// ---------------------------------------------------------------------------
// What can be relied on
// ---------------------------------------------------------------------------

/// What is kept of a list are its last items, and all where there are not more.
pub proof fn law_last_samples_are_kept(older: Seq<Bits32>, s: Seq<Bits32>, more: int)
    requires
        more >= 0,
    ensures
        newest(older + s, s.len() as int) == s,
        newest(s, s.len() + more) == s,
        start_of_newest((older + s).len() as int, s.len() as int) == older.len(),
        start_of_newest(s.len() as int, s.len() + more) == 0,
{
    let all = older + s;
    if older.len() > 0 {
        assert(all.subrange(all.len() - s.len(), all.len() as int) =~= s);
    } else {
        assert(all =~= s);
    }
}

/// There is silence before and behind the samples.
pub proof fn law_there_is_silence_around(s: Seq<Bits32>, i: int)
    ensures
        0 <= i < s.len() ==> sample_or_zero(s, i) == s[i],
        i < 0 || i >= s.len() ==> sample_or_zero(s, i) == Bits32(0),
{
}

/// The first row of the texture is the spectrum and the second the waveform, each value
/// an opaque gray pixel.
pub proof fn law_texture_has_two_rows(spectrum: Seq<u8>, wave: Seq<u8>, i: int, c: int)
    requires
        0 <= c < 4,
    ensures
        texture_bytes(spectrum, wave).len() == 4 * spectrum.len() + 4 * wave.len(),
        0 <= i < spectrum.len() ==> texture_bytes(spectrum, wave)[4 * i + c] == (if c == 3 {
            255u8
        } else {
            spectrum[i]
        }),
        0 <= i < wave.len() ==> texture_bytes(spectrum, wave)[4 * spectrum.len() + 4 * i + c] == (if c == 3 {
            255u8
        } else {
            wave[i]
        }),
        TEX_WIDTH == 512,
        TEX_HEIGHT == 2,
        FFT_SIZE == 2 * TEX_WIDTH,
        RING_CAP == 8192,
        FRESH_MS == 12,
{
    if 0 <= i < wave.len() {
        let at = 4 * spectrum.len() + 4 * i + c;
        assert(at / 4 == spectrum.len() + i);
        assert(at % 4 == c);
    }
}

/// Audio is wanted for two seconds after it was asked for, and not before it ever was.
pub proof fn law_audio_is_wanted_for_a_while(asked: u64, now: u64)
    ensures
        !wanted(0, now),
        asked > 0 && now - asked < 2000 ==> wanted(asked, now),
        now - asked >= 2000 ==> !wanted(asked, now),
{
}

/// No more samples are kept than fit.
pub proof fn law_ring_is_never_overfull(r: AudioRing)
    requires
        r.wf(),
    ensures
        r.samples@.len() <= 8192,
{
}

} // verus!
