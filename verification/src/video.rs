//! Decoded video frames, and the course of a decoder.
use vstd::prelude::*;

verus! {

/// A decoded frame in NV12.
pub struct VideoFrame {
    pub width: u32,
    pub height: u32,
    /// One byte of luma for each pixel.
    pub y: Vec<u8>,
    /// Interleaved chroma, for every other row and column.
    pub uv: Vec<u8>,
}

impl VideoFrame {
    /// Both planes are packed without gaps.
    pub open spec fn wf(self) -> bool {
        &&& self.y@.len() == self.width as int * self.height as int
        &&& self.uv@.len() == self.width as int * (self.height as int / 2)
    }
}

/// A source of decoded frames.
pub trait VideoDecoder: Send {
    /// The width and height of the video in pixels.
    fn dimensions(&self) -> (u32, u32);

    /// The latest frame, if there is a new one since the last call.
    fn next_frame(&mut self) -> Option<VideoFrame>;
}

/// The width and height in a packed frame size: the width is in the upper half.
pub fn frame_size(packed: u64) -> (r: (u32, u32))
    ensures
        r.0 == packed / 0x1_0000_0000,
        r.1 == packed % 0x1_0000_0000,
{
    ((packed / 0x1_0000_0000) as u32, (packed % 0x1_0000_0000) as u32)
}

/// The bytes from row to row: the size of the stride that a decoder reports, a
/// signed number in 32 bits, or the width where it reports none.
pub open spec fn row_step(reported: Option<u32>, width: u32) -> u32 {
    match reported {
        Some(s) => if s < 0x8000_0000 {
            s
        } else {
            (0x1_0000_0000 - s) as u32
        },
        None => width,
    }
}

/// The bytes from row to row.
pub fn stride_of(reported: Option<u32>, width: u32) -> (r: u32)
    ensures
        r == row_step(reported, width),
{
    match reported {
        Some(s) => if s < 0x8000_0000 {
            s
        } else {
            (0x1_0000_0000u64 - s as u64) as u32
        },
        None => width,
    }
}

/// A row of a plane: `w` bytes from `start`, or zeros where the buffer ends before.
pub open spec fn row_bytes(src: Seq<u8>, start: int, w: int) -> Seq<u8> {
    if start + w <= src.len() {
        src.subrange(start, start + w)
    } else {
        Seq::new(w as nat, |i: int| 0u8)
    }
}

/// The first `n` rows of a plane that begins at `base`.
pub open spec fn plane(src: Seq<u8>, base: int, stride: int, w: int, n: nat) -> Seq<u8>
    decreases n,
{
    if n == 0 {
        Seq::empty()
    } else {
        plane(src, base, stride, w, (n - 1) as nat) + row_bytes(src, base + (n - 1) * stride, w)
    }
}

/// The number of rows of the luma plane in the buffer: a decoder may code more rows
/// than it shows.
pub open spec fn coded_height(len: int, stride: int, h: int) -> int {
    if stride > 0 && len / stride * 2 / 3 > h {
        len / stride * 2 / 3
    } else {
        h
    }
}

fn copy_plane(src: &Vec<u8>, base: u128, stride: u32, w: u32, n: u32) -> (out: Vec<u8>)
    requires
        base <= 0x1_0000_0000_0000_0000_0000_0000,
    ensures
        out@ == plane(src@, base as int, stride as int, w as int, n as nat),
{
    let mut out: Vec<u8> = Vec::new();
    let mut row: u32 = 0;
    while row < n
        invariant
            base <= 0x1_0000_0000_0000_0000_0000_0000,
            row <= n,
            out@ == plane(src@, base as int, stride as int, w as int, row as nat),
        decreases n - row,
    {
        let ghost done = out@;
        proof {
            assert(0 <= row * stride <= 0xffff_ffff * 0xffff_ffff) by (nonlinear_arith)
                requires
                    0 <= row <= 0xffff_ffff,
                    0 <= stride <= 0xffff_ffff,
            ;
        }
        let start: u128 = base + row as u128 * stride as u128;
        let inside: bool = start + w as u128 <= src.len() as u128;
        let mut i: u32 = 0;
        while i < w
            invariant
                i <= w,
                inside == (start + w <= src@.len()),
                src@.len() <= usize::MAX,
                out@ == done + row_bytes(src@, start as int, w as int).subrange(0, i as int),
            decreases w - i,
        {
            let b: u8 = if inside { src[start as usize + i as usize] } else { 0 };
            out.push(b);
            assert(row_bytes(src@, start as int, w as int)[i as int] == b);
            i = i + 1;
            assert(out@ =~= done + row_bytes(src@, start as int, w as int).subrange(0, i as int));
        }
        assert(row_bytes(src@, start as int, w as int).subrange(0, w as int) =~= row_bytes(
            src@,
            start as int,
            w as int,
        ));
        row = row + 1;
    }
    out
}

/// A frame, out of the buffer of a decoder whose rows are `stride` bytes apart: the
/// luma plane stands first, with as many rows as are coded, and the chroma plane
/// behind it.
pub fn unpack_frame(src: &Vec<u8>, width: u32, height: u32, stride: u32) -> (f: VideoFrame)
    ensures
        f.width == width,
        f.height == height,
        f.y@ == plane(src@, 0, stride as int, width as int, height as nat),
        f.uv@ == plane(
            src@,
            stride * coded_height(src@.len() as int, stride as int, height as int),
            stride as int,
            width as int,
            (height / 2) as nat,
        ),
{
    let y = copy_plane(src, 0, stride, width, height);
    let len: u128 = src.len() as u128;
    let mut coded: u128 = height as u128;
    if stride > 0 {
        let fits: u128 = len / stride as u128 * 2 / 3;
        if fits > coded {
            coded = fits;
        }
    }
    assert(len == src@.len());
    assert(coded == coded_height(src@.len() as int, stride as int, height as int));
    proof {
        assert(coded <= 0xffff_ffff_ffff_ffff) by {
            if stride > 0 {
                assert(len / (stride as u128) <= len) by (nonlinear_arith)
                    requires
                        stride > 0,
                ;
            }
        }
        assert(0 <= stride * coded <= 0x1_0000_0000_0000_0000_0000_0000) by (nonlinear_arith)
            requires
                0 <= stride <= 0xffff_ffff,
                0 <= coded <= 0xffff_ffff_ffff_ffff,
        ;
    }
    let base: u128 = stride as u128 * coded;
    let uv = copy_plane(src, base, stride, width, height / 2);
    VideoFrame { width, height, y, uv }
}

proof fn lemma_plane(src: Seq<u8>, base: int, stride: int, w: int, n: nat)
    requires
        0 <= w,
        0 <= base,
        0 <= stride,
    ensures
        plane(src, base, stride, w, n).len() == w * n,
    decreases n,
{
    if n > 0 {
        lemma_plane(src, base, stride, w, (n - 1) as nat);
        assert(w * (n - 1) + w == w * n) by (nonlinear_arith);
        assert(0 <= (n - 1) * stride) by (nonlinear_arith)
            requires
                0 <= n - 1,
                0 <= stride,
        ;
        assert(row_bytes(src, base + (n - 1) * stride, w).len() == w);
    } else {
        assert(w * 0 == 0) by (nonlinear_arith);
    }
}

/// However short the buffer is, both planes have their full size.
pub proof fn law_frames_are_whole(src: Seq<u8>, f: VideoFrame, base: int, stride: int)
    requires
        0 <= base,
        0 <= stride,
        f.y@ == plane(src, 0, stride, f.width as int, f.height as nat),
        f.uv@ == plane(src, base, stride, f.width as int, (f.height / 2) as nat),
    ensures
        f.wf(),
{
    lemma_plane(src, 0, stride, f.width as int, f.height as nat);
    lemma_plane(src, base, stride, f.width as int, (f.height / 2) as nat);
}

// ---------------------------------------------------------------------------
// The course of a decoder
// ---------------------------------------------------------------------------

/// What came of a read from the clip.
#[derive(Clone, Copy, PartialEq, Eq, Structural)]
pub enum ReadResult {
    Failed,
    EndOfStream,
    /// Nothing was read; the clip goes on.
    Gap,
    /// A frame, with its time in units of 100 ns.
    Sample(i64),
}

/// What a decoder does next.
#[derive(Clone, Copy, PartialEq, Eq, Structural)]
pub enum DecodeAction {
    /// Stop decoding.
    Stop,
    /// Open the clip again from the start.
    Reopen,
    /// Read on.
    Continue,
    /// Show the frame when the clock is at `due_ns`; `restart` says whether the
    /// clock starts now.
    Show { due_ns: u64, restart: bool },
}

/// The state of a decoder that keeps the pace of its clip.
#[derive(Clone, Copy, PartialEq, Eq, Structural)]
pub struct DecodeLoop {
    /// The time of the first frame since the clip was opened.
    pub base: Option<i64>,
}

/// How long after the first frame a frame is due, in nanoseconds.
pub open spec fn due(base: i64, timestamp: i64) -> int {
    if timestamp > base {
        (timestamp - base) * 100
    } else {
        0
    }
}

impl DecodeLoop {
    /// A decoder that has just opened its clip.
    pub fn new() -> (d: DecodeLoop)
        ensures
            d.base is None,
    {
        DecodeLoop { base: None }
    }

    /// What to do after a read. The first frame starts the clock, and each frame is
    /// due as long after it as the clip says.
    pub fn decode_loop(&mut self, read: ReadResult) -> (a: DecodeAction)
        requires
            old(self).base matches Some(b) && read matches ReadResult::Sample(t) ==> due(b, t) <= u64::MAX,
        ensures
            match read {
                ReadResult::Failed => a == DecodeAction::Stop && *final(self) == *old(self),
                ReadResult::EndOfStream => a == DecodeAction::Reopen && *final(self) == *old(self),
                ReadResult::Gap => a == DecodeAction::Continue && *final(self) == *old(self),
                ReadResult::Sample(t) => match old(self).base {
                    Some(b) => a == (DecodeAction::Show { due_ns: due(b, t) as u64, restart: false })
                        && *final(self) == *old(self),
                    None => a == (DecodeAction::Show { due_ns: 0, restart: true }) && final(self).base
                        == Some(t),
                },
            },
    {
        match read {
            ReadResult::Failed => DecodeAction::Stop,
            ReadResult::EndOfStream => DecodeAction::Reopen,
            ReadResult::Gap => DecodeAction::Continue,
            ReadResult::Sample(t) => match self.base {
                Some(b) => {
                    let late: i128 = t as i128 - b as i128;
                    let due_ns: u64 = if late > 0 { (late as u64) * 100 } else { 0 };
                    DecodeAction::Show { due_ns, restart: false }
                },
                None => {
                    self.base = Some(t);
                    DecodeAction::Show { due_ns: 0, restart: true }
                },
            },
        }
    }

    /// What to do after the clip was opened again.
    pub fn reopened(&mut self, ok: bool) -> (a: DecodeAction)
        ensures
            ok ==> a == DecodeAction::Continue && final(self).base is None,
            !ok ==> a == DecodeAction::Stop && *final(self) == *old(self),
    {
        if ok {
            self.base = None;
            DecodeAction::Continue
        } else {
            DecodeAction::Stop
        }
    }
}

/// How long to wait for a frame, in nanoseconds.
pub fn wait_for(due_ns: u64, elapsed_ns: u64) -> (r: Option<u64>)
    ensures
        r == (if due_ns > elapsed_ns {
            Some((due_ns - elapsed_ns) as u64)
        } else {
            None
        }),
{
    if due_ns > elapsed_ns {
        Some(due_ns - elapsed_ns)
    } else {
        None
    }
}

/// Frames are shown in the order of their times, and never before the first.
pub proof fn law_frames_keep_their_order(base: i64, earlier: i64, later: i64)
    requires
        earlier <= later,
    ensures
        0 <= due(base, earlier) <= due(base, later),
{
}

// ---------------------------------------------------------------------------
// Showing frames
// ---------------------------------------------------------------------------

/// How a plane of a frame is copied into a texture.
#[derive(Clone, Copy, PartialEq, Eq, Structural)]
pub struct PlaneUpload {
    /// The size of the texture.
    pub width: u32,
    pub height: u32,
    pub bytes_per_row: u32,
    pub rows: u32,
}

/// How the planes of a frame of the given size are copied into textures: the luma as it
/// is, and the chroma as pairs of bytes at half the size.
pub fn plane_uploads(width: u32, height: u32) -> (r: (PlaneUpload, PlaneUpload))
    ensures
        r.0 == (PlaneUpload { width, height, bytes_per_row: width, rows: height }),
        r.1 == (PlaneUpload { width: width / 2, height: height / 2, bytes_per_row: width, rows: height / 2 }),
{
    (
        PlaneUpload { width, height, bytes_per_row: width, rows: height },
        PlaneUpload { width: width / 2, height: height / 2, bytes_per_row: width, rows: height / 2 },
    )
}

/// The rows that are copied are those of the planes: no byte is missing or left over.
pub proof fn law_uploads_fit(f: VideoFrame)
    requires
        f.wf(),
    ensures
        f.width as int * f.height as int == f.y@.len(),
        f.width as int * (f.height / 2) as int == f.uv@.len(),
        2 * (f.width / 2) <= f.width,
{
}

/// The size of the surface of a window, which has at least one pixel each way.
pub fn surface_extent(size: (u32, u32)) -> (r: (u32, u32))
    ensures
        r.0 == (if size.0 < 1 {
            1
        } else {
            size.0
        }),
        r.1 == (if size.1 < 1 {
            1
        } else {
            size.1
        }),
{
    (
        if size.0 < 1 {
            1
        } else {
            size.0
        },
        if size.1 < 1 {
            1
        } else {
            size.1
        },
    )
}

// ---------------------------------------------------------------------------
// What can be relied on
// ---------------------------------------------------------------------------

/// The bytes from row to row are the size of the stride that is reported, whether rows go
/// down or up, or the width where none is.
pub proof fn law_strides_have_no_sign(n: u32, width: u32)
    ensures
        n < 0x8000_0000 ==> row_step(Some(n), width) == n,
        0 < n <= 0x8000_0000 ==> row_step(Some((0x1_0000_0000 - n) as u32), width) == n,
        row_step(None, width) == width,
{
}

/// A pixel of a plane is the byte in its row and column; rows that the buffer does not
/// hold are zero.
pub proof fn law_planes_hold_their_pixels(src: Seq<u8>, base: int, stride: int, w: int, n: nat, row: int, x: int)
    requires
        0 <= base,
        0 <= stride,
        0 <= row < n,
        0 <= x < w,
    ensures
        plane(src, base, stride, w, n).len() == n * w,
        0 <= row * w + x < n * w,
        plane(src, base, stride, w, n)[row * w + x] == (if base + row * stride + w <= src.len() {
            src[base + row * stride + x]
        } else {
            0
        }),
    decreases n,
{
    lemma_plane_length(src, base, stride, w, n);
    assert(row * w + x < n * w) by (nonlinear_arith)
        requires
            0 <= row < n,
            0 <= x < w,
    ;
    assert(0 <= row * w) by (nonlinear_arith)
        requires
            0 <= row,
            0 < w,
    ;
    assert(0 <= row * stride) by (nonlinear_arith)
        requires
            0 <= row,
            0 <= stride,
    ;
    let m = (n - 1) as nat;
    lemma_plane_length(src, base, stride, w, m);
    let before = plane(src, base, stride, w, m);
    let last = row_bytes(src, base + m * stride, w);
    if row < m {
        law_planes_hold_their_pixels(src, base, stride, w, m, row, x);
        assert((before + last)[row * w + x] == before[row * w + x]);
    } else {
        assert(row == m);
        assert(before.len() == row * w);
        assert((before + last)[row * w + x] == last[x]);
    }
}

proof fn lemma_plane_length(src: Seq<u8>, base: int, stride: int, w: int, n: nat)
    requires
        0 <= base,
        0 <= stride,
        0 <= w,
    ensures
        plane(src, base, stride, w, n).len() == n * w,
    decreases n,
{
    if n > 0 {
        lemma_plane_length(src, base, stride, w, (n - 1) as nat);
        assert(0 <= (n - 1) * stride) by (nonlinear_arith)
            requires
                0 < n,
                0 <= stride,
        ;
        assert((n - 1) * w + w == n * w) by (nonlinear_arith);
    } else {
        assert(n * w == 0) by (nonlinear_arith)
            requires
                n == 0,
        ;
    }
}

/// Where the buffer holds an even number of luma rows and half as many of chroma, the
/// luma plane has as many rows as are coded, or as are shown where that is more.
pub proof fn law_coded_rows_are_found(half: int, stride: int, h: int)
    requires
        0 <= half,
        0 < stride,
    ensures
        2 * half >= h ==> coded_height(stride * (3 * half), stride, h) == 2 * half,
        2 * half <= h ==> coded_height(stride * (3 * half), stride, h) == h,
        coded_height(stride * (3 * half), 0, h) == h,
{
    let len = stride * (3 * half);
    assert(len / stride == 3 * half) by (nonlinear_arith)
        requires
            len == stride * (3 * half),
            stride > 0,
    ;
}

/// A frame is due as long after the first one as its time says, in steps of a hundred
/// nanoseconds; one before the first is due at once.
pub proof fn law_frames_are_due_in_time(base: i64, later: i64)
    ensures
        later >= base ==> due(base, later) == 100 * (later - base),
        later < base ==> due(base, later) == 0,
{
}

} // verus!
