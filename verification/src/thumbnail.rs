//! How a thumbnail is rendered and read back.
use vstd::prelude::*;

verus! {

/// How many frames are rendered before the one that is kept.
pub const FRAMES: u32 = 40;

/// What the length of a row must be a multiple of, in bytes, where a texture is
/// copied to a buffer.
pub const ROW_ALIGNMENT: u32 = 256;

/// The layout of a texture that was copied to a buffer.
#[derive(Clone, Copy, PartialEq, Eq, Structural)]
pub struct Readback {
    pub width: u32,
    pub height: u32,
    /// The bytes of a row of pixels.
    pub unpadded: u32,
    /// The bytes of a row in the buffer.
    pub padded: u32,
}

/// The next multiple of the row alignment.
pub open spec fn aligned(n: int) -> int {
    (n + ROW_ALIGNMENT - 1) / (ROW_ALIGNMENT as int) * ROW_ALIGNMENT
}

/// A side of a thumbnail: at least one pixel.
pub open spec fn side(n: u32) -> u32 {
    if n == 0 {
        1
    } else {
        n
    }
}

impl Readback {
    /// Rows are as long as their pixels, rounded up to the alignment.
    pub open spec fn wf(self) -> bool {
        &&& self.width > 0
        &&& self.height > 0
        &&& self.unpadded == self.width * 4
        &&& self.padded == aligned(self.unpadded as int)
    }
}

/// The layout for a thumbnail of the given size; a side of zero becomes one.
pub fn generate_thumbnail(width: u32, height: u32) -> (r: Readback)
    requires
        width <= 0x3fff_ff00,
    ensures
        r.wf(),
        r.width == side(width),
        r.height == side(height),
{
    let w: u32 = if width == 0 { 1 } else { width };
    let h: u32 = if height == 0 { 1 } else { height };
    let unpadded: u32 = w * 4;
    let padded: u32 = (unpadded + (ROW_ALIGNMENT - 1)) / ROW_ALIGNMENT * ROW_ALIGNMENT;
    Readback { width: w, height: h, unpadded, padded }
}

/// The place in the buffer of a byte of a row of pixels.
pub open spec fn source_of(r: Readback, row: int, at: int) -> int {
    row * r.padded + at
}

/// The place in the image of a byte of a row of pixels.
pub open spec fn target_of(r: Readback, row: int, at: int) -> int {
    row * r.unpadded + at
}

proof fn lemma_rows(r: Readback, row: int, at: int)
    requires
        r.wf(),
        0 <= row < r.height,
        0 <= at < r.unpadded,
    ensures
        0 <= source_of(r, row, at) < r.height * r.padded,
        0 <= target_of(r, row, at) < r.height * r.unpadded,
        r.unpadded <= r.padded,
{
    assert(r.unpadded <= r.padded);
    assert(0 <= row * r.padded + at < r.height * r.padded && 0 <= row * r.unpadded + at < r.height
        * r.unpadded) by (nonlinear_arith)
        requires
            0 <= row < r.height,
            0 <= at < r.unpadded <= r.padded,
    ;
}

/// The bytes of the first `n` rows of pixels, without what fills the rows of the
/// buffer up.
pub open spec fn tight(r: Readback, data: Seq<u8>, n: nat) -> Seq<u8>
    decreases n,
{
    if n == 0 {
        Seq::empty()
    } else {
        tight(r, data, (n - 1) as nat) + data.subrange((n - 1) * r.padded, (n - 1) * r.padded + r.unpadded)
    }
}

/// The pixels of a texture that was copied to a buffer.
pub fn strip_rows(r: Readback, data: &Vec<u8>) -> (rgba: Vec<u8>)
    requires
        r.wf(),
        data@.len() == r.padded * r.height,
    ensures
        rgba@ == tight(r, data@, r.height as nat),
{
    let mut rgba: Vec<u8> = Vec::new();
    let mut row: u32 = 0;
    let n: usize = data.len();
    while row < r.height
        invariant
            r.wf(),
            n == data@.len(),
            data@.len() == r.padded * r.height,
            row <= r.height,
            rgba@ == tight(r, data@, row as nat),
        decreases r.height - row,
    {
        proof {
            lemma_rows(r, row as int, 0);
            lemma_rows(r, row as int, r.unpadded - 1);
            assert(r.height * r.padded == r.padded * r.height) by (nonlinear_arith);
        }
        let start: usize = row as usize * r.padded as usize;
        let ghost done = rgba@;
        let mut i: usize = 0;
        while i < r.unpadded as usize
            invariant
                i <= r.unpadded,
                start == row * r.padded,
                start + r.unpadded <= data@.len(),
                n == data@.len(),
                rgba@ == done + data@.subrange(start as int, start + i),
            decreases r.unpadded - i,
        {
            rgba.push(data[start + i]);
            i = i + 1;
            assert(rgba@ =~= done + data@.subrange(start as int, start + i));
        }
        row = row + 1;
    }
    rgba
}

proof fn lemma_tight(r: Readback, data: Seq<u8>, n: nat, row: int, at: int)
    requires
        r.wf(),
        data.len() == r.padded * r.height,
        n <= r.height,
        0 <= row < n,
        0 <= at < r.unpadded,
    ensures
        tight(r, data, n).len() == n * r.unpadded,
        tight(r, data, n)[target_of(r, row, at)] == data[source_of(r, row, at)],
    decreases n,
{
    lemma_rows(r, n - 1, r.unpadded - 1);
    lemma_rows(r, n - 1, 0);
    lemma_rows(r, row, at);
    assert(r.height * r.padded == r.padded * r.height) by (nonlinear_arith);
    let m = (n - 1) as nat;
    if m > 0 {
        lemma_tight(r, data, m, 0, 0);
    } else {
        assert(0 * r.unpadded == 0) by (nonlinear_arith);
    }
    assert(m * r.unpadded + r.unpadded == n * r.unpadded) by (nonlinear_arith)
        requires
            m == n - 1,
    ;
    let tail = data.subrange((n - 1) * r.padded, (n - 1) * r.padded + r.unpadded);
    assert(tail.len() == r.unpadded);
    assert(tight(r, data, n) == tight(r, data, m) + tail);
    if row < m {
        lemma_tight(r, data, m, row, at);
        assert(row * r.unpadded + at < m * r.unpadded) by (nonlinear_arith)
            requires
                0 <= row < m,
                0 <= at < r.unpadded,
        ;
    } else {
        assert(row == m);
        assert(tight(r, data, n)[m * r.unpadded + at] == tail[at]);
    }
}

/// The image has every byte of every pixel, each at its place, and nothing else.
pub proof fn law_thumbnail_keeps_pixels(r: Readback, data: Seq<u8>, row: int, at: int)
    requires
        r.wf(),
        data.len() == r.padded * r.height,
        0 <= row < r.height,
        0 <= at < r.unpadded,
    ensures
        tight(r, data, r.height as nat).len() == r.height * r.unpadded,
        tight(r, data, r.height as nat)[target_of(r, row, at)] == data[source_of(r, row, at)],
{
    lemma_tight(r, data, r.height as nat, row, at);
}

/// A row in the buffer is no shorter than its pixels, by less than the alignment longer,
/// and a multiple of it; no side is empty.
pub proof fn law_rows_are_aligned(n: int, side_length: u32)
    requires
        n >= 0,
    ensures
        aligned(n) % 256 == 0,
        n <= aligned(n) < n + 256,
        side(0) == 1,
        side_length > 0 ==> side(side_length) == side_length,
        FRAMES == 40,
        ROW_ALIGNMENT == 256,
{
    let k = (n + 255) / 256;
    assert(aligned(n) == k * 256);
    assert((k * 256) % 256 == 0);
}

/// Where the bytes of a row are: row by row in the buffer with what fills it up, and in
/// the image without.
pub proof fn law_rows_follow_each_other(r: Readback, row: int, at: int)
    ensures
        source_of(r, 0, at) == at,
        target_of(r, 0, at) == at,
        source_of(r, row + 1, at) == source_of(r, row, at) + r.padded,
        target_of(r, row + 1, at) == target_of(r, row, at) + r.unpadded,
{
    assert((row + 1) * r.padded == row * r.padded + r.padded) by (nonlinear_arith);
    assert((row + 1) * r.unpadded == row * r.unpadded + r.unpadded) by (nonlinear_arith);
}

/// A pixel has four bytes, and the rows of the buffer hold those of the image.
pub proof fn law_pixels_have_four_bytes(r: Readback)
    requires
        r.wf(),
    ensures
        r.width > 0 && r.height > 0,
        r.unpadded == 4 * r.width,
        r.unpadded <= r.padded < r.unpadded + 256,
        r.padded % 256 == 0,
{
    law_rows_are_aligned(r.unpadded as int, 1);
}

} // verus!
