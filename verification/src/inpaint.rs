//! The masks of the layered parallax mode: foreground, dilation and feathering.
use vstd::prelude::*;

verus! {

/// The input resolution of the inpainting model.
pub const LAMA_SIZE: u32 = 512;

/// A grayscale image, row by row from the top.
pub struct GrayImage {
    pub width: u32,
    pub height: u32,
    pub data: Vec<u8>,
}

/// The place of a pixel in an image of the given width.
pub open spec fn place(width: int, x: int, y: int) -> int {
    y * width + x
}

impl GrayImage {
    /// One byte for each pixel.
    pub open spec fn wf(self) -> bool {
        self.data@.len() == self.width as int * self.height as int
    }

    /// Whether a pixel is in the image.
    pub open spec fn has(self, x: int, y: int) -> bool {
        0 <= x < self.width && 0 <= y < self.height
    }

    /// The pixel in column `x` and row `y`.
    pub open spec fn at(self, x: int, y: int) -> u8 {
        self.data@[place(self.width as int, x, y)]
    }

    /// Whether two images have the same size.
    pub open spec fn same_size(self, other: GrayImage) -> bool {
        self.width == other.width && self.height == other.height
    }

    /// The pixel in column `x` and row `y`.
    pub fn get_pixel(&self, x: u32, y: u32) -> (r: u8)
        requires
            self.wf(),
            self.has(x as int, y as int),
        ensures
            r == self.at(x as int, y as int),
    {
        proof {
            lemma_place(self.width as int, self.height as int, x as int, y as int);
            assert(self.data@.len() == self.data.len());
        }
        self.data[y as usize * self.width as usize + x as usize]
    }

    /// A copy.
    pub fn copy(&self) -> (r: GrayImage)
        ensures
            r.same_size(*self),
            r.data@ == self.data@,
    {
        let mut data: Vec<u8> = Vec::new();
        let mut i: usize = 0;
        while i < self.data.len()
            invariant
                i <= self.data.len(),
                data@ == self.data@.subrange(0, i as int),
            decreases self.data.len() - i,
        {
            data.push(self.data[i]);
            i = i + 1;
            assert(data@ =~= self.data@.subrange(0, i as int));
        }
        assert(self.data@.subrange(0, i as int) =~= self.data@);
        GrayImage { width: self.width, height: self.height, data }
    }
}

/// The place of a pixel is inside the image, and different pixels have different
/// places.
pub proof fn lemma_place(w: int, h: int, x: int, y: int)
    requires
        0 <= x < w,
        0 <= y < h,
    ensures
        0 <= place(w, x, y) < w * h,
        0 <= y * w,
        place(w, x, y) / w == y,
        place(w, x, y) % w == x,
{
    assert(0 <= y * w && y * w + x < w * h) by (nonlinear_arith)
        requires
            0 <= x < w,
            0 <= y < h,
    ;
    vstd::arithmetic::div_mod::lemma_fundamental_div_mod_converse(place(w, x, y), w, y, x);
}

/// Every place is the place of its own column and row.
pub proof fn lemma_unplace(w: int, h: int, i: int)
    requires
        0 <= i < w * h,
        0 <= w,
        0 <= h,
    ensures
        0 < w,
        0 <= i % w < w,
        0 <= i / w < h,
        place(w, i % w, i / w) == i,
{
    assert(0 < w) by (nonlinear_arith)
        requires
            0 <= i < w * h,
            0 <= w,
            0 <= h,
    ;
    vstd::arithmetic::div_mod::lemma_fundamental_div_mod(i, w);
    let q = i / w;
    let m = i % w;
    assert(0 <= m < w);
    assert(i == w * q + m);
    assert(0 <= q < h) by (nonlinear_arith)
        requires
            i == w * q + m,
            0 <= m < w,
            0 <= i < w * h,
    ;
    assert(q * w == w * q) by (nonlinear_arith);
}

// ---------------------------------------------------------------------------
// Dilation
// ---------------------------------------------------------------------------

/// Whether two pixels are at most `r` apart, across and down.
pub open spec fn near(x: int, y: int, x2: int, y2: int, r: int) -> bool {
    x - r <= x2 <= x + r && y - r <= y2 <= y + r
}

/// Whether `v` is the brightest of the pixels of `img` at most `r` away.
pub open spec fn brightest(img: GrayImage, x: int, y: int, r: int, v: u8) -> bool {
    &&& forall|x2: int, y2: int|
        img.has(x2, y2) && near(x, y, x2, y2, r) ==> #[trigger] img.at(x2, y2) <= v
    &&& exists|x2: int, y2: int|
        img.has(x2, y2) && near(x, y, x2, y2, r) && #[trigger] img.at(x2, y2) == v
}

/// Whether `v` is the brightest of the pixels of `img` at most `r` away in its row.
spec fn brightest_in_row(img: GrayImage, x: int, y: int, r: int, v: u8) -> bool {
    &&& forall|x2: int|
        0 <= x2 < img.width && x - r <= x2 <= x + r ==> #[trigger] img.at(x2, y) <= v
    &&& exists|x2: int|
        0 <= x2 < img.width && x - r <= x2 <= x + r && #[trigger] img.at(x2, y) == v
}

/// Whether `v` is the brightest of the pixels of `img` at most `r` away in its
/// column.
spec fn brightest_in_column(img: GrayImage, x: int, y: int, r: int, v: u8) -> bool {
    &&& forall|y2: int|
        0 <= y2 < img.height && y - r <= y2 <= y + r ==> #[trigger] img.at(x, y2) <= v
    &&& exists|y2: int|
        0 <= y2 < img.height && y - r <= y2 <= y + r && #[trigger] img.at(x, y2) == v
}

/// The first of the numbers at most `r` below `x`, and not below zero.
fn window_start(x: u32, r: u32) -> (i: u32)
    ensures
        i as int == (if x >= r {
            x - r
        } else {
            0
        }),
{
    if x >= r {
        x - r
    } else {
        0
    }
}

/// The number behind the last of those at most `r` above `x` and below `n`.
fn window_end(x: u32, r: u32, n: u32) -> (i: u32)
    requires
        x < n,
    ensures
        i as int == (if x + r + 1 < n {
            x + r + 1
        } else {
            n as int
        }),
{
    if r < n - x - 1 {
        x + r + 1
    } else {
        n
    }
}

fn row_brightest(img: &GrayImage, x: u32, y: u32, r: u32) -> (v: u8)
    requires
        img.wf(),
        img.has(x as int, y as int),
    ensures
        brightest_in_row(*img, x as int, y as int, r as int, v),
{
    let mut i: u32 = window_start(x, r);
    let end: u32 = window_end(x, r, img.width);
    let ghost begin = i as int;
    let mut v: u8 = 0;
    let ghost mut at = -1int;
    while i < end
        invariant
            img.wf(),
            img.has(x as int, y as int),
            begin <= i <= end <= img.width,
            0 <= begin <= x < end,
            forall|x2: int| begin <= x2 < i ==> #[trigger] img.at(x2, y as int) <= v,
            i > begin ==> begin <= at < i && img.at(at, y as int) == v,
            i == begin ==> v == 0,
        decreases end - i,
    {
        let p: u8 = img.get_pixel(i, y);
        proof {
            if p > v || i == begin {
                at = i as int;
            }
        }
        if p > v {
            v = p;
        }
        i = i + 1;
    }
    assert(img.at(at, y as int) == v);
    v
}

fn column_brightest(img: &GrayImage, x: u32, y: u32, r: u32) -> (v: u8)
    requires
        img.wf(),
        img.has(x as int, y as int),
    ensures
        brightest_in_column(*img, x as int, y as int, r as int, v),
{
    let mut i: u32 = window_start(y, r);
    let end: u32 = window_end(y, r, img.height);
    let ghost begin = i as int;
    let mut v: u8 = 0;
    let ghost mut at = -1int;
    while i < end
        invariant
            img.wf(),
            img.has(x as int, y as int),
            begin <= i <= end <= img.height,
            0 <= begin <= y < end,
            forall|y2: int| begin <= y2 < i ==> #[trigger] img.at(x as int, y2) <= v,
            i > begin ==> begin <= at < i && img.at(x as int, at) == v,
            i == begin ==> v == 0,
        decreases end - i,
    {
        let p: u8 = img.get_pixel(x, i);
        proof {
            if p > v || i == begin {
                at = i as int;
            }
        }
        if p > v {
            v = p;
        }
        i = i + 1;
    }
    assert(img.at(x as int, at) == v);
    v
}

/// Grows the bright parts of an image by `r` pixels: every pixel becomes the
/// brightest of those at most `r` away, across and down.
pub fn dilate_mask(src: &GrayImage, r: u32) -> (out: GrayImage)
    requires
        src.wf(),
    ensures
        out.wf(),
        out.same_size(*src),
        forall|x: int, y: int|
            src.has(x, y) ==> brightest(*src, x, y, r as int, #[trigger] out.at(x, y)),
{
    let w: u32 = src.width;
    let h: u32 = src.height;
    let mut rows: Vec<u8> = Vec::new();
    let mut i: usize = 0;
    let n: usize = src.data.len();
    while i < n
        invariant
            src.wf(),
            w == src.width,
            h == src.height,
            n == src.data@.len(),
            n == w * h,
            i <= n,
            rows@.len() == i,
            forall|k: int|
                0 <= k < i ==> brightest_in_row(
                    *src,
                    k % (w as int),
                    k / (w as int),
                    r as int,
                    #[trigger] rows@[k],
                ),
        decreases n - i,
    {
        proof {
            lemma_unplace(w as int, h as int, i as int);
        }
        let x: u32 = (i % w as usize) as u32;
        let y: u32 = (i / w as usize) as u32;
        rows.push(row_brightest(src, x, y, r));
        i = i + 1;
    }
    let horiz = GrayImage { width: w, height: h, data: rows };
    assert forall|x: int, y: int| src.has(x, y) implies brightest_in_row(
        *src,
        x,
        y,
        r as int,
        #[trigger] horiz.at(x, y),
    ) by {
        lemma_place(w as int, h as int, x, y);
    }
    let mut data: Vec<u8> = Vec::new();
    let mut j: usize = 0;
    while j < n
        invariant
            horiz.wf(),
            w == horiz.width,
            h == horiz.height,
            n == w * h,
            j <= n,
            data@.len() == j,
            forall|k: int|
                0 <= k < j ==> brightest_in_column(
                    horiz,
                    k % (w as int),
                    k / (w as int),
                    r as int,
                    #[trigger] data@[k],
                ),
        decreases n - j,
    {
        proof {
            lemma_unplace(w as int, h as int, j as int);
        }
        let x: u32 = (j % w as usize) as u32;
        let y: u32 = (j / w as usize) as u32;
        data.push(column_brightest(&horiz, x, y, r));
        j = j + 1;
    }
    let out = GrayImage { width: w, height: h, data };
    assert forall|x: int, y: int| src.has(x, y) implies brightest(
        *src,
        x,
        y,
        r as int,
        #[trigger] out.at(x, y),
    ) by {
        lemma_place(w as int, h as int, x, y);
        let v = out.at(x, y);
        assert(brightest_in_column(horiz, x, y, r as int, v));
        assert forall|x2: int, y2: int| src.has(x2, y2) && near(x, y, x2, y2, r as int) implies
            #[trigger] src.at(x2, y2) <= v by {
            assert(src.has(x, y2));
            assert(horiz.at(x, y2) <= v);
            assert(brightest_in_row(*src, x, y2, r as int, horiz.at(x, y2)));
        }
        let y2 = choose|y2: int|
            0 <= y2 < h && y - r <= y2 <= y + r && #[trigger] horiz.at(x, y2) == v;
        assert(brightest_in_row(*src, x, y2, r as int, horiz.at(x, y2)));
        let x2 = choose|x2: int|
            0 <= x2 < w && x - r <= x2 <= x + r && #[trigger] src.at(x2, y2) == v;
        assert(src.has(x2, y2) && near(x, y, x2, y2, r as int) && src.at(x2, y2) == v);
    }
    out
}

/// The mask value of a depth: on where it is at least `cut`.
pub open spec fn mask_value(depth: u8, cut: u8) -> u8 {
    if depth >= cut {
        255
    } else {
        0
    }
}

/// The mask of the pixels whose depth is at least `cut` (a byte of the depth
/// range), grown by `dilate` pixels.
pub fn foreground_mask(depth: &GrayImage, cut: u8, dilate: u32) -> (out: GrayImage)
    requires
        depth.wf(),
    ensures
        out.wf(),
        out.same_size(*depth),
        forall|x: int, y: int|
            depth.has(x, y) ==> (#[trigger] out.at(x, y) == 255 || out.at(x, y) == 0),
        forall|x: int, y: int|
            depth.has(x, y) ==> (#[trigger] out.at(x, y) == 255 <==> exists|x2: int, y2: int|
                depth.has(x2, y2) && near(x, y, x2, y2, dilate as int) && #[trigger] depth.at(x2, y2)
                    >= cut),
{
    let mut data: Vec<u8> = Vec::new();
    let n: usize = depth.data.len();
    let mut i: usize = 0;
    while i < n
        invariant
            n == depth.data@.len(),
            i <= n,
            data@.len() == i,
            forall|k: int| 0 <= k < i ==> #[trigger] data@[k] == mask_value(depth.data@[k], cut),
        decreases n - i,
    {
        if depth.data[i] >= cut {
            data.push(255);
        } else {
            data.push(0);
        }
        i = i + 1;
    }
    let m = GrayImage { width: depth.width, height: depth.height, data };
    assert forall|x: int, y: int| depth.has(x, y) implies #[trigger] m.at(x, y) == mask_value(
        depth.at(x, y),
        cut,
    ) by {
        lemma_place(depth.width as int, depth.height as int, x, y);
    }
    let out = if dilate > 0 {
        dilate_mask(&m, dilate)
    } else {
        assert forall|x: int, y: int| m.has(x, y) implies brightest(m, x, y, 0, #[trigger] m.at(x, y)) by {
            assert(near(x, y, x, y, 0));
        }
        m.copy()
    };
    assert forall|x: int, y: int| depth.has(x, y) implies brightest(
        m,
        x,
        y,
        dilate as int,
        #[trigger] out.at(x, y),
    ) by {
        assert(m.has(x, y));
        if dilate == 0 {
            assert(out.at(x, y) == m.at(x, y));
        }
    }
    assert forall|x: int, y: int| depth.has(x, y) implies (#[trigger] out.at(x, y) == 255 || out.at(x, y)
        == 0) && (out.at(x, y) == 255 <==> exists|x2: int, y2: int|
        depth.has(x2, y2) && near(x, y, x2, y2, dilate as int) && #[trigger] depth.at(x2, y2) >= cut) by {
        let v = out.at(x, y);
        assert(brightest(m, x, y, dilate as int, v));
        let (x2, y2) = choose|x2: int, y2: int|
            m.has(x2, y2) && near(x, y, x2, y2, dilate as int) && #[trigger] m.at(x2, y2) == v;
        assert(m.at(x2, y2) == mask_value(depth.at(x2, y2), cut));
        if exists|x3: int, y3: int|
            depth.has(x3, y3) && near(x, y, x3, y3, dilate as int) && #[trigger] depth.at(x3, y3) >= cut {
            let (x3, y3) = choose|x3: int, y3: int|
                depth.has(x3, y3) && near(x, y, x3, y3, dilate as int) && #[trigger] depth.at(x3, y3)
                    >= cut;
            assert(m.at(x3, y3) == 255);
        }
    }
    out
}

/// Dilation never loses a part of the mask, and a wider one loses nothing of a
/// narrower one.
pub proof fn law_dilation_grows(img: GrayImage, x: int, y: int, r: int, wider: int, v: u8, v_wider: u8)
    requires
        img.has(x, y),
        0 <= r <= wider,
        brightest(img, x, y, r, v),
        brightest(img, x, y, wider, v_wider),
    ensures
        img.at(x, y) <= v <= v_wider,
{
    assert(near(x, y, x, y, r));
    let (x2, y2) = choose|x2: int, y2: int|
        img.has(x2, y2) && near(x, y, x2, y2, r) && #[trigger] img.at(x2, y2) == v;
    assert(near(x, y, x2, y2, wider));
}

// ---------------------------------------------------------------------------
// Feathering
// ---------------------------------------------------------------------------

/// The number of a row or column, moved to the nearest one that exists.
pub open spec fn clamped(i: int, n: int) -> int {
    if i < 0 {
        0
    } else if i >= n {
        n - 1
    } else {
        i
    }
}

/// The sum of the `k` pixels of row `y` that begin `r` before column `x`; the edge
/// pixels go on outside the image.
pub open spec fn row_sum(img: GrayImage, x: int, y: int, r: int, k: nat) -> int
    decreases k,
{
    if k == 0 {
        0
    } else {
        row_sum(img, x, y, r, (k - 1) as nat) + img.at(clamped(x - r + k - 1, img.width as int), y)
    }
}

/// The mean, rounded down, of the pixels at most `r` away in the row.
pub open spec fn row_mean(img: GrayImage, x: int, y: int, r: int) -> int {
    row_sum(img, x, y, r, (2 * r + 1) as nat) / (2 * r + 1)
}

/// The sum of `k` row means in column `x`, beginning `r` above row `y`.
pub open spec fn mean_sum(img: GrayImage, x: int, y: int, r: int, k: nat) -> int
    decreases k,
{
    if k == 0 {
        0
    } else {
        mean_sum(img, x, y, r, (k - 1) as nat) + row_mean(
            img,
            x,
            clamped(y - r + k - 1, img.height as int),
            r,
        )
    }
}

/// A feathered pixel: the mean, rounded down, of the row means at most `r` away in
/// the column.
pub open spec fn feathered(img: GrayImage, x: int, y: int, r: int) -> int {
    mean_sum(img, x, y, r, (2 * r + 1) as nat) / (2 * r + 1)
}

proof fn lemma_row_sum_bound(img: GrayImage, x: int, y: int, r: int, k: nat)
    ensures
        0 <= row_sum(img, x, y, r, k) <= 255 * k,
    decreases k,
{
    if k > 0 {
        lemma_row_sum_bound(img, x, y, r, (k - 1) as nat);
    }
}

proof fn lemma_mean_bound(sum: int, n: int)
    requires
        0 < n,
        0 <= sum <= 255 * n,
    ensures
        0 <= sum / n <= 255,
{
    assert(0 <= sum / n <= 255) by (nonlinear_arith)
        requires
            0 < n,
            0 <= sum <= 255 * n,
    ;
}

fn clamp_index(at: u32, d: u64, r: u32, n: u32) -> (i: u32)
    requires
        at < n,
        d <= 2 * r,
    ensures
        i == clamped(at - r + d, n as int),
{
    let moved: u64 = at as u64 + d;
    if moved < r as u64 {
        0
    } else if moved - r as u64 >= n as u64 {
        n - 1
    } else {
        (moved - r as u64) as u32
    }
}

fn mean_of_row(img: &GrayImage, x: u32, y: u32, r: u32) -> (v: u8)
    requires
        img.wf(),
        img.has(x as int, y as int),
    ensures
        v == row_mean(*img, x as int, y as int, r as int),
{
    let span: u64 = 2 * r as u64 + 1;
    let mut d: u64 = 0;
    let mut sum: u64 = 0;
    while d < span
        invariant
            img.wf(),
            img.has(x as int, y as int),
            span == 2 * r + 1,
            d <= span,
            sum == row_sum(*img, x as int, y as int, r as int, d as nat),
        decreases span - d,
    {
        proof {
            lemma_row_sum_bound(*img, x as int, y as int, r as int, d as nat);
        }
        sum = sum + img.get_pixel(clamp_index(x, d, r, img.width), y) as u64;
        d = d + 1;
    }
    proof {
        lemma_row_sum_bound(*img, x as int, y as int, r as int, d as nat);
        lemma_mean_bound(sum as int, span as int);
    }
    (sum / span) as u8
}

/// Softens a mask: every pixel becomes a mean of those at most `r` away, first along
/// the rows and then along the columns.
pub fn feather_mask(mask: &GrayImage, r: u32) -> (out: GrayImage)
    requires
        mask.wf(),
    ensures
        out.wf(),
        out.same_size(*mask),
        forall|x: int, y: int|
            mask.has(x, y) ==> #[trigger] out.at(x, y) as int == feathered(*mask, x, y, r as int),
{
    let w: u32 = mask.width;
    let h: u32 = mask.height;
    let n: usize = mask.data.len();
    let mut rows: Vec<u8> = Vec::new();
    let mut i: usize = 0;
    while i < n
        invariant
            mask.wf(),
            w == mask.width,
            h == mask.height,
            n == w * h,
            i <= n,
            rows@.len() == i,
            forall|k: int|
                0 <= k < i ==> #[trigger] rows@[k] as int == row_mean(
                    *mask,
                    k % (w as int),
                    k / (w as int),
                    r as int,
                ),
        decreases n - i,
    {
        proof {
            lemma_unplace(w as int, h as int, i as int);
        }
        let x: u32 = (i % w as usize) as u32;
        let y: u32 = (i / w as usize) as u32;
        rows.push(mean_of_row(mask, x, y, r));
        i = i + 1;
    }
    let horiz = GrayImage { width: w, height: h, data: rows };
    assert forall|x: int, y: int| mask.has(x, y) implies #[trigger] horiz.at(x, y) as int == row_mean(
        *mask,
        x,
        y,
        r as int,
    ) by {
        lemma_place(w as int, h as int, x, y);
    }
    let mut data: Vec<u8> = Vec::new();
    let mut j: usize = 0;
    while j < n
        invariant
            horiz.wf(),
            w == horiz.width,
            h == horiz.height,
            horiz.same_size(*mask),
            n == w * h,
            j <= n,
            data@.len() == j,
            forall|x: int, y: int|
                mask.has(x, y) ==> #[trigger] horiz.at(x, y) as int == row_mean(*mask, x, y, r as int),
            forall|k: int|
                0 <= k < j ==> #[trigger] data@[k] as int == feathered(
                    *mask,
                    k % (w as int),
                    k / (w as int),
                    r as int,
                ),
        decreases n - j,
    {
        proof {
            lemma_unplace(w as int, h as int, j as int);
        }
        let x: u32 = (j % w as usize) as u32;
        let y: u32 = (j / w as usize) as u32;
        let span: u64 = 2 * r as u64 + 1;
        let mut d: u64 = 0;
        let mut sum: u64 = 0;
        while d < span
            invariant
                horiz.wf(),
                horiz.has(x as int, y as int),
                horiz.same_size(*mask),
                forall|x: int, y: int|
                    mask.has(x, y) ==> #[trigger] horiz.at(x, y) as int == row_mean(
                        *mask,
                        x,
                        y,
                        r as int,
                    ),
                span == 2 * r + 1,
                d <= span,
                sum == mean_sum(*mask, x as int, y as int, r as int, d as nat),
                sum <= 255 * d,
            decreases span - d,
        {
            let row: u32 = clamp_index(y, d, r, horiz.height);
            let p: u8 = horiz.get_pixel(x, row);
            assert(mask.has(x as int, row as int));
            assert(p as int == row_mean(*mask, x as int, row as int, r as int));
            sum = sum + p as u64;
            d = d + 1;
        }
        proof {
            lemma_mean_bound(sum as int, span as int);
        }
        data.push((sum / span) as u8);
        j = j + 1;
    }
    let out = GrayImage { width: w, height: h, data };
    assert forall|x: int, y: int| mask.has(x, y) implies #[trigger] out.at(x, y) as int == feathered(
        *mask,
        x,
        y,
        r as int,
    ) by {
        lemma_place(w as int, h as int, x, y);
    }
    out
}

proof fn lemma_flat_row(img: GrayImage, x: int, y: int, r: int, k: nat, c: u8)
    requires
        img.has(x, y),
        0 <= r,
        k <= 2 * r + 1,
        forall|x2: int| 0 <= x2 < img.width && x - r <= x2 <= x + r ==> #[trigger] img.at(x2, y) == c,
    ensures
        row_sum(img, x, y, r, k) == k * c,
    decreases k,
{
    if k > 0 {
        lemma_flat_row(img, x, y, r, (k - 1) as nat, c);
        assert(img.at(clamped(x - r + k - 1, img.width as int), y) == c);
        assert((k - 1) * c + c == k * c) by (nonlinear_arith);
    } else {
        assert(0 * c == 0) by (nonlinear_arith);
    }
}

proof fn lemma_flat_mean(n: int, c: int)
    requires
        0 < n,
    ensures
        (n * c) / n == c,
{
    vstd::arithmetic::div_mod::lemma_div_multiples_vanish(c, n);
}

proof fn lemma_flat_columns(img: GrayImage, x: int, y: int, r: int, k: nat, c: u8)
    requires
        img.has(x, y),
        0 <= r,
        k <= 2 * r + 1,
        forall|x2: int, y2: int|
            img.has(x2, y2) && near(x, y, x2, y2, r) ==> #[trigger] img.at(x2, y2) == c,
    ensures
        mean_sum(img, x, y, r, k) == k * c,
    decreases k,
{
    if k > 0 {
        lemma_flat_columns(img, x, y, r, (k - 1) as nat, c);
        let row = clamped(y - r + k - 1, img.height as int);
        assert forall|x2: int| 0 <= x2 < img.width && x - r <= x2 <= x + r implies #[trigger] img.at(
            x2,
            row,
        ) == c by {
            assert(near(x, y, x2, row, r));
        }
        lemma_flat_row(img, x, row, r, (2 * r + 1) as nat, c);
        lemma_flat_mean(2 * r + 1, c as int);
        assert((k - 1) * c + c == k * c) by (nonlinear_arith);
    } else {
        assert(0 * c == 0) by (nonlinear_arith);
    }
}

/// Feathering changes nothing where the mask is flat all around: only the
/// silhouettes soften.
pub proof fn law_feathering_keeps_flat_parts(img: GrayImage, x: int, y: int, r: int, c: u8)
    requires
        img.has(x, y),
        0 <= r,
        forall|x2: int, y2: int|
            img.has(x2, y2) && near(x, y, x2, y2, r) ==> #[trigger] img.at(x2, y2) == c,
    ensures
        feathered(img, x, y, r) == c,
{
    lemma_flat_columns(img, x, y, r, (2 * r + 1) as nat, c);
    lemma_flat_mean(2 * r + 1, c as int);
}

/// The width of the blended seam around an inpainted region, in pixels.
pub fn seam_width(width: u32, height: u32) -> (r: u32)
    ensures
        r == (if width >= 1000 || height >= 1000 {
            (if width >= height {
                width
            } else {
                height
            }) / 500
        } else {
            2
        }),
{
    let longer: u32 = if width >= height { width } else { height };
    let s: u32 = longer / 500;
    if s >= 2 {
        s
    } else {
        2
    }
}

/// How many pixels of an image have the value `v`.
pub open spec fn count_of(data: Seq<u8>, v: u8) -> nat
    decreases data.len(),
{
    if data.len() == 0 {
        0
    } else {
        count_of(data.drop_last(), v) + (if data.last() == v {
            1nat
        } else {
            0
        })
    }
}

proof fn lemma_count_bound(data: Seq<u8>, v: u8)
    ensures
        count_of(data, v) <= data.len(),
    decreases data.len(),
{
    if data.len() > 0 {
        lemma_count_bound(data.drop_last(), v);
    }
}

/// How often each of the 256 values occurs in an image.
pub fn histogram(depth: &GrayImage) -> (hist: Vec<usize>)
    ensures
        hist@.len() == 256,
        forall|v: int| 0 <= v < 256 ==> #[trigger] hist@[v] == count_of(depth.data@, v as u8),
{
    let mut hist: Vec<usize> = Vec::new();
    while hist.len() < 256
        invariant
            hist@.len() <= 256,
            forall|v: int| 0 <= v < hist@.len() ==> #[trigger] hist@[v] == 0,
        decreases 256 - hist.len(),
    {
        hist.push(0);
    }
    let n: usize = depth.data.len();
    let mut i: usize = 0;
    while i < n
        invariant
            n == depth.data@.len(),
            i <= n,
            hist@.len() == 256,
            forall|v: int|
                0 <= v < 256 ==> #[trigger] hist@[v] == count_of(depth.data@.subrange(0, i as int), v as u8),
        decreases n - i,
    {
        let p: u8 = depth.data[i];
        assert(depth.data@.subrange(0, i + 1).drop_last() =~= depth.data@.subrange(0, i as int));
        proof {
            lemma_count_bound(depth.data@.subrange(0, i as int), p);
            assert(hist@[p as int] == count_of(depth.data@.subrange(0, i as int), p));
        }
        let c: usize = hist[p as usize];
        hist.set(p as usize, c + 1);
        i = i + 1;
    }
    assert(depth.data@.subrange(0, n as int) =~= depth.data@);
    hist
}

// ---------------------------------------------------------------------------
// What can be relied on
// ---------------------------------------------------------------------------

/// A pixel is near those in the square around it: across, down and at the corners, as far
/// as the radius and no farther.
pub proof fn law_near_is_a_square(x: int, y: int, dx: int, dy: int, r: int)
    ensures
        near(x, y, x + dx, y + dy, r) <==> -r <= dx <= r && -r <= dy <= r,
{
}

/// The brightest pixel around is no darker than any of them, and one of them.
pub proof fn law_brightest_is_one_of_them(img: GrayImage, x: int, y: int, r: int, v: u8, x2: int, y2: int)
    requires
        brightest(img, x, y, r, v),
    ensures
        img.has(x2, y2) && x - r <= x2 <= x + r && y - r <= y2 <= y + r ==> img.at(x2, y2) <= v,
        exists|a: int, b: int|
            0 <= a < img.width && 0 <= b < img.height && x - r <= a <= x + r && y - r <= b <= y + r && #[trigger] img.at(
                a,
                b,
            ) == v,
{
}

/// Pixels stand row by row, from the left.
pub proof fn law_pixels_stand_row_by_row(img: GrayImage, x: int, y: int)
    ensures
        img.at(x, y) == img.data@[y * img.width + x],
        place(img.width as int, x + 1, y) == place(img.width as int, x, y) + 1,
        place(img.width as int, x, y + 1) == place(img.width as int, x, y) + img.width,
        img.has(x, y) <==> 0 <= x < img.width && 0 <= y < img.height,
        LAMA_SIZE == 512,
{
    let w = img.width as int;
    assert((y + 1) * w == y * w + w) by (nonlinear_arith);
}

/// The mask is on exactly where the depth reaches the cut.
pub proof fn law_masks_are_on_from_the_cut(depth: u8, cut: u8)
    ensures
        depth >= cut ==> mask_value(depth, cut) == 255,
        depth < cut ==> mask_value(depth, cut) == 0,
{
}

/// Outside the image the pixels of the edge go on.
pub proof fn law_edges_go_on(i: int, n: int)
    requires
        n > 0,
    ensures
        0 <= i < n ==> clamped(i, n) == i,
        i < 0 ==> clamped(i, n) == 0,
        i >= n ==> clamped(i, n) == n - 1,
{
}

/// The mean of a row is that of the pixel and as many on either side; the mean over all
/// is that of the row means as far above and below.
pub proof fn law_means_are_taken_around(img: GrayImage, x: int, y: int, r: int, k: nat)
    requires
        img.has(x, y),
        r >= 0,
    ensures
        row_sum(img, x, y, r, 0) == 0,
        row_sum(img, x, y, r, k + 1) == row_sum(img, x, y, r, k) + img.at(clamped(x + (k - r), img.width as int), y),
        row_mean(img, x, y, r) == row_sum(img, x, y, r, (2 * r + 1) as nat) / (2 * r + 1),
        mean_sum(img, x, y, r, 0) == 0,
        mean_sum(img, x, y, r, k + 1) == mean_sum(img, x, y, r, k) + row_mean(
            img,
            x,
            clamped(y + (k - r), img.height as int),
            r,
        ),
        feathered(img, x, y, r) == mean_sum(img, x, y, r, (2 * r + 1) as nat) / (2 * r + 1),
{
}

/// Without a radius nothing is softened.
pub proof fn law_no_radius_softens_nothing(img: GrayImage, x: int, y: int)
    requires
        img.has(x, y),
    ensures
        feathered(img, x, y, 0) == img.at(x, y),
{
    law_feathering_keeps_flat_parts(img, x, y, 0, img.at(x, y));
}

/// With a radius of one the mean of a row is that of three pixels, and the feathered pixel
/// that of three row means.
pub proof fn law_three_pixels_make_a_mean(img: GrayImage, x: int, y: int)
    requires
        0 < x < img.width - 1,
        0 < y < img.height - 1,
    ensures
        row_mean(img, x, y, 1) == (img.at(x - 1, y) + img.at(x, y) + img.at(x + 1, y)) / 3,
        feathered(img, x, y, 1) == (row_mean(img, x, y - 1, 1) + row_mean(img, x, y, 1) + row_mean(img, x, y + 1, 1))
            / 3,
{
    reveal_with_fuel(row_sum, 4);
    reveal_with_fuel(mean_sum, 4);
}

/// A value occurs as often as pixels have it.
pub proof fn law_values_are_counted(data: Seq<u8>, v: u8)
    ensures
        count_of(data, v) == data.filter(|x: u8| x == v).len(),
    decreases data.len(),
{
    reveal(Seq::filter);
    if data.len() > 0 {
        law_values_are_counted(data.drop_last(), v);
    }
}

/// An image has a byte for each of its pixels, and images of one size have as many.
pub proof fn law_images_have_all_pixels(a: GrayImage, b: GrayImage)
    requires
        a.wf(),
        b.wf(),
        a.same_size(b),
    ensures
        a.data@.len() == a.width * a.height,
        a.width == b.width,
        a.height == b.height,
        a.data@.len() == b.data@.len(),
{
}

} // verus!
