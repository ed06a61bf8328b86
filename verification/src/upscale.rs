//! The tiles in which an upscaler works through an image.
use vstd::prelude::*;
use crate::text;
use crate::text::decimal_of;

verus! {

broadcast use vstd::string::group_string_axioms;

/// The side of the square that the upscaler takes.
pub const TILE: u32 = 128;

/// How many times larger its output is.
pub const SCALE: u32 = 4;

/// The number of tiles along a side.
pub open spec fn tile_count(span: int) -> int {
    (span + TILE - 1) / (TILE as int)
}

/// Where a tile begins: the last one is moved back to end at the edge.
pub open spec fn tile_start(span: int, k: int) -> int {
    if k * TILE <= span - TILE {
        k * TILE
    } else {
        span - TILE
    }
}

/// Where the tiles along a side begin.
pub open spec fn tile_starts(span: int) -> Seq<u32> {
    Seq::new(tile_count(span) as nat, |k: int| tile_start(span, k) as u32)
}

/// Where the tiles along a side begin.
pub fn origins(span: u32) -> (v: Vec<u32>)
    requires
        span >= TILE,
    ensures
        v@ == tile_starts(span as int),
{
    let mut v: Vec<u32> = Vec::new();
    let mut p: u32 = 0;
    while p < span - TILE
        invariant
            span >= TILE,
            p == v@.len() * TILE,
            p < span,
            forall|k: int| 0 <= k < v@.len() ==> #[trigger] v@[k] == tile_start(span as int, k),
        decreases span - p,
    {
        v.push(p);
        p = p + TILE;
    }
    v.push(span - TILE);
    assert(v@.len() == tile_count(span as int));
    assert(v@ =~= tile_starts(span as int));
    v
}

/// Every tile lies inside the image, and every pixel lies in some tile.
pub proof fn law_tiles_cover(span: int)
    requires
        TILE <= span <= u32::MAX,
    ensures
        forall|k: int|
            0 <= k < tile_count(span) ==> 0 <= #[trigger] tile_starts(span)[k] && tile_starts(span)[k] + TILE
                <= span,
        forall|p: int|
            0 <= p < span ==> 0 <= #[trigger] (p / (TILE as int)) < tile_count(span) && tile_starts(span)[p
                / (TILE as int)] <= p < tile_starts(span)[p / (TILE as int)] + TILE,
{
    assert forall|k: int| 0 <= k < tile_count(span) implies 0 <= #[trigger] tile_starts(span)[k] && tile_starts(
        span,
    )[k] + TILE <= span by {
        assert(tile_starts(span)[k] == tile_start(span, k));
    }
    assert forall|p: int| 0 <= p < span implies 0 <= #[trigger] (p / (TILE as int)) < tile_count(span)
        && tile_starts(span)[p / (TILE as int)] <= p < tile_starts(span)[p / (TILE as int)] + TILE by {
        let k = p / (TILE as int);
        assert(0 <= k < tile_count(span));
        assert(tile_starts(span)[k] == tile_start(span, k));
    }
}

/// What is asked of the upscaler for one image.
pub struct UpscalePlan {
    pub width: u32,
    pub height: u32,
    /// The left and upper edge of each tile.
    pub tiles: Vec<(u32, u32)>,
}

/// The tiles of the first `rows` rows, each from the left.
pub open spec fn tiles_of(xs: Seq<u32>, ys: Seq<u32>) -> Seq<(u32, u32)>
    decreases ys.len(),
{
    if ys.len() == 0 {
        Seq::empty()
    } else {
        tiles_of(xs, ys.drop_last()) + Seq::new(xs.len(), |k: int| (xs[k], ys.last()))
    }
}

/// Why an image cannot be upscaled.
pub open spec fn too_small(w: u32, h: u32) -> Seq<char> {
    "image "@ + text::decimal(w as nat) + "x"@ + text::decimal(h as nat)
        + " smaller than the 128px upscaler tile"@
}

/// The plan for an image: its size fourfold, and its tiles row by row. An image that
/// is smaller than a tile cannot be upscaled.
pub fn upscale_4x(w: u32, h: u32) -> (r: Result<UpscalePlan, String>)
    requires
        w <= 0x3fff_ffff,
        h <= 0x3fff_ffff,
    ensures
        r is Err == (w < TILE || h < TILE),
        match r {
            Ok(p) => p.width == w * SCALE && p.height == h * SCALE && p.tiles@ == tiles_of(
                tile_starts(w as int),
                tile_starts(h as int),
            ),
            Err(e) => e@ == too_small(w, h),
        },
{
    if w < TILE || h < TILE {
        let mut e = "image ".to_owned();
        e.append(decimal_of(w as u64).as_str());
        e.append("x");
        e.append(decimal_of(h as u64).as_str());
        e.append(" smaller than the 128px upscaler tile");
        return Err(e);
    }
    let xs = origins(w);
    let ys = origins(h);
    let mut tiles: Vec<(u32, u32)> = Vec::new();
    let mut j: usize = 0;
    assert(ys@.subrange(0, 0) =~= Seq::empty());
    while j < ys.len()
        invariant
            j <= ys.len(),
            tiles@ == tiles_of(xs@, ys@.subrange(0, j as int)),
        decreases ys.len() - j,
    {
        let y: u32 = ys[j];
        let ghost done = tiles@;
        let mut i: usize = 0;
        while i < xs.len()
            invariant
                i <= xs.len(),
                tiles@ == done + Seq::new(i as nat, |k: int| (xs@[k], y)),
            decreases xs.len() - i,
        {
            tiles.push((xs[i], y));
            i = i + 1;
            assert(tiles@ =~= done + Seq::new(i as nat, |k: int| (xs@[k], y)));
        }
        assert(ys@.subrange(0, j + 1).drop_last() =~= ys@.subrange(0, j as int));
        j = j + 1;
        assert(tiles@ =~= tiles_of(xs@, ys@.subrange(0, j as int)));
    }
    assert(ys@.subrange(0, j as int) =~= ys@);
    Ok(UpscalePlan { width: w * SCALE, height: h * SCALE, tiles })
}

/// Tiles follow each other without a gap, but for the last, which ends at the edge; there
/// are no more than needed.
pub proof fn law_tiles_follow_each_other(span: int, k: int)
    requires
        128 <= span,
        0 <= k < tile_count(span),
    ensures
        TILE == 128,
        SCALE == 4,
        128 * (tile_count(span) - 1) < span <= 128 * tile_count(span),
        k < tile_count(span) - 1 ==> tile_start(span, k) == 128 * k,
        k == tile_count(span) - 1 ==> tile_start(span, k) == span - 128,
{
    let c = tile_count(span);
    assert(c == (span + 127) / 128);
}

/// The tiles of an image are those of its columns in each of its rows, row by row.
pub proof fn law_tiles_go_row_by_row(xs: Seq<u32>, ys: Seq<u32>, i: int, j: int)
    requires
        0 <= i < xs.len(),
        0 <= j < ys.len(),
    ensures
        tiles_of(xs, ys).len() == ys.len() * xs.len(),
        0 <= j * xs.len() + i < ys.len() * xs.len(),
        tiles_of(xs, ys)[j * xs.len() + i] == (xs[i], ys[j]),
    decreases ys.len(),
{
    lemma_tile_number(xs, ys);
    let w = xs.len() as int;
    let n = ys.len() as int;
    assert(0 <= j * w + i < n * w) by (nonlinear_arith)
        requires
            0 <= i < w,
            0 <= j < n,
    ;
    let d = ys.drop_last();
    lemma_tile_number(xs, d);
    let row = Seq::new(xs.len(), |k: int| (xs[k], ys.last()));
    assert((n - 1) * w == d.len() * w);
    if j < n - 1 {
        law_tiles_go_row_by_row(xs, d, i, j);
        assert(d[j] == ys[j]);
    } else {
        assert(j == n - 1);
        assert(ys.last() == ys[j]);
        assert((tiles_of(xs, d) + row)[j * w + i] == row[i]);
    }
}

proof fn lemma_tile_number(xs: Seq<u32>, ys: Seq<u32>)
    ensures
        tiles_of(xs, ys).len() == ys.len() * xs.len(),
    decreases ys.len(),
{
    if ys.len() > 0 {
        lemma_tile_number(xs, ys.drop_last());
        let n = ys.len() as int;
        let w = xs.len() as int;
        assert((n - 1) * w + w == n * w) by (nonlinear_arith);
    } else {
        assert(0 * xs.len() == 0) by (nonlinear_arith);
    }
}

/// The error tells the size of the image, the width before the height.
pub proof fn law_errors_tell_the_size(w: u32, h: u32)
    ensures
        too_small(w, h) == "image "@ + text::decimal(w as nat) + "x"@ + text::decimal(h as nat)
            + " smaller than the 128px upscaler tile"@,
{
}

} // verus!
