//! The subjects of a matte: its connected parts, and which of them are kept.
use vstd::prelude::*;
use crate::inpaint;
use crate::inpaint::GrayImage;

verus! {

/// The input resolution of the default segmentation model.
pub const U2NET_SIZE: u32 = 320;

/// The value above which a pixel belongs to a subject. It is low, so that the faint
/// edge of a subject goes with it.
pub const ON_ABOVE: u8 = 24;

/// The side of the square that a segmentation model is fed.
pub fn input_side(input_size: u32) -> (r: u32)
    ensures
        r == (if input_size < 64 {
            64
        } else {
            input_size
        }),
{
    if input_size < 64 {
        64
    } else {
        input_size
    }
}

/// How wide the border is that tells an inverted matte: a twentieth of the side, and
/// at least two pixels.
pub open spec fn border(side: int) -> int {
    if side / 20 < 2 {
        2
    } else {
        side / 20
    }
}

/// Whether a pixel of the square lies on its border.
pub fn on_border(side: u32, x: u32, y: u32) -> (r: bool)
    requires
        side >= 64,
    ensures
        r == (x < border(side as int) || x >= side - border(side as int) || y < border(side as int) || y
            >= side - border(side as int)),
{
    let margin: u32 = if side / 20 < 2 { 2 } else { side / 20 };
    x < margin || x >= side - margin || y < margin || y >= side - margin
}

/// Whether a pixel belongs to a subject.
pub open spec fn on(data: Seq<u8>, i: int) -> bool {
    0 <= i < data.len() && data[i] > ON_ABOVE
}

/// The difference of two numbers, without its sign.
pub open spec fn apart(a: int, b: int) -> int {
    if a < b {
        b - a
    } else {
        a - b
    }
}

/// Whether two pixels touch: they are next to each other in a row or a column.
pub open spec fn touch(w: int, a: int, b: int) -> bool {
    apart(a % w, b % w) + apart(a / w, b / w) == 1
}

/// Whether a path leads through the subject, from pixel to touching pixel.
pub open spec fn is_path(data: Seq<u8>, w: int, path: Seq<int>) -> bool {
    &&& path.len() > 0
    &&& forall|k: int| 0 <= k < path.len() ==> on(data, #[trigger] path[k])
    &&& forall|k: int| 0 < k < path.len() ==> touch(w, path[k - 1], #[trigger] path[k])
}

/// Whether two pixels belong to the same subject.
pub open spec fn linked(data: Seq<u8>, w: int, a: int, b: int) -> bool {
    exists|path: Seq<int>| #[trigger]
        is_path(data, w, path) && path[0] == a && path.last() == b
}

/// How many pixels have the given label.
pub open spec fn count(labels: Seq<usize>, l: usize) -> nat
    decreases labels.len(),
{
    if labels.len() == 0 {
        0
    } else {
        count(labels.drop_last(), l) + (if labels.last() == l {
            1nat
        } else {
            0
        })
    }
}

/// The subjects of a matte: which one each pixel belongs to, counted from one (zero
/// for none), and how large each is.
pub struct Subjects {
    pub labels: Vec<usize>,
    pub areas: Vec<usize>,
}

/// Whether a labelling gives every pixel of a subject the same number, different
/// subjects different numbers, and the other pixels zero; and the areas count the
/// pixels.
pub open spec fn are_subjects(data: Seq<u8>, w: int, s: Subjects) -> bool {
    &&& s.labels@.len() == data.len()
    &&& s.areas@.len() > 0
    &&& s.areas@[0] == 0
    &&& forall|i: int|
        0 <= i < data.len() ==> (#[trigger] s.labels@[i] == 0 <==> !on(data, i)) && s.labels@[i]
            < s.areas@.len()
    &&& forall|i: int, j: int|
        on(data, i) && on(data, j) ==> (#[trigger] s.labels@[i] == #[trigger] s.labels@[j] <==> linked(
            data,
            w,
            i,
            j,
        ))
    &&& forall|l: int|
        0 < l < s.areas@.len() ==> #[trigger] s.areas@[l] == count(s.labels@, l as usize)
}

// ---------------------------------------------------------------------------
// Paths
// ---------------------------------------------------------------------------

proof fn lemma_linked_self(data: Seq<u8>, w: int, a: int)
    requires
        on(data, a),
    ensures
        linked(data, w, a, a),
{
    let p = seq![a];
    assert(is_path(data, w, p) && p[0] == a && p.last() == a);
}

proof fn lemma_linked_step(data: Seq<u8>, w: int, a: int, b: int, c: int)
    requires
        linked(data, w, a, b),
        on(data, c),
        touch(w, b, c),
    ensures
        linked(data, w, a, c),
{
    let p = choose|p: Seq<int>| #[trigger] is_path(data, w, p) && p[0] == a && p.last() == b;
    let q = p.push(c);
    assert forall|k: int| 0 < k < q.len() implies touch(w, q[k - 1], #[trigger] q[k]) by {
        if k < p.len() {
            assert(q[k] == p[k] && q[k - 1] == p[k - 1]);
        }
    }
    assert(is_path(data, w, q) && q[0] == a && q.last() == c);
}

proof fn lemma_linked_back(data: Seq<u8>, w: int, a: int, b: int)
    requires
        linked(data, w, a, b),
    ensures
        linked(data, w, b, a),
{
    let p = choose|p: Seq<int>| #[trigger] is_path(data, w, p) && p[0] == a && p.last() == b;
    let q = p.reverse();
    assert forall|k: int| 0 < k < q.len() implies touch(w, q[k - 1], #[trigger] q[k]) by {
        assert(q[k] == p[p.len() - 1 - k]);
        assert(q[k - 1] == p[p.len() - k]);
        assert(touch(w, p[p.len() - k - 1], p[p.len() - k]));
    }
    assert(is_path(data, w, q) && q[0] == b && q.last() == a);
}

proof fn lemma_linked_through(data: Seq<u8>, w: int, a: int, b: int, c: int)
    requires
        linked(data, w, a, b),
        linked(data, w, b, c),
    ensures
        linked(data, w, a, c),
{
    let p = choose|p: Seq<int>| #[trigger] is_path(data, w, p) && p[0] == a && p.last() == b;
    let q = choose|q: Seq<int>| #[trigger] is_path(data, w, q) && q[0] == b && q.last() == c;
    let r = p + q.subrange(1, q.len() as int);
    assert forall|k: int| 0 < k < r.len() implies touch(w, r[k - 1], #[trigger] r[k]) by {
        if k < p.len() {
            assert(r[k] == p[k] && r[k - 1] == p[k - 1]);
        } else {
            let j = k - p.len() + 1;
            assert(r[k] == q[j]);
            assert(r[k - 1] == q[j - 1]);
        }
    }
    assert forall|k: int| 0 <= k < r.len() implies on(data, #[trigger] r[k]) by {
        if k < p.len() {
            assert(r[k] == p[k]);
        } else {
            assert(r[k] == q[k - p.len() + 1]);
        }
    }
    assert(is_path(data, w, r));
    assert(r[0] == a);
    if q.len() == 1 {
        assert(r =~= p);
        assert(r.last() == c);
    } else {
        assert(r.last() == q.last());
    }
}

/// Whether every neighbour of a labelled pixel that belongs to a subject has the
/// same label.
spec fn closed_at(data: Seq<u8>, w: int, labels: Seq<usize>, i: int) -> bool {
    forall|j: int| on(data, j) && #[trigger] touch(w, i, j) ==> labels[j] == labels[i]
}

proof fn lemma_path_keeps_label(data: Seq<u8>, w: int, labels: Seq<usize>, path: Seq<int>)
    requires
        labels.len() == data.len(),
        is_path(data, w, path),
        forall|i: int| on(data, i) ==> #[trigger] closed_at(data, w, labels, i),
    ensures
        labels[path.last()] == labels[path[0]],
    decreases path.len(),
{
    if path.len() > 1 {
        let q = path.drop_last();
        assert forall|k: int| 0 < k < q.len() implies touch(w, q[k - 1], #[trigger] q[k]) by {
            assert(q[k] == path[k]);
        }
        lemma_path_keeps_label(data, w, labels, q);
        assert(path[path.len() - 1] == path.last());
        assert(on(data, q.last()));
        assert(touch(w, q.last(), path.last()));
        assert(closed_at(data, w, labels, q.last()));
    }
}

// ---------------------------------------------------------------------------
// Counting
// ---------------------------------------------------------------------------

proof fn lemma_count_set(labels: Seq<usize>, i: int, to: usize, l: usize)
    requires
        0 <= i < labels.len(),
        labels[i] != to,
    ensures
        count(labels.update(i, to), l) == count(labels, l) + (if l == to {
            1int
        } else if l == labels[i] {
            -1int
        } else {
            0
        }),
    decreases labels.len(),
{
    let u = labels.update(i, to);
    if i == labels.len() - 1 {
        assert(u.drop_last() =~= labels.drop_last());
    } else {
        assert(u.drop_last() =~= labels.drop_last().update(i, to));
        lemma_count_set(labels.drop_last(), i, to, l);
    }
}

proof fn lemma_count_bound(labels: Seq<usize>, l: usize)
    ensures
        count(labels, l) <= labels.len(),
    decreases labels.len(),
{
    if labels.len() > 0 {
        lemma_count_bound(labels.drop_last(), l);
    }
}

proof fn lemma_count_none(labels: Seq<usize>, l: usize)
    requires
        forall|i: int| 0 <= i < labels.len() ==> #[trigger] labels[i] != l,
    ensures
        count(labels, l) == 0,
    decreases labels.len(),
{
    if labels.len() > 0 {
        assert(labels.last() != l);
        assert forall|i: int| 0 <= i < labels.drop_last().len() implies #[trigger] labels.drop_last()[i]
            != l by {
            assert(labels.drop_last()[i] == labels[i]);
        }
        lemma_count_none(labels.drop_last(), l);
    }
}

// ---------------------------------------------------------------------------
// Neighbours
// ---------------------------------------------------------------------------

proof fn lemma_neighbours(w: int, h: int, i: int)
    requires
        0 < w,
        0 < h,
        0 <= i < w * h,
    ensures
        i % w > 0 ==> 0 <= i - 1 && touch(w, i, i - 1),
        i % w + 1 < w ==> i + 1 < w * h && touch(w, i, i + 1),
        i / w > 0 ==> 0 <= i - w && touch(w, i, i - w),
        i / w + 1 < h ==> i + w < w * h && touch(w, i, i + w),
        forall|j: int|
            0 <= j < w * h && #[trigger] touch(w, i, j) ==> {
                ||| i % w > 0 && j == i - 1
                ||| i % w + 1 < w && j == i + 1
                ||| i / w > 0 && j == i - w
                ||| i / w + 1 < h && j == i + w
            },
{
    inpaint::lemma_unplace(w, h, i);
    let x = i % w;
    let y = i / w;
    assert(i == y * w + x);
    if x > 0 {
        inpaint::lemma_place(w, h, x - 1, y);
        assert(i - 1 == inpaint::place(w, x - 1, y));
    }
    if x + 1 < w {
        inpaint::lemma_place(w, h, x + 1, y);
        assert(i + 1 == inpaint::place(w, x + 1, y));
    }
    if y > 0 {
        inpaint::lemma_place(w, h, x, y - 1);
        assert((y - 1) * w == y * w - w) by (nonlinear_arith);
        assert(i - w == inpaint::place(w, x, y - 1));
    }
    if y + 1 < h {
        inpaint::lemma_place(w, h, x, y + 1);
        assert((y + 1) * w == y * w + w) by (nonlinear_arith);
        assert(i + w == inpaint::place(w, x, y + 1));
    }
    assert forall|j: int| 0 <= j < w * h && #[trigger] touch(w, i, j) implies {
        ||| i % w > 0 && j == i - 1
        ||| i % w + 1 < w && j == i + 1
        ||| i / w > 0 && j == i - w
        ||| i / w + 1 < h && j == i + w
    } by {
        inpaint::lemma_unplace(w, h, j);
        let u = j % w;
        let v = j / w;
        assert(j == v * w + u);
        assert((y + 1) * w == y * w + w) by (nonlinear_arith);
        assert((y - 1) * w == y * w - w) by (nonlinear_arith);
        if u == x {
            assert(v == y + 1 || v == y - 1);
        } else {
            assert(v == y);
        }
    }
}

// ---------------------------------------------------------------------------
// Labelling
// ---------------------------------------------------------------------------

/// What holds of a labelling that is under way: `cur` is the subject that is being
/// filled, and the pixels on the stack, and the pixel `open`, are those whose
/// neighbours were not all looked at.
spec fn filling(
    data: Seq<u8>,
    w: int,
    labels: Seq<usize>,
    seeds: Seq<int>,
    cur: usize,
    stack: Seq<usize>,
    open: int,
) -> bool {
    &&& labels.len() == data.len() <= usize::MAX
    &&& seeds.len() == cur + 1
    &&& forall|i: int| 0 <= i < labels.len() && #[trigger] labels[i] != 0 ==> on(data, i) && labels[i] <= cur
    &&& forall|i: int|
        0 <= i < labels.len() && #[trigger] labels[i] != 0 ==> linked(data, w, seeds[labels[i] as int], i)
    &&& forall|l: int|
        0 < l <= cur ==> on(data, #[trigger] seeds[l]) && labels[seeds[l]] == l
    &&& forall|k: int| 0 <= k < stack.len() ==> #[trigger] stack[k] < data.len() && labels[stack[k] as int] == cur
    &&& forall|i: int|
        0 <= i < labels.len() && #[trigger] labels[i] != 0 && !stack.contains(i as usize) && i != open
            ==> closed_at(data, w, labels, i)
}

proof fn lemma_filling_starts(data: Seq<u8>, w: int, labels: Seq<usize>, seeds: Seq<int>, cur: usize, start: usize)
    requires
        filling(data, w, labels, seeds, cur, Seq::empty(), -1),
        on(data, start as int),
        labels[start as int] == 0,
        cur < usize::MAX,
    ensures
        filling(
            data,
            w,
            labels.update(start as int, (cur + 1) as usize),
            seeds.push(start as int),
            (cur + 1) as usize,
            seq![start],
            -1,
        ),
{
    let new = labels.update(start as int, (cur + 1) as usize);
    let stack = seq![start];
    lemma_linked_self(data, w, start as int);
    assert(stack[0] == start);
    assert forall|i: int|
        0 <= i < new.len() && #[trigger] new[i] != 0 && !stack.contains(i as usize) && i != -1 implies closed_at(
        data,
        w,
        new,
        i,
    ) by {
        assert(i != start);
        assert(new[i] == labels[i]);
        assert(closed_at(data, w, labels, i));
    }
    assert forall|i: int| 0 <= i < new.len() && #[trigger] new[i] != 0 implies linked(
        data,
        w,
        seeds.push(start as int)[new[i] as int],
        i,
    ) by {
        if i != start {
            assert(new[i] == labels[i]);
            assert(labels[i] <= cur);
        }
    }
    assert forall|l: int| 0 < l <= cur + 1 implies on(data, #[trigger] seeds.push(start as int)[l])
        && new[seeds.push(start as int)[l]] == l by {
        if l <= cur {
            assert(seeds.push(start as int)[l] == seeds[l]);
        }
    }
}

proof fn lemma_filling_pops(data: Seq<u8>, w: int, labels: Seq<usize>, seeds: Seq<int>, cur: usize, stack: Seq<usize>)
    requires
        filling(data, w, labels, seeds, cur, stack, -1),
        stack.len() > 0,
    ensures
        filling(data, w, labels, seeds, cur, stack.drop_last(), stack.last() as int),
{
    let rest = stack.drop_last();
    assert forall|i: int|
        0 <= i < labels.len() && #[trigger] labels[i] != 0 && !rest.contains(i as usize) && i
            != stack.last() implies closed_at(data, w, labels, i) by {
        if stack.contains(i as usize) {
            let k = choose|k: int| 0 <= k < stack.len() && stack[k] == i as usize;
            if k < rest.len() {
                assert(rest[k] == i as usize);
            }
        }
    }
    assert forall|k: int| 0 <= k < rest.len() implies #[trigger] rest[k] < data.len() && labels[rest[k] as int]
        == cur by {
        assert(rest[k] == stack[k]);
    }
}

proof fn lemma_filling_grows(
    data: Seq<u8>,
    w: int,
    labels: Seq<usize>,
    seeds: Seq<int>,
    cur: usize,
    stack: Seq<usize>,
    open: int,
    n: usize,
)
    requires
        filling(data, w, labels, seeds, cur, stack, open),
        cur > 0,
        0 <= open < data.len(),
        labels[open] == cur,
        touch(w, open, n as int),
        on(data, n as int),
        labels[n as int] == 0,
    ensures
        filling(data, w, labels.update(n as int, cur), seeds, cur, stack.push(n), open),
{
    let new = labels.update(n as int, cur);
    let grown = stack.push(n);
    assert(grown[stack.len() as int] == n);
    lemma_linked_step(data, w, seeds[cur as int], open, n as int);
    assert forall|i: int|
        0 <= i < new.len() && #[trigger] new[i] != 0 && !grown.contains(i as usize) && i != open implies closed_at(
        data,
        w,
        new,
        i,
    ) by {
        assert(i != n);
        assert(new[i] == labels[i]);
        if stack.contains(i as usize) {
            let k = choose|k: int| 0 <= k < stack.len() && stack[k] == i as usize;
            assert(grown[k] == i as usize);
        }
        assert(closed_at(data, w, labels, i));
    }
    assert forall|k: int| 0 <= k < grown.len() implies #[trigger] grown[k] < data.len() && new[grown[k] as int]
        == cur by {
        if k < stack.len() {
            assert(grown[k] == stack[k]);
        }
    }
    assert forall|l: int| 0 < l <= cur implies on(data, #[trigger] seeds[l]) && new[seeds[l]] == l by {
        assert(labels[seeds[l]] == l);
    }
}

proof fn lemma_filling_closes(
    data: Seq<u8>,
    w: int,
    labels: Seq<usize>,
    seeds: Seq<int>,
    cur: usize,
    stack: Seq<usize>,
    open: int,
)
    requires
        filling(data, w, labels, seeds, cur, stack, open),
        cur > 0,
        0 <= open < data.len(),
        labels[open] == cur,
        forall|j: int| on(data, j) && #[trigger] touch(w, open, j) ==> labels[j] != 0,
    ensures
        filling(data, w, labels, seeds, cur, stack, -1),
{
    assert forall|j: int| on(data, j) && #[trigger] touch(w, open, j) implies labels[j] == labels[open] by {
        if labels[j] != cur {
            if stack.contains(j as usize) {
                let k = choose|k: int| 0 <= k < stack.len() && stack[k] == j as usize;
                assert(labels[stack[k] as int] == cur);
            }
            assert(closed_at(data, w, labels, j));
            assert(touch(w, j, open));
        }
    }
    assert(closed_at(data, w, labels, open));
}

/// Gives a pixel of the subject that is being filled its label, if it has none.
fn visit(
    mask: &GrayImage,
    labels: &mut Vec<usize>,
    stack: &mut Vec<usize>,
    cur: usize,
    n: usize,
)
    requires
        n < mask.data@.len(),
        old(labels)@.len() == mask.data@.len(),
        cur > 0,
    ensures
        final(labels)@.len() == old(labels)@.len(),
        on(mask.data@, n as int) && old(labels)@[n as int] == 0 ==> final(labels)@ == old(labels)@.update(
            n as int,
            cur,
        ) && final(stack)@ == old(stack)@.push(n),
        !(on(mask.data@, n as int) && old(labels)@[n as int] == 0) ==> final(labels)@ == old(labels)@
            && final(stack)@ == old(stack)@,
{
    if mask.data[n] > ON_ABOVE && labels[n] == 0 {
        labels.set(n, cur);
        stack.push(n);
    }
}

/// What the counts are while a subject is filled.
spec fn counted(labels: Seq<usize>, areas: Seq<usize>, cur: usize, area: int) -> bool {
    &&& areas.len() == cur
    &&& forall|l: int| 0 < l < cur ==> #[trigger] areas[l] == count(labels, l as usize)
    &&& area == count(labels, cur)
}

proof fn lemma_counted_grows(labels: Seq<usize>, areas: Seq<usize>, cur: usize, area: int, n: int)
    requires
        counted(labels, areas, cur, area),
        cur > 0,
        0 <= n < labels.len(),
        labels[n] == 0,
    ensures
        counted(labels.update(n, cur), areas, cur, area + 1),
        count(labels.update(n, cur), 0) == count(labels, 0) - 1,
{
    let new = labels.update(n, cur);
    lemma_count_set(labels, n, cur, cur);
    lemma_count_set(labels, n, cur, 0);
    assert forall|l: int| 0 < l < cur implies #[trigger] areas[l] == count(new, l as usize) by {
        lemma_count_set(labels, n, cur, l as usize);
    }
}

/// Looks at a neighbour of the pixel `open`, and keeps what holds of the labelling.
fn look(
    mask: &GrayImage,
    labels: &mut Vec<usize>,
    stack: &mut Vec<usize>,
    cur: usize,
    n: usize,
    Ghost(open): Ghost<int>,
    Ghost(seeds): Ghost<Seq<int>>,
    Ghost(areas): Ghost<Seq<usize>>,
    Ghost(popped): Ghost<int>,
)
    requires
        mask.wf(),
        mask.width > 0,
        cur > 0,
        filling(mask.data@, mask.width as int, old(labels)@, seeds, cur, old(stack)@, open),
        0 <= open < mask.data@.len(),
        old(labels)@[open] == cur,
        n < mask.data@.len(),
        touch(mask.width as int, open, n as int),
        counted(old(labels)@, areas, cur, popped + old(stack)@.len()),
    ensures
        filling(mask.data@, mask.width as int, final(labels)@, seeds, cur, final(stack)@, open),
        final(labels)@.len() == old(labels)@.len(),
        on(mask.data@, n as int) ==> final(labels)@[n as int] != 0,
        forall|i: int|
            0 <= i < old(labels)@.len() && old(labels)@[i] != 0 ==> #[trigger] final(labels)@[i]
                == old(labels)@[i],
        counted(final(labels)@, areas, cur, popped + final(stack)@.len()),
        count(final(labels)@, 0) < count(old(labels)@, 0) || (final(labels)@ == old(labels)@
            && final(stack)@ == old(stack)@),
{
    proof {
        if on(mask.data@, n as int) && labels@[n as int] == 0 {
            lemma_filling_grows(mask.data@, mask.width as int, labels@, seeds, cur, stack@, open, n);
            lemma_counted_grows(labels@, areas, cur, popped + stack@.len(), n as int);
        }
    }
    visit(mask, labels, stack, cur, n);
}

/// Looks at the pixels that touch the pixel `idx`.
#[verifier::rlimit(60)]
fn look_around(
    mask: &GrayImage,
    labels: &mut Vec<usize>,
    stack: &mut Vec<usize>,
    cur: usize,
    idx: usize,
    Ghost(seeds): Ghost<Seq<int>>,
    Ghost(areas): Ghost<Seq<usize>>,
    Ghost(popped): Ghost<int>,
)
    requires
        mask.wf(),
        mask.width > 0,
        mask.height > 0,
        cur > 0,
        filling(mask.data@, mask.width as int, old(labels)@, seeds, cur, old(stack)@, idx as int),
        idx < mask.data@.len(),
        old(labels)@[idx as int] == cur,
        counted(old(labels)@, areas, cur, popped + old(stack)@.len()),
    ensures
        filling(mask.data@, mask.width as int, final(labels)@, seeds, cur, final(stack)@, idx as int),
        final(labels)@.len() == old(labels)@.len(),
        forall|j: int|
            on(mask.data@, j) && #[trigger] touch(mask.width as int, idx as int, j) ==> final(labels)@[j] != 0,
        forall|i: int|
            0 <= i < old(labels)@.len() && old(labels)@[i] != 0 ==> #[trigger] final(labels)@[i]
                == old(labels)@[i],
        counted(final(labels)@, areas, cur, popped + final(stack)@.len()),
        count(final(labels)@, 0) < count(old(labels)@, 0) || (final(labels)@ == old(labels)@
            && final(stack)@ == old(stack)@),
{
    let w: usize = mask.width as usize;
    let h: usize = mask.height as usize;
    let x: usize = idx % w;
    let y: usize = idx / w;
    proof {
        lemma_neighbours(w as int, h as int, idx as int);
    }
    if x > 0 {
        look(
            mask,
            labels,
            stack,
            cur,
            idx - 1,
            Ghost(idx as int),
            Ghost(seeds),
            Ghost(areas),
            Ghost(popped),
        );
    }
    let ghost first = labels@;
    if x + 1 < w {
        look(
            mask,
            labels,
            stack,
            cur,
            idx + 1,
            Ghost(idx as int),
            Ghost(seeds),
            Ghost(areas),
            Ghost(popped),
        );
    }
    let ghost second = labels@;
    if y > 0 {
        look(
            mask,
            labels,
            stack,
            cur,
            idx - w,
            Ghost(idx as int),
            Ghost(seeds),
            Ghost(areas),
            Ghost(popped),
        );
    }
    let ghost third = labels@;
    if y + 1 < h {
        look(
            mask,
            labels,
            stack,
            cur,
            idx + w,
            Ghost(idx as int),
            Ghost(seeds),
            Ghost(areas),
            Ghost(popped),
        );
    }
    assert forall|j: int| on(mask.data@, j) && #[trigger] touch(w as int, idx as int, j) implies labels@[j]
        != 0 by {
        if j == idx - 1 && x > 0 {
            assert(first[j] != 0);
            assert(second[j] != 0);
            assert(third[j] != 0);
        } else if j == idx + 1 && x + 1 < w {
            assert(second[j] != 0);
            assert(third[j] != 0);
        } else if j == idx - w && y > 0 {
            assert(third[j] != 0);
        }
    }
}

/// Fills the subject that holds `start`, and gives its area.
fn fill(
    mask: &GrayImage,
    labels: &mut Vec<usize>,
    cur: usize,
    start: usize,
    Ghost(seeds): Ghost<Seq<int>>,
    Ghost(areas): Ghost<Seq<usize>>,
) -> (area: usize)
    requires
        mask.wf(),
        mask.width > 0,
        mask.height > 0,
        cur > 0,
        start < mask.data@.len(),
        old(labels)@.len() == mask.data@.len(),
        old(labels)@[start as int] == 0,
        filling(
            mask.data@,
            mask.width as int,
            old(labels)@.update(start as int, cur),
            seeds,
            cur,
            seq![start],
            -1,
        ),
        counted(old(labels)@, areas, cur, 0),
    ensures
        filling(mask.data@, mask.width as int, final(labels)@, seeds, cur, Seq::empty(), -1),
        counted(final(labels)@, areas, cur, area as int),
        final(labels)@[start as int] != 0,
        forall|i: int|
            0 <= i < old(labels)@.len() && old(labels)@[i] != 0 ==> #[trigger] final(labels)@[i]
                == old(labels)@[i],
{
    proof {
        lemma_counted_grows(labels@, areas, cur, 0, start as int);
    }
    labels.set(start, cur);
    let mut stack: Vec<usize> = Vec::new();
    stack.push(start);
    assert(stack@ =~= seq![start]);
    let mut area: usize = 0;
    while stack.len() > 0
        invariant
            mask.wf(),
            mask.width > 0,
            mask.height > 0,
            cur > 0,
            start < mask.data@.len(),
            labels@.len() == mask.data@.len(),
            filling(mask.data@, mask.width as int, labels@, seeds, cur, stack@, -1),
            counted(labels@, areas, cur, area + stack@.len()),
            labels@[start as int] != 0,
            forall|i: int|
                0 <= i < old(labels)@.len() && old(labels)@[i] != 0 ==> #[trigger] labels@[i]
                    == old(labels)@[i],
            old(labels)@.len() == labels@.len(),
        decreases count(labels@, 0), stack.len(),
    {
        proof {
            lemma_filling_pops(mask.data@, mask.width as int, labels@, seeds, cur, stack@);
            lemma_count_bound(labels@, cur);
        }
        assert(stack@.last() == stack@[stack@.len() - 1]);
        let top = stack.pop();
        let idx: usize = match top {
            Some(i) => i,
            None => 0,
        };
        area = area + 1;
        look_around(
            mask,
            labels,
            &mut stack,
            cur,
            idx,
            Ghost(seeds),
            Ghost(areas),
            Ghost(area as int),
        );
        proof {
            lemma_filling_closes(mask.data@, mask.width as int, labels@, seeds, cur, stack@, idx as int);
        }
    }
    assert(stack@ =~= Seq::empty());
    area
}

/// The subjects of a matte: the connected parts of what is on, pixels touching in
/// rows and columns.
pub fn label_subjects(mask: &GrayImage) -> (s: Subjects)
    requires
        mask.wf(),
    ensures
        are_subjects(mask.data@, mask.width as int, s),
{
    let n: usize = mask.data.len();
    let mut labels: Vec<usize> = Vec::new();
    while labels.len() < n
        invariant
            labels@.len() <= n,
            forall|i: int| 0 <= i < labels@.len() ==> #[trigger] labels@[i] == 0,
        decreases n - labels.len(),
    {
        labels.push(0);
    }
    let mut areas: Vec<usize> = Vec::new();
    areas.push(0);
    let ghost mut seeds: Seq<int> = seq![0];
    let mut cur: usize = 0;
    let mut start: usize = 0;
    while start < n
        invariant
            mask.wf(),
            n == mask.data@.len(),
            start <= n,
            cur <= start,
            labels@.len() == n,
            areas@.len() == cur + 1,
            areas@[0] == 0,
            filling(mask.data@, mask.width as int, labels@, seeds, cur, Seq::empty(), -1),
            forall|l: int| 0 < l <= cur ==> #[trigger] areas@[l] == count(labels@, l as usize),
            forall|i: int| 0 <= i < start && on(mask.data@, i) ==> #[trigger] labels@[i] != 0,
        decreases n - start,
    {
        if mask.data[start] > ON_ABOVE && labels[start] == 0 {
            proof {
                inpaint::lemma_unplace(mask.width as int, mask.height as int, start as int);
                lemma_filling_starts(mask.data@, mask.width as int, labels@, seeds, cur, start);
                seeds = seeds.push(start as int);
                lemma_count_none(labels@, (cur + 1) as usize);
            }
            let ghost before = labels@;
            cur = cur + 1;
            let area: usize = fill(mask, &mut labels, cur, start, Ghost(seeds), Ghost(areas@));
            areas.push(area);
            assert forall|i: int| 0 <= i < start + 1 && on(mask.data@, i) implies #[trigger] labels@[i]
                != 0 by {
                if i < start {
                    assert(before[i] != 0);
                }
            }
        }
        start = start + 1;
    }
    proof {
        let data = mask.data@;
        let w = mask.width as int;
        assert forall|i: int| on(data, i) implies #[trigger] closed_at(data, w, labels@, i) by {
            assert(labels@[i] != 0);
        }
        assert forall|i: int, j: int| on(data, i) && on(data, j) implies (#[trigger] labels@[i]
            == #[trigger] labels@[j] <==> linked(data, w, i, j)) by {
            if labels@[i] == labels@[j] {
                let seed = seeds[labels@[i] as int];
                lemma_linked_back(data, w, seed, i);
                lemma_linked_through(data, w, i, seed, j);
            }
            if linked(data, w, i, j) {
                let p = choose|p: Seq<int>| #[trigger]
                    is_path(data, w, p) && p[0] == i && p.last() == j;
                lemma_path_keeps_label(data, w, labels@, p);
            }
        }
    }
    Subjects { labels, areas }
}

/// The area of the largest subject, zero if there is none.
pub open spec fn is_largest(areas: Seq<usize>, v: usize) -> bool {
    &&& forall|l: int| 0 <= l < areas.len() ==> #[trigger] areas[l] <= v
    &&& areas.len() == 0 ==> v == 0
    &&& areas.len() > 0 ==> exists|l: int| 0 <= l < areas.len() && #[trigger] areas[l] == v
}

/// The area of the largest subject.
pub fn largest_area(s: &Subjects) -> (v: usize)
    ensures
        is_largest(s.areas@, v),
{
    let mut v: usize = 0;
    let mut i: usize = 0;
    while i < s.areas.len()
        invariant
            i <= s.areas.len(),
            is_largest(s.areas@.subrange(0, i as int), v),
        decreases s.areas.len() - i,
    {
        let ghost before = s.areas@.subrange(0, i as int);
        let ghost after = s.areas@.subrange(0, i + 1);
        let a: usize = s.areas[i];
        let ghost was = v;
        if a > v {
            v = a;
        }
        proof {
            assert forall|l: int| 0 <= l < after.len() implies #[trigger] after[l] <= v by {
                if l < i {
                    assert(before[l] == after[l]);
                }
            }
            assert(after[i as int] == a);
            if a <= was && i > 0 {
                let l = choose|l: int| 0 <= l < before.len() && #[trigger] before[l] == was;
                assert(after[l] == was);
            }
        }
        i = i + 1;
    }
    assert(s.areas@.subrange(0, i as int) =~= s.areas@);
    v
}

/// Whether a subject stays: its area is no less than `min_area`, or no other subject is
/// larger.
pub open spec fn stays(s: Subjects, l: usize, min_area: usize) -> bool {
    ||| count(s.labels@, l) >= min_area
    ||| forall|m: int| 0 < m < s.areas@.len() ==> #[trigger] s.areas@[m] <= count(s.labels@, l)
}

/// What becomes of the pixels of a matte: those of the subjects that do not stay become
/// zero.
pub open spec fn thinned(before: Seq<u8>, s: Subjects, min_area: usize) -> Seq<u8> {
    Seq::new(
        before.len(),
        |i: int|
            if on(before, i) && !stays(s, s.labels@[i], min_area) {
                0
            } else {
                before[i]
            },
    )
}

/// Takes the subjects out of a matte whose area is less than `min_area`. The largest
/// subject always stays, so that the matte is never emptied.
pub fn drop_small_subjects(mask: &mut GrayImage, subjects: &Subjects, min_area: usize)
    requires
        old(mask).wf(),
        are_subjects(old(mask).data@, old(mask).width as int, *subjects),
    ensures
        final(mask).wf(),
        final(mask).same_size(*old(mask)),
        final(mask).data@ == thinned(old(mask).data@, *subjects, min_area),
{
    let n: usize = mask.data.len();
    let ghost data = mask.data@;
    let largest: usize = largest_area(subjects);
    let mut i: usize = 0;
    while i < n
        invariant
            are_subjects(data, old(mask).width as int, *subjects),
            is_largest(subjects.areas@, largest),
            mask.data@.len() == n,
            data.len() == n,
            data == old(mask).data@,
            mask.width == old(mask).width,
            mask.height == old(mask).height,
            i <= n,
            forall|k: int| i <= k < n ==> #[trigger] mask.data@[k] == data[k],
            forall|k: int| 0 <= k < i ==> #[trigger] mask.data@[k] == thinned(data, *subjects, min_area)[k],
        decreases n - i,
    {
        let l: usize = subjects.labels[i];
        assert(l == subjects.labels@[i as int]);
        if l != 0 {
            let area: usize = subjects.areas[l];
            assert(area == count(subjects.labels@, l));
            proof {
                let m = choose|m: int| 0 <= m < subjects.areas@.len() && #[trigger] subjects.areas@[m] == largest;
                assert(subjects.areas@[m] == largest);
                if area == largest {
                    assert(stays(*subjects, l, min_area));
                }
            }
            if area < min_area && area < largest {
                mask.data.set(i, 0);
            }
        }
        i = i + 1;
    }
    assert(mask.data@ =~= thinned(data, *subjects, min_area));
}

/// The largest subject is never dropped, whatever area is asked for: its pixels stay as
/// they were.
pub proof fn law_main_subject_stays(
    before: Seq<u8>,
    w: int,
    s: Subjects,
    largest: usize,
    min_area: usize,
    i: int,
)
    requires
        are_subjects(before, w, s),
        is_largest(s.areas@, largest),
        on(before, i),
        s.areas@[s.labels@[i] as int] == largest,
    ensures
        thinned(before, s, min_area)[i] == before[i],
{
    assert(s.labels@[i] != 0);
    assert(s.areas@[s.labels@[i] as int] == count(s.labels@, s.labels@[i]));
}

/// A matte with a subject is never emptied: some pixel that was on stays on.
pub proof fn law_matte_is_never_emptied(before: Seq<u8>, w: int, s: Subjects, min_area: usize, i: int)
    requires
        are_subjects(before, w, s),
        on(before, i),
    ensures
        exists|k: int| on(before, k) && #[trigger] thinned(before, s, min_area)[k] == before[k],
{
    let k = lemma_largest_pixel(before, w, s, i);
    assert(s.areas@[s.labels@[k] as int] == count(s.labels@, s.labels@[k]));
    assert(thinned(before, s, min_area)[k] == before[k]);
}

/// Some pixel belongs to a subject that none is larger than.
proof fn lemma_largest_pixel(before: Seq<u8>, w: int, s: Subjects, i: int) -> (k: int)
    requires
        are_subjects(before, w, s),
        on(before, i),
    ensures
        on(before, k),
        forall|m: int| 0 < m < s.areas@.len() ==> #[trigger] s.areas@[m] <= s.areas@[s.labels@[k] as int],
{
    let k = lemma_largest_upto(before, s.labels@, s.areas@, i, before.len() as int);
    assert(s.areas@.len() == s.areas.len());
    assert forall|m: int| 0 < m < s.areas@.len() implies #[trigger] s.areas@[m] <= s.areas@[s.labels@[k] as int] by {
        let l = m as usize;
        assert(l == m);
        if exists|j: int| 0 <= j < s.labels@.len() && #[trigger] s.labels@[j] == l {
            let j = choose|j: int| 0 <= j < s.labels@.len() && #[trigger] s.labels@[j] == l;
            assert(on(before, j));
            assert(area_at(s.labels@, s.areas@, j) <= area_at(s.labels@, s.areas@, k));
        } else {
            lemma_count_none(s.labels@, l);
        }
    }
    k
}

/// The area of the subject of a pixel.
spec fn area_at(labels: Seq<usize>, areas: Seq<usize>, i: int) -> usize {
    areas[labels[i] as int]
}

/// A pixel whose subject is no smaller than those of the first `n` pixels.
proof fn lemma_largest_upto(before: Seq<u8>, labels: Seq<usize>, areas: Seq<usize>, i: int, n: int) -> (k: int)
    requires
        on(before, i),
        0 <= n <= before.len(),
    ensures
        on(before, k),
        forall|j: int| 0 <= j < n && on(before, j) ==> #[trigger] area_at(labels, areas, j) <= area_at(labels, areas, k),
    decreases n,
{
    if n == 0 {
        i
    } else {
        let k = lemma_largest_upto(before, labels, areas, i, n - 1);
        if on(before, n - 1) && area_at(labels, areas, n - 1) > area_at(labels, areas, k) {
            n - 1
        } else {
            k
        }
    }
}

/// A subject is kept whole or dropped whole: of two pixels of one subject, either
/// both stay or both become zero.
pub proof fn law_subjects_stay_whole(before: Seq<u8>, w: int, s: Subjects, min_area: usize, i: int, j: int)
    requires
        are_subjects(before, w, s),
        on(before, i),
        on(before, j),
        linked(before, w, i, j),
    ensures
        ({
            let after = thinned(before, s, min_area);
            (after[i] == before[i] && after[j] == before[j]) || (after[i] == 0 && after[j] == 0)
        }),
{
    assert(s.labels@[i] == s.labels@[j]);
}

// ---------------------------------------------------------------------------
// What can be relied on
// ---------------------------------------------------------------------------

/// The border is a twentieth of the side, and at least two pixels wide; the faint edge of
/// a subject, from a tenth of its opacity on, belongs to it.
pub proof fn law_borders_and_edges(side: int, data: Seq<u8>, i: int)
    ensures
        side >= 40 ==> border(side) == side / 20,
        side < 40 ==> border(side) == 2,
        0 <= i < data.len() ==> (on(data, i) <==> data[i] >= 25),
        !(0 <= i < data.len()) ==> !on(data, i),
        U2NET_SIZE == 320,
{
}

/// Pixels touch exactly where they are next to each other in a row or a column.
pub proof fn law_neighbours_touch(w: int, x: int, y: int, x2: int, y2: int)
    requires
        0 <= x < w,
        0 <= x2 < w,
        0 <= y,
        0 <= y2,
    ensures
        touch(w, y * w + x, y2 * w + x2) <==> (y == y2 && (x2 == x + 1 || x2 == x - 1)) || (x == x2 && (y2 == y + 1
            || y2 == y - 1)),
{
    lemma_row_and_column(w, x, y);
    lemma_row_and_column(w, x2, y2);
}

proof fn lemma_row_and_column(w: int, x: int, y: int)
    requires
        0 <= x < w,
        0 <= y,
    ensures
        (y * w + x) / w == y,
        (y * w + x) % w == x,
{
    vstd::arithmetic::div_mod::lemma_fundamental_div_mod_converse(y * w + x, w, y, x);
}

/// Pixels of a subject are linked to themselves, to those they touch, and through those to
/// others; nothing else is linked.
pub proof fn law_touching_pixels_are_linked(data: Seq<u8>, w: int, a: int, b: int, c: int)
    ensures
        on(data, a) ==> linked(data, w, a, a),
        linked(data, w, a, b) && on(data, c) && touch(w, b, c) ==> linked(data, w, a, c),
        linked(data, w, a, b) ==> on(data, a) && on(data, b),
        linked(data, w, a, b) && a != b ==> exists|k: int| #[trigger] touch(w, a, k) && on(data, k) && linked(data, w, k, b),
{
    if on(data, a) {
        let p = seq![a];
        assert(is_path(data, w, p));
        assert(p[0] == a && p.last() == a);
    }
    if linked(data, w, a, b) {
        let path = choose|path: Seq<int>| #[trigger] is_path(data, w, path) && path[0] == a && path.last() == b;
        assert(on(data, path[0]));
        assert(on(data, path[path.len() - 1]));
        if on(data, c) && touch(w, b, c) {
            let longer = path.push(c);
            assert forall|k: int| 0 <= k < longer.len() implies on(data, #[trigger] longer[k]) by {
                if k < path.len() {
                    assert(longer[k] == path[k]);
                }
            }
            assert forall|k: int| 0 < k < longer.len() implies touch(w, longer[k - 1], #[trigger] longer[k]) by {
                if k < path.len() {
                    assert(longer[k] == path[k] && longer[k - 1] == path[k - 1]);
                } else {
                    assert(longer[k - 1] == path.last());
                }
            }
            assert(is_path(data, w, longer));
            assert(longer[0] == a && longer.last() == c);
        }
        if a != b {
            let rest = path.subrange(1, path.len() as int);
            assert(path.len() > 1);
            assert(touch(w, path[0], path[1]));
            assert forall|k: int| 0 <= k < rest.len() implies on(data, #[trigger] rest[k]) by {
                assert(rest[k] == path[k + 1]);
            }
            assert forall|k: int| 0 < k < rest.len() implies touch(w, rest[k - 1], #[trigger] rest[k]) by {
                assert(rest[k] == path[k + 1] && rest[k - 1] == path[k]);
            }
            assert(is_path(data, w, rest));
            assert(rest[0] == path[1] && rest.last() == b);
            assert(touch(w, a, path[1]) && on(data, path[1]) && linked(data, w, path[1], b));
        }
    }
}

/// The subjects of a matte: pixels have one number where they are linked, none where they
/// are off, and each area is the number of pixels.
pub proof fn law_subjects_are_the_linked_parts(data: Seq<u8>, w: int, s: Subjects, i: int, j: int)
    requires
        are_subjects(data, w, s),
        0 <= i < data.len(),
        0 <= j < data.len(),
    ensures
        s.labels@.len() == data.len(),
        s.areas@.len() > 0 && s.areas@[0] == 0,
        data[i] < 25 ==> s.labels@[i] == 0,
        data[i] >= 25 ==> 0 < s.labels@[i] < s.areas@.len(),
        data[i] >= 25 && data[j] >= 25 ==> (s.labels@[i] == s.labels@[j] <==> linked(data, w, i, j)),
        ({
            let l = s.labels@[i];
            data[i] >= 25 ==> s.areas@[l as int] == s.labels@.filter(|x: usize| x == l).len()
        }),
{
    lemma_counted_pixels(s.labels@, s.labels@[i]);
    assert(on(data, i) <==> data[i] >= 25);
    assert(on(data, j) <==> data[j] >= 25);
}

proof fn lemma_counted_pixels(labels: Seq<usize>, l: usize)
    ensures
        count(labels, l) == labels.filter(|x: usize| x == l).len(),
    decreases labels.len(),
{
    reveal(Seq::filter);
    if labels.len() > 0 {
        lemma_counted_pixels(labels.drop_last(), l);
    }
}

/// A subject that is large enough stays, and so does every pixel that belongs to none; a
/// subject that is too small, beside a larger one, goes.
pub proof fn law_small_subjects_go(before: Seq<u8>, w: int, s: Subjects, min_area: usize, i: int, other: int)
    requires
        are_subjects(before, w, s),
        0 <= i < before.len(),
    ensures
        thinned(before, s, min_area).len() == before.len(),
        before[i] < 25 ==> thinned(before, s, min_area)[i] == before[i],
        before[i] >= 25 && s.areas@[s.labels@[i] as int] >= min_area ==> thinned(before, s, min_area)[i] == before[i],
        before[i] >= 25 && s.areas@[s.labels@[i] as int] < min_area && 0 < other < s.areas@.len() && s.areas@[other]
            > s.areas@[s.labels@[i] as int] ==> thinned(before, s, min_area)[i] == 0,
{
    assert(on(before, i) <==> before[i] >= 25);
}

/// The largest area is that of a subject, and none is larger.
pub proof fn law_largest_area_is_largest(areas: Seq<usize>, v: usize, l: int)
    requires
        is_largest(areas, v),
    ensures
        0 <= l < areas.len() ==> areas[l] <= v,
        areas.len() > 0 ==> areas.contains(v),
        areas.len() == 0 ==> v == 0,
{
}

} // verus!
