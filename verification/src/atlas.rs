//! A texture atlas that packs images with a skyline: the skyline is a list of
//! points `(x, y)`, each the left end of a horizontal segment at height `y`
//! that runs to the next point's `x`; everything placed so far lies below it.

use vstd::prelude::*;
use crate::pow2::{next_pow2, checked_next_pow2, lemma_next_pow2};

verus! {

/// A growable pixel buffer into which images are packed.
pub struct Atlas {
    pixel_size: u32,
    width: u32,
    height: u32,
    buffer: Vec<u8>,
    skyline: Vec<(u32, u32)>,
}

/// What an atlas holds: its dimensions, its pixels row by row, and its skyline.
pub struct AtlasView {
    pub pixel_size: nat,
    pub width: nat,
    pub height: nat,
    pub buffer: Seq<u8>,
    pub skyline: Seq<(u32, u32)>,
}

impl View for Atlas {
    type V = AtlasView;

    closed spec fn view(&self) -> AtlasView {
        AtlasView {
            pixel_size: self.pixel_size as nat,
            width: self.width as nat,
            height: self.height as nat,
            buffer: self.buffer@,
            skyline: self.skyline@,
        }
    }
}

// ---------------------------------------------------------------------------
// Where an image of a given size goes
// ---------------------------------------------------------------------------

/// Index of the first skyline point at or after `from` whose x is at least
/// `x_end`, or the skyline's length where there is none.
pub open spec fn first_at_or_past(sky: Seq<(u32, u32)>, from: int, x_end: int) -> int
    decreases sky.len() - from,
{
    if from < 0 || from >= sky.len() {
        sky.len() as int
    } else if sky[from].0 >= x_end {
        from
    } else {
        first_at_or_past(sky, from + 1, x_end)
    }
}

/// Last index of the run of skyline points that an image of width `w` put at
/// point `i` lies over.
pub open spec fn span_end(sky: Seq<(u32, u32)>, i: int, w: int) -> int {
    first_at_or_past(sky, i + 1, sky[i].0 + w) - 1
}

/// Highest skyline point among the points `i..=l`.
pub open spec fn span_top(sky: Seq<(u32, u32)>, i: int, l: int) -> int
    decreases l - i,
{
    if l <= i {
        sky[i].1 as int
    } else {
        let below = span_top(sky, i, l - 1);
        if sky[l].1 > below {
            sky[l].1 as int
        } else {
            below
        }
    }
}

/// Every point up to `i` starts no further right than `max_x`.
pub open spec fn starts_within(sky: Seq<(u32, u32)>, i: int, max_x: int) -> bool {
    forall|k: int| 0 <= k <= i ==> #[trigger] sky[k].0 <= max_x
}

/// The height of a found place, or `u32::MAX` where none was found.
pub open spec fn found_height(found: Option<(u32, usize, usize)>) -> int {
    match found {
        Some(t) => t.0 as int,
        None => u32::MAX as int,
    }
}

/// Point `i` can take an image of width `w` with its bottom at most `max_y`.
pub open spec fn fits_at(sky: Seq<(u32, u32)>, i: int, w: int, max_x: int, max_y: int) -> bool {
    &&& 0 <= i < sky.len()
    &&& starts_within(sky, i, max_x)
    &&& span_top(sky, i, span_end(sky, i, w)) <= max_y
}

/// The best place among the first `n` skyline points: the lowest one, and the
/// first of the lowest.
pub open spec fn best_place(sky: Seq<(u32, u32)>, n: int, w: int, max_x: int, max_y: int) -> Option<(u32, usize, usize)>
    decreases n,
{
    if n <= 0 {
        None
    } else {
        let prev = best_place(sky, n - 1, w, max_x, max_y);
        let i = n - 1;
        let top = span_top(sky, i, span_end(sky, i, w));
        if fits_at(sky, i, w, max_x, max_y) && top < found_height(prev) {
            Some((top as u32, i as usize, span_end(sky, i, w) as usize))
        } else {
            prev
        }
    }
}

/// Where an image of `w` by `h` goes in an atlas of `width` by `height`:
/// `(y, i, l)`, with the image at the x of skyline point `i`, its top at `y`,
/// lying over the points `i..=l`.
pub open spec fn place_of(sky: Seq<(u32, u32)>, width: int, height: int, w: int, h: int) -> Option<(u32, usize, usize)> {
    if w > width || h > height {
        None
    } else {
        best_place(sky, sky.len() as int, w, width - w, height - h)
    }
}

proof fn lemma_first_at_or_past(sky: Seq<(u32, u32)>, from: int, j: int, x_end: int)
    requires
        0 <= from <= j <= sky.len(),
        forall|k: int| from <= k < j ==> #[trigger] sky[k].0 < x_end,
        j == sky.len() || sky[j].0 >= x_end,
    ensures
        first_at_or_past(sky, from, x_end) == j,
    decreases j - from,
{
    if from < j {
        lemma_first_at_or_past(sky, from + 1, j, x_end);
    }
}

proof fn lemma_first_at_or_past_bounds(sky: Seq<(u32, u32)>, from: int, x_end: int)
    requires
        0 <= from,
    ensures
        first_at_or_past(sky, from, x_end) <= sky.len(),
        from <= sky.len() ==> from <= first_at_or_past(sky, from, x_end),
    decreases sky.len() - from,
{
    if from < sky.len() && sky[from].0 < x_end {
        lemma_first_at_or_past_bounds(sky, from + 1, x_end);
    }
}

proof fn lemma_span_top_bounds(sky: Seq<(u32, u32)>, i: int, l: int)
    requires
        0 <= i < sky.len(),
        l < sky.len(),
    ensures
        span_top(sky, i, l) >= sky[i].1,
        span_top(sky, i, l) <= u32::MAX,
        forall|k: int| i <= k <= l ==> sky[k].1 <= span_top(sky, i, l),
        exists|k: int| i <= k && (k == i || k <= l) && span_top(sky, i, l) == #[trigger] sky[k].1,
    decreases l - i,
{
    if l > i {
        lemma_span_top_bounds(sky, i, l - 1);
        if sky[l].1 <= span_top(sky, i, l - 1) {
            let k = choose|k: int| i <= k && (k == i || k <= l - 1) && span_top(sky, i, l - 1) == #[trigger] sky[k].1;
            assert(i <= k && (k == i || k <= l) && span_top(sky, i, l) == sky[k].1);
        } else {
            assert(i <= l && (l == i || l <= l) && span_top(sky, i, l) == sky[l].1);
        }
    } else {
        assert(i <= i && (i == i || i <= l) && span_top(sky, i, l) == sky[i].1);
    }
}

proof fn lemma_best_place_settles(sky: Seq<(u32, u32)>, i: int, n: int, w: int, max_x: int, max_y: int)
    requires
        0 <= i <= n,
        i < sky.len() ==> sky[i].0 > max_x,
    ensures
        best_place(sky, n, w, max_x, max_y) == best_place(sky, i, w, max_x, max_y),
    decreases n - i,
{
    if n > i {
        lemma_best_place_settles(sky, i, n - 1, w, max_x, max_y);
        if n - 1 < sky.len() {
            assert(!starts_within(sky, n - 1, max_x)) by {
                assert(sky[i].0 > max_x);
            }
        }
    }
}

// ---------------------------------------------------------------------------
// Pixels
// ---------------------------------------------------------------------------

/// `buf` with the `len` bytes of `src` from `src_at` written at `at`.
pub open spec fn write_run(buf: Seq<u8>, src: Seq<u8>, at: int, src_at: int, len: int) -> Seq<u8> {
    Seq::new(buf.len(), |p: int| if at <= p < at + len { src[src_at + p - at] } else { buf[p] })
}

/// `buf` with the first `rows` rows of `src`, each `stride` bytes, written
/// one after the other: row `r` at byte `(y + r) * row_bytes + col`, a later
/// row over an earlier one where they meet.
pub open spec fn write_rows(buf: Seq<u8>, src: Seq<u8>, row_bytes: int, stride: int, rows: int, col: int, y: int) -> Seq<u8>
    decreases rows,
{
    if rows <= 0 {
        buf
    } else {
        write_run(
            write_rows(buf, src, row_bytes, stride, rows - 1, col, y),
            src,
            (y + rows - 1) * row_bytes + col,
            (rows - 1) * stride,
            stride,
        )
    }
}

/// Every row that `write_rows` writes lies within both the buffer and the source.
pub open spec fn rows_fit(buf_len: int, src_len: int, row_bytes: int, stride: int, rows: int, col: int, y: int) -> bool {
    rows <= 0 || ((y + rows - 1) * row_bytes + col + stride <= buf_len && rows * stride <= src_len)
}

/// `n` zero bytes.
pub open spec fn zeros(n: int) -> Seq<u8> {
    Seq::new(n as nat, |i: int| 0u8)
}

/// The atlas is consistent: its buffer holds `width * height` pixels, its
/// size fits a `u32`, and its skyline starts at the left edge and runs left
/// to right.
pub open spec fn atlas_wf(m: AtlasView) -> bool {
    &&& m.width <= u32::MAX
    &&& m.height <= u32::MAX
    &&& m.pixel_size <= u32::MAX
    &&& m.buffer.len() == m.width * m.height * m.pixel_size
    &&& m.width * m.height <= u32::MAX
    &&& m.width * m.height * m.pixel_size <= u32::MAX
    &&& m.skyline.len() >= 1
    &&& m.skyline[0].0 == 0
    &&& forall|a: int, b: int| 0 <= a <= b < m.skyline.len() ==> #[trigger] m.skyline[a].0 <= #[trigger] m.skyline[b].0
}

// ---------------------------------------------------------------------------
// Growing
// ---------------------------------------------------------------------------

/// The size an atlas of `width` by `height` grows to so that it may take an
/// image of `w` by `h`: the shorter side doubles, and a side shorter than the
/// image becomes the power of two that holds it.
pub open spec fn grow_dims(width: int, height: int, w: int, h: int) -> (int, int) {
    let (nw, nh) = if width <= height { (2 * width, height) } else { (width, 2 * height) };
    (if w > nw { next_pow2(w) } else { nw }, if h > nh { next_pow2(h) } else { nh })
}

/// An atlas of size `d` with pixels of `pixel_size` bytes fits a `u32`.
pub open spec fn dims_fit(pixel_size: int, d: (int, int)) -> bool {
    &&& d.0 <= u32::MAX
    &&& d.1 <= u32::MAX
    &&& d.0 * d.1 <= u32::MAX
    &&& d.0 * d.1 * pixel_size <= u32::MAX
}

/// `m` resized to `width` by `height`: the old pixels stay at the top left
/// and the rest is zero.
pub open spec fn resized(m: AtlasView, width: int, height: int) -> AtlasView {
    AtlasView {
        pixel_size: m.pixel_size,
        width: width as nat,
        height: height as nat,
        buffer: write_rows(
            zeros(width * height * m.pixel_size),
            m.buffer,
            width * m.pixel_size,
            (m.width * m.pixel_size) as int,
            m.height as int,
            0,
            0,
        ),
        skyline: m.skyline,
    }
}

/// `m` grown once towards an image of `w` by `h`.
pub open spec fn grown(m: AtlasView, w: int, h: int) -> AtlasView {
    let d = grow_dims(m.width as int, m.height as int, w, h);
    resized(m, d.0, d.1)
}

/// `m` grown `n` times towards an image of `w` by `h`.
pub open spec fn grown_n(m: AtlasView, w: int, h: int, n: nat) -> AtlasView
    decreases n,
{
    if n == 0 {
        m
    } else {
        grown(grown_n(m, w, h, (n - 1) as nat), w, h)
    }
}

/// The first `n` growths of `m` towards `w` by `h` all fit a `u32`.
pub open spec fn grows_fit(m: AtlasView, w: int, h: int, n: nat) -> bool {
    forall|k: nat| k < n ==> #[trigger] dims_fit(
        m.pixel_size as int,
        grow_dims(grown_n(m, w, h, k).width as int, grown_n(m, w, h, k).height as int, w, h),
    )
}

/// Where `w` by `h` goes in `m`, without growing.
pub open spec fn place_in(m: AtlasView, w: int, h: int) -> Option<(u32, usize, usize)> {
    place_of(m.skyline, m.width as int, m.height as int, w, h)
}

/// After `n` growths, each fitting a `u32`, `m` takes `w` by `h`.
pub open spec fn places_after(m: AtlasView, w: int, h: int, n: nat) -> bool {
    &&& grows_fit(m, w, h, n)
    &&& place_in(grown_n(m, w, h, n), w, h) is Some
}

/// `m` takes an image of `w` by `h` after some growths that fit a `u32`.
pub open spec fn can_place(m: AtlasView, w: int, h: int) -> bool {
    exists|n: nat| places_after(m, w, h, n)
}

/// How often `m` grows before it takes `w` by `h`: the fewest growths after
/// which it does.
pub open spec fn grow_count(m: AtlasView, w: int, h: int) -> nat {
    choose|n: nat| places_after(m, w, h, n) && forall|k: nat| k < n ==> !(#[trigger] place_in(grown_n(m, w, h, k), w, h) is Some)
}

/// The atlas once grown as far as an image of `w` by `h` needs.
pub open spec fn settled(m: AtlasView, w: int, h: int) -> AtlasView {
    grown_n(m, w, h, grow_count(m, w, h))
}

/// Where the image goes in the settled atlas: `(x, y)` of its top left corner.
pub open spec fn added_at(m: AtlasView, w: int, h: int) -> (u32, u32) {
    let s = settled(m, w, h);
    let p = place_in(s, w, h).unwrap();
    (s.skyline[p.1 as int].0, p.0)
}

/// An image of `w` by `h` whose rows lie `stride` bytes apart in a slice of
/// `src_len` bytes can be added to `m`: some growths, each fitting a `u32`,
/// make room for it, and the slice and the grown buffer hold its rows.
pub open spec fn can_add(m: AtlasView, src_len: int, w: int, h: int, stride: int) -> bool {
    &&& can_place(m, w, h)
    &&& ({
        let s = settled(m, w, h);
        let at = added_at(m, w, h);
        rows_fit(s.buffer.len() as int, src_len, (s.width * s.pixel_size) as int, stride, h, at.0 * s.pixel_size, at.1 as int)
    })
}

/// The skyline after an image of `w` by `h` is put at point `i` with top `y`,
/// over points `i..=l`: those points give way to one at the image's left edge,
/// at its bottom, and one at its right edge, at the height of point `l`.
pub open spec fn raised(sky: Seq<(u32, u32)>, y: int, i: int, l: int, w: int, h: int) -> Seq<(u32, u32)> {
    sky.subrange(0, i) + seq![(sky[i].0, (y + h) as u32), ((sky[i].0 + w) as u32, sky[l].1)] + sky.subrange(l + 1, sky.len() as int)
}

/// `m` after an image of `w` by `h` in `src`, with rows `stride` bytes apart,
/// has been added.
pub open spec fn added(m: AtlasView, src: Seq<u8>, w: int, h: int, stride: int) -> AtlasView {
    let s = settled(m, w, h);
    let p = place_in(s, w, h).unwrap();
    let x = s.skyline[p.1 as int].0;
    AtlasView {
        pixel_size: s.pixel_size,
        width: s.width,
        height: s.height,
        buffer: write_rows(s.buffer, src, (s.width * s.pixel_size) as int, stride, h, x * s.pixel_size, p.0 as int),
        skyline: raised(s.skyline, p.0 as int, p.1 as int, p.2 as int, w, h),
    }
}

// ---------------------------------------------------------------------------
// What lies below the skyline
// ---------------------------------------------------------------------------

/// Height of the skyline over column `px`: that of the last point at or left
/// of `px`, if any.
pub open spec fn height_at(sky: Seq<(u32, u32)>, px: int) -> Option<u32>
    decreases sky.len(),
{
    if sky.len() == 0 {
        None
    } else if sky.last().0 <= px {
        Some(sky.last().1)
    } else {
        height_at(sky.drop_last(), px)
    }
}

/// The rectangle at `(x, y)` of `w` by `h` lies in the atlas's columns and
/// under its skyline.
pub open spec fn lies_below(m: AtlasView, x: int, y: int, w: int, h: int) -> bool {
    &&& 0 <= x
    &&& 0 <= y
    &&& x + w <= m.width
    &&& forall|px: int| x <= px < x + w ==> (#[trigger] height_at(m.skyline, px) matches Some(t) && y + h <= t)
}

/// The intervals `[a1, a1 + l1)` and `[a2, a2 + l2)` share a point.
pub open spec fn meet(a1: int, l1: int, a2: int, l2: int) -> bool {
    (if a1 > a2 { a1 } else { a2 }) < (if a1 + l1 < a2 + l2 { a1 + l1 } else { a2 + l2 })
}

/// Two rectangles share a pixel.
pub open spec fn overlaps(x1: int, y1: int, w1: int, h1: int, x2: int, y2: int, w2: int, h2: int) -> bool {
    meet(x1, w1, x2, w2) && meet(y1, h1, y2, h2)
}

proof fn lemma_write_rows_len(buf: Seq<u8>, src: Seq<u8>, row_bytes: int, stride: int, rows: int, col: int, y: int)
    ensures
        write_rows(buf, src, row_bytes, stride, rows, col, y).len() == buf.len(),
    decreases rows,
{
    if rows > 0 {
        lemma_write_rows_len(buf, src, row_bytes, stride, rows - 1, col, y);
    }
}

proof fn lemma_mul_u32_fits_u64(a: u32, b: u32)
    ensures
        a * b <= u64::MAX,
        0 <= a * b,
{
    assert(a * b <= 0xffff_ffffu64 * 0xffff_ffffu64) by (nonlinear_arith)
        requires
            a <= 0xffff_ffffu64,
            b <= 0xffff_ffffu64,
    ;
    assert(0 <= a * b) by (nonlinear_arith);
}

proof fn lemma_row_fits(buf_len: int, src_len: int, row_bytes: int, stride: int, rows: int, col: int, y: int, r: int)
    requires
        rows_fit(buf_len, src_len, row_bytes, stride, rows, col, y),
        0 <= r < rows,
        0 <= row_bytes,
        0 <= stride,
        0 <= col,
        0 <= y,
    ensures
        (y + r) * row_bytes + col + stride <= buf_len,
        0 <= (y + r) * row_bytes,
        r * stride + stride <= src_len,
        0 <= r * stride,
{
    assert((y + r) * row_bytes <= (y + rows - 1) * row_bytes) by (nonlinear_arith)
        requires
            r <= rows - 1,
            0 <= row_bytes,
    ;
    assert(r * stride + stride <= rows * stride) by (nonlinear_arith)
        requires
            r + 1 <= rows,
            0 <= stride,
    ;
    assert(0 <= (y + r) * row_bytes) by (nonlinear_arith)
        requires
            0 <= y + r,
            0 <= row_bytes,
    ;
    assert(0 <= r * stride) by (nonlinear_arith)
        requires
            0 <= r,
            0 <= stride,
    ;
}

proof fn lemma_first_at_or_past_props(sky: Seq<(u32, u32)>, from: int, x_end: int)
    requires
        0 <= from <= sky.len(),
    ensures
        from <= first_at_or_past(sky, from, x_end) <= sky.len(),
        forall|k: int| from <= k < first_at_or_past(sky, from, x_end) ==> #[trigger] sky[k].0 < x_end,
        first_at_or_past(sky, from, x_end) < sky.len() ==> sky[first_at_or_past(sky, from, x_end)].0 >= x_end,
    decreases sky.len() - from,
{
    if from < sky.len() && sky[from].0 < x_end {
        lemma_first_at_or_past_props(sky, from + 1, x_end);
    }
}

proof fn lemma_best_place_props(sky: Seq<(u32, u32)>, n: int, w: int, max_x: int, max_y: int)
    requires
        0 <= n <= sky.len(),
        sky.len() <= usize::MAX,
        0 <= w,
    ensures
        best_place(sky, n, w, max_x, max_y) matches Some(t) ==> {
            &&& 0 <= t.1 < n
            &&& fits_at(sky, t.1 as int, w, max_x, max_y)
            &&& t.2 as int == span_end(sky, t.1 as int, w)
            &&& t.0 as int == span_top(sky, t.1 as int, t.2 as int)
            &&& t.1 <= t.2 < sky.len()
        },
    decreases n,
{
    if n > 0 {
        lemma_best_place_props(sky, n - 1, w, max_x, max_y);
        let i = n - 1;
        lemma_first_at_or_past_props(sky, i + 1, sky[i].0 + w);
        lemma_span_top_bounds(sky, i, span_end(sky, i, w));
    }
}

/// What a found place is: the image's left edge is a skyline point, it fits
/// to the right and below, and its top is the highest point it lies over.
pub proof fn lemma_place_of(sky: Seq<(u32, u32)>, width: int, height: int, w: int, h: int)
    requires
        sky.len() <= usize::MAX,
        0 <= w,
        0 <= h,
    ensures
        place_of(sky, width, height, w, h) matches Some(t) ==> {
            &&& w <= width
            &&& h <= height
            &&& 0 <= t.1 <= t.2 < sky.len()
            &&& sky[t.1 as int].0 + w <= width
            &&& t.0 + h <= height
            &&& t.2 as int == span_end(sky, t.1 as int, w)
            &&& t.0 as int == span_top(sky, t.1 as int, t.2 as int)
        },
{
    if w <= width && h <= height {
        lemma_best_place_props(sky, sky.len() as int, w, width - w, height - h);
    }
}

proof fn lemma_grown_n_keeps(m: AtlasView, w: int, h: int, n: nat)
    ensures
        grown_n(m, w, h, n).pixel_size == m.pixel_size,
        grown_n(m, w, h, n).skyline == m.skyline,
    decreases n,
{
    if n > 0 {
        lemma_grown_n_keeps(m, w, h, (n - 1) as nat);
    }
}

proof fn lemma_grown_n_fits(m: AtlasView, w: int, h: int, n: nat)
    requires
        atlas_wf(m),
        grows_fit(m, w, h, n),
    ensures
        grown_n(m, w, h, n).width <= u32::MAX,
        grown_n(m, w, h, n).height <= u32::MAX,
{
    if n > 0 {
        let g = grown_n(m, w, h, (n - 1) as nat);
        let d = grow_dims(g.width as int, g.height as int, w, h);
        assert(((n - 1) as nat) < n);
        assert(dims_fit(m.pixel_size as int, d));
        assert(grown_n(m, w, h, n) == resized(g, d.0, d.1));
        lemma_next_pow2(w);
        lemma_next_pow2(h);
    }
}

proof fn lemma_grown_n_widens(m: AtlasView, w: int, h: int, n: nat)
    ensures
        grown_n(m, w, h, n).width >= m.width,
        grown_n(m, w, h, n).height >= m.height,
    decreases n,
{
    if n > 0 {
        lemma_grown_n_widens(m, w, h, (n - 1) as nat);
        let g = grown_n(m, w, h, (n - 1) as nat);
        lemma_next_pow2(w);
        lemma_next_pow2(h);
    }
}

/// Where the atlas can take an image, the fewest growths after which it does
/// are well defined.
proof fn lemma_grow_count_exists(m: AtlasView, w: int, h: int)
    requires
        can_place(m, w, h),
    ensures
        places_after(m, w, h, grow_count(m, w, h)),
        forall|k: nat| k < grow_count(m, w, h) ==> !(#[trigger] place_in(grown_n(m, w, h, k), w, h) is Some),
{
    let n = choose|n: nat| places_after(m, w, h, n);
    lemma_least_placing(m, w, h, n, 0);
}

proof fn lemma_least_placing(m: AtlasView, w: int, h: int, n: nat, k: nat)
    requires
        places_after(m, w, h, n),
        k <= n,
        forall|j: nat| j < k ==> !(#[trigger] place_in(grown_n(m, w, h, j), w, h) is Some),
    ensures
        exists|c: nat| places_after(m, w, h, c) && forall|j: nat| j < c ==> !(#[trigger] place_in(grown_n(m, w, h, j), w, h) is Some),
    decreases n - k,
{
    if place_in(grown_n(m, w, h, k), w, h) is Some {
        assert(places_after(m, w, h, k));
    } else {
        assert(k < n);
        lemma_least_placing(m, w, h, n, k + 1);
    }
}

proof fn lemma_grow_count(m: AtlasView, w: int, h: int, k: nat)
    requires
        places_after(m, w, h, k),
        forall|j: nat| j < k ==> !(#[trigger] place_in(grown_n(m, w, h, j), w, h) is Some),
    ensures
        grow_count(m, w, h) == k,
{
    let c = grow_count(m, w, h);
    assert(places_after(m, w, h, c) && forall|j: nat| j < c ==> !(#[trigger] place_in(grown_n(m, w, h, j), w, h) is Some));
    if c < k {
        assert(!(place_in(grown_n(m, w, h, c), w, h) is Some));
    } else if k < c {
        assert(!(place_in(grown_n(m, w, h, k), w, h) is Some));
    }
}

proof fn lemma_raised_wf(sky: Seq<(u32, u32)>, width: int, height: int, w: int, h: int)
    requires
        sky.len() <= usize::MAX,
        width <= u32::MAX,
        height <= u32::MAX,
        0 <= w,
        0 <= h,
        sky.len() >= 1,
        sky[0].0 == 0,
        forall|a: int, b: int| 0 <= a <= b < sky.len() ==> #[trigger] sky[a].0 <= #[trigger] sky[b].0,
        place_of(sky, width, height, w, h) is Some,
    ensures
        ({
            let t = place_of(sky, width, height, w, h).unwrap();
            let r = raised(sky, t.0 as int, t.1 as int, t.2 as int, w, h);
            &&& r.len() >= 1
            &&& r[0].0 == 0
            &&& forall|a: int, b: int| 0 <= a <= b < r.len() ==> #[trigger] r[a].0 <= #[trigger] r[b].0
        }),
{
    lemma_place_of(sky, width, height, w, h);
    let t = place_of(sky, width, height, w, h).unwrap();
    let (y, i, l) = (t.0 as int, t.1 as int, t.2 as int);
    let x = sky[i].0;
    lemma_first_at_or_past_props(sky, i + 1, x + w);
    let r = raised(sky, y, i, l, w, h);
    assert(r.len() == sky.len() - (l - i + 1) + 2);
    assert forall|a: int| 0 <= a < r.len() implies #[trigger] r[a] == (if a < i {
        sky[a]
    } else if a == i {
        (x, (y + h) as u32)
    } else if a == i + 1 {
        ((x + w) as u32, sky[l].1)
    } else {
        sky[a - i - 2 + l + 1]
    }) by {}
    assert forall|a: int, b: int| 0 <= a <= b < r.len() implies #[trigger] r[a].0 <= #[trigger] r[b].0 by {
        let ra = r[a];
        let rb = r[b];
        if b > i + 1 {
            let bb = b - i - 2 + l + 1;
            assert(rb == sky[bb]);
            assert(sky[l + 1].0 >= x + w);
            assert(sky[l + 1].0 <= sky[bb].0);
            if a > i + 1 {
                let aa = a - i - 2 + l + 1;
                assert(ra == sky[aa]);
                assert(sky[aa].0 <= sky[bb].0);
            } else if a < i {
                assert(ra == sky[a]);
                assert(sky[a].0 <= sky[bb].0);
            }
        } else if b == i + 1 {
            if a < i {
                assert(ra == sky[a]);
                assert(sky[a].0 <= sky[i].0);
            }
        } else if b == i {
            if a < i {
                assert(ra == sky[a]);
                assert(sky[a].0 <= sky[i].0);
            }
        } else {
            assert(ra == sky[a]);
            assert(rb == sky[b]);
            assert(sky[a].0 <= sky[b].0);
        }
    }
    if i == 0 {
        assert(r[0].0 == x);
    }
}

proof fn lemma_height_at_concat(a: Seq<(u32, u32)>, b: Seq<(u32, u32)>, px: int)
    ensures
        height_at(a + b, px) == (match height_at(b, px) {
            Some(v) => Some(v),
            None => height_at(a, px),
        }),
    decreases b.len(),
{
    if b.len() == 0 {
        assert(a + b =~= a);
    } else {
        assert((a + b).last() == b.last());
        assert((a + b).drop_last() =~= a + b.drop_last());
        lemma_height_at_concat(a, b.drop_last(), px);
    }
}

proof fn lemma_height_at_none(s: Seq<(u32, u32)>, px: int)
    requires
        forall|k: int| 0 <= k < s.len() ==> #[trigger] s[k].0 > px,
    ensures
        height_at(s, px) is None,
    decreases s.len(),
{
    if s.len() > 0 {
        assert(s.last() == s[s.len() - 1]);
        assert forall|k: int| 0 <= k < s.drop_last().len() implies #[trigger] s.drop_last()[k].0 > px by {
            assert(s.drop_last()[k] == s[k]);
        }
        lemma_height_at_none(s.drop_last(), px);
    }
}

proof fn lemma_height_at_some(s: Seq<(u32, u32)>, px: int)
    requires
        s.len() > 0,
        s[0].0 <= px,
    ensures
        height_at(s, px) is Some,
        exists|k: int| 0 <= k < s.len() && height_at(s, px) == Some(#[trigger] s[k].1),
    decreases s.len(),
{
    if s.last().0 <= px {
        assert(height_at(s, px) == Some(s[s.len() - 1].1));
    } else {
        assert(s.drop_last()[0] == s[0]);
        lemma_height_at_some(s.drop_last(), px);
        let k = choose|k: int| 0 <= k < s.drop_last().len() && height_at(s.drop_last(), px) == Some(#[trigger] s.drop_last()[k].1);
        assert(s.drop_last()[k] == s[k]);
    }
}

/// The skyline runs left to right.
pub open spec fn sky_sorted(sky: Seq<(u32, u32)>) -> bool {
    forall|a: int, b: int| 0 <= a <= b < sky.len() ==> #[trigger] sky[a].0 <= #[trigger] sky[b].0
}

/// An image of `w` by `h` at point `i`, top `y`, over points `i..=l`, as a
/// found place leaves it.
pub open spec fn run_at(sky: Seq<(u32, u32)>, y: int, i: int, l: int, w: int, h: int) -> bool {
    &&& 0 <= i <= l < sky.len()
    &&& 0 <= w
    &&& 0 <= h
    &&& 0 <= y
    &&& sky[i].0 + w <= u32::MAX
    &&& y + h <= u32::MAX
    &&& forall|k: int| i < k <= l ==> #[trigger] sky[k].0 < sky[i].0 + w
    &&& l + 1 < sky.len() ==> sky[l + 1].0 >= sky[i].0 + w
    &&& forall|k: int| i <= k <= l ==> #[trigger] sky[k].1 <= y
}

proof fn lemma_run_split(sky: Seq<(u32, u32)>, y: int, i: int, l: int, w: int, h: int)
    requires
        run_at(sky, y, i, l, w, h),
    ensures
        sky =~= sky.subrange(0, i) + sky.subrange(i, l + 1) + sky.subrange(l + 1, sky.len() as int),
        raised(sky, y, i, l, w, h) == sky.subrange(0, i) + seq![(sky[i].0, (y + h) as u32), ((sky[i].0 + w) as u32, sky[l].1)]
            + sky.subrange(l + 1, sky.len() as int),
{
}

proof fn lemma_raised_left(sky: Seq<(u32, u32)>, y: int, i: int, l: int, w: int, h: int, px: int)
    requires
        sky_sorted(sky),
        run_at(sky, y, i, l, w, h),
        px < sky[i].0,
    ensures
        height_at(raised(sky, y, i, l, w, h), px) == height_at(sky, px),
{
    let pre = sky.subrange(0, i);
    let mid = sky.subrange(i, l + 1);
    let suf = sky.subrange(l + 1, sky.len() as int);
    let two = seq![(sky[i].0, (y + h) as u32), ((sky[i].0 + w) as u32, sky[l].1)];
    lemma_run_split(sky, y, i, l, w, h);
    lemma_height_at_concat(pre + mid, suf, px);
    lemma_height_at_concat(pre, mid, px);
    lemma_height_at_concat(pre + two, suf, px);
    lemma_height_at_concat(pre, two, px);
    assert forall|k: int| 0 <= k < suf.len() implies #[trigger] suf[k].0 > px by {
        assert(suf[k] == sky[l + 1 + k]);
        assert(sky[i].0 <= sky[l + 1 + k].0);
    }
    lemma_height_at_none(suf, px);
    assert forall|k: int| 0 <= k < mid.len() implies #[trigger] mid[k].0 > px by {
        assert(mid[k] == sky[i + k]);
        assert(sky[i].0 <= sky[i + k].0);
    }
    lemma_height_at_none(mid, px);
    assert(two[0].0 > px && two[1].0 > px);
    lemma_height_at_none(two, px);
}

proof fn lemma_raised_under(sky: Seq<(u32, u32)>, y: int, i: int, l: int, w: int, h: int, px: int)
    requires
        sky_sorted(sky),
        run_at(sky, y, i, l, w, h),
        sky[i].0 <= px < sky[i].0 + w,
    ensures
        height_at(raised(sky, y, i, l, w, h), px) == Some((y + h) as u32),
        height_at(sky, px) matches Some(v) && v <= y,
{
    let pre = sky.subrange(0, i);
    let mid = sky.subrange(i, l + 1);
    let suf = sky.subrange(l + 1, sky.len() as int);
    let two = seq![(sky[i].0, (y + h) as u32), ((sky[i].0 + w) as u32, sky[l].1)];
    lemma_run_split(sky, y, i, l, w, h);
    lemma_height_at_concat(pre + mid, suf, px);
    lemma_height_at_concat(pre, mid, px);
    lemma_height_at_concat(pre + two, suf, px);
    lemma_height_at_concat(pre, two, px);
    assert forall|k: int| 0 <= k < suf.len() implies #[trigger] suf[k].0 > px by {
        assert(suf[k] == sky[l + 1 + k]);
        assert(sky[l + 1].0 <= sky[l + 1 + k].0);
    }
    lemma_height_at_none(suf, px);
    assert(mid[0] == sky[i]);
    lemma_height_at_some(mid, px);
    let k = choose|k: int| 0 <= k < mid.len() && height_at(mid, px) == Some(#[trigger] mid[k].1);
    assert(mid[k] == sky[i + k]);
    assert(two.last() == two[1]);
    assert(two.drop_last().last() == two[0]);
    assert(two.drop_last().len() == 1);
    assert(height_at(two, px) == height_at(two.drop_last(), px));
    assert(height_at(two.drop_last(), px) == Some(two[0].1));
}

proof fn lemma_raised_right(sky: Seq<(u32, u32)>, y: int, i: int, l: int, w: int, h: int, px: int)
    requires
        sky_sorted(sky),
        run_at(sky, y, i, l, w, h),
        sky[i].0 + w <= px,
    ensures
        height_at(raised(sky, y, i, l, w, h), px) == height_at(sky, px),
{
    let pre = sky.subrange(0, i);
    let mid = sky.subrange(i, l + 1);
    let suf = sky.subrange(l + 1, sky.len() as int);
    let two = seq![(sky[i].0, (y + h) as u32), ((sky[i].0 + w) as u32, sky[l].1)];
    lemma_run_split(sky, y, i, l, w, h);
    lemma_height_at_concat(pre + mid, suf, px);
    lemma_height_at_concat(pre, mid, px);
    lemma_height_at_concat(pre + two, suf, px);
    lemma_height_at_concat(pre, two, px);
    assert(two.last() == two[1]);
    assert(height_at(two, px) == Some(sky[l].1));
    if l > i {
        assert(sky[l].0 < sky[i].0 + w);
    }
    assert(mid.last() == sky[l]);
    assert(height_at(mid, px) == Some(sky[l].1));
}

/// A found place is a run: it lies over points `i..=l`, no lower than any of them.
proof fn lemma_place_is_run(sky: Seq<(u32, u32)>, width: int, height: int, w: int, h: int)
    requires
        sky.len() <= usize::MAX,
        width <= u32::MAX,
        height <= u32::MAX,
        0 <= w,
        0 <= h,
        place_of(sky, width, height, w, h) is Some,
    ensures
        ({
            let t = place_of(sky, width, height, w, h).unwrap();
            run_at(sky, t.0 as int, t.1 as int, t.2 as int, w, h)
        }),
{
    lemma_place_of(sky, width, height, w, h);
    let t = place_of(sky, width, height, w, h).unwrap();
    let (i, l) = (t.1 as int, t.2 as int);
    lemma_first_at_or_past_props(sky, i + 1, sky[i].0 + w);
    lemma_span_top_bounds(sky, i, l);
}

/// How an added image changes the skyline's heights: over the image's columns
/// they become its bottom edge, which is no higher than they were; elsewhere
/// they stay.
proof fn lemma_raised_heights(sky: Seq<(u32, u32)>, y: int, i: int, l: int, w: int, h: int, px: int)
    requires
        sky_sorted(sky),
        run_at(sky, y, i, l, w, h),
        sky[0].0 == 0,
        0 <= px,
    ensures
        height_at(sky, px) is Some,
        height_at(raised(sky, y, i, l, w, h), px) == (if sky[i].0 <= px < sky[i].0 + w {
            Some((y + h) as u32)
        } else {
            height_at(sky, px)
        }),
        sky[i].0 <= px < sky[i].0 + w ==> height_at(sky, px).unwrap() <= y,
{
    lemma_height_at_some(sky, px);
    if px < sky[i].0 {
        lemma_raised_left(sky, y, i, l, w, h, px);
    } else if px < sky[i].0 + w {
        lemma_raised_under(sky, y, i, l, w, h, px);
    } else {
        lemma_raised_right(sky, y, i, l, w, h, px);
    }
}

/// What packing promises: the added image lies in the atlas's columns and
/// under the new skyline, and whatever lay under the old skyline still lies
/// under the new one and shares no pixel with the added image. Every image
/// added lies under the skyline from then on, so no two added images overlap.
pub proof fn lemma_added_keeps_images_apart(m: AtlasView, src: Seq<u8>, w: int, h: int, stride: int)
    requires
        atlas_wf(m),
        m.skyline.len() <= usize::MAX,
        can_place(m, w, h),
        0 <= w <= u32::MAX,
        0 <= h <= u32::MAX,
    ensures
        ({
            let a = added(m, src, w, h, stride);
            let at = added_at(m, w, h);
            &&& lies_below(a, at.0 as int, at.1 as int, w, h)
            &&& forall|rx: int, ry: int, rw: int, rh: int|
                #![trigger lies_below(m, rx, ry, rw, rh)]
                lies_below(m, rx, ry, rw, rh) ==> lies_below(a, rx, ry, rw, rh)
                    && !overlaps(rx, ry, rw, rh, at.0 as int, at.1 as int, w, h)
        }),
{
    let n = grow_count(m, w, h);
    let s = settled(m, w, h);
    lemma_grow_count_exists(m, w, h);
    lemma_grown_n_keeps(m, w, h, n);
    lemma_grown_n_widens(m, w, h, n);
    lemma_grown_n_fits(m, w, h, n);
    let a = added(m, src, w, h, stride);
    let at = added_at(m, w, h);
    lemma_place_of(s.skyline, s.width as int, s.height as int, w, h);
    lemma_place_is_run(s.skyline, s.width as int, s.height as int, w, h);
    let t = place_in(s, w, h).unwrap();
    let (y, i, l) = (t.0 as int, t.1 as int, t.2 as int);
    let x = at.0 as int;
    let sky = s.skyline;
    assert(sky_sorted(sky));
    assert(a.skyline == raised(sky, y, i, l, w, h));
    assert forall|px: int| x <= px < x + w implies (#[trigger] height_at(a.skyline, px) matches Some(v) && y + h <= v) by {
        lemma_raised_heights(sky, y, i, l, w, h, px);
    }
    assert forall|rx: int, ry: int, rw: int, rh: int|
        #![trigger lies_below(m, rx, ry, rw, rh)]
        lies_below(m, rx, ry, rw, rh) implies lies_below(a, rx, ry, rw, rh)
            && !overlaps(rx, ry, rw, rh, x, y, w, h) by {
        assert forall|px: int| rx <= px < rx + rw implies (#[trigger] height_at(a.skyline, px) matches Some(v) && ry + rh <= v) by {
            lemma_raised_heights(sky, y, i, l, w, h, px);
            assert(height_at(m.skyline, px) matches Some(v) && ry + rh <= v);
        }
        if overlaps(rx, ry, rw, rh, x, y, w, h) {
            let px = if x > rx { x } else { rx };
            lemma_raised_heights(sky, y, i, l, w, h, px);
            assert(height_at(m.skyline, px) matches Some(v) && ry + rh <= v);
        }
    }
}

proof fn lemma_write_rows_reads_back(buf: Seq<u8>, src: Seq<u8>, row_bytes: int, stride: int, rows: int, col: int, y: int, r: int, k: int)
    requires
        rows_fit(buf.len() as int, src.len() as int, row_bytes, stride, rows, col, y),
        0 <= stride <= row_bytes,
        0 <= col,
        0 <= y,
        0 <= r < rows,
        0 <= k < stride,
    ensures
        write_rows(buf, src, row_bytes, stride, rows, col, y)[(y + r) * row_bytes + col + k] == src[r * stride + k],
    decreases rows,
{
    lemma_row_fits(buf.len() as int, src.len() as int, row_bytes, stride, rows, col, y, r);
    lemma_write_rows_len(buf, src, row_bytes, stride, rows - 1, col, y);
    if r < rows - 1 {
        assert(rows_fit(buf.len() as int, src.len() as int, row_bytes, stride, rows - 1, col, y)) by {
            lemma_row_fits(buf.len() as int, src.len() as int, row_bytes, stride, rows, col, y, rows - 2);
            assert((rows - 1) * stride <= rows * stride) by (nonlinear_arith)
                requires
                    0 <= stride,
            ;
        }
        lemma_write_rows_reads_back(buf, src, row_bytes, stride, rows - 1, col, y, r, k);
        assert((y + r) * row_bytes + row_bytes <= (y + rows - 1) * row_bytes) by (nonlinear_arith)
            requires
                r + 1 <= rows - 1,
                0 <= row_bytes,
        ;
    }
}

proof fn lemma_write_rows_elsewhere(buf: Seq<u8>, src: Seq<u8>, row_bytes: int, stride: int, rows: int, col: int, y: int, p: int)
    requires
        0 <= p < buf.len(),
        rows <= 0 || p < y * row_bytes + col || p >= (y + rows - 1) * row_bytes + col + stride,
        0 <= stride <= row_bytes,
        0 <= y,
    ensures
        write_rows(buf, src, row_bytes, stride, rows, col, y)[p] == buf[p],
    decreases rows,
{
    if rows > 0 {
        lemma_write_rows_len(buf, src, row_bytes, stride, rows - 1, col, y);
        if rows > 1 {
            assert(y * row_bytes <= (y + rows - 2) * row_bytes && (y + rows - 2) * row_bytes + row_bytes == (y + rows - 1) * row_bytes) by (nonlinear_arith)
                requires
                    rows >= 2,
                    0 <= row_bytes,
            ;
        }
        assert(y * row_bytes <= (y + rows - 1) * row_bytes) by (nonlinear_arith)
            requires
                rows >= 1,
                0 <= row_bytes,
        ;
        lemma_write_rows_elsewhere(buf, src, row_bytes, stride, rows - 1, col, y, p);
    }
}

/// Reading back what was added: where the image's rows do not run into one
/// another (`stride` at most a row of the atlas), row `r` of the source sits at
/// pixel `(x, y + r)`, and every byte before the first row and after the last
/// is as it was in the grown atlas.
pub proof fn lemma_added_reads_back(m: AtlasView, src: Seq<u8>, w: int, h: int, stride: int)
    requires
        atlas_wf(m),
        m.skyline.len() <= usize::MAX,
        can_place(m, w, h),
        0 <= w <= u32::MAX,
        0 <= h <= u32::MAX,
        0 <= stride <= settled(m, w, h).width * settled(m, w, h).pixel_size,
        ({
            let s = settled(m, w, h);
            let at = added_at(m, w, h);
            rows_fit(s.buffer.len() as int, src.len() as int, (s.width * s.pixel_size) as int, stride, h, at.0 * s.pixel_size, at.1 as int)
        }),
    ensures
        ({
            let s = settled(m, w, h);
            let a = added(m, src, w, h, stride);
            let at = added_at(m, w, h);
            let row = (s.width * s.pixel_size) as int;
            let start = at.1 * row + at.0 * s.pixel_size;
            &&& forall|r: int, k: int| 0 <= r < h && 0 <= k < stride ==> #[trigger] a.buffer[start + r * row + k] == src[r * stride + k]
            &&& forall|p: int| 0 <= p < s.buffer.len() && (p < start || p >= start + (h - 1) * row + stride) ==> #[trigger] a.buffer[p] == s.buffer[p]
        }),
{
    let s = settled(m, w, h);
    let at = added_at(m, w, h);
    let row = (s.width * s.pixel_size) as int;
    let col = at.0 * s.pixel_size;
    let y = at.1 as int;
    let start = y * row + col;
    assert(0 <= at.0 * s.pixel_size) by (nonlinear_arith)
        requires
            0 <= at.0,
            0 <= s.pixel_size,
    ;
    assert forall|r: int, k: int| 0 <= r < h && 0 <= k < stride implies #[trigger] added(m, src, w, h, stride).buffer[start + r * row + k] == src[r * stride + k] by {
        lemma_write_rows_reads_back(s.buffer, src, row, stride, h, col, y, r, k);
        assert((y + r) * row == y * row + r * row) by (nonlinear_arith);
    }
    assert forall|p: int| 0 <= p < s.buffer.len() && (p < start || p >= start + (h - 1) * row + stride) implies #[trigger] added(m, src, w, h, stride).buffer[p] == s.buffer[p] by {
        assert((y + h - 1) * row == y * row + (h - 1) * row) by (nonlinear_arith);
        lemma_write_rows_elsewhere(s.buffer, src, row, stride, h, col, y, p);
    }
}

/// One growth doubles the atlas's shorter side (its width when the sides are
/// equal) and keeps the longer one; a side still shorter than the image then
/// becomes the power of two that holds it. The pixel size and the skyline
/// stay.
pub proof fn lemma_growth_doubles_shorter_side(m: AtlasView, w: int, h: int)
    ensures
        ({
            let g = grown(m, w, h);
            &&& g.pixel_size == m.pixel_size
            &&& g.skyline == m.skyline
            &&& if m.width <= m.height {
                &&& g.width == (if w > 2 * m.width { next_pow2(w) } else { (2 * m.width) as int })
                &&& g.height == (if h > m.height { next_pow2(h) } else { m.height as int })
            } else {
                &&& g.width == (if w > m.width { next_pow2(w) } else { m.width as int })
                &&& g.height == (if h > 2 * m.height { next_pow2(h) } else { (2 * m.height) as int })
            }
        }),
{
    lemma_next_pow2(w);
    lemma_next_pow2(h);
}

/// Adding an image never shrinks the atlas and keeps its pixel size.
pub proof fn lemma_added_grows(m: AtlasView, src: Seq<u8>, w: int, h: int, stride: int)
    ensures
        added(m, src, w, h, stride).pixel_size == m.pixel_size,
        added(m, src, w, h, stride).width >= m.width,
        added(m, src, w, h, stride).height >= m.height,
{
    lemma_grown_n_keeps(m, w, h, grow_count(m, w, h));
    lemma_grown_n_widens(m, w, h, grow_count(m, w, h));
}

/// Growing keeps the pixels: pixel `(px, py)` of the old atlas, byte `k`,
/// is the same pixel and byte of the resized one.
pub proof fn lemma_resized_keeps_pixels(m: AtlasView, width: int, height: int, px: int, py: int, k: int)
    requires
        atlas_wf(m),
        m.width <= width,
        m.height <= height,
        0 <= px < m.width,
        0 <= py < m.height,
        0 <= k < m.pixel_size,
    ensures
        resized(m, width, height).buffer[(py * width + px) * m.pixel_size + k] == m.buffer[(py * m.width + px) * m.pixel_size + k],
{
    let p = m.pixel_size as int;
    let ow = m.width as int;
    let oh = m.height as int;
    assert(oh > 0 ==> (oh - 1) * (width * p) + ow * p <= width * height * p) by (nonlinear_arith)
        requires
            ow <= width,
            oh <= height,
            0 <= p,
            0 <= ow,
    ;
    assert(oh * (ow * p) <= ow * oh * p) by (nonlinear_arith);
    assert(ow * p <= width * p) by (nonlinear_arith)
        requires
            ow <= width,
            0 <= p,
    ;
    assert(0 <= px * p + k < ow * p) by (nonlinear_arith)
        requires
            0 <= px < ow,
            0 <= k < p,
    ;
    assert(width * height * p == zeros(width * height * m.pixel_size).len());
    lemma_write_rows_reads_back(zeros(width * height * m.pixel_size), m.buffer, width * p, ow * p, oh, 0, 0, py, px * p + k);
    assert((py * width + px) * p + k == (0 + py) * (width * p) + 0 + (px * p + k)) by (nonlinear_arith);
    assert((py * ow + px) * p + k == py * (ow * p) + (px * p + k)) by (nonlinear_arith);
}

/// The top of an image of width `w` put at point `i`.
pub open spec fn top_at(sky: Seq<(u32, u32)>, i: int, w: int) -> int {
    span_top(sky, i, span_end(sky, i, w))
}

/// Point `i` can take the image, and its top there is below `u32::MAX`.
pub open spec fn can_sit(sky: Seq<(u32, u32)>, i: int, w: int, max_x: int, max_y: int) -> bool {
    fits_at(sky, i, w, max_x, max_y) && top_at(sky, i, w) < u32::MAX
}

proof fn lemma_best_place_lowest(sky: Seq<(u32, u32)>, n: int, w: int, max_x: int, max_y: int)
    requires
        0 <= n <= sky.len(),
        sky.len() <= usize::MAX,
        0 <= w,
    ensures
        best_place(sky, n, w, max_x, max_y) is None <==> forall|k: int| 0 <= k < n ==> !#[trigger] can_sit(sky, k, w, max_x, max_y),
        best_place(sky, n, w, max_x, max_y) matches Some(t) ==> {
            &&& can_sit(sky, t.1 as int, w, max_x, max_y)
            &&& t.0 as int == top_at(sky, t.1 as int, w)
            &&& forall|k: int| 0 <= k < n && #[trigger] can_sit(sky, k, w, max_x, max_y) ==> top_at(sky, k, w) >= t.0
            &&& forall|k: int| 0 <= k < t.1 && #[trigger] can_sit(sky, k, w, max_x, max_y) ==> top_at(sky, k, w) > t.0
        },
    decreases n,
{
    if n > 0 {
        lemma_best_place_lowest(sky, n - 1, w, max_x, max_y);
        lemma_best_place_props(sky, n - 1, w, max_x, max_y);
        let i = n - 1;
        lemma_first_at_or_past_props(sky, i + 1, sky[i].0 + w);
        lemma_span_top_bounds(sky, i, span_end(sky, i, w));
        if best_place(sky, n, w, max_x, max_y) is None {
            assert forall|k: int| 0 <= k < n implies !#[trigger] can_sit(sky, k, w, max_x, max_y) by {
                if k < n - 1 {
                } else {
                    assert(k == i);
                }
            }
        } else if forall|k: int| 0 <= k < n ==> !#[trigger] can_sit(sky, k, w, max_x, max_y) {
            assert(!can_sit(sky, i, w, max_x, max_y));
            assert(forall|k: int| 0 <= k < n - 1 ==> !#[trigger] can_sit(sky, k, w, max_x, max_y));
        }
    }
}

/// Where `find_point` puts an image: at the lowest place that takes it, and of
/// the lowest the leftmost; nowhere when no place takes it.
pub proof fn lemma_place_is_lowest(sky: Seq<(u32, u32)>, width: int, height: int, w: int, h: int)
    requires
        sky.len() <= usize::MAX,
        0 <= w,
        0 <= h,
    ensures
        place_of(sky, width, height, w, h) is None <==> (w > width || h > height
            || forall|k: int| 0 <= k < sky.len() ==> !#[trigger] can_sit(sky, k, w, width - w, height - h)),
        place_of(sky, width, height, w, h) matches Some(t) ==> {
            &&& can_sit(sky, t.1 as int, w, width - w, height - h)
            &&& t.0 as int == top_at(sky, t.1 as int, w)
            &&& forall|k: int| 0 <= k < sky.len() && #[trigger] can_sit(sky, k, w, width - w, height - h) ==> top_at(sky, k, w) >= t.0
            &&& forall|k: int| 0 <= k < t.1 && #[trigger] can_sit(sky, k, w, width - w, height - h) ==> top_at(sky, k, w) > t.0
        },
{
    if w <= width && h <= height {
        lemma_best_place_lowest(sky, sky.len() as int, w, width - w, height - h);
    }
}

proof fn lemma_first_at_or_past_mono(sky: Seq<(u32, u32)>, from: int, x1: int, x2: int)
    requires
        0 <= from,
        x1 <= x2,
    ensures
        first_at_or_past(sky, from, x1) <= first_at_or_past(sky, from, x2),
    decreases sky.len() - from,
{
    lemma_first_at_or_past_bounds(sky, from, x2);
    if from < sky.len() && sky[from].0 < x1 {
        lemma_first_at_or_past_mono(sky, from + 1, x1, x2);
    }
}

proof fn lemma_span_top_mono(sky: Seq<(u32, u32)>, i: int, l1: int, l2: int)
    requires
        i <= l1 <= l2,
    ensures
        span_top(sky, i, l1) <= span_top(sky, i, l2),
    decreases l2 - l1,
{
    if l1 < l2 {
        lemma_span_top_mono(sky, i, l1, l2 - 1);
    }
}

/// A no larger image fits wherever a larger one does, and no higher: where
/// `find_point` places `w1` by `h1` with its top at `y1`, it places `w2` by
/// `h2`, no wider and no taller, with its top at most `y1`.
pub proof fn lemma_smaller_fits_no_higher(sky: Seq<(u32, u32)>, width: int, height: int, w1: int, h1: int, w2: int, h2: int)
    requires
        sky.len() <= usize::MAX,
        0 <= w2 <= w1,
        0 <= h2 <= h1,
        place_of(sky, width, height, w1, h1) is Some,
    ensures
        place_of(sky, width, height, w2, h2) matches Some(t2)
            && t2.0 <= place_of(sky, width, height, w1, h1).unwrap().0,
{
    lemma_place_is_lowest(sky, width, height, w1, h1);
    lemma_place_is_lowest(sky, width, height, w2, h2);
    let t = place_of(sky, width, height, w1, h1).unwrap();
    let i = t.1 as int;
    assert(can_sit(sky, i, w1, width - w1, height - h1));
    lemma_first_at_or_past_mono(sky, i + 1, sky[i].0 + w2, sky[i].0 + w1);
    lemma_first_at_or_past_bounds(sky, i + 1, sky[i].0 + w2);
    lemma_span_top_mono(sky, i, span_end(sky, i, w2), span_end(sky, i, w1));
    assert(top_at(sky, i, w2) <= top_at(sky, i, w1));
    assert(starts_within(sky, i, width - w2));
    assert(can_sit(sky, i, w2, width - w2, height - h2));
}

/// Rectangles `(x, y, w, h)` that all lie under the skyline of `m`.
pub open spec fn all_below(m: AtlasView, rects: Seq<(int, int, int, int)>) -> bool {
    forall|k: int| 0 <= k < rects.len() ==> #[trigger] lies_below(m, rects[k].0, rects[k].1, rects[k].2, rects[k].3)
}

/// No two of the rectangles `(x, y, w, h)` share a pixel.
pub open spec fn pairwise_apart(rects: Seq<(int, int, int, int)>) -> bool {
    forall|a: int, b: int|
        0 <= a < b < rects.len() ==> !overlaps(
            #[trigger] rects[a].0,
            rects[a].1,
            rects[a].2,
            rects[a].3,
            #[trigger] rects[b].0,
            rects[b].1,
            rects[b].2,
            rects[b].3,
        )
}

/// Packing keeps every image apart: where the images added so far, `rects`,
/// lie under the skyline and share no pixel, the same holds once the next
/// image is added, with it among them. A new atlas holds none, so every image
/// ever added to an atlas lies apart from every other.
pub proof fn lemma_added_keeps_all_apart(m: AtlasView, src: Seq<u8>, w: int, h: int, stride: int, rects: Seq<(int, int, int, int)>)
    requires
        atlas_wf(m),
        m.skyline.len() <= usize::MAX,
        can_place(m, w, h),
        0 <= w <= u32::MAX,
        0 <= h <= u32::MAX,
        all_below(m, rects),
        pairwise_apart(rects),
    ensures
        ({
            let at = added_at(m, w, h);
            let next = rects.push((at.0 as int, at.1 as int, w, h));
            &&& all_below(added(m, src, w, h, stride), next)
            &&& pairwise_apart(next)
        }),
{
    lemma_added_keeps_images_apart(m, src, w, h, stride);
    let a = added(m, src, w, h, stride);
    let at = added_at(m, w, h);
    let next = rects.push((at.0 as int, at.1 as int, w, h));
    assert forall|k: int| 0 <= k < next.len() implies #[trigger] lies_below(a, next[k].0, next[k].1, next[k].2, next[k].3) by {
        if k < rects.len() {
            assert(next[k] == rects[k]);
            assert(lies_below(m, rects[k].0, rects[k].1, rects[k].2, rects[k].3));
        }
    }
    assert forall|x: int, y: int|
        0 <= x < y < next.len() implies !overlaps(
            #[trigger] next[x].0,
            next[x].1,
            next[x].2,
            next[x].3,
            #[trigger] next[y].0,
            next[y].1,
            next[y].2,
            next[y].3,
        ) by {
        assert(next[x] == rects[x]);
        if y < rects.len() {
            assert(next[y] == rects[y]);
            assert(!overlaps(rects[x].0, rects[x].1, rects[x].2, rects[x].3, rects[y].0, rects[y].1, rects[y].2, rects[y].3));
        } else {
            assert(lies_below(m, rects[x].0, rects[x].1, rects[x].2, rects[x].3));
        }
    }
}

proof fn lemma_grown_n_len(m: AtlasView, w: int, h: int, n: nat)
    requires
        atlas_wf(m),
        grows_fit(m, w, h, n),
    ensures
        grown_n(m, w, h, n).buffer.len() == grown_n(m, w, h, n).width * grown_n(m, w, h, n).height * m.pixel_size,
        grown_n(m, w, h, n).width * grown_n(m, w, h, n).height * m.pixel_size <= u32::MAX,
        grown_n(m, w, h, n).width * grown_n(m, w, h, n).height <= u32::MAX,
{
    lemma_grown_n_keeps(m, w, h, n);
    if n > 0 {
        let g = grown_n(m, w, h, (n - 1) as nat);
        let d = grow_dims(g.width as int, g.height as int, w, h);
        assert(((n - 1) as nat) < n);
        assert(dims_fit(m.pixel_size as int, d));
        lemma_grown_n_keeps(m, w, h, (n - 1) as nat);
        lemma_next_pow2(w);
        lemma_next_pow2(h);
        lemma_write_rows_len(
            zeros(d.0 * d.1 * m.pixel_size),
            g.buffer,
            (d.0 * m.pixel_size) as int,
            (g.width * g.pixel_size) as int,
            g.height as int,
            0,
            0,
        );
    }
}

/// Where growing stops changing the atlas's size, it keeps that size.
proof fn lemma_grown_n_stays(m: AtlasView, w: int, h: int, k: nat, j: nat)
    requires
        k <= j,
        grow_dims(grown_n(m, w, h, k).width as int, grown_n(m, w, h, k).height as int, w, h)
            == (grown_n(m, w, h, k).width as int, grown_n(m, w, h, k).height as int),
    ensures
        grown_n(m, w, h, j).width == grown_n(m, w, h, k).width,
        grown_n(m, w, h, j).height == grown_n(m, w, h, k).height,
    decreases j - k,
{
    if j > k {
        lemma_grown_n_stays(m, w, h, k, (j - 1) as nat);
    }
}

/// Where no number of growths up to `k` makes room and the next growth does
/// not fit a `u32`, none ever does.
proof fn lemma_cannot_place_past(m: AtlasView, w: int, h: int, k: nat)
    requires
        !(place_in(grown_n(m, w, h, k), w, h) is Some),
        forall|j: nat| j < k ==> !(#[trigger] place_in(grown_n(m, w, h, j), w, h) is Some),
        !dims_fit(
            m.pixel_size as int,
            grow_dims(grown_n(m, w, h, k).width as int, grown_n(m, w, h, k).height as int, w, h),
        ),
    ensures
        !can_place(m, w, h),
{
    if can_place(m, w, h) {
        let n = choose|n: nat| places_after(m, w, h, n);
        if n > k {
            assert(dims_fit(
                m.pixel_size as int,
                grow_dims(grown_n(m, w, h, k).width as int, grown_n(m, w, h, k).height as int, w, h),
            ));
        }
    }
}

/// Where no number of growths up to `k` makes room and growing no longer
/// changes the size, none ever does.
proof fn lemma_stuck_cannot_place(m: AtlasView, w: int, h: int, k: nat)
    requires
        !(place_in(grown_n(m, w, h, k), w, h) is Some),
        forall|j: nat| j < k ==> !(#[trigger] place_in(grown_n(m, w, h, j), w, h) is Some),
        grow_dims(grown_n(m, w, h, k).width as int, grown_n(m, w, h, k).height as int, w, h)
            == (grown_n(m, w, h, k).width as int, grown_n(m, w, h, k).height as int),
    ensures
        !can_place(m, w, h),
{
    if can_place(m, w, h) {
        let n = choose|n: nat| places_after(m, w, h, n);
        if n >= k {
            lemma_grown_n_stays(m, w, h, k, n);
            lemma_grown_n_keeps(m, w, h, k);
            lemma_grown_n_keeps(m, w, h, n);
        }
    }
}

/// The size the atlas grows to from `atlas_width` by `atlas_height` towards an
/// image of `width` by `height`, where it fits a `u32` with pixels of
/// `pixel_size` bytes (see `grow_dims` and `dims_fit`); `None` where it does
/// not.
fn next_dims(pixel_size: u32, atlas_width: u32, atlas_height: u32, width: u32, height: u32) -> (r: Option<(u32, u32)>)
    ensures
        ({
            let d = grow_dims(atlas_width as int, atlas_height as int, width as int, height as int);
            match r {
                Some(n) => dims_fit(pixel_size as int, d) && n.0 == d.0 && n.1 == d.1,
                None => !dims_fit(pixel_size as int, d),
            }
        }),
{
    proof {
        lemma_next_pow2(width as int);
        lemma_next_pow2(height as int);
    }
    let mut nw: u64 = atlas_width as u64;
    let mut nh: u64 = atlas_height as u64;
    if atlas_width <= atlas_height {
        nw = nw * 2;
    } else {
        nh = nh * 2;
    }
    if width as u64 > nw {
        match checked_next_pow2(width) {
            Some(p) => {
                nw = p as u64;
            },
            None => {
                return None;
            },
        }
    }
    if height as u64 > nh {
        match checked_next_pow2(height) {
            Some(p) => {
                nh = p as u64;
            },
            None => {
                return None;
            },
        }
    }
    if nw > u32::MAX as u64 || nh > u32::MAX as u64 {
        return None;
    }
    proof {
        lemma_mul_u32_fits_u64(nw as u32, nh as u32);
    }
    let area = nw * nh;
    if area > u32::MAX as u64 {
        return None;
    }
    proof {
        lemma_mul_u32_fits_u64(area as u32, pixel_size);
    }
    let bytes = area * pixel_size as u64;
    if bytes > u32::MAX as u64 {
        return None;
    }
    Some((nw as u32, nh as u32))
}

/// Whether `rows` rows of `stride` bytes fit (see `rows_fit`).
fn rows_fit_check(buf_len: u32, src_len: usize, row_bytes: u64, stride: u32, rows: u32, col: u64, y: u32) -> (r: bool)
    ensures
        r == rows_fit(buf_len as int, src_len as int, row_bytes as int, stride as int, rows as int, col as int, y as int),
{
    if rows == 0 {
        return true;
    }
    let last: u128 = y as u128 + rows as u128 - 1;
    assert(last * row_bytes <= 0x2_0000_0000u128 * 0x1_0000_0000_0000_0000u128) by (nonlinear_arith)
        requires
            0 <= last <= 0x2_0000_0000u128,
            0 <= row_bytes <= 0x1_0000_0000_0000_0000u128,
    ;
    assert(rows * stride <= 0x1_0000_0000u128 * 0x1_0000_0000u128) by (nonlinear_arith)
        requires
            0 <= rows <= 0x1_0000_0000u128,
            0 <= stride <= 0x1_0000_0000u128,
    ;
    let end: u128 = last * row_bytes as u128 + col as u128 + stride as u128;
    let read: u128 = rows as u128 * stride as u128;
    end <= buf_len as u128 && read <= src_len as u128
}

impl Atlas {
    /// The atlas is consistent (see `atlas_wf`).
    pub open spec fn wf(&self) -> bool {
        atlas_wf(self@)
    }

    /// An empty atlas of `width` by `height` pixels of `pixel_size` bytes,
    /// all zero, with a flat skyline at the top.
    pub fn new(width: u32, height: u32, pixel_size: u32) -> (r: Self)
        requires
            width * height <= u32::MAX,
            width * height * pixel_size <= u32::MAX,
        ensures
            r@ == (AtlasView {
                pixel_size: pixel_size as nat,
                width: width as nat,
                height: height as nat,
                buffer: zeros(width * height * pixel_size),
                skyline: seq![(0u32, 0u32)],
            }),
            r.wf(),
    {
        let size = width * height * pixel_size;
        let r = Self {
            pixel_size,
            width,
            height,
            buffer: vec![0u8; size as usize],
            skyline: vec![(0u32, 0u32)],
        };
        assert(r.buffer@ =~= zeros(width * height * pixel_size));
        assert(r.skyline@ =~= seq![(0u32, 0u32)]);
        r
    }

    /// Bytes per pixel.
    pub fn pixel_size(&self) -> (r: u32)
        ensures
            r == self@.pixel_size,
    {
        self.pixel_size
    }

    /// Width in pixels.
    pub fn width(&self) -> (r: u32)
        ensures
            r == self@.width,
    {
        self.width
    }

    /// Height in pixels.
    pub fn height(&self) -> (r: u32)
        ensures
            r == self@.height,
    {
        self.height
    }

    /// The pixels, row by row.
    pub fn slice(&self) -> (r: &[u8])
        ensures
            r@ == self@.buffer,
    {
        self.buffer.as_slice()
    }

    /// Packs an image of `width` by `height` pixels of four bytes, rows
    /// back to back in `slice`; returns its top left corner (see `add_stride`).
    pub fn add(&mut self, slice: &[u8], width: u32, height: u32) -> (r: (u32, u32))
        requires
            old(self).wf(),
            width * 4 <= u32::MAX,
            can_add(old(self)@, slice@.len() as int, width as int, height as int, width * 4),
        ensures
            r == added_at(old(self)@, width as int, height as int),
            final(self)@ == added(old(self)@, slice@, width as int, height as int, width * 4),
            final(self).wf(),
            lies_below(final(self)@, r.0 as int, r.1 as int, width as int, height as int),
            forall|rx: int, ry: int, rw: int, rh: int|
                #![trigger lies_below(old(self)@, rx, ry, rw, rh)]
                lies_below(old(self)@, rx, ry, rw, rh) ==> lies_below(final(self)@, rx, ry, rw, rh)
                    && !overlaps(rx, ry, rw, rh, r.0 as int, r.1 as int, width as int, height as int),
    {
        self.add_stride(slice, width, height, width * 4)
    }

    /// Packs an image of `width` by `height` whose rows lie `stride` bytes
    /// apart in `slice`, growing the atlas until it fits; returns the image's
    /// top left corner.
    pub fn add_stride(&mut self, slice: &[u8], width: u32, height: u32, stride: u32) -> (r: (u32, u32))
        requires
            old(self).wf(),
            can_add(old(self)@, slice@.len() as int, width as int, height as int, stride as int),
        ensures
            r == added_at(old(self)@, width as int, height as int),
            final(self)@ == added(old(self)@, slice@, width as int, height as int, stride as int),
            final(self).wf(),
            lies_below(final(self)@, r.0 as int, r.1 as int, width as int, height as int),
            forall|rx: int, ry: int, rw: int, rh: int|
                #![trigger lies_below(old(self)@, rx, ry, rw, rh)]
                lies_below(old(self)@, rx, ry, rw, rh) ==> lies_below(final(self)@, rx, ry, rw, rh)
                    && !overlaps(rx, ry, rw, rh, r.0 as int, r.1 as int, width as int, height as int),
    {
        let sky_len = self.skyline.len();
        proof {
            lemma_added_keeps_images_apart(self@, slice@, width as int, height as int, stride as int);
        }
        let ghost m0 = self@;
        let ghost w = width as int;
        let ghost h = height as int;
        let ghost n0: nat = choose|n: nat| places_after(m0, w, h, n);
        let ghost mut k: nat = 0;
        let mut found = self.find_point(width, height);
        while found.is_none()
            invariant
                self.wf(),
                self@ == grown_n(m0, w, h, k),
                k <= n0,
                places_after(m0, w, h, n0),
                found == place_in(self@, w, h),
                forall|j: nat| j < k ==> !(#[trigger] place_in(grown_n(m0, w, h, j), w, h) is Some),
                sky_len == self@.skyline.len(),
                w == width as int,
                h == height as int,
            decreases n0 - k,
        {
            assert(k < n0);
            proof {
                lemma_grown_n_keeps(m0, w, h, k);
            }
            assert(dims_fit(
                m0.pixel_size as int,
                grow_dims(grown_n(m0, w, h, k).width as int, grown_n(m0, w, h, k).height as int, w, h),
            ));
            self.grow(width, height);
            proof {
                k = k + 1;
            }
            found = self.find_point(width, height);
        }
        proof {
            lemma_grown_n_keeps(m0, w, h, k);
            lemma_grow_count(m0, w, h, k);
            lemma_place_of(self@.skyline, self@.width as int, self@.height as int, w, h);
        }
        let (y, index, last_index) = found.unwrap();
        let x = self.skyline[index].0;
        self.copy(slice, stride as u64, height, x, y);
        let max_width = x + width;
        let max_height = y + height;
        let last_height = self.skyline[last_index].1;
        let ghost sky = self.skyline@;
        let n = self.skyline.len();
        let mut next: Vec<(u32, u32)> = Vec::new();
        let mut t: usize = 0;
        while t < index
            invariant
                sky == self.skyline@,
                n == sky.len(),
                index <= last_index < n,
                t <= index,
                next@ == sky.subrange(0, t as int),
            decreases index - t,
        {
            next.push(self.skyline[t]);
            assert(next@ =~= sky.subrange(0, t + 1));
            t += 1;
        }
        next.push((x, max_height));
        next.push((max_width, last_height));
        let ghost mid = seq![(x, max_height), (max_width, last_height)];
        assert(next@ =~= sky.subrange(0, index as int) + mid + sky.subrange(last_index + 1, last_index + 1));
        let mut t: usize = last_index + 1;
        while t < n
            invariant
                sky == self.skyline@,
                n == sky.len(),
                index <= last_index < n,
                last_index + 1 <= t <= n,
                next@ == sky.subrange(0, index as int) + mid + sky.subrange(last_index + 1, t as int),
            decreases n - t,
        {
            next.push(self.skyline[t]);
            assert(next@ =~= sky.subrange(0, index as int) + mid + sky.subrange(last_index + 1, t + 1));
            t += 1;
        }
        self.skyline = next;
        proof {
            let s = grown_n(m0, w, h, k);
            lemma_raised_wf(s.skyline, s.width as int, s.height as int, w, h);
            lemma_write_rows_len(s.buffer, slice@, (s.width * s.pixel_size) as int, stride as int, h, x * s.pixel_size, y as int);
            assert(self.skyline@ =~= raised(s.skyline, y as int, index as int, last_index as int, w, h));
        }
        (x, y)
    }

    /// Packs an image as `add_stride` does where the atlas can take it (see
    /// `can_add`); returns `None` and leaves the atlas as it was otherwise.
    pub fn try_add_stride(&mut self, slice: &[u8], width: u32, height: u32, stride: u32) -> (r: Option<(u32, u32)>)
        requires
            old(self).wf(),
        ensures
            final(self).wf(),
            r is Some <==> can_add(old(self)@, slice@.len() as int, width as int, height as int, stride as int),
            r matches Some(at) ==> at == added_at(old(self)@, width as int, height as int)
                && final(self)@ == added(old(self)@, slice@, width as int, height as int, stride as int),
            r is None ==> final(self)@ == old(self)@,
    {
        let ghost m = self@;
        let ghost w = width as int;
        let ghost h = height as int;
        let ghost mut k: nat = 0;
        let mut wd = self.width;
        let mut ht = self.height;
        proof {
            lemma_grown_n_keeps(m, w, h, 0);
        }
        let mut found = find_place(&self.skyline, wd, ht, width, height);
        while found.is_none()
            invariant
                self.wf(),
                self@ == m,
                w == width as int,
                h == height as int,
                wd == grown_n(m, w, h, k).width,
                ht == grown_n(m, w, h, k).height,
                grows_fit(m, w, h, k),
                found == place_in(grown_n(m, w, h, k), w, h),
                forall|j: nat| j < k ==> !(#[trigger] place_in(grown_n(m, w, h, j), w, h) is Some),
            decreases 2 * (u32::MAX as int) - wd - ht,
        {
            proof {
                lemma_grown_n_keeps(m, w, h, k);
                lemma_next_pow2(w);
                lemma_next_pow2(h);
            }
            match next_dims(self.pixel_size, wd, ht, width, height) {
                None => {
                    proof {
                        lemma_cannot_place_past(m, w, h, k);
                    }
                    return None;
                },
                Some(d) => {
                    if d.0 == wd && d.1 == ht {
                        proof {
                            lemma_stuck_cannot_place(m, w, h, k);
                        }
                        return None;
                    }
                    proof {
                        assert forall|j: nat| j < k + 1 implies #[trigger] dims_fit(
                            m.pixel_size as int,
                            grow_dims(grown_n(m, w, h, j).width as int, grown_n(m, w, h, j).height as int, w, h),
                        ) by {
                            if j < k {
                                assert(grows_fit(m, w, h, k));
                            }
                        }
                        assert forall|j: nat| j < k + 1 implies !(#[trigger] place_in(grown_n(m, w, h, j), w, h) is Some) by {
                            if j < k {
                            }
                        }
                        k = k + 1;
                        lemma_grown_n_keeps(m, w, h, k);
                    }
                    wd = d.0;
                    ht = d.1;
                    found = find_place(&self.skyline, wd, ht, width, height);
                },
            }
        }
        let sky_len = self.skyline.len();
        proof {
            assert(places_after(m, w, h, k));
            lemma_grow_count(m, w, h, k);
            lemma_grown_n_keeps(m, w, h, k);
            lemma_grown_n_len(m, w, h, k);
            lemma_place_of(m.skyline, wd as int, ht as int, w, h);
        }
        let (y, index, _last) = found.unwrap();
        let x = self.skyline[index].0;
        proof {
            lemma_mul_u32_fits_u64(x, self.pixel_size);
            lemma_mul_u32_fits_u64(wd, self.pixel_size);
        }
        let area: u64 = wd as u64 * ht as u64;
        proof {
            lemma_mul_u32_fits_u64(area as u32, self.pixel_size);
        }
        let buf_len: u32 = (area * self.pixel_size as u64) as u32;
        let row_bytes: u64 = wd as u64 * self.pixel_size as u64;
        let col: u64 = x as u64 * self.pixel_size as u64;
        if rows_fit_check(buf_len, slice.len(), row_bytes, stride, height, col, y) {
            Some(self.add_stride(slice, width, height, stride))
        } else {
            None
        }
    }

    /// Packs an image of four-byte pixels as `add` does where the atlas can
    /// take it (see `can_add`); returns `None` and leaves the atlas as it was
    /// otherwise, and where `width * 4` does not fit a `u32`.
    pub fn try_add(&mut self, slice: &[u8], width: u32, height: u32) -> (r: Option<(u32, u32)>)
        requires
            old(self).wf(),
        ensures
            final(self).wf(),
            r is Some <==> width * 4 <= u32::MAX
                && can_add(old(self)@, slice@.len() as int, width as int, height as int, width * 4),
            r matches Some(at) ==> at == added_at(old(self)@, width as int, height as int)
                && final(self)@ == added(old(self)@, slice@, width as int, height as int, width * 4),
            r is None ==> final(self)@ == old(self)@,
    {
        match width.checked_mul(4) {
            Some(stride) => self.try_add_stride(slice, width, height, stride),
            None => None,
        }
    }

    /// Resizes the atlas to `width` by `height`, no smaller than it was: the
    /// pixels stay at the top left, the new ones are zero.
    fn resize(&mut self, width: u32, height: u32)
        requires
            old(self).wf(),
            dims_fit(old(self)@.pixel_size as int, (width as int, height as int)),
            old(self)@.width <= width,
            old(self)@.height <= height,
        ensures
            final(self)@ == resized(old(self)@, width as int, height as int),
            final(self).wf(),
    {
        let ghost m = self@;
        proof {
            lemma_mul_u32_fits_u64(self.width, self.pixel_size);
        }
        let size = width * height * self.pixel_size;
        let stride: u64 = self.width as u64 * self.pixel_size as u64;
        let old_height = self.height;
        let mut old_buffer = vec![0u8; size as usize];
        std::mem::swap(&mut self.buffer, &mut old_buffer);
        proof {
            assert(self.buffer@ =~= zeros(width * height * m.pixel_size));
            let (ow, oh, p) = (m.width as int, m.height as int, m.pixel_size as int);
            assert(oh > 0 ==> (oh - 1) * (width * p) + ow * p <= width * height * p) by (nonlinear_arith)
                requires
                    ow <= width,
                    oh <= height,
                    0 <= p,
                    0 <= ow,
            ;
            assert(oh * (ow * p) <= ow * oh * p) by (nonlinear_arith);
        }
        self.width = width;
        self.copy(&old_buffer, stride, old_height, 0, 0);
        self.height = height;
        proof {
            lemma_write_rows_len(
                zeros(width * height * m.pixel_size),
                m.buffer,
                (width * m.pixel_size) as int,
                (m.width * m.pixel_size) as int,
                m.height as int,
                0,
                0,
            );
        }
    }

    /// Grows the atlas once towards an image of `width` by `height`.
    fn grow(&mut self, width: u32, height: u32)
        requires
            old(self).wf(),
            dims_fit(
                old(self)@.pixel_size as int,
                grow_dims(old(self)@.width as int, old(self)@.height as int, width as int, height as int),
            ),
        ensures
            final(self)@ == grown(old(self)@, width as int, height as int),
            final(self).wf(),
    {
        proof {
            lemma_next_pow2(width as int);
            lemma_next_pow2(height as int);
        }
        let mut next_width = self.width;
        let mut next_height = self.height;
        if next_width <= next_height {
            next_width = next_width * 2;
        } else {
            next_height = next_height * 2;
        }
        if width > next_width {
            next_width = checked_next_pow2(width).unwrap();
        }
        if height > next_height {
            next_height = checked_next_pow2(height).unwrap();
        }
        self.resize(next_width, next_height);
    }

    /// Writes `rows` rows of `slice`, `stride` bytes each, into the buffer,
    /// row `r` at pixel `(x, y + r)`.
    fn copy(&mut self, slice: &[u8], stride: u64, rows: u32, x: u32, y: u32)
        requires
            rows_fit(
                old(self)@.buffer.len() as int,
                slice@.len() as int,
                (old(self)@.width * old(self)@.pixel_size) as int,
                stride as int,
                rows as int,
                x * old(self)@.pixel_size,
                y as int,
            ),
        ensures
            final(self)@ == (AtlasView {
                buffer: write_rows(
                    old(self)@.buffer,
                    slice@,
                    (old(self)@.width * old(self)@.pixel_size) as int,
                    stride as int,
                    rows as int,
                    x * old(self)@.pixel_size,
                    y as int,
                ),
                ..old(self)@
            }),
    {
        proof {
            lemma_mul_u32_fits_u64(self.width, self.pixel_size);
            lemma_mul_u32_fits_u64(x, self.pixel_size);
        }
        let row_bytes: u64 = self.width as u64 * self.pixel_size as u64;
        let col: u64 = x as u64 * self.pixel_size as u64;
        let buf_len = self.buffer.len();
        let src_len = slice.len();
        let ghost buf0 = self.buffer@;
        let mut r: u32 = 0;
        while r < rows
            invariant
                self.width == old(self).width,
                self.height == old(self).height,
                self.pixel_size == old(self).pixel_size,
                self.skyline == old(self).skyline,
                buf0 == old(self).buffer@,
                buf_len == buf0.len(),
                src_len == slice@.len(),
                row_bytes == self.width * self.pixel_size,
                col == x * self.pixel_size,
                r <= rows,
                rows_fit(buf0.len() as int, slice@.len() as int, row_bytes as int, stride as int, rows as int, col as int, y as int),
                self.buffer@ == write_rows(buf0, slice@, row_bytes as int, stride as int, r as int, col as int, y as int),
            decreases rows - r,
        {
            proof {
                lemma_row_fits(buf0.len() as int, slice@.len() as int, row_bytes as int, stride as int, rows as int, col as int, y as int, r as int);
                lemma_write_rows_len(buf0, slice@, row_bytes as int, stride as int, r as int, col as int, y as int);
            }
            let start: usize = ((y as u64 + r as u64) * row_bytes + col) as usize;
            let from: usize = (r as u64 * stride) as usize;
            let len: usize = stride as usize;
            let ghost base = self.buffer@;
            let mut k: usize = 0;
            while k < len
                invariant
                    self.width == old(self).width,
                    self.height == old(self).height,
                    self.pixel_size == old(self).pixel_size,
                    self.skyline == old(self).skyline,
                    k <= len,
                    len == stride,
                    start + len <= base.len(),
                    from + len <= slice@.len(),
                    base.len() == buf0.len(),
                    buf_len == buf0.len(),
                    src_len == slice@.len(),
                    self.buffer@ == write_run(base, slice@, start as int, from as int, k as int),
                decreases len - k,
            {
                self.buffer.set(start + k, slice[from + k]);
                assert(self.buffer@ =~= write_run(base, slice@, start as int, from as int, k + 1));
                k += 1;
            }
            r += 1;
        }
    }
    /// Finds where an image of `width` by `height` goes without growing the
    /// atlas: `(y, i, l)`, the image at the x of skyline point `i` with its top
    /// at `y`, over points `i..=l`; the lowest place, and of the lowest the
    /// leftmost.
    pub fn find_point(&self, width: u32, height: u32) -> (r: Option<(u32, usize, usize)>)
        ensures
            r == place_of(self@.skyline, self@.width as int, self@.height as int, width as int, height as int),
    {
        find_place(&self.skyline, self.width, self.height, width, height)
    }
}

/// Where an image of `width` by `height` goes on skyline `sky_v` in an atlas
/// of `atlas_width` by `atlas_height` (see `place_of`).
fn find_place(sky_v: &Vec<(u32, u32)>, atlas_width: u32, atlas_height: u32, width: u32, height: u32) -> (r: Option<(u32, usize, usize)>)
    ensures
        r == place_of(sky_v@, atlas_width as int, atlas_height as int, width as int, height as int),
{
    if width > atlas_width || height > atlas_height {
        return None;
    }
    let max_width = atlas_width - width;
    let max_height = atlas_height - height;
    let ghost sky = sky_v@;
    let n = sky_v.len();
    let mut y: u32 = u32::MAX;
    let mut result: Option<(u32, usize, usize)> = None;
    let mut i: usize = 0;
    while i < n && sky_v[i].0 <= max_width
        invariant
            sky == sky_v@,
            n == sky.len(),
            i <= n,
            max_width == atlas_width - width,
            max_height == atlas_height - height,
            forall|k: int| 0 <= k < i ==> #[trigger] sky[k].0 <= max_width,
            result == best_place(sky, i as int, width as int, max_width as int, max_height as int),
            y as int == found_height(result),
        decreases n - i,
    {
        let px = sky_v[i].0;
        let mut py = sky_v[i].1;
        assert(starts_within(sky, i as int, max_width as int));
        if py < y {
            let x2 = px + width;
            let mut last_index = i;
            let mut j = i + 1;
            while j < n && sky_v[j].0 < x2
                invariant
                    sky == sky_v@,
                    n == sky.len(),
                    i < n,
                    i < j <= n,
                    last_index == j - 1,
                    x2 == sky[i as int].0 + width,
                    py as int == span_top(sky, i as int, j - 1),
                    forall|k: int| i < k < j ==> #[trigger] sky[k].0 < x2,
                decreases n - j,
            {
                let npy = sky_v[j].1;
                if npy > py {
                    py = npy;
                }
                last_index = j;
                j += 1;
            }
            proof {
                lemma_first_at_or_past(sky, i + 1, j as int, x2 as int);
            }
            if py < y && py <= max_height {
                y = py;
                result = Some((py, i, last_index));
            }
        } else {
            proof {
                lemma_first_at_or_past_bounds(sky, i + 1, sky[i as int].0 + width);
                lemma_span_top_bounds(sky, i as int, span_end(sky, i as int, width as int));
            }
        }
        i += 1;
    }
    proof {
        lemma_best_place_settles(sky, i as int, n as int, width as int, max_width as int, max_height as int);
    }
    result
}


} // verus!
