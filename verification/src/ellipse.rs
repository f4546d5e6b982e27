//! Ellipse drawing: samples the implicit equation at every integer
//! x-offset, stroking the four symmetric points per sample, with an
//! optional gap-guessing pass and an optional flood fill of the interior.

use vstd::prelude::*;

use crate::bmp::BMP;
use crate::errors::ErrorKind;
use crate::header::{dib_size, dib_width};
use crate::plane::{abs_height, editable, pixel_group, same_geometry};
use crate::fill::reachable;
use crate::write::{contains_coord, spec_encoded_px};

verus! {

/// The integer square root: the largest `r` with `r·r <= n`.
pub open spec fn is_isqrt(n: int, r: int) -> bool {
    r >= 0 && r * r <= n && (r + 1) * (r + 1) > n
}

/// The integer square root as a value: the unique `r` with
/// `r² <= n < (r+1)²`.
pub open spec fn spec_isqrt(n: int) -> int {
    choose|r: int| is_isqrt(n, r)
}

/// Integer square roots are unique.
proof fn lemma_isqrt_unique(n: int, r1: int, r2: int)
    requires
        is_isqrt(n, r1),
        is_isqrt(n, r2),
    ensures
        r1 == r2,
{
    if r1 < r2 {
        assert((r1 + 1) * (r1 + 1) <= r2 * r2) by (nonlinear_arith)
            requires
                0 <= r1 + 1 <= r2,
        ;
    }
    if r2 < r1 {
        assert((r2 + 1) * (r2 + 1) <= r1 * r1) by (nonlinear_arith)
            requires
                0 <= r2 + 1 <= r1,
        ;
    }
}

/// The height the ellipse sampler computes at x-offset `cx`:
/// `round(sqrt(b²(a² - cx²)) / a)` over the exact rationals.
pub open spec fn spec_ellipse_y(a: int, b: int, cx: int) -> int {
    (spec_isqrt(4 * (b * b * (a * a - cx * cx))) + a) / (2 * a)
}

/// The four symmetric stroke points of sample `d`: in the image `t`
/// (relative to the starting buffer `s`), the points at x-offset `d`
/// on both sides of the center and at height `spec_ellipse_y` sit in
/// range and carry the encoded stroke color.
pub open spec fn ellipse_sample_stroked(
    s: Seq<u8>,
    t: Seq<u8>,
    a: int,
    b: int,
    cx: int,
    cy: int,
    stroke: Seq<u8>,
    d: int,
) -> bool {
    let yv = spec_ellipse_y(a, b, d);
    &&& d <= cx && cx + d < dib_width(s) && yv <= cy && cy + yv < abs_height(s)
    &&& pixel_group(t, cx - d, cy + yv) == spec_encoded_px(s, stroke)
    &&& pixel_group(t, cx - d, cy - yv) == spec_encoded_px(s, stroke)
    &&& pixel_group(t, cx + d, cy + yv) == spec_encoded_px(s, stroke)
    &&& pixel_group(t, cx + d, cy - yv) == spec_encoded_px(s, stroke)
}

/// The stroked-or-untouched frame: relative to the starting buffer
/// `s0`, every in-range pixel group of `cur` either carries the encoded
/// stroke bytes `enc` or its original bytes.
pub open spec fn stroke_frame(s0: Seq<u8>, cur: Seq<u8>, enc: Seq<u8>) -> bool {
    forall|x2: int, y2: int|
        0 <= x2 < dib_width(s0) && 0 <= y2 < abs_height(s0) ==> #[trigger] pixel_group(cur, x2, y2)
            == enc || pixel_group(cur, x2, y2) == pixel_group(s0, x2, y2)
}

/// One pinned left sample: at x-offset `d`, the two symmetric points
/// left of the center sit in range and carry the stroke bytes `enc`.
spec fn left_pin(
    s0: Seq<u8>,
    cur: Seq<u8>,
    a: int,
    b: int,
    cx: int,
    cy: int,
    enc: Seq<u8>,
    d: int,
) -> bool {
    let yv = spec_ellipse_y(a, b, d);
    &&& d <= cx && 0 <= yv <= cy && cy + yv < abs_height(s0) && cx - d < dib_width(s0)
    &&& pixel_group(cur, cx - d, cy + yv) == enc
    &&& pixel_group(cur, cx - d, cy - yv) == enc
}

/// The left half of the stroked outline: every sampled x-offset up to
/// `n` is pinned.
spec fn left_arc(
    s0: Seq<u8>,
    cur: Seq<u8>,
    a: int,
    b: int,
    cx: int,
    cy: int,
    enc: Seq<u8>,
    n: int,
) -> bool {
    forall|d: int| 1 <= d <= n ==> #[trigger] left_pin(s0, cur, a, b, cx, cy, enc, d)
}

/// One pinned right sample, mirroring `left_pin`.
spec fn right_pin(
    s0: Seq<u8>,
    cur: Seq<u8>,
    a: int,
    b: int,
    cx: int,
    cy: int,
    enc: Seq<u8>,
    d: int,
) -> bool {
    let yv = spec_ellipse_y(a, b, d);
    &&& 0 <= yv <= cy && cy + yv < abs_height(s0) && cx + d < dib_width(s0)
    &&& pixel_group(cur, cx + d, cy + yv) == enc
    &&& pixel_group(cur, cx + d, cy - yv) == enc
}

/// The right half of the stroked outline, mirroring `left_arc`.
spec fn right_arc(
    s0: Seq<u8>,
    cur: Seq<u8>,
    a: int,
    b: int,
    cx: int,
    cy: int,
    enc: Seq<u8>,
    n: int,
) -> bool {
    forall|d: int| 1 <= d <= n ==> #[trigger] right_pin(s0, cur, a, b, cx, cy, enc, d)
}

/// A write that puts the stroke bytes at one point and leaves every
/// other in-range group alone preserves the stroked-or-untouched frame.
proof fn lemma_stroke_write(s0: Seq<u8>, prev: Seq<u8>, cur: Seq<u8>, enc: Seq<u8>, xw: int, yw: int)
    requires
        stroke_frame(s0, prev, enc),
        pixel_group(cur, xw, yw) == enc,
        forall|x2: int, y2: int|
            0 <= x2 < dib_width(s0) && 0 <= y2 < abs_height(s0) && (x2, y2) != (xw, yw)
                ==> pixel_group(cur, x2, y2) == pixel_group(prev, x2, y2),
    ensures
        stroke_frame(s0, cur, enc),
{
    assert forall|x2: int, y2: int|
        0 <= x2 < dib_width(s0) && 0 <= y2 < abs_height(s0) implies #[trigger] pixel_group(
        cur,
        x2,
        y2,
    ) == enc || pixel_group(cur, x2, y2) == pixel_group(s0, x2, y2) by {
        if (x2, y2) != (xw, yw) {
            assert(pixel_group(cur, x2, y2) == pixel_group(prev, x2, y2));
            assert(pixel_group(prev, x2, y2) == enc || pixel_group(prev, x2, y2) == pixel_group(
                s0,
                x2,
                y2,
            ));
        }
    }
}

/// Such a write also preserves a pinned left arc: a pinned point that
/// collides with the written one still reads back the stroke bytes.
proof fn lemma_left_arc_write(
    s0: Seq<u8>,
    prev: Seq<u8>,
    cur: Seq<u8>,
    a: int,
    b: int,
    cx: int,
    cy: int,
    enc: Seq<u8>,
    n: int,
    xw: int,
    yw: int,
)
    requires
        left_arc(s0, prev, a, b, cx, cy, enc, n),
        pixel_group(cur, xw, yw) == enc,
        forall|x2: int, y2: int|
            0 <= x2 < dib_width(s0) && 0 <= y2 < abs_height(s0) && (x2, y2) != (xw, yw)
                ==> pixel_group(cur, x2, y2) == pixel_group(prev, x2, y2),
    ensures
        left_arc(s0, cur, a, b, cx, cy, enc, n),
{
    assert forall|d: int| 1 <= d <= n implies #[trigger] left_pin(
        s0,
        cur,
        a,
        b,
        cx,
        cy,
        enc,
        d,
    ) by {
        assert(left_pin(s0, prev, a, b, cx, cy, enc, d));
        let yv = spec_ellipse_y(a, b, d);
        if (cx - d, cy + yv) != (xw, yw) {
            assert(pixel_group(cur, cx - d, cy + yv) == pixel_group(prev, cx - d, cy + yv));
        }
        if (cx - d, cy - yv) != (xw, yw) {
            assert(pixel_group(cur, cx - d, cy - yv) == pixel_group(prev, cx - d, cy - yv));
        }
    }
}

/// The mirror of `lemma_left_arc_write` for the right arc.
proof fn lemma_right_arc_write(
    s0: Seq<u8>,
    prev: Seq<u8>,
    cur: Seq<u8>,
    a: int,
    b: int,
    cx: int,
    cy: int,
    enc: Seq<u8>,
    n: int,
    xw: int,
    yw: int,
)
    requires
        cx >= 0,
        right_arc(s0, prev, a, b, cx, cy, enc, n),
        pixel_group(cur, xw, yw) == enc,
        forall|x2: int, y2: int|
            0 <= x2 < dib_width(s0) && 0 <= y2 < abs_height(s0) && (x2, y2) != (xw, yw)
                ==> pixel_group(cur, x2, y2) == pixel_group(prev, x2, y2),
    ensures
        right_arc(s0, cur, a, b, cx, cy, enc, n),
{
    assert forall|d: int| 1 <= d <= n implies #[trigger] right_pin(
        s0,
        cur,
        a,
        b,
        cx,
        cy,
        enc,
        d,
    ) by {
        assert(right_pin(s0, prev, a, b, cx, cy, enc, d));
        let yv = spec_ellipse_y(a, b, d);
        if (cx + d, cy + yv) != (xw, yw) {
            assert(pixel_group(cur, cx + d, cy + yv) == pixel_group(prev, cx + d, cy + yv));
        }
        if (cx + d, cy - yv) != (xw, yw) {
            assert(pixel_group(cur, cx + d, cy - yv) == pixel_group(prev, cx + d, cy - yv));
        }
    }
}

/// The vertical jump between neighboring samples `il - 1` and `il`.
pub open spec fn gap_diff(a: int, b: int, il: int) -> int {
    let y = spec_ellipse_y(a, b, il);
    let p = spec_ellipse_y(a, b, il - 1);
    if p < y {
        y - p
    } else {
        p - y
    }
}

/// Whether the guessing pass bridges the jump at sample `il`: it runs
/// only when asked and only for jumps above one pixel.
pub open spec fn gap_on(a: int, b: int, guess: bool, il: int) -> bool {
    guess && gap_diff(a, b, il) > 1
}

/// One pair of left-side gap-bridge points: one column inside sample
/// `il`, `dd` pixels past that sample's height, both symmetric points
/// sit in range and carry the stroke bytes `enc`.
pub open spec fn left_gap_pin(
    s0: Seq<u8>,
    cur: Seq<u8>,
    a: int,
    b: int,
    cx: int,
    cy: int,
    enc: Seq<u8>,
    il: int,
    dd: int,
) -> bool {
    let yd = spec_ellipse_y(a, b, il) + dd;
    &&& 0 <= yd <= cy && cy + yd < abs_height(s0) && 0 <= cx - il + 1 < dib_width(s0)
    &&& pixel_group(cur, cx - il + 1, cy + yd) == enc
    &&& pixel_group(cur, cx - il + 1, cy - yd) == enc
}

/// The whole left-side bridge run of sample `il`, up to jump `dmax`.
pub open spec fn left_gap_run(
    s0: Seq<u8>,
    cur: Seq<u8>,
    a: int,
    b: int,
    cx: int,
    cy: int,
    enc: Seq<u8>,
    il: int,
    dmax: int,
) -> bool {
    forall|dd: int|
        1 <= dd <= dmax ==> #[trigger] left_gap_pin(s0, cur, a, b, cx, cy, enc, il, dd)
}

/// Every bridged left-side sample up to `n` carries its full run.
pub open spec fn left_gap_arc(
    s0: Seq<u8>,
    cur: Seq<u8>,
    a: int,
    b: int,
    cx: int,
    cy: int,
    enc: Seq<u8>,
    guess: bool,
    n: int,
) -> bool {
    forall|il: int|
        2 <= il <= n && gap_on(a, b, guess, il) ==> #[trigger] left_gap_run(
            s0,
            cur,
            a,
            b,
            cx,
            cy,
            enc,
            il,
            gap_diff(a, b, il),
        )
}

/// One pair of right-side gap-bridge points, mirroring `left_gap_pin`.
pub open spec fn right_gap_pin(
    s0: Seq<u8>,
    cur: Seq<u8>,
    a: int,
    b: int,
    cx: int,
    cy: int,
    enc: Seq<u8>,
    il: int,
    dd: int,
) -> bool {
    let yd = spec_ellipse_y(a, b, il) + dd;
    &&& 0 <= yd <= cy && cy + yd < abs_height(s0) && 0 <= cx + il - 1 < dib_width(s0)
    &&& pixel_group(cur, cx + il - 1, cy + yd) == enc
    &&& pixel_group(cur, cx + il - 1, cy - yd) == enc
}

/// The whole right-side bridge run of sample `il`, up to jump `dmax`.
pub open spec fn right_gap_run(
    s0: Seq<u8>,
    cur: Seq<u8>,
    a: int,
    b: int,
    cx: int,
    cy: int,
    enc: Seq<u8>,
    il: int,
    dmax: int,
) -> bool {
    forall|dd: int|
        1 <= dd <= dmax ==> #[trigger] right_gap_pin(s0, cur, a, b, cx, cy, enc, il, dd)
}

/// Every bridged right-side sample up to `n` carries its full run.
pub open spec fn right_gap_arc(
    s0: Seq<u8>,
    cur: Seq<u8>,
    a: int,
    b: int,
    cx: int,
    cy: int,
    enc: Seq<u8>,
    guess: bool,
    n: int,
) -> bool {
    forall|il: int|
        2 <= il <= n && gap_on(a, b, guess, il) ==> #[trigger] right_gap_run(
            s0,
            cur,
            a,
            b,
            cx,
            cy,
            enc,
            il,
            gap_diff(a, b, il),
        )
}

/// A single-point stroke write preserves a left-side bridge run.
proof fn lemma_left_gap_run_write(
    s0: Seq<u8>,
    prev: Seq<u8>,
    cur: Seq<u8>,
    a: int,
    b: int,
    cx: int,
    cy: int,
    enc: Seq<u8>,
    il: int,
    dmax: int,
    xw: int,
    yw: int,
)
    requires
        left_gap_run(s0, prev, a, b, cx, cy, enc, il, dmax),
        pixel_group(cur, xw, yw) == enc,
        forall|x2: int, y2: int|
            0 <= x2 < dib_width(s0) && 0 <= y2 < abs_height(s0) && (x2, y2) != (xw, yw)
                ==> pixel_group(cur, x2, y2) == pixel_group(prev, x2, y2),
    ensures
        left_gap_run(s0, cur, a, b, cx, cy, enc, il, dmax),
{
    assert forall|dd: int| 1 <= dd <= dmax implies #[trigger] left_gap_pin(
        s0,
        cur,
        a,
        b,
        cx,
        cy,
        enc,
        il,
        dd,
    ) by {
        assert(left_gap_pin(s0, prev, a, b, cx, cy, enc, il, dd));
        let yd = spec_ellipse_y(a, b, il) + dd;
        if (cx - il + 1, cy + yd) != (xw, yw) {
            assert(pixel_group(cur, cx - il + 1, cy + yd) == pixel_group(prev, cx - il + 1, cy + yd));
        }
        if (cx - il + 1, cy - yd) != (xw, yw) {
            assert(pixel_group(cur, cx - il + 1, cy - yd) == pixel_group(prev, cx - il + 1, cy - yd));
        }
    }
}

/// A single-point stroke write preserves every pinned left-side run.
proof fn lemma_left_gap_arc_write(
    s0: Seq<u8>,
    prev: Seq<u8>,
    cur: Seq<u8>,
    a: int,
    b: int,
    cx: int,
    cy: int,
    enc: Seq<u8>,
    guess: bool,
    n: int,
    xw: int,
    yw: int,
)
    requires
        left_gap_arc(s0, prev, a, b, cx, cy, enc, guess, n),
        pixel_group(cur, xw, yw) == enc,
        forall|x2: int, y2: int|
            0 <= x2 < dib_width(s0) && 0 <= y2 < abs_height(s0) && (x2, y2) != (xw, yw)
                ==> pixel_group(cur, x2, y2) == pixel_group(prev, x2, y2),
    ensures
        left_gap_arc(s0, cur, a, b, cx, cy, enc, guess, n),
{
    assert forall|il: int| 2 <= il <= n && gap_on(a, b, guess, il) implies #[trigger] left_gap_run(
        s0,
        cur,
        a,
        b,
        cx,
        cy,
        enc,
        il,
        gap_diff(a, b, il),
    ) by {
        assert(left_gap_run(s0, prev, a, b, cx, cy, enc, il, gap_diff(a, b, il)));
        lemma_left_gap_run_write(s0, prev, cur, a, b, cx, cy, enc, il, gap_diff(a, b, il), xw, yw);
    }
}

/// A single-point stroke write preserves a right-side bridge run.
proof fn lemma_right_gap_run_write(
    s0: Seq<u8>,
    prev: Seq<u8>,
    cur: Seq<u8>,
    a: int,
    b: int,
    cx: int,
    cy: int,
    enc: Seq<u8>,
    il: int,
    dmax: int,
    xw: int,
    yw: int,
)
    requires
        right_gap_run(s0, prev, a, b, cx, cy, enc, il, dmax),
        pixel_group(cur, xw, yw) == enc,
        forall|x2: int, y2: int|
            0 <= x2 < dib_width(s0) && 0 <= y2 < abs_height(s0) && (x2, y2) != (xw, yw)
                ==> pixel_group(cur, x2, y2) == pixel_group(prev, x2, y2),
    ensures
        right_gap_run(s0, cur, a, b, cx, cy, enc, il, dmax),
{
    assert forall|dd: int| 1 <= dd <= dmax implies #[trigger] right_gap_pin(
        s0,
        cur,
        a,
        b,
        cx,
        cy,
        enc,
        il,
        dd,
    ) by {
        assert(right_gap_pin(s0, prev, a, b, cx, cy, enc, il, dd));
        let yd = spec_ellipse_y(a, b, il) + dd;
        if (cx + il - 1, cy + yd) != (xw, yw) {
            assert(pixel_group(cur, cx + il - 1, cy + yd) == pixel_group(prev, cx + il - 1, cy + yd));
        }
        if (cx + il - 1, cy - yd) != (xw, yw) {
            assert(pixel_group(cur, cx + il - 1, cy - yd) == pixel_group(prev, cx + il - 1, cy - yd));
        }
    }
}

/// A single-point stroke write preserves every pinned right-side run.
proof fn lemma_right_gap_arc_write(
    s0: Seq<u8>,
    prev: Seq<u8>,
    cur: Seq<u8>,
    a: int,
    b: int,
    cx: int,
    cy: int,
    enc: Seq<u8>,
    guess: bool,
    n: int,
    xw: int,
    yw: int,
)
    requires
        right_gap_arc(s0, prev, a, b, cx, cy, enc, guess, n),
        pixel_group(cur, xw, yw) == enc,
        forall|x2: int, y2: int|
            0 <= x2 < dib_width(s0) && 0 <= y2 < abs_height(s0) && (x2, y2) != (xw, yw)
                ==> pixel_group(cur, x2, y2) == pixel_group(prev, x2, y2),
    ensures
        right_gap_arc(s0, cur, a, b, cx, cy, enc, guess, n),
{
    assert forall|il: int| 2 <= il <= n && gap_on(a, b, guess, il) implies #[trigger] right_gap_run(
        s0,
        cur,
        a,
        b,
        cx,
        cy,
        enc,
        il,
        gap_diff(a, b, il),
    ) by {
        assert(right_gap_run(s0, prev, a, b, cx, cy, enc, il, gap_diff(a, b, il)));
        lemma_right_gap_run_write(s0, prev, cur, a, b, cx, cy, enc, il, gap_diff(a, b, il), xw, yw);
    }
}

/// Computes the integer square root by bisection.
pub fn isqrt(n: u128) -> (r: u128)
    ensures
        is_isqrt(n as int, r as int),
{
    if n == 0 {
        return 0;
    }
    let mut lo: u128 = 0;
    let mut hi: u128 = 0x1_0000_0000_0000_0000u128;
    proof {
        assert(hi * hi > n) by (nonlinear_arith)
            requires
                n <= u128::MAX,
                hi == 0x1_0000_0000_0000_0000u128,
        ;
    }
    while lo + 1 < hi
        invariant
            lo < hi,
            hi <= 0x1_0000_0000_0000_0000u128,
            lo * lo <= n,
            hi * hi > n,
        decreases hi - lo,
    {
        let mid = lo + (hi - lo) / 2;
        proof {
            assert(mid < hi);
            assert(mid * mid < 0xFFFF_FFFF_FFFF_FFFF_FFFF_FFFF_FFFF_FFFFu128) by (nonlinear_arith)
                requires
                    mid <= 0xFFFF_FFFF_FFFF_FFFFu128,
            ;
        }
        if mid * mid <= n {
            lo = mid;
        } else {
            hi = mid;
        }
    }
    proof {
        assert((lo + 1) * (lo + 1) > n);
    }
    lo
}

/// The sampled ellipse height at x-offset `cx` from the center:
/// `round(sqrt((1 - cx²/a²) · b²))`, computed exactly over the rationals.
/// The result is the integer nearest to `sqrt(b²(a² - cx²)) / a`.
pub fn ellipse_y(a: u16, b: u16, cx: u16) -> (r: u32)
    requires
        1 <= cx <= a,
    ensures
        r == spec_ellipse_y(a as int, b as int, cx as int),
        r <= b,
{
    proof {
        assert((a as int) * (a as int) <= 0xFFFF_FFFF && (cx as int) * (cx as int) <= 0xFFFF_FFFF)
            by (nonlinear_arith)
            requires
                a <= 0xFFFF,
                cx <= 0xFFFF,
        ;
    }
    let a2: u128 = (a as u128) * (a as u128);
    let cx2: u128 = (cx as u128) * (cx as u128);
    proof {
        assert(cx2 <= a2 && 1 <= cx2) by (nonlinear_arith)
            requires
                1 <= cx,
                cx <= a,
                a2 == (a as int) * (a as int),
                cx2 == (cx as int) * (cx as int),
        ;
        assert((b as int) * (b as int) * ((a2 - cx2) as int) <= 0xFFFF_FFFFu128 * 0xFFFF_FFFFu128
            && (b as int) * (b as int) <= 0xFFFF_FFFF) by (nonlinear_arith)
            requires
                b <= 0xFFFFu128,
                a2 - cx2 <= 0xFFFF_FFFFu128,
                a2 <= 0xFFFF_FFFFu128,
        ;
    }
    let v: u128 = (b as u128) * (b as u128) * (a2 - cx2);
    let s = isqrt(4 * v);
    proof {
        let ghost aa = a as int;
        assert((s as int) * (s as int) <= 4 * (v as int)) by {
            assert(is_isqrt(4 * v as int, s as int));
        }
        assert(s <= 2 * (b as int) * (a as int)) by (nonlinear_arith)
            requires
                is_isqrt(4 * (v as int), s as int),
                v == (b as int) * (b as int) * ((a2 - cx2) as int),
                a2 == (a as int) * (a as int),
                cx2 >= 1,
                cx2 <= a2,
                b >= 0,
                a >= 1,
        ;
        assert((s as int + aa) / (2 * aa) <= b as int) by (nonlinear_arith)
            requires
                s <= 2 * (b as int) * aa,
                aa >= 1,
                b >= 0,
        ;
        assert(2 * (b as int) * aa <= 0x2_0000_0000) by (nonlinear_arith)
            requires
                b <= 0xFFFF,
                aa <= 0xFFFF,
                b >= 0,
                aa >= 0,
        ;
    }
    let r128: u128 = (s + a as u128) / (2 * (a as u128));
    proof {
        let n = 4 * (v as int);
        assert(v as int == (b as int) * (b as int) * ((a as int) * (a as int) - (cx as int) * (
        cx as int)));
        assert(is_isqrt(n, s as int));
        assert(exists|rr: int| is_isqrt(n, rr));
        assert(is_isqrt(n, spec_isqrt(n)));
        lemma_isqrt_unique(n, spec_isqrt(n), s as int);
    }
    r128 as u32
}

impl BMP {
    /// Strokes the ellipse centered at `center` with radii `xlength` and
    /// `ylength`: for each integer x-offset `d` in `1..=xlength` on both
    /// sides, the four symmetric points at the sampled height
    /// `spec_ellipse_y` take the stroke color, as do the two vertical axis
    /// extremes; when `guess` is set, vertical jumps above one pixel
    /// between neighboring samples are bridged with pinned runs of extra
    /// stroke points one column inward (`left_gap_arc`, `right_gap_arc`).
    /// Every pixel the call touches carries the stroke color (or the fill
    /// color, when `fill` asks for the closing flood fill from the
    /// center); every other pixel keeps its bytes.  With a fill, the
    /// contract exposes the fully stroked intermediate image and states
    /// the flood fill exactly over it: every pixel reachable from the
    /// center through same-colored neighbors takes the fill color, the
    /// rest keep their stroked bytes.  A stroke point that leaves the
    /// image stops the walk with that error; a walk that fits entirely
    /// inside the image succeeds.
    #[verifier::rlimit(100)]
    pub fn draw_ellipse(
        &mut self,
        center: [u16; 2],
        xlength: u16,
        ylength: u16,
        stroke: [u8; 4],
        fill: Option<[u8; 4]>,
        guess: bool,
    ) -> (r: Result<(), ErrorKind>)
        ensures
            editable(old(self).contents@) ==> ({
                let s = old(self).contents@;
                &&& final(self).from_file == old(self).from_file
                &&& same_geometry(s, final(self).contents@)
                &&& s.subrange(0, 14 + dib_size(s) as int) == final(self).contents@.subrange(
                    0,
                    14 + dib_size(s) as int,
                )
            }),
            !editable(old(self).contents@) && r is Err ==> *final(self) == *old(self),
            r is Ok && editable(old(self).contents@) ==> ({
                let s = old(self).contents@;
                forall|x2: int, y2: int|
                    0 <= x2 < dib_width(s) && 0 <= y2 < abs_height(s) ==> #[trigger] pixel_group(
                        final(self).contents@,
                        x2,
                        y2,
                    ) == spec_encoded_px(s, stroke@) || (fill is Some && pixel_group(
                        final(self).contents@,
                        x2,
                        y2,
                    ) == spec_encoded_px(s, fill->0@)) || pixel_group(final(self).contents@, x2, y2)
                        == pixel_group(s, x2, y2)
            }),
            r is Ok && editable(old(self).contents@) && fill is None ==> ({
                let s = old(self).contents@;
                let b = ylength as int;
                let cx = center@[0] as int;
                let cy = center@[1] as int;
                &&& b <= cy && cy + b < abs_height(s) && cx < dib_width(s)
                &&& pixel_group(final(self).contents@, cx, cy + b) == spec_encoded_px(s, stroke@)
                &&& pixel_group(final(self).contents@, cx, cy - b) == spec_encoded_px(s, stroke@)
            }),
            r is Ok && editable(old(self).contents@) && fill is None ==> forall|d: int|
                1 <= d <= xlength as int ==> #[trigger] ellipse_sample_stroked(
                    old(self).contents@,
                    final(self).contents@,
                    xlength as int,
                    ylength as int,
                    center@[0] as int,
                    center@[1] as int,
                    stroke@,
                    d,
                ),
            r is Ok && editable(old(self).contents@) && fill is None ==> left_gap_arc(
                old(self).contents@,
                final(self).contents@,
                xlength as int,
                ylength as int,
                center@[0] as int,
                center@[1] as int,
                spec_encoded_px(old(self).contents@, stroke@),
                guess,
                xlength as int,
            ) && right_gap_arc(
                old(self).contents@,
                final(self).contents@,
                xlength as int,
                ylength as int,
                center@[0] as int,
                center@[1] as int,
                spec_encoded_px(old(self).contents@, stroke@),
                guess,
                xlength as int,
            ),
            r is Ok && editable(old(self).contents@) && fill is Some ==> ({
                let a = xlength as int;
                let b = ylength as int;
                let cx = center@[0] as int;
                let cy = center@[1] as int;
                exists|t: Seq<u8>|
                    #![trigger same_geometry(old(self).contents@, t)]
                    {
                        &&& same_geometry(old(self).contents@, t)
                        &&& stroke_frame(old(self).contents@, t, spec_encoded_px(old(self).contents@, stroke@))
                        &&& b <= cy && cy + b < abs_height(old(self).contents@) && cx < dib_width(old(self).contents@)
                        &&& pixel_group(t, cx, cy + b) == spec_encoded_px(old(self).contents@, stroke@)
                        &&& pixel_group(t, cx, cy - b) == spec_encoded_px(old(self).contents@, stroke@)
                        &&& (forall|d: int|
                            1 <= d <= a ==> #[trigger] ellipse_sample_stroked(
                                old(self).contents@,
                                t,
                                a,
                                b,
                                cx,
                                cy,
                                stroke@,
                                d,
                            ))
                        &&& left_gap_arc(old(self).contents@, t, a, b, cx, cy, spec_encoded_px(old(self).contents@, stroke@), guess, a)
                        &&& right_gap_arc(old(self).contents@, t, a, b, cx, cy, spec_encoded_px(old(self).contents@, stroke@), guess, a)
                        &&& (forall|x2: int, y2: int|
                            0 <= x2 < dib_width(old(self).contents@) && 0 <= y2 < abs_height(old(self).contents@)
                                ==> #[trigger] pixel_group(final(self).contents@, x2, y2) == (
                            if reachable(t, cx, cy, x2, y2) {
                                spec_encoded_px(old(self).contents@, fill->0@)
                            } else {
                                pixel_group(t, x2, y2)
                            }))
                    }
            }),
            editable(old(self).contents@) && xlength <= center@[0] && center@[0] + xlength
                < dib_width(old(self).contents@) && 2 * ylength <= center@[1] && center@[1] + 2
                * ylength < abs_height(old(self).contents@) ==> r is Ok,
    {
        let ghost s0 = self.contents@;
        let ghost a = xlength as int;
        let ghost b = ylength as int;
        let ghost cxg = center@[0] as int;
        let ghost cyg = center@[1] as int;
        let ghost enc_stroke = spec_encoded_px(s0, stroke@);
        let ghost fits = editable(s0) && xlength <= center@[0] && center@[0] + xlength
            < dib_width(s0) && 2 * ylength <= center@[1] && center@[1] + 2 * ylength < abs_height(
            s0,
        );
        let mut prev_y: u32 = 0;
        let mut il: u32 = 1;
        while il <= xlength as u32
            invariant
                s0 == old(self).contents@,
                a == xlength as int,
                b == ylength as int,
                cxg == center@[0] as int,
                cyg == center@[1] as int,
                enc_stroke == spec_encoded_px(s0, stroke@),
                fits == (editable(s0) && xlength <= center@[0] && center@[0] + xlength < dib_width(
                    s0,
                ) && 2 * ylength <= center@[1] && center@[1] + 2 * ylength < abs_height(s0)),
                il >= 1,
                il <= 0x1_0000,
                prev_y <= ylength,
                editable(s0) ==> self.from_file == old(self).from_file && same_geometry(
                    s0,
                    self.contents@,
                ) && s0.subrange(0, 14 + dib_size(s0) as int) == self.contents@.subrange(
                    0,
                    14 + dib_size(s0) as int,
                ),
                !editable(s0) ==> *self == *old(self),
                editable(s0) ==> stroke_frame(s0, self.contents@, enc_stroke),
                editable(s0) ==> left_arc(
                    s0,
                    self.contents@,
                    a,
                    b,
                    cxg,
                    cyg,
                    enc_stroke,
                    il as int - 1,
                ),
                il >= 2 ==> prev_y == spec_ellipse_y(a, b, il as int - 1),
                editable(s0) ==> left_gap_arc(
                    s0,
                    self.contents@,
                    a,
                    b,
                    cxg,
                    cyg,
                    enc_stroke,
                    guess,
                    il as int - 1,
                ),
            decreases xlength as int + 1 - il,
        {
            let c_x = il as u16;
            let y = ellipse_y(xlength, ylength, c_x);
            if (c_x as u32) > center[0] as u32 || (center[1] as u32) + y > 0xFFFF || y > center[1]
                as u32 {
                proof {
                    if fits {
                        assert(false);
                    }
                }
                return Err(ErrorKind::DoesNotExist);
            }
            let ghost pre1 = self.contents@;
            proof {
                if fits {
                    assert(same_geometry(s0, pre1));
                    assert(cxg - (c_x as int) < dib_width(s0));
                    assert(cyg + (y as int) < abs_height(s0));
                }
            }
            self.stroke_point(center[0] - c_x, center[1] + (y as u16), stroke, Ghost(s0))?;
            let ghost mid = self.contents@;
            proof {
                assert(editable(pre1));
                assert(editable(s0));
                lemma_stroke_write(s0, pre1, mid, enc_stroke, cxg - (c_x as int), cyg + (y as int));
                lemma_left_arc_write(
                    s0,
                    pre1,
                    mid,
                    a,
                    b,
                    cxg,
                    cyg,
                    enc_stroke,
                    il as int - 1,
                    cxg - (c_x as int),
                    cyg + (y as int),
                );
                lemma_left_gap_arc_write(
                    s0,
                    pre1,
                    mid,
                    a,
                    b,
                    cxg,
                    cyg,
                    enc_stroke,
                    guess,
                    il as int - 1,
                    cxg - (c_x as int),
                    cyg + (y as int),
                );
            }
            self.stroke_point(center[0] - c_x, center[1] - (y as u16), stroke, Ghost(s0))?;
            let ghost cur = self.contents@;
            proof {
                lemma_stroke_write(s0, mid, cur, enc_stroke, cxg - (c_x as int), cyg - (y as int));
                lemma_left_arc_write(
                    s0,
                    mid,
                    cur,
                    a,
                    b,
                    cxg,
                    cyg,
                    enc_stroke,
                    il as int - 1,
                    cxg - (c_x as int),
                    cyg - (y as int),
                );
                lemma_left_gap_arc_write(
                    s0,
                    mid,
                    cur,
                    a,
                    b,
                    cxg,
                    cyg,
                    enc_stroke,
                    guess,
                    il as int - 1,
                    cxg - (c_x as int),
                    cyg - (y as int),
                );
                assert(c_x as int == il as int);
                assert(y == spec_ellipse_y(a, b, il as int));
                assert(same_geometry(s0, pre1));
                assert forall|d: int| 1 <= d <= il as int implies #[trigger] left_pin(
                    s0,
                    cur,
                    a,
                    b,
                    cxg,
                    cyg,
                    enc_stroke,
                    d,
                ) by {
                    if d <= il as int - 1 {
                        assert(left_pin(s0, cur, a, b, cxg, cyg, enc_stroke, d));
                    } else {
                        assert(d == il as int);
                        assert(spec_ellipse_y(a, b, d) == y as int);
                        assert(cyg + (y as int) < abs_height(s0));
                        assert(cxg - d < dib_width(s0));
                        assert(pixel_group(cur, cxg - d, cyg - (y as int)) == enc_stroke);
                        if cyg + (y as int) != cyg - (y as int) {
                            assert(pixel_group(cur, cxg - d, cyg + (y as int)) == pixel_group(
                                mid,
                                cxg - d,
                                cyg + (y as int),
                            ));
                        }
                        assert(pixel_group(cur, cxg - d, cyg + (y as int)) == enc_stroke);
                        assert(left_pin(s0, cur, a, b, cxg, cyg, enc_stroke, d));
                    }
                }
                assert(left_arc(s0, cur, a, b, cxg, cyg, enc_stroke, il as int));
            }
            let diff: u32 = if prev_y < y {
                y - prev_y
            } else {
                prev_y - y
            };
            if diff > 1 && il != 1 && guess {
                let mut d: u32 = 1;
                while d <= diff
                    invariant
                        s0 == old(self).contents@,
                        a == xlength as int,
                        b == ylength as int,
                        cxg == center@[0] as int,
                        cyg == center@[1] as int,
                        enc_stroke == spec_encoded_px(s0, stroke@),
                        fits == (editable(s0) && xlength <= center@[0] && center@[0] + xlength
                            < dib_width(s0) && 2 * ylength <= center@[1] && center@[1] + 2 * ylength
                            < abs_height(s0)),
                        editable(s0),
                        c_x >= 1,
                        c_x <= center@[0],
                        c_x <= xlength,
                        y <= ylength,
                        diff <= ylength,
                        self.from_file == old(self).from_file && same_geometry(s0, self.contents@)
                            && s0.subrange(0, 14 + dib_size(s0) as int) == self.contents@.subrange(
                            0,
                            14 + dib_size(s0) as int,
                        ),
                        stroke_frame(s0, self.contents@, enc_stroke),
                        left_arc(s0, self.contents@, a, b, cxg, cyg, enc_stroke, il as int),
                        il >= 2,
                        guess,
                        d >= 1,
                        c_x as int == il as int,
                        y == spec_ellipse_y(a, b, il as int),
                        prev_y == spec_ellipse_y(a, b, il as int - 1),
                        diff as int == gap_diff(a, b, il as int),
                        left_gap_arc(
                            s0,
                            self.contents@,
                            a,
                            b,
                            cxg,
                            cyg,
                            enc_stroke,
                            guess,
                            il as int - 1,
                        ),
                        left_gap_run(
                            s0,
                            self.contents@,
                            a,
                            b,
                            cxg,
                            cyg,
                            enc_stroke,
                            il as int,
                            d as int - 1,
                        ),
                    decreases diff as int + 1 - d,
                {
                    let yd: u32 = y + d;
                    if (center[1] as u32) + yd > 0xFFFF || yd > center[1] as u32 {
                        proof {
                            if fits {
                                assert(yd <= 2 * ylength);
                                assert(false);
                            }
                        }
                        return Err(ErrorKind::DoesNotExist);
                    }
                    let ghost gp1 = self.contents@;
                    proof {
                        if fits {
                            assert(same_geometry(s0, gp1));
                            assert(yd <= 2 * ylength);
                            assert(cxg - (c_x as int) + 1 < dib_width(s0));
                            assert(cyg + (yd as int) < abs_height(s0));
                        }
                    }
                    self.stroke_point(
                        center[0] - c_x + 1,
                        center[1] + (yd as u16),
                        stroke,
                        Ghost(s0),
                    )?;
                    let ghost gm = self.contents@;
                    proof {
                        lemma_stroke_write(
                            s0,
                            gp1,
                            gm,
                            enc_stroke,
                            cxg - (c_x as int) + 1,
                            cyg + (yd as int),
                        );
                        lemma_left_arc_write(
                            s0,
                            gp1,
                            gm,
                            a,
                            b,
                            cxg,
                            cyg,
                            enc_stroke,
                            il as int,
                            cxg - (c_x as int) + 1,
                            cyg + (yd as int),
                        );
                        lemma_left_gap_arc_write(
                            s0,
                            gp1,
                            gm,
                            a,
                            b,
                            cxg,
                            cyg,
                            enc_stroke,
                            guess,
                            il as int - 1,
                            cxg - (c_x as int) + 1,
                            cyg + (yd as int),
                        );
                        lemma_left_gap_run_write(
                            s0,
                            gp1,
                            gm,
                            a,
                            b,
                            cxg,
                            cyg,
                            enc_stroke,
                            il as int,
                            d as int - 1,
                            cxg - (c_x as int) + 1,
                            cyg + (yd as int),
                        );
                    }
                    self.stroke_point(
                        center[0] - c_x + 1,
                        center[1] - (yd as u16),
                        stroke,
                        Ghost(s0),
                    )?;
                    proof {
                        lemma_stroke_write(
                            s0,
                            gm,
                            self.contents@,
                            enc_stroke,
                            cxg - (c_x as int) + 1,
                            cyg - (yd as int),
                        );
                        lemma_left_arc_write(
                            s0,
                            gm,
                            self.contents@,
                            a,
                            b,
                            cxg,
                            cyg,
                            enc_stroke,
                            il as int,
                            cxg - (c_x as int) + 1,
                            cyg - (yd as int),
                        );
                        lemma_left_gap_arc_write(
                            s0,
                            gm,
                            self.contents@,
                            a,
                            b,
                            cxg,
                            cyg,
                            enc_stroke,
                            guess,
                            il as int - 1,
                            cxg - (c_x as int) + 1,
                            cyg - (yd as int),
                        );
                        lemma_left_gap_run_write(
                            s0,
                            gm,
                            self.contents@,
                            a,
                            b,
                            cxg,
                            cyg,
                            enc_stroke,
                            il as int,
                            d as int - 1,
                            cxg - (c_x as int) + 1,
                            cyg - (yd as int),
                        );
                        assert(spec_ellipse_y(a, b, il as int) + d as int == yd as int);
                        assert(cyg + (yd as int) < abs_height(s0));
                        assert(0 <= cxg - (il as int) + 1 < dib_width(s0));
                        assert(pixel_group(self.contents@, cxg - (il as int) + 1, cyg - (yd as int))
                            == enc_stroke);
                        assert(pixel_group(self.contents@, cxg - (il as int) + 1, cyg + (yd as int))
                            == pixel_group(gm, cxg - (il as int) + 1, cyg + (yd as int)));
                        assert(pixel_group(self.contents@, cxg - (il as int) + 1, cyg + (yd as int))
                            == enc_stroke);
                        assert(left_gap_pin(
                            s0,
                            self.contents@,
                            a,
                            b,
                            cxg,
                            cyg,
                            enc_stroke,
                            il as int,
                            d as int,
                        ));
                        assert forall|dd: int| 1 <= dd <= d as int implies #[trigger] left_gap_pin(
                            s0,
                            self.contents@,
                            a,
                            b,
                            cxg,
                            cyg,
                            enc_stroke,
                            il as int,
                            dd,
                        ) by {
                            if dd <= d as int - 1 {
                                assert(left_gap_pin(
                                    s0,
                                    self.contents@,
                                    a,
                                    b,
                                    cxg,
                                    cyg,
                                    enc_stroke,
                                    il as int,
                                    dd,
                                ));
                            }
                        }
                        assert(left_gap_run(
                            s0,
                            self.contents@,
                            a,
                            b,
                            cxg,
                            cyg,
                            enc_stroke,
                            il as int,
                            d as int,
                        ));
                    }
                    d = d + 1;
                }
            }
            proof {
                if editable(s0) {
                    assert forall|il2: int|
                        2 <= il2 <= il as int && gap_on(a, b, guess, il2) implies #[trigger] left_gap_run(
                        s0,
                        self.contents@,
                        a,
                        b,
                        cxg,
                        cyg,
                        enc_stroke,
                        il2,
                        gap_diff(a, b, il2),
                    ) by {
                        if il2 <= il as int - 1 {
                            assert(left_gap_run(
                                s0,
                                self.contents@,
                                a,
                                b,
                                cxg,
                                cyg,
                                enc_stroke,
                                il2,
                                gap_diff(a, b, il2),
                            ));
                        } else {
                            assert(il2 == il as int);
                            assert(prev_y == spec_ellipse_y(a, b, il as int - 1));
                            assert(gap_diff(a, b, il2) == diff as int);
                            assert(diff > 1 && il != 1 && guess);
                            assert forall|dd: int|
                                1 <= dd <= diff as int implies #[trigger] left_gap_pin(
                                s0,
                                self.contents@,
                                a,
                                b,
                                cxg,
                                cyg,
                                enc_stroke,
                                il as int,
                                dd,
                            ) by {
                                assert(left_gap_pin(
                                    s0,
                                    self.contents@,
                                    a,
                                    b,
                                    cxg,
                                    cyg,
                                    enc_stroke,
                                    il as int,
                                    dd,
                                ));
                            }
                            assert(left_gap_run(
                                s0,
                                self.contents@,
                                a,
                                b,
                                cxg,
                                cyg,
                                enc_stroke,
                                il2,
                                gap_diff(a, b, il2),
                            ));
                        }
                    }
                    assert(left_gap_arc(
                        s0,
                        self.contents@,
                        a,
                        b,
                        cxg,
                        cyg,
                        enc_stroke,
                        guess,
                        il as int,
                    ));
                }
            }
            prev_y = y;
            il = il + 1;
        }
        proof {
            if editable(s0) {
                assert forall|d: int| 1 <= d <= a implies #[trigger] left_pin(
                    s0,
                    self.contents@,
                    a,
                    b,
                    cxg,
                    cyg,
                    enc_stroke,
                    d,
                ) by {
                    assert(1 <= d <= il as int - 1);
                    assert(left_pin(s0, self.contents@, a, b, cxg, cyg, enc_stroke, d));
                }
                assert(left_arc(s0, self.contents@, a, b, cxg, cyg, enc_stroke, a));
                assert forall|il2: int|
                    2 <= il2 <= a && gap_on(a, b, guess, il2) implies #[trigger] left_gap_run(
                    s0,
                    self.contents@,
                    a,
                    b,
                    cxg,
                    cyg,
                    enc_stroke,
                    il2,
                    gap_diff(a, b, il2),
                ) by {
                    assert(2 <= il2 <= il as int - 1);
                    assert(left_gap_run(
                        s0,
                        self.contents@,
                        a,
                        b,
                        cxg,
                        cyg,
                        enc_stroke,
                        il2,
                        gap_diff(a, b, il2),
                    ));
                }
                assert(left_gap_arc(s0, self.contents@, a, b, cxg, cyg, enc_stroke, guess, a));
            }
        }
        let mut prev_y2: u32 = prev_y;
        let mut ir: u32 = 1;
        while ir <= xlength as u32
            invariant
                s0 == old(self).contents@,
                a == xlength as int,
                b == ylength as int,
                cxg == center@[0] as int,
                cyg == center@[1] as int,
                enc_stroke == spec_encoded_px(s0, stroke@),
                fits == (editable(s0) && xlength <= center@[0] && center@[0] + xlength < dib_width(
                    s0,
                ) && 2 * ylength <= center@[1] && center@[1] + 2 * ylength < abs_height(s0)),
                ir >= 1,
                ir <= 0x1_0000,
                prev_y2 <= ylength,
                editable(s0) ==> self.from_file == old(self).from_file && same_geometry(
                    s0,
                    self.contents@,
                ) && s0.subrange(0, 14 + dib_size(s0) as int) == self.contents@.subrange(
                    0,
                    14 + dib_size(s0) as int,
                ),
                !editable(s0) ==> *self == *old(self),
                editable(s0) ==> stroke_frame(s0, self.contents@, enc_stroke),
                editable(s0) ==> left_arc(s0, self.contents@, a, b, cxg, cyg, enc_stroke, a),
                editable(s0) ==> right_arc(
                    s0,
                    self.contents@,
                    a,
                    b,
                    cxg,
                    cyg,
                    enc_stroke,
                    ir as int - 1,
                ),
                ir >= 2 ==> prev_y2 == spec_ellipse_y(a, b, ir as int - 1),
                editable(s0) ==> left_gap_arc(
                    s0,
                    self.contents@,
                    a,
                    b,
                    cxg,
                    cyg,
                    enc_stroke,
                    guess,
                    a,
                ),
                editable(s0) ==> right_gap_arc(
                    s0,
                    self.contents@,
                    a,
                    b,
                    cxg,
                    cyg,
                    enc_stroke,
                    guess,
                    ir as int - 1,
                ),
            decreases xlength as int + 1 - ir,
        {
            let c_x = ir as u16;
            let y = ellipse_y(xlength, ylength, c_x);
            if (center[0] as u32) + (c_x as u32) > 0xFFFF || (center[1] as u32) + y > 0xFFFF || y
                > center[1] as u32 {
                proof {
                    if fits {
                        assert(false);
                    }
                }
                return Err(ErrorKind::DoesNotExist);
            }
            let ghost pre1 = self.contents@;
            proof {
                if fits {
                    assert(same_geometry(s0, pre1));
                    assert(cxg + (c_x as int) < dib_width(s0));
                    assert(cyg + (y as int) < abs_height(s0));
                }
            }
            self.stroke_point(center[0] + c_x, center[1] + (y as u16), stroke, Ghost(s0))?;
            let ghost mid = self.contents@;
            proof {
                assert(editable(pre1));
                assert(editable(s0));
                lemma_stroke_write(s0, pre1, mid, enc_stroke, cxg + (c_x as int), cyg + (y as int));
                lemma_left_arc_write(
                    s0,
                    pre1,
                    mid,
                    a,
                    b,
                    cxg,
                    cyg,
                    enc_stroke,
                    a,
                    cxg + (c_x as int),
                    cyg + (y as int),
                );
                lemma_right_arc_write(
                    s0,
                    pre1,
                    mid,
                    a,
                    b,
                    cxg,
                    cyg,
                    enc_stroke,
                    ir as int - 1,
                    cxg + (c_x as int),
                    cyg + (y as int),
                );
                lemma_left_gap_arc_write(
                    s0,
                    pre1,
                    mid,
                    a,
                    b,
                    cxg,
                    cyg,
                    enc_stroke,
                    guess,
                    a,
                    cxg + (c_x as int),
                    cyg + (y as int),
                );
                lemma_right_gap_arc_write(
                    s0,
                    pre1,
                    mid,
                    a,
                    b,
                    cxg,
                    cyg,
                    enc_stroke,
                    guess,
                    ir as int - 1,
                    cxg + (c_x as int),
                    cyg + (y as int),
                );
            }
            self.stroke_point(center[0] + c_x, center[1] - (y as u16), stroke, Ghost(s0))?;
            let ghost cur = self.contents@;
            proof {
                lemma_stroke_write(s0, mid, cur, enc_stroke, cxg + (c_x as int), cyg - (y as int));
                lemma_left_arc_write(
                    s0,
                    mid,
                    cur,
                    a,
                    b,
                    cxg,
                    cyg,
                    enc_stroke,
                    a,
                    cxg + (c_x as int),
                    cyg - (y as int),
                );
                lemma_right_arc_write(
                    s0,
                    mid,
                    cur,
                    a,
                    b,
                    cxg,
                    cyg,
                    enc_stroke,
                    ir as int - 1,
                    cxg + (c_x as int),
                    cyg - (y as int),
                );
                lemma_left_gap_arc_write(
                    s0,
                    mid,
                    cur,
                    a,
                    b,
                    cxg,
                    cyg,
                    enc_stroke,
                    guess,
                    a,
                    cxg + (c_x as int),
                    cyg - (y as int),
                );
                lemma_right_gap_arc_write(
                    s0,
                    mid,
                    cur,
                    a,
                    b,
                    cxg,
                    cyg,
                    enc_stroke,
                    guess,
                    ir as int - 1,
                    cxg + (c_x as int),
                    cyg - (y as int),
                );
                assert(c_x as int == ir as int);
                assert(y == spec_ellipse_y(a, b, ir as int));
                assert(same_geometry(s0, pre1));
                assert forall|d: int| 1 <= d <= ir as int implies #[trigger] right_pin(
                    s0,
                    cur,
                    a,
                    b,
                    cxg,
                    cyg,
                    enc_stroke,
                    d,
                ) by {
                    if d <= ir as int - 1 {
                        assert(right_pin(s0, cur, a, b, cxg, cyg, enc_stroke, d));
                    } else {
                        assert(d == ir as int);
                        assert(spec_ellipse_y(a, b, d) == y as int);
                        assert(cyg + (y as int) < abs_height(s0));
                        assert(cxg + d < dib_width(s0));
                        assert(pixel_group(cur, cxg + d, cyg - (y as int)) == enc_stroke);
                        if cyg + (y as int) != cyg - (y as int) {
                            assert(pixel_group(cur, cxg + d, cyg + (y as int)) == pixel_group(
                                mid,
                                cxg + d,
                                cyg + (y as int),
                            ));
                        }
                        assert(pixel_group(cur, cxg + d, cyg + (y as int)) == enc_stroke);
                        assert(right_pin(s0, cur, a, b, cxg, cyg, enc_stroke, d));
                    }
                }
                assert(right_arc(s0, cur, a, b, cxg, cyg, enc_stroke, ir as int));
            }
            let diff: u32 = if prev_y2 < y {
                y - prev_y2
            } else {
                prev_y2 - y
            };
            if diff > 1 && ir != 1 && guess {
                let mut d: u32 = 1;
                while d <= diff
                    invariant
                        s0 == old(self).contents@,
                        a == xlength as int,
                        b == ylength as int,
                        cxg == center@[0] as int,
                        cyg == center@[1] as int,
                        enc_stroke == spec_encoded_px(s0, stroke@),
                        fits == (editable(s0) && xlength <= center@[0] && center@[0] + xlength
                            < dib_width(s0) && 2 * ylength <= center@[1] && center@[1] + 2 * ylength
                            < abs_height(s0)),
                        editable(s0),
                        c_x >= 1,
                        c_x <= xlength,
                        center@[0] + c_x <= 0xFFFF,
                        y <= ylength,
                        diff <= ylength,
                        self.from_file == old(self).from_file && same_geometry(s0, self.contents@)
                            && s0.subrange(0, 14 + dib_size(s0) as int) == self.contents@.subrange(
                            0,
                            14 + dib_size(s0) as int,
                        ),
                        stroke_frame(s0, self.contents@, enc_stroke),
                        left_arc(s0, self.contents@, a, b, cxg, cyg, enc_stroke, a),
                        right_arc(s0, self.contents@, a, b, cxg, cyg, enc_stroke, ir as int),
                        ir >= 2,
                        guess,
                        d >= 1,
                        c_x as int == ir as int,
                        y == spec_ellipse_y(a, b, ir as int),
                        prev_y2 == spec_ellipse_y(a, b, ir as int - 1),
                        diff as int == gap_diff(a, b, ir as int),
                        left_gap_arc(s0, self.contents@, a, b, cxg, cyg, enc_stroke, guess, a),
                        right_gap_arc(
                            s0,
                            self.contents@,
                            a,
                            b,
                            cxg,
                            cyg,
                            enc_stroke,
                            guess,
                            ir as int - 1,
                        ),
                        right_gap_run(
                            s0,
                            self.contents@,
                            a,
                            b,
                            cxg,
                            cyg,
                            enc_stroke,
                            ir as int,
                            d as int - 1,
                        ),
                    decreases diff as int + 1 - d,
                {
                    let yd: u32 = y + d;
                    if (center[1] as u32) + yd > 0xFFFF || yd > center[1] as u32 {
                        proof {
                            if fits {
                                assert(yd <= 2 * ylength);
                                assert(false);
                            }
                        }
                        return Err(ErrorKind::DoesNotExist);
                    }
                    let ghost gp1 = self.contents@;
                    proof {
                        if fits {
                            assert(same_geometry(s0, gp1));
                            assert(yd <= 2 * ylength);
                            assert(cxg + (c_x as int) - 1 < dib_width(s0));
                            assert(cyg + (yd as int) < abs_height(s0));
                        }
                    }
                    self.stroke_point(
                        center[0] + c_x - 1,
                        center[1] + (yd as u16),
                        stroke,
                        Ghost(s0),
                    )?;
                    let ghost gm = self.contents@;
                    proof {
                        lemma_stroke_write(
                            s0,
                            gp1,
                            gm,
                            enc_stroke,
                            cxg + (c_x as int) - 1,
                            cyg + (yd as int),
                        );
                        lemma_left_arc_write(
                            s0,
                            gp1,
                            gm,
                            a,
                            b,
                            cxg,
                            cyg,
                            enc_stroke,
                            a,
                            cxg + (c_x as int) - 1,
                            cyg + (yd as int),
                        );
                        lemma_right_arc_write(
                            s0,
                            gp1,
                            gm,
                            a,
                            b,
                            cxg,
                            cyg,
                            enc_stroke,
                            ir as int,
                            cxg + (c_x as int) - 1,
                            cyg + (yd as int),
                        );
                        lemma_left_gap_arc_write(
                            s0,
                            gp1,
                            gm,
                            a,
                            b,
                            cxg,
                            cyg,
                            enc_stroke,
                            guess,
                            a,
                            cxg + (c_x as int) - 1,
                            cyg + (yd as int),
                        );
                        lemma_right_gap_arc_write(
                            s0,
                            gp1,
                            gm,
                            a,
                            b,
                            cxg,
                            cyg,
                            enc_stroke,
                            guess,
                            ir as int - 1,
                            cxg + (c_x as int) - 1,
                            cyg + (yd as int),
                        );
                        lemma_right_gap_run_write(
                            s0,
                            gp1,
                            gm,
                            a,
                            b,
                            cxg,
                            cyg,
                            enc_stroke,
                            ir as int,
                            d as int - 1,
                            cxg + (c_x as int) - 1,
                            cyg + (yd as int),
                        );
                    }
                    self.stroke_point(
                        center[0] + c_x - 1,
                        center[1] - (yd as u16),
                        stroke,
                        Ghost(s0),
                    )?;
                    proof {
                        lemma_stroke_write(
                            s0,
                            gm,
                            self.contents@,
                            enc_stroke,
                            cxg + (c_x as int) - 1,
                            cyg - (yd as int),
                        );
                        lemma_left_arc_write(
                            s0,
                            gm,
                            self.contents@,
                            a,
                            b,
                            cxg,
                            cyg,
                            enc_stroke,
                            a,
                            cxg + (c_x as int) - 1,
                            cyg - (yd as int),
                        );
                        lemma_right_arc_write(
                            s0,
                            gm,
                            self.contents@,
                            a,
                            b,
                            cxg,
                            cyg,
                            enc_stroke,
                            ir as int,
                            cxg + (c_x as int) - 1,
                            cyg - (yd as int),
                        );
                        lemma_left_gap_arc_write(
                            s0,
                            gm,
                            self.contents@,
                            a,
                            b,
                            cxg,
                            cyg,
                            enc_stroke,
                            guess,
                            a,
                            cxg + (c_x as int) - 1,
                            cyg - (yd as int),
                        );
                        lemma_right_gap_arc_write(
                            s0,
                            gm,
                            self.contents@,
                            a,
                            b,
                            cxg,
                            cyg,
                            enc_stroke,
                            guess,
                            ir as int - 1,
                            cxg + (c_x as int) - 1,
                            cyg - (yd as int),
                        );
                        lemma_right_gap_run_write(
                            s0,
                            gm,
                            self.contents@,
                            a,
                            b,
                            cxg,
                            cyg,
                            enc_stroke,
                            ir as int,
                            d as int - 1,
                            cxg + (c_x as int) - 1,
                            cyg - (yd as int),
                        );
                        assert(spec_ellipse_y(a, b, ir as int) + d as int == yd as int);
                        assert(cyg + (yd as int) < abs_height(s0));
                        assert(0 <= cxg + (ir as int) - 1 < dib_width(s0));
                        assert(pixel_group(self.contents@, cxg + (ir as int) - 1, cyg - (yd as int))
                            == enc_stroke);
                        assert(pixel_group(self.contents@, cxg + (ir as int) - 1, cyg + (yd as int))
                            == pixel_group(gm, cxg + (ir as int) - 1, cyg + (yd as int)));
                        assert(pixel_group(self.contents@, cxg + (ir as int) - 1, cyg + (yd as int))
                            == enc_stroke);
                        assert(right_gap_pin(
                            s0,
                            self.contents@,
                            a,
                            b,
                            cxg,
                            cyg,
                            enc_stroke,
                            ir as int,
                            d as int,
                        ));
                        assert forall|dd: int| 1 <= dd <= d as int implies #[trigger] right_gap_pin(
                            s0,
                            self.contents@,
                            a,
                            b,
                            cxg,
                            cyg,
                            enc_stroke,
                            ir as int,
                            dd,
                        ) by {
                            if dd <= d as int - 1 {
                                assert(right_gap_pin(
                                    s0,
                                    self.contents@,
                                    a,
                                    b,
                                    cxg,
                                    cyg,
                                    enc_stroke,
                                    ir as int,
                                    dd,
                                ));
                            }
                        }
                        assert(right_gap_run(
                            s0,
                            self.contents@,
                            a,
                            b,
                            cxg,
                            cyg,
                            enc_stroke,
                            ir as int,
                            d as int,
                        ));
                    }
                    d = d + 1;
                }
            }
            proof {
                if editable(s0) {
                    assert forall|il2: int|
                        2 <= il2 <= ir as int && gap_on(a, b, guess, il2) implies #[trigger] right_gap_run(
                        s0,
                        self.contents@,
                        a,
                        b,
                        cxg,
                        cyg,
                        enc_stroke,
                        il2,
                        gap_diff(a, b, il2),
                    ) by {
                        if il2 <= ir as int - 1 {
                            assert(right_gap_run(
                                s0,
                                self.contents@,
                                a,
                                b,
                                cxg,
                                cyg,
                                enc_stroke,
                                il2,
                                gap_diff(a, b, il2),
                            ));
                        } else {
                            assert(il2 == ir as int);
                            assert(prev_y2 == spec_ellipse_y(a, b, ir as int - 1));
                            assert(gap_diff(a, b, il2) == diff as int);
                            assert(diff > 1 && ir != 1 && guess);
                            assert forall|dd: int|
                                1 <= dd <= diff as int implies #[trigger] right_gap_pin(
                                s0,
                                self.contents@,
                                a,
                                b,
                                cxg,
                                cyg,
                                enc_stroke,
                                ir as int,
                                dd,
                            ) by {
                                assert(right_gap_pin(
                                    s0,
                                    self.contents@,
                                    a,
                                    b,
                                    cxg,
                                    cyg,
                                    enc_stroke,
                                    ir as int,
                                    dd,
                                ));
                            }
                            assert(right_gap_run(
                                s0,
                                self.contents@,
                                a,
                                b,
                                cxg,
                                cyg,
                                enc_stroke,
                                il2,
                                gap_diff(a, b, il2),
                            ));
                        }
                    }
                    assert(right_gap_arc(
                        s0,
                        self.contents@,
                        a,
                        b,
                        cxg,
                        cyg,
                        enc_stroke,
                        guess,
                        ir as int,
                    ));
                }
            }
            prev_y2 = y;
            ir = ir + 1;
        }
        proof {
            if editable(s0) {
                assert forall|d: int| 1 <= d <= a implies #[trigger] right_pin(
                    s0,
                    self.contents@,
                    a,
                    b,
                    cxg,
                    cyg,
                    enc_stroke,
                    d,
                ) by {
                    assert(1 <= d <= ir as int - 1);
                    assert(right_pin(s0, self.contents@, a, b, cxg, cyg, enc_stroke, d));
                }
                assert(right_arc(s0, self.contents@, a, b, cxg, cyg, enc_stroke, a));
                assert forall|il2: int|
                    2 <= il2 <= a && gap_on(a, b, guess, il2) implies #[trigger] right_gap_run(
                    s0,
                    self.contents@,
                    a,
                    b,
                    cxg,
                    cyg,
                    enc_stroke,
                    il2,
                    gap_diff(a, b, il2),
                ) by {
                    assert(2 <= il2 <= ir as int - 1);
                    assert(right_gap_run(
                        s0,
                        self.contents@,
                        a,
                        b,
                        cxg,
                        cyg,
                        enc_stroke,
                        il2,
                        gap_diff(a, b, il2),
                    ));
                }
                assert(right_gap_arc(s0, self.contents@, a, b, cxg, cyg, enc_stroke, guess, a));
            }
        }
        self.finish_ellipse(center, xlength, ylength, stroke, fill, guess, Ghost(s0), Ghost(fits))
    }

    /// Strokes the two vertical axis extremes and runs the optional
    /// closing flood fill, carrying an already-stroked outline (relative
    /// to the starting buffer `s0`) through to the final image.
    #[verifier::rlimit(100)]
    fn finish_ellipse(
        &mut self,
        center: [u16; 2],
        xlength: u16,
        ylength: u16,
        stroke: [u8; 4],
        fill: Option<[u8; 4]>,
        guess: bool,
        Ghost(s0): Ghost<Seq<u8>>,
        Ghost(fits): Ghost<bool>,
    ) -> (r: Result<(), ErrorKind>)
        requires
            fits == (editable(s0) && xlength <= center@[0] && center@[0] + xlength < dib_width(s0)
                && 2 * ylength <= center@[1] && center@[1] + 2 * ylength < abs_height(s0)),
            editable(s0) ==> same_geometry(s0, old(self).contents@) && s0.subrange(
                0,
                14 + dib_size(s0) as int,
            ) == old(self).contents@.subrange(0, 14 + dib_size(s0) as int),
            !editable(s0) ==> old(self).contents@ == s0,
            editable(s0) ==> stroke_frame(s0, old(self).contents@, spec_encoded_px(s0, stroke@)),
            editable(s0) ==> left_arc(
                s0,
                old(self).contents@,
                xlength as int,
                ylength as int,
                center@[0] as int,
                center@[1] as int,
                spec_encoded_px(s0, stroke@),
                xlength as int,
            ),
            editable(s0) ==> right_arc(
                s0,
                old(self).contents@,
                xlength as int,
                ylength as int,
                center@[0] as int,
                center@[1] as int,
                spec_encoded_px(s0, stroke@),
                xlength as int,
            ),
            editable(s0) ==> left_gap_arc(
                s0,
                old(self).contents@,
                xlength as int,
                ylength as int,
                center@[0] as int,
                center@[1] as int,
                spec_encoded_px(s0, stroke@),
                guess,
                xlength as int,
            ),
            editable(s0) ==> right_gap_arc(
                s0,
                old(self).contents@,
                xlength as int,
                ylength as int,
                center@[0] as int,
                center@[1] as int,
                spec_encoded_px(s0, stroke@),
                guess,
                xlength as int,
            ),
        ensures
            editable(s0) ==> final(self).from_file == old(self).from_file && same_geometry(
                s0,
                final(self).contents@,
            ) && s0.subrange(0, 14 + dib_size(s0) as int) == final(self).contents@.subrange(
                0,
                14 + dib_size(s0) as int,
            ),
            !editable(s0) ==> *final(self) == *old(self) && r is Err,
            r is Ok && editable(s0) ==> forall|x2: int, y2: int|
                0 <= x2 < dib_width(s0) && 0 <= y2 < abs_height(s0) ==> #[trigger] pixel_group(
                    final(self).contents@,
                    x2,
                    y2,
                ) == spec_encoded_px(s0, stroke@) || (fill is Some && pixel_group(
                    final(self).contents@,
                    x2,
                    y2,
                ) == spec_encoded_px(s0, fill->0@)) || pixel_group(final(self).contents@, x2, y2)
                    == pixel_group(s0, x2, y2),
            r is Ok && editable(s0) && fill is None ==> ({
                let b = ylength as int;
                let cx = center@[0] as int;
                let cy = center@[1] as int;
                &&& b <= cy && cy + b < abs_height(s0) && cx < dib_width(s0)
                &&& pixel_group(final(self).contents@, cx, cy + b) == spec_encoded_px(s0, stroke@)
                &&& pixel_group(final(self).contents@, cx, cy - b) == spec_encoded_px(s0, stroke@)
            }),
            r is Ok && editable(s0) && fill is None ==> forall|d: int|
                1 <= d <= xlength as int ==> #[trigger] ellipse_sample_stroked(
                    s0,
                    final(self).contents@,
                    xlength as int,
                    ylength as int,
                    center@[0] as int,
                    center@[1] as int,
                    stroke@,
                    d,
                ),
            r is Ok && editable(s0) && fill is None ==> left_gap_arc(
                s0,
                final(self).contents@,
                xlength as int,
                ylength as int,
                center@[0] as int,
                center@[1] as int,
                spec_encoded_px(s0, stroke@),
                guess,
                xlength as int,
            ) && right_gap_arc(
                s0,
                final(self).contents@,
                xlength as int,
                ylength as int,
                center@[0] as int,
                center@[1] as int,
                spec_encoded_px(s0, stroke@),
                guess,
                xlength as int,
            ),
            r is Ok && editable(s0) && fill is Some ==> ({
                let a = xlength as int;
                let b = ylength as int;
                let cx = center@[0] as int;
                let cy = center@[1] as int;
                exists|t: Seq<u8>|
                    #![trigger same_geometry(s0, t)]
                    {
                        &&& same_geometry(s0, t)
                        &&& stroke_frame(s0, t, spec_encoded_px(s0, stroke@))
                        &&& b <= cy && cy + b < abs_height(s0) && cx < dib_width(s0)
                        &&& pixel_group(t, cx, cy + b) == spec_encoded_px(s0, stroke@)
                        &&& pixel_group(t, cx, cy - b) == spec_encoded_px(s0, stroke@)
                        &&& (forall|d: int|
                            1 <= d <= a ==> #[trigger] ellipse_sample_stroked(
                                s0,
                                t,
                                a,
                                b,
                                cx,
                                cy,
                                stroke@,
                                d,
                            ))
                        &&& left_gap_arc(s0, t, a, b, cx, cy, spec_encoded_px(s0, stroke@), guess, a)
                        &&& right_gap_arc(s0, t, a, b, cx, cy, spec_encoded_px(s0, stroke@), guess, a)
                        &&& (forall|x2: int, y2: int|
                            0 <= x2 < dib_width(s0) && 0 <= y2 < abs_height(s0)
                                ==> #[trigger] pixel_group(final(self).contents@, x2, y2) == (
                            if reachable(t, cx, cy, x2, y2) {
                                spec_encoded_px(s0, fill->0@)
                            } else {
                                pixel_group(t, x2, y2)
                            }))
                    }
            }),
            fits ==> r is Ok,
    {
        let ghost a = xlength as int;
        let ghost b = ylength as int;
        let ghost cxg = center@[0] as int;
        let ghost cyg = center@[1] as int;
        let ghost enc_stroke = spec_encoded_px(s0, stroke@);
        if (center[1] as u32) + (ylength as u32) > 0xFFFF || ylength > center[1] {
            proof {
                if fits {
                    assert(false);
                }
            }
            return Err(ErrorKind::DoesNotExist);
        }
        let ghost pre_a = self.contents@;
        proof {
            if fits {
                assert(same_geometry(s0, pre_a));
                assert(cxg < dib_width(s0));
                assert(cyg + b < abs_height(s0));
            }
        }
        self.stroke_point(center[0], center[1] + ylength, stroke, Ghost(s0))?;
        let ghost mid_a = self.contents@;
        proof {
            assert(editable(pre_a));
            assert(editable(s0));
            lemma_stroke_write(s0, pre_a, mid_a, enc_stroke, cxg, cyg + b);
            lemma_left_arc_write(s0, pre_a, mid_a, a, b, cxg, cyg, enc_stroke, a, cxg, cyg + b);
            lemma_right_arc_write(s0, pre_a, mid_a, a, b, cxg, cyg, enc_stroke, a, cxg, cyg + b);
            lemma_left_gap_arc_write(
                s0,
                pre_a,
                mid_a,
                a,
                b,
                cxg,
                cyg,
                enc_stroke,
                guess,
                a,
                cxg,
                cyg + b,
            );
            lemma_right_gap_arc_write(
                s0,
                pre_a,
                mid_a,
                a,
                b,
                cxg,
                cyg,
                enc_stroke,
                guess,
                a,
                cxg,
                cyg + b,
            );
        }
        self.stroke_point(center[0], center[1] - ylength, stroke, Ghost(s0))?;
        let ghost cur_a = self.contents@;
        proof {
            lemma_stroke_write(s0, mid_a, cur_a, enc_stroke, cxg, cyg - b);
            lemma_left_arc_write(s0, mid_a, cur_a, a, b, cxg, cyg, enc_stroke, a, cxg, cyg - b);
            lemma_right_arc_write(s0, mid_a, cur_a, a, b, cxg, cyg, enc_stroke, a, cxg, cyg - b);
            lemma_left_gap_arc_write(
                s0,
                mid_a,
                cur_a,
                a,
                b,
                cxg,
                cyg,
                enc_stroke,
                guess,
                a,
                cxg,
                cyg - b,
            );
            lemma_right_gap_arc_write(
                s0,
                mid_a,
                cur_a,
                a,
                b,
                cxg,
                cyg,
                enc_stroke,
                guess,
                a,
                cxg,
                cyg - b,
            );
            assert(pixel_group(cur_a, cxg, cyg - b) == enc_stroke);
            if cyg + b != cyg - b {
                assert(pixel_group(cur_a, cxg, cyg + b) == pixel_group(mid_a, cxg, cyg + b));
            }
            assert(pixel_group(cur_a, cxg, cyg + b) == enc_stroke);
            assert(b <= cyg && cyg + b < abs_height(s0) && cxg < dib_width(s0));
        }
        if let Some(fill_color) = fill {
            let ghost stroked = self.contents@;
            match self.fill_bucket(fill_color, center[0] as usize, center[1] as usize) {
                Ok(filled) => {
                    proof {
                        crate::write::lemma_encoded_px_preserved(s0, stroked, stroke@);
                        crate::write::lemma_encoded_px_preserved(s0, stroked, fill_color@);
                        assert(same_geometry(s0, stroked));
                        assert(cxg < dib_width(stroked) && cyg < abs_height(stroked));
                        assert(left_gap_arc(s0, stroked, a, b, cxg, cyg, enc_stroke, guess, a));
                        assert(right_gap_arc(s0, stroked, a, b, cxg, cyg, enc_stroke, guess, a));
                        assert forall|d: int| 1 <= d <= a implies #[trigger] ellipse_sample_stroked(
                            s0,
                            stroked,
                            a,
                            b,
                            cxg,
                            cyg,
                            stroke@,
                            d,
                        ) by {
                            assert(left_pin(s0, stroked, a, b, cxg, cyg, enc_stroke, d));
                            assert(right_pin(s0, stroked, a, b, cxg, cyg, enc_stroke, d));
                            assert(ellipse_sample_stroked(s0, stroked, a, b, cxg, cyg, stroke@, d));
                        }
                        assert forall|x2: int, y2: int|
                            0 <= x2 < dib_width(s0) && 0 <= y2 < abs_height(s0)
                                implies #[trigger] pixel_group(self.contents@, x2, y2) == (
                        if reachable(stroked, cxg, cyg, x2, y2) {
                            spec_encoded_px(s0, fill_color@)
                        } else {
                            pixel_group(stroked, x2, y2)
                        }) by {
                            if contains_coord(filled@, x2, y2) {
                                let k = choose|k: int|
                                    0 <= k < filled@.len() && (#[trigger] filled@[k])@[0] == x2
                                        && filled@[k]@[1] == y2;
                                assert(reachable(
                                    stroked,
                                    cxg,
                                    cyg,
                                    filled@[k]@[0] as int,
                                    filled@[k]@[1] as int,
                                ));
                                assert(reachable(stroked, cxg, cyg, x2, y2));
                            } else {
                                assert(!reachable(stroked, cxg, cyg, x2, y2));
                            }
                        }
                        assert forall|x2: int, y2: int|
                            0 <= x2 < dib_width(s0) && 0 <= y2 < abs_height(s0) implies #[trigger]
                        pixel_group(self.contents@, x2, y2) == spec_encoded_px(s0, stroke@) || (
                        fill is Some && pixel_group(self.contents@, x2, y2) == spec_encoded_px(
                            s0,
                            fill->0@,
                        )) || pixel_group(self.contents@, x2, y2) == pixel_group(s0, x2, y2) by {
                            if pixel_group(self.contents@, x2, y2) != pixel_group(
                                stroked,
                                x2,
                                y2,
                            ) {
                                assert(pixel_group(self.contents@, x2, y2) == spec_encoded_px(
                                    stroked,
                                    fill_color@,
                                ));
                            }
                        }
                    }
                },
                Err(e) => {
                    proof {
                        if fits {
                            assert(same_geometry(s0, stroked));
                            assert((center@[0] as int) < dib_width(stroked));
                            assert((center@[1] as int) < abs_height(stroked));
                            assert(false);
                        }
                    }
                    return Err(e);
                },
            }
        }
        proof {
            if fill is None {
                assert forall|d: int| 1 <= d <= a implies #[trigger] ellipse_sample_stroked(
                    s0,
                    self.contents@,
                    a,
                    b,
                    cxg,
                    cyg,
                    stroke@,
                    d,
                ) by {
                    assert(left_pin(s0, self.contents@, a, b, cxg, cyg, enc_stroke, d));
                    assert(right_pin(s0, self.contents@, a, b, cxg, cyg, enc_stroke, d));
                    assert(ellipse_sample_stroked(s0, self.contents@, a, b, cxg, cyg, stroke@, d));
                }
            }
        }
        Ok(())
    }

    /// Writes one stroke pixel
    /// Writes one stroke pixel, tracking that every pixel is either the
    /// stroke color or untouched relative to the pass's starting buffer.
    fn stroke_point(&mut self, x: u16, y: u16, stroke: [u8; 4], Ghost(s0): Ghost<Seq<u8>>) -> (r:
        Result<(), ErrorKind>)
        requires
            editable(s0) ==> same_geometry(s0, old(self).contents@) && s0.subrange(
                0,
                14 + dib_size(s0) as int,
            ) == old(self).contents@.subrange(0, 14 + dib_size(s0) as int),
    ensures
            ({
                &&& (r == (if !editable(old(self).contents@) {
                    Err::<(), ErrorKind>(ErrorKind::Unsupported)
                } else if !(x < dib_width(old(self).contents@) && y < abs_height(
                    old(self).contents@,
                )) {
                    Err::<(), ErrorKind>(ErrorKind::DoesNotExist)
                } else {
                    Ok::<(), ErrorKind>(())
                }))
                &&& (r is Err ==> *final(self) == *old(self))
                &&& (r is Ok && editable(s0) ==> {
                    &&& final(self).from_file == old(self).from_file
                    &&& same_geometry(s0, final(self).contents@)
                    &&& s0.subrange(0, 14 + dib_size(s0) as int) == final(self).contents@.subrange(
                        0,
                        14 + dib_size(s0) as int,
                    )
                    &&& pixel_group(final(self).contents@, x as int, y as int) == spec_encoded_px(
                        s0,
                        stroke@,
                    )
                    &&& forall|x2: int, y2: int|
                        0 <= x2 < dib_width(s0) && 0 <= y2 < abs_height(s0) && (x2, y2) != (
                        x as int,
                        y as int,
                        ) ==> pixel_group(final(self).contents@, x2, y2) == pixel_group(
                            old(self).contents@,
                            x2,
                            y2,
                        )
                })
            }),
    {
        let ghost cur = self.contents@;
        let r = self.change_color_of_pixel(x, y, stroke);
        proof {
            if r is Ok && editable(s0) {
                crate::write::lemma_encoded_px_preserved(s0, cur, stroke@);
            }
        }
        r
    }
}

} // verus!
