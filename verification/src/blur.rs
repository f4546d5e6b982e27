//! Separable blurs: one verified 1-D weighted pass, run horizontally and
//! vertically, with box and Pascal-triangle (binomial) weight vectors.
//!
//! Neighbors falling outside the image contribute nothing: their weights
//! are simply left out of the normalizing total, never replaced by
//! synthetic border pixels.

use vstd::prelude::*;

use crate::bmp::BMP;
use crate::color::round_div;
use crate::errors::ErrorKind;
use crate::header::{dib_parse_ok, dib_size, dib_width};
use crate::image::{pixel_matches, plane_shaped, resolved_px, spec_resolve, spec_resolve_group};
use crate::plane::{abs_height, editable, group_size, lemma_editable_rows, lemma_group_in_bounds,
    num_rows, pixel_group, same_geometry};
use crate::write::{lemma_encode_resolve, lemma_matches_preserved, spec_encoded_px, spec_readback};

verus! {

/// The weighted sum of channel `ch` over window offsets `-radius ..= d`,
/// skipping offsets that leave the image.
pub open spec fn blur_num(
    s: Seq<u8>,
    weights: Seq<u16>,
    x: int,
    y: int,
    radius: int,
    d: int,
    ch: int,
    horizontal: bool,
) -> int
    decreases d + radius + 1,
{
    if d < -radius {
        0
    } else {
        let px = if horizontal {
            x + d
        } else {
            x
        };
        let py = if horizontal {
            y
        } else {
            y + d
        };
        blur_num(s, weights, x, y, radius, d - 1, ch, horizontal) + (if 0 <= px < dib_width(s) && 0
            <= py < abs_height(s) {
            weights[radius + d] * resolved_px(s, px, py)[ch]
        } else {
            0
        })
    }
}

/// The sum of the window weights whose offsets stay inside the image, over
/// offsets `-radius ..= d`.
pub open spec fn blur_den(
    s: Seq<u8>,
    weights: Seq<u16>,
    x: int,
    y: int,
    radius: int,
    d: int,
    horizontal: bool,
) -> int
    decreases d + radius + 1,
{
    if d < -radius {
        0
    } else {
        let px = if horizontal {
            x + d
        } else {
            x
        };
        let py = if horizontal {
            y
        } else {
            y + d
        };
        blur_den(s, weights, x, y, radius, d - 1, horizontal) + (if 0 <= px < dib_width(s) && 0
            <= py < abs_height(s) {
            weights[radius + d] as int
        } else {
            0
        })
    }
}

/// One blurred channel: the truncated window's weighted average, rounded
/// to nearest.
pub open spec fn blur_chan(
    s: Seq<u8>,
    weights: Seq<u16>,
    x: int,
    y: int,
    radius: int,
    ch: int,
    horizontal: bool,
) -> int {
    round_div(
        blur_num(s, weights, x, y, radius, radius, ch, horizontal),
        blur_den(s, weights, x, y, radius, radius, horizontal),
    )
}

/// The blurred color of pixel `(x, y)` for one pass direction.
pub open spec fn blur_color(
    s: Seq<u8>,
    weights: Seq<u16>,
    x: int,
    y: int,
    radius: int,
    horizontal: bool,
) -> Seq<u8> {
    seq![
        blur_chan(s, weights, x, y, radius, 0, horizontal) as u8,
        blur_chan(s, weights, x, y, radius, 1, horizontal) as u8,
        blur_chan(s, weights, x, y, radius, 2, horizontal) as u8,
        blur_chan(s, weights, x, y, radius, 3, horizontal) as u8,
    ]
}

/// One pass relates two buffers when every pixel of the second resolves to
/// the first's blurred color there.
pub open spec fn blur_pass_rel(
    s: Seq<u8>,
    s2: Seq<u8>,
    weights: Seq<u16>,
    radius: int,
    horizontal: bool,
) -> bool {
    forall|x: int, y: int|
        0 <= x < dib_width(s) && 0 <= y < abs_height(s) ==> #[trigger] spec_resolve(s2, x, y)
            == Ok::<Seq<u8>, ErrorKind>(
            spec_readback(s, blur_color(s, weights, x, y, radius, horizontal)),
        )
}

/// The numerator stays under 255 times the denominator, and both under
/// their coarse window bounds.
proof fn lemma_blur_bounds(
    s: Seq<u8>,
    weights: Seq<u16>,
    x: int,
    y: int,
    radius: int,
    d: int,
    ch: int,
    horizontal: bool,
)
    requires
        weights.len() == 2 * radius + 1,
        -radius - 1 <= d <= radius,
        radius >= 0,
        forall|x2: int, y2: int|
            0 <= x2 < dib_width(s) && 0 <= y2 < abs_height(s) ==> (#[trigger] resolved_px(
                s,
                x2,
                y2,
            )).len() == 4,
    ensures
        0 <= blur_den(s, weights, x, y, radius, d, horizontal) <= (d + radius + 1) * 0x10000,
        0 <= blur_num(s, weights, x, y, radius, d, ch, horizontal) <= 255 * blur_den(
            s,
            weights,
            x,
            y,
            radius,
            d,
            horizontal,
        ),
    decreases d + radius + 1,
{
    if d >= -radius {
        lemma_blur_bounds(s, weights, x, y, radius, d - 1, ch, horizontal);
        let px = if horizontal {
            x + d
        } else {
            x
        };
        let py = if horizontal {
            y
        } else {
            y + d
        };
        let dprev = blur_den(s, weights, x, y, radius, d - 1, horizontal);
        let nprev = blur_num(s, weights, x, y, radius, d - 1, ch, horizontal);
        if 0 <= px < dib_width(s) && 0 <= py < abs_height(s) {
            let w = weights[radius + d] as int;
            let c = if 0 <= ch < 4 {
                resolved_px(s, px, py)[ch] as int
            } else {
                resolved_px(s, px, py)[ch] as int
            };
            assert(w * resolved_px(s, px, py)[ch] >= 0 && w * resolved_px(s, px, py)[ch] <= w * 255)
                by (nonlinear_arith)
                requires
                    w >= 0,
                    0 <= resolved_px(s, px, py)[ch] <= 255,
            ;
            assert(nprev + w * resolved_px(s, px, py)[ch] <= 255 * (dprev + w)) by (nonlinear_arith)
                requires
                    nprev <= 255 * dprev,
                    w * resolved_px(s, px, py)[ch] <= w * 255,
                    w >= 0,
            ;
        }
        assert((d + radius) * 0x10000 + 0x10000 == (d + radius + 1) * 0x10000) by (nonlinear_arith);
    }
}

/// The denominator includes the center weight: it is positive whenever the
/// center weight is.
proof fn lemma_blur_den_pos(
    s: Seq<u8>,
    weights: Seq<u16>,
    x: int,
    y: int,
    radius: int,
    d: int,
    horizontal: bool,
)
    requires
        weights.len() == 2 * radius + 1,
        radius >= 0,
        0 <= d <= radius,
        weights[radius as int] >= 1,
        0 <= x < dib_width(s),
        0 <= y < abs_height(s),
    ensures
        blur_den(s, weights, x, y, radius, d, horizontal) >= weights[radius as int],
    decreases d,
{
    if d == 0 {
        lemma_blur_den_nonneg(s, weights, x, y, radius, -1, horizontal);
    } else {
        lemma_blur_den_pos(s, weights, x, y, radius, d - 1, horizontal);
    }
}

/// Every partial denominator is non-negative.
proof fn lemma_blur_den_nonneg(
    s: Seq<u8>,
    weights: Seq<u16>,
    x: int,
    y: int,
    radius: int,
    d: int,
    horizontal: bool,
)
    requires
        weights.len() == 2 * radius + 1,
        radius >= 0,
        d <= radius,
    ensures
        blur_den(s, weights, x, y, radius, d, horizontal) >= 0,
    decreases d + radius + 1,
{
    if d >= -radius {
        lemma_blur_den_nonneg(s, weights, x, y, radius, d - 1, horizontal);
    }
}

impl BMP {
    /// One 1-D blur pass over the whole image, reading every window from a
    /// snapshot of the plane taken before the pass.
    fn blur_pass(&mut self, radius: u8, weights: &Vec<u16>, horizontal: bool)
        requires
            editable(old(self).contents@),
            1 <= radius <= 16,
            weights@.len() == 2 * radius + 1,
            weights@[radius as int] >= 1,
        ensures
            final(self).from_file == old(self).from_file,
            same_geometry(old(self).contents@, final(self).contents@),
            old(self).contents@.subrange(0, 14 + dib_size(old(self).contents@) as int) == final(
                self).contents@.subrange(0, 14 + dib_size(old(self).contents@) as int),
            blur_pass_rel(
                old(self).contents@,
                final(self).contents@,
                weights@,
                radius as int,
                horizontal,
            ),
    {
        let ghost s = self.contents@;
        let ghost was_from_file = self.from_file;
        let dib_header = match self.get_dib_header() {
            Ok(h) => h,
            Err(_) => {
                proof {
                    assert(false);
                }
                vstd::pervasive::unreached()
            },
        };
        proof {
            lemma_editable_rows(s);
        }
        let header = self.get_header();
        let colors = self.snapshot_colors(&dib_header);
        let width: u16 = dib_header.width as u16;
        let habs: u16 = if dib_header.height < 0 {
            (((-(dib_header.height as i64)) as u64) as u32) as u16
        } else {
            (dib_header.height as u32) as u16
        };
        proof {
            assert(habs == abs_height(s));
            assert(width == dib_width(s));
            assert forall|x2: int, y2: int|
                0 <= x2 < dib_width(s) && 0 <= y2 < abs_height(s) implies (#[trigger] resolved_px(
                s,
                x2,
                y2,
            )).len() == 4 by {
                lemma_resolved_len(s, x2, y2);
            }
        }
        let ghost hdr_end = 14 + dib_size(s) as int;
        let mut y: u16 = 0;
        while y < habs
            invariant
                s == old(self).contents@,
                was_from_file == old(self).from_file,
                editable(s),
                1 <= radius <= 16,
                weights@.len() == 2 * radius + 1,
                weights@[radius as int] >= 1,
                dib_header.wf(),
                pixel_matches(dib_header, s),
                pixel_matches(dib_header, self.contents@),
                dib_parse_ok(self.contents@),
                header.matches(self.contents@),
                same_geometry(s, self.contents@),
                hdr_end == 14 + dib_size(s),
                s.subrange(0, hdr_end) == self.contents@.subrange(0, hdr_end),
                self.from_file == was_from_file,
                width == dib_width(s),
                habs == abs_height(s),
                y <= habs,
                colors@.len() == abs_height(s),
                forall|j: int| 0 <= j < habs ==> (#[trigger] colors@[j])@.len() == width,
                forall|j: int, i: int|
                    0 <= j < habs && 0 <= i < width ==> (#[trigger] colors@[j]@[i])@ == resolved_px(
                        s,
                        i,
                        j,
                    ),
                forall|x2: int, y2: int|
                    0 <= x2 < dib_width(s) && 0 <= y2 < abs_height(s) ==> (#[trigger] resolved_px(
                        s,
                        x2,
                        y2,
                    )).len() == 4,
                forall|x2: int, y2: int|
                    0 <= x2 < width && 0 <= y2 < habs && y2 < y ==> #[trigger] pixel_group(
                        self.contents@,
                        x2,
                        y2,
                    ) == spec_encoded_px(
                        s,
                        blur_color(s, weights@, x2, y2, radius as int, horizontal),
                    ),
                forall|x2: int, y2: int|
                    0 <= x2 < width && 0 <= y2 < habs && y2 >= y ==> #[trigger] pixel_group(
                        self.contents@,
                        x2,
                        y2,
                    ) == pixel_group(s, x2, y2),
            decreases habs - y,
        {
            let mut x: u16 = 0;
            while x < width
                invariant
                    s == old(self).contents@,
                    was_from_file == old(self).from_file,
                    editable(s),
                    1 <= radius <= 16,
                    weights@.len() == 2 * radius + 1,
                    weights@[radius as int] >= 1,
                    dib_header.wf(),
                    pixel_matches(dib_header, s),
                    pixel_matches(dib_header, self.contents@),
                    dib_parse_ok(self.contents@),
                    header.matches(self.contents@),
                    same_geometry(s, self.contents@),
                    hdr_end == 14 + dib_size(s),
                    s.subrange(0, hdr_end) == self.contents@.subrange(0, hdr_end),
                    self.from_file == was_from_file,
                    width == dib_width(s),
                    habs == abs_height(s),
                    y < habs,
                    x <= width,
                    colors@.len() == abs_height(s),
                    forall|j: int| 0 <= j < habs ==> (#[trigger] colors@[j])@.len() == width,
                    forall|j: int, i: int|
                        0 <= j < habs && 0 <= i < width ==> (#[trigger] colors@[j]@[i])@
                            == resolved_px(s, i, j),
                    forall|x2: int, y2: int|
                        0 <= x2 < dib_width(s) && 0 <= y2 < abs_height(s) ==> (
                        #[trigger] resolved_px(s, x2, y2)).len() == 4,
                    forall|x2: int, y2: int|
                        0 <= x2 < width && 0 <= y2 < habs && (y2 < y || (y2 == y && x2 < x))
                            ==> #[trigger] pixel_group(self.contents@, x2, y2) == spec_encoded_px(
                            s,
                            blur_color(s, weights@, x2, y2, radius as int, horizontal),
                        ),
                    forall|x2: int, y2: int|
                        0 <= x2 < width && 0 <= y2 < habs && (y2 > y || (y2 == y && x2 >= x))
                            ==> #[trigger] pixel_group(self.contents@, x2, y2) == pixel_group(
                            s,
                            x2,
                            y2,
                        ),
                decreases width - x,
            {
                let new_color = blur_window(
                    &colors,
                    weights,
                    radius,
                    x,
                    y,
                    width,
                    habs,
                    horizontal,
                    Ghost(s),
                );
                let ghost cur = self.contents@;
                let res = self.change_color_of_pixel_efficient(
                    x,
                    y,
                    new_color,
                    &dib_header,
                    &header,
                );
                proof {
                    assert(res is Ok);
                    let now = self.contents@;
                    assert(s.subrange(0, hdr_end) == now.subrange(0, hdr_end));
                    lemma_matches_preserved(dib_header, header, cur, now);
                    assert(spec_encoded_px(cur, new_color@) == spec_encoded_px(s, new_color@));
                    assert forall|x2: int, y2: int|
                        0 <= x2 < width && 0 <= y2 < habs && (y2 > y || (y2 == y && x2 >= x + 1))
                            implies #[trigger] pixel_group(now, x2, y2) == pixel_group(
                        s,
                        x2,
                        y2,
                    ) by {
                        assert(pixel_group(now, x2, y2) == pixel_group(cur, x2, y2));
                    }
                    assert forall|x2: int, y2: int|
                        0 <= x2 < width && 0 <= y2 < habs && (y2 < y || (y2 == y && x2 < x + 1))
                            implies #[trigger] pixel_group(now, x2, y2) == spec_encoded_px(
                        s,
                        blur_color(s, weights@, x2, y2, radius as int, horizontal),
                    ) by {
                        if (x2, y2) != (x as int, y as int) {
                            assert(pixel_group(now, x2, y2) == pixel_group(cur, x2, y2));
                        }
                    }
                }
                x = x + 1;
            }
            y = y + 1;
        }
        proof {
            let now = self.contents@;
            assert forall|x2: int, y2: int|
                0 <= x2 < dib_width(s) && 0 <= y2 < abs_height(s) implies #[trigger] spec_resolve(
                now,
                x2,
                y2,
            ) == Ok::<Seq<u8>, ErrorKind>(
                spec_readback(s, blur_color(s, weights@, x2, y2, radius as int, horizontal)),
            ) by {
                lemma_editable_rows(s);
                let bc = blur_color(s, weights@, x2, y2, radius as int, horizontal);
                assert(bc.len() == 4);
                lemma_encode_resolve(s, bc);
                assert(spec_resolve_group(now, spec_encoded_px(s, bc)) == spec_resolve_group(
                    s,
                    spec_encoded_px(s, bc),
                ));
                assert(spec_resolve(now, x2, y2) == spec_resolve_group(
                    now,
                    pixel_group(now, x2, y2),
                ));
            }
        }
    }

    /// Blurs every pixel with `weights`, horizontally then vertically
    /// unless a direction is switched off; each pass reads a fresh snapshot
    /// of the previous pass's result.  Fails `RadiusInvalid` for a radius
    /// of 0 or above 16, and `Unsupported` on a non-editable image, leaving
    /// the image untouched either way.
    pub fn separable_blur(
        &mut self,
        radius: u8,
        weights: &Vec<u16>,
        horizontal: Option<bool>,
        vertical: Option<bool>,
    ) -> (r: Result<(), ErrorKind>)
        requires
            weights@.len() == 2 * radius + 1,
            radius >= 1 && radius <= 16 ==> weights@[radius as int] >= 1,
        ensures
            ({
                let s = old(self).contents@;
                let do_h = horizontal != Some(false);
                let do_v = vertical != Some(false);
                &&& r == (if radius == 0 || radius > 16 {
                    Err::<(), ErrorKind>(ErrorKind::RadiusInvalid)
                } else if !editable(s) {
                    Err::<(), ErrorKind>(ErrorKind::Unsupported)
                } else {
                    Ok::<(), ErrorKind>(())
                })
                &&& (r is Err ==> *final(self) == *old(self))
                &&& (r is Ok ==> {
                    &&& final(self).from_file == old(self).from_file
                    &&& same_geometry(s, final(self).contents@)
                    &&& exists|mid: Seq<u8>|
                        {
                            &&& #[trigger] same_geometry(s, mid)
                            &&& (if do_h {
                                blur_pass_rel(s, mid, weights@, radius as int, true)
                            } else {
                                mid == s
                            })
                            &&& (if do_v {
                                blur_pass_rel(mid, final(self).contents@, weights@, radius as int, false)
                            } else {
                                final(self).contents@ == mid
                            })
                        }
                })
            }),
    {
        let ghost s = self.contents@;
        if radius == 0 || radius > 16 {
            return Err(ErrorKind::RadiusInvalid);
        }
        let dib_header = match self.get_dib_header() {
            Ok(h) => h,
            Err(e) => {
                return Err(e);
            },
        };
        if !self.is_editable(&dib_header) {
            return Err(ErrorKind::Unsupported);
        }
        let do_horizontal = match horizontal {
            Some(b) => b,
            None => true,
        };
        let do_vertical = match vertical {
            Some(b) => b,
            None => true,
        };
        if do_horizontal {
            self.blur_pass(radius, weights, true);
        }
        let ghost mid = self.contents@;
        if do_vertical {
            proof {
                assert(editable(mid));
            }
            self.blur_pass(radius, weights, false);
        }
        proof {
            assert(same_geometry(s, mid));
            assert(if do_horizontal {
                blur_pass_rel(s, mid, weights@, radius as int, true)
            } else {
                mid == s
            });
        }
        Ok(())
    }

    /// Box blur: every window weight is 1.
    pub fn box_blur(&mut self, radius: u8) -> (r: Result<(), ErrorKind>)
        ensures
            ({
                let s = old(self).contents@;
                &&& r == (if radius == 0 || radius > 16 {
                    Err::<(), ErrorKind>(ErrorKind::RadiusInvalid)
                } else if !editable(s) {
                    Err::<(), ErrorKind>(ErrorKind::Unsupported)
                } else {
                    Ok::<(), ErrorKind>(())
                })
                &&& (r is Err ==> *final(self) == *old(self))
                &&& (r is Ok ==> {
                    &&& final(self).from_file == old(self).from_file
                    &&& same_geometry(s, final(self).contents@)
                    &&& exists|mid: Seq<u8>|
                        {
                            &&& #[trigger] same_geometry(s, mid)
                            &&& blur_pass_rel(s, mid, box_weights(radius as int), radius as int, true)
                            &&& blur_pass_rel(
                                mid,
                                final(self).contents@,
                                box_weights(radius as int),
                                radius as int,
                                false,
                            )
                        }
                })
            }),
    {
        let mut weights: Vec<u16> = Vec::new();
        let n: usize = 2 * (radius as usize) + 1;
        let mut i: usize = 0;
        while i < n
            invariant
                i <= n,
                weights@.len() == i,
                forall|j: int| 0 <= j < i ==> weights@[j] == 1u16,
            decreases n - i,
        {
            weights.push(1);
            i = i + 1;
        }
        proof {
            assert(weights@ =~= box_weights(radius as int));
        }
        self.separable_blur(radius, &weights, None, None)
    }

    /// Gaussian blur approximated by one row of Pascal's triangle: weight
    /// `j` is the binomial coefficient of row `2·radius` at the distance
    /// from the window center, saturated to 16 bits.
    pub fn gaussian_blur(&mut self, radius: u8) -> (r: Result<(), ErrorKind>)
        ensures
            ({
                let s = old(self).contents@;
                &&& r == (if radius == 0 || radius > 16 {
                    Err::<(), ErrorKind>(ErrorKind::RadiusInvalid)
                } else if !editable(s) {
                    Err::<(), ErrorKind>(ErrorKind::Unsupported)
                } else {
                    Ok::<(), ErrorKind>(())
                })
                &&& (r is Err ==> *final(self) == *old(self))
                &&& (r is Ok ==> {
                    &&& final(self).from_file == old(self).from_file
                    &&& same_geometry(s, final(self).contents@)
                    &&& exists|mid: Seq<u8>|
                        {
                            &&& #[trigger] same_geometry(s, mid)
                            &&& blur_pass_rel(
                                s,
                                mid,
                                gaussian_weights(radius as int),
                                radius as int,
                                true,
                            )
                            &&& blur_pass_rel(
                                mid,
                                final(self).contents@,
                                gaussian_weights(radius as int),
                                radius as int,
                                false,
                            )
                        }
                })
            }),
    {
        if radius == 0 || radius > 16 {
            return Err(ErrorKind::RadiusInvalid);
        }
        let weights = pascal_weights(radius);
        self.separable_blur(radius, &weights, None, None)
    }
}

/// All-ones weights of window size `2·radius + 1`.
pub open spec fn box_weights(radius: int) -> Seq<u16> {
    Seq::new((2 * radius + 1) as nat, |i: int| 1u16)
}

/// Binomial coefficient by the Pascal recurrence.
pub open spec fn binom(n: nat, k: int) -> nat
    decreases n,
{
    if k < 0 || k > n {
        0
    } else if n == 0 {
        1
    } else {
        binom((n - 1) as nat, k - 1) + binom((n - 1) as nat, k)
    }
}

/// The Pascal-triangle weight vector of row `2·radius`, saturated to 16
/// bits, symmetric about its center.
pub open spec fn gaussian_weights(radius: int) -> Seq<u16> {
    Seq::new(
        (2 * radius + 1) as nat,
        |j: int|
            if binom((2 * radius) as nat, j) > 0xFFFF {
                0xFFFFu16
            } else {
                binom((2 * radius) as nat, j) as u16
            },
    )
}

/// Every binomial coefficient of row `n` is below `4^n + 1` (a coarse but
/// sufficient bound).
proof fn lemma_binom_bound(n: nat, k: int, cap: int)
    requires
        binom_row_cap(n) <= cap,
    ensures
        binom(n, k) <= cap,
    decreases n,
{
    if n == 0 {
    } else {
        lemma_binom_bound((n - 1) as nat, k - 1, binom_row_cap((n - 1) as nat));
        lemma_binom_bound((n - 1) as nat, k, binom_row_cap((n - 1) as nat));
    }
}

/// A per-row cap on binomial coefficients: doubles each row.
pub open spec fn binom_row_cap(n: nat) -> int
    decreases n,
{
    if n == 0 {
        1
    } else {
        2 * binom_row_cap((n - 1) as nat)
    }
}

/// The row-32 cap in closed form.
proof fn lemma_binom_row_cap_32()
    ensures
        binom_row_cap(32) == 0x1_0000_0000,
    decreases 0int,
{
    reveal_with_fuel(binom_row_cap, 33);
}

/// The cap grows with the row.
proof fn lemma_binom_row_cap_mono(n1: nat, n2: nat)
    requires
        n1 <= n2,
    ensures
        binom_row_cap(n1) <= binom_row_cap(n2),
        binom_row_cap(n1) >= 1,
    decreases n2,
{
    if n1 < n2 {
        lemma_binom_row_cap_mono(n1, (n2 - 1) as nat);
    } else if n1 == n2 && n1 > 0 {
        lemma_binom_row_cap_mono((n1 - 1) as nat, (n2 - 1) as nat);
    }
}

/// Builds the Pascal-triangle weights for `gaussian_blur`.
fn pascal_weights(radius: u8) -> (r: Vec<u16>)
    requires
        1 <= radius <= 16,
    ensures
        r@.len() == 2 * radius + 1,
        r@ == gaussian_weights(radius as int),
        r@[radius as int] >= 1,
{
    let n: usize = 2 * (radius as usize);
    let mut row: Vec<u64> = Vec::new();
    row.push(1);
    proof {
        assert(row@.len() == 1);
        assert(row@[0] == binom(0, 0));
        lemma_binom_row_cap_mono(0, 0);
    }
    let mut level: usize = 0;
    while level < n
        invariant
            level <= n,
            n == 2 * radius,
            radius <= 16,
            row@.len() == level + 1,
            forall|k: int| 0 <= k <= level ==> row@[k] == binom(level as nat, k),
        decreases n - level,
    {
        let mut next: Vec<u64> = Vec::new();
        next.push(1);
        proof {
            assert(binom((level + 1) as nat, 0) == 1) by {
                lemma_binom_left_edge((level + 1) as nat);
            }
        }
        let mut k: usize = 1;
        while k <= level
            invariant
                1 <= k <= level + 1,
                level < n,
                n == 2 * radius,
                radius <= 16,
                row@.len() == level + 1,
                forall|j: int| 0 <= j <= level ==> row@[j] == binom(level as nat, j),
                next@.len() == k,
                next@[0] == binom((level + 1) as nat, 0),
                forall|j: int| 0 <= j < k ==> next@[j] == binom((level + 1) as nat, j),
            decreases level + 1 - k,
        {
            proof {
                lemma_binom_row_cap_mono(level as nat, 32);
                lemma_binom_row_cap_32();
                lemma_binom_bound(level as nat, k - 1, 0x1_0000_0000);
                lemma_binom_bound(level as nat, k as int, 0x1_0000_0000);
            }
            next.push(row[k - 1] + row[k]);
            k = k + 1;
        }
        proof {
            lemma_binom_row_cap_mono(level as nat, 32);
            lemma_binom_row_cap_32();
            lemma_binom_bound(level as nat, level as int, 0x1_0000_0000);
        }
        next.push(row[level]);
        proof {
            assert(binom((level + 1) as nat, level + 1) == binom(level as nat, level as int)) by {
                assert(binom(level as nat, level + 1) == 0);
            }
        }
        row = next;
        level = level + 1;
    }
    let mut weights: Vec<u16> = Vec::new();
    let mut j: usize = 0;
    while j < 2 * (radius as usize) + 1
        invariant
            j <= 2 * radius + 1,
            n == 2 * radius,
            radius <= 16,
            row@.len() == n + 1,
            forall|k: int| 0 <= k <= n ==> row@[k] == binom(n as nat, k),
            weights@.len() == j,
            forall|k: int|
                0 <= k < j ==> weights@[k] == (if binom((2 * radius) as nat, k) > 0xFFFF {
                    0xFFFFu16
                } else {
                    binom((2 * radius) as nat, k) as u16
                }),
        decreases 2 * radius + 1 - j,
    {
        let v = row[j];
        if v > 0xFFFF {
            weights.push(0xFFFF);
        } else {
            weights.push(v as u16);
        }
        j = j + 1;
    }
    proof {
        assert(weights@ =~= gaussian_weights(radius as int));
        lemma_binom_center_pos((2 * radius) as nat, radius as int);
    }
    weights
}

/// The left edge of every Pascal row is 1.
proof fn lemma_binom_left_edge(n: nat)
    ensures
        binom(n, 0) == 1,
    decreases n,
{
    if n > 0 {
        lemma_binom_left_edge((n - 1) as nat);
        assert(binom((n - 1) as nat, -1) == 0);
    }
}

/// Every in-range binomial coefficient is at least 1.
proof fn lemma_binom_center_pos(n: nat, k: int)
    requires
        0 <= k <= n,
    ensures
        binom(n, k) >= 1,
    decreases n,
{
    if n > 0 {
        if k == 0 {
            lemma_binom_left_edge(n);
        } else {
            lemma_binom_center_pos((n - 1) as nat, k - 1);
        }
    }
}

/// Every resolved color of an editable image is a 4-byte value.
proof fn lemma_resolved_len(s: Seq<u8>, x: int, y: int)
    requires
        editable(s),
        0 <= x < dib_width(s),
        0 <= y < abs_height(s),
    ensures
        resolved_px(s, x, y).len() == 4,
        forall|ch: int| 0 <= ch < 4 ==> 0 <= #[trigger] resolved_px(s, x, y)[ch] <= 255,
{
    lemma_editable_rows(s);
    lemma_group_in_bounds(s, x, y);
}

/// Computes the blurred color of one pixel from the snapshot plane.
#[verifier::rlimit(100)]
fn blur_window(
    colors: &Vec<Vec<[u8; 4]>>,
    weights: &Vec<u16>,
    radius: u8,
    x: u16,
    y: u16,
    width: u16,
    habs: u16,
    horizontal: bool,
    Ghost(s): Ghost<Seq<u8>>,
) -> (r: [u8; 4])
    requires
        1 <= radius <= 16,
        weights@.len() == 2 * radius + 1,
        weights@[radius as int] >= 1,
        width == dib_width(s),
        habs == abs_height(s),
        x < width,
        y < habs,
        colors@.len() == abs_height(s),
        forall|j: int| 0 <= j < habs ==> (#[trigger] colors@[j])@.len() == width,
        forall|j: int, i: int|
            0 <= j < habs && 0 <= i < width ==> (#[trigger] colors@[j]@[i])@ == resolved_px(
                s,
                i,
                j,
            ),
        forall|x2: int, y2: int|
            0 <= x2 < dib_width(s) && 0 <= y2 < abs_height(s) ==> (#[trigger] resolved_px(
                s,
                x2,
                y2,
            )).len() == 4,
    ensures
        r@ == blur_color(s, weights@, x as int, y as int, radius as int, horizontal),
{
    let mut acc0: u64 = 0;
    let mut acc1: u64 = 0;
    let mut acc2: u64 = 0;
    let mut acc3: u64 = 0;
    let mut den: u64 = 0;
    let rad = radius as i64;
    let mut d: i64 = -rad;
    proof {
        lemma_blur_bounds(s, weights@, x as int, y as int, radius as int, -radius - 1, 0, horizontal);
    }
    while d <= rad
        invariant
            1 <= radius <= 16,
            rad == radius,
            weights@.len() == 2 * radius + 1,
            weights@[radius as int] >= 1,
            width == dib_width(s),
            habs == abs_height(s),
            x < width,
            y < habs,
            -rad <= d <= rad + 1,
            colors@.len() == abs_height(s),
            forall|j: int| 0 <= j < habs ==> (#[trigger] colors@[j])@.len() == width,
            forall|j: int, i: int|
                0 <= j < habs && 0 <= i < width ==> (#[trigger] colors@[j]@[i])@ == resolved_px(
                    s,
                    i,
                    j,
                ),
            forall|x2: int, y2: int|
                0 <= x2 < dib_width(s) && 0 <= y2 < abs_height(s) ==> (#[trigger] resolved_px(
                    s,
                    x2,
                    y2,
                )).len() == 4,
            acc0 == blur_num(s, weights@, x as int, y as int, radius as int, d - 1, 0, horizontal),
            acc1 == blur_num(s, weights@, x as int, y as int, radius as int, d - 1, 1, horizontal),
            acc2 == blur_num(s, weights@, x as int, y as int, radius as int, d - 1, 2, horizontal),
            acc3 == blur_num(s, weights@, x as int, y as int, radius as int, d - 1, 3, horizontal),
            den == blur_den(s, weights@, x as int, y as int, radius as int, d - 1, horizontal),
            den <= (d + radius) * 0x10000,
        decreases rad + 1 - d,
    {
        proof {
            lemma_blur_bounds(s, weights@, x as int, y as int, radius as int, d - 1, 0, horizontal);
            lemma_blur_bounds(s, weights@, x as int, y as int, radius as int, d - 1, 1, horizontal);
            lemma_blur_bounds(s, weights@, x as int, y as int, radius as int, d - 1, 2, horizontal);
            lemma_blur_bounds(s, weights@, x as int, y as int, radius as int, d - 1, 3, horizontal);
        }
        let px: i64 = if horizontal {
            x as i64 + d
        } else {
            x as i64
        };
        let py: i64 = if horizontal {
            y as i64
        } else {
            y as i64 + d
        };
        if px >= 0 && px < width as i64 && py >= 0 && py < habs as i64 {
            let c = colors[py as usize][px as usize];
            proof {
                assert(c@ == resolved_px(s, px as int, py as int));
            }
            let w = weights[(rad + d) as usize] as u64;
            proof {
                assert(w * (c@[0] as int) <= 0x10000 * 256 && w * (c@[1] as int) <= 0x10000 * 256
                    && w * (c@[2] as int) <= 0x10000 * 256 && w * (c@[3] as int) <= 0x10000 * 256
                    && w * (c@[0] as int) >= 0 && w * (c@[1] as int) >= 0 && w * (c@[2] as int) >= 0
                    && w * (c@[3] as int) >= 0) by (nonlinear_arith)
                    requires
                        0 <= w <= 0xFFFF,
                        0 <= c@[0] <= 255,
                        0 <= c@[1] <= 255,
                        0 <= c@[2] <= 255,
                        0 <= c@[3] <= 255,
                ;
            }
            acc0 = acc0 + w * (c[0] as u64);
            acc1 = acc1 + w * (c[1] as u64);
            acc2 = acc2 + w * (c[2] as u64);
            acc3 = acc3 + w * (c[3] as u64);
            den = den + w;
        }
        proof {
            assert((d + radius) * 0x10000 + 0x10000 == (d + 1 + radius) * 0x10000)
                by (nonlinear_arith);
        }
        d = d + 1;
    }
    proof {
        lemma_blur_den_pos(s, weights@, x as int, y as int, radius as int, radius as int, horizontal);
        lemma_blur_bounds(s, weights@, x as int, y as int, radius as int, radius as int, 0, horizontal);
        lemma_blur_bounds(s, weights@, x as int, y as int, radius as int, radius as int, 1, horizontal);
        lemma_blur_bounds(s, weights@, x as int, y as int, radius as int, radius as int, 2, horizontal);
        lemma_blur_bounds(s, weights@, x as int, y as int, radius as int, radius as int, 3, horizontal);
        lemma_round_byte(acc0 as int, den as int);
        lemma_round_byte(acc1 as int, den as int);
        lemma_round_byte(acc2 as int, den as int);
        lemma_round_byte(acc3 as int, den as int);
    }
    let c0 = ((2 * acc0 + den) / (2 * den)) as u8;
    let c1 = ((2 * acc1 + den) / (2 * den)) as u8;
    let c2 = ((2 * acc2 + den) / (2 * den)) as u8;
    let c3 = ((2 * acc3 + den) / (2 * den)) as u8;
    proof {
        assert([c0, c1, c2, c3]@ =~= blur_color(
            s,
            weights@,
            x as int,
            y as int,
            radius as int,
            horizontal,
        ));
    }
    [c0, c1, c2, c3]
}

/// A rounded weighted average of bytes is a byte.
pub(crate) proof fn lemma_round_byte(num: int, den: int)
    requires
        den >= 1,
        0 <= num <= 255 * den,
    ensures
        0 <= round_div(num, den) <= 255,
        round_div(num, den) == (2 * num + den) / (2 * den),
{
    assert((2 * num + den) / (2 * den) <= 255) by (nonlinear_arith)
        requires
            den >= 1,
            num <= 255 * den,
    ;
    assert((2 * num + den) / (2 * den) >= 0) by (nonlinear_arith)
        requires
            den >= 1,
            num >= 0,
    ;
}

} // verus!
