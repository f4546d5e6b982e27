//! Structural comparison of two images, pixel by pixel, over the union of
//! their sizes.

use vstd::prelude::*;

use crate::bmp::BMP;
use crate::errors::ErrorKind;
use crate::header::{dib_parse_ok, dib_width};
use crate::image::{pixel_matches, resolved_px, spec_resolve};
use crate::plane::{abs_height, frame_ok};

verus! {

/// One differing pixel: its coordinate and the two colors, absent where
/// the coordinate lies outside that image.
pub struct PixelDiff {
    pub coord: [u16; 2],
    pub color1: Option<[u8; 4]>,
    pub color2: Option<[u8; 4]>,
}

/// The outcome of comparing two images: both sizes and every differing
/// coordinate with its two colors.
pub struct ImageDiff {
    pub image1_size: [u32; 2],
    pub image2_size: [u32; 2],
    pub diff: Vec<PixelDiff>,
}

impl ImageDiff {
    /// Whether the two compared images had the same width and height.
    pub fn is_same_size(&self) -> (r: bool)
        ensures
            r == (self.image1_size@ == self.image2_size@),
    {
        if self.image1_size[0] == self.image2_size[0] && self.image1_size[1]
            == self.image2_size[1] {
            proof {
                assert(self.image1_size@ =~= self.image2_size@);
            }
            true
        } else {
            proof {
                assert(self.image1_size@ != self.image2_size@) by {
                    if self.image1_size@ == self.image2_size@ {
                        assert(self.image1_size@[0] == self.image2_size@[0]);
                        assert(self.image1_size@[1] == self.image2_size@[1]);
                    }
                }
            }
            false
        }
    }
}

/// The color image `s` shows at `(x, y)`: `None` outside its bounds.
pub open spec fn diff_color(s: Seq<u8>, x: int, y: int) -> Option<Seq<u8>> {
    if 0 <= x < dib_width(s) && 0 <= y < abs_height(s) {
        Some(resolved_px(s, x, y))
    } else {
        None
    }
}

/// The view of an optional exec color.
pub open spec fn opt_color_view(c: Option<[u8; 4]>) -> Option<Seq<u8>> {
    match c {
        Some(v) => Some(v@),
        None => None,
    }
}

/// Whether the diff list holds an entry for `(x, y)`.
pub open spec fn has_diff_at(d: Seq<PixelDiff>, x: int, y: int) -> bool {
    exists|k: int| 0 <= k < d.len() && (#[trigger] d[k]).coord@[0] == x && d[k].coord@[1] == y
}

/// Whether every pixel both images can show resolves, so that a full
/// comparison is possible.
pub open spec fn comparable(s: Seq<u8>) -> bool {
    &&& frame_ok(s)
    &&& dib_width(s) <= 0xFFFF && abs_height(s) <= 0xFFFF
    &&& forall|x: int, y: int|
        0 <= x < dib_width(s) && 0 <= y < abs_height(s) ==> (#[trigger] spec_resolve(s, x, y)) is Ok
}

/// Whether the entries of a diff list sit in strict row-major order
/// (`y` outer, `x` inner) — which also rules out duplicate coordinates.
pub open spec fn diff_row_major(d: Seq<PixelDiff>) -> bool {
    forall|k1: int, k2: int|
        0 <= k1 < k2 < d.len() ==> ((#[trigger] d[k1]).coord@[1] < (#[trigger] d[k2]).coord@[1]
            || (d[k1].coord@[1] == d[k2].coord@[1] && d[k1].coord@[0] < d[k2].coord@[0]))
}

/// Whether the union-box scan fails to resolve at `(x, y)`: an image
/// that holds the coordinate cannot give its color there.
pub open spec fn resolve_fails_at(s1: Seq<u8>, s2: Seq<u8>, x: int, y: int) -> bool {
    ||| (x < dib_width(s1) && y < abs_height(s1) && spec_resolve(s1, x, y) is Err)
    ||| (x < dib_width(s2) && y < abs_height(s2) && spec_resolve(s2, x, y) is Err)
}

/// The error the scan propagates from `(x, y)`: the first image's, where
/// that one fails there, else the second's.
pub open spec fn first_fail_err(s1: Seq<u8>, s2: Seq<u8>, x: int, y: int) -> ErrorKind {
    if x < dib_width(s1) && y < abs_height(s1) && spec_resolve(s1, x, y) is Err {
        spec_resolve(s1, x, y)->Err_0
    } else {
        spec_resolve(s2, x, y)->Err_0
    }
}

impl BMP {
    /// Compares two images over the union of their extents: for each
    /// coordinate, each image contributes its resolved color (or nothing,
    /// outside its bounds), and every disagreeing coordinate is recorded in
    /// row-major order.  Succeeds whenever both images decode and resolve
    /// everywhere; identical images yield an empty list.
    pub fn diff(bmp1: &BMP, bmp2: &BMP) -> (r: Result<ImageDiff, ErrorKind>)
        ensures
            comparable(bmp1.contents@) && comparable(bmp2.contents@) ==> r is Ok,
            (match r {
                Ok(d) => {
                    let s1 = bmp1.contents@;
                    let s2 = bmp2.contents@;
                    &&& d.image1_size@ =~= seq![dib_width(s1), abs_height(s1) as u32]
                    &&& d.image2_size@ =~= seq![dib_width(s2), abs_height(s2) as u32]
                    &&& (forall|k: int|
                        0 <= k < d.diff@.len() ==> {
                            let e = #[trigger] d.diff@[k];
                            &&& opt_color_view(e.color1) == diff_color(
                                s1,
                                e.coord@[0] as int,
                                e.coord@[1] as int,
                            )
                            &&& opt_color_view(e.color2) == diff_color(
                                s2,
                                e.coord@[0] as int,
                                e.coord@[1] as int,
                            )
                            &&& opt_color_view(e.color1) != opt_color_view(e.color2)
                        })
                    &&& (forall|x: int, y: int|
                        0 <= x < coord_max_u(dib_width(s1) as int, dib_width(s2) as int) && 0 <= y
                            < coord_max_u(abs_height(s1), abs_height(s2)) ==> (#[trigger] has_diff_at(
                            d.diff@,
                            x,
                            y,
                        ) <==> diff_color(s1, x, y) != diff_color(s2, x, y)))
                    &&& diff_row_major(d.diff@)
                },
                Err(e) => {
                    let s1 = bmp1.contents@;
                    let s2 = bmp2.contents@;
                    if !(dib_parse_ok(s1) && dib_parse_ok(s2) && frame_ok(s1) && frame_ok(s2)
                        && dib_width(s1) <= 0xFFFF && abs_height(s1) <= 0xFFFF && dib_width(s2)
                        <= 0xFFFF && abs_height(s2) <= 0xFFFF) {
                        e == ErrorKind::Unsupported
                    } else {
                        exists|x: int, y: int|
                            {
                                &&& 0 <= x < coord_max_u(
                                    dib_width(s1) as int,
                                    dib_width(s2) as int,
                                )
                                &&& 0 <= y < coord_max_u(abs_height(s1), abs_height(s2))
                                &&& #[trigger] resolve_fails_at(s1, s2, x, y)
                                &&& e == first_fail_err(s1, s2, x, y)
                                &&& forall|x2: int, y2: int|
                                    0 <= x2 < coord_max_u(
                                        dib_width(s1) as int,
                                        dib_width(s2) as int,
                                    ) && 0 <= y2 < coord_max_u(abs_height(s1), abs_height(s2)) && (
                                    y2 < y || (y2 == y && x2 < x)) ==> !#[trigger] resolve_fails_at(
                                        s1,
                                        s2,
                                        x2,
                                        y2,
                                    )
                            }
                    }
                },
            }),
    {
        let dib_header1 = match bmp1.get_dib_header() {
            Ok(h) => h,
            Err(e) => {
                return Err(e);
            },
        };
        let dib_header2 = match bmp2.get_dib_header() {
            Ok(h) => h,
            Err(e) => {
                return Err(e);
            },
        };
        let ghost s1 = bmp1.contents@;
        let ghost s2 = bmp2.contents@;
        if !bmp1.is_framed(&dib_header1) || !bmp2.is_framed(&dib_header2) {
            return Err(ErrorKind::Unsupported);
        }
        let habs1: u64 = if dib_header1.height < 0 {
            (-(dib_header1.height as i64)) as u64
        } else {
            dib_header1.height as u64
        };
        let habs2: u64 = if dib_header2.height < 0 {
            (-(dib_header2.height as i64)) as u64
        } else {
            dib_header2.height as u64
        };
        if dib_header1.width > 0xFFFF || dib_header2.width > 0xFFFF || habs1 > 0xFFFF || habs2
            > 0xFFFF {
            return Err(ErrorKind::Unsupported);
        }
        let w1: u16 = dib_header1.width as u16;
        let w2: u16 = dib_header2.width as u16;
        let h1: u16 = habs1 as u16;
        let h2: u16 = habs2 as u16;
        let largest_width: u16 = if w1 > w2 {
            w1
        } else {
            w2
        };
        let largest_height: u16 = if h1 > h2 {
            h1
        } else {
            h2
        };
        let mut diff_pixels: Vec<PixelDiff> = Vec::new();
        let mut y: u16 = 0;
        while y < largest_height
            invariant
                s1 == bmp1.contents@,
                s2 == bmp2.contents@,
                dib_parse_ok(s1),
                dib_parse_ok(s2),
                frame_ok(s1),
                frame_ok(s2),
                dib_header1.wf(),
                dib_header2.wf(),
                pixel_matches(dib_header1, s1),
                pixel_matches(dib_header2, s2),
                w1 == dib_width(s1),
                w2 == dib_width(s2),
                h1 == abs_height(s1),
                h2 == abs_height(s2),
                largest_width == coord_max_u(w1 as int, w2 as int),
                largest_height == coord_max_u(h1 as int, h2 as int),
                y <= largest_height,
                forall|k: int|
                    0 <= k < diff_pixels@.len() ==> {
                        let e = #[trigger] diff_pixels@[k];
                        &&& opt_color_view(e.color1) == diff_color(
                            s1,
                            e.coord@[0] as int,
                            e.coord@[1] as int,
                        )
                        &&& opt_color_view(e.color2) == diff_color(
                            s2,
                            e.coord@[0] as int,
                            e.coord@[1] as int,
                        )
                        &&& opt_color_view(e.color1) != opt_color_view(e.color2)
                    },
                forall|x2: int, y2: int|
                    0 <= x2 < largest_width && 0 <= y2 < largest_height && y2 < y ==> (
                    #[trigger] has_diff_at(diff_pixels@, x2, y2) <==> diff_color(s1, x2, y2)
                        != diff_color(s2, x2, y2)),
                forall|x2: int, y2: int|
                    y2 >= y ==> !#[trigger] has_diff_at(diff_pixels@, x2, y2),
                forall|x2: int, y2: int|
                    0 <= x2 < largest_width && 0 <= y2 < largest_height && y2 < y
                        ==> !#[trigger] resolve_fails_at(s1, s2, x2, y2),
                diff_row_major(diff_pixels@),
            decreases largest_height - y,
        {
            let mut x: u16 = 0;
            while x < largest_width
                invariant
                    s1 == bmp1.contents@,
                    s2 == bmp2.contents@,
                    dib_parse_ok(s1),
                    dib_parse_ok(s2),
                    frame_ok(s1),
                    frame_ok(s2),
                    dib_header1.wf(),
                    dib_header2.wf(),
                    pixel_matches(dib_header1, s1),
                    pixel_matches(dib_header2, s2),
                    w1 == dib_width(s1),
                    w2 == dib_width(s2),
                    h1 == abs_height(s1),
                    h2 == abs_height(s2),
                    largest_width == coord_max_u(w1 as int, w2 as int),
                    largest_height == coord_max_u(h1 as int, h2 as int),
                    y < largest_height,
                    x <= largest_width,
                    forall|k: int|
                        0 <= k < diff_pixels@.len() ==> {
                            let e = #[trigger] diff_pixels@[k];
                            &&& opt_color_view(e.color1) == diff_color(
                                s1,
                                e.coord@[0] as int,
                                e.coord@[1] as int,
                            )
                            &&& opt_color_view(e.color2) == diff_color(
                                s2,
                                e.coord@[0] as int,
                                e.coord@[1] as int,
                            )
                            &&& opt_color_view(e.color1) != opt_color_view(e.color2)
                        },
                    forall|x2: int, y2: int|
                        0 <= x2 < largest_width && 0 <= y2 < largest_height && (y2 < y || (y2 == y
                            && x2 < x)) ==> (#[trigger] has_diff_at(diff_pixels@, x2, y2)
                            <==> diff_color(s1, x2, y2) != diff_color(s2, x2, y2)),
                    forall|x2: int, y2: int|
                        (y2 > y || (y2 == y && x2 >= x)) ==> !#[trigger] has_diff_at(
                            diff_pixels@,
                            x2,
                            y2,
                        ),
                    forall|x2: int, y2: int|
                        0 <= x2 < largest_width && 0 <= y2 < largest_height && (y2 < y || (y2 == y
                            && x2 < x)) ==> !#[trigger] resolve_fails_at(s1, s2, x2, y2),
                    diff_row_major(diff_pixels@),
                decreases largest_width - x,
            {
                let color1: Option<[u8; 4]> = if x < w1 && y < h1 {
                    match bmp1.resolve_pixel(x as usize, y as usize, &dib_header1) {
                        Ok(c) => Some(c),
                        Err(e) => {
                            proof {
                                assert(resolve_fails_at(s1, s2, x as int, y as int));
                                assert(first_fail_err(s1, s2, x as int, y as int) == e);
                            }
                            return Err(e);
                        },
                    }
                } else {
                    None
                };
                let color2: Option<[u8; 4]> = if x < w2 && y < h2 {
                    match bmp2.resolve_pixel(x as usize, y as usize, &dib_header2) {
                        Ok(c) => Some(c),
                        Err(e) => {
                            proof {
                                assert(resolve_fails_at(s1, s2, x as int, y as int));
                                assert(first_fail_err(s1, s2, x as int, y as int) == e);
                            }
                            return Err(e);
                        },
                    }
                } else {
                    None
                };
                proof {
                    assert(opt_color_view(color1) == diff_color(s1, x as int, y as int));
                    assert(opt_color_view(color2) == diff_color(s2, x as int, y as int));
                    assert(!resolve_fails_at(s1, s2, x as int, y as int));
                }
                let same: bool = opt_color_eq(&color1, &color2);
                let ghost before = diff_pixels@;
                if !same {
                    diff_pixels.push(PixelDiff { coord: [x, y], color1, color2 });
                }
                proof {
                    assert(diff_row_major(diff_pixels@)) by {
                        if !same {
                            assert forall|k1: int, k2: int|
                                0 <= k1 < k2 < diff_pixels@.len() implies ((
                            #[trigger] diff_pixels@[k1]).coord@[1] < (
                            #[trigger] diff_pixels@[k2]).coord@[1] || (diff_pixels@[k1].coord@[1]
                                == diff_pixels@[k2].coord@[1] && diff_pixels@[k1].coord@[0]
                                < diff_pixels@[k2].coord@[0])) by {
                                if k2 < before.len() {
                                    assert(diff_pixels@[k1] == before[k1] && diff_pixels@[k2]
                                        == before[k2]);
                                } else {
                                    // The new entry carries the current
                                    // coordinate; every earlier entry lies in
                                    // the already-walked region.
                                    assert(diff_pixels@[k2].coord@[0] == x
                                        && diff_pixels@[k2].coord@[1] == y);
                                    assert(diff_pixels@[k1] == before[k1]);
                                    let c = before[k1].coord;
                                    if c@[1] > y || (c@[1] == y && c@[0] >= x) {
                                        assert(has_diff_at(before, c@[0] as int, c@[1] as int));
                                        assert(false);
                                    }
                                }
                            }
                        }
                    }
                    assert forall|x2: int, y2: int|
                        0 <= x2 < largest_width && 0 <= y2 < largest_height && (y2 < y || (y2 == y
                            && x2 < x + 1)) implies (#[trigger] has_diff_at(diff_pixels@, x2, y2)
                        <==> diff_color(s1, x2, y2) != diff_color(s2, x2, y2)) by {
                        if (x2, y2) == (x as int, y as int) {
                            if !same {
                                assert((diff_pixels@[diff_pixels@.len() - 1]).coord@[0] == x
                                    && diff_pixels@[diff_pixels@.len() - 1].coord@[1] == y);
                                assert(has_diff_at(diff_pixels@, x2, y2));
                            } else {
                                if has_diff_at(diff_pixels@, x2, y2) {
                                    let k = choose|k: int|
                                        0 <= k < diff_pixels@.len() && (
                                        #[trigger] diff_pixels@[k]).coord@[0] == x2
                                            && diff_pixels@[k].coord@[1] == y2;
                                    assert(diff_pixels@[k] == before[k]);
                                    assert(!has_diff_at(before, x2, y2));
                                }
                            }
                        } else {
                            if has_diff_at(before, x2, y2) {
                                let k = choose|k: int|
                                    0 <= k < before.len() && (#[trigger] before[k]).coord@[0] == x2
                                        && before[k].coord@[1] == y2;
                                assert(diff_pixels@[k] == before[k]);
                                assert(has_diff_at(diff_pixels@, x2, y2));
                            }
                            if has_diff_at(diff_pixels@, x2, y2) {
                                let k = choose|k: int|
                                    0 <= k < diff_pixels@.len() && (
                                    #[trigger] diff_pixels@[k]).coord@[0] == x2
                                        && diff_pixels@[k].coord@[1] == y2;
                                assert(k < before.len());
                                assert(has_diff_at(before, x2, y2));
                            }
                        }
                    }
                    assert forall|x2: int, y2: int| (y2 > y || (y2 == y && x2 >= x + 1)) implies !
                    #[trigger] has_diff_at(diff_pixels@, x2, y2) by {
                        if has_diff_at(diff_pixels@, x2, y2) {
                            let k = choose|k: int|
                                0 <= k < diff_pixels@.len() && (
                                #[trigger] diff_pixels@[k]).coord@[0] == x2 && diff_pixels@[k].coord@[1]
                                    == y2;
                            if k < before.len() {
                                assert(has_diff_at(before, x2, y2));
                            } else {
                                assert(diff_pixels@[k].coord@[0] == x && diff_pixels@[k].coord@[1]
                                    == y);
                            }
                        }
                    }
                }
                x = x + 1;
            }
            y = y + 1;
        }
        Ok(
            ImageDiff {
                image1_size: [w1 as u32, h1 as u32],
                image2_size: [w2 as u32, h2 as u32],
                diff: diff_pixels,
            },
        )
    }
}

/// Comparing an image against itself yields no differences: every entry
/// of a well-formed diff of one buffer against itself would have to
/// disagree with itself.
pub proof fn lemma_diff_self_empty(s: Seq<u8>, d: Seq<PixelDiff>)
    requires
        forall|k: int|
            0 <= k < d.len() ==> {
                let e = #[trigger] d[k];
                &&& opt_color_view(e.color1) == diff_color(s, e.coord@[0] as int, e.coord@[1] as int)
                &&& opt_color_view(e.color2) == diff_color(s, e.coord@[0] as int, e.coord@[1] as int)
                &&& opt_color_view(e.color1) != opt_color_view(e.color2)
            },
    ensures
        d.len() == 0,
{
    if d.len() > 0 {
        let e = d[0];
        assert(opt_color_view(e.color1) == opt_color_view(e.color2));
    }
}

/// The larger of two extents.
pub open spec fn coord_max_u(a: int, b: int) -> int {
    if a < b {
        b
    } else {
        a
    }
}

/// Compares two optional colors by value.
fn opt_color_eq(a: &Option<[u8; 4]>, b: &Option<[u8; 4]>) -> (r: bool)
    ensures
        r == (opt_color_view(*a) == opt_color_view(*b)),
{
    match (a, b) {
        (None, None) => true,
        (Some(ca), Some(cb)) => {
            let same = ca[0] == cb[0] && ca[1] == cb[1] && ca[2] == cb[2] && ca[3] == cb[3];
            proof {
                if same {
                    assert(ca@ =~= cb@);
                } else {
                    assert(ca@ != cb@) by {
                        if ca@ == cb@ {
                            assert(ca@[0] == cb@[0] && ca@[1] == cb@[1] && ca@[2] == cb@[2] && ca@[3]
                                == cb@[3]);
                        }
                    }
                }
            }
            same
        },
        _ => false,
    }
}

} // verus!
