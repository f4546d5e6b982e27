//! Line and rectangle drawing.
//!
//! Lines are rasterized by a segmented-run walk: the longer axis is cut
//! into a run of constant-length middle segments with the remainder split
//! between the two ends, giving a staircase approximation.  Pure
//! horizontal and vertical lines fill the inclusive span exactly.

use vstd::prelude::*;

use crate::bmp::BMP;
use crate::errors::ErrorKind;
use crate::header::{dib_size, dib_width};
use crate::plane::{abs_height, editable, num_rows, pixel_group, same_geometry};
use crate::write::{contains_coord, spec_encoded_px};

verus! {

/// The smaller of two coordinates.
pub open spec fn coord_min(a: int, b: int) -> int {
    if a < b {
        a
    } else {
        b
    }
}

/// The larger of two coordinates.
pub open spec fn coord_max(a: int, b: int) -> int {
    if a < b {
        b
    } else {
        a
    }
}

/// Whether `(x, y)` lies on the inclusive edge of the rectangle spanned by
/// `p1` (top-left) and `p2` (bottom-right).
pub open spec fn on_rect_border(p1: [u16; 2], p2: [u16; 2], x: int, y: int) -> bool {
    &&& p1@[0] <= x <= p2@[0]
    &&& p1@[1] <= y <= p2@[1]
    &&& (x == p1@[0] || x == p2@[0] || y == p1@[1] || y == p2@[1])
}

/// Whether `(x, y)` lies strictly inside that rectangle.
pub open spec fn in_rect_interior(p1: [u16; 2], p2: [u16; 2], x: int, y: int) -> bool {
    &&& p1@[0] < x < p2@[0]
    &&& p1@[1] < y < p2@[1]
}

/// The inclusive vertical span of a line, in pixels.
pub open spec fn diag_vdiff(p1: [u16; 2], p2: [u16; 2]) -> int {
    coord_max(p1@[1] as int, p2@[1] as int) - coord_min(p1@[1] as int, p2@[1] as int) + 1
}

/// The inclusive horizontal span of a line, in pixels.
pub open spec fn diag_hdiff(p1: [u16; 2], p2: [u16; 2]) -> int {
    coord_max(p1@[0] as int, p2@[0] as int) - coord_min(p1@[0] as int, p2@[0] as int) + 1
}

/// The endpoint with the smaller x coordinate, as a coordinate pair.
pub open spec fn diag_lm(p1: [u16; 2], p2: [u16; 2]) -> (int, int) {
    if p1@[0] < p2@[0] {
        (p1@[0] as int, p1@[1] as int)
    } else {
        (p2@[0] as int, p2@[1] as int)
    }
}

/// The endpoint with the larger x coordinate.
pub open spec fn diag_rm(p1: [u16; 2], p2: [u16; 2]) -> (int, int) {
    if p1@[0] < p2@[0] {
        (p2@[0] as int, p2@[1] as int)
    } else {
        (p1@[0] as int, p1@[1] as int)
    }
}

/// Whether the left endpoint is also the higher one (smaller y).
pub open spec fn diag_left_is_high(p1: [u16; 2], p2: [u16; 2]) -> bool {
    diag_lm(p1, p2).1 < diag_rm(p1, p2).1
}

/// The constant middle-segment length of the diagonal walk: the longer
/// inclusive span divided by the shorter.
pub open spec fn diag_mid(p1: [u16; 2], p2: [u16; 2]) -> int {
    if diag_hdiff(p1, p2) >= diag_vdiff(p1, p2) {
        diag_hdiff(p1, p2) / diag_vdiff(p1, p2)
    } else {
        diag_vdiff(p1, p2) / diag_hdiff(p1, p2)
    }
}

/// The length of each end run: half the pixels left over once the
/// middle segments are laid out.  The leftover equals `2·mid` plus the
/// division remainder, so it is never less than two: a combined end
/// length of one cannot arise.
pub open spec fn diag_end_len(p1: [u16; 2], p2: [u16; 2]) -> int {
    if diag_hdiff(p1, p2) >= diag_vdiff(p1, p2) {
        (diag_hdiff(p1, p2) - diag_mid(p1, p2) * (diag_vdiff(p1, p2) - 2)) / 2
    } else {
        (diag_vdiff(p1, p2) - diag_mid(p1, p2) * (diag_hdiff(p1, p2) - 2)) / 2
    }
}

/// The number of pixels the diagonal walk emits.
pub open spec fn diag_len(p1: [u16; 2], p2: [u16; 2]) -> int {
    if diag_hdiff(p1, p2) >= diag_vdiff(p1, p2) {
        2 * diag_end_len(p1, p2) + diag_mid(p1, p2) * (diag_vdiff(p1, p2) - 2)
    } else {
        2 * diag_end_len(p1, p2) + diag_mid(p1, p2) * (diag_hdiff(p1, p2) - 2)
    }
}

/// The `k`-th pixel of the diagonal walk.  The first end run walks
/// right (or down) from the left (or top) end; each of the inner rows
/// (or columns) of the shorter span lays `mid` pixels; the last end run
/// walks back from the far end.
pub open spec fn diag_point(p1: [u16; 2], p2: [u16; 2], k: int) -> (int, int) {
    let lm = diag_lm(p1, p2);
    let rm = diag_rm(p1, p2);
    let m = diag_mid(p1, p2);
    let e = diag_end_len(p1, p2);
    if diag_hdiff(p1, p2) >= diag_vdiff(p1, p2) {
        if k < e {
            (lm.0 + k, lm.1)
        } else if k < diag_len(p1, p2) - e {
            let j = (k - e) / m;
            let ji = (k - e) % m;
            if diag_left_is_high(p1, p2) {
                (lm.0 + ji + j * m + e, lm.1 + j + 1)
            } else {
                (lm.0 + ji + j * m, rm.1 - j)
            }
        } else {
            (rm.0 - (k - (diag_len(p1, p2) - e)), rm.1)
        }
    } else {
        if k < e {
            (lm.0, lm.1 + k)
        } else if k < diag_len(p1, p2) - e {
            let j = (k - e) / m;
            let ji = (k - e) % m;
            if diag_left_is_high(p1, p2) {
                (lm.0 + j + 1, lm.1 + ji + j * m + e)
            } else {
                (lm.0 - j, rm.1 + ji + j * m)
            }
        } else {
            let lo = if diag_left_is_high(p1, p2) {
                rm
            } else {
                lm
            };
            (lo.0, lo.1 - (k - (diag_len(p1, p2) - e)))
        }
    }
}

/// Whether `(x, y)` is one of the pixels of the diagonal walk from `p1`
/// to `p2`.
pub open spec fn on_diag_walk(p1: [u16; 2], p2: [u16; 2], x: int, y: int) -> bool {
    exists|k: int| 0 <= k < diag_len(p1, p2) && #[trigger] diag_point(p1, p2, k) == (x, y)
}

impl BMP {
    /// The ordered pixel list of the line from `p1` to `p2`.  A vertical or
    /// horizontal line is the inclusive span, low coordinate first.  A
    /// diagonal line follows the segmented-run walk; a walk that leaves the
    /// 16-bit coordinate range (necessarily outside any image) fails
    /// `DoesNotExist`.
    pub fn rasterize_line(p1: [u16; 2], p2: [u16; 2]) -> (r: Result<Vec<[u16; 2]>, ErrorKind>)
        ensures
            p1@[0] == p2@[0] ==> r is Ok && {
                let v = r->Ok_0;
                let ylo = coord_min(p1@[1] as int, p2@[1] as int);
                &&& v@.len() == coord_max(p1@[1] as int, p2@[1] as int) - ylo + 1
                &&& forall|i: int|
                    0 <= i < v@.len() ==> (#[trigger] v@[i])@ =~= seq![p1@[0], (ylo + i) as u16]
            },
            p1@[0] != p2@[0] && p1@[1] == p2@[1] ==> r is Ok && {
                let v = r->Ok_0;
                let xlo = coord_min(p1@[0] as int, p2@[0] as int);
                &&& v@.len() == coord_max(p1@[0] as int, p2@[0] as int) - xlo + 1
                &&& forall|i: int|
                    0 <= i < v@.len() ==> (#[trigger] v@[i])@ =~= seq![(xlo + i) as u16, p1@[1]]
            },
            p1@[0] != p2@[0] && p1@[1] != p2@[1] ==> {
                &&& (r is Ok ==> {
                    let v = r->Ok_0;
                    &&& v@.len() == diag_len(p1, p2)
                    &&& forall|k: int|
                        0 <= k < v@.len() ==> ((#[trigger] v@[k])@[0] as int, v@[k]@[1] as int)
                            == diag_point(p1, p2, k)
                })
                &&& ((forall|k: int|
                    0 <= k < diag_len(p1, p2) ==> 0 <= (#[trigger] diag_point(p1, p2, k)).0
                        <= 0xFFFF && 0 <= diag_point(p1, p2, k).1 <= 0xFFFF) ==> r is Ok)
            },
            (match r {
                Ok(_) => true,
                Err(e) => e == ErrorKind::DoesNotExist,
            }),
    {
        let mut points: Vec<[u16; 2]> = Vec::new();
        if p1[0] == p2[0] {
            let x = p1[0];
            let ylo: u16 = if p1[1] < p2[1] {
                p1[1]
            } else {
                p2[1]
            };
            let yhi: u16 = if p1[1] < p2[1] {
                p2[1]
            } else {
                p1[1]
            };
            let n: u32 = yhi as u32 - ylo as u32 + 1;
            let mut i: u32 = 0;
            while i < n
                invariant
                    n == yhi - ylo + 1,
                    ylo + n - 1 <= u16::MAX,
                    i <= n,
                    points@.len() == i,
                    forall|j: int|
                        0 <= j < i ==> (#[trigger] points@[j])@ =~= seq![x, (ylo + j) as u16],
                decreases n - i,
            {
                points.push([x, ylo + (i as u16)]);
                i = i + 1;
            }
            Ok(points)
        } else if p1[1] == p2[1] {
            let y = p1[1];
            let xlo: u16 = if p1[0] < p2[0] {
                p1[0]
            } else {
                p2[0]
            };
            let xhi: u16 = if p1[0] < p2[0] {
                p2[0]
            } else {
                p1[0]
            };
            let n: u32 = xhi as u32 - xlo as u32 + 1;
            let mut i: u32 = 0;
            while i < n
                invariant
                    n == xhi - xlo + 1,
                    xlo + n - 1 <= u16::MAX,
                    i <= n,
                    points@.len() == i,
                    forall|j: int|
                        0 <= j < i ==> (#[trigger] points@[j])@ =~= seq![(xlo + j) as u16, y],
                decreases n - i,
            {
                points.push([xlo + (i as u16), y]);
                i = i + 1;
            }
            Ok(points)
        } else {
            // Diagonal: both spans are at least 2 pixels (inclusive).
            let vdiff: u64 = if p1[1] < p2[1] {
                p2[1] as u64 - p1[1] as u64 + 1
            } else {
                p1[1] as u64 - p2[1] as u64 + 1
            };
            let hdiff: u64 = if p1[0] < p2[0] {
                p2[0] as u64 - p1[0] as u64 + 1
            } else {
                p1[0] as u64 - p2[0] as u64 + 1
            };
            let (leftmost, rightmost) = if p1[0] < p2[0] {
                (p1, p2)
            } else {
                (p2, p1)
            };
            let (highest, lowest) = if p1[1] < p2[1] {
                (p1, p2)
            } else {
                (p2, p1)
            };
            let left_is_high: bool = highest[0] == leftmost[0] && highest[1] == leftmost[1];
            let ghost allfit = forall|k: int|
                0 <= k < diag_len(p1, p2) ==> 0 <= (#[trigger] diag_point(p1, p2, k)).0 <= 0xFFFF
                    && 0 <= diag_point(p1, p2, k).1 <= 0xFFFF;
            proof {
                assert(vdiff as int == diag_vdiff(p1, p2));
                assert(hdiff as int == diag_hdiff(p1, p2));
                assert((leftmost@[0] as int, leftmost@[1] as int) == diag_lm(p1, p2));
                assert((rightmost@[0] as int, rightmost@[1] as int) == diag_rm(p1, p2));
                assert(left_is_high == diag_left_is_high(p1, p2));
                assert((lowest@[0] as int, lowest@[1] as int) == (if diag_left_is_high(p1, p2) {
                    diag_rm(p1, p2)
                } else {
                    diag_lm(p1, p2)
                }));
            }
            if hdiff >= vdiff {
                let mid: u64 = hdiff / vdiff;
                proof {
                    assert(mid * vdiff <= hdiff && mid >= 1) by (nonlinear_arith)
                        requires
                            vdiff >= 2,
                            hdiff >= vdiff,
                            mid == hdiff / vdiff,
                    ;
                    assert(mid * (vdiff - 2) <= mid * vdiff) by (nonlinear_arith)
                        requires
                            mid >= 0,
                            vdiff >= 2,
                    ;
                }
                let ends: u64 = hdiff - mid * (vdiff - 2);
                let end_len: u64 = ends / 2;
                proof {
                    assert(mid as int == diag_mid(p1, p2));
                    vstd::arithmetic::div_mod::lemma_fundamental_div_mod(
                        hdiff as int,
                        vdiff as int,
                    );
                    assert((mid as int) * (vdiff as int - 2) == (mid as int) * (vdiff as int) - 2
                        * (mid as int)) by (nonlinear_arith)
                        requires
                            vdiff >= 2,
                    ;
                    assert(hdiff as int % vdiff as int >= 0) by (nonlinear_arith)
                        requires
                            vdiff >= 2,
                            hdiff >= 0,
                    ;
                    assert(mid as int == hdiff as int / vdiff as int);
                    assert(hdiff as int == (vdiff as int) * (mid as int) + hdiff as int
                        % vdiff as int);
                    assert((mid as int) * (vdiff as int) == (vdiff as int) * (mid as int))
                        by (nonlinear_arith);
                    // The leftover is 2·mid plus the remainder: never a lone pixel.
                    assert(ends as int == hdiff as int % vdiff as int + 2 * (mid as int));
                    assert(ends >= 2);
                    assert(end_len as int == diag_end_len(p1, p2));
                    assert((mid as int) * (vdiff as int - 2) >= 0) by (nonlinear_arith)
                        requires
                            mid >= 0,
                            vdiff >= 2,
                    ;
                    assert(diag_len(p1, p2) == 2 * (end_len as int) + (mid as int) * (vdiff as int
                        - 2));
                }
                let mut i: u64 = 0;
                while i < end_len
                    invariant
                        p1@[0] != p2@[0] && p1@[1] != p2@[1],
                        vdiff >= 2,
                        hdiff >= 2,
                        mid >= 1,
                        mid <= 0x1_0000,
                        vdiff <= 0x1_0000,
                        hdiff <= 0x1_0000,
                        end_len <= 0x2_0000,
                        vdiff as int == diag_vdiff(p1, p2),
                        hdiff as int == diag_hdiff(p1, p2),
                        mid as int == diag_mid(p1, p2),
                        end_len as int == diag_end_len(p1, p2),
                        (leftmost@[0] as int, leftmost@[1] as int) == diag_lm(p1, p2),
                        (rightmost@[0] as int, rightmost@[1] as int) == diag_rm(p1, p2),
                        left_is_high == diag_left_is_high(p1, p2),
                        allfit == (forall|k: int|
                            0 <= k < diag_len(p1, p2) ==> 0 <= (#[trigger] diag_point(
                                p1,
                                p2,
                                k,
                            )).0 <= 0xFFFF && 0 <= diag_point(p1, p2, k).1 <= 0xFFFF),
                        hdiff >= vdiff,
                        diag_len(p1, p2) == 2 * (end_len as int) + (mid as int) * (vdiff as int
                            - 2),
                        (mid as int) * (vdiff as int - 2) >= 0,
                        i <= end_len,
                        points@.len() == i,
                        forall|k: int|
                            0 <= k < points@.len() ==> ((#[trigger] points@[k])@[0] as int,
                            points@[k]@[1] as int) == diag_point(p1, p2, k),
                    decreases end_len - i,
                {
                    proof {
                        assert(diag_point(p1, p2, i as int) == (
                            diag_lm(p1, p2).0 + i,
                            diag_lm(p1, p2).1,
                        ));
                    }
                    if !push_checked(&mut points, leftmost[0] as u64 + i, leftmost[1] as u64) {
                        proof {
                            if allfit {
                                assert(0 <= (i as int) && (i as int) < diag_len(p1, p2));
                                assert(false);
                            }
                        }
                        return Err(ErrorKind::DoesNotExist);
                    }
                    i = i + 1;
                }
                let mut j: u64 = 0;
                while j < vdiff - 2
                    invariant
                        p1@[0] != p2@[0] && p1@[1] != p2@[1],
                        vdiff >= 2,
                        hdiff >= 2,
                        mid >= 1,
                        mid <= 0x1_0000,
                        vdiff <= 0x1_0000,
                        hdiff <= 0x1_0000,
                        end_len <= 0x2_0000,
                        vdiff as int == diag_vdiff(p1, p2),
                        hdiff as int == diag_hdiff(p1, p2),
                        mid as int == diag_mid(p1, p2),
                        end_len as int == diag_end_len(p1, p2),
                        (leftmost@[0] as int, leftmost@[1] as int) == diag_lm(p1, p2),
                        (rightmost@[0] as int, rightmost@[1] as int) == diag_rm(p1, p2),
                        left_is_high == diag_left_is_high(p1, p2),
                        allfit == (forall|k: int|
                            0 <= k < diag_len(p1, p2) ==> 0 <= (#[trigger] diag_point(
                                p1,
                                p2,
                                k,
                            )).0 <= 0xFFFF && 0 <= diag_point(p1, p2, k).1 <= 0xFFFF),
                        hdiff >= vdiff,
                        diag_len(p1, p2) == 2 * (end_len as int) + (mid as int) * (vdiff as int
                            - 2),
                        (mid as int) * (vdiff as int - 2) >= 0,
                        j <= vdiff - 2,
                        points@.len() == end_len + j * mid,
                        forall|k: int|
                            0 <= k < points@.len() ==> ((#[trigger] points@[k])@[0] as int,
                            points@[k]@[1] as int) == diag_point(p1, p2, k),
                    decreases vdiff - 2 - j,
                {
                    let mut ji: u64 = 0;
                    while ji < mid
                        invariant
                        p1@[0] != p2@[0] && p1@[1] != p2@[1],
                        vdiff >= 2,
                        hdiff >= 2,
                        mid >= 1,
                        mid <= 0x1_0000,
                        vdiff <= 0x1_0000,
                        hdiff <= 0x1_0000,
                        end_len <= 0x2_0000,
                        vdiff as int == diag_vdiff(p1, p2),
                        hdiff as int == diag_hdiff(p1, p2),
                        mid as int == diag_mid(p1, p2),
                        end_len as int == diag_end_len(p1, p2),
                        (leftmost@[0] as int, leftmost@[1] as int) == diag_lm(p1, p2),
                        (rightmost@[0] as int, rightmost@[1] as int) == diag_rm(p1, p2),
                        left_is_high == diag_left_is_high(p1, p2),
                        allfit == (forall|k: int|
                            0 <= k < diag_len(p1, p2) ==> 0 <= (#[trigger] diag_point(
                                p1,
                                p2,
                                k,
                            )).0 <= 0xFFFF && 0 <= diag_point(p1, p2, k).1 <= 0xFFFF),
                        hdiff >= vdiff,
                        diag_len(p1, p2) == 2 * (end_len as int) + (mid as int) * (vdiff as int
                            - 2),
                        (mid as int) * (vdiff as int - 2) >= 0,
                        j < vdiff - 2,
                        ji <= mid,
                        points@.len() == end_len + j * mid + ji,
                        forall|k: int|
                            0 <= k < points@.len() ==> ((#[trigger] points@[k])@[0] as int,
                            points@[k]@[1] as int) == diag_point(p1, p2, k),
                        decreases mid - ji,
                    {
                        proof {
                            assert(j * mid <= 0x1_0000u64 * 0x1_0000u64) by (nonlinear_arith)
                                requires
                                    j <= 0x1_0000u64,
                                    mid <= 0x1_0000u64,
                            ;
                        }
                        let ghost kcur = end_len as int + (j as int) * (mid as int) + ji as int;
                        proof {
                            vstd::arithmetic::div_mod::lemma_fundamental_div_mod_converse(
                                (j as int) * (mid as int) + (ji as int),
                                mid as int,
                                j as int,
                                ji as int,
                            );
                            assert((j as int) * (mid as int) + (ji as int) < (mid as int) * (
                            vdiff as int - 2)) by (nonlinear_arith)
                                requires
                                    j < vdiff as int - 2,
                                    ji < mid,
                                    mid >= 1,
                                    vdiff >= 2,
                            ;
                            assert((j as int) * (mid as int) >= 0) by (nonlinear_arith)
                                requires
                                    j >= 0,
                                    mid >= 0,
                            ;
                            assert(0 <= kcur < diag_len(p1, p2));
                            if left_is_high {
                                assert(diag_point(p1, p2, kcur) == (
                                    diag_lm(p1, p2).0 + ji + (j as int) * (mid as int)
                                        + end_len as int,
                                    diag_lm(p1, p2).1 + j + 1,
                                ));
                            } else {
                                assert(diag_point(p1, p2, kcur) == (
                                    diag_lm(p1, p2).0 + ji + (j as int) * (mid as int),
                                    diag_rm(p1, p2).1 - j,
                                ));
                            }
                        }
                        let ok = if left_is_high {
                            push_checked(
                                &mut points,
                                leftmost[0] as u64 + ji + j * mid + end_len,
                                leftmost[1] as u64 + j + 1,
                            )
                        } else {
                            let ry = rightmost[1] as u64;
                            if j > ry {
                                proof {
                                    if allfit {
                                        assert(false);
                                    }
                                }
                                return Err(ErrorKind::DoesNotExist);
                            }
                            push_checked(
                                &mut points,
                                leftmost[0] as u64 + ji + j * mid,
                                ry - j,
                            )
                        };
                        if !ok {
                            proof {
                                if allfit {
                                    assert(false);
                                }
                            }
                            return Err(ErrorKind::DoesNotExist);
                        }
                        ji = ji + 1;
                    }
                    proof {
                        assert((j as int + 1) * (mid as int) == (j as int) * (mid as int)
                            + mid as int) by (nonlinear_arith);
                    }
                    j = j + 1;
                }
                let mut kk: u64 = 0;
                while kk < end_len
                    invariant
                        p1@[0] != p2@[0] && p1@[1] != p2@[1],
                        vdiff >= 2,
                        hdiff >= 2,
                        mid >= 1,
                        mid <= 0x1_0000,
                        vdiff <= 0x1_0000,
                        hdiff <= 0x1_0000,
                        end_len <= 0x2_0000,
                        vdiff as int == diag_vdiff(p1, p2),
                        hdiff as int == diag_hdiff(p1, p2),
                        mid as int == diag_mid(p1, p2),
                        end_len as int == diag_end_len(p1, p2),
                        (leftmost@[0] as int, leftmost@[1] as int) == diag_lm(p1, p2),
                        (rightmost@[0] as int, rightmost@[1] as int) == diag_rm(p1, p2),
                        left_is_high == diag_left_is_high(p1, p2),
                        allfit == (forall|k: int|
                            0 <= k < diag_len(p1, p2) ==> 0 <= (#[trigger] diag_point(
                                p1,
                                p2,
                                k,
                            )).0 <= 0xFFFF && 0 <= diag_point(p1, p2, k).1 <= 0xFFFF),
                        hdiff >= vdiff,
                        diag_len(p1, p2) == 2 * (end_len as int) + (mid as int) * (vdiff as int
                            - 2),
                        (mid as int) * (vdiff as int - 2) >= 0,
                        kk <= end_len,
                        points@.len() == end_len + (vdiff - 2) * mid + kk,
                        forall|k: int|
                            0 <= k < points@.len() ==> ((#[trigger] points@[k])@[0] as int,
                            points@[k]@[1] as int) == diag_point(p1, p2, k),
                    decreases end_len - kk,
                {
                    let ghost kcur = diag_len(p1, p2) - end_len as int + kk as int;
                    proof {
                        assert(points@.len() == kcur);
                        assert(diag_point(p1, p2, kcur) == (
                            diag_rm(p1, p2).0 - kk,
                            diag_rm(p1, p2).1,
                        ));
                        assert(0 <= kcur < diag_len(p1, p2));
                    }
                    let xr = rightmost[0] as u64;
                    if kk > xr {
                        proof {
                            if allfit {
                                assert(false);
                            }
                        }
                        return Err(ErrorKind::DoesNotExist);
                    }
                    if !push_checked(&mut points, xr - kk, rightmost[1] as u64) {
                        proof {
                            if allfit {
                                assert(false);
                            }
                        }
                        return Err(ErrorKind::DoesNotExist);
                    }
                    kk = kk + 1;
                }
                proof {
                    assert((vdiff as int - 2) * (mid as int) == (mid as int) * (vdiff as int - 2))
                        by (nonlinear_arith);
                    assert((hdiff as int - 2) * (mid as int) == (mid as int) * (hdiff as int - 2))
                        by (nonlinear_arith);
                }
                Ok(points)
            } else {
                let mid: u64 = vdiff / hdiff;
                proof {
                    assert(mid * hdiff <= vdiff && mid >= 1) by (nonlinear_arith)
                        requires
                            hdiff >= 2,
                            vdiff >= hdiff,
                            mid == vdiff / hdiff,
                    ;
                    assert(mid * (hdiff - 2) <= mid * hdiff) by (nonlinear_arith)
                        requires
                            mid >= 0,
                            hdiff >= 2,
                    ;
                }
                let ends: u64 = vdiff - mid * (hdiff - 2);
                let end_len: u64 = ends / 2;
                proof {
                    assert(mid as int == diag_mid(p1, p2));
                    vstd::arithmetic::div_mod::lemma_fundamental_div_mod(
                        vdiff as int,
                        hdiff as int,
                    );
                    assert((mid as int) * (hdiff as int - 2) == (mid as int) * (hdiff as int) - 2
                        * (mid as int)) by (nonlinear_arith)
                        requires
                            hdiff >= 2,
                    ;
                    assert(vdiff as int % hdiff as int >= 0) by (nonlinear_arith)
                        requires
                            hdiff >= 2,
                            vdiff >= 0,
                    ;
                    assert(mid as int == vdiff as int / hdiff as int);
                    assert(vdiff as int == (hdiff as int) * (mid as int) + vdiff as int
                        % hdiff as int);
                    assert((mid as int) * (hdiff as int) == (hdiff as int) * (mid as int))
                        by (nonlinear_arith);
                    // The leftover is 2·mid plus the remainder: never a lone pixel.
                    assert(ends as int == vdiff as int % hdiff as int + 2 * (mid as int));
                    assert(ends >= 2);
                    assert(end_len as int == diag_end_len(p1, p2));
                    assert((mid as int) * (hdiff as int - 2) >= 0) by (nonlinear_arith)
                        requires
                            mid >= 0,
                            hdiff >= 2,
                    ;
                    assert(diag_len(p1, p2) == 2 * (end_len as int) + (mid as int) * (hdiff as int
                        - 2));
                }
                let mut i: u64 = 0;
                while i < end_len
                    invariant
                        p1@[0] != p2@[0] && p1@[1] != p2@[1],
                        vdiff >= 2,
                        hdiff >= 2,
                        mid >= 1,
                        mid <= 0x1_0000,
                        vdiff <= 0x1_0000,
                        hdiff <= 0x1_0000,
                        end_len <= 0x2_0000,
                        vdiff as int == diag_vdiff(p1, p2),
                        hdiff as int == diag_hdiff(p1, p2),
                        mid as int == diag_mid(p1, p2),
                        end_len as int == diag_end_len(p1, p2),
                        (leftmost@[0] as int, leftmost@[1] as int) == diag_lm(p1, p2),
                        (rightmost@[0] as int, rightmost@[1] as int) == diag_rm(p1, p2),
                        left_is_high == diag_left_is_high(p1, p2),
                        allfit == (forall|k: int|
                            0 <= k < diag_len(p1, p2) ==> 0 <= (#[trigger] diag_point(
                                p1,
                                p2,
                                k,
                            )).0 <= 0xFFFF && 0 <= diag_point(p1, p2, k).1 <= 0xFFFF),
                        vdiff > hdiff,
                        (lowest@[0] as int, lowest@[1] as int) == (if diag_left_is_high(p1, p2) {
                            diag_rm(p1, p2)
                        } else {
                            diag_lm(p1, p2)
                        }),
                        diag_len(p1, p2) == 2 * (end_len as int) + (mid as int) * (hdiff as int
                            - 2),
                        (mid as int) * (hdiff as int - 2) >= 0,
                        i <= end_len,
                        points@.len() == i,
                        forall|k: int|
                            0 <= k < points@.len() ==> ((#[trigger] points@[k])@[0] as int,
                            points@[k]@[1] as int) == diag_point(p1, p2, k),
                    decreases end_len - i,
                {
                    proof {
                        assert(diag_point(p1, p2, i as int) == (
                            diag_lm(p1, p2).0,
                            diag_lm(p1, p2).1 + i,
                        ));
                    }
                    if !push_checked(&mut points, leftmost[0] as u64, leftmost[1] as u64 + i) {
                        proof {
                            if allfit {
                                assert(0 <= (i as int) && (i as int) < diag_len(p1, p2));
                                assert(false);
                            }
                        }
                        return Err(ErrorKind::DoesNotExist);
                    }
                    i = i + 1;
                }
                let mut j: u64 = 0;
                while j < hdiff - 2
                    invariant
                        p1@[0] != p2@[0] && p1@[1] != p2@[1],
                        vdiff >= 2,
                        hdiff >= 2,
                        mid >= 1,
                        mid <= 0x1_0000,
                        vdiff <= 0x1_0000,
                        hdiff <= 0x1_0000,
                        end_len <= 0x2_0000,
                        vdiff as int == diag_vdiff(p1, p2),
                        hdiff as int == diag_hdiff(p1, p2),
                        mid as int == diag_mid(p1, p2),
                        end_len as int == diag_end_len(p1, p2),
                        (leftmost@[0] as int, leftmost@[1] as int) == diag_lm(p1, p2),
                        (rightmost@[0] as int, rightmost@[1] as int) == diag_rm(p1, p2),
                        left_is_high == diag_left_is_high(p1, p2),
                        allfit == (forall|k: int|
                            0 <= k < diag_len(p1, p2) ==> 0 <= (#[trigger] diag_point(
                                p1,
                                p2,
                                k,
                            )).0 <= 0xFFFF && 0 <= diag_point(p1, p2, k).1 <= 0xFFFF),
                        vdiff > hdiff,
                        (lowest@[0] as int, lowest@[1] as int) == (if diag_left_is_high(p1, p2) {
                            diag_rm(p1, p2)
                        } else {
                            diag_lm(p1, p2)
                        }),
                        diag_len(p1, p2) == 2 * (end_len as int) + (mid as int) * (hdiff as int
                            - 2),
                        (mid as int) * (hdiff as int - 2) >= 0,
                        j <= hdiff - 2,
                        points@.len() == end_len + j * mid,
                        forall|k: int|
                            0 <= k < points@.len() ==> ((#[trigger] points@[k])@[0] as int,
                            points@[k]@[1] as int) == diag_point(p1, p2, k),
                    decreases hdiff - 2 - j,
                {
                    let mut ji: u64 = 0;
                    while ji < mid
                        invariant
                        p1@[0] != p2@[0] && p1@[1] != p2@[1],
                        vdiff >= 2,
                        hdiff >= 2,
                        mid >= 1,
                        mid <= 0x1_0000,
                        vdiff <= 0x1_0000,
                        hdiff <= 0x1_0000,
                        end_len <= 0x2_0000,
                        vdiff as int == diag_vdiff(p1, p2),
                        hdiff as int == diag_hdiff(p1, p2),
                        mid as int == diag_mid(p1, p2),
                        end_len as int == diag_end_len(p1, p2),
                        (leftmost@[0] as int, leftmost@[1] as int) == diag_lm(p1, p2),
                        (rightmost@[0] as int, rightmost@[1] as int) == diag_rm(p1, p2),
                        left_is_high == diag_left_is_high(p1, p2),
                        allfit == (forall|k: int|
                            0 <= k < diag_len(p1, p2) ==> 0 <= (#[trigger] diag_point(
                                p1,
                                p2,
                                k,
                            )).0 <= 0xFFFF && 0 <= diag_point(p1, p2, k).1 <= 0xFFFF),
                        vdiff > hdiff,
                        (lowest@[0] as int, lowest@[1] as int) == (if diag_left_is_high(p1, p2) {
                            diag_rm(p1, p2)
                        } else {
                            diag_lm(p1, p2)
                        }),
                        diag_len(p1, p2) == 2 * (end_len as int) + (mid as int) * (hdiff as int
                            - 2),
                        (mid as int) * (hdiff as int - 2) >= 0,
                        j < hdiff - 2,
                        ji <= mid,
                        points@.len() == end_len + j * mid + ji,
                        forall|k: int|
                            0 <= k < points@.len() ==> ((#[trigger] points@[k])@[0] as int,
                            points@[k]@[1] as int) == diag_point(p1, p2, k),
                        decreases mid - ji,
                    {
                        proof {
                            assert(j * mid <= 0x1_0000u64 * 0x1_0000u64) by (nonlinear_arith)
                                requires
                                    j <= 0x1_0000u64,
                                    mid <= 0x1_0000u64,
                            ;
                        }
                        let ghost kcur = end_len as int + (j as int) * (mid as int) + ji as int;
                        proof {
                            vstd::arithmetic::div_mod::lemma_fundamental_div_mod_converse(
                                (j as int) * (mid as int) + (ji as int),
                                mid as int,
                                j as int,
                                ji as int,
                            );
                            assert((j as int) * (mid as int) + (ji as int) < (mid as int) * (
                            hdiff as int - 2)) by (nonlinear_arith)
                                requires
                                    j < hdiff as int - 2,
                                    ji < mid,
                                    mid >= 1,
                                    hdiff >= 2,
                            ;
                            assert((j as int) * (mid as int) >= 0) by (nonlinear_arith)
                                requires
                                    j >= 0,
                                    mid >= 0,
                            ;
                            assert(0 <= kcur < diag_len(p1, p2));
                            if left_is_high {
                                assert(diag_point(p1, p2, kcur) == (
                                    diag_lm(p1, p2).0 + j + 1,
                                    diag_lm(p1, p2).1 + ji + (j as int) * (mid as int)
                                        + end_len as int,
                                ));
                            } else {
                                assert(diag_point(p1, p2, kcur) == (
                                    diag_lm(p1, p2).0 - j,
                                    diag_rm(p1, p2).1 + ji + (j as int) * (mid as int),
                                ));
                            }
                        }
                        let ok = if left_is_high {
                            push_checked(
                                &mut points,
                                leftmost[0] as u64 + j + 1,
                                leftmost[1] as u64 + ji + j * mid + end_len,
                            )
                        } else {
                            if j > leftmost[0] as u64 {
                                proof {
                                    if allfit {
                                        assert(false);
                                    }
                                }
                                return Err(ErrorKind::DoesNotExist);
                            }
                            push_checked(
                                &mut points,
                                leftmost[0] as u64 - j,
                                rightmost[1] as u64 + ji + j * mid,
                            )
                        };
                        if !ok {
                            proof {
                                if allfit {
                                    assert(false);
                                }
                            }
                            return Err(ErrorKind::DoesNotExist);
                        }
                        ji = ji + 1;
                    }
                    proof {
                        assert((j as int + 1) * (mid as int) == (j as int) * (mid as int)
                            + mid as int) by (nonlinear_arith);
                    }
                    j = j + 1;
                }
                let mut kk: u64 = 0;
                while kk < end_len
                    invariant
                        p1@[0] != p2@[0] && p1@[1] != p2@[1],
                        vdiff >= 2,
                        hdiff >= 2,
                        mid >= 1,
                        mid <= 0x1_0000,
                        vdiff <= 0x1_0000,
                        hdiff <= 0x1_0000,
                        end_len <= 0x2_0000,
                        vdiff as int == diag_vdiff(p1, p2),
                        hdiff as int == diag_hdiff(p1, p2),
                        mid as int == diag_mid(p1, p2),
                        end_len as int == diag_end_len(p1, p2),
                        (leftmost@[0] as int, leftmost@[1] as int) == diag_lm(p1, p2),
                        (rightmost@[0] as int, rightmost@[1] as int) == diag_rm(p1, p2),
                        left_is_high == diag_left_is_high(p1, p2),
                        allfit == (forall|k: int|
                            0 <= k < diag_len(p1, p2) ==> 0 <= (#[trigger] diag_point(
                                p1,
                                p2,
                                k,
                            )).0 <= 0xFFFF && 0 <= diag_point(p1, p2, k).1 <= 0xFFFF),
                        vdiff > hdiff,
                        (lowest@[0] as int, lowest@[1] as int) == (if diag_left_is_high(p1, p2) {
                            diag_rm(p1, p2)
                        } else {
                            diag_lm(p1, p2)
                        }),
                        diag_len(p1, p2) == 2 * (end_len as int) + (mid as int) * (hdiff as int
                            - 2),
                        (mid as int) * (hdiff as int - 2) >= 0,
                        kk <= end_len,
                        points@.len() == end_len + (hdiff - 2) * mid + kk,
                        forall|k: int|
                            0 <= k < points@.len() ==> ((#[trigger] points@[k])@[0] as int,
                            points@[k]@[1] as int) == diag_point(p1, p2, k),
                    decreases end_len - kk,
                {
                    let ghost kcur = diag_len(p1, p2) - end_len as int + kk as int;
                    proof {
                        assert(points@.len() == kcur);
                        assert(diag_point(p1, p2, kcur) == (
                            (if diag_left_is_high(p1, p2) {
                                diag_rm(p1, p2)
                            } else {
                                diag_lm(p1, p2)
                            }).0,
                            (if diag_left_is_high(p1, p2) {
                                diag_rm(p1, p2)
                            } else {
                                diag_lm(p1, p2)
                            }).1 - kk,
                        ));
                        assert(0 <= kcur < diag_len(p1, p2));
                    }
                    let yl = lowest[1] as u64;
                    if kk > yl {
                        proof {
                            if allfit {
                                assert(false);
                            }
                        }
                        return Err(ErrorKind::DoesNotExist);
                    }
                    if !push_checked(&mut points, lowest[0] as u64, yl - kk) {
                        proof {
                            if allfit {
                                assert(false);
                            }
                        }
                        return Err(ErrorKind::DoesNotExist);
                    }
                    kk = kk + 1;
                }
                proof {
                    assert((vdiff as int - 2) * (mid as int) == (mid as int) * (vdiff as int - 2))
                        by (nonlinear_arith);
                    assert((hdiff as int - 2) * (mid as int) == (mid as int) * (hdiff as int - 2))
                        by (nonlinear_arith);
                }
                Ok(points)
            }
        }
    }

    /// Draws the line from `p1` to `p2` in color `fill`: exactly the
    /// rasterized pixels change, all to `fill`.  Vertical and horizontal
    /// lines paint the inclusive span; the contract pins that case down
    /// exactly.  Fails `Unsupported` on a non-editable image and
    /// `DoesNotExist` when the line leaves the image.
    pub fn draw_line(&mut self, fill: [u8; 4], p1: [u16; 2], p2: [u16; 2]) -> (r: Result<
        (),
        ErrorKind,
    >)
        ensures
            ({
                let s = old(self).contents@;
                &&& (!editable(s) && r is Err ==> *final(self) == *old(self))
                &&& (editable(s) ==> {
                    &&& final(self).from_file == old(self).from_file
                    &&& same_geometry(s, final(self).contents@)
                    &&& s.subrange(0, 14 + dib_size(s) as int) == final(self).contents@.subrange(
                        0,
                        14 + dib_size(s) as int,
                    )
                })
                &&& (p1@[0] == p2@[0] ==> {
                    let ylo = coord_min(p1@[1] as int, p2@[1] as int);
                    let yhi = coord_max(p1@[1] as int, p2@[1] as int);
                    &&& (r is Ok <==> editable(s) && p1@[0] < dib_width(s) && yhi < abs_height(s))
                    &&& (r is Ok ==> forall|x2: int, y2: int|
                        0 <= x2 < dib_width(s) && 0 <= y2 < abs_height(s) ==> #[trigger] pixel_group(
                            final(self).contents@,
                            x2,
                            y2,
                        ) == (if x2 == p1@[0] && ylo <= y2 <= yhi {
                            spec_encoded_px(s, fill@)
                        } else {
                            pixel_group(s, x2, y2)
                        }))
                })
                &&& (p1@[0] != p2@[0] && p1@[1] == p2@[1] ==> {
                    let xlo = coord_min(p1@[0] as int, p2@[0] as int);
                    let xhi = coord_max(p1@[0] as int, p2@[0] as int);
                    &&& (r is Ok <==> editable(s) && xhi < dib_width(s) && p1@[1] < abs_height(s))
                    &&& (r is Ok ==> forall|x2: int, y2: int|
                        0 <= x2 < dib_width(s) && 0 <= y2 < abs_height(s) ==> #[trigger] pixel_group(
                            final(self).contents@,
                            x2,
                            y2,
                        ) == (if y2 == p1@[1] && xlo <= x2 <= xhi {
                            spec_encoded_px(s, fill@)
                        } else {
                            pixel_group(s, x2, y2)
                        }))
                })
                &&& (p1@[0] != p2@[0] && p1@[1] != p2@[1] && r is Ok ==> forall|x2: int, y2: int|
                    0 <= x2 < dib_width(s) && 0 <= y2 < abs_height(s) ==> #[trigger] pixel_group(
                        final(self).contents@,
                        x2,
                        y2,
                    ) == (if on_diag_walk(p1, p2, x2, y2) {
                        spec_encoded_px(s, fill@)
                    } else {
                        pixel_group(s, x2, y2)
                    }))
                &&& (r is Ok && editable(s) ==> forall|x2: int, y2: int|
                    0 <= x2 < dib_width(s) && 0 <= y2 < abs_height(s) ==> #[trigger] pixel_group(
                        final(self).contents@,
                        x2,
                        y2,
                    ) == spec_encoded_px(s, fill@) || pixel_group(final(self).contents@, x2, y2)
                        == pixel_group(s, x2, y2))
            }),
    {
        let ghost s = self.contents@;
        let points = match BMP::rasterize_line(p1, p2) {
            Ok(v) => v,
            Err(e) => {
                proof {
                    assert(p1@[0] != p2@[0] && p1@[1] != p2@[1]);
                }
                return Err(e);
            },
        };
        let r = self.change_color_of_pixels(points, fill);
        proof {
            let pts = points@;
            if p1@[0] == p2@[0] {
                let ylo = coord_min(p1@[1] as int, p2@[1] as int);
                let yhi = coord_max(p1@[1] as int, p2@[1] as int);
                assert forall|x2: int, y2: int| #![auto] true implies (contains_coord(pts, x2, y2)
                    <==> (x2 == p1@[0] && ylo <= y2 <= yhi)) by {
                    if contains_coord(pts, x2, y2) {
                        let k = choose|k: int|
                            0 <= k < pts.len() && (#[trigger] pts[k])@[0] == x2 && pts[k]@[1] == y2;
                        assert(pts[k]@ =~= seq![p1@[0], (ylo + k) as u16]);
                    }
                    if x2 == p1@[0] && ylo <= y2 <= yhi {
                        let k = y2 - ylo;
                        assert(pts[k]@ =~= seq![p1@[0], (ylo + k) as u16]);
                        assert(contains_coord(pts, x2, y2));
                    }
                }
                if r is Ok {
                    assert(p1@[0] < dib_width(s) && yhi < abs_height(s)) by {
                        assert(contains_coord(pts, p1@[0] as int, yhi));
                        let k = yhi - ylo;
                        assert(pts[k]@ =~= seq![p1@[0], (ylo + k) as u16]);
                        assert(pts[k]@[0] < dib_width(s) && pts[k]@[1] < abs_height(s));
                    }
                }
                if editable(s) && p1@[0] < dib_width(s) && yhi < abs_height(s) {
                    assert(forall|k: int|
                        0 <= k < pts.len() ==> (#[trigger] pts[k])@[0] < dib_width(s)
                            && pts[k]@[1] < abs_height(s)) by {
                        assert forall|k: int| 0 <= k < pts.len() implies (#[trigger] pts[k])@[0]
                            < dib_width(s) && pts[k]@[1] < abs_height(s) by {
                            assert(pts[k]@ =~= seq![p1@[0], (ylo + k) as u16]);
                        }
                    }
                }
            } else if p1@[1] == p2@[1] {
                let xlo = coord_min(p1@[0] as int, p2@[0] as int);
                let xhi = coord_max(p1@[0] as int, p2@[0] as int);
                assert forall|x2: int, y2: int| #![auto] true implies (contains_coord(pts, x2, y2)
                    <==> (y2 == p1@[1] && xlo <= x2 <= xhi)) by {
                    if contains_coord(pts, x2, y2) {
                        let k = choose|k: int|
                            0 <= k < pts.len() && (#[trigger] pts[k])@[0] == x2 && pts[k]@[1] == y2;
                        assert(pts[k]@ =~= seq![(xlo + k) as u16, p1@[1]]);
                    }
                    if y2 == p1@[1] && xlo <= x2 <= xhi {
                        let k = x2 - xlo;
                        assert(pts[k]@ =~= seq![(xlo + k) as u16, p1@[1]]);
                        assert(contains_coord(pts, x2, y2));
                    }
                }
                if r is Ok {
                    assert(xhi < dib_width(s) && p1@[1] < abs_height(s)) by {
                        let k = xhi - xlo;
                        assert(pts[k]@ =~= seq![(xlo + k) as u16, p1@[1]]);
                        assert(pts[k]@[0] < dib_width(s) && pts[k]@[1] < abs_height(s));
                    }
                }
                if editable(s) && xhi < dib_width(s) && p1@[1] < abs_height(s) {
                    assert forall|k: int| 0 <= k < pts.len() implies (#[trigger] pts[k])@[0]
                        < dib_width(s) && pts[k]@[1] < abs_height(s) by {
                        assert(pts[k]@ =~= seq![(xlo + k) as u16, p1@[1]]);
                    }
                }
            } else {
                if r is Ok {
                    assert forall|x2: int, y2: int| #![auto] true implies (contains_coord(
                        pts,
                        x2,
                        y2,
                    ) <==> on_diag_walk(p1, p2, x2, y2)) by {
                        if contains_coord(pts, x2, y2) {
                            let k = choose|k: int|
                                0 <= k < pts.len() && (#[trigger] pts[k])@[0] == x2 && pts[k]@[1]
                                    == y2;
                            assert((pts[k]@[0] as int, pts[k]@[1] as int) == diag_point(
                                p1,
                                p2,
                                k,
                            ));
                            assert(0 <= k < diag_len(p1, p2) && diag_point(p1, p2, k) == (x2, y2));
                        }
                        if on_diag_walk(p1, p2, x2, y2) {
                            let k = choose|k: int|
                                0 <= k < diag_len(p1, p2) && #[trigger] diag_point(p1, p2, k) == (
                                x2,
                                y2,
                                );
                            assert((pts[k]@[0] as int, pts[k]@[1] as int) == diag_point(
                                p1,
                                p2,
                                k,
                            ));
                            assert(pts[k]@[0] == x2 && pts[k]@[1] == y2);
                            assert(contains_coord(pts, x2, y2));
                        }
                    }
                }
            }
        }
        r
    }

    /// Draws a rectangle with `p1` its top-left and `p2` its bottom-right
    /// corner (inclusive): `stroke` paints the four edges, `fill` the
    /// strict interior, and every other pixel keeps its bytes.
    pub fn draw_rectangle(
        &mut self,
        fill: Option<[u8; 4]>,
        stroke: Option<[u8; 4]>,
        p1: [u16; 2],
        p2: [u16; 2],
    ) -> (r: Result<(), ErrorKind>)
        requires
            p1@[0] <= p2@[0],
            p1@[1] <= p2@[1],
        ensures
            ({
                let s = old(self).contents@;
                &&& (editable(s) ==> {
                    &&& final(self).from_file == old(self).from_file
                    &&& same_geometry(s, final(self).contents@)
                    &&& s.subrange(0, 14 + dib_size(s) as int) == final(self).contents@.subrange(
                        0,
                        14 + dib_size(s) as int,
                    )
                })
                &&& (!editable(s) && r is Err ==> *final(self) == *old(self))
                &&& (editable(s) && p2@[0] < dib_width(s) && p2@[1] < abs_height(s) ==> r is Ok)
                &&& (r is Ok && editable(s) ==> forall|x2: int, y2: int|
                    0 <= x2 < dib_width(s) && 0 <= y2 < abs_height(s) ==> #[trigger] pixel_group(
                        final(self).contents@,
                        x2,
                        y2,
                    ) == (if stroke is Some && on_rect_border(p1, p2, x2, y2) {
                        spec_encoded_px(s, stroke->0@)
                    } else if fill is Some && in_rect_interior(p1, p2, x2, y2) {
                        spec_encoded_px(s, fill->0@)
                    } else {
                        pixel_group(s, x2, y2)
                    }))
            }),
    {
        let ghost s = self.contents@;
        if let Some(stroke_color) = stroke {
            let ghost s0 = self.contents@;
            self.draw_line(stroke_color, p1, [p2[0], p1[1]])?;
            let ghost s1 = self.contents@;
            self.draw_line(stroke_color, [p1[0], p2[1]], [p2[0], p2[1]])?;
            let ghost s2 = self.contents@;
            self.draw_line(stroke_color, p1, [p1[0], p2[1]])?;
            let ghost s3 = self.contents@;
            self.draw_line(stroke_color, [p2[0], p1[1]], [p2[0], p2[1]])?;
            proof {
                let s4 = self.contents@;
                assert(editable(s));
                crate::write::lemma_encoded_px_preserved(s, s1, stroke_color@);
                crate::write::lemma_encoded_px_preserved(s, s2, stroke_color@);
                crate::write::lemma_encoded_px_preserved(s, s3, stroke_color@);
                assert forall|x2: int, y2: int|
                    0 <= x2 < dib_width(s) && 0 <= y2 < abs_height(s) implies #[trigger] pixel_group(
                    s4,
                    x2,
                    y2,
                ) == (if on_rect_border(p1, p2, x2, y2) {
                    spec_encoded_px(s, stroke_color@)
                } else {
                    pixel_group(s, x2, y2)
                }) by {}
            }
        }
        if let Some(fill_color) = fill {
            // A rectangle thinner than three pixels has no interior: the
            // fill pass has nothing to paint.
            if (p1[0] as u32) + 2 > p2[0] as u32 || (p1[1] as u32) + 2 > p2[1] as u32 {
                proof {
                    assert(forall|a: int, b: int| !in_rect_interior(p1, p2, a, b));
                }
                return Ok(());
            }
            let ghost sb = self.contents@;
            let x1 = p1[0] + 1;
            let y1 = p1[1] + 1;
            let x2 = p2[0] - 1;
            let y2 = p2[1] - 1;
            let mut pts: Vec<[u16; 2]> = Vec::new();
            let mut yy: u16 = y1;
            while yy <= y2
                invariant
                    y1 <= yy,
                    yy <= y2 + 1,
                    x1 <= x2,
                    x2 <= 0xFFFE,
                    y2 <= 0xFFFE,
                    x1 >= 1,
                    y1 >= 1,
                    forall|a: int, b: int|
                        contains_coord(pts@, a, b) <==> (x1 <= a <= x2 && y1 <= b < yy),
                decreases y2 + 1 - yy,
            {
                let mut xx: u16 = x1;
                while xx <= x2
                    invariant
                        y1 <= yy <= y2,
                        x1 <= xx,
                        xx <= x2 + 1,
                        x2 <= 0xFFFE,
                        y2 <= 0xFFFE,
                        x1 >= 1,
                        y1 >= 1,
                        forall|a: int, b: int|
                            contains_coord(pts@, a, b) <==> ((x1 <= a <= x2 && y1 <= b < yy) || (b
                                == yy && x1 <= a < xx)),
                    decreases x2 + 1 - xx,
                {
                    let ghost before = pts@;
                    pts.push([xx, yy]);
                    proof {
                        assert((pts@[pts@.len() - 1])@[0] == xx && pts@[pts@.len() - 1]@[1] == yy);
                        assert forall|a: int, b: int| #![auto] true implies (contains_coord(
                            pts@,
                            a,
                            b,
                        ) <==> ((x1 <= a <= x2 && y1 <= b < yy) || (b == yy && x1 <= a < xx + 1)))
                            by {
                            if contains_coord(pts@, a, b) {
                                let k = choose|k: int|
                                    0 <= k < pts@.len() && (#[trigger] pts@[k])@[0] == a
                                        && pts@[k]@[1] == b;
                                if k < before.len() {
                                    assert(before[k] == pts@[k]);
                                    assert(contains_coord(before, a, b));
                                }
                            }
                            if (x1 <= a <= x2 && y1 <= b < yy) || (b == yy && x1 <= a < xx) {
                                assert(contains_coord(before, a, b));
                                let k = choose|k: int|
                                    0 <= k < before.len() && (#[trigger] before[k])@[0] == a
                                        && before[k]@[1] == b;
                                assert(pts@[k] == before[k]);
                            }
                        }
                    }
                    xx = xx + 1;
                }
                yy = yy + 1;
            }
            let ghost fill_pts = pts@;
            proof {
                if p2@[0] < dib_width(s) && p2@[1] < abs_height(s) {
                    assert forall|k: int| 0 <= k < fill_pts.len() implies (
                    #[trigger] fill_pts[k])@[0] < dib_width(s) && fill_pts[k]@[1] < abs_height(s)
                        by {
                        assert(contains_coord(
                            fill_pts,
                            fill_pts[k]@[0] as int,
                            fill_pts[k]@[1] as int,
                        ));
                    }
                }
            }
            self.change_color_of_pixels(pts, fill_color)?;
            proof {
                let sf = self.contents@;
                assert(editable(sb));
                assert(editable(s));
                crate::write::lemma_encoded_px_preserved(s, sb, fill_color@);
                assert forall|a: int, b: int| #![auto] true implies (contains_coord(fill_pts, a, b)
                    <==> in_rect_interior(p1, p2, a, b)) by {}
                assert forall|xq: int, yq: int|
                    0 <= xq < dib_width(s) && 0 <= yq < abs_height(s) implies #[trigger] pixel_group(
                    sf,
                    xq,
                    yq,
                ) == (if stroke is Some && on_rect_border(p1, p2, xq, yq) {
                    spec_encoded_px(s, stroke->0@)
                } else if in_rect_interior(p1, p2, xq, yq) {
                    spec_encoded_px(s, fill_color@)
                } else {
                    pixel_group(s, xq, yq)
                }) by {
                    if in_rect_interior(p1, p2, xq, yq) {
                        assert(!on_rect_border(p1, p2, xq, yq));
                        assert(contains_coord(fill_pts, xq, yq));
                    } else {
                        assert(!contains_coord(fill_pts, xq, yq));
                        assert(pixel_group(sf, xq, yq) == pixel_group(sb, xq, yq));
                    }
                }
            }
        }
        Ok(())
    }
}

/// Pushes `(x, y)` when both fit 16-bit coordinates; reports whether they
/// did.
fn push_checked(points: &mut Vec<[u16; 2]>, x: u64, y: u64) -> (ok: bool)
    ensures
        ok <==> x <= 0xFFFF && y <= 0xFFFF,
        ok ==> final(points)@ =~= old(points)@.push([x as u16, y as u16]),
        !ok ==> *final(points) == *old(points),
{
    if x <= 0xFFFF && y <= 0xFFFF {
        points.push([x as u16, y as u16]);
        true
    } else {
        false
    }
}

} // verus!
