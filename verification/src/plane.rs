//! Scanline geometry and the decoded pixel plane.
//!
//! Rows are stored padded to 4-byte boundaries; the sign of the header
//! height picks the storage direction.  Row 0 of the decoded plane is
//! always the visual top of the image: a negative height means rows are
//! stored top-down, a positive one bottom-up (the decoder reverses them).

use vstd::prelude::*;

use crate::bmp::BMP;
use crate::errors::ErrorKind;
use crate::header::{dib_bitcount, dib_height, dib_parse_ok, dib_size, dib_width, fh_off_bits};
use std::collections::VecDeque;

verus! {

/// Bytes per stored row: `ceil(bitcount·width / 32) · 4`, the universal
/// BMP padding rule.
pub open spec fn row_stride(width: int, bitcount: int) -> int {
    ((bitcount * width + 31) / 32) * 4
}

/// The row stride of the image in buffer `s`.
pub open spec fn stride_of(s: Seq<u8>) -> int {
    row_stride(dib_width(s) as int, dib_bitcount(s) as int)
}

/// The height field's magnitude: the number of pixel rows the header
/// declares.
pub open spec fn abs_height(s: Seq<u8>) -> int {
    if dib_height(s) < 0 {
        -dib_height(s)
    } else {
        dib_height(s)
    }
}

/// How many whole rows the buffer holds after the pixel-data offset.
pub open spec fn num_rows(s: Seq<u8>) -> int
    recommends
        stride_of(s) > 0,
        fh_off_bits(s) <= s.len(),
{
    (s.len() - fh_off_bits(s)) / stride_of(s)
}

/// Whether the pixel plane of buffer `s` can be decoded: parseable header,
/// pixel offset inside the buffer, a positive stride, and a bit depth with
/// a defined unpacking (1, 2, 4, or any whole-byte depth).
pub open spec fn plane_ok(s: Seq<u8>) -> bool {
    &&& dib_parse_ok(s)
    &&& fh_off_bits(s) <= s.len()
    &&& stride_of(s) >= 1
    &&& (dib_bitcount(s) >= 8 || dib_bitcount(s) == 1 || dib_bitcount(s) == 2 || dib_bitcount(s)
        == 4)
}

/// The stored (on-disk) row holding image row `y` (row 0 the logical
/// top): the same row for top-down storage, the mirror within the declared
/// height for bottom-up storage.  Bytes past the declared rows (a trailing
/// color profile, say) are not pixels and are never addressed.
pub open spec fn disk_row(s: Seq<u8>, y: int) -> int {
    if dib_height(s) < 0 {
        y
    } else {
        abs_height(s) - 1 - y
    }
}

/// How many buffer bytes one decoded pixel group covers.
pub open spec fn group_size(s: Seq<u8>) -> int {
    if dib_bitcount(s) >= 8 {
        dib_bitcount(s) as int / 8
    } else {
        1
    }
}

/// The buffer offset of the byte (or byte group) holding plane pixel
/// `(x, y)`.
pub open spec fn group_off(s: Seq<u8>, x: int, y: int) -> int {
    if dib_bitcount(s) >= 8 {
        fh_off_bits(s) + disk_row(s, y) * stride_of(s) + x * (dib_bitcount(s) / 8)
    } else {
        fh_off_bits(s) + disk_row(s, y) * stride_of(s) + (x * dib_bitcount(s)) / 8
    }
}

/// The sub-byte field of packed pixel `f` inside byte `b`, for bit depths
/// 1, 2 and 4; fields are stored most-significant-first.
pub open spec fn sub_byte_field(b: u8, bc: u16, f: int) -> u8 {
    if bc == 1 {
        (b >> (7 - f) as u8) & 1
    } else if bc == 2 {
        (b >> (6 - 2 * f) as u8) & 3
    } else {
        (b >> (4 - 4 * f) as u8) & 15
    }
}

/// The decoded byte group of plane pixel `(x, y)`: a direct slice for
/// whole-byte depths, one extracted sub-byte field otherwise.
pub open spec fn pixel_group(s: Seq<u8>, x: int, y: int) -> Seq<u8> {
    let bc = dib_bitcount(s);
    if bc >= 8 {
        s.subrange(group_off(s, x, y), group_off(s, x, y) + bc / 8)
    } else {
        seq![sub_byte_field(s[group_off(s, x, y)], bc, x % (8int / bc as int))]
    }
}

/// Whether buffer `s` holds all of its declared pixel rows: a parseable
/// header, a usable bit depth, a nonzero height, and a buffer long enough
/// for `|height|` whole rows after the pixel offset.  Bytes after those
/// rows (an embedded color profile, say) are allowed and left alone.
pub open spec fn frame_ok(s: Seq<u8>) -> bool {
    &&& dib_parse_ok(s)
    &&& (dib_bitcount(s) >= 8 || dib_bitcount(s) == 1 || dib_bitcount(s) == 2 || dib_bitcount(s)
        == 4)
    &&& dib_height(s) != 0
    &&& 1 <= dib_width(s)
    &&& stride_of(s) >= 1
    &&& fh_off_bits(s) + abs_height(s) * stride_of(s) <= s.len()
}

/// Whether pixels of buffer `s` can be edited in place: its rows are all
/// present (`frame_ok`), the bit depth is a writable one (24 or 32), the
/// extents fit the 16-bit editing interface, and the pixel data starts
/// after the DIB header (so pixel writes cannot reach header bytes).
pub open spec fn editable(s: Seq<u8>) -> bool {
    &&& frame_ok(s)
    &&& (dib_bitcount(s) == 24 || dib_bitcount(s) == 32)
    &&& dib_width(s) <= 0xFFFF
    &&& abs_height(s) <= 0xFFFF
    &&& 14 + dib_size(s) <= fh_off_bits(s)
}

/// The padding invariant: every stride is a positive multiple of 4 and
/// covers the packed pixel bytes, `ceil(width·bitcount / 8)`.
pub proof fn lemma_stride_padding(width: int, bitcount: int)
    requires
        width >= 0,
        bitcount >= 0,
    ensures
        row_stride(width, bitcount) % 4 == 0,
        row_stride(width, bitcount) >= (width * bitcount + 7) / 8,
        bitcount >= 1 && width >= 1 ==> row_stride(width, bitcount) >= 4,
{
    let n = bitcount * width;
    assert(n >= 0) by (nonlinear_arith)
        requires
            width >= 0,
            bitcount >= 0,
            n == bitcount * width,
    ;
    let q = (n + 31) / 32;
    assert(32 * q <= n + 31 && n + 31 < 32 * q + 32) by (nonlinear_arith)
        requires
            n >= 0,
            q == (n + 31) / 32,
    ;
    assert(n <= 32 * q);
    assert((n + 7) / 8 <= 4 * q) by (nonlinear_arith)
        requires
            n >= 0,
            n + 7 < 32 * q + 8,
    ;
    assert(row_stride(width, bitcount) == 4 * q);
    assert((4 * q) % 4 == 0) by (nonlinear_arith)
        requires
            q >= 0,
    ;
    assert(n * 1 == n) by (nonlinear_arith);
    assert(width * bitcount == n) by (nonlinear_arith)
        requires
            n == bitcount * width,
    ;
    if bitcount >= 1 && width >= 1 {
        assert(n >= 1) by (nonlinear_arith)
            requires
                width >= 1,
                bitcount >= 1,
                n == bitcount * width,
        ;
        assert(q >= 1);
    }
}

/// Consequences of a fully framed buffer: all declared rows fit (the
/// buffer-derived row count is at least the header height), the stride
/// covers a whole row of groups, and the plane decodes.
pub proof fn lemma_editable_rows(s: Seq<u8>)
    requires
        frame_ok(s),
    ensures
        abs_height(s) <= num_rows(s),
        stride_of(s) >= 4,
        dib_bitcount(s) >= 8 ==> group_size(s) * dib_width(s) <= stride_of(s) && group_size(s)
            == dib_bitcount(s) / 8,
        plane_ok(s),
{
    let w = dib_width(s) as int;
    let bc = dib_bitcount(s) as int;
    let h = abs_height(s);
    let st = stride_of(s);
    let off = fh_off_bits(s) as int;
    let rem = s.len() - off;
    lemma_stride_padding(w, bc);
    assert(h * st >= 0) by (nonlinear_arith)
        requires
            h >= 0,
            st >= 0,
    ;
    assert(h * st <= rem);
    assert(rem / st >= h) by (nonlinear_arith)
        requires
            st >= 1,
            h >= 0,
            h * st <= rem,
    ;
    if bc < 8 {
        return ;
    }
    assert((w * bc + 7) / 8 >= (w * bc) / 8);
    assert(w * (bc / 8) <= (w * bc) / 8) by (nonlinear_arith)
        requires
            w >= 0,
            bc >= 0,
    ;
    assert(group_size(s) * dib_width(s) == w * (bc / 8)) by (nonlinear_arith)
        requires
            group_size(s) == bc / 8,
            w == dib_width(s) as int,
    ;
}

/// Every pixel group of a framed image lies inside the declared rows.
pub proof fn lemma_group_in_bounds(s: Seq<u8>, x: int, y: int)
    requires
        frame_ok(s),
        0 <= x < dib_width(s),
        0 <= y < abs_height(s),
    ensures
        fh_off_bits(s) <= group_off(s, x, y),
        group_off(s, x, y) + group_size(s) <= fh_off_bits(s) + abs_height(s) * stride_of(s),
        group_off(s, x, y) + group_size(s) <= s.len(),
        0 <= disk_row(s, y) < abs_height(s),
{
    let w = dib_width(s) as int;
    let bc = dib_bitcount(s) as int;
    let st = stride_of(s);
    let off = fh_off_bits(s) as int;
    let rows = abs_height(s);
    let dr = disk_row(s, y);
    lemma_stride_padding(w, bc);
    assert(0 <= dr < rows);
    assert(rows * st <= s.len() - off);
    assert(dr * st + st <= rows * st) by (nonlinear_arith)
        requires
            dr < rows,
            st >= 1,
            0 <= dr,
    ;
    assert(dr * st >= 0) by (nonlinear_arith)
        requires
            dr >= 0,
            st >= 0,
    ;
    if bc >= 8 {
        assert((x + 1) * (bc / 8) <= w * (bc / 8)) by (nonlinear_arith)
            requires
                0 <= x,
                x + 1 <= w,
                bc / 8 >= 0,
        ;
        assert(w * (bc / 8) <= (w * bc + 7) / 8) by (nonlinear_arith)
            requires
                w >= 0,
                bc >= 8,
        ;
        assert(x * (bc / 8) + bc / 8 == (x + 1) * (bc / 8)) by (nonlinear_arith);
        assert(x * (bc / 8) >= 0) by (nonlinear_arith)
            requires
                x >= 0,
                bc / 8 >= 0,
        ;
    } else {
        assert((x * bc) / 8 >= 0);
        assert(x * bc <= w * bc - 1) by (nonlinear_arith)
            requires
                x < w,
                bc >= 1,
                x >= 0,
        ;
        assert((x * bc) / 8 + 1 <= (w * bc + 7) / 8) by (nonlinear_arith)
            requires
                x * bc <= w * bc - 1,
        ;
    }
}

/// Distinct in-range pixel coordinates decode from disjoint byte ranges.
pub proof fn lemma_groups_disjoint(s: Seq<u8>, x1: int, y1: int, x2: int, y2: int)
    requires
        frame_ok(s),
        dib_bitcount(s) >= 8,
        0 <= x1 < dib_width(s),
        0 <= y1 < abs_height(s),
        0 <= x2 < dib_width(s),
        0 <= y2 < abs_height(s),
        (x1, y1) != (x2, y2),
    ensures
        group_off(s, x1, y1) + group_size(s) <= group_off(s, x2, y2) || group_off(s, x2, y2)
            + group_size(s) <= group_off(s, x1, y1),
{
    let w = dib_width(s) as int;
    let bc = dib_bitcount(s) as int;
    let st = stride_of(s);
    let off = fh_off_bits(s) as int;
    let gs = group_size(s);
    let r1 = disk_row(s, y1);
    let r2 = disk_row(s, y2);
    lemma_stride_padding(w, bc);
    assert(w * (bc / 8) <= (w * bc + 7) / 8) by (nonlinear_arith)
        requires
            w >= 0,
            bc >= 8,
    ;
    if y1 == y2 {
        assert(x1 != x2);
        if x1 < x2 {
            assert(x1 * gs + gs <= x2 * gs) by (nonlinear_arith)
                requires
                    x1 + 1 <= x2,
                    gs >= 1,
            ;
        } else {
            assert(x2 * gs + gs <= x1 * gs) by (nonlinear_arith)
                requires
                    x2 + 1 <= x1,
                    gs >= 1,
            ;
        }
    } else {
        assert(r1 != r2);
        if r1 < r2 {
            assert(x1 * gs + gs <= w * gs) by (nonlinear_arith)
                requires
                    x1 + 1 <= w,
                    gs >= 1,
                    0 <= x1,
            ;
            assert(w * gs <= st) by (nonlinear_arith)
                requires
                    w * gs == w * (bc / 8),
                    w * (bc / 8) <= (w * bc + 7) / 8,
                    (w * bc + 7) / 8 <= st,
            ;
            assert(r1 * st + st <= r2 * st) by (nonlinear_arith)
                requires
                    r1 + 1 <= r2,
                    st >= 1,
            ;
            assert(x2 * gs >= 0) by (nonlinear_arith)
                requires
                    x2 >= 0,
                    gs >= 0,
            ;
        } else {
            assert(x2 * gs + gs <= w * gs) by (nonlinear_arith)
                requires
                    x2 + 1 <= w,
                    gs >= 1,
                    0 <= x2,
            ;
            assert(w * gs <= st) by (nonlinear_arith)
                requires
                    w * gs == w * (bc / 8),
                    w * (bc / 8) <= (w * bc + 7) / 8,
                    (w * bc + 7) / 8 <= st,
            ;
            assert(r2 * st + st <= r1 * st) by (nonlinear_arith)
                requires
                    r2 + 1 <= r1,
                    st >= 1,
            ;
            assert(x1 * gs >= 0) by (nonlinear_arith)
                requires
                    x1 >= 0,
                    gs >= 0,
            ;
        }
    }
}

/// All the header fields two buffers share when their first
/// `14 + dib_size` bytes agree.
pub open spec fn same_geometry(s1: Seq<u8>, s2: Seq<u8>) -> bool {
    &&& s2.len() == s1.len()
    &&& dib_size(s2) == dib_size(s1)
    &&& dib_width(s2) == dib_width(s1)
    &&& dib_height(s2) == dib_height(s1)
    &&& dib_bitcount(s2) == dib_bitcount(s1)
    &&& dib_parse_ok(s2) == dib_parse_ok(s1)
    &&& fh_off_bits(s2) == fh_off_bits(s1)
    &&& editable(s2) == editable(s1)
    &&& frame_ok(s2) == frame_ok(s1)
    &&& stride_of(s2) == stride_of(s1)
    &&& abs_height(s2) == abs_height(s1)
    &&& num_rows(s2) == num_rows(s1)
}

/// Writing one pixel group of an editable buffer changes exactly that
/// group: the header and every other pixel group read back unchanged.
pub proof fn lemma_write_effect(s1: Seq<u8>, s2: Seq<u8>, x: int, y: int, bytes: Seq<u8>)
    requires
        editable(s1),
        0 <= x < dib_width(s1),
        0 <= y < abs_height(s1),
        s2.len() == s1.len(),
        bytes.len() == group_size(s1),
        forall|i: int|
            0 <= i < s1.len() && !(group_off(s1, x, y) <= i < group_off(s1, x, y) + group_size(
                s1,
            )) ==> s2[i] == s1[i],
        s2.subrange(group_off(s1, x, y), group_off(s1, x, y) + group_size(s1)) == bytes,
    ensures
        same_geometry(s1, s2),
        s1.subrange(0, 14 + dib_size(s1) as int) == s2.subrange(0, 14 + dib_size(s1) as int),
        pixel_group(s2, x, y) == bytes,
        forall|x2: int, y2: int|
            0 <= x2 < dib_width(s1) && 0 <= y2 < abs_height(s1) && (x2, y2) != (x, y)
                ==> pixel_group(s2, x2, y2) == pixel_group(s1, x2, y2),
{
    lemma_editable_rows(s1);
    lemma_group_in_bounds(s1, x, y);
    let hdr_end = 14 + dib_size(s1) as int;
    assert(s1.subrange(0, hdr_end) =~= s2.subrange(0, hdr_end));
    assert(s1.subrange(10, 14) =~= s2.subrange(10, 14));
    assert(s1.subrange(14, 18) =~= s2.subrange(14, 18));
    if dib_size(s1) == 12 {
        assert(s1.subrange(18, 20) =~= s2.subrange(18, 20));
        assert(s1.subrange(20, 22) =~= s2.subrange(20, 22));
        assert(s1.subrange(24, 26) =~= s2.subrange(24, 26));
    } else {
        assert(s1.subrange(18, 22) =~= s2.subrange(18, 22));
        assert(s1.subrange(22, 26) =~= s2.subrange(22, 26));
        assert(s1.subrange(28, 30) =~= s2.subrange(28, 30));
        assert(s1.subrange(30, 34) =~= s2.subrange(30, 34));
    }
    if dib_size(s1) == 124 {
        assert(s1.subrange(122, 126) =~= s2.subrange(122, 126));
    }
    assert(dib_size(s2) == dib_size(s1));
    assert(dib_width(s2) == dib_width(s1));
    assert(dib_height(s2) == dib_height(s1));
    assert(dib_bitcount(s2) == dib_bitcount(s1));
    assert(fh_off_bits(s2) == fh_off_bits(s1));
    assert(dib_parse_ok(s2) == dib_parse_ok(s1));
    assert(pixel_group(s2, x, y) == bytes);
    assert forall|x2: int, y2: int|
        0 <= x2 < dib_width(s1) && 0 <= y2 < abs_height(s1) && (x2, y2) != (x, y) implies
    pixel_group(s2, x2, y2) == pixel_group(s1, x2, y2) by {
        lemma_groups_disjoint(s1, x, y, x2, y2);
        lemma_group_in_bounds(s1, x2, y2);
        assert(s2.subrange(group_off(s1, x2, y2), group_off(s1, x2, y2) + group_size(s1))
            =~= s1.subrange(group_off(s1, x2, y2), group_off(s1, x2, y2) + group_size(s1)));
    }
}

impl BMP {
    /// Decodes the pixel rows into a plane whose row 0 is the visual top of
    /// the image, whatever the storage direction.  Each entry is the raw
    /// byte group of one pixel.  Fails `Unsupported` when the header does
    /// not parse, the pixel offset or stride is unusable, or the bit depth
    /// has no defined unpacking; a zero height yields an empty plane.
    pub fn get_pixel_data(&self) -> (r: Result<VecDeque<Vec<Vec<u8>>>, ErrorKind>)
        ensures
            r is Ok <==> plane_ok(self.contents@),
            (match r {
                Ok(p) => {
                    let s = self.contents@;
                    &&& p@.len() == if dib_height(s) == 0 {
                        0
                    } else {
                        num_rows(s)
                    }
                    &&& forall|y: int| 0 <= y < p@.len() ==> #[trigger] p@[y]@.len() == dib_width(s)
                    &&& forall|y: int, x: int|
                        0 <= y < p@.len() && 0 <= x < dib_width(s) ==> #[trigger] p@[y]@[x]@ == (
                        if dib_height(s) < 0 {
                            disk_group(s, x, y)
                        } else {
                            disk_group(s, x, num_rows(s) - 1 - y)
                        })
                },
                Err(e) => e == ErrorKind::Unsupported,
            }),
            r is Ok ==> is_decoded_plane(self.contents@, r->Ok_0@),
    {
        let dib_header = match self.get_dib_header() {
            Ok(h) => h,
            Err(e) => {
                return Err(e);
            },
        };
        let s = &self.contents;
        let offset = self.get_offset() as usize;
        if offset > s.len() {
            return Err(ErrorKind::Unsupported);
        }
        let bc = dib_header.bitcount as usize;
        let width = dib_header.width as usize;
        if bc < 8 && bc != 1 && bc != 2 && bc != 4 {
            return Err(ErrorKind::Unsupported);
        }
        proof {
            lemma_stride_padding(width as int, bc as int);
            assert((bc as u64) * (width as u64) + 31 < 0x1_0000_0000_0000u64) by (nonlinear_arith)
                requires
                    width <= 0xFFFF_FFFFu64,
                    bc <= 0xFFFFu64,
            ;
        }
        let stride64: u64 = (((bc as u64) * (width as u64) + 31) / 32) * 4;
        if stride64 == 0 {
            return Err(ErrorKind::Unsupported);
        }
        let avail: u64 = (s.len() - offset) as u64;
        let mut rows: VecDeque<Vec<Vec<u8>>> = VecDeque::new();
        if avail / stride64 == 0 {
            // No whole row fits after the pixel offset: the plane is empty.
            return Ok(rows);
        }
        proof {
            assert(stride64 <= avail && avail / stride64 <= avail) by (nonlinear_arith)
                requires
                    stride64 >= 1,
                    avail / stride64 >= 1,
                    avail >= 0,
            ;
        }
        let stride: usize = stride64 as usize;
        let rows_num: usize = (avail / stride64) as usize;
        if dib_header.height == 0 {
            let empty: VecDeque<Vec<Vec<u8>>> = VecDeque::new();
            return Ok(empty);
        }
        let ghost sq = self.contents@;
        proof {
            assert((rows_num as int) * (stride as int) <= avail as int) by (nonlinear_arith)
                requires
                    stride >= 1,
                    rows_num as int == avail as int / stride as int,
                    avail >= 0,
            ;
        }
        let top_down = dib_header.height < 0;
        let mut row_num: usize = 0;
        while row_num < rows_num
            invariant
                plane_ok(sq),
                sq == self.contents@,
                sq.len() <= usize::MAX,
                row_num <= rows_num,
                rows@.len() == row_num,
                offset == fh_off_bits(sq),
                width == dib_width(sq),
                bc == dib_bitcount(sq),
                stride == stride_of(sq),
                rows_num == num_rows(sq),
                top_down == (dib_height(sq) < 0),
                offset + rows_num * stride <= sq.len(),
                forall|j: int|
                    0 <= j < row_num ==> #[trigger] rows@[j]@.len() == width,
                forall|j: int, x: int|
                    0 <= j < row_num && 0 <= x < width ==> #[trigger] rows@[j]@[x]@ == (if top_down {
                        disk_group(sq, x, j)
                    } else {
                        disk_group(sq, x, row_num as int - 1 - j)
                    }),
            decreases rows_num - row_num,
        {
            proof {
                assert(row_num * stride + stride <= rows_num * stride) by (nonlinear_arith)
                    requires
                        row_num < rows_num,
                        stride >= 1,
                        row_num >= 0,
                ;
                assert(row_num * stride >= 0) by (nonlinear_arith)
                    requires
                        row_num >= 0,
                        stride >= 0,
                ;
            }
            let row_start = offset + row_num * stride;
            let mut row: Vec<Vec<u8>> = Vec::new();
            let mut px: usize = 0;
            while px < width
                invariant
                    plane_ok(sq),
                    sq == self.contents@,
                    sq.len() <= usize::MAX,
                    px <= width,
                    row@.len() == px,
                    offset == fh_off_bits(sq),
                    width == dib_width(sq),
                    bc == dib_bitcount(sq),
                    stride == stride_of(sq),
                    row_num < num_rows(sq),
                    row_start == offset + row_num * stride,
                    row_start + stride <= sq.len(),
                    forall|x: int|
                        0 <= x < px ==> #[trigger] row@[x]@ == disk_group(sq, x, row_num as int),
                decreases width - px,
            {
                proof {
                    lemma_disk_group_in_bounds(sq, px as int, row_num as int);
                }
                if bc >= 8 {
                    let start = row_start + px * (bc / 8);
                    proof {
                        assert(start == group_disk_off(sq, px as int, row_num as int));
                        assert(start + bc / 8 <= sq.len());
                    }
                    let sl = vstd::slice::slice_subrange(self.contents.as_slice(), start, start
                        + bc / 8);
                    row.push(vstd::slice::slice_to_vec(sl));
                    proof {
                        assert(row@[px as int]@ == disk_group(sq, px as int, row_num as int));
                    }
                } else {
                    proof {
                        assert(bc == 1 || bc == 2 || bc == 4);
                    }
                    let divisor: usize = if bc == 1 {
                        8
                    } else if bc == 2 {
                        4
                    } else {
                        2
                    };
                    proof {
                        assert(divisor as int == 8int / bc as int) by (nonlinear_arith)
                            requires
                                bc == 1 || bc == 2 || bc == 4,
                                divisor == (if bc == 1 {
                                    8usize
                                } else if bc == 2 {
                                    4usize
                                } else {
                                    2usize
                                }),
                        ;
                        assert(px as int / divisor as int == (px as int * bc as int) / 8)
                            by (nonlinear_arith)
                            requires
                                bc == 1 || bc == 2 || bc == 4,
                                divisor as int == 8int / bc as int,
                                px >= 0,
                        ;
                    }
                    let start = row_start + px / divisor;
                    proof {
                        assert(start == group_disk_off(sq, px as int, row_num as int));
                        assert(start < sq.len());
                    }
                    let byte: u8 = self.contents[start];
                    let field: usize = px % divisor;
                    proof {
                        assert(field < divisor);
                        assert(field < 8int / bc as int);
                    }
                    let value: u8;
                    if bc == 1 {
                        value = (byte >> (7 - field) as u8) & 1;
                    } else if bc == 2 {
                        value = (byte >> (6 - 2 * field) as u8) & 3;
                    } else {
                        proof {
                            assert(bc == 4 && field < 2);
                        }
                        value = (byte >> (4 - 4 * field) as u8) & 15;
                    }
                    let mut group: Vec<u8> = Vec::new();
                    group.push(value);
                    proof {
                        assert(group@ =~= seq![
                            sub_byte_field(sq[group_disk_off(sq, px as int, row_num as int)], bc
                                as u16, px as int % (8int / bc as int)),
                        ]);
                    }
                    row.push(group);
                }
                px = px + 1;
            }
            if top_down {
                rows.push_back(row);
            } else {
                rows.push_front(row);
            }
            row_num = row_num + 1;
        }
        Ok(rows)
    }
}

/// The buffer offset of the byte group of pixel `x` in stored row `dr`,
/// ignoring orientation.
pub open spec fn group_disk_off(s: Seq<u8>, x: int, dr: int) -> int {
    if dib_bitcount(s) >= 8 {
        fh_off_bits(s) + dr * stride_of(s) + x * (dib_bitcount(s) / 8)
    } else {
        fh_off_bits(s) + dr * stride_of(s) + (x * dib_bitcount(s)) / 8
    }
}

/// Whether `p` is the decoded pixel plane of buffer `s`: the row count
/// the buffer length yields, rows in visual order (top-down buffers as
/// stored, bottom-up buffers reversed), exactly as `get_pixel_data`
/// returns it.
pub open spec fn is_decoded_plane(s: Seq<u8>, p: Seq<Vec<Vec<u8>>>) -> bool {
    &&& p.len() == (if dib_height(s) == 0 {
        0int
    } else {
        num_rows(s)
    })
    &&& forall|y: int, x: int|
        0 <= y < p.len() && 0 <= x < dib_width(s) ==> #[trigger] p[y]@[x]@ == (if dib_height(s)
            < 0 {
            disk_group(s, x, y)
        } else {
            disk_group(s, x, num_rows(s) - 1 - y)
        })
}

/// The byte group of pixel `x` in stored row `dr`, ignoring orientation.
pub open spec fn disk_group(s: Seq<u8>, x: int, dr: int) -> Seq<u8> {
    let bc = dib_bitcount(s);
    if bc >= 8 {
        s.subrange(group_disk_off(s, x, dr), group_disk_off(s, x, dr) + bc / 8)
    } else {
        seq![sub_byte_field(s[group_disk_off(s, x, dr)], bc, x % (8int / bc as int))]
    }
}

/// Every disk-row pixel group of a decodable plane lies inside the buffer.
pub proof fn lemma_disk_group_in_bounds(s: Seq<u8>, x: int, dr: int)
    requires
        plane_ok(s),
        0 <= x < dib_width(s),
        0 <= dr < num_rows(s),
    ensures
        fh_off_bits(s) <= group_disk_off(s, x, dr),
        group_disk_off(s, x, dr) + group_size(s) <= s.len(),
        dib_bitcount(s) >= 8 ==> group_disk_off(s, x, dr) + dib_bitcount(s) / 8 <= fh_off_bits(s)
            + (dr + 1) * stride_of(s),
        dib_bitcount(s) < 8 ==> group_disk_off(s, x, dr) + 1 <= fh_off_bits(s) + (dr + 1)
            * stride_of(s),
        fh_off_bits(s) + (dr + 1) * stride_of(s) <= s.len(),
        0 <= dr * stride_of(s),
        dib_bitcount(s) >= 8 ==> 0 <= x * (dib_bitcount(s) as int / 8) <= s.len(),
        dib_bitcount(s) < 8 ==> 0 <= (x * dib_bitcount(s)) / 8 <= s.len(),
{
    let w = dib_width(s) as int;
    let bc = dib_bitcount(s) as int;
    let st = stride_of(s);
    let off = fh_off_bits(s) as int;
    let rows = num_rows(s);
    lemma_stride_padding(w, bc);
    assert(rows * st <= s.len() - off) by (nonlinear_arith)
        requires
            st >= 1,
            rows == (s.len() - off) / st,
            s.len() - off >= 0,
    ;
    assert((dr + 1) * st <= rows * st) by (nonlinear_arith)
        requires
            dr + 1 <= rows,
            st >= 1,
    ;
    assert(dr * st + st == (dr + 1) * st) by (nonlinear_arith);
    assert(dr * st >= 0) by (nonlinear_arith)
        requires
            dr >= 0,
            st >= 0,
    ;
    assert(st <= rows * st) by (nonlinear_arith)
        requires
            rows >= 1,
            st >= 0,
    ;
    if bc >= 8 {
        assert((x + 1) * (bc / 8) <= w * (bc / 8)) by (nonlinear_arith)
            requires
                0 <= x,
                x + 1 <= w,
                bc / 8 >= 0,
        ;
        assert(w * (bc / 8) <= (w * bc + 7) / 8) by (nonlinear_arith)
            requires
                w >= 0,
                bc >= 8,
        ;
        assert(x * (bc / 8) + bc / 8 == (x + 1) * (bc / 8)) by (nonlinear_arith);
        assert(x * (bc / 8) >= 0) by (nonlinear_arith)
            requires
                x >= 0,
                bc / 8 >= 0,
        ;
        assert(x * (bc / 8) <= s.len());
    } else {
        assert((x * bc) / 8 >= 0);
        assert(x * bc >= 0) by (nonlinear_arith)
            requires
                x >= 0,
                bc >= 0,
        ;
        assert(x * bc <= w * bc - 1) by (nonlinear_arith)
            requires
                x < w,
                bc >= 1,
                x >= 0,
        ;
        assert((x * bc) / 8 + 1 <= (w * bc + 7) / 8) by (nonlinear_arith)
            requires
                x * bc <= w * bc - 1,
        ;
        assert((x * bc) / 8 <= s.len());
    }
}


impl BMP {
    /// Whether the buffer holds all of its declared pixel rows.
    pub(crate) fn is_framed(&self, dib_header: &crate::header::DIBHEADER) -> (r: bool)
        requires
            dib_header.wf(),
            crate::image::pixel_matches(*dib_header, self.contents@),
            dib_parse_ok(self.contents@),
        ensures
            r == frame_ok(self.contents@),
    {
        let bc = dib_header.bitcount;
        if bc < 8 && bc != 1 && bc != 2 && bc != 4 {
            return false;
        }
        if dib_header.height == 0 || dib_header.width == 0 {
            return false;
        }
        let habs: u64 = if dib_header.height < 0 {
            (-(dib_header.height as i64)) as u64
        } else {
            dib_header.height as u64
        };
        let off: u64 = crate::raw::read_u32(&self.contents, 10) as u64;
        proof {
            assert((bc as u64) * (dib_header.width as u64) < 0x1_0000_0000_0000u64)
                by (nonlinear_arith)
                requires
                    bc <= 0xFFFFu64,
                    dib_header.width <= 0xFFFF_FFFFu64,
            ;
            lemma_stride_padding(dib_header.width as int, bc as int);
        }
        let prod: u64 = (bc as u64) * (dib_header.width as u64);
        let stride: u64 = ((prod + 31) / 32) * 4;
        proof {
            assert(stride >= 4 && stride <= 0x4000_0000_0000u64) by (nonlinear_arith)
                requires
                    stride == ((prod + 31) / 32) * 4,
                    prod >= 1,
                    prod < 0x1_0000_0000_0000u64,
            ;
        }
        let len: u64 = self.contents.len() as u64;
        if off > len {
            proof {
                assert(abs_height(self.contents@) * stride_of(self.contents@) >= 0)
                    by (nonlinear_arith)
                    requires
                        abs_height(self.contents@) >= 0,
                        stride_of(self.contents@) >= 0,
                ;
            }
            return false;
        }
        // Compare through a division so the product cannot overflow.
        let fits: bool = habs <= (len - off) / stride;
        proof {
            assert(fits == (habs * stride <= len - off)) by (nonlinear_arith)
                requires
                    stride >= 1,
                    habs >= 0,
                    len >= off,
                    fits == (habs as int <= (len as int - off as int) / (stride as int)),
            ;
        }
        fits
    }

    /// Reads the raw byte group of image pixel `(x, y)`.
    pub(crate) fn read_pixel_group(
        &self,
        x: usize,
        y: usize,
        dib_header: &crate::header::DIBHEADER,
    ) -> (r: Vec<u8>)
        requires
            dib_header.wf(),
            crate::image::pixel_matches(*dib_header, self.contents@),
            dib_parse_ok(self.contents@),
            frame_ok(self.contents@),
            x < dib_width(self.contents@),
            y < abs_height(self.contents@),
        ensures
            r@ == pixel_group(self.contents@, x as int, y as int),
    {
        let ghost s = self.contents@;
        proof {
            lemma_group_in_bounds(s, x as int, y as int);
            vstd::std_specs::vec::axiom_spec_len(&self.contents);
        }
        let bc = dib_header.bitcount as u64;
        let habs: u64 = if dib_header.height < 0 {
            (-(dib_header.height as i64)) as u64
        } else {
            dib_header.height as u64
        };
        let off: u64 = crate::raw::read_u32(&self.contents, 10) as u64;
        proof {
            assert(bc * (dib_header.width as u64) < 0x1_0000_0000_0000u64) by (nonlinear_arith)
                requires
                    bc <= 0xFFFFu64,
                    dib_header.width <= 0xFFFF_FFFFu64,
            ;
        }
        let stride: u64 = ((bc * (dib_header.width as u64) + 31) / 32) * 4;
        let dr: u64 = if dib_header.height > 0 {
            habs - 1 - (y as u64)
        } else {
            y as u64
        };
        let ghost go = group_off(s, x as int, y as int);
        proof {
            assert(dr == disk_row(s, y as int));
            assert((dr as int) * (stride as int) >= 0 && (dr as int) * (stride as int) <= (
            abs_height(s) - 1) * stride_of(s)) by (nonlinear_arith)
                requires
                    0 <= dr <= abs_height(s) - 1,
                    stride == stride_of(s),
                    stride >= 0,
            ;
            assert((abs_height(s) - 1) * stride_of(s) + stride_of(s) == abs_height(s) * stride_of(
                s,
            )) by (nonlinear_arith);
            assert((dr as int) * (stride as int) <= s.len());
        }
        let row_start: u64 = off + dr * stride;
        proof {
            if dib_bitcount(s) >= 8 {
                assert((x as int) * (dib_bitcount(s) / 8) >= 0) by (nonlinear_arith)
                    requires
                        x >= 0,
                        dib_bitcount(s) >= 8,
                ;
            } else {
                assert((x as int) * (dib_bitcount(s) as int) >= 0) by (nonlinear_arith)
                    requires
                        x >= 0,
                        dib_bitcount(s) >= 0,
                ;
            }
            assert(row_start as int <= go);
            assert(go + group_size(s) <= s.len());
        }
        if bc >= 8 {
            let start: u64 = row_start + (x as u64) * (bc / 8);
            proof {
                assert(start == go);
            }
            let start_us = start as usize;
            let sl = vstd::slice::slice_subrange(
                self.contents.as_slice(),
                start_us,
                start_us + (bc / 8) as usize,
            );
            vstd::slice::slice_to_vec(sl)
        } else {
            let bcs = bc as usize;
            proof {
                assert(bcs == 1 || bcs == 2 || bcs == 4);
            }
            let divisor: usize = if bcs == 1 {
                8
            } else if bcs == 2 {
                4
            } else {
                2
            };
            proof {
                assert(divisor as int == 8int / bcs as int) by (nonlinear_arith)
                    requires
                        bcs == 1 || bcs == 2 || bcs == 4,
                        divisor == (if bcs == 1 {
                            8usize
                        } else if bcs == 2 {
                            4usize
                        } else {
                            2usize
                        }),
                ;
                assert(x as int / (divisor as int) == (x as int * bcs as int) / 8)
                    by (nonlinear_arith)
                    requires
                        bcs == 1 || bcs == 2 || bcs == 4,
                        divisor as int == 8int / bcs as int,
                        x >= 0,
                ;
            }
            let start: u64 = row_start + (x / divisor) as u64;
            proof {
                assert(start == go);
                assert(start < s.len());
            }
            let byte: u8 = self.contents[start as usize];
            let field: usize = x % divisor;
            proof {
                assert(field < divisor);
            }
            let value: u8;
            if bcs == 1 {
                value = (byte >> (7 - field) as u8) & 1;
            } else if bcs == 2 {
                value = (byte >> (6 - 2 * field) as u8) & 3;
            } else {
                proof {
                    assert(bcs == 4 && field < 2);
                }
                value = (byte >> (4 - 4 * field) as u8) & 15;
            }
            let mut group: Vec<u8> = Vec::new();
            group.push(value);
            proof {
                assert(x as int % (divisor as int) == x as int % (8int / dib_bitcount(
                    s,
                ) as int));
                assert(group@ =~= pixel_group(s, x as int, y as int));
            }
            group
        }
    }
}

} // verus!
