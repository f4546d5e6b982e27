//! Writing pixel colors: the sole byte-level write path, the exact inverse
//! of the channel-order inference used when resolving.
//!
//! Only 24- and 32-bit images are writable; palette and packed sub-byte
//! formats are read-only because rewriting a shared palette entry or a
//! packed nibble has no single-pixel meaning.

use vstd::prelude::*;

use crate::bmp::BMP;
use crate::errors::ErrorKind;
use crate::header::{dib_alpha_mask, dib_bitcount, dib_blue_mask, dib_height, dib_parse_ok,
    dib_red_mask, dib_size, dib_width, fh_off_bits, Compression, BITMAPFILEHEADER, DIBHEADER};
use crate::image::{has_pixel_masks, perm32, pixel_matches, spec_resolve, spec_resolve_group};
use crate::plane::{abs_height, disk_row, editable, group_off, group_size, lemma_editable_rows,
    lemma_group_in_bounds, lemma_write_effect, num_rows, pixel_group, plane_ok, same_geometry,
    stride_of};
use crate::raw::read_u32;

verus! {

/// The byte group that stores color `c` in buffer `s`'s pixel format:
/// BGR at 24 bits, the inverse mask permutation or direct RGBA at 32.
pub open spec fn spec_encoded_px(s: Seq<u8>, c: Seq<u8>) -> Seq<u8>
    recommends
        c.len() == 4,
{
    if dib_bitcount(s) == 24 {
        seq![c[2], c[1], c[0]]
    } else {
        if has_pixel_masks(s) {
            if dib_alpha_mask(s) < dib_red_mask(s) {
                if dib_red_mask(s) < dib_blue_mask(s) {
                    seq![c[3], c[0], c[1], c[2]]
                } else {
                    seq![c[3], c[2], c[1], c[0]]
                }
            } else {
                if dib_red_mask(s) < dib_blue_mask(s) {
                    seq![c[0], c[1], c[2], c[3]]
                } else {
                    seq![c[2], c[1], c[0], c[3]]
                }
            }
        } else {
            seq![c[0], c[1], c[2], c[3]]
        }
    }
}

/// The color read back after writing `c`: unchanged at 32 bits, alpha
/// forced opaque at 24 bits (that depth stores no alpha).
pub open spec fn spec_readback(s: Seq<u8>, c: Seq<u8>) -> Seq<u8>
    recommends
        c.len() == 4,
{
    if dib_bitcount(s) == 24 {
        seq![c[0], c[1], c[2], 255u8]
    } else {
        c
    }
}

/// Resolving an encoded color gives it back: write then read is the
/// identity, up to the forced alpha of 24-bit storage.
pub proof fn lemma_encode_resolve(s: Seq<u8>, c: Seq<u8>)
    requires
        dib_bitcount(s) == 24 || dib_bitcount(s) == 32,
        c.len() == 4,
    ensures
        spec_resolve_group(s, spec_encoded_px(s, c)) == Ok::<Seq<u8>, ErrorKind>(
            spec_readback(s, c),
        ),
{
    let g = spec_encoded_px(s, c);
    if dib_bitcount(s) == 24 {
        assert(spec_resolve_group(s, g)->Ok_0 =~= spec_readback(s, c));
    } else if has_pixel_masks(s) {
        assert(perm32(s, g) =~= c);
    } else {
        assert(g =~= c);
    }
}

/// A header that agreed with a buffer on the pixel-relevant fields still
/// does after edits that left the header bytes (the first `14 + dib_size`
/// of them) alone.
pub proof fn lemma_matches_preserved(h: DIBHEADER, fh: BITMAPFILEHEADER, s1: Seq<u8>, s2: Seq<u8>)
    requires
        pixel_matches(h, s1),
        fh.matches(s1),
        dib_parse_ok(s1),
        s1.len() == s2.len(),
        s1.subrange(0, 14 + dib_size(s1) as int) == s2.subrange(0, 14 + dib_size(s1) as int),
    ensures
        pixel_matches(h, s2),
        fh.matches(s2),
        dib_parse_ok(s2),
{
    let hdr_end = 14 + dib_size(s1) as int;
    assert forall|a: int, b: int| 0 <= a <= b <= hdr_end implies s1.subrange(a, b) =~= s2.subrange(
        a,
        b,
    ) by {
        assert forall|k: int| 0 <= k < b - a implies s1.subrange(a, b)[k] == s2.subrange(a, b)[k]
            by {
            assert(s1.subrange(0, hdr_end)[a + k] == s2.subrange(0, hdr_end)[a + k]);
        }
    }
    assert(s1.subrange(0, 2) =~= s2.subrange(0, 2));
    assert(s1.subrange(2, 6) =~= s2.subrange(2, 6));
    assert(s1.subrange(6, 8) =~= s2.subrange(6, 8));
    assert(s1.subrange(8, 10) =~= s2.subrange(8, 10));
    assert(s1.subrange(10, 14) =~= s2.subrange(10, 14));
    assert(s1.subrange(14, 18) =~= s2.subrange(14, 18));
    if dib_size(s1) == 12 {
        assert(s1.subrange(18, 20) =~= s2.subrange(18, 20));
        assert(s1.subrange(20, 22) =~= s2.subrange(20, 22));
        assert(s1.subrange(22, 24) =~= s2.subrange(22, 24));
        assert(s1.subrange(24, 26) =~= s2.subrange(24, 26));
    } else {
        assert(s1.subrange(18, 22) =~= s2.subrange(18, 22));
        assert(s1.subrange(22, 26) =~= s2.subrange(22, 26));
        assert(s1.subrange(26, 28) =~= s2.subrange(26, 28));
        assert(s1.subrange(28, 30) =~= s2.subrange(28, 30));
        assert(s1.subrange(30, 34) =~= s2.subrange(30, 34));
    }
    if dib_size(s1) > 40 {
        assert(s1.subrange(54, 58) =~= s2.subrange(54, 58));
        assert(s1.subrange(58, 62) =~= s2.subrange(58, 62));
        assert(s1.subrange(62, 66) =~= s2.subrange(62, 66));
        assert(s1.subrange(66, 70) =~= s2.subrange(66, 70));
    }
    if dib_size(s1) > 108 {
        assert(s1.subrange(122, 126) =~= s2.subrange(122, 126));
    }
}

/// The encoding permutation depends only on header bytes: buffers that
/// agree on the header prefix encode colors identically.
pub proof fn lemma_encoded_px_preserved(s1: Seq<u8>, s2: Seq<u8>, c: Seq<u8>)
    requires
        dib_parse_ok(s1),
        s1.len() == s2.len(),
        s1.subrange(0, 14 + dib_size(s1) as int) == s2.subrange(0, 14 + dib_size(s1) as int),
    ensures
        spec_encoded_px(s2, c) == spec_encoded_px(s1, c),
{
    let hdr_end = 14 + dib_size(s1) as int;
    assert forall|a: int, b: int| 0 <= a <= b <= hdr_end implies s1.subrange(a, b) =~= s2.subrange(
        a,
        b,
    ) by {
        assert forall|k: int| 0 <= k < b - a implies s1.subrange(a, b)[k] == s2.subrange(a, b)[k]
            by {
            assert(s1.subrange(0, hdr_end)[a + k] == s2.subrange(0, hdr_end)[a + k]);
        }
    }
    assert(s1.subrange(14, 18) =~= s2.subrange(14, 18));
    if dib_size(s1) == 12 {
        assert(s1.subrange(24, 26) =~= s2.subrange(24, 26));
    } else {
        assert(s1.subrange(28, 30) =~= s2.subrange(28, 30));
        assert(s1.subrange(30, 34) =~= s2.subrange(30, 34));
    }
    if dib_size(s1) > 40 {
        assert(s1.subrange(54, 58) =~= s2.subrange(54, 58));
        assert(s1.subrange(58, 62) =~= s2.subrange(58, 62));
        assert(s1.subrange(62, 66) =~= s2.subrange(62, 66));
        assert(s1.subrange(66, 70) =~= s2.subrange(66, 70));
    }
}

impl BMP {
    /// Whether the buffer meets every condition of in-place pixel editing.
    pub(crate) fn is_editable(&self, dib_header: &DIBHEADER) -> (r: bool)
        requires
            dib_header.wf(),
            pixel_matches(*dib_header, self.contents@),
            dib_parse_ok(self.contents@),
        ensures
            r == editable(self.contents@),
    {
        let bc = dib_header.bitcount;
        if bc != 24 && bc != 32 {
            return false;
        }
        if dib_header.height == 0 {
            return false;
        }
        if dib_header.width == 0 || dib_header.width > 0xFFFF {
            return false;
        }
        let habs: u64 = if dib_header.height < 0 {
            (-(dib_header.height as i64)) as u64
        } else {
            dib_header.height as u64
        };
        if habs > 0xFFFF {
            return false;
        }
        let off: u64 = read_u32(&self.contents, 10) as u64;
        if 14 + dib_header.size as u64 > off {
            return false;
        }
        proof {
            assert((bc as u64) * (dib_header.width as u64) <= 0xFFFF_FFFFu64) by (nonlinear_arith)
                requires
                    bc <= 0xFFFFu64,
                    dib_header.width <= 0xFFFFu64,
            ;
        }
        let prod: u64 = (bc as u64) * (dib_header.width as u64);
        let stride: u64 = ((prod + 31) / 32) * 4;
        proof {
            assert(stride <= 0x4000_0000u64) by (nonlinear_arith)
                requires
                    stride == ((prod + 31) / 32) * 4,
                    prod <= 0xFFFF_FFFFu64,
            ;
            assert(habs * stride <= 0x4000_0000_0000u64 && (habs + 1) * stride
                <= 0x8000_0000_0000u64) by (nonlinear_arith)
                requires
                    habs <= 0xFFFFu64,
                    stride <= 0x4000_0000u64,
                    stride >= 0,
            ;
        }
        let len: u64 = self.contents.len() as u64;
        if off + habs * stride > len {
            return false;
        }
        proof {
            crate::plane::lemma_stride_padding(dib_header.width as int, bc as int);
        }
        true
    }

    /// Writes `new_color` at pixel `(x, y)` using an already parsed header
    /// pair.  Fails `Unsupported` unless the image is an editable 24- or
    /// 32-bit one, and `DoesNotExist` on out-of-bounds coordinates; exactly
    /// that pixel's byte group changes, to the encoded color.
    pub fn change_color_of_pixel_efficient(
        &mut self,
        x: u16,
        y: u16,
        new_color: [u8; 4],
        dib_header: &DIBHEADER,
        header: &BITMAPFILEHEADER,
    ) -> (r: Result<(), ErrorKind>)
        requires
            dib_header.wf(),
            pixel_matches(*dib_header, old(self).contents@),
            dib_parse_ok(old(self).contents@),
            header.matches(old(self).contents@),
        ensures
            ({
                let s = old(self).contents@;
                &&& r == (if !editable(s) {
                    Err::<(), ErrorKind>(ErrorKind::Unsupported)
                } else if !(x < dib_width(s) && y < abs_height(s)) {
                    Err::<(), ErrorKind>(ErrorKind::DoesNotExist)
                } else {
                    Ok::<(), ErrorKind>(())
                })
                &&& (r is Err ==> *final(self) == *old(self))
                &&& (r is Ok ==> {
                    &&& final(self).from_file == old(self).from_file
                    &&& same_geometry(s, final(self).contents@)
                    &&& s.subrange(0, 14 + dib_size(s) as int) == final(self).contents@.subrange(
                        0,
                        14 + dib_size(s) as int,
                    )
                    &&& pixel_group(final(self).contents@, x as int, y as int) == spec_encoded_px(
                        s,
                        new_color@,
                    )
                    &&& forall|x2: int, y2: int|
                        0 <= x2 < dib_width(s) && 0 <= y2 < abs_height(s) && (x2, y2) != (
                        x as int,
                        y as int,
                        ) ==> pixel_group(final(self).contents@, x2, y2) == pixel_group(s, x2, y2)
                    &&& forall|i: int|
                        0 <= i < s.len() && !(group_off(s, x as int, y as int) <= i < group_off(
                            s,
                            x as int,
                            y as int,
                        ) + group_size(s)) ==> final(self).contents@[i] == s[i]
                })
            }),
    {
        let ghost s = old(self).contents@;
        if !self.is_editable(dib_header) {
            return Err(ErrorKind::Unsupported);
        }
        proof {
            lemma_editable_rows(s);
        }
        let habs: u32 = if dib_header.height < 0 {
            ((-(dib_header.height as i64)) as u64) as u32
        } else {
            dib_header.height as u32
        };
        proof {
            assert(habs == abs_height(s));
        }
        if x as u32 >= dib_header.width || y as u32 >= habs {
            return Err(ErrorKind::DoesNotExist);
        }
        proof {
            lemma_group_in_bounds(s, x as int, y as int);
        }
        let bc = dib_header.bitcount;
        let disk_y: u64 = if dib_header.height > 0 {
            (habs - 1 - y as u32) as u64
        } else {
            y as u64
        };
        proof {
            assert((bc as u64) * (dib_header.width as u64) <= 0xFFFF_FFFFu64) by (nonlinear_arith)
                requires
                    bc <= 0xFFFFu64,
                    dib_header.width <= 0xFFFFu64,
            ;
        }
        let prod: u64 = (bc as u64) * (dib_header.width as u64);
        let stride: u64 = ((prod + 31) / 32) * 4;
        proof {
            assert(stride <= 0x4000_0000u64) by (nonlinear_arith)
                requires
                    stride == ((prod + 31) / 32) * 4,
                    prod <= 0xFFFF_FFFFu64,
            ;
            assert(disk_y * stride <= 0x4000_0000_0000u64) by (nonlinear_arith)
                requires
                    disk_y <= 0xFFFFu64,
                    stride <= 0x4000_0000u64,
                    stride >= 0,
            ;
            assert((x as u64) * ((bc as u64) / 8) <= 0x3FFF_FFFFu64) by (nonlinear_arith)
                requires
                    x <= 0xFFFFu64,
                    bc <= 0xFFFFu64,
            ;
        }
        let start64: u64 = header.bfOffBits as u64 + disk_y * stride + (x as u64) * ((bc as u64)
            / 8);
        proof {
            assert(disk_y == disk_row(s, y as int));
            assert(start64 == group_off(s, x as int, y as int));
            assert(start64 as int + group_size(s) <= s.len());
            vstd::std_specs::vec::axiom_spec_len(&self.contents);
        }
        let start = start64 as usize;
        let c = new_color;
        if bc == 24 {
            self.contents[start] = c[2];
            self.contents[start + 1] = c[1];
            self.contents[start + 2] = c[0];
        } else {
            let masked = (match dib_header.compression {
                Some(Compression::BiBitfields) => true,
                Some(Compression::BiAlphabitfields) => true,
                _ => false,
            }) && dib_header.RedMask.is_some() && dib_header.GreenMask.is_some()
                && dib_header.BlueMask.is_some();
            if masked {
                let red_mask = mask_value(&dib_header.RedMask);
                let blue_mask = mask_value(&dib_header.BlueMask);
                let alpha_mask = mask_value(&dib_header.AlphaMask);
                if alpha_mask < red_mask {
                    if red_mask < blue_mask {
                        self.contents[start] = c[3];
                        self.contents[start + 1] = c[0];
                        self.contents[start + 2] = c[1];
                        self.contents[start + 3] = c[2];
                    } else {
                        self.contents[start] = c[3];
                        self.contents[start + 1] = c[2];
                        self.contents[start + 2] = c[1];
                        self.contents[start + 3] = c[0];
                    }
                } else {
                    if red_mask < blue_mask {
                        self.contents[start] = c[0];
                        self.contents[start + 1] = c[1];
                        self.contents[start + 2] = c[2];
                        self.contents[start + 3] = c[3];
                    } else {
                        self.contents[start] = c[2];
                        self.contents[start + 1] = c[1];
                        self.contents[start + 2] = c[0];
                        self.contents[start + 3] = c[3];
                    }
                }
                proof {
                    assert(has_pixel_masks(s));
                }
            } else {
                self.contents[start] = c[0];
                self.contents[start + 1] = c[1];
                self.contents[start + 2] = c[2];
                self.contents[start + 3] = c[3];
                proof {
                    assert(!has_pixel_masks(s));
                }
            }
        }
        proof {
            let s2 = self.contents@;
            let gs = group_size(s);
            assert(s2.subrange(start64 as int, start64 as int + gs) =~= spec_encoded_px(
                s,
                new_color@,
            ));
            lemma_write_effect(s, s2, x as int, y as int, spec_encoded_px(s, new_color@));
        }
        Ok(())
    }

    /// Writes `new_color` at pixel `(x, y)`, parsing the headers from the
    /// buffer first.  Same outcome as the efficient variant.
    pub fn change_color_of_pixel(&mut self, x: u16, y: u16, new_color: [u8; 4]) -> (r: Result<
        (),
        ErrorKind,
    >)
        ensures
            ({
                let s = old(self).contents@;
                &&& r == (if !editable(s) {
                    Err::<(), ErrorKind>(ErrorKind::Unsupported)
                } else if !(x < dib_width(s) && y < abs_height(s)) {
                    Err::<(), ErrorKind>(ErrorKind::DoesNotExist)
                } else {
                    Ok::<(), ErrorKind>(())
                })
                &&& (r is Err ==> *final(self) == *old(self))
                &&& (r is Ok ==> {
                    &&& final(self).from_file == old(self).from_file
                    &&& same_geometry(s, final(self).contents@)
                    &&& s.subrange(0, 14 + dib_size(s) as int) == final(self).contents@.subrange(
                        0,
                        14 + dib_size(s) as int,
                    )
                    &&& pixel_group(final(self).contents@, x as int, y as int) == spec_encoded_px(
                        s,
                        new_color@,
                    )
                    &&& forall|x2: int, y2: int|
                        0 <= x2 < dib_width(s) && 0 <= y2 < abs_height(s) && (x2, y2) != (
                        x as int,
                        y as int,
                        ) ==> pixel_group(final(self).contents@, x2, y2) == pixel_group(s, x2, y2)
                    &&& forall|i: int|
                        0 <= i < s.len() && !(group_off(s, x as int, y as int) <= i < group_off(
                            s,
                            x as int,
                            y as int,
                        ) + group_size(s)) ==> final(self).contents@[i] == s[i]
                })
            }),
    {
        let dib_header = match self.get_dib_header() {
            Ok(h) => h,
            Err(e) => {
                return Err(e);
            },
        };
        let header = self.get_header();
        self.change_color_of_pixel_efficient(x, y, new_color, &dib_header, &header)
    }
}

/// Whether the coordinate list `pts` contains `(x, y)`.
pub open spec fn contains_coord(pts: Seq<[u16; 2]>, x: int, y: int) -> bool {
    exists|k: int| 0 <= k < pts.len() && (#[trigger] pts[k])@[0] == x && pts[k]@[1] == y
}

/// Whether buffer offset `i` lies in the stored byte group of one of the
/// listed pixels.
pub open spec fn in_written_group(s: Seq<u8>, pts: Seq<[u16; 2]>, i: int) -> bool {
    exists|k: int|
        0 <= k < pts.len() && group_off(s, (#[trigger] pts[k])@[0] as int, pts[k]@[1] as int) <= i
            < group_off(s, pts[k]@[0] as int, pts[k]@[1] as int) + group_size(s)
}

impl BMP {
    /// Writes `new_color` at every listed pixel, parsing the headers once.
    /// Succeeds exactly when the image is editable and every coordinate is
    /// in bounds; an out-of-bounds coordinate stops the walk with
    /// `DoesNotExist`, the pixels already walked keeping their new color.
    pub fn change_color_of_pixels(&mut self, pixels: Vec<[u16; 2]>, new_color: [u8; 4]) -> (r:
        Result<(), ErrorKind>)
        ensures
            ({
                let s = old(self).contents@;
                &&& (r is Ok <==> editable(s) && (forall|k: int|
                    0 <= k < pixels@.len() ==> (#[trigger] pixels@[k])@[0] < dib_width(s)
                        && pixels@[k]@[1] < abs_height(s)))
                &&& (!editable(s) ==> r == Err::<(), ErrorKind>(ErrorKind::Unsupported)
                    && *final(self) == *old(self))
                &&& (editable(s) ==> {
                    &&& final(self).from_file == old(self).from_file
                    &&& same_geometry(s, final(self).contents@)
                    &&& s.subrange(0, 14 + dib_size(s) as int) == final(self).contents@.subrange(
                        0,
                        14 + dib_size(s) as int,
                    )
                    &&& (r is Err ==> r == Err::<(), ErrorKind>(ErrorKind::DoesNotExist))
                    &&& forall|x2: int, y2: int|
                        0 <= x2 < dib_width(s) && 0 <= y2 < abs_height(s) && !contains_coord(
                            pixels@,
                            x2,
                            y2,
                        ) ==> #[trigger] pixel_group(final(self).contents@, x2, y2) == pixel_group(
                            s,
                            x2,
                            y2,
                        )
                    &&& (r is Ok ==> forall|x2: int, y2: int|
                        0 <= x2 < dib_width(s) && 0 <= y2 < abs_height(s) && contains_coord(
                            pixels@,
                            x2,
                            y2,
                        ) ==> #[trigger] pixel_group(final(self).contents@, x2, y2)
                            == spec_encoded_px(s, new_color@))
                    &&& forall|i: int|
                        0 <= i < s.len() && !in_written_group(s, pixels@, i) ==> #[trigger] final(
                            self).contents@[i] == s[i]
                })
            }),
    {
        let ghost s = self.contents@;
        let ghost was_from_file = self.from_file;
        let dib_header = match self.get_dib_header() {
            Ok(h) => h,
            Err(e) => {
                return Err(e);
            },
        };
        if !self.is_editable(&dib_header) {
            return Err(ErrorKind::Unsupported);
        }
        proof {
            lemma_editable_rows(s);
        }
        let header = self.get_header();
        let ghost hdr_end = 14 + dib_size(s) as int;
        let mut k: usize = 0;
        while k < pixels.len()
            invariant
                s == old(self).contents@,
                was_from_file == old(self).from_file,
                editable(s),
                dib_header.wf(),
                pixel_matches(dib_header, s),
                pixel_matches(dib_header, self.contents@),
                dib_parse_ok(self.contents@),
                header.matches(self.contents@),
                same_geometry(s, self.contents@),
                hdr_end == 14 + dib_size(s),
                s.subrange(0, hdr_end) == self.contents@.subrange(0, hdr_end),
                self.from_file == was_from_file,
                k <= pixels@.len(),
                forall|j: int|
                    0 <= j < k ==> (#[trigger] pixels@[j])@[0] < dib_width(s) && pixels@[j]@[1]
                        < abs_height(s),
                forall|x2: int, y2: int|
                    0 <= x2 < dib_width(s) && 0 <= y2 < abs_height(s) && !contains_coord(
                        pixels@.subrange(0, k as int),
                        x2,
                        y2,
                    ) ==> #[trigger] pixel_group(self.contents@, x2, y2) == pixel_group(s, x2, y2),
                forall|x2: int, y2: int|
                    0 <= x2 < dib_width(s) && 0 <= y2 < abs_height(s) && contains_coord(
                        pixels@.subrange(0, k as int),
                        x2,
                        y2,
                    ) ==> #[trigger] pixel_group(self.contents@, x2, y2) == spec_encoded_px(
                        s,
                        new_color@,
                    ),
                forall|i: int|
                    0 <= i < s.len() && !in_written_group(s, pixels@.subrange(0, k as int), i)
                        ==> #[trigger] self.contents@[i] == s[i],
            decreases pixels@.len() - k,
        {
            let px = pixels[k];
            let ghost cur = self.contents@;
            let res = self.change_color_of_pixel_efficient(
                px[0],
                px[1],
                new_color,
                &dib_header,
                &header,
            );
            match res {
                Ok(_) => {},
                Err(_) => {
                    proof {
                        assert(!(px@[0] < dib_width(s) && px@[1] < abs_height(s)));
                        assert(pixels@[k as int] == px);
                        assert(exists|j: int|
                            0 <= j < pixels@.len() && !((#[trigger] pixels@[j])@[0] < dib_width(s)
                                && pixels@[j]@[1] < abs_height(s))) by {
                            assert((k as int) < pixels@.len() && !((pixels@[k as int])@[0]
                                < dib_width(s) && pixels@[k as int]@[1] < abs_height(s)));
                        }
                    }
                    return Err(ErrorKind::DoesNotExist);
                },
            }
            proof {
                let now = self.contents@;
                lemma_matches_preserved(dib_header, header, cur, now);
                assert(s.subrange(0, hdr_end) == now.subrange(0, hdr_end));
                assert(spec_encoded_px(cur, new_color@) == spec_encoded_px(s, new_color@));
                assert(pixels@.subrange(0, k + 1).drop_last() =~= pixels@.subrange(0, k as int));
                assert forall|x2: int, y2: int|
                    0 <= x2 < dib_width(s) && 0 <= y2 < abs_height(s) && !contains_coord(
                        pixels@.subrange(0, k + 1),
                        x2,
                        y2,
                    ) implies #[trigger] pixel_group(now, x2, y2) == pixel_group(s, x2, y2) by {
                    assert(!contains_coord(pixels@.subrange(0, k as int), x2, y2)) by {
                        if contains_coord(pixels@.subrange(0, k as int), x2, y2) {
                            let j = choose|j: int|
                                0 <= j < pixels@.subrange(0, k as int).len() && (
                                #[trigger] pixels@.subrange(0, k as int)[j])@[0] == x2
                                    && pixels@.subrange(0, k as int)[j]@[1] == y2;
                            assert(pixels@.subrange(0, k + 1)[j] == pixels@.subrange(
                                0,
                                k as int,
                            )[j]);
                        }
                    }
                    assert((x2, y2) != (px@[0] as int, px@[1] as int)) by {
                        assert(pixels@.subrange(0, k + 1)[k as int] == px);
                    }
                    assert(pixel_group(now, x2, y2) == pixel_group(cur, x2, y2));
                }
                assert forall|x2: int, y2: int|
                    0 <= x2 < dib_width(s) && 0 <= y2 < abs_height(s) && contains_coord(
                        pixels@.subrange(0, k + 1),
                        x2,
                        y2,
                    ) implies #[trigger] pixel_group(now, x2, y2) == spec_encoded_px(
                    s,
                    new_color@,
                ) by {
                    if (x2, y2) == (px@[0] as int, px@[1] as int) {
                        assert(pixel_group(now, x2, y2) == spec_encoded_px(s, new_color@));
                    } else {
                        assert(contains_coord(pixels@.subrange(0, k as int), x2, y2)) by {
                            let j = choose|j: int|
                                0 <= j < pixels@.subrange(0, k + 1).len() && (
                                #[trigger] pixels@.subrange(0, k + 1)[j])@[0] == x2
                                    && pixels@.subrange(0, k + 1)[j]@[1] == y2;
                            assert(j < k + 1);
                            assert(pixels@.subrange(0, k + 1)[k as int] == px);
                            assert(j != k);
                            assert(pixels@.subrange(0, k as int)[j] == pixels@.subrange(
                                0,
                                k + 1,
                            )[j]);
                        }
                        assert(pixel_group(now, x2, y2) == pixel_group(cur, x2, y2));
                    }
                }
                assert forall|i: int|
                    0 <= i < s.len() && !in_written_group(s, pixels@.subrange(0, k + 1), i)
                        implies #[trigger] now[i] == s[i] by {
                    assert(!in_written_group(s, pixels@.subrange(0, k as int), i)) by {
                        if in_written_group(s, pixels@.subrange(0, k as int), i) {
                            let j = choose|j: int|
                                0 <= j < pixels@.subrange(0, k as int).len() && group_off(
                                    s,
                                    (#[trigger] pixels@.subrange(0, k as int)[j])@[0] as int,
                                    pixels@.subrange(0, k as int)[j]@[1] as int,
                                ) <= i < group_off(
                                    s,
                                    pixels@.subrange(0, k as int)[j]@[0] as int,
                                    pixels@.subrange(0, k as int)[j]@[1] as int,
                                ) + group_size(s);
                            assert(pixels@.subrange(0, k + 1)[j] == pixels@.subrange(
                                0,
                                k as int,
                            )[j]);
                        }
                    }
                    assert(!(group_off(s, px@[0] as int, px@[1] as int) <= i < group_off(
                        s,
                        px@[0] as int,
                        px@[1] as int,
                    ) + group_size(s))) by {
                        assert(pixels@.subrange(0, k + 1)[k as int] == px);
                    }
                    assert(now[i] == cur[i]);
                }
            }
            k = k + 1;
        }
        proof {
            assert(pixels@.subrange(0, pixels@.len() as int) =~= pixels@);
        }
        Ok(())
    }
}

/// The mask under `Some`, for headers whose layout guarantees it present.
fn mask_value(v: &Option<u32>) -> (r: u32)
    requires
        v is Some,
    ensures
        r == v->0,
{
    match v {
        Some(x) => *x,
        None => {
            proof {
                assert(false);
            }
            vstd::pervasive::unreached()
        },
    }
}

} // verus!
