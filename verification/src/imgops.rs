//! Image-level operations: stamping one image onto another with alpha
//! compositing, translation onto a fresh transparent canvas, and the
//! channel-order name of the pixel format.

use vstd::prelude::*;

use crate::bmp::BMP;
use crate::color::spec_composite;
use crate::errors::ErrorKind;
use crate::header::{dib_bitcount, dib_comp_code, dib_height, dib_parse_ok, dib_size, dib_width,
    Compression};
use crate::image::{has_pixel_masks, pixel_matches, plane_shaped, resolved_px, spec_resolve,
    spec_resolve_group};
use crate::plane::{abs_height, editable, group_size, lemma_editable_rows, lemma_group_in_bounds,
    num_rows, pixel_group, same_geometry};
use crate::write::{lemma_encode_resolve, lemma_matches_preserved, spec_encoded_px, spec_readback};

verus! {

/// The stamped color: the source pixel where both layers are fully
/// opaque, else the Porter-Duff composite of source over destination.
pub open spec fn spec_blend(src: Seq<u8>, dst: Seq<u8>) -> Seq<u8>
    recommends
        src.len() == 4,
        dst.len() == 4,
{
    if src[3] == 255 && dst[3] == 255 {
        src
    } else {
        spec_composite(src, dst)
    }
}

impl BMP {
    /// Stamps `bmp2` onto this image with its top-left corner at `(x, y)`:
    /// every covered pixel becomes the blend of the source pixel over the
    /// destination pixel it covers, both read before any write.  Fails
    /// `Unsupported` unless both images are editable, and `DoesNotExist`
    /// when the stamp does not fit, leaving the image untouched.
    pub fn draw_image(&mut self, x: u16, y: u16, bmp2: BMP) -> (r: Result<(), ErrorKind>)
        ensures
            ({
                let s = old(self).contents@;
                let s2 = bmp2.contents@;
                &&& r == (if !(editable(s) && editable(s2)) {
                    Err::<(), ErrorKind>(ErrorKind::Unsupported)
                } else if !(x + dib_width(s2) <= dib_width(s) && y + abs_height(s2) <= abs_height(
                    s,
                )) {
                    Err::<(), ErrorKind>(ErrorKind::DoesNotExist)
                } else {
                    Ok::<(), ErrorKind>(())
                })
                &&& (r is Err ==> *final(self) == *old(self))
                &&& (r is Ok ==> {
                    &&& final(self).from_file == old(self).from_file
                    &&& same_geometry(s, final(self).contents@)
                    &&& (forall|j: int, i: int|
                        0 <= j < dib_width(s2) && 0 <= i < abs_height(s2)
                            ==> #[trigger] spec_resolve(final(self).contents@, x + j, y + i) == Ok::<
                            Seq<u8>,
                            ErrorKind,
                        >(
                            spec_readback(
                                s,
                                spec_blend(resolved_px(s2, j, i), resolved_px(s, x + j, y + i)),
                            ),
                        ))
                    &&& (forall|x2: int, y2: int|
                        0 <= x2 < dib_width(s) && 0 <= y2 < abs_height(s) && !(x <= x2 < x
                            + dib_width(s2) && y <= y2 < y + abs_height(s2)) ==> #[trigger]
                        pixel_group(final(self).contents@, x2, y2) == pixel_group(s, x2, y2))
                })
            }),
    {
        let ghost s = self.contents@;
        let ghost s2 = bmp2.contents@;
        let ghost was_from_file = self.from_file;
        let dib_header = match self.get_dib_header() {
            Ok(h) => h,
            Err(e) => {
                return Err(e);
            },
        };
        if !self.is_editable(&dib_header) {
            return Err(ErrorKind::Unsupported);
        }
        let dib2 = match bmp2.get_dib_header() {
            Ok(h) => h,
            Err(e) => {
                return Err(e);
            },
        };
        if !bmp2.is_editable(&dib2) {
            return Err(ErrorKind::Unsupported);
        }
        proof {
            lemma_editable_rows(s);
            lemma_editable_rows(s2);
        }
        let header = self.get_header();
        let colors = self.snapshot_colors(&dib_header);
        let colors2 = bmp2.snapshot_colors(&dib2);
        let width: u16 = dib_header.width as u16;
        let habs: u16 = if dib_header.height < 0 {
            (((-(dib_header.height as i64)) as u64) as u32) as u16
        } else {
            (dib_header.height as u32) as u16
        };
        let w2: u16 = dib2.width as u16;
        let h2: u16 = if dib2.height < 0 {
            (((-(dib2.height as i64)) as u64) as u32) as u16
        } else {
            (dib2.height as u32) as u16
        };
        proof {
            assert(habs == abs_height(s) && width == dib_width(s));
            assert(h2 == abs_height(s2) && w2 == dib_width(s2));
        }
        if x as u32 + w2 as u32 > width as u32 || y as u32 + h2 as u32 > habs as u32 {
            return Err(ErrorKind::DoesNotExist);
        }
        let ghost hdr_end = 14 + dib_size(s) as int;
        let mut i: u16 = 0;
        while i < h2
            invariant
                s == old(self).contents@,
                s2 == bmp2.contents@,
                was_from_file == old(self).from_file,
                editable(s),
                editable(s2),
                dib_header.wf(),
                dib2.wf(),
                pixel_matches(dib_header, s),
                pixel_matches(dib_header, self.contents@),
                pixel_matches(dib2, s2),
                dib_parse_ok(self.contents@),
                dib_parse_ok(s2),
                header.matches(self.contents@),
                same_geometry(s, self.contents@),
                hdr_end == 14 + dib_size(s),
                s.subrange(0, hdr_end) == self.contents@.subrange(0, hdr_end),
                self.from_file == was_from_file,
                width == dib_width(s),
                habs == abs_height(s),
                w2 == dib_width(s2),
                h2 == abs_height(s2),
                x + w2 <= width,
                y + h2 <= habs,
                i <= h2,
                colors@.len() == abs_height(s),
                forall|jj: int| 0 <= jj < habs ==> (#[trigger] colors@[jj])@.len() == width,
                forall|jj: int, ii: int|
                    0 <= jj < habs && 0 <= ii < width ==> (#[trigger] colors@[jj]@[ii])@
                        == resolved_px(s, ii, jj),
                colors2@.len() == abs_height(s2),
                forall|jj: int| 0 <= jj < h2 ==> (#[trigger] colors2@[jj])@.len() == w2,
                forall|jj: int, ii: int|
                    0 <= jj < h2 && 0 <= ii < w2 ==> (#[trigger] colors2@[jj]@[ii])@ == resolved_px(
                        s2,
                        ii,
                        jj,
                    ),
                forall|j2: int, i2: int|
                    0 <= j2 < w2 && 0 <= i2 < h2 && i2 < i ==> #[trigger] pixel_group(
                        self.contents@,
                        x + j2,
                        y + i2,
                    ) == spec_encoded_px(
                        s,
                        spec_blend(resolved_px(s2, j2, i2), resolved_px(s, x + j2, y + i2)),
                    ),
                forall|x2: int, y2: int|
                    0 <= x2 < dib_width(s) && 0 <= y2 < abs_height(s) && !(x <= x2 < x + w2 && y <= y2
                        < y + i) ==> #[trigger] pixel_group(self.contents@, x2, y2) == pixel_group(
                        s,
                        x2,
                        y2,
                    ),
            decreases h2 - i,
        {
            let mut j: u16 = 0;
            while j < w2
                invariant
                    s == old(self).contents@,
                    s2 == bmp2.contents@,
                    was_from_file == old(self).from_file,
                    editable(s),
                    editable(s2),
                    dib_header.wf(),
                    dib2.wf(),
                    pixel_matches(dib_header, s),
                    pixel_matches(dib_header, self.contents@),
                    pixel_matches(dib2, s2),
                    dib_parse_ok(self.contents@),
                    dib_parse_ok(s2),
                    header.matches(self.contents@),
                    same_geometry(s, self.contents@),
                    hdr_end == 14 + dib_size(s),
                    s.subrange(0, hdr_end) == self.contents@.subrange(0, hdr_end),
                    self.from_file == was_from_file,
                    width == dib_width(s),
                    habs == abs_height(s),
                    w2 == dib_width(s2),
                    h2 == abs_height(s2),
                    x + w2 <= width,
                    y + h2 <= habs,
                    i < h2,
                    j <= w2,
                    colors@.len() == abs_height(s),
                    forall|jj: int| 0 <= jj < habs ==> (#[trigger] colors@[jj])@.len() == width,
                    forall|jj: int, ii: int|
                        0 <= jj < habs && 0 <= ii < width ==> (#[trigger] colors@[jj]@[ii])@
                            == resolved_px(s, ii, jj),
                    colors2@.len() == abs_height(s2),
                    forall|jj: int| 0 <= jj < h2 ==> (#[trigger] colors2@[jj])@.len() == w2,
                    forall|jj: int, ii: int|
                        0 <= jj < h2 && 0 <= ii < w2 ==> (#[trigger] colors2@[jj]@[ii])@
                            == resolved_px(s2, ii, jj),
                    forall|j2: int, i2: int|
                        0 <= j2 < w2 && 0 <= i2 < h2 && (i2 < i || (i2 == i && j2 < j))
                            ==> #[trigger] pixel_group(self.contents@, x + j2, y + i2)
                            == spec_encoded_px(
                            s,
                            spec_blend(resolved_px(s2, j2, i2), resolved_px(s, x + j2, y + i2)),
                        ),
                    forall|x2: int, y2: int|
                        0 <= x2 < dib_width(s) && 0 <= y2 < abs_height(s) && !(x <= x2 < x + w2 && y
                            <= y2 < y + i + 1) ==> #[trigger] pixel_group(self.contents@, x2, y2)
                            == pixel_group(s, x2, y2),
                    forall|x2: int, y2: int|
                        0 <= x2 < dib_width(s) && 0 <= y2 < abs_height(s) && y2 == y + i && x + j
                            <= x2 < x + w2 ==> #[trigger] pixel_group(self.contents@, x2, y2)
                            == pixel_group(s, x2, y2),
                decreases w2 - j,
            {
                let dst_x: u16 = x + j;
                let dst_y: u16 = y + i;
                let src_color = colors2[i as usize][j as usize];
                let dst_color = colors[dst_y as usize][dst_x as usize];
                proof {
                    assert(src_color@ == resolved_px(s2, j as int, i as int));
                    assert(dst_color@ == resolved_px(s, dst_x as int, dst_y as int));
                }
                let new_color: [u8; 4] = if src_color[3] == 255 && dst_color[3] == 255 {
                    src_color
                } else {
                    BMP::composite_colors(src_color, dst_color)
                };
                proof {
                    assert(new_color@ == spec_blend(src_color@, dst_color@));
                }
                let ghost cur = self.contents@;
                let res = self.change_color_of_pixel_efficient(
                    dst_x,
                    dst_y,
                    new_color,
                    &dib_header,
                    &header,
                );
                proof {
                    assert(res is Ok);
                    let now = self.contents@;
                    assert(s.subrange(0, hdr_end) == now.subrange(0, hdr_end));
                    lemma_matches_preserved(dib_header, header, cur, now);
                    assert(spec_encoded_px(cur, new_color@) == spec_encoded_px(s, new_color@));
                    assert forall|x2: int, y2: int|
                        0 <= x2 < dib_width(s) && 0 <= y2 < abs_height(s) && (x2, y2) != (
                        dst_x as int,
                        dst_y as int,
                        ) implies #[trigger] pixel_group(now, x2, y2) == pixel_group(cur, x2, y2)
                        by {}
                }
                j = j + 1;
            }
            i = i + 1;
        }
        proof {
            let now = self.contents@;
            assert forall|j2: int, i2: int|
                0 <= j2 < dib_width(s2) && 0 <= i2 < abs_height(s2) implies #[trigger]
            spec_resolve(now, x + j2, y + i2) == Ok::<Seq<u8>, ErrorKind>(
                spec_readback(
                    s,
                    spec_blend(resolved_px(s2, j2, i2), resolved_px(s, x + j2, y + i2)),
                ),
            ) by {
                lemma_editable_rows(s);
                let c = spec_blend(resolved_px(s2, j2, i2), resolved_px(s, x + j2, y + i2));
                assert(c.len() == 4) by {
                    lemma_resolved_len4(s2, j2, i2);
                    lemma_resolved_len4(s, x + j2, y + i2);
                }
                lemma_encode_resolve(s, c);
                assert(spec_resolve_group(now, spec_encoded_px(s, c)) == spec_resolve_group(
                    s,
                    spec_encoded_px(s, c),
                ));
                assert(pixel_group(now, x + j2, y + i2) == spec_encoded_px(s, c));
                assert(spec_resolve(now, x + j2, y + i2) == spec_resolve_group(
                    now,
                    pixel_group(now, x + j2, y + i2),
                ));
            }
        }
        Ok(())
    }

    /// Moves the whole image by `(x, y)` on a fresh transparent canvas of
    /// the same dimensions (always rebuilt as a 124-byte-header 32-bit
    /// image): a destination pixel shows the source pixel it came from, or
    /// transparent white where none lands.  Sources that leave the canvas
    /// are dropped.
    pub fn translate(&mut self, x: i16, y: i16) -> (r: Result<(), ErrorKind>)
        ensures
            ({
                let s = old(self).contents@;
                &&& r == (if !editable(s) || 138 + 4 * abs_height(s) * dib_width(s) > u32::MAX {
                    Err::<(), ErrorKind>(ErrorKind::Unsupported)
                } else {
                    Ok::<(), ErrorKind>(())
                })
                &&& (r is Err ==> *final(self) == *old(self))
                &&& (r is Ok ==> {
                    &&& final(self).from_file == old(self).from_file
                    &&& editable(final(self).contents@)
                    &&& dib_width(final(self).contents@) == dib_width(s)
                    &&& dib_height(final(self).contents@) == dib_height(s)
                    &&& dib_bitcount(final(self).contents@) == 32
                    &&& forall|x2: int, y2: int|
                        0 <= x2 < dib_width(s) && 0 <= y2 < abs_height(s) ==> #[trigger]
                        spec_resolve(final(self).contents@, x2, y2) == Ok::<Seq<u8>, ErrorKind>(
                            if 0 <= x2 - x < dib_width(s) && 0 <= y2 - y < abs_height(s) {
                                spec_readback(s, resolved_px(s, x2 - x, y2 - y))
                            } else {
                                seq![255u8, 255u8, 255u8, 0u8]
                            },
                        )
                })
            }),
    {
        let ghost s = self.contents@;
        let dib_header = match self.get_dib_header() {
            Ok(h) => h,
            Err(e) => {
                return Err(e);
            },
        };
        if !self.is_editable(&dib_header) {
            return Err(ErrorKind::Unsupported);
        }
        proof {
            lemma_editable_rows(s);
        }
        let colors = self.snapshot_colors(&dib_header);
        let width: u16 = dib_header.width as u16;
        let habs: u16 = if dib_header.height < 0 {
            (((-(dib_header.height as i64)) as u64) as u32) as u16
        } else {
            (dib_header.height as u32) as u16
        };
        proof {
            assert(habs == abs_height(s) && width == dib_width(s));
        }
        proof {
            assert((4 * (habs as int)) * (width as int) <= 4 * 0xFFFF * 0xFFFF)
                by (nonlinear_arith)
                requires
                    habs <= 0xFFFF,
                    width <= 0xFFFF,
            ;
        }
        let need: u64 = 138 + (4 * (habs as u64)) * (width as u64);
        if need > u32::MAX as u64 {
            return Err(ErrorKind::Unsupported);
        }
        proof {
            assert(4 * (habs as int) * (width as int) == (4 * (habs as int)) * (width as int))
                by (nonlinear_arith);
            assert(138 + 4 * crate::create::spec_abs(dib_header.height as int)
                * dib_header.width <= u32::MAX);
        }
        // Rebuild on a transparent canvas and stamp the moved pixels.
        let fresh = BMP::new(dib_header.height, dib_header.width, Some([255, 255, 255, 0]));
        let ghost was_from_file = self.from_file;
        self.contents = fresh.contents;
        let ghost ns0 = self.contents@;
        proof {
            assert(editable(ns0));
            lemma_editable_rows(ns0);
        }
        let new_dib = match self.get_dib_header() {
            Ok(h) => h,
            Err(_) => {
                proof {
                    assert(false);
                }
                vstd::pervasive::unreached()
            },
        };
        let new_header = self.get_header();
        let ghost nhdr_end = 14 + dib_size(ns0) as int;
        let mut row2: u16 = 0;
        while row2 < habs
            invariant
                editable(ns0),
                dib_width(ns0) == width,
                abs_height(ns0) == habs,
                abs_height(ns0) == habs,
                habs <= 0xFFFF,
                width >= 1,
                new_dib.wf(),
                pixel_matches(new_dib, ns0),
                pixel_matches(new_dib, self.contents@),
                dib_parse_ok(self.contents@),
                new_header.matches(self.contents@),
                same_geometry(ns0, self.contents@),
                nhdr_end == 14 + dib_size(ns0),
                ns0.subrange(0, nhdr_end) == self.contents@.subrange(0, nhdr_end),
                self.from_file == was_from_file,
                row2 <= habs,
                colors@.len() == habs,
                forall|r2: int| 0 <= r2 < habs ==> (#[trigger] colors@[r2])@.len() == width,
                forall|r2: int, c2: int|
                    0 <= r2 < habs && 0 <= c2 < width ==> (#[trigger] colors@[r2]@[c2])@
                        == resolved_px(s, c2, r2),
                forall|dx2: int, dy2: int|
                    0 <= dx2 < width && 0 <= dy2 < habs && 0 <= dx2 - x < width && 0 <= dy2 - y
                        && dy2 - y < row2 ==> #[trigger] pixel_group(self.contents@, dx2, dy2)
                        == spec_encoded_px(ns0, colors@[dy2 - y]@[dx2 - x]@),
                forall|dx2: int, dy2: int|
                    0 <= dx2 < width && 0 <= dy2 < abs_height(ns0) && !(0 <= dx2 - x < width && 0
                        <= dy2 - y && dy2 - y < row2 && dy2 - y < habs) ==> #[trigger] pixel_group(
                        self.contents@,
                        dx2,
                        dy2,
                    ) == pixel_group(ns0, dx2, dy2),
            decreases habs - row2,
        {
            let mut col2: u16 = 0;
            while col2 < width
                invariant
                    editable(ns0),
                    dib_width(ns0) == width,
                    abs_height(ns0) == habs,
                    abs_height(ns0) == habs,
                    habs <= 0xFFFF,
                    width >= 1,
                    new_dib.wf(),
                    pixel_matches(new_dib, ns0),
                    pixel_matches(new_dib, self.contents@),
                    dib_parse_ok(self.contents@),
                    new_header.matches(self.contents@),
                    same_geometry(ns0, self.contents@),
                    nhdr_end == 14 + dib_size(ns0),
                    ns0.subrange(0, nhdr_end) == self.contents@.subrange(0, nhdr_end),
                    self.from_file == was_from_file,
                    row2 < habs,
                    col2 <= width,
                    colors@.len() == habs,
                    forall|r2: int| 0 <= r2 < habs ==> (#[trigger] colors@[r2])@.len() == width,
                    forall|r2: int, c2: int|
                        0 <= r2 < habs && 0 <= c2 < width ==> (#[trigger] colors@[r2]@[c2])@
                            == resolved_px(s, c2, r2),
                    forall|dx2: int, dy2: int|
                        0 <= dx2 < width && 0 <= dy2 < habs && 0 <= dx2 - x < width && 0 <= dy2 - y
                            && (dy2 - y < row2 || (dy2 - y == row2 && dx2 - x < col2)) ==> #[trigger]
                        pixel_group(self.contents@, dx2, dy2) == spec_encoded_px(
                            ns0,
                            colors@[dy2 - y]@[dx2 - x]@,
                        ),
                    forall|dx2: int, dy2: int|
                        0 <= dx2 < width && 0 <= dy2 < abs_height(ns0) && !(0 <= dx2 - x < width && 0
                            <= dy2 - y && dy2 - y < habs && (dy2 - y < row2 || (dy2 - y == row2
                            && dx2 - x < col2))) ==> #[trigger] pixel_group(
                            self.contents@,
                            dx2,
                            dy2,
                        ) == pixel_group(ns0, dx2, dy2),
                decreases width - col2,
            {
                let tx: i32 = col2 as i32 + x as i32;
                let ty: i32 = row2 as i32 + y as i32;
                if tx >= 0 && tx < width as i32 && ty >= 0 && ty < habs as i32 {
                    let color = colors[row2 as usize][col2 as usize];
                    let ghost cur = self.contents@;
                    let res = self.change_color_of_pixel_efficient(
                        tx as u16,
                        ty as u16,
                        color,
                        &new_dib,
                        &new_header,
                    );
                    proof {
                        assert(res is Ok);
                        let now = self.contents@;
                        assert(ns0.subrange(0, nhdr_end) == now.subrange(0, nhdr_end));
                        lemma_matches_preserved(new_dib, new_header, cur, now);
                        assert(spec_encoded_px(cur, color@) == spec_encoded_px(ns0, color@));
                        assert(pixel_group(now, tx as int, ty as int) == spec_encoded_px(
                            ns0,
                            colors@[row2 as int]@[col2 as int]@,
                        ));
                        assert forall|dx2: int, dy2: int|
                            0 <= dx2 < width && 0 <= dy2 < abs_height(ns0) && (dx2, dy2) != (
                            tx as int,
                            ty as int,
                            ) implies #[trigger] pixel_group(now, dx2, dy2) == pixel_group(
                            cur,
                            dx2,
                            dy2,
                        ) by {}
                    }
                }
                col2 = col2 + 1;
            }
            row2 = row2 + 1;
        }
        proof {
            let now = self.contents@;
            assert forall|x2: int, y2: int|
                0 <= x2 < dib_width(s) && 0 <= y2 < abs_height(s) implies #[trigger] spec_resolve(
                now,
                x2,
                y2,
            ) == Ok::<Seq<u8>, ErrorKind>(
                if 0 <= x2 - x < dib_width(s) && 0 <= y2 - y < abs_height(s) {
                    spec_readback(s, resolved_px(s, x2 - x, y2 - y))
                } else {
                    seq![255u8, 255u8, 255u8, 0u8]
                },
            ) by {
                lemma_editable_rows(ns0);
                if 0 <= x2 - x < dib_width(s) && 0 <= y2 - y < abs_height(s) {
                    let c = colors@[y2 - y]@[x2 - x]@;
                    assert(c == resolved_px(s, x2 - x, y2 - y));
                    assert(pixel_group(now, x2, y2) == spec_encoded_px(ns0, c));
                    assert(c.len() == 4) by {
                        lemma_resolved_len4(s, x2 - x, y2 - y);
                    }
                    lemma_encode_resolve(ns0, c);
                    assert(spec_resolve_group(now, spec_encoded_px(ns0, c)) == spec_resolve_group(
                        ns0,
                        spec_encoded_px(ns0, c),
                    ));
                    assert(spec_resolve(now, x2, y2) == spec_resolve_group(
                        now,
                        pixel_group(now, x2, y2),
                    ));
                    assert(spec_readback(ns0, c) == c);
                    // The source color survives the move unchanged; a 24-bit
                    // source was already fully opaque.
                    assert(spec_readback(s, c) == c) by {
                        lemma_resolved_alpha(s, x2 - x, y2 - y);
                    }
                } else {
                    assert(pixel_group(now, x2, y2) == pixel_group(ns0, x2, y2));
                    assert(spec_resolve(ns0, x2, y2) == Ok::<Seq<u8>, ErrorKind>(
                        seq![255u8, 255u8, 255u8, 0u8],
                    ));
                    assert(spec_resolve(now, x2, y2) == spec_resolve_group(
                        now,
                        pixel_group(now, x2, y2),
                    ));
                    assert(spec_resolve(ns0, x2, y2) == spec_resolve_group(
                        ns0,
                        pixel_group(ns0, x2, y2),
                    ));
                    assert(spec_resolve_group(now, pixel_group(ns0, x2, y2))
                        == spec_resolve_group(ns0, pixel_group(ns0, x2, y2)));
                }
            }
        }
        Ok(())
    }

    /// The channel-order name of the pixel format, as the mask-magnitude
    /// heuristic infers it: one of "rgb", "brg", "bgr", "rgba", "bgra",
    /// "argb", "abgr", or "color table" for palette-indexed depths.
    pub fn get_format(&self) -> (r: String)
        requires
            dib_parse_ok(self.contents@),
        ensures
            r@ == spec_format(self.contents@),
    {
        let ghost s = self.contents@;
        let dib_header = match self.get_dib_header() {
            Ok(h) => h,
            Err(_) => {
                proof {
                    assert(false);
                }
                vstd::pervasive::unreached()
            },
        };
        if dib_header.bitcount == 16 {
            let masked = (match dib_header.compression {
                Some(Compression::BiBitfields) => true,
                _ => false,
            }) && dib_header.RedMask.is_some() && dib_header.BlueMask.is_some();
            if masked {
                let red_mask = dib_header.RedMask.unwrap();
                let blue_mask = dib_header.BlueMask.unwrap();
                if red_mask < blue_mask {
                    String::from_str("rgb")
                } else {
                    String::from_str("brg")
                }
            } else {
                String::from_str("rgb")
            }
        } else if dib_header.bitcount == 24 {
            String::from_str("bgr")
        } else if dib_header.bitcount == 32 {
            let masked = (match dib_header.compression {
                Some(Compression::BiBitfields) => true,
                Some(Compression::BiAlphabitfields) => true,
                _ => false,
            }) && dib_header.RedMask.is_some() && dib_header.BlueMask.is_some()
                && dib_header.AlphaMask.is_some();
            if masked {
                let red_mask = dib_header.RedMask.unwrap();
                let blue_mask = dib_header.BlueMask.unwrap();
                let alpha_mask = dib_header.AlphaMask.unwrap();
                if alpha_mask < red_mask {
                    if red_mask < blue_mask {
                        String::from_str("argb")
                    } else {
                        String::from_str("abgr")
                    }
                } else {
                    if red_mask < blue_mask {
                        String::from_str("rgba")
                    } else {
                        String::from_str("bgra")
                    }
                }
            } else {
                String::from_str("rgba")
            }
        } else {
            String::from_str("color table")
        }
    }
}

/// The channel-order name `get_format` reports.
pub open spec fn spec_format(s: Seq<u8>) -> Seq<char> {
    if dib_bitcount(s) == 16 {
        if dib_size(s) > 40 && dib_comp_code(s) == 3 {
            if crate::header::dib_red_mask(s) < crate::header::dib_blue_mask(s) {
                "rgb"@
            } else {
                "brg"@
            }
        } else {
            "rgb"@
        }
    } else if dib_bitcount(s) == 24 {
        "bgr"@
    } else if dib_bitcount(s) == 32 {
        if has_pixel_masks(s) {
            if crate::header::dib_alpha_mask(s) < crate::header::dib_red_mask(s) {
                if crate::header::dib_red_mask(s) < crate::header::dib_blue_mask(s) {
                    "argb"@
                } else {
                    "abgr"@
                }
            } else {
                if crate::header::dib_red_mask(s) < crate::header::dib_blue_mask(s) {
                    "rgba"@
                } else {
                    "bgra"@
                }
            }
        } else {
            "rgba"@
        }
    } else {
        "color table"@
    }
}

/// Every resolved color of an editable image has four channels.
proof fn lemma_resolved_len4(s: Seq<u8>, x: int, y: int)
    requires
        editable(s),
        0 <= x < dib_width(s),
        0 <= y < abs_height(s),
    ensures
        resolved_px(s, x, y).len() == 4,
{
    lemma_editable_rows(s);
    lemma_group_in_bounds(s, x, y);
}

/// At 24 bits a resolved color is fully opaque; at 32 bits nothing is
/// claimed, so the readback of any resolved color is itself.
proof fn lemma_resolved_alpha(s: Seq<u8>, x: int, y: int)
    requires
        editable(s),
        0 <= x < dib_width(s),
        0 <= y < abs_height(s),
    ensures
        spec_readback(s, resolved_px(s, x, y)) == resolved_px(s, x, y),
{
    lemma_editable_rows(s);
    if dib_bitcount(s) == 24 {
        assert(resolved_px(s, x, y)[3] == 255);
        assert(spec_readback(s, resolved_px(s, x, y)) =~= resolved_px(s, x, y));
    }
}

} // verus!
