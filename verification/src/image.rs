//! Reading pixel colors: every raw byte group resolves to one canonical
//! RGBA value, fixed by the header's bit depth, compression and masks.
//!
//! Channel order for bitfield formats is inferred by comparing the numeric
//! magnitudes of the red, blue and alpha masks (valid for byte-aligned
//! 8-bit-per-channel masks): a smaller alpha mask puts alpha in the leading
//! byte, and a smaller red mask puts red before blue.

use vstd::bytes::spec_u16_from_le_bytes;
use vstd::prelude::*;

use crate::bmp::BMP;
use crate::errors::ErrorKind;
use crate::header::{dib_alpha_mask, dib_bitcount, dib_blue_mask, dib_comp_code, dib_height,
    dib_parse_ok, dib_red_mask, dib_size, dib_width, Compression, DIBHEADER};
use crate::plane::{abs_height, editable, frame_ok, group_size, is_decoded_plane, num_rows, pixel_group, plane_ok};
use crate::table::{table_entry_rgba, table_error, table_len, ColorTable};

use std::collections::VecDeque;

verus! {

/// How many rows the decoded plane has: none at all for a zero height.
pub open spec fn plane_rows(s: Seq<u8>) -> int {
    if dib_height(s) == 0 {
        0
    } else {
        num_rows(s)
    }
}

/// Whether pixels are laid out by the header's channel masks: a header
/// above 40 bytes whose compression is BI_BITFIELDS or BI_ALPHABITFIELDS.
pub open spec fn has_pixel_masks(s: Seq<u8>) -> bool {
    dib_size(s) > 40 && (dib_comp_code(s) == 3 || dib_comp_code(s) == 6)
}

/// The RGBA color of a 4-byte group under mask-inferred channel order.
pub open spec fn perm32(s: Seq<u8>, g: Seq<u8>) -> Seq<u8>
    recommends
        g.len() == 4,
{
    if dib_alpha_mask(s) < dib_red_mask(s) {
        if dib_red_mask(s) < dib_blue_mask(s) {
            seq![g[1], g[2], g[3], g[0]]
        } else {
            seq![g[3], g[2], g[1], g[0]]
        }
    } else {
        if dib_red_mask(s) < dib_blue_mask(s) {
            g
        } else {
            seq![g[2], g[1], g[0], g[3]]
        }
    }
}

/// Resolves one raw byte group to its RGBA color under the header of
/// buffer `s`: BGR plus opaque alpha at 24 bits, direct or mask-permuted
/// at 32, a palette lookup for indexed depths; 16-bit bitfield layouts
/// have no defined byte-aligned channel order and are unsupported.
pub open spec fn spec_resolve_group(s: Seq<u8>, g: Seq<u8>) -> Result<Seq<u8>, ErrorKind> {
    let bc = dib_bitcount(s);
    if bc == 24 {
        Ok(seq![g[2], g[1], g[0], 255u8])
    } else if bc == 32 {
        if has_pixel_masks(s) {
            Ok(perm32(s, g))
        } else {
            Ok(g)
        }
    } else if bc == 16 && dib_size(s) > 40 && dib_comp_code(s) == 3 {
        Err(ErrorKind::Unsupported)
    } else {
        match table_error(s) {
            Some(e) => Err(e),
            None => {
                let idx = if bc == 16 {
                    spec_u16_from_le_bytes(g) as int
                } else {
                    g[0] as int
                };
                if idx < table_len(s) {
                    Ok(table_entry_rgba(s, idx))
                } else {
                    Err(ErrorKind::DoesNotExist)
                }
            },
        }
    }
}

/// The color of image pixel `(x, y)` of buffer `s`, or why it has none:
/// a buffer missing rows or with an unusable header is `Unsupported` and
/// out-of-bounds coordinates are `DoesNotExist`.
pub open spec fn spec_resolve(s: Seq<u8>, x: int, y: int) -> Result<Seq<u8>, ErrorKind> {
    if !frame_ok(s) {
        Err(ErrorKind::Unsupported)
    } else if !(0 <= y < abs_height(s) && 0 <= x < dib_width(s)) {
        Err(ErrorKind::DoesNotExist)
    } else {
        spec_resolve_group(s, pixel_group(s, x, y))
    }
}

/// The color of plane pixel `(x, y)`, where `spec_resolve` succeeds.
pub open spec fn resolved_px(s: Seq<u8>, x: int, y: int) -> Seq<u8> {
    spec_resolve(s, x, y)->Ok_0
}

/// Whether header struct `h` agrees with buffer `s` on every field the
/// pixel read and write paths consult: dimensions, bit depth, compression
/// and channel masks.  `DIBHEADER::matches` implies it.
pub open spec fn pixel_matches(h: DIBHEADER, s: Seq<u8>) -> bool {
    &&& h.size == dib_size(s)
    &&& h.width == dib_width(s)
    &&& h.height as int == dib_height(s)
    &&& h.bitcount == dib_bitcount(s)
    &&& h.compression == if dib_size(s) > 12 {
        Some(crate::header::spec_compression_of(dib_comp_code(s) as int))
    } else {
        None::<Compression>
    }
    &&& h.RedMask == if dib_size(s) > 40 {
        Some(dib_red_mask(s))
    } else {
        None::<u32>
    }
    &&& h.GreenMask == if dib_size(s) > 40 {
        Some(crate::header::dib_green_mask(s))
    } else {
        None::<u32>
    }
    &&& h.BlueMask == if dib_size(s) > 40 {
        Some(dib_blue_mask(s))
    } else {
        None::<u32>
    }
    &&& h.AlphaMask == if dib_size(s) > 40 {
        Some(dib_alpha_mask(s))
    } else {
        None::<u32>
    }
}

/// Whether a decoded plane has `width` groups of `gs` bytes in every row.
pub open spec fn plane_shaped(p: Seq<Vec<Vec<u8>>>, width: int, gs: int) -> bool {
    &&& forall|y: int| 0 <= y < p.len() ==> (#[trigger] p[y]@.len()) == width
    &&& forall|y: int, x: int|
        0 <= y < p.len() && 0 <= x < width ==> (#[trigger] p[y]@[x]@.len()) == gs
}

impl BMP {
    /// Resolves the color of pixel `(x, y)` from an already decoded header
    /// and plane, without re-deriving them.  Coordinates are bounded by
    /// the declared `|height|` and width, exactly as in the plain reader;
    /// on a bottom-up plane with extra decoded rows (trailing bytes after
    /// the pixel array) the read is offset past them, so that on this
    /// image's own decoded plane the semantics are identical to
    /// `get_color_of_pixel` — the last `ensures` clause states that
    /// equivalence.  Out-of-range coordinates fail `DoesNotExist`.
    pub fn get_color_of_pixel_efficient(
        &self,
        x: usize,
        y: usize,
        dib_header: &DIBHEADER,
        pixel_data: &VecDeque<Vec<Vec<u8>>>,
    ) -> (r: Result<[u8; 4], ErrorKind>)
        requires
            dib_header.wf(),
            pixel_matches(*dib_header, self.contents@),
            dib_parse_ok(self.contents@),
            plane_shaped(pixel_data@, dib_header.width as int, group_size(self.contents@)),
        ensures
            ({
                let rows = pixel_data@.len() as int;
                let habs = if dib_header.height < 0 {
                    -(dib_header.height as int)
                } else {
                    dib_header.height as int
                };
                let row = if dib_header.height < 0 {
                    y as int
                } else {
                    y + (rows - habs)
                };
                match r {
                    Ok(c) => y < habs && habs <= rows && x < dib_header.width
                        && spec_resolve_group(self.contents@, pixel_data@[row]@[x as int]@)
                        == Ok::<Seq<u8>, ErrorKind>(c@),
                    Err(e) => if y as int >= habs || habs > rows || x >= dib_header.width {
                        e == ErrorKind::DoesNotExist
                    } else {
                        spec_resolve_group(self.contents@, pixel_data@[row]@[x as int]@)
                            == Err::<Seq<u8>, ErrorKind>(e)
                    },
                }
            }),
            r is Ok ==> r->Ok_0@.len() == 4,
            frame_ok(self.contents@) && is_decoded_plane(self.contents@, pixel_data@) ==> (
            match r {
                Ok(c) => spec_resolve(self.contents@, x as int, y as int) == Ok::<
                    Seq<u8>,
                    ErrorKind,
                >(c@),
                Err(e) => spec_resolve(self.contents@, x as int, y as int) == Err::<
                    Seq<u8>,
                    ErrorKind,
                >(e),
            }),
    {
        let ghost s = self.contents@;
        let habs_wide: i64 = dib_header.height as i64;
        let habs: u64 = if habs_wide < 0 {
            (-habs_wide) as u64
        } else {
            habs_wide as u64
        };
        let rows = pixel_data.len();
        proof {
            if frame_ok(s) && is_decoded_plane(s, pixel_data@) {
                crate::plane::lemma_editable_rows(s);
            }
        }
        if (y as u64) >= habs || x >= dib_header.width as usize || (rows as u64) < habs {
            return Err(ErrorKind::DoesNotExist);
        }
        let row: usize = if dib_header.height < 0 {
            y
        } else {
            y + (rows - habs as usize)
        };
        proof {
            if frame_ok(s) && is_decoded_plane(s, pixel_data@) {
                assert(pixel_data@[row as int]@[x as int]@ == pixel_group(s, x as int, y as int));
            }
        }
        let pixel: &Vec<u8> = &pixel_data[row][x];
        self.resolve_group(pixel, dib_header)
    }

    /// Same contract as `get_color_of_pixel_efficient`, including the
    /// equivalence with the plain reader on this image's decoded plane.
    pub fn get_color_of_px_efficient(
        &self,
        x: usize,
        y: usize,
        dib_header: &DIBHEADER,
        pixel_data: &VecDeque<Vec<Vec<u8>>>,
    ) -> (r: Result<[u8; 4], ErrorKind>)
        requires
            dib_header.wf(),
            pixel_matches(*dib_header, self.contents@),
            dib_parse_ok(self.contents@),
            plane_shaped(pixel_data@, dib_header.width as int, group_size(self.contents@)),
        ensures
            ({
                let rows = pixel_data@.len() as int;
                let habs = if dib_header.height < 0 {
                    -(dib_header.height as int)
                } else {
                    dib_header.height as int
                };
                let row = if dib_header.height < 0 {
                    y as int
                } else {
                    y + (rows - habs)
                };
                match r {
                    Ok(c) => y < habs && habs <= rows && x < dib_header.width
                        && spec_resolve_group(self.contents@, pixel_data@[row]@[x as int]@)
                        == Ok::<Seq<u8>, ErrorKind>(c@),
                    Err(e) => if y as int >= habs || habs > rows || x >= dib_header.width {
                        e == ErrorKind::DoesNotExist
                    } else {
                        spec_resolve_group(self.contents@, pixel_data@[row]@[x as int]@)
                            == Err::<Seq<u8>, ErrorKind>(e)
                    },
                }
            }),
            r is Ok ==> r->Ok_0@.len() == 4,
            frame_ok(self.contents@) && is_decoded_plane(self.contents@, pixel_data@) ==> (
            match r {
                Ok(c) => spec_resolve(self.contents@, x as int, y as int) == Ok::<
                    Seq<u8>,
                    ErrorKind,
                >(c@),
                Err(e) => spec_resolve(self.contents@, x as int, y as int) == Err::<
                    Seq<u8>,
                    ErrorKind,
                >(e),
            }),
    {
        self.get_color_of_pixel_efficient(x, y, dib_header, pixel_data)
    }

    /// Resolves one raw byte group to its color under this image's header
    /// (palette lookups consult this image's color table).
    pub(crate) fn resolve_group(&self, pixel: &Vec<u8>, dib_header: &DIBHEADER) -> (r: Result<
        [u8; 4],
        ErrorKind,
    >)
        requires
            dib_header.wf(),
            pixel_matches(*dib_header, self.contents@),
            dib_parse_ok(self.contents@),
            pixel@.len() == group_size(self.contents@),
        ensures
            (match r {
                Ok(c) => spec_resolve_group(self.contents@, pixel@) == Ok::<Seq<u8>, ErrorKind>(
                    c@,
                ),
                Err(e) => spec_resolve_group(self.contents@, pixel@) == Err::<Seq<u8>, ErrorKind>(
                    e,
                ),
            }),
            r is Ok ==> r->Ok_0@.len() == 4,
    {
        let ghost s = self.contents@;
        let bc = dib_header.bitcount;
        if bc == 24 {
            let c: [u8; 4] = [pixel[2], pixel[1], pixel[0], 255];
            proof {
                assert(c@ =~= spec_resolve_group(s, pixel@)->Ok_0);
            }
            Ok(c)
        } else if bc == 32 {
            let masked = (match dib_header.compression {
                Some(Compression::BiBitfields) => true,
                Some(Compression::BiAlphabitfields) => true,
                _ => false,
            }) && dib_header.RedMask.is_some() && dib_header.GreenMask.is_some()
                && dib_header.BlueMask.is_some();
            if masked {
                let red_mask = unwrap_mask(&dib_header.RedMask);
                let blue_mask = unwrap_mask(&dib_header.BlueMask);
                let alpha_mask = unwrap_mask(&dib_header.AlphaMask);
                let c: [u8; 4] = if alpha_mask < red_mask {
                    if red_mask < blue_mask {
                        [pixel[1], pixel[2], pixel[3], pixel[0]]
                    } else {
                        [pixel[3], pixel[2], pixel[1], pixel[0]]
                    }
                } else {
                    if red_mask < blue_mask {
                        [pixel[0], pixel[1], pixel[2], pixel[3]]
                    } else {
                        [pixel[2], pixel[1], pixel[0], pixel[3]]
                    }
                };
                proof {
                    assert(has_pixel_masks(s));
                    assert(c@ =~= perm32(s, pixel@));
                }
                Ok(c)
            } else {
                let c: [u8; 4] = [pixel[0], pixel[1], pixel[2], pixel[3]];
                proof {
                    assert(!has_pixel_masks(s));
                    assert(c@ =~= pixel@);
                }
                Ok(c)
            }
        } else if bc == 16 && (match dib_header.compression {
            Some(Compression::BiBitfields) => true,
            _ => false,
        }) && dib_header.RedMask.is_some() && dib_header.GreenMask.is_some()
            && dib_header.BlueMask.is_some() {
            // A 2-byte group cannot hold three byte-aligned channels: the
            // magnitude heuristic does not apply at this depth.
            Err(ErrorKind::Unsupported)
        } else {
            let color_table = match self.get_color_table() {
                Ok(t) => t,
                Err(e) => {
                    return Err(e);
                },
            };
            let index: u32 = if bc == 16 {
                vstd::bytes::u16_from_le_bytes(pixel.as_slice()) as u32
            } else {
                pixel[0] as u32
            };
            match color_table {
                ColorTable::RGBTRIPLE(v) => {
                    if (index as usize) < v.len() {
                        let entry = v[index as usize];
                        let c: [u8; 4] = [entry[0], entry[1], entry[2], 255];
                        proof {
                            assert(c@ =~= table_entry_rgba(s, index as int));
                        }
                        Ok(c)
                    } else {
                        Err(ErrorKind::DoesNotExist)
                    }
                },
                ColorTable::RGBQUAD(v) => {
                    if (index as usize) < v.len() {
                        let entry = v[index as usize];
                        let c: [u8; 4] = [entry[0], entry[1], entry[2], entry[3]];
                        proof {
                            assert(c@ =~= table_entry_rgba(s, index as int));
                        }
                        Ok(c)
                    } else {
                        Err(ErrorKind::DoesNotExist)
                    }
                },
            }
        }
    }


    /// Resolves the color of image pixel `(x, y)` when the header and its
    /// in-bounds framing are already established.
    pub(crate) fn resolve_pixel(&self, x: usize, y: usize, dib_header: &DIBHEADER) -> (r: Result<
        [u8; 4],
        ErrorKind,
    >)
        requires
            dib_header.wf(),
            pixel_matches(*dib_header, self.contents@),
            dib_parse_ok(self.contents@),
            frame_ok(self.contents@),
        ensures
            (match r {
                Ok(c) => spec_resolve(self.contents@, x as int, y as int) == Ok::<
                    Seq<u8>,
                    ErrorKind,
                >(c@),
                Err(e) => spec_resolve(self.contents@, x as int, y as int) == Err::<
                    Seq<u8>,
                    ErrorKind,
                >(e),
            }),
            r is Ok ==> r->Ok_0@.len() == 4,
    {
        let ghost s = self.contents@;
        let habs: u64 = if dib_header.height < 0 {
            (-(dib_header.height as i64)) as u64
        } else {
            dib_header.height as u64
        };
        if (x as u64) >= dib_header.width as u64 || (y as u64) >= habs {
            return Err(ErrorKind::DoesNotExist);
        }
        let group = self.read_pixel_group(x, y, dib_header);
        proof {
            crate::plane::lemma_group_in_bounds(s, x as int, y as int);
            if dib_bitcount(s) >= 8 {
                assert(group@.len() == group_size(s));
            } else {
                assert(group@.len() == 1);
            }
        }
        self.resolve_group(&group, dib_header)
    }

    /// Resolves the color of pixel `(x, y)`, deriving the header from the
    /// buffer and reading the stored byte group directly.  `spec_resolve`
    /// fixes both the color and every error case.
    pub fn get_color_of_pixel(&self, x: usize, y: usize) -> (r: Result<[u8; 4], ErrorKind>)
        ensures
            (match r {
                Ok(c) => spec_resolve(self.contents@, x as int, y as int) == Ok::<
                    Seq<u8>,
                    ErrorKind,
                >(c@),
                Err(e) => spec_resolve(self.contents@, x as int, y as int) == Err::<
                    Seq<u8>,
                    ErrorKind,
                >(e),
            }),
    {
        let dib_header = match self.get_dib_header() {
            Ok(h) => h,
            Err(e) => {
                return Err(e);
            },
        };
        if !self.is_framed(&dib_header) {
            return Err(ErrorKind::Unsupported);
        }
        self.resolve_pixel(x, y, &dib_header)
    }

    /// A frozen copy of every pixel's resolved color, for passes that keep
    /// reading the pre-pass image while rewriting it.
    pub(crate) fn snapshot_colors(&self, dib_header: &DIBHEADER) -> (r: Vec<Vec<[u8; 4]>>)
        requires
            dib_header.wf(),
            pixel_matches(*dib_header, self.contents@),
            dib_parse_ok(self.contents@),
            editable(self.contents@),
        ensures
            r@.len() == abs_height(self.contents@),
            forall|j: int|
                0 <= j < abs_height(self.contents@) ==> (#[trigger] r@[j])@.len() == dib_width(
                    self.contents@,
                ),
            forall|j: int, i: int|
                0 <= j < abs_height(self.contents@) && 0 <= i < dib_width(self.contents@) ==> (
                #[trigger] r@[j]@[i])@ == resolved_px(self.contents@, i, j),
    {
        let ghost s = self.contents@;
        let width: u16 = dib_header.width as u16;
        let habs: u16 = if dib_header.height < 0 {
            (((-(dib_header.height as i64)) as u64) as u32) as u16
        } else {
            (dib_header.height as u32) as u16
        };
        proof {
            assert(habs == abs_height(s));
            assert(width == dib_width(s));
        }
        let mut grid: Vec<Vec<[u8; 4]>> = Vec::new();
        let mut j: u16 = 0;
        while j < habs
            invariant
                s == self.contents@,
                editable(s),
                dib_header.wf(),
                pixel_matches(*dib_header, s),
                dib_parse_ok(s),
                width == dib_width(s),
                habs == abs_height(s),
                j <= habs,
                grid@.len() == j,
                forall|j2: int| 0 <= j2 < j ==> (#[trigger] grid@[j2])@.len() == width,
                forall|j2: int, i2: int|
                    0 <= j2 < j && 0 <= i2 < width ==> (#[trigger] grid@[j2]@[i2])@ == resolved_px(
                        s,
                        i2,
                        j2,
                    ),
            decreases habs - j,
        {
            let mut line: Vec<[u8; 4]> = Vec::new();
            let mut i: u16 = 0;
            while i < width
                invariant
                    s == self.contents@,
                    editable(s),
                    dib_header.wf(),
                    pixel_matches(*dib_header, s),
                    dib_parse_ok(s),
                    width == dib_width(s),
                    habs == abs_height(s),
                    j < habs,
                    i <= width,
                    line@.len() == i,
                    forall|i2: int|
                        0 <= i2 < i ==> (#[trigger] line@[i2])@ == resolved_px(s, i2, j as int),
                decreases width - i,
            {
                let c = match self.resolve_pixel(i as usize, j as usize, dib_header) {
                    Ok(c) => c,
                    Err(_) => {
                        proof {
                            assert(false);
                        }
                        vstd::pervasive::unreached()
                    },
                };
                line.push(c);
                i = i + 1;
            }
            grid.push(line);
            j = j + 1;
        }
        grid
    }

    /// Same contract as `get_color_of_pixel`.
    pub fn get_color_of_px(&self, x: usize, y: usize) -> (r: Result<[u8; 4], ErrorKind>)
        ensures
            (match r {
                Ok(c) => spec_resolve(self.contents@, x as int, y as int) == Ok::<
                    Seq<u8>,
                    ErrorKind,
                >(c@),
                Err(e) => spec_resolve(self.contents@, x as int, y as int) == Err::<
                    Seq<u8>,
                    ErrorKind,
                >(e),
            }),
    {
        self.get_color_of_pixel(x, y)
    }
}

/// The mask under `Some`, for headers whose layout guarantees it present.
fn unwrap_mask(v: &Option<u32>) -> (r: u32)
    requires
        v is Some,
    ensures
        r == v->0,
{
    match v {
        Some(x) => *x,
        None => {
            proof {
                assert(false);
            }
            vstd::pervasive::unreached()
        },
    }
}

} // verus!
