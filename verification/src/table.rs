//! The optional color table (palette) and the extra bit masks that can
//! follow a 40-byte DIB header.
//!
//! A table exists only for palette-indexed formats; its entries fill the
//! bytes between the end of the DIB header and the declared pixel-data
//! offset, 3 bytes each under a 12-byte header and 4 bytes otherwise.

use vstd::prelude::*;

use crate::bmp::BMP;
use crate::errors::ErrorKind;
use crate::header::{dib_bitcount, dib_comp_code, dib_parse_ok, dib_size, fh_off_bits, Compression};
use crate::raw::read_u32;

verus! {

/// A decoded palette: 3-byte entries (12-byte headers) or 4-byte entries.
pub enum ColorTable {
    RGBTRIPLE(Vec<[u8; 3]>),
    RGBQUAD(Vec<[u8; 4]>),
}

/// The masks following a 40-byte header under BI_BITFIELDS compression.
#[allow(non_camel_case_types)]
pub struct BI_BITFIELDS_MASKS {
    pub red: u32,
    pub green: u32,
    pub blue: u32,
}

/// The masks following a 40-byte header under BI_ALPHABITFIELDS compression.
#[allow(non_camel_case_types)]
pub struct BI_ALPHABITFIELDS_MASKS {
    pub red: u32,
    pub green: u32,
    pub blue: u32,
    pub alpha: u32,
}

/// Whichever extra-bit-masks block a 40-byte header carries.
#[allow(non_camel_case_types)]
pub enum EXTRA_BIT_MASKS {
    BI_BITFIELDS_MASKS(BI_BITFIELDS_MASKS),
    BI_ALPHABITFIELDS_MASKS(BI_ALPHABITFIELDS_MASKS),
}

/// Where the color table starts: right after the DIB header.
pub open spec fn table_offset(s: Seq<u8>) -> int {
    14 + dib_size(s)
}

/// Bytes per palette entry: 3 under a 12-byte header, 4 otherwise.
pub open spec fn table_entry_size(s: Seq<u8>) -> int {
    if dib_size(s) == 12 {
        3
    } else {
        4
    }
}

/// How many whole palette entries fit between the DIB header and the
/// pixel-data offset.
pub open spec fn table_len(s: Seq<u8>) -> int {
    if fh_off_bits(s) >= table_offset(s) {
        (fh_off_bits(s) - table_offset(s)) / table_entry_size(s)
    } else {
        0
    }
}

/// Why no color table can be produced for buffer `s`, if so: an unparseable
/// header, bitfield masks standing in its place, a format that defines no
/// table, or a pixel offset past the end of the buffer.
pub open spec fn table_error(s: Seq<u8>) -> Option<ErrorKind> {
    if !dib_parse_ok(s) {
        Some(ErrorKind::Unsupported)
    } else if dib_size(s) != 12 && dib_comp_code(s) == 3 && (dib_bitcount(s) == 16 || dib_bitcount(
        s,
    ) == 32) {
        Some(ErrorKind::UseExtraBitMasks)
    } else if dib_size(s) != 12 && dib_comp_code(s) == 0 && dib_bitcount(s) >= 16 {
        Some(ErrorKind::DoesNotExist)
    } else if fh_off_bits(s) > s.len() {
        Some(ErrorKind::DoesNotExist)
    } else {
        None
    }
}

/// Palette entry `i` as an RGBA color: 3-byte entries get alpha 255.
pub open spec fn table_entry_rgba(s: Seq<u8>, i: int) -> Seq<u8> {
    let o = table_offset(s) + i * table_entry_size(s);
    if dib_size(s) == 12 {
        seq![s[o], s[o + 1], s[o + 2], 255u8]
    } else {
        seq![s[o], s[o + 1], s[o + 2], s[o + 3]]
    }
}

/// Every whole palette entry lies inside the buffer.
pub proof fn lemma_table_entry_in_bounds(s: Seq<u8>, i: int)
    requires
        table_offset(s) <= fh_off_bits(s) <= s.len(),
        0 <= i < table_len(s),
    ensures
        table_offset(s) + i * table_entry_size(s) >= 0,
        table_offset(s) + (i + 1) * table_entry_size(s) <= fh_off_bits(s) <= s.len(),
        (i + 1) * table_entry_size(s) == i * table_entry_size(s) + table_entry_size(s),
{
    let es = table_entry_size(s);
    let to = table_offset(s);
    let n = table_len(s);
    assert(n * es <= fh_off_bits(s) - to) by (nonlinear_arith)
        requires
            es >= 1,
            n == (fh_off_bits(s) - to) / es,
            fh_off_bits(s) - to >= 0,
    ;
    assert((i + 1) * es <= n * es) by (nonlinear_arith)
        requires
            i + 1 <= n,
            es >= 1,
    ;
    assert(i * es >= 0 && (i + 1) * es == i * es + es) by (nonlinear_arith)
        requires
            i >= 0,
            es >= 1,
    ;
}

impl BMP {
    /// Decodes the color table between the DIB header and the pixel data.
    /// Fails `UseExtraBitMasks` where bitfield masks stand in its place,
    /// and `DoesNotExist` where the format defines no table or the declared
    /// pixel offset lies outside the buffer.
    pub fn get_color_table(&self) -> (r: Result<ColorTable, ErrorKind>)
        ensures
            r is Ok <==> table_error(self.contents@) is None,
            (match r {
                Ok(t) => {
                    let s = self.contents@;
                    match t {
                        ColorTable::RGBTRIPLE(v) => dib_size(s) == 12 && v@.len() == table_len(s)
                            && (forall|i: int|
                            0 <= i < v@.len() ==> #[trigger] v@[i]@ == s.subrange(
                                table_offset(s) + i * 3,
                                table_offset(s) + i * 3 + 3,
                            )),
                        ColorTable::RGBQUAD(v) => dib_size(s) != 12 && v@.len() == table_len(s) && (
                        forall|i: int|
                            0 <= i < v@.len() ==> #[trigger] v@[i]@ == s.subrange(
                                table_offset(s) + i * 4,
                                table_offset(s) + i * 4 + 4,
                            )),
                    }
                },
                Err(e) => table_error(self.contents@) == Some(e),
            }),
    {
        let dib_header = match self.get_dib_header() {
            Ok(h) => h,
            Err(e) => {
                return Err(e);
            },
        };
        let ghost s = self.contents@;
        if dib_header.size != 12 {
            let compression = match dib_header.compression {
                Some(c) => c,
                None => Compression::BiRgb,
            };
            if compression == Compression::BiBitfields && (dib_header.bitcount == 16
                || dib_header.bitcount == 32) {
                return Err(ErrorKind::UseExtraBitMasks);
            }
            if compression == Compression::BiRgb && dib_header.bitcount >= 16 {
                return Err(ErrorKind::DoesNotExist);
            }
        }
        let end = self.get_offset() as usize;
        if end > self.contents.len() {
            return Err(ErrorKind::DoesNotExist);
        }
        let start: usize = 14 + dib_header.size as usize;
        if dib_header.size == 12 {
            let mut v: Vec<[u8; 3]> = Vec::new();
            if start <= end {
                let count = (end - start) / 3;
                let mut i: usize = 0;
                while i < count
                    invariant
                        s == self.contents@,
                        start == table_offset(s),
                        end == fh_off_bits(s),
                        end <= s.len(),
                        start <= end,
                        dib_size(s) == 12,
                        count == table_len(s),
                        i <= count,
                        v@.len() == i,
                        forall|j: int|
                            0 <= j < i ==> #[trigger] v@[j]@ == s.subrange(
                                table_offset(s) + j * 3,
                                table_offset(s) + j * 3 + 3,
                            ),
                    decreases count - i,
                {
                    proof {
                        lemma_table_entry_in_bounds(s, i as int);
                    }
                    let p = start + i * 3;
                    let entry: [u8; 3] = [self.contents[p], self.contents[p + 1], self.contents[p
                        + 2]];
                    proof {
                        assert(entry@ =~= s.subrange(
                            table_offset(s) + i as int * 3,
                            table_offset(s) + i as int * 3 + 3,
                        ));
                    }
                    v.push(entry);
                    i = i + 1;
                }
            }
            proof {
                if start > end {
                    assert(table_len(s) == 0);
                }
            }
            Ok(ColorTable::RGBTRIPLE(v))
        } else {
            let mut v: Vec<[u8; 4]> = Vec::new();
            if start <= end {
                let count = (end - start) / 4;
                let mut i: usize = 0;
                while i < count
                    invariant
                        s == self.contents@,
                        start == table_offset(s),
                        end == fh_off_bits(s),
                        end <= s.len(),
                        start <= end,
                        dib_size(s) != 12,
                        count == table_len(s),
                        i <= count,
                        v@.len() == i,
                        forall|j: int|
                            0 <= j < i ==> #[trigger] v@[j]@ == s.subrange(
                                table_offset(s) + j * 4,
                                table_offset(s) + j * 4 + 4,
                            ),
                    decreases count - i,
                {
                    proof {
                        lemma_table_entry_in_bounds(s, i as int);
                    }
                    let p = start + i * 4;
                    let entry: [u8; 4] = [self.contents[p], self.contents[p + 1], self.contents[p
                        + 2], self.contents[p + 3]];
                    proof {
                        assert(entry@ =~= s.subrange(
                            table_offset(s) + i as int * 4,
                            table_offset(s) + i as int * 4 + 4,
                        ));
                    }
                    v.push(entry);
                    i = i + 1;
                }
            }
            proof {
                if start > end {
                    assert(table_len(s) == 0);
                }
            }
            Ok(ColorTable::RGBQUAD(v))
        }
    }

    /// Reads the extra bit masks that follow a 40-byte DIB header under
    /// BI_BITFIELDS or BI_ALPHABITFIELDS compression; any other layout or
    /// compression has none.
    pub fn get_extra_bit_masks(&self) -> (r: Result<EXTRA_BIT_MASKS, ErrorKind>)
        ensures
            (match r {
                Ok(m) => {
                    let s = self.contents@;
                    dib_parse_ok(s) && dib_size(s) == 40 && match m {
                        EXTRA_BIT_MASKS::BI_BITFIELDS_MASKS(b) => dib_comp_code(s) == 3 && s.len()
                            >= 66 && b.red == crate::raw::le32(s, 54) && b.green
                            == crate::raw::le32(s, 58) && b.blue == crate::raw::le32(s, 62),
                        EXTRA_BIT_MASKS::BI_ALPHABITFIELDS_MASKS(b) => dib_comp_code(s) == 6
                            && s.len() >= 70 && b.red == crate::raw::le32(s, 54) && b.green
                            == crate::raw::le32(s, 58) && b.blue == crate::raw::le32(s, 62)
                            && b.alpha == crate::raw::le32(s, 66),
                    }
                },
                Err(e) => e == ErrorKind::Unsupported || e == ErrorKind::DoesNotExist,
            }),
            r is Ok <==> {
                let s = self.contents@;
                dib_parse_ok(s) && dib_size(s) == 40 && ((dib_comp_code(s) == 3 && s.len() >= 66)
                    || (dib_comp_code(s) == 6 && s.len() >= 70))
            },
    {
        let dib_header = match self.get_dib_header() {
            Ok(h) => h,
            Err(e) => {
                return Err(e);
            },
        };
        if dib_header.size != 40 {
            return Err(ErrorKind::DoesNotExist);
        }
        let compression = match dib_header.compression {
            Some(c) => c,
            None => Compression::BiRgb,
        };
        if compression == Compression::BiBitfields {
            if self.contents.len() < 66 {
                return Err(ErrorKind::DoesNotExist);
            }
            Ok(
                EXTRA_BIT_MASKS::BI_BITFIELDS_MASKS(
                    BI_BITFIELDS_MASKS {
                        red: read_u32(&self.contents, 54),
                        green: read_u32(&self.contents, 58),
                        blue: read_u32(&self.contents, 62),
                    },
                ),
            )
        } else if compression == Compression::BiAlphabitfields {
            if self.contents.len() < 70 {
                return Err(ErrorKind::DoesNotExist);
            }
            Ok(
                EXTRA_BIT_MASKS::BI_ALPHABITFIELDS_MASKS(
                    BI_ALPHABITFIELDS_MASKS {
                        red: read_u32(&self.contents, 54),
                        green: read_u32(&self.contents, 58),
                        blue: read_u32(&self.contents, 62),
                        alpha: read_u32(&self.contents, 66),
                    },
                ),
            )
        } else {
            Err(ErrorKind::DoesNotExist)
        }
    }
}

} // verus!
