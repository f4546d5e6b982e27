//! File header and DIB header: parsing, serialization, and the byte-level
//! specification of every field.
//!
//! The 14-byte file header sits at offset 0.  The DIB header follows at
//! offset 14; its first 4 bytes declare its size, which discriminates the
//! four supported layouts (12, 40, 108 and 124 bytes).  All multi-byte
//! fields are little-endian; the height is signed (16-bit in the 12-byte
//! layout, 32-bit otherwise).

use vstd::bytes::{spec_u16_to_le_bytes, spec_u32_to_le_bytes};
use vstd::prelude::*;

use crate::bmp::BMP;
use crate::errors::ErrorKind;
use crate::raw::{as_signed16, as_signed32, le16, le32, push_u16, push_u32, read_u16, read_u32,
    signed_of_u16, signed_of_u32, sle16, sle32, u16_rep, u32_rep, unsigned_of_i16, unsigned_of_i32};

verus! {

/// The compression mode declared by a DIB header of size above 12, as the
/// symbolic form of its 4-byte integer code (0 through 6).
#[derive(Clone, Copy, PartialEq, Eq, Structural, Debug)]
pub enum Compression {
    BiRgb,
    BiRle8,
    BiRle4,
    BiBitfields,
    BiJpeg,
    BiPng,
    BiAlphabitfields,
}

/// The rendering intent declared by a 124-byte DIB header, as the symbolic
/// form of its 4-byte integer code (0 through 4).
#[derive(Clone, Copy, PartialEq, Eq, Structural, Debug)]
pub enum Intent {
    LcsGmAbsColorimetric,
    LcsGmBusiness,
    LcsWindowsColorSpace,
    LcsGmGraphics,
    LcsGmImages,
}

/// The compression mode for an integer code at most 6.
pub open spec fn spec_compression_of(code: int) -> Compression
    recommends
        0 <= code <= 6,
{
    if code == 0 {
        Compression::BiRgb
    } else if code == 1 {
        Compression::BiRle8
    } else if code == 2 {
        Compression::BiRle4
    } else if code == 3 {
        Compression::BiBitfields
    } else if code == 4 {
        Compression::BiJpeg
    } else if code == 5 {
        Compression::BiPng
    } else {
        Compression::BiAlphabitfields
    }
}

/// The integer code of a compression mode.
pub open spec fn spec_compression_code(c: Compression) -> int {
    match c {
        Compression::BiRgb => 0,
        Compression::BiRle8 => 1,
        Compression::BiRle4 => 2,
        Compression::BiBitfields => 3,
        Compression::BiJpeg => 4,
        Compression::BiPng => 5,
        Compression::BiAlphabitfields => 6,
    }
}

/// The rendering intent for an integer code at most 4.
pub open spec fn spec_intent_of(code: int) -> Intent
    recommends
        0 <= code <= 4,
{
    if code == 0 {
        Intent::LcsGmAbsColorimetric
    } else if code == 1 {
        Intent::LcsGmBusiness
    } else if code == 2 {
        Intent::LcsWindowsColorSpace
    } else if code == 3 {
        Intent::LcsGmGraphics
    } else {
        Intent::LcsGmImages
    }
}

/// The integer code of a rendering intent.
pub open spec fn spec_intent_code(t: Intent) -> int {
    match t {
        Intent::LcsGmAbsColorimetric => 0,
        Intent::LcsGmBusiness => 1,
        Intent::LcsWindowsColorSpace => 2,
        Intent::LcsGmGraphics => 3,
        Intent::LcsGmImages => 4,
    }
}

impl BMP {
    /// Maps a compression code to its symbolic form; codes above 6 have none.
    pub fn int_to_compression(code: u32) -> (r: Option<Compression>)
        ensures
            r == if code <= 6 {
                Some(spec_compression_of(code as int))
            } else {
                None::<Compression>
            },
    {
        match code {
            0 => Some(Compression::BiRgb),
            1 => Some(Compression::BiRle8),
            2 => Some(Compression::BiRle4),
            3 => Some(Compression::BiBitfields),
            4 => Some(Compression::BiJpeg),
            5 => Some(Compression::BiPng),
            6 => Some(Compression::BiAlphabitfields),
            _ => None,
        }
    }

    /// The integer code a compression mode is stored as.
    pub fn compression_to_int(c: Compression) -> (r: u32)
        ensures
            r as int == spec_compression_code(c),
    {
        match c {
            Compression::BiRgb => 0,
            Compression::BiRle8 => 1,
            Compression::BiRle4 => 2,
            Compression::BiBitfields => 3,
            Compression::BiJpeg => 4,
            Compression::BiPng => 5,
            Compression::BiAlphabitfields => 6,
        }
    }

    /// Maps an intent code to its symbolic form; codes above 4 have none.
    pub fn int_to_intent(code: u32) -> (r: Option<Intent>)
        ensures
            r == if code <= 4 {
                Some(spec_intent_of(code as int))
            } else {
                None::<Intent>
            },
    {
        match code {
            0 => Some(Intent::LcsGmAbsColorimetric),
            1 => Some(Intent::LcsGmBusiness),
            2 => Some(Intent::LcsWindowsColorSpace),
            3 => Some(Intent::LcsGmGraphics),
            4 => Some(Intent::LcsGmImages),
            _ => None,
        }
    }

    /// The integer code a rendering intent is stored as.
    pub fn intent_to_int(t: Intent) -> (r: u32)
        ensures
            r as int == spec_intent_code(t),
    {
        match t {
            Intent::LcsGmAbsColorimetric => 0,
            Intent::LcsGmBusiness => 1,
            Intent::LcsWindowsColorSpace => 2,
            Intent::LcsGmGraphics => 3,
            Intent::LcsGmImages => 4,
        }
    }
}

/// The 14-byte file header: the "BM" signature, the declared file size, two
/// reserved byte pairs and the offset of the pixel data.
#[allow(non_snake_case)]
#[derive(Clone)]
pub struct BITMAPFILEHEADER {
    pub bfType: Vec<u8>,
    pub bfSize: u32,
    pub bfReserved1: Vec<u8>,
    pub bfReserved2: Vec<u8>,
    pub bfOffBits: u32,
}

/// The declared file size at bytes 2..6.
pub open spec fn fh_size(s: Seq<u8>) -> u32 {
    le32(s, 2)
}

/// The pixel-data offset at bytes 10..14.
pub open spec fn fh_off_bits(s: Seq<u8>) -> u32 {
    le32(s, 10)
}

impl BITMAPFILEHEADER {
    /// The structural shape every file header holds: 2-byte signature and
    /// reserved fields.
    pub open spec fn wf(self) -> bool {
        &&& self.bfType@.len() == 2
        &&& self.bfReserved1@.len() == 2
        &&& self.bfReserved2@.len() == 2
    }

    /// Whether this header holds exactly the fields stored in buffer `s`.
    pub open spec fn matches(self, s: Seq<u8>) -> bool {
        &&& self.bfType@ == s.subrange(0, 2)
        &&& self.bfSize == fh_size(s)
        &&& self.bfReserved1@ == s.subrange(6, 8)
        &&& self.bfReserved2@ == s.subrange(8, 10)
        &&& self.bfOffBits == fh_off_bits(s)
    }

    /// The 14 bytes this header serializes to.
    pub open spec fn spec_bytes(self) -> Seq<u8> {
        self.bfType@ + spec_u32_to_le_bytes(self.bfSize) + self.bfReserved1@ + self.bfReserved2@
            + spec_u32_to_le_bytes(self.bfOffBits)
    }

    /// Serializes the file header back to its exact 14 bytes.
    pub fn to_bytes(&self) -> (r: Vec<u8>)
        requires
            self.wf(),
        ensures
            r@ == self.spec_bytes(),
            r@.len() == 14,
    {
        let mut out: Vec<u8> = Vec::new();
        out.push(self.bfType[0]);
        out.push(self.bfType[1]);
        push_u32(&mut out, self.bfSize);
        out.push(self.bfReserved1[0]);
        out.push(self.bfReserved1[1]);
        out.push(self.bfReserved2[0]);
        out.push(self.bfReserved2[1]);
        push_u32(&mut out, self.bfOffBits);
        proof {
            vstd::bytes::lemma_auto_spec_u32_to_from_le_bytes();
            assert(out@ =~= self.spec_bytes());
        }
        out
    }
}

/// A parsed file header round-trips to the bytes it was read from.
pub proof fn lemma_file_header_round_trip(h: BITMAPFILEHEADER, s: Seq<u8>)
    requires
        s.len() >= 14,
        h.matches(s),
    ensures
        h.spec_bytes() =~= s.subrange(0, 14),
{
    vstd::bytes::lemma_auto_spec_u32_to_from_le_bytes();
    assert(spec_u32_to_le_bytes(le32(s, 2)) == s.subrange(2, 6));
    assert(spec_u32_to_le_bytes(le32(s, 10)) == s.subrange(10, 14));
}

/// The DIB header, all four layouts merged into one record: a field is
/// `Some` exactly when the layout of this `size` stores it.
#[allow(non_snake_case)]
#[derive(Clone)]
pub struct DIBHEADER {
    pub size: u32,
    pub width: u32,
    pub height: i32,
    pub planes: u16,
    pub bitcount: u16,
    pub compression: Option<Compression>,
    pub sizeimage: Option<u32>,
    pub XPelsPerMeter: Option<u32>,
    pub YPelsPerMeter: Option<u32>,
    pub ClrUsed: Option<u32>,
    pub ClrImportant: Option<u32>,
    pub RedMask: Option<u32>,
    pub GreenMask: Option<u32>,
    pub BlueMask: Option<u32>,
    pub AlphaMask: Option<u32>,
    pub CSType: Option<u32>,
    pub Endpoints: Option<Vec<i32>>,
    pub GammaRed: Option<u32>,
    pub GammaGreen: Option<u32>,
    pub GammaBlue: Option<u32>,
    pub Intent: Option<Intent>,
    pub ProfileData: Option<u32>,
    pub ProfileSize: Option<u32>,
    pub Reserved: Option<Vec<u8>>,
}

/// The DIB header size declared at bytes 14..18.
pub open spec fn dib_size(s: Seq<u8>) -> u32 {
    le32(s, 14)
}

/// The image width in pixels: 16-bit in the 12-byte layout, 32-bit otherwise.
pub open spec fn dib_width(s: Seq<u8>) -> u32 {
    if dib_size(s) == 12 {
        le16(s, 18) as u32
    } else {
        le32(s, 18)
    }
}

/// The signed height: its sign encodes the scan direction.
pub open spec fn dib_height(s: Seq<u8>) -> int {
    if dib_size(s) == 12 {
        sle16(s, 20)
    } else {
        sle32(s, 22)
    }
}

/// The color-plane count (always 1 in practice).
pub open spec fn dib_planes(s: Seq<u8>) -> u16 {
    if dib_size(s) == 12 {
        le16(s, 22)
    } else {
        le16(s, 26)
    }
}

/// Bits per pixel.
pub open spec fn dib_bitcount(s: Seq<u8>) -> u16 {
    if dib_size(s) == 12 {
        le16(s, 24)
    } else {
        le16(s, 28)
    }
}

/// The raw compression code (layouts above 12 bytes only).
pub open spec fn dib_comp_code(s: Seq<u8>) -> u32 {
    le32(s, 30)
}

/// The raw rendering-intent code (124-byte layout only).
pub open spec fn dib_intent_code(s: Seq<u8>) -> u32 {
    le32(s, 122)
}

/// The red channel bitmask (layouts above 40 bytes only).
pub open spec fn dib_red_mask(s: Seq<u8>) -> u32 {
    le32(s, 54)
}

/// The green channel bitmask (layouts above 40 bytes only).
pub open spec fn dib_green_mask(s: Seq<u8>) -> u32 {
    le32(s, 58)
}

/// The blue channel bitmask (layouts above 40 bytes only).
pub open spec fn dib_blue_mask(s: Seq<u8>) -> u32 {
    le32(s, 62)
}

/// The alpha channel bitmask (layouts above 40 bytes only).
pub open spec fn dib_alpha_mask(s: Seq<u8>) -> u32 {
    le32(s, 66)
}

/// Whether buffer `s` holds a parseable DIB header: a known size, enough
/// bytes for that layout, and in-table compression and intent codes.
pub open spec fn dib_parse_ok(s: Seq<u8>) -> bool {
    &&& s.len() >= 18
    &&& (dib_size(s) == 12 || dib_size(s) == 40 || dib_size(s) == 108 || dib_size(s) == 124)
    &&& s.len() >= 14 + dib_size(s)
    &&& (dib_size(s) > 12 ==> dib_comp_code(s) <= 6)
    &&& (dib_size(s) == 124 ==> dib_intent_code(s) <= 4)
}

impl DIBHEADER {
    /// The shape invariant: the size is one of the four known layouts and a
    /// field is present exactly when that layout stores it, with the 12-byte
    /// layout's narrower width and height ranges.
    pub open spec fn wf(self) -> bool {
        &&& (self.size == 12 || self.size == 40 || self.size == 108 || self.size == 124)
        &&& (self.size == 12 ==> self.width <= 0xFFFF && -0x8000 <= self.height < 0x8000)
        &&& (self.compression is Some <==> self.size > 12)
        &&& (self.sizeimage is Some <==> self.size > 12)
        &&& (self.XPelsPerMeter is Some <==> self.size > 12)
        &&& (self.YPelsPerMeter is Some <==> self.size > 12)
        &&& (self.ClrUsed is Some <==> self.size > 12)
        &&& (self.ClrImportant is Some <==> self.size > 12)
        &&& (self.RedMask is Some <==> self.size > 40)
        &&& (self.GreenMask is Some <==> self.size > 40)
        &&& (self.BlueMask is Some <==> self.size > 40)
        &&& (self.AlphaMask is Some <==> self.size > 40)
        &&& (self.CSType is Some <==> self.size > 40)
        &&& (self.Endpoints is Some <==> self.size > 40)
        &&& (self.size > 40 ==> self.Endpoints->0@.len() == 9)
        &&& (self.GammaRed is Some <==> self.size > 40)
        &&& (self.GammaGreen is Some <==> self.size > 40)
        &&& (self.GammaBlue is Some <==> self.size > 40)
        &&& (self.Intent is Some <==> self.size > 108)
        &&& (self.ProfileData is Some <==> self.size > 108)
        &&& (self.ProfileSize is Some <==> self.size > 108)
        &&& (self.Reserved is Some <==> self.size > 108)
        &&& (self.size > 108 ==> self.Reserved->0@.len() == 4)
    }

    /// Whether this header holds exactly the fields stored in buffer `s`.
    pub open spec fn matches(self, s: Seq<u8>) -> bool {
        &&& self.size == dib_size(s)
        &&& self.width == dib_width(s)
        &&& self.height as int == dib_height(s)
        &&& self.planes == dib_planes(s)
        &&& self.bitcount == dib_bitcount(s)
        &&& self.compression == if dib_size(s) > 12 {
            Some(spec_compression_of(dib_comp_code(s) as int))
        } else {
            None::<Compression>
        }
        &&& self.sizeimage == if dib_size(s) > 12 {
            Some(le32(s, 34))
        } else {
            None::<u32>
        }
        &&& self.XPelsPerMeter == if dib_size(s) > 12 {
            Some(le32(s, 38))
        } else {
            None::<u32>
        }
        &&& self.YPelsPerMeter == if dib_size(s) > 12 {
            Some(le32(s, 42))
        } else {
            None::<u32>
        }
        &&& self.ClrUsed == if dib_size(s) > 12 {
            Some(le32(s, 46))
        } else {
            None::<u32>
        }
        &&& self.ClrImportant == if dib_size(s) > 12 {
            Some(le32(s, 50))
        } else {
            None::<u32>
        }
        &&& self.RedMask == if dib_size(s) > 40 {
            Some(dib_red_mask(s))
        } else {
            None::<u32>
        }
        &&& self.GreenMask == if dib_size(s) > 40 {
            Some(dib_green_mask(s))
        } else {
            None::<u32>
        }
        &&& self.BlueMask == if dib_size(s) > 40 {
            Some(dib_blue_mask(s))
        } else {
            None::<u32>
        }
        &&& self.AlphaMask == if dib_size(s) > 40 {
            Some(dib_alpha_mask(s))
        } else {
            None::<u32>
        }
        &&& self.CSType == if dib_size(s) > 40 {
            Some(le32(s, 70))
        } else {
            None::<u32>
        }
        &&& (match self.Endpoints {
            Some(e) => dib_size(s) > 40 && e@.len() == 9 && (forall|k: int|
                0 <= k < 9 ==> e@[k] as int == sle32(s, 74 + 4 * k)),
            None => dib_size(s) <= 40,
        })
        &&& self.GammaRed == if dib_size(s) > 40 {
            Some(le32(s, 110))
        } else {
            None::<u32>
        }
        &&& self.GammaGreen == if dib_size(s) > 40 {
            Some(le32(s, 114))
        } else {
            None::<u32>
        }
        &&& self.GammaBlue == if dib_size(s) > 40 {
            Some(le32(s, 118))
        } else {
            None::<u32>
        }
        &&& self.Intent == if dib_size(s) > 108 {
            Some(spec_intent_of(dib_intent_code(s) as int))
        } else {
            None::<Intent>
        }
        &&& self.ProfileData == if dib_size(s) > 108 {
            Some(le32(s, 126))
        } else {
            None::<u32>
        }
        &&& self.ProfileSize == if dib_size(s) > 108 {
            Some(le32(s, 130))
        } else {
            None::<u32>
        }
        &&& (match self.Reserved {
            Some(rv) => dib_size(s) > 108 && rv@ == s.subrange(134, 138),
            None => dib_size(s) <= 108,
        })
    }
}

impl BMP {
    /// Parses the DIB header at offset 14, dispatching on its declared size.
    /// Succeeds exactly on buffers that hold one of the four known layouts
    /// whole, with in-table compression and intent codes; everything else is
    /// `Unsupported`.
    pub fn get_dib_header(&self) -> (r: Result<DIBHEADER, ErrorKind>)
        ensures
            r is Ok <==> dib_parse_ok(self.contents@),
            (match r {
                Ok(h) => h.wf() && h.matches(self.contents@),
                Err(e) => e == ErrorKind::Unsupported,
            }),
    {
        let s = &self.contents;
        if s.len() < 18 {
            return Err(ErrorKind::Unsupported);
        }
        let dib_size = read_u32(s, 14);
        if dib_size == 12 {
            if s.len() < 26 {
                return Err(ErrorKind::Unsupported);
            }
            let width = read_u16(s, 18) as u32;
            let height = signed_of_u16(read_u16(s, 20)) as i32;
            Ok(
                DIBHEADER {
                    size: 12,
                    width,
                    height,
                    planes: read_u16(s, 22),
                    bitcount: read_u16(s, 24),
                    compression: None,
                    sizeimage: None,
                    XPelsPerMeter: None,
                    YPelsPerMeter: None,
                    ClrUsed: None,
                    ClrImportant: None,
                    RedMask: None,
                    GreenMask: None,
                    BlueMask: None,
                    AlphaMask: None,
                    CSType: None,
                    Endpoints: None,
                    GammaRed: None,
                    GammaGreen: None,
                    GammaBlue: None,
                    Intent: None,
                    ProfileData: None,
                    ProfileSize: None,
                    Reserved: None,
                },
            )
        } else if dib_size == 40 || dib_size == 108 || dib_size == 124 {
            let hdr_len: usize = if dib_size == 40 {
                54
            } else if dib_size == 108 {
                122
            } else {
                138
            };
            if s.len() < hdr_len {
                return Err(ErrorKind::Unsupported);
            }
            let compression = match BMP::int_to_compression(read_u32(s, 30)) {
                Some(c) => c,
                None => {
                    return Err(ErrorKind::Unsupported);
                },
            };
            let width = read_u32(s, 18);
            let height = signed_of_u32(read_u32(s, 22));
            let planes = read_u16(s, 26);
            let bitcount = read_u16(s, 28);
            let sizeimage = read_u32(s, 34);
            let xppm = read_u32(s, 38);
            let yppm = read_u32(s, 42);
            let clr_used = read_u32(s, 46);
            let clr_important = read_u32(s, 50);
            if dib_size == 40 {
                return Ok(
                    DIBHEADER {
                        size: 40,
                        width,
                        height,
                        planes,
                        bitcount,
                        compression: Some(compression),
                        sizeimage: Some(sizeimage),
                        XPelsPerMeter: Some(xppm),
                        YPelsPerMeter: Some(yppm),
                        ClrUsed: Some(clr_used),
                        ClrImportant: Some(clr_important),
                        RedMask: None,
                        GreenMask: None,
                        BlueMask: None,
                        AlphaMask: None,
                        CSType: None,
                        Endpoints: None,
                        GammaRed: None,
                        GammaGreen: None,
                        GammaBlue: None,
                        Intent: None,
                        ProfileData: None,
                        ProfileSize: None,
                        Reserved: None,
                    },
                );
            }
            let red_mask = read_u32(s, 54);
            let green_mask = read_u32(s, 58);
            let blue_mask = read_u32(s, 62);
            let alpha_mask = read_u32(s, 66);
            let cstype = read_u32(s, 70);
            let mut endpoints: Vec<i32> = Vec::new();
            let mut k: usize = 0;
            while k < 9
                invariant
                    k <= 9,
                    endpoints@.len() == k,
                    s@.len() >= 122,
                    forall|j: int| 0 <= j < k ==> endpoints@[j] as int == sle32(s@, 74 + 4 * j),
                decreases 9 - k,
            {
                endpoints.push(signed_of_u32(read_u32(s, 74 + 4 * k)));
                k = k + 1;
            }
            let gamma_red = read_u32(s, 110);
            let gamma_green = read_u32(s, 114);
            let gamma_blue = read_u32(s, 118);
            if dib_size == 108 {
                return Ok(
                    DIBHEADER {
                        size: 108,
                        width,
                        height,
                        planes,
                        bitcount,
                        compression: Some(compression),
                        sizeimage: Some(sizeimage),
                        XPelsPerMeter: Some(xppm),
                        YPelsPerMeter: Some(yppm),
                        ClrUsed: Some(clr_used),
                        ClrImportant: Some(clr_important),
                        RedMask: Some(red_mask),
                        GreenMask: Some(green_mask),
                        BlueMask: Some(blue_mask),
                        AlphaMask: Some(alpha_mask),
                        CSType: Some(cstype),
                        Endpoints: Some(endpoints),
                        GammaRed: Some(gamma_red),
                        GammaGreen: Some(gamma_green),
                        GammaBlue: Some(gamma_blue),
                        Intent: None,
                        ProfileData: None,
                        ProfileSize: None,
                        Reserved: None,
                    },
                );
            }
            let intent = match BMP::int_to_intent(read_u32(s, 122)) {
                Some(t) => t,
                None => {
                    return Err(ErrorKind::Unsupported);
                },
            };
            let profile_data = read_u32(s, 126);
            let profile_size = read_u32(s, 130);
            let mut reserved: Vec<u8> = Vec::new();
            reserved.push(s[134]);
            reserved.push(s[135]);
            reserved.push(s[136]);
            reserved.push(s[137]);
            proof {
                assert(reserved@ =~= self.contents@.subrange(134, 138));
            }
            Ok(
                DIBHEADER {
                    size: 124,
                    width,
                    height,
                    planes,
                    bitcount,
                    compression: Some(compression),
                    sizeimage: Some(sizeimage),
                    XPelsPerMeter: Some(xppm),
                    YPelsPerMeter: Some(yppm),
                    ClrUsed: Some(clr_used),
                    ClrImportant: Some(clr_important),
                    RedMask: Some(red_mask),
                    GreenMask: Some(green_mask),
                    BlueMask: Some(blue_mask),
                    AlphaMask: Some(alpha_mask),
                    CSType: Some(cstype),
                    Endpoints: Some(endpoints),
                    GammaRed: Some(gamma_red),
                    GammaGreen: Some(gamma_green),
                    GammaBlue: Some(gamma_blue),
                    Intent: Some(intent),
                    ProfileData: Some(profile_data),
                    ProfileSize: Some(profile_size),
                    Reserved: Some(reserved),
                },
            )
        } else {
            Err(ErrorKind::Unsupported)
        }
    }

    /// Parses the 14-byte file header at the start of the buffer.
    pub fn get_header(&self) -> (r: BITMAPFILEHEADER)
        requires
            self.contents@.len() >= 14,
        ensures
            r.wf(),
            r.matches(self.contents@),
    {
        let s = &self.contents;
        let mut bf_type: Vec<u8> = Vec::new();
        bf_type.push(s[0]);
        bf_type.push(s[1]);
        let mut r1: Vec<u8> = Vec::new();
        r1.push(s[6]);
        r1.push(s[7]);
        let mut r2: Vec<u8> = Vec::new();
        r2.push(s[8]);
        r2.push(s[9]);
        proof {
            assert(bf_type@ =~= self.contents@.subrange(0, 2));
            assert(r1@ =~= self.contents@.subrange(6, 8));
            assert(r2@ =~= self.contents@.subrange(8, 10));
        }
        BITMAPFILEHEADER {
            bfType: bf_type,
            bfSize: read_u32(s, 2),
            bfReserved1: r1,
            bfReserved2: r2,
            bfOffBits: read_u32(s, 10),
        }
    }

    /// The raw 14 bytes of the file header.
    pub fn get_header_bytes(&self) -> (r: Vec<u8>)
        requires
            self.contents@.len() >= 14,
        ensures
            r@ == self.contents@.subrange(0, 14),
    {
        let sl = vstd::slice::slice_subrange(self.contents.as_slice(), 0, 14);
        vstd::slice::slice_to_vec(sl)
    }

    /// The declared pixel-data offset from the file header.
    pub fn get_offset(&self) -> (r: u32)
        requires
            self.contents@.len() >= 14,
        ensures
            r == fh_off_bits(self.contents@),
    {
        read_u32(&self.contents, 10)
    }

    /// The image size in bytes: the file header's declared size when
    /// `use_header` is set, else the buffer's actual length.
    pub fn get_size(&self, use_header: bool) -> (r: u32)
        requires
            self.contents@.len() >= 14,
            self.contents@.len() <= u32::MAX,
        ensures
            use_header ==> r == fh_size(self.contents@),
            !use_header ==> r == self.contents@.len(),
    {
        if use_header {
            read_u32(&self.contents, 2)
        } else {
            self.contents.len() as u32
        }
    }
}

/// Byte encoding of a CIE endpoint list: each entry's 32-bit two's
/// complement, little-endian, in order.
pub open spec fn endpoints_bytes(e: Seq<i32>) -> Seq<u8>
    decreases e.len(),
{
    if e.len() == 0 {
        Seq::empty()
    } else {
        endpoints_bytes(e.drop_last()) + spec_u32_to_le_bytes(u32_rep(e.last() as int))
    }
}

/// Each encoded endpoint list is 4 bytes per entry.
pub proof fn lemma_endpoints_bytes_len(e: Seq<i32>)
    ensures
        endpoints_bytes(e).len() == 4 * e.len(),
    decreases e.len(),
{
    vstd::bytes::lemma_auto_spec_u32_to_from_le_bytes();
    if e.len() > 0 {
        lemma_endpoints_bytes_len(e.drop_last());
    }
}

impl DIBHEADER {
    /// The first bytes of every layout: size, width, height, planes and bit
    /// count, with the 12-byte layout's narrower width and height fields.
    pub open spec fn spec_core_bytes(self) -> Seq<u8> {
        if self.size == 12 {
            spec_u32_to_le_bytes(self.size) + spec_u16_to_le_bytes(self.width as u16)
                + spec_u16_to_le_bytes(u16_rep(self.height as int)) + spec_u16_to_le_bytes(
                self.planes,
            ) + spec_u16_to_le_bytes(self.bitcount)
        } else {
            spec_u32_to_le_bytes(self.size) + spec_u32_to_le_bytes(self.width)
                + spec_u32_to_le_bytes(u32_rep(self.height as int)) + spec_u16_to_le_bytes(
                self.planes,
            ) + spec_u16_to_le_bytes(self.bitcount)
        }
    }

    /// The 24 bytes a 40-byte layout adds: compression code, image size,
    /// resolution, palette-usage counts.
    pub open spec fn spec_info_ext(self) -> Seq<u8> {
        spec_u32_to_le_bytes(spec_compression_code(self.compression->0) as u32)
            + spec_u32_to_le_bytes(self.sizeimage->0) + spec_u32_to_le_bytes(self.XPelsPerMeter->0)
            + spec_u32_to_le_bytes(self.YPelsPerMeter->0) + spec_u32_to_le_bytes(self.ClrUsed->0)
            + spec_u32_to_le_bytes(self.ClrImportant->0)
    }

    /// The 68 bytes a 108-byte layout adds: the four channel masks, the
    /// color-space tag, the CIE endpoints and the gamma values.
    pub open spec fn spec_v4_ext(self) -> Seq<u8> {
        spec_u32_to_le_bytes(self.RedMask->0) + spec_u32_to_le_bytes(self.GreenMask->0)
            + spec_u32_to_le_bytes(self.BlueMask->0) + spec_u32_to_le_bytes(self.AlphaMask->0)
            + spec_u32_to_le_bytes(self.CSType->0) + endpoints_bytes(self.Endpoints->0@)
            + spec_u32_to_le_bytes(self.GammaRed->0) + spec_u32_to_le_bytes(self.GammaGreen->0)
            + spec_u32_to_le_bytes(self.GammaBlue->0)
    }

    /// The 16 bytes a 124-byte layout adds: intent code, profile offset and
    /// size, reserved bytes.
    pub open spec fn spec_v5_ext(self) -> Seq<u8> {
        spec_u32_to_le_bytes(spec_intent_code(self.Intent->0) as u32) + spec_u32_to_le_bytes(
            self.ProfileData->0,
        ) + spec_u32_to_le_bytes(self.ProfileSize->0) + self.Reserved->0@
    }

    /// The exact bytes this header serializes to: `size` bytes in its
    /// declared layout.
    pub open spec fn spec_bytes(self) -> Seq<u8> {
        self.spec_core_bytes() + (if self.size > 12 {
            self.spec_info_ext()
        } else {
            Seq::empty()
        }) + (if self.size > 40 {
            self.spec_v4_ext()
        } else {
            Seq::empty()
        }) + (if self.size > 108 {
            self.spec_v5_ext()
        } else {
            Seq::empty()
        })
    }

    /// Serializes the DIB header back to its exact `size` bytes.
    pub fn to_bytes(&self) -> (r: Vec<u8>)
        requires
            self.wf(),
        ensures
            r@ == self.spec_bytes(),
            r@.len() == self.size,
    {
        proof {
            vstd::bytes::lemma_auto_spec_u16_to_from_le_bytes();
            vstd::bytes::lemma_auto_spec_u32_to_from_le_bytes();
        }
        let mut out: Vec<u8> = Vec::new();
        push_u32(&mut out, self.size);
        if self.size == 12 {
            push_u16(&mut out, self.width as u16);
            push_u16(&mut out, unsigned_of_i16(self.height as i16));
            push_u16(&mut out, self.planes);
            push_u16(&mut out, self.bitcount);
            proof {
                assert(out@ =~= self.spec_bytes());
            }
            return out;
        }
        push_u32(&mut out, self.width);
        push_u32(&mut out, unsigned_of_i32(self.height));
        push_u16(&mut out, self.planes);
        push_u16(&mut out, self.bitcount);
        let compression = match self.compression {
            Some(c) => c,
            None => Compression::BiRgb,
        };
        push_u32(&mut out, BMP::compression_to_int(compression));
        push_u32(&mut out, option_u32(&self.sizeimage));
        push_u32(&mut out, option_u32(&self.XPelsPerMeter));
        push_u32(&mut out, option_u32(&self.YPelsPerMeter));
        push_u32(&mut out, option_u32(&self.ClrUsed));
        push_u32(&mut out, option_u32(&self.ClrImportant));
        if self.size == 40 {
            proof {
                assert(out@ =~= self.spec_bytes());
            }
            return out;
        }
        push_u32(&mut out, option_u32(&self.RedMask));
        push_u32(&mut out, option_u32(&self.GreenMask));
        push_u32(&mut out, option_u32(&self.BlueMask));
        push_u32(&mut out, option_u32(&self.AlphaMask));
        push_u32(&mut out, option_u32(&self.CSType));
        let endpoints = match &self.Endpoints {
            Some(e) => e,
            None => {
                proof {
                    assert(false);
                }
                unreached()
            },
        };
        let ghost before_endpoints = out@;
        let mut k: usize = 0;
        while k < 9
            invariant
                k <= 9,
                endpoints@.len() == 9,
                out@ =~= before_endpoints + endpoints_bytes(endpoints@.subrange(0, k as int)),
            decreases 9 - k,
        {
            proof {
                let e = endpoints@;
                assert(e.subrange(0, k + 1).drop_last() =~= e.subrange(0, k as int));
                assert(e.subrange(0, k + 1).last() == e[k as int]);
            }
            push_u32(&mut out, unsigned_of_i32(endpoints[k]));
            k = k + 1;
        }
        proof {
            assert(endpoints@.subrange(0, 9) =~= endpoints@);
        }
        push_u32(&mut out, option_u32(&self.GammaRed));
        push_u32(&mut out, option_u32(&self.GammaGreen));
        push_u32(&mut out, option_u32(&self.GammaBlue));
        if self.size == 108 {
            proof {
                lemma_endpoints_bytes_len(endpoints@);
                assert(out@ =~= self.spec_bytes());
            }
            return out;
        }
        let intent = match self.Intent {
            Some(t) => t,
            None => Intent::LcsGmImages,
        };
        push_u32(&mut out, BMP::intent_to_int(intent));
        push_u32(&mut out, option_u32(&self.ProfileData));
        push_u32(&mut out, option_u32(&self.ProfileSize));
        let reserved = match &self.Reserved {
            Some(rv) => rv,
            None => {
                proof {
                    assert(false);
                }
                unreached()
            },
        };
        out.push(reserved[0]);
        out.push(reserved[1]);
        out.push(reserved[2]);
        out.push(reserved[3]);
        proof {
            lemma_endpoints_bytes_len(endpoints@);
            assert(reserved@ =~= seq![reserved@[0], reserved@[1], reserved@[2], reserved@[3]]);
            assert(out@ =~= self.spec_bytes());
        }
        out
    }
}

/// The value under `Some`, for fields the layout guarantees present.
fn option_u32(v: &Option<u32>) -> (r: u32)
    requires
        v is Some,
    ensures
        r == v->0,
{
    match v {
        Some(x) => *x,
        None => {
            proof {
                assert(false);
            }
            unreached()
        },
    }
}

/// An endpoint list read from a buffer encodes back to the same bytes.
proof fn lemma_endpoints_round_trip(e: Seq<i32>, s: Seq<u8>, k: int)
    requires
        0 <= k <= 9,
        e.len() == 9,
        s.len() >= 122,
        forall|j: int| 0 <= j < 9 ==> e[j] as int == sle32(s, 74 + 4 * j),
    ensures
        endpoints_bytes(e.subrange(0, k)) =~= s.subrange(74, 74 + 4 * k),
    decreases k,
{
    vstd::bytes::lemma_auto_spec_u32_to_from_le_bytes();
    if k == 0 {
        assert(endpoints_bytes(e.subrange(0, 0)) =~= Seq::<u8>::empty());
    } else {
        lemma_endpoints_round_trip(e, s, k - 1);
        let pre = e.subrange(0, k);
        assert(pre.drop_last() =~= e.subrange(0, k - 1));
        assert(pre.last() == e[k - 1]);
        let u = le32(s, 74 + 4 * (k - 1));
        assert(u32_rep(as_signed32(u)) == u);
        assert(spec_u32_to_le_bytes(u) == s.subrange(74 + 4 * (k - 1), 74 + 4 * k));
        crate::raw::lemma_subrange_concat(s, 74, 74 + 4 * (k - 1), 74 + 4 * k);
    }
}

/// Decoding a DIB header and re-encoding it reproduces the exact bytes it
/// was read from, for every one of the four supported layouts.
pub proof fn lemma_dib_round_trip(h: DIBHEADER, s: Seq<u8>)
    requires
        dib_parse_ok(s),
        h.wf(),
        h.matches(s),
    ensures
        h.spec_bytes() =~= s.subrange(14, 14 + dib_size(s)),
{
    vstd::bytes::lemma_auto_spec_u16_to_from_le_bytes();
    vstd::bytes::lemma_auto_spec_u32_to_from_le_bytes();
    let size = dib_size(s) as int;
    assert(spec_u32_to_le_bytes(le32(s, 14)) == s.subrange(14, 18));
    if h.size == 12 {
        assert(u16_rep(as_signed16(le16(s, 20))) == le16(s, 20));
        assert(h.spec_core_bytes() =~= s.subrange(14, 26)) by {
            assert(spec_u16_to_le_bytes(le16(s, 18)) == s.subrange(18, 20));
            assert(spec_u16_to_le_bytes(le16(s, 20)) == s.subrange(20, 22));
            assert(spec_u16_to_le_bytes(le16(s, 22)) == s.subrange(22, 24));
            assert(spec_u16_to_le_bytes(le16(s, 24)) == s.subrange(24, 26));
        }
        assert(h.spec_bytes() =~= h.spec_core_bytes());
        return ;
    }
    assert(u32_rep(as_signed32(le32(s, 22))) == le32(s, 22));
    assert(h.spec_core_bytes() =~= s.subrange(14, 30)) by {
        assert(spec_u32_to_le_bytes(le32(s, 18)) == s.subrange(18, 22));
        assert(spec_u32_to_le_bytes(le32(s, 22)) == s.subrange(22, 26));
        assert(spec_u16_to_le_bytes(le16(s, 26)) == s.subrange(26, 28));
        assert(spec_u16_to_le_bytes(le16(s, 28)) == s.subrange(28, 30));
    }
    assert(spec_compression_code(spec_compression_of(dib_comp_code(s) as int)) == dib_comp_code(
        s,
    ) as int);
    assert(h.spec_info_ext() =~= s.subrange(30, 54)) by {
        assert(spec_u32_to_le_bytes(le32(s, 30)) == s.subrange(30, 34));
        assert(spec_u32_to_le_bytes(le32(s, 34)) == s.subrange(34, 38));
        assert(spec_u32_to_le_bytes(le32(s, 38)) == s.subrange(38, 42));
        assert(spec_u32_to_le_bytes(le32(s, 42)) == s.subrange(42, 46));
        assert(spec_u32_to_le_bytes(le32(s, 46)) == s.subrange(46, 50));
        assert(spec_u32_to_le_bytes(le32(s, 50)) == s.subrange(50, 54));
    }
    if h.size == 40 {
        assert(h.spec_bytes() =~= h.spec_core_bytes() + h.spec_info_ext());
        crate::raw::lemma_subrange_concat(s, 14, 30, 54);
        return ;
    }
    lemma_endpoints_round_trip(h.Endpoints->0@, s, 9);
    assert(h.Endpoints->0@.subrange(0, 9) =~= h.Endpoints->0@);
    assert(h.spec_v4_ext() =~= s.subrange(54, 122)) by {
        assert(spec_u32_to_le_bytes(le32(s, 54)) == s.subrange(54, 58));
        assert(spec_u32_to_le_bytes(le32(s, 58)) == s.subrange(58, 62));
        assert(spec_u32_to_le_bytes(le32(s, 62)) == s.subrange(62, 66));
        assert(spec_u32_to_le_bytes(le32(s, 66)) == s.subrange(66, 70));
        assert(spec_u32_to_le_bytes(le32(s, 70)) == s.subrange(70, 74));
        assert(endpoints_bytes(h.Endpoints->0@) =~= s.subrange(74, 110));
        assert(spec_u32_to_le_bytes(le32(s, 110)) == s.subrange(110, 114));
        assert(spec_u32_to_le_bytes(le32(s, 114)) == s.subrange(114, 118));
        assert(spec_u32_to_le_bytes(le32(s, 118)) == s.subrange(118, 122));
    }
    if h.size == 108 {
        assert(h.spec_bytes() =~= h.spec_core_bytes() + h.spec_info_ext() + h.spec_v4_ext());
        crate::raw::lemma_subrange_concat(s, 14, 30, 54);
        crate::raw::lemma_subrange_concat(s, 14, 54, 122);
        return ;
    }
    assert(spec_intent_code(spec_intent_of(dib_intent_code(s) as int)) == dib_intent_code(
        s,
    ) as int);
    assert(h.spec_v5_ext() =~= s.subrange(122, 138)) by {
        assert(spec_u32_to_le_bytes(le32(s, 122)) == s.subrange(122, 126));
        assert(spec_u32_to_le_bytes(le32(s, 126)) == s.subrange(126, 130));
        assert(spec_u32_to_le_bytes(le32(s, 130)) == s.subrange(130, 134));
    }
    crate::raw::lemma_subrange_concat(s, 14, 30, 54);
    crate::raw::lemma_subrange_concat(s, 14, 54, 122);
    crate::raw::lemma_subrange_concat(s, 14, 122, 138);
}

} // verus!
