//! Synthesizing a fresh image: a 124-byte V5 header, 32-bit BI_BITFIELDS
//! pixels, filled with a caller-chosen color or opaque white.

use vstd::bytes::{spec_u16_to_le_bytes, spec_u32_to_le_bytes};
use vstd::prelude::*;

use crate::bmp::BMP;
use crate::header::{dib_bitcount, dib_comp_code, dib_height, dib_parse_ok, dib_size, dib_width,
    endpoints_bytes, fh_off_bits, fh_size, lemma_endpoints_bytes_len, Compression, Intent,
    BITMAPFILEHEADER, DIBHEADER};
use crate::image::{resolved_px, spec_resolve};
use crate::plane::{abs_height, editable, group_off, lemma_editable_rows, lemma_group_in_bounds,
    num_rows, pixel_group, row_stride, stride_of};
use crate::raw::{as_signed32, u32_rep};

verus! {

/// The magnitude of a 32-bit height, as an integer.
pub open spec fn spec_abs(h: int) -> int {
    if h < 0 {
        -h
    } else {
        h
    }
}

/// The byte at pixel-area offset `i - 138` of a canvas filled with the
/// 4-byte group `g`.
pub open spec fn fill_byte(g: Seq<u8>, i: int) -> u8
    recommends
        g.len() == 4,
        i >= 138,
{
    g[(i - 138) % 4]
}

/// The fill color `new` paints: the caller's, or opaque white.
pub open spec fn spec_fill_color(default_color: Option<[u8; 4]>) -> Seq<u8> {
    match default_color {
        Some(c) => c@,
        None => seq![255u8, 255u8, 255u8, 255u8],
    }
}

/// A buffer whose bytes 14 onward hold a serialized DIB header parses back
/// to that header's fields.
proof fn lemma_parse_back(h: DIBHEADER, s: Seq<u8>)
    requires
        h.wf(),
        s.len() >= 14 + h.size,
        s.subrange(14, 14 + h.size as int) == h.spec_bytes(),
    ensures
        h.matches(s),
        dib_parse_ok(s),
    decreases 0int,
{
    vstd::bytes::lemma_auto_spec_u16_to_from_le_bytes();
    vstd::bytes::lemma_auto_spec_u32_to_from_le_bytes();
    let hb = h.spec_bytes();
    assert forall|i: int| 0 <= i < h.size implies #[trigger] hb[i] == s[14 + i] by {
        assert(s.subrange(14, 14 + h.size as int)[i] == hb[i]);
    }
    if h.size > 40 {
        lemma_endpoints_bytes_len(h.Endpoints->0@);
    }
    assert(hb.subrange(0, 4) =~= spec_u32_to_le_bytes(h.size));
    assert(s.subrange(14, 18) =~= hb.subrange(0, 4));
    assert(dib_size(s) == h.size);
    if h.size == 12 {
        assert(hb.subrange(4, 6) =~= spec_u16_to_le_bytes(h.width as u16));
        assert(s.subrange(18, 20) =~= hb.subrange(4, 6));
        assert(hb.subrange(6, 8) =~= spec_u16_to_le_bytes(crate::raw::u16_rep(h.height as int)));
        assert(s.subrange(20, 22) =~= hb.subrange(6, 8));
        assert(hb.subrange(8, 10) =~= spec_u16_to_le_bytes(h.planes));
        assert(s.subrange(22, 24) =~= hb.subrange(8, 10));
        assert(hb.subrange(10, 12) =~= spec_u16_to_le_bytes(h.bitcount));
        assert(s.subrange(24, 26) =~= hb.subrange(10, 12));
        assert(crate::raw::as_signed16(crate::raw::u16_rep(h.height as int)) == h.height as int);
        return ;
    }
    assert(hb.subrange(4, 8) =~= spec_u32_to_le_bytes(h.width));
    assert(s.subrange(18, 22) =~= hb.subrange(4, 8));
    assert(hb.subrange(8, 12) =~= spec_u32_to_le_bytes(u32_rep(h.height as int)));
    assert(s.subrange(22, 26) =~= hb.subrange(8, 12));
    assert(hb.subrange(12, 14) =~= spec_u16_to_le_bytes(h.planes));
    assert(s.subrange(26, 28) =~= hb.subrange(12, 14));
    assert(hb.subrange(14, 16) =~= spec_u16_to_le_bytes(h.bitcount));
    assert(s.subrange(28, 30) =~= hb.subrange(14, 16));
    assert(hb.subrange(16, 20) =~= spec_u32_to_le_bytes(crate::header::spec_compression_code(h.compression->0) as u32));
    assert(s.subrange(30, 34) =~= hb.subrange(16, 20));
    assert(hb.subrange(20, 24) =~= spec_u32_to_le_bytes(h.sizeimage->0));
    assert(s.subrange(34, 38) =~= hb.subrange(20, 24));
    assert(hb.subrange(24, 28) =~= spec_u32_to_le_bytes(h.XPelsPerMeter->0));
    assert(s.subrange(38, 42) =~= hb.subrange(24, 28));
    assert(hb.subrange(28, 32) =~= spec_u32_to_le_bytes(h.YPelsPerMeter->0));
    assert(s.subrange(42, 46) =~= hb.subrange(28, 32));
    assert(hb.subrange(32, 36) =~= spec_u32_to_le_bytes(h.ClrUsed->0));
    assert(s.subrange(46, 50) =~= hb.subrange(32, 36));
    assert(hb.subrange(36, 40) =~= spec_u32_to_le_bytes(h.ClrImportant->0));
    assert(s.subrange(50, 54) =~= hb.subrange(36, 40));
    assert(as_signed32(u32_rep(h.height as int)) == h.height as int);
    assert(crate::header::spec_compression_of(dib_comp_code(s) as int) == h.compression->0);
    if h.size == 40 {
        return ;
    }
    assert(hb.subrange(40, 44) =~= spec_u32_to_le_bytes(h.RedMask->0));
    assert(s.subrange(54, 58) =~= hb.subrange(40, 44));
    assert(hb.subrange(44, 48) =~= spec_u32_to_le_bytes(h.GreenMask->0));
    assert(s.subrange(58, 62) =~= hb.subrange(44, 48));
    assert(hb.subrange(48, 52) =~= spec_u32_to_le_bytes(h.BlueMask->0));
    assert(s.subrange(62, 66) =~= hb.subrange(48, 52));
    assert(hb.subrange(52, 56) =~= spec_u32_to_le_bytes(h.AlphaMask->0));
    assert(s.subrange(66, 70) =~= hb.subrange(52, 56));
    assert(hb.subrange(56, 60) =~= spec_u32_to_le_bytes(h.CSType->0));
    assert(s.subrange(70, 74) =~= hb.subrange(56, 60));
    assert(hb.subrange(96, 100) =~= spec_u32_to_le_bytes(h.GammaRed->0));
    assert(s.subrange(110, 114) =~= hb.subrange(96, 100));
    assert(hb.subrange(100, 104) =~= spec_u32_to_le_bytes(h.GammaGreen->0));
    assert(s.subrange(114, 118) =~= hb.subrange(100, 104));
    assert(hb.subrange(104, 108) =~= spec_u32_to_le_bytes(h.GammaBlue->0));
    assert(s.subrange(118, 122) =~= hb.subrange(104, 108));
    let e = h.Endpoints->0@;
    assert forall|k: int| 0 <= k < 9 implies e[k] as int == crate::raw::sle32(s, 74 + 4 * k) by {
        lemma_endpoints_bytes_at(e, k);
        assert(hb.subrange(60 + 4 * k, 64 + 4 * k) =~= endpoints_bytes(e).subrange(
            4 * k,
            4 * k + 4,
        ));
        assert(s.subrange(74 + 4 * k, 78 + 4 * k) =~= hb.subrange(60 + 4 * k, 64 + 4 * k));
        assert(as_signed32(u32_rep(e[k] as int)) == e[k] as int);
    }
    if h.size == 108 {
        return ;
    }
    assert(hb.subrange(108, 112) =~= spec_u32_to_le_bytes(crate::header::spec_intent_code(h.Intent->0) as u32));
    assert(s.subrange(122, 126) =~= hb.subrange(108, 112));
    assert(hb.subrange(112, 116) =~= spec_u32_to_le_bytes(h.ProfileData->0));
    assert(s.subrange(126, 130) =~= hb.subrange(112, 116));
    assert(hb.subrange(116, 120) =~= spec_u32_to_le_bytes(h.ProfileSize->0));
    assert(s.subrange(130, 134) =~= hb.subrange(116, 120));
    assert(hb.subrange(120, 124) =~= h.Reserved->0@);
    assert(s.subrange(134, 138) =~= hb.subrange(120, 124));
    assert(crate::header::spec_intent_of(crate::header::dib_intent_code(s) as int) == h.Intent->0);
}


/// Entry `k` of an encoded endpoint list sits at bytes `4k .. 4k+4`.
proof fn lemma_endpoints_bytes_at(e: Seq<i32>, k: int)
    requires
        0 <= k < e.len(),
    ensures
        endpoints_bytes(e).subrange(4 * k, 4 * k + 4) =~= spec_u32_to_le_bytes(u32_rep(e[k] as int)),
    decreases e.len(),
{
    vstd::bytes::lemma_auto_spec_u32_to_from_le_bytes();
    lemma_endpoints_bytes_len(e);
    if k == e.len() - 1 {
        lemma_endpoints_bytes_len(e.drop_last());
        assert(endpoints_bytes(e) == endpoints_bytes(e.drop_last()) + spec_u32_to_le_bytes(
            u32_rep(e.last() as int),
        ));
        assert(endpoints_bytes(e).subrange(4 * k, 4 * k + 4) =~= spec_u32_to_le_bytes(
            u32_rep(e[k] as int),
        ));
    } else {
        lemma_endpoints_bytes_at(e.drop_last(), k);
        lemma_endpoints_bytes_len(e.drop_last());
        assert(e.drop_last()[k] == e[k]);
        assert(endpoints_bytes(e).subrange(4 * k, 4 * k + 4) =~= endpoints_bytes(
            e.drop_last(),
        ).subrange(4 * k, 4 * k + 4));
    }
}

impl BMP {
    /// Synthesizes a fresh image: a 14-byte file header, a 124-byte V5 DIB
    /// header declaring 32-bit BI_BITFIELDS pixels with the canonical
    /// byte-aligned masks, and every pixel set to `default_color` (opaque
    /// white when absent).
    pub fn new(height: i32, width: u32, default_color: Option<[u8; 4]>) -> (r: BMP)
        requires
            138 + 4 * spec_abs(height as int) * width <= u32::MAX,
        ensures
            !r.from_file,
            r.contents@.len() == 138 + 4 * spec_abs(height as int) * width,
            dib_parse_ok(r.contents@),
            fh_off_bits(r.contents@) == 138,
            fh_size(r.contents@) == r.contents@.len(),
            dib_size(r.contents@) == 124,
            dib_width(r.contents@) == width,
            dib_height(r.contents@) == height as int,
            dib_bitcount(r.contents@) == 32,
            dib_comp_code(r.contents@) == 3,
            r.contents@.subrange(0, 2) =~= seq![0x42u8, 0x4Du8],
            crate::header::dib_planes(r.contents@) == 1,
            crate::header::dib_red_mask(r.contents@) == 0xFF0000,
            crate::header::dib_green_mask(r.contents@) == 0xFF00,
            crate::header::dib_blue_mask(r.contents@) == 0xFF,
            crate::header::dib_alpha_mask(r.contents@) == 0xFF000000,
            height != 0 && 1 <= width <= 0xFFFF && spec_abs(height as int) <= 0xFFFF ==> editable(
                r.contents@,
            ),
            height != 0 && 1 <= width <= 0xFFFF && spec_abs(height as int) <= 0xFFFF ==> forall|
                x: int,
                y: int,
            |
                0 <= x < width && 0 <= y < spec_abs(height as int) ==> #[trigger] pixel_group(
                    r.contents@,
                    x,
                    y,
                ) == seq![
                    spec_fill_color(default_color)[2],
                    spec_fill_color(default_color)[1],
                    spec_fill_color(default_color)[0],
                    spec_fill_color(default_color)[3],
                ],
            height != 0 && 1 <= width <= 0xFFFF && spec_abs(height as int) <= 0xFFFF ==> forall|
                x: int,
                y: int,
            |
                0 <= x < width && 0 <= y < spec_abs(height as int) ==> #[trigger] spec_resolve(
                    r.contents@,
                    x,
                    y,
                ) == Ok::<Seq<u8>, crate::errors::ErrorKind>(spec_fill_color(default_color)),
    {
        let habs: u32 = if height < 0 {
            ((-(height as i64)) as u64) as u32
        } else {
            height as u32
        };
        proof {
            assert(habs == spec_abs(height as int));
            assert(4 * (habs as int) * (width as int) == 4 * ((habs as int) * (width as int)))
                by (nonlinear_arith);
        }
        let size64: u64 = 138 + (4 * habs as u64) * (width as u64);
        proof {
            assert((4 * (habs as int)) * (width as int) == 4 * (habs as int) * (width as int))
                by (nonlinear_arith);
        }
        let size: u32 = size64 as u32;
        let file_header = BITMAPFILEHEADER {
            bfType: make_pair(0x42, 0x4D),
            bfSize: size,
            bfReserved1: make_pair(0, 0),
            bfReserved2: make_pair(0, 0),
            bfOffBits: 138,
        };
        let mut endpoints: Vec<i32> = Vec::new();
        endpoints.push(687194752);
        endpoints.push(354334816);
        endpoints.push(32212256);
        endpoints.push(322122560);
        endpoints.push(644245120);
        endpoints.push(107374144);
        endpoints.push(161061280);
        endpoints.push(64424508);
        endpoints.push(848256036);
        let mut reserved: Vec<u8> = Vec::new();
        reserved.push(0);
        reserved.push(0);
        reserved.push(0);
        reserved.push(0);
        let dib_header = DIBHEADER {
            size: 124,
            width,
            height,
            planes: 1,
            bitcount: 32,
            compression: Some(Compression::BiBitfields),
            sizeimage: Some(size),
            XPelsPerMeter: Some(3780),
            YPelsPerMeter: Some(3780),
            ClrUsed: Some(0),
            ClrImportant: Some(0),
            RedMask: Some(0xFF0000),
            GreenMask: Some(0xFF00),
            BlueMask: Some(0xFF),
            AlphaMask: Some(0xFF000000),
            // The color-space tag "BGRs", as its little-endian byte value.
            CSType: Some(0x73524742),
            Endpoints: Some(endpoints),
            GammaRed: Some(0),
            GammaGreen: Some(0),
            GammaBlue: Some(0),
            Intent: Some(Intent::LcsGmImages),
            ProfileData: Some(0),
            ProfileSize: Some(0),
            Reserved: Some(reserved),
        };
        let mut contents = file_header.to_bytes();
        let mut dib_bytes = dib_header.to_bytes();
        contents.append(&mut dib_bytes);
        let ghost hdr = contents@;
        proof {
            assert(hdr.len() == 138);
        }
        let fill: [u8; 4] = match default_color {
            Some(c) => c,
            None => [255, 255, 255, 255],
        };
        // Stored byte order is B, G, R, A under the masks above.
        let b0 = fill[2];
        let b1 = fill[1];
        let b2 = fill[0];
        let b3 = fill[3];
        let total: u64 = (habs as u64) * (width as u64);
        proof {
            assert((habs as int) * (width as int) * 4 + 138 <= u32::MAX);
            assert(total * 4 + 138 <= u32::MAX) by (nonlinear_arith)
                requires
                    total == (habs as int) * (width as int),
                    (habs as int) * (width as int) * 4 + 138 <= u32::MAX,
            ;
        }
        let ghost gfill = seq![b0, b1, b2, b3];
        let mut k: u64 = 0;
        while k < total
            invariant
                k <= total,
                total * 4 + 138 <= u32::MAX,
                gfill == seq![b0, b1, b2, b3],
                contents@.len() == 138 + 4 * k,
                contents@.subrange(0, 138) == hdr,
                forall|i: int|
                    138 <= i < contents@.len() ==> #[trigger] contents@[i] == fill_byte(gfill, i),
            decreases total - k,
        {
            let ghost before = contents@;
            contents.push(b0);
            contents.push(b1);
            contents.push(b2);
            contents.push(b3);
            proof {
                assert(contents@.subrange(0, 138) =~= before.subrange(0, 138));
                let base = 138 + 4 * (k as int);
                assert((base - 138) % 4 == 0 && (base + 1 - 138) % 4 == 1 && (base + 2 - 138) % 4
                    == 2 && (base + 3 - 138) % 4 == 3) by (nonlinear_arith)
                    requires
                        base == 138 + 4 * (k as int),
                        k >= 0,
                ;
                assert forall|i: int| 138 <= i < contents@.len() implies #[trigger] contents@[i]
                    == fill_byte(gfill, i) by {
                    if i < base {
                        assert(contents@[i] == before[i]);
                    }
                }
            }
            k = k + 1;
        }
        let r = BMP { contents, from_file: false };
        proof {
            let s = r.contents@;
            assert(s.subrange(14, 138) =~= dib_header.spec_bytes()) by {
                assert(s.subrange(0, 138) == hdr);
                assert(hdr.subrange(14, 138) =~= dib_header.spec_bytes());
                assert(s.subrange(14, 138) =~= hdr.subrange(14, 138));
            }
            lemma_parse_back(dib_header, s);
            assert(s.subrange(0, 14) =~= hdr.subrange(0, 14));
            assert(hdr.subrange(0, 14) =~= file_header.spec_bytes());
            lemma_fh_fields(file_header, s);
            assert(s.len() == 138 + 4 * (habs as int) * (width as int)
                && 4 * (habs as int) * (width as int) == 4 * ((habs as int) * (width as int)))
                by (nonlinear_arith)
                requires
                    s.len() == 138 + 4 * ((habs as int) * (width as int)),
            ;
            lemma_new_pixels(s, habs as int, width as int, seq![b0, b1, b2, b3], height as int);
            if height != 0 && 1 <= width <= 0xFFFF && habs <= 0xFFFF {
                lemma_editable_rows(s);
                assert forall|x: int, y: int|
                    0 <= x < width && 0 <= y < spec_abs(height as int) implies #[trigger]
                spec_resolve(s, x, y) == Ok::<Seq<u8>, crate::errors::ErrorKind>(
                    spec_fill_color(default_color),
                ) by {
                    assert(pixel_group(s, x, y) == seq![b0, b1, b2, b3]);
                    assert(crate::image::has_pixel_masks(s));
                    assert(crate::header::dib_alpha_mask(s) == 0xFF000000);
                    assert(crate::header::dib_red_mask(s) == 0xFF0000);
                    assert(crate::header::dib_blue_mask(s) == 0xFF);
                    assert(crate::image::perm32(s, seq![b0, b1, b2, b3]) =~= spec_fill_color(
                        default_color,
                    ));
                }
            }
        }
        r
    }
}

/// Builds a 2-byte vector.
fn make_pair(a: u8, b: u8) -> (r: Vec<u8>)
    ensures
        r@ =~= seq![a, b],
        r@.len() == 2,
{
    let mut v: Vec<u8> = Vec::new();
    v.push(a);
    v.push(b);
    v
}

/// The file-header fields a freshly serialized prefix parses back to.
proof fn lemma_fh_fields(fh: BITMAPFILEHEADER, s: Seq<u8>)
    requires
        fh.wf(),
        s.len() >= 14,
        s.subrange(0, 14) == fh.spec_bytes(),
    ensures
        fh_size(s) == fh.bfSize,
        fh_off_bits(s) == fh.bfOffBits,
        fh.matches(s),
{
    vstd::bytes::lemma_auto_spec_u32_to_from_le_bytes();
    let fb = fh.spec_bytes();
    assert forall|i: int| 0 <= i < 14 implies #[trigger] fb[i] == s[i] by {
        assert(s.subrange(0, 14)[i] == fb[i]);
    }
    assert(fb.subrange(0, 2) =~= fh.bfType@);
    assert(fb.subrange(2, 6) =~= spec_u32_to_le_bytes(fh.bfSize));
    assert(fb.subrange(6, 8) =~= fh.bfReserved1@);
    assert(fb.subrange(8, 10) =~= fh.bfReserved2@);
    assert(fb.subrange(10, 14) =~= spec_u32_to_le_bytes(fh.bfOffBits));
    assert(s.subrange(0, 2) =~= fb.subrange(0, 2));
    assert(s.subrange(2, 6) =~= fb.subrange(2, 6));
    assert(s.subrange(6, 8) =~= fb.subrange(6, 8));
    assert(s.subrange(8, 10) =~= fb.subrange(8, 10));
    assert(s.subrange(10, 14) =~= fb.subrange(10, 14));
}

/// A fresh 32-bit canvas whose pixel area repeats one 4-byte group is
/// editable (for nonzero in-range dimensions) and every pixel group is
/// that 4-byte group.
proof fn lemma_new_pixels(s: Seq<u8>, habs: int, width: int, g: Seq<u8>, height: int)
    requires
        dib_parse_ok(s),
        dib_size(s) == 124,
        dib_bitcount(s) == 32,
        dib_width(s) == width,
        dib_height(s) == height,
        habs == spec_abs(height),
        fh_off_bits(s) == 138,
        s.len() == 138 + 4 * (habs * width),
        g.len() == 4,
        forall|i: int| 138 <= i < s.len() ==> #[trigger] s[i] == fill_byte(g, i),
    ensures
        height != 0 && 1 <= width <= 0xFFFF && habs <= 0xFFFF ==> editable(s),
        height != 0 && 1 <= width <= 0xFFFF && habs <= 0xFFFF ==> forall|x: int, y: int|
            0 <= x < width && 0 <= y < habs ==> #[trigger] pixel_group(s, x, y) == g,
{
    if height != 0 && 1 <= width <= 0xFFFF && habs <= 0xFFFF {
        assert(stride_of(s) == 4 * width) by (nonlinear_arith)
            requires
                stride_of(s) == ((32 * width + 31) / 32) * 4,
                width >= 0,
        ;
        assert(habs * (4 * width) == 4 * (habs * width)) by (nonlinear_arith);
        assert((habs + 1) * (4 * width) == 4 * (habs * width) + 4 * width) by (nonlinear_arith);
        assert(editable(s));
        lemma_editable_rows(s);
        assert forall|x: int, y: int| 0 <= x < width && 0 <= y < habs implies #[trigger]
        pixel_group(s, x, y) == g by {
            lemma_group_in_bounds(s, x, y);
            let dr = crate::plane::disk_row(s, y);
            let j = dr * width + x;
            assert(0 <= j < habs * width) by (nonlinear_arith)
                requires
                    0 <= dr < habs,
                    0 <= x < width,
                    j == dr * width + x,
            ;
            assert(group_off(s, x, y) == 138 + 4 * j) by (nonlinear_arith)
                requires
                    group_off(s, x, y) == 138 + dr * (4 * width) + x * 4,
                    j == dr * width + x,
            ;
            let base = 138 + 4 * j;
            assert((base - 138) % 4 == 0 && (base + 1 - 138) % 4 == 1 && (base + 2 - 138) % 4 == 2
                && (base + 3 - 138) % 4 == 3) by (nonlinear_arith)
                requires
                    base == 138 + 4 * j,
                    j >= 0,
            ;
            assert(base + 4 <= s.len()) by (nonlinear_arith)
                requires
                    base == 138 + 4 * j,
                    j < habs * width,
                    s.len() == 138 + 4 * (habs * width),
            ;
            assert(pixel_group(s, x, y) =~= g);
        }
    }
}

} // verus!
