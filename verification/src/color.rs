//! Pure color math: hex conversion, alpha compositing, grayscale luma.
//!
//! A color is a canonical `[u8; 4]` RGBA tuple.  Compositing and luma are
//! specified with exact rational arithmetic, rounded to the nearest integer
//! (halves away from zero, all values non-negative).

use vstd::prelude::*;

use crate::bmp::BMP;

verus! {

/// Selects one of the four channels of an RGBA color.
#[derive(Clone, Copy, PartialEq, Eq, Structural, Debug)]
pub enum RGBAChannel {
    Red,
    Green,
    Blue,
    Alpha,
}

/// The sixteen upper-case hex digits, in value order.
pub open spec fn spec_hex_digits() -> Seq<char> {
    seq!['0', '1', '2', '3', '4', '5', '6', '7', '8', '9', 'A', 'B', 'C', 'D', 'E', 'F']
}

/// The numeric value of an upper-case hex digit, or 16 for any other char.
pub open spec fn spec_hex_val(c: char) -> int {
    if spec_hex_digits().contains(c) {
        spec_hex_digits().index_of(c)
    } else {
        16
    }
}

/// Whether `c` is an upper-case hex digit.
pub open spec fn is_hex_digit(c: char) -> bool {
    spec_hex_digits().contains(c)
}

/// `round(n / d)` for non-negative `n` and positive `d`, halves rounded up.
pub open spec fn round_div(n: int, d: int) -> int
    recommends
        n >= 0,
        d > 0,
{
    (2 * n + d) / (2 * d)
}

/// Denominator of the Porter-Duff "over" fractions, scaled by 255·255:
/// `255·a1 + a2·(255 - a1)` where `a1`,`a2` are the two alpha bytes.
pub open spec fn composite_den(a1: int, a2: int) -> int {
    255 * a1 + a2 * (255 - a1)
}

/// One channel of `composite`: `round((c1·a1 + c2·a2·(1-a1)) / a0)` written
/// over the common denominator `composite_den`.
pub open spec fn composite_chan(c1: int, a1: int, c2: int, a2: int) -> int {
    round_div(255 * c1 * a1 + c2 * a2 * (255 - a1), composite_den(a1, a2))
}

/// Porter-Duff "source-over" of top color `c1` over bottom color `c2`,
/// channels rounded to nearest.  Both alpha fractions vanishing (both
/// alphas zero) means the bottom layer contributes nothing: the top color
/// comes back unchanged, keeping a fully transparent bottom a no-op.
pub open spec fn spec_composite(c1: Seq<u8>, c2: Seq<u8>) -> Seq<u8>
    recommends
        c1.len() == 4,
        c2.len() == 4,
{
    let a1 = c1[3] as int;
    let a2 = c2[3] as int;
    if composite_den(a1, a2) == 0 {
        c1
    } else {
        seq![
            composite_chan(c1[0] as int, a1, c2[0] as int, a2) as u8,
            composite_chan(c1[1] as int, a1, c2[1] as int, a2) as u8,
            composite_chan(c1[2] as int, a1, c2[2] as int, a2) as u8,
            round_div(composite_den(a1, a2), 255) as u8,
        ]
    }
}

/// Luma of an RGBA color: `round(0.2126·R + 0.7152·G + 0.0722·B)`.
pub open spec fn spec_luma(c: Seq<u8>) -> int
    recommends
        c.len() == 4,
{
    round_div(2126 * (c[0] as int) + 7152 * (c[1] as int) + 722 * (c[2] as int), 10000)
}

/// Grayscale of a color: luma replicated into R, G, B, alpha preserved.
pub open spec fn spec_grayscale(c: Seq<u8>) -> Seq<u8>
    recommends
        c.len() == 4,
{
    seq![spec_luma(c) as u8, spec_luma(c) as u8, spec_luma(c) as u8, c[3]]
}

/// Channel inversion: `255 - v` on R, G, B, and on alpha only when asked.
pub open spec fn spec_invert(c: Seq<u8>, invert_alpha: bool) -> Seq<u8>
    recommends
        c.len() == 4,
{
    seq![
        (255 - c[0]) as u8,
        (255 - c[1]) as u8,
        (255 - c[2]) as u8,
        if invert_alpha {
            (255 - c[3]) as u8
        } else {
            c[3]
        },
    ]
}

/// Maps a hex digit value below 16 to its upper-case character.
fn hex_digit_str(d: u8) -> (r: &'static str)
    requires
        d < 16,
    ensures
        r@.len() == 1,
        r@[0] == spec_hex_digits()[d as int],
{
    proof {
        reveal_strlit("0");
        reveal_strlit("1");
        reveal_strlit("2");
        reveal_strlit("3");
        reveal_strlit("4");
        reveal_strlit("5");
        reveal_strlit("6");
        reveal_strlit("7");
        reveal_strlit("8");
        reveal_strlit("9");
        reveal_strlit("A");
        reveal_strlit("B");
        reveal_strlit("C");
        reveal_strlit("D");
        reveal_strlit("E");
        reveal_strlit("F");
    }
    match d {
        0 => "0",
        1 => "1",
        2 => "2",
        3 => "3",
        4 => "4",
        5 => "5",
        6 => "6",
        7 => "7",
        8 => "8",
        9 => "9",
        10 => "A",
        11 => "B",
        12 => "C",
        13 => "D",
        14 => "E",
        _ => "F",
    }
}

/// Maps an upper-case hex digit character to its value.
fn hex_char_val(c: char) -> (r: u8)
    requires
        is_hex_digit(c),
    ensures
        r == spec_hex_val(c),
        r < 16,
{
    proof {
        assert(spec_hex_digits()[spec_hex_digits().index_of(c)] == c);
    }
    match c {
        '0' => 0,
        '1' => 1,
        '2' => 2,
        '3' => 3,
        '4' => 4,
        '5' => 5,
        '6' => 6,
        '7' => 7,
        '8' => 8,
        '9' => 9,
        'A' => 10,
        'B' => 11,
        'C' => 12,
        'D' => 13,
        'E' => 14,
        _ => {
            proof {
                assert(c == 'F');
            }
            15
        },
    }
}

impl BMP {
    /// Encodes an RGBA color as its 8-character upper-case hex string,
    /// two digits per channel, R first.
    pub fn rgba_to_hex(rgba: [u8; 4]) -> (r: String)
        ensures
            r@.len() == 8,
            forall|i: int|
                0 <= i < 4 ==> r@[2 * i] == spec_hex_digits()[rgba@[i] as int / 16]
                    && r@[2 * i + 1] == spec_hex_digits()[rgba@[i] as int % 16],
    {
        let mut hex = String::new();
        let mut i: usize = 0;
        while i < 4
            invariant
                i <= 4,
                hex@.len() == 2 * i,
                forall|j: int|
                    0 <= j < i ==> hex@[2 * j] == spec_hex_digits()[rgba@[j] as int / 16]
                        && hex@[2 * j + 1] == spec_hex_digits()[rgba@[j] as int % 16],
            decreases 4 - i,
        {
            let num = rgba[i];
            hex.append(hex_digit_str(num / 16));
            hex.append(hex_digit_str(num % 16));
            i = i + 1;
        }
        hex
    }

    /// Decodes an 8-character upper-case hex string into an RGBA color,
    /// two digits per channel, R first.
    pub fn hex_to_rgba(hex: String) -> (r: [u8; 4])
        requires
            hex@.len() == 8,
            forall|i: int| 0 <= i < 8 ==> is_hex_digit(#[trigger] hex@[i]),
        ensures
            forall|i: int|
                0 <= i < 4 ==> r@[i] == 16 * spec_hex_val(hex@[2 * i]) + spec_hex_val(
                    hex@[2 * i + 1],
                ),
    {
        let s = hex.as_str();
        let mut rgba: [u8; 4] = [0, 0, 0, 0];
        let mut i: usize = 0;
        while i < 4
            invariant
                i <= 4,
                s@.len() == 8,
                forall|j: int| 0 <= j < 8 ==> is_hex_digit(#[trigger] s@[j]),
                forall|j: int|
                    0 <= j < i ==> rgba@[j] == 16 * spec_hex_val(s@[2 * j]) + spec_hex_val(
                        s@[2 * j + 1],
                    ),
            decreases 4 - i,
        {
            let hi = hex_char_val(s.get_char(2 * i));
            let lo = hex_char_val(s.get_char(2 * i + 1));
            rgba[i] = 16 * hi + lo;
            i = i + 1;
        }
        rgba
    }

    /// Porter-Duff "source-over" compositing of `color1` (top) over
    /// `color2` (bottom), exact to `spec_composite`.
    pub fn composite_colors(color1: [u8; 4], color2: [u8; 4]) -> (r: [u8; 4])
        ensures
            r@ == spec_composite(color1@, color2@),
    {
        let a1 = color1[3] as u64;
        let a2 = color2[3] as u64;
        proof {
            assert(a2 * (255 - a1) <= 65025) by (nonlinear_arith)
                requires
                    a1 <= 255,
                    a2 <= 255,
            ;
        }
        let den = 255 * a1 + a2 * (255 - a1);
        if den == 0 {
            proof {
                assert(color1@ == spec_composite(color1@, color2@));
            }
            color1
        } else {
            proof {
                lemma_composite_num_bound(color1@[0] as int, a1 as int, color2@[0] as int, a2 as int);
                lemma_composite_num_bound(color1@[1] as int, a1 as int, color2@[1] as int, a2 as int);
                lemma_composite_num_bound(color1@[2] as int, a1 as int, color2@[2] as int, a2 as int);
                lemma_composite_chan_bound(color1@[0] as int, a1 as int, color2@[0] as int, a2 as int);
                lemma_composite_chan_bound(color1@[1] as int, a1 as int, color2@[1] as int, a2 as int);
                lemma_composite_chan_bound(color1@[2] as int, a1 as int, color2@[2] as int, a2 as int);
            }
            let n0 = 255 * (color1[0] as u64) * a1 + (color2[0] as u64) * a2 * (255 - a1);
            let n1 = 255 * (color1[1] as u64) * a1 + (color2[1] as u64) * a2 * (255 - a1);
            let n2 = 255 * (color1[2] as u64) * a1 + (color2[2] as u64) * a2 * (255 - a1);
            let c0 = ((2 * n0 + den) / (2 * den)) as u8;
            let c1 = ((2 * n1 + den) / (2 * den)) as u8;
            let c2 = ((2 * n2 + den) / (2 * den)) as u8;
            let a0 = ((2 * den + 255) / 510) as u8;
            proof {
                assert([c0, c1, c2, a0]@ =~= spec_composite(color1@, color2@));
            }
            [c0, c1, c2, a0]
        }
    }

    /// Replaces R, G and B by the color's luma, preserving alpha.
    pub fn rgb_to_grayscale(rgba: [u8; 4]) -> (r: [u8; 4])
        ensures
            r@ == spec_grayscale(rgba@),
    {
        let s = 2126 * (rgba[0] as u32) + 7152 * (rgba[1] as u32) + 722 * (rgba[2] as u32);
        let gray = ((2 * s + 10000) / 20000) as u8;
        proof {
            assert([gray, gray, gray, rgba@[3]]@ =~= spec_grayscale(rgba@));
        }
        [gray, gray, gray, rgba[3]]
    }
}

/// The channel numerators of `composite` fit comfortably in 64 bits.
proof fn lemma_composite_num_bound(c1: int, a1: int, c2: int, a2: int)
    requires
        0 <= c1 <= 255,
        0 <= a1 <= 255,
        0 <= c2 <= 255,
        0 <= a2 <= 255,
    ensures
        0 <= 255 * c1 * a1 <= 0xfc05fc1,
        0 <= c2 * a2 <= 65025,
        0 <= c2 * a2 * (255 - a1) <= 0xfc05fc1,
{
    assert(0 <= c2 * a2 <= 65025) by (nonlinear_arith)
        requires
            0 <= c2 <= 255,
            0 <= a2 <= 255,
    ;
    assert(0 <= 255 * c1 * a1 <= 255 * 255 * 255) by (nonlinear_arith)
        requires
            0 <= c1 <= 255,
            0 <= a1 <= 255,
    ;
    assert(0 <= c2 * a2 * (255 - a1) <= 255 * 255 * 255) by (nonlinear_arith)
        requires
            0 <= c2 <= 255,
            0 <= a2 <= 255,
            0 <= a1 <= 255,
    ;
}

/// A composited channel value fits a byte: the numerator is at most 255
/// times the denominator.
proof fn lemma_composite_chan_bound(c1: int, a1: int, c2: int, a2: int)
    requires
        0 <= c1 <= 255,
        0 <= a1 <= 255,
        0 <= c2 <= 255,
        0 <= a2 <= 255,
        composite_den(a1, a2) > 0,
    ensures
        0 <= composite_chan(c1, a1, c2, a2) <= 255,
        0 <= round_div(composite_den(a1, a2), 255) <= 255,
{
    let den = composite_den(a1, a2);
    let num = 255 * c1 * a1 + c2 * a2 * (255 - a1);
    assert(num <= 255 * den) by (nonlinear_arith)
        requires
            0 <= c1 <= 255,
            0 <= a1 <= 255,
            0 <= c2 <= 255,
            0 <= a2 <= 255,
            den == 255 * a1 + a2 * (255 - a1),
            num == 255 * c1 * a1 + c2 * a2 * (255 - a1),
    ;
    assert(num >= 0) by (nonlinear_arith)
        requires
            0 <= c1 <= 255,
            0 <= a1 <= 255,
            0 <= c2 <= 255,
            0 <= a2 <= 255,
            num == 255 * c1 * a1 + c2 * a2 * (255 - a1),
    ;
    assert(den <= 65025) by (nonlinear_arith)
        requires
            0 <= a1 <= 255,
            0 <= a2 <= 255,
            den == 255 * a1 + a2 * (255 - a1),
    ;
    assert(2 * num + den <= 511 * den) by {
        assert(2 * num <= 510 * den);
    }
    assert((2 * num + den) / (2 * den) <= (511 * den) / (2 * den)) by {
        vstd::arithmetic::div_mod::lemma_div_is_ordered(2 * num + den, 511 * den, 2 * den);
    }
    assert((511 * den) / (2 * den) <= 255) by (nonlinear_arith)
        requires
            den > 0,
    ;
    assert((2 * num + den) / (2 * den) >= 0) by (nonlinear_arith)
        requires
            num >= 0,
            den > 0,
    ;
    assert((2 * den + 255) / 510 <= 255);
    assert((2 * den + 255) / 510 >= 0);
}

/// Compositing over a fully transparent bottom color is a no-op: the top
/// color comes back unchanged, whatever its own alpha.
pub proof fn lemma_composite_transparent_bottom(c1: Seq<u8>, c2: Seq<u8>)
    requires
        c1.len() == 4,
        c2.len() == 4,
        c2[3] == 0,
    ensures
        spec_composite(c1, c2) =~= c1,
{
    if c1[3] == 0 {
        assert(composite_den(c1[3] as int, c2[3] as int) == 0);
        return ;
    }
    let a1 = c1[3] as int;
    let den = composite_den(a1, 0);
    assert(den == 255 * a1);
    assert forall|c: int| 0 <= c <= 255 implies composite_chan(c, a1, c2[0] as int, 0) == c by {
        let num = 255 * c * a1;
        assert(composite_chan(c, a1, c2[0] as int, 0) == (2 * num + den) / (2 * den));
        assert((2 * (255 * c * a1) + 255 * a1) / (2 * (255 * a1)) == c) by (nonlinear_arith)
            requires
                0 < a1 <= 255,
                0 <= c <= 255,
        ;
    }
    assert(composite_chan(c1[0] as int, a1, c2[0] as int, 0) == 255 * c1[0] * a1 * 0 + c1[0])
        by {
        assert(composite_chan(c1[0] as int, a1, c2[0] as int, 0) == c1[0] as int);
    }
    assert(round_div(den, 255) == a1) by (nonlinear_arith)
        requires
            0 < a1 <= 255,
            den == 255 * a1,
    ;
    assert(composite_chan(c1[0] as int, a1, c2[0] as int, 0) == c1[0] as int);
    assert(composite_chan(c1[1] as int, a1, c2[1] as int, 0) == c1[1] as int) by {
        let num = 255 * (c1[1] as int) * a1;
        assert((2 * num + den) / (2 * den) == c1[1] as int) by (nonlinear_arith)
            requires
                0 < a1 <= 255,
                0 <= c1[1] as int <= 255,
                num == 255 * (c1[1] as int) * a1,
                den == 255 * a1,
        ;
    }
    assert(composite_chan(c1[2] as int, a1, c2[2] as int, 0) == c1[2] as int) by {
        let num = 255 * (c1[2] as int) * a1;
        assert((2 * num + den) / (2 * den) == c1[2] as int) by (nonlinear_arith)
            requires
                0 < a1 <= 255,
                0 <= c1[2] as int <= 255,
                num == 255 * (c1[2] as int) * a1,
                den == 255 * a1,
        ;
    }
}

/// Compositing a fully opaque top color over anything returns the top
/// color with alpha 255.
pub proof fn lemma_composite_opaque_top(c1: Seq<u8>, c2: Seq<u8>)
    requires
        c1.len() == 4,
        c2.len() == 4,
        c1[3] == 255,
    ensures
        spec_composite(c1, c2) =~= seq![c1[0], c1[1], c1[2], 255u8],
{
    let a2 = c2[3] as int;
    let den = composite_den(255, a2);
    assert(den == 65025);
    assert forall|c: int, c2v: int| 0 <= c <= 255 && 0 <= c2v <= 255 implies composite_chan(
        c,
        255,
        c2v,
        a2,
    ) == c by {
        let num = 255 * c * 255 + c2v * a2 * 0;
        assert(num == 65025 * c) by (nonlinear_arith)
            requires
                num == 255 * c * 255 + c2v * a2 * 0,
        ;
        assert((2 * (65025 * c) + 65025) / (2 * 65025int) == c) by (nonlinear_arith)
            requires
                0 <= c <= 255,
        ;
    }
    assert(round_div(den, 255) == 255) by {
        assert((2 * 65025int + 255) / (2 * 255int) == 255) by (nonlinear_arith);
    }
}

/// Inverting twice restores every channel: R, G and B always, and alpha
/// whenever it was preserved or inverted the same way both times.
pub proof fn lemma_invert_involution(c: Seq<u8>, invert_alpha: bool)
    requires
        c.len() == 4,
    ensures
        spec_invert(spec_invert(c, invert_alpha), invert_alpha) =~= c,
{
}

} // verus!
