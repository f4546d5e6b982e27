//! Whole-image per-pixel operations: opacity rewrite, inversion and the
//! grayscale family, all funneled through one verified rewrite loop.
//!
//! Every pass snapshots the decoded plane before mutating, so reads never
//! see a half-rewritten image.

use vstd::prelude::*;

use crate::bmp::BMP;
use crate::color::{spec_grayscale, spec_invert, RGBAChannel};
use crate::errors::ErrorKind;
use crate::header::{dib_parse_ok, dib_size, dib_width};
use crate::image::{pixel_matches, plane_shaped, resolved_px, spec_resolve, spec_resolve_group};
use crate::plane::{abs_height, editable, group_size, lemma_editable_rows, lemma_group_in_bounds,
    num_rows, pixel_group, same_geometry};
use crate::write::{lemma_encode_resolve, lemma_matches_preserved, spec_encoded_px, spec_readback};

verus! {

/// Pixel `(x, y)` of `cur` stores some output of `f` on the color that
/// buffer `s` resolves there.
pub open spec fn group_mapped<F: Fn([u8; 4]) -> [u8; 4]>(
    f: F,
    s: Seq<u8>,
    cur: Seq<u8>,
    x: int,
    y: int,
) -> bool {
    exists|c1: [u8; 4], c2: [u8; 4]|
        {
            &&& c1@ == resolved_px(s, x, y)
            &&& #[trigger] call_ensures(f, (c1,), c2)
            &&& pixel_group(cur, x, y) == spec_encoded_px(s, c2@)
        }
}

/// Pixel `(x, y)` of `cur` resolves to some output of `f` on the color
/// that buffer `s` resolves there (alpha forced opaque at 24 bits).
pub open spec fn mapped_ok<F: Fn([u8; 4]) -> [u8; 4]>(
    f: F,
    s: Seq<u8>,
    cur: Seq<u8>,
    x: int,
    y: int,
) -> bool {
    exists|c1: [u8; 4], c2: [u8; 4]|
        {
            &&& c1@ == resolved_px(s, x, y)
            &&& #[trigger] call_ensures(f, (c1,), c2)
            &&& spec_resolve(cur, x, y) == Ok::<Seq<u8>, ErrorKind>(spec_readback(s, c2@))
        }
}

impl BMP {
    /// Rewrites every pixel to `f` of its current color, reading from a
    /// snapshot of the plane taken before the pass.  Fails `Unsupported`
    /// (leaving the image untouched) unless the image is editable.
    pub fn map_pixels<F: Fn([u8; 4]) -> [u8; 4]>(&mut self, f: F) -> (r: Result<(), ErrorKind>)
        requires
            forall|c: [u8; 4]| #[trigger] call_requires(f, (c,)),
        ensures
            ({
                let s = old(self).contents@;
                &&& r == (if editable(s) {
                    Ok::<(), ErrorKind>(())
                } else {
                    Err::<(), ErrorKind>(ErrorKind::Unsupported)
                })
                &&& (r is Err ==> *final(self) == *old(self))
                &&& (r is Ok ==> {
                    &&& final(self).from_file == old(self).from_file
                    &&& same_geometry(s, final(self).contents@)
                    &&& s.subrange(0, 14 + dib_size(s) as int) == final(self).contents@.subrange(
                        0,
                        14 + dib_size(s) as int,
                    )
                    &&& forall|x: int, y: int|
                        0 <= x < dib_width(s) && 0 <= y < abs_height(s) ==> #[trigger] mapped_ok(
                            f,
                            s,
                            final(self).contents@,
                            x,
                            y,
                        )
                })
            }),
    {
        let ghost s = self.contents@;
        let ghost was_from_file = self.from_file;
        let dib_header = match self.get_dib_header() {
            Ok(h) => h,
            Err(e) => {
                return Err(e);
            },
        };
        if !self.is_editable(&dib_header) {
            return Err(ErrorKind::Unsupported);
        }
        proof {
            lemma_editable_rows(s);
        }
        let header = self.get_header();
        let colors = self.snapshot_colors(&dib_header);
        let width: u16 = dib_header.width as u16;
        let habs: u16 = if dib_header.height < 0 {
            (((-(dib_header.height as i64)) as u64) as u32) as u16
        } else {
            (dib_header.height as u32) as u16
        };
        proof {
            assert(habs == abs_height(s));
            assert(width == dib_width(s));
        }
        let ghost hdr_end = 14 + dib_size(s) as int;
        let mut y: u16 = 0;
        while y < habs
            invariant
                forall|c: [u8; 4]| #[trigger] call_requires(f, (c,)),
                editable(s),
                dib_header.wf(),
                pixel_matches(dib_header, s),
                pixel_matches(dib_header, self.contents@),
                dib_parse_ok(self.contents@),
                header.matches(self.contents@),
                same_geometry(s, self.contents@),
                hdr_end == 14 + dib_size(s),
                s.subrange(0, hdr_end) == self.contents@.subrange(0, hdr_end),
                self.from_file == was_from_file,
                width == dib_width(s),
                habs == abs_height(s),
                y <= habs,
                colors@.len() == abs_height(s),
                forall|j: int| 0 <= j < habs ==> (#[trigger] colors@[j])@.len() == width,
                forall|j: int, i: int|
                    0 <= j < habs && 0 <= i < width ==> (#[trigger] colors@[j]@[i])@ == resolved_px(
                        s,
                        i,
                        j,
                    ),
                forall|x2: int, y2: int|
                    0 <= x2 < width && 0 <= y2 < habs && y2 < y ==> #[trigger] group_mapped(
                        f,
                        s,
                        self.contents@,
                        x2,
                        y2,
                    ),
                forall|x2: int, y2: int|
                    0 <= x2 < width && 0 <= y2 < habs && y2 >= y ==> #[trigger] pixel_group(
                        self.contents@,
                        x2,
                        y2,
                    ) == pixel_group(s, x2, y2),
            decreases habs - y,
        {
            let mut x: u16 = 0;
            while x < width
                invariant
                    forall|c: [u8; 4]| #[trigger] call_requires(f, (c,)),
                    editable(s),
                    dib_header.wf(),
                    pixel_matches(dib_header, s),
                    pixel_matches(dib_header, self.contents@),
                    dib_parse_ok(self.contents@),
                    header.matches(self.contents@),
                    same_geometry(s, self.contents@),
                    hdr_end == 14 + dib_size(s),
                    s.subrange(0, hdr_end) == self.contents@.subrange(0, hdr_end),
                    self.from_file == was_from_file,
                    width == dib_width(s),
                    habs == abs_height(s),
                    y < habs,
                    x <= width,
                    colors@.len() == abs_height(s),
                    forall|j: int| 0 <= j < habs ==> (#[trigger] colors@[j])@.len() == width,
                    forall|j: int, i: int|
                        0 <= j < habs && 0 <= i < width ==> (#[trigger] colors@[j]@[i])@
                            == resolved_px(s, i, j),
                    forall|x2: int, y2: int|
                        0 <= x2 < width && 0 <= y2 < habs && (y2 < y || (y2 == y && x2 < x))
                            ==> #[trigger] group_mapped(f, s, self.contents@, x2, y2),
                    forall|x2: int, y2: int|
                        0 <= x2 < width && 0 <= y2 < habs && (y2 > y || (y2 == y && x2 >= x))
                            ==> #[trigger] pixel_group(self.contents@, x2, y2) == pixel_group(
                            s,
                            x2,
                            y2,
                        ),
                decreases width - x,
            {
                let ghost cur = self.contents@;
                let old_color = colors[y as usize][x as usize];
                proof {
                    assert(old_color@ == resolved_px(s, x as int, y as int));
                }
                let new_color = f(old_color);
                let res = self.change_color_of_pixel_efficient(
                    x,
                    y,
                    new_color,
                    &dib_header,
                    &header,
                );
                proof {
                    assert(res is Ok);
                    let now = self.contents@;
                    assert(s.subrange(0, hdr_end) == now.subrange(0, hdr_end));
                    lemma_matches_preserved(dib_header, header, cur, now);
                    assert(spec_encoded_px(cur, new_color@) == spec_encoded_px(s, new_color@));
                    assert(pixel_group(now, x as int, y as int) == spec_encoded_px(
                        s,
                        new_color@,
                    ));
                    assert(group_mapped(f, s, now, x as int, y as int));
                    assert forall|x2: int, y2: int|
                        0 <= x2 < width && 0 <= y2 < habs && (y2 > y || (y2 == y && x2 >= x + 1))
                            implies #[trigger] pixel_group(now, x2, y2) == pixel_group(
                        s,
                        x2,
                        y2,
                    ) by {
                        assert(pixel_group(now, x2, y2) == pixel_group(cur, x2, y2));
                    }
                    assert forall|x2: int, y2: int|
                        0 <= x2 < width && 0 <= y2 < habs && (y2 < y || (y2 == y && x2 < x + 1))
                            implies #[trigger] group_mapped(f, s, now, x2, y2) by {
                        if (x2, y2) != (x as int, y as int) {
                            assert(group_mapped(f, s, cur, x2, y2));
                            let (c1, c2) = choose|c1: [u8; 4], c2: [u8; 4]|
                                {
                                    &&& c1@ == resolved_px(s, x2, y2)
                                    &&& #[trigger] call_ensures(f, (c1,), c2)
                                    &&& pixel_group(cur, x2, y2) == spec_encoded_px(s, c2@)
                                };
                            assert(pixel_group(now, x2, y2) == pixel_group(cur, x2, y2));
                        }
                    }
                }
                x = x + 1;
            }
            y = y + 1;
        }
        proof {
            let now = self.contents@;
            assert forall|x2: int, y2: int|
                0 <= x2 < dib_width(s) && 0 <= y2 < abs_height(s) implies #[trigger] mapped_ok(
                f,
                s,
                now,
                x2,
                y2,
            ) by {
                assert(group_mapped(f, s, now, x2, y2));
                let (c1, c2) = choose|c1: [u8; 4], c2: [u8; 4]|
                    {
                        &&& c1@ == resolved_px(s, x2, y2)
                        &&& #[trigger] call_ensures(f, (c1,), c2)
                        &&& pixel_group(now, x2, y2) == spec_encoded_px(s, c2@)
                    };
                lemma_encode_resolve(s, c2@);
                assert(spec_resolve_group(now, spec_encoded_px(s, c2@)) == spec_resolve_group(
                    s,
                    spec_encoded_px(s, c2@),
                ));
                assert(spec_resolve(now, x2, y2) == spec_resolve_group(
                    now,
                    pixel_group(now, x2, y2),
                ));
            }
        }
        Ok(())
    }

    /// Rewrites every pixel's alpha channel to `opacity`, channels
    /// unchanged (up to the forced alpha of 24-bit storage).
    pub fn change_opacity(&mut self, opacity: u8) -> (r: Result<(), ErrorKind>)
        ensures
            ({
                let s = old(self).contents@;
                &&& r == (if editable(s) {
                    Ok::<(), ErrorKind>(())
                } else {
                    Err::<(), ErrorKind>(ErrorKind::Unsupported)
                })
                &&& (r is Err ==> *final(self) == *old(self))
                &&& (r is Ok ==> final(self).from_file == old(self).from_file && same_geometry(
                    s,
                    final(self).contents@,
                ) && s.subrange(0, 14 + dib_size(s) as int) == final(self).contents@.subrange(
                    0,
                    14 + dib_size(s) as int,
                ) && forall|x: int, y: int|
                    0 <= x < dib_width(s) && 0 <= y < abs_height(s) ==> #[trigger] spec_resolve(
                        final(self).contents@,
                        x,
                        y,
                    ) == Ok::<Seq<u8>, ErrorKind>(
                        spec_readback(
                            s,
                            seq![
                                resolved_px(s, x, y)[0],
                                resolved_px(s, x, y)[1],
                                resolved_px(s, x, y)[2],
                                opacity,
                            ],
                        ),
                    ))
            }),
    {
        let f = |c: [u8; 4]| -> (ret: [u8; 4])
            ensures
                ret@ =~= seq![c[0], c[1], c[2], opacity],
            { [c[0], c[1], c[2], opacity] };
        let ghost s = self.contents@;
        let r = self.map_pixels(f);
        proof {
            if r is Ok {
                assert forall|x: int, y: int|
                    0 <= x < dib_width(s) && 0 <= y < abs_height(s) implies #[trigger]
                spec_resolve(self.contents@, x, y) == Ok::<Seq<u8>, ErrorKind>(
                    spec_readback(
                        s,
                        seq![
                            resolved_px(s, x, y)[0],
                            resolved_px(s, x, y)[1],
                            resolved_px(s, x, y)[2],
                            opacity,
                        ],
                    ),
                ) by {
                    assert(mapped_ok(f, s, self.contents@, x, y));
                    let (c1, c2) = choose|c1: [u8; 4], c2: [u8; 4]|
                        {
                            &&& c1@ == resolved_px(s, x, y)
                            &&& #[trigger] call_ensures(f, (c1,), c2)
                            &&& spec_resolve(self.contents@, x, y) == Ok::<Seq<u8>, ErrorKind>(
                                spec_readback(s, c2@),
                            )
                        };
                    assert(c2@ =~= seq![
                        resolved_px(s, x, y)[0],
                        resolved_px(s, x, y)[1],
                        resolved_px(s, x, y)[2],
                        opacity,
                    ]);
                }
            }
        }
        r
    }

    /// Inverts R, G and B of every pixel (`255 - v`), and alpha as well
    /// when `invert_alpha` is `Some(true)`.
    pub fn invert(&mut self, invert_alpha: Option<bool>) -> (r: Result<(), ErrorKind>)
        ensures
            ({
                let s = old(self).contents@;
                let flag = invert_alpha == Some(true);
                &&& r == (if editable(s) {
                    Ok::<(), ErrorKind>(())
                } else {
                    Err::<(), ErrorKind>(ErrorKind::Unsupported)
                })
                &&& (r is Err ==> *final(self) == *old(self))
                &&& (r is Ok ==> final(self).from_file == old(self).from_file && same_geometry(
                    s,
                    final(self).contents@,
                ) && s.subrange(0, 14 + dib_size(s) as int) == final(self).contents@.subrange(
                    0,
                    14 + dib_size(s) as int,
                ) && forall|x: int, y: int|
                    0 <= x < dib_width(s) && 0 <= y < abs_height(s) ==> #[trigger] spec_resolve(
                        final(self).contents@,
                        x,
                        y,
                    ) == Ok::<Seq<u8>, ErrorKind>(
                        spec_readback(s, spec_invert(resolved_px(s, x, y), flag)),
                    ))
            }),
    {
        let flag: bool = match invert_alpha {
            Some(b) => b,
            None => false,
        };
        let f = |c: [u8; 4]| -> (ret: [u8; 4])
            ensures
                ret@ =~= spec_invert(c@, flag),
            {
                [
                    255 - c[0],
                    255 - c[1],
                    255 - c[2],
                    if flag {
                        255 - c[3]
                    } else {
                        c[3]
                    },
                ]
            };
        let ghost s = self.contents@;
        let r = self.map_pixels(f);
        proof {
            if r is Ok {
                assert forall|x: int, y: int|
                    0 <= x < dib_width(s) && 0 <= y < abs_height(s) implies #[trigger]
                spec_resolve(self.contents@, x, y) == Ok::<Seq<u8>, ErrorKind>(
                    spec_readback(s, spec_invert(resolved_px(s, x, y), invert_alpha == Some(true))),
                ) by {
                    assert(mapped_ok(f, s, self.contents@, x, y));
                    let (c1, c2) = choose|c1: [u8; 4], c2: [u8; 4]|
                        {
                            &&& c1@ == resolved_px(s, x, y)
                            &&& #[trigger] call_ensures(f, (c1,), c2)
                            &&& spec_resolve(self.contents@, x, y) == Ok::<Seq<u8>, ErrorKind>(
                                spec_readback(s, c2@),
                            )
                        };
                    assert(c2@ =~= spec_invert(resolved_px(s, x, y), flag));
                }
            }
        }
        r
    }

    /// Replaces every pixel by its luma gray, preserving alpha.
    pub fn grayscale(&mut self) -> (r: Result<(), ErrorKind>)
        ensures
            ({
                let s = old(self).contents@;
                &&& r == (if editable(s) {
                    Ok::<(), ErrorKind>(())
                } else {
                    Err::<(), ErrorKind>(ErrorKind::Unsupported)
                })
                &&& (r is Err ==> *final(self) == *old(self))
                &&& (r is Ok ==> final(self).from_file == old(self).from_file && same_geometry(
                    s,
                    final(self).contents@,
                ) && s.subrange(0, 14 + dib_size(s) as int) == final(self).contents@.subrange(
                    0,
                    14 + dib_size(s) as int,
                ) && forall|x: int, y: int|
                    0 <= x < dib_width(s) && 0 <= y < abs_height(s) ==> #[trigger] spec_resolve(
                        final(self).contents@,
                        x,
                        y,
                    ) == Ok::<Seq<u8>, ErrorKind>(
                        spec_readback(s, spec_grayscale(resolved_px(s, x, y))),
                    ))
            }),
    {
        let f = |c: [u8; 4]| -> (ret: [u8; 4])
            ensures
                ret@ =~= spec_grayscale(c@),
            { BMP::rgb_to_grayscale(c) };
        let ghost s = self.contents@;
        let r = self.map_pixels(f);
        proof {
            if r is Ok {
                assert forall|x: int, y: int|
                    0 <= x < dib_width(s) && 0 <= y < abs_height(s) implies #[trigger]
                spec_resolve(self.contents@, x, y) == Ok::<Seq<u8>, ErrorKind>(
                    spec_readback(s, spec_grayscale(resolved_px(s, x, y))),
                ) by {
                    assert(mapped_ok(f, s, self.contents@, x, y));
                    let (c1, c2) = choose|c1: [u8; 4], c2: [u8; 4]|
                        {
                            &&& c1@ == resolved_px(s, x, y)
                            &&& #[trigger] call_ensures(f, (c1,), c2)
                            &&& spec_resolve(self.contents@, x, y) == Ok::<Seq<u8>, ErrorKind>(
                                spec_readback(s, c2@),
                            )
                        };
                    assert(c2@ =~= spec_grayscale(resolved_px(s, x, y)));
                }
            }
        }
        r
    }

    /// `grayscale` under its other spelling.
    pub fn greyscale(&mut self) -> (r: Result<(), ErrorKind>)
        ensures
            ({
                let s = old(self).contents@;
                &&& r == (if editable(s) {
                    Ok::<(), ErrorKind>(())
                } else {
                    Err::<(), ErrorKind>(ErrorKind::Unsupported)
                })
                &&& (r is Err ==> *final(self) == *old(self))
                &&& (r is Ok ==> final(self).from_file == old(self).from_file && same_geometry(
                    s,
                    final(self).contents@,
                ) && s.subrange(0, 14 + dib_size(s) as int) == final(self).contents@.subrange(
                    0,
                    14 + dib_size(s) as int,
                ) && forall|x: int, y: int|
                    0 <= x < dib_width(s) && 0 <= y < abs_height(s) ==> #[trigger] spec_resolve(
                        final(self).contents@,
                        x,
                        y,
                    ) == Ok::<Seq<u8>, ErrorKind>(
                        spec_readback(s, spec_grayscale(resolved_px(s, x, y))),
                    ))
            }),
    {
        self.grayscale()
    }

    /// Replicates one channel into R, G and B (alpha preserved); selecting
    /// the alpha channel replicates it into all four.
    pub fn channel_grayscale(&mut self, channel: RGBAChannel) -> (r: Result<(), ErrorKind>)
        ensures
            ({
                let s = old(self).contents@;
                &&& r == (if editable(s) {
                    Ok::<(), ErrorKind>(())
                } else {
                    Err::<(), ErrorKind>(ErrorKind::Unsupported)
                })
                &&& (r is Err ==> *final(self) == *old(self))
                &&& (r is Ok ==> final(self).from_file == old(self).from_file && same_geometry(
                    s,
                    final(self).contents@,
                ) && s.subrange(0, 14 + dib_size(s) as int) == final(self).contents@.subrange(
                    0,
                    14 + dib_size(s) as int,
                ) && forall|x: int, y: int|
                    0 <= x < dib_width(s) && 0 <= y < abs_height(s) ==> #[trigger] spec_resolve(
                        final(self).contents@,
                        x,
                        y,
                    ) == Ok::<Seq<u8>, ErrorKind>(
                        spec_readback(s, spec_channel_gray(resolved_px(s, x, y), channel)),
                    ))
            }),
    {
        let f = |c: [u8; 4]| -> (ret: [u8; 4])
            ensures
                ret@ =~= spec_channel_gray(c@, channel),
            {
                match channel {
                    RGBAChannel::Red => [c[0], c[0], c[0], c[3]],
                    RGBAChannel::Green => [c[1], c[1], c[1], c[3]],
                    RGBAChannel::Blue => [c[2], c[2], c[2], c[3]],
                    RGBAChannel::Alpha => [c[3], c[3], c[3], c[3]],
                }
            };
        let ghost s = self.contents@;
        let r = self.map_pixels(f);
        proof {
            if r is Ok {
                assert forall|x: int, y: int|
                    0 <= x < dib_width(s) && 0 <= y < abs_height(s) implies #[trigger]
                spec_resolve(self.contents@, x, y) == Ok::<Seq<u8>, ErrorKind>(
                    spec_readback(s, spec_channel_gray(resolved_px(s, x, y), channel)),
                ) by {
                    assert(mapped_ok(f, s, self.contents@, x, y));
                    let (c1, c2) = choose|c1: [u8; 4], c2: [u8; 4]|
                        {
                            &&& c1@ == resolved_px(s, x, y)
                            &&& #[trigger] call_ensures(f, (c1,), c2)
                            &&& spec_resolve(self.contents@, x, y) == Ok::<Seq<u8>, ErrorKind>(
                                spec_readback(s, c2@),
                            )
                        };
                    assert(c2@ =~= spec_channel_gray(resolved_px(s, x, y), channel));
                }
            }
        }
        r
    }
}

/// One channel replicated into R, G, B — and into alpha too when alpha
/// itself is the selected channel.
pub open spec fn spec_channel_gray(c: Seq<u8>, channel: RGBAChannel) -> Seq<u8>
    recommends
        c.len() == 4,
{
    match channel {
        RGBAChannel::Red => seq![c[0], c[0], c[0], c[3]],
        RGBAChannel::Green => seq![c[1], c[1], c[1], c[3]],
        RGBAChannel::Blue => seq![c[2], c[2], c[2], c[3]],
        RGBAChannel::Alpha => seq![c[3], c[3], c[3], c[3]],
    }
}

/// Inverting twice restores every pixel: starting from an editable image,
/// two `invert` passes with the same alpha choice leave each pixel's
/// resolved color as it began.
pub proof fn lemma_invert_twice_restores(s0: Seq<u8>, s1: Seq<u8>, s2: Seq<u8>, flag: bool)
    requires
        editable(s0),
        same_geometry(s0, s1),
        same_geometry(s1, s2),
        forall|x: int, y: int|
            0 <= x < dib_width(s0) && 0 <= y < abs_height(s0) ==> #[trigger] spec_resolve(s1, x, y)
                == Ok::<Seq<u8>, ErrorKind>(spec_readback(s0, spec_invert(resolved_px(s0, x, y), flag))),
        forall|x: int, y: int|
            0 <= x < dib_width(s1) && 0 <= y < abs_height(s1) ==> #[trigger] spec_resolve(s2, x, y)
                == Ok::<Seq<u8>, ErrorKind>(spec_readback(s1, spec_invert(resolved_px(s1, x, y), flag))),
        !flag,
    ensures
        forall|x: int, y: int|
            0 <= x < dib_width(s0) && 0 <= y < abs_height(s0) ==> {
                &&& #[trigger] spec_resolve(s2, x, y) is Ok
                &&& resolved_px(s2, x, y)[0] == resolved_px(s0, x, y)[0]
                &&& resolved_px(s2, x, y)[1] == resolved_px(s0, x, y)[1]
                &&& resolved_px(s2, x, y)[2] == resolved_px(s0, x, y)[2]
                &&& resolved_px(s2, x, y)[3] == resolved_px(s0, x, y)[3]
            },
{
    lemma_editable_rows(s0);
    assert forall|x: int, y: int| 0 <= x < dib_width(s0) && 0 <= y < abs_height(s0) implies {
        &&& #[trigger] spec_resolve(s2, x, y) is Ok
        &&& resolved_px(s2, x, y)[0] == resolved_px(s0, x, y)[0]
        &&& resolved_px(s2, x, y)[1] == resolved_px(s0, x, y)[1]
        &&& resolved_px(s2, x, y)[2] == resolved_px(s0, x, y)[2]
        &&& resolved_px(s2, x, y)[3] == resolved_px(s0, x, y)[3]
    } by {
        let c0 = resolved_px(s0, x, y);
        assert(spec_resolve(s1, x, y) == Ok::<Seq<u8>, ErrorKind>(
            spec_readback(s0, spec_invert(c0, flag)),
        ));
        let c1 = resolved_px(s1, x, y);
        assert(c1 == spec_readback(s0, spec_invert(c0, flag)));
        assert(spec_resolve(s2, x, y) == Ok::<Seq<u8>, ErrorKind>(
            spec_readback(s1, spec_invert(c1, flag)),
        ));
        let c2 = resolved_px(s2, x, y);
        assert(c2 == spec_readback(s1, spec_invert(c1, flag)));
        // The resolve dispatch at 24 bits always yields alpha 255, so the
        // starting alpha equals 255 there and survives both readbacks.
        if crate::header::dib_bitcount(s0) == 24 {
            lemma_resolved_alpha_24(s0, x, y);
            assert(c0[3] == 255);
        }
    }
}

/// At 24 bits every resolved color is fully opaque.
proof fn lemma_resolved_alpha_24(s: Seq<u8>, x: int, y: int)
    requires
        editable(s),
        crate::header::dib_bitcount(s) == 24,
        0 <= x < dib_width(s),
        0 <= y < abs_height(s),
    ensures
        spec_resolve(s, x, y) is Ok,
        resolved_px(s, x, y)[3] == 255,
        resolved_px(s, x, y).len() == 4,
{
    lemma_editable_rows(s);
}

} // verus!
