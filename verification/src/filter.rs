//! Non-separable neighborhood filters: every pixel is recomputed from the
//! square window around it (out-of-image neighbors are skipped), through a
//! caller-supplied combining function; median and mean are the two stock
//! combiners.

use vstd::prelude::*;

use crate::bmp::BMP;
use crate::color::round_div;
use crate::errors::ErrorKind;
use crate::header::{dib_parse_ok, dib_size, dib_width};
use crate::image::{pixel_matches, plane_shaped, resolved_px, spec_resolve, spec_resolve_group};
use crate::plane::{abs_height, editable, group_size, lemma_editable_rows, lemma_group_in_bounds,
    num_rows, pixel_group, same_geometry};
use crate::write::{lemma_encode_resolve, lemma_matches_preserved, spec_encoded_px, spec_readback};

verus! {

/// The views of a list of exec colors.
pub open spec fn colors_view(v: Seq<[u8; 4]>) -> Seq<Seq<u8>> {
    Seq::new(v.len(), |i: int| v[i]@)
}

/// The neighborhood of `(x, y)` up to window cell `idx` (row-major over a
/// `(2r+1)²` window): the resolved colors of the in-bounds cells, in order.
pub open spec fn nbhd_upto(s: Seq<u8>, x: int, y: int, r: int, idx: int) -> Seq<Seq<u8>>
    decreases idx,
{
    if idx <= 0 {
        Seq::empty()
    } else {
        let prev = nbhd_upto(s, x, y, r, idx - 1);
        let di = idx - 1;
        let dy = di / (2 * r + 1) - r;
        let dx = di % (2 * r + 1) - r;
        if 0 <= x + dx < dib_width(s) && 0 <= y + dy < abs_height(s) {
            prev.push(resolved_px(s, x + dx, y + dy))
        } else {
            prev
        }
    }
}

/// The whole in-bounds neighborhood of `(x, y)` with window radius `r`.
pub open spec fn nbhd(s: Seq<u8>, x: int, y: int, r: int) -> Seq<Seq<u8>> {
    nbhd_upto(s, x, y, r, (2 * r + 1) * (2 * r + 1))
}

/// Pixel `(x, y)` of `cur` resolves to some output of `f` on the
/// neighborhood buffer `s` shows there.
pub open spec fn filtered_ok<F: Fn(u8, Vec<[u8; 4]>) -> [u8; 4]>(
    f: F,
    radius: u8,
    s: Seq<u8>,
    cur: Seq<u8>,
    x: int,
    y: int,
) -> bool {
    exists|v: Vec<[u8; 4]>, out: [u8; 4]|
        {
            &&& colors_view(v@) == nbhd(s, x, y, radius as int)
            &&& #[trigger] call_ensures(f, (radius, v), out)
            &&& spec_resolve(cur, x, y) == Ok::<Seq<u8>, ErrorKind>(spec_readback(s, out@))
        }
}

/// Like `filtered_ok`, at the byte-group level, for the loop invariants.
pub open spec fn filtered_group<F: Fn(u8, Vec<[u8; 4]>) -> [u8; 4]>(
    f: F,
    radius: u8,
    s: Seq<u8>,
    cur: Seq<u8>,
    x: int,
    y: int,
) -> bool {
    exists|v: Vec<[u8; 4]>, out: [u8; 4]|
        {
            &&& colors_view(v@) == nbhd(s, x, y, radius as int)
            &&& #[trigger] call_ensures(f, (radius, v), out)
            &&& pixel_group(cur, x, y) == spec_encoded_px(s, out@)
        }
}

impl BMP {
    /// Rewrites every pixel to `get_new_pixel` of its `(2·radius+1)²`
    /// window, gathered row-major from a snapshot taken before the pass;
    /// window cells outside the image are skipped rather than clamped.
    /// Fails `RadiusInvalid` for a radius of 0 or above 16 and
    /// `Unsupported` on a non-editable image, leaving the image untouched.
    pub fn surround_filter<F: Fn(u8, Vec<[u8; 4]>) -> [u8; 4]>(
        &mut self,
        radius: u8,
        get_new_pixel: F,
    ) -> (r: Result<(), ErrorKind>)
        requires
            forall|v: Vec<[u8; 4]>|
                v@.len() <= 0x10000 ==> #[trigger] call_requires(get_new_pixel, (radius, v)),
        ensures
            ({
                let s = old(self).contents@;
                &&& r == (if radius == 0 || radius > 16 {
                    Err::<(), ErrorKind>(ErrorKind::RadiusInvalid)
                } else if !editable(s) {
                    Err::<(), ErrorKind>(ErrorKind::Unsupported)
                } else {
                    Ok::<(), ErrorKind>(())
                })
                &&& (r is Err ==> *final(self) == *old(self))
                &&& (r is Ok ==> {
                    &&& final(self).from_file == old(self).from_file
                    &&& same_geometry(s, final(self).contents@)
                    &&& forall|x: int, y: int|
                        0 <= x < dib_width(s) && 0 <= y < abs_height(s) ==> #[trigger] filtered_ok(
                            get_new_pixel,
                            radius,
                            s,
                            final(self).contents@,
                            x,
                            y,
                        )
                })
            }),
    {
        let ghost s = self.contents@;
        let ghost was_from_file = self.from_file;
        if radius == 0 || radius > 16 {
            return Err(ErrorKind::RadiusInvalid);
        }
        let dib_header = match self.get_dib_header() {
            Ok(h) => h,
            Err(e) => {
                return Err(e);
            },
        };
        if !self.is_editable(&dib_header) {
            return Err(ErrorKind::Unsupported);
        }
        proof {
            lemma_editable_rows(s);
        }
        let header = self.get_header();
        let colors = self.snapshot_colors(&dib_header);
        let width: u16 = dib_header.width as u16;
        let habs: u16 = if dib_header.height < 0 {
            (((-(dib_header.height as i64)) as u64) as u32) as u16
        } else {
            (dib_header.height as u32) as u16
        };
        proof {
            assert(habs == abs_height(s));
            assert(width == dib_width(s));
        }
        let ghost hdr_end = 14 + dib_size(s) as int;
        let mut y: u16 = 0;
        while y < habs
            invariant
                forall|v: Vec<[u8; 4]>|
                    v@.len() <= 0x10000 ==> #[trigger] call_requires(get_new_pixel, (radius, v)),
                s == old(self).contents@,
                was_from_file == old(self).from_file,
                editable(s),
                1 <= radius <= 16,
                dib_header.wf(),
                pixel_matches(dib_header, s),
                pixel_matches(dib_header, self.contents@),
                dib_parse_ok(self.contents@),
                header.matches(self.contents@),
                same_geometry(s, self.contents@),
                hdr_end == 14 + dib_size(s),
                s.subrange(0, hdr_end) == self.contents@.subrange(0, hdr_end),
                self.from_file == was_from_file,
                width == dib_width(s),
                habs == abs_height(s),
                y <= habs,
                colors@.len() == abs_height(s),
                forall|j: int| 0 <= j < habs ==> (#[trigger] colors@[j])@.len() == width,
                forall|j: int, i: int|
                    0 <= j < habs && 0 <= i < width ==> (#[trigger] colors@[j]@[i])@ == resolved_px(
                        s,
                        i,
                        j,
                    ),
                forall|x2: int, y2: int|
                    0 <= x2 < width && 0 <= y2 < habs && y2 < y ==> #[trigger] filtered_group(
                        get_new_pixel,
                        radius,
                        s,
                        self.contents@,
                        x2,
                        y2,
                    ),
                forall|x2: int, y2: int|
                    0 <= x2 < width && 0 <= y2 < habs && y2 >= y ==> #[trigger] pixel_group(
                        self.contents@,
                        x2,
                        y2,
                    ) == pixel_group(s, x2, y2),
            decreases habs - y,
        {
            let mut x: u16 = 0;
            while x < width
                invariant
                    forall|v: Vec<[u8; 4]>|
                        v@.len() <= 0x10000 ==> #[trigger] call_requires(
                            get_new_pixel,
                            (radius, v),
                        ),
                    s == old(self).contents@,
                    was_from_file == old(self).from_file,
                    editable(s),
                    1 <= radius <= 16,
                    dib_header.wf(),
                    pixel_matches(dib_header, s),
                    pixel_matches(dib_header, self.contents@),
                    dib_parse_ok(self.contents@),
                    header.matches(self.contents@),
                    same_geometry(s, self.contents@),
                    hdr_end == 14 + dib_size(s),
                    s.subrange(0, hdr_end) == self.contents@.subrange(0, hdr_end),
                    self.from_file == was_from_file,
                    width == dib_width(s),
                    habs == abs_height(s),
                    y < habs,
                    x <= width,
                    colors@.len() == abs_height(s),
                    forall|j: int| 0 <= j < habs ==> (#[trigger] colors@[j])@.len() == width,
                    forall|j: int, i: int|
                        0 <= j < habs && 0 <= i < width ==> (#[trigger] colors@[j]@[i])@
                            == resolved_px(s, i, j),
                    forall|x2: int, y2: int|
                        0 <= x2 < width && 0 <= y2 < habs && (y2 < y || (y2 == y && x2 < x))
                            ==> #[trigger] filtered_group(
                            get_new_pixel,
                            radius,
                            s,
                            self.contents@,
                            x2,
                            y2,
                        ),
                    forall|x2: int, y2: int|
                        0 <= x2 < width && 0 <= y2 < habs && (y2 > y || (y2 == y && x2 >= x))
                            ==> #[trigger] pixel_group(self.contents@, x2, y2) == pixel_group(
                            s,
                            x2,
                            y2,
                        ),
                decreases width - x,
            {
                let surrounding = gather_window(
                    &colors,
                    radius,
                    x,
                    y,
                    width,
                    habs,
                    Ghost(s),
                );
                let new_color = get_new_pixel(radius, surrounding);
                let ghost cur = self.contents@;
                let res = self.change_color_of_pixel_efficient(
                    x,
                    y,
                    new_color,
                    &dib_header,
                    &header,
                );
                proof {
                    assert(res is Ok);
                    let now = self.contents@;
                    assert(s.subrange(0, hdr_end) == now.subrange(0, hdr_end));
                    lemma_matches_preserved(dib_header, header, cur, now);
                    assert(spec_encoded_px(cur, new_color@) == spec_encoded_px(s, new_color@));
                    assert(filtered_group(get_new_pixel, radius, s, now, x as int, y as int));
                    assert forall|x2: int, y2: int|
                        0 <= x2 < width && 0 <= y2 < habs && (y2 > y || (y2 == y && x2 >= x + 1))
                            implies #[trigger] pixel_group(now, x2, y2) == pixel_group(
                        s,
                        x2,
                        y2,
                    ) by {
                        assert(pixel_group(now, x2, y2) == pixel_group(cur, x2, y2));
                    }
                    assert forall|x2: int, y2: int|
                        0 <= x2 < width && 0 <= y2 < habs && (y2 < y || (y2 == y && x2 < x + 1))
                            implies #[trigger] filtered_group(
                        get_new_pixel,
                        radius,
                        s,
                        now,
                        x2,
                        y2,
                    ) by {
                        if (x2, y2) != (x as int, y as int) {
                            assert(filtered_group(get_new_pixel, radius, s, cur, x2, y2));
                            let (v, out) = choose|v: Vec<[u8; 4]>, out: [u8; 4]|
                                {
                                    &&& colors_view(v@) == nbhd(s, x2, y2, radius as int)
                                    &&& #[trigger] call_ensures(get_new_pixel, (radius, v), out)
                                    &&& pixel_group(cur, x2, y2) == spec_encoded_px(s, out@)
                                };
                            assert(pixel_group(now, x2, y2) == pixel_group(cur, x2, y2));
                        }
                    }
                }
                x = x + 1;
            }
            y = y + 1;
        }
        proof {
            let now = self.contents@;
            assert forall|x2: int, y2: int|
                0 <= x2 < dib_width(s) && 0 <= y2 < abs_height(s) implies #[trigger] filtered_ok(
                get_new_pixel,
                radius,
                s,
                now,
                x2,
                y2,
            ) by {
                lemma_editable_rows(s);
                assert(filtered_group(get_new_pixel, radius, s, now, x2, y2));
                let (v, out) = choose|v: Vec<[u8; 4]>, out: [u8; 4]|
                    {
                        &&& colors_view(v@) == nbhd(s, x2, y2, radius as int)
                        &&& #[trigger] call_ensures(get_new_pixel, (radius, v), out)
                        &&& pixel_group(now, x2, y2) == spec_encoded_px(s, out@)
                    };
                lemma_encode_resolve(s, out@);
                assert(spec_resolve_group(now, spec_encoded_px(s, out@)) == spec_resolve_group(
                    s,
                    spec_encoded_px(s, out@),
                ));
                assert(spec_resolve(now, x2, y2) == spec_resolve_group(
                    now,
                    pixel_group(now, x2, y2),
                ));
            }
        }
        Ok(())
    }
}

/// Collects the in-bounds window colors of `(x, y)`, row-major.
#[verifier::rlimit(100)]
fn gather_window(
    colors: &Vec<Vec<[u8; 4]>>,
    radius: u8,
    x: u16,
    y: u16,
    width: u16,
    habs: u16,
    Ghost(s): Ghost<Seq<u8>>,
) -> (r: Vec<[u8; 4]>)
    requires
        1 <= radius <= 16,
        width == dib_width(s),
        habs == abs_height(s),
        x < width,
        y < habs,
        colors@.len() == abs_height(s),
        forall|j: int| 0 <= j < habs ==> (#[trigger] colors@[j])@.len() == width,
        forall|j: int, i: int|
            0 <= j < habs && 0 <= i < width ==> (#[trigger] colors@[j]@[i])@ == resolved_px(
                s,
                i,
                j,
            ),
    ensures
        colors_view(r@) == nbhd(s, x as int, y as int, radius as int),
        r@.len() <= 0x10000,
{
    let side: u32 = 2 * (radius as u32) + 1;
    proof {
        assert(side * side <= 33 * 33) by (nonlinear_arith)
            requires
                side <= 33,
        ;
    }
    let total: u32 = side * side;
    let mut v: Vec<[u8; 4]> = Vec::new();
    let mut idx: u32 = 0;
    while idx < total
        invariant
            1 <= radius <= 16,
            side == 2 * radius + 1,
            total == side * side,
            total <= 1089,
            width == dib_width(s),
            habs == abs_height(s),
            x < width,
            y < habs,
            idx <= total,
            colors@.len() == abs_height(s),
            forall|j: int| 0 <= j < habs ==> (#[trigger] colors@[j])@.len() == width,
            forall|j: int, i: int|
                0 <= j < habs && 0 <= i < width ==> (#[trigger] colors@[j]@[i])@ == resolved_px(
                    s,
                    i,
                    j,
                ),
            colors_view(v@) == nbhd_upto(s, x as int, y as int, radius as int, idx as int),
            v@.len() <= idx,
        decreases total - idx,
    {
        let dy: i64 = (idx / side) as i64 - radius as i64;
        let dx: i64 = (idx % side) as i64 - radius as i64;
        let px: i64 = x as i64 + dx;
        let py: i64 = y as i64 + dy;
        proof {
            assert(idx as int / side as int == (idx / side) as int);
            assert(idx as int % side as int == (idx % side) as int);
        }
        let ghost before = v@;
        if px >= 0 && px < width as i64 && py >= 0 && py < habs as i64 {
            let c = colors[py as usize][px as usize];
            proof {
                assert(c@ == resolved_px(s, px as int, py as int));
            }
            v.push(c);
            proof {
                assert(colors_view(v@) =~= colors_view(before).push(c@));
            }
        }
        proof {
            assert(colors_view(v@) =~= nbhd_upto(
                s,
                x as int,
                y as int,
                radius as int,
                idx + 1,
            ));
        }
        idx = idx + 1;
    }
    v
}


/// Whether a byte sequence is ascending.
pub open spec fn sorted_u8(s: Seq<u8>) -> bool {
    forall|i: int, j: int| 0 <= i <= j < s.len() ==> s[i] <= s[j]
}

/// Channel `ch` of every color in the list, in order.
pub open spec fn channel_of(v: Seq<[u8; 4]>, ch: int) -> Seq<u8> {
    Seq::new(v.len(), |i: int| v[i]@[ch])
}

/// The element the median filter picks from a sorted channel: rank
/// `radius`, clamped to the last element of a shorter window (and 0 for an
/// empty one).
pub open spec fn median_sel(sq: Seq<u8>, radius: int) -> u8 {
    if sq.len() == 0 {
        0u8
    } else if radius < sq.len() {
        sq[radius]
    } else {
        sq[sq.len() - 1]
    }
}

/// `out` holds, per channel, the rank-`radius` element of the sorted
/// window channel.
pub open spec fn median_rel(radius: u8, v: Seq<[u8; 4]>, out: [u8; 4]) -> bool {
    &&& (exists|sq: Seq<u8>|
        sorted_u8(sq) && #[trigger] sq.to_multiset() == channel_of(v, 0).to_multiset() && out@[0]
            == median_sel(sq, radius as int))
    &&& (exists|sq: Seq<u8>|
        sorted_u8(sq) && #[trigger] sq.to_multiset() == channel_of(v, 1).to_multiset() && out@[1]
            == median_sel(sq, radius as int))
    &&& (exists|sq: Seq<u8>|
        sorted_u8(sq) && #[trigger] sq.to_multiset() == channel_of(v, 2).to_multiset() && out@[2]
            == median_sel(sq, radius as int))
    &&& (exists|sq: Seq<u8>|
        sorted_u8(sq) && #[trigger] sq.to_multiset() == channel_of(v, 3).to_multiset() && out@[3]
            == median_sel(sq, radius as int))
}

/// Pixel `(x, y)` of `cur` resolves to the median-filtered color of the
/// neighborhood buffer `s` shows there.
pub open spec fn median_at(radius: u8, s: Seq<u8>, cur: Seq<u8>, x: int, y: int) -> bool {
    exists|v: Vec<[u8; 4]>, out: [u8; 4]|
        {
            &&& colors_view(v@) == nbhd(s, x, y, radius as int)
            &&& #[trigger] median_rel(radius, v@, out)
            &&& spec_resolve(cur, x, y) == Ok::<Seq<u8>, ErrorKind>(spec_readback(s, out@))
        }
}

/// The sum of channel `ch` over the first `n` window colors.
pub open spec fn chan_sum(v: Seq<[u8; 4]>, ch: int, n: int) -> int
    decreases n,
{
    if n <= 0 {
        0
    } else {
        chan_sum(v, ch, n - 1) + v[n - 1]@[ch]
    }
}

/// `out` holds, per channel, the rounded mean of the window channel (the
/// zero color for an empty window).
pub open spec fn mean_rel(v: Seq<[u8; 4]>, out: [u8; 4]) -> bool {
    if v.len() == 0 {
        out@ =~= seq![0u8, 0u8, 0u8, 0u8]
    } else {
        forall|ch: int|
            0 <= ch < 4 ==> out@[ch] == crate::color::round_div(
                chan_sum(v, ch, v.len() as int),
                v.len() as int,
            ) as u8
    }
}

/// Pixel `(x, y)` of `cur` resolves to the mean-filtered color of the
/// neighborhood buffer `s` shows there.
pub open spec fn mean_at(radius: u8, s: Seq<u8>, cur: Seq<u8>, x: int, y: int) -> bool {
    exists|v: Vec<[u8; 4]>, out: [u8; 4]|
        {
            &&& colors_view(v@) == nbhd(s, x, y, radius as int)
            &&& #[trigger] mean_rel(v@, out)
            &&& spec_resolve(cur, x, y) == Ok::<Seq<u8>, ErrorKind>(spec_readback(s, out@))
        }
}

/// Extracts one channel of the window.
fn channel_vec(v: &Vec<[u8; 4]>, ch: usize) -> (r: Vec<u8>)
    requires
        ch < 4,
    ensures
        r@ == channel_of(v@, ch as int),
{
    let mut r: Vec<u8> = Vec::new();
    let mut i: usize = 0;
    while i < v.len()
        invariant
            ch < 4,
            i <= v@.len(),
            r@.len() == i,
            forall|j: int| 0 <= j < i ==> r@[j] == (#[trigger] v@[j])@[ch as int],
        decreases v@.len() - i,
    {
        r.push(v[i][ch]);
        i = i + 1;
    }
    proof {
        assert(r@ =~= channel_of(v@, ch as int));
    }
    r
}

/// Insertion sort over bytes: ascending, same multiset.
fn sort_bytes(v: &Vec<u8>) -> (r: Vec<u8>)
    ensures
        sorted_u8(r@),
        r@.to_multiset() == v@.to_multiset(),
        r@.len() == v@.len(),
{
    broadcast use vstd::seq_lib::group_to_multiset_ensures;
    broadcast use vstd::seq_lib::to_multiset_insert;

    let mut r: Vec<u8> = Vec::new();
    let mut i: usize = 0;
    while i < v.len()
        invariant
            i <= v@.len(),
            r@.len() == i,
            sorted_u8(r@),
            r@.to_multiset() == v@.subrange(0, i as int).to_multiset(),
        decreases v@.len() - i,
    {
        broadcast use vstd::seq_lib::group_to_multiset_ensures;
        broadcast use vstd::seq_lib::to_multiset_insert;

        let val = v[i];
        let mut pos: usize = 0;
        while pos < r.len() && r[pos] <= val
            invariant
                pos <= r@.len(),
                forall|j: int| 0 <= j < pos ==> r@[j] <= val,
            decreases r@.len() - pos,
        {
            pos = pos + 1;
        }
        let ghost old_r = r@;
        r.insert(pos, val);
        proof {
            assert(sorted_u8(r@)) by {
                assert forall|a: int, b: int| 0 <= a <= b < r@.len() implies r@[a] <= r@[b] by {
                    assert(forall|j: int| 0 <= j < pos ==> r@[j] == old_r[j]);
                    assert(r@[pos as int] == val);
                    assert(forall|j: int| pos < j < r@.len() ==> r@[j] == old_r[j - 1]);
                    assert(pos < old_r.len() ==> old_r[pos as int] > val);
                }
            }
            assert(v@.subrange(0, i + 1).drop_last() =~= v@.subrange(0, i as int));
            assert(v@.subrange(0, i + 1) =~= v@.subrange(0, i as int).push(val));
        }
        i = i + 1;
    }
    proof {
        assert(v@.subrange(0, v@.len() as int) =~= v@);
    }
    r
}

impl BMP {
    /// Median filter: every pixel becomes, per channel independently, the
    /// rank-`radius` element of its sorted window channel (the flattened
    /// window, not a true 2-D median).
    pub fn median_filter(&mut self, radius: u8) -> (r: Result<(), ErrorKind>)
        ensures
            ({
                let s = old(self).contents@;
                &&& r == (if radius == 0 || radius > 16 {
                    Err::<(), ErrorKind>(ErrorKind::RadiusInvalid)
                } else if !editable(s) {
                    Err::<(), ErrorKind>(ErrorKind::Unsupported)
                } else {
                    Ok::<(), ErrorKind>(())
                })
                &&& (r is Err ==> *final(self) == *old(self))
                &&& (r is Ok ==> {
                    &&& final(self).from_file == old(self).from_file
                    &&& same_geometry(s, final(self).contents@)
                    &&& forall|x: int, y: int|
                        0 <= x < dib_width(s) && 0 <= y < abs_height(s) ==> #[trigger] median_at(
                            radius,
                            s,
                            final(self).contents@,
                            x,
                            y,
                        )
                })
            }),
    {
        let f = |rad: u8, sp: Vec<[u8; 4]>| -> (ret: [u8; 4])
            ensures
                median_rel(rad, sp@, ret),
            {
                if sp.len() == 0 {
                    let ret: [u8; 4] = [0, 0, 0, 0];
                    proof {
                        let e = Seq::<u8>::empty();
                        assert(channel_of(sp@, 0) =~= e);
                        assert(channel_of(sp@, 1) =~= e);
                        assert(channel_of(sp@, 2) =~= e);
                        assert(channel_of(sp@, 3) =~= e);
                        assert(sorted_u8(e));
                        assert(median_sel(e, rad as int) == 0);
                        assert(e.to_multiset() == channel_of(sp@, 0).to_multiset());
                        assert(e.to_multiset() == channel_of(sp@, 1).to_multiset());
                        assert(e.to_multiset() == channel_of(sp@, 2).to_multiset());
                        assert(e.to_multiset() == channel_of(sp@, 3).to_multiset());
                        assert(median_rel(rad, sp@, ret));
                    }
                    ret
                } else {
                    let s0 = sort_bytes(&channel_vec(&sp, 0));
                    let s1 = sort_bytes(&channel_vec(&sp, 1));
                    let s2 = sort_bytes(&channel_vec(&sp, 2));
                    let s3 = sort_bytes(&channel_vec(&sp, 3));
                    let idx: usize = if (rad as usize) < s0.len() {
                        rad as usize
                    } else {
                        s0.len() - 1
                    };
                    let ret: [u8; 4] = [s0[idx], s1[idx], s2[idx], s3[idx]];
                    proof {
                        assert(s0@.len() == sp@.len() && s1@.len() == sp@.len() && s2@.len()
                            == sp@.len() && s3@.len() == sp@.len());
                        assert(ret@[0] == median_sel(s0@, rad as int));
                        assert(ret@[1] == median_sel(s1@, rad as int));
                        assert(ret@[2] == median_sel(s2@, rad as int));
                        assert(ret@[3] == median_sel(s3@, rad as int));
                        assert(s0@.to_multiset() == channel_of(sp@, 0).to_multiset());
                        assert(s1@.to_multiset() == channel_of(sp@, 1).to_multiset());
                        assert(s2@.to_multiset() == channel_of(sp@, 2).to_multiset());
                        assert(s3@.to_multiset() == channel_of(sp@, 3).to_multiset());
                        assert(median_rel(rad, sp@, ret));
                    }
                    ret
                }
            };
        let ghost s = self.contents@;
        let r = self.surround_filter(radius, f);
        proof {
            if r is Ok {
                assert forall|x: int, y: int|
                    0 <= x < dib_width(s) && 0 <= y < abs_height(s) implies #[trigger] median_at(
                    radius,
                    s,
                    self.contents@,
                    x,
                    y,
                ) by {
                    assert(filtered_ok(f, radius, s, self.contents@, x, y));
                    let (v, out) = choose|v: Vec<[u8; 4]>, out: [u8; 4]|
                        {
                            &&& colors_view(v@) == nbhd(s, x, y, radius as int)
                            &&& #[trigger] call_ensures(f, (radius, v), out)
                            &&& spec_resolve(self.contents@, x, y) == Ok::<Seq<u8>, ErrorKind>(
                                spec_readback(s, out@),
                            )
                        };
                    assert(median_rel(radius, v@, out));
                }
            }
        }
        r
    }

    /// Mean filter: every pixel becomes, per channel, the rounded average
    /// of its window.
    pub fn mean_filter(&mut self, radius: u8) -> (r: Result<(), ErrorKind>)
        ensures
            ({
                let s = old(self).contents@;
                &&& r == (if radius == 0 || radius > 16 {
                    Err::<(), ErrorKind>(ErrorKind::RadiusInvalid)
                } else if !editable(s) {
                    Err::<(), ErrorKind>(ErrorKind::Unsupported)
                } else {
                    Ok::<(), ErrorKind>(())
                })
                &&& (r is Err ==> *final(self) == *old(self))
                &&& (r is Ok ==> {
                    &&& final(self).from_file == old(self).from_file
                    &&& same_geometry(s, final(self).contents@)
                    &&& forall|x: int, y: int|
                        0 <= x < dib_width(s) && 0 <= y < abs_height(s) ==> #[trigger] mean_at(
                            radius,
                            s,
                            final(self).contents@,
                            x,
                            y,
                        )
                })
            }),
    {
        let f = |rad: u8, sp: Vec<[u8; 4]>| -> (ret: [u8; 4])
            requires
                sp@.len() <= 0x10000,
            ensures
                mean_rel(sp@, ret),
            {
                if sp.len() == 0 {
                    let ret: [u8; 4] = [0, 0, 0, 0];
                    ret
                } else {
                    let n = sp.len();
                    let mut t0: u64 = 0;
                    let mut t1: u64 = 0;
                    let mut t2: u64 = 0;
                    let mut t3: u64 = 0;
                    let mut i: usize = 0;
                    while i < n
                        invariant
                            n == sp@.len(),
                            n <= 0x10000,
                            i <= n,
                            t0 == chan_sum(sp@, 0, i as int),
                            t1 == chan_sum(sp@, 1, i as int),
                            t2 == chan_sum(sp@, 2, i as int),
                            t3 == chan_sum(sp@, 3, i as int),
                            t0 <= 255 * i && t1 <= 255 * i && t2 <= 255 * i && t3 <= 255 * i,
                        decreases n - i,
                    {
                        let c = sp[i];
                        t0 = t0 + c[0] as u64;
                        t1 = t1 + c[1] as u64;
                        t2 = t2 + c[2] as u64;
                        t3 = t3 + c[3] as u64;
                        i = i + 1;
                    }
                    let den: u64 = n as u64;
                    proof {
                        crate::blur::lemma_round_byte(t0 as int, den as int);
                        crate::blur::lemma_round_byte(t1 as int, den as int);
                        crate::blur::lemma_round_byte(t2 as int, den as int);
                        crate::blur::lemma_round_byte(t3 as int, den as int);
                    }
                    let ret: [u8; 4] = [
                        ((2 * t0 + den) / (2 * den)) as u8,
                        ((2 * t1 + den) / (2 * den)) as u8,
                        ((2 * t2 + den) / (2 * den)) as u8,
                        ((2 * t3 + den) / (2 * den)) as u8,
                    ];
                    ret
                }
            };
        let ghost s = self.contents@;
        let r = self.surround_filter(radius, f);
        proof {
            if r is Ok {
                assert forall|x: int, y: int|
                    0 <= x < dib_width(s) && 0 <= y < abs_height(s) implies #[trigger] mean_at(
                    radius,
                    s,
                    self.contents@,
                    x,
                    y,
                ) by {
                    assert(filtered_ok(f, radius, s, self.contents@, x, y));
                    let (v, out) = choose|v: Vec<[u8; 4]>, out: [u8; 4]|
                        {
                            &&& colors_view(v@) == nbhd(s, x, y, radius as int)
                            &&& #[trigger] call_ensures(f, (radius, v), out)
                            &&& spec_resolve(self.contents@, x, y) == Ok::<Seq<u8>, ErrorKind>(
                                spec_readback(s, out@),
                            )
                        };
                    assert(mean_rel(v@, out));
                }
            }
        }
        r
    }
}

} // verus!
