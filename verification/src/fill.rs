//! Breadth-first flood fill: grows the 4-connected region of the seed
//! color without recursion, then repaints exactly that region.

use vstd::prelude::*;

use crate::bmp::BMP;
use crate::errors::ErrorKind;
use crate::header::{dib_parse_ok, dib_size, dib_width};
use crate::image::{pixel_matches, plane_shaped, resolved_px, spec_resolve, spec_resolve_group};
use crate::plane::{abs_height, editable, group_size, lemma_editable_rows, lemma_group_in_bounds,
    num_rows, pixel_group, same_geometry};
use crate::write::{contains_coord, spec_encoded_px};

verus! {

/// Whether two pixels are 4-connected neighbors.
pub open spec fn adjacent4(ax: int, ay: int, bx: int, by: int) -> bool {
    (ax == bx && (ay == by + 1 || by == ay + 1)) || (ay == by && (ax == bx + 1 || bx == ax + 1))
}

/// Whether `p` is a path of in-bounds pixels of buffer `s`, each resolving
/// to `seed`, each step 4-connected.
pub open spec fn is_fill_path(s: Seq<u8>, p: Seq<(int, int)>, seed: Seq<u8>) -> bool {
    &&& p.len() >= 1
    &&& forall|i: int|
        0 <= i < p.len() ==> 0 <= (#[trigger] p[i]).0 < dib_width(s) && 0 <= p[i].1 < abs_height(s)
            && resolved_px(s, p[i].0, p[i].1) == seed
    &&& forall|i: int|
        0 <= i < p.len() - 1 ==> adjacent4(
            (#[trigger] p[i]).0,
            p[i].1,
            p[i + 1].0,
            p[i + 1].1,
        )
}

/// Whether pixel `(x, y)` can be reached from `(x0, y0)` through
/// 4-connected pixels that all resolve to the seed's color.
pub open spec fn reachable(s: Seq<u8>, x0: int, y0: int, x: int, y: int) -> bool {
    exists|p: Seq<(int, int)>|
        #[trigger] is_fill_path(s, p, resolved_px(s, x0, y0)) && p[0] == (x0, y0) && p.last() == (
        x,
        y,
        )
}

/// Every pixel of a region that contains the seed and is closed under
/// same-color adjacency is reached by every fill path from the seed.
proof fn lemma_closed_contains_path_end(
    s: Seq<u8>,
    visited: Seq<[u16; 2]>,
    x0: int,
    y0: int,
    p: Seq<(int, int)>,
)
    requires
        is_fill_path(s, p, resolved_px(s, x0, y0)),
        p[0] == (x0, y0),
        contains_coord(visited, x0, y0),
        forall|px: int, py: int, qx: int, qy: int|
            contains_coord(visited, px, py) && #[trigger] adjacent4(px, py, qx, qy) && 0 <= qx
                < dib_width(s) && 0 <= qy < abs_height(s) && resolved_px(s, qx, qy) == resolved_px(
                s,
                x0,
                y0,
            ) ==> contains_coord(visited, qx, qy),
    ensures
        contains_coord(visited, p.last().0, p.last().1),
    decreases p.len(),
{
    if p.len() == 1 {
        assert(p.last() == (x0, y0));
    } else {
        let q = p.drop_last();
        assert(is_fill_path(s, q, resolved_px(s, x0, y0))) by {
            assert(forall|i: int| 0 <= i < q.len() ==> q[i] == p[i]);
        }
        lemma_closed_contains_path_end(s, visited, x0, y0, q);
        let n = p.len() - 1;
        assert(adjacent4(p[n - 1].0, p[n - 1].1, p[n].0, p[n].1));
        assert(q.last() == p[n - 1]);
        assert(contains_coord(visited, p[n].0, p[n].1));
    }
}

/// Whether every coordinate in `v` (viewed as pixels) is distinct from
/// every coordinate of `w` and from the others of `v`.
pub open spec fn coords_distinct(v: Seq<[u16; 2]>) -> bool {
    forall|i: int, j: int|
        0 <= i < v.len() && 0 <= j < v.len() && i != j ==> ((#[trigger] v[i])@[0] != (
        #[trigger] v[j])@[0] || v[i]@[1] != v[j]@[1])
}

/// Distinct in-bounds coordinates inject into the `w·h` grid cells.
proof fn lemma_distinct_le_cells(v: Seq<[u16; 2]>, w: int, h: int)
    requires
        coords_distinct(v),
        w >= 0,
        h >= 0,
        forall|i: int| 0 <= i < v.len() ==> (#[trigger] v[i])@[0] < w && v[i]@[1] < h,
    ensures
        v.len() <= w * h,
{
    let cells = Seq::new(v.len() as nat, |i: int| v[i]@[1] * w + v[i]@[0]);
    assert forall|i: int, j: int| 0 <= i < v.len() && 0 <= j < v.len() && i != j implies cells[i]
        != cells[j] by {
        let (xi, yi) = (v[i]@[0] as int, v[i]@[1] as int);
        let (xj, yj) = (v[j]@[0] as int, v[j]@[1] as int);
        assert(xi != xj || yi != yj);
        assert(yi * w + xi != yj * w + xj) by (nonlinear_arith)
            requires
                0 <= xi < w,
                0 <= xj < w,
                yi >= 0,
                yj >= 0,
                xi != xj || yi != yj,
        ;
    }
    assert forall|i: int| 0 <= i < cells.len() implies 0 <= #[trigger] cells[i] < w * h by {
        assert(v[i]@[1] * w + v[i]@[0] < w * h) by (nonlinear_arith)
            requires
                0 <= v[i]@[0] < w,
                0 <= v[i]@[1] < h,
        ;
    }
    lemma_injective_bound(cells, w * h);
}

/// A sequence of distinct integers drawn from `0 .. n` has at most `n`
/// entries.
proof fn lemma_injective_bound(cells: Seq<int>, n: int)
    requires
        forall|i: int, j: int|
            0 <= i < cells.len() && 0 <= j < cells.len() && i != j ==> #[trigger] cells[i]
                != #[trigger] cells[j],
        forall|i: int| 0 <= i < cells.len() ==> 0 <= #[trigger] cells[i] < n,
        n >= 0,
    ensures
        cells.len() <= n,
    decreases n,
{
    if cells.len() > 0 {
        let target = cells.last();
        // Swap-remove the value `n - 1` if present; otherwise the range
        // shrinks for free.
        let smaller = cells.drop_last();
        if n == 0 {
        } else {
            // Map entries equal to n-1 down to target's slot.
            let renamed = smaller.map_values(
                |c: int|
                    if c == n - 1 {
                        target
                    } else {
                        c
                    },
            );
            assert(renamed.len() == smaller.len());
            assert forall|i: int, j: int|
                0 <= i < renamed.len() && 0 <= j < renamed.len() && i != j implies #[trigger]
            renamed[i] != #[trigger] renamed[j] by {
                assert(smaller[i] == cells[i] && smaller[j] == cells[j]);
                assert(cells[i] != cells[j]);
                assert(cells[i] != target && cells[j] != target);
            }
            assert forall|i: int| 0 <= i < renamed.len() implies 0 <= #[trigger] renamed[i] < n
                - 1 by {
                assert(smaller[i] == cells[i]);
                assert(cells[i] != target);
                if smaller[i] == n - 1 {
                    assert(renamed[i] == target);
                    assert(target <= n - 1);
                    assert(target != n - 1 || cells.last() != smaller[i]);
                } else {
                    assert(renamed[i] == smaller[i] < n - 1);
                }
            }
            lemma_injective_bound(renamed, n - 1);
        }
    }
}

/// Whether `(x, y)` occurs in `v` or in `q`.
pub open spec fn in_either(v: Seq<[u16; 2]>, q: Seq<[u16; 2]>, x: int, y: int) -> bool {
    contains_coord(v, x, y) || contains_coord(q, x, y)
}

/// A singleton path: every in-bounds pixel reaches itself.
proof fn lemma_reachable_self(s: Seq<u8>, x0: int, y0: int)
    requires
        0 <= x0 < dib_width(s),
        0 <= y0 < abs_height(s),
    ensures
        reachable(s, x0, y0, x0, y0),
{
    let p = seq![(x0, y0)];
    assert(is_fill_path(s, p, resolved_px(s, x0, y0)));
    assert(p[0] == (x0, y0) && p.last() == (x0, y0));
}

/// Extending a fill path by one same-color neighbor keeps it a fill path.
proof fn lemma_reachable_step(s: Seq<u8>, x0: int, y0: int, ax: int, ay: int, bx: int, by: int)
    requires
        reachable(s, x0, y0, ax, ay),
        adjacent4(ax, ay, bx, by),
        0 <= bx < dib_width(s),
        0 <= by < abs_height(s),
        resolved_px(s, bx, by) == resolved_px(s, x0, y0),
    ensures
        reachable(s, x0, y0, bx, by),
{
    let p = choose|p: Seq<(int, int)>|
        #[trigger] is_fill_path(s, p, resolved_px(s, x0, y0)) && p[0] == (x0, y0) && p.last() == (
        ax,
        ay,
        );
    let q = p.push((bx, by));
    assert(q.last() == (bx, by));
    assert(is_fill_path(s, q, resolved_px(s, x0, y0))) by {
        assert(forall|i: int| 0 <= i < p.len() ==> q[i] == p[i]);
        assert(q[q.len() - 1] == (bx, by));
        assert(q[p.len() - 1] == p.last());
        assert(adjacent4(q[p.len() - 1].0, q[p.len() - 1].1, q[p.len() as int].0, q[p.len() as int].1));
    }
    assert(q[0] == (x0, y0));
}

/// Linear scan for a coordinate.
fn contains_pt(v: &Vec<[u16; 2]>, x: u16, y: u16) -> (r: bool)
    ensures
        r == contains_coord(v@, x as int, y as int),
{
    let mut i: usize = 0;
    while i < v.len()
        invariant
            i <= v@.len(),
            forall|j: int| 0 <= j < i ==> !((#[trigger] v@[j])@[0] == x && v@[j]@[1] == y),
        decreases v@.len() - i,
    {
        if v[i][0] == x && v[i][1] == y {
            proof {
                assert(contains_coord(v@, x as int, y as int)) by {
                    assert((v@[i as int])@[0] == x && v@[i as int]@[1] == y);
                }
            }
            return true;
        }
        i = i + 1;
    }
    proof {
        if contains_coord(v@, x as int, y as int) {
            let j = choose|j: int|
                0 <= j < v@.len() && (#[trigger] v@[j])@[0] == x && v@[j]@[1] == y;
            assert(false);
        }
    }
    false
}


impl BMP {
    /// Flood fill: repaints the whole 4-connected region of pixels that
    /// share the color at `(x, y)` with `fill`, breadth-first and without
    /// recursion, and returns the filled coordinates.  Exactly the
    /// reachable region changes: every pixel reachable from the seed
    /// through same-color neighbors is in the returned list, and no other
    /// pixel's bytes move.
    #[verifier::rlimit(100)]
    pub fn fill_bucket(&mut self, fill: [u8; 4], x: usize, y: usize) -> (r: Result<
        Vec<[u16; 2]>,
        ErrorKind,
    >)
        ensures
            ({
                let s = old(self).contents@;
                &&& (!editable(s) ==> r == Err::<Vec<[u16; 2]>, ErrorKind>(ErrorKind::Unsupported)
                    && *final(self) == *old(self))
                &&& (editable(s) && !(x < dib_width(s) && y < abs_height(s)) ==> r == Err::<
                    Vec<[u16; 2]>,
                    ErrorKind,
                >(ErrorKind::DoesNotExist) && *final(self) == *old(self))
                &&& (editable(s) && x < dib_width(s) && y < abs_height(s) ==> r is Ok && {
                    let v = r->Ok_0@;
                    &&& final(self).from_file == old(self).from_file
                    &&& same_geometry(s, final(self).contents@)
                    &&& s.subrange(0, 14 + dib_size(s) as int) == final(self).contents@.subrange(
                        0,
                        14 + dib_size(s) as int,
                    )
                    &&& contains_coord(v, x as int, y as int)
                    &&& forall|k: int|
                        0 <= k < v.len() ==> reachable(
                            s,
                            x as int,
                            y as int,
                            (#[trigger] v[k])@[0] as int,
                            v[k]@[1] as int,
                        )
                    &&& forall|x2: int, y2: int|
                        0 <= x2 < dib_width(s) && 0 <= y2 < abs_height(s) && reachable(
                            s,
                            x as int,
                            y as int,
                            x2,
                            y2,
                        ) ==> contains_coord(v, x2, y2)
                    &&& coords_distinct(v)
                    &&& forall|x2: int, y2: int|
                        0 <= x2 < dib_width(s) && 0 <= y2 < abs_height(s) ==> #[trigger]
                        pixel_group(final(self).contents@, x2, y2) == (if contains_coord(
                            v,
                            x2,
                            y2,
                        ) {
                            spec_encoded_px(s, fill@)
                        } else {
                            pixel_group(s, x2, y2)
                        })
                })
            }),
    {
        let ghost s = self.contents@;
        let dib_header = match self.get_dib_header() {
            Ok(h) => h,
            Err(e) => {
                return Err(e);
            },
        };
        if !self.is_editable(&dib_header) {
            return Err(ErrorKind::Unsupported);
        }
        proof {
            lemma_editable_rows(s);
        }
        let width: u16 = dib_header.width as u16;
        let habs: u16 = if dib_header.height < 0 {
            (((-(dib_header.height as i64)) as u64) as u32) as u16
        } else {
            (dib_header.height as u32) as u16
        };
        proof {
            assert(habs == abs_height(s));
            assert(width == dib_width(s));
        }
        if x >= width as usize || y >= habs as usize {
            return Err(ErrorKind::DoesNotExist);
        }
        let colors = self.snapshot_colors(&dib_header);
        let seed = colors[y][x];
        proof {
            lemma_editable_rows(s);
            assert(seed@ == resolved_px(s, x as int, y as int));
            lemma_reachable_self(s, x as int, y as int);
        }
        let mut visited: Vec<[u16; 2]> = Vec::new();
        let mut queue: Vec<[u16; 2]> = Vec::new();
        queue.push([x as u16, y as u16]);
        proof {
            assert((queue@[0])@[0] == x as u16 && queue@[0]@[1] == y as u16);
            assert(contains_coord(queue@, x as int, y as int));
            assert(coords_distinct(visited@ + queue@)) by {
                assert((visited@ + queue@).len() == 1);
            }
        }
        while queue.len() > 0
            invariant
                s == self.contents@,
                editable(s),
                dib_parse_ok(s),
                dib_header.wf(),
                pixel_matches(dib_header, s),
                width == dib_width(s),
                habs == abs_height(s),
                x < width,
                y < habs,
                seed@ == resolved_px(s, x as int, y as int),
                colors@.len() == abs_height(s),
                forall|j: int| 0 <= j < habs ==> (#[trigger] colors@[j])@.len() == width,
                forall|j: int, i: int|
                    0 <= j < habs && 0 <= i < width ==> (#[trigger] colors@[j]@[i])@ == resolved_px(
                        s,
                        i,
                        j,
                    ),
                in_either(visited@, queue@, x as int, y as int),
                forall|k: int|
                    0 <= k < visited@.len() ==> {
                        let c = #[trigger] visited@[k];
                        &&& c@[0] < width
                        &&& c@[1] < habs
                        &&& resolved_px(s, c@[0] as int, c@[1] as int) == seed@
                        &&& reachable(s, x as int, y as int, c@[0] as int, c@[1] as int)
                    },
                forall|k: int|
                    0 <= k < queue@.len() ==> {
                        let c = #[trigger] queue@[k];
                        &&& c@[0] < width
                        &&& c@[1] < habs
                        &&& resolved_px(s, c@[0] as int, c@[1] as int) == seed@
                        &&& reachable(s, x as int, y as int, c@[0] as int, c@[1] as int)
                    },
                coords_distinct(visited@ + queue@),
                forall|px: int, py: int, qx: int, qy: int|
                    contains_coord(visited@, px, py) && #[trigger] adjacent4(px, py, qx, qy) && 0
                        <= qx < width && 0 <= qy < habs && resolved_px(s, qx, qy) == seed@
                        ==> in_either(visited@, queue@, qx, qy),
            decreases (width as int) * (habs as int) - visited@.len(),
        {
            proof {
                lemma_distinct_le_cells(visited@ + queue@, width as int, habs as int);
            }
            let cur = queue[0];
            let cx = cur[0];
            let cy = cur[1];
            let ghost pre_v = visited@;
            let ghost pre_q = queue@;
            // Examine the four neighbors, enqueueing unseen same-color ones.
            let mut nbors: Vec<[u16; 2]> = Vec::new();
            let ghost mut di: int = -1;
            let ghost mut ui: int = -1;
            let ghost mut li: int = -1;
            let ghost mut ri: int = -1;
            if cy + 1 < habs {
                nbors.push([cx, cy + 1]);
                proof {
                    di = nbors@.len() - 1;
                }
            }
            if cy != 0 {
                nbors.push([cx, cy - 1]);
                proof {
                    ui = nbors@.len() - 1;
                }
            }
            if cx != 0 {
                nbors.push([cx - 1, cy]);
                proof {
                    li = nbors@.len() - 1;
                }
            }
            if cx + 1 < width {
                nbors.push([cx + 1, cy]);
                proof {
                    ri = nbors@.len() - 1;
                }
            }
            proof {
                assert(forall|k: int|
                    0 <= k < nbors@.len() ==> {
                        let c = #[trigger] nbors@[k];
                        c@[0] < width && c@[1] < habs && adjacent4(
                            cx as int,
                            cy as int,
                            c@[0] as int,
                            c@[1] as int,
                        )
                    });
                if cy + 1 < habs {
                    assert((nbors@[di])@[0] == cx && nbors@[di]@[1] == cy + 1);
                    assert(contains_coord(nbors@, cx as int, cy as int + 1));
                }
                if cy >= 1 {
                    assert((nbors@[ui])@[0] == cx && nbors@[ui]@[1] == cy - 1);
                    assert(contains_coord(nbors@, cx as int, cy as int - 1));
                }
                if cx >= 1 {
                    assert((nbors@[li])@[0] == cx - 1 && nbors@[li]@[1] == cy);
                    assert(contains_coord(nbors@, cx as int - 1, cy as int));
                }
                if cx + 1 < width {
                    assert((nbors@[ri])@[0] == cx + 1 && nbors@[ri]@[1] == cy);
                    assert(contains_coord(nbors@, cx as int + 1, cy as int));
                }
            }
            let mut ni: usize = 0;
            #[verifier::rlimit(100)]
            while ni < nbors.len()
                invariant
                    s == self.contents@,
                    editable(s),
                    dib_parse_ok(s),
                    dib_header.wf(),
                    pixel_matches(dib_header, s),
                    width == dib_width(s),
                    habs == abs_height(s),
                    x < width,
                    y < habs,
                    ni <= nbors@.len(),
                    seed@ == resolved_px(s, x as int, y as int),
                    colors@.len() == abs_height(s),
                    forall|j: int| 0 <= j < habs ==> (#[trigger] colors@[j])@.len() == width,
                    forall|j: int, i: int|
                        0 <= j < habs && 0 <= i < width ==> (#[trigger] colors@[j]@[i])@
                            == resolved_px(s, i, j),
                    queue@.len() >= pre_q.len(),
                    queue@.subrange(0, pre_q.len() as int) == pre_q,
                    pre_q.len() >= 1,
                    pre_q[0] == cur,
                    cx == cur@[0] && cy == cur@[1],
                    cx < width && cy < habs,
                    forall|k: int|
                        0 <= k < nbors@.len() ==> {
                            let c = #[trigger] nbors@[k];
                            c@[0] < width && c@[1] < habs && adjacent4(
                                cx as int,
                                cy as int,
                                c@[0] as int,
                                c@[1] as int,
                            )
                        },
                    forall|k: int|
                        0 <= k < ni ==> {
                            let c = #[trigger] nbors@[k];
                            resolved_px(s, c@[0] as int, c@[1] as int) == seed@ ==> in_either(
                                visited@,
                                queue@,
                                c@[0] as int,
                                c@[1] as int,
                            )
                        },
                    forall|k: int|
                        0 <= k < queue@.len() ==> {
                            let c = #[trigger] queue@[k];
                            &&& c@[0] < width
                            &&& c@[1] < habs
                            &&& resolved_px(s, c@[0] as int, c@[1] as int) == seed@
                            &&& reachable(s, x as int, y as int, c@[0] as int, c@[1] as int)
                        },
                    coords_distinct(visited@ + queue@),
                decreases nbors@.len() - ni,
            {
                let nb = nbors[ni];
                let nx = nb[0];
                let ny = nb[1];
                if !contains_pt(&visited, nx, ny) && !contains_pt(&queue, nx, ny) {
                    proof {
                        assert(nb == nbors@[ni as int]);
                    }
                    let nc = colors[ny as usize][nx as usize];
                    proof {
                        assert(nc@ == resolved_px(s, nx as int, ny as int));
                    }
                    if nc[0] == seed[0] && nc[1] == seed[1] && nc[2] == seed[2] && nc[3]
                        == seed[3] {
                        proof {
                            assert(nc@ =~= seq![seed@[0], seed@[1], seed@[2], seed@[3]]);
                            assert(seed@ =~= seq![seed@[0], seed@[1], seed@[2], seed@[3]]);
                            assert(queue@[0] == queue@.subrange(0, pre_q.len() as int)[0]);
                            assert(queue@[0] == pre_q[0]);
                            assert((queue@[0])@[0] == cx && queue@[0]@[1] == cy);
                            assert(reachable(s, x as int, y as int, cx as int, cy as int)) by {
                                assert(queue@[0]@[0] < width && queue@[0]@[1] < habs);
                            }
                            lemma_reachable_step(
                                s,
                                x as int,
                                y as int,
                                cx as int,
                                cy as int,
                                nx as int,
                                ny as int,
                            );
                        }
                        let ghost old_q = queue@;
                        queue.push(nb);
                        proof {
                            assert(queue@.subrange(0, pre_q.len() as int) =~= old_q.subrange(
                                0,
                                pre_q.len() as int,
                            ));
                            lemma_push_keeps_membership(old_q, queue@, nb);
                            assert((queue@[queue@.len() - 1])@[0] == nx && queue@[queue@.len()
                                - 1]@[1] == ny);
                            assert(contains_coord(queue@, nx as int, ny as int));
                            lemma_push_distinct(visited@, old_q, queue@, nb);
                        }
                    }
                }
                ni = ni + 1;
            }
            proof {
                // The queue only grew: membership and the closure invariant
                // carry over from the state at the head of this iteration.
                lemma_prefix_keeps_membership(pre_q, queue@);
                assert(in_either(visited@, queue@, x as int, y as int));
                assert forall|px2: int, py2: int, qx: int, qy: int|
                    contains_coord(visited@, px2, py2) && #[trigger] adjacent4(px2, py2, qx, qy)
                        && 0 <= qx < width && 0 <= qy < habs && resolved_px(s, qx, qy) == seed@
                        implies in_either(visited@, queue@, qx, qy) by {
                    assert(in_either(visited@, pre_q, qx, qy));
                }
            }
            // Move the head of the queue into the visited set.
            let ghost q_before = queue@;
            let moved = queue.remove(0);
            visited.push(moved);
            proof {
                assert(moved == pre_q[0]);
                assert(queue@ =~= q_before.subrange(1, q_before.len() as int));
                let all_before = pre_v + q_before;
                let all_after = visited@ + queue@;
                // Moving the queue head to the end of `visited` leaves the
                // concatenation of the two collections unchanged.
                assert(all_after =~= all_before) by {
                    assert(visited@ == pre_v.push(moved));
                    assert forall|i: int| 0 <= i < all_after.len() implies all_after[i]
                        == all_before[i] by {
                        if i < pre_v.len() {
                            assert(all_after[i] == pre_v[i]);
                        } else if i == pre_v.len() {
                            assert(all_after[i] == moved);
                            assert(all_before[i] == q_before[0]);
                        } else {
                            assert(all_after[i] == queue@[i - pre_v.len() - 1]);
                            assert(all_before[i] == q_before[i - pre_v.len()]);
                        }
                    }
                }
                assert(coords_distinct(all_after));
                assert forall|px2: int, py2: int, qx: int, qy: int|
                    contains_coord(visited@, px2, py2) && #[trigger] adjacent4(px2, py2, qx, qy)
                        && 0 <= qx < width && 0 <= qy < habs && resolved_px(s, qx, qy) == seed@
                        implies in_either(visited@, queue@, qx, qy) by {
                    if contains_coord(pre_v, px2, py2) {
                        assert(in_either(pre_v, q_before, qx, qy));
                        lemma_move_membership(pre_v, q_before, visited@, queue@, moved, qx, qy);
                    } else {
                        // px2/py2 is the freshly moved head.
                        let kk = choose|kk: int|
                            0 <= kk < visited@.len() && (#[trigger] visited@[kk])@[0] == px2
                                && visited@[kk]@[1] == py2;
                        if kk < pre_v.len() {
                            assert(pre_v[kk] == visited@[kk]);
                            assert(contains_coord(pre_v, px2, py2));
                            assert(in_either(pre_v, q_before, qx, qy));
                            lemma_move_membership(pre_v, q_before, visited@, queue@, moved, qx, qy);
                        } else {
                            assert(visited@[kk] == moved);
                            assert(px2 == cx as int && py2 == cy as int);
                            // The neighbor loop covered all four neighbors.
                            assert(in_either(pre_v, q_before, qx, qy) || (qx == cx as int && (qy
                                == cy as int + 1 || qy + 1 == cy as int)) || (qy == cy as int && (qx
                                == cx as int + 1 || qx + 1 == cx as int))) by {
                                assert(adjacent4(cx as int, cy as int, qx, qy));
                            }
                            if (qx == cx as int && (qy == cy as int + 1 || qy + 1 == cy as int)) || (
                            qy == cy as int && (qx == cx as int + 1 || qx + 1 == cx as int)) {
                                assert(exists|k: int|
                                    0 <= k < nbors@.len() && (#[trigger] nbors@[k])@[0] == qx
                                        && nbors@[k]@[1] == qy) by {
                                    lemma_neighbor_enumerated(
                                        nbors@,
                                        cx as int,
                                        cy as int,
                                        qx,
                                        qy,
                                        width as int,
                                        habs as int,
                                    );
                                }
                                let k = choose|k: int|
                                    0 <= k < nbors@.len() && (#[trigger] nbors@[k])@[0] == qx
                                        && nbors@[k]@[1] == qy;
                                assert(in_either(pre_v, q_before, qx, qy));
                            }
                            lemma_move_membership(pre_v, q_before, visited@, queue@, moved, qx, qy);
                        }
                    }
                }
                assert(in_either(visited@, queue@, x as int, y as int)) by {
                    lemma_move_membership(
                        pre_v,
                        q_before,
                        visited@,
                        queue@,
                        moved,
                        x as int,
                        y as int,
                    );
                }
            }
        }
        // Repaint the collected region.
        let mut write_pts: Vec<[u16; 2]> = Vec::new();
        let mut wi: usize = 0;
        while wi < visited.len()
            invariant
                wi <= visited@.len(),
                write_pts@ == visited@.subrange(0, wi as int),
            decreases visited@.len() - wi,
        {
            write_pts.push(visited[wi]);
            proof {
                assert(write_pts@ =~= visited@.subrange(0, wi + 1));
            }
            wi = wi + 1;
        }
        proof {
            assert(write_pts@ =~= visited@);
        }
        match self.change_color_of_pixels(write_pts, fill) {
            Ok(_) => {},
            Err(_) => {
                proof {
                    assert(false);
                }
                return Err(ErrorKind::DoesNotExist);
            },
        }
        proof {
            assert forall|x2: int, y2: int|
                0 <= x2 < dib_width(s) && 0 <= y2 < abs_height(s) && reachable(
                    s,
                    x as int,
                    y as int,
                    x2,
                    y2,
                ) implies contains_coord(visited@, x2, y2) by {
                let p = choose|p: Seq<(int, int)>|
                    #[trigger] is_fill_path(s, p, resolved_px(s, x as int, y as int)) && p[0] == (
                    x as int,
                    y as int,
                    ) && p.last() == (x2, y2);
                lemma_closed_contains_path_end(s, visited@, x as int, y as int, p);
            }
        }
        Ok(visited)
    }
}

/// A sequence keeps every coordinate of its own prefix.
proof fn lemma_prefix_keeps_membership(pre_q: Seq<[u16; 2]>, q: Seq<[u16; 2]>)
    requires
        q.len() >= pre_q.len(),
        q.subrange(0, pre_q.len() as int) == pre_q,
    ensures
        forall|a: int, b: int| #[trigger] contains_coord(pre_q, a, b) ==> contains_coord(q, a, b),
{
    assert forall|a: int, b: int| #[trigger] contains_coord(pre_q, a, b) implies contains_coord(
        q,
        a,
        b,
    ) by {
        let kk = choose|kk: int|
            0 <= kk < pre_q.len() && (#[trigger] pre_q[kk])@[0] == a && pre_q[kk]@[1] == b;
        assert(q.subrange(0, pre_q.len() as int)[kk] == q[kk]);
        assert(q[kk] == pre_q[kk]);
    }
}

/// Appending an element keeps every earlier coordinate present.
proof fn lemma_push_keeps_membership(old_q: Seq<[u16; 2]>, new_q: Seq<[u16; 2]>, nb: [u16; 2])
    requires
        new_q == old_q.push(nb),
    ensures
        forall|a: int, b: int|
            #[trigger] contains_coord(old_q, a, b) ==> contains_coord(new_q, a, b),
{
    assert forall|a: int, b: int| #[trigger] contains_coord(old_q, a, b) implies contains_coord(
        new_q,
        a,
        b,
    ) by {
        let kk = choose|kk: int|
            0 <= kk < old_q.len() && (#[trigger] old_q[kk])@[0] == a && old_q[kk]@[1] == b;
        assert(new_q[kk] == old_q[kk]);
    }
}

/// Appending a coordinate absent from both collections keeps them
/// pairwise distinct.
proof fn lemma_push_distinct(
    visited: Seq<[u16; 2]>,
    old_q: Seq<[u16; 2]>,
    new_q: Seq<[u16; 2]>,
    nb: [u16; 2],
)
    requires
        new_q == old_q.push(nb),
        coords_distinct(visited + old_q),
        !contains_coord(visited, nb@[0] as int, nb@[1] as int),
        !contains_coord(old_q, nb@[0] as int, nb@[1] as int),
    ensures
        coords_distinct(visited + new_q),
{
    let all_old = visited + old_q;
    let all_new = visited + new_q;
    assert(all_new.drop_last() =~= all_old);
    assert(all_new.last() == nb);
    assert forall|i: int, j: int|
        0 <= i < all_new.len() && 0 <= j < all_new.len() && i != j implies ((
    #[trigger] all_new[i])@[0] != (#[trigger] all_new[j])@[0] || all_new[i]@[1] != all_new[j]@[1])
        by {
        if i < all_old.len() && j < all_old.len() {
            assert(all_new[i] == all_old[i] && all_new[j] == all_old[j]);
        } else if i == all_old.len() {
            assert(all_new[i] == nb);
            assert(all_new[j] == all_old[j]);
            lemma_member_of_concat(visited, old_q, j);
        } else {
            assert(all_new[j] == nb && all_new[i] == all_old[i]);
            lemma_member_of_concat(visited, old_q, i);
        }
    }
}

/// Entry `i` of a concatenation is a member of one of its two halves.
proof fn lemma_member_of_concat(v: Seq<[u16; 2]>, q: Seq<[u16; 2]>, i: int)
    requires
        0 <= i < (v + q).len(),
    ensures
        contains_coord(v, ((v + q)[i])@[0] as int, ((v + q)[i])@[1] as int) || contains_coord(
            q,
            ((v + q)[i])@[0] as int,
            ((v + q)[i])@[1] as int,
        ),
{
    if i < v.len() {
        assert((v + q)[i] == v[i]);
        assert(contains_coord(v, v[i]@[0] as int, v[i]@[1] as int));
    } else {
        assert((v + q)[i] == q[i - v.len()]);
        assert(contains_coord(q, q[i - v.len()]@[0] as int, q[i - v.len()]@[1] as int));
    }
}

/// Moving the queue head into the visited set preserves membership of the
/// combined collection.
proof fn lemma_move_membership(
    pre_v: Seq<[u16; 2]>,
    pre_q: Seq<[u16; 2]>,
    new_v: Seq<[u16; 2]>,
    new_q: Seq<[u16; 2]>,
    moved: [u16; 2],
    qx: int,
    qy: int,
)
    requires
        pre_q.len() >= 1,
        moved == pre_q[0],
        new_v == pre_v.push(moved),
        new_q == pre_q.subrange(1, pre_q.len() as int),
        contains_coord(pre_v, qx, qy) || contains_coord(pre_q, qx, qy),
    ensures
        contains_coord(new_v, qx, qy) || contains_coord(new_q, qx, qy),
{
    if contains_coord(pre_v, qx, qy) {
        let k = choose|k: int|
            0 <= k < pre_v.len() && (#[trigger] pre_v[k])@[0] == qx && pre_v[k]@[1] == qy;
        assert(new_v[k] == pre_v[k]);
        assert(contains_coord(new_v, qx, qy));
    } else {
        let k = choose|k: int|
            0 <= k < pre_q.len() && (#[trigger] pre_q[k])@[0] == qx && pre_q[k]@[1] == qy;
        if k == 0 {
            assert(new_v[pre_v.len() as int] == moved);
            assert(contains_coord(new_v, qx, qy));
        } else {
            assert(new_q[k - 1] == pre_q[k]);
            assert(contains_coord(new_q, qx, qy));
        }
    }
}

/// Every in-bounds 4-neighbor of `(cx, cy)` appears in the generated
/// neighbor list.
proof fn lemma_neighbor_enumerated(
    nbors: Seq<[u16; 2]>,
    cx: int,
    cy: int,
    qx: int,
    qy: int,
    w: int,
    h: int,
)
    requires
        adjacent4(cx, cy, qx, qy),
        0 <= qx < w,
        0 <= qy < h,
        0 <= cx < w,
        0 <= cy < h,
        w <= 0x10000,
        h <= 0x10000,
        cy + 1 < h ==> contains_coord(nbors, cx, cy + 1),
        cy >= 1 ==> contains_coord(nbors, cx, cy - 1),
        cx >= 1 ==> contains_coord(nbors, cx - 1, cy),
        cx + 1 < w ==> contains_coord(nbors, cx + 1, cy),
    ensures
        exists|k: int| 0 <= k < nbors.len() && (#[trigger] nbors[k])@[0] == qx && nbors[k]@[1] == qy,
{
    assert(contains_coord(nbors, qx, qy));
}

} // verus!
