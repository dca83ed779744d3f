//! The computational core of rendering a tiling step: which cells one
//! placement covered, read off as the difference between two consecutive
//! boards of a tiling sequence.

use vstd::prelude::*;
use crate::board::RectangularBoard;

verus! {

/// The cells (as (column, row) pairs) marked in `next` but not in `prev`:
/// exactly the tile placed by the step from `prev` to `next`.
pub fn tiling_step_positions(prev: &RectangularBoard, next: &RectangularBoard) -> (r: Vec<
    (usize, usize),
>)
    requires
        prev@.dims_ok(),
        next@.dims_ok(),
        prev@.width == next@.width,
        prev@.height == next@.height,
    ensures
        forall|m: int|
            0 <= m < r@.len() ==> {
                let (cx, ry) = #[trigger] r@[m];
                prev@.valid(ry as int, cx as int) && (next@.marked(ry as int, cx as int)
                    != prev@.marked(ry as int, cx as int))
            },
        forall|ry: int, cx: int|
            prev@.valid(ry, cx) && (next@.marked(ry, cx) != prev@.marked(ry, cx))
                ==> r@.contains((cx as usize, ry as usize)),
{
    let h = next.height;
    let w = next.width;
    let mut r: Vec<(usize, usize)> = Vec::new();
    let mut y: usize = 0;
    while y < h
        invariant
            prev@.dims_ok(),
            next@.dims_ok(),
            prev@.width == next@.width,
            prev@.height == next@.height,
            h == next@.height,
            w == next@.width,
            y <= h,
            forall|m: int|
                0 <= m < r@.len() ==> {
                    let (cx, ry) = #[trigger] r@[m];
                    prev@.valid(ry as int, cx as int) && (next@.marked(ry as int, cx as int)
                        != prev@.marked(ry as int, cx as int))
                },
            forall|ry: int, cx: int|
                0 <= ry < y && 0 <= cx < w && (next@.marked(ry, cx) != prev@.marked(ry, cx))
                    ==> r@.contains((cx as usize, ry as usize)),
        decreases h - y,
    {
        let mut x: usize = 0;
        while x < w
            invariant
                prev@.dims_ok(),
                next@.dims_ok(),
                prev@.width == next@.width,
                prev@.height == next@.height,
                h == next@.height,
                w == next@.width,
                y < h,
                x <= w,
                forall|m: int|
                    0 <= m < r@.len() ==> {
                        let (cx, ry) = #[trigger] r@[m];
                        prev@.valid(ry as int, cx as int) && (next@.marked(ry as int, cx as int)
                            != prev@.marked(ry as int, cx as int))
                    },
                forall|ry: int, cx: int|
                    0 <= ry < y && 0 <= cx < w && (next@.marked(ry, cx) != prev@.marked(ry, cx))
                        ==> r@.contains((cx as usize, ry as usize)),
                forall|cx: int|
                    0 <= cx < x && (next@.marked(y as int, cx) != prev@.marked(y as int, cx))
                        ==> r@.contains((cx as usize, y as usize)),
            decreases w - x,
        {
            let nb = {
                proof {
                    assert(next@.grid[y as int] == next.board@[y as int]@);
                    assert(next.board@.len() == next@.grid.len());
                }
                next.board[y][x]
            };
            let pb = {
                proof {
                    assert(prev@.grid[y as int] == prev.board@[y as int]@);
                    assert(prev.board@.len() == prev@.grid.len());
                }
                prev.board[y][x]
            };
            if nb != pb {
                let ghost old_r = r@;
                r.push((x, y));
                proof {
                    assert(r@[r@.len() - 1] == (x, y));
                    assert forall|ry: int, cx: int|
                        0 <= ry < y && 0 <= cx < w && (next@.marked(ry, cx) != prev@.marked(
                            ry,
                            cx,
                        )) implies r@.contains((cx as usize, ry as usize)) by {
                        let m = choose|m: int|
                            0 <= m < old_r.len() && old_r[m] == (cx as usize, ry as usize);
                        assert(r@[m] == (cx as usize, ry as usize));
                    }
                    assert forall|cx: int|
                        0 <= cx < x + 1 && (next@.marked(y as int, cx) != prev@.marked(
                            y as int,
                            cx,
                        )) implies r@.contains((cx as usize, y as usize)) by {
                        if cx < x {
                            let m = choose|m: int|
                                0 <= m < old_r.len() && old_r[m] == (cx as usize, y as usize);
                            assert(r@[m] == (cx as usize, y as usize));
                        } else {
                            assert(r@[r@.len() - 1] == (cx as usize, y as usize));
                        }
                    }
                }
            }
            x += 1;
        }
        y += 1;
    }
    r
}

} // verus!
