//! The mathematical meaning of the search: how many placement sequences
//! reach a fully marked board. `num_tilings` is the reference function the
//! engine's counting entry points are proved against.

use vstd::prelude::*;
use vstd::assert_by_contradiction;
use crate::board::{
    best_cell, cell_col, cell_row, chain_cells, fit_sets, fit_sets_tile, has_dead_cell, off_col,
    off_row, scan_best_upto, spec_fits, spec_mark_set, successor_seq, successor_sets, BoardView,
};
use crate::tile::has_single_tile;
use crate::tile::Direction;

verus! {

/// The number of unmarked cells among the first `j` cells of a row.
pub open spec fn row_unmarked(r: Seq<bool>, j: int) -> nat
    decreases j,
{
    if j <= 0 {
        0
    } else {
        row_unmarked(r, j - 1) + (if r[j - 1] {
            0nat
        } else {
            1nat
        })
    }
}

/// The number of unmarked cells among the first `i` rows.
pub open spec fn grid_unmarked(g: Seq<Seq<bool>>, i: int, w: int) -> nat
    decreases i,
{
    if i <= 0 {
        0
    } else {
        grid_unmarked(g, i - 1, w) + row_unmarked(g[i - 1], w)
    }
}

/// The number of unmarked cells of a board.
pub open spec fn unmarked_count(b: BoardView) -> nat {
    grid_unmarked(b.grid, b.height, b.width)
}

/// Tiling counts, with an explicit recursion budget: 1 for a fully marked
/// board, else the sum over all successors. The budget only exists to make
/// the recursion well-founded; any budget at least `unmarked_count` gives
/// the same value.
pub open spec fn num_tilings_fuel(b: BoardView, tiles: Seq<Seq<Direction>>, fuel: nat) -> nat
    decreases fuel, 0int,
{
    if b.all_marked() {
        1
    } else if fuel == 0 {
        0
    } else {
        sum_tilings_fuel(successor_seq(b, tiles), tiles, (fuel - 1) as nat)
    }
}

/// The budgeted sum of tiling counts over a sequence of boards.
pub open spec fn sum_tilings_fuel(boards: Seq<BoardView>, tiles: Seq<Seq<Direction>>, fuel: nat) -> nat
    decreases fuel, boards.len() + 1int,
{
    if boards.len() == 0 {
        0
    } else {
        num_tilings_fuel(boards[0], tiles, fuel) + sum_tilings_fuel(
            boards.drop_first(),
            tiles,
            fuel,
        )
    }
}

/// The number of distinct placement sequences that lead this board, under
/// this tile collection and the best-cell heuristic, to a fully marked
/// board.
pub open spec fn num_tilings(b: BoardView, tiles: Seq<Seq<Direction>>) -> nat {
    num_tilings_fuel(b, tiles, unmarked_count(b))
}

/// The sum of `num_tilings` over a sequence of boards.
pub open spec fn sum_num(boards: Seq<BoardView>, tiles: Seq<Seq<Direction>>) -> nat
    decreases boards.len(),
{
    if boards.len() == 0 {
        0
    } else {
        num_tilings(boards[0], tiles) + sum_num(boards.drop_first(), tiles)
    }
}

proof fn lemma_row_unmarked_mono(r1: Seq<bool>, r2: Seq<bool>, w: int)
    requires
        forall|j: int| 0 <= j < w ==> (r1[j] ==> r2[j]),
    ensures
        row_unmarked(r2, w) <= row_unmarked(r1, w),
    decreases w,
{
    if w > 0 {
        lemma_row_unmarked_mono(r1, r2, w - 1);
    }
}

proof fn lemma_row_unmarked_strict(r1: Seq<bool>, r2: Seq<bool>, w: int, jw: int)
    requires
        forall|j: int| 0 <= j < w ==> (r1[j] ==> r2[j]),
        0 <= jw < w,
        !r1[jw],
        r2[jw],
    ensures
        row_unmarked(r2, w) < row_unmarked(r1, w),
    decreases w,
{
    if jw == w - 1 {
        lemma_row_unmarked_mono(r1, r2, w - 1);
    } else {
        lemma_row_unmarked_strict(r1, r2, w - 1, jw);
    }
}

proof fn lemma_grid_unmarked_mono(g1: Seq<Seq<bool>>, g2: Seq<Seq<bool>>, h: int, w: int)
    requires
        forall|i: int, j: int| 0 <= i < h && 0 <= j < w ==> (g1[i][j] ==> g2[i][j]),
    ensures
        grid_unmarked(g2, h, w) <= grid_unmarked(g1, h, w),
    decreases h,
{
    if h > 0 {
        lemma_grid_unmarked_mono(g1, g2, h - 1, w);
        lemma_row_unmarked_mono(g1[h - 1], g2[h - 1], w);
    }
}

proof fn lemma_grid_unmarked_strict(
    g1: Seq<Seq<bool>>,
    g2: Seq<Seq<bool>>,
    h: int,
    w: int,
    iw: int,
    jw: int,
)
    requires
        forall|i: int, j: int| 0 <= i < h && 0 <= j < w ==> (g1[i][j] ==> g2[i][j]),
        0 <= iw < h,
        0 <= jw < w,
        !g1[iw][jw],
        g2[iw][jw],
    ensures
        grid_unmarked(g2, h, w) < grid_unmarked(g1, h, w),
    decreases h,
{
    if iw == h - 1 {
        lemma_grid_unmarked_mono(g1, g2, h - 1, w);
        lemma_row_unmarked_strict(g1[h - 1], g2[h - 1], w, jw);
    } else {
        lemma_grid_unmarked_strict(g1, g2, h - 1, w, iw, jw);
        lemma_row_unmarked_mono(g1[h - 1], g2[h - 1], w);
    }
}

proof fn lemma_row_unmarked_pos(r: Seq<bool>, w: int, jw: int)
    requires
        0 <= jw < w,
        !r[jw],
    ensures
        row_unmarked(r, w) >= 1,
    decreases w,
{
    if jw < w - 1 {
        lemma_row_unmarked_pos(r, w - 1, jw);
    }
}

proof fn lemma_grid_unmarked_pos(g: Seq<Seq<bool>>, h: int, w: int, iw: int, jw: int)
    requires
        0 <= iw < h,
        0 <= jw < w,
        !g[iw][jw],
    ensures
        grid_unmarked(g, h, w) >= 1,
    decreases h,
{
    if iw == h - 1 {
        lemma_row_unmarked_pos(g[h - 1], w, jw);
    } else {
        lemma_grid_unmarked_pos(g, h - 1, w, iw, jw);
    }
}

/// A board that still has an available cell has a positive unmarked count.
pub proof fn lemma_unmarked_pos(b: BoardView, iw: int, jw: int)
    requires
        b.avail(iw, jw),
    ensures
        unmarked_count(b) >= 1,
{
    lemma_grid_unmarked_pos(b.grid, b.height, b.width, iw, jw);
}

/// A board that is not fully marked has a positive unmarked count.
pub proof fn lemma_not_marked_pos(b: BoardView)
    requires
        b.dims_ok(),
        !b.all_marked(),
    ensures
        unmarked_count(b) >= 1,
{
    let (iw, jw) = choose|iw: int, jw: int| b.valid(iw, jw) && !#[trigger] b.marked(iw, jw);
    lemma_unmarked_pos(b, iw, jw);
}

/// Marking keeps the dimensions well-formed.
pub proof fn lemma_mark_set_dims(b: BoardView, s: Set<(int, int)>)
    requires
        b.dims_ok(),
    ensures
        spec_mark_set(b, s).dims_ok(),
{
}

/// Marking a set holding at least one available cell strictly lowers the
/// number of unmarked cells.
pub proof fn lemma_mark_set_unmarked_lt(b: BoardView, s: Set<(int, int)>, pc: (int, int))
    requires
        b.dims_ok(),
        s.contains(pc),
        b.avail(pc.0, pc.1),
    ensures
        unmarked_count(spec_mark_set(b, s)) < unmarked_count(b),
{
    let m = spec_mark_set(b, s);
    lemma_grid_unmarked_strict(b.grid, m.grid, b.height, b.width, pc.0, pc.1);
}

/// What every covered set produced by `fit_sets_tile` satisfies: only
/// available cells, and always the anchor.
pub open spec fn covered_ok(b: BoardView, bi: int, bj: int, cs: Set<(int, int)>) -> bool {
    &&& forall|pc: (int, int)| #[trigger] cs.contains(pc) ==> b.avail(pc.0, pc.1)
    &&& cs.contains((bi, bj))
}

proof fn lemma_fit_sets_tile_props(
    b: BoardView,
    dirs: Seq<Direction>,
    bi: int,
    bj: int,
    send: int,
    acc: Seq<Set<(int, int)>>,
)
    requires
        send <= dirs.len() + 1,
        forall|m: int| 0 <= m < acc.len() ==> covered_ok(b, bi, bj, #[trigger] acc[m]),
    ensures
        forall|m: int|
            0 <= m < fit_sets_tile(b, dirs, bi, bj, send, acc).len() ==> covered_ok(
                b,
                bi,
                bj,
                #[trigger] fit_sets_tile(b, dirs, bi, bj, send, acc)[m],
            ),
    decreases send,
{
    if send > 0 {
        lemma_fit_sets_tile_props(b, dirs, bi, bj, send - 1, acc);
        let acc2 = fit_sets_tile(b, dirs, bi, bj, send - 1, acc);
        let s = send - 1;
        let cs = chain_cells(dirs, bi, bj, s);
        if spec_fits(b, dirs, bi, bj, s) && !acc2.contains(cs) {
            assert(covered_ok(b, bi, bj, cs)) by {
                assert forall|pc: (int, int)| #[trigger] cs.contains(pc) implies b.avail(
                    pc.0,
                    pc.1,
                ) by {
                    let k = choose|k: int|
                        0 <= k <= dirs.len() && pc.0 == #[trigger] crate::board::cell_row(
                            dirs,
                            bi,
                            s,
                            k,
                        ) && pc.1 == crate::board::cell_col(dirs, bj, s, k);
                }
                assert(0 <= s < dirs.len() + 1);
                assert(crate::board::cell_row(dirs, bi, s, s) == bi);
                assert(crate::board::cell_col(dirs, bj, s, s) == bj);
                assert(cs.contains((bi, bj)));
            }
            assert forall|m: int|
                0 <= m < fit_sets_tile(b, dirs, bi, bj, send, acc).len() implies covered_ok(
                b,
                bi,
                bj,
                #[trigger] fit_sets_tile(b, dirs, bi, bj, send, acc)[m],
            ) by {
                if m < acc2.len() {
                }
            }
        }
    }
}

proof fn lemma_fit_sets_props(
    b: BoardView,
    tiles: Seq<Seq<Direction>>,
    bi: int,
    bj: int,
    tend: int,
)
    ensures
        forall|m: int|
            0 <= m < fit_sets(b, tiles, bi, bj, tend).len() ==> covered_ok(
                b,
                bi,
                bj,
                #[trigger] fit_sets(b, tiles, bi, bj, tend)[m],
            ),
    decreases tend,
{
    if tend > 0 {
        lemma_fit_sets_props(b, tiles, bi, bj, tend - 1);
        lemma_fit_sets_tile_props(
            b,
            tiles[tend - 1],
            bi,
            bj,
            tiles[tend - 1].len() + 1int,
            fit_sets(b, tiles, bi, bj, tend - 1),
        );
    }
}

/// Every successor board keeps the dimensions and has strictly fewer
/// unmarked cells than its parent.
pub proof fn lemma_successor_props(b: BoardView, tiles: Seq<Seq<Direction>>)
    requires
        b.dims_ok(),
    ensures
        forall|m: int|
            0 <= m < successor_seq(b, tiles).len() ==> (#[trigger] successor_seq(b, tiles)[m])
                .dims_ok() && unmarked_count(successor_seq(b, tiles)[m]) < unmarked_count(b),
{
    let ss = successor_sets(b, tiles);
    if ss.len() > 0 {
        let pc = choose|pc: (int, int)| best_cell(b) == Option::Some(pc);
        assert(best_cell(b) == Option::Some(pc)) by {
            match best_cell(b) {
                Option::Some(pc2) => {
                    assert(best_cell(b) == Option::Some(pc2));
                },
                Option::None => {},
            }
        }
        lemma_fit_sets_props(b, tiles, pc.0, pc.1, tiles.len() as int);
        assert forall|m: int| 0 <= m < successor_seq(b, tiles).len() implies (
        #[trigger] successor_seq(b, tiles)[m]).dims_ok() && unmarked_count(
            successor_seq(b, tiles)[m],
        ) < unmarked_count(b) by {
            let cs = ss[m];
            assert(covered_ok(b, pc.0, pc.1, cs));
            lemma_mark_set_dims(b, cs);
            lemma_mark_set_unmarked_lt(b, cs, (pc.0, pc.1));
            assert(successor_seq(b, tiles)[m] == spec_mark_set(b, cs));
        }
    }
}

proof fn lemma_num_fuel_irrelevant(b: BoardView, tiles: Seq<Seq<Direction>>, f1: nat, f2: nat)
    requires
        b.dims_ok(),
        f1 >= unmarked_count(b),
        f2 >= unmarked_count(b),
    ensures
        num_tilings_fuel(b, tiles, f1) == num_tilings_fuel(b, tiles, f2),
    decreases f1 + f2, 0int,
{
    if !b.all_marked() {
        lemma_not_marked_pos(b);
        lemma_successor_props(b, tiles);
        lemma_sum_fuel_irrelevant(
            successor_seq(b, tiles),
            tiles,
            (f1 - 1) as nat,
            (f2 - 1) as nat,
        );
    }
}

proof fn lemma_sum_fuel_irrelevant(
    boards: Seq<BoardView>,
    tiles: Seq<Seq<Direction>>,
    f1: nat,
    f2: nat,
)
    requires
        forall|m: int|
            0 <= m < boards.len() ==> (#[trigger] boards[m]).dims_ok() && unmarked_count(
                boards[m],
            ) <= f1 && unmarked_count(boards[m]) <= f2,
    ensures
        sum_tilings_fuel(boards, tiles, f1) == sum_tilings_fuel(boards, tiles, f2),
    decreases f1 + f2, boards.len() + 1int,
{
    if boards.len() > 0 {
        lemma_num_fuel_irrelevant(boards[0], tiles, f1, f2);
        assert forall|m: int|
            0 <= m < boards.drop_first().len() implies (#[trigger] boards.drop_first()[m])
            .dims_ok() && unmarked_count(boards.drop_first()[m]) <= f1 && unmarked_count(
            boards.drop_first()[m],
        ) <= f2 by {
            assert(boards.drop_first()[m] == boards[m + 1]);
        }
        lemma_sum_fuel_irrelevant(boards.drop_first(), tiles, f1, f2);
    }
}

/// The defining equation of `num_tilings` without the budget: 1 when done,
/// else the sum over the successors.
pub proof fn lemma_num_tilings_unfold(b: BoardView, tiles: Seq<Seq<Direction>>)
    requires
        b.dims_ok(),
    ensures
        b.all_marked() ==> num_tilings(b, tiles) == 1,
        !b.all_marked() ==> num_tilings(b, tiles) == sum_num(successor_seq(b, tiles), tiles),
{
    if !b.all_marked() {
        lemma_not_marked_pos(b);
        lemma_successor_props(b, tiles);
        let u = unmarked_count(b);
        lemma_sum_fuel_eq_sum_num(successor_seq(b, tiles), tiles, (u - 1) as nat);
    }
}

proof fn lemma_sum_fuel_eq_sum_num(boards: Seq<BoardView>, tiles: Seq<Seq<Direction>>, f: nat)
    requires
        forall|m: int|
            0 <= m < boards.len() ==> (#[trigger] boards[m]).dims_ok() && unmarked_count(
                boards[m],
            ) <= f,
    ensures
        sum_tilings_fuel(boards, tiles, f) == sum_num(boards, tiles),
    decreases boards.len(),
{
    if boards.len() > 0 {
        lemma_num_fuel_irrelevant(boards[0], tiles, f, unmarked_count(boards[0]));
        assert forall|m: int|
            0 <= m < boards.drop_first().len() implies (#[trigger] boards.drop_first()[m])
            .dims_ok() && unmarked_count(boards.drop_first()[m]) <= f by {
            assert(boards.drop_first()[m] == boards[m + 1]);
        }
        lemma_sum_fuel_eq_sum_num(boards.drop_first(), tiles, f);
    }
}

/// Splitting a suffix sum at its first element.
pub proof fn lemma_sum_num_skip(boards: Seq<BoardView>, tiles: Seq<Seq<Direction>>, j: int)
    requires
        0 <= j < boards.len(),
    ensures
        sum_num(boards.skip(j), tiles) == num_tilings(boards[j], tiles) + sum_num(
            boards.skip(j + 1),
            tiles,
        ),
{
    assert(boards.skip(j).len() > 0);
    assert(boards.skip(j)[0] == boards[j]);
    assert(boards.skip(j).drop_first() =~= boards.skip(j + 1));
}

/// The greatest unmarked count over a sequence of boards.
pub open spec fn max_unmarked(boards: Seq<BoardView>) -> nat
    decreases boards.len(),
{
    if boards.len() == 0 {
        0
    } else {
        let rest = max_unmarked(boards.drop_first());
        if unmarked_count(boards[0]) >= rest {
            unmarked_count(boards[0])
        } else {
            rest
        }
    }
}

/// Every member's unmarked count is bounded by the maximum.
pub proof fn lemma_max_unmarked_ge(boards: Seq<BoardView>, m: int)
    requires
        0 <= m < boards.len(),
    ensures
        unmarked_count(boards[m]) <= max_unmarked(boards),
    decreases boards.len(),
{
    if m > 0 {
        lemma_max_unmarked_ge(boards.drop_first(), m - 1);
        assert(boards.drop_first()[m - 1] == boards[m]);
    }
}

/// A strict bound on every member bounds the maximum, as long as the bound
/// is positive.
pub proof fn lemma_max_unmarked_lt(boards: Seq<BoardView>, k: nat)
    requires
        k >= 1,
        forall|m: int| 0 <= m < boards.len() ==> unmarked_count(#[trigger] boards[m]) < k,
    ensures
        max_unmarked(boards) < k,
    decreases boards.len(),
{
    if boards.len() > 0 {
        assert forall|m: int|
            0 <= m < boards.drop_first().len() implies unmarked_count(
            #[trigger] boards.drop_first()[m],
        ) < k by {
            assert(boards.drop_first()[m] == boards[m + 1]);
        }
        lemma_max_unmarked_lt(boards.drop_first(), k);
    }
}


proof fn lemma_fit_sets_tile_nodup(
    b: BoardView,
    dirs: Seq<Direction>,
    bi: int,
    bj: int,
    send: int,
    acc: Seq<Set<(int, int)>>,
)
    requires
        forall|m1: int, m2: int| 0 <= m1 < m2 < acc.len() ==> acc[m1] != acc[m2],
    ensures
        forall|m1: int, m2: int|
            0 <= m1 < m2 < fit_sets_tile(b, dirs, bi, bj, send, acc).len() ==> fit_sets_tile(
                b,
                dirs,
                bi,
                bj,
                send,
                acc,
            )[m1] != fit_sets_tile(b, dirs, bi, bj, send, acc)[m2],
    decreases send,
{
    if send > 0 {
        lemma_fit_sets_tile_nodup(b, dirs, bi, bj, send - 1, acc);
        let acc2 = fit_sets_tile(b, dirs, bi, bj, send - 1, acc);
        let cs = chain_cells(dirs, bi, bj, send - 1);
        if spec_fits(b, dirs, bi, bj, send - 1) && !acc2.contains(cs) {
            assert forall|m1: int, m2: int|
                0 <= m1 < m2 < acc2.push(cs).len() implies acc2.push(cs)[m1] != acc2.push(
                cs,
            )[m2] by {
                if m2 == acc2.len() {
                    assert(acc2.push(cs)[m1] == acc2[m1]);
                    if acc2[m1] == cs {
                        assert(acc2.contains(cs));
                    }
                }
            }
        }
    }
}

proof fn lemma_fit_sets_nodup(
    b: BoardView,
    tiles: Seq<Seq<Direction>>,
    bi: int,
    bj: int,
    tend: int,
)
    ensures
        forall|m1: int, m2: int|
            0 <= m1 < m2 < fit_sets(b, tiles, bi, bj, tend).len() ==> fit_sets(
                b,
                tiles,
                bi,
                bj,
                tend,
            )[m1] != fit_sets(b, tiles, bi, bj, tend)[m2],
    decreases tend,
{
    if tend > 0 {
        lemma_fit_sets_nodup(b, tiles, bi, bj, tend - 1);
        lemma_fit_sets_tile_nodup(
            b,
            tiles[tend - 1],
            bi,
            bj,
            tiles[tend - 1].len() + 1int,
            fit_sets(b, tiles, bi, bj, tend - 1),
        );
    }
}

/// Distinct covered sets of available cells mark a board into distinct
/// boards.
proof fn lemma_mark_set_injective(
    b: BoardView,
    bi: int,
    bj: int,
    cs1: Set<(int, int)>,
    cs2: Set<(int, int)>,
)
    requires
        b.dims_ok(),
        covered_ok(b, bi, bj, cs1),
        covered_ok(b, bi, bj, cs2),
        cs1 != cs2,
    ensures
        spec_mark_set(b, cs1) != spec_mark_set(b, cs2),
{
    assert_by_contradiction!(!(forall|pc: (int, int)| cs1.contains(pc) == cs2.contains(pc)), {
        assert(cs1 =~= cs2);
    });
    let pc = choose|pc: (int, int)| #[trigger] cs1.contains(pc) != cs2.contains(pc);
    let m1 = spec_mark_set(b, cs1);
    let m2 = spec_mark_set(b, cs2);
    if cs1.contains(pc) {
        assert(b.avail(pc.0, pc.1));
        assert(m1.grid[pc.0][pc.1]);
        assert(!m2.grid[pc.0][pc.1]);
    } else {
        assert(b.avail(pc.0, pc.1));
        assert(m2.grid[pc.0][pc.1]);
        assert(!m1.grid[pc.0][pc.1]);
    }
}

/// The successors of a board are pairwise distinct board states.
pub proof fn lemma_successor_distinct(b: BoardView, tiles: Seq<Seq<Direction>>)
    requires
        b.dims_ok(),
    ensures
        forall|m1: int, m2: int|
            0 <= m1 < m2 < successor_seq(b, tiles).len() ==> successor_seq(b, tiles)[m1]
                != successor_seq(b, tiles)[m2],
{
    let ss = successor_sets(b, tiles);
    if ss.len() > 0 {
        let pc = choose|pc: (int, int)| best_cell(b) == Option::Some(pc);
        assert(best_cell(b) == Option::Some(pc)) by {
            match best_cell(b) {
                Option::Some(pc2) => {
                    assert(best_cell(b) == Option::Some(pc2));
                },
                Option::None => {},
            }
        }
        lemma_fit_sets_props(b, tiles, pc.0, pc.1, tiles.len() as int);
        lemma_fit_sets_nodup(b, tiles, pc.0, pc.1, tiles.len() as int);
        assert forall|m1: int, m2: int|
            0 <= m1 < m2 < successor_seq(b, tiles).len() implies successor_seq(b, tiles)[m1]
            != successor_seq(b, tiles)[m2] by {
            lemma_mark_set_injective(b, pc.0, pc.1, ss[m1], ss[m2]);
            assert(successor_seq(b, tiles)[m1] == spec_mark_set(b, ss[m1]));
            assert(successor_seq(b, tiles)[m2] == spec_mark_set(b, ss[m2]));
        }
    }
}


/// Chain links `k` and `k2` sit on cardinally adjacent cells.
pub open spec fn links_adjacent(dirs: Seq<Direction>, k: int, k2: int) -> bool {
    let dr = off_row(dirs, k) - off_row(dirs, k2);
    let dc = off_col(dirs, k) - off_col(dirs, k2);
    (dr == 0 && (dc == 1 || dc == -1)) || (dc == 0 && (dr == 1 || dr == -1))
}

/// Link `k` has some cardinally adjacent link in the same chain.
pub open spec fn has_cardinal_neighbor(dirs: Seq<Direction>, k: int) -> bool {
    exists|k2: int| 0 <= k2 <= dirs.len() && #[trigger] links_adjacent(dirs, k, k2)
}

/// Every cell of a multi-cell chain has a cardinally adjacent cell in the
/// same chain. All chains built from cardinal steps have this; a chain of
/// diagonal steps alone does not.
pub open spec fn chain_cardinal_connected(dirs: Seq<Direction>) -> bool {
    dirs.len() == 0 || forall|k: int|
        0 <= k <= dirs.len() ==> #[trigger] has_cardinal_neighbor(dirs, k)
}

/// An unmarked cell whose four cardinal neighbors are all off the board
/// or marked.
pub open spec fn blocked_cell(b: BoardView, i: int, j: int) -> bool {
    &&& b.avail(i, j)
    &&& !b.avail(i - 1, j)
    &&& !b.avail(i + 1, j)
    &&& !b.avail(i, j - 1)
    &&& !b.avail(i, j + 1)
}

/// No tile of the collection fits with any anchor link on cell (i, j).
pub open spec fn uncoverable(b: BoardView, tiles: Seq<Seq<Direction>>, i: int, j: int) -> bool {
    &&& b.avail(i, j)
    &&& forall|t: int, sx: int|
        0 <= t < tiles.len() && 0 <= sx <= tiles[t].len() ==> !(#[trigger] spec_fits(
            b,
            tiles[t],
            i,
            j,
            sx,
        ))
}

/// Whether some sequence of at most `fuel` placements — any tile of the
/// collection, at any anchor, not only at the heuristic's best cell —
/// turns the board into a fully marked one.
pub open spec fn completable_fuel(b: BoardView, tiles: Seq<Seq<Direction>>, fuel: nat) -> bool
    decreases fuel,
{
    if b.all_marked() {
        true
    } else if fuel == 0 {
        false
    } else {
        exists|t: int, ar: int, ac: int, sx: int|
            0 <= t < tiles.len() && 0 <= sx <= tiles[t].len() && (#[trigger] spec_fits(
                b,
                tiles[t],
                ar,
                ac,
                sx,
            )) && completable_fuel(
                spec_mark_set(b, chain_cells(tiles[t], ar, ac, sx)),
                tiles,
                (fuel - 1) as nat,
            )
    }
}

/// Whether any placement sequence at all completes the board. Every
/// placement marks at least one cell, so `unmarked_count` placements
/// always suffice as a budget.
pub open spec fn completable(b: BoardView, tiles: Seq<Seq<Direction>>) -> bool {
    completable_fuel(b, tiles, unmarked_count(b))
}

/// Under the count invariant, an unmarked cell with count 4 has all four
/// cardinal neighbors unavailable.
proof fn lemma_count4_blocked(b: BoardView, i: int, j: int)
    requires
        b.wf(),
        b.avail(i, j),
        b.counts[i][j] == 4,
    ensures
        blocked_cell(b, i, j),
{
    assert(b.counts[i][j] <= b.seed(i, j) + b.marked_nbrs(i, j));
}

/// Fitting only gets harder as cells are marked: a chain that fits on the
/// more-marked board fits on the less-marked one.
proof fn lemma_fits_mono(
    b1: BoardView,
    b2: BoardView,
    dirs: Seq<Direction>,
    ar: int,
    ac: int,
    sx: int,
)
    requires
        b1.width == b2.width,
        b1.height == b2.height,
        forall|i: int, j: int| b1.valid(i, j) && #[trigger] b1.marked(i, j) ==> b2.marked(i, j),
        spec_fits(b2, dirs, ar, ac, sx),
    ensures
        spec_fits(b1, dirs, ar, ac, sx),
{
    assert forall|k: int| 0 <= k <= dirs.len() implies b1.avail(
        #[trigger] cell_row(dirs, ar, sx, k),
        cell_col(dirs, ac, sx, k),
    ) by {
        assert(b2.avail(cell_row(dirs, ar, sx, k), cell_col(dirs, ac, sx, k)));
    }
}

/// Re-anchoring a fit at any of its own covered cells gives a fit with
/// the same covered cells.
proof fn lemma_fit_reanchor(dirs: Seq<Direction>, ar: int, ac: int, sx: int, k: int)
    ensures
        forall|k2: int|
            cell_row(dirs, cell_row(dirs, ar, sx, k), k, k2) == #[trigger] cell_row(
                dirs,
                ar,
                sx,
                k2,
            ) && cell_col(dirs, cell_col(dirs, ac, sx, k), k, k2) == cell_col(dirs, ac, sx, k2),
{
}

/// No multi-cell, cardinally connected tile can ever cover a blocked
/// cell: the covering chain would also cover one of its unavailable
/// cardinal neighbors.
proof fn lemma_blocked_uncoverable(b: BoardView, tiles: Seq<Seq<Direction>>, i: int, j: int)
    requires
        blocked_cell(b, i, j),
        !has_single_tile(tiles),
        forall|t: int| 0 <= t < tiles.len() ==> chain_cardinal_connected(#[trigger] tiles[t]),
    ensures
        uncoverable(b, tiles, i, j),
{
    assert forall|t: int, sx: int|
        0 <= t < tiles.len() && 0 <= sx <= tiles[t].len() implies !(#[trigger] spec_fits(
        b,
        tiles[t],
        i,
        j,
        sx,
    )) by {
        let dirs = tiles[t];
        assert(dirs.len() >= 1);
        if spec_fits(b, dirs, i, j, sx) {
            assert(has_cardinal_neighbor(dirs, sx));
            let k2 = choose|k2: int|
                0 <= k2 <= dirs.len() && #[trigger] links_adjacent(dirs, sx, k2);
            assert(cell_row(dirs, i, sx, sx) == i);
            assert(cell_col(dirs, j, sx, sx) == j);
            let r2 = cell_row(dirs, i, sx, k2);
            let c2 = cell_col(dirs, j, sx, k2);
            assert(b.avail(r2, c2));
            assert((r2 == i && (c2 == j - 1 || c2 == j + 1)) || (c2 == j && (r2 == i - 1 || r2
                == i + 1)));
        }
    }
}

/// A cell no tile can cover stays that way after any fitting placement:
/// the placement cannot touch it, and marking cells only removes fits.
proof fn lemma_uncoverable_persists(
    b: BoardView,
    tiles: Seq<Seq<Direction>>,
    i: int,
    j: int,
    t: int,
    ar: int,
    ac: int,
    sx: int,
)
    requires
        uncoverable(b, tiles, i, j),
        0 <= t < tiles.len(),
        0 <= sx <= tiles[t].len(),
        spec_fits(b, tiles[t], ar, ac, sx),
    ensures
        uncoverable(spec_mark_set(b, chain_cells(tiles[t], ar, ac, sx)), tiles, i, j),
{
    let dirs = tiles[t];
    let cs = chain_cells(dirs, ar, ac, sx);
    let b2 = spec_mark_set(b, cs);
    assert(!cs.contains((i, j))) by {
        if cs.contains((i, j)) {
            let k = choose|k: int|
                0 <= k <= dirs.len() && i == #[trigger] cell_row(dirs, ar, sx, k) && j
                    == cell_col(dirs, ac, sx, k);
            lemma_fit_reanchor(dirs, ar, ac, sx, k);
            assert forall|k2: int| 0 <= k2 <= dirs.len() implies b.avail(
                #[trigger] cell_row(dirs, i, k, k2),
                cell_col(dirs, j, k, k2),
            ) by {
                assert(cell_row(dirs, i, k, k2) == cell_row(dirs, ar, sx, k2));
                assert(cell_col(dirs, j, k, k2) == cell_col(dirs, ac, sx, k2));
            }
            assert(spec_fits(b, dirs, i, j, k));
        }
    }
    assert(b2.avail(i, j));
    assert forall|t2: int, sx2: int|
        0 <= t2 < tiles.len() && 0 <= sx2 <= tiles[t2].len() implies !(#[trigger] spec_fits(
        b2,
        tiles[t2],
        i,
        j,
        sx2,
    )) by {
        if spec_fits(b2, tiles[t2], i, j, sx2) {
            lemma_fits_mono(b, b2, tiles[t2], i, j, sx2);
        }
    }
}

proof fn lemma_uncoverable_incompletable(
    b: BoardView,
    tiles: Seq<Seq<Direction>>,
    i: int,
    j: int,
    fuel: nat,
)
    requires
        uncoverable(b, tiles, i, j),
    ensures
        !completable_fuel(b, tiles, fuel),
    decreases fuel,
{
    assert(!b.all_marked());
    if fuel > 0 && completable_fuel(b, tiles, fuel) {
        let (t, ar, ac, sx) = choose|t: int, ar: int, ac: int, sx: int|
            0 <= t < tiles.len() && 0 <= sx <= tiles[t].len() && (#[trigger] spec_fits(
                b,
                tiles[t],
                ar,
                ac,
                sx,
            )) && completable_fuel(
                spec_mark_set(b, chain_cells(tiles[t], ar, ac, sx)),
                tiles,
                (fuel - 1) as nat,
            );
        lemma_uncoverable_persists(b, tiles, i, j, t, ar, ac, sx);
        lemma_uncoverable_incompletable(
            spec_mark_set(b, chain_cells(tiles[t], ar, ac, sx)),
            tiles,
            i,
            j,
            (fuel - 1) as nat,
        );
    }
}

proof fn lemma_scan_none_unavail(b: BoardView, j: int, i: int)
    requires
        scan_best_upto(b, j, i) is None,
        0 <= i <= b.height,
    ensures
        forall|i2: int, j2: int|
            0 <= i2 < b.height && 0 <= j2 && (j2 < j || (j2 == j && i2 < i)) ==> !b.avail(i2, j2),
    decreases j, i,
{
    if j <= 0 && i <= 0 {
    } else if i <= 0 {
        lemma_scan_none_unavail(b, j - 1, b.height);
    } else {
        lemma_scan_none_unavail(b, j, i - 1);
        assert(!b.avail(i - 1, j));
    }
}

proof fn lemma_scan_some_avail(b: BoardView, j: int, i: int, pc: (int, int))
    requires
        b.dims_ok(),
        scan_best_upto(b, j, i) == Option::Some(pc),
        0 <= i,
    ensures
        b.avail(pc.0, pc.1),
    decreases j, i,
{
    if j <= 0 && i <= 0 {
    } else if i <= 0 {
        lemma_scan_some_avail(b, j - 1, b.height, pc);
    } else {
        match scan_best_upto(b, j, i - 1) {
            Option::Some(pc2) => {
                if pc != pc2 {
                } else {
                    lemma_scan_some_avail(b, j, i - 1, pc);
                }
            },
            Option::None => {},
        }
    }
}

proof fn lemma_fit_sets_tile_empty(
    b: BoardView,
    dirs: Seq<Direction>,
    bi: int,
    bj: int,
    send: int,
    acc: Seq<Set<(int, int)>>,
)
    requires
        fit_sets_tile(b, dirs, bi, bj, send, acc).len() == 0,
    ensures
        acc.len() == 0,
        forall|sx: int| 0 <= sx < send ==> !(#[trigger] spec_fits(b, dirs, bi, bj, sx)),
    decreases send,
{
    if send > 0 {
        let acc2 = fit_sets_tile(b, dirs, bi, bj, send - 1, acc);
        let cs = chain_cells(dirs, bi, bj, send - 1);
        if spec_fits(b, dirs, bi, bj, send - 1) && !acc2.contains(cs) {
            assert(fit_sets_tile(b, dirs, bi, bj, send, acc).len() == acc2.len() + 1);
        }
        lemma_fit_sets_tile_empty(b, dirs, bi, bj, send - 1, acc);
    }
}

proof fn lemma_fit_sets_empty(
    b: BoardView,
    tiles: Seq<Seq<Direction>>,
    bi: int,
    bj: int,
    tend: int,
)
    requires
        fit_sets(b, tiles, bi, bj, tend).len() == 0,
    ensures
        forall|t: int, sx: int|
            0 <= t < tend && 0 <= sx <= tiles[t].len() ==> !(#[trigger] spec_fits(
                b,
                tiles[t],
                bi,
                bj,
                sx,
            )),
    decreases tend,
{
    if tend > 0 {
        lemma_fit_sets_tile_empty(
            b,
            tiles[tend - 1],
            bi,
            bj,
            tiles[tend - 1].len() + 1int,
            fit_sets(b, tiles, bi, bj, tend - 1),
        );
        lemma_fit_sets_empty(b, tiles, bi, bj, tend - 1);
    }
}

/// Pruning soundness: when placement reports a dead end on a board that
/// is not fully marked — the collection having no single-cell tile and
/// every tile being cardinally connected — then no placement sequence of
/// any kind can ever complete that board.
pub proof fn lemma_pruning_sound(b: BoardView, tiles: Seq<Seq<Direction>>)
    requires
        b.wf(),
        !b.all_marked(),
        !has_single_tile(tiles),
        forall|t: int| 0 <= t < tiles.len() ==> chain_cardinal_connected(#[trigger] tiles[t]),
        successor_seq(b, tiles) == Seq::<BoardView>::empty(),
    ensures
        !completable(b, tiles),
{
    if has_dead_cell(b) {
        let (i, j) = choose|i: int, j: int| #[trigger] b.avail(i, j) && b.counts[i][j] == 4;
        lemma_count4_blocked(b, i, j);
        lemma_blocked_uncoverable(b, tiles, i, j);
        lemma_uncoverable_incompletable(b, tiles, i, j, unmarked_count(b));
    } else {
        match best_cell(b) {
            Option::None => {
                lemma_scan_none_unavail(b, b.width, 0);
                let (iw, jw) = choose|iw: int, jw: int|
                    b.valid(iw, jw) && !#[trigger] b.marked(iw, jw);
                assert(b.avail(iw, jw));
                assert(false);
            },
            Option::Some(pc) => {
                assert(successor_sets(b, tiles).len() == 0) by {
                    assert(successor_seq(b, tiles).len() == 0);
                }
                assert(fit_sets(b, tiles, pc.0, pc.1, tiles.len() as int).len() == 0);
                lemma_fit_sets_empty(b, tiles, pc.0, pc.1, tiles.len() as int);
                lemma_scan_some_avail(b, b.width, 0, pc);
                assert(uncoverable(b, tiles, pc.0, pc.1));
                lemma_uncoverable_incompletable(b, tiles, pc.0, pc.1, unmarked_count(b));
            },
        }
    }
}


/// A sum of tiling counts is at least any one of its members.
pub proof fn lemma_sum_num_ge(boards: Seq<BoardView>, tiles: Seq<Seq<Direction>>, m: int)
    requires
        0 <= m < boards.len(),
    ensures
        sum_num(boards, tiles) >= num_tilings(boards[m], tiles),
    decreases m,
{
    if m > 0 {
        lemma_sum_num_ge(boards.drop_first(), tiles, m - 1);
        assert(boards.drop_first()[m - 1] == boards[m]);
    }
}


/// 1 when `b` marks a valid cell that `init` left unmarked, else 0.
pub open spec fn newly_marked_nbr(init: BoardView, b: BoardView, i: int, j: int) -> int {
    if b.valid(i, j) && b.marked(i, j) && !init.marked(i, j) {
        1
    } else {
        0
    }
}

/// `b` is a board of `init`'s run: marks only grow, and every count is
/// the initial count plus the newly marked cardinal neighbors. The counts
/// of such a board are a function of its marked grid.
pub open spec fn counts_derived(init: BoardView, b: BoardView) -> bool {
    &&& b.width == init.width
    &&& b.height == init.height
    &&& forall|i: int, j: int|
        init.valid(i, j) && #[trigger] init.marked(i, j) ==> b.marked(i, j)
    &&& forall|i: int, j: int|
        b.valid(i, j) ==> #[trigger] b.counts[i][j] == init.counts[i][j] + newly_marked_nbr(
            init,
            b,
            i - 1,
            j,
        ) + newly_marked_nbr(init, b, i + 1, j) + newly_marked_nbr(init, b, i, j - 1)
            + newly_marked_nbr(init, b, i, j + 1)
}

/// Every board starts its own run.
pub proof fn lemma_counts_derived_refl(b: BoardView)
    ensures
        counts_derived(b, b),
{
}

/// Marking available cells keeps a board inside its run.
proof fn lemma_counts_derived_mark_set(init: BoardView, b: BoardView, s: Set<(int, int)>)
    requires
        b.dims_ok(),
        counts_derived(init, b),
        forall|pc: (int, int)| #[trigger] s.contains(pc) ==> b.avail(pc.0, pc.1),
    ensures
        counts_derived(init, spec_mark_set(b, s)),
{
    let m = spec_mark_set(b, s);
    assert forall|i: int, j: int| m.valid(i, j) implies #[trigger] m.counts[i][j]
        == init.counts[i][j] + newly_marked_nbr(init, m, i - 1, j) + newly_marked_nbr(
        init,
        m,
        i + 1,
        j,
    ) + newly_marked_nbr(init, m, i, j - 1) + newly_marked_nbr(init, m, i, j + 1) by {
        assert(b.counts[i][j] == init.counts[i][j] + newly_marked_nbr(init, b, i - 1, j)
            + newly_marked_nbr(init, b, i + 1, j) + newly_marked_nbr(init, b, i, j - 1)
            + newly_marked_nbr(init, b, i, j + 1));
        assert forall|i2: int, j2: int|
            (i2 == i - 1 && j2 == j) || (i2 == i + 1 && j2 == j) || (i2 == i && j2 == j - 1) || (
            i2 == i && j2 == j + 1) implies newly_marked_nbr(init, m, i2, j2) == newly_marked_nbr(
            init,
            b,
            i2,
            j2,
        ) + crate::board::set_ind(s, i2, j2) by {
            if s.contains((i2, j2)) {
                assert(b.avail(i2, j2));
                assert(m.marked(i2, j2));
            } else {
                if b.valid(i2, j2) {
                    assert(m.marked(i2, j2) == b.marked(i2, j2));
                }
            }
        }
    }
}

/// Every successor of a board of the run stays in the run.
pub proof fn lemma_counts_derived_succ(init: BoardView, b: BoardView, tiles: Seq<Seq<Direction>>)
    requires
        b.dims_ok(),
        counts_derived(init, b),
    ensures
        forall|m: int|
            0 <= m < successor_seq(b, tiles).len() ==> counts_derived(
                init,
                #[trigger] successor_seq(b, tiles)[m],
            ),
{
    let ss = successor_sets(b, tiles);
    if ss.len() > 0 {
        let pc = choose|pc: (int, int)| best_cell(b) == Option::Some(pc);
        assert(best_cell(b) == Option::Some(pc)) by {
            match best_cell(b) {
                Option::Some(pc2) => {
                    assert(best_cell(b) == Option::Some(pc2));
                },
                Option::None => {},
            }
        }
        lemma_fit_sets_props(b, tiles, pc.0, pc.1, tiles.len() as int);
        assert forall|m: int| 0 <= m < successor_seq(b, tiles).len() implies counts_derived(
            init,
            #[trigger] successor_seq(b, tiles)[m],
        ) by {
            assert(covered_ok(b, pc.0, pc.1, ss[m]));
            lemma_counts_derived_mark_set(init, b, ss[m]);
            assert(successor_seq(b, tiles)[m] == spec_mark_set(b, ss[m]));
        }
    }
}

/// Two boards of one run with the same marked grid are the same state:
/// the counts follow from the grid.
pub proof fn lemma_counts_derived_eq(init: BoardView, b1: BoardView, b2: BoardView)
    requires
        b1.dims_ok(),
        b2.dims_ok(),
        counts_derived(init, b1),
        counts_derived(init, b2),
        b1.grid == b2.grid,
    ensures
        b1 == b2,
{
    assert forall|i: int, j: int| b1.valid(i, j) implies b1.counts[i][j] == b2.counts[i][j] by {
        assert forall|i2: int, j2: int|
            (i2 == i - 1 && j2 == j) || (i2 == i + 1 && j2 == j) || (i2 == i && j2 == j - 1) || (
            i2 == i && j2 == j + 1) implies newly_marked_nbr(init, b1, i2, j2)
            == newly_marked_nbr(init, b2, i2, j2) by {}
        assert(b1.counts[i][j] == init.counts[i][j] + newly_marked_nbr(init, b1, i - 1, j)
            + newly_marked_nbr(init, b1, i + 1, j) + newly_marked_nbr(init, b1, i, j - 1)
            + newly_marked_nbr(init, b1, i, j + 1));
        assert(b2.counts[i][j] == init.counts[i][j] + newly_marked_nbr(init, b2, i - 1, j)
            + newly_marked_nbr(init, b2, i + 1, j) + newly_marked_nbr(init, b2, i, j - 1)
            + newly_marked_nbr(init, b2, i, j + 1));
    }
    assert forall|i: int| 0 <= i < b1.counts.len() implies b1.counts[i] =~= b2.counts[i] by {
        assert(b1.counts[i].len() == b1.width);
        assert(b2.counts[i].len() == b2.width);
        assert forall|j: int| 0 <= j < b1.width implies b1.counts[i][j] == b2.counts[i][j] by {
            assert(b1.valid(i, j));
        }
    }
    assert(b1.counts =~~= b2.counts);
    assert(b1 =~= b2);
}

} // verus!
