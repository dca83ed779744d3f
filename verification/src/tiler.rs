//! The search engine: level-synchronous parallel counting over distinct
//! board states, full graph materialization, and randomized single-tiling
//! sampling.

use vstd::prelude::*;
use crate::board::{board_views, successor_seq, BoardView, RectangularBoard};
use crate::counting::{
    counts_derived, lemma_counts_derived_eq, lemma_counts_derived_refl, lemma_counts_derived_succ,
    lemma_max_unmarked_ge, lemma_max_unmarked_lt, lemma_not_marked_pos, lemma_num_tilings_unfold,
    lemma_successor_distinct, lemma_successor_props, lemma_sum_num_ge, lemma_sum_num_skip,
    max_unmarked, num_tilings, sum_num, unmarked_count,
};
use crate::graph::BoardGraph;
use crate::tile::{Direction, TileCollection};
use rand::RngExt;
use rayon::iter::{IntoParallelRefIterator, ParallelIterator};

verus! {

#[verifier::external_type_specification]
#[verifier::external_body]
pub struct ExBigUint(num::BigUint);

/// The natural number a `num::BigUint` stands for.
pub uninterp spec fn big_value(x: num::BigUint) -> nat;

/// Relies on num's `BigUint: From<u64>`: the constructed bignum has the
/// value of the given integer.
#[verifier::external_body]
fn big_from_u64(x: u64) -> (r: num::BigUint)
    ensures
        big_value(r) == x,
{
    num::BigUint::from(x)
}

/// Relies on num's `Add for &BigUint`: bignum addition adds the values.
#[verifier::external_body]
fn big_add(a: &num::BigUint, b: &num::BigUint) -> (r: num::BigUint)
    ensures
        big_value(r) == big_value(*a) + big_value(*b),
{
    a + b
}

/// Relies on num's `Clone for BigUint`: the copy has the same value.
#[verifier::external_body]
fn big_clone(a: &num::BigUint) -> (r: num::BigUint)
    ensures
        big_value(r) == big_value(*a),
{
    a.clone()
}

/// Relies on rayon's `par_iter().map(..).collect()` over a vector: it
/// returns one result per input board, in input order, each computed by
/// the verified `place_tile`.
#[verifier::external_body]
fn par_place_tile(boards: &Vec<RectangularBoard>, tiles: &TileCollection) -> (r: Vec<
    Vec<RectangularBoard>,
>)
    requires
        tiles.wf(),
        forall|m: int| 0 <= m < boards@.len() ==> (#[trigger] boards@[m])@.wf(),
    ensures
        r@.len() == boards@.len(),
        forall|m: int|
            0 <= m < boards@.len() ==> board_views((#[trigger] r@[m])@) == successor_seq(
                boards@[m]@,
                tiles@,
            ),
        forall|m: int, k: int|
            0 <= m < r@.len() && 0 <= k < r@[m]@.len() ==> (#[trigger] r@[m]@[k])@.wf(),
{
    boards.par_iter().map(|b| b.place_tile(tiles)).collect()
}

/// Relies on rand's thread-local generator and uniform integer ranges:
/// whatever is drawn lies below the bound.
#[verifier::external_body]
fn random_below(n: usize) -> (r: usize)
    requires
        n > 0,
    ensures
        r < n,
{
    rand::rng().random_range(0..n)
}

/// The weighted sum `sum_i value(counts[i]) * num_tilings(boards[i])`: the
/// number of completions still owed by a frontier whose boards carry these
/// multiplicities.
pub open spec fn weighted(
    counts: Seq<num::BigUint>,
    boards: Seq<BoardView>,
    tiles: Seq<Seq<Direction>>,
) -> nat
    decreases boards.len(),
{
    if boards.len() == 0 || counts.len() == 0 {
        0
    } else {
        big_value(counts[0]) * num_tilings(boards[0], tiles) + weighted(
            counts.drop_first(),
            boards.drop_first(),
            tiles,
        )
    }
}

proof fn lemma_weighted_skip(
    counts: Seq<num::BigUint>,
    boards: Seq<BoardView>,
    tiles: Seq<Seq<Direction>>,
    i: int,
)
    requires
        counts.len() == boards.len(),
        0 <= i < boards.len(),
    ensures
        weighted(counts.skip(i), boards.skip(i), tiles) == big_value(counts[i]) * num_tilings(
            boards[i],
            tiles,
        ) + weighted(counts.skip(i + 1), boards.skip(i + 1), tiles),
{
    assert(counts.skip(i)[0] == counts[i]);
    assert(boards.skip(i)[0] == boards[i]);
    assert(counts.skip(i).drop_first() =~= counts.skip(i + 1));
    assert(boards.skip(i).drop_first() =~= boards.skip(i + 1));
}

proof fn lemma_weighted_push(
    counts: Seq<num::BigUint>,
    boards: Seq<BoardView>,
    tiles: Seq<Seq<Direction>>,
    c: num::BigUint,
    b: BoardView,
)
    requires
        counts.len() == boards.len(),
    ensures
        weighted(counts.push(c), boards.push(b), tiles) == weighted(counts, boards, tiles)
            + big_value(c) * num_tilings(b, tiles),
    decreases boards.len(),
{
    if boards.len() == 0 {
        assert(counts.push(c).drop_first() =~= counts);
        assert(boards.push(b).drop_first() =~= boards);
    } else {
        assert(counts.push(c).drop_first() =~= counts.drop_first().push(c));
        assert(boards.push(b).drop_first() =~= boards.drop_first().push(b));
        lemma_weighted_push(counts.drop_first(), boards.drop_first(), tiles, c, b);
    }
}

proof fn lemma_weighted_update(
    counts: Seq<num::BigUint>,
    boards: Seq<BoardView>,
    tiles: Seq<Seq<Direction>>,
    k: int,
    c2: num::BigUint,
)
    requires
        counts.len() == boards.len(),
        0 <= k < counts.len(),
    ensures
        weighted(counts.update(k, c2), boards, tiles) + big_value(counts[k]) * num_tilings(
            boards[k],
            tiles,
        ) == weighted(counts, boards, tiles) + big_value(c2) * num_tilings(boards[k], tiles),
    decreases k,
{
    if k == 0 {
        assert(counts.update(0, c2).drop_first() =~= counts.drop_first());
        assert(counts.update(0, c2)[0] == c2);
    } else {
        assert(counts.update(k, c2).drop_first() =~= counts.drop_first().update(k - 1, c2));
        lemma_weighted_update(counts.drop_first(), boards.drop_first(), tiles, k - 1, c2);
        assert(counts.drop_first()[k - 1] == counts[k]);
        assert(boards.drop_first()[k - 1] == boards[k]);
    }
}

/// Whether two boards are identical states: same dimensions, same marked
/// grid, same counts.
fn boards_identical(a: &RectangularBoard, b: &RectangularBoard) -> (r: bool)
    ensures
        r == (a@ == b@),
{
    if a.width != b.width || a.height != b.height {
        return false;
    }
    if !a.eq(b) {
        return false;
    }
    let h = a.counts.len();
    if h != b.counts.len() {
        proof {
            assert(a@.counts.len() != b@.counts.len());
        }
        return false;
    }
    let mut i: usize = 0;
    while i < h
        invariant
            h == a.counts@.len(),
            h == b.counts@.len(),
            i <= h,
            forall|k: int| 0 <= k < i ==> (#[trigger] a.counts@[k])@ == b.counts@[k]@,
        decreases h - i,
    {
        let w = a.counts[i].len();
        if w != b.counts[i].len() {
            proof {
                assert(a@.counts[i as int] == a.counts@[i as int]@.map_values(
                    |x: usize| x as int,
                ));
                assert(b@.counts[i as int] == b.counts@[i as int]@.map_values(
                    |x: usize| x as int,
                ));
            }
            return false;
        }
        let mut j: usize = 0;
        while j < w
            invariant
                h == a.counts@.len(),
                h == b.counts@.len(),
                i < h,
                w == a.counts@[i as int]@.len(),
                w == b.counts@[i as int]@.len(),
                j <= w,
                forall|k: int| 0 <= k < i ==> (#[trigger] a.counts@[k])@ == b.counts@[k]@,
                forall|k: int| 0 <= k < j ==> a.counts@[i as int]@[k] == b.counts@[i as int]@[k],
            decreases w - j,
        {
            if a.counts[i][j] != b.counts[i][j] {
                proof {
                    assert(a@.counts[i as int][j as int] != b@.counts[i as int][j as int]);
                }
                return false;
            }
            j += 1;
        }
        proof {
            assert(a.counts@[i as int]@ =~= b.counts@[i as int]@);
        }
        i += 1;
    }
    proof {
        assert forall|k: int| 0 <= k < a@.counts.len() implies a@.counts[k] == b@.counts[k] by {
            assert(a@.counts[k] == a.counts@[k]@.map_values(|x: usize| x as int));
            assert(b@.counts[k] == b.counts@[k]@.map_values(|x: usize| x as int));
        }
        assert(a@.counts =~~= b@.counts);
        assert(a@ =~= b@);
    }
    true
}

/// The index of the first board in `v` identical to `b`, if any.
fn find_identical(v: &Vec<RectangularBoard>, b: &RectangularBoard) -> (r: Option<usize>)
    ensures
        match r {
            Some(k) => k < v@.len() && v@[k as int]@ == b@,
            None => forall|k: int| 0 <= k < v@.len() ==> (#[trigger] v@[k])@ != b@,
        },
{
    let n = v.len();
    let mut i: usize = 0;
    while i < n
        invariant
            n == v@.len(),
            i <= n,
            forall|k: int| 0 <= k < i ==> (#[trigger] v@[k])@ != b@,
        decreases n - i,
    {
        if boards_identical(&v[i], b) {
            return Some(i);
        }
        i += 1;
    }
    None
}

/// The engine: a symmetry-closed tile collection, the board to tile, and
/// the state graph once it has been built.
pub struct Tiler {
    pub tiles: TileCollection,
    pub initial_board: RectangularBoard,
    pub graph: Option<BoardGraph>,
}

impl Tiler {
    /// A usable engine: sound tile flag, well-formed board, and any built
    /// graph faithful to the search they define.
    pub open spec fn wf(self) -> bool {
        &&& self.tiles.wf()
        &&& self.initial_board@.wf()
        &&& match self.graph {
            Option::Some(g) => graph_for(g, self.initial_board@, self.tiles@),
            Option::None => true,
        }
    }

    pub fn new(tiles: TileCollection, initial_board: RectangularBoard) -> (r: Tiler)
        ensures
            r.tiles == tiles,
            r.initial_board == initial_board,
            r.graph is None,
    {
        Tiler { tiles, initial_board, graph: None }
    }

    /// The number of distinct placement sequences that tile the initial
    /// board completely, as an arbitrary-precision integer.
    pub fn count_tilings(&self) -> (r: num::BigUint)
        requires
            self.wf(),
        ensures
            big_value(r) == num_tilings(self.initial_board@, self.tiles@),
    {
        // Count over the state graph when one has been built: O(states)
        // instead of re-expanding the frontier.
        match &self.graph {
            Some(_) => self.count_tilings_from_graph(),
            None => self.count_tilings_quick(),
        }
    }

    /// Level-synchronous breadth-first counting: each round expands every
    /// frontier board in parallel, merges equal successor states while
    /// summing their multiplicities (fan-in), and accumulates the
    /// multiplicity of every fully marked board reached.
    fn count_tilings_quick(&self) -> (r: num::BigUint)
        requires
            self.wf(),
        ensures
            big_value(r) == num_tilings(self.initial_board@, self.tiles@),
    {
        let ghost init = self.initial_board@;
        let ghost tcv = self.tiles@;
        let ghost target = num_tilings(init, tcv);

        let mut total = big_from_u64(0);
        let mut frontier: Vec<RectangularBoard> = Vec::new();
        let mut counts: Vec<num::BigUint> = Vec::new();

        if self.initial_board.is_all_marked() {
            return big_from_u64(1);
        }
        frontier.push(self.initial_board.copy_board());
        let one = big_from_u64(1);
        counts.push(one);
        proof {
            let fv = board_views(frontier@);
            assert(fv.len() == 1);
            assert(counts@.len() == 1);
            assert(counts@.drop_first() =~= Seq::<num::BigUint>::empty());
            assert(fv.drop_first() =~= Seq::<BoardView>::empty());
            assert(fv[0] == init);
            assert(big_value(counts@[0]) == 1);
            assert(weighted(counts@.drop_first(), fv.drop_first(), tcv) == 0);
            assert(weighted(counts@, fv, tcv) == big_value(counts@[0]) * num_tilings(fv[0], tcv)
                + weighted(counts@.drop_first(), fv.drop_first(), tcv));
            assert(1nat * num_tilings(init, tcv) == num_tilings(init, tcv)) by (nonlinear_arith);
            assert(weighted(counts@, fv, tcv) == num_tilings(init, tcv));
        }

        while frontier.len() > 0
            invariant
                self.wf(),
                init == self.initial_board@,
                tcv == self.tiles@,
                target == num_tilings(init, tcv),
                counts@.len() == frontier@.len(),
                forall|m: int|
                    0 <= m < frontier@.len() ==> (#[trigger] frontier@[m])@.wf() && !frontier@[
                        m
                    ]@.all_marked(),
                big_value(total) + weighted(counts@, board_views(frontier@), tcv) == target,
            decreases max_unmarked(board_views(frontier@)),
        {
            let ghost fviews = board_views(frontier@);
            let ghost fcounts = counts@;
            let ghost fmax = max_unmarked(fviews);
            proof {
                lemma_not_marked_pos(fviews[0]);
                lemma_max_unmarked_ge(fviews, 0);
            }

            let expanded = par_place_tile(&frontier, &self.tiles);

            let mut next: Vec<RectangularBoard> = Vec::new();
            let mut next_counts: Vec<num::BigUint> = Vec::new();
            let nf = frontier.len();
            let mut i: usize = 0;
            proof {
                assert(fcounts.skip(0) =~= fcounts);
                assert(fviews.skip(0) =~= fviews);
            }
            while i < nf
                invariant
                    self.wf(),
                    tcv == self.tiles@,
                    target == num_tilings(init, tcv),
                    nf == frontier@.len(),
                    i <= nf,
                    fviews == board_views(frontier@),
                    fcounts == counts@,
                    fcounts.len() == nf,
                    fmax == max_unmarked(fviews),
                    expanded@.len() == nf,
                    forall|m: int|
                        0 <= m < frontier@.len() ==> (#[trigger] frontier@[m])@.wf() && !frontier@[
                            m
                        ]@.all_marked(),
                    forall|m: int|
                        0 <= m < nf ==> board_views((#[trigger] expanded@[m])@) == successor_seq(
                            fviews[m],
                            tcv,
                        ),
                    forall|m: int, k: int|
                        0 <= m < nf && 0 <= k < expanded@[m]@.len() ==> (
                        #[trigger] expanded@[m]@[k])@.wf(),
                    next_counts@.len() == next@.len(),
                    forall|m: int|
                        0 <= m < next@.len() ==> (#[trigger] next@[m])@.wf() && !next@[
                            m
                        ]@.all_marked(),
                    forall|m: int|
                        0 <= m < next@.len() ==> unmarked_count((#[trigger] next@[m])@) < fmax,
                    big_value(total) + weighted(next_counts@, board_views(next@), tcv) + weighted(
                        fcounts.skip(i as int),
                        fviews.skip(i as int),
                        tcv,
                    ) == target,
                decreases nf - i,
            {
                let children = &expanded[i];
                let cnt = big_clone(&counts[i]);
                let ghost cval = big_value(counts@[i as int]);
                let ghost cviews = board_views(children@);
                let nc = children.len();
                proof {
                    lemma_weighted_skip(fcounts, fviews, tcv, i as int);
                    lemma_num_tilings_unfold(fviews[i as int], tcv);
                    lemma_successor_props(fviews[i as int], tcv);
                    lemma_max_unmarked_ge(fviews, i as int);
                    assert(cviews == successor_seq(fviews[i as int], tcv));
                    assert(num_tilings(fviews[i as int], tcv) == sum_num(cviews, tcv));
                    assert(cviews.skip(0) =~= cviews);
                }
                let mut jj: usize = 0;
                while jj < nc
                    invariant
                        self.wf(),
                        tcv == self.tiles@,
                        target == num_tilings(init, tcv),
                        nf == frontier@.len(),
                        i < nf,
                        jj <= nc,
                        fviews == board_views(frontier@),
                        fcounts == counts@,
                        fcounts.len() == nf,
                        fmax == max_unmarked(fviews),
                        cviews == successor_seq(fviews[i as int], tcv),
                        big_value(cnt) == cval,
                        cval == big_value(fcounts[i as int]),
                        nc == cviews.len(),
                        forall|m: int|
                            0 <= m < nc ==> (#[trigger] cviews[m]).dims_ok() && unmarked_count(
                                cviews[m],
                            ) < unmarked_count(fviews[i as int]),
                        children == &expanded@[i as int],
                        board_views(children@) == cviews,
                        forall|k: int| 0 <= k < nc ==> (#[trigger] children@[k])@.wf(),
                        unmarked_count(fviews[i as int]) <= fmax,
                        next_counts@.len() == next@.len(),
                        forall|m: int|
                            0 <= m < next@.len() ==> (#[trigger] next@[m])@.wf() && !next@[
                                m
                            ]@.all_marked(),
                        forall|m: int|
                            0 <= m < next@.len() ==> unmarked_count((#[trigger] next@[m])@)
                                < fmax,
                        big_value(total) + weighted(next_counts@, board_views(next@), tcv) + cval
                            * sum_num(cviews.skip(jj as int), tcv) + weighted(
                            fcounts.skip(i + 1),
                            fviews.skip(i + 1),
                            tcv,
                        ) == target,
                    decreases nc - jj,
                {
                    let child = &children[jj];
                    let ghost chv = cviews[jj as int];
                    proof {
                        lemma_sum_num_skip(cviews, tcv, jj as int);
                        assert(cval * sum_num(cviews.skip(jj as int), tcv) == cval * num_tilings(
                            chv,
                            tcv,
                        ) + cval * sum_num(cviews.skip(jj + 1), tcv)) by (nonlinear_arith)
                            requires
                                sum_num(cviews.skip(jj as int), tcv) == num_tilings(chv, tcv)
                                    + sum_num(cviews.skip(jj + 1), tcv),
                        ;
                        assert(child@ == chv);
                    }
                    if child.is_all_marked() {
                        proof {
                            assert(num_tilings(chv, tcv) == 1);
                            assert(cval * 1nat == cval) by (nonlinear_arith);
                        }
                        total = big_add(&total, &cnt);
                    } else {
                        match find_identical(&next, child) {
                            Some(k) => {
                                let c2 = big_add(&next_counts[k], &cnt);
                                let ghost oldnc = next_counts@;
                                proof {
                                    lemma_weighted_update(
                                        oldnc,
                                        board_views(next@),
                                        tcv,
                                        k as int,
                                        c2,
                                    );
                                    assert(board_views(next@)[k as int] == chv);
                                    assert(big_value(c2) * num_tilings(chv, tcv) == big_value(
                                        oldnc[k as int],
                                    ) * num_tilings(chv, tcv) + cval * num_tilings(chv, tcv))
                                        by (nonlinear_arith)
                                        requires
                                            big_value(c2) == big_value(oldnc[k as int]) + cval,
                                    ;
                                }
                                next_counts[k] = c2;
                            },
                            None => {
                                let c2 = big_clone(&cnt);
                                let ghost oldviews = board_views(next@);
                                let ghost oldcounts = next_counts@;
                                proof {
                                    lemma_weighted_push(oldcounts, oldviews, tcv, c2, chv);
                                }
                                next.push(child.copy_board());
                                next_counts.push(c2);
                                proof {
                                    assert(board_views(next@) =~= oldviews.push(chv));
                                    assert(next_counts@ == oldcounts.push(c2));
                                    assert(big_value(c2) * num_tilings(chv, tcv) == cval
                                        * num_tilings(chv, tcv)) by (nonlinear_arith)
                                        requires
                                            big_value(c2) == cval,
                                    ;
                                }
                            },
                        }
                    }
                    jj += 1;
                }
                proof {
                    assert(cviews.skip(nc as int) =~= Seq::<BoardView>::empty());
                    assert(cval * sum_num(cviews.skip(nc as int), tcv) == 0) by (nonlinear_arith)
                        requires
                            sum_num(cviews.skip(nc as int), tcv) == 0,
                    ;
                }
                i += 1;
            }
            proof {
                assert(fcounts.skip(nf as int) =~= Seq::<num::BigUint>::empty());
                assert(weighted(
                    fcounts.skip(nf as int),
                    fviews.skip(nf as int),
                    tcv,
                ) == 0);
                if next@.len() > 0 {
                    lemma_max_unmarked_lt(board_views(next@), fmax);
                } else {
                    assert(max_unmarked(board_views(next@)) == 0);
                    assert(unmarked_count(fviews[0]) >= 1);
                    assert(fmax >= 1);
                }
            }
            frontier = next;
            counts = next_counts;
        }
        proof {
            assert(weighted(counts@, board_views(frontier@), tcv) == 0);
        }
        total
    }
}


/// A complete tiling as the search reports it: the initial board first,
/// one placement per step, a fully marked board last.
pub open spec fn valid_tiling_path(
    init: BoardView,
    tiles: Seq<Seq<Direction>>,
    p: Seq<BoardView>,
) -> bool {
    &&& p.len() >= 1
    &&& p[0] == init
    &&& p[p.len() - 1].all_marked()
    &&& forall|m: int|
        0 <= m < p.len() - 1 ==> successor_seq(#[trigger] p[m], tiles).contains(p[m + 1])
}

/// A search path still being extended: like a complete tiling, but the
/// last board is not yet fully marked.
pub open spec fn partial_tiling_path(
    init: BoardView,
    tiles: Seq<Seq<Direction>>,
    p: Seq<BoardView>,
) -> bool {
    &&& p.len() >= 1
    &&& p[0] == init
    &&& !p[p.len() - 1].all_marked()
    &&& p[p.len() - 1].wf()
    &&& forall|m: int|
        0 <= m < p.len() - 1 ==> successor_seq(#[trigger] p[m], tiles).contains(p[m + 1])
}

/// An exact copy of a path of boards.
fn copy_path(p: &Vec<RectangularBoard>) -> (r: Vec<RectangularBoard>)
    ensures
        board_views(r@) == board_views(p@),
        r@.len() == p@.len(),
{
    let n = p.len();
    let mut out: Vec<RectangularBoard> = Vec::new();
    let mut i: usize = 0;
    while i < n
        invariant
            n == p@.len(),
            i <= n,
            out@.len() == i,
            forall|k: int| 0 <= k < i ==> (#[trigger] out@[k])@ == p@[k]@,
        decreases n - i,
    {
        out.push(p[i].copy_board());
        i += 1;
    }
    proof {
        assert(board_views(out@) =~= board_views(p@));
    }
    out
}

/// Depth-first enumeration of complete tilings extending `prefix`,
/// stopping at `limit` found overall. When the limit was not reached, the
/// subtree was explored exhaustively, so exactly `num_tilings` of the
/// prefix's last board were added.
fn collect_tilings(
    tiles: &TileCollection,
    prefix: Vec<RectangularBoard>,
    completed: &mut Vec<Vec<RectangularBoard>>,
    limit: usize,
    Ghost(init): Ghost<BoardView>,
)
    requires
        tiles.wf(),
        partial_tiling_path(init, tiles@, board_views(prefix@)),
        old(completed)@.len() <= limit,
        forall|m: int|
            0 <= m < old(completed)@.len() ==> valid_tiling_path(
                init,
                tiles@,
                board_views((#[trigger] old(completed)@[m])@),
            ),
    ensures
        final(completed)@.len() >= old(completed)@.len(),
        final(completed)@.len() <= limit,
        forall|m: int|
            0 <= m < final(completed)@.len() ==> valid_tiling_path(
                init,
                tiles@,
                board_views((#[trigger] final(completed)@[m])@),
            ),
        final(completed)@.len() < limit ==> final(completed)@.len() == old(completed)@.len()
            + num_tilings(board_views(prefix@).last(), tiles@),
    decreases unmarked_count(board_views(prefix@).last()),
{
    let ghost tcv = tiles@;
    let ghost pviews = board_views(prefix@);
    let ghost last = pviews.last();
    let n = prefix.len();
    let current = &prefix[n - 1];
    proof {
        assert(current@ == last);
    }
    let children = current.place_tile(tiles);
    let ghost cviews = board_views(children@);
    let nc = children.len();
    proof {
        lemma_num_tilings_unfold(last, tcv);
        lemma_successor_props(last, tcv);
        assert(num_tilings(last, tcv) == sum_num(cviews, tcv));
        assert(cviews.skip(0) =~= cviews);
    }
    let ghost start_len = completed@.len();
    let mut k: usize = 0;
    while k < nc
        invariant
            tiles.wf(),
            tcv == tiles@,
            nc == children@.len(),
            k <= nc,
            n == prefix@.len(),
            pviews == board_views(prefix@),
            last == pviews.last(),
            partial_tiling_path(init, tcv, pviews),
            cviews == board_views(children@),
            cviews == successor_seq(last, tcv),
            forall|m: int| 0 <= m < nc ==> (#[trigger] children@[m])@.wf(),
            forall|m: int|
                0 <= m < nc ==> unmarked_count(#[trigger] cviews[m]) < unmarked_count(last),
            start_len == old(completed)@.len(),
            completed@.len() >= start_len,
            completed@.len() <= limit,
            forall|m: int|
                0 <= m < completed@.len() ==> valid_tiling_path(
                    init,
                    tcv,
                    board_views((#[trigger] completed@[m])@),
                ),
            completed@.len() < limit ==> completed@.len() + sum_num(cviews.skip(k as int), tcv)
                == start_len + num_tilings(last, tcv),
        decreases nc - k,
    {
        let ghost chv = cviews[k as int];
        proof {
            lemma_sum_num_skip(cviews, tcv, k as int);
        }
        let is_done = children[k].is_all_marked();
        let mut extended = copy_path(&prefix);
        extended.push(children[k].copy_board());
        proof {
            let eviews = board_views(extended@);
            assert(eviews =~= pviews.push(chv));
            assert(eviews[eviews.len() - 1] == chv);
            assert(eviews[0] == init);
            assert forall|m: int|
                0 <= m < eviews.len() - 1 implies successor_seq(
                #[trigger] eviews[m],
                tcv,
            ).contains(eviews[m + 1]) by {
                if m < pviews.len() - 1 {
                    assert(eviews[m] == pviews[m]);
                    assert(eviews[m + 1] == pviews[m + 1]);
                } else {
                    assert(eviews[m] == last);
                    assert(successor_seq(last, tcv)[k as int] == chv);
                }
            }
        }
        if is_done {
            proof {
                assert(num_tilings(chv, tcv) == 1);
            }
            if completed.len() < limit {
                completed.push(extended);
            }
        } else {
            proof {
                lemma_not_marked_pos(chv);
            }
            if completed.len() < limit {
                collect_tilings(tiles, extended, completed, limit, Ghost(init));
            }
        }
        k += 1;
    }
    proof {
        assert(cviews.skip(nc as int) =~= Seq::<BoardView>::empty());
    }
}

/// Every board along a complete tiling path still admits at least one
/// completion, so the path's start has a positive tiling count.
proof fn lemma_path_num_pos(
    init: BoardView,
    tiles: Seq<Seq<Direction>>,
    p: Seq<BoardView>,
    m: int,
)
    requires
        valid_tiling_path(init, tiles, p),
        0 <= m < p.len(),
        p[m].dims_ok(),
    ensures
        num_tilings(p[m], tiles) >= 1,
    decreases p.len() - m,
{
    lemma_num_tilings_unfold(p[m], tiles);
    if !p[m].all_marked() {
        assert(m < p.len() - 1) by {
            if m == p.len() - 1 {
                assert(p[m].all_marked());
            }
        }
        let succ = successor_seq(p[m], tiles);
        assert(succ.contains(p[m + 1]));
        let k = choose|k: int| 0 <= k < succ.len() && succ[k] == p[m + 1];
        lemma_successor_props(p[m], tiles);
        lemma_path_num_pos(init, tiles, p, m + 1);
        lemma_sum_num_ge(succ, tiles, k);
    }
}

impl Tiler {
    /// Randomized depth-first sampling of one complete tiling: explore
    /// until `limit` complete tilings are found (or the space is
    /// exhausted), then pick one of them uniformly at random. Nothing is
    /// returned when none was found within the limit; with a nonzero
    /// limit and a board that is not already fully marked, that happens
    /// exactly when the board has no tiling at all.
    pub fn get_single_tiling(&self, limit: usize) -> (r: Option<Vec<RectangularBoard>>)
        requires
            self.wf(),
        ensures
            r matches Some(path) ==> valid_tiling_path(
                self.initial_board@,
                self.tiles@,
                board_views(path@),
            ),
            r is None <==> (limit == 0 || self.initial_board@.all_marked() || num_tilings(
                self.initial_board@,
                self.tiles@,
            ) == 0),
    {
        let ghost init = self.initial_board@;
        let ghost tcv = self.tiles@;
        let mut completed: Vec<Vec<RectangularBoard>> = Vec::new();
        if self.initial_board.is_all_marked() {
            return None;
        }
        let mut start: Vec<RectangularBoard> = Vec::new();
        start.push(self.initial_board.copy_board());
        proof {
            assert(board_views(start@).len() == 1);
            assert(board_views(start@)[0] == init);
            assert(board_views(start@).last() == init);
        }
        if limit > 0 {
            collect_tilings(&self.tiles, start, &mut completed, limit, Ghost(init));
        }
        if completed.len() > 0 {
            let pick = random_below(completed.len());
            let chosen = copy_path(&completed[pick]);
            proof {
                assert(valid_tiling_path(init, tcv, board_views(completed@[pick as int]@)));
                let p = board_views(completed@[pick as int]@);
                assert(p[0] == init);
                lemma_path_num_pos(init, tcv, p, 0);
            }
            Some(chosen)
        } else {
            None
        }
    }
}


/// Node `x`'s outgoing edges record exactly its successor boards, in
/// order, each pointing at a later node holding that board.
pub open spec fn edges_exact(g: BoardGraph, x: int, tiles: Seq<Seq<Direction>>) -> bool {
    &&& g.edges@[x]@.len() == successor_seq(g.nodes_arena@[x]@, tiles).len()
    &&& forall|k: int|
        0 <= k < g.edges@[x]@.len() ==> x < (#[trigger] g.edges@[x]@[k] as int)
            < g.nodes_arena@.len() && g.nodes_arena@[g.edges@[x]@[k] as int]@ == successor_seq(
            g.nodes_arena@[x]@,
            tiles,
        )[k]
}

/// A faithfully materialized search graph for an initial board and a tile
/// collection: node 0 is the initial board, every node's edges unfold its
/// successors exactly, fully marked nodes have no edges, the completed
/// list names exactly the fully marked non-root nodes, every other node
/// has a recorded parent (so all nodes are reachable from node 0 along
/// the strictly backward reverse edges), and every node's counts are the
/// ones its marked grid determines in this run.
pub open spec fn graph_for(g: BoardGraph, init: BoardView, tiles: Seq<Seq<Direction>>) -> bool {
    &&& g.wf()
    &&& g.nodes_arena@.len() >= 1
    &&& g.nodes_arena@[0]@ == init
    &&& forall|x: int|
        0 <= x < g.nodes_arena@.len() ==> (#[trigger] g.nodes_arena@[x])@.wf()
    &&& forall|x: int|
        0 <= x < g.nodes_arena@.len() && (#[trigger] g.nodes_arena@[x])@.all_marked()
            ==> g.edges@[x]@.len() == 0
    &&& forall|x: int|
        0 <= x < g.nodes_arena@.len() && !(#[trigger] g.nodes_arena@[x])@.all_marked()
            ==> edges_exact(g, x, tiles)
    &&& forall|k: int|
        0 <= k < g.complete_indices@.len() ==> (#[trigger] g.nodes_arena@[
            g.complete_indices@[k] as int
        ])@.all_marked()
    &&& forall|x: int|
        1 <= x < g.nodes_arena@.len() && (#[trigger] g.nodes_arena@[x])@.all_marked()
            ==> g.complete_indices@.contains(x as usize)
    &&& forall|x: int|
        1 <= x < g.nodes_arena@.len() ==> (#[trigger] g.rev_edges@[x])@.len() >= 1
    &&& forall|x: int|
        0 <= x < g.nodes_arena@.len() ==> counts_derived(init, (#[trigger] g.nodes_arena@[x])@)
}

/// Node identity in a faithful graph is marked-grid identity: the counts
/// of a run's board are determined by its marked grid, so two nodes whose
/// marked grids agree hold the same state.
pub proof fn lemma_graph_value_identity(
    g: BoardGraph,
    init: BoardView,
    tiles: Seq<Seq<Direction>>,
    x1: int,
    x2: int,
)
    requires
        graph_for(g, init, tiles),
        0 <= x1 < g.nodes_arena@.len(),
        0 <= x2 < g.nodes_arena@.len(),
        g.nodes_arena@[x1]@.grid == g.nodes_arena@[x2]@.grid,
    ensures
        g.nodes_arena@[x1]@ == g.nodes_arena@[x2]@,
{
    lemma_counts_derived_eq(init, g.nodes_arena@[x1]@, g.nodes_arena@[x2]@);
}

/// The children recorded for any one node are pairwise distinct board
/// states: a placement step never yields the same state twice, and the
/// edge list mirrors the successors exactly.
pub proof fn lemma_graph_children_distinct(
    g: BoardGraph,
    init: BoardView,
    tiles: Seq<Seq<Direction>>,
    x: int,
    k1: int,
    k2: int,
)
    requires
        graph_for(g, init, tiles),
        0 <= x < g.nodes_arena@.len(),
        0 <= k1 < k2 < g.edges@[x]@.len(),
    ensures
        g.nodes_arena@[g.edges@[x]@[k1] as int]@ != g.nodes_arena@[g.edges@[x]@[k2] as int]@,
{
    assert(!g.nodes_arena@[x]@.all_marked()) by {
        if g.nodes_arena@[x]@.all_marked() {
            assert(g.edges@[x]@.len() == 0);
        }
    }
    assert(edges_exact(g, x, tiles));
    lemma_successor_distinct(g.nodes_arena@[x]@, tiles);
}

/// The number of paths from node `x` to any fully marked node.
pub open spec fn paths_from(g: BoardGraph, x: int) -> nat
    decreases g.nodes_arena@.len() - x, 1int, 0int,
{
    if !(0 <= x < g.nodes_arena@.len()) {
        0
    } else if g.nodes_arena@[x]@.all_marked() {
        1
    } else {
        sum_paths_from(g, g.edges@[x]@, x)
    }
}

/// The sum of `paths_from` over a list of child indices, all beyond
/// `min_excl`.
pub open spec fn sum_paths_from(g: BoardGraph, children: Seq<usize>, min_excl: int) -> nat
    decreases g.nodes_arena@.len() - min_excl, 0int, children.len(),
{
    if children.len() == 0 {
        0
    } else {
        (if min_excl < children[0] && (children[0] as int) < g.nodes_arena@.len() {
            paths_from(g, children[0] as int)
        } else {
            0
        }) + sum_paths_from(g, children.drop_first(), min_excl)
    }
}

proof fn lemma_sum_paths_skip(g: BoardGraph, children: Seq<usize>, min_excl: int, k: int)
    requires
        0 <= k < children.len(),
        min_excl < children[k],
        (children[k] as int) < g.nodes_arena@.len(),
    ensures
        sum_paths_from(g, children.skip(k), min_excl) == paths_from(g, children[k] as int)
            + sum_paths_from(g, children.skip(k + 1), min_excl),
{
    assert(children.skip(k)[0] == children[k]);
    assert(children.skip(k).drop_first() =~= children.skip(k + 1));
}

/// Graph-based counting agrees with direct frontier counting: in a
/// faithful graph, the number of paths from a node to the fully marked
/// states equals `num_tilings` of that node's board, so the derived count
/// read off the graph equals the count the frontier search computes.
pub proof fn lemma_paths_from_correct(
    g: BoardGraph,
    init: BoardView,
    tiles: Seq<Seq<Direction>>,
    x: int,
)
    requires
        graph_for(g, init, tiles),
        0 <= x < g.nodes_arena@.len(),
    ensures
        paths_from(g, x) == num_tilings(g.nodes_arena@[x]@, tiles),
    decreases g.nodes_arena@.len() - x, 1int, 0int,
{
    let bx = g.nodes_arena@[x]@;
    if bx.all_marked() {
    } else {
        lemma_num_tilings_unfold(bx, tiles);
        assert(g.edges@[x]@.skip(0) =~= g.edges@[x]@);
        assert(successor_seq(bx, tiles).skip(0) =~= successor_seq(bx, tiles));
        lemma_sum_paths_correct(g, init, tiles, x, 0);
    }
}

proof fn lemma_sum_paths_correct(
    g: BoardGraph,
    init: BoardView,
    tiles: Seq<Seq<Direction>>,
    x: int,
    k: int,
)
    requires
        graph_for(g, init, tiles),
        0 <= x < g.nodes_arena@.len(),
        !g.nodes_arena@[x]@.all_marked(),
        0 <= k <= g.edges@[x]@.len(),
    ensures
        sum_paths_from(g, g.edges@[x]@.skip(k), x) == sum_num(
            successor_seq(g.nodes_arena@[x]@, tiles).skip(k),
            tiles,
        ),
    decreases g.nodes_arena@.len() - x, 0int, g.edges@[x]@.len() - k,
{
    let row = g.edges@[x]@;
    let succ = successor_seq(g.nodes_arena@[x]@, tiles);
    if k < row.len() {
        let t = row[k] as int;
        assert(x < t < g.nodes_arena@.len());
        assert(g.nodes_arena@[t]@ == succ[k]);
        lemma_paths_from_correct(g, init, tiles, t);
        lemma_sum_paths_skip(g, row, x, k);
        lemma_sum_num_skip(succ, tiles, k);
        lemma_sum_paths_correct(g, init, tiles, x, k + 1);
    } else {
        assert(row.skip(k) =~= Seq::<usize>::empty());
        assert(succ.skip(k) =~= Seq::<BoardView>::empty());
    }
}

/// The weighted suffix sum `sum_{t >= lo} value(counts[t]) * paths_from(t)`.
pub open spec fn weighted_paths(counts: Seq<num::BigUint>, g: BoardGraph, lo: int) -> nat
    decreases counts.len() - lo,
{
    if lo < 0 || lo >= counts.len() {
        0
    } else {
        big_value(counts[lo]) * paths_from(g, lo) + weighted_paths(counts, g, lo + 1)
    }
}

proof fn lemma_weighted_paths_zero(counts: Seq<num::BigUint>, g: BoardGraph, lo: int)
    requires
        forall|t: int| lo <= t < counts.len() ==> big_value(#[trigger] counts[t]) == 0,
    ensures
        weighted_paths(counts, g, lo) == 0,
    decreases counts.len() - lo,
{
    if 0 <= lo < counts.len() {
        lemma_weighted_paths_zero(counts, g, lo + 1);
    }
}

proof fn lemma_weighted_paths_update(
    counts: Seq<num::BigUint>,
    g: BoardGraph,
    lo: int,
    t: int,
    c2: num::BigUint,
)
    requires
        0 <= lo <= t < counts.len(),
    ensures
        weighted_paths(counts.update(t, c2), g, lo) + big_value(counts[t]) * paths_from(g, t)
            == weighted_paths(counts, g, lo) + big_value(c2) * paths_from(g, t),
    decreases t - lo,
{
    if lo == t {
        assert(counts.update(t, c2)[t] == c2);
        assert forall|l2: int| t + 1 <= l2 <= counts.len() implies weighted_paths(
            counts.update(t, c2),
            g,
            l2,
        ) == weighted_paths(counts, g, l2) by {
            lemma_weighted_paths_frame(counts, g, l2, t, c2);
        }
    } else {
        assert(counts.update(t, c2)[lo] == counts[lo]);
        lemma_weighted_paths_update(counts, g, lo + 1, t, c2);
    }
}

proof fn lemma_weighted_paths_frame(
    counts: Seq<num::BigUint>,
    g: BoardGraph,
    lo: int,
    t: int,
    c2: num::BigUint,
)
    requires
        0 <= t < counts.len(),
        t < lo <= counts.len(),
    ensures
        weighted_paths(counts.update(t, c2), g, lo) == weighted_paths(counts, g, lo),
    decreases counts.len() - lo,
{
    if lo < counts.len() {
        assert(counts.update(t, c2)[lo] == counts[lo]);
        lemma_weighted_paths_frame(counts, g, lo + 1, t, c2);
    }
}

impl Tiler {
    /// Topological accumulation over the materialized graph: node 0 starts
    /// with multiplicity 1; walking the arena in insertion order (which
    /// construction made topological) pushes each node's multiplicity
    /// across its edges, and fully marked nodes pay theirs into the total.
    fn count_tilings_from_graph(&self) -> (r: num::BigUint)
        requires
            self.wf(),
            self.graph is Some,
        ensures
            big_value(r) == num_tilings(self.initial_board@, self.tiles@),
    {
        let ghost init = self.initial_board@;
        let ghost tcv = self.tiles@;
        let ghost target = num_tilings(init, tcv);
        let g = self.graph.as_ref().unwrap();
        let ghost gg = *g;
        proof {
            assert(graph_for(gg, init, tcv));
            lemma_paths_from_correct(gg, init, tcv, 0);
        }
        let n = g.nodes_arena.len();
        let mut counts: Vec<num::BigUint> = Vec::new();
        counts.push(big_from_u64(1));
        let mut t0: usize = 1;
        while t0 < n
            invariant
                1 <= t0 <= n,
                counts@.len() == t0,
                big_value(counts@[0]) == 1,
                forall|t: int| 1 <= t < t0 ==> big_value(#[trigger] counts@[t]) == 0,
            decreases n - t0,
        {
            counts.push(big_from_u64(0));
            t0 += 1;
        }
        let mut acc = big_from_u64(0);
        proof {
            lemma_weighted_paths_zero(counts@, gg, 1);
            assert(weighted_paths(counts@, gg, 0) == big_value(counts@[0]) * paths_from(gg, 0)
                + weighted_paths(counts@, gg, 1));
            assert(1nat * paths_from(gg, 0) == paths_from(gg, 0)) by (nonlinear_arith);
            assert(big_value(acc) + weighted_paths(counts@, gg, 0) == target);
        }
        let mut s: usize = 0;
        while s < n
            invariant
                self.wf(),
                self.graph == Some(gg),
                graph_for(gg, init, tcv),
                target == num_tilings(init, tcv),
                n == gg.nodes_arena@.len(),
                s <= n,
                counts@.len() == n,
                big_value(acc) + weighted_paths(counts@, gg, s as int) == target,
            decreases n - s,
        {
            let g2 = self.graph.as_ref().unwrap();
            proof {
                assert(*g2 == gg);
            }
            let cs = big_clone(&counts[s]);
            let ghost cval = big_value(counts@[s as int]);
            proof {
                assert(weighted_paths(counts@, gg, s as int) == cval * paths_from(gg, s as int)
                    + weighted_paths(counts@, gg, s + 1));
            }
            if g2.nodes_arena[s].is_all_marked() {
                proof {
                    assert(paths_from(gg, s as int) == 1);
                    assert(cval * 1nat == cval) by (nonlinear_arith);
                }
                acc = big_add(&acc, &cs);
            } else {
                let ghost row = gg.edges@[s as int]@;
                let ne = g2.edges[s].len();
                proof {
                    assert(paths_from(gg, s as int) == sum_paths_from(gg, row, s as int));
                    assert(row.skip(0) =~= row);
                }
                let mut k: usize = 0;
                while k < ne
                    invariant
                        self.wf(),
                        self.graph == Some(gg),
                        graph_for(gg, init, tcv),
                        target == num_tilings(init, tcv),
                        n == gg.nodes_arena@.len(),
                        s < n,
                        row == gg.edges@[s as int]@,
                        ne == row.len(),
                        k <= ne,
                        counts@.len() == n,
                        big_value(cs) == cval,
                        !gg.nodes_arena@[s as int]@.all_marked(),
                        big_value(acc) + cval * sum_paths_from(gg, row.skip(k as int), s as int)
                            + weighted_paths(counts@, gg, s + 1) == target,
                    decreases ne - k,
                {
                    let g3 = self.graph.as_ref().unwrap();
                    proof {
                        assert(*g3 == gg);
                        assert(edges_exact(gg, s as int, tcv));
                    }
                    let t = g3.edges[s][k];
                    proof {
                        assert(s < (t as int) && (t as int) < n);
                        lemma_sum_paths_skip(gg, row, s as int, k as int);
                        assert(cval * sum_paths_from(gg, row.skip(k as int), s as int) == cval
                            * paths_from(gg, t as int) + cval * sum_paths_from(
                            gg,
                            row.skip(k + 1),
                            s as int,
                        )) by (nonlinear_arith)
                            requires
                                sum_paths_from(gg, row.skip(k as int), s as int) == paths_from(
                                    gg,
                                    t as int,
                                ) + sum_paths_from(gg, row.skip(k + 1), s as int),
                        ;
                    }
                    let c2 = big_add(&counts[t], &cs);
                    let ghost oldcounts = counts@;
                    proof {
                        lemma_weighted_paths_update(oldcounts, gg, s + 1, t as int, c2);
                        assert(big_value(c2) * paths_from(gg, t as int) == big_value(
                            oldcounts[t as int],
                        ) * paths_from(gg, t as int) + cval * paths_from(gg, t as int))
                            by (nonlinear_arith)
                            requires
                                big_value(c2) == big_value(oldcounts[t as int]) + cval,
                        ;
                    }
                    counts[t] = c2;
                    k += 1;
                }
                proof {
                    assert(row.skip(ne as int) =~= Seq::<usize>::empty());
                    assert(cval * sum_paths_from(gg, row.skip(ne as int), s as int) == 0)
                        by (nonlinear_arith)
                        requires
                            sum_paths_from(gg, row.skip(ne as int), s as int) == 0,
                    ;
                }
            }
            s += 1;
        }
        acc
    }
}


/// The board states named by a list of node indices.
pub open spec fn idx_views(nodes: Seq<RectangularBoard>, idxs: Seq<usize>) -> Seq<BoardView> {
    Seq::new(idxs.len(), |m: int| nodes[idxs[m] as int]@)
}

/// The first node at or after `start` holding exactly this board state.
fn find_node_from(g: &BoardGraph, b: &RectangularBoard, start: usize) -> (r: Option<usize>)
    ensures
        match r {
            Some(t) => start <= t && (t as int) < g.nodes_arena@.len() && g.nodes_arena@[
                t as int
            ]@ == b@,
            None => true,
        },
{
    let n = g.nodes_arena.len();
    let mut t = start;
    while t < n
        invariant
            n == g.nodes_arena@.len(),
            start <= t,
        decreases n - t,
    {
        if boards_identical(&g.nodes_arena[t], b) {
            return Some(t);
        }
        t += 1;
    }
    None
}

impl Tiler {
    /// Builds the full state graph level by level: every frontier board is
    /// expanded in parallel, children are deduplicated within the level,
    /// each transition becomes an edge, and fully marked children are
    /// recorded as complete.
    #[verifier::loop_isolation(false)]
    #[verifier::rlimit(100)]
    #[verifier::spinoff_prover]
    fn generate_graph(&mut self)
        requires
            old(self).wf(),
        ensures
            final(self).tiles == old(self).tiles,
            final(self).initial_board == old(self).initial_board,
            final(self).graph is Some,
            final(self).wf(),
    {
        let ghost init = self.initial_board@;
        let ghost tcv = self.tiles@;
        let mut graph = BoardGraph::new();
        let _root = graph.add_node(self.initial_board.copy_board());
        proof {
            assert(graph.nodes_arena@[0]@ == init);
            lemma_counts_derived_refl(init);
        }
        let mut stack: Vec<usize> = Vec::new();
        if !self.initial_board.is_all_marked() {
            stack.push(0);
            proof {
                assert(stack@[0] == 0usize);
                assert(stack@.contains(0usize));
            }
        }
        while stack.len() > 0
            invariant
                graph.wf(),
                graph.nodes_arena@.len() >= 1,
                graph.nodes_arena@[0]@ == init,
                forall|x: int|
                    0 <= x < graph.nodes_arena@.len() ==> (#[trigger] graph.nodes_arena@[x])@.wf(),
                forall|m: int|
                    0 <= m < stack@.len() ==> (#[trigger] stack@[m] as int)
                        < graph.nodes_arena@.len(),
                forall|m1: int, m2: int|
                    0 <= m1 < m2 < stack@.len() ==> stack@[m1] != stack@[m2],
                forall|m: int|
                    0 <= m < stack@.len() ==> graph.edges@[#[trigger] stack@[m] as int]@.len()
                        == 0 && !graph.nodes_arena@[stack@[m] as int]@.all_marked(),
                forall|x: int|
                    0 <= x < graph.nodes_arena@.len() && !stack@.contains(x as usize) && (
                    #[trigger] graph.nodes_arena@[x])@.all_marked() ==> graph.edges@[x]@.len()
                        == 0,
                forall|x: int|
                    0 <= x < graph.nodes_arena@.len() && !stack@.contains(x as usize) && !(
                    #[trigger] graph.nodes_arena@[x])@.all_marked() ==> edges_exact(
                        graph,
                        x,
                        tcv,
                    ),
                forall|k: int|
                    0 <= k < graph.complete_indices@.len() ==> (#[trigger] graph.nodes_arena@[
                        graph.complete_indices@[k] as int
                    ])@.all_marked(),
                forall|x: int|
                    1 <= x < graph.nodes_arena@.len() && (#[trigger] graph.nodes_arena@[x])@
                        .all_marked() ==> graph.complete_indices@.contains(x as usize),
                forall|x: int|
                    1 <= x < graph.nodes_arena@.len() ==> (#[trigger] graph.rev_edges@[x])@.len()
                        >= 1,
                forall|x: int|
                    0 <= x < graph.nodes_arena@.len() ==> counts_derived(
                        init,
                        (#[trigger] graph.nodes_arena@[x])@,
                    ),
            decreases max_unmarked(idx_views(graph.nodes_arena@, stack@)),
        {
            let ghost snap_nodes = graph.nodes_arena@;
            let ghost snap_stack = stack@;
            let ghost smax = max_unmarked(idx_views(snap_nodes, snap_stack));
            let level_start = graph.nodes_arena.len();
            let ns = stack.len();

            let mut boards: Vec<RectangularBoard> = Vec::new();
            let mut m: usize = 0;
            while m < ns
                invariant
                    m <= ns,
                    boards@.len() == m,
                    forall|q: int|
                        0 <= q < m ==> (#[trigger] boards@[q])@ == snap_nodes[
                            snap_stack[q] as int
                        ]@,
                decreases ns - m,
            {
                boards.push(graph.nodes_arena[stack[m]].copy_board());
                m += 1;
            }
            let expanded = par_place_tile(&boards, &self.tiles);
            proof {
                assert forall|q: int| 0 <= q < ns implies board_views(
                    (#[trigger] expanded@[q])@,
                ) == successor_seq(snap_nodes[snap_stack[q] as int]@, tcv) by {
                    assert(boards@[q]@ == snap_nodes[snap_stack[q] as int]@);
                }
                assert(smax >= 1) by {
                    lemma_not_marked_pos(snap_nodes[snap_stack[0] as int]@);
                    lemma_max_unmarked_ge(idx_views(snap_nodes, snap_stack), 0);
                    assert(idx_views(snap_nodes, snap_stack)[0] == snap_nodes[
                        snap_stack[0] as int
                    ]@);
                }
            }

            let mut next_stack: Vec<usize> = Vec::new();
            let mut i: usize = 0;
            while i < ns
                invariant
                    i <= ns,
                    graph.wf(),
                    graph.nodes_arena@.len() >= level_start,
                    forall|x: int|
                        0 <= x < level_start ==> graph.nodes_arena@[x] == snap_nodes[x],
                    forall|x: int|
                        0 <= x < graph.nodes_arena@.len() ==> (
                        #[trigger] graph.nodes_arena@[x])@.wf(),
                    forall|m2: int|
                        i <= m2 < ns ==> graph.edges@[#[trigger] stack@[m2] as int]@.len() == 0,
                    forall|m2: int|
                        0 <= m2 < i ==> edges_exact(graph, #[trigger] stack@[m2] as int, tcv),
                    forall|x: int|
                        0 <= x < level_start && !snap_stack.contains(x as usize) && (
                        #[trigger] graph.nodes_arena@[x])@.all_marked() ==> graph.edges@[
                            x
                        ]@.len() == 0,
                    forall|x: int|
                        0 <= x < level_start && !snap_stack.contains(x as usize) && !(
                        #[trigger] graph.nodes_arena@[x])@.all_marked() ==> edges_exact(
                            graph,
                            x,
                            tcv,
                        ),
                    forall|x: int|
                        level_start <= x < graph.nodes_arena@.len() ==> graph.edges@[x]@.len()
                            == 0,
                    forall|x: int|
                        level_start <= x < graph.nodes_arena@.len() && !(
                        #[trigger] graph.nodes_arena@[x])@.all_marked() ==> next_stack@.contains(
                            x as usize,
                        ),
                    forall|m2: int|
                        0 <= m2 < next_stack@.len() ==> level_start <= (
                        #[trigger] next_stack@[m2] as int) < graph.nodes_arena@.len(),
                    forall|m1: int, m2: int|
                        0 <= m1 < m2 < next_stack@.len() ==> next_stack@[m1] != next_stack@[m2],
                    forall|m2: int|
                        0 <= m2 < next_stack@.len() ==> !graph.nodes_arena@[
                            #[trigger] next_stack@[m2] as int
                        ]@.all_marked() && unmarked_count(
                            graph.nodes_arena@[next_stack@[m2] as int]@,
                        ) < smax,
                    forall|k: int|
                        0 <= k < graph.complete_indices@.len() ==> (
                        #[trigger] graph.nodes_arena@[
                            graph.complete_indices@[k] as int
                        ])@.all_marked(),
                    forall|x: int|
                        1 <= x < graph.nodes_arena@.len() && (#[trigger] graph.nodes_arena@[x])@
                            .all_marked() ==> graph.complete_indices@.contains(x as usize),
                    forall|x: int|
                        1 <= x < graph.nodes_arena@.len() ==> (
                        #[trigger] graph.rev_edges@[x])@.len() >= 1,
                    forall|x: int|
                        0 <= x < graph.nodes_arena@.len() ==> counts_derived(
                            init,
                            (#[trigger] graph.nodes_arena@[x])@,
                        ),
                decreases ns - i,
            {
                let s = stack[i];
                let ghost sb = snap_nodes[s as int]@;
                let children = &expanded[i];
                let nc = children.len();
                let ghost succ = successor_seq(sb, tcv);
                proof {
                    assert(graph.nodes_arena@[s as int]@ == sb);
                    lemma_successor_props(sb, tcv);
                    lemma_successor_distinct(sb, tcv);
                    lemma_max_unmarked_ge(idx_views(snap_nodes, snap_stack), i as int);
                    assert(idx_views(snap_nodes, snap_stack)[i as int] == sb);
                    assert(board_views(children@) == succ);
                }
                let mut k: usize = 0;
                while k < nc
                    invariant
                        k <= nc,
                        graph.wf(),
                        graph.nodes_arena@.len() >= level_start,
                        forall|x: int|
                            0 <= x < level_start ==> graph.nodes_arena@[x] == snap_nodes[x],
                        forall|x: int|
                            0 <= x < graph.nodes_arena@.len() ==> (
                            #[trigger] graph.nodes_arena@[x])@.wf(),
                        graph.edges@[s as int]@.len() == k,
                        forall|j: int|
                            0 <= j < k ==> (s as int) < (
                            #[trigger] graph.edges@[s as int]@[j] as int)
                                < graph.nodes_arena@.len() && graph.nodes_arena@[
                                graph.edges@[s as int]@[j] as int
                            ]@ == succ[j],
                        forall|m2: int|
                            i < m2 < ns ==> graph.edges@[#[trigger] stack@[m2] as int]@.len()
                                == 0,
                        forall|m2: int|
                            0 <= m2 < i ==> edges_exact(graph, #[trigger] stack@[m2] as int, tcv),
                        forall|x: int|
                            0 <= x < level_start && !snap_stack.contains(x as usize) && (
                            #[trigger] graph.nodes_arena@[x])@.all_marked() ==> graph.edges@[
                                x
                            ]@.len() == 0,
                        forall|x: int|
                            0 <= x < level_start && !snap_stack.contains(x as usize) && !(
                            #[trigger] graph.nodes_arena@[x])@.all_marked() ==> edges_exact(
                                graph,
                                x,
                                tcv,
                            ),
                        forall|x: int|
                            level_start <= x < graph.nodes_arena@.len() && x != s ==> graph.edges@[
                                x
                            ]@.len() == 0,
                        forall|x: int|
                            level_start <= x < graph.nodes_arena@.len() && !(
                            #[trigger] graph.nodes_arena@[x])@.all_marked()
                                ==> next_stack@.contains(x as usize),
                        forall|m2: int|
                            0 <= m2 < next_stack@.len() ==> level_start <= (
                            #[trigger] next_stack@[m2] as int) < graph.nodes_arena@.len(),
                        forall|m1: int, m2: int|
                            0 <= m1 < m2 < next_stack@.len() ==> next_stack@[m1]
                                != next_stack@[m2],
                        forall|m2: int|
                            0 <= m2 < next_stack@.len() ==> !graph.nodes_arena@[
                                #[trigger] next_stack@[m2] as int
                            ]@.all_marked() && unmarked_count(
                                graph.nodes_arena@[next_stack@[m2] as int]@,
                            ) < smax,
                        forall|kk: int|
                            0 <= kk < graph.complete_indices@.len() ==> (
                            #[trigger] graph.nodes_arena@[
                                graph.complete_indices@[kk] as int
                            ])@.all_marked(),
                        forall|x: int|
                            1 <= x < graph.nodes_arena@.len() && (
                            #[trigger] graph.nodes_arena@[x])@.all_marked()
                                ==> graph.complete_indices@.contains(x as usize),
                        forall|x: int|
                            1 <= x < graph.nodes_arena@.len() ==> (
                            #[trigger] graph.rev_edges@[x])@.len() >= 1,
                        forall|x: int|
                            0 <= x < graph.nodes_arena@.len() ==> counts_derived(
                                init,
                                (#[trigger] graph.nodes_arena@[x])@,
                            ),
                    decreases nc - k,
                {
                    let child = &children[k];
                    let ghost chv = succ[k as int];
                    proof {
                        assert(child@ == chv);
                        assert(chv.dims_ok());
                        assert(unmarked_count(chv) < unmarked_count(sb));
                        assert(counts_derived(init, sb)) by {
                            assert(graph.nodes_arena@[s as int]@ == sb);
                        }
                        lemma_counts_derived_succ(init, sb, tcv);
                        assert(counts_derived(init, chv));
                    }
                    let complete = child.is_all_marked();
                    let found = find_node_from(&graph, child, level_start);
                    let child_index: usize;
                    match found {
                        Some(t) => {
                            child_index = t;
                        },
                        None => {
                            let t = graph.add_node(child.copy_board());
                            if complete {
                                graph.mark_node_as_complete(t);
                            } else {
                                let ghost old_next = next_stack@;
                                next_stack.push(t);
                                proof {
                                    assert forall|x: int|
                                        level_start <= x < graph.nodes_arena@.len() && !(
                                        #[trigger] graph.nodes_arena@[x])@.all_marked() implies
                                        next_stack@.contains(x as usize) by {
                                        if x < graph.nodes_arena@.len() - 1 {
                                            let m3 = choose|m3: int|
                                                0 <= m3 < old_next.len() && old_next[m3] == (
                                                x as usize);
                                            assert(next_stack@[m3] == (x as usize));
                                        } else {
                                            assert(next_stack@[next_stack@.len() - 1] == t);
                                        }
                                    }
                                }
                            }
                            child_index = t;
                        },
                    }
                    proof {
                        assert(level_start <= child_index && (child_index as int)
                            < graph.nodes_arena@.len());
                        assert(graph.nodes_arena@[child_index as int]@ == chv);
                        assert(!graph.edges@[s as int]@.contains(child_index)) by {
                            if graph.edges@[s as int]@.contains(child_index) {
                                let j = choose|j: int|
                                    0 <= j < graph.edges@[s as int]@.len()
                                        && graph.edges@[s as int]@[j] == child_index;
                                assert(succ[j] == chv);
                            }
                        }
                    }
                    let ghost before_edge = graph;
                    graph.add_edge(s, child_index);
                    proof {
                        assert forall|x: int|
                            1 <= x < graph.nodes_arena@.len() implies (
                        #[trigger] graph.rev_edges@[x])@.len() >= 1 by {
                            if x == child_index as int {
                            } else {
                                assert(graph.rev_edges@[x] == before_edge.rev_edges@[x]);
                            }
                        }
                    }
                    k += 1;
                }
                proof {
                    assert(edges_exact(graph, s as int, tcv));
                }
                i += 1;
            }
            proof {
                let new_views = idx_views(graph.nodes_arena@, next_stack@);
                assert forall|m2: int| 0 <= m2 < new_views.len() implies unmarked_count(
                    #[trigger] new_views[m2],
                ) < smax by {
                    assert(new_views[m2] == graph.nodes_arena@[next_stack@[m2] as int]@);
                }
                lemma_max_unmarked_lt(new_views, smax);
            }
            stack = next_stack;
        }
        self.graph = Some(graph);
    }

    /// The state graph for this engine, built on first use and cached.
    pub fn graph(&mut self) -> (r: &BoardGraph)
        requires
            old(self).wf(),
        ensures
            final(self).tiles == old(self).tiles,
            final(self).initial_board == old(self).initial_board,
            final(self).wf(),
            final(self).graph == Some(*r),
            graph_for(*r, final(self).initial_board@, final(self).tiles@),
            old(self).graph is Some ==> final(self).graph == old(self).graph,
    {
        if self.graph.is_none() {
            self.generate_graph();
        }
        self.graph.as_ref().unwrap()
    }
}


/// The board shapes the engine can be run on.
#[derive(Debug, Copy, Clone)]
pub enum BoardType {
    Rectangle,
    LBoard,
    TBoard,
}

/// The seed tile shapes the engine can be run with.
#[derive(Debug, Copy, Clone)]
pub enum TileType {
    LTile,
    TTile,
    BoxTile,
}


/// Every reverse edge points at an earlier node.
pub open spec fn rev_edges_decreasing(g: BoardGraph) -> bool {
    forall|t: int, k: int|
        0 <= t < g.rev_edges@.len() && 0 <= k < g.rev_edges@[t]@.len() ==> (
        #[trigger] g.rev_edges@[t]@[k] as int) < t
}

/// In a faithful graph the reverse edges walk strictly backward through
/// the arena.
proof fn lemma_graph_rev_dec(g: BoardGraph, init: BoardView, tiles: Seq<Seq<Direction>>)
    requires
        graph_for(g, init, tiles),
    ensures
        rev_edges_decreasing(g),
{
    assert forall|t: int, k: int|
        0 <= t < g.rev_edges@.len() && 0 <= k < g.rev_edges@[t]@.len() implies (
    #[trigger] g.rev_edges@[t]@[k] as int) < t by {
        let sx = g.rev_edges@[t]@[k];
        assert(g.rev_edges@[t]@.contains(sx));
        assert((sx as int) < g.nodes_arena@.len());
        assert(g.edges@[sx as int]@.contains(t as usize));
        if g.nodes_arena@[sx as int]@.all_marked() {
            assert(g.edges@[sx as int]@.len() == 0);
        } else {
            assert(edges_exact(g, sx as int, tiles));
            let j = choose|j: int|
                0 <= j < g.edges@[sx as int]@.len() && g.edges@[sx as int]@[j] == (t as usize);
            assert((sx as int) < (g.edges@[sx as int]@[j] as int));
        }
    }
}

/// One reverse walk from a completed node down to the initial node: the
/// completed board first, the initial board's index (0) last, each
/// consecutive pair linked by a recorded placement edge.
pub open spec fn rev_path_ok(g: BoardGraph, p: Seq<usize>) -> bool {
    &&& p.len() >= 1
    &&& (p[p.len() - 1] as int) == 0
    &&& forall|m: int| 0 <= m < p.len() - 1 ==> g.has_edge(#[trigger] p[m + 1] as int, p[m] as int)
    &&& (p[0] as int) < g.nodes_arena@.len()
    &&& g.nodes_arena@[p[0] as int]@.all_marked()
}

/// An exact copy of an index path.
fn copy_indices(p: &Vec<usize>) -> (r: Vec<usize>)
    ensures
        r@ == p@,
{
    let n = p.len();
    let mut out: Vec<usize> = Vec::new();
    let mut i: usize = 0;
    while i < n
        invariant
            n == p@.len(),
            i <= n,
            out@.len() == i,
            forall|k: int| 0 <= k < i ==> out@[k] == p@[k],
        decreases n - i,
    {
        out.push(p[i]);
        i += 1;
    }
    proof {
        assert(out@ =~= p@);
    }
    out
}

/// `full` is `path` prolonged backward along recorded edges all the way
/// to node 0.
pub open spec fn extends_to_root(g: BoardGraph, path: Seq<usize>, full: Seq<usize>) -> bool {
    &&& path.len() >= 1
    &&& full.len() >= path.len()
    &&& full.subrange(0, path.len() as int) == path
    &&& (full[full.len() - 1] as int) == 0
    &&& forall|m: int|
        path.len() - 1 <= m < full.len() - 1 ==> g.has_edge(
            #[trigger] full[m + 1] as int,
            full[m] as int,
        )
}

/// No edge ever points at node 0: construction only adds edges toward
/// later nodes.
proof fn lemma_no_edge_to_root(g: BoardGraph, init: BoardView, tcv: Seq<Seq<Direction>>, e: int)
    requires
        graph_for(g, init, tcv),
    ensures
        !g.has_edge(e, 0),
{
    if g.has_edge(e, 0) {
        assert(g.edges@[e]@.contains(0usize));
        if g.nodes_arena@[e]@.all_marked() {
            assert(g.edges@[e]@.len() == 0);
        } else {
            assert(edges_exact(g, e, tcv));
            let j = choose|j: int| 0 <= j < g.edges@[e]@.len() && g.edges@[e]@[j] == 0usize;
            assert(e < (g.edges@[e]@[j] as int));
        }
    }
}

/// A walk that prolongs `path.push(e)` also prolongs `path`, passing
/// through `e` right after it.
proof fn lemma_extends_shrink(g: BoardGraph, path: Seq<usize>, e: usize, full: Seq<usize>)
    requires
        path.len() >= 1,
        g.has_edge(e as int, path[path.len() - 1] as int),
        extends_to_root(g, path.push(e), full),
    ensures
        extends_to_root(g, path, full),
        full.len() > path.len(),
        full[path.len() as int] == e,
{
    assert(full.subrange(0, path.len() + 1int) == path.push(e));
    assert forall|m: int| 0 <= m < path.len() + 1 implies full[m] == path.push(e)[m] by {
        assert(full.subrange(0, path.len() + 1int)[m] == full[m]);
    }
    assert(full.subrange(0, path.len() as int) =~= path);
    assert(full[path.len() as int] == e);
    assert forall|m: int| path.len() - 1 <= m < full.len() - 1 implies g.has_edge(
        #[trigger] full[m + 1] as int,
        full[m] as int,
    ) by {
        if m == path.len() - 1 {
            assert(full[m] == path[path.len() - 1]);
            assert(full[m + 1] == e);
        }
    }
}

/// A walk that prolongs `path` and passes through `e` right after it also
/// prolongs `path.push(e)`.
proof fn lemma_extends_grow(g: BoardGraph, path: Seq<usize>, e: usize, full: Seq<usize>)
    requires
        extends_to_root(g, path, full),
        full.len() > path.len(),
        full[path.len() as int] == e,
    ensures
        extends_to_root(g, path.push(e), full),
{
    assert forall|m: int| 0 <= m < path.len() implies full[m] == path[m] by {
        assert(full.subrange(0, path.len() as int)[m] == full[m]);
    }
    assert(full.subrange(0, path.len() + 1int) =~= path.push(e)) by {
        assert forall|m: int| 0 <= m < path.len() + 1 implies full.subrange(
            0,
            path.len() + 1int,
        )[m] == path.push(e)[m] by {
            assert(full.subrange(0, path.len() + 1int)[m] == full[m]);
        }
    }
}

/// Extends `out` with every reverse walk from the end of `path` down to
/// node 0: each exactly once, and nothing else.
fn walk_rev(
    g: &BoardGraph,
    idx: usize,
    path: Vec<usize>,
    out: &mut Vec<Vec<usize>>,
    Ghost(init): Ghost<BoardView>,
    Ghost(tcv): Ghost<Seq<Seq<Direction>>>,
)
    requires
        graph_for(*g, init, tcv),
        (idx as int) < g.nodes_arena@.len(),
        path@.len() >= 1,
        path@[path@.len() - 1] == idx,
        (path@[0] as int) < g.nodes_arena@.len(),
        g.nodes_arena@[path@[0] as int]@.all_marked(),
        forall|m: int|
            0 <= m < path@.len() - 1 ==> g.has_edge(
                #[trigger] path@[m + 1] as int,
                path@[m] as int,
            ),
        forall|m: int| 0 <= m < old(out)@.len() ==> rev_path_ok(*g, (#[trigger] old(out)@[m])@),
        forall|m: int|
            0 <= m < old(out)@.len() ==> !extends_to_root(*g, path@, (#[trigger] old(out)@[m])@),
        forall|m1: int, m2: int|
            0 <= m1 < m2 < old(out)@.len() ==> old(out)@[m1]@ != old(out)@[m2]@,
    ensures
        final(out)@.len() >= old(out)@.len(),
        forall|m: int| 0 <= m < old(out)@.len() ==> final(out)@[m] == old(out)@[m],
        forall|m: int|
            0 <= m < final(out)@.len() ==> rev_path_ok(*g, (#[trigger] final(out)@[m])@),
        forall|m: int|
            old(out)@.len() <= m < final(out)@.len() ==> extends_to_root(
                *g,
                path@,
                (#[trigger] final(out)@[m])@,
            ),
        forall|m1: int, m2: int|
            0 <= m1 < m2 < final(out)@.len() ==> final(out)@[m1]@ != final(out)@[m2]@,
        forall|full: Seq<usize>|
            #[trigger] extends_to_root(*g, path@, full) ==> exists|m: int|
                0 <= m < final(out)@.len() && final(out)@[m]@ == full,
    decreases idx,
{
    proof {
        lemma_graph_rev_dec(*g, init, tcv);
    }
    if idx == 0 {
        proof {
            assert(rev_path_ok(*g, path@));
            assert(path@.subrange(0, path@.len() as int) =~= path@);
            assert(extends_to_root(*g, path@, path@));
        }
        let ghost pview = path@;
        out.push(path);
        proof {
            assert(out@[out@.len() - 1]@ == pview);
            assert forall|m: int| 0 <= m < out@.len() implies rev_path_ok(
                *g,
                (#[trigger] out@[m])@,
            ) by {
                if m < out@.len() - 1 {
                    assert(out@[m] == old(out)@[m]);
                }
            }
            assert forall|m1: int, m2: int| 0 <= m1 < m2 < out@.len() implies out@[m1]@
                != out@[m2]@ by {
                if m2 == out@.len() - 1 {
                    assert(!extends_to_root(*g, pview, old(out)@[m1]@));
                }
            }
            assert forall|full: Seq<usize>| #[trigger] extends_to_root(
                *g,
                pview,
                full,
            ) implies exists|m: int| 0 <= m < out@.len() && out@[m]@ == full by {
                if full.len() > pview.len() {
                    let mm: int = pview.len() - 1;
                    assert(g.has_edge(full[mm + 1] as int, full[mm] as int));
                    assert(full[mm] == pview[mm]) by {
                        assert(full.subrange(0, pview.len() as int)[mm] == full[mm]);
                    }
                    lemma_no_edge_to_root(*g, init, tcv, full[mm + 1] as int);
                    assert(false);
                } else {
                    assert(full =~= pview) by {
                        assert forall|m: int| 0 <= m < pview.len() implies full[m]
                            == pview[m] by {
                            assert(full.subrange(0, pview.len() as int)[m] == full[m]);
                        }
                    }
                    assert(out@[out@.len() - 1]@ == full);
                }
            }
        }
        return ;
    }
    match g.get_rev_edges(idx) {
        None => {
            proof {
                assert(g.rev_edges@[idx as int]@.len() == 0);
                assert forall|full: Seq<usize>| #[trigger] extends_to_root(
                    *g,
                    path@,
                    full,
                ) implies exists|m: int| 0 <= m < out@.len() && out@[m]@ == full by {
                    lemma_walk_step_exists(*g, path@, full, idx);
                    assert(false);
                }
            }
        },
        Some(parents) => {
            let np = parents.len();
            let ghost prow = g.rev_edges@[idx as int]@;
            let ghost out0 = out@;
            let mut k: usize = 0;
            while k < np
                invariant
                    graph_for(*g, init, tcv),
                    rev_edges_decreasing(*g),
                    (idx as int) < g.nodes_arena@.len(),
                    idx != 0,
                    parents@ == prow,
                    prow == g.rev_edges@[idx as int]@,
                    np == prow.len(),
                    k <= np,
                    path@.len() >= 1,
                    path@[path@.len() - 1] == idx,
                    (path@[0] as int) < g.nodes_arena@.len(),
                    g.nodes_arena@[path@[0] as int]@.all_marked(),
                    forall|m: int|
                        0 <= m < path@.len() - 1 ==> g.has_edge(
                            #[trigger] path@[m + 1] as int,
                            path@[m] as int,
                        ),
                    out0 == old(out)@,
                    out@.len() >= out0.len(),
                    forall|m: int| 0 <= m < out0.len() ==> out@[m] == out0[m],
                    forall|m: int| 0 <= m < out0.len() ==> rev_path_ok(*g, (#[trigger] out0[m])@),
                    forall|m: int|
                        0 <= m < out0.len() ==> !extends_to_root(
                            *g,
                            path@,
                            (#[trigger] out0[m])@,
                        ),
                    forall|m: int| 0 <= m < out@.len() ==> rev_path_ok(*g, (#[trigger] out@[m])@),
                    forall|m: int|
                        out0.len() <= m < out@.len() ==> exists|k2: int|
                            0 <= k2 < k && extends_to_root(
                                *g,
                                path@.push(prow[k2]),
                                (#[trigger] out@[m])@,
                            ),
                    forall|m1: int, m2: int| 0 <= m1 < m2 < out@.len() ==> out@[m1]@ != out@[m2]@,
                    forall|full: Seq<usize>|
                        (#[trigger] extends_to_root(*g, path@, full) && full.len() > path@.len()
                            && exists|k2: int|
                            0 <= k2 < k && full[path@.len() as int] == prow[k2]) ==> exists|
                            m: int,
                        |
                            0 <= m < out@.len() && out@[m]@ == full,
                decreases np - k,
            {
                let e = parents[k];
                proof {
                    assert(prow[k as int] == e);
                    assert((e as int) < idx);
                    assert(prow.contains(e));
                    assert(((idx as int) as usize) == idx);
                    assert(((e as int) as usize) == e);
                    assert(g.rev_edges@[idx as int]@.contains((e as int) as usize));
                    assert(g.edges@[e as int]@.contains((idx as int) as usize));
                    assert(g.has_edge(e as int, idx as int));
                }
                let mut extended = copy_indices(&path);
                extended.push(e);
                let ghost pre = out@;
                proof {
                    assert(extended@ == path@.push(e));
                    assert(extended@[extended@.len() - 1] == e);
                    assert(extended@[0] == path@[0]);
                    assert forall|m: int| 0 <= m < extended@.len() - 1 implies g.has_edge(
                        #[trigger] extended@[m + 1] as int,
                        extended@[m] as int,
                    ) by {
                        if m < path@.len() - 1 {
                            assert(extended@[m] == path@[m]);
                            assert(extended@[m + 1] == path@[m + 1]);
                        } else {
                            assert(extended@[m] == path@[path@.len() - 1]);
                        }
                    }
                    assert(prow.no_duplicates());
                    // no current entry already prolongs the extended path
                    assert forall|m: int| 0 <= m < out@.len() implies !extends_to_root(
                        *g,
                        extended@,
                        (#[trigger] out@[m])@,
                    ) by {
                        if extends_to_root(*g, extended@, out@[m]@) {
                            lemma_extends_shrink(*g, path@, e, out@[m]@);
                            if m < out0.len() {
                                assert(!extends_to_root(*g, path@, out0[m]@));
                            } else {
                                let k2 = choose|k2: int|
                                    0 <= k2 < k && extends_to_root(
                                        *g,
                                        path@.push(prow[k2]),
                                        out@[m]@,
                                    );
                                assert(g.has_edge(prow[k2] as int, idx as int)) by {
                                    assert(prow.contains(prow[k2]));
                                    assert(((prow[k2] as int) as usize) == prow[k2]);
                                    assert((prow[k2] as int) < idx);
                                    assert(g.edges@[prow[k2] as int]@.contains(
                                        (idx as int) as usize,
                                    ));
                                }
                                lemma_extends_shrink(*g, path@, prow[k2], out@[m]@);
                                assert(prow[k2] == e);
                            }
                        }
                    }
                }
                walk_rev(g, e, extended, out, Ghost(init), Ghost(tcv));
                proof {
                    assert forall|m: int| out0.len() <= m < out@.len() implies exists|k2: int|
                        0 <= k2 < k + 1 && extends_to_root(
                            *g,
                            path@.push(prow[k2]),
                            (#[trigger] out@[m])@,
                        ) by {
                        if m < pre.len() {
                            assert(out@[m] == pre[m]);
                            let k2 = choose|k2: int|
                                0 <= k2 < k && extends_to_root(
                                    *g,
                                    path@.push(prow[k2]),
                                    pre[m]@,
                                );
                            assert(extends_to_root(*g, path@.push(prow[k2]), out@[m]@));
                        } else {
                            assert(extends_to_root(*g, extended@, out@[m]@));
                            assert(prow[k as int] == e);
                        }
                    }
                    assert forall|full: Seq<usize>|
                        (#[trigger] extends_to_root(*g, path@, full) && full.len()
                            > path@.len() && exists|k2: int|
                            0 <= k2 < k + 1 && full[path@.len() as int] == prow[k2]) implies
                        exists|m: int| 0 <= m < out@.len() && out@[m]@ == full by {
                        let k2 = choose|k2: int|
                            0 <= k2 < k + 1 && full[path@.len() as int] == prow[k2];
                        if k2 < k {
                            let m = choose|m: int| 0 <= m < pre.len() && pre[m]@ == full;
                            assert(out@[m] == pre[m]);
                        } else {
                            lemma_extends_grow(*g, path@, e, full);
                            assert(extends_to_root(*g, extended@, full));
                        }
                    }
                }
                k += 1;
            }
            proof {
                assert forall|m: int| out0.len() <= m < out@.len() implies extends_to_root(
                    *g,
                    path@,
                    (#[trigger] out@[m])@,
                ) by {
                    let k2 = choose|k2: int|
                        0 <= k2 < np && extends_to_root(*g, path@.push(prow[k2]), out@[m]@);
                    assert(g.has_edge(prow[k2] as int, idx as int)) by {
                        assert(prow.contains(prow[k2]));
                        assert(((prow[k2] as int) as usize) == prow[k2]);
                        assert(g.edges@[prow[k2] as int]@.contains((idx as int) as usize));
                    }
                    lemma_extends_shrink(*g, path@, prow[k2], out@[m]@);
                }
                assert forall|full: Seq<usize>| #[trigger] extends_to_root(
                    *g,
                    path@,
                    full,
                ) implies exists|m: int| 0 <= m < out@.len() && out@[m]@ == full by {
                    lemma_walk_step_exists(*g, path@, full, idx);
                    let e2 = full[path@.len() as int];
                    assert(g.rev_edges@[idx as int]@.contains(e2)) by {
                        assert(g.has_edge(e2 as int, idx as int));
                        assert(((idx as int) as usize) == idx);
                        assert(((e2 as int) as usize) == e2);
                        assert(g.edges@[e2 as int]@.contains((idx as int) as usize));
                    }
                    let k2 = choose|k2: int| 0 <= k2 < prow.len() && prow[k2] == e2;
                    assert(full[path@.len() as int] == prow[k2]);
                }
            }
        },
    }
}

/// Any strict prolongation of a path ending at a nonzero node steps to a
/// recorded parent of that node.
proof fn lemma_walk_step_exists(g: BoardGraph, path: Seq<usize>, full: Seq<usize>, idx: usize)
    requires
        extends_to_root(g, path, full),
        path[path.len() - 1] == idx,
        idx != 0,
    ensures
        full.len() > path.len(),
        g.has_edge(full[path.len() as int] as int, idx as int),
{
    assert forall|m: int| 0 <= m < path.len() implies full[m] == path[m] by {
        assert(full.subrange(0, path.len() as int)[m] == full[m]);
    }
    if full.len() == path.len() {
        assert(full =~= path);
        assert((full[full.len() - 1] as int) == 0);
    }
    let mm: int = path.len() - 1;
    assert(g.has_edge(full[mm + 1] as int, full[mm] as int));
    assert(full[mm + 1] == full[path.len() as int]);
}

impl Tiler {
    /// Every tiling recorded in the state graph, one reverse walk per
    /// tiling: from the chosen completed node back to the initial board
    /// at index 0. Each such walk appears exactly once, and nothing else
    /// does. The graph is built first if it does not exist yet.
    pub fn tiling_paths(&mut self) -> (r: Vec<Vec<usize>>)
        requires
            old(self).wf(),
        ensures
            final(self).tiles == old(self).tiles,
            final(self).initial_board == old(self).initial_board,
            final(self).wf(),
            final(self).graph is Some,
            forall|g: BoardGraph|
                final(self).graph == Some(g) ==> {
                    &&& forall|m: int|
                        0 <= m < r@.len() ==> rev_path_ok(g, (#[trigger] r@[m])@)
                    &&& forall|m: int|
                        0 <= m < r@.len() ==> g.complete_indices@.len() > 0 && (
                        #[trigger] r@[m])@[0] == g.complete_indices@[0]
                    &&& forall|m1: int, m2: int|
                        0 <= m1 < m2 < r@.len() ==> r@[m1]@ != r@[m2]@
                    &&& forall|p: Seq<usize>|
                        (g.complete_indices@.len() > 0 && #[trigger] rev_path_ok(g, p) && p[0]
                            == g.complete_indices@[0]) ==> exists|m: int|
                            0 <= m < r@.len() && r@[m]@ == p
                },
    {
        let ghost init = self.initial_board@;
        let ghost tcv = self.tiles@;
        let g = self.graph();
        let mut out: Vec<Vec<usize>> = Vec::new();
        match g.get_complete_index() {
            None => {
            },
            Some(c) => {
                proof {
                    assert(g.complete_indices@.contains(c)) by {
                        assert(g.complete_indices@[0] == c);
                    }
                    assert((c as int) < g.nodes_arena@.len());
                    assert(g.nodes_arena@[c as int]@.all_marked());
                }
                let mut start: Vec<usize> = Vec::new();
                start.push(c);
                walk_rev(g, c, start, &mut out, Ghost(init), Ghost(tcv));
                proof {
                    let sview = Seq::<usize>::empty().push(c);
                    assert forall|m: int| 0 <= m < out@.len() implies (#[trigger] out@[m])@[0]
                        == c by {
                        assert(extends_to_root(*g, sview, out@[m]@));
                        assert(out@[m]@.subrange(0, 1)[0] == out@[m]@[0]);
                        assert(sview[0] == c);
                    }
                    assert forall|p: Seq<usize>|
                        #[trigger] rev_path_ok(*g, p) && p[0] == c implies exists|m: int|
                        0 <= m < out@.len() && out@[m]@ == p by {
                        assert(p.subrange(0, 1) =~= sview) by {
                            assert(p.subrange(0, 1)[0] == p[0]);
                        }
                        assert(extends_to_root(*g, sview, p));
                    }
                }
            },
        }
        out
    }
}

} // verus!
