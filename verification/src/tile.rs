//! Tiles: chains of unit steps between adjacent cells, with rotation,
//! reflection, and closure under the dihedral symmetry group.

use vstd::prelude::*;
use vstd::seq_lib::*;

verus! {

/// One of the 8 compass steps between 8-connected cells.
#[derive(Copy, Clone, Debug, PartialEq, Eq, Structural, Hash)]
pub enum Direction {
    Up,
    Down,
    Left,
    Right,
    UpLeft,
    UpRight,
    DownRight,
    DownLeft,
}

/// A mirror axis: reflections swap the two sides of this axis.
#[derive(Copy, Clone, Debug)]
pub enum Axis {
    Vertical,
    Horizontal,
}

impl Direction {
    /// Row offset of one step in this direction (rows grow downward).
    pub open spec fn drow(self) -> int {
        match self {
            Direction::Up => -1,
            Direction::Down => 1,
            Direction::Left => 0,
            Direction::Right => 0,
            Direction::UpLeft => -1,
            Direction::UpRight => -1,
            Direction::DownRight => 1,
            Direction::DownLeft => 1,
        }
    }

    /// Column offset of one step in this direction.
    pub open spec fn dcol(self) -> int {
        match self {
            Direction::Up => 0,
            Direction::Down => 0,
            Direction::Left => -1,
            Direction::Right => 1,
            Direction::UpLeft => -1,
            Direction::UpRight => 1,
            Direction::DownRight => 1,
            Direction::DownLeft => -1,
        }
    }

    pub open spec fn spec_opposite(self) -> Direction {
        match self {
            Direction::Up => Direction::Down,
            Direction::Right => Direction::Left,
            Direction::Down => Direction::Up,
            Direction::Left => Direction::Right,
            Direction::UpLeft => Direction::DownRight,
            Direction::DownRight => Direction::UpLeft,
            Direction::UpRight => Direction::DownLeft,
            Direction::DownLeft => Direction::UpRight,
        }
    }

    pub open spec fn spec_rotate(self) -> Direction {
        match self {
            Direction::Up => Direction::Right,
            Direction::Right => Direction::Down,
            Direction::Down => Direction::Left,
            Direction::Left => Direction::Up,
            Direction::UpLeft => Direction::UpRight,
            Direction::UpRight => Direction::DownRight,
            Direction::DownRight => Direction::DownLeft,
            Direction::DownLeft => Direction::UpLeft,
        }
    }

    pub open spec fn spec_reflect(self, axis: Axis) -> Direction {
        match axis {
            Axis::Horizontal => match self {
                Direction::Up => Direction::Down,
                Direction::Down => Direction::Up,
                Direction::UpLeft => Direction::DownLeft,
                Direction::UpRight => Direction::DownRight,
                Direction::DownLeft => Direction::UpLeft,
                Direction::DownRight => Direction::UpRight,
                x => x,
            },
            Axis::Vertical => match self {
                Direction::Left => Direction::Right,
                Direction::Right => Direction::Left,
                Direction::UpLeft => Direction::UpRight,
                Direction::UpRight => Direction::UpLeft,
                Direction::DownLeft => Direction::DownRight,
                Direction::DownRight => Direction::DownLeft,
                x => x,
            },
        }
    }

    /// The 180-degree partner of this direction, used to walk a tile chain
    /// backward from an arbitrary anchor link.
    pub fn opposite(self) -> (r: Direction)
        ensures
            r == self.spec_opposite(),
    {
        match self {
            Direction::Up => Direction::Down,
            Direction::Right => Direction::Left,
            Direction::Down => Direction::Up,
            Direction::Left => Direction::Right,
            Direction::UpLeft => Direction::DownRight,
            Direction::DownRight => Direction::UpLeft,
            Direction::UpRight => Direction::DownLeft,
            Direction::DownLeft => Direction::UpRight,
        }
    }

    /// Rotation by 90 degrees clockwise.
    pub fn rotate(self) -> (r: Direction)
        ensures
            r == self.spec_rotate(),
    {
        match self {
            Direction::Up => Direction::Right,
            Direction::Right => Direction::Down,
            Direction::Down => Direction::Left,
            Direction::Left => Direction::Up,
            Direction::UpLeft => Direction::UpRight,
            Direction::UpRight => Direction::DownRight,
            Direction::DownRight => Direction::DownLeft,
            Direction::DownLeft => Direction::UpLeft,
        }
    }

    /// Mirror about the given axis; directions along the axis pass through.
    pub fn reflect(self, axis: Axis) -> (r: Direction)
        ensures
            r == self.spec_reflect(axis),
    {
        match axis {
            Axis::Horizontal => match self {
                Direction::Up => Direction::Down,
                Direction::Down => Direction::Up,
                Direction::UpLeft => Direction::DownLeft,
                Direction::UpRight => Direction::DownRight,
                Direction::DownLeft => Direction::UpLeft,
                Direction::DownRight => Direction::UpRight,
                x => x,
            },
            Axis::Vertical => match self {
                Direction::Left => Direction::Right,
                Direction::Right => Direction::Left,
                Direction::UpLeft => Direction::UpRight,
                Direction::UpRight => Direction::UpLeft,
                Direction::DownLeft => Direction::DownRight,
                Direction::DownRight => Direction::DownLeft,
                x => x,
            },
        }
    }
}

/// Opposite steps cancel: walking back undoes a step.
pub proof fn lemma_opposite_delta(d: Direction)
    ensures
        d.spec_opposite().drow() == -d.drow(),
        d.spec_opposite().dcol() == -d.dcol(),
{
}

/// An ordered chain of steps describing the shape of a tile; a chain of k
/// steps covers k + 1 cells. Zero steps is the single-cell "box" tile.
#[derive(Clone, Debug, Eq, Hash)]
pub struct Tile {
    pub directions: Vec<Direction>,
}

impl View for Tile {
    type V = Seq<Direction>;

    open spec fn view(&self) -> Seq<Direction> {
        self.directions@
    }
}

impl PartialEq for Tile {
    /// Tiles are equal exactly when their direction chains are equal.
    fn eq(&self, other: &Tile) -> (r: bool) {
        let n = self.directions.len();
        if n != other.directions.len() {
            return false;
        }
        let mut i: usize = 0;
        while i < n
            invariant
                n == self.directions.len(),
                n == other.directions.len(),
                i <= n,
                forall|k: int| 0 <= k < i ==> self.directions[k] == other.directions[k],
            decreases n - i,
        {
            if self.directions[i] != other.directions[i] {
                return false;
            }
            i += 1;
        }
        proof {
            assert(self.directions@ =~= other.directions@);
        }
        true
    }
}

impl vstd::std_specs::cmp::PartialEqSpecImpl for Tile {
    open spec fn obeys_eq_spec() -> bool {
        true
    }

    open spec fn eq_spec(&self, other: &Tile) -> bool {
        self.directions@ == other.directions@
    }
}

/// Rotation of a whole chain, step by step.
pub open spec fn spec_tile_rotate(t: Seq<Direction>) -> Seq<Direction> {
    t.map_values(|d: Direction| d.spec_rotate())
}

/// Reflection of a whole chain, step by step.
pub open spec fn spec_tile_reflect(t: Seq<Direction>, axis: Axis) -> Seq<Direction> {
    t.map_values(|d: Direction| d.spec_reflect(axis))
}

impl Tile {
    pub fn new(directions: Vec<Direction>) -> (r: Tile)
        ensures
            r@ == directions@,
    {
        Tile { directions }
    }

    /// An L-shaped tile of `length + 1` cells: one step left, then
    /// `length - 1` steps up.
    pub fn l_tile(length: usize) -> (r: Tile)
        requires
            length >= 1,
        ensures
            r@.len() == length,
            r@[0] == Direction::Left,
            forall|k: int| 1 <= k < length ==> r@[k] == Direction::Up,
    {
        let mut directions: Vec<Direction> = Vec::new();
        directions.push(Direction::Left);
        let mut i: usize = 1;
        while i < length
            invariant
                1 <= i <= length,
                directions@.len() == i,
                directions@[0] == Direction::Left,
                forall|k: int| 1 <= k < i ==> directions@[k] == Direction::Up,
            decreases length - i,
        {
            directions.push(Direction::Up);
            i += 1;
        }
        Tile::new(directions)
    }

    /// The single-cell tile: an empty chain covering exactly one cell.
    pub fn box_tile() -> (r: Tile)
        ensures
            r@.len() == 0,
    {
        Tile::new(Vec::new())
    }

    /// A T-shaped tile: `length` steps right, one up, one diagonally back
    /// down-right, then `length - 1` steps right.
    pub fn t_tile(length: usize) -> (r: Tile)
        requires
            length >= 1,
            length <= 0x1000_0000,
        ensures
            r@.len() == 2 * length + 1,
            forall|k: int| 0 <= k < length ==> r@[k] == Direction::Right,
            r@[length as int] == Direction::Up,
            r@[length + 1] == Direction::DownRight,
            forall|k: int| length + 2 <= k < 2 * length + 1 ==> r@[k] == Direction::Right,
    {
        let mut directions: Vec<Direction> = Vec::new();
        let mut i: usize = 0;
        while i < length
            invariant
                i <= length,
                directions@.len() == i,
                forall|k: int| 0 <= k < i ==> directions@[k] == Direction::Right,
            decreases length - i,
        {
            directions.push(Direction::Right);
            i += 1;
        }
        directions.push(Direction::Up);
        directions.push(Direction::DownRight);
        let mut j: usize = 1;
        while j < length
            invariant
                1 <= j <= length,
                directions@.len() == length + 1 + j,
                forall|k: int| 0 <= k < length ==> directions@[k] == Direction::Right,
                directions@[length as int] == Direction::Up,
                directions@[length + 1] == Direction::DownRight,
                forall|k: int| length + 2 <= k < length + 1 + j ==> directions@[k]
                    == Direction::Right,
            decreases length - j,
        {
            directions.push(Direction::Right);
            j += 1;
        }
        Tile::new(directions)
    }

    /// A copy whose every step is rotated 90 degrees clockwise.
    pub fn rotate(&self) -> (r: Tile)
        ensures
            r@ == spec_tile_rotate(self@),
    {
        let n = self.directions.len();
        let mut out: Vec<Direction> = Vec::new();
        let mut i: usize = 0;
        while i < n
            invariant
                n == self.directions.len(),
                i <= n,
                out@.len() == i,
                forall|k: int| 0 <= k < i ==> out@[k] == self.directions@[k].spec_rotate(),
            decreases n - i,
        {
            out.push(self.directions[i].rotate());
            i += 1;
        }
        proof {
            assert(out@ =~= spec_tile_rotate(self@));
        }
        Tile::new(out)
    }

    /// A copy whose every step is mirrored about the given axis.
    pub fn reflect(&self, axis: Axis) -> (r: Tile)
        ensures
            r@ == spec_tile_reflect(self@, axis),
    {
        let n = self.directions.len();
        let mut out: Vec<Direction> = Vec::new();
        let mut i: usize = 0;
        while i < n
            invariant
                n == self.directions.len(),
                i <= n,
                out@.len() == i,
                forall|k: int| 0 <= k < i ==> out@[k] == self.directions@[k].spec_reflect(axis),
            decreases n - i,
        {
            out.push(self.directions[i].reflect(axis));
            i += 1;
        }
        proof {
            assert(out@ =~= spec_tile_reflect(self@, axis));
        }
        Tile::new(out)
    }
}

/// An exact copy of a tile, with the chain preserved.
pub(crate) fn copy_tile(t: &Tile) -> (r: Tile)
    ensures
        r@ == t@,
{
    let n = t.directions.len();
    let mut out: Vec<Direction> = Vec::new();
    let mut i: usize = 0;
    while i < n
        invariant
            n == t.directions.len(),
            i <= n,
            out@.len() == i,
            forall|k: int| 0 <= k < i ==> out@[k] == t.directions@[k],
        decreases n - i,
    {
        out.push(t.directions[i]);
        i += 1;
    }
    proof {
        assert(out@ =~= t@);
    }
    Tile { directions: out }
}

/// The direction chains of a sequence of tiles.
pub open spec fn tile_views(v: Seq<Tile>) -> Seq<Seq<Direction>> {
    v.map_values(|t: Tile| t@)
}

/// `d` rotated `n` times.
pub open spec fn rot_n(d: Direction, n: int) -> Direction
    decreases n,
{
    if n <= 0 {
        d
    } else {
        rot_n(d, n - 1).spec_rotate()
    }
}

/// One element of the dihedral group applied to a direction: an optional
/// vertical reflection followed by `a` clockwise rotations.
pub open spec fn dihedral_dir(d: Direction, a: int, b: bool) -> Direction {
    rot_n(if b { d.spec_reflect(Axis::Vertical) } else { d }, a)
}

/// The same dihedral element applied to a whole chain.
pub open spec fn dihedral_tile(t: Seq<Direction>, a: int, b: bool) -> Seq<Direction> {
    t.map_values(|d: Direction| dihedral_dir(d, a, b))
}

/// Membership in the symmetry orbit of a seed chain.
pub open spec fn in_dihedral_orbit(seed: Seq<Direction>, t: Seq<Direction>) -> bool {
    exists|a: int, b: bool| 0 <= a < 4 && t == dihedral_tile(seed, a, b)
}

proof fn lemma_rot4(d: Direction)
    ensures
        rot_n(d, 4) == d,
{
    reveal_with_fuel(rot_n, 5);
}

proof fn lemma_dihedral_dir_rotate(d: Direction, a: int, b: bool)
    requires
        0 <= a < 4,
    ensures
        dihedral_dir(d, a, b).spec_rotate() == dihedral_dir(d, (a + 1) % 4, b),
{
    reveal_with_fuel(rot_n, 5);
    let base = if b {
        d.spec_reflect(Axis::Vertical)
    } else {
        d
    };
    if a == 0 {
    } else if a == 1 {
    } else if a == 2 {
    } else {
        lemma_rot4(base);
    }
}

proof fn lemma_reflect_v_rotate(d: Direction)
    ensures
        d.spec_rotate().spec_reflect(Axis::Vertical) == d.spec_reflect(
            Axis::Vertical,
        ).spec_rotate().spec_rotate().spec_rotate(),
        d.spec_reflect(Axis::Vertical).spec_reflect(Axis::Vertical) == d,
        d.spec_reflect(Axis::Horizontal) == d.spec_reflect(
            Axis::Vertical,
        ).spec_rotate().spec_rotate(),
{
}

proof fn lemma_dihedral_dir_reflect_v(d: Direction, a: int, b: bool)
    requires
        0 <= a < 4,
    ensures
        dihedral_dir(d, a, b).spec_reflect(Axis::Vertical) == dihedral_dir(d, (4 - a) % 4, !b),
{
    reveal_with_fuel(rot_n, 5);
    lemma_reflect_v_rotate(d);
    let base = if b {
        d.spec_reflect(Axis::Vertical)
    } else {
        d
    };
    // Push the reflection through each of the `a` rotations in turn.
    if a == 0 {
    } else if a == 1 {
        lemma_reflect_v_rotate(base);
    } else if a == 2 {
        lemma_reflect_v_rotate(base);
        lemma_reflect_v_rotate(base.spec_rotate());
        lemma_rot4(base.spec_reflect(Axis::Vertical));
    } else {
        lemma_reflect_v_rotate(base);
        lemma_reflect_v_rotate(base.spec_rotate());
        lemma_reflect_v_rotate(base.spec_rotate().spec_rotate());
        lemma_rot4(base.spec_reflect(Axis::Vertical));
        lemma_rot4(base.spec_reflect(Axis::Vertical).spec_rotate());
    }
}

proof fn lemma_dihedral_dir_reflect_h(d: Direction, a: int, b: bool)
    requires
        0 <= a < 4,
    ensures
        dihedral_dir(d, a, b).spec_reflect(Axis::Horizontal) == dihedral_dir(
            d,
            (6 - a) % 4,
            !b,
        ),
{
    reveal_with_fuel(rot_n, 5);
    lemma_reflect_v_rotate(dihedral_dir(d, a, b));
    lemma_dihedral_dir_reflect_v(d, a, b);
    lemma_dihedral_dir_rotate(d, (4 - a) % 4, !b);
    lemma_dihedral_dir_rotate(d, ((4 - a) % 4 + 1) % 4, !b);
}

/// Rotating a dihedral image of a seed gives another dihedral image.
pub proof fn lemma_dihedral_tile_rotate(t: Seq<Direction>, a: int, b: bool)
    requires
        0 <= a < 4,
    ensures
        spec_tile_rotate(dihedral_tile(t, a, b)) == dihedral_tile(t, (a + 1) % 4, b),
{
    assert forall|k: int| 0 <= k < t.len() implies spec_tile_rotate(dihedral_tile(t, a, b))[k]
        == dihedral_tile(t, (a + 1) % 4, b)[k] by {
        lemma_dihedral_dir_rotate(t[k], a, b);
    }
    assert(spec_tile_rotate(dihedral_tile(t, a, b)) =~= dihedral_tile(t, (a + 1) % 4, b));
}

/// Reflecting a dihedral image of a seed gives another dihedral image.
pub proof fn lemma_dihedral_tile_reflect(t: Seq<Direction>, a: int, b: bool, axis: Axis)
    requires
        0 <= a < 4,
    ensures
        axis matches Axis::Vertical ==> spec_tile_reflect(dihedral_tile(t, a, b), axis)
            == dihedral_tile(t, (4 - a) % 4, !b),
        axis matches Axis::Horizontal ==> spec_tile_reflect(dihedral_tile(t, a, b), axis)
            == dihedral_tile(t, (6 - a) % 4, !b),
{
    match axis {
        Axis::Vertical => {
            assert forall|k: int| 0 <= k < t.len() implies spec_tile_reflect(
                dihedral_tile(t, a, b),
                axis,
            )[k] == dihedral_tile(t, (4 - a) % 4, !b)[k] by {
                lemma_dihedral_dir_reflect_v(t[k], a, b);
            }
            assert(spec_tile_reflect(dihedral_tile(t, a, b), axis) =~= dihedral_tile(
                t,
                (4 - a) % 4,
                !b,
            ));
        },
        Axis::Horizontal => {
            assert forall|k: int| 0 <= k < t.len() implies spec_tile_reflect(
                dihedral_tile(t, a, b),
                axis,
            )[k] == dihedral_tile(t, (6 - a) % 4, !b)[k] by {
                lemma_dihedral_dir_reflect_h(t[k], a, b);
            }
            assert(spec_tile_reflect(dihedral_tile(t, a, b), axis) =~= dihedral_tile(
                t,
                (6 - a) % 4,
                !b,
            ));
        },
    }
}

/// The fixed set of tiles a search runs with: the symmetry orbit of one
/// seed shape, plus a cached flag telling whether the single-cell tile is
/// a member (which changes the pruning rule).
#[derive(Clone, Debug)]
pub struct TileCollection {
    pub tiles: Vec<Tile>,
    pub contains_single_tile: bool,
}


impl View for TileCollection {
    type V = Seq<Seq<Direction>>;

    open spec fn view(&self) -> Seq<Seq<Direction>> {
        tile_views(self.tiles@)
    }
}

/// Whether a collection holds the zero-length single-cell tile.
pub open spec fn has_single_tile(tiles: Seq<Seq<Direction>>) -> bool {
    exists|k: int| 0 <= k < tiles.len() && #[trigger] tiles[k].len() == 0
}

impl TileCollection {
    /// The cached flag agrees with the tiles it summarizes.
    pub open spec fn wf(self) -> bool {
        self.contains_single_tile == has_single_tile(self@)
    }

    pub fn new(tiles: Vec<Tile>) -> (r: TileCollection)
        ensures
            r.wf(),
            r@ == tile_views(tiles@),
    {
        let mut single = false;
        let n = tiles.len();
        let mut i: usize = 0;
        while i < n
            invariant
                n == tiles.len(),
                i <= n,
                single == exists|k: int|
                    0 <= k < i && #[trigger] tile_views(tiles@)[k].len() == 0,
            decreases n - i,
        {
            if tiles[i].directions.len() == 0 {
                single = true;
                proof {
                    assert(tile_views(tiles@)[i as int].len() == 0);
                }
            }
            i += 1;
        }
        TileCollection { tiles, contains_single_tile: single }
    }

    pub fn contains_single_tile(&self) -> (r: bool)
        requires
            self.wf(),
        ensures
            r == has_single_tile(self@),
    {
        self.contains_single_tile
    }

    /// The member tiles, in their stored order.
    pub fn iter(&self) -> (r: &Vec<Tile>)
        ensures
            tile_views(r@) == self@,
    {
        &self.tiles
    }

    /// The closure of a seed tile under rotation and both reflections,
    /// iterated to a fixed point and deduplicated by value.
    ///
    /// The result is symmetry-closed: rotating or reflecting any member
    /// yields a member again. Every member is a dihedral image of the seed,
    /// so there are at most 8, all of the seed's length.
    #[verifier::rlimit(100)]
    #[verifier::spinoff_prover]
    pub fn orbit(seed: Tile) -> (r: TileCollection)
        ensures
            r.wf(),
            r@.contains(seed@),
            forall|k: int| 0 <= k < r@.len() ==> in_dihedral_orbit(seed@, #[trigger] r@[k]),
            forall|k: int| 0 <= k < r@.len() ==> r@.contains(spec_tile_rotate(#[trigger] r@[k])),
            forall|k: int|
                0 <= k < r@.len() ==> r@.contains(
                    spec_tile_reflect(#[trigger] r@[k], Axis::Horizontal),
                ),
            forall|k: int|
                0 <= k < r@.len() ==> r@.contains(
                    spec_tile_reflect(#[trigger] r@[k], Axis::Vertical),
                ),
            forall|k: int, l: int| 0 <= k < l < r@.len() ==> r@[k] != r@[l],
            forall|k: int| 0 <= k < r@.len() ==> (#[trigger] r@[k]).len() == seed@.len(),
            forall|a: int, b: bool|
                0 <= a < 4 ==> r@.contains(#[trigger] dihedral_tile(seed@, a, b)),
            r@.len() == 1 || r@.len() == 2 || r@.len() == 4 || r@.len() == 8,
            r.contains_single_tile == (seed@.len() == 0),
    {
        let ghost seed_view = seed@;
        let mut orbit: Vec<Tile> = Vec::new();
        orbit.push(seed);
        proof {
            assert(dihedral_tile(seed_view, 0, false) =~= seed_view);
            assert(tile_views(orbit@)[0] == seed_view);
        }
        let mut idx: usize = 0;
        while idx < orbit.len()
            invariant
                1 <= orbit@.len(),
                idx <= orbit@.len(),
                tile_views(orbit@)[0] == seed_view,
                forall|k: int|
                    0 <= k < orbit@.len() ==> in_dihedral_orbit(
                        seed_view,
                        #[trigger] tile_views(orbit@)[k],
                    ),
                forall|k: int, l: int|
                    0 <= k < l < orbit@.len() ==> tile_views(orbit@)[k] != tile_views(orbit@)[l],
                forall|k: int|
                    0 <= k < idx ==> tile_views(orbit@).contains(
                        spec_tile_rotate(#[trigger] tile_views(orbit@)[k]),
                    ),
                forall|k: int|
                    0 <= k < idx ==> tile_views(orbit@).contains(
                        spec_tile_reflect(#[trigger] tile_views(orbit@)[k], Axis::Horizontal),
                    ),
                forall|k: int|
                    0 <= k < idx ==> tile_views(orbit@).contains(
                        spec_tile_reflect(#[trigger] tile_views(orbit@)[k], Axis::Vertical),
                    ),
                orbit@.len() <= 8,
            decreases 8 - idx,
        {
            let ghost cur = tile_views(orbit@)[idx as int];
            proof {
                let (a, b) = choose|a: int, b: bool|
                    0 <= a < 4 && cur == dihedral_tile(seed_view, a, b);
                lemma_dihedral_tile_rotate(seed_view, a, b);
                lemma_dihedral_tile_reflect(seed_view, a, b, Axis::Horizontal);
                lemma_dihedral_tile_reflect(seed_view, a, b, Axis::Vertical);
            }
            let t_rot = orbit[idx].rotate();
            push_if_missing(&mut orbit, t_rot, Ghost(seed_view));
            let t_h = orbit[idx].reflect(Axis::Horizontal);
            push_if_missing(&mut orbit, t_h, Ghost(seed_view));
            let t_v = orbit[idx].reflect(Axis::Vertical);
            push_if_missing(&mut orbit, t_v, Ghost(seed_view));
            idx += 1;
        }
        proof {
            let views = tile_views(orbit@);
            lemma_orbit_lengths(seed_view, views);
            assert forall|k: int| 0 <= k < views.len() implies #[trigger] views.contains(
                spec_tile_rotate(views[k]),
            ) by {
                assert(views.contains(spec_tile_rotate(tile_views(orbit@)[k])));
            }
            assert forall|k: int| 0 <= k < views.len() implies #[trigger] views.contains(
                spec_tile_reflect(views[k], Axis::Vertical),
            ) by {
                assert(views.contains(spec_tile_reflect(tile_views(orbit@)[k], Axis::Vertical)));
            }
            assert(views.contains(seed_view)) by {
                assert(views[0] == seed_view);
            }
            lemma_orbit_complete(seed_view, views);
            lemma_orbit_exact_size(seed_view, views);
            if seed_view.len() == 0 {
                let k = choose|k: int| 0 <= k < views.len() && views[k] == seed_view;
                assert(views[k].len() == 0);
                assert(has_single_tile(views));
            } else {
                assert(!has_single_tile(views));
            }
        }
        TileCollection::new(orbit)
    }
}

/// A closed collection that holds the seed holds its whole dihedral
/// image: rotating and reflecting from the seed reaches every image.
#[verifier::rlimit(100)]
#[verifier::spinoff_prover]
proof fn lemma_orbit_complete(seed: Seq<Direction>, views: Seq<Seq<Direction>>)
    requires
        views.contains(seed),
        forall|k: int|
            0 <= k < views.len() ==> #[trigger] views.contains(spec_tile_rotate(views[k])),
        forall|k: int|
            0 <= k < views.len() ==> #[trigger] views.contains(
                spec_tile_reflect(views[k], Axis::Vertical),
            ),
    ensures
        forall|a: int, b: bool|
            0 <= a < 4 ==> views.contains(#[trigger] dihedral_tile(seed, a, b)),
{
    let x0 = dihedral_tile(seed, 0, false);
    assert(x0 =~= seed);
    assert(views.contains(x0));
    lemma_dihedral_tile_rotate(seed, 0, false);
    lemma_dihedral_tile_rotate(seed, 1, false);
    lemma_dihedral_tile_rotate(seed, 2, false);
    lemma_contained_rotate(views, x0);
    assert(views.contains(dihedral_tile(seed, 1, false)));
    lemma_contained_rotate(views, dihedral_tile(seed, 1, false));
    assert(views.contains(dihedral_tile(seed, 2, false)));
    lemma_contained_rotate(views, dihedral_tile(seed, 2, false));
    assert(views.contains(dihedral_tile(seed, 3, false)));
    lemma_dihedral_tile_reflect(seed, 0, false, Axis::Vertical);
    lemma_dihedral_tile_reflect(seed, 1, false, Axis::Vertical);
    lemma_dihedral_tile_reflect(seed, 2, false, Axis::Vertical);
    lemma_dihedral_tile_reflect(seed, 3, false, Axis::Vertical);
    lemma_contained_reflect(views, dihedral_tile(seed, 0, false));
    assert(views.contains(dihedral_tile(seed, 0, true)));
    lemma_contained_reflect(views, dihedral_tile(seed, 1, false));
    assert(views.contains(dihedral_tile(seed, 3, true)));
    lemma_contained_reflect(views, dihedral_tile(seed, 2, false));
    assert(views.contains(dihedral_tile(seed, 2, true)));
    lemma_contained_reflect(views, dihedral_tile(seed, 3, false));
    assert(views.contains(dihedral_tile(seed, 1, true)));
    assert forall|a: int, b: bool| 0 <= a < 4 implies views.contains(
        #[trigger] dihedral_tile(seed, a, b),
    ) by {
        assert(a == 0 || a == 1 || a == 2 || a == 3);
    }
}

proof fn lemma_contained_rotate(views: Seq<Seq<Direction>>, x: Seq<Direction>)
    requires
        views.contains(x),
        forall|k: int|
            0 <= k < views.len() ==> #[trigger] views.contains(spec_tile_rotate(views[k])),
    ensures
        views.contains(spec_tile_rotate(x)),
{
    let k = choose|k: int| 0 <= k < views.len() && views[k] == x;
    assert(views.contains(spec_tile_rotate(views[k])));
}

proof fn lemma_contained_reflect(views: Seq<Seq<Direction>>, x: Seq<Direction>)
    requires
        views.contains(x),
        forall|k: int|
            0 <= k < views.len() ==> #[trigger] views.contains(
                spec_tile_reflect(views[k], Axis::Vertical),
            ),
    ensures
        views.contains(spec_tile_reflect(x, Axis::Vertical)),
{
    let k = choose|k: int| 0 <= k < views.len() && views[k] == x;
    assert(views.contains(spec_tile_reflect(views[k], Axis::Vertical)));
}

/// A duplicate-free sequence holding every dihedral image of a seed, and
/// nothing else, has exactly as many members as the image set: 1, 2, 4
/// or 8.
proof fn lemma_orbit_exact_size(seed: Seq<Direction>, views: Seq<Seq<Direction>>)
    requires
        forall|k: int| 0 <= k < views.len() ==> in_dihedral_orbit(seed, #[trigger] views[k]),
        forall|k: int, l: int| 0 <= k < l < views.len() ==> views[k] != views[l],
        forall|a: int, b: bool|
            0 <= a < 4 ==> views.contains(#[trigger] dihedral_tile(seed, a, b)),
    ensures
        views.len() == 1 || views.len() == 2 || views.len() == 4 || views.len() == 8,
{
    broadcast use vstd::set_lib::group_set_lib_default, vstd::set::group_set_axioms;

    assert(views.no_duplicates());
    views.unique_seq_to_set();
    assert(views.to_set() =~= dihedral_images(seed)) by {
        assert forall|z: Seq<Direction>| views.to_set().contains(z) implies dihedral_images(
            seed,
        ).contains(z) by {
            let k = choose|k: int| 0 <= k < views.len() && views[k] == z;
            let (a, b) = choose|a: int, b: bool|
                0 <= a < 4 && z == dihedral_tile(seed, a, b);
            assert(a == 0 || a == 1 || a == 2 || a == 3);
        }
        assert forall|z: Seq<Direction>| dihedral_images(seed).contains(z) implies views.to_set()
            .contains(z) by {
            assert(z == dihedral_tile(seed, 0, false) || z == dihedral_tile(seed, 1, false) || z
                == dihedral_tile(seed, 2, false) || z == dihedral_tile(seed, 3, false) || z
                == dihedral_tile(seed, 0, true) || z == dihedral_tile(seed, 1, true) || z
                == dihedral_tile(seed, 2, true) || z == dihedral_tile(seed, 3, true));
            assert(views.contains(z));
        }
    }
    lemma_dihedral_images_size(seed);
}

/// Membership test for a tile among already-collected orbit members.
fn contains_tile(v: &Vec<Tile>, t: &Tile) -> (r: bool)
    ensures
        r == tile_views(v@).contains(t@),
{
    let n = v.len();
    let mut i: usize = 0;
    while i < n
        invariant
            n == v.len(),
            i <= n,
            forall|k: int| 0 <= k < i ==> tile_views(v@)[k] != t@,
        decreases n - i,
    {
        if v[i].eq(t) {
            proof {
                assert(tile_views(v@)[i as int] == t@);
            }
            return true;
        }
        i += 1;
    }
    false
}

/// Appends a candidate orbit member unless an equal tile is already there,
/// preserving the orbit invariants.
fn push_if_missing(orbit: &mut Vec<Tile>, t: Tile, seed_view: Ghost<Seq<Direction>>)
    requires
        in_dihedral_orbit(seed_view@, t@),
        old(orbit)@.len() >= 1,
        tile_views(old(orbit)@)[0] == seed_view@,
        forall|k: int|
            0 <= k < old(orbit)@.len() ==> in_dihedral_orbit(
                seed_view@,
                #[trigger] tile_views(old(orbit)@)[k],
            ),
        forall|k: int, l: int|
            0 <= k < l < old(orbit)@.len() ==> tile_views(old(orbit)@)[k] != tile_views(
                old(orbit)@,
            )[l],
        old(orbit)@.len() <= 8,
    ensures
        tile_views(final(orbit)@).contains(t@),
        final(orbit)@.len() >= old(orbit)@.len(),
        tile_views(final(orbit)@)[0] == seed_view@,
        forall|k: int|
            0 <= k < old(orbit)@.len() ==> tile_views(final(orbit)@)[k] == tile_views(
                old(orbit)@,
            )[k],
        forall|k: int|
            0 <= k < final(orbit)@.len() ==> in_dihedral_orbit(
                seed_view@,
                #[trigger] tile_views(final(orbit)@)[k],
            ),
        forall|k: int, l: int|
            0 <= k < l < final(orbit)@.len() ==> tile_views(final(orbit)@)[k] != tile_views(
                final(orbit)@,
            )[l],
        final(orbit)@.len() <= 8,
        forall|x: Seq<Direction>|
            tile_views(old(orbit)@).contains(x) ==> tile_views(final(orbit)@).contains(x),
{
    let present = contains_tile(orbit, &t);
    if !present {
        let ghost old_views = tile_views(orbit@);
        orbit.push(t);
        proof {
            let views = tile_views(orbit@);
            assert(views =~= old_views.push(views[views.len() - 1]));
            assert forall|x: Seq<Direction>| old_views.contains(x) implies views.contains(x) by {
                let i = choose|i: int| 0 <= i < old_views.len() && old_views[i] == x;
                assert(views[i] == x);
            }
            assert(views.contains(views[views.len() - 1]));
            lemma_orbit_size_bound(seed_view@, views);
        }
    }
}

/// A duplicate-free sequence of dihedral images of one seed has at most 8
/// members: there are only 8 dihedral group elements.
proof fn lemma_orbit_size_bound(seed: Seq<Direction>, views: Seq<Seq<Direction>>)
    requires
        forall|k: int| 0 <= k < views.len() ==> in_dihedral_orbit(seed, #[trigger] views[k]),
        forall|k: int, l: int| 0 <= k < l < views.len() ==> views[k] != views[l],
    ensures
        views.len() <= 8,
{
    broadcast use vstd::set_lib::group_set_lib_default, vstd::set::group_set_axioms;

    let image = set![
        dihedral_tile(seed, 0, false),
        dihedral_tile(seed, 1, false),
        dihedral_tile(seed, 2, false),
        dihedral_tile(seed, 3, false),
        dihedral_tile(seed, 0, true),
        dihedral_tile(seed, 1, true),
        dihedral_tile(seed, 2, true),
        dihedral_tile(seed, 3, true),
    ];
    assert(views.no_duplicates());
    views.unique_seq_to_set();
    assert forall|x: Seq<Direction>| views.to_set().contains(x) implies image.contains(x) by {
        let k = choose|k: int| 0 <= k < views.len() && views[k] == x;
        assert(in_dihedral_orbit(seed, x));
        let (a, b) = choose|a: int, b: bool| 0 <= a < 4 && x == dihedral_tile(seed, a, b);
        assert(a == 0 || a == 1 || a == 2 || a == 3);
    }
    assert(views.to_set().subset_of(image));
    assert(image.len() <= 8);
    vstd::set_lib::lemma_len_subset(views.to_set(), image);
}

/// Every member of a sequence of dihedral images of a seed has the seed's
/// length.
proof fn lemma_orbit_lengths(seed: Seq<Direction>, views: Seq<Seq<Direction>>)
    requires
        forall|k: int| 0 <= k < views.len() ==> in_dihedral_orbit(seed, #[trigger] views[k]),
    ensures
        forall|k: int| 0 <= k < views.len() ==> (#[trigger] views[k]).len() == seed.len(),
{
    assert forall|k: int| 0 <= k < views.len() implies (#[trigger] views[k]).len()
        == seed.len() by {
        let (a, b) = choose|a: int, b: bool| 0 <= a < 4 && views[k] == dihedral_tile(seed, a, b);
    }
}


/// The eight dihedral images of a seed chain.
pub open spec fn dihedral_images(s: Seq<Direction>) -> Set<Seq<Direction>> {
    set![
        dihedral_tile(s, 0, false),
        dihedral_tile(s, 1, false),
        dihedral_tile(s, 2, false),
        dihedral_tile(s, 3, false),
        dihedral_tile(s, 0, true),
        dihedral_tile(s, 1, true),
        dihedral_tile(s, 2, true),
        dihedral_tile(s, 3, true),
    ]
}

/// The image set of the dihedral group has 1, 2, 4 or 8 members: the
/// orbit size divides the group order.
pub proof fn lemma_dihedral_images_size(s: Seq<Direction>)
    ensures
        dihedral_images(s).finite(),
        dihedral_images(s).len() == 1 || dihedral_images(s).len() == 2 || dihedral_images(s).len()
            == 4 || dihedral_images(s).len() == 8,
{
    broadcast use vstd::set_lib::group_set_lib_default, vstd::set::group_set_axioms;

    let x0 = dihedral_tile(s, 0, false);
    let x1 = dihedral_tile(s, 1, false);
    let x2 = dihedral_tile(s, 2, false);
    let x3 = dihedral_tile(s, 3, false);
    let y0 = dihedral_tile(s, 0, true);
    let y1 = dihedral_tile(s, 1, true);
    let y2 = dihedral_tile(s, 2, true);
    let y3 = dihedral_tile(s, 3, true);
    let ss = dihedral_images(s);

    // one clockwise rotation steps around each four-cycle
    lemma_dihedral_tile_rotate(s, 0, false);
    lemma_dihedral_tile_rotate(s, 1, false);
    lemma_dihedral_tile_rotate(s, 2, false);
    lemma_dihedral_tile_rotate(s, 3, false);
    lemma_dihedral_tile_rotate(s, 0, true);
    lemma_dihedral_tile_rotate(s, 1, true);
    lemma_dihedral_tile_rotate(s, 2, true);
    lemma_dihedral_tile_rotate(s, 3, true);
    assert(spec_tile_rotate(x0) == x1 && spec_tile_rotate(x1) == x2 && spec_tile_rotate(x2) == x3
        && spec_tile_rotate(x3) == x0);
    assert(spec_tile_rotate(y0) == y1 && spec_tile_rotate(y1) == y2 && spec_tile_rotate(y2) == y3
        && spec_tile_rotate(y3) == y0);

    // the vertical reflection swaps the two cycles
    lemma_dihedral_tile_reflect(s, 0, false, Axis::Vertical);
    lemma_dihedral_tile_reflect(s, 1, false, Axis::Vertical);
    lemma_dihedral_tile_reflect(s, 2, false, Axis::Vertical);
    lemma_dihedral_tile_reflect(s, 3, false, Axis::Vertical);
    lemma_dihedral_tile_reflect(s, 0, true, Axis::Vertical);
    lemma_dihedral_tile_reflect(s, 1, true, Axis::Vertical);
    lemma_dihedral_tile_reflect(s, 2, true, Axis::Vertical);
    lemma_dihedral_tile_reflect(s, 3, true, Axis::Vertical);
    assert(spec_tile_reflect(x0, Axis::Vertical) == y0);
    assert(spec_tile_reflect(x1, Axis::Vertical) == y3);
    assert(spec_tile_reflect(x2, Axis::Vertical) == y2);
    assert(spec_tile_reflect(x3, Axis::Vertical) == y1);
    assert(spec_tile_reflect(y0, Axis::Vertical) == x0);
    assert(spec_tile_reflect(y1, Axis::Vertical) == x3);
    assert(spec_tile_reflect(y2, Axis::Vertical) == x2);
    assert(spec_tile_reflect(y3, Axis::Vertical) == x1);

    if x0 == x1 {
        // the rotation fixes the shape: both cycles collapse to a point
        assert(x1 == x2 && x2 == x3);
        assert(y0 == y3 && y3 == y2 && y2 == y1) by {
            assert(spec_tile_reflect(x0, Axis::Vertical) == spec_tile_reflect(
                x1,
                Axis::Vertical,
            ));
            assert(spec_tile_reflect(x1, Axis::Vertical) == spec_tile_reflect(
                x2,
                Axis::Vertical,
            ));
            assert(spec_tile_reflect(x2, Axis::Vertical) == spec_tile_reflect(
                x3,
                Axis::Vertical,
            ));
        }
        if x0 == y0 {
            assert(ss =~= set![x0]);
            assert(ss.len() == 1);
        } else {
            assert(ss =~= set![x0, y0]);
            assert(ss.len() == 2);
        }
    } else if x0 == x2 {
        // a half turn fixes the shape: each cycle has two members
        assert(x1 == x3);
        assert(y0 == y2) by {
            assert(spec_tile_reflect(x0, Axis::Vertical) == spec_tile_reflect(
                x2,
                Axis::Vertical,
            ));
        }
        assert(y1 == y3) by {
            assert(spec_tile_reflect(x3, Axis::Vertical) == spec_tile_reflect(
                x1,
                Axis::Vertical,
            ));
        }
        assert(y0 != y1) by {
            if y0 == y1 {
                assert(spec_tile_reflect(y0, Axis::Vertical) == spec_tile_reflect(
                    y1,
                    Axis::Vertical,
                ));
                assert(x0 == x3);
                assert(spec_tile_rotate(x0) == spec_tile_rotate(x3));
            }
        }
        if y0 == x0 || y0 == x1 || y1 == x0 || y1 == x1 {
            assert((y0 == x0 && y1 == x1) || (y0 == x1 && y1 == x0)) by {
                if y0 == x0 {
                    assert(spec_tile_rotate(y0) == spec_tile_rotate(x0));
                } else if y0 == x1 {
                    assert(spec_tile_rotate(y0) == spec_tile_rotate(x1));
                } else if y1 == x0 {
                    assert(spec_tile_rotate(y1) == spec_tile_rotate(x0));
                } else {
                    assert(spec_tile_rotate(y1) == spec_tile_rotate(x1));
                }
            }
            assert(ss =~= set![x0, x1]);
            assert(ss.len() == 2);
        } else {
            assert(ss =~= set![x0, x1, y0, y1]);
            assert(ss.len() == 4);
        }
    } else {
        // nothing but the identity fixes the shape: full four-cycles
        assert(x0 != x3) by {
            if x0 == x3 {
                assert(spec_tile_rotate(x0) == spec_tile_rotate(x3));
            }
        }
        assert(x1 != x2) by {
            if x1 == x2 {
                assert(spec_tile_rotate(x1) == spec_tile_rotate(x2));
                assert(spec_tile_rotate(x2) == spec_tile_rotate(x3));
                assert(spec_tile_rotate(x3) == spec_tile_rotate(x0));
            }
        }
        assert(x1 != x3) by {
            if x1 == x3 {
                assert(spec_tile_rotate(x1) == spec_tile_rotate(x3));
            }
        }
        assert(x2 != x3) by {
            if x2 == x3 {
                assert(spec_tile_rotate(x2) == spec_tile_rotate(x3));
                assert(spec_tile_rotate(x3) == spec_tile_rotate(x0));
            }
        }
        assert(y0 != y1 && y0 != y2 && y0 != y3 && y1 != y2 && y1 != y3 && y2 != y3) by {
            if y0 == y1 {
                assert(spec_tile_reflect(y0, Axis::Vertical) == spec_tile_reflect(
                    y1,
                    Axis::Vertical,
                ));
            }
            if y0 == y2 {
                assert(spec_tile_reflect(y0, Axis::Vertical) == spec_tile_reflect(
                    y2,
                    Axis::Vertical,
                ));
            }
            if y0 == y3 {
                assert(spec_tile_reflect(y0, Axis::Vertical) == spec_tile_reflect(
                    y3,
                    Axis::Vertical,
                ));
            }
            if y1 == y2 {
                assert(spec_tile_reflect(y1, Axis::Vertical) == spec_tile_reflect(
                    y2,
                    Axis::Vertical,
                ));
            }
            if y1 == y3 {
                assert(spec_tile_reflect(y1, Axis::Vertical) == spec_tile_reflect(
                    y3,
                    Axis::Vertical,
                ));
            }
            if y2 == y3 {
                assert(spec_tile_reflect(y2, Axis::Vertical) == spec_tile_reflect(
                    y3,
                    Axis::Vertical,
                ));
            }
        }
        let xset = set![x0, x1, x2, x3];
        assert(forall|z: Seq<Direction>|
            #[trigger] xset.contains(z) ==> xset.contains(spec_tile_rotate(z)));
        if xset.contains(y0) || xset.contains(y1) || xset.contains(y2) || xset.contains(y3) {
            // one hit pulls the whole reflected cycle into the rotation cycle
            assert(xset.contains(y0) && xset.contains(y1) && xset.contains(y2) && xset.contains(
                y3,
            )) by {
                if xset.contains(y0) {
                    assert(xset.contains(spec_tile_rotate(y0)));
                    assert(xset.contains(spec_tile_rotate(y1)));
                    assert(xset.contains(spec_tile_rotate(y2)));
                } else if xset.contains(y1) {
                    assert(xset.contains(spec_tile_rotate(y1)));
                    assert(xset.contains(spec_tile_rotate(y2)));
                    assert(xset.contains(spec_tile_rotate(y3)));
                } else if xset.contains(y2) {
                    assert(xset.contains(spec_tile_rotate(y2)));
                    assert(xset.contains(spec_tile_rotate(y3)));
                    assert(xset.contains(spec_tile_rotate(y0)));
                } else {
                    assert(xset.contains(spec_tile_rotate(y3)));
                    assert(xset.contains(spec_tile_rotate(y0)));
                    assert(xset.contains(spec_tile_rotate(y1)));
                }
            }
            assert(ss =~= xset);
            assert(ss.len() == 4);
        } else {
            assert(ss.len() == 8);
        }
    }
}

} // verus!
