use dcc_tiler::board::RectangularBoard;
use dcc_tiler::graph::BoardGraph;
use dcc_tiler::render::tiling_step_positions;
use dcc_tiler::tile::{Tile, TileCollection};
use dcc_tiler::tiler::{BoardType, TileType, Tiler};
use num::BigUint;

fn big(x: u64) -> BigUint {
    BigUint::from(x)
}

#[test]
fn single_cell_tile_fills_square_one_way() {
    let tiles = TileCollection::orbit(Tile::box_tile());
    let board = RectangularBoard::new(2, 2);
    let tiler = Tiler::new(tiles, board);
    assert_eq!(tiler.count_tilings(), big(1));
}

#[test]
fn dominoes_on_two_by_two() {
    let tiles = TileCollection::orbit(Tile::l_tile(1));
    let board = RectangularBoard::new(2, 2);
    let tiler = Tiler::new(tiles, board);
    assert_eq!(tiler.count_tilings(), big(2));
}

#[test]
fn dominoes_on_two_by_four() {
    let tiles = TileCollection::orbit(Tile::l_tile(1));
    let board = RectangularBoard::new(4, 2);
    let tiler = Tiler::new(tiles, board);
    assert_eq!(tiler.count_tilings(), big(5));
}

#[test]
fn odd_area_has_no_domino_tiling() {
    let tiles = TileCollection::orbit(Tile::l_tile(1));
    let board = RectangularBoard::new(3, 3);
    let tiler = Tiler::new(tiles, board);
    assert_eq!(tiler.count_tilings(), big(0));
}

/// Pruning soundness on a concrete dead end: once a strip leaves one
/// isolated cell, no placement sequence completes it, and the exhaustive
/// count agrees that zero completions exist.
#[test]
fn dead_end_strip_counts_zero() {
    let tiles = TileCollection::orbit(Tile::l_tile(1));
    let board = RectangularBoard::new(3, 1);
    let tiler = Tiler::new(tiles, board);
    assert_eq!(tiler.count_tilings(), big(0));
}

/// Round-trip determinism: the same run repeated returns the same fixed
/// count for the 3x2 rectangle with the 3-cell L tile.
#[test]
fn three_by_two_l_tromino_is_reproducible() {
    let mut seen = Vec::new();
    for _ in 0..3 {
        let tiles = TileCollection::orbit(Tile::l_tile(2));
        let board = RectangularBoard::new(3, 2);
        let tiler = Tiler::new(tiles, board);
        seen.push(tiler.count_tilings());
    }
    assert_eq!(seen[0], seen[1]);
    assert_eq!(seen[1], seen[2]);
    assert_eq!(seen[0], big(2));
}

/// Graph-based counting must equal direct frontier counting.
#[test]
fn graph_count_equals_direct_count() {
    for (w, h, len) in [(4usize, 2usize, 1usize), (3, 2, 2), (2, 2, 1)] {
        let direct = {
            let tiles = TileCollection::orbit(Tile::l_tile(len));
            let tiler = Tiler::new(tiles, RectangularBoard::new(w, h));
            tiler.count_tilings()
        };
        let via_graph = {
            let tiles = TileCollection::orbit(Tile::l_tile(len));
            let mut tiler = Tiler::new(tiles, RectangularBoard::new(w, h));
            tiler.graph();
            tiler.count_tilings()
        };
        assert_eq!(direct, via_graph);
    }
}

#[test]
fn l_board_scaling_counts() {
    // The L-shaped board of 3 cells tiled by the 3-cell L tile: one way.
    let tiles = TileCollection::orbit(Tile::l_tile(2));
    let board = RectangularBoard::l_board(2, 1);
    let tiler = Tiler::new(tiles, board);
    assert_eq!(tiler.count_tilings(), big(1));
}

/// A single sampled tiling starts at the initial board, ends fully
/// marked, and each consecutive pair differs by exactly one placement.
#[test]
fn single_tiling_is_a_valid_sequence() {
    let tiles = TileCollection::orbit(Tile::l_tile(1));
    let board = RectangularBoard::new(4, 2);
    let initial = RectangularBoard::new(4, 2);
    let tiler = Tiler::new(tiles, board);
    let path = tiler.get_single_tiling(1000).expect("a tiling exists");
    assert!(path.len() >= 2);
    assert!(path[0] == initial);
    assert!(path[path.len() - 1].is_all_marked());
    for m in 0..path.len() - 1 {
        let diff = tiling_step_positions(&path[m], &path[m + 1]);
        // a domino placement marks exactly two new cells
        assert_eq!(diff.len(), 2);
    }
}

#[test]
fn single_tiling_absent_when_impossible() {
    let tiles = TileCollection::orbit(Tile::l_tile(1));
    let board = RectangularBoard::new(3, 3);
    let tiler = Tiler::new(tiles, board);
    assert!(tiler.get_single_tiling(1000).is_none());
}

#[test]
fn graph_handle_is_cached_and_valid() {
    let tiles = TileCollection::orbit(Tile::l_tile(1));
    let mut tiler = Tiler::new(tiles, RectangularBoard::new(2, 2));
    let n = tiler.graph().nodes_arena.len();
    // 1 initial + 2 half-tiled + 1 complete
    assert_eq!(n, 4);
    let complete = tiler.graph().get_complete_index().expect("completes");
    assert!(tiler.graph().get_node(complete).expect("node").is_all_marked());
}

#[test]
fn tiling_paths_walk_back_to_the_root() {
    let tiles = TileCollection::orbit(Tile::l_tile(1));
    let mut tiler = Tiler::new(tiles, RectangularBoard::new(2, 2));
    let paths = tiler.tiling_paths();
    assert_eq!(paths.len(), 2);
    for p in paths.iter() {
        assert_eq!(*p.last().expect("nonempty"), 0);
        assert_eq!(p.len(), 3);
    }
}

#[test]
fn graph_primitive_operations() {
    let mut g = BoardGraph::new();
    assert!(g.get_complete_index().is_none());
    assert!(g.get_node(0).is_none());
    let a = g.add_node(RectangularBoard::new(2, 2));
    let b = g.add_node(RectangularBoard::l_board(2, 1));
    assert_eq!(a, 0);
    assert_eq!(b, 1);
    assert!(g.get_edges(0).is_none());
    g.add_edge(0, 1);
    let edges = g.get_edges(0).expect("edge recorded");
    assert_eq!(edges.len(), 1);
    assert_eq!(edges[0], 1);
    let rev = g.get_rev_edges(1).expect("reverse edge recorded");
    assert_eq!(rev.len(), 1);
    assert_eq!(rev[0], 0);
    g.mark_node_as_complete(1);
    assert_eq!(g.get_complete_index(), Some(1));
    let probe = RectangularBoard::l_board(2, 1);
    assert_eq!(g.find_node(&probe), Some(1));
    let missing = {
        let mut m = RectangularBoard::new(2, 2);
        let tiles = TileCollection::orbit(Tile::l_tile(1));
        m = m.place_tile(&tiles).remove(0);
        m
    };
    assert!(g.find_node(&missing).is_none());
}

#[test]
fn t_tile_engine_runs() {
    let tiles = TileCollection::orbit(Tile::t_tile(1));
    let board = RectangularBoard::t_board(1, 1);
    let tiler = Tiler::new(tiles, board);
    // the T board of 4 cells and the 4-cell T tile: exactly one placement
    assert_eq!(tiler.count_tilings(), big(1));
}

#[test]
fn board_and_tile_kinds_drive_the_constructors() {
    for bt in [BoardType::Rectangle, BoardType::LBoard, BoardType::TBoard] {
        let b = match bt {
            BoardType::Rectangle => RectangularBoard::new(2, 2),
            BoardType::LBoard => RectangularBoard::l_board(2, 1),
            BoardType::TBoard => RectangularBoard::t_board(1, 1),
        };
        assert!(b.width >= 1 && b.height >= 1);
    }
    for tt in [TileType::LTile, TileType::TTile, TileType::BoxTile] {
        let t = match tt {
            TileType::LTile => Tile::l_tile(1),
            TileType::TTile => Tile::t_tile(1),
            TileType::BoxTile => Tile::box_tile(),
        };
        assert!(t.directions.len() <= 3);
    }
}

#[test]
fn sampling_skips_an_already_complete_board() {
    // A board with every cell marked admits the empty tiling: the counter
    // reports 1, while the sampler, which only records boards reached by
    // placing at least one tile, reports nothing.
    let tiles = TileCollection::orbit(Tile::box_tile());
    let start = RectangularBoard::new(1, 1);
    let done = start.place_tile(&tiles).remove(0);
    assert!(done.is_all_marked());
    let tiler = Tiler::new(tiles, done);
    assert_eq!(tiler.count_tilings(), big(1));
    assert!(tiler.get_single_tiling(10).is_none());
}
