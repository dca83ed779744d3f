use dcc_tiler::board::{Position, RectangularBoard, TilePosition};
use dcc_tiler::render::tiling_step_positions;
use dcc_tiler::tile::{Tile, TileCollection};

#[test]
fn new_board_is_unmarked_with_border_counts() {
    let b = RectangularBoard::new(3, 2);
    assert_eq!(b.width, 3);
    assert_eq!(b.height, 2);
    assert!(!b.is_all_marked());
    for row in b.board.iter() {
        for cell in row.iter() {
            assert!(!*cell);
        }
    }
    // every cell of a 3x2 board touches the border
    for row in b.counts.iter() {
        for c in row.iter() {
            assert_eq!(*c, 1);
        }
    }
}

#[test]
fn wide_board_counts_seed_interior_zero() {
    let b = RectangularBoard::new(3, 3);
    assert_eq!(b.counts[1][1], 0);
    assert_eq!(b.counts[0][1], 1);
    assert_eq!(b.counts[1][0], 1);
}

#[test]
fn l_board_prefills_top_left_block() {
    let b = RectangularBoard::l_board(2, 1);
    assert_eq!(b.width, 2);
    assert_eq!(b.height, 2);
    assert!(b.board[0][1]);
    assert!(!b.board[0][0]);
    assert!(!b.board[1][0]);
    assert!(!b.board[1][1]);
}

#[test]
fn t_board_prefills_two_blocks() {
    let b = RectangularBoard::t_board(1, 1);
    assert_eq!(b.width, 3);
    assert_eq!(b.height, 2);
    assert!(b.board[0][0]);
    assert!(!b.board[0][1]);
    assert!(b.board[0][2]);
    assert!(!b.board[1][0]);
    assert!(!b.board[1][1]);
    assert!(!b.board[1][2]);
}

#[test]
fn board_equality_is_by_marked_grid() {
    let a = RectangularBoard::new(2, 2);
    let b = RectangularBoard::new(2, 2);
    assert!(a == b);
    let c = RectangularBoard::l_board(2, 1);
    let d = RectangularBoard::new(2, 2);
    assert!(c != d);
}

#[test]
fn domino_fits_and_misses() {
    let b = RectangularBoard::new(2, 2);
    let domino = Tile::l_tile(1);

    // anchored at (0, 1) with the anchor at link 0, the Left step lands
    // on (0, 0): it fits and covers two cells
    let fit = b.tile_fits_at_position(&domino, Position::new(0, 1), 0);
    let tp = fit.expect("the domino fits");
    assert_eq!(tp.covered.len(), 2);

    // anchored at (0, 0) with the anchor at link 0, the Left step walks
    // off the board
    let miss = b.tile_fits_at_position(&domino, Position::new(0, 0), 0);
    assert!(miss.is_none());

    // off-board anchors never fit
    let off = b.tile_fits_at_position(&domino, Position::new(-1, 0), 0);
    assert!(off.is_none());
}

#[test]
fn same_covered_cells_same_placement() {
    let b = RectangularBoard::new(2, 2);
    let left = Tile::new(vec![dcc_tiler::tile::Direction::Left]);
    let right = Tile::new(vec![dcc_tiler::tile::Direction::Right]);
    // Right from (0,0) and Left from (0,1) cover the same two cells.
    let tp1 = b
        .tile_fits_at_position(&right, Position::new(0, 0), 0)
        .expect("fits");
    let tp2 = b
        .tile_fits_at_position(&left, Position::new(0, 1), 0)
        .expect("fits");
    assert!(tp1 == tp2);
}

#[test]
fn place_tile_finds_two_domino_placements() {
    let b = RectangularBoard::new(2, 2);
    let tiles = TileCollection::orbit(Tile::l_tile(1));
    let children = b.place_tile(&tiles);
    assert_eq!(children.len(), 2);
    for child in children.iter() {
        let mut marked = 0;
        for row in child.board.iter() {
            for cell in row.iter() {
                if *cell {
                    marked += 1;
                }
            }
        }
        assert_eq!(marked, 2);
    }
}

#[test]
fn place_tile_on_dead_board_is_empty() {
    // A 3x1 strip with the middle cell marked: the two remaining cells are
    // isolated, so no domino placement exists at the best cell.
    let b = RectangularBoard::new(3, 1);
    let tiles = TileCollection::orbit(Tile::l_tile(1));
    let children = b.place_tile(&tiles);
    // first placement covers two adjacent cells, leaving one isolated cell
    assert_eq!(children.len(), 1);
    let next = &children[0];
    assert!(!next.is_all_marked());
    assert_eq!(next.place_tile(&tiles).len(), 0);
}

#[test]
fn mark_tile_at_position_marks_covered_cells() {
    let mut b = RectangularBoard::new(2, 2);
    let domino = Tile::l_tile(1);
    let tp = b
        .tile_fits_at_position(&domino, Position::new(0, 1), 0)
        .expect("fits");
    b.mark_tile_at_position(tp);
    assert!(b.board[0][0]);
    assert!(b.board[0][1]);
    assert!(!b.board[1][0]);
    assert!(!b.board[1][1]);
    // marking bumped the counts of the cardinal neighbors below
    assert_eq!(b.counts[1][0], 2);
    assert_eq!(b.counts[1][1], 2);
}

#[test]
fn step_positions_report_the_placed_tile() {
    let before = RectangularBoard::new(2, 2);
    let mut after = RectangularBoard::new(2, 2);
    let domino = Tile::l_tile(1);
    let tp = after
        .tile_fits_at_position(&domino, Position::new(0, 1), 0)
        .expect("fits");
    after.mark_tile_at_position(tp);
    let mut diff = tiling_step_positions(&before, &after);
    diff.sort();
    assert_eq!(diff, vec![(0, 0), (1, 0)]);
}

#[test]
fn disp_draws_the_grid() {
    let b = RectangularBoard::l_board(2, 1);
    assert_eq!(b.disp(), "x \nxx\n");
    let full = RectangularBoard::new(2, 1);
    assert_eq!(full.disp(), "xx\n");
}

#[test]
fn positions_and_placements_hold_their_parts() {
    let p = Position::new(3, -1);
    assert_eq!(p.x, 3);
    assert_eq!(p.y, -1);
    let tp = TilePosition::new(
        Position::new(0, 0),
        Tile::box_tile(),
        0,
        vec![Position::new(0, 0)],
    );
    assert_eq!(tp.covered.len(), 1);
    assert_eq!(tp.start_index, 0);
}
