use dcc_tiler::tile::{Axis, Direction, Tile, TileCollection};

#[test]
fn opposite_pairs_cancel() {
    assert_eq!(Direction::Up.opposite(), Direction::Down);
    assert_eq!(Direction::Down.opposite(), Direction::Up);
    assert_eq!(Direction::Left.opposite(), Direction::Right);
    assert_eq!(Direction::Right.opposite(), Direction::Left);
    assert_eq!(Direction::UpLeft.opposite(), Direction::DownRight);
    assert_eq!(Direction::DownRight.opposite(), Direction::UpLeft);
    assert_eq!(Direction::UpRight.opposite(), Direction::DownLeft);
    assert_eq!(Direction::DownLeft.opposite(), Direction::UpRight);
}

#[test]
fn rotate_is_quarter_turn() {
    assert_eq!(Direction::Up.rotate(), Direction::Right);
    assert_eq!(Direction::Right.rotate(), Direction::Down);
    assert_eq!(Direction::Down.rotate(), Direction::Left);
    assert_eq!(Direction::Left.rotate(), Direction::Up);
    assert_eq!(Direction::UpLeft.rotate(), Direction::UpRight);
    assert_eq!(Direction::UpRight.rotate(), Direction::DownRight);
    assert_eq!(Direction::DownRight.rotate(), Direction::DownLeft);
    assert_eq!(Direction::DownLeft.rotate(), Direction::UpLeft);
}

#[test]
fn reflect_mirrors_about_axes() {
    assert_eq!(Direction::Up.reflect(Axis::Horizontal), Direction::Down);
    assert_eq!(Direction::Up.reflect(Axis::Vertical), Direction::Up);
    assert_eq!(Direction::Left.reflect(Axis::Vertical), Direction::Right);
    assert_eq!(Direction::Left.reflect(Axis::Horizontal), Direction::Left);
    assert_eq!(Direction::UpLeft.reflect(Axis::Horizontal), Direction::DownLeft);
    assert_eq!(Direction::UpLeft.reflect(Axis::Vertical), Direction::UpRight);
}

#[test]
fn l_tile_shape() {
    let tile = Tile::l_tile(2);
    assert_eq!(tile.directions, vec![Direction::Left, Direction::Up]);
    let tile1 = Tile::l_tile(1);
    assert_eq!(tile1.directions, vec![Direction::Left]);
}

#[test]
fn t_tile_shape() {
    let tile = Tile::t_tile(1);
    assert_eq!(
        tile.directions,
        vec![Direction::Right, Direction::Up, Direction::DownRight]
    );
    let tile2 = Tile::t_tile(2);
    assert_eq!(tile2.directions.len(), 5);
}

#[test]
fn box_tile_is_empty_chain() {
    assert_eq!(Tile::box_tile().directions.len(), 0);
}

#[test]
fn tile_rotation_example() {
    let l = Tile::new(vec![Direction::Left, Direction::Up, Direction::Left]);
    let q = Tile::new(vec![Direction::Up, Direction::Right, Direction::Up]);
    assert_eq!(l.rotate(), q);
}

#[test]
fn tile_reflection_example() {
    let tile = Tile::new(vec![Direction::Left, Direction::Up, Direction::Right]);
    let reflected_tile = tile.reflect(Axis::Vertical);
    assert_eq!(
        reflected_tile,
        Tile::new(vec![Direction::Right, Direction::Up, Direction::Left])
    );
}

#[test]
fn collection_tracks_single_tile() {
    let with_single = TileCollection::new(vec![Tile::box_tile(), Tile::l_tile(1)]);
    assert!(with_single.contains_single_tile());
    let without = TileCollection::new(vec![Tile::l_tile(2)]);
    assert!(!without.contains_single_tile());
}

/// Symmetry-orbit closure: rotating or reflecting any member of an orbit
/// yields a member again, and the orbit size divides 8.
#[test]
fn orbit_closure_and_sizes() {
    for (seed, expected) in [
        (Tile::box_tile(), 1usize),
        (Tile::l_tile(1), 4usize),
        (Tile::l_tile(2), 8usize),
    ] {
        let orbit = TileCollection::orbit(seed);
        let members = orbit.iter().clone();
        assert_eq!(members.len(), expected);
        assert!(8 % members.len() == 0);
        for t in members.iter() {
            assert!(members.contains(&t.rotate()));
            assert!(members.contains(&t.reflect(Axis::Horizontal)));
            assert!(members.contains(&t.reflect(Axis::Vertical)));
        }
        // no duplicates
        for a in 0..members.len() {
            for b in (a + 1)..members.len() {
                assert!(members[a] != members[b]);
            }
        }
    }
}

#[test]
fn t_tile_orbit_is_closed() {
    let orbit = TileCollection::orbit(Tile::t_tile(1));
    let members = orbit.iter();
    assert!(8 % members.len() == 0);
    for t in members.iter() {
        assert!(members.contains(&t.rotate()));
        assert!(members.contains(&t.reflect(Axis::Horizontal)));
        assert!(members.contains(&t.reflect(Axis::Vertical)));
    }
}
