use zapzap::components::Direction;
use zapzap::grid::{Grid, Tile};

#[test]
fn tile_rotate_cycles() {
    // A tile with only RIGHT (1) cycles: RIGHT -> UP -> LEFT -> DOWN -> RIGHT
    let mut tile = Tile::new(0b0001);
    assert!(tile.has_connection(Direction::right()));

    tile.rotate();
    assert_eq!(tile.connections, 0b0010);
    assert!(tile.has_connection(Direction::up()));

    tile.rotate();
    assert_eq!(tile.connections, 0b0100);
    assert!(tile.has_connection(Direction::left()));

    tile.rotate();
    assert_eq!(tile.connections, 0b1000);
    assert!(tile.has_connection(Direction::down()));

    tile.rotate();
    assert_eq!(tile.connections, 0b0001);
}

#[test]
fn tile_multi_connection_rotate() {
    let mut tile = Tile::new(0b0011);
    tile.rotate();
    assert_eq!(tile.connections, 0b0110);
    tile.rotate();
    assert_eq!(tile.connections, 0b1100);
    tile.rotate();
    assert_eq!(tile.connections, 0b1001);
    tile.rotate();
    assert_eq!(tile.connections, 0b0011);
}

#[test]
fn tile_masks_upper_bits() {
    let tile = Tile::new(0xFF);
    assert_eq!(tile.connections, 0x0F);
}

#[test]
fn grid_get_set() {
    let mut grid = Grid::new(12, 10);
    assert!(grid.get(0, 0).is_none());

    grid.set(5, 3, Some(Tile::new(0b0101)));
    let t = grid.get(5, 3).unwrap();
    assert_eq!(t.connections, 0b0101);
    assert!(t.has_connection(Direction::right()));
    assert!(t.has_connection(Direction::left()));
    assert!(!t.has_connection(Direction::up()));
}

#[test]
fn rotate_four_times_is_identity_for_every_mask() {
    for mask in 0u8..16 {
        let mut tile = Tile::new(mask);
        for _ in 0..4 {
            tile.rotate();
        }
        assert_eq!(tile.connections, mask);
    }
}

#[test]
fn rotate_out_of_range_mask_stays_in_four_bits() {
    let mut tile = Tile { connections: 0xFF };
    tile.rotate();
    assert!(tile.connections <= 15);
    assert_eq!(tile.connections, 0x0F);
}

#[test]
fn opposite_directions() {
    assert_eq!(Direction::right().opposite(), Direction::left());
    assert_eq!(Direction::left().opposite(), Direction::right());
    assert_eq!(Direction::up().opposite(), Direction::down());
    assert_eq!(Direction::down().opposite(), Direction::up());
    assert_eq!(Direction(3).opposite(), Direction(0));
}

#[test]
fn dead_end_tiles() {
    assert!(Tile::new(8).is_single_connection());
    assert!(!Tile::new(5).is_single_connection());
    assert!(!Tile::new(0).is_single_connection());
}

#[test]
fn copy_within_column_copies_one_cell() {
    let mut grid = Grid::new(2, 3);
    grid.set(1, 0, Some(Tile::new(6)));
    grid.copy_within_column(1, 0, 2);
    assert_eq!(grid.get(1, 2).unwrap().connections, 6);
    assert_eq!(grid.get(1, 0).unwrap().connections, 6);
    assert!(grid.get(0, 2).is_none());
}
