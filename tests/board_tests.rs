use zapzap::board::GameBoard;
use zapzap::components::Marking;
use zapzap::grid::Tile;
use zapzap::rng::Rng;

#[test]
fn rng_deterministic() {
    let mut a = Rng::new(42);
    let mut b = Rng::new(42);
    for _ in 0..100 {
        assert_eq!(a.next_int(100), b.next_int(100));
    }
}

#[test]
fn rng_range() {
    let mut rng = Rng::new(12345);
    for _ in 0..1000 {
        let v = rng.next_int(15);
        assert!(v < 15);
    }
}

#[test]
fn rng_xorshift_first_value() {
    // One xorshift64 step from state 1: 1 ^ (1 << 13) = 0x2001; ^ (>> 7) = 0x2041;
    // ^ (<< 17) = 0x40822041.
    let mut rng = Rng::new(1);
    assert_eq!(rng.next_int(u32::MAX), (0x4082_2041u64 % u32::MAX as u64) as u32);
}

#[test]
fn rng_zero_seed_acts_as_one() {
    let mut a = Rng::new(0);
    let mut b = Rng::new(1);
    for _ in 0..10 {
        assert_eq!(a.next_int(1000), b.next_int(1000));
    }
}

#[test]
fn new_element_range() {
    let mut board = GameBoard::new(12, 10, 30, 42);
    for _ in 0..500 {
        let e = board.get_new_element();
        assert!(e >= 1 && e <= 15, "got {}", e);
    }
}

#[test]
fn dead_end_share_is_held_down() {
    let mut board = GameBoard::new(12, 10, 0, 7);
    let mut dead = 0;
    for _ in 0..500 {
        let e = board.get_new_element();
        if e == 1 || e == 2 || e == 4 || e == 8 {
            dead += 1;
        }
    }
    // With a zero target a dead end is kept only while dead ends are under
    // one percent of all tiles drawn (620 here).
    assert!(dead <= 7);
    assert!(board.missing_link_elements * 100 <= board.new_elements + 100);
    assert_eq!(board.new_elements, 620);
}

#[test]
fn board_initializes_all_tiles() {
    let board = GameBoard::new(12, 10, 30, 42);
    for x in 0..12 {
        for y in 0..10 {
            assert!(board.grid.get(x, y).is_some(), "tile at ({},{}) is None", x, y);
        }
    }
}

#[test]
fn check_connections_simple_horizontal() {
    let mut board = GameBoard::new(3, 1, 0, 1);
    board.grid.set(0, 0, Some(Tile::new(0b0101)));
    board.grid.set(1, 0, Some(Tile::new(0b0101)));
    board.grid.set(2, 0, Some(Tile::new(0b0101)));

    let result = board.check_connections();
    assert_eq!(result, 1, "should detect a left-to-right connection");
    assert_eq!(board.left_pins_connect, 1);
    assert_eq!(board.right_pins_connect, 1);

    assert_eq!(board.get_marking(0, 0), Marking::Both);
    assert_eq!(board.get_marking(1, 0), Marking::Both);
    assert_eq!(board.get_marking(2, 0), Marking::Both);
}

#[test]
fn check_connections_no_path() {
    let mut board = GameBoard::new(3, 1, 0, 1);
    board.grid.set(0, 0, Some(Tile::new(0b0100)));
    board.grid.set(1, 0, Some(Tile::new(0b1000)));
    board.grid.set(2, 0, Some(Tile::new(0b0001)));

    let result = board.check_connections();
    assert_eq!(result, 0, "no connection should be found");
    assert_eq!(board.left_pins_connect, 0);
    assert_eq!(board.right_pins_connect, 0);
}

#[test]
fn check_connections_l_shaped_path() {
    let mut board = GameBoard::new(3, 2, 0, 1);
    board.grid.set(0, 0, Some(Tile::new(0b0101)));
    board.grid.set(1, 0, Some(Tile::new(0b1100)));
    board.grid.set(2, 0, Some(Tile::new(0b1000)));
    board.grid.set(0, 1, Some(Tile::new(0b0010)));
    board.grid.set(1, 1, Some(Tile::new(0b0011)));
    board.grid.set(2, 1, Some(Tile::new(0b0101)));

    let result = board.check_connections();
    assert_eq!(result, 1, "L-shaped path should connect");
    assert_eq!(board.get_marking(0, 0), Marking::Both);
    assert_eq!(board.get_marking(1, 0), Marking::Both);
    assert_eq!(board.get_marking(1, 1), Marking::Both);
    assert_eq!(board.get_marking(2, 1), Marking::Both);
}

#[test]
fn check_connections_multiple_rows() {
    let mut board = GameBoard::new(3, 3, 0, 1);
    board.grid.set(0, 0, Some(Tile::new(0b0101)));
    board.grid.set(1, 0, Some(Tile::new(0b0101)));
    board.grid.set(2, 0, Some(Tile::new(0b0101)));
    board.grid.set(0, 1, Some(Tile::new(0b0100)));
    board.grid.set(1, 1, Some(Tile::new(0b1000)));
    board.grid.set(2, 1, Some(Tile::new(0b0001)));
    board.grid.set(0, 2, Some(Tile::new(0b0101)));
    board.grid.set(1, 2, Some(Tile::new(0b0101)));
    board.grid.set(2, 2, Some(Tile::new(0b0101)));

    let result = board.check_connections();
    assert_eq!(result, 1);
    assert_eq!(board.left_pins_connect, 2);
    assert_eq!(board.right_pins_connect, 2);
}

#[test]
fn broken_chain_marks_nothing_both() {
    let mut board = GameBoard::new(3, 1, 0, 1);
    board.grid.set(0, 0, Some(Tile::new(0b0101)));
    board.grid.set(1, 0, Some(Tile::new(0b1010)));
    board.grid.set(2, 0, Some(Tile::new(0b0101)));
    assert_eq!(board.check_connections(), 0);
    assert_eq!(board.get_marking(0, 0), Marking::Left);
    assert_eq!(board.get_marking(1, 0), Marking::Unmarked);
    assert_eq!(board.get_marking(2, 0), Marking::Right);
}

#[test]
fn animating_marking_survives_an_unreached_cell() {
    let mut board = GameBoard::new(3, 1, 0, 1);
    board.grid.set(0, 0, Some(Tile::new(0b0101)));
    board.grid.set(1, 0, Some(Tile::new(0b1010)));
    board.grid.set(2, 0, Some(Tile::new(0b0010)));
    board.set_marking(1, 0, Marking::Animating);
    board.set_marking(2, 0, Marking::Animating);
    board.set_marking(0, 0, Marking::Animating);
    assert_eq!(board.check_connections(), 0);
    assert_eq!(board.get_marking(0, 0), Marking::Left);
    assert_eq!(board.get_marking(1, 0), Marking::Animating);
    assert_eq!(board.get_marking(2, 0), Marking::Animating);
}

#[test]
fn remove_and_shift_basic() {
    let mut board = GameBoard::new(3, 3, 0, 99);
    board.grid.set(0, 1, Some(Tile::new(0b0101)));
    board.grid.set(1, 1, Some(Tile::new(0b0101)));
    board.grid.set(2, 1, Some(Tile::new(0b0101)));
    for x in 0..3 {
        board.grid.set(x, 0, Some(Tile::new(0b1111)));
        board.grid.set(x, 2, Some(Tile::new(0b0010)));
    }

    let _ = board.check_connections();
    assert_eq!(board.get_marking(0, 1), Marking::Both);

    let old_top = board.grid.get(0, 0).unwrap().connections;
    board.remove_and_shift_connecting_tiles();

    let new_at_1 = board.grid.get(0, 1).unwrap();
    assert_eq!(new_at_1.connections, old_top, "old top row should shift down to row 1");
    assert!(board.grid.get(0, 0).is_some());
}

#[test]
fn single_removed_tile_lets_the_column_above_fall_one_row() {
    // Column 0 of a 1-wide, 4-high board; only row 2 joins both edges.
    let mut board = GameBoard::new(1, 4, 0, 5);
    board.grid.set(0, 0, Some(Tile::new(0b0011)));
    board.grid.set(0, 1, Some(Tile::new(0b1010)));
    board.grid.set(0, 2, Some(Tile::new(0b0101)));
    board.grid.set(0, 3, Some(Tile::new(0b1000)));
    board.check_connections();
    assert_eq!(board.get_marking(0, 2), Marking::Both);
    assert_ne!(board.get_marking(0, 1), Marking::Both);
    board.remove_and_shift_connecting_tiles();
    assert_eq!(board.grid.get(0, 1).unwrap().connections, 0b0011);
    assert_eq!(board.grid.get(0, 2).unwrap().connections, 0b1010);
    assert_eq!(board.grid.get(0, 3).unwrap().connections, 0b1000);
    let top = board.grid.get(0, 0).unwrap().connections;
    assert!(top >= 1 && top <= 15);
}

#[test]
fn bomb_clears_area_and_shifts_down() {
    let mut board = GameBoard::new(3, 5, 0, 3);
    for y in 0..5 {
        board.grid.set(1, y, Some(Tile::new(y as u8 + 1)));
        board.grid.set(0, y, Some(Tile::new(9)));
    }
    // Clear column 1 around row 3, one row each way: rows 2 to 4.
    board.bomb_table(1, 3, 0, 1);
    // Three rows go; rows 0 and 1 fall to rows 3 and 4.
    assert_eq!(board.grid.get(1, 3).unwrap().connections, 1);
    assert_eq!(board.grid.get(1, 4).unwrap().connections, 2);
    for y in 0..3 {
        let c = board.grid.get(1, y).unwrap().connections;
        assert!(c >= 1 && c <= 15);
    }
    for y in 0..5 {
        assert_eq!(board.grid.get(0, y).unwrap().connections, 9);
    }
}

#[test]
fn bomb_off_the_board_changes_nothing() {
    let mut board = GameBoard::new(3, 3, 0, 3);
    let before: Vec<u8> = (0..9).map(|i| board.grid.get(i / 3, i % 3).unwrap().connections).collect();
    board.bomb_table(3, 0, 1, 1);
    board.bomb_table(0, 7, 1, 1);
    let after: Vec<u8> = (0..9).map(|i| board.grid.get(i / 3, i % 3).unwrap().connections).collect();
    assert_eq!(before, after);
}

#[test]
fn set_tile_masks_and_skips_empty_cells() {
    let mut board = GameBoard::new(2, 2, 0, 3);
    board.set_tile(1, 1, 0xF3);
    assert_eq!(board.grid.get(1, 1).unwrap().connections, 3);
    board.grid.set(0, 0, None);
    board.set_tile(0, 0, 5);
    assert!(board.grid.get(0, 0).is_none());
}

#[test]
fn boards_from_one_seed_are_identical() {
    let mut a = GameBoard::new(12, 10, 3, 2024);
    let mut b = GameBoard::new(12, 10, 3, 2024);
    for x in 0..12 {
        for y in 0..10 {
            assert_eq!(a.grid.get(x, y).unwrap().connections, b.grid.get(x, y).unwrap().connections);
        }
    }
    for _ in 0..50 {
        assert_eq!(a.get_new_element(), b.get_new_element());
    }
    let c = GameBoard::new(12, 10, 3, 2025);
    let differs = (0..120).any(|i| {
        a.grid.get(i / 10, i % 10).unwrap().connections != c.grid.get(i / 10, i % 10).unwrap().connections
    });
    assert!(differs);
}

#[test]
fn first_tile_is_the_first_draw() {
    // Cell (0, 0) is generated first: one draw in [0, 15) plus one.
    let board = GameBoard::new(2, 2, 100, 77);
    let mut rng = Rng::new(77);
    let expected = (rng.next_int(15) + 1) as u8;
    assert_eq!(board.grid.get(0, 0).unwrap().connections, expected);
}
