use zapzap::board::GameBoard;
use zapzap::bot::BotPlayer;
use zapzap::grid::Tile;

#[test]
fn bot_finds_completing_move() {
    let mut board = GameBoard::new(3, 1, 0, 1);
    board.grid.set(0, 0, Some(Tile::new(0b0101)));
    board.grid.set(1, 0, Some(Tile::new(0b1010)));
    board.grid.set(2, 0, Some(Tile::new(0b0101)));

    let bot_move = BotPlayer::determine_next_move(&board);
    assert!(bot_move.is_some(), "bot should find a move");

    let m = bot_move.unwrap();
    assert_eq!(m.x, 1, "should rotate the middle tile");
    assert_eq!(m.y, 0);
    assert_eq!(m.rotation_count, 1, "one rotation turns UP+DOWN into LEFT+RIGHT");
}

#[test]
fn bot_returns_none_for_no_improvement() {
    let mut board = GameBoard::new(3, 1, 0, 1);
    board.grid.set(0, 0, Some(Tile::new(0b0010)));
    board.grid.set(1, 0, Some(Tile::new(0b0010)));
    board.grid.set(2, 0, Some(Tile::new(0b0010)));

    let bot_move = BotPlayer::determine_next_move(&board);
    assert!(bot_move.is_none(), "no useful move for single-connection tiles");
}

#[test]
fn bot_prefers_zap_over_partial() {
    let mut board = GameBoard::new(4, 1, 0, 1);
    board.grid.set(0, 0, Some(Tile::new(0b0101)));
    board.grid.set(1, 0, Some(Tile::new(0b1010)));
    board.grid.set(2, 0, Some(Tile::new(0b0101)));
    board.grid.set(3, 0, Some(Tile::new(0b0101)));

    let bot_move = BotPlayer::determine_next_move(&board);
    assert!(bot_move.is_some());
    let m = bot_move.unwrap();
    assert_eq!(m.x, 1);
    assert_eq!(m.rotation_count, 1);
}

#[test]
fn bot_leaves_the_board_untouched() {
    let mut board = GameBoard::new(3, 1, 0, 1);
    board.grid.set(0, 0, Some(Tile::new(0b0101)));
    board.grid.set(1, 0, Some(Tile::new(0b1010)));
    board.grid.set(2, 0, Some(Tile::new(0b0101)));
    let _ = BotPlayer::determine_next_move(&board);
    assert_eq!(board.grid.get(1, 0).unwrap().connections, 0b1010);
}
