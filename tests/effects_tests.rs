use zapzap::board::GameBoard;
use zapzap::components::Marking;
use zapzap::effects::{arc_links, ArcEnd, ArcLink, SegmentColor};
use zapzap::grid::Tile;

#[test]
fn arcs_follow_a_completed_row() {
    let mut board = GameBoard::new(3, 1, 0, 1);
    for x in 0..3 {
        board.grid.set(x, 0, Some(Tile::new(0b0101)));
    }
    board.check_connections();
    let links = arc_links(&board);
    assert_eq!(
        links,
        vec![
            ArcLink { from: ArcEnd::LeftPin(0), to: ArcEnd::Cell(0, 0), marker: Marking::Both, color: SegmentColor::Red },
            ArcLink { from: ArcEnd::Cell(2, 0), to: ArcEnd::RightPin(0), marker: Marking::Both, color: SegmentColor::Red },
            ArcLink { from: ArcEnd::Cell(0, 0), to: ArcEnd::Cell(1, 0), marker: Marking::Both, color: SegmentColor::SkyBlue },
            ArcLink { from: ArcEnd::Cell(1, 0), to: ArcEnd::Cell(2, 0), marker: Marking::Both, color: SegmentColor::SkyBlue },
        ]
    );
}

#[test]
fn arcs_of_partial_paths_use_side_colours() {
    let mut board = GameBoard::new(3, 2, 0, 1);
    board.grid.set(0, 0, Some(Tile::new(0b1100)));
    board.grid.set(0, 1, Some(Tile::new(0b0010)));
    board.grid.set(1, 0, Some(Tile::new(0b1010)));
    board.grid.set(1, 1, Some(Tile::new(0b1010)));
    board.grid.set(2, 0, Some(Tile::new(0b0001)));
    board.grid.set(2, 1, Some(Tile::new(0b1000)));
    board.check_connections();
    let links = arc_links(&board);
    assert_eq!(
        links,
        vec![
            ArcLink { from: ArcEnd::LeftPin(0), to: ArcEnd::Cell(0, 0), marker: Marking::Left, color: SegmentColor::Indigo },
            ArcLink { from: ArcEnd::Cell(0, 0), to: ArcEnd::Cell(0, 1), marker: Marking::Left, color: SegmentColor::Indigo },
            ArcLink { from: ArcEnd::Cell(2, 0), to: ArcEnd::RightPin(0), marker: Marking::Right, color: SegmentColor::Orange },
        ]
    );
}
