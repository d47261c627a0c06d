use vstd::prelude::*;
use crate::board::GameBoard;
use crate::components::{Direction, Marking};
use crate::reach::opens;
use crate::rng::{draw, Rng};

verus! {

/// The thirteen colours of the arc and particle atlas.
#[derive(Debug, Clone, Copy, PartialEq, Eq, Structural)]
pub enum SegmentColor {
    Red,
    Orange,
    Yellow,
    LimeGreen,
    Green,
    GreenCyan,
    Cyan,
    SkyBlue,
    Blue,
    Indigo,
    Magenta,
    Pink,
    White,
}

/// The colour with a given index (in the order of declaration).
pub open spec fn color_at(i: int) -> SegmentColor {
    if i == 0 {
        SegmentColor::Red
    } else if i == 1 {
        SegmentColor::Orange
    } else if i == 2 {
        SegmentColor::Yellow
    } else if i == 3 {
        SegmentColor::LimeGreen
    } else if i == 4 {
        SegmentColor::Green
    } else if i == 5 {
        SegmentColor::GreenCyan
    } else if i == 6 {
        SegmentColor::Cyan
    } else if i == 7 {
        SegmentColor::SkyBlue
    } else if i == 8 {
        SegmentColor::Blue
    } else if i == 9 {
        SegmentColor::Indigo
    } else if i == 10 {
        SegmentColor::Magenta
    } else if i == 11 {
        SegmentColor::Pink
    } else {
        SegmentColor::White
    }
}

/// The index of a colour (in the order of declaration).
pub open spec fn color_index(c: SegmentColor) -> u8 {
    match c {
        SegmentColor::Red => 0,
        SegmentColor::Orange => 1,
        SegmentColor::Yellow => 2,
        SegmentColor::LimeGreen => 3,
        SegmentColor::Green => 4,
        SegmentColor::GreenCyan => 5,
        SegmentColor::Cyan => 6,
        SegmentColor::SkyBlue => 7,
        SegmentColor::Blue => 8,
        SegmentColor::Indigo => 9,
        SegmentColor::Magenta => 10,
        SegmentColor::Pink => 11,
        SegmentColor::White => 12,
    }
}

impl SegmentColor {
    /// A colour drawn uniformly from the generator.
    pub fn random(rng: &mut Rng) -> (r: SegmentColor)
        ensures
            r == color_at(draw(old(rng)@, 13) as int),
            final(rng)@ == crate::rng::xorshift(old(rng)@),
    {
        let i = rng.next_int(13);
        Self::from_index(i)
    }

    /// The colour with index `i`; indices past the last give the last colour.
    pub fn from_index(i: u32) -> (r: SegmentColor)
        ensures
            r == color_at(i as int),
    {
        if i == 0 {
            SegmentColor::Red
        } else if i == 1 {
            SegmentColor::Orange
        } else if i == 2 {
            SegmentColor::Yellow
        } else if i == 3 {
            SegmentColor::LimeGreen
        } else if i == 4 {
            SegmentColor::Green
        } else if i == 5 {
            SegmentColor::GreenCyan
        } else if i == 6 {
            SegmentColor::Cyan
        } else if i == 7 {
            SegmentColor::SkyBlue
        } else if i == 8 {
            SegmentColor::Blue
        } else if i == 9 {
            SegmentColor::Indigo
        } else if i == 10 {
            SegmentColor::Magenta
        } else if i == 11 {
            SegmentColor::Pink
        } else {
            SegmentColor::White
        }
    }

    /// The colour's index, as the effects shader reads it.
    pub fn index(self) -> (r: u8)
        ensures
            r == color_index(self),
            r < 13,
    {
        match self {
            SegmentColor::Red => 0,
            SegmentColor::Orange => 1,
            SegmentColor::Yellow => 2,
            SegmentColor::LimeGreen => 3,
            SegmentColor::Green => 4,
            SegmentColor::GreenCyan => 5,
            SegmentColor::Cyan => 6,
            SegmentColor::SkyBlue => 7,
            SegmentColor::Blue => 8,
            SegmentColor::Indigo => 9,
            SegmentColor::Magenta => 10,
            SegmentColor::Pink => 11,
            SegmentColor::White => 12,
        }
    }
}

/// An end of an electric arc.
#[derive(Debug, Clone, Copy, PartialEq, Eq, Structural)]
pub enum ArcEnd {
    /// The left pin of a row.
    LeftPin(usize),
    /// The right pin of a row.
    RightPin(usize),
    /// The centre of a cell (column, row).
    Cell(usize, usize),
}

/// An electric arc between two ends, drawn for cells with a given marking.
#[derive(Debug, Clone, Copy, PartialEq, Eq, Structural)]
pub struct ArcLink {
    pub from: ArcEnd,
    pub to: ArcEnd,
    pub marker: Marking,
    pub color: SegmentColor,
}

/// The colour of the arcs between cells with a marking.
pub open spec fn marker_color(m: Marking) -> SegmentColor {
    if m == Marking::Left {
        SegmentColor::Indigo
    } else if m == Marking::Right {
        SegmentColor::Orange
    } else {
        SegmentColor::SkyBlue
    }
}

/// The colour of the arcs to the pins: red for cells joined to both edges.
pub open spec fn pin_color(m: Marking) -> SegmentColor {
    if m == Marking::Both {
        SegmentColor::Red
    } else {
        marker_color(m)
    }
}

/// An arc the board calls for: a pin to its edge cell, or two neighbouring
/// cells that connect to each other, all with the same marking.
pub open spec fn arc_wanted(b: GameBoard, l: ArcLink) -> bool {
    let g = b.grid.layout();
    let m = l.marker;
    &&& m == Marking::Left || m == Marking::Right || m == Marking::Both
    &&& match (l.from, l.to) {
        (ArcEnd::LeftPin(y), ArcEnd::Cell(x, y2)) => x == 0 && y2 == y && y < b.height && b.mark(
            (0, y as int),
        ) == m && opens(g, (0, y as int), 4) && l.color == pin_color(m),
        (ArcEnd::Cell(x, y), ArcEnd::RightPin(y2)) => x == b.width - 1 && y2 == y && y < b.height
            && b.mark((x as int, y as int)) == m && opens(g, (x as int, y as int), 1) && l.color
            == pin_color(m),
        (ArcEnd::Cell(x, y), ArcEnd::Cell(x2, y2)) => {
            &&& l.color == marker_color(m)
            &&& b.mark((x as int, y as int)) == m
            &&& b.mark((x2 as int, y2 as int)) == m
            &&& ((x2 == x + 1 && y2 == y && x2 < b.width && y < b.height && opens(
                g,
                (x as int, y as int),
                1,
            ) && opens(g, (x2 as int, y2 as int), 4)) || (x2 == x && y2 == y + 1 && x < b.width
                && y2 < b.height && opens(g, (x as int, y as int), 8) && opens(
                g,
                (x2 as int, y2 as int),
                2,
            )))
        },
        _ => false,
    }
}

/// Whether the tile at (x, y) opens towards `d`.
fn opens_at(b: &GameBoard, x: usize, y: usize, d: Direction) -> (r: bool)
    requires
        b.wf(),
        x < b.width,
        y < b.height,
    ensures
        r == opens(b.grid.layout(), (x as int, y as int), d.0),
{
    match b.grid.get(x, y) {
        Some(t) => t.has_connection(d),
        None => false,
    }
}

/// The position in drawing order of the arcs of a marking.
pub open spec fn marker_rank(m: Marking) -> int {
    if m == Marking::Left {
        0
    } else if m == Marking::Right {
        1
    } else {
        2
    }
}

/// The row an arc starts from.
pub open spec fn from_row(l: ArcLink) -> int {
    match l.from {
        ArcEnd::LeftPin(y) => y as int,
        ArcEnd::RightPin(y) => y as int,
        ArcEnd::Cell(_, y) => y as int,
    }
}

/// The arc to the left pin of row `y`, if the marking calls for one.
pub open spec fn left_pin_link(b: GameBoard, m: Marking, y: int) -> Seq<ArcLink> {
    if b.mark((0, y)) == m && opens(b.grid.layout(), (0, y), 4) {
        seq![ArcLink { from: ArcEnd::LeftPin(y as usize), to: ArcEnd::Cell(0, y as usize), marker: m, color: pin_color(m) }]
    } else {
        Seq::empty()
    }
}

/// The arc to the right pin of row `y`, if the marking calls for one.
pub open spec fn right_pin_link(b: GameBoard, m: Marking, y: int) -> Seq<ArcLink> {
    let x = b.width - 1;
    if b.mark((x, y)) == m && opens(b.grid.layout(), (x, y), 1) {
        seq![
            ArcLink {
                from: ArcEnd::Cell(x as usize, y as usize),
                to: ArcEnd::RightPin(y as usize),
                marker: m,
                color: pin_color(m),
            },
        ]
    } else {
        Seq::empty()
    }
}

/// The arcs from cell (x, y) to its right and lower neighbours, in that order.
pub open spec fn cell_links(b: GameBoard, m: Marking, x: int, y: int) -> Seq<ArcLink> {
    let g = b.grid.layout();
    if b.mark((x, y)) == m {
        (if x + 1 < b.width && opens(g, (x, y), 1) && opens(g, (x + 1, y), 4) && b.mark((x + 1, y))
            == m {
            seq![
                ArcLink {
                    from: ArcEnd::Cell(x as usize, y as usize),
                    to: ArcEnd::Cell((x + 1) as usize, y as usize),
                    marker: m,
                    color: marker_color(m),
                },
            ]
        } else {
            Seq::empty()
        }) + (if y + 1 < b.height && opens(g, (x, y), 8) && opens(g, (x, y + 1), 2) && b.mark(
            (x, y + 1),
        ) == m {
            seq![
                ArcLink {
                    from: ArcEnd::Cell(x as usize, y as usize),
                    to: ArcEnd::Cell(x as usize, (y + 1) as usize),
                    marker: m,
                    color: marker_color(m),
                },
            ]
        } else {
            Seq::empty()
        })
    } else {
        Seq::empty()
    }
}

/// The cell arcs of the first `n` cells of row `y`.
pub open spec fn row_cell_links(b: GameBoard, m: Marking, y: int, n: int) -> Seq<ArcLink>
    decreases n,
{
    if n <= 0 {
        Seq::empty()
    } else {
        row_cell_links(b, m, y, n - 1) + cell_links(b, m, n - 1, y)
    }
}

/// The arcs of one marking that start in row `y`, in drawing order.
pub open spec fn row_links(b: GameBoard, m: Marking, y: int) -> Seq<ArcLink> {
    left_pin_link(b, m, y) + right_pin_link(b, m, y) + row_cell_links(b, m, y, b.width as int)
}

/// The arcs of one marking in the first `n` rows.
pub open spec fn marker_links(b: GameBoard, m: Marking, n: int) -> Seq<ArcLink>
    decreases n,
{
    if n <= 0 {
        Seq::empty()
    } else {
        marker_links(b, m, n - 1) + row_links(b, m, n - 1)
    }
}

/// Every arc of the board in drawing order: left-reached, then
/// right-reached, then joined cells, row by row.
pub open spec fn all_links(b: GameBoard) -> Seq<ArcLink> {
    marker_links(b, Marking::Left, b.height as int) + marker_links(b, Marking::Right, b.height as int)
        + marker_links(b, Marking::Both, b.height as int)
}

/// `l` is among `s`.
pub open spec fn listed(s: Seq<ArcLink>, l: ArcLink) -> bool {
    exists|i: int| 0 <= i < s.len() && s[i] == l
}

proof fn lemma_listed_grows(s: Seq<ArcLink>, t: Seq<ArcLink>, l: ArcLink)
    requires
        listed(s, l),
        t.len() >= s.len(),
        forall|i: int| 0 <= i < s.len() ==> t[i] == s[i],
    ensures
        listed(t, l),
{
    let i = choose|i: int| 0 <= i < s.len() && s[i] == l;
    assert(t[i] == l);
}

/// Appends the arcs of one marking that start in row `y`.
fn push_row_links(
    b: &GameBoard,
    marker: Marking,
    color: SegmentColor,
    pin: SegmentColor,
    y: usize,
    out: &mut Vec<ArcLink>,
)
    requires
        b.wf(),
        y < b.height,
        marker == Marking::Left || marker == Marking::Right || marker == Marking::Both,
        color == marker_color(marker),
        pin == pin_color(marker),
    ensures
        final(out)@.len() >= old(out)@.len(),
        forall|i: int| 0 <= i < old(out)@.len() ==> #[trigger] final(out)@[i] == old(out)@[i],
        forall|i: int|
            old(out)@.len() <= i < final(out)@.len() ==> arc_wanted(*b, #[trigger] final(out)@[i]),
        forall|l: ArcLink|
            arc_wanted(*b, l) && l.marker == marker && from_row(l) == y ==> #[trigger] listed(
                final(out)@,
                l,
            ),
        final(out)@ == old(out)@ + row_links(*b, marker, y as int),
{
    let w = b.width;
    let h = b.height;
    let ghost start = out@;
    if b.get_marking(0, y) == marker && opens_at(b, 0, y, Direction::left()) {
        out.push(ArcLink { from: ArcEnd::LeftPin(y), to: ArcEnd::Cell(0, y), marker, color: pin });
    }
    let ghost after_left = out@;
    if b.get_marking(w - 1, y) == marker && opens_at(b, w - 1, y, Direction::right()) {
        out.push(ArcLink { from: ArcEnd::Cell(w - 1, y), to: ArcEnd::RightPin(y), marker, color: pin });
    }
    let ghost after_pins = out@;
    assert(after_pins =~= start + left_pin_link(*b, marker, y as int) + right_pin_link(*b, marker, y as int));
    proof {
        let ll = ArcLink { from: ArcEnd::LeftPin(y), to: ArcEnd::Cell(0, y), marker, color: pin };
        if arc_wanted(*b, ll) {
            assert(after_left[after_left.len() - 1] == ll);
            assert(listed(after_left, ll));
            lemma_listed_grows(after_left, after_pins, ll);
        }
        let rl = ArcLink {
            from: ArcEnd::Cell((w - 1) as usize, y),
            to: ArcEnd::RightPin(y),
            marker,
            color: pin,
        };
        if arc_wanted(*b, rl) {
            assert(after_pins[after_pins.len() - 1] == rl);
        }
    }
    let mut x: usize = 0;
    while x < w
        invariant
            b.wf(),
            w == b.width,
            h == b.height,
            y < h,
            0 <= x <= w,
            marker == Marking::Left || marker == Marking::Right || marker == Marking::Both,
            color == marker_color(marker),
            pin == pin_color(marker),
            out@.len() >= after_pins.len(),
            after_pins.len() >= start.len(),
            forall|i: int| 0 <= i < after_pins.len() ==> #[trigger] out@[i] == after_pins[i],
            forall|i: int| 0 <= i < start.len() ==> #[trigger] after_pins[i] == start[i],
            forall|i: int| start.len() <= i < out@.len() ==> arc_wanted(*b, #[trigger] out@[i]),
            forall|l: ArcLink|
                arc_wanted(*b, l) && l.marker == marker && from_row(l) == y && (l.from is LeftPin
                    || l.to is RightPin) ==> #[trigger] listed(after_pins, l),
            forall|l: ArcLink|
                arc_wanted(*b, l) && l.marker == marker && from_row(l) == y && (l.from matches ArcEnd::Cell(
                    fx,
                    _,
                ) && fx < x) && !(l.to is RightPin) ==> #[trigger] listed(out@, l),
            out@ == after_pins + row_cell_links(*b, marker, y as int, x as int),
        decreases w - x,
    {
        let ghost before = out@;
        let mut right_link = false;
        let mut down_link = false;
        if b.get_marking(x, y) == marker {
            if x + 1 < w && opens_at(b, x, y, Direction::right()) && opens_at(
                b,
                x + 1,
                y,
                Direction::left(),
            ) && b.get_marking(x + 1, y) == marker {
                out.push(ArcLink { from: ArcEnd::Cell(x, y), to: ArcEnd::Cell(x + 1, y), marker, color });
                right_link = true;
            }
            let ghost mid = out@;
            if y + 1 < h && opens_at(b, x, y, Direction::down()) && opens_at(
                b,
                x,
                y + 1,
                Direction::up(),
            ) && b.get_marking(x, y + 1) == marker {
                out.push(ArcLink { from: ArcEnd::Cell(x, y), to: ArcEnd::Cell(x, y + 1), marker, color });
                down_link = true;
            }
            proof {
                let rl = ArcLink { from: ArcEnd::Cell(x, y), to: ArcEnd::Cell((x + 1) as usize, y), marker, color };
                if arc_wanted(*b, rl) {
                    assert(mid[mid.len() - 1] == rl);
                    lemma_listed_grows(mid, out@, rl);
                }
                let dl = ArcLink { from: ArcEnd::Cell(x, y), to: ArcEnd::Cell(x, (y + 1) as usize), marker, color };
                if arc_wanted(*b, dl) {
                    assert(out@[out@.len() - 1] == dl);
                }
            }
        }
        proof {
            assert(out@ =~= after_pins + row_cell_links(*b, marker, y as int, x + 1));
            assert forall|l: ArcLink|
                arc_wanted(*b, l) && l.marker == marker && from_row(l) == y && (l.from matches ArcEnd::Cell(
                    fx,
                    _,
                ) && fx < x + 1) && !(l.to is RightPin) implies #[trigger] listed(out@, l) by {
                if let ArcEnd::Cell(fx, _) = l.from {
                    if fx < x {
                        lemma_listed_grows(before, out@, l);
                    }
                }
            }
            assert forall|l: ArcLink|
                arc_wanted(*b, l) && l.marker == marker && from_row(l) == y && (l.from is LeftPin
                    || l.to is RightPin) implies #[trigger] listed(after_pins, l) by {}
        }
        x = x + 1;
    }
    proof {
        assert(out@ =~= start + row_links(*b, marker, y as int));
        assert forall|l: ArcLink|
            arc_wanted(*b, l) && l.marker == marker && from_row(l) == y implies #[trigger] listed(
            out@,
            l,
        ) by {
            if l.from is LeftPin || l.to is RightPin {
                assert(listed(after_pins, l));
                lemma_listed_grows(after_pins, out@, l);
            }
        }
    }
}

/// The arcs that the board's markings call for, each once: for cells
/// reached from the left, then from the right, then from both, row by row,
/// the left pin, the right pin, then the links to the right and downwards of
/// each cell.
pub fn arc_links(b: &GameBoard) -> (r: Vec<ArcLink>)
    requires
        b.wf(),
    ensures
        forall|i: int| 0 <= i < r@.len() ==> arc_wanted(*b, #[trigger] r@[i]),
        forall|l: ArcLink| arc_wanted(*b, l) ==> #[trigger] listed(r@, l),
        r@ == all_links(*b),
{
    let mut out: Vec<ArcLink> = Vec::new();
    let h = b.height;
    let mut k: usize = 0;
    while k < 3
        invariant
            b.wf(),
            h == b.height,
            0 <= k <= 3,
            forall|i: int| 0 <= i < out@.len() ==> arc_wanted(*b, #[trigger] out@[i]),
            forall|l: ArcLink|
                arc_wanted(*b, l) && marker_rank(l.marker) < k ==> #[trigger] listed(out@, l),
            out@ == if k == 0 {
                Seq::empty()
            } else if k == 1 {
                marker_links(*b, Marking::Left, h as int)
            } else if k == 2 {
                marker_links(*b, Marking::Left, h as int) + marker_links(*b, Marking::Right, h as int)
            } else {
                all_links(*b)
            },
        decreases 3 - k,
    {
        let (marker, color) = if k == 0 {
            (Marking::Left, SegmentColor::Indigo)
        } else if k == 1 {
            (Marking::Right, SegmentColor::Orange)
        } else {
            (Marking::Both, SegmentColor::SkyBlue)
        };
        let pin = if marker == Marking::Both {
            SegmentColor::Red
        } else {
            color
        };
        let ghost base = out@;
        let mut y: usize = 0;
        while y < h
            invariant
                b.wf(),
                h == b.height,
                0 <= y <= h,
                k < 3,
                base == if k == 0 {
                    Seq::empty()
                } else if k == 1 {
                    marker_links(*b, Marking::Left, h as int)
                } else {
                    marker_links(*b, Marking::Left, h as int) + marker_links(*b, Marking::Right, h as int)
                },
                marker == Marking::Left || marker == Marking::Right || marker == Marking::Both,
                marker_rank(marker) == k,
                color == marker_color(marker),
                pin == pin_color(marker),
                forall|i: int| 0 <= i < out@.len() ==> arc_wanted(*b, #[trigger] out@[i]),
                forall|l: ArcLink|
                    arc_wanted(*b, l) && (marker_rank(l.marker) < k || (l.marker == marker
                        && from_row(l) < y)) ==> #[trigger] listed(out@, l),
                out@ == base + marker_links(*b, marker, y as int),
            decreases h - y,
        {
            let ghost before = out@;
            push_row_links(b, marker, color, pin, y, &mut out);
            proof {
                assert(out@ =~= base + marker_links(*b, marker, y + 1));
                assert forall|l: ArcLink|
                    arc_wanted(*b, l) && (marker_rank(l.marker) < k || (l.marker == marker
                        && from_row(l) < y + 1)) implies #[trigger] listed(out@, l) by {
                    if marker_rank(l.marker) < k || from_row(l) < y {
                        lemma_listed_grows(before, out@, l);
                    }
                }
            }
            y = y + 1;
        }
        proof {
            if k == 0 {
                assert(out@ =~= marker_links(*b, Marking::Left, h as int));
            } else if k == 2 {
                assert(out@ =~= all_links(*b));
            }
            assert forall|l: ArcLink|
                arc_wanted(*b, l) && marker_rank(l.marker) < k + 1 implies #[trigger] listed(out@, l) by {
                if marker_rank(l.marker) == k {
                    assert(l.marker == marker);
                    assert(from_row(l) < h);
                }
            }
        }
        k = k + 1;
    }
    out
}

} // verus!
