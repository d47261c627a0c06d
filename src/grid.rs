use vstd::prelude::*;
use crate::components::Direction;

verus! {

/// The tile value that `rotate` produces: a cyclic shift left within the low four bits.
pub open spec fn rotated(c: u8) -> u8 {
    ((((c << 1u8) as u8) & 0x0Fu8) | (((c << 1u8) as u8) >> 4u8)) & 0x0Fu8
}

/// Whether a connection mask has the given direction bit.
pub open spec fn has_dir(c: u8, d: u8) -> bool {
    (c & d) != 0
}

/// Dead-end masks: exactly one connection.
pub open spec fn is_single(c: u8) -> bool {
    c == 1 || c == 2 || c == 4 || c == 8
}

/// Rotating four times is the identity on every four-bit mask, and a
/// rotation always lands in the four-bit range.
pub proof fn lemma_rotate_four_times(c: u8)
    ensures
        rotated(c) <= 15,
        c <= 15 ==> rotated(rotated(rotated(rotated(c)))) == c,
{
    assert(rotated(c) <= 15) by (bit_vector);
    assert(c <= 15 ==> rotated(rotated(rotated(rotated(c)))) == c) by (bit_vector);
}

/// The mathematical content of a grid: its dimensions and its cells in
/// column-major order.
pub struct Layout {
    pub width: int,
    pub height: int,
    pub cells: Seq<Option<Tile>>,
}

impl Layout {
    /// Whether (x, y) lies on the grid.
    pub open spec fn in_bounds(&self, x: int, y: int) -> bool {
        0 <= x < self.width && 0 <= y < self.height
    }

    /// The cell at (x, y).
    pub open spec fn cell(&self, x: int, y: int) -> Option<Tile> {
        self.cells[cell_index(self.height, x, y)]
    }

    /// The same grid with the cell at (x, y) replaced.
    pub open spec fn with_cell(self, x: int, y: int, t: Option<Tile>) -> Layout {
        Layout { cells: self.cells.update(cell_index(self.height, x, y), t), ..self }
    }
}

/// A single tile on the board. Stores its connection bitmask in the lower 4 bits.
#[derive(Debug, Clone, Copy, PartialEq, Eq, Structural)]
pub struct Tile {
    pub connections: u8,
}

impl Tile {
    pub fn new(connections: u8) -> (r: Tile)
        ensures
            r.connections == connections & 0x0F,
            r.connections <= 15,
    {
        assert(connections & 0x0F <= 15) by (bit_vector);
        Tile { connections: connections & 0x0F }
    }

    /// Rotate the tile by one step: right -> up -> left -> down -> right.
    pub fn rotate(&mut self)
        ensures
            final(self).connections == rotated(old(self).connections),
            final(self).connections <= 15,
    {
        proof {
            lemma_rotate_four_times(self.connections);
        }
        let mut r: u8 = self.connections << 1u8;
        r = (r & 0x0F) | (r >> 4u8);
        self.connections = r & 0x0F;
    }

    /// Check if this tile has a connection in the given direction.
    pub fn has_connection(&self, dir: Direction) -> (r: bool)
        ensures
            r == has_dir(self.connections, dir.0),
    {
        (self.connections & dir.0) != 0
    }

    /// Returns true if this tile is a dead end (exactly one connection bit set).
    pub fn is_single_connection(&self) -> (r: bool)
        ensures
            r == is_single(self.connections),
    {
        self.connections == 1 || self.connections == 2 || self.connections == 4
            || self.connections == 8
    }
}

/// The board grid, column-major: the cell (x, y) is stored at index x * height + y.
/// `None` means an empty cell.
#[derive(Debug, Clone)]
pub struct Grid {
    pub width: usize,
    pub height: usize,
    pub tiles: Vec<Option<Tile>>,
}

/// Flat index of a cell in column-major order.
pub open spec fn cell_index(height: int, x: int, y: int) -> int {
    x * height + y
}

impl View for Grid {
    type V = Seq<Option<Tile>>;

    open spec fn view(&self) -> Seq<Option<Tile>> {
        self.tiles@
    }
}

impl Grid {
    /// The storage holds one cell per position.
    pub open spec fn wf(&self) -> bool {
        &&& self.tiles@.len() == self.width * self.height
        &&& self.width * self.height <= usize::MAX
    }

    /// Whether (x, y) lies on the grid.
    pub open spec fn in_bounds(&self, x: int, y: int) -> bool {
        0 <= x < self.width && 0 <= y < self.height
    }

    /// The grid's mathematical content.
    pub open spec fn layout(&self) -> Layout {
        Layout { width: self.width as int, height: self.height as int, cells: self@ }
    }

    /// The cell at (x, y).
    pub open spec fn cell(&self, x: int, y: int) -> Option<Tile> {
        self@[cell_index(self.height as int, x, y)]
    }

    pub proof fn lemma_index_in_range(&self, x: int, y: int)
        requires
            self.in_bounds(x, y),
        ensures
            0 <= cell_index(self.height as int, x, y) < self.width * self.height,
    {
        assert(x * self.height + y < self.width * self.height) by (nonlinear_arith)
            requires
                0 <= x < self.width,
                0 <= y < self.height,
        ;
        assert(0 <= x * self.height) by (nonlinear_arith)
            requires
                0 <= x,
        ;
    }

    /// Two distinct positions have distinct indices.
    pub proof fn lemma_index_injective(&self, x1: int, y1: int, x2: int, y2: int)
        requires
            self.in_bounds(x1, y1),
            self.in_bounds(x2, y2),
            x1 != x2 || y1 != y2,
        ensures
            cell_index(self.height as int, x1, y1) != cell_index(self.height as int, x2, y2),
    {
        let h = self.height as int;
        if x1 == x2 {
        } else if x1 < x2 {
            assert(x1 * h + y1 < x2 * h + y2) by (nonlinear_arith)
                requires
                    x1 < x2,
                    0 <= y1 < h,
                    0 <= y2,
            ;
        } else {
            assert(x2 * h + y2 < x1 * h + y1) by (nonlinear_arith)
                requires
                    x2 < x1,
                    0 <= y2 < h,
                    0 <= y1,
            ;
        }
    }

    /// A grid of empty cells.
    pub fn new(width: usize, height: usize) -> (r: Grid)
        requires
            width * height <= usize::MAX,
        ensures
            r.wf(),
            r.width == width,
            r.height == height,
            forall|i: int| 0 <= i < r@.len() ==> r@[i].is_none(),
    {
        let n: usize = width * height;
        let mut tiles: Vec<Option<Tile>> = Vec::with_capacity(n);
        let mut i: usize = 0;
        while i < n
            invariant
                i <= n,
                tiles@.len() == i,
                forall|k: int| 0 <= k < i ==> tiles@[k].is_none(),
            decreases n - i,
        {
            tiles.push(None);
            i = i + 1;
        }
        Grid { width, height, tiles }
    }

    /// An independent grid with the same dimensions and cells.
    pub fn duplicate(&self) -> (r: Grid)
        ensures
            r.width == self.width,
            r.height == self.height,
            r@ == self@,
            r.tiles@ == self.tiles@,
    {
        let mut tiles: Vec<Option<Tile>> = Vec::with_capacity(self.tiles.len());
        let mut i: usize = 0;
        while i < self.tiles.len()
            invariant
                0 <= i <= self.tiles@.len(),
                tiles@ == self.tiles@.subrange(0, i as int),
            decreases self.tiles@.len() - i,
        {
            tiles.push(self.tiles[i]);
            i = i + 1;
            assert(tiles@ =~= self.tiles@.subrange(0, i as int));
        }
        assert(tiles@ =~= self.tiles@);
        Grid { width: self.width, height: self.height, tiles }
    }

    fn idx(&self, x: usize, y: usize) -> (r: usize)
        requires
            self.wf(),
            self.in_bounds(x as int, y as int),
        ensures
            r == cell_index(self.height as int, x as int, y as int),
            r < self.width * self.height,
    {
        proof {
            self.lemma_index_in_range(x as int, y as int);
            assert(0 <= x * self.height <= x * self.height + y) by (nonlinear_arith)
                requires
                    0 <= x,
                    0 <= y,
                    0 <= self.height,
            ;
        }
        x * self.height + y
    }

    pub fn get(&self, x: usize, y: usize) -> (r: Option<&Tile>)
        requires
            self.wf(),
            self.in_bounds(x as int, y as int),
        ensures
            r.is_some() == self.cell(x as int, y as int).is_some(),
            r matches Some(t) ==> *t == self.cell(x as int, y as int).unwrap(),
    {
        let i = self.idx(x, y);
        self.tiles[i].as_ref()
    }

    pub fn get_mut(&mut self, x: usize, y: usize) -> (r: Option<&mut Tile>)
        requires
            old(self).wf(),
            old(self).in_bounds(x as int, y as int),
        ensures
            r.is_some() == old(self).cell(x as int, y as int).is_some(),
            r matches Some(t) ==> *t == old(self).cell(x as int, y as int).unwrap(),
            final(self).width == old(self).width,
            final(self).height == old(self).height,
            final(self).wf(),
            match r {
                Some(t) => final(self)@ == old(self)@.update(
                    cell_index(old(self).height as int, x as int, y as int),
                    Some(*final(t)),
                ),
                None => final(self)@ == old(self)@,
            },
    {
        let i = self.idx(x, y);
        self.tiles[i].as_mut()
    }

    pub fn set(&mut self, x: usize, y: usize, tile: Option<Tile>)
        requires
            old(self).wf(),
            old(self).in_bounds(x as int, y as int),
        ensures
            final(self).wf(),
            final(self).width == old(self).width,
            final(self).height == old(self).height,
            final(self)@ == old(self)@.update(
                cell_index(old(self).height as int, x as int, y as int),
                tile,
            ),
            forall|a: int, b: int|
                old(self).in_bounds(a, b) ==> #[trigger] final(self).cell(a, b) == if a == x && b
                    == y {
                    tile
                } else {
                    old(self).cell(a, b)
                },
    {
        let i = self.idx(x, y);
        self.tiles.set(i, tile);
        proof {
            assert forall|a: int, b: int| old(self).in_bounds(a, b) implies #[trigger] self.cell(a, b)
                == if a == x && b == y {
                tile
            } else {
                old(self).cell(a, b)
            } by {
                self.lemma_index_in_range(a, b);
                if a != x || b != y {
                    self.lemma_index_injective(a, b, x as int, y as int);
                }
            }
        }
    }

    /// Copy the cell at `from_y` onto the cell at `to_y` within column `x`.
    pub fn copy_within_column(&mut self, x: usize, from_y: usize, to_y: usize)
        requires
            old(self).wf(),
            old(self).in_bounds(x as int, from_y as int),
            old(self).in_bounds(x as int, to_y as int),
        ensures
            final(self).wf(),
            final(self).width == old(self).width,
            final(self).height == old(self).height,
            final(self)@ == old(self)@.update(
                cell_index(old(self).height as int, x as int, to_y as int),
                old(self).cell(x as int, from_y as int),
            ),
            forall|a: int, b: int|
                old(self).in_bounds(a, b) ==> #[trigger] final(self).cell(a, b) == if a == x && b
                    == to_y {
                    old(self).cell(x as int, from_y as int)
                } else {
                    old(self).cell(a, b)
                },
    {
        let from_i = self.idx(x, from_y);
        let to_i = self.idx(x, to_y);
        let t = self.tiles[from_i];
        self.tiles.set(to_i, t);
        proof {
            assert forall|a: int, b: int| old(self).in_bounds(a, b) implies #[trigger] self.cell(a, b)
                == if a == x && b == to_y {
                old(self).cell(x as int, from_y as int)
            } else {
                old(self).cell(a, b)
            } by {
                self.lemma_index_in_range(a, b);
                if a != x || b != to_y {
                    self.lemma_index_injective(a, b, x as int, to_y as int);
                }
            }
        }
    }
}

} // verus!
