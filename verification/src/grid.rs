use vstd::prelude::*;

verus! {

/// Side length of the square board.
pub const MAP_SIZE: usize = 30;

/// Number of cells of the board.
pub const CELL_COUNT: usize = 900;

/// Direction "up": towards row 0.
pub const U: usize = 0;

/// Direction "right": towards the last column.
pub const R: usize = 1;

/// Direction "down": towards the last row.
pub const D: usize = 2;

/// Direction "left": towards column 0.
pub const L: usize = 3;

/// A cell of the board.
#[derive(Clone, Copy, PartialEq, Eq, Structural, Debug)]
pub struct Coord {
    pub row: usize,
    pub col: usize,
}

/// Whether `(r, c)` lies on the board.
pub open spec fn in_board(r: int, c: int) -> bool {
    0 <= r < MAP_SIZE as int && 0 <= c < MAP_SIZE as int
}

/// Manhattan distance between two cells.
pub open spec fn manhattan(a: Coord, b: Coord) -> nat {
    let dr = if a.row >= b.row { a.row - b.row } else { b.row - a.row };
    let dc = if a.col >= b.col { a.col - b.col } else { b.col - a.col };
    (dr + dc) as nat
}

/// The row offset of a direction.
pub open spec fn dir_dr(dir: int) -> int {
    if dir == U as int { -1 } else if dir == D as int { 1 } else { 0 }
}

/// The column offset of a direction.
pub open spec fn dir_dc(dir: int) -> int {
    if dir == L as int { -1 } else if dir == R as int { 1 } else { 0 }
}

impl Coord {
    /// The cell's position inside a flat board.
    pub open spec fn index_of(self) -> int {
        self.row * MAP_SIZE as int + self.col
    }

    pub open spec fn valid(self) -> bool {
        in_board(self.row as int, self.col as int)
    }

    pub fn new(row: usize, col: usize) -> (c: Coord)
        ensures
            c.row == row,
            c.col == col,
    {
        Coord { row, col }
    }

    pub fn row(&self) -> (r: usize)
        ensures
            r == self.row,
    {
        self.row
    }

    pub fn col(&self) -> (c: usize)
        ensures
            c == self.col,
    {
        self.col
    }

    /// The flat index of the cell.
    pub fn to_index(&self) -> (i: usize)
        requires
            self.valid(),
        ensures
            i == self.index_of(),
            i < CELL_COUNT,
    {
        self.row * MAP_SIZE + self.col
    }

    /// The cell at a flat index.
    pub fn from_index(i: usize) -> (c: Coord)
        requires
            i < CELL_COUNT,
        ensures
            c.valid(),
            c.index_of() == i,
    {
        Coord { row: i / MAP_SIZE, col: i % MAP_SIZE }
    }

    /// Manhattan distance to `other`.
    pub fn dist(&self, other: &Coord) -> (d: usize)
        requires
            self.valid(),
            other.valid(),
        ensures
            d == manhattan(*self, *other),
    {
        let dr = if self.row >= other.row { self.row - other.row } else { other.row - self.row };
        let dc = if self.col >= other.col { self.col - other.col } else { other.col - self.col };
        dr + dc
    }
}

/// Distinct valid cells have distinct flat indices.
pub proof fn lemma_index_injective(a: Coord, b: Coord)
    requires
        a.valid(),
        b.valid(),
        a.index_of() == b.index_of(),
    ensures
        a == b,
{
}

/// Distinct valid cells have distinct flat indices.
pub proof fn lemma_index_injective_ne(a: Coord, b: Coord)
    requires
        a.valid(),
        b.valid(),
        a != b,
    ensures
        a.index_of() != b.index_of(),
{
}

/// A value for every cell of the board, stored row by row.
pub struct Map2d<T> {
    pub map: Vec<T>,
}

impl<T> Map2d<T> {
    pub open spec fn wf(&self) -> bool {
        self.map.len() == CELL_COUNT
    }

    /// The value at `(r, c)`.
    pub open spec fn at(&self, r: int, c: int) -> T {
        self.map@[r * MAP_SIZE as int + c]
    }

    pub open spec fn at_coord(&self, c: Coord) -> T {
        self.at(c.row as int, c.col as int)
    }

    /// A board whose every cell holds `value`.
    pub fn filled(value: T) -> (m: Map2d<T>)
        where T: Copy
        ensures
            m.wf(),
            forall|i: int| 0 <= i < CELL_COUNT ==> m.map@[i] == value,
    {
        let mut map: Vec<T> = Vec::new();
        let mut i: usize = 0;
        while i < CELL_COUNT
            invariant
                i <= CELL_COUNT,
                map.len() == i,
                forall|j: int| 0 <= j < i ==> map@[j] == value,
            decreases CELL_COUNT - i,
        {
            map.push(value);
            i += 1;
        }
        Map2d { map }
    }

    /// A copy of the board.
    pub fn copy(&self) -> (m: Map2d<T>)
        where T: Copy
        ensures
            m.map@ == self.map@,
    {
        let mut map: Vec<T> = Vec::new();
        let mut i: usize = 0;
        while i < self.map.len()
            invariant
                i <= self.map@.len(),
                map@ == self.map@.subrange(0, i as int),
            decreases self.map@.len() - i,
        {
            map.push(self.map[i]);
            i += 1;
        }
        assert(self.map@.subrange(0, self.map@.len() as int) =~= self.map@);
        Map2d { map }
    }

    pub fn get(&self, c: Coord) -> (v: &T)
        requires
            self.wf(),
            c.valid(),
        ensures
            *v == self.at_coord(c),
    {
        &self.map[c.row * MAP_SIZE + c.col]
    }

    pub fn set(&mut self, c: Coord, v: T)
        requires
            old(self).wf(),
            c.valid(),
        ensures
            final(self).wf(),
            final(self).map@ == old(self).map@.update(c.index_of(), v),
    {
        self.map.set(c.row * MAP_SIZE + c.col, v);
    }
}

} // verus!
