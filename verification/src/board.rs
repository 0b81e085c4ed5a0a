//! The letter grid: a fixed square of single characters addressed by
//! (column, row). The grid is glue around the dictionary, with a plain
//! read/write contract and no game logic of its own.

use vstd::prelude::*;

verus! {

/// The grid's side length.
pub const SIZE: usize = 5;

/// A position on the board: column first, then row.
#[derive(Clone, Copy, Debug)]
pub struct Point(pub usize, pub usize);

impl Point {
    /// A point from its column and row.
    pub fn new(x: usize, y: usize) -> (p: Point)
        ensures
            p.0 == x,
            p.1 == y,
    {
        Point(x, y)
    }

    /// The point a row-major cell index denotes on a grid of side `size`.
    pub fn from_index(index: usize, size: usize) -> (p: Point)
        requires
            size > 0,
        ensures
            p.0 == index % size,
            p.1 == index / size,
    {
        Point(index % size, index / size)
    }

    /// The row-major cell index of this point on a grid of side `size`.
    pub fn to_index(&self, size: usize) -> (r: usize)
        requires
            self.1 * size + self.0 <= usize::MAX,
        ensures
            r == self.1 * size + self.0,
    {
        self.1 * size + self.0
    }
}

/// The square grid of letters, stored row-major.
#[derive(Debug)]
pub struct Board {
    cells: Vec<char>,
}

impl View for Board {
    type V = Seq<char>;

    closed spec fn view(&self) -> Seq<char> {
        self.cells@
    }
}

impl Board {
    /// The grid holds exactly one character per cell.
    pub open spec fn wf(self) -> bool {
        self@.len() == SIZE * SIZE
    }

    /// Build a board from exactly `SIZE * SIZE` characters, row by row.
    pub fn from_chars(chars: &[char]) -> (b: Board)
        requires
            chars@.len() == SIZE * SIZE,
        ensures
            b.wf(),
            b@ == chars@,
    {
        let mut cells: Vec<char> = Vec::new();
        let n = chars.len();
        let mut i: usize = 0;
        while i < n
            invariant
                n == chars@.len(),
                i <= n,
                cells@ == chars@.subrange(0, i as int),
            decreases n - i,
        {
            cells.push(chars[i]);
            proof {
                assert(cells@ =~= chars@.subrange(0, i as int + 1));
            }
            i = i + 1;
        }
        proof {
            assert(cells@ =~= chars@);
        }
        Board { cells }
    }

    /// Write one cell.
    pub fn set(&mut self, position: Point, value: char)
        requires
            old(self).wf(),
            position.0 < SIZE,
            position.1 < SIZE,
        ensures
            final(self).wf(),
            final(self)@ == old(self)@.update(position.1 * SIZE + position.0, value),
    {
        let idx = position.1 * SIZE + position.0;
        self.cells.set(idx, value);
    }

    /// Read one cell.
    pub fn get(&self, position: Point) -> (c: char)
        requires
            self.wf(),
            position.0 < SIZE,
            position.1 < SIZE,
        ensures
            c == self@[position.1 * SIZE + position.0],
    {
        let idx = position.1 * SIZE + position.0;
        self.cells[idx]
    }
}

impl PartialEq for Board {
    /// Two boards are equal when every cell matches.
    fn eq(&self, other: &Board) -> (r: bool) {
        if self.cells.len() != other.cells.len() {
            return false;
        }
        let mut i: usize = 0;
        while i < self.cells.len()
            invariant
                i <= self.cells@.len(),
                self.cells@.len() == other.cells@.len(),
                forall|m: int| 0 <= m < i ==> self.cells@[m] == other.cells@[m],
            decreases self.cells@.len() - i,
        {
            if self.cells[i] != other.cells[i] {
                return false;
            }
            i = i + 1;
        }
        proof {
            assert(self.cells@ =~= other.cells@);
        }
        true
    }
}

impl vstd::std_specs::cmp::PartialEqSpecImpl for Board {
    open spec fn obeys_eq_spec() -> bool {
        true
    }

    open spec fn eq_spec(&self, other: &Board) -> bool {
        self@ == other@
    }
}

} // verus!
