use vstd::prelude::*;

verus! {

/// A square of the board, numbered 0 (a1) to 63 (h8), rank by rank.
#[derive(Copy, Clone, PartialEq, Eq, Structural, Debug)]
pub struct Square {
    pub idx: usize,
}

impl Square {
    pub open spec fn valid(self) -> bool {
        self.idx < 64
    }

    pub open spec fn spec_file(self) -> int {
        self.idx as int % 8
    }

    pub open spec fn spec_rank(self) -> int {
        self.idx as int / 8
    }

    /// The square with the given index.
    pub fn from_index(idx: usize) -> (r: Square)
        requires
            idx < 64,
        ensures
            r.idx == idx,
            r.valid(),
    {
        Square { idx }
    }

    pub fn from_coords(file: usize, rank: usize) -> (r: Square)
        requires
            file < 8,
            rank < 8,
        ensures
            r.idx == rank * 8 + file,
            r.valid(),
            r.spec_file() == file,
            r.spec_rank() == rank,
    {
        Square { idx: rank * 8 + file }
    }

    pub fn file(&self) -> (r: usize)
        ensures
            r == self.spec_file(),
    {
        self.idx % 8
    }

    pub fn rank(&self) -> (r: usize)
        ensures
            r == self.spec_rank(),
    {
        self.idx / 8
    }

    pub fn north(&self) -> (r: Square)
        requires
            self.idx + 8 < 64,
        ensures
            r.idx == self.idx + 8,
            r.valid(),
    {
        Square { idx: self.idx + 8 }
    }

    pub fn south(&self) -> (r: Square)
        requires
            8 <= self.idx < 64,
        ensures
            r.idx == self.idx - 8,
            r.valid(),
    {
        Square { idx: self.idx - 8 }
    }

    pub fn east(&self) -> (r: Square)
        requires
            self.idx + 1 < 64,
        ensures
            r.idx == self.idx + 1,
            r.valid(),
    {
        Square { idx: self.idx + 1 }
    }

    pub fn west(&self) -> (r: Square)
        requires
            1 <= self.idx < 64,
        ensures
            r.idx == self.idx - 1,
            r.valid(),
    {
        Square { idx: self.idx - 1 }
    }

    pub fn northeast(&self) -> (r: Square)
        requires
            self.idx + 9 < 64,
        ensures
            r.idx == self.idx + 9,
            r.valid(),
    {
        Square { idx: self.idx + 9 }
    }

    pub fn northwest(&self) -> (r: Square)
        requires
            self.idx + 7 < 64,
        ensures
            r.idx == self.idx + 7,
            r.valid(),
    {
        Square { idx: self.idx + 7 }
    }

    pub fn southeast(&self) -> (r: Square)
        requires
            7 <= self.idx < 64,
        ensures
            r.idx == self.idx - 7,
            r.valid(),
    {
        Square { idx: self.idx - 7 }
    }

    pub fn southwest(&self) -> (r: Square)
        requires
            9 <= self.idx < 64,
        ensures
            r.idx == self.idx - 9,
            r.valid(),
    {
        Square { idx: self.idx - 9 }
    }

    /// Whether the square is a light square (a1 is dark, b1 is light).
    pub fn is_white(&self) -> (r: bool)
        ensures
            r == (self.idx as int % 2 != self.spec_rank() % 2),
    {
        (self.idx % 2) != ((self.idx / 8) % 2)
    }

    /// King-move (Chebyshev) distance between two squares.
    pub fn distance(&self, other: Square) -> (r: usize)
        requires
            self.valid(),
            other.valid(),
        ensures
            r == spec_max(
                spec_abs(self.spec_file() - other.spec_file()),
                spec_abs(self.spec_rank() - other.spec_rank()),
            ),
            r < 8,
    {
        let df = if self.idx % 8 >= other.idx % 8 {
            self.idx % 8 - other.idx % 8
        } else {
            other.idx % 8 - self.idx % 8
        };
        let r1 = self.idx / 8;
        let r2 = other.idx / 8;
        let dr = if r1 >= r2 {
            r1 - r2
        } else {
            r2 - r1
        };
        if df >= dr {
            df
        } else {
            dr
        }
    }
}

pub open spec fn spec_abs(x: int) -> int {
    if x < 0 {
        -x
    } else {
        x
    }
}

pub open spec fn spec_max(a: int, b: int) -> int {
    if a >= b {
        a
    } else {
        b
    }
}

} // verus!
