//! Integer coordinate pairs, hexagonal adjacency, and the diagonal
//! reflection used by the swap rule.

use vstd::prelude::*;

use crate::errors::GameError;

verus! {

/// A coordinate on a square board: both components must be below the board
/// size to be in bounds.
#[derive(Clone, Copy, Debug, PartialEq, Eq, Structural)]
pub struct Cell {
    pub x: usize,
    pub y: usize,
}

/// The six hexagonal neighbour offsets of `a`: (x-1,y), (x,y-1), (x+1,y-1),
/// (x+1,y), (x,y+1), (x-1,y+1).
pub open spec fn hex_adjacent(a: Cell, b: Cell) -> bool {
    let ax = a.x as int;
    let ay = a.y as int;
    let bx = b.x as int;
    let by = b.y as int;
    (bx == ax - 1 && by == ay) || (bx == ax && by == ay - 1) || (bx == ax + 1 && by == ay - 1)
        || (bx == ax + 1 && by == ay) || (bx == ax && by == ay + 1) || (bx == ax - 1 && by == ay
        + 1)
}

/// The in-bounds hex neighbours of `a`, in the order the executable code
/// yields them.
pub open spec fn neighbours_of(a: Cell, size: usize) -> Seq<Cell> {
    (if a.x > 0 {
        seq![Cell { x: (a.x - 1) as usize, y: a.y }]
    } else {
        Seq::<Cell>::empty()
    }) + (if a.y > 0 {
        seq![Cell { x: a.x, y: (a.y - 1) as usize }]
    } else {
        Seq::<Cell>::empty()
    }) + (if a.x + 1 < size && a.y > 0 {
        seq![Cell { x: (a.x + 1) as usize, y: (a.y - 1) as usize }]
    } else {
        Seq::<Cell>::empty()
    }) + (if a.x + 1 < size {
        seq![Cell { x: (a.x + 1) as usize, y: a.y }]
    } else {
        Seq::<Cell>::empty()
    }) + (if a.y + 1 < size {
        seq![Cell { x: a.x, y: (a.y + 1) as usize }]
    } else {
        Seq::<Cell>::empty()
    }) + (if a.x > 0 && a.y + 1 < size {
        seq![Cell { x: (a.x - 1) as usize, y: (a.y + 1) as usize }]
    } else {
        Seq::<Cell>::empty()
    })
}

impl Cell {
    /// Both coordinates lie below the board size.
    pub open spec fn in_bounds(self, size: int) -> bool {
        (self.x as int) < size && (self.y as int) < size
    }

    pub fn new(x: usize, y: usize) -> (r: Self)
        ensures
            r.x == x,
            r.y == y,
    {
        Self { x, y }
    }

    /// The hex neighbours of this cell that lie on a board of side
    /// `field_size`, or `OutOfBounds` when the cell itself does not.
    pub fn get_neighbours(&self, field_size: usize) -> (r: Result<Vec<Cell>, GameError>)
        ensures
            r is Ok <==> self.in_bounds(field_size as int),
            r matches Ok(v) ==> v@ == neighbours_of(*self, field_size),
            r is Err ==> r == Err::<Vec<Cell>, GameError>(GameError::OutOfBounds),
    {
        if !(self.x < field_size && self.y < field_size) {
            return Err(GameError::OutOfBounds);
        }
        let mut neighbours: Vec<Cell> = Vec::new();
        let (x, y) = (self.x, self.y);
        if x > 0 {
            neighbours.push(Cell { x: x - 1, y });
        }
        if y > 0 {
            neighbours.push(Cell { x, y: y - 1 });
        }
        if x + 1 < field_size && y > 0 {
            neighbours.push(Cell { x: x + 1, y: y - 1 });
        }
        if x + 1 < field_size {
            neighbours.push(Cell { x: x + 1, y });
        }
        if y + 1 < field_size {
            neighbours.push(Cell { x, y: y + 1 });
        }
        if x > 0 && y + 1 < field_size {
            neighbours.push(Cell { x: x - 1, y: y + 1 });
        }
        proof {
            assert(neighbours@ =~= neighbours_of(*self, field_size));
        }
        Ok(neighbours)
    }

    /// The reflection across the main diagonal, used by the swap rule.
    pub fn symm(&self) -> (r: Self)
        ensures
            r.x == self.y,
            r.y == self.x,
    {
        Self { x: self.y, y: self.x }
    }
}

/// Hex adjacency is a symmetric relation.
pub proof fn lemma_hex_adjacent_symmetric(a: Cell, b: Cell)
    ensures
        hex_adjacent(a, b) == hex_adjacent(b, a),
{
}

/// The neighbour list of an in-bounds cell holds exactly the in-bounds cells
/// hex-adjacent to it; in particular every listed cell is in bounds and is
/// not the cell itself.
#[verifier::rlimit(50)]
pub proof fn lemma_neighbours_iff(a: Cell, b: Cell, size: usize)
    requires
        a.in_bounds(size as int),
    ensures
        neighbours_of(a, size).contains(b) <==> (hex_adjacent(a, b) && b.in_bounds(size as int)),
        neighbours_of(a, size).contains(b) ==> b != a,
{
    let ns = neighbours_of(a, size);
    let i1: int = if a.x > 0 { 1 } else { 0 };
    let i2: int = i1 + if a.y > 0 { 1int } else { 0 };
    let i3: int = i2 + if a.x + 1 < size && a.y > 0 { 1int } else { 0 };
    let i4: int = i3 + if a.x + 1 < size { 1int } else { 0 };
    let i5: int = i4 + if a.y + 1 < size { 1int } else { 0 };
    if a.x > 0 {
        assert(ns[0] == Cell { x: (a.x - 1) as usize, y: a.y });
        assert(ns.contains(Cell { x: (a.x - 1) as usize, y: a.y }));
    }
    if a.y > 0 {
        assert(ns[i1] == Cell { x: a.x, y: (a.y - 1) as usize });
        assert(ns.contains(Cell { x: a.x, y: (a.y - 1) as usize }));
    }
    if a.x + 1 < size && a.y > 0 {
        assert(ns[i2] == Cell { x: (a.x + 1) as usize, y: (a.y - 1) as usize });
        assert(ns.contains(Cell { x: (a.x + 1) as usize, y: (a.y - 1) as usize }));
    }
    if a.x + 1 < size {
        assert(ns[i3] == Cell { x: (a.x + 1) as usize, y: a.y });
        assert(ns.contains(Cell { x: (a.x + 1) as usize, y: a.y }));
    }
    if a.y + 1 < size {
        assert(ns[i4] == Cell { x: a.x, y: (a.y + 1) as usize });
        assert(ns.contains(Cell { x: a.x, y: (a.y + 1) as usize }));
    }
    if a.x > 0 && a.y + 1 < size {
        assert(ns[i5] == Cell { x: (a.x - 1) as usize, y: (a.y + 1) as usize });
        assert(ns.contains(Cell { x: (a.x - 1) as usize, y: (a.y + 1) as usize }));
    }
}

/// The neighbour relation is symmetric: for in-bounds cells, `b` lies among
/// the neighbours of `a` exactly when `a` lies among the neighbours of `b`.
pub proof fn lemma_neighbours_symmetric(a: Cell, b: Cell, size: usize)
    requires
        a.in_bounds(size as int),
        b.in_bounds(size as int),
    ensures
        neighbours_of(a, size).contains(b) == neighbours_of(b, size).contains(a),
{
    lemma_neighbours_iff(a, b, size);
    lemma_neighbours_iff(b, a, size);
    lemma_hex_adjacent_symmetric(a, b);
}

/// An in-bounds cell has at most six neighbours, and at least two whenever
/// the board side is at least 2. (On a board of side 1 the single cell has
/// no neighbours at all.)
pub proof fn lemma_neighbours_count(a: Cell, size: usize)
    requires
        a.in_bounds(size as int),
    ensures
        neighbours_of(a, size).len() <= 6,
        size >= 2 ==> neighbours_of(a, size).len() >= 2,
{
}

} // verus!
