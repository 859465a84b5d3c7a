//! Grid coordinates and their neighborhoods.
use vstd::prelude::*;

verus! {

/// One grid position on the unbounded plane.
#[derive(Debug, Clone, Copy, PartialEq, Eq, Hash, Structural)]
pub struct Cell {
    pub x: i64,
    pub y: i64,
}

/// `n` is one of the eight cells horizontally, vertically or diagonally adjacent to `c`.
pub open spec fn is_neighbor(c: Cell, n: Cell) -> bool {
    &&& n != c
    &&& c.x - 1 <= n.x <= c.x + 1
    &&& c.y - 1 <= n.y <= c.y + 1
}

/// The cell's coordinates leave room for every neighbor in `i64`.
pub open spec fn has_room(c: Cell) -> bool {
    i64::MIN < c.x < i64::MAX && i64::MIN < c.y < i64::MAX
}

/// The eight neighbors of `c`, in row-major order over `x` then `y`, skipping `c`.
pub open spec fn neighbor_seq(c: Cell) -> Seq<Cell> {
    seq![
        Cell { x: (c.x - 1) as i64, y: (c.y - 1) as i64 },
        Cell { x: (c.x - 1) as i64, y: c.y },
        Cell { x: (c.x - 1) as i64, y: (c.y + 1) as i64 },
        Cell { x: c.x, y: (c.y - 1) as i64 },
        Cell { x: c.x, y: (c.y + 1) as i64 },
        Cell { x: (c.x + 1) as i64, y: (c.y - 1) as i64 },
        Cell { x: (c.x + 1) as i64, y: c.y },
        Cell { x: (c.x + 1) as i64, y: (c.y + 1) as i64 },
    ]
}

/// The enumeration lists each neighbor of `c` exactly once and nothing else;
/// in particular it never lists `c` itself.
pub proof fn lemma_neighbor_seq_exact(c: Cell)
    requires
        has_room(c),
    ensures
        neighbor_seq(c).len() == 8,
        neighbor_seq(c).no_duplicates(),
        !neighbor_seq(c).contains(c),
        forall|n: Cell| #[trigger] neighbor_seq(c).contains(n) <==> is_neighbor(c, n),
{
    let s = neighbor_seq(c);
    assert forall|n: Cell| #[trigger] s.contains(n) <==> is_neighbor(c, n) by {
        if is_neighbor(c, n) {
            let i: int = if n.x == c.x - 1 {
                if n.y == c.y - 1 { 0 } else if n.y == c.y { 1 } else { 2 }
            } else if n.x == c.x {
                if n.y == c.y - 1 { 3 } else { 4 }
            } else {
                if n.y == c.y - 1 { 5 } else if n.y == c.y { 6 } else { 7 }
            };
            assert(s[i] == n);
        }
        if s.contains(n) {
            let i = choose|i: int| 0 <= i < s.len() && s[i] == n;
            assert(0 <= i < 8);
        }
    }
    assert(!is_neighbor(c, c));
}

/// Whether `n` is one of the eight neighbors of `c`.
pub fn is_adjacent(c: &Cell, n: &Cell) -> (r: bool)
    ensures
        r == is_neighbor(*c, *n),
{
    let dx: i128 = n.x as i128 - c.x as i128;
    let dy: i128 = n.y as i128 - c.y as i128;
    (dx != 0 || dy != 0) && -1 <= dx && dx <= 1 && -1 <= dy && dy <= 1
}

impl Cell {
    /// Writes the eight neighbors of this cell into `neighbors`, in row-major
    /// order over `x` then `y`, skipping the cell itself.
    pub fn neighbors(&self, neighbors: &mut [Cell; 8])
        requires
            has_room(*self),
        ensures
            final(neighbors)@ == neighbor_seq(*self),
    {
        let (x, y) = (self.x, self.y);
        *neighbors = [
            Cell { x: x - 1, y: y - 1 },
            Cell { x: x - 1, y },
            Cell { x: x - 1, y: y + 1 },
            Cell { x, y: y - 1 },
            Cell { x, y: y + 1 },
            Cell { x: x + 1, y: y - 1 },
            Cell { x: x + 1, y },
            Cell { x: x + 1, y: y + 1 },
        ];
        assert(neighbors@ =~= neighbor_seq(*self));
    }
}

} // verus!
