use vstd::prelude::*;

verus! {

/// Whether the pair names a cell of the 9×9 grid.
pub open spec fn on_grid(p: (int, int)) -> bool {
    0 <= p.0 < 9 && 0 <= p.1 < 9
}

/// Two distinct cells that share a column, a row or a 3×3 block, and so must
/// hold different values.
pub open spec fn adjacent(a: (int, int), b: (int, int)) -> bool {
    a != b && (a.0 == b.0 || a.1 == b.1 || (a.0 / 3 == b.0 / 3 && a.1 / 3 == b.1 / 3))
}

/// The `k`-th index (`k` is 0 or 1) that lies in the same band of three as `i`
/// and differs from `i`.
pub open spec fn band_other(i: int, k: int) -> int {
    let base = 3 * (i / 3);
    if base + k < i {
        base + k
    } else {
        base + k + 1
    }
}

/// The `k`-th index (`k` below 8) of a line of nine that differs from `i`.
pub open spec fn line_other(i: int, k: int) -> int {
    if k < i {
        k
    } else {
        k + 1
    }
}

/// The four cells of the block of `p` that lie in neither its column nor its row.
pub open spec fn block_part(p: (int, int)) -> Seq<(int, int)> {
    Seq::new(4, |k: int| (band_other(p.0, k / 2), band_other(p.1, k % 2)))
}

/// The eight other cells of the row of `p`.
pub open spec fn row_part(p: (int, int)) -> Seq<(int, int)> {
    Seq::new(8, |k: int| (line_other(p.0, k), p.1))
}

/// The eight other cells of the column of `p`.
pub open spec fn column_part(p: (int, int)) -> Seq<(int, int)> {
    Seq::new(8, |k: int| (p.0, line_other(p.1, k)))
}

/// The neighbour list of the cell at `p`: the rest of its block, then the rest of
/// its row, then the rest of its column. Twenty entries, each cell once.
pub open spec fn neighbours_of(p: (int, int)) -> Seq<(int, int)> {
    block_part(p) + row_part(p) + column_part(p)
}

/// The neighbour list of a cell holds exactly the other cells of its column, its
/// row and its block.
pub proof fn lemma_neighbours_are_adjacent(p: (int, int), q: (int, int))
    requires
        on_grid(p),
    ensures
        neighbours_of(p).contains(q) <==> on_grid(q) && adjacent(p, q),
{
    let s = neighbours_of(p);
    assert(s.len() == 20);
    if s.contains(q) {
        let k = choose|k: int| 0 <= k < s.len() && s[k] == q;
        if k < 4 {
            assert(s[k] == block_part(p)[k]);
        } else if k < 12 {
            assert(s[k] == row_part(p)[k - 4]);
        } else {
            assert(s[k] == column_part(p)[k - 12]);
        }
    }
    if on_grid(q) && adjacent(p, q) {
        if q.1 == p.1 {
            let k = if q.0 < p.0 {
                q.0
            } else {
                q.0 - 1
            };
            assert(s[4 + k] == row_part(p)[k]);
            assert(s[4 + k] == q);
        } else if q.0 == p.0 {
            let k = if q.1 < p.1 {
                q.1
            } else {
                q.1 - 1
            };
            assert(s[12 + k] == column_part(p)[k]);
            assert(s[12 + k] == q);
        } else {
            let bx = 3 * (p.0 / 3);
            let by = 3 * (p.1 / 3);
            let kx = if q.0 < p.0 {
                q.0 - bx
            } else {
                q.0 - bx - 1
            };
            let ky = if q.1 < p.1 {
                q.1 - by
            } else {
                q.1 - by - 1
            };
            let k = 2 * kx + ky;
            assert(s[k] == block_part(p)[k]);
            assert(s[k] == q);
        }
    }
}

/// No cell occurs twice in a neighbour list.
pub proof fn lemma_neighbours_distinct(p: (int, int))
    requires
        on_grid(p),
    ensures
        neighbours_of(p).len() == 20,
        neighbours_of(p).no_duplicates(),
{
    let s = neighbours_of(p);
    assert forall|i: int, j: int| 0 <= i < s.len() && 0 <= j < s.len() && i != j implies s[i]
        != s[j] by {
        lemma_neighbour_entry(p, i);
        lemma_neighbour_entry(p, j);
    }
}

/// What stands at index `k` of a neighbour list.
pub proof fn lemma_neighbour_entry(p: (int, int), k: int)
    requires
        on_grid(p),
        0 <= k < 20,
    ensures
        neighbours_of(p).len() == 20,
        k < 4 ==> neighbours_of(p)[k] == (band_other(p.0, k / 2), band_other(p.1, k % 2)),
        4 <= k < 12 ==> neighbours_of(p)[k] == (line_other(p.0, k - 4), p.1),
        12 <= k ==> neighbours_of(p)[k] == (p.0, line_other(p.1, k - 12)),
        on_grid(neighbours_of(p)[k]),
{
    let s = neighbours_of(p);
    if k < 4 {
        assert(s[k] == block_part(p)[k]);
    } else if k < 12 {
        assert(s[k] == row_part(p)[k - 4]);
    } else {
        assert(s[k] == column_part(p)[k - 12]);
    }
}

/// A position on the grid: column `x` and row `y`, each below 9.
#[derive(Debug, Default)]
pub struct CellCoord {
    x: u8,
    y: u8,
}

impl View for CellCoord {
    type V = (int, int);

    closed spec fn view(&self) -> (int, int) {
        (self.x as int, self.y as int)
    }
}

impl Clone for CellCoord {
    fn clone(&self) -> (r: Self)
        ensures
            r@ == self@,
    {
        proof {
            use_type_invariant(self);
        }
        CellCoord { x: self.x, y: self.y }
    }
}

impl CellCoord {
    /// Every coordinate names a cell of the grid.
    #[verifier::type_invariant]
    pub open spec fn inv(&self) -> bool {
        on_grid(self@)
    }

    /// The coordinate of column `x`, row `y`.
    pub fn new(x: u8, y: u8) -> (r: CellCoord)
        requires
            x < 9,
            y < 9,
        ensures
            r@ == (x as int, y as int),
    {
        CellCoord { x: x, y: y }
    }

    /// The column.
    pub fn x(&self) -> (r: u8)
        ensures
            r == self@.0,
            r < 9,
    {
        proof {
            use_type_invariant(self);
        }
        self.x
    }

    /// The row.
    pub fn y(&self) -> (r: u8)
        ensures
            r == self@.1,
            r < 9,
    {
        proof {
            use_type_invariant(self);
        }
        self.y
    }
}

/// The coordinates that a list of `CellCoord` stands for.
pub open spec fn coords_view(s: Seq<CellCoord>) -> Seq<(int, int)> {
    s.map_values(|c: CellCoord| c@)
}

} // verus!
