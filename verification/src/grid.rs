use crate::board::{
    free_digits, held_by, holds_digits, index_of, is_full, lemma_free_digits_unique, rising,
    valid_board, Board,
};
use crate::coord::{
    adjacent, coords_view, lemma_neighbour_entry, lemma_neighbours_are_adjacent, neighbours_of,
    on_grid, CellCoord,
};
use vstd::prelude::*;

verus! {

/// One slot of the puzzle: its value, if it has one, and the cells it must
/// differ from.
#[derive(Debug)]
pub struct Cell {
    value: Option<u8>,
    neighbours: Vec<CellCoord>,
}

/// The 9×9 puzzle; `cells[x][y]` is the cell of column `x` and row `y`.
#[derive(Debug)]
pub struct Graph {
    pub cells: [[Cell; 9]; 9],
}

impl Default for Cell {
    /// A cell without a value and without neighbours.
    fn default() -> (r: Cell)
        ensures
            r.value() is None,
            r.neighbours() == Seq::<(int, int)>::empty(),
    {
        let r = Cell { value: None, neighbours: Vec::new() };
        assert(r.neighbours() =~= Seq::<(int, int)>::empty());
        r
    }
}

impl Clone for Cell {
    /// A copy with the same value and the same neighbour list.
    fn clone(&self) -> (r: Cell)
        ensures
            r.value() == self.value(),
            r.neighbours() == self.neighbours(),
    {
        let r = Cell { value: self.value, neighbours: self.neighbours.clone() };
        assert(r.neighbours() =~= self.neighbours());
        r
    }
}

impl Cell {
    /// The value of the cell.
    pub closed spec fn value(&self) -> Option<u8> {
        self.value
    }

    /// The cells that this cell must differ from, in the order of its list.
    pub closed spec fn neighbours(&self) -> Seq<(int, int)> {
        coords_view(self.neighbours@)
    }

    /// A cell can stand at `p`: its neighbour list is that of `p`, and its
    /// value, if any, is a digit from 1 to 9.
    pub open spec fn fits(&self, p: (int, int)) -> bool {
        &&& self.neighbours() == neighbours_of(p)
        &&& self.value() matches Some(v) ==> 1 <= v <= 9
    }

    /// The neighbour list of the cell at `position`: the cells of its block that
    /// lie in neither its column nor its row, then the rest of its row, then
    /// the rest of its column.
    pub fn calculate_neighbours(&self, position: &CellCoord) -> (neighbours: Vec<CellCoord>)
        ensures
            coords_view(neighbours@) == neighbours_of(position@),
            neighbours.len() == 20,
    {
        let (i, j) = (position.x(), position.y());
        let ghost p = position@;
        let ghost target = neighbours_of(p);
        let mut neighbours: Vec<CellCoord> = Vec::with_capacity(20);

        let global_x: u8 = i / 3;
        let global_y: u8 = j / 3;

        for x in (global_x * 3)..(global_x * 3 + 3)
            invariant
                p == (i as int, j as int),
                on_grid(p),
                target == neighbours_of(p),
                global_x == i / 3,
                global_y == j / 3,
                neighbours.len() == 2 * (x - global_x * 3 - if x > i {
                    1int
                } else {
                    0int
                }),
                forall|k: int|
                    0 <= k < neighbours.len() ==> (#[trigger] neighbours@[k])@ == target[k],
        {
            for y in (global_y * 3)..(global_y * 3 + 3)
                invariant
                    p == (i as int, j as int),
                    on_grid(p),
                    target == neighbours_of(p),
                    global_x == i / 3,
                    global_y == j / 3,
                    global_x * 3 <= x < global_x * 3 + 3,
                    neighbours.len() == 2 * (x - global_x * 3 - if x > i {
                        1int
                    } else {
                        0int
                    }) + if x != i {
                        y - global_y * 3 - if y > j {
                            1int
                        } else {
                            0int
                        }
                    } else {
                        0int
                    },
                    forall|k: int|
                        0 <= k < neighbours.len() ==> (#[trigger] neighbours@[k])@ == target[k],
            {
                if i != x && j != y {
                    proof {
                        lemma_neighbour_entry(p, neighbours.len() as int);
                    }
                    neighbours.push(CellCoord::new(x, y));
                }
            }
        }

        for x in 0..9u8
            invariant
                p == (i as int, j as int),
                on_grid(p),
                target == neighbours_of(p),
                neighbours.len() == 4 + x - if x > i {
                    1int
                } else {
                    0int
                },
                forall|k: int|
                    0 <= k < neighbours.len() ==> (#[trigger] neighbours@[k])@ == target[k],
        {
            if x != i {
                proof {
                    lemma_neighbour_entry(p, neighbours.len() as int);
                }
                neighbours.push(CellCoord::new(x, j));
            }
        }

        for y in 0..9u8
            invariant
                p == (i as int, j as int),
                on_grid(p),
                target == neighbours_of(p),
                neighbours.len() == 12 + y - if y > j {
                    1int
                } else {
                    0int
                },
                forall|k: int|
                    0 <= k < neighbours.len() ==> (#[trigger] neighbours@[k])@ == target[k],
        {
            if y != j {
                proof {
                    lemma_neighbour_entry(p, neighbours.len() as int);
                }
                neighbours.push(CellCoord::new(i, y));
            }
        }

        proof {
            lemma_neighbour_entry(p, 0);
            assert(coords_view(neighbours@) =~= target);
        }
        neighbours
    }

    /// The values that the cell may still take, if it has none: the digits from
    /// 1 to 9, in rising order, without those that its neighbours hold in
    /// `graph`. `None` for a cell that has a value.
    pub fn get_possible_values(&self, graph: &Graph) -> (r: Option<Vec<u8>>)
        ensures
            match r {
                None => self.value() is Some,
                Some(values) => self.value() is None && values@ == free_digits(
                    graph@,
                    self.neighbours(),
                    9,
                ),
            },
            r matches Some(values) ==> forall|i: int|
                0 <= i < values@.len() ==> !held_by(
                    graph@,
                    self.neighbours(),
                    #[trigger] values@[i],
                ),
    {
        if let None = self.get_value() {
            let neighbours = &self.neighbours;
            let ghost cells = self.neighbours();
            let mut values: Vec<u8> = vec![1u8, 2, 3, 4, 5, 6, 7, 8, 9];
            proof {
                assert forall|v: u8| #[trigger]
                    values@.contains(v) <==> 1 <= v <= 9 && !held_by(graph@, cells.take(0), v) by {
                    if 1 <= v <= 9 {
                        assert(values@[v - 1] == v);
                    }
                }
            }

            for k in 0..neighbours.len()
                invariant
                    neighbours == &self.neighbours,
                    cells == self.neighbours(),
                    cells.len() == neighbours.len(),
                    rising(values@),
                    forall|v: u8| #[trigger]
                        values@.contains(v) <==> 1 <= v <= 9 && !held_by(
                            graph@,
                            cells.take(k as int),
                            v,
                        ),
            {
                let n = &neighbours[k];
                let c = graph.get_cell(n);
                let ghost before = values@;
                proof {
                    use_type_invariant(n);
                    graph.lemma_at(n@.0, n@.1);
                    assert(cells[k as int] == n@);
                }
                if let Some(v) = c.get_value() {
                    remove_item(&mut values, v);
                }
                proof {
                    let short = cells.take(k as int);
                    let long = cells.take(k + 1);
                    let here = graph@[index_of(cells[k as int])];
                    assert forall|v: u8| held_by(graph@, long, v) <==> held_by(graph@, short, v)
                        || here == Some(v) by {
                        if held_by(graph@, long, v) {
                            let i = choose|i: int|
                                0 <= i < long.len() && #[trigger] graph@[index_of(long[i])]
                                    == Some(v);
                            if i < k {
                                assert(graph@[index_of(short[i])] == Some(v));
                            }
                        }
                        if held_by(graph@, short, v) {
                            let i = choose|i: int|
                                0 <= i < short.len() && #[trigger] graph@[index_of(short[i])]
                                    == Some(v);
                            assert(graph@[index_of(long[i])] == Some(v));
                        }
                        if here == Some(v) {
                            assert(graph@[index_of(long[k as int])] == Some(v));
                        }
                    }
                    assert forall|v: u8| #[trigger]
                        values@.contains(v) <==> 1 <= v <= 9 && !held_by(graph@, long, v) by {
                        assert(before.contains(v) <==> 1 <= v <= 9 && !held_by(graph@, short, v));
                    }
                }
            }
            proof {
                assert(cells.take(neighbours.len() as int) =~= cells);
                lemma_free_digits_unique(graph@, cells, 9, values@);
                assert forall|i: int| 0 <= i < values@.len() implies !held_by(
                    graph@,
                    cells,
                    #[trigger] values@[i],
                ) by {
                    assert(values@.contains(values@[i]));
                }
            }
            Some(values)
        } else {
            None
        }
    }

    /// The cells that this cell must differ from.
    pub fn get_neighbours(&self) -> (r: &Vec<CellCoord>)
        ensures
            coords_view(r@) == self.neighbours(),
    {
        &self.neighbours
    }

    /// The value of the cell, if it has one.
    pub fn get_value(&self) -> (r: Option<u8>)
        ensures
            r == self.value(),
    {
        self.value
    }

    /// Gives the cell the value `value`, a digit from 1 to 9.
    pub fn set_value(&mut self, value: u8)
        requires
            1 <= value <= 9,
        ensures
            final(self).value() == Some(value),
            final(self).neighbours() == old(self).neighbours(),
    {
        self.value = Some(value);
    }
}

/// Takes the first occurrence of `item` out of `values`, if there is one.
fn remove_item(values: &mut Vec<u8>, item: u8)
    ensures
        !old(values)@.contains(item) ==> final(values)@ == old(values)@,
        rising(old(values)@) ==> rising(final(values)@),
        rising(old(values)@) ==> forall|v: u8| #[trigger]
            final(values)@.contains(v) <==> old(values)@.contains(v) && v != item,
        old(values)@.contains(item) ==> exists|at: int|
            {
                &&& 0 <= at < old(values)@.len()
                &&& old(values)@[at] == item
                &&& forall|j: int| 0 <= j < at ==> old(values)@[j] != item
                &&& final(values)@ == old(values)@.remove(at)
            },
{
    let mut at: usize = 0;
    while at < values.len() && values[at] != item
        invariant
            *values == *old(values),
            at <= values.len(),
            forall|j: int| 0 <= j < at ==> values@[j] != item,
        decreases values.len() - at,
    {
        at += 1;
    }
    if at < values.len() {
        let ghost before = values@;
        values.remove(at);
        proof {
            let after = values@;
            assert(after == before.remove(at as int));
            if rising(before) {
                assert forall|v: u8| #[trigger]
                    after.contains(v) <==> before.contains(v) && v != item by {
                    if after.contains(v) {
                        let i = choose|i: int| 0 <= i < after.len() && after[i] == v;
                        if i < at {
                            assert(before[i] == v);
                        } else {
                            assert(before[i + 1] == v);
                        }
                    }
                    if before.contains(v) && v != item {
                        let i = choose|i: int| 0 <= i < before.len() && before[i] == v;
                        if i < at {
                            assert(after[i] == v);
                        } else {
                            assert(after[i - 1] == v);
                        }
                    }
                }
            }
        }
    } else {
        proof {
            if values@.contains(item) {
                let i = choose|i: int| 0 <= i < values@.len() && values@[i] == item;
                assert(false);
            }
        }
    }
}

/// Nine cells without value or neighbours.
fn empty_line() -> (line: [Cell; 9])
    ensures
        forall|y: int|
            0 <= y < 9 ==> (#[trigger] line[y]).value() is None,
{
    [
        Cell::default(),
        Cell::default(),
        Cell::default(),
        Cell::default(),
        Cell::default(),
        Cell::default(),
        Cell::default(),
        Cell::default(),
        Cell::default(),
    ]
}

impl View for Graph {
    type V = Board;

    /// The values of the cells, in the order of the board.
    open spec fn view(&self) -> Board {
        Seq::new(81, |k: int| self.cell_at(k / 9, k % 9).value())
    }
}

impl Clone for Graph {
    /// An independent copy of the whole grid: the same values and the same
    /// neighbour lists.
    fn clone(&self) -> (r: Graph)
        ensures
            r@ == self@,
            forall|x: int, y: int|
                0 <= x < 9 && 0 <= y < 9 ==> (#[trigger] r.cell_at(x, y)).neighbours()
                    == self.cell_at(x, y).neighbours(),
            self.wf() ==> r.wf(),
    {
        let r = Graph { cells: self.cells.clone() };
        proof {
            assert forall|x: int, y: int| 0 <= x < 9 && 0 <= y < 9 implies (#[trigger] r.cell_at(
                x,
                y,
            )).neighbours() == self.cell_at(x, y).neighbours() && r.cell_at(x, y).value()
                == self.cell_at(x, y).value() by {
                assert(cloned::<[Cell; 9]>(self.cells@[x], r.cells@[x]));
                assert(cloned::<Cell>(self.cells@[x]@[y], r.cells@[x]@[y]));
            }
            assert(r@ =~= self@);
        }
        r
    }
}

impl Graph {
    /// The cell of column `x` and row `y`.
    pub open spec fn cell_at(&self, x: int, y: int) -> Cell {
        self.cells[x][y]
    }

    /// Every cell carries the neighbour list of its own position, and every
    /// value is a digit from 1 to 9.
    pub open spec fn wf(&self) -> bool {
        forall|x: int, y: int|
            0 <= x < 9 && 0 <= y < 9 ==> (#[trigger] self.cell_at(x, y)).fits((x, y))
    }

    /// The board holds the value of the cell of column `x` and row `y` at index
    /// `9 * x + y`.
    pub proof fn lemma_at(&self, x: int, y: int)
        requires
            0 <= x < 9,
            0 <= y < 9,
        ensures
            self@.len() == 81,
            self@[index_of((x, y))] == self.cell_at(x, y).value(),
    {
    }

    /// The neighbour list of each cell of a well-formed grid holds exactly the
    /// other cells of its column, its row and its block.
    pub proof fn lemma_neighbours(&self, x: int, y: int, q: (int, int))
        requires
            self.wf(),
            0 <= x < 9,
            0 <= y < 9,
        ensures
            self.cell_at(x, y).neighbours().contains(q) <==> on_grid(q) && adjacent((x, y), q),
    {
        assert(self.cell_at(x, y).fits((x, y)));
        lemma_neighbours_are_adjacent((x, y), q);
    }

    /// The board of a well-formed grid is valid.
    pub proof fn lemma_valid(&self)
        requires
            self.wf(),
        ensures
            valid_board(self@),
    {
        assert forall|k: int| 0 <= k < 81 implies (#[trigger] self@[k] matches Some(v) ==> 1 <= v
            <= 9) by {
            assert(self.cell_at(k / 9, k % 9).fits((k / 9, k % 9)));
        }
    }

    /// The empty grid: no cell has a value, and each carries the neighbour list
    /// of its position.
    pub fn new() -> (graph: Graph)
        ensures
            graph.wf(),
            graph@ == Seq::new(81, |k: int| None::<u8>),
    {
        let mut graph = Graph {
            cells: [
                empty_line(),
                empty_line(),
                empty_line(),
                empty_line(),
                empty_line(),
                empty_line(),
                empty_line(),
                empty_line(),
                empty_line(),
            ],
        };

        for i in 0..9u8
            invariant
                forall|x: int, y: int|
                    0 <= x < 9 && 0 <= y < 9 ==> (#[trigger] graph.cell_at(x, y)).value() is None,
                forall|x: int, y: int|
                    0 <= x < i && 0 <= y < 9 ==> (#[trigger] graph.cell_at(x, y)).fits((x, y)),
        {
            for j in 0..9u8
                invariant
                    i < 9,
                    forall|x: int, y: int|
                        0 <= x < 9 && 0 <= y < 9 ==> (#[trigger] graph.cell_at(
                            x,
                            y,
                        )).value() is None,
                    forall|x: int, y: int|
                        0 <= x < i && 0 <= y < 9 ==> (#[trigger] graph.cell_at(x, y)).fits((x, y)),
                    forall|y: int|
                        0 <= y < j ==> (#[trigger] graph.cell_at(i as int, y)).fits(
                            (i as int, y),
                        ),
            {
                let coords = CellCoord::new(i, j);
                let cell = graph.get_cell_mutable(&coords);
                cell.neighbours = cell.calculate_neighbours(&coords);
            }
        }
        assert(graph@ =~= Seq::new(81, |k: int| None::<u8>));
        graph
    }

    /// Whether every cell has a value.
    pub fn is_filled(&mut self) -> (filled: bool)
        ensures
            *final(self) == *old(self),
            filled == is_full(old(self)@),
            old(self).wf() ==> filled == holds_digits(old(self)@),
    {
        for y in 0..9u8
            invariant
                *self == *old(self),
                forall|a: int, b: int|
                    0 <= a < 9 && 0 <= b < y ==> (#[trigger] self.cell_at(a, b)).value() is Some,
        {
            for x in 0..9u8
                invariant
                    y < 9,
                    *self == *old(self),
                    forall|a: int, b: int|
                        0 <= a < 9 && 0 <= b < y ==> (#[trigger] self.cell_at(
                            a,
                            b,
                        )).value() is Some,
                    forall|a: int|
                        0 <= a < x ==> (#[trigger] self.cell_at(a, y as int)).value() is Some,
            {
                if let None = self.get_cell(&CellCoord::new(x, y)).get_value() {
                    proof {
                        self.lemma_at(x as int, y as int);
                    }
                    return false;
                }
            }
        }
        proof {
            assert forall|k: int| 0 <= k < 81 implies #[trigger] self@[k] is Some by {
                assert(self.cell_at(k / 9, k % 9).value() is Some);
            }
            if self.wf() {
                self.lemma_valid();
            }
        }
        true
    }

    /// The cell at `coords`, to read.
    pub fn get_cell(&self, coords: &CellCoord) -> (cell: &Cell)
        ensures
            *cell == self.cell_at(coords@.0, coords@.1),
    {
        &self.cells[coords.x() as usize][coords.y() as usize]
    }

    /// The cell at `coords`, to change. No other cell of the grid changes.
    pub fn get_cell_mutable(&mut self, coords: &CellCoord) -> (cell: &mut Cell)
        ensures
            *cell == old(self).cell_at(coords@.0, coords@.1),
            final(self).cell_at(coords@.0, coords@.1) == *final(cell),
            forall|x: int, y: int|
                0 <= x < 9 && 0 <= y < 9 && (x, y) != coords@ ==> #[trigger] final(self).cell_at(
                    x,
                    y,
                ) == old(self).cell_at(x, y),
    {
        &mut self.cells[coords.x() as usize][coords.y() as usize]
    }
}

/// A grid in which one cell has taken a value and nothing else has changed
/// is well formed, and its board is the old one with that value set.
pub proof fn lemma_assign(before: &Graph, after: &Graph, coords: (int, int), value: u8)
    requires
        before.wf(),
        on_grid(coords),
        1 <= value <= 9,
        after.cell_at(coords.0, coords.1).value() == Some(value),
        after.cell_at(coords.0, coords.1).neighbours() == before.cell_at(
            coords.0,
            coords.1,
        ).neighbours(),
        forall|x: int, y: int|
            0 <= x < 9 && 0 <= y < 9 && (x, y) != coords ==> #[trigger] after.cell_at(x, y)
                == before.cell_at(x, y),
    ensures
        after.wf(),
        after@ == before@.update(index_of(coords), Some(value)),
{
    assert forall|x: int, y: int| 0 <= x < 9 && 0 <= y < 9 implies (#[trigger] after.cell_at(
        x,
        y,
    )).fits((x, y)) by {
        assert(before.cell_at(x, y).fits((x, y)));
    }
    assert forall|k: int| 0 <= k < 81 implies after@[k] == before@.update(
        index_of(coords),
        Some(value),
    )[k] by {
        if k != index_of(coords) {
            assert((k / 9, k % 9) != coords);
            assert(after.cell_at(k / 9, k % 9) == before.cell_at(k / 9, k % 9));
        }
    }
    assert(after@ =~= before@.update(index_of(coords), Some(value)));
}

} // verus!
