use crate::coord::{adjacent, lemma_neighbours_are_adjacent, neighbours_of, on_grid};
use vstd::prelude::*;

verus! {

/// The values of the 81 cells of a grid; `None` is a cell without a value.
/// The cell of column `x` and row `y` stands at index `9 * x + y`: the order of
/// the board is the row-major order of the array `Graph::cells`, first
/// `cells[0][0]`, then `cells[0][1]`, and `cells[8][8]` last.
pub type Board = Seq<Option<u8>>;

/// The index at which a board holds the cell `p`.
pub open spec fn index_of(p: (int, int)) -> int {
    9 * p.0 + p.1
}

/// The cell that a board holds at index `k`.
pub open spec fn cell_of(k: int) -> (int, int) {
    (k / 9, k % 9)
}

/// A board has 81 cells, and each value on it is a digit from 1 to 9.
pub open spec fn valid_board(b: Board) -> bool {
    &&& b.len() == 81
    &&& forall|k: int| 0 <= k < 81 ==> (#[trigger] b[k] matches Some(v) ==> 1 <= v <= 9)
}

/// Every cell has a value.
pub open spec fn is_full(b: Board) -> bool {
    forall|k: int| 0 <= k < 81 ==> #[trigger] b[k] is Some
}

/// Every cell holds a digit from 1 to 9.
pub open spec fn holds_digits(b: Board) -> bool {
    forall|k: int| 0 <= k < 81 ==> (#[trigger] b[k]) is Some && 1 <= b[k].unwrap() <= 9
}

/// No two adjacent cells hold the same value.
pub open spec fn consistent(b: Board) -> bool {
    forall|j: int, k: int|
        0 <= j < 81 && 0 <= k < 81 && adjacent(cell_of(j), cell_of(k)) && b[j] is Some ==> b[j]
            != b[k]
}

/// A completed puzzle: every cell holds a digit and no two adjacent cells agree.
pub open spec fn is_solution(b: Board) -> bool {
    valid_board(b) && is_full(b) && consistent(b)
}

/// `b` keeps every value that `a` holds.
pub open spec fn extends(a: Board, b: Board) -> bool {
    &&& a.len() == b.len()
    &&& forall|k: int| 0 <= k < a.len() && #[trigger] a[k] is Some ==> b[k] == a[k]
}

/// Any two adjacent cells that agree on `b` held their values on `a` already:
/// the values that `b` adds to `a` clash with nothing.
pub open spec fn adds_no_clash(a: Board, b: Board) -> bool {
    forall|j: int, k: int|
        0 <= j < 81 && 0 <= k < 81 && adjacent(cell_of(j), cell_of(k)) && b[j] is Some && b[j]
            == b[k] ==> a[j] is Some && a[k] is Some
}

/// Some cell of the list `cells` holds `v`.
pub open spec fn held_by(b: Board, cells: Seq<(int, int)>, v: u8) -> bool {
    exists|i: int| 0 <= i < cells.len() && #[trigger] b[index_of(cells[i])] == Some(v)
}

/// The digits from 1 to `d`, in rising order, that no cell of `cells` holds.
pub open spec fn free_digits(b: Board, cells: Seq<(int, int)>, d: int) -> Seq<u8>
    decreases d,
{
    if d <= 0 {
        Seq::empty()
    } else if held_by(b, cells, d as u8) {
        free_digits(b, cells, d - 1)
    } else {
        free_digits(b, cells, d - 1).push(d as u8)
    }
}

/// The values that the cell `p` may still take: the digits that none of its
/// neighbours holds, in rising order.
pub open spec fn candidates(b: Board, p: (int, int)) -> Seq<u8> {
    free_digits(b, neighbours_of(p), 9)
}

/// The sequence is strictly rising.
pub open spec fn rising(s: Seq<u8>) -> bool {
    forall|i: int, j: int| 0 <= i < j < s.len() ==> s[i] < s[j]
}

/// What `free_digits` holds: each digit up to `d` that is not held, and nothing
/// else, in rising order.
pub proof fn lemma_free_digits(b: Board, cells: Seq<(int, int)>, d: int)
    requires
        0 <= d <= 9,
    ensures
        rising(free_digits(b, cells, d)),
        free_digits(b, cells, d).len() <= d,
        forall|v: u8| #[trigger]
            free_digits(b, cells, d).contains(v) <==> 1 <= v <= d && !held_by(b, cells, v),
    decreases d,
{
    let all = free_digits(b, cells, d);
    if d > 0 {
        lemma_free_digits(b, cells, d - 1);
        let rest = free_digits(b, cells, d - 1);
        if !held_by(b, cells, d as u8) {
            assert(all == rest.push(d as u8));
            assert forall|i: int, j: int| 0 <= i < j < all.len() implies all[i] < all[j] by {
                assert(rest.contains(rest[i]));
            }
            assert forall|v: u8| all.contains(v) <==> 1 <= v <= d && !held_by(b, cells, v) by {
                if all.contains(v) {
                    let i = choose|i: int| 0 <= i < all.len() && all[i] == v;
                    if i < rest.len() {
                        assert(rest.contains(rest[i]));
                    }
                }
                if 1 <= v <= d && !held_by(b, cells, v) {
                    if v == d {
                        assert(all[rest.len() as int] == v);
                    } else {
                        assert(rest.contains(v));
                        let i = choose|i: int| 0 <= i < rest.len() && rest[i] == v;
                        assert(all[i] == v);
                    }
                }
            }
        }
    } else {
        assert forall|v: u8| !all.contains(v) by {}
    }
}

/// A rising sequence of digits that holds exactly the digits up to `d` which are
/// not held is `free_digits`.
pub proof fn lemma_free_digits_unique(b: Board, cells: Seq<(int, int)>, d: int, s: Seq<u8>)
    requires
        0 <= d <= 9,
        rising(s),
        forall|v: u8| #[trigger] s.contains(v) <==> 1 <= v <= d && !held_by(b, cells, v),
    ensures
        s == free_digits(b, cells, d),
    decreases d,
{
    if d == 0 {
        if s.len() > 0 {
            assert(s.contains(s[0]));
        }
        assert(s =~= Seq::empty());
    } else if held_by(b, cells, d as u8) {
        assert forall|v: u8| s.contains(v) <==> 1 <= v <= d - 1 && !held_by(b, cells, v) by {}
        lemma_free_digits_unique(b, cells, d - 1, s);
    } else {
        assert(s.contains(d as u8));
        let i = choose|i: int| 0 <= i < s.len() && s[i] == d as u8;
        if i < s.len() - 1 {
            assert(s.contains(s[s.len() - 1]));
        }
        let front = s.drop_last();
        assert forall|v: u8| front.contains(v) <==> 1 <= v <= d - 1 && !held_by(b, cells, v) by {
            if front.contains(v) {
                let j = choose|j: int| 0 <= j < front.len() && front[j] == v;
                assert(s[j] == v);
                assert(s.contains(v));
            }
            if 1 <= v <= d - 1 && !held_by(b, cells, v) {
                assert(s.contains(v));
                let j = choose|j: int| 0 <= j < s.len() && s[j] == v;
                assert(front[j] == v);
            }
        }
        lemma_free_digits_unique(b, cells, d - 1, front);
        assert(s =~= front.push(d as u8));
    }
}

/// No cell adjacent to `p` holds `v`.
pub open spec fn clear_of(b: Board, p: (int, int), v: u8) -> bool {
    forall|k: int| 0 <= k < 81 && adjacent(p, cell_of(k)) ==> #[trigger] b[k] != Some(v)
}

/// The candidates of a cell are the digits that no adjacent cell holds.
pub proof fn lemma_candidates(b: Board, p: (int, int))
    requires
        on_grid(p),
        b.len() == 81,
    ensures
        rising(candidates(b, p)),
        candidates(b, p).len() <= 9,
        forall|v: u8| #[trigger] candidates(b, p).contains(v) <==> 1 <= v <= 9 && clear_of(b, p, v),
{
    let cells = neighbours_of(p);
    lemma_free_digits(b, cells, 9);
    assert forall|v: u8| held_by(b, cells, v) <==> !clear_of(b, p, v) by {
        if held_by(b, cells, v) {
            let i = choose|i: int|
                0 <= i < cells.len() && #[trigger] b[index_of(cells[i])] == Some(v);
            assert(cells.contains(cells[i]));
            lemma_neighbours_are_adjacent(p, cells[i]);
            assert(cell_of(index_of(cells[i])) == cells[i]);
        }
        if !clear_of(b, p, v) {
            let k = choose|k: int|
                0 <= k < 81 && adjacent(p, cell_of(k)) && #[trigger] b[k] == Some(v);
            lemma_neighbours_are_adjacent(p, cell_of(k));
            let i = choose|i: int| 0 <= i < cells.len() && cells[i] == cell_of(k);
            assert(index_of(cells[i]) == k);
            assert(b[index_of(cells[i])] == Some(v));
        }
    }
}

/// The value that a solution of a board gives to a cell is one of the
/// candidates of that cell on the board.
pub proof fn lemma_solution_value(b: Board, s: Board, k: int)
    requires
        valid_board(b),
        is_solution(s),
        extends(b, s),
        0 <= k < 81,
    ensures
        candidates(b, cell_of(k)).contains(s[k].unwrap()),
{
    let p = cell_of(k);
    let w = s[k].unwrap();
    lemma_candidates(b, p);
    assert forall|j: int| 0 <= j < 81 && adjacent(p, cell_of(j)) implies #[trigger] b[j] != Some(
        w,
    ) by {
        if b[j] == Some(w) {
            assert(s[j] == s[k]);
        }
    }
    assert(clear_of(b, p, w));
}

/// `b` arises from `a` by adding values that clash with nothing.
pub open spec fn follows(a: Board, b: Board) -> bool {
    valid_board(b) && extends(a, b) && adds_no_clash(a, b)
}

/// `follows` is transitive.
pub proof fn lemma_follows_trans(a: Board, b: Board, c: Board)
    requires
        follows(a, b),
        follows(b, c),
    ensures
        follows(a, c),
{
    lemma_extends_trans(a, b, c);
    assert forall|j: int, k: int|
        0 <= j < 81 && 0 <= k < 81 && adjacent(cell_of(j), cell_of(k)) && c[j] is Some && c[j]
            == c[k] implies a[j] is Some && a[k] is Some by {
        assert(b[j] is Some && b[k] is Some);
    }
}

/// A board follows from itself.
pub proof fn lemma_follows_refl(b: Board)
    requires
        valid_board(b),
    ensures
        follows(b, b),
{
}

/// A blank cell that takes a digit which no adjacent cell holds gives a board
/// that follows from the old one, with one blank less.
pub proof fn lemma_place(b: Board, k: int, v: u8)
    requires
        valid_board(b),
        0 <= k < 81,
        b[k] is None,
        1 <= v <= 9,
        clear_of(b, cell_of(k), v),
    ensures
        follows(b, b.update(k, Some(v))),
        blanks(b.update(k, Some(v))) < blanks(b),
{
    let after = b.update(k, Some(v));
    assert(after[k] != b[k]);
    assert forall|i: int, j: int|
        0 <= i < 81 && 0 <= j < 81 && adjacent(cell_of(i), cell_of(j)) && after[i] is Some
            && after[i] == after[j] implies b[i] is Some && b[j] is Some by {
        if i == k {
            assert(b[j] != Some(v));
        } else if j == k {
            assert(adjacent(cell_of(k), cell_of(i)));
            assert(b[i] != Some(v));
        }
    }
    lemma_blanks(b, after);
}

/// A result that follows from a consistent board is a solution.
pub proof fn lemma_follows_consistent(root: Board, s: Board)
    requires
        valid_board(root),
        consistent(root),
        follows(root, s),
        is_full(s),
    ensures
        is_solution(s),
{
    assert forall|j: int, k: int|
        0 <= j < 81 && 0 <= k < 81 && adjacent(cell_of(j), cell_of(k)) && s[j] is Some implies s[j]
        != s[k] by {
        if s[j] == s[k] {
            assert(root[j] is Some && root[k] is Some);
            assert(root[j] == s[j] && root[k] == s[k]);
        }
    }
}

/// The number of cells without a value among the first `n`.
pub open spec fn blanks_before(b: Board, n: int) -> nat
    decreases n,
{
    if n <= 0 {
        0
    } else {
        blanks_before(b, n - 1) + if b[n - 1] is None {
            1nat
        } else {
            0nat
        }
    }
}

/// The number of cells without a value.
pub open spec fn blanks(b: Board) -> nat {
    blanks_before(b, 81)
}

/// A board that keeps the values of another has no more blanks, and fewer if
/// it fills one of them.
pub proof fn lemma_blanks_before(a: Board, b: Board, n: int)
    requires
        extends(a, b),
        0 <= n <= a.len(),
    ensures
        blanks_before(b, n) <= blanks_before(a, n) <= n,
        (exists|k: int| 0 <= k < n && a[k] is None && b[k] is Some) ==> blanks_before(b, n)
            < blanks_before(a, n),
        (forall|k: int| 0 <= k < n ==> a[k] is Some) <==> blanks_before(a, n) == 0,
    decreases n,
{
    if n > 0 {
        lemma_blanks_before(a, b, n - 1);
        assert(a[n - 1] is Some ==> b[n - 1] is Some);
        if exists|k: int| 0 <= k < n && a[k] is None && b[k] is Some {
            let k = choose|k: int| 0 <= k < n && a[k] is None && b[k] is Some;
            if k < n - 1 {
                assert(blanks_before(b, n - 1) < blanks_before(a, n - 1));
            }
        }
        if blanks_before(a, n) == 0 {
            assert forall|k: int| 0 <= k < n implies a[k] is Some by {
                if k < n - 1 {
                    assert(blanks_before(a, n - 1) == 0);
                }
            }
        }
    }
}

/// `blanks` falls when values are added, and is zero on a full board only.
pub proof fn lemma_blanks(a: Board, b: Board)
    requires
        extends(a, b),
        a.len() == 81,
    ensures
        blanks(b) <= blanks(a) <= 81,
        a != b ==> blanks(b) < blanks(a),
        is_full(a) <==> blanks(a) == 0,
{
    lemma_blanks_before(a, b, 81);
    if a != b {
        if forall|k: int| 0 <= k < 81 ==> a[k] == b[k] {
            assert(a =~= b);
        }
        let k = choose|k: int| 0 <= k < 81 && a[k] != b[k];
        assert(a[k] is None && b[k] is Some);
    }
}

/// `extends` is reflexive and transitive.
pub proof fn lemma_extends_trans(a: Board, b: Board, c: Board)
    requires
        extends(a, b),
        extends(b, c),
    ensures
        extends(a, c),
        extends(a, a),
{
    assert forall|k: int| 0 <= k < a.len() && #[trigger] a[k] is Some implies c[k] == a[k] by {
        assert(b[k] is Some);
    }
}

} // verus!
