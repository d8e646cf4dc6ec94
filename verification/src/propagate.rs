use crate::board::{
    blanks, candidates, cell_of, extends, follows, is_solution, lemma_blanks, lemma_candidates,
    lemma_follows_refl, lemma_follows_trans, lemma_place, lemma_solution_value, valid_board,
    Board,
};
use crate::coord::CellCoord;
use crate::grid::{lemma_assign, Graph};
use vstd::prelude::*;

verus! {

/// The cell at index `k` has no value and exactly one candidate.
pub open spec fn forced(b: Board, k: int) -> bool {
    b[k] is None && candidates(b, cell_of(k)).len() == 1
}

/// The board after a look at the cell at index `k`: a forced cell takes its
/// one candidate, any other cell stays as it is.
pub open spec fn settle(b: Board, k: int) -> Board {
    if forced(b, k) {
        b.update(k, Some(candidates(b, cell_of(k))[0]))
    } else {
        b
    }
}

/// The board after a look at the first `n` cells in turn. Each look sees the
/// values that the looks before it have set.
pub open spec fn sweep(b: Board, n: int) -> Board
    decreases n,
{
    if n <= 0 {
        b
    } else {
        settle(sweep(b, n - 1), n - 1)
    }
}

/// No cell is forced.
pub open spec fn stable(b: Board) -> bool {
    forall|k: int| 0 <= k < 81 ==> !#[trigger] forced(b, k)
}

/// The board after sweeps over all 81 cells, repeated until one of them
/// changes nothing.
pub open spec fn propagated(b: Board) -> Board
    decreases blanks(b),
    when valid_board(b)
    via propagated_terminates
{
    if sweep(b, 81) == b {
        b
    } else {
        propagated(sweep(b, 81))
    }
}

#[via_fn]
proof fn propagated_terminates(b: Board) {
    lemma_sweep(b, 81);
    lemma_blanks(b, sweep(b, 81));
}

/// A look at one cell adds at most one value, which clashes with nothing, and
/// changes the board exactly when the cell is forced.
pub proof fn lemma_settle(b: Board, k: int)
    requires
        valid_board(b),
        0 <= k < 81,
    ensures
        follows(b, settle(b, k)),
        forced(b, k) <==> settle(b, k) != b,
{
    if forced(b, k) {
        let c = candidates(b, cell_of(k));
        lemma_candidates(b, cell_of(k));
        assert(c.contains(c[0]));
        lemma_place(b, k, c[0]);
        assert(settle(b, k)[k] != b[k]);
    } else {
        lemma_follows_refl(b);
    }
}

/// A look at one cell keeps every solution of the board.
pub proof fn lemma_settle_keeps(b: Board, k: int, s: Board)
    requires
        valid_board(b),
        0 <= k < 81,
        is_solution(s),
        extends(b, s),
    ensures
        extends(settle(b, k), s),
{
    if forced(b, k) {
        let c = candidates(b, cell_of(k));
        lemma_solution_value(b, s, k);
        let i = choose|i: int| 0 <= i < c.len() && c[i] == s[k].unwrap();
        assert(i == 0);
    }
}

/// A sweep adds values that clash with nothing.
pub proof fn lemma_sweep(b: Board, n: int)
    requires
        valid_board(b),
        0 <= n <= 81,
    ensures
        follows(b, sweep(b, n)),
    decreases n,
{
    if n > 0 {
        lemma_sweep(b, n - 1);
        lemma_settle(sweep(b, n - 1), n - 1);
        lemma_follows_trans(b, sweep(b, n - 1), sweep(b, n));
    } else {
        lemma_follows_refl(b);
    }
}

/// A sweep keeps every solution of the board.
pub proof fn lemma_sweep_keeps(b: Board, n: int, s: Board)
    requires
        valid_board(b),
        0 <= n <= 81,
        is_solution(s),
        extends(b, s),
    ensures
        extends(sweep(b, n), s),
    decreases n,
{
    if n > 0 {
        lemma_sweep_keeps(b, n - 1, s);
        lemma_sweep(b, n - 1);
        lemma_settle_keeps(sweep(b, n - 1), n - 1, s);
    }
}

/// A sweep over a stable board changes nothing.
pub proof fn lemma_sweep_stable(b: Board, n: int)
    requires
        stable(b),
        0 <= n <= 81,
    ensures
        sweep(b, n) == b,
    decreases n,
{
    if n > 0 {
        lemma_sweep_stable(b, n - 1);
        assert(!forced(b, n - 1));
    }
}

/// A full sweep that changes nothing has changed nothing on its way.
proof fn lemma_sweep_idle(b: Board, n: int)
    requires
        valid_board(b),
        sweep(b, 81) == b,
        0 <= n <= 81,
    ensures
        sweep(b, n) == b,
    decreases 81 - n,
{
    if n < 81 {
        lemma_sweep_idle(b, n + 1);
        lemma_sweep(b, n);
        lemma_settle(sweep(b, n), n);
        let mid = sweep(b, n);
        assert(sweep(b, n + 1) == settle(mid, n));
        assert(extends(b, mid) && extends(mid, b));
        assert(mid =~= b);
    }
}

/// A board is stable exactly when a full sweep changes nothing.
pub proof fn lemma_stable_iff_idle(b: Board)
    requires
        valid_board(b),
    ensures
        stable(b) <==> sweep(b, 81) == b,
{
    if stable(b) {
        lemma_sweep_stable(b, 81);
    }
    if sweep(b, 81) == b {
        assert forall|k: int| 0 <= k < 81 implies !#[trigger] forced(b, k) by {
            lemma_sweep_idle(b, k);
            lemma_sweep_idle(b, k + 1);
            assert(sweep(b, k + 1) == settle(sweep(b, k), k));
            lemma_settle(b, k);
        }
    }
}

/// Propagation adds values that clash with nothing, and ends on a stable board.
pub proof fn lemma_propagated(b: Board)
    requires
        valid_board(b),
    ensures
        follows(b, propagated(b)),
        stable(propagated(b)),
    decreases blanks(b),
{
    let next = sweep(b, 81);
    lemma_sweep(b, 81);
    if next == b {
        lemma_stable_iff_idle(b);
    } else {
        lemma_blanks(b, next);
        lemma_propagated(next);
        lemma_follows_trans(b, next, propagated(next));
    }
}

/// Propagation keeps every solution of the board.
pub proof fn lemma_propagated_keeps(b: Board, s: Board)
    requires
        valid_board(b),
        is_solution(s),
        extends(b, s),
    ensures
        extends(propagated(b), s),
    decreases blanks(b),
{
    let next = sweep(b, 81);
    lemma_sweep(b, 81);
    if next != b {
        lemma_blanks(b, next);
        lemma_sweep_keeps(b, 81, s);
        lemma_propagated_keeps(next, s);
    }
}

/// Propagation is idempotent: run on its own result, it sets no further value.
pub proof fn lemma_propagated_idempotent(b: Board)
    requires
        valid_board(b),
    ensures
        propagated(propagated(b)) == propagated(b),
{
    lemma_propagated(b);
    lemma_stable_iff_idle(propagated(b));
}

/// Constraint propagation: sweeps over the cells in the order of the board and
/// gives each cell that has no value and exactly one candidate that candidate,
/// until a sweep sets nothing.
pub fn propagate(graph: &mut Graph)
    requires
        old(graph).wf(),
    ensures
        final(graph).wf(),
        final(graph)@ == propagated(old(graph)@),
        follows(old(graph)@, final(graph)@),
        stable(final(graph)@),
{
    proof {
        graph.lemma_valid();
    }
    let mut changed = true;
    while changed
        invariant
            graph.wf(),
            valid_board(graph@),
            propagated(graph@) == propagated(old(graph)@),
            !changed ==> sweep(graph@, 81) == graph@,
        decreases
                blanks(graph@) + if changed {
                    1nat
                } else {
                    0nat
                },
    {
        changed = false;
        let ghost start = graph@;
        for i in 0..9u8
            invariant
                graph.wf(),
                valid_board(start),
                graph@ == sweep(start, 9 * i),
                changed <==> graph@ != start,
        {
            for j in 0..9u8
                invariant
                    i < 9,
                    graph.wf(),
                    valid_board(start),
                    graph@ == sweep(start, 9 * i + j),
                    changed <==> graph@ != start,
            {
                let coords = CellCoord::new(i, j);
                let ghost k = 9 * i + j;
                let ghost cur = *graph;
                proof {
                    lemma_sweep(start, k);
                    lemma_settle(cur@, k);
                    cur.lemma_at(i as int, j as int);
                    lemma_candidates(cur@, cell_of(k));
                    assert(cur.cell_at(i as int, j as int).fits((i as int, j as int)));
                }
                if let Some(values) = graph.get_cell(&coords).get_possible_values(&*graph) {
                    if values.len() == 1 {
                        proof {
                            assert(values@.contains(values@[0]));
                        }
                        graph.get_cell_mutable(&coords).set_value(values[0]);
                        changed = true;
                        proof {
                            lemma_assign(&cur, &*graph, (i as int, j as int), values@[0]);
                            assert(graph@[k] is Some && start[k] is None);
                        }
                    }
                }
                assert(graph@ == settle(cur@, k));
            }
        }
        proof {
            lemma_sweep(start, 81);
            lemma_blanks(start, graph@);
        }
    }
    proof {
        lemma_propagated(old(graph)@);
    }
}

} // verus!
