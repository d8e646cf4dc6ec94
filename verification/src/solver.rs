use crate::board::{
    blanks, candidates, cell_of, consistent, extends, follows, index_of, is_full, is_solution,
    lemma_blanks, lemma_candidates, lemma_follows_consistent, lemma_follows_refl,
    lemma_follows_trans, lemma_place, lemma_solution_value, valid_board, Board,
};
use crate::coord::{adjacent, on_grid, CellCoord};
use crate::grid::{lemma_assign, Graph};
use crate::propagate::{lemma_propagated, lemma_propagated_keeps, propagate, propagated};
use std::collections::VecDeque;
use vstd::prelude::*;

verus! {

/// The number of candidates of the cell at index `k`.
pub open spec fn choices(b: Board, k: int) -> int {
    candidates(b, cell_of(k)).len() as int
}

/// The cell at index `k` has no value and at least one candidate.
pub open spec fn open_cell(b: Board, k: int) -> bool {
    0 <= k < 81 && b[k] is None && choices(b, k) >= 1
}

/// The cell at index `k` is the one to branch on: among the cells without a
/// value that have a candidate it has the fewest candidates, and of those
/// with as few it stands last.
pub open spec fn is_branch_cell(b: Board, k: int) -> bool {
    &&& open_cell(b, k)
    &&& forall|j: int| #[trigger]
        open_cell(b, j) ==> choices(b, k) < choices(b, j) || (choices(b, k) == choices(b, j) && j
            <= k)
}

/// The boards that arise from `b` when the cell at index `k` takes each of
/// its candidates, the largest candidate first.
pub open spec fn children(b: Board, k: int) -> Seq<Board> {
    let c = candidates(b, cell_of(k));
    Seq::new(c.len(), |i: int| b.update(k, Some(c[c.len() - 1 - i])))
}

/// The boards to try in place of a board that propagation has left with
/// blanks: the children at its branch cell, or nothing where no cell without a
/// value has a candidate.
pub open spec fn branches(b: Board) -> Seq<Board> {
    if exists|k: int| is_branch_cell(b, k) {
        children(b, choose|k: int| is_branch_cell(b, k))
    } else {
        Seq::empty()
    }
}

/// An upper bound on the boards that a search below a board with `n` blanks
/// visits.
pub open spec fn bound(n: nat) -> nat
    decreases n,
{
    if n == 0 {
        1
    } else {
        10 * bound((n - 1) as nat)
    }
}

/// The sum of the bounds of the boards on a stack.
pub open spec fn weight(stack: Seq<Board>) -> nat
    decreases stack.len(),
{
    if stack.len() == 0 {
        0
    } else {
        bound(blanks(stack[0])) + weight(stack.drop_first())
    }
}

/// Every board on the stack is valid.
pub open spec fn valid_stack(stack: Seq<Board>) -> bool {
    forall|i: int| 0 <= i < stack.len() ==> valid_board(#[trigger] stack[i])
}

/// The result of the depth-first search from a stack of boards, whose top is
/// its first entry: the top is propagated; if that fills it, it is the result;
/// otherwise its branches take its place on the stack. `None` when the stack
/// runs empty.
pub open spec fn search(stack: Seq<Board>) -> Option<Board>
    decreases weight(stack),
    when valid_stack(stack)
    via search_terminates
{
    if stack.len() == 0 {
        None
    } else {
        let top = propagated(stack[0]);
        if is_full(top) {
            Some(top)
        } else {
            search(branches(top) + stack.drop_first())
        }
    }
}

#[via_fn]
proof fn search_terminates(stack: Seq<Board>) {
    if stack.len() != 0 {
        lemma_step(stack);
    }
}

/// `bound` is positive and rises with its argument.
pub proof fn lemma_bound(m: nat, n: nat)
    requires
        m <= n,
    ensures
        1 <= bound(m) <= bound(n),
    decreases n,
{
    if m < n {
        lemma_bound(m, (n - 1) as nat);
    } else if n > 0 {
        lemma_bound((m - 1) as nat, (n - 1) as nat);
    }
}

/// The weight of two stacks put together is the sum of their weights.
pub proof fn lemma_weight_add(a: Seq<Board>, b: Seq<Board>)
    ensures
        weight(a + b) == weight(a) + weight(b),
    decreases a.len(),
{
    if a.len() == 0 {
        assert(a + b =~= b);
    } else {
        lemma_weight_add(a.drop_first(), b);
        assert((a + b).drop_first() =~= a.drop_first() + b);
    }
}

/// A stack of at most `n` boards with at most `u` blanks each weighs at most
/// `n * bound(u)`.
proof fn lemma_weight_bounded(s: Seq<Board>, u: nat)
    requires
        forall|i: int| 0 <= i < s.len() ==> blanks(#[trigger] s[i]) <= u,
    ensures
        weight(s) <= s.len() * bound(u),
    decreases s.len(),
{
    if s.len() > 0 {
        let rest = s.drop_first();
        assert forall|i: int| 0 <= i < rest.len() implies blanks(#[trigger] rest[i]) <= u by {
            assert(rest[i] == s[i + 1]);
        }
        lemma_weight_bounded(rest, u);
        lemma_bound(blanks(s[0]), u);
        assert(s.len() * bound(u) == bound(u) + rest.len() * bound(u)) by (nonlinear_arith)
            requires
                s.len() == rest.len() + 1,
        ;
    }
}

/// What the children of a board are: each gives the cell one of its
/// candidates, which clashes with nothing.
pub proof fn lemma_children(b: Board, k: int)
    requires
        valid_board(b),
        0 <= k < 81,
        b[k] is None,
    ensures
        children(b, k).len() == choices(b, k),
        children(b, k).len() <= 9,
        forall|i: int|
            0 <= i < children(b, k).len() ==> {
                &&& follows(b, #[trigger] children(b, k)[i])
                &&& blanks(children(b, k)[i]) < blanks(b)
            },
{
    let p = cell_of(k);
    let c = candidates(b, p);
    lemma_candidates(b, p);
    assert forall|i: int| 0 <= i < children(b, k).len() implies {
        &&& follows(b, #[trigger] children(b, k)[i])
        &&& blanks(children(b, k)[i]) < blanks(b)
    } by {
        let v = c[c.len() - 1 - i];
        assert(children(b, k)[i] == b.update(k, Some(v)));
        assert(c.contains(v));
        lemma_place(b, k, v);
    }
}

/// A board has at most one branch cell, and has one as soon as some cell
/// without a value has a candidate.
pub proof fn lemma_branch_cell(b: Board)
    requires
        valid_board(b),
    ensures
        forall|j: int, k: int| is_branch_cell(b, j) && is_branch_cell(b, k) ==> j == k,
        (exists|k: int| open_cell(b, k)) ==> exists|k: int| is_branch_cell(b, k),
{
    if exists|k: int| open_cell(b, k) {
        let k0 = choose|k: int| open_cell(b, k);
        lemma_best_open_cell(b, 81, k0);
        let k = choose|k: int| is_best_before(b, 81, k);
        assert(is_branch_cell(b, k));
    }
}

/// The cell at index `k` is the branch cell among the first `n` cells.
pub open spec fn is_best_before(b: Board, n: int, k: int) -> bool {
    &&& open_cell(b, k)
    &&& k < n
    &&& forall|j: int| #[trigger]
        open_cell(b, j) && j < n ==> choices(b, k) < choices(b, j) || (choices(b, k) == choices(
            b,
            j,
        ) && j <= k)
}

proof fn lemma_best_open_cell(b: Board, n: int, k0: int)
    requires
        open_cell(b, k0),
        k0 < n <= 81,
    ensures
        exists|k: int| is_best_before(b, n, k),
    decreases n,
{
    let m = n - 1;
    if exists|j: int| open_cell(b, j) && j < m {
        let j0 = choose|j: int| open_cell(b, j) && j < m;
        lemma_best_open_cell(b, m, j0);
        let k = choose|k: int| is_best_before(b, m, k);
        if open_cell(b, m) && choices(b, m) <= choices(b, k) {
            assert(is_best_before(b, n, m));
        } else {
            assert(is_best_before(b, n, k));
        }
    } else {
        assert(k0 == n - 1);
        assert(is_best_before(b, n, k0));
    }
}

/// The branches of a valid board that has blanks weigh less than the board.
pub proof fn lemma_branches(b: Board)
    requires
        valid_board(b),
        !is_full(b),
    ensures
        valid_stack(branches(b)),
        weight(branches(b)) < bound(blanks(b)),
        forall|i: int| 0 <= i < branches(b).len() ==> follows(b, #[trigger] branches(b)[i]),
{
    lemma_follows_refl(b);
    lemma_blanks(b, b);
    let u = blanks(b);
    lemma_bound(0, u);
    if exists|k: int| is_branch_cell(b, k) {
        let k = choose|k: int| is_branch_cell(b, k);
        lemma_children(b, k);
        let s = children(b, k);
        assert forall|i: int| 0 <= i < s.len() implies blanks(#[trigger] s[i]) <= (u
            - 1) as nat by {
            assert(follows(b, s[i]));
        }
        lemma_weight_bounded(s, (u - 1) as nat);
        assert(s.len() * bound((u - 1) as nat) <= 9 * bound((u - 1) as nat)) by (nonlinear_arith)
            requires
                s.len() <= 9,
        ;
        assert forall|i: int| 0 <= i < s.len() implies valid_board(#[trigger] s[i]) by {
            assert(follows(b, s[i]));
        }
    }
}

/// One step of the search: from a valid stack that is not empty, either the
/// propagated top is full, or the stack that takes its place is valid and
/// weighs less.
pub proof fn lemma_step(stack: Seq<Board>)
    requires
        valid_stack(stack),
        stack.len() > 0,
    ensures
        valid_board(propagated(stack[0])),
        follows(stack[0], propagated(stack[0])),
        !is_full(propagated(stack[0])) ==> {
            &&& valid_stack(branches(propagated(stack[0])) + stack.drop_first())
            &&& weight(branches(propagated(stack[0])) + stack.drop_first()) < weight(stack)
        },
{
    let top = propagated(stack[0]);
    let rest = stack.drop_first();
    lemma_propagated(stack[0]);
    if !is_full(top) {
        lemma_branches(top);
        lemma_weight_add(branches(top), rest);
        lemma_blanks(stack[0], top);
        lemma_bound(blanks(top), blanks(stack[0]));
        let next = branches(top) + rest;
        assert forall|i: int| 0 <= i < next.len() implies valid_board(#[trigger] next[i]) by {
            if i < branches(top).len() {
                assert(next[i] == branches(top)[i]);
            } else {
                assert(next[i] == stack[i - branches(top).len() + 1]);
            }
        }
    }
}

/// Every solution of a board that has blanks is a solution of one of its
/// branches.
pub proof fn lemma_branches_keep(b: Board, s: Board)
    requires
        valid_board(b),
        !is_full(b),
        is_solution(s),
        extends(b, s),
    ensures
        exists|i: int| 0 <= i < branches(b).len() && extends(#[trigger] branches(b)[i], s),
{
    let k0 = choose|k: int| 0 <= k < 81 && b[k] is None;
    lemma_solution_value(b, s, k0);
    assert(open_cell(b, k0));
    lemma_branch_cell(b);
    let k = choose|k: int| is_branch_cell(b, k);
    lemma_solution_value(b, s, k);
    let c = candidates(b, cell_of(k));
    let w = s[k].unwrap();
    let i = choose|i: int| 0 <= i < c.len() && c[i] == w;
    let j = c.len() - 1 - i;
    assert(branches(b)[j] == b.update(k, Some(w)));
    assert(extends(branches(b)[j], s));
}

/// Soundness of the search: where every board on the stack follows from
/// `root`, so does the result, and the result is full.
pub proof fn lemma_search_sound(stack: Seq<Board>, root: Board)
    requires
        forall|i: int| 0 <= i < stack.len() ==> follows(root, #[trigger] stack[i]),
    ensures
        search(stack) matches Some(s) ==> is_full(s) && follows(root, s),
    decreases weight(stack),
{
    if stack.len() > 0 {
        assert(valid_stack(stack)) by {
            assert forall|i: int| 0 <= i < stack.len() implies valid_board(#[trigger] stack[i]) by {
                assert(follows(root, stack[i]));
            }
        }
        lemma_step(stack);
        let top = propagated(stack[0]);
        lemma_follows_trans(root, stack[0], top);
        if !is_full(top) {
            let next = branches(top) + stack.drop_first();
            lemma_branches(top);
            assert forall|i: int| 0 <= i < next.len() implies follows(root, #[trigger] next[i]) by {
                if i < branches(top).len() {
                    assert(next[i] == branches(top)[i]);
                    lemma_follows_trans(root, top, branches(top)[i]);
                } else {
                    assert(next[i] == stack[i - branches(top).len() + 1]);
                }
            }
            lemma_search_sound(next, root);
        }
    }
}

/// Completeness of the search: where a solution keeps the values of some
/// board on the stack, the search finds a result.
pub proof fn lemma_search_complete(stack: Seq<Board>, s: Board)
    requires
        valid_stack(stack),
        is_solution(s),
        exists|i: int| 0 <= i < stack.len() && extends(#[trigger] stack[i], s),
    ensures
        search(stack) is Some,
    decreases weight(stack),
{
    lemma_step(stack);
    let top = propagated(stack[0]);
    if !is_full(top) {
        let fresh = branches(top);
        let next = fresh + stack.drop_first();
        let i = choose|i: int| 0 <= i < stack.len() && extends(#[trigger] stack[i], s);
        if i == 0 {
            lemma_propagated_keeps(stack[0], s);
            lemma_branches_keep(top, s);
            let j = choose|j: int| 0 <= j < fresh.len() && extends(#[trigger] fresh[j], s);
            assert(next[j] == fresh[j]);
        } else {
            assert(next[fresh.len() + i - 1] == stack[i]);
        }
        lemma_search_complete(next, s);
    }
}

/// A puzzle with exactly one solution: the search finds that solution.
pub proof fn lemma_search_unique(b: Board, s: Board)
    requires
        valid_board(b),
        is_solution(s),
        extends(b, s),
        forall|t: Board| is_solution(t) && extends(b, t) ==> t == s,
    ensures
        search(seq![b]) == Some(s),
{
    let root = seq![b];
    assert(extends(root[0], s));
    lemma_follows_refl(b);
    lemma_search_complete(root, s);
    lemma_search_sound(root, b);
    assert forall|j: int, k: int|
        0 <= j < 81 && 0 <= k < 81 && adjacent(cell_of(j), cell_of(k)) && b[j] is Some implies b[j]
        != b[k] by {
        if b[j] == b[k] {
            assert(s[j] == b[j] && s[k] == b[k]);
        }
    }
    lemma_follows_consistent(b, search(root).unwrap());
}

/// The board without values.
pub open spec fn empty_board() -> Board {
    Seq::new(81, |k: int| None::<u8>)
}

/// A full board made by a rule: each row is the first row, shifted by three
/// for the next row of a band and by one for the next band.
pub open spec fn shifted_board() -> Board {
    Seq::new(81, |k: int| Some(((3 * ((k % 9) % 3) + (k % 9) / 3 + k / 9) % 9 + 1) as u8))
}

/// There is a solution of the empty board: the shifted board is one. So the
/// search finds a solution of the empty board.
pub proof fn lemma_empty_board_has_solution()
    ensures
        is_solution(shifted_board()),
        extends(empty_board(), shifted_board()),
        search(seq![empty_board()]) matches Some(s) && is_solution(s),
{
    let s = shifted_board();
    assert forall|j: int, k: int|
        0 <= j < 81 && 0 <= k < 81 && adjacent(cell_of(j), cell_of(k)) && s[j] is Some implies s[j]
        != s[k] by {
        let a = 3 * ((j % 9) % 3) + (j % 9) / 3 + j / 9;
        let b = 3 * ((k % 9) % 3) + (k % 9) / 3 + k / 9;
        assert(a % 9 != b % 9);
    }
    let root = seq![empty_board()];
    assert(valid_board(empty_board()));
    assert(consistent(empty_board()));
    assert(extends(root[0], s));
    lemma_follows_refl(empty_board());
    lemma_search_complete(root, s);
    lemma_search_sound(root, empty_board());
    lemma_follows_consistent(empty_board(), search(root).unwrap());
}

/// The boards of the grids on a stack.
pub open spec fn boards(stack: Seq<Graph>) -> Seq<Board> {
    stack.map_values(|g: Graph| g@)
}

/// Every grid on the stack is well formed.
pub open spec fn wf_stack(stack: Seq<Graph>) -> bool {
    forall|i: int| 0 <= i < stack.len() ==> (#[trigger] stack[i]).wf()
}

proof fn lemma_wf_stack(stack: Seq<Graph>)
    requires
        wf_stack(stack),
    ensures
        valid_stack(boards(stack)),
{
    assert forall|i: int| 0 <= i < boards(stack).len() implies valid_board(
        #[trigger] boards(stack)[i],
    ) by {
        stack[i].lemma_valid();
    }
}

/// The cell to branch on: of the cells without a value that have a candidate,
/// the one with the fewest candidates, and the last of those in the order of
/// the columns. `None` where no cell without a value has a candidate.
pub fn most_constrained_cell(graph: &Graph) -> (r: Option<(u8, u8)>)
    requires
        graph.wf(),
    ensures
        match r {
            Some((x, y)) => x < 9 && y < 9 && is_branch_cell(
                graph@,
                index_of((x as int, y as int)),
            ),
            None => forall|k: int| !open_cell(graph@, k),
        },
{
    let mut smallest: (usize, Option<(u8, u8)>) = (10, None);
    proof {
        graph.lemma_valid();
    }
    for i in 0..9u8
        invariant
            graph.wf(),
            valid_board(graph@),
            match smallest.1 {
                Some((x, y)) => x < 9 && y < 9 && smallest.0 == choices(
                    graph@,
                    index_of((x as int, y as int)),
                ) && is_best_before(graph@, 9 * i, index_of((x as int, y as int))),
                None => smallest.0 == 10 && forall|k: int| k < 9 * i ==> !open_cell(graph@, k),
            },
    {
        for j in 0..9u8
            invariant
                i < 9,
                graph.wf(),
                valid_board(graph@),
                match smallest.1 {
                    Some((x, y)) => x < 9 && y < 9 && smallest.0 == choices(
                        graph@,
                        index_of((x as int, y as int)),
                    ) && is_best_before(graph@, 9 * i + j, index_of((x as int, y as int))),
                    None => smallest.0 == 10 && forall|k: int|
                        k < 9 * i + j ==> !open_cell(graph@, k),
                },
        {
            let cell = graph.get_cell(&CellCoord::new(i, j));
            let ghost k = 9 * i + j;
            proof {
                graph.lemma_at(i as int, j as int);
                lemma_candidates(graph@, cell_of(k));
                assert(graph.cell_at(i as int, j as int).fits((i as int, j as int)));
                assert(cell_of(k) == (i as int, j as int));
            }
            if let Some(values) = cell.get_possible_values(graph) {
                assert(values@.len() == choices(graph@, k));
                if values.len() <= smallest.0 && values.len() >= 1 {
                    proof {
                        let m = k + 1;
                        assert(is_best_before(graph@, m, k));
                    }
                    smallest = (values.len(), Some((i, j)));
                } else {
                    proof {
                        if let Some((x, y)) = smallest.1 {
                            let m = k + 1;
                            assert(is_best_before(graph@, m, index_of((x as int, y as int))));
                        }
                    }
                }
            } else {
                proof {
                    if let Some((x, y)) = smallest.1 {
                        let m = k + 1;
                        assert(is_best_before(graph@, m, index_of((x as int, y as int))));
                    }
                }
            }
        }
    }
    smallest.1
}

/// Pushes onto the stack, for each candidate of the cell at `coords` in
/// rising order, a copy of `graph` in which the cell has that value. The copy
/// with the largest candidate ends on top.
pub fn push_branches(stack: &mut VecDeque<Graph>, graph: &Graph, coords: &CellCoord)
    requires
        graph.wf(),
        wf_stack(old(stack)@),
    ensures
        wf_stack(final(stack)@),
        graph@[index_of(coords@)] is None ==> boards(final(stack)@) == children(
            graph@,
            index_of(coords@),
        ) + boards(old(stack)@),
        graph@[index_of(coords@)] is Some ==> final(stack)@ == old(stack)@,
{
    let ghost k = index_of(coords@);
    proof {
        use_type_invariant(coords);
        graph.lemma_valid();
        graph.lemma_at(coords@.0, coords@.1);
        lemma_candidates(graph@, cell_of(k));
        assert(graph.cell_at(coords@.0, coords@.1).fits(coords@));
    }
    if let Some(values) = graph.get_cell(coords).get_possible_values(graph) {
        let ghost all = children(graph@, k);
        let n = values.len();
        proof {
            assert(boards(stack@) =~= all.subrange(n as int, n as int) + boards(old(stack)@));
        }
        for m in 0..n
            invariant
                n == values.len(),
                graph.wf(),
                on_grid(coords@),
                k == index_of(coords@),
                graph@[k] is None,
                values@ == candidates(graph@, cell_of(k)),
                forall|v: u8| #[trigger] values@.contains(v) ==> 1 <= v <= 9,
                all == children(graph@, k),
                all.len() == n,
                wf_stack(stack@),
                boards(stack@) == all.subrange(n - m, n as int) + boards(old(stack)@),
        {
            let c = values[m];
            let mut cl = graph.clone();
            let ghost copy = cl;
            let ghost under = stack@;
            proof {
                assert(values@.contains(c));
            }
            cl.get_cell_mutable(coords).set_value(c);
            proof {
                assert forall|x: int, y: int| 0 <= x < 9 && 0 <= y < 9 implies (
                #[trigger] copy.cell_at(x, y)).fits((x, y)) by {
                    assert(graph.cell_at(x, y).fits((x, y)));
                }
                lemma_assign(&copy, &cl, coords@, c);
                assert(cl@ == all[n - 1 - m]);
            }
            stack.push_front(cl);
            proof {
                assert(boards(stack@) =~= seq![cl@] + boards(under));
                assert(all.subrange(n - (m + 1), n as int) =~= seq![all[n - 1 - m]] + all.subrange(
                    n - m,
                    n as int,
                ));
                assert(boards(stack@) =~= all.subrange(n - (m + 1), n as int) + boards(
                    old(stack)@,
                ));
            }
        }
        proof {
            assert(all.subrange(0, n as int) =~= all);
        }
    }
}

/// Solves the puzzle by propagation and backtracking: a depth-first search
/// over a stack of grids that starts with a copy of `gg`. The grid on top is
/// propagated; if that fills it, it is the result; otherwise its branches at
/// the most constrained cell take its place. `None` when the stack runs empty:
/// the puzzle has no solution.
#[verifier::loop_isolation(false)]
pub fn algorithm(gg: &Graph) -> (r: Option<Graph>)
    requires
        gg.wf(),
    ensures
        match r {
            Some(g) => g.wf() && search(seq![gg@]) == Some(g@),
            None => search(seq![gg@]) is None,
        },
        r matches Some(g) ==> is_full(g@) && follows(gg@, g@),
        r matches Some(g) ==> (consistent(gg@) ==> is_solution(g@)),
        (exists|s: Board| is_solution(s) && extends(gg@, s)) ==> r is Some,
{
    let ghost root = seq![gg@];
    proof {
        gg.lemma_valid();
        lemma_follows_refl(gg@);
        lemma_search_sound(root, gg@);
        if search(root) is Some && consistent(gg@) {
            lemma_follows_consistent(gg@, search(root).unwrap());
        }
        if exists|s: Board| is_solution(s) && extends(gg@, s) {
            let s = choose|s: Board| is_solution(s) && extends(gg@, s);
            assert(extends(root[0], s));
            lemma_search_complete(root, s);
        }
    }
    let mut stack: VecDeque<Graph> = VecDeque::new();
    stack.push_front(gg.clone());
    proof {
        assert(boards(stack@) =~= root);
    }

    while stack.len() > 0
        invariant
            wf_stack(stack@),
            search(boards(stack@)) == search(root),
        decreases weight(boards(stack@)),
    {
        let ghost before = boards(stack@);
        proof {
            lemma_wf_stack(stack@);
            lemma_step(before);
        }
        if let Some(mut graph) = stack.pop_front() {
            let ghost rest = boards(stack@);
            proof {
                assert(rest =~= before.drop_first());
                assert(before[0] == graph@);
            }
            propagate(&mut graph);

            if graph.is_filled() {
                return Some(graph);
            }
            proof {
                lemma_branch_cell(graph@);
            }
            let smallest = most_constrained_cell(&graph);
            if let Some((x, y)) = smallest {
                let coords = CellCoord::new(x, y);
                push_branches(&mut stack, &graph, &coords);
            }
            proof {
                assert(boards(stack@) == branches(graph@) + rest);
            }
        }
    }
    proof {
        assert(boards(stack@) =~= Seq::<Board>::empty());
    }
    None
}

/// Solves the puzzle with the SMT solver.
pub fn solve_z3(graph: Graph) -> (r: Option<Graph>)
    requires
        graph.wf(),
    ensures
        r matches Some(g) ==> g.wf() && is_full(g@) && follows(graph@, g@),
        r matches Some(g) ==> (consistent(graph@) ==> is_solution(g@)),
{
    crate::z3s::start(graph)
}

/// Solves the puzzle by the search of `algorithm`.
pub fn solve_tree_search(graph: Graph) -> (r: Option<Graph>)
    requires
        graph.wf(),
    ensures
        match r {
            Some(g) => g.wf() && search(seq![graph@]) == Some(g@),
            None => search(seq![graph@]) is None,
        },
        r matches Some(g) ==> is_full(g@) && follows(graph@, g@),
        r matches Some(g) ==> (consistent(graph@) ==> is_solution(g@)),
        (exists|s: Board| is_solution(s) && extends(graph@, s)) ==> r is Some,
{
    algorithm(&graph)
}

} // verus!
