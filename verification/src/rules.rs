use crate::board::{
    adds_no_clash, cell_of, clear_of, extends, follows, index_of, is_full, lemma_candidates,
    lemma_follows_refl, lemma_follows_trans, lemma_place, valid_board, Board,
};
use crate::coord::{
    adjacent, coords_view, lemma_neighbour_entry, lemma_neighbours_are_adjacent, neighbours_of,
    CellCoord,
};
use crate::grid::{lemma_assign, Graph};
use vstd::prelude::*;

verus! {

/// A constraint on the values of the cells, as it is stated to a solver.
/// Cells are named by their index on the board.
#[derive(Debug, Clone, Copy, PartialEq, Eq, Structural)]
pub enum Rule {
    /// The cell holds a digit from 1 to 9.
    Digit(usize),
    /// The two cells hold different values.
    Differ(usize, usize),
}

/// The rules for the cell at index `k`: none if it has a value; otherwise that
/// it holds a digit, and that it differs from each cell of its neighbour list,
/// in the order of the list.
pub open spec fn cell_rules(b: Board, k: int) -> Seq<Rule> {
    if b[k] is None {
        seq![Rule::Digit(k as usize)] + Seq::new(
            20,
            |i: int| Rule::Differ(k as usize, index_of(neighbours_of(cell_of(k))[i]) as usize),
        )
    } else {
        Seq::empty()
    }
}

/// The rules for the first `n` cells of the board.
pub open spec fn rules_before(b: Board, n: int) -> Seq<Rule>
    decreases n,
{
    if n <= 0 {
        Seq::empty()
    } else {
        rules_before(b, n - 1) + cell_rules(b, n - 1)
    }
}

/// The rules of a puzzle: those of its cells, in the order of the board.
pub open spec fn rules_of(b: Board) -> Seq<Rule> {
    rules_before(b, 81)
}

/// The rule speaks of cells of the board only.
pub open spec fn on_board(rule: Rule) -> bool {
    match rule {
        Rule::Digit(k) => k < 81,
        Rule::Differ(k, j) => k < 81 && j < 81,
    }
}

/// The board obeys the rule.
pub open spec fn obeys(s: Board, rule: Rule) -> bool {
    match rule {
        Rule::Digit(k) => s[k as int] is Some && 1 <= s[k as int].unwrap() <= 9,
        Rule::Differ(k, j) => s[k as int] != s[j as int],
    }
}

/// Every rule among the first `n` cells' rules speaks of cells of the board,
/// and belongs to a blank cell.
pub proof fn lemma_rules_before(b: Board, n: int, i: int)
    requires
        0 <= n <= 81,
        0 <= i < rules_before(b, n).len(),
    ensures
        on_board(rules_before(b, n)[i]),
        match rules_before(b, n)[i] {
            Rule::Digit(k) => k < n && b[k as int] is None,
            Rule::Differ(k, j) => k < n && b[k as int] is None && adjacent(
                cell_of(k as int),
                cell_of(j as int),
            ),
        },
    decreases n,
{
    let front = rules_before(b, n - 1);
    if i < front.len() {
        lemma_rules_before(b, n - 1, i);
    } else {
        let k = n - 1;
        let at = i - front.len();
        assert(rules_before(b, n)[i] == cell_rules(b, k)[at]);
        if at > 0 {
            let q = neighbours_of(cell_of(k))[at - 1];
            lemma_neighbour_entry(cell_of(k), at - 1);
            assert(neighbours_of(cell_of(k)).contains(q));
            lemma_neighbours_are_adjacent(cell_of(k), q);
            assert(cell_of(index_of(q)) == q);
        }
    }
}

/// Each blank cell among the first `n` has its rules among the first `n`
/// cells' rules: that it holds a digit, and that it differs from each cell
/// adjacent to it.
pub proof fn lemma_rules_cover(b: Board, n: int, k: int, j: int)
    requires
        0 <= k < n <= 81,
        b[k] is None,
        0 <= j < 81,
    ensures
        rules_before(b, n).contains(Rule::Digit(k as usize)),
        adjacent(cell_of(k), cell_of(j)) ==> rules_before(b, n).contains(
            Rule::Differ(k as usize, j as usize),
        ),
    decreases n,
{
    let front = rules_before(b, n - 1);
    let all = rules_before(b, n);
    if k < n - 1 {
        lemma_rules_cover(b, n - 1, k, j);
        let i = choose|i: int| 0 <= i < front.len() && front[i] == Rule::Digit(k as usize);
        assert(all[i] == front[i]);
        if adjacent(cell_of(k), cell_of(j)) {
            let i = choose|i: int|
                0 <= i < front.len() && front[i] == Rule::Differ(k as usize, j as usize);
            assert(all[i] == front[i]);
        }
    } else {
        let own = cell_rules(b, k);
        assert(all[front.len() as int] == own[0]);
        if adjacent(cell_of(k), cell_of(j)) {
            let cells = neighbours_of(cell_of(k));
            lemma_neighbours_are_adjacent(cell_of(k), cell_of(j));
            let at = choose|at: int| 0 <= at < cells.len() && cells[at] == cell_of(j);
            lemma_neighbour_entry(cell_of(k), at);
            assert(all[front.len() + 1 + at] == own[1 + at]);
            assert(index_of(cell_of(j)) == j);
        }
    }
}

/// What the rules of a puzzle mean: a full board that keeps the values of the
/// puzzle obeys them exactly when it follows from the puzzle, that is, when it
/// holds digits only and adds no clash.
pub proof fn lemma_rules_mean(b: Board, s: Board)
    requires
        valid_board(b),
        extends(b, s),
        is_full(s),
    ensures
        (forall|i: int| 0 <= i < rules_of(b).len() ==> obeys(s, #[trigger] rules_of(b)[i]))
            <==> follows(b, s),
{
    let rules = rules_of(b);
    if follows(b, s) {
        assert forall|i: int| 0 <= i < rules.len() implies obeys(s, #[trigger] rules[i]) by {
            lemma_rules_before(b, 81, i);
        }
    }
    if forall|i: int| 0 <= i < rules.len() ==> obeys(s, #[trigger] rules[i]) {
        assert forall|k: int| 0 <= k < 81 implies (#[trigger] s[k] matches Some(v) ==> 1 <= v
            <= 9) by {
            if b[k] is None {
                lemma_rules_cover(b, 81, k, 0);
                let i = choose|i: int| 0 <= i < rules.len() && rules[i] == Rule::Digit(k as usize);
                assert(obeys(s, rules[i]));
            }
        }
        assert forall|j: int, k: int|
            0 <= j < 81 && 0 <= k < 81 && adjacent(cell_of(j), cell_of(k)) && s[j] is Some && s[j]
                == s[k] implies b[j] is Some && b[k] is Some by {
            if b[j] is None {
                lemma_rules_cover(b, 81, j, k);
                let i = choose|i: int|
                    0 <= i < rules.len() && rules[i] == Rule::Differ(j as usize, k as usize);
                assert(obeys(s, rules[i]));
            }
            if b[k] is None {
                lemma_rules_cover(b, 81, k, j);
                let i = choose|i: int|
                    0 <= i < rules.len() && rules[i] == Rule::Differ(k as usize, j as usize);
                assert(obeys(s, rules[i]));
            }
        }
    }
}

/// What an integer term that is handed to a solver stands for.
pub enum Term {
    /// The numeral of this number.
    Number(int),
    /// The constant that names the value of the cell at this index.
    Unknown(int),
}

/// What a Boolean term that is handed to a solver claims.
pub enum Claim {
    /// The first term is at least the second.
    AtLeast(Term, Term),
    /// The first term is at most the second.
    AtMost(Term, Term),
    /// The two terms are equal.
    Same(Term, Term),
    /// The claim does not hold.
    Not(Box<Claim>),
}

/// The term that stands for the cell at index `k`: the numeral of its value,
/// or its constant where it has none.
pub open spec fn term_of(b: Board, k: int) -> Term {
    match b[k] {
        Some(v) => Term::Number(v as int),
        None => Term::Unknown(k),
    }
}

/// The terms of the 81 cells, in the order of the board.
pub open spec fn terms_of(b: Board) -> Seq<Term> {
    Seq::new(81, |k: int| term_of(b, k))
}

/// The claims that state a rule, over the terms of the cells: for `Digit`,
/// that the term of the cell is at least 1, and that it is at most 9; for
/// `Differ`, that the terms of the two cells are not equal.
pub open spec fn claims_of_rule(rule: Rule, terms: Seq<Term>) -> Seq<Claim> {
    match rule {
        Rule::Digit(k) => seq![
            Claim::AtLeast(terms[k as int], Term::Number(1)),
            Claim::AtMost(terms[k as int], Term::Number(9)),
        ],
        Rule::Differ(k, j) => seq![
            Claim::Not(Box::new(Claim::Same(terms[k as int], terms[j as int]))),
        ],
    }
}

/// The claims that state the rules, in the order of the rules.
pub open spec fn claims_of(rules: Seq<Rule>, terms: Seq<Term>) -> Seq<Claim>
    decreases rules.len(),
{
    if rules.len() == 0 {
        Seq::empty()
    } else {
        claims_of(rules.drop_last(), terms) + claims_of_rule(rules.last(), terms)
    }
}

/// The number that a term is on a full board.
pub open spec fn value_of(term: Term, s: Board) -> int {
    match term {
        Term::Number(i) => i,
        Term::Unknown(k) => s[k].unwrap() as int,
    }
}

/// The claim is true of a full board.
pub open spec fn holds_on(claim: Claim, s: Board) -> bool
    decreases claim,
{
    match claim {
        Claim::AtLeast(a, b) => value_of(a, s) >= value_of(b, s),
        Claim::AtMost(a, b) => value_of(a, s) <= value_of(b, s),
        Claim::Same(a, b) => value_of(a, s) == value_of(b, s),
        Claim::Not(c) => !holds_on(*c, s),
    }
}

/// The claims that state a rule of a puzzle are true of a full board that
/// keeps the values of the puzzle exactly when the board obeys the rule.
pub proof fn lemma_claims_of_rule(b: Board, s: Board, rule: Rule)
    requires
        valid_board(b),
        extends(b, s),
        is_full(s),
        on_board(rule),
    ensures
        obeys(s, rule) <==> forall|i: int|
            0 <= i < claims_of_rule(rule, terms_of(b)).len() ==> holds_on(
                #[trigger] claims_of_rule(rule, terms_of(b))[i],
                s,
            ),
{
    let claims = claims_of_rule(rule, terms_of(b));
    assert forall|k: int| 0 <= k < 81 implies value_of(#[trigger] terms_of(b)[k], s)
        == s[k].unwrap() as int by {
        assert(s[k] is Some);
        if b[k] is Some {
            assert(s[k] == b[k]);
        }
    }
    match rule {
        Rule::Digit(k) => {
            assert(claims.len() == 2);
            assert(holds_on(claims[0], s) <==> s[k as int].unwrap() >= 1);
            assert(holds_on(claims[1], s) <==> s[k as int].unwrap() <= 9);
            assert(s[k as int] is Some);
        },
        Rule::Differ(k, j) => {
            assert(claims.len() == 1);
            assert(s[k as int] is Some && s[j as int] is Some);
            let inner = Claim::Same(terms_of(b)[k as int], terms_of(b)[j as int]);
            assert(claims[0] == Claim::Not(Box::new(inner)));
            assert(holds_on(claims[0], s) <==> !holds_on(inner, s));
        },
    }
}

/// Each claim among the claims of the rules states one of the rules, and each
/// claim that states one of the rules is among them.
pub proof fn lemma_claims_of(rules: Seq<Rule>, terms: Seq<Term>)
    ensures
        forall|c: Claim| #[trigger]
            claims_of(rules, terms).contains(c) <==> exists|i: int|
                0 <= i < rules.len() && #[trigger] claims_of_rule(rules[i], terms).contains(c),
    decreases rules.len(),
{
    let all = claims_of(rules, terms);
    if rules.len() == 0 {
        assert forall|c: Claim| !all.contains(c) by {}
    } else {
        let front = rules.drop_last();
        let own = claims_of_rule(rules.last(), terms);
        let before = claims_of(front, terms);
        lemma_claims_of(front, terms);
        assert(all == before + own);
        assert forall|c: Claim| #[trigger]
            all.contains(c) <==> exists|i: int|
                0 <= i < rules.len() && #[trigger] claims_of_rule(rules[i], terms).contains(
                    c,
                ) by {
            if all.contains(c) {
                let at = choose|at: int| 0 <= at < all.len() && all[at] == c;
                if at < before.len() {
                    assert(before[at] == c);
                    assert(before.contains(c));
                    let i = choose|i: int|
                        0 <= i < front.len() && #[trigger] claims_of_rule(
                            front[i],
                            terms,
                        ).contains(c);
                    assert(rules[i] == front[i]);
                } else {
                    assert(own[at - before.len()] == c);
                    assert(own.contains(c));
                    assert(claims_of_rule(rules[rules.len() - 1], terms).contains(c));
                }
            }
            if exists|i: int|
                0 <= i < rules.len() && #[trigger] claims_of_rule(rules[i], terms).contains(c) {
                let i = choose|i: int|
                    0 <= i < rules.len() && #[trigger] claims_of_rule(rules[i], terms).contains(
                        c,
                    );
                if i < front.len() {
                    assert(front[i] == rules[i]);
                    assert(before.contains(c));
                    let at = choose|at: int| 0 <= at < before.len() && before[at] == c;
                    assert(all[at] == c);
                } else {
                    let at = choose|at: int| 0 <= at < own.len() && own[at] == c;
                    assert(all[before.len() + at] == c);
                }
            }
        }
    }
}

/// What the claims of a puzzle mean: a full board that keeps the values of
/// the puzzle makes every claim true exactly when it follows from the puzzle.
pub proof fn lemma_claims_mean(b: Board, s: Board)
    requires
        valid_board(b),
        extends(b, s),
        is_full(s),
    ensures
        (forall|c: Claim|
            claims_of(rules_of(b), terms_of(b)).contains(c) ==> #[trigger] holds_on(c, s))
            <==> follows(b, s),
{
    let rules = rules_of(b);
    let terms = terms_of(b);
    let claims = claims_of(rules, terms);
    lemma_claims_of(rules, terms);
    lemma_rules_mean(b, s);
    if forall|c: Claim| claims.contains(c) ==> #[trigger] holds_on(c, s) {
        assert forall|i: int| 0 <= i < rules.len() implies obeys(s, #[trigger] rules[i]) by {
            lemma_rules_before(b, 81, i);
            lemma_claims_of_rule(b, s, rules[i]);
            let own = claims_of_rule(rules[i], terms);
            assert forall|n: int| 0 <= n < own.len() implies holds_on(#[trigger] own[n], s) by {
                assert(own.contains(own[n]));
                assert(claims.contains(own[n]));
            }
        }
    }
    if follows(b, s) {
        assert forall|c: Claim| claims.contains(c) implies #[trigger] holds_on(c, s) by {
            let i = choose|i: int|
                0 <= i < rules.len() && #[trigger] claims_of_rule(rules[i], terms).contains(c);
            lemma_rules_before(b, 81, i);
            lemma_claims_of_rule(b, s, rules[i]);
            assert(obeys(s, rules[i]));
        }
    }
}

/// The rules of the puzzle, for a solver to be told: for each cell without a
/// value, in the order of the board, that it holds a digit from 1 to 9 and
/// that it differs from each of its neighbours.
pub fn rules(graph: &Graph) -> (r: Vec<Rule>)
    requires
        graph.wf(),
    ensures
        r@ == rules_of(graph@),
        forall|i: int| 0 <= i < r@.len() ==> on_board(#[trigger] r@[i]),
{
    let mut r: Vec<Rule> = Vec::new();
    for x in 0..9u8
        invariant
            graph.wf(),
            r@ == rules_before(graph@, 9 * x),
    {
        for y in 0..9u8
            invariant
                x < 9,
                graph.wf(),
                r@ == rules_before(graph@, 9 * x + y),
        {
            let cell = graph.get_cell(&CellCoord::new(x, y));
            let k: usize = 9 * (x as usize) + (y as usize);
            let ghost front = r@;
            let ghost own = cell_rules(graph@, k as int);
            proof {
                graph.lemma_at(x as int, y as int);
                assert(graph.cell_at(x as int, y as int).fits((x as int, y as int)));
                assert(cell_of(k as int) == (x as int, y as int));
            }
            if cell.get_value().is_none() {
                r.push(Rule::Digit(k));
                let neighbours = cell.get_neighbours();
                proof {
                    lemma_neighbour_entry(cell_of(k as int), 0);
                }
                for i in 0..neighbours.len()
                    invariant
                        k < 81,
                        neighbours.len() == 20,
                        coords_view(neighbours@) == neighbours_of(cell_of(k as int)),
                        own == cell_rules(graph@, k as int),
                        own.len() == 21,
                        graph@[k as int] is None,
                        r@ == front + own.take(1 + i),
                {
                    let n = &neighbours[i];
                    let j: usize = 9 * (n.x() as usize) + (n.y() as usize);
                    proof {
                        assert(neighbours_of(cell_of(k as int))[i as int] == n@);
                    }
                    r.push(Rule::Differ(k, j));
                    proof {
                        assert(own.take(1 + i).push(own[1 + i]) =~= own.take(1 + (i + 1)));
                    }
                }
                proof {
                    assert(own.take(21) =~= own);
                }
            } else {
                proof {
                    assert(r@ =~= front + own);
                }
            }
        }
    }
    proof {
        assert forall|i: int| 0 <= i < r@.len() implies on_board(#[trigger] r@[i]) by {
            lemma_rules_before(graph@, 81, i);
        }
    }
    r
}

/// The digit that a model gives to a cell, if it gives one from 1 to 9.
pub open spec fn model_digit(value: Option<i64>) -> Option<u8> {
    match value {
        Some(i) if 1 <= i <= 9 => Some(i as u8),
        _ => None,
    }
}

/// The board whose blanks before index `n` hold the digits of the model.
pub open spec fn completed_to(b: Board, values: Seq<Option<i64>>, n: int) -> Board {
    Seq::new(
        81,
        |k: int|
            if b[k] is None && k < n {
                model_digit(values[k])
            } else {
                b[k]
            },
    )
}

/// The board whose blanks hold the digits of the model.
pub open spec fn completed(b: Board, values: Seq<Option<i64>>) -> Board {
    completed_to(b, values, 81)
}

/// The model completes the board: it has a value for each of the 81 cells,
/// a digit for every blank, and the digits clash with nothing.
pub open spec fn model_fits(b: Board, values: Seq<Option<i64>>) -> bool {
    &&& values.len() == 81
    &&& is_full(completed(b, values))
    &&& adds_no_clash(b, completed(b, values))
}

/// A board completed by a model that fits follows from the board.
pub proof fn lemma_model_fits(b: Board, values: Seq<Option<i64>>)
    requires
        valid_board(b),
        model_fits(b, values),
    ensures
        follows(b, completed(b, values)),
{
}

/// Whether `v` is among `values`.
fn holds(values: &Vec<u8>, v: u8) -> (r: bool)
    ensures
        r == values@.contains(v),
{
    for i in 0..values.len()
        invariant
            forall|j: int| 0 <= j < i ==> values@[j] != v,
    {
        if values[i] == v {
            return true;
        }
    }
    false
}

/// Fills the blanks of the grid with the values of a model, one value for
/// each of the 81 cells in the order of the board, and checks each against
/// the neighbours of its cell. The result is the completed grid if the model
/// fits, and `None` if not. Values for cells that have one are not read.
pub fn fill_from_model(graph: Graph, values: &Vec<Option<i64>>) -> (r: Option<Graph>)
    requires
        graph.wf(),
    ensures
        match r {
            Some(g) => g.wf() && model_fits(graph@, values@) && g@ == completed(graph@, values@),
            None => !model_fits(graph@, values@),
        },
{
    if values.len() != 81 {
        return None;
    }
    let ghost start = graph@;
    let ghost goal = completed(graph@, values@);
    let mut grid = graph;
    proof {
        grid.lemma_valid();
        lemma_follows_refl(start);
        assert(grid@ =~= completed_to(start, values@, 0));
    }
    for x in 0..9u8
        invariant
            values.len() == 81,
            start == graph@,
            goal == completed(start, values@),
            grid.wf(),
            follows(start, grid@),
            grid@ == completed_to(start, values@, 9 * x),
            forall|k: int| 0 <= k < 9 * x ==> #[trigger] grid@[k] is Some,
    {
        for y in 0..9u8
            invariant
                x < 9,
                values.len() == 81,
                start == graph@,
                goal == completed(start, values@),
                grid.wf(),
                follows(start, grid@),
                grid@ == completed_to(start, values@, 9 * x + y),
                forall|k: int| 0 <= k < 9 * x + y ==> #[trigger] grid@[k] is Some,
        {
            let coords = CellCoord::new(x, y);
            let k: usize = 9 * (x as usize) + (y as usize);
            let ghost cur = grid;
            proof {
                cur.lemma_at(x as int, y as int);
                lemma_candidates(cur@, cell_of(k as int));
                assert(cur.cell_at(x as int, y as int).fits((x as int, y as int)));
                assert(cell_of(k as int) == (x as int, y as int));
            }
            if let Some(candidates) = grid.get_cell(&coords).get_possible_values(&grid) {
                let fit = match values[k] {
                    Some(v) => if 1 <= v && v <= 9 && holds(&candidates, v as u8) {
                        Some(v as u8)
                    } else {
                        None
                    },
                    None => None,
                };
                match fit {
                    Some(v) => {
                        grid.get_cell_mutable(&coords).set_value(v);
                        proof {
                            lemma_assign(&cur, &grid, (x as int, y as int), v);
                            lemma_place(cur@, k as int, v);
                            lemma_follows_trans(start, cur@, grid@);
                            assert(grid@ =~= completed_to(start, values@, k + 1));
                        }
                    },
                    None => {
                        proof {
                            assert(start[k as int] is None);
                            if model_digit(values@[k as int]) is Some {
                                let v = model_digit(values@[k as int]).unwrap();
                                assert(!candidates@.contains(v));
                                assert(!clear_of(cur@, cell_of(k as int), v));
                                let j = choose|j: int|
                                    0 <= j < 81 && adjacent(cell_of(k as int), cell_of(j))
                                        && #[trigger] cur@[j] == Some(v);
                                assert(goal[j] == Some(v));
                                assert(goal[k as int] == Some(v));
                                assert(!adds_no_clash(start, goal));
                            } else {
                                assert(goal[k as int] is None);
                                assert(!is_full(goal));
                            }
                        }
                        return None;
                    },
                }
            } else {
                proof {
                    assert(grid@ =~= completed_to(start, values@, k + 1));
                }
            }
        }
    }
    proof {
        assert(grid@ =~= goal);
    }
    Some(grid)
}

} // verus!
