use crate::board::{
    consistent, follows, index_of, is_full, is_solution, lemma_follows_consistent,
};
use crate::coord::CellCoord;
use crate::grid::Graph;
use crate::rules::{
    claims_of, claims_of_rule, fill_from_model, lemma_model_fits, on_board, rules, rules_of,
    term_of, terms_of, Claim, Rule, Term,
};
use vstd::prelude::*;

verus! {

/// `z3::Config`: the settings that a context is made with.
#[verifier::external_type_specification]
#[verifier::external_body]
pub struct ExConfig(z3::Config);

/// `z3::Context`: the owner of every term, solver and model made with it.
#[verifier::external_type_specification]
#[verifier::external_body]
pub struct ExContext(z3::Context);

/// `z3::Solver`: a set of assertions that can be checked.
#[verifier::external_type_specification]
#[verifier::external_body]
pub struct ExSolver<'ctx>(z3::Solver<'ctx>);

/// `z3::Ast`: a term, of any sort.
#[verifier::external_type_specification]
#[verifier::external_body]
pub struct ExAst<'ctx>(z3::Ast<'ctx>);

/// `z3::Model`: values for the constants of a solver's assertions.
#[verifier::external_type_specification]
#[verifier::external_body]
pub struct ExModel<'ctx>(z3::Model<'ctx>);

/// A term of integer sort, with what it stands for. Only `int_value` and
/// `int_const` build one.
struct IntTerm<'ctx> {
    ast: z3::Ast<'ctx>,
    what: Ghost<Term>,
}

/// A term of Boolean sort, with what it claims. Only `at_least`, `at_most`,
/// `same` and `negation` build one.
struct BoolTerm<'ctx> {
    ast: z3::Ast<'ctx>,
    what: Ghost<Claim>,
}

/// A solver, with what it has been told so far, and a note of whether a model
/// can be asked of it: its last check found the assertions satisfiable, and
/// nothing was asserted since.
struct Session<'ctx> {
    solver: z3::Solver<'ctx>,
    sat: bool,
    stated: Ghost<Seq<Claim>>,
}

/// `z3::Config::new`: a fresh configuration. Nothing is claimed of it.
#[verifier::external_body]
fn new_config() -> z3::Config {
    z3::Config::new()
}

/// `z3::Context::new`: a fresh context with the given configuration. Nothing
/// is claimed of it.
#[verifier::external_body]
fn new_context(config: &z3::Config) -> z3::Context {
    z3::Context::new(config)
}

/// `z3::Solver::new`: a fresh solver of the context. Nothing is claimed of it.
#[verifier::external_body]
fn new_solver<'ctx>(context: &'ctx z3::Context) -> z3::Solver<'ctx> {
    z3::Solver::new(context)
}

/// `z3::Context::from_i64`: the term of the integer numeral `i`. Nothing is
/// claimed of it.
#[verifier::external_body]
fn ast_numeral<'ctx>(context: &'ctx z3::Context, i: i64) -> z3::Ast<'ctx> {
    context.from_i64(i)
}

/// `z3::Context::named_int_const`: the term of the integer constant whose name
/// is made of the column and the row of a cell. Nothing is claimed of it.
#[verifier::external_body]
fn ast_constant<'ctx>(context: &'ctx z3::Context, x: u8, y: u8) -> z3::Ast<'ctx> {
    context.named_int_const(&format!("{},{}", x, y))
}

/// `z3::Ast::ge`: the term `a >= b` of two integer terms. Nothing is claimed
/// of it.
#[verifier::external_body]
fn ast_ge<'ctx>(a: &IntTerm<'ctx>, b: &IntTerm<'ctx>) -> z3::Ast<'ctx> {
    a.ast.ge(&b.ast)
}

/// `z3::Ast::le`: the term `a <= b` of two integer terms. Nothing is claimed
/// of it.
#[verifier::external_body]
fn ast_le<'ctx>(a: &IntTerm<'ctx>, b: &IntTerm<'ctx>) -> z3::Ast<'ctx> {
    a.ast.le(&b.ast)
}

/// `z3::Ast::_eq`: the term `a = b` of two integer terms. Nothing is claimed
/// of it.
#[verifier::external_body]
fn ast_eq<'ctx>(a: &IntTerm<'ctx>, b: &IntTerm<'ctx>) -> z3::Ast<'ctx> {
    a.ast._eq(&b.ast)
}

/// `z3::Ast::not`: the term of the negation of a Boolean term. Nothing is
/// claimed of it.
#[verifier::external_body]
fn ast_not<'ctx>(a: &BoolTerm<'ctx>) -> z3::Ast<'ctx> {
    a.ast.not()
}

/// `z3::Solver::assert`: adds a Boolean term to the assertions of the solver.
#[verifier::external_body]
fn solver_assert<'ctx>(solver: &z3::Solver<'ctx>, term: &BoolTerm<'ctx>) {
    solver.assert(&term.ast)
}

/// `z3::Solver::check`: whether the solver found its assertions satisfiable.
/// Nothing is claimed of the answer.
#[verifier::external_body]
fn solver_check<'ctx>(solver: &z3::Solver<'ctx>) -> bool {
    solver.check()
}

/// `z3::Solver::get_model`: the model of the last check. It is there only
/// after a check that found the assertions satisfiable, which the session
/// notes. Nothing is claimed of the model.
#[verifier::external_body]
fn session_model<'ctx>(session: &Session<'ctx>) -> z3::Model<'ctx>
    requires
        session.sat,
{
    session.solver.get_model()
}

/// `z3::Model::eval`: the term of the value that the model gives to an
/// integer term, if it gives one. Nothing is claimed of it.
#[verifier::external_body]
fn model_eval<'ctx>(model: &z3::Model<'ctx>, term: &IntTerm<'ctx>) -> Option<z3::Ast<'ctx>> {
    model.eval(&term.ast)
}

/// `z3::Ast::as_i64`: the number that a term is, if it is a numeral that fits.
/// Nothing is claimed of it.
#[verifier::external_body]
fn ast_value<'ctx>(ast: &z3::Ast<'ctx>) -> Option<i64> {
    ast.as_i64()
}

/// The integer term of the numeral `i`.
fn int_value<'ctx>(context: &'ctx z3::Context, i: i64) -> (term: IntTerm<'ctx>)
    ensures
        term.what@ == Term::Number(i as int),
{
    IntTerm { ast: ast_numeral(context, i), what: Ghost(Term::Number(i as int)) }
}

/// The integer term of the constant that names the value of the cell of
/// column `x` and row `y`.
fn int_const<'ctx>(context: &'ctx z3::Context, x: u8, y: u8) -> (term: IntTerm<'ctx>)
    ensures
        term.what@ == Term::Unknown(index_of((x as int, y as int))),
{
    IntTerm {
        ast: ast_constant(context, x, y),
        what: Ghost(Term::Unknown(index_of((x as int, y as int)))),
    }
}

/// The Boolean term that claims `a >= b`.
fn at_least<'ctx>(a: &IntTerm<'ctx>, b: &IntTerm<'ctx>) -> (term: BoolTerm<'ctx>)
    ensures
        term.what@ == Claim::AtLeast(a.what@, b.what@),
{
    BoolTerm { ast: ast_ge(a, b), what: Ghost(Claim::AtLeast(a.what@, b.what@)) }
}

/// The Boolean term that claims `a <= b`.
fn at_most<'ctx>(a: &IntTerm<'ctx>, b: &IntTerm<'ctx>) -> (term: BoolTerm<'ctx>)
    ensures
        term.what@ == Claim::AtMost(a.what@, b.what@),
{
    BoolTerm { ast: ast_le(a, b), what: Ghost(Claim::AtMost(a.what@, b.what@)) }
}

/// The Boolean term that claims `a = b`.
fn same<'ctx>(a: &IntTerm<'ctx>, b: &IntTerm<'ctx>) -> (term: BoolTerm<'ctx>)
    ensures
        term.what@ == Claim::Same(a.what@, b.what@),
{
    BoolTerm { ast: ast_eq(a, b), what: Ghost(Claim::Same(a.what@, b.what@)) }
}

/// The Boolean term that claims the opposite of `a`.
fn negation<'ctx>(a: &BoolTerm<'ctx>) -> (term: BoolTerm<'ctx>)
    ensures
        term.what@ == Claim::Not(Box::new(a.what@)),
{
    BoolTerm { ast: ast_not(a), what: Ghost(Claim::Not(Box::new(a.what@))) }
}

/// What the terms of a list stand for.
spec fn labels<'ctx>(named: Seq<IntTerm<'ctx>>) -> Seq<Term> {
    named.map_values(|term: IntTerm<'ctx>| term.what@)
}

impl<'ctx> Session<'ctx> {
    /// A session with a fresh solver: nothing has been stated, and no model
    /// can be asked.
    fn new(context: &'ctx z3::Context) -> (session: Session<'ctx>)
        ensures
            !session.sat,
            session.stated@ == Seq::<Claim>::empty(),
    {
        Session { solver: new_solver(context), sat: false, stated: Ghost(Seq::empty()) }
    }

    /// Asserts a term: what it claims is stated after all that was stated
    /// before, and no model can be asked until the next check.
    fn add(&mut self, term: &BoolTerm<'ctx>)
        ensures
            final(self).stated@ == old(self).stated@.push(term.what@),
            !final(self).sat,
    {
        solver_assert(&self.solver, term);
        self.sat = false;
        self.stated = Ghost(self.stated@.push(term.what@));
    }

    /// Checks the assertions. A model can be asked if they were found
    /// satisfiable.
    fn check(&mut self) -> (sat: bool)
        ensures
            final(self).sat == sat,
            final(self).stated@ == old(self).stated@,
    {
        let sat = solver_check(&self.solver);
        self.sat = sat;
        sat
    }
}

/// One integer term for each cell, in the order of the board: the numeral of
/// its value, or a constant of its own where it has none.
fn name_cells<'ctx>(context: &'ctx z3::Context, graph: &Graph) -> (named: Vec<IntTerm<'ctx>>)
    ensures
        named.len() == 81,
        labels(named@) == terms_of(graph@),
{
    let mut named: Vec<IntTerm<'ctx>> = Vec::with_capacity(81);
    for x in 0..9u8
        invariant
            named.len() == 9 * x,
            forall|k: int|
                0 <= k < named.len() ==> (#[trigger] named@[k]).what@ == term_of(graph@, k),
    {
        for y in 0..9u8
            invariant
                x < 9,
                named.len() == 9 * x + y,
                forall|k: int|
                    0 <= k < named.len() ==> (#[trigger] named@[k]).what@ == term_of(graph@, k),
        {
            proof {
                graph.lemma_at(x as int, y as int);
            }
            let term = match graph.get_cell(&CellCoord::new(x, y)).get_value() {
                Some(v) => int_value(context, v as i64),
                None => int_const(context, x, y),
            };
            named.push(term);
        }
    }
    assert(labels(named@) =~= terms_of(graph@));
    named
}

/// States the rules to the solver, in their order: for `Digit`, that the term
/// of the cell is at least 1 and at most 9; for `Differ`, that the terms of
/// the two cells are not equal.
fn state_rules<'ctx>(
    session: &mut Session<'ctx>,
    context: &'ctx z3::Context,
    rules: &Vec<Rule>,
    named: &Vec<IntTerm<'ctx>>,
)
    requires
        named.len() == 81,
        forall|i: int| 0 <= i < rules@.len() ==> on_board(#[trigger] rules@[i]),
    ensures
        final(session).stated@ == old(session).stated@ + claims_of(rules@, labels(named@)),
        final(session).sat == (old(session).sat && rules@.len() == 0),
{
    let one = int_value(context, 1);
    let nine = int_value(context, 9);
    let ghost terms = labels(named@);
    for i in 0..rules.len()
        invariant
            named.len() == 81,
            terms == labels(named@),
            one.what@ == Term::Number(1),
            nine.what@ == Term::Number(9),
            forall|i: int| 0 <= i < rules@.len() ==> on_board(#[trigger] rules@[i]),
            session.stated@ == old(session).stated@ + claims_of(rules@.take(i as int), terms),
            session.sat == (old(session).sat && i == 0),
    {
        let ghost before = session.stated@;
        proof {
            assert(rules@.take(i + 1).drop_last() =~= rules@.take(i as int));
            assert(rules@.take(i + 1).last() == rules@[i as int]);
            assert(on_board(rules@[i as int]));
        }
        match rules[i] {
            Rule::Digit(k) => {
                session.add(&at_least(&named[k], &one));
                session.add(&at_most(&named[k], &nine));
                assert(session.stated@ =~= before + claims_of_rule(rules@[i as int], terms));
            },
            Rule::Differ(k, j) => {
                session.add(&negation(&same(&named[k], &named[j])));
                assert(session.stated@ =~= before + claims_of_rule(rules@[i as int], terms));
            },
        }
        assert(session.stated@ =~= old(session).stated@ + claims_of(rules@.take(i + 1), terms));
    }
    assert(rules@.take(rules.len() as int) =~= rules@);
}

/// The values that the model gives to the terms of the cells without a value,
/// in the order of the board; `None` for the other cells.
fn read_model<'ctx>(model: &z3::Model<'ctx>, graph: &Graph, named: &Vec<IntTerm<'ctx>>) -> (values:
    Vec<Option<i64>>)
    requires
        named.len() == 81,
    ensures
        values.len() == 81,
{
    let mut values: Vec<Option<i64>> = Vec::with_capacity(81);
    for x in 0..9u8
        invariant
            named.len() == 81,
            values.len() == 9 * x,
    {
        for y in 0..9u8
            invariant
                x < 9,
                named.len() == 81,
                values.len() == 9 * x + y,
        {
            let k: usize = 9 * (x as usize) + (y as usize);
            let value = if graph.get_cell(&CellCoord::new(x, y)).get_value().is_none() {
                match model_eval(model, &named[k]) {
                    Some(ast) => ast_value(&ast),
                    None => None,
                }
            } else {
                None
            };
            values.push(value);
        }
    }
    values
}

/// Solves the puzzle with an SMT solver: states the rules for the cells
/// without a value, asks for a model, and fills the grid from it. Whatever the
/// solver answers, a grid that is returned keeps the given values, is full,
/// and adds no clash. `None` where the solver finds no model, or gives one
/// that does not fit.
pub fn start(graph: Graph) -> (r: Option<Graph>)
    requires
        graph.wf(),
    ensures
        r matches Some(g) ==> g.wf() && is_full(g@) && follows(graph@, g@),
        r matches Some(g) ==> (consistent(graph@) ==> is_solution(g@)),
{
    let config = new_config();
    let context = new_context(&config);
    let mut session = Session::new(&context);
    let named = name_cells(&context, &graph);
    let rules = rules(&graph);
    state_rules(&mut session, &context, &rules, &named);
    // The solver has been told the claims of the puzzle, and nothing else.
    assert(session.stated@ =~= claims_of(rules_of(graph@), terms_of(graph@)));
    if session.check() {
        let model = session_model(&session);
        let values = read_model(&model, &graph, &named);
        let r = fill_from_model(graph, &values);
        proof {
            graph.lemma_valid();
            if r is Some {
                lemma_model_fits(graph@, values@);
                if consistent(graph@) {
                    lemma_follows_consistent(graph@, r.unwrap()@);
                }
            }
        }
        r
    } else {
        None
    }
}

} // verus!
