//! The forest, its streams of answers and the search under them.

use chalk_engine::context::{
    constrained_subst_from_answer, AnswerResult, ConstrainedSubst, Context, NegativeCycle,
};
use chalk_engine::forest::{each_answer, Forest, SubstitutionResult};
use chalk_engine::logic::RootSearchFail;
use chalk_engine::render::Render;
use chalk_engine::solution::{make_solution, Guidance, Solution};
use chalk_engine::stack::CycleKind;
use chalk_engine::table::TableState;
use chalk_engine::term::{Atom, Clause, Literal, Term};
use std::cell::{Cell, RefCell};

fn at(pred: usize, args: &[Term]) -> Atom {
    Atom { pred, args: args.to_vec() }
}

fn yes(pred: usize, args: &[Term]) -> Literal {
    Literal::Positive(at(pred, args))
}

fn not(pred: usize, args: &[Term]) -> Literal {
    Literal::Negative(at(pred, args))
}

fn clause(program: &mut Context, nvars: usize, head: Atom, body: Vec<Literal>) {
    program.add_clause(Clause { nvars, head, body });
}

fn v(i: usize) -> Term {
    Term::Var(i)
}

/// Every result of `goal`, written out, up to the first word that the
/// search has floundered, at which the query is told to stop.
fn all(forest: &mut Forest, goal: Atom) -> (bool, Vec<String>) {
    let seen: RefCell<Vec<SubstitutionResult<ConstrainedSubst>>> = RefCell::new(Vec::new());
    let done = forest.solve_multiple(&goal, |result, _| {
        let go = !matches!(result, SubstitutionResult::Floundered);
        seen.borrow_mut().push(result);
        go
    });
    let out = seen.into_inner().iter().map(|r| r.render(forest.context())).collect();
    (done, out)
}

/// The answers of `goal` that a search of `steps` steps at most finds,
/// written out, and whether the search came to the end of the answers.
fn within(forest: &mut Forest, goal: Atom, steps: usize) -> (bool, Vec<String>) {
    let left = Cell::new(steps);
    let mut found = Vec::new();
    let mut answers = forest.iter_answers(&goal);
    let ended = loop {
        let pulled = answers.next_answer(|| {
            let go = left.get() > 0;
            left.set(left.get().saturating_sub(1));
            go
        });
        match pulled {
            AnswerResult::Answer(answer) => found.push(constrained_subst_from_answer(answer)),
            AnswerResult::NoMoreSolutions => break true,
            _ => break false,
        }
    };
    (ended, found.iter().map(|s| s.render(forest.context())).collect())
}

/// What the tables and the stack of a forest hold, in numbers.
fn shape(forest: &Forest) -> (Vec<(usize, usize, usize, String)>, usize) {
    let tables = forest
        .tables
        .iter()
        .map(|t| (t.answers.len(), t.strands.len(), t.blocked.len(), format!("{:?}", t.state)))
        .collect();
    (tables, forest.stack.len())
}

/// Every answer of `goal` that depends on no assumption, pulled from its
/// table one index after the other, and the result that ended the pulls.
fn pulled(forest: &mut Forest, goal: Atom) -> (Vec<Vec<Term>>, RootSearchFail) {
    let (key, n) = forest.context().canonical_goal(&goal);
    let table = forest.get_or_create_table(key, n);
    let mut found = Vec::new();
    let mut index = 0;
    for _ in 0..100_000 {
        match forest.root_answer(table, index) {
            Ok(answer) => {
                found.push(answer.subst.values);
                index += 1;
            }
            Err(RootSearchFail::InvalidAnswer) => index += 1,
            Err(RootSearchFail::QuantumExceeded) => {}
            Err(end) => return (found, end),
        }
    }
    (found, RootSearchFail::QuantumExceeded)
}

fn one(forest: &mut Forest, goal: Atom) -> String {
    match forest.solve(&goal, || true) {
        Some(solution) => solution.render(forest.context()),
        None => "No possible solution".to_string(),
    }
}

/// `edge(a, b)`, `edge(b, c)`, `edge(c, a)`, and `path` as the transitive
/// closure of `edge`, with the recursive clause first and the recursion on
/// the left.
fn paths() -> (Context, usize, [Term; 3]) {
    let mut program = Context::new();
    let edge = program.add_predicate("edge", 2, false);
    let path = program.add_predicate("path", 2, false);
    let a = program.add_constant("a");
    let b = program.add_constant("b");
    let c = program.add_constant("c");
    clause(&mut program, 0, at(edge, &[a, b]), vec![]);
    clause(&mut program, 0, at(edge, &[b, c]), vec![]);
    clause(&mut program, 0, at(edge, &[c, a]), vec![]);
    clause(
        &mut program,
        3,
        at(path, &[v(0), v(1)]),
        vec![yes(path, &[v(0), v(2)]), yes(edge, &[v(2), v(1)])],
    );
    clause(&mut program, 2, at(path, &[v(0), v(1)]), vec![yes(edge, &[v(0), v(1)])]);
    (program, path, [a, b, c])
}

#[test]
fn left_recursion_ends_with_every_answer() {
    let (program, path, [a, _, _]) = paths();
    let mut forest = Forest::new(program);
    let (done, answers) = all(&mut forest, at(path, &[a, v(0)]));
    assert!(done);
    assert_eq!(
        answers,
        vec![
            "substitution [?0 := b], lifetime constraints []",
            "substitution [?0 := c], lifetime constraints []",
            "substitution [?0 := a], lifetime constraints []",
        ]
    );
    let (_, every) = all(&mut forest, at(path, &[v(0), v(1)]));
    assert_eq!(every.len(), 9);
}

#[test]
fn recorded_answers_replay_without_search() {
    let (program, path, [a, _, _]) = paths();
    let mut forest = Forest::new(program);
    let (goal, n) = forest.context().canonical_goal(&at(path, &[a, v(7)]));
    assert_eq!(n, 1);
    let (done, answers) = all(&mut forest, at(path, &[a, v(7)]));
    assert!(done);
    let table = forest.find_table(&goal).unwrap();
    assert_eq!(forest.tables[table].state, TableState::Complete);
    assert_eq!(forest.tables[table].answers.len(), answers.len());
    let before = shape(&forest);
    let tables = forest.tables.len();
    for index in 0..answers.len() {
        let answer = forest.root_answer(table, index).unwrap();
        assert_eq!(answer.subst.render(forest.context()), answers[index]);
        assert!(!answer.ambiguous);
    }
    assert_eq!(forest.root_answer(table, answers.len()).unwrap_err(), RootSearchFail::NoMoreSolutions);
    assert_eq!(
        forest.root_answer(table, answers.len() + 5).unwrap_err(),
        RootSearchFail::NoMoreSolutions
    );
    assert_eq!(shape(&forest), before);
    assert_eq!(forest.tables.len(), tables);
    assert_eq!(forest.stack.len(), 0);
}

#[test]
fn goals_that_differ_in_names_share_a_table() {
    let (program, path, [a, _, _]) = paths();
    let mut forest = Forest::new(program);
    let first = forest.iter_answers(&at(path, &[a, v(3)])).table;
    let tables = forest.tables.len();
    let second = forest.iter_answers(&at(path, &[a, v(8)])).table;
    assert_eq!(first, second);
    assert_eq!(forest.tables.len(), tables);
    let third = forest.iter_answers(&at(path, &[v(8), v(8)])).table;
    let fourth = forest.iter_answers(&at(path, &[v(1), v(2)])).table;
    assert_ne!(third, fourth);
    assert_eq!(forest.tables[third].goal.args, vec![v(0), v(0)]);
    assert_eq!(forest.tables[fourth].goal.args, vec![v(0), v(1)]);
}

#[test]
fn peek_twice_is_peek_once() {
    let (program, path, [a, _, _]) = paths();
    let mut forest = Forest::new(program);
    let mut answers = forest.iter_answers(&at(path, &[a, v(0)]));
    let first = answers.peek_answer(|| true);
    let place = answers.answer;
    let before = shape(answers.forest);
    let second = answers.peek_answer(|| true);
    assert_eq!(answers.answer, place);
    assert_eq!(shape(answers.forest), before);
    match (first, second) {
        (AnswerResult::Answer(x), AnswerResult::Answer(y)) => {
            assert_eq!(x.subst.values, y.subst.values);
            assert_eq!(x.subst.values, vec![Term::Const(1)]);
            assert_eq!(x.ambiguous, y.ambiguous);
        }
        other => panic!("two answers expected, got {:?}", other),
    }
    let pulled = answers.next_answer(|| true);
    assert!(pulled.is_answer());
    assert_eq!(answers.answer, place + 1);
    // at the end of the answers, too
    assert!(answers.next_answer(|| true).is_answer());
    assert!(answers.next_answer(|| true).is_answer());
    assert!(answers.peek_answer(|| true).is_no_more_solutions());
    let place = answers.answer;
    assert!(answers.peek_answer(|| true).is_no_more_solutions());
    assert_eq!(answers.answer, place);
    // a pull moves on even there
    assert!(answers.next_answer(|| true).is_no_more_solutions());
    assert_eq!(answers.answer, place + 1);
}

#[test]
fn a_search_that_is_cut_short_goes_on_later() {
    let (program, path, [a, _, _]) = paths();
    let mut forest = Forest::new(program);
    let mut answers = forest.iter_answers(&at(path, &[a, v(0)]));
    let start = shape(answers.forest);
    let first = answers.peek_answer(|| false);
    assert!(first.is_quantum_exceeded());
    assert_eq!(answers.answer, 0);
    // one step was taken, and what it did is kept
    assert_ne!(shape(answers.forest), start);
    assert_eq!(answers.forest.stack.len(), 1);
    let after_one = shape(answers.forest);
    let budget = Cell::new(3);
    let asked = Cell::new(0);
    let again = answers.peek_answer(|| {
        asked.set(asked.get() + 1);
        budget.set(budget.get() - 1);
        budget.get() > 0
    });
    assert!(again.is_quantum_exceeded());
    // the predicate was asked after each of three steps
    assert_eq!(asked.get(), 3);
    assert_ne!(shape(answers.forest), after_one);
    let last = answers.next_answer(|| true);
    assert!(last.is_answer());
}

#[test]
fn solve_suggests_the_first_answer_when_cut_short() {
    let (program, path, [a, _, _]) = paths();
    let mut forest = Forest::new(program);
    // no step at all
    assert!(forest.solve(&at(path, &[a, v(0)]), || false).is_none());
    assert_eq!(forest.stack.len(), 1);
    // enough steps for the first answer, not for the second
    let budget = Cell::new(0);
    let goal = at(path, &[a, v(0)]);
    let mut answers = forest.iter_answers(&goal);
    assert!(answers.next_answer(|| true).is_answer());
    let solution = forest
        .solve(&goal, || {
            budget.set(budget.get() + 1);
            budget.get() < 2
        })
        .unwrap();
    match &solution {
        Solution::Ambig(Guidance::Suggested(subst)) => {
            assert_eq!(subst.values, vec![Term::Const(1)]);
        }
        other => panic!("a suggestion expected, got {:?}", other),
    }
    assert_eq!(
        solution.render(forest.context()),
        "Ambiguous; suggested substitution [?0 := b], lifetime constraints []"
    );
    // with all the steps it takes: three answers that contradict one another
    assert_eq!(one(&mut forest, goal), "Ambiguous; no inference guidance");
}

#[test]
fn solve_gives_definite_guidance_when_nothing_contradicts() {
    // p(X, a). p(X, a) :- q(X).  q(b).
    let mut program = Context::new();
    let p = program.add_predicate("p", 2, false);
    let q = program.add_predicate("q", 1, false);
    let a = program.add_constant("a");
    let b = program.add_constant("b");
    clause(&mut program, 1, at(p, &[v(0), a]), vec![]);
    clause(&mut program, 1, at(p, &[v(0), a]), vec![yes(q, &[v(0)])]);
    clause(&mut program, 0, at(q, &[b]), vec![]);
    let mut forest = Forest::new(program);
    // the answers are [^0, a] and [b, a]: the second does not contradict
    // the first
    assert_eq!(
        one(&mut forest, at(p, &[v(0), v(1)])),
        "Ambiguous; definite for<?U0> { substitution [?0 := ^0, ?1 := a], lifetime constraints [] }"
    );
    let (done, answers) = all(&mut forest, at(p, &[v(0), v(1)]));
    assert!(done);
    assert_eq!(
        answers,
        vec![
            "for<?U0> { substitution [?0 := ^0, ?1 := a], lifetime constraints [] }",
            "substitution [?0 := b, ?1 := a], lifetime constraints []",
        ]
    );
}

#[test]
fn any_future_answer_looks_at_what_is_to_come() {
    let (program, path, [a, b, c]) = paths();
    let mut forest = Forest::new(program);
    let mut answers = forest.iter_answers(&at(path, &[a, v(0)]));
    // nothing is recorded yet, and no strand has run: the strands bind
    // nothing
    assert!(!answers.any_future_answer(|s| s[0] == b));
    assert!(answers.any_future_answer(|s| s[0] == v(0)));
    assert!(answers.next_answer(|| true).is_answer());
    assert!(answers.peek_answer(|| true).is_answer());
    let place = answers.answer;
    // the answer at the cursor is `c`; `b` was consumed
    assert!(answers.any_future_answer(|s| s[0] == c));
    assert!(!answers.any_future_answer(|s| s[0] == b));
    assert_eq!(answers.answer, place);
    while !answers.next_answer(|| true).is_no_more_solutions() {}
    // at the end nothing is to come
    assert!(!answers.any_future_answer(|_| true));
    // from the start again, every answer is to come
    let again = forest.iter_answers(&at(path, &[a, v(0)]));
    assert!(again.any_future_answer(|s| s[0] == a));
    assert!(again.any_future_answer(|s| s[0] == b));
    assert!(!again.any_future_answer(|s| s[0] == v(0)));
    assert_eq!(again.answer, 0);
}

/// `p :- not q.  q :- not p.`
fn negative_cycle() -> (Context, usize) {
    let mut program = Context::new();
    let p = program.add_predicate("p", 0, false);
    let q = program.add_predicate("q", 0, false);
    clause(&mut program, 0, at(p, &[]), vec![not(q, &[])]);
    clause(&mut program, 0, at(q, &[]), vec![not(p, &[])]);
    (program, p)
}

/// `w(X) :- not v(X).  v(a).`
fn floundering() -> (Context, usize, Term) {
    let mut program = Context::new();
    let w = program.add_predicate("w", 1, false);
    let vv = program.add_predicate("v", 1, false);
    let a = program.add_constant("a");
    let _b = program.add_constant("b");
    clause(&mut program, 1, at(w, &[v(0)]), vec![not(vv, &[v(0)])]);
    clause(&mut program, 0, at(vv, &[a]), vec![]);
    program.set_stratum(w, 1);
    assert!(program.is_stratified());
    (program, w, a)
}

#[test]
fn a_negative_cycle_is_a_fault_and_not_a_flounder() {
    let (program, p) = negative_cycle();
    assert!(!program.is_stratified());
    let mut forest = Forest::new(program);
    let (found, end) = pulled(&mut forest, at(p, &[]));
    assert!(found.is_empty());
    assert_eq!(end, RootSearchFail::NegativeCycle);
    assert_ne!(end, RootSearchFail::Floundered);
    assert!(forest.is_poisoned());
    assert_eq!(forest.stack.len(), 0);
    // it is not to be tried again: every pull gives the fault, and
    // changes nothing
    let table = forest.find_table(&at(p, &[])).unwrap();
    let before = shape(&forest);
    assert_eq!(forest.root_answer(table, 0).unwrap_err(), RootSearchFail::NegativeCycle);
    assert_eq!(forest.root_answer(table, 7).unwrap_err(), RootSearchFail::NegativeCycle);
    assert_eq!(shape(&forest), before);
    assert_eq!(forest.tables[table].state, TableState::InProgress);
    // the queries that report the fault do so, and none panics
    assert!(matches!(forest.try_solve(&at(p, &[]), || true), Err(NegativeCycle)));
    assert!(matches!(forest.try_solve_multiple(&at(p, &[]), |_, _| true), Err(NegativeCycle)));
    let mut answers = forest.iter_answers(&at(p, &[]));
    assert!(matches!(answers.try_peek_answer(|| true), Err(NegativeCycle)));
    assert!(matches!(answers.try_next_answer(|| true), Err(NegativeCycle)));
    // on a fresh forest the fault is found by the search
    let (program, p) = negative_cycle();
    let mut fresh = Forest::new(program);
    assert!(matches!(fresh.try_solve_multiple(&at(p, &[]), |_, _| true), Err(NegativeCycle)));
    assert!(fresh.is_poisoned());
    let (program, p) = negative_cycle();
    let mut fresh = Forest::new(program);
    assert!(matches!(fresh.try_solve(&at(p, &[]), || true), Err(NegativeCycle)));
    assert!(fresh.is_poisoned());

    let (program, w, _) = floundering();
    let mut forest = Forest::new(program);
    let mut answers = forest.iter_answers(&at(w, &[v(0)]));
    assert!(matches!(answers.peek_answer(|| true), AnswerResult::Floundered));
    assert!(!forest.is_poisoned());
}

#[test]
fn a_negation_that_is_not_ground_flounders() {
    let (program, w, a) = floundering();
    let mut forest = Forest::new(program);
    let hints = RefCell::new(Vec::new());
    let done = forest.solve_multiple(&at(w, &[v(0)]), |result, more| {
        hints.borrow_mut().push((result.render(&Context::new()), more));
        hints.borrow().len() < 3
    });
    // the word is handed out again for as long as the callback goes on,
    // and the query says no only because the callback did
    assert!(!done);
    let word = ("Floundered".to_string(), true);
    assert_eq!(hints.into_inner(), vec![word.clone(), word.clone(), word]);
    let (done, results) = all(&mut forest, at(w, &[v(0)]));
    assert!(!done);
    assert_eq!(results, vec!["Floundered"]);
    let (goal, _) = forest.context().canonical_goal(&at(w, &[v(0)]));
    let table = forest.find_table(&goal).unwrap();
    assert_eq!(forest.tables[table].state, TableState::Floundered);
    assert_eq!(forest.root_answer(table, 0).unwrap_err(), RootSearchFail::Floundered);
    assert_eq!(one(&mut forest, at(w, &[v(0)])), "No possible solution");
    // ground, the negation is decided
    assert_eq!(one(&mut forest, at(w, &[a])), "No possible solution");
    assert_eq!(
        one(&mut forest, at(w, &[Term::Const(1)])),
        "Unique; substitution [], lifetime constraints []"
    );
}

#[test]
fn a_negation_waits_for_its_variables() {
    // r(X) :- not s(X), t(X).  t(a). t(b). s(a).
    let mut program = Context::new();
    let r = program.add_predicate("r", 1, false);
    let s = program.add_predicate("s", 1, false);
    let t = program.add_predicate("t", 1, false);
    let a = program.add_constant("a");
    let b = program.add_constant("b");
    clause(&mut program, 1, at(r, &[v(0)]), vec![not(s, &[v(0)]), yes(t, &[v(0)])]);
    clause(&mut program, 0, at(t, &[a]), vec![]);
    clause(&mut program, 0, at(t, &[b]), vec![]);
    clause(&mut program, 0, at(s, &[a]), vec![]);
    program.set_stratum(r, 1);
    assert!(program.is_stratified());
    let mut forest = Forest::new(program);
    assert_eq!(
        one(&mut forest, at(r, &[v(0)])),
        "Unique; substitution [?0 := b], lifetime constraints []"
    );
}

#[test]
fn stratified_negation_is_decided() {
    // win(X) :- move(X, Y), not win(Y).  move(a, b). move(b, c).
    // No goal depends on its own negation, though the predicate does: the
    // program has no strata, and the pulls at the table decide it.
    let mut program = Context::new();
    let win = program.add_predicate("win", 1, false);
    let mv = program.add_predicate("move", 2, false);
    let a = program.add_constant("a");
    let b = program.add_constant("b");
    let c = program.add_constant("c");
    clause(&mut program, 0, at(mv, &[a, b]), vec![]);
    clause(&mut program, 0, at(mv, &[b, c]), vec![]);
    clause(&mut program, 2, at(win, &[v(0)]), vec![yes(mv, &[v(0), v(1)]), not(win, &[v(1)])]);
    assert!(!program.is_stratified());
    let mut forest = Forest::new(program);
    let (found, end) = pulled(&mut forest, at(win, &[v(0)]));
    assert_eq!(end, RootSearchFail::NoMoreSolutions);
    assert_eq!(found, vec![vec![b]]);
    assert!(!forest.is_poisoned());
}

#[test]
fn an_undecided_negation_makes_the_answer_ambiguous() {
    // C1 :- C2, C3.  C2 :- C1.  (coinductive; C3 has no clause)
    // e(T) :- not C2(T).
    let build = || {
        let mut program = Context::new();
        let c1 = program.add_predicate("C1", 1, true);
        let c2 = program.add_predicate("C2", 1, true);
        let c3 = program.add_predicate("C3", 1, true);
        let e = program.add_predicate("e", 1, false);
        let a = program.add_constant("a");
        clause(&mut program, 1, at(c1, &[v(0)]), vec![yes(c2, &[v(0)]), yes(c3, &[v(0)])]);
        clause(&mut program, 1, at(c2, &[v(0)]), vec![yes(c1, &[v(0)])]);
        clause(&mut program, 1, at(e, &[v(0)]), vec![not(c2, &[v(0)])]);
        program.set_stratum(e, 1);
        assert!(program.is_stratified());
        (program, c1, c2, e, a)
    };
    // Resolved under `C1`, `C2` gets an answer that assumes `C1`, which
    // then fails. The answer stays, and it is not for use outside.
    let (program, c1, c2, e, a) = build();
    let mut forest = Forest::new(program);
    assert_eq!(one(&mut forest, at(c1, &[a])), "No possible solution");
    let table = forest.find_table(&at(c2, &[a])).unwrap();
    assert_eq!(forest.tables[table].state, TableState::Complete);
    assert_eq!(forest.tables[table].answers.len(), 1);
    assert_eq!(forest.tables[table].answers[0].delayed.len(), 1);
    assert_eq!(forest.root_answer(table, 0).unwrap_err(), RootSearchFail::InvalidAnswer);
    assert_eq!(forest.root_answer(table, 1).unwrap_err(), RootSearchFail::NoMoreSolutions);
    assert_eq!(one(&mut forest, at(c2, &[a])), "No possible solution");
    // The negation of a goal with such an answer is not decided.
    let (done, answers) = all(&mut forest, at(e, &[a]));
    assert!(done);
    assert_eq!(answers, vec!["Ambiguous(substitution [], lifetime constraints [])"]);
    assert_eq!(one(&mut forest, at(e, &[a])), "Ambiguous; no inference guidance");
    // Resolved on its own, `C2` has no answer at all, and its negation
    // holds.
    let (program, _, _, e, a) = build();
    let mut forest = Forest::new(program);
    assert_eq!(one(&mut forest, at(e, &[a])), "Unique; substitution [], lifetime constraints []");
}

#[test]
fn an_assumption_that_holds_is_confirmed() {
    // forall<A, B> { A: C1 if B: C1, B = X, A: C2 }   impl C2 for Y   impl C2 for X
    let mut program = Context::new();
    let c1 = program.add_predicate("C1", 1, true);
    let c2 = program.add_predicate("C2", 1, false);
    let x = program.add_constant("X");
    let y = program.add_constant("Y");
    clause(
        &mut program,
        2,
        at(c1, &[v(0)]),
        vec![yes(c1, &[v(1)]), Literal::Equals(v(1), x), yes(c2, &[v(0)])],
    );
    clause(&mut program, 0, at(c2, &[y]), vec![]);
    clause(&mut program, 0, at(c2, &[x]), vec![]);
    let mut forest = Forest::new(program);
    // `Y: C1` holds if `X: C1` does, and `X: C1` holds if `X: C1` does
    let (done, answers) = all(&mut forest, at(c1, &[v(0)]));
    assert!(done);
    assert_eq!(
        answers,
        vec![
            "substitution [?0 := Y], lifetime constraints []",
            "substitution [?0 := X], lifetime constraints []",
        ]
    );
    // the answers that rest on the assumption are recorded beside them,
    // and they are passed over
    let (goal, _) = forest.context().canonical_goal(&at(c1, &[v(0)]));
    let table = forest.find_table(&goal).unwrap();
    assert_eq!(forest.tables[table].state, TableState::Complete);
    let mut conditional = 0;
    let mut given = Vec::new();
    for index in 0..forest.tables[table].answers.len() {
        match forest.root_answer(table, index) {
            Ok(answer) => given.push(answer.subst.values),
            Err(fail) => {
                assert_eq!(fail, RootSearchFail::InvalidAnswer);
                assert!(forest.tables[table].answers[index].is_conditional());
                conditional += 1;
            }
        }
    }
    assert!(conditional > 0);
    assert_eq!(given, vec![vec![y], vec![x]]);
}

#[test]
fn every_goal_on_a_coinductive_cycle_holds_whichever_was_asked_first() {
    for first in 0..3 {
        let mut program = Context::new();
        let any = program.add_predicate("Any", 1, false);
        let cs: Vec<usize> =
            (0..3).map(|i| program.add_predicate(["C1", "C2", "C3"][i], 1, true)).collect();
        for i in 0..3 {
            clause(&mut program, 1, at(cs[i], &[v(0)]), vec![yes(cs[(i + 1) % 3], &[v(0)])]);
        }
        for i in 0..3 {
            clause(&mut program, 1, at(any, &[v(0)]), vec![yes(cs[(first + i) % 3], &[v(0)])]);
        }
        let mut forest = Forest::new(program);
        let x = Term::Placeholder(0);
        for goal in [any, cs[0], cs[1], cs[2]] {
            let (done, answers) = all(&mut forest, at(goal, &[x]));
            assert!(done);
            assert_eq!(answers, vec!["substitution [], lifetime constraints []"]);
        }
        for table in forest.tables.iter() {
            assert_eq!(table.state, TableState::Complete);
        }
    }
}

#[test]
fn only_the_callers_predicate_cuts_a_look_short() {
    let (program, path, [a, _, _]) = paths();
    let mut forest = Forest::new(program);
    // five steps are not enough for the first answer
    let (ended, results) = within(&mut forest, at(path, &[a, v(0)]), 5);
    assert!(!ended);
    assert!(results.is_empty());
    let mut answers = forest.iter_answers(&at(path, &[a, v(0)]));
    let table = answers.table;
    assert!(matches!(answers.peek_answer(|| false), AnswerResult::QuantumExceeded));
    assert_eq!(forest.root_answer(table, 0).unwrap_err(), RootSearchFail::QuantumExceeded);
    assert_eq!(forest.tables[table].state, TableState::InProgress);
    // with a predicate that always says to go on, a look is never cut
    // short: it goes on where the last one stopped
    let mut answers = forest.iter_answers(&at(path, &[a, v(0)]));
    assert!(answers.next_answer(|| true).is_answer());
    assert!(answers.next_answer(|| true).is_answer());
    assert!(answers.next_answer(|| true).is_answer());
    assert!(answers.next_answer(|| true).is_no_more_solutions());
    let (done, results) = all(&mut forest, at(path, &[a, v(0)]));
    assert!(done);
    assert_eq!(results.len(), 3);
}

#[test]
fn solve_multiple_stops_when_told_to() {
    let (program, path, [a, _, _]) = paths();
    let mut forest = Forest::new(program);
    let seen = RefCell::new(Vec::new());
    let done = forest.solve_multiple(&at(path, &[a, v(0)]), |result, more| {
        seen.borrow_mut().push((result, more));
        seen.borrow().len() < 2
    });
    assert!(!done);
    let seen = seen.into_inner();
    assert_eq!(seen.len(), 2);
    assert!(seen[0].1 && seen[1].1);
    assert!(matches!(&seen[0].0, SubstitutionResult::Definite(s) if s.values == vec![Term::Const(1)]));
    // the hint of the last answer says that nothing follows
    let hints = RefCell::new(Vec::new());
    assert!(forest.solve_multiple(&at(path, &[a, v(0)]), |_, more| {
        hints.borrow_mut().push(more);
        true
    }));
    assert_eq!(hints.into_inner(), vec![true, true, false]);
}

#[test]
fn each_answer_goes_on_from_the_cursor() {
    let (program, path, [a, _, _]) = paths();
    let mut forest = Forest::new(program);
    let mut answers = forest.iter_answers(&at(path, &[a, v(0)]));
    assert!(answers.next_answer(|| true).is_answer());
    let count = Cell::new(0);
    assert!(each_answer(answers, |_, _| {
        count.set(count.get() + 1);
        true
    }));
    assert_eq!(count.get(), 2);
    let answers = forest.iter_answers(&at(path, &[a, v(0)]));
    assert!(make_solution(answers, || true).is_some());
}

#[test]
fn the_top_of_the_stack_is_coinductive_from_the_first_coinductive_goal() {
    // impl<T: Send> XXX for T;  Foo: Send if Bar: Send;  Bar: Send if Foo: Send
    let mut program = Context::new();
    let xxx = program.add_predicate("XXX", 1, false);
    let send = program.add_predicate("Send", 1, true);
    let foo = program.add_constant("Foo");
    let bar = program.add_constant("Bar");
    clause(&mut program, 1, at(xxx, &[v(0)]), vec![yes(send, &[v(0)])]);
    clause(&mut program, 0, at(send, &[foo]), vec![yes(send, &[bar])]);
    clause(&mut program, 0, at(send, &[bar]), vec![yes(send, &[foo])]);
    let mut forest = Forest::new(program);
    let table = forest.iter_answers(&at(xxx, &[foo])).table;
    while forest.stack.len() < 3 {
        assert_eq!(forest.root_answer(table, 0).unwrap_err(), RootSearchFail::QuantumExceeded);
    }
    let goals: Vec<(usize, Vec<Term>)> = forest
        .stack
        .entries
        .iter()
        .map(|e| (forest.tables[e.table].goal.pred, forest.tables[e.table].goal.args.clone()))
        .collect();
    assert_eq!(goals, vec![(xxx, vec![foo]), (send, vec![foo]), (send, vec![bar])]);
    assert!(forest.top_of_stack_is_coinductive_from(1));
    assert!(forest.top_of_stack_is_coinductive_from(2));
    assert!(!forest.top_of_stack_is_coinductive_from(0));
    // beyond the top there is no table that is not coinductive
    assert!(forest.top_of_stack_is_coinductive_from(3));
    assert!(forest.top_of_stack_is_coinductive_from(usize::MAX));
    assert_eq!(forest.classify_cycle(1, false, false), CycleKind::Coinductive);
    assert_eq!(forest.classify_cycle(0, false, false), CycleKind::Deferred);
    assert_eq!(forest.classify_cycle(1, false, true), CycleKind::Deferred);
    assert_eq!(forest.classify_cycle(1, true, false), CycleKind::Negative);
    assert_eq!(forest.classify_cycle(0, true, true), CycleKind::Negative);
    assert_eq!(one(&mut forest, at(xxx, &[foo])), "Unique; substitution [], lifetime constraints []");
    assert_eq!(forest.stack.len(), 0);
}

#[test]
fn a_cycle_through_one_inductive_goal_fails_in_any_order() {
    // every rotation and order of `A :- B`, `B :- C`, `C :- A` with one of
    // the three not coinductive has no solution; with all three coinductive
    // each of them holds
    for inductive in 0..4 {
        for first in 0..3 {
            let mut program = Context::new();
            let preds: Vec<usize> = (0..3)
                .map(|i| program.add_predicate(["A", "B", "C"][i], 0, i != inductive))
                .collect();
            for k in 0..3 {
                let i = (first + k) % 3;
                clause(&mut program, 0, at(preds[i], &[]), vec![yes(preds[(i + 1) % 3], &[])]);
            }
            let mut forest = Forest::new(program);
            for goal in 0..3 {
                let expected = if inductive == 3 {
                    "Unique; substitution [], lifetime constraints []"
                } else {
                    "No possible solution"
                };
                assert_eq!(
                    one(&mut forest, at(preds[goal], &[])),
                    expected,
                    "inductive {} first {} goal {}",
                    inductive,
                    first,
                    goal
                );
            }
        }
    }
}

#[test]
fn an_inductive_cycle_with_a_base_case_holds() {
    // p :- q.  q :- p.  q.
    let mut program = Context::new();
    let p = program.add_predicate("p", 0, false);
    let q = program.add_predicate("q", 0, false);
    clause(&mut program, 0, at(p, &[]), vec![yes(q, &[])]);
    clause(&mut program, 0, at(q, &[]), vec![yes(p, &[])]);
    clause(&mut program, 0, at(q, &[]), vec![]);
    let mut forest = Forest::new(program);
    assert_eq!(one(&mut forest, at(p, &[])), "Unique; substitution [], lifetime constraints []");
    assert_eq!(one(&mut forest, at(q, &[])), "Unique; substitution [], lifetime constraints []");
    for table in forest.tables.iter() {
        assert_eq!(table.state, TableState::Complete);
        assert_eq!(table.answers.len(), 1);
    }
}

#[test]
fn a_goal_of_an_unknown_predicate_has_no_solution() {
    let (program, _, [a, _, _]) = paths();
    let mut forest = Forest::new(program);
    assert_eq!(one(&mut forest, at(17, &[a])), "No possible solution");
    // a goal with the wrong number of arguments has none either
    assert_eq!(one(&mut forest, at(0, &[a])), "No possible solution");
    assert!(!forest.context().is_coinductive(&at(17, &[a])));
}

#[test]
fn an_empty_forest_holds_its_program() {
    let mut program = Context::new();
    let p = program.add_predicate("p", 1, true);
    assert_eq!(p, 0);
    assert_eq!(program.add_predicate("q", 2, false), 1);
    assert_eq!(program.add_constant("a"), Term::Const(0));
    assert_eq!(program.add_constant("b"), Term::Const(1));
    let forest = Forest::new(program);
    assert_eq!(forest.tables.len(), 0);
    assert_eq!(forest.stack.len(), 0);
    assert!(!forest.is_poisoned());
    assert_eq!(forest.context().predicates[0].name, "p");
    assert!(forest.context().predicates[0].coinductive);
    assert_eq!(forest.context().predicates[1].arity, 2);
    assert_eq!(forest.context().constants, vec!["a", "b"]);
}

/// `r(X) :- not s(X), t(X).  t(a). t(b). s(a).`
fn with_negation() -> (Context, usize, usize, [Term; 2]) {
    let mut program = Context::new();
    let r = program.add_predicate("r", 1, false);
    let s = program.add_predicate("s", 1, false);
    let t = program.add_predicate("t", 1, false);
    let a = program.add_constant("a");
    let b = program.add_constant("b");
    clause(&mut program, 1, at(r, &[v(0)]), vec![not(s, &[v(0)]), yes(t, &[v(0)])]);
    clause(&mut program, 0, at(t, &[a]), vec![]);
    clause(&mut program, 0, at(t, &[b]), vec![]);
    clause(&mut program, 0, at(s, &[a]), vec![]);
    (program, r, s, [a, b])
}

#[test]
fn a_stratified_program_is_never_poisoned() {
    let (mut program, r, s, _) = with_negation();
    // with every predicate in stratum zero, `r` negates a goal of its own
    // stratum
    assert!(!program.is_stratified());
    program.set_stratum(s, 3);
    assert!(!program.is_stratified());
    program.set_stratum(r, 4);
    assert!(program.is_stratified());
    assert_eq!(program.level_of(r), 4);
    assert_eq!(program.level_of(s), 3);
    assert_eq!(program.level_of(99), 0);
    let mut forest = Forest::new(program);
    assert!(forest.is_consistent());
    let table = forest.iter_answers(&at(r, &[v(0)])).table;
    let mut steps = 0;
    loop {
        match forest.root_answer(table, 1) {
            Err(RootSearchFail::QuantumExceeded) => {
                steps += 1;
                assert!(forest.is_consistent(), "after step {}", steps);
                assert!(forest.keeps_strata());
            }
            other => {
                assert_eq!(other.unwrap_err(), RootSearchFail::NoMoreSolutions);
                break;
            }
        }
    }
    assert!(steps > 5);
    assert!(!forest.is_poisoned());
    assert!(forest.is_consistent());
    assert_eq!(forest.root_answer(table, 0).unwrap().subst.values, vec![Term::Const(1)]);
}

#[test]
fn a_program_with_a_negative_cycle_is_not_stratified() {
    let (mut program, p) = negative_cycle();
    let q = p + 1;
    assert!(!program.is_stratified());
    program.set_stratum(p, 1);
    assert!(!program.is_stratified());
    program.set_stratum(q, 2);
    assert!(!program.is_stratified());
    // a program without negation is stratified as it stands
    let (program, _, _) = paths();
    assert!(program.is_stratified());
}

#[test]
fn a_forest_that_was_tampered_with_is_not_consistent() {
    let (program, path, [a, _, _]) = paths();
    let mut forest = Forest::new(program);
    let table = forest.iter_answers(&at(path, &[a, v(0)])).table;
    for _ in 0..12 {
        let _ = forest.root_answer(table, 5);
        assert!(forest.is_consistent());
    }
    assert!(forest.stack.len() > 0);
    // an entry of the stack that holds no table
    let kept = forest.stack.entries[0].table;
    forest.stack.entries[0].table = 1000;
    assert!(!forest.is_consistent());
    forest.stack.entries[0].table = kept;
    assert!(forest.is_consistent());
    // an entry that waits for one above it
    forest.stack.entries[0].cyclic_min = 7;
    assert!(!forest.is_consistent());
    forest.stack.entries[0].cyclic_min = 0;
    // a goal that is not in canonical form
    forest.tables[table].goal.args[1] = v(4);
    assert!(!forest.is_consistent());
    forest.tables[table].goal.args[1] = v(0);
    assert!(forest.is_consistent());
    // an answer twice
    let (_, answers) = all(&mut forest, at(path, &[a, v(0)]));
    assert_eq!(answers.len(), 3);
    let twice = forest.tables[table].answers[0].clone();
    forest.tables[table].answers.push(twice);
    assert!(!forest.is_consistent());
    forest.tables[table].answers.pop();
    assert!(forest.is_consistent());
    // an answer without a binding for the variable of the goal
    let short = forest.tables[table].answers[0].subst.pop().unwrap();
    assert!(!forest.is_consistent());
    forest.tables[table].answers[0].subst.push(short);
    assert!(forest.is_consistent());
    // a goal with two tables
    let copy = chalk_engine::table::Table::new(forest.tables[table].goal.clone(), false, vec![]);
    forest.tables.push(copy);
    assert!(!forest.is_consistent());
}

#[test]
fn an_assumption_about_another_instance_is_not_taken_for_granted() {
    // p1.   p0 :- q(b, b), p0.
    // q(Y, b) :- q(Y, X), q(a, Y), p1.
    // q(Y, b) :- p0, q(X, Y).
    // all coinductive, over the constants a, b, c
    let build = || {
        let mut program = Context::new();
        let p0 = program.add_predicate("p0", 0, true);
        let p1 = program.add_predicate("p1", 0, true);
        let q = program.add_predicate("q", 2, true);
        let a = program.add_constant("a");
        let b = program.add_constant("b");
        let c = program.add_constant("c");
        clause(&mut program, 0, at(p1, &[]), vec![]);
        clause(&mut program, 0, at(p0, &[]), vec![yes(q, &[b, b]), yes(p0, &[])]);
        clause(
            &mut program,
            2,
            at(q, &[v(1), b]),
            vec![yes(q, &[v(1), v(0)]), yes(q, &[a, v(1)]), yes(p1, &[])],
        );
        clause(&mut program, 2, at(q, &[v(1), b]), vec![yes(p0, &[]), yes(q, &[v(0), v(1)])]);
        (Forest::new(program), q, [a, b, c])
    };
    // `q(Y, b)` holds if some `q(X, Y)` does: that goal is like the one
    // that is asked for, but it is about another instance. Only `q(b, b)`
    // holds itself up.
    let (mut forest, q, [_, b, _]) = build();
    assert_eq!(one(&mut forest, at(q, &[b, b])), "Unique; substitution [], lifetime constraints []");
    // The other instances have no end of goals to ask for. Whatever the
    // search finds within its steps is true.
    for goal in [[v(0), v(1)], [v(0), Term::Const(1)], [Term::Const(0), v(0)]] {
        let (mut forest, q, _) = build();
        let (_, answers) = within(&mut forest, at(q, &goal), 3_000);
        for answer in answers {
            assert!(
                answer == "substitution [?0 := b, ?1 := b], lifetime constraints []"
                    || answer == "substitution [?0 := b], lifetime constraints []",
                "{:?}: {}",
                goal,
                answer
            );
        }
        assert!(forest.is_consistent());
    }
    for first in [Term::Const(0), Term::Const(2)] {
        let (mut forest, q, [_, b, _]) = build();
        let (_, answers) = within(&mut forest, at(q, &[first, b]), 3_000);
        assert!(answers.is_empty(), "{:?}", answers);
    }
}

#[test]
fn an_answer_that_holds_of_every_instance_ends_the_search() {
    // r(X, Y) :- s(X).   r(X, Y).   s(a). s(b).
    let mut program = Context::new();
    let r = program.add_predicate("r", 2, false);
    let s = program.add_predicate("s", 1, false);
    let a = program.add_constant("a");
    let b = program.add_constant("b");
    clause(&mut program, 2, at(r, &[v(0), v(1)]), vec![yes(s, &[v(0)])]);
    clause(&mut program, 2, at(r, &[v(0), v(1)]), vec![]);
    clause(&mut program, 0, at(s, &[a]), vec![]);
    clause(&mut program, 0, at(s, &[b]), vec![]);
    let mut forest = Forest::new(program);
    let (done, answers) = all(&mut forest, at(r, &[v(0), v(1)]));
    assert!(done);
    // the answers of the first clause say less than that of the second,
    // after which nothing is looked for
    assert_eq!(
        answers,
        vec![
            "for<?U0> { substitution [?0 := a, ?1 := ^0], lifetime constraints [] }",
            "for<?U0> { substitution [?0 := b, ?1 := ^0], lifetime constraints [] }",
            "for<?U0,?U0> { substitution [?0 := ^0, ?1 := ^1], lifetime constraints [] }",
        ]
    );
    // a ground goal is done with its first answer
    let (done, answers) = all(&mut forest, at(r, &[a, b]));
    assert!(done);
    assert_eq!(answers, vec!["substitution [], lifetime constraints []"]);
    let table = forest.find_table(&at(r, &[a, b])).unwrap();
    assert_eq!(forest.tables[table].state, TableState::Complete);
    assert_eq!(forest.tables[table].answers.len(), 1);
    assert!(forest.tables[table].strands.is_empty());
    assert_eq!(forest.stack.len(), 0);
    assert!(forest.is_consistent());
}

#[test]
fn a_closed_table_takes_no_strand() {
    let (program, path, [a, _, _]) = paths();
    let mut forest = Forest::new(program);
    let (done, answers) = all(&mut forest, at(path, &[a, v(0)]));
    assert!(done);
    assert_eq!(answers.len(), 3);
    let (goal, _) = forest.context().canonical_goal(&at(path, &[a, v(0)]));
    let table = forest.find_table(&goal).unwrap();
    assert_eq!(forest.tables[table].state, TableState::Complete);
    assert!(forest.tables[table].strands.is_empty());
    assert!(forest.tables[table].blocked.is_empty());
    let strand = chalk_engine::table::Strand {
        subst: vec![v(0)],
        subgoals: vec![],
        delayed: vec![],
        ambiguous: false,
        nvars: 1,
        cursor: 0,
        confirming: false,
        assumed: vec![],
        tried: 0,
    };
    forest.tables[table].put(strand.clone());
    forest.tables[table].park(strand.clone());
    assert!(forest.tables[table].strands.is_empty());
    assert!(forest.tables[table].blocked.is_empty());
    assert!(forest.is_consistent());
    // with every answer consumed, nothing is to come
    let mut answers = forest.iter_answers(&at(path, &[a, v(0)]));
    while !answers.next_answer(|| true).is_no_more_solutions() {}
    assert!(!answers.any_future_answer(|_| true));
    // a closed table that holds a strand all the same is not consistent
    forest.tables[table].strands.push(strand.clone());
    assert!(!forest.is_consistent());
    forest.tables[table].strands.clear();
    assert!(forest.is_consistent());
    // a table in progress takes the strand
    let mut open = Forest::new(paths().0);
    let table = open.iter_answers(&at(path, &[a, v(0)])).table;
    let before = open.tables[table].strands.len();
    open.tables[table].put(strand.clone());
    open.tables[table].park(strand);
    assert_eq!(open.tables[table].strands.len(), before + 1);
    assert_eq!(open.tables[table].blocked.len(), 1);
}

#[test]
fn a_second_query_of_a_complete_table_searches_nothing() {
    let (program, path, [a, _, _]) = paths();
    let mut forest = Forest::new(program);
    let (done, first) = all(&mut forest, at(path, &[a, v(0)]));
    assert!(done);
    let tables = forest.tables.len();
    let before = shape(&forest);
    let calls = Cell::new(0);
    let done = forest.solve_multiple(&at(path, &[a, v(0)]), |_, _| {
        calls.set(calls.get() + 1);
        true
    });
    assert!(done);
    assert_eq!(calls.get(), first.len());
    // nothing was searched
    assert_eq!(shape(&forest), before);
    assert_eq!(forest.tables.len(), tables);
    assert_eq!(forest.stack.len(), 0);
    let (done, second) = all(&mut forest, at(path, &[a, v(0)]));
    assert!(done);
    assert_eq!(first, second);
    // a goal that differs in the names of its variables only has the same table
    let (done, third) = all(&mut forest, at(path, &[a, v(7)]));
    assert!(done);
    assert_eq!(first, third);
    assert_eq!(forest.tables.len(), tables);
}

#[test]
fn a_look_stops_as_soon_as_the_forest_decides_it() {
    let (program, path, [a, _, _]) = paths();
    let mut forest = Forest::new(program);
    let mut answers = forest.iter_answers(&at(path, &[a, v(0)]));
    let table = answers.table;
    assert!(answers.peek_answer(|| true).is_answer());
    let reached = shape(answers.forest);
    let recorded = answers.forest.tables[table].answers.len();
    // the pull before the last one had not decided it
    assert!(recorded >= 1);
    assert!(answers.peek_answer(|| true).is_answer());
    assert!(answers.peek_answer(|| false).is_answer());
    assert_eq!(shape(answers.forest), reached);
    assert_eq!(answers.forest.tables[table].answers.len(), recorded);
    // cut short after every step, the search comes to the same forest
    // and the same answer
    let (program, _, _) = paths();
    let mut slow = Forest::new(program);
    let mut stream = slow.iter_answers(&at(path, &[a, v(0)]));
    let mut looks = 0;
    let found = loop {
        looks += 1;
        match stream.peek_answer(|| false) {
            AnswerResult::QuantumExceeded => {}
            other => break other,
        }
    };
    assert!(found.is_answer());
    assert!(looks > 1);
    assert_eq!(shape(&slow), reached);
    assert_eq!(slow.tables.len(), forest.tables.len());
    for (one, other) in slow.tables.iter().zip(forest.tables.iter()) {
        assert_eq!(one.answers.len(), other.answers.len());
        assert_eq!(one.strands.len(), other.strands.len());
        assert_eq!(one.state, other.state);
    }
}

#[test]
fn the_queries_that_report_a_fault_give_what_the_others_give() {
    let (program, path, [a, _, _]) = paths();
    assert!(program.is_stratified());
    let mut forest = Forest::new(program);
    assert!(forest.is_safe_by_strata());
    let goal = at(path, &[a, v(0)]);
    let tried = forest.try_solve(&goal, || true).unwrap().unwrap();
    let solved = forest.solve(&goal, || true).unwrap();
    assert_eq!(tried.render(forest.context()), solved.render(forest.context()));
    let calls = Cell::new(0);
    let done = forest.try_solve_multiple(&goal, |_, _| {
        calls.set(calls.get() + 1);
        true
    });
    assert!(matches!(done, Ok(true)));
    assert_eq!(calls.get(), 3);
    let mut answers = forest.iter_answers(&goal);
    assert!(matches!(answers.try_peek_answer(|| true), Ok(AnswerResult::Answer(_))));
    assert_eq!(answers.answer, 0);
    assert!(matches!(answers.try_next_answer(|| true), Ok(AnswerResult::Answer(_))));
    assert_eq!(answers.answer, 1);
    let rest = Cell::new(0);
    let done = chalk_engine::forest::try_each_answer(answers, |_, more| {
        rest.set(rest.get() + 1);
        more
    });
    // the callback stopped at the last answer, whose hint says that
    // nothing follows
    assert!(matches!(done, Ok(false)));
    assert_eq!(rest.get(), 2);
    let answers = forest.iter_answers(&goal);
    let solution = chalk_engine::solution::try_make_solution(answers, || true);
    assert!(matches!(solution, Ok(Some(Solution::Ambig(Guidance::Unknown)))));
    // a program with a negative cycle is not safe by its strata, and a
    // poisoned forest is not either
    let (program, p) = negative_cycle();
    let mut faulty = Forest::new(program);
    assert!(!faulty.is_safe_by_strata());
    let (program, w, _) = floundering();
    let mut sound = Forest::new(program);
    assert!(sound.is_safe_by_strata());
    sound.poisoned = true;
    assert!(!sound.is_safe_by_strata());
    assert!(matches!(sound.try_solve(&at(w, &[v(0)]), || true), Err(NegativeCycle)));
    assert!(matches!(faulty.try_solve(&at(p, &[]), || false), Ok(None)));
    assert!(!faulty.is_poisoned());
}

#[test]
fn a_query_says_no_only_when_the_callback_does() {
    // without answers and with the search floundered, a callback that
    // goes on is asked again, and the query says what it said last
    let (program, w, _) = floundering();
    let mut forest = Forest::new(program);
    for stop_at in 1..6 {
        let calls = Cell::new(0);
        let done = forest.solve_multiple(&at(w, &[v(0)]), |result, more| {
            assert!(matches!(result, SubstitutionResult::Floundered));
            assert!(more);
            calls.set(calls.get() + 1);
            calls.get() < stop_at
        });
        assert!(!done);
        assert_eq!(calls.get(), stop_at);
    }
    // with answers, a callback that always goes on is told `true`
    let (program, path, [a, _, _]) = paths();
    let mut forest = Forest::new(program);
    assert!(forest.solve_multiple(&at(path, &[a, v(0)]), |_, _| true));
    // and one that stops at the first answer is told `false`
    assert!(!forest.solve_multiple(&at(path, &[a, v(0)]), |_, _| false));
    // a goal without answers: the callback is not called
    assert!(forest.solve_multiple(&at(path, &[Term::Const(7), v(0)]), |_, _| false));
}
