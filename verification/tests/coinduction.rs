//! Cycles through coinductive and inductive predicates.

use chalk_engine::context::{ConstrainedSubst, Context};
use chalk_engine::forest::{Forest, SubstitutionResult};
use chalk_engine::render::Render;
use chalk_engine::term::{Atom, Clause, Literal, Term};
use std::cell::RefCell;

fn atom(pred: usize, args: &[Term]) -> Atom {
    Atom { pred, args: args.to_vec() }
}

fn holds(pred: usize, args: &[Term]) -> Literal {
    Literal::Positive(atom(pred, args))
}

fn rule(program: &mut Context, nvars: usize, head: Atom, body: Vec<Literal>) {
    program.add_clause(Clause { nvars, head, body });
}

/// The solution of `goal`, written out.
fn yields(forest: &mut Forest, goal: Atom) -> String {
    match forest.solve(&goal, || true) {
        Some(solution) => solution.render(forest.context()),
        None => "No possible solution".to_string(),
    }
}

/// Every answer of `goal`, written out, in the order in which they came.
fn yields_all(forest: &mut Forest, goal: Atom) -> Vec<String> {
    let seen: RefCell<Vec<(SubstitutionResult<ConstrainedSubst>, bool)>> = RefCell::new(Vec::new());
    let done = forest.solve_multiple(&goal, |result, more| {
        seen.borrow_mut().push((result, more));
        true
    });
    assert!(done, "Not all solutions solved");
    let seen = seen.into_inner();
    let count = seen.len();
    let mut out = Vec::new();
    for (i, (result, more)) in seen.into_iter().enumerate() {
        assert_eq!(more, i + 1 < count, "the hint at answer {}", i);
        out.push(result.render(forest.context()));
    }
    out
}

const T: Term = Term::Var(0);

#[test]
fn mixed_semantics() {
    let mut program = Context::new();
    let send = program.add_predicate("Send", 1, true);
    let foo = program.add_predicate("Foo", 1, false);
    let bar = program.add_constant("Bar");
    // impl Send for Bar where Bar: Foo
    rule(&mut program, 0, atom(send, &[bar]), vec![holds(foo, &[bar])]);
    // impl Foo for Bar where Bar: Send
    rule(&mut program, 0, atom(foo, &[bar]), vec![holds(send, &[bar])]);
    let mut forest = Forest::new(program);

    // The cycle `(T: Send) :- (T: Foo) :- (T: Send)` has the non-coinductive
    // inner component `T: Foo`, so it is rejected.
    assert_eq!(yields(&mut forest, atom(send, &[bar])), "No possible solution");
    assert_eq!(yields(&mut forest, atom(foo, &[bar])), "No possible solution");
}

fn unification_program() -> (Context, usize) {
    let mut program = Context::new();
    let c1 = program.add_predicate("C1", 1, true);
    let c2 = program.add_predicate("C2", 1, true);
    let c3 = program.add_predicate("C3", 1, true);
    let x = program.add_constant("X");
    let y = program.add_constant("Y");
    // forall<T> { T: C1 if T: C2, T = X }
    rule(&mut program, 1, atom(c1, &[T]), vec![holds(c2, &[T]), Literal::Equals(T, x)]);
    // forall<T> { T: C2 if T: C3, T = Y }
    rule(&mut program, 1, atom(c2, &[T]), vec![holds(c3, &[T]), Literal::Equals(T, y)]);
    // forall<T> { T: C3 if T: C1, T: C2 }
    rule(&mut program, 1, atom(c3, &[T]), vec![holds(c1, &[T]), holds(c2, &[T])]);
    (program, c1)
}

#[test]
fn coinductive_unification() {
    let (program, c1) = unification_program();
    let mut forest = Forest::new(program);
    // forall<T> { T: C1 }
    assert_eq!(yields(&mut forest, atom(c1, &[Term::Placeholder(0)])), "No possible solution");

    let (program, c1) = unification_program();
    let mut forest = Forest::new(program);
    // exists<T> { T: C1 }
    assert_eq!(yields(&mut forest, atom(c1, &[Term::Var(0)])), "No possible solution");
}

#[test]
fn coinductive_nontrivial() {
    let mut program = Context::new();
    let c1 = program.add_predicate("C1", 1, true);
    let c2 = program.add_predicate("C2", 1, false);
    let x = program.add_constant("X");
    let y = program.add_constant("Y");
    let (a, b) = (Term::Var(0), Term::Var(1));
    // forall<A, B> { A: C1 if B: C1, B = X, A: C2 }
    rule(
        &mut program,
        2,
        atom(c1, &[a]),
        vec![holds(c1, &[b]), Literal::Equals(b, x), holds(c2, &[a])],
    );
    // impl C2 for Y
    rule(&mut program, 0, atom(c2, &[y]), vec![]);
    let mut forest = Forest::new(program);
    // exists<T> { T: C1 }
    assert_eq!(yields(&mut forest, atom(c1, &[Term::Var(0)])), "No possible solution");
}

#[test]
fn coinductive_trivial_variant1() {
    let mut program = Context::new();
    let c1 = program.add_predicate("C1", 2, true);
    let c2 = program.add_predicate("C2", 2, true);
    let x = program.add_constant("X");
    let (a, b) = (Term::Var(0), Term::Var(1));
    // forall<A, B> { A: C1<B> if A: C2<B>, A = X, B = X }
    rule(
        &mut program,
        2,
        atom(c1, &[a, b]),
        vec![holds(c2, &[a, b]), Literal::Equals(a, x), Literal::Equals(b, x)],
    );
    // forall<A, B> { A: C2<B> if B: C1<A> }
    rule(&mut program, 2, atom(c2, &[a, b]), vec![holds(c1, &[b, a])]);
    let mut forest = Forest::new(program);
    // exists<T, U> { T: C1<U> }
    assert_eq!(
        yields(&mut forest, atom(c1, &[Term::Var(0), Term::Var(1)])),
        "Unique; substitution [?0 := X, ?1 := X], lifetime constraints []"
    );
}

#[test]
fn coinductive_trivial_variant2() {
    let mut program = Context::new();
    let c1 = program.add_predicate("C1", 2, true);
    let c2 = program.add_predicate("C2", 2, true);
    let x = program.add_constant("X");
    let _y = program.add_constant("Y");
    let (a, b) = (Term::Var(0), Term::Var(1));
    // forall<A, B> { A: C1<B> if A: C2<B>, A = X }
    rule(&mut program, 2, atom(c1, &[a, b]), vec![holds(c2, &[a, b]), Literal::Equals(a, x)]);
    // forall<A, B> { A: C2<B> if B: C1<A> }
    rule(&mut program, 2, atom(c2, &[a, b]), vec![holds(c1, &[b, a])]);
    let mut forest = Forest::new(program);
    // exists<T, U> { T: C1<U> }
    assert_eq!(
        yields(&mut forest, atom(c1, &[Term::Var(0), Term::Var(1)])),
        "Unique; substitution [?0 := X, ?1 := X], lifetime constraints []"
    );
}

#[test]
fn coinductive_trivial_variant3() {
    let mut program = Context::new();
    let c1 = program.add_predicate("C1", 2, true);
    let (a, b) = (Term::Var(0), Term::Var(1));
    // forall<A, B> { A: C1<B> if B: C1<A> }
    rule(&mut program, 2, atom(c1, &[a, b]), vec![holds(c1, &[b, a])]);
    let mut forest = Forest::new(program);
    // exists<T, U> { T: C1<U> }
    assert_eq!(
        yields(&mut forest, atom(c1, &[Term::Var(0), Term::Var(1)])),
        "Unique; for<?U0,?U0> { substitution [?0 := ^0, ?1 := ^1], lifetime constraints [] }"
    );
}

/// `C1 :- C2, C3`, `C2 :- C1`, and `C1orC2` by the clauses for `C1` and `C2`
/// in the given order.
fn unsound_program(order: [usize; 2]) -> (Context, usize) {
    let mut program = Context::new();
    let c1_or_c2 = program.add_predicate("C1orC2", 1, false);
    let c1 = program.add_predicate("C1", 1, true);
    let c2 = program.add_predicate("C2", 1, true);
    let c3 = program.add_predicate("C3", 1, true);
    // forall<T> { T: C1 if T: C2, T: C3 }
    rule(&mut program, 1, atom(c1, &[T]), vec![holds(c2, &[T]), holds(c3, &[T])]);
    // forall<T> { T: C2 if T: C1 }
    rule(&mut program, 1, atom(c2, &[T]), vec![holds(c1, &[T])]);
    for which in order {
        let body = if which == 1 { c1 } else { c2 };
        // forall<T> { T: C1orC2 if T: C1 }, or the same with C2
        rule(&mut program, 1, atom(c1_or_c2, &[T]), vec![holds(body, &[T])]);
    }
    (program, c1_or_c2)
}

/// A tricky case for coinductive handling: while proving C1, we try to
/// prove C2, which recursively requires proving C1. Who is naive assumes
/// that C2 therefore holds, but this is wrong, because C1 later fails when
/// proving C3.
#[test]
fn coinductive_unsound1() {
    let (program, goal) = unsound_program([1, 2]);
    let mut forest = Forest::new(program);
    // forall<X> { X: C1orC2 }
    let none: Vec<String> = vec![];
    assert_eq!(yields_all(&mut forest, atom(goal, &[Term::Placeholder(0)])), none);
}

/// As `coinductive_unsound1`, with the two last clauses in the other order.
#[test]
fn coinductive_unsound2() {
    let (program, goal) = unsound_program([2, 1]);
    let mut forest = Forest::new(program);
    // forall<X> { X: C1orC2 }
    let none: Vec<String> = vec![];
    assert_eq!(yields_all(&mut forest, atom(goal, &[Term::Placeholder(0)])), none);
}

/// The predicates `Any`, `C1`, `C2`, `C3` (coinductive) and `C4`.
fn multicycle_predicates(program: &mut Context) -> [usize; 5] {
    let any = program.add_predicate("Any", 1, false);
    let c1 = program.add_predicate("C1", 1, true);
    let c2 = program.add_predicate("C2", 1, true);
    let c3 = program.add_predicate("C3", 1, true);
    let c4 = program.add_predicate("C4", 1, false);
    [any, c1, c2, c3, c4]
}

#[test]
fn coinductive_multicycle1() {
    let mut program = Context::new();
    let [any, c1, c2, c3, _] = multicycle_predicates(&mut program);
    rule(&mut program, 1, atom(c1, &[T]), vec![holds(c2, &[T])]);
    rule(&mut program, 1, atom(c2, &[T]), vec![holds(c3, &[T])]);
    rule(&mut program, 1, atom(c3, &[T]), vec![holds(c1, &[T])]);
    rule(&mut program, 1, atom(any, &[T]), vec![holds(c3, &[T])]);
    rule(&mut program, 1, atom(any, &[T]), vec![holds(c2, &[T])]);
    rule(&mut program, 1, atom(any, &[T]), vec![holds(c1, &[T])]);
    let mut forest = Forest::new(program);
    // forall<X> { X: Any }
    assert_eq!(
        yields_all(&mut forest, atom(any, &[Term::Placeholder(0)])),
        vec!["substitution [], lifetime constraints []".to_string()]
    );
}

#[test]
fn coinductive_multicycle2() {
    let mut program = Context::new();
    let [any, c1, c2, c3, _] = multicycle_predicates(&mut program);
    rule(&mut program, 1, atom(c1, &[T]), vec![holds(c2, &[T])]);
    rule(&mut program, 1, atom(c2, &[T]), vec![holds(c3, &[T])]);
    rule(&mut program, 1, atom(c3, &[T]), vec![holds(c1, &[T]), holds(c2, &[T])]);
    rule(&mut program, 1, atom(any, &[T]), vec![holds(c1, &[T])]);
    let mut forest = Forest::new(program);
    // forall<X> { X: Any }
    assert_eq!(
        yields_all(&mut forest, atom(any, &[Term::Placeholder(0)])),
        vec!["substitution [], lifetime constraints []".to_string()]
    );
}

#[test]
fn coinductive_multicycle3() {
    let mut program = Context::new();
    let [any, c1, c2, c3, c4] = multicycle_predicates(&mut program);
    rule(&mut program, 1, atom(c1, &[T]), vec![holds(c2, &[T])]);
    rule(&mut program, 1, atom(c2, &[T]), vec![holds(c3, &[T]), holds(c4, &[T])]);
    rule(&mut program, 1, atom(c3, &[T]), vec![holds(c1, &[T])]);
    rule(&mut program, 1, atom(any, &[T]), vec![holds(c3, &[T])]);
    rule(&mut program, 1, atom(any, &[T]), vec![holds(c2, &[T])]);
    rule(&mut program, 1, atom(any, &[T]), vec![holds(c1, &[T])]);
    let mut forest = Forest::new(program);
    // forall<X> { X: Any }
    let none: Vec<String> = vec![];
    assert_eq!(yields_all(&mut forest, atom(any, &[Term::Placeholder(0)])), none);
}

#[test]
fn coinductive_multicycle4() {
    let mut program = Context::new();
    let [any, c1, c2, c3, c4] = multicycle_predicates(&mut program);
    rule(&mut program, 1, atom(c1, &[T]), vec![holds(c2, &[T])]);
    rule(&mut program, 1, atom(c2, &[T]), vec![holds(c3, &[T])]);
    rule(&mut program, 1, atom(c3, &[T]), vec![holds(c1, &[T]), holds(c4, &[T])]);
    rule(&mut program, 1, atom(any, &[T]), vec![holds(c3, &[T])]);
    rule(&mut program, 1, atom(any, &[T]), vec![holds(c2, &[T])]);
    rule(&mut program, 1, atom(any, &[T]), vec![holds(c1, &[T])]);
    let mut forest = Forest::new(program);
    // forall<X> { X: Any }
    let none: Vec<String> = vec![];
    assert_eq!(yields_all(&mut forest, atom(any, &[Term::Placeholder(0)])), none);
}
