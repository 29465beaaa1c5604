//! Terms: substitution, unification, numbering, and how they are written.

use chalk_engine::context::{open_clause, ConstrainedSubst, Context};
use chalk_engine::forest::SubstitutionResult;
use chalk_engine::render::{push_decimal, Render};
use chalk_engine::solution::{check_may_invalidate, check_trivial, Guidance, Solution};
use chalk_engine::table::{Answer, Strand};
use chalk_engine::term::{
    canonicalize, instantiate, keep, number_all, shift_term, shift_terms, substitute_term, unify,
    unify_atoms, Atom, Clause, Literal, Term, Unifier,
};

const A: Term = Term::Const(0);
const B: Term = Term::Const(1);

fn var(i: usize) -> Term {
    Term::Var(i)
}

fn app(pred: usize, args: &[Term]) -> Atom {
    Atom { pred, args: args.to_vec() }
}

#[test]
fn unify_binds_the_variable() {
    assert_eq!(unify(A, A), Unifier::Identity);
    assert_eq!(unify(var(3), var(3)), Unifier::Identity);
    assert_eq!(unify(A, B), Unifier::Fail);
    assert_eq!(unify(A, Term::Placeholder(0)), Unifier::Fail);
    assert_eq!(unify(Term::Placeholder(0), Term::Placeholder(1)), Unifier::Fail);
    assert_eq!(unify(Term::Placeholder(1), Term::Placeholder(1)), Unifier::Identity);
    assert_eq!(unify(var(2), A), Unifier::Bind(2, A));
    assert_eq!(unify(A, var(2)), Unifier::Bind(2, A));
    assert_eq!(unify(var(2), Term::Placeholder(0)), Unifier::Bind(2, Term::Placeholder(0)));
    // of two variables the left one is bound
    assert_eq!(unify(var(2), var(5)), Unifier::Bind(2, var(5)));
    assert_eq!(unify(var(5), var(2)), Unifier::Bind(5, var(2)));
}

#[test]
fn atoms_are_unified_term_by_term() {
    // each binding is made in what follows it
    let (vars, terms) = unify_atoms(&app(0, &[var(1), var(1), var(2)]), &app(0, &[A, var(3), var(3)]))
        .unwrap();
    assert_eq!(vars, vec![1, 3, 2]);
    assert_eq!(terms, vec![A, A, A]);
    let (vars, terms) = unify_atoms(&app(0, &[A, B]), &app(0, &[A, B])).unwrap();
    assert!(vars.is_empty() && terms.is_empty());
    assert!(unify_atoms(&app(0, &[var(1), var(1)]), &app(0, &[A, B])).is_none());
    assert!(unify_atoms(&app(0, &[A]), &app(1, &[A])).is_none());
    assert!(unify_atoms(&app(0, &[A]), &app(0, &[A, A])).is_none());
    assert!(unify_atoms(&app(0, &[A]), &app(0, &[Term::Placeholder(0)])).is_none());
}

#[test]
fn substitution_replaces_one_variable() {
    assert_eq!(substitute_term(var(1), 1, A), A);
    assert_eq!(substitute_term(var(2), 1, A), var(2));
    assert_eq!(substitute_term(B, 1, A), B);
    assert_eq!(substitute_term(Term::Placeholder(1), 1, A), Term::Placeholder(1));
    let mut goal = app(0, &[var(1), B, var(1), var(0)]);
    goal.substitute(1, var(7));
    assert_eq!(goal.args, vec![var(7), B, var(7), var(0)]);
    let mut lit = Literal::Equals(var(1), var(2));
    lit.substitute(2, A);
    assert!(matches!(lit, Literal::Equals(Term::Var(1), Term::Const(0))));
}

#[test]
fn shifting_moves_variables_only() {
    assert_eq!(shift_term(var(2), 5), Some(var(7)));
    assert_eq!(shift_term(A, 5), Some(A));
    assert_eq!(shift_term(Term::Placeholder(3), 5), Some(Term::Placeholder(3)));
    assert_eq!(shift_term(var(0), usize::MAX), Some(var(usize::MAX)));
    assert_eq!(shift_term(var(1), usize::MAX), None);
    assert_eq!(shift_terms(&vec![var(0), A, var(1)], 10), Some(vec![var(10), A, var(11)]));
    assert_eq!(shift_terms(&vec![var(0), A, var(1)], usize::MAX), None);
    assert!(app(0, &[var(1)]).shift(usize::MAX).is_none());
    assert_eq!(app(4, &[var(1)]).shift(2).unwrap().args, vec![var(3)]);
}

#[test]
fn variables_are_numbered_by_first_occurrence() {
    let (goal, vars) = canonicalize(&app(3, &[var(9), A, var(4), var(9), Term::Placeholder(2)]));
    assert_eq!(goal.pred, 3);
    assert_eq!(goal.args, vec![var(0), A, var(1), var(0), Term::Placeholder(2)]);
    assert_eq!(vars, vec![9, 4]);
    let (ground, none) = canonicalize(&app(3, &[A, B]));
    assert_eq!(ground.args, vec![A, B]);
    assert!(none.is_empty());
    assert!(app(3, &[A, B]).is_ground());
    assert!(!app(3, &[A, var(0)]).is_ground());
    // a second atom counts on from the first
    let mut seen = vec![7];
    let atoms = number_all(&vec![app(0, &[var(5), var(7)]), app(1, &[var(6), var(5)])], &mut seen);
    assert_eq!(atoms[0].args, vec![var(1), var(0)]);
    assert_eq!(atoms[1].args, vec![var(2), var(1)]);
    assert_eq!(seen, vec![7, 5, 6]);
}

#[test]
fn an_answer_leaves_out_the_assumption_of_its_own_goal() {
    let goal = app(0, &[var(0), var(1)]);
    // the strand answers `p(?5, a)`; it assumed that very instance, one
    // that is like the goal but another instance, and a goal of another
    // predicate
    let delayed = vec![app(0, &[var(5), A]), app(0, &[var(3), var(5)]), app(1, &[var(3), var(5)])];
    let own = instantiate(&goal, &vec![var(5), A]);
    assert_eq!(own.args, vec![var(5), A]);
    assert_eq!(instantiate(&app(2, &[var(1), B, var(7)]), &vec![A, var(2)]).args, vec![var(2), B, var(7)]);
    let rest = keep(&delayed, &own);
    assert_eq!(rest.len(), 2);
    assert_eq!(rest[0].args, vec![var(3), var(5)]);
    assert_eq!(rest[1].pred, 1);
    let strand = Strand {
        subst: vec![var(5), A],
        subgoals: vec![],
        delayed,
        ambiguous: true,
        nvars: 9,
        cursor: 0,
        confirming: false,
        assumed: vec![],
        tried: 0,
    };
    let answer = strand.answer(&goal);
    assert_eq!(answer.subst, vec![var(0), A]);
    assert_eq!(answer.binders, 2);
    assert!(answer.ambiguous);
    assert!(answer.is_conditional());
    assert!(!answer.is_definite());
    assert_eq!(answer.delayed.len(), 2);
    assert_eq!(answer.delayed[0].args, vec![var(1), var(0)]);
    assert_eq!(answer.delayed[1].args, vec![var(1), var(0)]);
    // the strand that is to confirm the answer asks for what was assumed
    // and takes the instance that it answers to hold
    let confirming = strand.confirmation(&goal);
    assert!(confirming.confirming);
    assert_eq!(confirming.subst, vec![var(5), A]);
    assert_eq!(confirming.subgoals.len(), 2);
    assert_eq!(confirming.assumed.len(), 1);
    assert_eq!(confirming.assumed[0].args, vec![var(5), A]);
    assert!(confirming.delayed.is_empty());
    // a literal is met by an assumed goal that it unifies with
    let met = confirming.met(&app(0, &[B, var(2)]), 0).unwrap();
    assert_eq!(met.subst, vec![B, A]);
    assert_eq!(met.assumed[0].args, vec![B, A]);
    assert!(confirming.met(&app(0, &[B, B]), 0).is_none());
    assert!(confirming.met(&app(1, &[B, A]), 0).is_none());
}

#[test]
fn resolving_binds_the_variables_of_the_literal() {
    // the strand `[?2, ?0]` selected `p(?2, ?4)`; the answer binds the
    // first variable to `a` and leaves the second open, on the assumption
    // `q(^0)`
    let strand = Strand {
        subst: vec![var(2), var(0)],
        subgoals: vec![Literal::Equals(var(4), var(2))],
        delayed: vec![app(7, &[var(4)])],
        ambiguous: false,
        nvars: 6,
        cursor: 3,
        confirming: true,
        assumed: vec![app(9, &[var(2)])],
        tried: 1,
    };
    let answer =
        Answer { subst: vec![A, var(0)], binders: 1, delayed: vec![app(1, &[var(0)])], ambiguous: true };
    let asked = app(8, &[var(2), var(4)]);
    let child = strand.resolvent(&answer, &vec![2, 4], &asked).unwrap();
    assert_eq!(child.subst, vec![A, var(0)]);
    assert_eq!(child.nvars, 7);
    assert_eq!(child.cursor, 0);
    assert!(child.ambiguous);
    assert!(child.confirming);
    assert_eq!(child.tried, 0);
    // the goal that was resolved is taken to hold from now on
    assert_eq!(child.assumed.len(), 2);
    assert_eq!(child.assumed[0].args, vec![A]);
    assert_eq!(child.assumed[1].args, vec![A, var(6)]);
    assert_eq!(child.delayed[0].args, vec![var(6)]);
    assert_eq!(child.subgoals.len(), 2);
    assert!(matches!(child.subgoals[0], Literal::Equals(Term::Var(6), Term::Const(0))));
    match &child.subgoals[1] {
        Literal::Positive(atom) => {
            assert_eq!(atom.pred, 1);
            assert_eq!(atom.args, vec![var(6)]);
        }
        other => panic!("a positive literal expected, got {:?}", other),
    }
    let crowded = Strand { nvars: usize::MAX, ..strand.clone() };
    assert!(crowded.resolvent(&answer, &vec![2, 4], &asked).is_none());
    // what the strand asks for already is not asked for twice
    let asking = Strand {
        subgoals: vec![Literal::Positive(app(1, &[var(6)])), Literal::Positive(app(1, &[var(5)]))],
        ..strand.clone()
    };
    let child = asking.resolvent(&answer, &vec![2, 4], &asked).unwrap();
    // what the answer assumed, `q(?6)`, is asked for already; and `q(?5)`
    // is dropped: `?5` occurs nowhere else, and `q(?6)` is asked for
    assert_eq!(child.subgoals.len(), 1);
    assert!(matches!(&child.subgoals[0], Literal::Positive(a) if a.args == vec![var(6)]));
    // and a goal is assumed once
    let mut supposing = strand.clone();
    supposing.suppose(app(7, &[var(4)]));
    assert_eq!(supposing.delayed.len(), 1);
    assert_eq!(supposing.cursor, 0);
    // a goal with a variable of its own is assumed with the one that is
    // there
    supposing.suppose(app(7, &[var(5)]));
    assert_eq!(supposing.delayed.len(), 1);
    supposing.suppose(app(7, &[var(2)]));
    assert_eq!(supposing.delayed.len(), 2);
    assert_eq!(supposing.delayed[1].args, vec![var(2)]);
}

#[test]
fn a_clause_opens_with_the_equations_of_its_head() {
    let clause = Clause {
        nvars: 2,
        head: app(0, &[var(0), A]),
        body: vec![Literal::Negative(app(1, &[var(1)]))],
    };
    let goal = app(0, &[var(0), var(1)]);
    let strand = open_clause(&clause, &goal, 2).unwrap();
    assert_eq!(strand.subst, vec![var(0), var(1)]);
    assert_eq!(strand.nvars, 4);
    assert!(!strand.confirming);
    assert_eq!(strand.subgoals.len(), 3);
    assert!(matches!(strand.subgoals[0], Literal::Equals(Term::Var(0), Term::Var(2))));
    assert!(matches!(strand.subgoals[1], Literal::Equals(Term::Var(1), Term::Const(0))));
    match &strand.subgoals[2] {
        Literal::Negative(atom) => assert_eq!(atom.args, vec![var(3)]),
        other => panic!("a negative literal expected, got {:?}", other),
    }
    assert!(open_clause(&clause, &app(1, &[var(0), var(1)]), 2).is_none());
    assert!(open_clause(&clause, &app(0, &[var(0)]), 1).is_none());
    assert!(open_clause(&clause, &goal, usize::MAX).is_none());
}

#[test]
fn a_binding_may_invalidate_what_is_fixed() {
    // what is left open cannot be contradicted
    assert!(!check_may_invalidate(&vec![A], &vec![var(0)]));
    assert!(!check_may_invalidate(&vec![var(1)], &vec![var(0)]));
    // what is open may become anything
    assert!(check_may_invalidate(&vec![var(0)], &vec![A]));
    assert!(check_may_invalidate(&vec![B], &vec![A]));
    assert!(!check_may_invalidate(&vec![A], &vec![A]));
    assert!(check_may_invalidate(&vec![A, B], &vec![A, A]));
    assert!(!check_may_invalidate(&vec![A, B], &vec![A]));
    assert!(!check_may_invalidate(&vec![], &vec![]));
    assert!(check_trivial(&vec![]));
    assert!(check_trivial(&vec![var(0), var(1)]));
    assert!(!check_trivial(&vec![var(0), var(0)]));
    assert!(!check_trivial(&vec![var(1), var(0)]));
    assert!(!check_trivial(&vec![var(0), A]));
}

#[test]
fn numbers_are_written_in_decimal() {
    for (n, text) in [
        (0usize, "0"),
        (7, "7"),
        (9, "9"),
        (10, "10"),
        (11, "11"),
        (99, "99"),
        (100, "100"),
        (1203, "1203"),
        (usize::MAX, "18446744073709551615"),
    ] {
        let mut s = String::from("n=");
        push_decimal(&mut s, n);
        assert_eq!(s, format!("n={}", text));
    }
}

#[test]
fn substitutions_are_written_with_their_binders() {
    let mut program = Context::new();
    program.add_constant("X");
    program.add_constant("Vec");
    let none = ConstrainedSubst { binders: 0, values: vec![] };
    assert_eq!(none.render(&program), "substitution [], lifetime constraints []");
    let one = ConstrainedSubst { binders: 0, values: vec![B] };
    assert_eq!(one.render(&program), "substitution [?0 := Vec], lifetime constraints []");
    let mixed = ConstrainedSubst {
        binders: 3,
        values: vec![A, var(12), Term::Placeholder(10), Term::Const(5)],
    };
    assert_eq!(
        mixed.render(&program),
        "for<?U0,?U0,?U0> { substitution [?0 := X, ?1 := ^12, ?2 := !1_10, ?3 := #5], lifetime constraints [] }"
    );
    let single = ConstrainedSubst { binders: 1, values: vec![var(0)] };
    assert_eq!(
        single.render(&program),
        "for<?U0> { substitution [?0 := ^0], lifetime constraints [] }"
    );
    assert_eq!(SubstitutionResult::Definite(one.clone()).render(&program), one.render(&program));
    assert_eq!(
        SubstitutionResult::Ambiguous(one.clone()).render(&program),
        "Ambiguous(substitution [?0 := Vec], lifetime constraints [])"
    );
    assert_eq!(SubstitutionResult::<ConstrainedSubst>::Floundered.render(&program), "Floundered");
    assert_eq!(
        Solution::Unique(one.clone()).render(&program),
        "Unique; substitution [?0 := Vec], lifetime constraints []"
    );
    assert_eq!(
        Solution::Ambig(Guidance::Definite(one.clone())).render(&program),
        "Ambiguous; definite substitution [?0 := Vec], lifetime constraints []"
    );
    assert_eq!(
        Solution::Ambig(Guidance::Suggested(one)).render(&program),
        "Ambiguous; suggested substitution [?0 := Vec], lifetime constraints []"
    );
    assert_eq!(Solution::Ambig(Guidance::Unknown).render(&program), "Ambiguous; no inference guidance");
}
