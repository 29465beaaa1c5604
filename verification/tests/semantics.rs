//! The answers of the engine held against the models of small programs,
//! which are worked out here from the ground instances of the clauses.

use chalk_engine::context::{
    constrained_subst_from_answer, AnswerResult, ConstrainedSubst, Context,
};
use chalk_engine::forest::{Forest, SubstitutionResult};
use chalk_engine::term::{Atom, Clause, Literal, Term};
use std::cell::{Cell, RefCell};
use std::collections::BTreeSet;

/// A small generator of numbers that gives the same sequence every time.
struct Numbers(u64);

impl Numbers {
    fn next(&mut self) -> u64 {
        self.0 = self.0.wrapping_mul(6364136223846793005).wrapping_add(1442695040888963407);
        self.0 >> 33
    }

    fn below(&mut self, n: usize) -> usize {
        (self.next() % n as u64) as usize
    }

    fn between(&mut self, low: usize, high: usize) -> usize {
        low + self.below(high - low + 1)
    }

    fn chance(&mut self, percent: u64) -> bool {
        self.next() % 100 < percent
    }
}

#[derive(Clone, Copy, PartialEq)]
enum Kind {
    Inductive,
    Coinductive,
    Stratified,
}

/// A ground atom: a predicate and constants.
type Fact = (usize, Vec<usize>);

struct Sample {
    program: Context,
    arity: Vec<usize>,
    constants: usize,
    /// The ground instances of the clauses: the head, and each literal of
    /// the body with `true` for a negation.
    instances: Vec<(Fact, Vec<(bool, Fact)>)>,
    stratum: Vec<usize>,
}

fn tuples(constants: usize, n: usize) -> Vec<Vec<usize>> {
    let mut all = vec![vec![]];
    for _ in 0..n {
        let mut longer = Vec::new();
        for t in &all {
            for c in 0..constants {
                let mut t = t.clone();
                t.push(c);
                longer.push(t);
            }
        }
        all = longer;
    }
    all
}

fn ground(atom: &Atom, values: &[usize]) -> Fact {
    let args = atom
        .args
        .iter()
        .map(|t| match t {
            Term::Var(v) => values[*v],
            Term::Const(c) => *c,
            Term::Placeholder(_) => unreachable!(),
        })
        .collect();
    (atom.pred, args)
}

fn sample(seed: u64, kind: Kind) -> Sample {
    let mut rnd = Numbers(seed.wrapping_mul(7919).wrapping_add(17));
    for _ in 0..4 {
        rnd.next();
    }
    let predicates = rnd.between(2, 5);
    let constants = rnd.between(1, 3);
    let mut program = Context::new();
    let mut arity = Vec::new();
    let mut stratum = Vec::new();
    for p in 0..predicates {
        arity.push(rnd.below(3));
        let name = format!("p{}", p);
        program.add_predicate(&name, arity[p], kind == Kind::Coinductive);
        stratum.push(if kind == Kind::Stratified { rnd.below(3) } else { 0 });
        program.set_stratum(p, stratum[p]);
    }
    for c in 0..constants {
        program.add_constant(&format!("k{}", c));
    }
    let mut instances = Vec::new();
    for _ in 0..rnd.between(2, 8) {
        let head_pred = rnd.below(predicates);
        let nvars = rnd.below(3);
        let mut term = |rnd: &mut Numbers| {
            if nvars > 0 && rnd.chance(60) {
                Term::Var(rnd.below(nvars))
            } else {
                Term::Const(rnd.below(constants))
            }
        };
        let mut atom = |rnd: &mut Numbers, pred: usize| Atom {
            pred,
            args: (0..arity[pred]).map(|_| term(rnd)).collect(),
        };
        let head = atom(&mut rnd, head_pred);
        let mut body = Vec::new();
        for _ in 0..rnd.below(4) {
            if kind == Kind::Stratified {
                let negated = rnd.chance(30);
                let fitting: Vec<usize> = (0..predicates)
                    .filter(|q| {
                        if negated {
                            stratum[*q] < stratum[head_pred]
                        } else {
                            stratum[*q] <= stratum[head_pred]
                        }
                    })
                    .collect();
                if fitting.is_empty() {
                    continue;
                }
                let pred = fitting[rnd.below(fitting.len())];
                let a = atom(&mut rnd, pred);
                body.push(if negated { Literal::Negative(a) } else { Literal::Positive(a) });
            } else {
                let pred = rnd.below(predicates);
                body.push(Literal::Positive(atom(&mut rnd, pred)));
            }
        }
        // every variable of the clause is to occur in a positive literal
        let mut bound = BTreeSet::new();
        let mut used = BTreeSet::new();
        let mut note = |atom: &Atom, set: &mut BTreeSet<usize>| {
            for t in &atom.args {
                if let Term::Var(v) = t {
                    set.insert(*v);
                }
            }
        };
        note(&head, &mut used);
        for literal in &body {
            match literal {
                Literal::Positive(a) => {
                    note(a, &mut used);
                    note(a, &mut bound);
                }
                Literal::Negative(a) => note(a, &mut used),
                Literal::Equals(_, _) => {}
            }
        }
        if !used.is_subset(&bound) {
            continue;
        }
        for values in tuples(constants, nvars) {
            let literals = body
                .iter()
                .map(|l| match l {
                    Literal::Positive(a) => (false, ground(a, &values)),
                    Literal::Negative(a) => (true, ground(a, &values)),
                    Literal::Equals(_, _) => unreachable!(),
                })
                .collect();
            instances.push((ground(&head, &values), literals));
        }
        program.add_clause(Clause { nvars, head, body });
    }
    Sample { program, arity, constants, instances, stratum }
}

impl Sample {
    fn facts(&self) -> Vec<Fact> {
        let mut all = Vec::new();
        for p in 0..self.arity.len() {
            for args in tuples(self.constants, self.arity[p]) {
                all.push((p, args));
            }
        }
        all
    }

    /// The least model, stratum by stratum.
    fn least_model(&self) -> BTreeSet<Fact> {
        let mut model = BTreeSet::new();
        for level in 0..3 {
            loop {
                let mut grown = false;
                for (head, body) in &self.instances {
                    if self.stratum[head.0] == level
                        && !model.contains(head)
                        && body.iter().all(|(negated, fact)| model.contains(fact) != *negated)
                    {
                        model.insert(head.clone());
                        grown = true;
                    }
                }
                if !grown {
                    break;
                }
            }
        }
        model
    }

    /// The greatest set of facts each of which has a clause whose body lies
    /// in the set.
    fn greatest_model(&self) -> BTreeSet<Fact> {
        let mut model: BTreeSet<Fact> = self.facts().into_iter().collect();
        loop {
            let unsupported: Vec<Fact> = model
                .iter()
                .filter(|fact| {
                    !self.instances.iter().any(|(head, body)| {
                        head == *fact && body.iter().all(|(_, needed)| model.contains(needed))
                    })
                })
                .cloned()
                .collect();
            if unsupported.is_empty() {
                return model;
            }
            for fact in unsupported {
                model.remove(&fact);
            }
        }
    }
}

/// The ground instances of the answers of `goal`, and whether the search
/// was carried to its end.
///
/// Without a number of steps every answer is asked for, and the query is
/// told to stop at the word that the search has floundered. With one, the
/// answers are pulled one by one, and the search is cut short when it has
/// taken so many steps.
fn answers(
    forest: &mut Forest,
    goal: &Atom,
    constants: usize,
    steps: Option<usize>,
) -> (BTreeSet<Vec<usize>>, bool) {
    let seen: RefCell<Vec<SubstitutionResult<ConstrainedSubst>>> = RefCell::new(Vec::new());
    let done = match steps {
        None => forest.solve_multiple(goal, |result, _| {
            let go = !matches!(result, SubstitutionResult::Floundered);
            seen.borrow_mut().push(result);
            go
        }),
        Some(steps) => {
            let left = Cell::new(steps);
            let mut stream = forest.iter_answers(goal);
            loop {
                let pulled = stream.next_answer(|| {
                    let go = left.get() > 0;
                    left.set(left.get().saturating_sub(1));
                    go
                });
                match pulled {
                    AnswerResult::Answer(answer) => {
                        assert!(!answer.ambiguous, "an answer in doubt for {:?}", goal);
                        seen.borrow_mut().push(SubstitutionResult::Definite(
                            constrained_subst_from_answer(answer),
                        ));
                    }
                    AnswerResult::NoMoreSolutions => break true,
                    _ => break false,
                }
            }
        }
    };
    let mut found = BTreeSet::new();
    let mut ended = done;
    for result in seen.into_inner() {
        match result {
            SubstitutionResult::Definite(subst) => {
                for values in tuples(constants, subst.binders) {
                    let args: Vec<usize> = goal
                        .args
                        .iter()
                        .map(|t| match t {
                            Term::Const(c) => *c,
                            Term::Var(v) => match subst.values[*v] {
                                Term::Const(c) => c,
                                Term::Var(b) => values[b],
                                Term::Placeholder(_) => unreachable!(),
                            },
                            Term::Placeholder(_) => unreachable!(),
                        })
                        .collect();
                    found.insert(args);
                }
            }
            SubstitutionResult::Ambiguous(_) => panic!("an answer in doubt for {:?}", goal),
            SubstitutionResult::Floundered => assert!(!done),
        }
    }
    (found, ended)
}

/// Holds the answers of every goal of the sample against `model`. Where a
/// search was not carried to its end, what it found must still be true.
/// Gives the number of searches that ended, and the number of searches.
fn compare(
    seed: u64,
    mut sample: Sample,
    model: &BTreeSet<Fact>,
    must_end: bool,
) -> (usize, usize) {
    let facts = sample.facts();
    let arity = sample.arity.clone();
    let constants = sample.constants;
    let program = std::mem::replace(&mut sample.program, Context::new());
    let stratified = program.is_stratified();
    let mut forest = Forest::new(program);
    let mut rnd = Numbers(seed);
    let mut goals: Vec<Atom> = facts
        .iter()
        .map(|(p, args)| Atom { pred: *p, args: args.iter().map(|c| Term::Const(*c)).collect() })
        .collect();
    for p in 0..arity.len() {
        if arity[p] > 0 {
            goals.push(Atom { pred: p, args: (0..arity[p]).map(Term::Var).collect() });
        }
        if arity[p] == 2 {
            goals.push(Atom { pred: p, args: vec![Term::Var(0), Term::Var(0)] });
            goals.push(Atom { pred: p, args: vec![Term::Const(0), Term::Var(0)] });
        }
    }
    for i in (1..goals.len()).rev() {
        goals.swap(i, rnd.below(i + 1));
    }
    let mut ended_searches = 0;
    for goal in &goals {
        let steps = if must_end { None } else { Some(3_000) };
        let (found, ended) = answers(&mut forest, goal, constants, steps);
        let expected: BTreeSet<Vec<usize>> = model
            .iter()
            .filter(|(p, args)| {
                *p == goal.pred
                    && goal.args.iter().enumerate().all(|(i, t)| match t {
                        Term::Const(c) => args[i] == *c,
                        Term::Var(v) => {
                            let first = goal.args.iter().position(|u| *u == Term::Var(*v)).unwrap();
                            args[i] == args[first]
                        }
                        Term::Placeholder(_) => unreachable!(),
                    })
            })
            .map(|(_, args)| args.clone())
            .collect();
        assert!(found.is_subset(&expected), "seed {} goal {:?}: {:?}", seed, goal, found);
        if ended {
            assert_eq!(found, expected, "seed {} goal {:?}", seed, goal);
            ended_searches += 1;
        } else {
            assert!(!must_end, "seed {} goal {:?} floundered", seed, goal);
        }
    }
    assert!(forest.is_consistent(), "seed {}", seed);
    assert!(stratified && !forest.is_poisoned(), "seed {}", seed);
    (ended_searches, goals.len())
}

#[test]
fn inductive_programs_have_their_least_model() {
    for seed in 0..400 {
        let sample = sample(seed, Kind::Inductive);
        assert!(sample.program.is_stratified());
        let model = sample.least_model();
        compare(seed, sample, &model, true);
    }
}

#[test]
fn stratified_programs_have_their_perfect_model() {
    let mut negations = 0;
    for seed in 0..400 {
        let sample = sample(seed, Kind::Stratified);
        assert!(sample.program.is_stratified(), "seed {}", seed);
        negations +=
            sample.instances.iter().filter(|(_, body)| body.iter().any(|(n, _)| *n)).count();
        let model = sample.least_model();
        compare(seed, sample, &model, true);
    }
    assert!(negations > 100);
}

#[test]
fn coinductive_programs_have_their_greatest_model() {
    let mut ended = 0;
    let mut goals = 0;
    for seed in 0..150 {
        let sample = sample(seed, Kind::Coinductive);
        let model = sample.greatest_model();
        let (some, all) = compare(seed, sample, &model, false);
        ended += some;
        goals += all;
    }
    // most searches are carried to their end
    assert!(ended * 100 > goals * 95, "{} of {}", ended, goals);
}
