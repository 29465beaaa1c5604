//! The program that a forest resolves goals against, and the vocabulary in
//! which answers leave the engine.

use crate::table::{strands_view, Answer, AnswerView, Strand, StrandView};
use crate::term::{
    canonicalize, canonical, literals_view, shift_seq, shift_terms, Atom, AtomView, Clause,
    Literal, LiteralView, Term,
};
use vstd::prelude::*;

verus! {

/// A predicate of the program.
#[derive(Debug)]
pub struct Predicate {
    pub name: String,
    pub arity: usize,
    /// Whether a cycle through goals of this predicate counts as a proof.
    pub coinductive: bool,
    /// The stratum of the predicate. A program is stratified if no clause
    /// asks for a goal of a higher stratum than that of its head, and none
    /// negates a goal that is not of a lower one.
    pub stratum: usize,
}

/// The mathematical value of a `Clause`.
pub struct ClauseView {
    pub nvars: usize,
    pub head: AtomView,
    pub body: Seq<LiteralView>,
}

impl View for Clause {
    type V = ClauseView;

    open spec fn view(&self) -> ClauseView {
        ClauseView { nvars: self.nvars, head: self.head@, body: literals_view(self.body@) }
    }
}

/// The values of a sequence of clauses.
pub open spec fn clauses_view(s: Seq<Clause>) -> Seq<ClauseView> {
    Seq::new(s.len(), |i: int| s[i]@)
}

/// The variables `0 .. n`, each standing for itself.
pub open spec fn identity(n: usize) -> Seq<Term> {
    Seq::new(n as nat, |i: int| Term::Var(i as usize))
}

/// The equations that unify the arguments of a goal with those of a head.
pub open spec fn equations(goal: Seq<Term>, head: Seq<Term>) -> Seq<LiteralView> {
    Seq::new(goal.len(), |i: int| LiteralView::Equals(goal[i], head[i]))
}

impl ClauseView {
    /// Whether the clause can be tried on a goal with `n` variables: the
    /// head has the goal's predicate and number of arguments, and the
    /// clause's variables can be renamed apart from the goal's.
    pub open spec fn applies(self, goal: AtomView, n: usize) -> bool {
        &&& self.head.pred == goal.pred
        &&& self.head.args.len() == goal.args.len()
        &&& n + self.nvars <= usize::MAX
        &&& self.head.can_shift(n)
        &&& forall|i: int| 0 <= i < self.body.len() ==> (#[trigger] self.body[i]).can_shift(n)
    }

    /// The strand that tries the clause on the goal: the head is unified
    /// with the goal by equations that stand before the body.
    pub open spec fn opening(self, goal: AtomView, n: usize) -> StrandView {
        StrandView {
            subst: identity(n),
            subgoals: equations(goal.args, shift_seq(self.head.args, n)) + Seq::new(
                self.body.len(),
                |i: int| self.body[i].shift(n),
            ),
            delayed: Seq::empty(),
            ambiguous: false,
            nvars: (n + self.nvars) as usize,
            cursor: 0,
            confirming: false,
            assumed: Seq::empty(),
            tried: 0,
        }
    }
}

/// The strands with which the table of a goal starts: one for each clause
/// that applies, that of the first clause last, so that it runs first.
pub open spec fn openings(clauses: Seq<ClauseView>, goal: AtomView, n: usize) -> Seq<StrandView>
    decreases clauses.len(),
{
    if clauses.len() == 0 {
        Seq::empty()
    } else if clauses[0].applies(goal, n) {
        openings(clauses.drop_first(), goal, n).push(clauses[0].opening(goal, n))
    } else {
        openings(clauses.drop_first(), goal, n)
    }
}

/// A substitution for the variables of a goal that leaves `binders`
/// variables open. The open variables are numbered from zero in the order
/// of their first occurrence. The engine attaches no further constraints.
#[derive(Debug)]
pub struct ConstrainedSubst {
    pub binders: usize,
    /// The value of each variable of the goal, by the variable's number.
    pub values: Vec<Term>,
}

/// The mathematical value of a `ConstrainedSubst`.
pub struct ConstrainedSubstView {
    pub binders: usize,
    pub values: Seq<Term>,
}

impl View for ConstrainedSubst {
    type V = ConstrainedSubstView;

    open spec fn view(&self) -> ConstrainedSubstView {
        ConstrainedSubstView { binders: self.binders, values: self.values@ }
    }
}

impl Clone for ConstrainedSubst {
    fn clone(&self) -> (out: Self)
        ensures
            out@ == self@,
    {
        ConstrainedSubst { binders: self.binders, values: crate::term::copy_terms(&self.values) }
    }
}

/// An answer that depends on no assumed goal, as it leaves the engine.
#[derive(Debug)]
pub struct CompleteAnswer {
    pub subst: ConstrainedSubst,
    /// Whether the proof rests on a sub-goal that could not be decided.
    pub ambiguous: bool,
}

/// The mathematical value of a `CompleteAnswer`.
pub struct CompleteAnswerView {
    pub subst: ConstrainedSubstView,
    pub ambiguous: bool,
}

impl View for CompleteAnswer {
    type V = CompleteAnswerView;

    open spec fn view(&self) -> CompleteAnswerView {
        CompleteAnswerView { subst: self.subst@, ambiguous: self.ambiguous }
    }
}

/// The unconditional answer `a` as it leaves the engine.
pub open spec fn complete(a: AnswerView) -> CompleteAnswerView {
    CompleteAnswerView {
        subst: ConstrainedSubstView { binders: a.binders, values: a.subst },
        ambiguous: a.ambiguous,
    }
}

/// Copies an answer into the form in which it leaves the engine.
pub fn complete_answer(a: &Answer) -> (out: CompleteAnswer)
    ensures
        out@ == complete(a@),
{
    CompleteAnswer {
        subst: ConstrainedSubst { binders: a.binders, values: crate::term::copy_terms(&a.subst) },
        ambiguous: a.ambiguous,
    }
}

/// The substitution of an answer, for use outside the engine.
pub fn constrained_subst_from_answer(answer: CompleteAnswer) -> (out: ConstrainedSubst)
    ensures
        out == answer.subst,
{
    answer.subst
}

/// The fault of a program: a goal was found to depend on its own negation.
/// The forest that found it is poisoned.
#[derive(Clone, Copy, Debug, PartialEq, Eq)]
pub struct NegativeCycle;

/// What a pull at a stream of answers gives.
#[derive(Debug)]
pub enum AnswerResult {
    /// The next answer.
    Answer(CompleteAnswer),
    /// The goal depends on a sub-goal that cannot be decided. There may be
    /// answers that were not found.
    Floundered,
    /// Every answer has been handed out.
    NoMoreSolutions,
    /// The search was cut short: the caller did not want it to go on.
    /// There may be more answers.
    QuantumExceeded,
}

/// The mathematical value of an `AnswerResult`.
pub enum AnswerResultView {
    Answer(CompleteAnswerView),
    Floundered,
    NoMoreSolutions,
    QuantumExceeded,
}

impl View for AnswerResult {
    type V = AnswerResultView;

    open spec fn view(&self) -> AnswerResultView {
        match self {
            AnswerResult::Answer(a) => AnswerResultView::Answer(a@),
            AnswerResult::Floundered => AnswerResultView::Floundered,
            AnswerResult::NoMoreSolutions => AnswerResultView::NoMoreSolutions,
            AnswerResult::QuantumExceeded => AnswerResultView::QuantumExceeded,
        }
    }
}

impl AnswerResult {
    pub fn is_answer(&self) -> (r: bool)
        ensures
            r == (self is Answer),
    {
        match self {
            AnswerResult::Answer(_) => true,
            _ => false,
        }
    }

    pub fn is_no_more_solutions(&self) -> (r: bool)
        ensures
            r == (self is NoMoreSolutions),
    {
        match self {
            AnswerResult::NoMoreSolutions => true,
            _ => false,
        }
    }

    pub fn is_quantum_exceeded(&self) -> (r: bool)
        ensures
            r == (self is QuantumExceeded),
    {
        match self {
            AnswerResult::QuantumExceeded => true,
            _ => false,
        }
    }
}

/// The program and the limits under which it is resolved.
#[derive(Debug)]
pub struct Context {
    pub predicates: Vec<Predicate>,
    /// The names of the constants.
    pub constants: Vec<String>,
    pub clauses: Vec<Clause>,
}

impl Context {
    /// Whether goals of predicate `pred` are coinductive. A predicate that
    /// was not declared is not.
    pub open spec fn coinductive(&self, pred: usize) -> bool {
        pred < self.predicates@.len() && self.predicates@[pred as int].coinductive
    }

    /// The stratum of predicate `pred`; zero if it was not declared.
    pub open spec fn level(&self, pred: usize) -> usize {
        if pred < self.predicates@.len() {
            self.predicates@[pred as int].stratum
        } else {
            0
        }
    }

    /// Whether a literal may stand in a clause, or a strand, for a goal of
    /// the stratum `top`: what it asks for is of no higher stratum, and what
    /// it negates is of a lower one.
    pub open spec fn fits(&self, l: LiteralView, top: usize) -> bool {
        match l {
            LiteralView::Positive(a) => self.level(a.pred) <= top,
            LiteralView::Negative(a) => self.level(a.pred) < top,
            LiteralView::Equals(_, _) => true,
        }
    }

    /// Whether every literal of the clause fits the stratum of its head.
    pub open spec fn clause_fits(&self, c: ClauseView) -> bool {
        forall|i: int| 0 <= i < c.body.len() ==> self.fits(#[trigger] c.body[i], self.level(c.head.pred))
    }

    /// Whether the program is stratified by the strata of its predicates.
    /// In a stratified program no goal depends on its own negation.
    pub open spec fn stratified(&self) -> bool {
        forall|c: int|
            0 <= c < self.clauses@.len() ==> self.clause_fits((#[trigger] self.clauses@[c])@)
    }

    /// The stratum of predicate `pred`; zero if it was not declared.
    pub fn level_of(&self, pred: usize) -> (level: usize)
        ensures
            level == self.level(pred),
    {
        if pred < self.predicates.len() {
            self.predicates[pred].stratum
        } else {
            0
        }
    }

    /// Whether a literal fits the stratum `top`.
    pub fn literal_fits(&self, l: &Literal, top: usize) -> (r: bool)
        ensures
            r == self.fits(l@, top),
    {
        match l {
            Literal::Positive(a) => self.level_of(a.pred) <= top,
            Literal::Negative(a) => self.level_of(a.pred) < top,
            Literal::Equals(_, _) => true,
        }
    }

    /// Whether the program is stratified by the strata of its predicates.
    pub fn is_stratified(&self) -> (r: bool)
        ensures
            r == self.stratified(),
    {
        let mut c: usize = 0;
        while c < self.clauses.len()
            invariant
                c <= self.clauses.len(),
                forall|k: int| 0 <= k < c ==> self.clause_fits((#[trigger] self.clauses@[k])@),
            decreases self.clauses.len() - c,
        {
            let clause = &self.clauses[c];
            let top = self.level_of(clause.head.pred);
            let mut i: usize = 0;
            while i < clause.body.len()
                invariant
                    i <= clause.body.len(),
                    c < self.clauses@.len(),
                    clause == &self.clauses@[c as int],
                    top == self.level(clause.head.pred),
                    forall|k: int| 0 <= k < i ==> self.fits((#[trigger] clause.body@[k])@, top),
                decreases clause.body.len() - i,
            {
                if !self.literal_fits(&clause.body[i], top) {
                    assert(!self.fits(clause@.body[i as int], top));
                    assert(!self.clause_fits(self.clauses@[c as int]@));
                    return false;
                }
                i += 1;
            }
            assert forall|k: int| 0 <= k < clause@.body.len() implies self.fits(
                #[trigger] clause@.body[k],
                top,
            ) by {
                assert(self.fits(clause.body@[k]@, top));
            }
            c += 1;
        }
        true
    }

    /// Puts a predicate that was declared into the stratum `stratum`.
    pub fn set_stratum(&mut self, pred: usize, stratum: usize)
        requires
            pred < old(self).predicates@.len(),
        ensures
            final(self).predicates@.len() == old(self).predicates@.len(),
            final(self).predicates@[pred as int].stratum == stratum,
            final(self).predicates@[pred as int].name == old(self).predicates@[pred as int].name,
            final(self).predicates@[pred as int].arity == old(self).predicates@[pred as int].arity,
            final(self).predicates@[pred as int].coinductive == old(
                self,
            ).predicates@[pred as int].coinductive,
            forall|i: int|
                0 <= i < old(self).predicates@.len() && i != pred ==> final(self).predicates@[i]
                    == old(self).predicates@[i],
            final(self).constants == old(self).constants,
            final(self).clauses == old(self).clauses,
    {
        self.predicates[pred].stratum = stratum;
    }

    /// A program without predicates, constants or clauses.
    pub fn new() -> (c: Context)
        ensures
            c.predicates@.len() == 0,
            c.constants@.len() == 0,
            c.clauses@.len() == 0,
    {
        Context { predicates: Vec::new(), constants: Vec::new(), clauses: Vec::new() }
    }

    /// Declares a predicate of stratum zero and returns its index.
    pub fn add_predicate(&mut self, name: &str, arity: usize, coinductive: bool) -> (index: usize)
        ensures
            final(self).predicates@[old(self).predicates@.len() as int].stratum == 0,
            index == old(self).predicates@.len(),
            final(self).predicates@.len() == index + 1,
            final(self).predicates@.take(index as int) == old(self).predicates@,
            final(self).predicates@[index as int].name@ == name@,
            final(self).predicates@[index as int].arity == arity,
            final(self).predicates@[index as int].coinductive == coinductive,
            final(self).constants == old(self).constants,
            final(self).clauses == old(self).clauses,
    {
        let index = self.predicates.len();
        self.predicates.push(
            Predicate { name: String::from_str(name), arity, coinductive, stratum: 0 },
        );
        assert(self.predicates@.take(index as int) =~= old(self).predicates@);
        index
    }

    /// Declares a constant and returns the term that denotes it.
    pub fn add_constant(&mut self, name: &str) -> (term: Term)
        ensures
            term == Term::Const(old(self).constants@.len() as usize),
            final(self).constants@.len() == old(self).constants@.len() + 1,
            final(self).constants@.take(old(self).constants@.len() as int) == old(
                self,
            ).constants@,
            final(self).constants@.last()@ == name@,
            final(self).predicates == old(self).predicates,
            final(self).clauses == old(self).clauses,
    {
        let index = self.constants.len();
        self.constants.push(String::from_str(name));
        assert(self.constants@.take(index as int) =~= old(self).constants@);
        Term::Const(index)
    }

    /// Adds a clause after those that the program holds.
    pub fn add_clause(&mut self, clause: Clause)
        ensures
            final(self).clauses@ == old(self).clauses@.push(clause),
            final(self).predicates == old(self).predicates,
            final(self).constants == old(self).constants,
    {
        self.clauses.push(clause);
    }

    /// Whether the goal belongs to a coinductive predicate.
    pub fn is_coinductive(&self, goal: &Atom) -> (r: bool)
        ensures
            r == self.coinductive(goal.pred),
    {
        goal.pred < self.predicates.len() && self.predicates[goal.pred].coinductive
    }

    /// The key under which a goal is tabled: the goal with its variables
    /// renamed in the order of their first occurrence, so that goals that
    /// differ only in the names of their variables share one table.
    pub fn canonical_goal(&self, goal: &Atom) -> (out: (Atom, usize))
        ensures
            out.0@ == canonical(goal@),
            out.1 == crate::term::variables(goal@).len(),
    {
        let (key, vars) = canonicalize(goal);
        (key, vars.len())
    }

    /// The strands with which the table of `goal`, a goal with `n`
    /// variables, starts.
    pub fn program_strands(&self, goal: &Atom, n: usize) -> (strands: Vec<Strand>)
        ensures
            strands_view(strands@) == openings(clauses_view(self.clauses@), goal@, n),
    {
        let mut strands: Vec<Strand> = Vec::new();
        let mut k: usize = self.clauses.len();
        let ghost all = clauses_view(self.clauses@);
        assert(all.skip(k as int) =~= Seq::<ClauseView>::empty());
        assert(strands_view(strands@) =~= Seq::<StrandView>::empty());
        while k > 0
            invariant
                k <= self.clauses.len(),
                all == clauses_view(self.clauses@),
                strands_view(strands@) == openings(all.skip(k as int), goal@, n),
            decreases k,
        {
            k -= 1;
            proof {
                assert(all.skip(k as int).drop_first() =~= all.skip(k + 1));
                assert(all.skip(k as int)[0] == self.clauses@[k as int]@);
            }
            let ghost before = strands_view(strands@);
            match open_clause(&self.clauses[k], goal, n) {
                Some(strand) => {
                    strands.push(strand);
                    assert(strands_view(strands@) =~= before.push(strand@));
                },
                None => {},
            }
        }
        assert(all.skip(0) =~= all);
        strands
    }
}

/// The strands with which the table of a goal with `n` variables starts
/// have `n` bindings each.
pub proof fn openings_have_width(clauses: Seq<ClauseView>, goal: AtomView, n: usize)
    ensures
        forall|i: int|
            0 <= i < openings(clauses, goal, n).len() ==> (#[trigger] openings(
                clauses,
                goal,
                n,
            )[i]).subst.len() == n,
    decreases clauses.len(),
{
    if clauses.len() > 0 {
        let rest = clauses.drop_first();
        openings_have_width(rest, goal, n);
        if clauses[0].applies(goal, n) {
            let all = openings(clauses, goal, n);
            assert forall|i: int| 0 <= i < all.len() implies (#[trigger] all[i]).subst.len()
                == n by {
                if i < openings(rest, goal, n).len() {
                    assert(all[i] == openings(rest, goal, n)[i]);
                }
            }
        }
    }
}

/// The strands with which a table starts keep to the stratum of its goal
/// if every clause of the program keeps to the stratum of its head.
pub proof fn openings_fit(clauses: Seq<ClauseView>, goal: AtomView, n: usize, context: &Context)
    requires
        forall|c: int| 0 <= c < clauses.len() ==> context.clause_fits(#[trigger] clauses[c]),
    ensures
        forall|i: int|
            0 <= i < openings(clauses, goal, n).len() ==> (#[trigger] openings(
                clauses,
                goal,
                n,
            )[i]).fits(context, context.level(goal.pred)),
    decreases clauses.len(),
{
    if clauses.len() > 0 {
        let rest = clauses.drop_first();
        assert forall|c: int| 0 <= c < rest.len() implies context.clause_fits(
            #[trigger] rest[c],
        ) by {
            assert(rest[c] == clauses[c + 1]);
        }
        openings_fit(rest, goal, n, context);
        if clauses[0].applies(goal, n) {
            let first = clauses[0].opening(goal, n);
            let top = context.level(goal.pred);
            assert(context.clause_fits(clauses[0]));
            assert forall|i: int| 0 <= i < first.subgoals.len() implies context.fits(
                #[trigger] first.subgoals[i],
                top,
            ) by {
                if i >= goal.args.len() {
                    assert(context.fits(clauses[0].body[i - goal.args.len()], top));
                }
            }
            assert(first.fits(context, top));
            let all = openings(clauses, goal, n);
            assert forall|i: int| 0 <= i < all.len() implies (#[trigger] all[i]).fits(
                context,
                top,
            ) by {
                if i < openings(rest, goal, n).len() {
                    assert(all[i] == openings(rest, goal, n)[i]);
                }
            }
        }
    }
}

/// The variables `0 .. n` as terms.
pub fn identity_terms(n: usize) -> (out: Vec<Term>)
    ensures
        out@ == identity(n),
{
    let mut res: Vec<Term> = Vec::new();
    let mut i: usize = 0;
    while i < n
        invariant
            i <= n,
            res.len() == i,
            forall|j: int| 0 <= j < i ==> res@[j] == Term::Var(j as usize),
        decreases n - i,
    {
        res.push(Term::Var(i));
        i += 1;
    }
    assert(res@ =~= identity(n));
    res
}

/// The strand that tries `clause` on `goal`, if the clause applies.
pub fn open_clause(clause: &Clause, goal: &Atom, n: usize) -> (out: Option<Strand>)
    ensures
        out is Some <==> clause@.applies(goal@, n),
        out matches Some(s) ==> s@ == clause@.opening(goal@, n),
{
    if clause.head.pred != goal.pred || clause.head.args.len() != goal.args.len() {
        return None;
    }
    let nvars = match n.checked_add(clause.nvars) {
        Some(total) => total,
        None => {
            return None;
        },
    };
    let head = match shift_terms(&clause.head.args, n) {
        Some(h) => h,
        None => {
            return None;
        },
    };
    let mut subgoals: Vec<Literal> = Vec::new();
    let mut i: usize = 0;
    while i < goal.args.len()
        invariant
            i <= goal.args.len(),
            head.len() == goal.args.len(),
            subgoals.len() == i,
            forall|j: int|
                0 <= j < i ==> (#[trigger] subgoals@[j])@ == LiteralView::Equals(
                    goal.args@[j],
                    head@[j],
                ),
        decreases goal.args.len() - i,
    {
        subgoals.push(Literal::Equals(goal.args[i], head[i]));
        i += 1;
    }
    let mut j: usize = 0;
    while j < clause.body.len()
        invariant
            j <= clause.body.len(),
            head.len() == goal.args.len(),
            subgoals.len() == goal.args.len() + j,
            forall|k: int|
                0 <= k < goal.args.len() ==> (#[trigger] subgoals@[k])@ == LiteralView::Equals(
                    goal.args@[k],
                    head@[k],
                ),
            forall|k: int| 0 <= k < j ==> (#[trigger] clause.body@[k])@.can_shift(n),
            forall|k: int|
                0 <= k < j ==> (#[trigger] subgoals@[goal.args.len() + k])@
                    == clause.body@[k]@.shift(n),
        decreases clause.body.len() - j,
    {
        match clause.body[j].shift(n) {
            Some(lit) => {
                subgoals.push(lit);
            },
            None => {
                assert(!clause@.body[j as int].can_shift(n));
                return None;
            },
        }
        j += 1;
    }
    let strand = Strand {
        subst: identity_terms(n),
        subgoals,
        delayed: Vec::new(),
        ambiguous: false,
        nvars,
        cursor: 0,
        confirming: false,
        assumed: Vec::new(),
        tried: 0,
    };
    proof {
        assert forall|k: int| 0 <= k < clause@.body.len() implies (
        #[trigger] clause@.body[k]).can_shift(n) by {
            assert(clause.body@[k]@.can_shift(n));
        }
        let want = clause@.opening(goal@, n).subgoals;
        assert(strand@.subgoals.len() == want.len());
        assert forall|k: int| 0 <= k < want.len() implies strand@.subgoals[k] == want[k] by {
            if k >= goal.args.len() {
                let b = k - goal.args.len();
                assert(subgoals@[goal.args.len() + b]@ == clause.body@[b]@.shift(n));
            } else {
                assert(subgoals@[k]@ == LiteralView::Equals(goal.args@[k], head@[k]));
            }
        }
        assert(strand@.subgoals =~= want);
        assert(strand@.delayed =~= clause@.opening(goal@, n).delayed);
        assert(strand@.assumed =~= clause@.opening(goal@, n).assumed);
    }
    Some(strand)
}

} // verus!
