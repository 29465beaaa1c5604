//! The memo entry of one goal: its answers in the order of their discovery,
//! and the strands, the derivations that are still under way.

use crate::context::Context;
use crate::term::{
    dedupe_atoms, distinct_atoms, variables,
    atoms_have_var, atoms_mention, has_var, literals_have_var, literals_mention,
    atom_unifier, instance, instantiate, unifier_is_paired, unify_atoms,
    atoms_view, can_shift_seq, canonical, canonicalize, copy_atoms, copy_literals, copy_terms,
    holds_atom, holds_literal, joined, keep, kept, kept_is_part, literals_view, with_atom,
    with_literal, note_atoms, note_seq, number_all, number_atoms,
    number_seq, number_terms, same_atoms, same_terms, shift_seq, shift_terms, substitute_atoms,
    substitute_literals, substitute_seq, substitute_terms, Atom, AtomView, Literal, LiteralView,
    Term,
};
use vstd::prelude::*;

verus! {

/// One way in which a goal was proved.
#[derive(Debug)]
pub struct Answer {
    /// The value of each variable of the goal, by the variable's number.
    pub subst: Vec<Term>,
    /// How many variables the answer leaves open. They are numbered from
    /// zero in the order of their first occurrence.
    pub binders: usize,
    /// Goals that were assumed on a coinductive cycle and on which the
    /// answer still depends. An answer with none is unconditional.
    pub delayed: Vec<Atom>,
    /// Whether the proof rests on a sub-goal that could not be decided.
    pub ambiguous: bool,
}

/// The mathematical value of an `Answer`.
pub struct AnswerView {
    pub subst: Seq<Term>,
    pub binders: usize,
    pub delayed: Seq<AtomView>,
    pub ambiguous: bool,
}

impl View for Answer {
    type V = AnswerView;

    open spec fn view(&self) -> AnswerView {
        AnswerView {
            subst: self.subst@,
            binders: self.binders,
            delayed: atoms_view(self.delayed@),
            ambiguous: self.ambiguous,
        }
    }
}

impl AnswerView {
    /// Whether every goal that the answer assumes is of the stratum `top`
    /// at most.
    pub open spec fn fits(self, context: &Context, top: usize) -> bool {
        forall|i: int|
            0 <= i < self.delayed.len() ==> context.level((#[trigger] self.delayed[i]).pred) <= top
    }

    /// An answer that still depends on assumed goals.
    pub open spec fn is_conditional(self) -> bool {
        self.delayed.len() > 0
    }

    /// An answer that refutes the negation of its goal.
    pub open spec fn is_definite(self) -> bool {
        !self.is_conditional() && !self.ambiguous
    }
}

/// The values of a sequence of answers.
pub open spec fn answers_view(s: Seq<Answer>) -> Seq<AnswerView> {
    Seq::new(s.len(), |i: int| s[i]@)
}

impl Clone for Answer {
    fn clone(&self) -> (out: Self)
        ensures
            out@ == self@,
    {
        Answer {
            subst: copy_terms(&self.subst),
            binders: self.binders,
            delayed: copy_atoms(&self.delayed),
            ambiguous: self.ambiguous,
        }
    }
}

impl Answer {
    /// Whether every goal that the answer assumes is of the stratum `top`
    /// at most.
    pub fn keeps_stratum(&self, context: &Context, top: usize) -> (r: bool)
        ensures
            r == self@.fits(context, top),
    {
        let mut i: usize = 0;
        while i < self.delayed.len()
            invariant
                i <= self.delayed.len(),
                forall|k: int| 0 <= k < i ==> context.level((#[trigger] self.delayed@[k]).pred) <= top,
            decreases self.delayed.len() - i,
        {
            if context.level_of(self.delayed[i].pred) > top {
                assert(self@.delayed[i as int].pred == self.delayed@[i as int].pred);
                return false;
            }
            i += 1;
        }
        assert forall|k: int| 0 <= k < self@.delayed.len() implies context.level(
            (#[trigger] self@.delayed[k]).pred,
        ) <= top by {
            assert(context.level(self.delayed@[k].pred) <= top);
        }
        true
    }

    pub fn same(&self, other: &Answer) -> (r: bool)
        ensures
            r == (self@ == other@),
    {
        self.binders == other.binders && self.ambiguous == other.ambiguous && same_terms(
            &self.subst,
            &other.subst,
        ) && same_atoms(&self.delayed, &other.delayed)
    }

    pub fn is_conditional(&self) -> (r: bool)
        ensures
            r == self@.is_conditional(),
    {
        self.delayed.len() > 0
    }

    pub fn is_definite(&self) -> (r: bool)
        ensures
            r == self@.is_definite(),
    {
        self.delayed.len() == 0 && !self.ambiguous
    }
}

/// A derivation under way: a clause of the goal's predicate with the
/// bindings made so far applied to it.
#[derive(Debug)]
pub struct Strand {
    /// The value so far of each variable of the goal.
    pub subst: Vec<Term>,
    /// The literals still to be resolved, the selected one first.
    pub subgoals: Vec<Literal>,
    /// Goals assumed on a coinductive cycle.
    pub delayed: Vec<Atom>,
    /// Whether a sub-goal that could not be decided was passed over.
    pub ambiguous: bool,
    /// Every variable of the strand is below this number.
    pub nvars: usize,
    /// The next answer of the selected sub-goal's table to resolve with.
    pub cursor: usize,
    /// Whether the strand is there to confirm what an answer assumed. Such
    /// a strand assumes nothing itself: where the goal that it asks for is
    /// under resolution, it waits for the goal's answers.
    pub confirming: bool,
    /// The goals that the strand takes to hold: the goals that it has
    /// resolved with an answer, and, where it is there to confirm what an
    /// answer assumed, the goal of that answer. A literal that asks for one
    /// of them is met.
    pub assumed: Vec<Atom>,
    /// How many of the assumed goals the selected literal was held
    /// against.
    pub tried: usize,
}

/// The mathematical value of a `Strand`.
pub struct StrandView {
    pub subst: Seq<Term>,
    pub subgoals: Seq<LiteralView>,
    pub delayed: Seq<AtomView>,
    pub ambiguous: bool,
    pub nvars: usize,
    pub cursor: usize,
    pub confirming: bool,
    pub assumed: Seq<AtomView>,
    pub tried: usize,
}

impl View for Strand {
    type V = StrandView;

    open spec fn view(&self) -> StrandView {
        StrandView {
            subst: self.subst@,
            subgoals: literals_view(self.subgoals@),
            delayed: atoms_view(self.delayed@),
            ambiguous: self.ambiguous,
            nvars: self.nvars,
            cursor: self.cursor,
            confirming: self.confirming,
            assumed: atoms_view(self.assumed@),
            tried: self.tried,
        }
    }
}

impl StrandView {
    /// Whether the strand may stand in the table of a goal of the stratum
    /// `top`: every literal fits it, and every goal that was assumed is of
    /// that stratum at most.
    pub open spec fn fits(self, context: &Context, top: usize) -> bool {
        &&& forall|i: int|
            0 <= i < self.subgoals.len() ==> context.fits(#[trigger] self.subgoals[i], top)
        &&& forall|i: int|
            0 <= i < self.delayed.len() ==> context.level((#[trigger] self.delayed[i]).pred) <= top
    }

    /// The strand with `r` in the place of variable `v` throughout.
    pub open spec fn bind(self, v: usize, r: Term) -> StrandView {
        StrandView {
            subst: substitute_seq(self.subst, v, r),
            subgoals: Seq::new(self.subgoals.len(), |i: int| self.subgoals[i].substitute(v, r)),
            delayed: Seq::new(self.delayed.len(), |i: int| self.delayed[i].substitute(v, r)),
            ambiguous: self.ambiguous,
            nvars: self.nvars,
            cursor: self.cursor,
            confirming: self.confirming,
            assumed: Seq::new(self.assumed.len(), |i: int| self.assumed[i].substitute(v, r)),
            tried: self.tried,
        }
    }

    /// The strand after the first `k` of `vars` have been bound, in order,
    /// to the terms at the same places in `terms`.
    pub open spec fn bind_all(self, vars: Seq<usize>, terms: Seq<Term>, k: nat) -> StrandView
        decreases k,
    {
        if k == 0 {
            self
        } else {
            self.bind_all(vars, terms, (k - 1) as nat).bind(vars[k - 1], terms[k - 1])
        }
    }

    /// The answer that a strand without literals yields for the table of
    /// `goal`: the bindings and the assumed goals, numbered together.
    /// Where the strand assumed the very instance of the goal that it
    /// answers, that assumption is left out: the instance holds itself up.
    pub open spec fn answer(self, goal: AtomView) -> AnswerView {
        let rest = kept(self.delayed, instance(goal, self.subst));
        let seen = note_seq(Seq::empty(), self.subst);
        AnswerView {
            subst: number_seq(Seq::empty(), self.subst),
            binders: note_atoms(seen, rest).len() as usize,
            delayed: number_atoms(seen, rest),
            ambiguous: self.ambiguous,
        }
    }

    /// Whether the variables of `answer` can be renamed apart from those
    /// of the strand.
    pub open spec fn can_resolve(self, answer: AnswerView) -> bool {
        &&& self.nvars + answer.binders <= usize::MAX
        &&& can_shift_seq(answer.subst, self.nvars)
        &&& forall|i: int|
            0 <= i < answer.delayed.len() ==> (#[trigger] answer.delayed[i]).can_shift(self.nvars)
    }

    /// Whether the strand assumes a goal that spares it the goal `atom`.
    pub open spec fn supposes(self, atom: AtomView) -> bool {
        exists|k: int| 0 <= k < self.delayed.len() && self.spares(atom, #[trigger] self.delayed[k])
    }

    /// The strand after the goal `atom`, which it asked for, was assumed:
    /// the goal is among the assumed goals, unless one of them spares the
    /// strand this one.
    pub open spec fn suppose(self, atom: AtomView) -> StrandView {
        StrandView {
            subst: self.subst,
            subgoals: self.subgoals,
            delayed: if self.supposes(atom) {
                self.delayed
            } else {
                self.delayed.push(atom)
            },
            ambiguous: self.ambiguous,
            nvars: self.nvars,
            cursor: 0,
            confirming: self.confirming,
            assumed: self.assumed,
            tried: 0,
        }
    }

    /// The strand that tries to confirm what the answer of this strand
    /// assumed: the assumed goals are its literals, and it takes the
    /// instance of the goal that the answer is about to hold.
    pub open spec fn confirmation(self, goal: AtomView) -> StrandView {
        let rest = kept(self.delayed, instance(goal, self.subst));
        StrandView {
            subst: self.subst,
            subgoals: Seq::new(rest.len(), |i: int| LiteralView::Positive(rest[i])),
            delayed: Seq::empty(),
            ambiguous: self.ambiguous,
            nvars: self.nvars,
            cursor: 0,
            confirming: true,
            assumed: seq![instance(goal, self.subst)],
            tried: 0,
        }
    }

    /// The strand with the literal `l` in front of the others.
    pub open spec fn asking(self, l: LiteralView) -> StrandView {
        StrandView {
            subst: self.subst,
            subgoals: seq![l] + self.subgoals,
            delayed: self.delayed,
            ambiguous: self.ambiguous,
            nvars: self.nvars,
            cursor: self.cursor,
            confirming: self.confirming,
            assumed: self.assumed,
            tried: self.tried,
        }
    }

    /// The strand with the literal `l` behind the others.
    pub open spec fn behind(self, l: LiteralView) -> StrandView {
        StrandView {
            subst: self.subst,
            subgoals: self.subgoals.push(l),
            delayed: self.delayed,
            ambiguous: self.ambiguous,
            nvars: self.nvars,
            cursor: self.cursor,
            confirming: self.confirming,
            assumed: self.assumed,
            tried: self.tried,
        }
    }

    /// The strand that is to resolve its selected literal with the answer
    /// at `cursor` next, and that has held it against `tried` of the goals
    /// that it takes to hold.
    pub open spec fn at(self, cursor: usize, tried: usize) -> StrandView {
        StrandView {
            subst: self.subst,
            subgoals: self.subgoals,
            delayed: self.delayed,
            ambiguous: self.ambiguous,
            nvars: self.nvars,
            cursor,
            confirming: self.confirming,
            assumed: self.assumed,
            tried,
        }
    }

    /// The strand, in doubt if `doubt` says so.
    pub open spec fn doubted(self, doubt: bool) -> StrandView {
        StrandView {
            subst: self.subst,
            subgoals: self.subgoals,
            delayed: self.delayed,
            ambiguous: self.ambiguous || doubt,
            nvars: self.nvars,
            cursor: self.cursor,
            confirming: self.confirming,
            assumed: self.assumed,
            tried: self.tried,
        }
    }

    /// Whether some literal of the strand is not a negation.
    pub open spec fn has_other(self) -> bool {
        exists|i: int| 0 <= i < self.subgoals.len() && !((#[trigger] self.subgoals[i]) is Negative)
    }

    /// Whether variable `v` occurs in the strand.
    pub open spec fn mentions(self, v: usize) -> bool {
        ||| self.subst.contains(Term::Var(v))
        ||| literals_mention(self.subgoals, v)
        ||| atoms_mention(self.delayed, v)
        ||| atoms_mention(self.assumed, v)
    }

    /// Whether a strand that asks for `m`, or takes it to hold, need not
    /// ask for `n` beside: the two can be unified, and that binds no
    /// variable that occurs in the strand. The variables of `n` that are
    /// bound are the strand's to choose, and the choice that makes `n` into
    /// `m` costs the strand nothing.
    pub open spec fn spares(self, n: AtomView, m: AtomView) -> bool {
        match atom_unifier(n, m) {
            None => false,
            Some(u) => forall|i: int| 0 <= i < u.0.len() ==> !self.mentions(#[trigger] u.0[i]),
        }
    }

    /// Whether the literal that was selected, and taken off, the positive
    /// `atom`, is met by a goal that the strand takes to hold, at no cost.
    pub open spec fn is_met(self, atom: AtomView) -> bool {
        exists|k: int| 0 <= k < self.assumed.len() && self.spares(atom, #[trigger] self.assumed[k])
    }

    /// The strand without the literal at place `i`.
    pub open spec fn without(self, i: int) -> StrandView {
        StrandView {
            subst: self.subst,
            subgoals: self.subgoals.remove(i),
            delayed: self.delayed,
            ambiguous: self.ambiguous,
            nvars: self.nvars,
            cursor: self.cursor,
            confirming: self.confirming,
            assumed: self.assumed,
            tried: self.tried,
        }
    }

    /// Whether the literal `l` is a positive one that spares the strand the
    /// goal `n`.
    pub open spec fn spared_by(self, n: AtomView, l: LiteralView) -> bool {
        match l {
            LiteralView::Positive(m) => self.spares(n, m),
            _ => false,
        }
    }

    /// Whether some literal of the strand spares it the goal `n`.
    pub open spec fn is_spared(self, n: AtomView) -> bool {
        exists|j: int| 0 <= j < self.subgoals.len() && self.spared_by(n, #[trigger] self.subgoals[j])
    }

    /// Whether the literal at place `i` is a positive one that the strand
    /// is spared by another positive literal.
    pub open spec fn spare_at(self, i: int) -> bool {
        match self.subgoals[i] {
            LiteralView::Positive(n) => self.without(i).is_spared(n),
            _ => false,
        }
    }

    /// The strand without the literals from place `i` on that it is
    /// spared, each looked at in its turn.
    pub open spec fn simplified(self, i: nat) -> StrandView
        decreases self.subgoals.len() - i,
    {
        if i >= self.subgoals.len() {
            self
        } else if self.spare_at(i as int) {
            self.without(i as int).simplified(i)
        } else {
            self.simplified(i + 1)
        }
    }

    /// The strand that takes the goal `atom` to hold from now on.
    pub open spec fn taking(self, atom: AtomView) -> StrandView {
        StrandView {
            subst: self.subst,
            subgoals: self.subgoals,
            delayed: self.delayed,
            ambiguous: self.ambiguous,
            nvars: self.nvars,
            cursor: self.cursor,
            confirming: self.confirming,
            assumed: with_atom(self.assumed, atom),
            tried: self.tried,
        }
    }

    /// Whether the literal that was selected, and taken off, the positive
    /// `atom`, can be met by the assumed goal at place `k`.
    pub open spec fn can_meet(self, atom: AtomView, k: int) -> bool {
        atom_unifier(atom, self.assumed[k]) is Some
    }

    /// The strand that results when the literal that was selected, and
    /// taken off, the positive `atom`, is met by the assumed goal at place
    /// `k`: the two are unified.
    pub open spec fn met(self, atom: AtomView, k: int) -> StrandView {
        let u = atom_unifier(atom, self.assumed[k]).unwrap();
        let fresh = StrandView {
            subst: self.subst,
            subgoals: self.subgoals,
            delayed: self.delayed,
            ambiguous: self.ambiguous,
            nvars: self.nvars,
            cursor: 0,
            confirming: self.confirming,
            assumed: self.assumed,
            tried: 0,
        };
        let bound = fresh.bind_all(u.0, u.1, u.0.len());
        StrandView {
            subst: bound.subst,
            subgoals: bound.subgoals,
            delayed: bound.delayed,
            ambiguous: bound.ambiguous,
            nvars: bound.nvars,
            cursor: bound.cursor,
            confirming: bound.confirming,
            assumed: distinct_atoms(bound.assumed),
            tried: bound.tried,
        }
    }

    /// The strand that results when the literal that was selected, and
    /// taken off, the positive `atom`, is resolved with `answer`. `vars`
    /// are the variables of `atom` in the order of their first occurrence. Each is bound
    /// to its value in the answer, and what the answer assumed is still to
    /// be resolved, as far as the strand is not spared it.
    pub open spec fn resolvent(
        self,
        answer: AnswerView,
        vars: Seq<usize>,
        atom: AtomView,
    ) -> StrandView {
        let terms = shift_seq(answer.subst, self.nvars);
        let k = if vars.len() <= terms.len() {
            vars.len()
        } else {
            terms.len()
        };
        let bound = self.taking(atom).bind_all(vars, terms, k);
        self.resolved(bound, answer).simplified(0)
    }

    /// The strand `bound`, which has the bindings of `answer`, with what
    /// the answer assumed still to be resolved.
    pub open spec fn resolved(self, bound: StrandView, answer: AnswerView) -> StrandView {
        StrandView {
            subst: bound.subst,
            subgoals: joined(
                bound.subgoals,
                Seq::new(
                    answer.delayed.len(),
                    |i: int| LiteralView::Positive(answer.delayed[i].shift(self.nvars)),
                ),
            ),
            delayed: bound.delayed,
            ambiguous: self.ambiguous || answer.ambiguous,
            nvars: (self.nvars + answer.binders) as usize,
            cursor: 0,
            confirming: self.confirming,
            assumed: distinct_atoms(bound.assumed),
            tried: 0,
        }
    }
}

/// Bindings leave the strand a binding for each variable of its goal.
pub proof fn bind_all_keeps_width(s: StrandView, vars: Seq<usize>, terms: Seq<Term>, k: nat)
    ensures
        s.bind_all(vars, terms, k).subst.len() == s.subst.len(),
    decreases k,
{
    if k > 0 {
        bind_all_keeps_width(s, vars, terms, (k - 1) as nat);
    }
}

/// Dropping literals leaves the bindings as they are.
pub proof fn simplified_keeps_subst(s: StrandView, i: nat)
    ensures
        s.simplified(i).subst == s.subst,
    decreases s.subgoals.len() - i,
{
    if i < s.subgoals.len() {
        if s.spare_at(i as int) {
            simplified_keeps_subst(s.without(i as int), i);
        } else {
            simplified_keeps_subst(s, i + 1);
        }
    }
}

/// A strand that was resolved has a binding for each variable of its goal,
/// as it had before.
pub proof fn resolvent_keeps_width(
    s: StrandView,
    answer: AnswerView,
    vars: Seq<usize>,
    atom: AtomView,
)
    ensures
        s.resolvent(answer, vars, atom).subst.len() == s.subst.len(),
{
    let terms = shift_seq(answer.subst, s.nvars);
    let n = if vars.len() <= terms.len() {
        vars.len()
    } else {
        terms.len()
    };
    bind_all_keeps_width(s.taking(atom), vars, terms, n);
    let bound = s.taking(atom).bind_all(vars, terms, n);
    simplified_keeps_subst(s.resolved(bound, answer), 0);
}

/// A strand whose literal was met has a binding for each variable of its
/// goal, as it had before.
pub proof fn met_keeps_width(s: StrandView, atom: AtomView, k: int)
    requires
        s.can_meet(atom, k),
    ensures
        s.met(atom, k).subst.len() == s.subst.len(),
{
    let u = atom_unifier(atom, s.assumed[k]).unwrap();
    let fresh = StrandView {
        subst: s.subst,
        subgoals: s.subgoals,
        delayed: s.delayed,
        ambiguous: s.ambiguous,
        nvars: s.nvars,
        cursor: 0,
        confirming: s.confirming,
        assumed: s.assumed,
        tried: 0,
    };
    bind_all_keeps_width(fresh, u.0, u.1, u.0.len());
}

/// A binding leaves every literal in its stratum.
pub proof fn bind_fits(s: StrandView, v: usize, r: Term, context: &Context, top: usize)
    requires
        s.fits(context, top),
    ensures
        s.bind(v, r).fits(context, top),
{
    let b = s.bind(v, r);
    assert forall|i: int| 0 <= i < b.subgoals.len() implies context.fits(
        #[trigger] b.subgoals[i],
        top,
    ) by {
        assert(context.fits(s.subgoals[i], top));
    }
    assert forall|i: int| 0 <= i < b.delayed.len() implies context.level(
        (#[trigger] b.delayed[i]).pred,
    ) <= top by {
        assert(context.level(s.delayed[i].pred) <= top);
    }
}

/// Bindings leave every literal in its stratum.
pub proof fn bind_all_fits(
    s: StrandView,
    vars: Seq<usize>,
    terms: Seq<Term>,
    k: nat,
    context: &Context,
    top: usize,
)
    requires
        s.fits(context, top),
    ensures
        s.bind_all(vars, terms, k).fits(context, top),
        s.bind_all(vars, terms, k).subgoals.len() == s.subgoals.len(),
    decreases k,
{
    if k > 0 {
        bind_all_fits(s, vars, terms, (k - 1) as nat, context, top);
        bind_fits(s.bind_all(vars, terms, (k - 1) as nat), vars[k - 1], terms[k - 1], context, top);
    }
}

/// Resolving with an answer whose assumptions are of the stratum `top` at
/// most leaves the strand in that stratum.
pub proof fn resolvent_fits(
    s: StrandView,
    answer: AnswerView,
    vars: Seq<usize>,
    atom: AtomView,
    context: &Context,
    top: usize,
)
    requires
        s.fits(context, top),
        answer.fits(context, top),
    ensures
        s.resolvent(answer, vars, atom).fits(context, top),
{
    let terms = shift_seq(answer.subst, s.nvars);
    let k = if vars.len() <= terms.len() {
        vars.len()
    } else {
        terms.len()
    };
    assert(s.taking(atom).fits(context, top));
    bind_all_fits(s.taking(atom), vars, terms, k, context, top);
    let bound = s.taking(atom).bind_all(vars, terms, k);
    let extra = Seq::new(
        answer.delayed.len(),
        |i: int| LiteralView::Positive(answer.delayed[i].shift(s.nvars)),
    );
    assert forall|i: int| 0 <= i < extra.len() implies context.fits(#[trigger] extra[i], top) by {
        assert(context.level(answer.delayed[i].pred) <= top);
    }
    joined_fits(bound.subgoals, extra, context, top);
    simplified_fits(s.resolved(bound, answer), 0, context, top);
}

/// A strand keeps to its stratum when literals are dropped from it.
pub proof fn simplified_fits(s: StrandView, i: nat, context: &Context, top: usize)
    requires
        s.fits(context, top),
    ensures
        s.simplified(i).fits(context, top),
    decreases s.subgoals.len() - i,
{
    if i < s.subgoals.len() {
        if s.spare_at(i as int) {
            let less = s.without(i as int);
            assert forall|j: int| 0 <= j < less.subgoals.len() implies context.fits(
                #[trigger] less.subgoals[j],
                top,
            ) by {
                if j < i {
                    assert(less.subgoals[j] == s.subgoals[j]);
                } else {
                    assert(less.subgoals[j] == s.subgoals[j + 1]);
                }
            }
            simplified_fits(less, i, context, top);
        } else {
            simplified_fits(s, i + 1, context, top);
        }
    }
}

/// A strand whose selected literal was met by a goal that it takes to hold
/// keeps to its stratum.
pub proof fn met_fits(s: StrandView, atom: AtomView, k: int, context: &Context, top: usize)
    requires
        s.fits(context, top),
        s.can_meet(atom, k),
    ensures
        s.met(atom, k).fits(context, top),
{
    let u = atom_unifier(atom, s.assumed[k]).unwrap();
    let fresh = StrandView {
        subst: s.subst,
        subgoals: s.subgoals,
        delayed: s.delayed,
        ambiguous: s.ambiguous,
        nvars: s.nvars,
        cursor: 0,
        confirming: s.confirming,
        assumed: s.assumed,
        tried: 0,
    };
    assert(fresh.fits(context, top));
    bind_all_fits(fresh, u.0, u.1, u.0.len(), context, top);
    let bound = fresh.bind_all(u.0, u.1, u.0.len());
    assert(s.met(atom, k).subgoals == bound.subgoals);
    assert(s.met(atom, k).delayed == bound.delayed);
}

/// Literals that are joined keep to the stratum that each of them keeps to.
pub proof fn joined_fits(
    lits: Seq<LiteralView>,
    extra: Seq<LiteralView>,
    context: &Context,
    top: usize,
)
    requires
        forall|i: int| 0 <= i < lits.len() ==> context.fits(#[trigger] lits[i], top),
        forall|i: int| 0 <= i < extra.len() ==> context.fits(#[trigger] extra[i], top),
    ensures
        forall|i: int|
            0 <= i < joined(lits, extra).len() ==> context.fits(#[trigger] joined(lits, extra)[i], top),
    decreases extra.len(),
{
    if extra.len() > 0 {
        let rest = extra.drop_last();
        assert forall|i: int| 0 <= i < rest.len() implies context.fits(#[trigger] rest[i], top) by {
            assert(rest[i] == extra[i]);
        }
        joined_fits(lits, rest, context, top);
        let all = joined(lits, extra);
        let most = joined(lits, rest);
        assert forall|i: int| 0 <= i < all.len() implies context.fits(#[trigger] all[i], top) by {
            if i < most.len() {
                assert(all[i] == most[i]);
            } else {
                assert(all[i] == extra[extra.len() - 1]);
            }
        }
    }
}

/// A strand that assumes a goal of its stratum, or of a lower one, keeps to
/// its stratum.
pub proof fn suppose_fits(s: StrandView, atom: AtomView, context: &Context, top: usize)
    requires
        s.fits(context, top),
        context.level(atom.pred) <= top,
    ensures
        s.suppose(atom).fits(context, top),
{
    let a = s.suppose(atom);
    assert forall|i: int| 0 <= i < a.delayed.len() implies context.level(
        (#[trigger] a.delayed[i]).pred,
    ) <= top by {
        if i < s.delayed.len() {
            assert(a.delayed[i] == s.delayed[i]);
        }
    }
}

/// The answer of a strand assumes goals of the strand's stratum at most,
/// and the strand that is to confirm them fits that stratum.
pub proof fn answer_fits(s: StrandView, goal: AtomView, context: &Context, top: usize)
    requires
        s.fits(context, top),
    ensures
        s.answer(goal).fits(context, top),
        s.confirmation(goal).fits(context, top),
{
    let own = instance(goal, s.subst);
    let rest = kept(s.delayed, own);
    assert forall|i: int| 0 <= i < rest.len() implies context.level((#[trigger] rest[i]).pred)
        <= top by {
        kept_is_part(s.delayed, own, i);
        let j = choose|j: int| 0 <= j < s.delayed.len() && rest[i] == #[trigger] s.delayed[j];
        assert(context.level(s.delayed[j].pred) <= top);
    }
    let a = s.answer(goal);
    assert forall|i: int| 0 <= i < a.delayed.len() implies context.level(
        (#[trigger] a.delayed[i]).pred,
    ) <= top by {
        assert(a.delayed[i].pred == rest[i].pred);
    }
    let c = s.confirmation(goal);
    assert forall|i: int| 0 <= i < c.subgoals.len() implies context.fits(
        #[trigger] c.subgoals[i],
        top,
    ) by {
        assert(context.level(rest[i].pred) <= top);
    }
}

/// The values of a sequence of strands.
pub open spec fn strands_view(s: Seq<Strand>) -> Seq<StrandView> {
    Seq::new(s.len(), |i: int| s[i]@)
}

impl Clone for Strand {
    fn clone(&self) -> (out: Self)
        ensures
            out@ == self@,
    {
        Strand {
            subst: copy_terms(&self.subst),
            subgoals: copy_literals(&self.subgoals),
            delayed: copy_atoms(&self.delayed),
            ambiguous: self.ambiguous,
            nvars: self.nvars,
            cursor: self.cursor,
            confirming: self.confirming,
            assumed: copy_atoms(&self.assumed),
            tried: self.tried,
        }
    }
}

impl Strand {
    /// Whether the strand keeps to the stratum `top`.
    pub fn keeps_stratum(&self, context: &Context, top: usize) -> (r: bool)
        ensures
            r == self@.fits(context, top),
    {
        let mut i: usize = 0;
        while i < self.subgoals.len()
            invariant
                i <= self.subgoals.len(),
                forall|k: int| 0 <= k < i ==> context.fits((#[trigger] self.subgoals@[k])@, top),
            decreases self.subgoals.len() - i,
        {
            if !context.literal_fits(&self.subgoals[i], top) {
                assert(!context.fits(self@.subgoals[i as int], top));
                return false;
            }
            i += 1;
        }
        let mut j: usize = 0;
        while j < self.delayed.len()
            invariant
                j <= self.delayed.len(),
                forall|k: int|
                    0 <= k < self.subgoals@.len() ==> context.fits(
                        (#[trigger] self.subgoals@[k])@,
                        top,
                    ),
                forall|k: int| 0 <= k < j ==> context.level((#[trigger] self.delayed@[k]).pred) <= top,
            decreases self.delayed.len() - j,
        {
            if context.level_of(self.delayed[j].pred) > top {
                assert(self@.delayed[j as int].pred == self.delayed@[j as int].pred);
                return false;
            }
            j += 1;
        }
        assert forall|k: int| 0 <= k < self@.subgoals.len() implies context.fits(
            #[trigger] self@.subgoals[k],
            top,
        ) by {
            assert(context.fits(self.subgoals@[k]@, top));
        }
        assert forall|k: int| 0 <= k < self@.delayed.len() implies context.level(
            (#[trigger] self@.delayed[k]).pred,
        ) <= top by {
            assert(context.level(self.delayed@[k].pred) <= top);
        }
        true
    }

    /// The answer that the strand yields for the table of `goal`.
    pub fn answer(&self, goal: &Atom) -> (out: Answer)
        ensures
            out@ == self@.answer(goal@),
    {
        let own = instantiate(goal, &self.subst);
        let rest = keep(&self.delayed, &own);
        let mut seen: Vec<usize> = Vec::new();
        let subst = number_terms(&self.subst, &mut seen);
        let delayed = number_all(&rest, &mut seen);
        Answer { subst, binders: seen.len(), delayed, ambiguous: self.ambiguous }
    }

    /// The strand that tries to confirm what the answer of this strand
    /// assumed.
    pub fn confirmation(&self, goal: &Atom) -> (out: Strand)
        ensures
            out@ == self@.confirmation(goal@),
    {
        let own = instantiate(goal, &self.subst);
        let rest = keep(&self.delayed, &own);
        let mut subgoals: Vec<Literal> = Vec::new();
        let mut i: usize = 0;
        while i < rest.len()
            invariant
                i <= rest.len(),
                subgoals.len() == i,
                forall|j: int|
                    0 <= j < i ==> (#[trigger] subgoals@[j])@ == LiteralView::Positive(rest@[j]@),
            decreases rest.len() - i,
        {
            subgoals.push(Literal::Positive(rest[i].clone()));
            i += 1;
        }
        let mut assumed: Vec<Atom> = Vec::new();
        assumed.push(own);
        let out = Strand {
            subst: copy_terms(&self.subst),
            subgoals,
            delayed: Vec::new(),
            ambiguous: self.ambiguous,
            nvars: self.nvars,
            cursor: 0,
            confirming: true,
            assumed,
            tried: 0,
        };
        proof {
            let want = self@.confirmation(goal@);
            assert(out@.subgoals =~= want.subgoals);
            assert(out@.delayed =~= want.delayed);
            assert(out@.assumed =~= want.assumed);
        }
        out
    }

    /// The strand that results when the literal that was selected, and
    /// taken off, the positive `atom`, is met by the assumed goal at place
    /// `k`; `None` if the two cannot be unified.
    pub fn met(&self, atom: &Atom, k: usize) -> (out: Option<Strand>)
        requires
            k < self.assumed@.len(),
        ensures
            out is Some <==> self@.can_meet(atom@, k as int),
            out matches Some(s) ==> s@ == self@.met(atom@, k as int),
    {
        match unify_atoms(atom, &self.assumed[k]) {
            None => None,
            Some((vars, terms)) => {
                let mut child = self.clone();
                child.cursor = 0;
                child.tried = 0;
                proof {
                    // one value for each variable
                    unifier_is_paired(atom@.args, self.assumed@[k as int]@.args, 0);
                }
                child.bind_all(&vars, &terms);
                child.assumed = dedupe_atoms(&child.assumed);
                Some(child)
            },
        }
    }

    /// The strand that results when the literal that was selected, and
    /// taken off, is resolved with `answer`; `None` if the variables of the
    /// answer cannot be renamed apart.
    pub fn resolvent(&self, answer: &Answer, vars: &Vec<usize>, atom: &Atom) -> (out: Option<
        Strand,
    >)
        ensures
            out is Some <==> self@.can_resolve(answer@),
            out matches Some(s) ==> s@ == self@.resolvent(answer@, vars@, atom@),
    {
        let nvars = match self.nvars.checked_add(answer.binders) {
            Some(n) => n,
            None => {
                return None;
            },
        };
        let terms = match shift_terms(&answer.subst, self.nvars) {
            Some(t) => t,
            None => {
                return None;
            },
        };
        let mut extra: Vec<Literal> = Vec::new();
        let mut i: usize = 0;
        while i < answer.delayed.len()
            invariant
                i <= answer.delayed.len(),
                extra.len() == i,
                forall|j: int| 0 <= j < i ==> (#[trigger] answer.delayed@[j])@.can_shift(self.nvars),
                forall|j: int|
                    0 <= j < i ==> (#[trigger] extra@[j])@ == LiteralView::Positive(
                        answer.delayed@[j]@.shift(self.nvars),
                    ),
            decreases answer.delayed.len() - i,
        {
            match answer.delayed[i].shift(self.nvars) {
                Some(a) => {
                    extra.push(Literal::Positive(a));
                },
                None => {
                    assert(!answer@.delayed[i as int].can_shift(self.nvars));
                    return None;
                },
            }
            i += 1;
        }
        let mut child = self.clone();
        if !holds_atom(&child.assumed, atom) {
            let ghost before = child@.assumed;
            child.assumed.push(atom.clone());
            assert(child@.assumed =~= before.push(atom@));
        }
        assert(child@ == self@.taking(atom@));
        child.bind_all(vars, &terms);
        let ghost bound = child@;
        let ghost added = literals_view(extra@);
        let mut j: usize = 0;
        assert(added.take(0) =~= Seq::<LiteralView>::empty());
        while j < extra.len()
            invariant
                j <= extra.len(),
                added == literals_view(extra@),
                child.subst@ == bound.subst,
                child@.delayed == bound.delayed,
                child@.assumed == bound.assumed,
                child@.subgoals == joined(bound.subgoals, added.take(j as int)),
            decreases extra.len() - j,
        {
            proof {
                let next = added.take(j + 1);
                assert(next.drop_last() =~= added.take(j as int));
                assert(next.last() == extra@[j as int]@);
            }
            if !holds_literal(&child.subgoals, &extra[j]) {
                let ghost before = child@.subgoals;
                let lit = extra[j].clone();
                child.subgoals.push(lit);
                assert(child@.subgoals =~= before.push(extra@[j as int]@));
            }
            j += 1;
        }
        child.assumed = dedupe_atoms(&child.assumed);
        child.ambiguous = self.ambiguous || answer.ambiguous;
        child.nvars = nvars;
        child.cursor = 0;
        child.confirming = self.confirming;
        child.tried = 0;
        proof {
            assert forall|k: int| 0 <= k < answer@.delayed.len() implies (
            #[trigger] answer@.delayed[k]).can_shift(self.nvars) by {
                assert(answer.delayed@[k]@.can_shift(self.nvars));
            }
            assert(added.take(extra.len() as int) =~= added);
            assert(added =~= Seq::new(
                answer@.delayed.len(),
                |i: int| LiteralView::Positive(answer@.delayed[i].shift(self.nvars)),
            ));
            assert(child@ == self@.resolved(bound, answer@));
        }
        child.simplify();
        Some(child)
    }

    /// Whether variable `v` occurs in the strand.
    pub fn mentions(&self, v: usize) -> (r: bool)
        ensures
            r == self@.mentions(v),
    {
        has_var(&self.subst, v) || literals_have_var(&self.subgoals, v) || atoms_have_var(
            &self.delayed,
            v,
        ) || atoms_have_var(&self.assumed, v)
    }

    /// Whether a strand that asks for `m`, or takes it to hold, need not
    /// ask for `n` beside.
    pub fn spares(&self, n: &Atom, m: &Atom) -> (r: bool)
        ensures
            r == self@.spares(n@, m@),
    {
        match unify_atoms(n, m) {
            None => false,
            Some((vars, _)) => {
                let mut i: usize = 0;
                while i < vars.len()
                    invariant
                        i <= vars.len(),
                        atom_unifier(n@, m@) is Some,
                        atom_unifier(n@, m@).unwrap().0 == vars@,
                        forall|j: int| 0 <= j < i ==> !self@.mentions(#[trigger] vars@[j]),
                    decreases vars.len() - i,
                {
                    if self.mentions(vars[i]) {
                        assert(self@.mentions(atom_unifier(n@, m@).unwrap().0[i as int]));
                        return false;
                    }
                    i += 1;
                }
                true
            },
        }
    }

    /// Whether the literal that was selected, and taken off, the positive
    /// `atom`, is met by a goal that the strand takes to hold, at no cost.
    pub fn is_met(&self, atom: &Atom) -> (r: bool)
        ensures
            r == self@.is_met(atom@),
    {
        let mut k: usize = 0;
        while k < self.assumed.len()
            invariant
                k <= self.assumed.len(),
                forall|j: int| 0 <= j < k ==> !self@.spares(atom@, #[trigger] self@.assumed[j]),
            decreases self.assumed.len() - k,
        {
            if self.spares(atom, &self.assumed[k]) {
                assert(self@.spares(atom@, self@.assumed[k as int]));
                return true;
            }
            assert(self@.assumed[k as int] == self.assumed@[k as int]@);
            k += 1;
        }
        false
    }

    /// Whether some positive literal of the strand spares it the goal `n`.
    fn is_spared(&self, n: &Atom) -> (r: bool)
        ensures
            r == self@.is_spared(n@),
    {
        let mut j: usize = 0;
        while j < self.subgoals.len()
            invariant
                j <= self.subgoals.len(),
                forall|k: int| 0 <= k < j ==> !self@.spared_by(n@, #[trigger] self@.subgoals[k]),
            decreases self.subgoals.len() - j,
        {
            assert(self@.subgoals[j as int] == self.subgoals@[j as int]@);
            let hit = match &self.subgoals[j] {
                Literal::Positive(m) => self.spares(n, m),
                _ => false,
            };
            if hit {
                return true;
            }
            j += 1;
        }
        false
    }

    /// Drops the literals that the strand is spared.
    pub fn simplify(&mut self)
        ensures
            final(self)@ == old(self)@.simplified(0),
    {
        let mut i: usize = 0;
        while i < self.subgoals.len()
            invariant
                self@.simplified(i as nat) == old(self)@.simplified(0),
            decreases self.subgoals.len() - i,
        {
            let ghost before = self@;
            let ghost lits = self.subgoals@;
            let lit = self.subgoals.remove(i);
            proof {
                assert(self@.subgoals =~= before.subgoals.remove(i as int));
                assert(self@ == before.without(i as int));
                assert(lit@ == before.subgoals[i as int]);
            }
            let spare = match &lit {
                Literal::Positive(n) => self.is_spared(n),
                _ => false,
            };
            assert(spare == before.spare_at(i as int));
            if !spare {
                self.subgoals.insert(i, lit);
                proof {
                    assert(self.subgoals@ =~= lits);
                    assert(self@.subgoals =~= before.subgoals);
                    assert(self@ == before);
                }
                i += 1;
            }
        }
    }

    /// Whether the strand assumes a goal that spares it the goal `atom`.
    pub fn supposes(&self, atom: &Atom) -> (r: bool)
        ensures
            r == self@.supposes(atom@),
    {
        let mut k: usize = 0;
        while k < self.delayed.len()
            invariant
                k <= self.delayed.len(),
                forall|j: int| 0 <= j < k ==> !self@.spares(atom@, #[trigger] self@.delayed[j]),
            decreases self.delayed.len() - k,
        {
            if self.spares(atom, &self.delayed[k]) {
                assert(self@.spares(atom@, self@.delayed[k as int]));
                return true;
            }
            assert(self@.delayed[k as int] == self.delayed@[k as int]@);
            k += 1;
        }
        false
    }

    /// Assumes the goal `atom`, which the strand asked for.
    pub fn suppose(&mut self, atom: Atom)
        ensures
            final(self)@ == old(self)@.suppose(atom@),
    {
        if !self.supposes(&atom) {
            let ghost before = self@.delayed;
            self.delayed.push(atom);
            assert(self@.delayed =~= before.push(atom@));
        }
        self.cursor = 0;
        self.tried = 0;
    }

    /// Replaces variable `v` by `r` throughout the strand.
    pub fn bind(&mut self, v: usize, r: Term)
        ensures
            final(self)@ == old(self)@.bind(v, r),
    {
        substitute_terms(&mut self.subst, v, r);
        substitute_literals(&mut self.subgoals, v, r);
        substitute_atoms(&mut self.delayed, v, r);
        substitute_atoms(&mut self.assumed, v, r);
        assert(self@.subgoals =~= old(self)@.bind(v, r).subgoals);
        assert(self@.delayed =~= old(self)@.bind(v, r).delayed);
        assert(self@.assumed =~= old(self)@.bind(v, r).assumed);
    }

    /// Binds each of `vars` to the term at the same place in `terms`, as far
    /// as both reach.
    pub fn bind_all(&mut self, vars: &Vec<usize>, terms: &Vec<Term>)
        ensures
            final(self)@ == old(self)@.bind_all(
                vars@,
                terms@,
                if vars.len() <= terms.len() {
                    vars.len() as nat
                } else {
                    terms.len() as nat
                },
            ),
    {
        let n = if vars.len() <= terms.len() {
            vars.len()
        } else {
            terms.len()
        };
        let mut k: usize = 0;
        while k < n
            invariant
                k <= n,
                n <= vars.len(),
                n <= terms.len(),
                self@ == old(self)@.bind_all(vars@, terms@, k as nat),
            decreases n - k,
        {
            self.bind(vars[k], terms[k]);
            k += 1;
        }
    }
}

/// How far the search for a goal's answers has come.
#[derive(Clone, Copy, Debug, PartialEq, Eq, Structural)]
pub enum TableState {
    /// More answers may still be found.
    InProgress,
    /// Every answer has been found, or one that holds of every instance
    /// of the goal, so that no other could say more.
    Complete,
    /// The search met a sub-goal that it cannot decide; what answers there
    /// are stand, but whether there are others will not be known.
    Floundered,
}

/// The memo entry of one goal.
#[derive(Debug)]
pub struct Table {
    /// The goal in canonical form.
    pub goal: Atom,
    /// Whether a cycle through this goal counts as a proof. Fixed when the
    /// table is made.
    pub coinductive: bool,
    /// The answers in the order of their discovery. No two are equal.
    pub answers: Vec<Answer>,
    /// The strands that can run, the next one last.
    pub strands: Vec<Strand>,
    /// The strands that wait for an answer of a goal further down the stack.
    pub blocked: Vec<Strand>,
    pub state: TableState,
}

/// The mathematical value of a `Table`.
pub struct TableView {
    pub goal: AtomView,
    pub coinductive: bool,
    pub state: TableState,
    pub answers: Seq<AnswerView>,
    pub strands: Seq<StrandView>,
    pub blocked: Seq<StrandView>,
}

impl View for Table {
    type V = TableView;

    open spec fn view(&self) -> TableView {
        TableView {
            goal: self.goal@,
            coinductive: self.coinductive,
            state: self.state,
            answers: answers_view(self.answers@),
            strands: strands_view(self.strands@),
            blocked: strands_view(self.blocked@),
        }
    }
}

impl TableView {
    /// The table with the strand `s` to run next. A table that is closed
    /// takes no strand.
    pub open spec fn with_strand(self, s: StrandView) -> TableView {
        TableView {
            goal: self.goal,
            coinductive: self.coinductive,
            state: self.state,
            answers: self.answers,
            strands: if self.state == TableState::InProgress {
                self.strands.push(s)
            } else {
                self.strands
            },
            blocked: self.blocked,
        }
    }

    /// The table with the strand `s` set aside. A table that is closed
    /// takes no strand.
    pub open spec fn with_blocked(self, s: StrandView) -> TableView {
        TableView {
            goal: self.goal,
            coinductive: self.coinductive,
            state: self.state,
            answers: self.answers,
            strands: self.strands,
            blocked: if self.state == TableState::InProgress {
                self.blocked.push(s)
            } else {
                self.blocked
            },
        }
    }

    /// The table without the strand that was to run next.
    pub open spec fn without_last(self) -> TableView {
        TableView {
            goal: self.goal,
            coinductive: self.coinductive,
            state: self.state,
            answers: self.answers,
            strands: self.strands.drop_last(),
            blocked: self.blocked,
        }
    }

    /// The table with the answer `a` after the others.
    pub open spec fn with_answer(self, a: AnswerView) -> TableView {
        TableView {
            goal: self.goal,
            coinductive: self.coinductive,
            state: self.state,
            answers: self.answers.push(a),
            strands: self.strands,
            blocked: self.blocked,
        }
    }

    /// The table with the strands that were set aside to run again, after
    /// the others, the one that was set aside last to run last of all.
    pub open spec fn unblocked(self) -> TableView {
        TableView {
            goal: self.goal,
            coinductive: self.coinductive,
            state: self.state,
            answers: self.answers,
            strands: self.strands + self.blocked.reverse(),
            blocked: Seq::empty(),
        }
    }

    /// The table after its search was ended with `verdict`: a table in
    /// progress has the verdict for its state and no strands; a table that
    /// was closed before, or a verdict that ends nothing, leaves it as it
    /// is.
    pub open spec fn closed(self, verdict: TableState) -> TableView {
        if self.state == TableState::InProgress && verdict != TableState::InProgress {
            TableView {
                goal: self.goal,
                coinductive: self.coinductive,
                state: verdict,
                answers: self.answers,
                strands: Seq::empty(),
                blocked: Seq::empty(),
            }
        } else {
            self
        }
    }
}

impl Table {
    /// The answers as mathematical values.
    pub open spec fn answers_view(&self) -> Seq<AnswerView> {
        answers_view(self.answers@)
    }

    /// Whether some answer refutes the negation of the goal.
    pub open spec fn has_definite(&self) -> bool {
        exists|i: int| 0 <= i < self.answers.len() && (#[trigger] self.answers[i])@.is_definite()
    }

    /// The number of variables of the goal.
    pub open spec fn width(&self) -> nat {
        variables(self.goal@).len()
    }

    /// The table is consistent: its goal is in canonical form, no two of
    /// its answers are equal, every answer and every strand has a binding
    /// for each variable of the goal, and a table that is not in progress
    /// has no strands.
    pub open spec fn wf(&self) -> bool {
        &&& self.goal@ == canonical(self.goal@)
        &&& self.state != TableState::InProgress ==> self.strands@.len() == 0
            && self.blocked@.len() == 0
        &&& self.answers_view().no_duplicates()
        &&& forall|i: int|
            0 <= i < self.answers@.len() ==> (#[trigger] self.answers@[i]).subst@.len()
                == self.width()
        &&& forall|i: int|
            0 <= i < self.strands@.len() ==> (#[trigger] self.strands@[i]).subst@.len()
                == self.width()
        &&& forall|i: int|
            0 <= i < self.blocked@.len() ==> (#[trigger] self.blocked@[i]).subst@.len()
                == self.width()
    }

    /// Whether every strand and every answer of the table keeps to the
    /// stratum of the table's goal.
    pub open spec fn levelled(&self, context: &Context) -> bool {
        let top = context.level(self.goal.pred);
        &&& forall|i: int|
            0 <= i < self.strands@.len() ==> (#[trigger] self.strands@[i])@.fits(context, top)
        &&& forall|i: int|
            0 <= i < self.blocked@.len() ==> (#[trigger] self.blocked@[i])@.fits(context, top)
        &&& forall|i: int|
            0 <= i < self.answers@.len() ==> (#[trigger] self.answers@[i])@.fits(context, top)
    }

    /// What may become of a table in the course of a search: the goal and
    /// its classification stay, answers are only added at the end, and a
    /// table that is complete or has floundered stays as it is.
    pub open spec fn extends(&self, before: &Table) -> bool {
        &&& self.goal@ == before.goal@
        &&& self.coinductive == before.coinductive
        &&& before.answers_view().is_prefix_of(self.answers_view())
        &&& before.state == TableState::Complete ==> self.state == TableState::Complete
            && self.answers_view() == before.answers_view()
        &&& before.state == TableState::Floundered ==> self.state == TableState::Floundered
            && self.answers_view() == before.answers_view()
    }

    pub fn new(goal: Atom, coinductive: bool, strands: Vec<Strand>) -> (t: Table)
        requires
            goal@ == canonical(goal@),
            forall|i: int|
                0 <= i < strands@.len() ==> (#[trigger] strands@[i]).subst@.len() == variables(
                    goal@,
                ).len(),
        ensures
            t.wf(),
            t.goal == goal,
            t.coinductive == coinductive,
            t.strands == strands,
            t.answers@.len() == 0,
            t.blocked@.len() == 0,
            t.state == TableState::InProgress,
    {
        Table {
            goal,
            coinductive,
            answers: Vec::new(),
            strands,
            blocked: Vec::new(),
            state: TableState::InProgress,
        }
    }

    /// Whether every strand and every answer of the table keeps to the
    /// stratum of the table's goal.
    pub fn keeps_stratum(&self, context: &Context) -> (r: bool)
        ensures
            r == self.levelled(context),
    {
        let top = context.level_of(self.goal.pred);
        let mut i: usize = 0;
        while i < self.strands.len()
            invariant
                i <= self.strands.len(),
                top == context.level(self.goal.pred),
                forall|k: int| 0 <= k < i ==> (#[trigger] self.strands@[k])@.fits(context, top),
            decreases self.strands.len() - i,
        {
            if !self.strands[i].keeps_stratum(context, top) {
                return false;
            }
            i += 1;
        }
        let mut j: usize = 0;
        while j < self.blocked.len()
            invariant
                j <= self.blocked.len(),
                top == context.level(self.goal.pred),
                forall|k: int|
                    0 <= k < self.strands@.len() ==> (#[trigger] self.strands@[k])@.fits(
                        context,
                        top,
                    ),
                forall|k: int| 0 <= k < j ==> (#[trigger] self.blocked@[k])@.fits(context, top),
            decreases self.blocked.len() - j,
        {
            if !self.blocked[j].keeps_stratum(context, top) {
                return false;
            }
            j += 1;
        }
        let mut a: usize = 0;
        while a < self.answers.len()
            invariant
                a <= self.answers.len(),
                top == context.level(self.goal.pred),
                forall|k: int|
                    0 <= k < self.strands@.len() ==> (#[trigger] self.strands@[k])@.fits(
                        context,
                        top,
                    ),
                forall|k: int|
                    0 <= k < self.blocked@.len() ==> (#[trigger] self.blocked@[k])@.fits(
                        context,
                        top,
                    ),
                forall|k: int| 0 <= k < a ==> (#[trigger] self.answers@[k])@.fits(context, top),
            decreases self.answers.len() - a,
        {
            if !self.answers[a].keeps_stratum(context, top) {
                return false;
            }
            a += 1;
        }
        true
    }

    /// Whether the table is consistent.
    pub fn is_consistent(&self) -> (r: bool)
        ensures
            r == self.wf(),
    {
        let (key, vars) = canonicalize(&self.goal);
        if !key.same(&self.goal) {
            return false;
        }
        let open = match self.state {
            TableState::InProgress => true,
            _ => false,
        };
        if !open && (self.strands.len() > 0 || self.blocked.len() > 0) {
            return false;
        }
        let width = vars.len();
        let mut a: usize = 0;
        while a < self.answers.len()
            invariant
                a <= self.answers.len(),
                width == self.width(),
                forall|k: int| 0 <= k < a ==> (#[trigger] self.answers@[k]).subst@.len() == width,
            decreases self.answers.len() - a,
        {
            if self.answers[a].subst.len() != width {
                return false;
            }
            a += 1;
        }
        let mut b: usize = 0;
        while b < self.strands.len()
            invariant
                b <= self.strands.len(),
                width == self.width(),
                forall|k: int| 0 <= k < b ==> (#[trigger] self.strands@[k]).subst@.len() == width,
            decreases self.strands.len() - b,
        {
            if self.strands[b].subst.len() != width {
                return false;
            }
            b += 1;
        }
        let mut c: usize = 0;
        while c < self.blocked.len()
            invariant
                c <= self.blocked.len(),
                width == self.width(),
                forall|k: int| 0 <= k < c ==> (#[trigger] self.blocked@[k]).subst@.len() == width,
            decreases self.blocked.len() - c,
        {
            if self.blocked[c].subst.len() != width {
                return false;
            }
            c += 1;
        }
        let mut j: usize = 0;
        while j < self.answers.len()
            invariant
                j <= self.answers.len(),
                self.goal@ == canonical(self.goal@),
                forall|k: int|
                    0 <= k < self.answers@.len() ==> (#[trigger] self.answers@[k]).subst@.len()
                        == self.width(),
                forall|k: int|
                    0 <= k < self.strands@.len() ==> (#[trigger] self.strands@[k]).subst@.len()
                        == self.width(),
                forall|k: int|
                    0 <= k < self.blocked@.len() ==> (#[trigger] self.blocked@[k]).subst@.len()
                        == self.width(),
                forall|a: int, b: int|
                    0 <= a < b < j ==> (#[trigger] self.answers@[a])@ != (
                    #[trigger] self.answers@[b])@,
            decreases self.answers.len() - j,
        {
            let mut i: usize = 0;
            while i < j
                invariant
                    i <= j,
                    j < self.answers.len(),
                    forall|a: int| 0 <= a < i ==> (#[trigger] self.answers@[a])@ != self.answers@[j as int]@,
                decreases j - i,
            {
                if self.answers[i].same(&self.answers[j]) {
                    assert(self.answers_view()[i as int] == self.answers_view()[j as int]);
                    return false;
                }
                i += 1;
            }
            j += 1;
        }
        assert forall|a: int, b: int|
            0 <= a < self.answers_view().len() && 0 <= b < self.answers_view().len() && a
                != b implies self.answers_view()[a] != self.answers_view()[b] by {
            if a < b {
                assert(self.answers@[a]@ != self.answers@[b]@);
            } else {
                assert(self.answers@[b]@ != self.answers@[a]@);
            }
        }
        true
    }

    /// Whether an equal answer is recorded already.
    pub fn holds(&self, answer: &Answer) -> (r: bool)
        ensures
            r == self.answers_view().contains(answer@),
    {
        let mut i: usize = 0;
        while i < self.answers.len()
            invariant
                i <= self.answers.len(),
                forall|j: int| 0 <= j < i ==> self.answers@[j]@ != answer@,
            decreases self.answers.len() - i,
        {
            if self.answers[i].same(answer) {
                assert(self.answers_view()[i as int] == answer@);
                return true;
            }
            i += 1;
        }
        false
    }

    /// Records an answer unless the table is closed or holds it already.
    /// Says whether the answer was recorded.
    pub fn record(&mut self, answer: Answer) -> (fresh: bool)
        ensures
            final(self)@ == if fresh {
                old(self)@.with_answer(answer@)
            } else {
                old(self)@
            },
            forall|context: &Context|
                old(self).levelled(context) && answer@.fits(
                    context,
                    context.level(old(self).goal.pred),
                ) ==> #[trigger] final(self).levelled(context),
            fresh == (old(self).state == TableState::InProgress && !old(
                self,
            ).answers_view().contains(answer@)),
            fresh ==> final(self).answers_view() == old(self).answers_view().push(answer@),
            !fresh ==> final(self).answers_view() == old(self).answers_view(),
            final(self).goal == old(self).goal,
            final(self).coinductive == old(self).coinductive,
            final(self).state == old(self).state,
            final(self).strands == old(self).strands,
            final(self).blocked == old(self).blocked,
            final(self).extends(old(self)),
            old(self).wf() && answer.subst@.len() == old(self).width() ==> final(self).wf(),
    {
        let open = match self.state {
            TableState::InProgress => true,
            _ => false,
        };
        if open && !self.holds(&answer) {
            self.answers.push(answer);
            assert(self.answers_view() =~= old(self).answers_view().push(answer@));
            assert(old(self).wf() && answer.subst@.len() == old(self).width() ==> self.wf()) by {
                let before = old(self).answers_view();
                let after = self.answers_view();
                if old(self).wf() && answer.subst@.len() == old(self).width() {
                    assert forall|i: int| 0 <= i < self.answers@.len() implies (
                    #[trigger] self.answers@[i]).subst@.len() == self.width() by {
                        if i < old(self).answers@.len() {
                            assert(self.answers@[i] == old(self).answers@[i]);
                        }
                    }
                }
                if before.no_duplicates() {
                    assert forall|i: int, j: int|
                        0 <= i < after.len() && 0 <= j < after.len() && i != j implies after[i]
                        != after[j] by {
                        if i < before.len() && j < before.len() {
                            assert(before[i] != before[j]);
                        } else if i < before.len() {
                            assert(before.contains(before[i]));
                        } else {
                            assert(before.contains(before[j]));
                        }
                    }
                }
            }
            true
        } else {
            assert(self.answers_view() =~= old(self).answers_view());
            false
        }
    }

    /// Whether some answer refutes the negation of the goal.
    pub fn has_definite_answer(&self) -> (r: bool)
        ensures
            r == self.has_definite(),
    {
        let mut i: usize = 0;
        while i < self.answers.len()
            invariant
                i <= self.answers.len(),
                forall|j: int| 0 <= j < i ==> !(#[trigger] self.answers[j])@.is_definite(),
            decreases self.answers.len() - i,
        {
            if self.answers[i].is_definite() {
                return true;
            }
            i += 1;
        }
        false
    }

    /// Adds a strand that is to run next. A table that is closed takes no
    /// strand.
    pub fn put(&mut self, strand: Strand)
        ensures
            final(self)@ == old(self)@.with_strand(strand@),
            forall|context: &Context|
                old(self).levelled(context) && strand@.fits(
                    context,
                    context.level(old(self).goal.pred),
                ) ==> #[trigger] final(self).levelled(context),
            final(self).strands@ == if old(self).state == TableState::InProgress {
                old(self).strands@.push(strand)
            } else {
                old(self).strands@
            },
            final(self).blocked == old(self).blocked,
            final(self).goal == old(self).goal,
            final(self).coinductive == old(self).coinductive,
            final(self).state == old(self).state,
            final(self).answers == old(self).answers,
            final(self).extends(old(self)),
            old(self).wf() && strand.subst@.len() == old(self).width() ==> final(self).wf(),
    {
        match self.state {
            TableState::InProgress => {
                self.strands.push(strand);
                assert(self@.strands =~= old(self)@.strands.push(strand@));
            },
            _ => {},
        }
    }

    /// Sets a strand aside until the table is resolved anew. A table that
    /// is closed takes no strand.
    pub fn park(&mut self, strand: Strand)
        ensures
            final(self)@ == old(self)@.with_blocked(strand@),
            forall|context: &Context|
                old(self).levelled(context) && strand@.fits(
                    context,
                    context.level(old(self).goal.pred),
                ) ==> #[trigger] final(self).levelled(context),
            final(self).blocked@ == if old(self).state == TableState::InProgress {
                old(self).blocked@.push(strand)
            } else {
                old(self).blocked@
            },
            final(self).strands == old(self).strands,
            final(self).goal == old(self).goal,
            final(self).coinductive == old(self).coinductive,
            final(self).state == old(self).state,
            final(self).answers == old(self).answers,
            final(self).extends(old(self)),
            old(self).wf() && strand.subst@.len() == old(self).width() ==> final(self).wf(),
    {
        match self.state {
            TableState::InProgress => {
                self.blocked.push(strand);
                assert(self@.blocked =~= old(self)@.blocked.push(strand@));
            },
            _ => {},
        }
    }

    /// Takes the strand that is to run next, if there is one.
    pub fn take(&mut self) -> (strand: Option<Strand>)
        ensures
            old(self).strands@.len() == 0 ==> final(self)@ == old(self)@,
            old(self).strands@.len() > 0 ==> final(self)@ == old(self)@.without_last()
                && strand.unwrap()@ == old(self)@.strands.last(),
            forall|context: &Context|
                old(self).levelled(context) ==> #[trigger] final(self).levelled(context) && (
                strand matches Some(s) ==> s@.fits(context, context.level(old(self).goal.pred))),
            old(self).strands@.len() == 0 ==> strand is None && final(self).strands@ == old(
                self,
            ).strands@,
            old(self).strands@.len() > 0 ==> strand == Some(old(self).strands@.last())
                && final(self).strands@ == old(self).strands@.drop_last(),
            final(self).blocked == old(self).blocked,
            final(self).goal == old(self).goal,
            final(self).coinductive == old(self).coinductive,
            final(self).state == old(self).state,
            final(self).answers == old(self).answers,
            final(self).extends(old(self)),
            old(self).wf() ==> final(self).wf() && (strand matches Some(s) ==> s.subst@.len()
                == old(self).width()),
    {
        let s = self.strands.pop();
        proof {
            if old(self).strands@.len() == 0 {
                assert(self@.strands =~= old(self)@.strands);
            } else {
                assert(self@.strands =~= old(self)@.strands.drop_last());
            }
        }
        s
    }

    /// Lets the waiting strands run again; the one that waited longest runs
    /// first.
    pub fn unblock(&mut self)
        ensures
            final(self)@ == old(self)@.unblocked(),
            forall|context: &Context|
                old(self).levelled(context) ==> #[trigger] final(self).levelled(context),
            final(self).blocked@.len() == 0,
            final(self).strands@.len() == old(self).strands@.len() + old(self).blocked@.len(),
            final(self).goal == old(self).goal,
            final(self).coinductive == old(self).coinductive,
            final(self).state == old(self).state,
            final(self).answers == old(self).answers,
            final(self).extends(old(self)),
            old(self).wf() ==> final(self).wf(),
    {
        assert(self@.strands + self@.blocked.reverse() =~= old(self)@.unblocked().strands);
        while self.blocked.len() > 0
            invariant
                self@.strands + self@.blocked.reverse() == old(self)@.unblocked().strands,
                old(self).wf() ==> self.wf(),
                forall|context: &Context|
                    old(self).levelled(context) ==> #[trigger] self.levelled(context),
                self.strands@.len() + self.blocked@.len() == old(self).strands@.len() + old(
                    self,
                ).blocked@.len(),
                self.goal == old(self).goal,
                self.coinductive == old(self).coinductive,
                self.state == old(self).state,
                self.answers == old(self).answers,
            decreases self.blocked.len(),
        {
            let ghost mid = *self;
            match self.blocked.pop() {
                Some(s) => {
                    self.strands.push(s);
                },
                None => {},
            }
            proof {
                if mid.blocked@.len() > 0 {
                    let x = mid@.blocked.last();
                    assert(self@.strands =~= mid@.strands.push(x));
                    assert(self@.blocked =~= mid@.blocked.drop_last());
                    assert(mid@.blocked.reverse() =~= seq![x] + self@.blocked.reverse());
                    assert(self@.strands + self@.blocked.reverse() =~= mid@.strands
                        + mid@.blocked.reverse());
                }
                if mid.wf() {
                    assert forall|i: int| 0 <= i < self.strands@.len() implies (
                    #[trigger] self.strands@[i]).subst@.len() == self.width() by {
                        if i < mid.strands@.len() {
                            assert(self.strands@[i] == mid.strands@[i]);
                        } else {
                            assert(self.strands@[i] == mid.blocked@[mid.blocked@.len() - 1]);
                        }
                    }
                    assert forall|i: int| 0 <= i < self.blocked@.len() implies (
                    #[trigger] self.blocked@[i]).subst@.len() == self.width() by {
                        assert(self.blocked@[i] == mid.blocked@[i]);
                    }
                    assert(self.answers_view() == mid.answers_view());
                }
                assert forall|context: &Context| old(self).levelled(context) implies #[trigger] self.levelled(
                    context,
                ) by {
                    assert(mid.levelled(context));
                    let top = context.level(self.goal.pred);
                    assert forall|i: int| 0 <= i < self.strands@.len() implies (
                    #[trigger] self.strands@[i])@.fits(context, top) by {
                        if i < mid.strands@.len() {
                            assert(mid.strands@[i]@.fits(context, top));
                        } else {
                            assert(mid.blocked@[mid.blocked@.len() - 1]@.fits(context, top));
                        }
                    }
                    assert forall|i: int| 0 <= i < self.blocked@.len() implies (
                    #[trigger] self.blocked@[i])@.fits(context, top) by {
                        assert(mid.blocked@[i]@.fits(context, top));
                    }
                }
            }
        }
        proof {
            assert(self@.blocked =~= Seq::<StrandView>::empty());
            assert(self@.blocked.reverse() =~= Seq::<StrandView>::empty());
            assert(self@.strands =~= self@.strands + self@.blocked.reverse());
        }
    }

    /// Ends the search of a table that is in progress, with the given
    /// verdict, and drops its strands. A closed table is left as it is.
    pub fn close(&mut self, verdict: TableState)
        ensures
            final(self)@ == old(self)@.closed(verdict),
            forall|context: &Context|
                old(self).levelled(context) ==> #[trigger] final(self).levelled(context),
            final(self).state == if old(self).state == TableState::InProgress {
                verdict
            } else {
                old(self).state
            },
            old(self).state == TableState::InProgress && verdict != TableState::InProgress
                ==> final(self).strands@.len() == 0 && final(self).blocked@.len() == 0,
            !(old(self).state == TableState::InProgress && verdict != TableState::InProgress)
                ==> final(self).strands == old(self).strands && final(self).blocked == old(
                self,
            ).blocked,
            final(self).goal == old(self).goal,
            final(self).coinductive == old(self).coinductive,
            final(self).answers == old(self).answers,
            final(self).extends(old(self)),
            old(self).wf() ==> final(self).wf(),
    {
        let open = match self.state {
            TableState::InProgress => true,
            _ => false,
        };
        let closing = match verdict {
            TableState::InProgress => false,
            _ => true,
        };
        if open && closing {
            self.state = verdict;
            self.strands.clear();
            self.blocked.clear();
            assert(self@.strands =~= Seq::<StrandView>::empty());
            assert(self@.blocked =~= Seq::<StrandView>::empty());
        }
    }
}

} // verus!
