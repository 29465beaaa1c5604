//! What a query that asks for one solution makes of the answers of a goal.

use crate::context::{
    constrained_subst_from_answer, AnswerResult, AnswerResultView, ConstrainedSubst,
    ConstrainedSubstView, Context, NegativeCycle,
};
use crate::forest::{Forest, ForestSolver};
use crate::render::Render;
use crate::term::Term;
use vstd::prelude::*;

verus! {

/// What is known of the solution when the answers do not single one out.
#[derive(Debug)]
pub enum Guidance {
    /// Every answer that can still come agrees with this substitution.
    Definite(ConstrainedSubst),
    /// The first answer; the search for others was cut short.
    Suggested(ConstrainedSubst),
    /// Nothing.
    Unknown,
}

/// The solution of a goal.
#[derive(Debug)]
pub enum Solution {
    /// The goal holds, and in this way only.
    Unique(ConstrainedSubst),
    /// The goal may hold; in which way is not settled.
    Ambig(Guidance),
}

/// The mathematical value of a `Guidance`.
pub enum GuidanceView {
    Definite(ConstrainedSubstView),
    Suggested(ConstrainedSubstView),
    Unknown,
}

/// The mathematical value of a `Solution`.
pub enum SolutionView {
    Unique(ConstrainedSubstView),
    Ambig(GuidanceView),
}

impl View for Guidance {
    type V = GuidanceView;

    open spec fn view(&self) -> GuidanceView {
        match self {
            Guidance::Definite(s) => GuidanceView::Definite(s@),
            Guidance::Suggested(s) => GuidanceView::Suggested(s@),
            Guidance::Unknown => GuidanceView::Unknown,
        }
    }
}

impl View for Solution {
    type V = SolutionView;

    open spec fn view(&self) -> SolutionView {
        match self {
            Solution::Unique(s) => SolutionView::Unique(s@),
            Solution::Ambig(g) => SolutionView::Ambig(g@),
        }
    }
}

impl Render for Solution {
    open spec fn text(&self, context: &Context) -> Seq<char> {
        match self@ {
            SolutionView::Unique(s) => "Unique; "@ + s.text(context),
            SolutionView::Ambig(GuidanceView::Definite(s)) => "Ambiguous; definite "@ + s.text(
                context,
            ),
            SolutionView::Ambig(GuidanceView::Suggested(s)) => "Ambiguous; suggested "@ + s.text(
                context,
            ),
            SolutionView::Ambig(GuidanceView::Unknown) => "Ambiguous; no inference guidance"@,
        }
    }

    fn render(&self, context: &Context) -> (s: String) {
        match self {
            Solution::Unique(subst) => {
                let mut s = String::from_str("Unique; ");
                s.append(subst.render(context).as_str());
                s
            },
            Solution::Ambig(Guidance::Definite(subst)) => {
                let mut s = String::from_str("Ambiguous; definite ");
                s.append(subst.render(context).as_str());
                s
            },
            Solution::Ambig(Guidance::Suggested(subst)) => {
                let mut s = String::from_str("Ambiguous; suggested ");
                s.append(subst.render(context).as_str());
                s
            },
            Solution::Ambig(Guidance::Unknown) => String::from_str(
                "Ambiguous; no inference guidance",
            ),
        }
    }
}

/// Whether a binding `new` could turn out different from the binding
/// `current` that was fixed before: where `current` is left open nothing
/// can contradict it, an open `new` may become anything, and two symbols
/// differ if they are not the same.
pub open spec fn may_invalidate_term(new: Term, current: Term) -> bool {
    if current is Var {
        false
    } else if new is Var {
        true
    } else {
        new != current
    }
}

/// Whether some binding of `new` could turn out different from the binding
/// of `current` at the same place.
pub open spec fn may_invalidate(new: Seq<Term>, current: Seq<Term>) -> bool {
    exists|i: int|
        0 <= i < new.len() && i < current.len() && may_invalidate_term(
            #[trigger] new[i],
            current[i],
        )
}

/// Whether a substitution says nothing: each variable stands for itself.
pub open spec fn is_trivial(subst: Seq<Term>) -> bool {
    forall|i: int| 0 <= i < subst.len() ==> #[trigger] subst[i] == Term::Var(i as usize)
}

/// Whether some binding of `new` could turn out different from the binding
/// of `current` at the same place.
pub fn check_may_invalidate(new: &Vec<Term>, current: &Vec<Term>) -> (r: bool)
    ensures
        r == may_invalidate(new@, current@),
{
    let mut i: usize = 0;
    while i < new.len() && i < current.len()
        invariant
            forall|j: int|
                0 <= j < i && j < new.len() && j < current.len() ==> !may_invalidate_term(
                    #[trigger] new@[j],
                    current@[j],
                ),
        decreases new.len() - i,
    {
        let hit = match current[i] {
            Term::Var(_) => false,
            c => match new[i] {
                Term::Var(_) => true,
                n => n != c,
            },
        };
        if hit {
            return true;
        }
        i += 1;
    }
    false
}

/// Whether each variable stands for itself.
pub fn check_trivial(subst: &Vec<Term>) -> (r: bool)
    ensures
        r == is_trivial(subst@),
{
    let mut i: usize = 0;
    while i < subst.len()
        invariant
            i <= subst.len(),
            forall|j: int| 0 <= j < i ==> #[trigger] subst@[j] == Term::Var(j as usize),
        decreases subst.len() - i,
    {
        if subst[i] != Term::Var(i) {
            return false;
        }
        i += 1;
    }
    true
}

impl Forest {
    /// Whether a binding that can still come for `table` may contradict
    /// `current`: the binding of an answer that is recorded at the index
    /// `from` or after it and depends on no assumption, or that of a strand
    /// that has not ended.
    pub open spec fn contradicted(&self, table: usize, from: usize, current: Seq<Term>) -> bool {
        let tb = self.tables@[table as int];
        ||| exists|i: int|
            from <= i < tb.answers@.len() && !(#[trigger] tb.answers@[i])@.is_conditional()
                && may_invalidate(tb.answers@[i].subst@, current)
        ||| exists|i: int|
            0 <= i < tb.strands@.len() && may_invalidate(
                (#[trigger] tb.strands@[i]).subst@,
                current,
            )
        ||| exists|i: int|
            0 <= i < tb.blocked@.len() && may_invalidate(
                (#[trigger] tb.blocked@[i]).subst@,
                current,
            )
    }

    /// The solution that the state of the forest gives for the goal of
    /// `table` to a stream that stands at `from`.
    ///
    /// Let the first answer be what the stream gives, and the second what
    /// it gives after that. A first result that is no answer is no
    /// solution: the answers are at an end, the search has floundered, or
    /// it was cut short before it found one. A first answer that is not
    /// ambiguous and is followed by the end of the answers is the unique
    /// solution. Where the forest does not decide
    /// what follows, the first answer is suggested. Otherwise the first
    /// answer is definite guidance if it says something and nothing that
    /// can still come may contradict it, and nothing is known if not.
    pub open spec fn solution(&self, table: usize, from: usize) -> Option<SolutionView> {
        let first = self.rests(table, from);
        match self.yields(table, first) {
            AnswerResultView::NoMoreSolutions => None,
            AnswerResultView::QuantumExceeded => None,
            AnswerResultView::Floundered => None,
            AnswerResultView::Answer(a) => {
                let second = self.rests(table, (first + 1) as usize);
                let next = self.yields(table, second);
                if next is QuantumExceeded {
                    Some(SolutionView::Ambig(GuidanceView::Suggested(a.subst)))
                } else if next is NoMoreSolutions && !a.ambiguous {
                    Some(SolutionView::Unique(a.subst))
                } else if is_trivial(a.subst.values) || self.contradicted(
                    table,
                    second,
                    a.subst.values,
                ) {
                    Some(SolutionView::Ambig(GuidanceView::Unknown))
                } else {
                    Some(SolutionView::Ambig(GuidanceView::Definite(a.subst)))
                }
            },
        }
    }

    /// Whether the forest comes of `before` by the search for a solution
    /// of the goal of `table` by a stream that stood at `from`: by a look
    /// from there and, if that has found an answer, a look from the place
    /// after the answer.
    pub open spec fn weighed(&self, before: &Forest, table: usize, from: usize) -> bool {
        exists|mid: Forest|
            {
                &&& #[trigger] mid.looked(before, table, from)
                &&& if mid.yields(table, mid.rests(table, from)) is Answer {
                    self.looked(&mid, table, (mid.rests(table, from) + 1) as usize)
                } else {
                    *self == mid
                }
            }
    }

    /// Whether a search for the solution of the goal of `table` by a
    /// stream that stood at `from` was cut short: the forest does not
    /// decide the first answer, or it does not decide what follows it.
    pub open spec fn cut_short(&self, table: usize, from: usize) -> bool {
        let first = self.rests(table, from);
        ||| self.yields(table, first) is QuantumExceeded
        ||| self.yields(table, first) is Answer && self.yields(
            table,
            self.rests(table, (first + 1) as usize),
        ) is QuantumExceeded
    }
}

/// A solution, if there is one, as a mathematical value.
pub open spec fn solution_view(r: Option<Solution>) -> Option<SolutionView> {
    match r {
        Some(s) => Some(s@),
        None => None,
    }
}

/// An answer that a stream has given at the place `at` is what every
/// extension of the forest gives there, and a stream that passed over the
/// answers before `at` still comes to rest there.
pub proof fn answer_persists(before: &Forest, after: &Forest, table: usize, from: usize, at: usize)
    requires
        after.extends(before),
        table < before.tables@.len(),
        before.skips(table, from, at),
        before.yields(table, at) is Answer,
    ensures
        after.rests(table, from) == at,
        after.yields(table, at) == before.yields(table, at),
{
    let a = before.tables@[table as int];
    let b = after.tables@[table as int];
    assert(b.extends(&a));
    assert(at < a.answers@.len());
    assert(a.answers_view()[at as int] == b.answers_view()[at as int]);
    crate::forest::skips_persist(before, after, table, from, at);
    crate::forest::rests_from_skips(after, table, from, at);
}

/// Makes one solution of the answers that a cursor still gives, or says
/// that a goal was found to depend on its own negation: the first answer
/// is pulled and the one after it is looked at, and where that does not
/// settle the solution, the bindings that can still come are held against
/// the first answer.
///
/// The forest is left as the looks have made it. The search fails exactly
/// if the forest is poisoned then. Otherwise the result is the solution
/// that the forest gives to a stream that stands where the cursor stood.
/// If the search was cut short, `should_continue` has said so, or a look
/// has taken more pulls than can be counted.
pub fn try_make_solution(answers: ForestSolver<'_>, should_continue: impl Fn() -> bool) -> (r:
    Result<Option<Solution>, NegativeCycle>)
    requires
        answers.wf(),
        should_continue.requires(()),
    ensures
        final(answers.forest).wf(),
        final(answers.forest).extends(old(answers.forest)),
        final(answers.forest).reached(old(answers.forest), answers.table),
        r is Err <==> final(answers.forest).poisoned,
        r matches Ok(s) ==> {
            &&& final(answers.forest).weighed(old(answers.forest), answers.table, answers.answer)
            &&& solution_view(s) == final(answers.forest).solution(answers.table, answers.answer)
            &&& final(answers.forest).cut_short(answers.table, answers.answer)
                ==> should_continue.ensures((), false) || final(answers.forest).overran(
                old(answers.forest),
                answers.table,
            )
        },
{
    let mut cur = answers;
    let ghost table = cur.table;
    let ghost from = cur.answer;
    let pulled = cur.try_next_answer(&should_continue);
    let ghost mid = *cur.forest;
    let ghost at = mid.rests(table, from);
    proof {
        crate::forest::look_is_a_search(old(answers.forest), &mid, table, from);
        assert(mid.looked(old(answers.forest), table, from));
    }
    let first = match pulled {
        Ok(a) => a,
        Err(e) => {
            return Err(e);
        },
    };
    match first {
        AnswerResult::NoMoreSolutions => Ok(None),
        AnswerResult::QuantumExceeded => Ok(None),
        AnswerResult::Floundered => Ok(None),
        AnswerResult::Answer(answer) => {
            assert(at < mid.tables@[table as int].answers.len());
            let looked = cur.try_peek_answer(&should_continue);
            proof {
                crate::forest::extends_transitive(old(answers.forest), &mid, &*cur.forest);
                crate::forest::look_is_a_search(&mid, &*cur.forest, table, (at + 1) as usize);
                crate::logic::search_resumes(old(answers.forest), &mid, &*cur.forest, table);
            }
            let second = match looked {
                Ok(a) => a,
                Err(e) => {
                    return Err(e);
                },
            };
            proof {
                answer_persists(&mid, &*cur.forest, table, from, at);
                assert(cur.forest.looked(&mid, table, (at + 1) as usize));
                assert(cur.forest.weighed(old(answers.forest), table, from));
                if second is QuantumExceeded && !should_continue.ensures((), false) {
                    crate::logic::overrun_adds(old(answers.forest), &mid, &*cur.forest, table);
                }
            }
            let alone = second.is_no_more_solutions() && !answer.ambiguous;
            match second {
                AnswerResult::QuantumExceeded => Ok(
                    Some(Solution::Ambig(Guidance::Suggested(constrained_subst_from_answer(answer)))),
                ),
                _ => {
                    if alone {
                        Ok(Some(Solution::Unique(constrained_subst_from_answer(answer))))
                    } else if check_trivial(&answer.subst.values) {
                        Ok(Some(Solution::Ambig(Guidance::Unknown)))
                    } else {
                        let current = &answer.subst.values;
                        let test = |s: &Vec<Term>| -> (r: bool)
                            ensures
                                r == may_invalidate(s@, current@),
                            { check_may_invalidate(s, current) };
                        let contradicted = cur.any_future_answer(test);
                        proof {
                            let f = &*cur.forest;
                            if contradicted {
                                assert(f.any_future(table, cur.answer, test));
                                assert(f.contradicted(table, cur.answer, current@));
                            } else {
                                assert(f.none_future(table, cur.answer, test));
                                assert(!f.contradicted(table, cur.answer, current@));
                            }
                        }
                        if contradicted {
                            Ok(Some(Solution::Ambig(Guidance::Unknown)))
                        } else {
                            Ok(
                                Some(
                                    Solution::Ambig(
                                        Guidance::Definite(constrained_subst_from_answer(answer)),
                                    ),
                                ),
                            )
                        }
                    }
                },
            }
        },
    }
}

/// Makes one solution of the answers that a cursor still gives: the first
/// answer is pulled and the one after it is looked at, and where that does
/// not settle the solution, the bindings that can still come are held
/// against the first answer.
///
/// The forest is left as the looks have made it, and the result is the
/// solution that it then gives to a stream that stands where the cursor
/// stood. If the search was cut short, `should_continue` has said so, or a
/// look has taken more pulls than can be counted.
///
/// # Panics
///
/// As `ForestSolver::peek_answer` does; `try_make_solution` reports what
/// this function would panic at.
pub fn make_solution(answers: ForestSolver<'_>, should_continue: impl Fn() -> bool) -> (r: Option<
    Solution,
>)
    requires
        answers.sound(),
        should_continue.requires(()),
    ensures
        final(answers.forest).sound(),
        final(answers.forest).extends(old(answers.forest)),
        final(answers.forest).reached(old(answers.forest), answers.table),
        final(answers.forest).weighed(old(answers.forest), answers.table, answers.answer),
        solution_view(r) == final(answers.forest).solution(answers.table, answers.answer),
        final(answers.forest).cut_short(answers.table, answers.answer)
            ==> should_continue.ensures((), false) || final(answers.forest).overran(
            old(answers.forest),
            answers.table,
        ),
{
    let mut cur = answers;
    let ghost table = cur.table;
    let again = ForestSolver { forest: &mut *cur.forest, table: cur.table, answer: cur.answer };
    let r = try_make_solution(again, should_continue);
    proof {
        crate::forest::search_is_moves(old(answers.forest), &*cur.forest, table);
        crate::forest::safe_stays(old(answers.forest), &*cur.forest);
    }
    match r {
        Ok(s) => s,
        Err(_) => vstd::pervasive::unreached(),
    }
}

} // verus!
