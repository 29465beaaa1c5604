//! What holds of every forest and of every stream of answers.

use crate::context::{AnswerResultView, CompleteAnswerView};
use crate::forest::Forest;
use crate::logic::RootSearchFail;
use crate::stack::{cycle_kind, CycleKind};
use crate::table::TableState;
use crate::term::Term;
use vstd::prelude::*;

verus! {

/// The answers of a table are numbered without a gap, and each that is
/// recorded is to be had without a search: below the number of answers the
/// forest decides every index, with the answer itself where it depends on
/// no assumption.
pub proof fn recorded_answers_are_decided(f: &Forest, table: usize, index: usize)
    requires
        table < f.tables@.len(),
        index < f.tables@[table as int].answers@.len(),
    ensures
        f.decided(table, index) is Some,
        f.settled(table, index) <==> !f.passes_over(table, index as int),
        f.settled(table, index) ==> f.yields(table, index) is Answer,
{
}

/// An answer has a binding for each variable of the goal.
pub proof fn answers_bind_every_variable(f: &Forest, table: usize, index: usize)
    requires
        f.wf(),
        table < f.tables@.len(),
    ensures
        f.yields(table, index) matches AnswerResultView::Answer(a) ==> a.subst.values.len()
            == crate::term::variables(f.tables@[table as int].goal@).len(),
{
    if f.yields(table, index) is Answer {
        assert(f.tables@[table as int].wf());
        assert(f.tables@[table as int].answers@[index as int].subst@.len()
            == f.tables@[table as int].width());
    }
}

/// Once a table is complete, every index from the number of its answers on
/// gives the end of the answers.
pub proof fn complete_table_ends(f: &Forest, table: usize, index: usize)
    requires
        table < f.tables@.len(),
        f.tables@[table as int].state == TableState::Complete,
        index >= f.tables@[table as int].answers@.len(),
    ensures
        f.decided(table, index) == Some(
            Err::<CompleteAnswerView, RootSearchFail>(RootSearchFail::NoMoreSolutions),
        ),
        f.yields(table, index) is NoMoreSolutions,
{
}

/// A complete table is never changed again, and no table ever changes its
/// goal or its classification as coinductive.
pub proof fn tables_keep_what_is_fixed(before: &Forest, after: &Forest, table: usize)
    requires
        after.extends(before),
        table < before.tables@.len(),
    ensures
        after.tables@[table as int].goal@ == before.tables@[table as int].goal@,
        after.tables@[table as int].coinductive == before.tables@[table as int].coinductive,
        before.tables@[table as int].state == TableState::Complete ==> after.tables@[table as int].state
            == TableState::Complete && after.tables@[table as int].answers_view()
            == before.tables@[table as int].answers_view(),
        forall|i: int|
            0 <= i < before.tables@[table as int].answers@.len() ==> after.tables@[table as int].answers@[i]@
                == before.tables@[table as int].answers@[i]@,
{
    let a = before.tables@[table as int];
    let b = after.tables@[table as int];
    assert(b.extends(&a));
    assert forall|i: int| 0 <= i < a.answers@.len() implies b.answers@[i]@ == a.answers@[i]@ by {
        assert(a.answers_view()[i] == b.answers_view()[i]);
    }
}

/// A table is on the stack at one depth at most.
pub proof fn stack_holds_a_table_once(f: &Forest, i: int, j: int)
    requires
        f.wf(),
        0 <= i < f.stack.depth(),
        0 <= j < f.stack.depth(),
        f.stack.tables()[i] == f.stack.tables()[j],
    ensures
        i == j,
{
    if i < j {
        assert(f.stack.entries@[i].table != f.stack.entries@[j].table);
    } else if j < i {
        assert(f.stack.entries@[j].table != f.stack.entries@[i].table);
    }
}

/// A cycle is taken for a proof exactly if the goal that closes it is not
/// negated, the strand that asks for it is not there to confirm an
/// assumption, and every table on the stack from the goal's table up is
/// coinductive. One table on the cycle that is not coinductive is enough to
/// refute that.
pub proof fn cycle_is_a_proof_iff_all_coinductive(
    f: &Forest,
    depth: usize,
    negated: bool,
    confirming: bool,
    d: int,
)
    requires
        f.wf(),
        depth <= d < f.stack.depth(),
    ensures
        cycle_kind(negated, confirming, f.coinductive_from(depth)) == CycleKind::Coinductive
            <==> !negated && !confirming && f.coinductive_from(depth),
        !f.tables@[f.stack.tables()[d] as int].coinductive ==> cycle_kind(
            negated,
            confirming,
            f.coinductive_from(depth),
        ) != CycleKind::Coinductive,
        negated <==> cycle_kind(negated, confirming, f.coinductive_from(depth))
            == CycleKind::Negative,
{
}

/// Looking at the next answer twice gives the same result twice, and the
/// second look changes neither the forest nor the place of the stream,
/// unless the first look was cut short.
pub proof fn peek_is_idempotent(
    start: &Forest,
    once: &Forest,
    twice: &Forest,
    table: usize,
    from: usize,
    first: usize,
    second: usize,
    r1: AnswerResultView,
    r2: AnswerResultView,
)
    requires
        once.peeks(start, table, from, first, r1),
        twice.peeks(once, table, first, second, r2),
        !(r1 is QuantumExceeded),
    ensures
        r2 == r1,
        second == first,
        *twice == *once,
{
    assert(!once.passes_over(table, first as int));
    assert(once.rests(table, first) == first);
}

/// A pull is a look at the next answer followed by one step on: it gives
/// what the look gives, and a look after it starts from the next place.
pub proof fn pull_gives_what_a_look_gives(
    start: &Forest,
    after: &Forest,
    table: usize,
    from: usize,
    to: usize,
    r: AnswerResultView,
)
    requires
        after.pulls(start, table, from, to, r),
    ensures
        r == after.yields(table, after.rests(table, from)),
        from <= after.rests(table, from),
        after.rests(table, from) < usize::MAX ==> to == after.rests(table, from) + 1,
{
}

/// A look at the next answer that was cut short and is taken up again
/// gives what one look gives: the forest comes of the first by the pulls
/// of one search, and the result is what it decides for the place where
/// a stream from the first place comes to rest.
pub proof fn search_can_be_resumed(
    start: &Forest,
    once: &Forest,
    twice: &Forest,
    table: usize,
    from: usize,
    first: usize,
    second: usize,
    r1: AnswerResultView,
    r2: AnswerResultView,
)
    requires
        table < start.tables@.len(),
        once.peeks(start, table, from, first, r1),
        twice.peeks(once, table, first, second, r2),
    ensures
        twice.peeks(start, table, from, second, r2),
{
    crate::forest::extends_transitive(start, once, twice);
    crate::forest::looks_add_up(start, once, twice, table, from, first);
    crate::forest::skips_persist(once, twice, table, from, first);
    assert(twice.skips(table, from, second));
    crate::forest::skips_to_rest(twice, table, first);
    crate::forest::rests_from_skips(twice, table, from, second);
    if start.settled(table, start.rests(table, from)) {
        assert(*once == *start);
        assert(first == start.rests(table, from));
        assert(!once.passes_over(table, first as int));
        assert(once.rests(table, first) == first);
    }
}

/// A forest that is poisoned stays poisoned, and from then on it decides
/// every pull: what is recorded is given as before, and a pull for more
/// from a table that is still in progress gives the fault, never one of
/// the results that invite another try.
pub proof fn poison_is_final(before: &Forest, after: &Forest, table: usize, index: usize)
    requires
        before.poisoned,
        after.extends(before),
    ensures
        after.poisoned,
        after.decided(table, index) is Some,
        after.decided(table, index) != Some(
            Err::<CompleteAnswerView, RootSearchFail>(RootSearchFail::QuantumExceeded),
        ),
        index >= after.tables@[table as int].answers@.len() && after.tables@[table as int].state
            == TableState::InProgress ==> after.decided(table, index) == Some(
            Err::<CompleteAnswerView, RootSearchFail>(RootSearchFail::NegativeCycle),
        ),
{
}

/// Where the program is stratified, no search poisons the forest: a forest
/// that is not poisoned has no extension that is, and none that decides a
/// pull with the fault. In such a program no goal depends on its own
/// negation.
pub proof fn stratified_programs_are_never_poisoned(
    before: &Forest,
    after: &Forest,
    table: usize,
    index: usize,
)
    requires
        before.context.stratified(),
        !before.poisoned,
        after.extends(before),
    ensures
        !after.poisoned,
        after.decided(table, index) != Some(
            Err::<CompleteAnswerView, RootSearchFail>(RootSearchFail::NegativeCycle),
        ),
{
}

/// The results that a stream gives exclude one another: the forest
/// decides at most one of them for a place, an answer below the number of
/// answers only and the others from there on only.
pub proof fn results_are_distinct(f: &Forest, table: usize, index: usize)
    ensures
        f.yields(table, index) is Floundered ==> f.tables@[table as int].state
            == TableState::Floundered && index >= f.tables@[table as int].answers@.len(),
        f.yields(table, index) is NoMoreSolutions ==> f.tables@[table as int].state
            == TableState::Complete && index >= f.tables@[table as int].answers@.len(),
        f.yields(table, index) is Answer ==> index < f.tables@[table as int].answers@.len(),
{
}

/// A table that is closed has nothing to come: from the number of its
/// answers on, no test holds of anything that a stream could still give.
pub proof fn closed_tables_have_no_future<F: Fn(&Vec<Term>) -> bool>(
    f: &Forest,
    table: usize,
    index: usize,
    test: F,
)
    requires
        f.wf(),
        table < f.tables@.len(),
        f.tables@[table as int].state != TableState::InProgress,
        index >= f.tables@[table as int].answers@.len(),
    ensures
        !f.any_future(table, index, test),
        f.none_future(table, index, test),
{
    assert(f.tables@[table as int].wf());
}

/// A query of a goal whose table is closed searches nothing and makes no
/// table: the tables and the stack are left as they were.
pub proof fn a_closed_table_answers_without_search(
    before: &Forest,
    after: &Forest,
    goal: crate::term::AtomView,
)
    requires
        before.wf(),
        before.has_table(crate::term::canonical(goal)),
        before.tables@[before.index_of(crate::term::canonical(goal)) as int].state
            != TableState::InProgress,
        after.queried(before, goal),
    ensures
        after.tables_view() == before.tables_view(),
        after.tables@.len() == before.tables@.len(),
        after.stack_as(before),
        after.poisoned == before.poisoned,
{
    let key = crate::term::canonical(goal);
    let start = choose|start: Forest| #[trigger]
        start.has_made(before, key, crate::term::variables(goal).len() as usize) && start.extends(
            before,
        ) && after.reached(&start, start.index_of(key));
    let w = choose|w: int| 0 <= w < start.tables@.len() && (#[trigger] start.tables@[w]).goal@ == key;
    assert(start.tables@.len() == start.tables.len());
    assert(start.tables@[(w as usize) as int].goal@ == key);
    let t = start.index_of(key);
    assert(start.tables@[t as int].goal@ == key);
    assert(start.tables_view().len() == start.tables@.len());
    assert(before.tables_view().len() == before.tables@.len());
    assert(start.tables_view()[t as int] == before.tables_view()[t as int]);
    assert(before.tables@[t as int].goal@ == key);
    crate::forest::index_of_table(before, t);
    crate::logic::closed_tables_are_not_searched(&start, after, t);
}

/// A goal that is asked for while it is under resolution is taken to hold
/// exactly where the cycle is a proof: where the strand that asks is not
/// there to confirm an assumption and every table on the stack from the
/// goal's table up is coinductive. In every other case the strand is set
/// aside to wait for the answers of the goal, and no table gets an answer
/// by the step.
pub proof fn a_cycle_is_assumed_iff_it_is_a_proof(
    after: &Forest,
    made: &Forest,
    d: usize,
    t: usize,
    s: crate::table::StrandView,
    atom: crate::term::AtomView,
)
    requires
        after.resolved_from(made, d, t, s, atom),
        made.stack.holds(made.index_of(crate::term::canonical(atom))),
        made.tables@[made.index_of(crate::term::canonical(atom)) as int]@.state
            == TableState::InProgress,
        s.cursor >= made.tables@[made.index_of(crate::term::canonical(atom)) as int]@.answers.len(),
        s.tried >= s.assumed.len(),
    ensures
        ({
            let sub = made.index_of(crate::term::canonical(atom));
            let depth = made.stack.depth_of(sub) as usize;
            let tv = made.tables@[t as int]@;
            if !s.confirming && made.coinductive_from(depth) {
                after.changed_at(made, t, tv.with_strand(s.suppose(atom)))
            } else {
                after.changed_at(
                    made,
                    t,
                    tv.with_blocked(s.asking(crate::term::LiteralView::Positive(atom))),
                )
            }
        }),
{
}

/// A goal that is asked for under a negation while it is under resolution
/// depends on its own negation. The step that finds it out changes no
/// table, so that none flounders by it, and reports that all is not well;
/// the pull that took the step poisons the forest, and gives the fault
/// from then on for every place that the table, still in progress, does
/// not hold.
pub proof fn a_negative_cycle_is_a_fault(
    after: &Forest,
    made: &Forest,
    last: &Forest,
    t: usize,
    s: crate::table::StrandView,
    atom: crate::term::AtomView,
    sound: bool,
    table: usize,
    index: usize,
)
    requires
        after.negated_from(made, t, s, atom, sound),
        made.stack.holds(made.index_of(crate::term::canonical(atom))),
        made.tables@[made.index_of(crate::term::canonical(atom)) as int]@.state
            == TableState::InProgress,
        !made.tables@[made.index_of(crate::term::canonical(atom)) as int].has_definite(),
        last.settles(after, sound),
        last.tables@[table as int].state == TableState::InProgress,
        index >= last.tables@[table as int].answers@.len(),
    ensures
        !sound,
        after.tables_view() == made.tables_view(),
        last.tables_view() == made.tables_view(),
        last.poisoned,
        last.stack.depth() == 0,
        last.decided(table, index) == Some(
            Err::<CompleteAnswerView, RootSearchFail>(RootSearchFail::NegativeCycle),
        ),
{
}

/// A query for every answer says `false` exactly if the last call of the
/// callback said to stop. Where it says `true`, the answers have come to
/// an end, unless a limit of the machine was reached: the places of the
/// stream cannot be counted further, or a look has taken more pulls than
/// can be counted.
pub proof fn only_the_callback_stops_a_query<
    F: Fn(crate::forest::SubstitutionResult<crate::context::ConstrainedSubst>, bool) -> bool,
>(f: &Forest, table: usize, from: usize, callback: F, n: nat, go: bool, r: bool)
    requires
        f.handed_out(table, from, callback, n, go, r),
    ensures
        !r <==> n > 0 && !go,
        !r ==> f.called(table, from, (n - 1) as nat, callback, false),
        r ==> f.result(table, from, n) is NoMoreSolutions || f.result(
            table,
            from,
            n,
        ) is QuantumExceeded || (n > 0 && f.place(table, from, (n - 1) as nat) == usize::MAX),
        r && n > 0 ==> f.called(table, from, (n - 1) as nat, callback, true),
{
}

/// Only the caller's predicate cuts a look short: with a predicate that
/// never says no, the result of a look is an answer, the end of the
/// answers or the word that the search has floundered, unless the look
/// has taken more pulls than can be counted.
pub proof fn only_the_predicate_cuts_a_look_short(
    before: &Forest,
    after: &Forest,
    table: usize,
    from: usize,
    to: usize,
    r: AnswerResultView,
    said_no: bool,
)
    requires
        after.peeks(before, table, from, to, r),
        r is QuantumExceeded ==> said_no || after.overran(before, table),
        !said_no,
        !after.overran(before, table),
    ensures
        r is Answer || r is NoMoreSolutions || r is Floundered,
        after.settled(table, to),
{
}

/// What comes of a safe forest by queries is safe, and no query poisons
/// it. A forest that is not poisoned and whose program is stratified is
/// safe.
pub proof fn safe_forests_stay_safe(before: &Forest, after: &Forest)
    requires
        before.safe() || (before.context.stratified() && !before.poisoned),
        after.comes_of(before),
    ensures
        before.safe(),
        after.safe(),
        !after.poisoned,
{
    if !before.safe() {
        crate::forest::stratified_forests_are_safe(before);
    }
    crate::forest::safe_stays(before, after);
}

} // verus!
