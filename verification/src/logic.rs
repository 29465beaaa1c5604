//! The search for the answers of a goal, one step at a time. What a step
//! leaves behind is held in the tables and on the stack, so that the search
//! can stop after any step and go on later.

use crate::context::{complete, complete_answer, CompleteAnswer, CompleteAnswerView};
use crate::forest::Forest;
use crate::stack::CycleKind;
use crate::solution::is_trivial;
use crate::table::{
    StrandView, TableView,
    answer_fits, bind_fits, met_fits, met_keeps_width, resolvent_fits, resolvent_keeps_width,
    suppose_fits, Strand, TableState,
};
use crate::term::{
    canonical, canonicalize, literals_view, unify, Atom, AtomView, Literal, LiteralView, Term, Unifier,
};
use vstd::prelude::*;

verus! {

/// Why a pull at the root of a search did not give an answer.
#[derive(Clone, Copy, Debug, PartialEq, Eq, Structural)]
pub enum RootSearchFail {
    /// The answer at the index that was asked for depends on an assumption
    /// and is not for use outside. The answer at the next index may be.
    InvalidAnswer,
    /// The goal depends on a sub-goal that cannot be decided.
    Floundered,
    /// Every answer has been found, and there is none at the index.
    NoMoreSolutions,
    /// The answer is not there yet: a step was taken and did not bring
    /// it.
    QuantumExceeded,
    /// A goal depends on its own negation.
    NegativeCycle,
}

/// The result of a pull, with the answer as a mathematical value.
pub open spec fn outcome(r: Result<CompleteAnswer, RootSearchFail>) -> Result<
    CompleteAnswerView,
    RootSearchFail,
> {
    match r {
        Ok(a) => Ok(a@),
        Err(e) => Err(e),
    }
}

/// Whether some literal is not a negation.
fn has_other_than_negative(lits: &Vec<Literal>) -> (r: bool)
    ensures
        r == exists|i: int| 0 <= i < lits@.len() && !((#[trigger] lits@[i]) is Negative),
{
    let mut i: usize = 0;
    while i < lits.len()
        invariant
            i <= lits.len(),
            forall|j: int| 0 <= j < i ==> (#[trigger] lits@[j]) is Negative,
        decreases lits.len() - i,
    {
        match &lits[i] {
            Literal::Negative(_) => {},
            _ => {
                return true;
            },
        }
        i += 1;
    }
    false
}

/// Where the goals of the tables on the stack and the links of the stack
/// are the same, the strata along the stack are the same.
proof fn levels_stay(before: &Forest, after: &Forest)
    requires
        before.wf(),
        after.context == before.context,
        before.tables@.len() <= after.tables@.len(),
        forall|u: int|
            0 <= u < before.tables@.len() ==> (#[trigger] after.tables@[u]).goal@ == before.tables@[u].goal@,
    ensures
        forall|u: int|
            0 <= u < before.tables@.len() ==> #[trigger] after.level_of_table(u) == before.level_of_table(u),
{
    assert forall|u: int| 0 <= u < before.tables@.len() implies #[trigger] after.level_of_table(u)
        == before.level_of_table(u) by {
        assert(after.tables@[u].goal@ == before.tables@[u].goal@);
    }
}

/// A change to one table that `Table::extends` allows, and that keeps the
/// table to its stratum, keeps the forest consistent.
proof fn frame_one(before: &Forest, after: &Forest, t: int)
    requires
        before.wf(),
        0 <= t < before.tables@.len(),
        after.tables@.len() == before.tables@.len(),
        forall|i: int| 0 <= i < before.tables@.len() && i != t ==> after.tables@[i] == before.tables@[i],
        after.tables@[t].extends(&before.tables@[t]),
        after.tables@[t].wf(),
        before.context.stratified() ==> after.tables@[t].levelled(&before.context),
        after.context == before.context,
        after.stack.tables() == before.stack.tables(),
        after.stack.links() == before.stack.links(),
        after.stack.distinct(),
        after.poisoned == before.poisoned,
    ensures
        after.advances(before),
{
    assert forall|i: int, j: int| 0 <= i < j < after.tables@.len() implies (
    #[trigger] after.tables@[i]).goal@ != (#[trigger] after.tables@[j]).goal@ by {
        assert(after.tables@[i].goal@ == before.tables@[i].goal@);
        assert(after.tables@[j].goal@ == before.tables@[j].goal@);
    }
    assert forall|i: int| 0 <= i < before.tables@.len() implies (#[trigger] after.tables@[i]).extends(
        &before.tables@[i],
    ) by {}
    assert forall|i: int| 0 <= i < after.tables@.len() implies (#[trigger] after.tables@[i]).wf() by {
        if i != t {
            assert(before.tables@[i].wf());
        }
    }
    assert(after.stack.tables().len() == after.stack.depth());
    assert(before.stack.tables().len() == before.stack.depth());
    assert forall|d: int| 0 <= d < after.stack.depth() implies (#[trigger] after.stack.tables()[d])
        < after.tables@.len() by {
        assert(before.stack.tables()[d] < before.tables@.len());
    }
    if before.context.stratified() {
        levels_stay(before, after);
        assert forall|u: int| 0 <= u < after.tables@.len() implies (
        #[trigger] after.tables@[u]).levelled(&after.context) by {
            if u != t {
                assert(before.tables@[u].levelled(&before.context));
            }
        }
        assert forall|d: int| 0 < d < after.stack.depth() implies #[trigger] after.steps_down(d) by {
            assert(before.steps_down(d));
            assert(before.stack.tables()[d] < before.tables@.len());
            assert(before.stack.tables()[d - 1] < before.tables@.len());
        }
        assert forall|d: int| 0 <= d < after.stack.depth() implies #[trigger] after.waits_within(
            d,
        ) by {
            assert(before.waits_within(d));
            assert(before.stack.tables()[d] < before.tables@.len());
            assert(before.stack.tables()[before.stack.links()[d].1 as int] < before.tables@.len());
        }
    }
}

/// Taking the top entry off the stack keeps the forest consistent.
proof fn after_pop(before: &Forest, after: &Forest)
    requires
        before.wf(),
        before.stack.depth() > 0,
        after.tables == before.tables,
        after.context == before.context,
        after.poisoned == before.poisoned,
        after.stack.distinct(),
        after.stack.tables() == before.stack.tables().drop_last(),
        after.stack.links() == before.stack.links().drop_last(),
    ensures
        after.advances(before),
{
    assert(after.stack.tables().len() == after.stack.depth());
    assert(before.stack.tables().len() == before.stack.depth());
    assert forall|d: int| 0 <= d < after.stack.depth() implies (#[trigger] after.stack.tables()[d])
        < after.tables@.len() by {
        assert(before.stack.tables()[d] < before.tables@.len());
    }
    assert forall|i: int| 0 <= i < before.tables@.len() implies (#[trigger] after.tables@[i]).extends(
        &before.tables@[i],
    ) by {}
    if before.context.stratified() {
        assert forall|d: int| 0 < d < after.stack.depth() implies #[trigger] after.steps_down(d) by {
            assert(before.steps_down(d));
        }
        assert forall|d: int| 0 <= d < after.stack.depth() implies #[trigger] after.waits_within(
            d,
        ) by {
            assert(before.waits_within(d));
        }
    }
}

/// A change to the depth that the entry at depth `d` waits for keeps the
/// forest consistent, if the entry waits for a goal that is not above it,
/// and of no higher stratum.
proof fn after_relink(before: &Forest, after: &Forest, d: int, min: usize)
    requires
        before.wf(),
        0 <= d < before.stack.depth(),
        after.tables == before.tables,
        after.context == before.context,
        after.poisoned == before.poisoned,
        after.stack.distinct(),
        after.stack.tables() == before.stack.tables(),
        after.stack.links() == before.stack.links().update(
            d,
            (before.stack.links()[d].0, min, before.stack.links()[d].2),
        ),
        before.context.stratified() ==> min <= d && before.level_at(min as int)
            <= before.level_at(d),
    ensures
        after.advances(before),
{
    assert(after.stack.tables().len() == after.stack.depth());
    assert(before.stack.tables().len() == before.stack.depth());
    assert forall|k: int| 0 <= k < after.stack.depth() implies (#[trigger] after.stack.tables()[k])
        < after.tables@.len() by {
        assert(before.stack.tables()[k] < before.tables@.len());
    }
    assert forall|i: int| 0 <= i < before.tables@.len() implies (#[trigger] after.tables@[i]).extends(
        &before.tables@[i],
    ) by {}
    if before.context.stratified() {
        assert forall|k: int| 0 <= k < after.stack.depth() implies after.level_at(k) == before.level_at(
            k,
        ) by {}
        assert forall|k: int| 0 < k < after.stack.depth() implies #[trigger] after.steps_down(k) by {
            assert(before.steps_down(k));
            assert(after.level_at(k) == before.level_at(k));
            assert(after.level_at(k - 1) == before.level_at(k - 1));
        }
        assert forall|k: int| 0 <= k < after.stack.depth() implies #[trigger] after.waits_within(
            k,
        ) by {
            assert(before.waits_within(k));
            assert(after.level_at(k) == before.level_at(k));
            if k == d {
                assert(after.level_at(min as int) == before.level_at(min as int));
            } else {
                let m = before.stack.links()[k].1 as int;
                assert(after.level_at(m) == before.level_at(m));
            }
        }
    }
}

/// Putting a table on the stack keeps the forest consistent, if its goal
/// is of no higher stratum than the goal that asked for it, and of a lower
/// one where it was asked for under a negation.
proof fn after_push(before: &Forest, after: &Forest, t: usize, negated: bool)
    requires
        before.wf(),
        t < before.tables@.len(),
        after.tables == before.tables,
        after.context == before.context,
        after.poisoned == before.poisoned,
        after.stack.distinct(),
        after.stack.tables() == before.stack.tables().push(t),
        before.stack.depth() <= usize::MAX,
        after.stack.links() == before.stack.links().push((t, before.stack.depth() as usize, negated)),
        before.context.stratified() && before.stack.depth() > 0
            ==> before.level_of_table(t as int) <= before.level_at(before.stack.depth() - 1) && (negated
            ==> before.level_of_table(t as int) < before.level_at(before.stack.depth() - 1)),
    ensures
        after.advances(before),
{
    let n = before.stack.depth() as int;
    assert(after.stack.tables().len() == after.stack.depth());
    assert(before.stack.tables().len() == before.stack.depth());
    assert(after.stack.links().len() == after.stack.depth());
    assert forall|k: int| 0 <= k < after.stack.depth() implies (#[trigger] after.stack.tables()[k])
        < after.tables@.len() by {
        if k < n {
            assert(before.stack.tables()[k] < before.tables@.len());
        }
    }
    assert forall|i: int| 0 <= i < before.tables@.len() implies (#[trigger] after.tables@[i]).extends(
        &before.tables@[i],
    ) by {}
    if before.context.stratified() {
        assert forall|k: int| 0 <= k < n implies after.level_at(k) == before.level_at(k) by {}
        assert(after.level_at(n) == before.level_of_table(t as int));
        assert forall|k: int| 0 < k < after.stack.depth() implies #[trigger] after.steps_down(k) by {
            if k < n {
                assert(before.steps_down(k));
                assert(after.level_at(k) == before.level_at(k));
                assert(after.level_at(k - 1) == before.level_at(k - 1));
            } else {
                assert(after.level_at(k - 1) == before.level_at(k - 1));
            }
        }
        assert forall|k: int| 0 <= k < after.stack.depth() implies #[trigger] after.waits_within(
            k,
        ) by {
            if k < n {
                assert(before.waits_within(k));
                assert(after.level_at(k) == before.level_at(k));
                let m = before.stack.links()[k].1 as int;
                assert(after.level_at(m) == before.level_at(m));
            }
        }
    }
}

/// Along the stack the strata do not rise.
proof fn stack_descends(f: &Forest, lo: int, hi: int)
    requires
        f.context.stratified(),
        f.strata_hold(),
        0 <= lo <= hi < f.stack.depth(),
    ensures
        f.level_at(hi) <= f.level_at(lo),
    decreases hi - lo,
{
    if lo < hi {
        stack_descends(f, lo, hi - 1);
        assert(f.steps_down(hi));
    }
}

/// What extends an extension in the course of a search has advanced from
/// where the search stood.
proof fn advances_twice(a: &Forest, b: &Forest, c: &Forest)
    requires
        b.advances(a),
        c.advances(b),
    ensures
        c.advances(a),
{
    crate::forest::extends_transitive(a, b, c);
}

/// Whether the forest after the one at `i` in `trail` comes of it by a pull
/// at `table`, and extends it.
pub open spec fn pull_at(trail: Seq<Forest>, table: usize, i: int) -> bool {
    trail[i + 1].pulled(&trail[i], table) && trail[i + 1].extends(&trail[i])
}

impl Forest {
    /// What a step of the search may do to a forest: it stays consistent,
    /// changes only as `extends` allows, and the poison is not touched.
    pub open spec fn advances(&self, before: &Forest) -> bool {
        &&& self.wf()
        &&& self.extends(before)
        &&& self.poisoned == before.poisoned
    }

    /// The tables as mathematical values.
    pub open spec fn tables_view(&self) -> Seq<TableView> {
        Seq::new(self.tables@.len(), |t: int| self.tables@[t]@)
    }

    /// Whether the forest is `before` but for its tables and its stack.
    pub open spec fn rest_as(&self, before: &Forest) -> bool {
        &&& self.context == before.context
        &&& self.poisoned == before.poisoned
    }

    /// Whether the tables are those of `before` with `tv` in the place of
    /// table `t`, and nothing but the tables and the stack differs.
    pub open spec fn changed_at(&self, before: &Forest, t: usize, tv: TableView) -> bool {
        &&& self.rest_as(before)
        &&& self.tables_view() == before.tables_view().update(t as int, tv)
    }

    /// Whether the tables are those of `before`, and nothing but the stack
    /// differs.
    pub open spec fn tables_as(&self, before: &Forest) -> bool {
        &&& self.rest_as(before)
        &&& self.tables_view() == before.tables_view()
    }

    /// Whether the stack is that of `before`.
    pub open spec fn stack_as(&self, before: &Forest) -> bool {
        &&& self.stack.links() == before.stack.links()
        &&& self.stack.marks() == before.stack.marks()
    }

    /// Whether the stack is that of `before` without its top entry.
    pub open spec fn stack_popped(&self, before: &Forest) -> bool {
        &&& self.stack.links() == before.stack.links().drop_last()
        &&& self.stack.marks() == before.stack.marks().drop_last()
    }

    /// The table at the top of the stack.
    pub open spec fn top(&self) -> usize {
        self.stack.links().last().0
    }

    /// The tables after those of `members` that are not under resolution
    /// were closed as complete.
    pub open spec fn members_closed(&self, members: Seq<usize>) -> Seq<TableView> {
        Seq::new(
            self.tables@.len(),
            |u: int|
                if members.contains(u as usize) && !self.stack.holds(u as usize) {
                    self.tables@[u]@.closed(TableState::Complete)
                } else {
                    self.tables@[u]@
                },
        )
    }

    /// What recording the answer of the strand `s` in table `t` makes of
    /// the forest `before`.
    ///
    /// An answer that the table holds, or one for a table that is closed,
    /// changes nothing. A new answer stands after the others, and every
    /// entry of the stack is told of it. If it holds of every instance of
    /// the goal without assumption or doubt, the table is complete and
    /// leaves the stack. If it depends on assumptions, the strand that is
    /// to confirm them is to run next.
    pub open spec fn recorded(&self, before: &Forest, t: usize, s: StrandView) -> bool {
        let tv = before.tables@[t as int]@;
        let x = s.answer(tv.goal);
        let told = Seq::new(before.stack.depth(), |d: int| (true, before.stack.marks()[d].1));
        if !(tv.state == TableState::InProgress && !tv.answers.contains(x)) {
            self.tables_as(before) && self.stack_as(before)
        } else if x.is_definite() && is_trivial(x.subst) {
            &&& self.changed_at(before, t, tv.with_answer(x).closed(TableState::Complete))
            &&& self.stack.links() == if before.stack.depth() > 0 {
                before.stack.links().drop_last()
            } else {
                before.stack.links()
            }
            &&& self.stack.marks() == if before.stack.depth() > 0 {
                told.drop_last()
            } else {
                told
            }
        } else {
            &&& self.changed_at(
                before,
                t,
                if x.is_conditional() {
                    tv.with_answer(x).with_strand(s.confirmation(tv.goal))
                } else {
                    tv.with_answer(x)
                },
            )
            &&& self.stack.links() == before.stack.links()
            &&& self.stack.marks() == told
        }
    }

    /// What it makes of the forest `before` that the table `t` at the top
    /// of the stack, at depth `d`, leaves the stack though strands of it
    /// wait for a table further down.
    ///
    /// The entry below takes over what the table waits for, and notes the
    /// table and the tables that were left unfinished above it. Where the
    /// table was asked for under a negation, nothing else changes, and all
    /// is well only if an answer refutes the negation. Otherwise the strand
    /// below that asked for the table is set aside, unless there is an
    /// answer for it.
    pub open spec fn left_waiting(&self, before: &Forest, d: usize, t: usize, sound: bool) -> bool {
        let links = before.stack.links();
        let marks = before.stack.marks();
        let below = d - 1;
        let caller = links[below].0;
        let min = if links[d as int].1 < links[below].1 {
            links[d as int].1
        } else {
            links[below].1
        };
        let cv = before.tables@[caller as int]@;
        &&& self.stack.links() == links.drop_last().update(below, (caller, min, links[below].2))
        &&& self.stack.marks() == marks.drop_last().update(
            below,
            (marks[below].0, marks[below].1 + seq![t] + marks[d as int].1),
        )
        &&& if links[d as int].2 {
            self.tables_as(before) && sound == before.tables@[t as int].has_definite()
        } else {
            sound && if cv.strands.len() > 0 && cv.strands.last().cursor
                >= before.tables@[t as int]@.answers.len() {
                self.changed_at(before, caller, cv.without_last().with_blocked(cv.strands.last()))
            } else {
                self.tables_as(before)
            }
        }
    }

    /// The tables after the table `t` at the top of the stack, at depth
    /// `d`, and the tables that were left unfinished above it were closed
    /// as complete. A table that is under resolution further down is not
    /// closed.
    pub open spec fn cycle_closed(&self, d: usize, t: usize) -> Seq<TableView> {
        let members = self.stack.marks()[d as int].1;
        Seq::new(
            self.tables@.len(),
            |u: int|
                if u == t || (members.contains(u as usize) && !self.stack.tables().take(
                    d as int,
                ).contains(u as usize)) {
                    self.tables@[u]@.closed(TableState::Complete)
                } else {
                    self.tables@[u]@
                },
        )
    }

    /// What it makes of the forest `before` that none of the strands of the
    /// table `t` at the top of the stack, at depth `d`, can run.
    ///
    /// A table without strands that wait is complete and leaves the stack.
    /// A table that waits for one further down leaves the stack as
    /// `left_waiting` says. A table that is the first of its cycle starts
    /// over, with its waiting strands to run again, if an answer was
    /// recorded since it last did; if none was, the table and the tables
    /// left unfinished above it are complete, and it leaves the stack.
    pub open spec fn exhausted(&self, before: &Forest, d: usize, t: usize, sound: bool) -> bool {
        let tv = before.tables@[t as int]@;
        let link = before.stack.links()[d as int];
        let mark = before.stack.marks()[d as int];
        if tv.blocked.len() == 0 {
            &&& sound
            &&& self.changed_at(before, t, tv.closed(TableState::Complete))
            &&& self.stack_popped(before)
        } else if link.1 < d {
            self.left_waiting(before, d, t, sound)
        } else if mark.0 {
            &&& sound
            &&& self.changed_at(before, t, tv.unblocked())
            &&& self.stack.links() == before.stack.links().update(d as int, (t, d, link.2))
            &&& self.stack.marks() == before.stack.marks().update(
                d as int,
                (false, Seq::<usize>::empty()),
            )
        } else {
            &&& sound
            &&& self.rest_as(before)
            &&& self.tables_view() == before.cycle_closed(d, t)
            &&& self.stack_popped(before)
        }
    }

    /// What it makes of the forest `before` that the table at the top of
    /// the stack flounders: it leaves the stack and is closed as
    /// floundered.
    pub open spec fn floundered(&self, before: &Forest) -> bool {
        if before.stack.depth() == 0 {
            self.tables_as(before) && self.stack_as(before)
        } else {
            &&& self.stack_popped(before)
            &&& self.changed_at(
                before,
                before.top(),
                before.tables@[before.top() as int]@.closed(TableState::Floundered),
            )
        }
    }

    /// What it makes of the forest `made`, which has the table of the goal
    /// `atom`, that a strand `s` of the table `t` at the top of the stack,
    /// at depth `d`, is resolved with the positive literal `atom`, which
    /// was taken off the strand and is not met by a goal that the strand
    /// takes to hold.
    ///
    /// Where the goal's table has an answer at the strand's cursor, the
    /// strand stays with its literal, to be resolved with the answer after
    /// that, and the resolvent is to run next; the table flounders if the
    /// variables of the answer cannot be renamed apart. Where there is no
    /// such answer, the literal is held against the next of the goals that
    /// the strand takes to hold, if one is left: the strand stays with its
    /// literal, and if the goal meets the literal, the strand that results
    /// is to run next. After that, the strand ends if the goal's table is
    /// complete, and its table flounders if the goal's table has. If the
    /// goal is under resolution, the strand assumes it where the cycle is a
    /// proof, and is set aside with its literal where it is not, and then
    /// the entry of its table waits for the goal. Otherwise the strand
    /// keeps the literal and the goal's table is put on the stack, its
    /// waiting strands to run again.
    pub open spec fn resolved_from(
        &self,
        made: &Forest,
        d: usize,
        t: usize,
        s: StrandView,
        atom: AtomView,
    ) -> bool {
        let sub = made.index_of(canonical(atom));
        let tb = made.tables@[sub as int]@;
        let tv = made.tables@[t as int]@;
        let ask = s.asking(LiteralView::Positive(atom));
        let links = made.stack.links();
        if s.cursor >= tb.answers.len() && s.tried < s.assumed.len() {
            &&& self.changed_at(
                made,
                t,
                if s.can_meet(atom, s.tried as int) {
                    tv.with_strand(ask.at(s.cursor, (s.tried + 1) as usize)).with_strand(
                        s.met(atom, s.tried as int),
                    )
                } else {
                    tv.with_strand(ask.at(s.cursor, (s.tried + 1) as usize))
                },
            )
            &&& self.stack_as(made)
        } else if s.cursor < tb.answers.len() {
            if s.can_resolve(tb.answers[s.cursor as int]) {
                &&& self.changed_at(
                    made,
                    t,
                    tv.with_strand(ask.at((s.cursor + 1) as usize, s.tried)).with_strand(
                        s.resolvent(tb.answers[s.cursor as int], crate::term::variables(atom), atom),
                    ),
                )
                &&& self.stack_as(made)
            } else {
                self.floundered(made)
            }
        } else if tb.state == TableState::Complete {
            self.tables_as(made) && self.stack_as(made)
        } else if tb.state == TableState::Floundered {
            self.floundered(made)
        } else if made.stack.holds(sub) {
            let depth = made.stack.depth_of(sub);
            if crate::stack::cycle_kind(false, s.confirming, made.coinductive_from(depth as usize))
                == CycleKind::Coinductive {
                self.changed_at(made, t, tv.with_strand(s.suppose(atom))) && self.stack_as(made)
            } else {
                &&& self.changed_at(made, t, tv.with_blocked(ask))
                &&& self.stack.marks() == made.stack.marks()
                &&& self.stack.links() == links.update(
                    d as int,
                    (
                        t,
                        if depth < links[d as int].1 {
                            depth as usize
                        } else {
                            links[d as int].1
                        },
                        links[d as int].2,
                    ),
                )
            }
        } else {
            &&& self.rest_as(made)
            &&& self.tables_view() == made.tables_view().update(t as int, tv.with_strand(ask)).update(
                sub as int,
                tb.unblocked(),
            )
            &&& self.stack.links() == links.push((sub, made.stack.depth() as usize, false))
            &&& self.stack.marks() == made.stack.marks().push((false, Seq::<usize>::empty()))
        }
    }

    /// What it makes of the forest `before` that a strand `s` of the table
    /// `t` at the top of the stack, at depth `d`, is resolved with the
    /// positive literal `atom`, which was taken off the strand.
    ///
    /// A literal that a goal which the strand takes to hold meets at no
    /// cost is done with: the strand goes on without it. Any other is
    /// resolved as `resolved_from` says, in the forest that has the table
    /// of the goal.
    pub open spec fn after_positive(
        &self,
        before: &Forest,
        d: usize,
        t: usize,
        s: StrandView,
        atom: AtomView,
    ) -> bool {
        if s.is_met(atom) {
            &&& self.changed_at(before, t, before.tables@[t as int]@.with_strand(s.at(0, 0)))
            &&& self.stack_as(before)
        } else {
            exists|made: Forest|
                #[trigger] made.has_made(
                    before,
                    canonical(atom),
                    crate::term::variables(atom).len() as usize,
                ) && self.resolved_from(&made, d, t, s, atom)
        }
    }

    /// What it makes of the forest `made`, which has the table of the goal
    /// `atom`, that a strand `s` of the table `t` at the top of the stack
    /// is resolved with the negation of `atom`, a ground goal, which was
    /// taken off the strand.
    ///
    /// If the goal has an answer without assumption or doubt, the strand
    /// ends. If the goal's table is complete, the strand goes on without
    /// the literal, in doubt if the table has answers. If the table has
    /// floundered, so does the table of the strand. If the goal is under
    /// resolution, the goal depends on its own negation: nothing changes
    /// and all is not well. Otherwise the strand keeps the literal and the
    /// goal's table is put on the stack, its waiting strands to run again.
    pub open spec fn negated_from(
        &self,
        made: &Forest,
        t: usize,
        s: StrandView,
        atom: AtomView,
        sound: bool,
    ) -> bool {
        let sub = made.index_of(canonical(atom));
        let tb = made.tables@[sub as int]@;
        let tv = made.tables@[t as int]@;
        if made.tables@[sub as int].has_definite() {
            sound && self.tables_as(made) && self.stack_as(made)
        } else if tb.state == TableState::Complete {
            &&& sound
            &&& self.changed_at(made, t, tv.with_strand(s.doubted(tb.answers.len() > 0).at(0, s.tried)))
            &&& self.stack_as(made)
        } else if tb.state == TableState::Floundered {
            sound && self.floundered(made)
        } else if made.stack.holds(sub) {
            !sound && self.tables_as(made) && self.stack_as(made)
        } else {
            &&& sound
            &&& self.rest_as(made)
            &&& self.tables_view() == made.tables_view().update(
                t as int,
                tv.with_strand(s.asking(LiteralView::Negative(atom))),
            ).update(sub as int, tb.unblocked())
            &&& self.stack.links() == made.stack.links().push(
                (sub, made.stack.depth() as usize, true),
            )
            &&& self.stack.marks() == made.stack.marks().push((false, Seq::<usize>::empty()))
        }
    }

    /// What it makes of the forest `before` that a strand `s` of the table
    /// `t` at the top of the stack is resolved with the negation of
    /// `atom`, which was taken off the strand.
    ///
    /// A negation that is not ground goes behind the other literals; the
    /// table flounders if there are only negations. A ground negation is
    /// resolved as `negated_from` says, in the forest that has the table of
    /// the goal.
    pub open spec fn after_negative(
        &self,
        before: &Forest,
        t: usize,
        s: StrandView,
        atom: AtomView,
        sound: bool,
    ) -> bool {
        if !atom.is_ground() {
            sound && if s.has_other() {
                &&& self.changed_at(
                    before,
                    t,
                    before.tables@[t as int]@.with_strand(s.behind(LiteralView::Negative(atom))),
                )
                &&& self.stack_as(before)
            } else {
                self.floundered(before)
            }
        } else {
            exists|made: Forest|
                #[trigger] made.has_made(
                    before,
                    canonical(atom),
                    crate::term::variables(atom).len() as usize,
                ) && self.negated_from(&made, t, s, atom, sound)
        }
    }

    /// What it makes of the forest `before` that a strand `s` of the table
    /// `t` at the top of the stack, at depth `d`, goes on with its first
    /// literal.
    ///
    /// An equation is solved by unification: the strand ends if the terms
    /// cannot be unified, and goes on without the equation, with the
    /// binding made, if they can. A positive literal is resolved as
    /// `after_positive` says, a negation as `after_negative` says, each
    /// with the strand that is left when the literal is taken off.
    pub open spec fn pursued(
        &self,
        before: &Forest,
        d: usize,
        t: usize,
        s: StrandView,
        sound: bool,
    ) -> bool {
        let rest = s.without(0);
        let tv = before.tables@[t as int]@;
        match s.subgoals[0] {
            LiteralView::Equals(a, b) => sound && match crate::term::unifier(a, b) {
                Unifier::Fail => self.tables_as(before) && self.stack_as(before),
                Unifier::Identity => self.changed_at(before, t, tv.with_strand(rest))
                    && self.stack_as(before),
                Unifier::Bind(v, r) => self.changed_at(before, t, tv.with_strand(rest.bind(v, r)))
                    && self.stack_as(before),
            },
            LiteralView::Positive(atom) => sound && self.after_positive(before, d, t, rest, atom),
            LiteralView::Negative(atom) => self.after_negative(before, t, rest, atom, sound),
        }
    }

    /// What one step of the search makes of the forest `before`.
    ///
    /// The step is taken in the table at the top of the stack. Where none
    /// of its strands can run, its turn ends as `exhausted` says. Otherwise
    /// the strand that is to run next is taken out of the table; it yields
    /// its answer, as `recorded` says, if it has no literal left, and goes
    /// on with its first literal, as `pursued` says, if it has.
    pub open spec fn stepped(&self, before: &Forest, sound: bool) -> bool {
        let d = (before.stack.depth() - 1) as usize;
        let t = before.top();
        let tv = before.tables@[t as int]@;
        if tv.strands.len() == 0 {
            self.exhausted(before, d, t, sound)
        } else {
            exists|mid: Forest|
                #[trigger] mid.changed_at(before, t, tv.without_last()) && mid.stack_as(before)
                    && if tv.strands.last().subgoals.len() == 0 {
                    sound && self.recorded(&mid, t, tv.strands.last())
                } else {
                    self.pursued(&mid, d, t, tv.strands.last(), sound)
                }
        }
    }

    /// Whether the forest is the one from which a pull at `table` takes
    /// its step in the forest `before`: the stack is empty if it held the
    /// search of another table, and nothing else differs.
    pub open spec fn ready(&self, before: &Forest, table: usize) -> bool {
        &&& self.context == before.context
        &&& self.poisoned == before.poisoned
        &&& self.tables_view() == before.tables_view()
        &&& if before.stack.depth() > 0 && before.stack.links()[0].0 != table {
            self.stack.depth() == 0
        } else {
            self.stack_as(before)
        }
    }

    /// Whether the forest comes of `start` by the first move of a pull at
    /// `table`: the table is put on an empty stack, its waiting strands to
    /// run again; on a stack that is not empty, one step is taken.
    pub open spec fn moved(&self, start: &Forest, table: usize, sound: bool) -> bool {
        if start.stack.depth() == 0 {
            &&& sound
            &&& self.changed_at(start, table, start.tables@[table as int]@.unblocked())
            &&& self.stack.links() == start.stack.links().push((table, 0usize, false))
            &&& self.stack.marks() == start.stack.marks().push((false, Seq::<usize>::empty()))
        } else {
            self.stepped(start, sound)
        }
    }

    /// Whether the forest is what a pull leaves of the forest `after` its
    /// move: the forest itself if all is well, and the forest poisoned,
    /// with an empty stack, if a goal was found to depend on its own
    /// negation.
    pub open spec fn settles(&self, after: &Forest, sound: bool) -> bool {
        &&& self.context == after.context
        &&& self.tables_view() == after.tables_view()
        &&& if sound {
            self.poisoned == after.poisoned && self.stack_as(after)
        } else {
            self.poisoned && self.stack.depth() == 0
        }
    }

    /// What a pull at `table` that the forest `before` does not decide
    /// makes of it: the table is in progress and the forest is not
    /// poisoned, the move is made, and the forest is poisoned if the move
    /// found a goal that depends on its own negation.
    #[verifier::opaque]
    pub open spec fn pulled(&self, before: &Forest, table: usize) -> bool {
        &&& !before.poisoned
        &&& before.tables@[table as int].state == TableState::InProgress
        &&& exists|start: Forest, after: Forest, sound: bool|
            #![trigger start.ready(before, table), self.settles(&after, sound)]
            start.ready(before, table) && after.moved(&start, table, sound) && self.settles(
                &after,
                sound,
            )
    }

    /// Whether `trail` is a search for the answers of `table` that leads
    /// from `before` to this forest: it starts with `before` and ends with
    /// this forest, and each forest in it comes of the one before it by a
    /// pull at `table`, and extends it.
    pub open spec fn searched(&self, before: &Forest, table: usize, trail: Seq<Forest>) -> bool {
        &&& trail.len() > 0
        &&& trail[0] == *before
        &&& trail[trail.len() - 1] == *self
        &&& forall|i: int| 0 <= i < trail.len() - 1 ==> #[trigger] pull_at(trail, table, i)
    }

    /// Whether the forest comes of `before` by a search for the answers of
    /// `table`: there is a run of forests from `before` to this one, each
    /// of which comes of the one before it by a pull.
    pub open spec fn reached(&self, before: &Forest, table: usize) -> bool {
        exists|trail: Seq<Forest>| #[trigger] self.searched(before, table, trail)
    }

    /// Whether a search for the answers of `table` has led from `before`
    /// to this forest by more pulls than can be counted, which no run
    /// does.
    pub open spec fn overran(&self, before: &Forest, table: usize) -> bool {
        exists|trail: Seq<Forest>|
            #[trigger] self.searched(before, table, trail) && trail.len() > usize::MAX
    }

    /// What the state of the forest says of answer `index` of `table`
    /// without any search, or `None` where only a search can tell.
    pub open spec fn decided(&self, table: usize, index: usize) -> Option<
        Result<CompleteAnswerView, RootSearchFail>,
    >
        recommends
            table < self.tables@.len(),
    {
        let tb = self.tables@[table as int];
        if index < tb.answers@.len() {
            if tb.answers@[index as int]@.is_conditional() {
                Some(Err(RootSearchFail::InvalidAnswer))
            } else {
                Some(Ok(complete(tb.answers@[index as int]@)))
            }
        } else if tb.state == TableState::Complete {
            Some(Err(RootSearchFail::NoMoreSolutions))
        } else if tb.state == TableState::Floundered {
            Some(Err(RootSearchFail::Floundered))
        } else if self.poisoned {
            Some(Err(RootSearchFail::NegativeCycle))
        } else {
            None
        }
    }

    /// Reads answer `index` of `table` off the state of the forest, where
    /// the state decides it.
    pub fn lookup(&self, table: usize, index: usize) -> (r: Option<
        Result<CompleteAnswer, RootSearchFail>,
    >)
        requires
            table < self.tables@.len(),
        ensures
            r is Some <==> self.decided(table, index) is Some,
            r matches Some(x) ==> outcome(x) == self.decided(table, index).unwrap(),
    {
        let tb = &self.tables[table];
        if index < tb.answers.len() {
            if tb.answers[index].is_conditional() {
                Some(Err(RootSearchFail::InvalidAnswer))
            } else {
                Some(Ok(complete_answer(&tb.answers[index])))
            }
        } else {
            match tb.state {
                TableState::Complete => Some(Err(RootSearchFail::NoMoreSolutions)),
                TableState::Floundered => Some(Err(RootSearchFail::Floundered)),
                TableState::InProgress => if self.poisoned {
                    Some(Err(RootSearchFail::NegativeCycle))
                } else {
                    None
                },
            }
        }
    }

    fn put_strand(&mut self, t: usize, strand: Strand)
        requires
            old(self).wf(),
            t < old(self).tables@.len(),
            old(self).admits(t, strand@),
        ensures
            final(self).advances(old(self)),
            final(self).changed_at(old(self), t, old(self).tables@[t as int]@.with_strand(strand@)),
            final(self).stack == old(self).stack,
            final(self).tables@.len() == old(self).tables@.len(),
    {
        self.tables[t].put(strand);
        proof {
            assert(old(self).context.stratified()
                ==> self.tables@[t as int].levelled(&old(self).context)) by {
                if old(self).context.stratified() {
                    assert(old(self).tables@[t as int].levelled(&old(self).context));
                }
            }
            frame_one(old(self), self, t as int);
            assert(self.tables_view() =~= old(self).tables_view().update(
                t as int,
                self.tables@[t as int]@,
            ));
        }
    }

    fn park_strand(&mut self, t: usize, strand: Strand)
        requires
            old(self).wf(),
            t < old(self).tables@.len(),
            old(self).admits(t, strand@),
        ensures
            final(self).advances(old(self)),
            final(self).changed_at(old(self), t, old(self).tables@[t as int]@.with_blocked(strand@)),
            final(self).stack == old(self).stack,
            final(self).tables@.len() == old(self).tables@.len(),
    {
        self.tables[t].park(strand);
        proof {
            assert(old(self).context.stratified()
                ==> self.tables@[t as int].levelled(&old(self).context)) by {
                if old(self).context.stratified() {
                    assert(old(self).tables@[t as int].levelled(&old(self).context));
                }
            }
            frame_one(old(self), self, t as int);
            assert(self.tables_view() =~= old(self).tables_view().update(
                t as int,
                self.tables@[t as int]@,
            ));
        }
    }

    fn take_strand(&mut self, t: usize) -> (strand: Option<Strand>)
        requires
            old(self).wf(),
            t < old(self).tables@.len(),
        ensures
            final(self).advances(old(self)),
            old(self).tables@[t as int].strands@.len() == 0 ==> strand is None && final(self).tables_as(old(self)),
            old(self).tables@[t as int].strands@.len() > 0 ==> strand is Some && strand.unwrap()@
                == old(self).tables@[t as int]@.strands.last() && final(self).changed_at(
                old(self),
                t,
                old(self).tables@[t as int]@.without_last(),
            ),
            final(self).stack == old(self).stack,
            final(self).tables@.len() == old(self).tables@.len(),
            strand matches Some(s) ==> final(self).admits(t, s@) && old(self).admits(t, s@),
    {
        let s = self.tables[t].take();
        proof {
            assert(old(self).context.stratified()
                ==> self.tables@[t as int].levelled(&old(self).context)) by {
                if old(self).context.stratified() {
                    assert(old(self).tables@[t as int].levelled(&old(self).context));
                }
            }
            frame_one(old(self), self, t as int);
            assert(self.tables_view() =~= old(self).tables_view().update(
                t as int,
                self.tables@[t as int]@,
            ));
            if old(self).tables@[t as int].strands@.len() == 0 {
                assert(self.tables_view() =~= old(self).tables_view());
            }
            if old(self).context.stratified() {
                assert(old(self).tables@[t as int].levelled(&old(self).context));
            }
        }
        s
    }

    fn close_table(&mut self, t: usize, verdict: TableState)
        requires
            old(self).wf(),
            t < old(self).tables@.len(),
        ensures
            final(self).advances(old(self)),
            final(self).changed_at(old(self), t, old(self).tables@[t as int]@.closed(verdict)),
            final(self).stack == old(self).stack,
            final(self).tables@.len() == old(self).tables@.len(),
    {
        self.tables[t].close(verdict);
        proof {
            assert(old(self).context.stratified()
                ==> self.tables@[t as int].levelled(&old(self).context)) by {
                if old(self).context.stratified() {
                    assert(old(self).tables@[t as int].levelled(&old(self).context));
                }
            }
            frame_one(old(self), self, t as int);
            assert(self.tables_view() =~= old(self).tables_view().update(
                t as int,
                self.tables@[t as int]@,
            ));
        }
    }

    /// Puts a table that is not under resolution on the stack and lets its
    /// waiting strands run again.
    fn enter(&mut self, t: usize, negated: bool)
        requires
            old(self).wf(),
            t < old(self).tables@.len(),
            !old(self).stack.holds(t),
            old(self).context.stratified() && old(self).stack.depth() > 0
                ==> old(self).level_of_table(t as int) <= old(self).level_at(
                old(self).stack.depth() - 1,
            ) && (negated ==> old(self).level_of_table(t as int) < old(self).level_at(
                old(self).stack.depth() - 1,
            )),
        ensures
            final(self).advances(old(self)),
            final(self).changed_at(old(self), t, old(self).tables@[t as int]@.unblocked()),
            final(self).stack.links() == old(self).stack.links().push(
                (t, old(self).stack.depth() as usize, negated),
            ),
            final(self).stack.marks() == old(self).stack.marks().push(
                (false, Seq::<usize>::empty()),
            ),
            final(self).stack.depth() == old(self).stack.depth() + 1,
            final(self).tables@.len() == old(self).tables@.len(),
    {
        self.tables[t].unblock();
        proof {
            assert(old(self).context.stratified()
                ==> self.tables@[t as int].levelled(&old(self).context)) by {
                if old(self).context.stratified() {
                    assert(old(self).tables@[t as int].levelled(&old(self).context));
                }
            }
            frame_one(old(self), self, t as int);
            assert(self.tables_view() =~= old(self).tables_view().update(
                t as int,
                self.tables@[t as int]@,
            ));
        }
        let ghost mid = *self;
        proof {
            if mid.context.stratified() && mid.stack.depth() > 0 {
                levels_stay(old(self), &mid);
                let top = old(self).stack.depth() - 1;
                assert(old(self).stack.tables()[top] < old(self).tables@.len());
                assert(mid.level_at(top) == old(self).level_at(top));
                assert(mid.level_of_table(t as int) == old(self).level_of_table(t as int));
            }
        }
        self.stack.push(t, negated);
        proof {
            assert(mid.stack.depth() == mid.stack.entries.len());
            after_push(&mid, self, t, negated);
            advances_twice(old(self), &mid, self);
        }
    }

    /// Takes the top entry off the stack.
    fn pop_top(&mut self) -> (e: Option<crate::stack::StackEntry>)
        requires
            old(self).wf(),
        ensures
            final(self).advances(old(self)),
            final(self).tables_as(old(self)),
            old(self).stack.depth() == 0 ==> final(self).stack_as(old(self)),
            old(self).stack.depth() > 0 ==> final(self).stack_popped(old(self)),
            final(self).tables == old(self).tables,
            old(self).stack.depth() == 0 ==> e is None && final(self).stack.depth() == 0,
            old(self).stack.depth() > 0 ==> e == Some(old(self).stack.entries@.last())
                && final(self).stack.depth() + 1 == old(self).stack.depth()
                && final(self).stack.links() == old(self).stack.links().drop_last()
                && final(self).stack.tables() == old(self).stack.tables().drop_last(),
    {
        let e = self.stack.pop();
        proof {
            if old(self).stack.depth() > 0 {
                after_pop(old(self), self);
            } else {
                assert(self.stack.links() == old(self).stack.links());
                same_stack(old(self), self);
            }
        }
        e
    }

    /// Takes the top table off the stack and marks it as floundered.
    fn flounder_top(&mut self)
        requires
            old(self).wf(),
        ensures
            final(self).advances(old(self)),
            final(self).floundered(old(self)),
            old(self).stack.depth() == 0 ==> final(self).tables_as(old(self)) && final(self).stack_as(old(self)),
            old(self).stack.depth() > 0 ==> final(self).stack_popped(old(self)) && final(self).changed_at(
                old(self),
                old(self).top(),
                old(self).tables@[old(self).top() as int]@.closed(TableState::Floundered),
            ),
            final(self).tables@.len() == old(self).tables@.len(),
    {
        match self.pop_top() {
            Some(e) => {
                proof {
                    let d = old(self).stack.depth() - 1;
                    assert(old(self).stack.links()[d] == old(self).stack.entries@[d].link());
                    assert(old(self).stack.tables()[d] == e.table);
                    assert(self.tables_view()[e.table as int] == old(self).tables@[e.table as int]@);
                }
                if e.table < self.tables.len() {
                    let ghost mid = *self;
                    self.close_table(e.table, TableState::Floundered);
                    proof {
                        advances_twice(old(self), &mid, self);
                    }
                }
            },
            None => {},
        }
    }

    /// Records the answer of a strand of the table `t` at the top of the
    /// stack that has no literal left. A new answer that depends on
    /// assumptions leaves a strand behind that tries to confirm them. A new
    /// answer that holds of every instance of the goal, without assumption
    /// or doubt, ends the search of the table: whatever else could be found
    /// would say no more.
    fn record_answer(&mut self, t: usize, strand: Strand)
        requires
            old(self).wf(),
            t < old(self).tables@.len(),
            old(self).admits(t, strand@),
        ensures
            final(self).advances(old(self)),
            final(self).recorded(old(self), t, strand@),
            final(self).tables@.len() == old(self).tables@.len(),
    {
        let ghost hard = old(self).context.stratified();
        let ghost top = old(self).level_of_table(t as int);
        let ghost goal = old(self).tables@[t as int].goal@;
        let answer = strand.answer(&self.tables[t].goal);
        let again = if answer.is_conditional() {
            Some(strand.confirmation(&self.tables[t].goal))
        } else {
            None
        };
        proof {
            if hard {
                answer_fits(strand@, goal, &old(self).context, top);
                assert(old(self).tables@[t as int].levelled(&old(self).context));
            }
        }
        let general = answer.is_definite() && crate::solution::check_trivial(&answer.subst);
        let ghost tv = old(self).tables@[t as int]@;
        let ghost x = answer@;
        let ghost told = Seq::new(
            old(self).stack.depth(),
            |d: int| (true, old(self).stack.marks()[d].1),
        );
        let fresh = self.tables[t].record(answer);
        proof {
            assert(hard ==> self.tables@[t as int].levelled(&old(self).context));
            frame_one(old(self), self, t as int);
            assert(self.tables_view() =~= old(self).tables_view().update(
                t as int,
                self.tables@[t as int]@,
            ));
            if !fresh {
                assert(self.tables_view() =~= old(self).tables_view());
            }
        }
        if fresh {
            let ghost recorded = *self;
            self.stack.mark_progress();
            proof {
                same_stack(&recorded, self);
                advances_twice(old(self), &recorded, self);
                assert(self.tables_view() == recorded.tables_view());
                assert(self.stack.marks() == told);
            }
            if general {
                let ghost mid = *self;
                self.close_table(t, TableState::Complete);
                let ghost closed = *self;
                self.pop_top();
                proof {
                    advances_twice(&mid, &closed, self);
                    advances_twice(old(self), &mid, self);
                    assert(self.tables_view() =~= old(self).tables_view().update(
                        t as int,
                        tv.with_answer(x).closed(TableState::Complete),
                    ));
                }
            } else {
                match again {
                    Some(confirming) => {
                        let ghost mid = *self;
                        proof {
                            levels_stay(old(self), &mid);
                        }
                        self.put_strand(t, confirming);
                        proof {
                            advances_twice(old(self), &mid, self);
                            assert(self.tables_view() =~= old(self).tables_view().update(
                                t as int,
                                tv.with_answer(x).with_strand(strand@.confirmation(tv.goal)),
                            ));
                        }
                    },
                    None => {},
                }
            }
        }
    }

    /// Resolves a strand of table `t`, the table at the top of the stack,
    /// whose selected literal, taken off already, is the positive `atom`.
    ///
    /// A literal that a goal which the strand takes to hold meets at no
    /// cost is done with. Otherwise the strand is resolved with the next
    /// answer of the goal's table, if there is one: it stays, to be
    /// resolved with the answer after that, and the resolvent is put beside
    /// it. Where no answer is left, the literal is held against the goals
    /// that the strand takes to hold, one at a time. After that the strand
    /// ends with a table that is complete and flounders with one that has
    /// floundered; where the table is under resolution, the cycle is
    /// classified, and the goal is assumed or the strand waits; and where it
    /// is not, it is put on the stack.
    fn on_positive(&mut self, d: usize, t: usize, strand: Strand, atom: Atom)
        requires
            old(self).wf(),
            t < old(self).tables@.len(),
            d + 1 == old(self).stack.depth(),
            old(self).stack.tables()[d as int] == t,
            old(self).admits(t, strand@),
            old(self).context.stratified() ==> old(self).context.level(
                atom.pred,
            ) <= old(self).level_of_table(t as int),
        ensures
            final(self).advances(old(self)),
            final(self).after_positive(old(self), d, t, strand@, atom@),
    {
        let ghost s0 = strand@;
        let ghost given = atom@;
        let mut strand = strand;
        if strand.is_met(&atom) {
            let ghost before = strand@;
            strand.cursor = 0;
            strand.tried = 0;
            proof {
                assert(strand@.subgoals == before.subgoals);
                assert(strand@.delayed == before.delayed);
                assert(strand@ == s0.at(0, 0));
            }
            self.put_strand(t, strand);
            return ;
        }
        let (goal, vars) = canonicalize(&atom);
        proof {
            assert(atom.args@.len() == atom.args.len());
            crate::alpha::canonical_is_idempotent(atom@);
        }
        let sub = self.get_or_create_table(goal, vars.len());
        let ghost made = *self;
        proof {
            crate::forest::index_of_table(&made, sub);
            levels_stay(old(self), &made);
            assert(made.tables@[sub as int].goal.pred == atom.pred);
            assert(made.stack == old(self).stack);
            assert(made.tables@[t as int].width() == old(self).tables@[t as int].width()) by {
                assert(made.tables@[t as int].extends(&old(self).tables@[t as int]));
            }
        }
        if strand.cursor < self.tables[sub].answers.len() {
            self.resolve_next(d, t, strand, atom, sub, vars);
        } else if strand.tried < strand.assumed.len() {
            self.meet_next(d, t, strand, atom, sub);
        } else {
            self.end_or_wait(d, t, strand, atom, sub);
        }
        proof {
            advances_twice(old(self), &made, self);
            assert(made.has_made(
                old(self),
                canonical(given),
                crate::term::variables(given).len() as usize,
            ));
            assert(self.resolved_from(&made, d, t, s0, given));
        }
    }

    /// Holds the positive literal `atom`, which was taken off the strand,
    /// against the next of the goals that the strand takes to hold. The
    /// table of the goal, `sub`, has no answer at the strand's cursor.
    fn meet_next(&mut self, d: usize, t: usize, strand: Strand, atom: Atom, sub: usize)
        requires
            old(self).wf(),
            t < old(self).tables@.len(),
            sub < old(self).tables@.len(),
            sub == old(self).index_of(canonical(atom@)),
            old(self).tables@[sub as int].goal.pred == atom.pred,
            d + 1 == old(self).stack.depth(),
            old(self).stack.tables()[d as int] == t,
            old(self).admits(t, strand@),
            old(self).context.stratified() ==> old(self).context.level(
                atom.pred,
            ) <= old(self).level_of_table(t as int),
            strand.cursor >= old(self).tables@[sub as int].answers@.len(),
            strand.tried < strand.assumed@.len(),
        ensures
            final(self).advances(old(self)),
            final(self).resolved_from(old(self), d, t, strand@, atom@),
    {
        let ghost hard = old(self).context.stratified();
        let ghost top = old(self).level_of_table(t as int);
        let ghost ctx = old(self).context;
        let ghost s0 = strand@;
        let ghost given = atom@;
        let ghost ask = s0.asking(LiteralView::Positive(given));
        let mut strand = strand;
        proof {
            assert(old(self).tables@[sub as int]@.answers.len() == old(self).tables@[sub as int].answers@.len());
            assert(s0.assumed.len() == strand.assumed@.len());
        }
        let child = strand.met(&atom, strand.tried);
        proof {
            if child is Some {
                met_keeps_width(strand@, atom@, strand.tried as int);
            }
            if hard && child is Some {
                met_fits(strand@, atom@, strand.tried as int, &ctx, top);
            }
        }
        let ghost before = strand@;
        let ghost lits = strand.subgoals@;
        assert(strand.assumed@.len() == strand.assumed.len());
        strand.tried = strand.tried + 1;
        strand.subgoals.insert(0, Literal::Positive(atom));
        proof {
            put_in_front(lits, strand.subgoals@, strand.subgoals@[0]);
            assert(strand@.subgoals =~= ask.subgoals);
            assert(strand@.assumed =~= before.assumed);
            assert(strand@.delayed =~= before.delayed);
            assert(strand@ == ask.at(s0.cursor, (s0.tried + 1) as usize));
            if hard {
                put_back_fits(before, strand@, given, false, &ctx, top);
            }
        }
        self.put_strand(t, strand);
        match child {
            Some(c) => {
                let ghost mid = *self;
                let ghost cv = c@;
                proof {
                    levels_stay(old(self), &mid);
                    assert(mid.tables@[t as int].width() == old(self).tables@[t as int].width()) by {
                        assert(mid.tables@[t as int].extends(&old(self).tables@[t as int]));
                    }
                }
                self.put_strand(t, c);
                proof {
                    advances_twice(old(self), &mid, self);
                    assert(mid.tables_view()[t as int] == mid.tables@[t as int]@);
                    assert(self.tables_view() =~= old(self).tables_view().update(
                        t as int,
                        mid.tables@[t as int]@.with_strand(cv),
                    ));
                }
            },
            None => {},
        }
    }

    /// Resolves the strand with the answer of the table `sub` at the
    /// strand's cursor. The positive literal `atom`, of which `sub` is the
    /// table, was taken off the strand, and `vars` are its variables.
    fn resolve_next(
        &mut self,
        d: usize,
        t: usize,
        strand: Strand,
        atom: Atom,
        sub: usize,
        vars: Vec<usize>,
    )
        requires
            old(self).wf(),
            t < old(self).tables@.len(),
            sub < old(self).tables@.len(),
            sub == old(self).index_of(canonical(atom@)),
            old(self).tables@[sub as int].goal.pred == atom.pred,
            d + 1 == old(self).stack.depth(),
            old(self).stack.tables()[d as int] == t,
            old(self).admits(t, strand@),
            old(self).context.stratified() ==> old(self).context.level(
                atom.pred,
            ) <= old(self).level_of_table(t as int),
            strand.cursor < old(self).tables@[sub as int].answers@.len(),
            vars@ == crate::term::variables(atom@),
        ensures
            final(self).advances(old(self)),
            final(self).resolved_from(old(self), d, t, strand@, atom@),
    {
        let ghost hard = old(self).context.stratified();
        let ghost top = old(self).level_of_table(t as int);
        let ghost ctx = old(self).context;
        let ghost s0 = strand@;
        let ghost given = atom@;
        let ghost ask = s0.asking(LiteralView::Positive(given));
        let mut strand = strand;
        proof {
            assert(old(self).tables@[sub as int]@.answers.len() == old(self).tables@[sub as int].answers@.len());
            assert(old(self).tables@[sub as int]@.answers[s0.cursor as int]
                == old(self).tables@[sub as int].answers@[s0.cursor as int]@);
        }
        let child = strand.resolvent(&self.tables[sub].answers[strand.cursor], &vars, &atom);
        proof {
            resolvent_keeps_width(
                strand@,
                old(self).tables@[sub as int].answers@[strand.cursor as int]@,
                vars@,
                atom@,
            );
            if hard {
                let answer = old(self).tables@[sub as int].answers@[strand.cursor as int]@;
                assert(old(self).tables@[sub as int].levelled(&ctx));
                assert(answer.fits(&ctx, old(self).level_of_table(sub as int)));
                assert(answer.fits(&ctx, top));
                resolvent_fits(strand@, answer, vars@, atom@, &ctx, top);
            }
        }
        match child {
            Some(c) => {
                let ghost before = strand@;
                let ghost lits = strand.subgoals@;
                assert(self.tables@[sub as int].answers@.len() == self.tables@[sub as int].answers.len());
                strand.cursor = strand.cursor + 1;
                strand.subgoals.insert(0, Literal::Positive(atom));
                proof {
                    put_in_front(lits, strand.subgoals@, strand.subgoals@[0]);
                    assert(strand@.subgoals =~= ask.subgoals);
                    assert(strand@.assumed =~= before.assumed);
                    assert(strand@.delayed =~= before.delayed);
                    assert(strand@ == ask.at((s0.cursor + 1) as usize, s0.tried));
                    if hard {
                        put_back_fits(before, strand@, given, false, &ctx, top);
                    }
                }
                self.put_strand(t, strand);
                let ghost mid = *self;
                let ghost cv = c@;
                proof {
                    levels_stay(old(self), &mid);
                    assert(mid.tables@[t as int].width() == old(self).tables@[t as int].width()) by {
                        assert(mid.tables@[t as int].extends(&old(self).tables@[t as int]));
                    }
                }
                self.put_strand(t, c);
                proof {
                    advances_twice(old(self), &mid, self);
                    assert(mid.tables_view()[t as int] == mid.tables@[t as int]@);
                    assert(self.tables_view() =~= old(self).tables_view().update(
                        t as int,
                        mid.tables@[t as int]@.with_strand(cv),
                    ));
                }
            },
            None => {
                self.flounder_top();
            },
        }
    }

    /// Deals with the strand when the table `sub` of the positive literal
    /// `atom`, which was taken off the strand, has no answer at the
    /// strand's cursor and the strand takes no goal to hold that the
    /// literal was not held against.
    fn end_or_wait(&mut self, d: usize, t: usize, strand: Strand, atom: Atom, sub: usize)
        requires
            old(self).wf(),
            t < old(self).tables@.len(),
            sub < old(self).tables@.len(),
            sub == old(self).index_of(canonical(atom@)),
            old(self).tables@[sub as int].goal.pred == atom.pred,
            d + 1 == old(self).stack.depth(),
            old(self).stack.tables()[d as int] == t,
            old(self).admits(t, strand@),
            old(self).context.stratified() ==> old(self).context.level(
                atom.pred,
            ) <= old(self).level_of_table(t as int),
            strand.cursor >= old(self).tables@[sub as int].answers@.len(),
            strand.tried >= strand.assumed@.len(),
        ensures
            final(self).advances(old(self)),
            final(self).resolved_from(old(self), d, t, strand@, atom@),
    {
        let ghost hard = old(self).context.stratified();
        let ghost top = old(self).level_of_table(t as int);
        let ghost ctx = old(self).context;
        let ghost s0 = strand@;
        let ghost given = atom@;
        let ghost ask = s0.asking(LiteralView::Positive(given));
        let mut strand = strand;
        proof {
            assert(old(self).tables@[sub as int]@.answers.len() == old(self).tables@[sub as int].answers@.len());
            assert(s0.assumed.len() == strand.assumed@.len());
            assert(old(self).stack.links()[d as int] == old(self).stack.entries@[d as int].link());
        }
        match self.tables[sub].state {
            TableState::Complete => {},
            TableState::Floundered => {
                self.flounder_top();
            },
            TableState::InProgress => match self.stack.is_active(sub) {
                Some(depth) => match self.classify_cycle(depth, false, strand.confirming) {
                    CycleKind::Coinductive => {
                        proof {
                            if hard {
                                suppose_fits(strand@, atom@, &ctx, top);
                            }
                        }
                        strand.suppose(atom);
                        self.put_strand(t, strand);
                    },
                    _ => {
                        let ghost before = strand@;
                        let ghost lits = strand.subgoals@;
                        strand.subgoals.insert(0, Literal::Positive(atom));
                        proof {
                            put_in_front(lits, strand.subgoals@, strand.subgoals@[0]);
                            assert(strand@.subgoals =~= ask.subgoals);
                            assert(strand@.assumed =~= before.assumed);
                            assert(strand@.delayed =~= before.delayed);
                            assert(strand@ == ask);
                            if hard {
                                put_back_fits(before, strand@, given, false, &ctx, top);
                            }
                        }
                        self.park_strand(t, strand);
                        let ghost mid = *self;
                        self.stack.lower_min(d, depth);
                        proof {
                            levels_stay(old(self), &mid);
                            let was = mid.stack.links()[d as int].1;
                            let min = if depth < was {
                                depth
                            } else {
                                was
                            };
                            assert(mid.stack.entries@[d as int].link() == mid.stack.links()[d as int]);
                            if mid.context.stratified() {
                                assert(mid.waits_within(d as int));
                                assert(mid.stack.links()[depth as int].0 == sub);
                                assert(mid.stack.links()[d as int].0 == t);
                            }
                            after_relink(&mid, self, d as int, min);
                            advances_twice(old(self), &mid, self);
                            assert(self.tables_view() == mid.tables_view());
                        }
                    },
                },
                None => {
                    let ghost before = strand@;
                    let ghost lits = strand.subgoals@;
                    strand.subgoals.insert(0, Literal::Positive(atom));
                    proof {
                        put_in_front(lits, strand.subgoals@, strand.subgoals@[0]);
                        assert(strand@.subgoals =~= ask.subgoals);
                        assert(strand@.assumed =~= before.assumed);
                        assert(strand@.delayed =~= before.delayed);
                        assert(strand@ == ask);
                        assert(old(self).stack.holds(t)) by {
                            assert(old(self).stack.entries@[d as int].table == t);
                        }
                        assert(sub != t);
                        if hard {
                            put_back_fits(before, strand@, given, false, &ctx, top);
                        }
                    }
                    self.put_strand(t, strand);
                    let ghost mid = *self;
                    proof {
                        levels_stay(old(self), &mid);
                        if mid.context.stratified() {
                            assert(mid.stack.links()[d as int].0 == t);
                            assert(mid.level_at(d as int) == top);
                        }
                    }
                    self.enter(sub, false);
                    proof {
                        advances_twice(old(self), &mid, self);
                        assert(mid.tables_view()[sub as int] == mid.tables@[sub as int]@);
                    }
                },
            },
        }
    }

    /// Resolves a strand of table `t`, the table at the top of the stack,
    /// whose selected literal, taken off already, is the negation of
    /// `atom`. Says `false` if the negated goal is under resolution itself.
    /// In a stratified program it is not.
    ///
    /// A negation that is not ground waits behind the other literals, and
    /// the table flounders if there are only such. A ground negation fails
    /// if the goal has an answer without assumption or doubt. It holds if
    /// the goal's table is complete and has no answer at all, and it is
    /// passed over, leaving the strand in doubt, if the table is complete
    /// with answers that are conditional or in doubt. Otherwise the goal's
    /// table is put on the stack.
    fn on_negative(&mut self, d: usize, t: usize, strand: Strand, atom: Atom) -> (sound: bool)
        requires
            old(self).wf(),
            t < old(self).tables@.len(),
            d + 1 == old(self).stack.depth(),
            old(self).stack.tables()[d as int] == t,
            old(self).admits(t, strand@),
            old(self).context.stratified() ==> old(self).context.level(
                atom.pred,
            ) < old(self).level_of_table(t as int),
        ensures
            final(self).advances(old(self)),
            final(self).after_negative(old(self), t, strand@, atom@, sound),
            old(self).context.stratified() ==> sound,
    {
        let ghost hard = old(self).context.stratified();
        let ghost top = old(self).level_of_table(t as int);
        let ghost ctx = old(self).context;
        let ghost s0 = strand@;
        let ghost given = atom@;
        let mut strand = strand;
        if !atom.is_ground() {
            proof {
                if s0.has_other() {
                    let i = choose|i: int|
                        0 <= i < s0.subgoals.len() && !((#[trigger] s0.subgoals[i]) is Negative);
                    assert(!(strand.subgoals@[i] is Negative));
                }
                if exists|i: int|
                    0 <= i < strand.subgoals@.len() && !((#[trigger] strand.subgoals@[i]) is Negative) {
                    let i = choose|i: int|
                        0 <= i < strand.subgoals@.len() && !((
                        #[trigger] strand.subgoals@[i]) is Negative);
                    assert(!(s0.subgoals[i] is Negative));
                }
            }
            if has_other_than_negative(&strand.subgoals) {
                let ghost before = strand@;
                strand.subgoals.push(Literal::Negative(atom));
                proof {
                    assert(strand@.subgoals =~= before.subgoals.push(LiteralView::Negative(given)));
                    assert(strand@.assumed =~= before.assumed);
                    assert(strand@.delayed =~= before.delayed);
                    assert(strand@ == s0.behind(LiteralView::Negative(given)));
                    if hard {
                        assert forall|i: int| 0 <= i < strand@.subgoals.len() implies ctx.fits(
                            #[trigger] strand@.subgoals[i],
                            top,
                        ) by {
                            if i < before.subgoals.len() {
                                assert(strand@.subgoals[i] == before.subgoals[i]);
                            }
                        }
                        assert(strand@.delayed =~= before.delayed);
                    }
                }
                self.put_strand(t, strand);
            } else {
                self.flounder_top();
            }
            return true;
        }
        let (goal, vars) = canonicalize(&atom);
        proof {
            assert(atom.args@.len() == atom.args.len());
            crate::alpha::canonical_is_idempotent(atom@);
        }
        let sub = self.get_or_create_table(goal, vars.len());
        let ghost made = *self;
        proof {
            crate::forest::index_of_table(&made, sub);
            assert(made.index_of(canonical(given)) == sub);
            assert(made.tables_view()[sub as int] == made.tables@[sub as int]@);
            assert(made.tables_view()[t as int] == made.tables@[t as int]@);
            assert(made.tables@[sub as int]@.answers.len() == made.tables@[sub as int].answers@.len());
            levels_stay(old(self), &made);
            assert(made.tables@[sub as int].goal.pred == atom.pred);
            assert(made.level_of_table(t as int) == top);
            assert(made.stack == old(self).stack);
            if hard {
                assert(made.level_at(d as int) == top);
            }
        }
        let mut sound = true;
        if self.tables[sub].has_definite_answer() {
        } else {
            match self.tables[sub].state {
                TableState::Complete => {
                    if self.tables[sub].answers.len() > 0 {
                        strand.ambiguous = true;
                    }
                    strand.cursor = 0;
                    proof {
                        assert(strand@ == s0.doubted(
                            made.tables@[sub as int]@.answers.len() > 0,
                        ).at(0, s0.tried));
                    }
                    self.put_strand(t, strand);
                },
                TableState::Floundered => {
                    self.flounder_top();
                },
                TableState::InProgress => match self.stack.is_active(sub) {
                    Some(depth) => match self.classify_cycle(depth, true, strand.confirming) {
                        _ => {
                            proof {
                                if hard {
                                    assert(made.stack.links()[depth as int].0 == sub);
                                    stack_descends(&made, depth as int, d as int);
                                }
                            }
                            sound = false;
                        },
                    },
                    None => {
                        let ghost before = strand@;
                        let ghost lits = strand.subgoals@;
                        strand.subgoals.insert(0, Literal::Negative(atom));
                        proof {
                            put_in_front(lits, strand.subgoals@, strand.subgoals@[0]);
                            assert(strand@.subgoals =~= seq![LiteralView::Negative(given)]
                                + before.subgoals);
                            assert(strand@.assumed =~= before.assumed);
                            assert(strand@.delayed =~= before.delayed);
                            assert(strand@ == s0.asking(LiteralView::Negative(given)));
                            assert(made.stack.holds(t)) by {
                                assert(made.stack.entries@[d as int].table == t);
                            }
                            assert(sub != t);
                            if hard {
                                put_back_fits(before, strand@, given, true, &ctx, top);
                            }
                        }
                        self.put_strand(t, strand);
                        let ghost mid = *self;
                        proof {
                            levels_stay(&made, &mid);
                            if mid.context.stratified() {
                                assert(mid.stack.links()[d as int].0 == t);
                            }
                        }
                        self.enter(sub, true);
                        proof {
                            advances_twice(&made, &mid, self);
                            assert(mid.tables_view()[sub as int] == mid.tables@[sub as int]@);
                        }
                    },
                },
            }
        }
        proof {
            advances_twice(old(self), &made, self);
            assert(made.has_made(
                old(self),
                canonical(given),
                crate::term::variables(given).len() as usize,
            ));
            assert(self.negated_from(&made, t, s0, given, sound));
        }
        sound
    }

    /// Goes on with a strand of table `t`, the table at the top of the
    /// stack, that has a literal left.
    fn pursue(&mut self, d: usize, t: usize, strand: Strand) -> (sound: bool)
        requires
            old(self).wf(),
            t < old(self).tables@.len(),
            d + 1 == old(self).stack.depth(),
            old(self).stack.tables()[d as int] == t,
            strand.subgoals@.len() > 0,
            old(self).admits(t, strand@),
        ensures
            final(self).advances(old(self)),
            final(self).pursued(old(self), d, t, strand@, sound),
            old(self).context.stratified() ==> sound,
    {
        let ghost hard = old(self).context.stratified();
        let ghost top = old(self).level_of_table(t as int);
        let ghost ctx = old(self).context;
        let ghost whole = strand@;
        let mut strand = strand;
        let lit = strand.subgoals.remove(0);
        proof {
            assert(lit@ == whole.subgoals[0]);
            assert(strand@.delayed =~= whole.delayed);
            assert(strand@.assumed =~= whole.assumed);
            assert(strand@.subgoals =~= whole.subgoals.remove(0));
            assert(strand@ == whole.without(0));
            if hard {
                assert(ctx.fits(whole.subgoals[0], top));
                assert forall|i: int| 0 <= i < strand@.subgoals.len() implies ctx.fits(
                    #[trigger] strand@.subgoals[i],
                    top,
                ) by {
                    assert(strand@.subgoals[i] == whole.subgoals[i + 1]);
                }
            }
        }
        match lit {
            Literal::Equals(a, b) => {
                match unify(a, b) {
                    Unifier::Fail => {},
                    Unifier::Identity => {
                        self.put_strand(t, strand);
                    },
                    Unifier::Bind(v, r) => {
                        proof {
                            if hard {
                                bind_fits(strand@, v, r, &ctx, top);
                            }
                        }
                        strand.bind(v, r);
                        self.put_strand(t, strand);
                    },
                }
                true
            },
            Literal::Positive(atom) => {
                self.on_positive(d, t, strand, atom);
                true
            },
            Literal::Negative(atom) => self.on_negative(d, t, strand, atom),
        }
    }

    /// Ends the turn of the table `t` at the top of the stack, at depth
    /// `d`, when none of its strands can run. Says `false` if a negated
    /// goal turns out to wait for a goal below it. In a stratified program
    /// none does.
    fn on_exhausted(&mut self, d: usize, t: usize) -> (sound: bool)
        requires
            old(self).wf(),
            t < old(self).tables@.len(),
            d + 1 == old(self).stack.depth(),
            old(self).stack.tables()[d as int] == t,
        ensures
            final(self).advances(old(self)),
            final(self).exhausted(old(self), d, t, sound),
            old(self).context.stratified() ==> sound,
    {
        proof {
            assert(old(self).stack.entries@[d as int].link() == old(self).stack.links()[d as int]);
            assert(old(self).stack.marks()[d as int] == (
                old(self).stack.entries@[d as int].progress,
                old(self).stack.entries@[d as int].members@,
            ));
            assert(old(self).tables@[t as int]@.blocked.len() == old(self).tables@[t as int].blocked@.len());
        }
        if self.tables[t].blocked.len() == 0 {
            self.close_table(t, TableState::Complete);
            let ghost mid = *self;
            self.pop_top();
            proof {
                advances_twice(old(self), &mid, self);
            }
            return true;
        }
        if self.stack.entries[d].cyclic_min < d {
            return self.leave_waiting(d, t);
        }
        if self.stack.entries[d].progress {
            self.stack.restart(d);
            let ghost mid = *self;
            proof {
                after_relink(old(self), &mid, d as int, d);
            }
            self.tables[t].unblock();
            proof {
                assert(self.tables_view() =~= old(self).tables_view().update(
                    t as int,
                    self.tables@[t as int]@,
                ));
                assert(mid.context.stratified() ==> self.tables@[t as int].levelled(
                    &mid.context,
                )) by {
                    if mid.context.stratified() {
                        assert(mid.tables@[t as int].levelled(&mid.context));
                    }
                }
                frame_one(&mid, self, t as int);
                advances_twice(old(self), &mid, self);
            }
        } else {
            self.close_table(t, TableState::Complete);
            let ghost mid = *self;
            let left = self.pop_top();
            let ghost popped = *self;
            proof {
                advances_twice(old(self), &mid, &popped);
            }
            match left {
                Some(e) => {
                    self.close_members(&e.members);
                    proof {
                        let want = old(self).cycle_closed(d, t);
                        let members = e.members@;
                        assert(members == old(self).stack.marks()[d as int].1);
                        assert(popped.stack.tables() =~= old(self).stack.tables().take(d as int));
                        assert(self.tables_view().len() == want.len());
                        assert forall|u: int| 0 <= u < want.len() implies self.tables_view()[u]
                            == want[u] by {
                            let was = old(self).tables@[u]@;
                            assert(popped.tables_view()[u] == popped.tables@[u]@);
                            assert(mid.tables_view()[u] == mid.tables@[u]@);
                            assert(old(self).tables_view()[u] == was);
                            assert(was.closed(TableState::Complete).closed(TableState::Complete)
                                == was.closed(TableState::Complete));
                            if popped.stack.holds(u as usize) {
                                let k = choose|k: int|
                                    0 <= k < popped.stack.entries@.len() && (
                                    #[trigger] popped.stack.entries@[k]).table == u as usize;
                                assert(popped.stack.tables()[k] == u as usize);
                            }
                            if popped.stack.tables().contains(u as usize) {
                                let k = choose|k: int|
                                    0 <= k < popped.stack.tables().len() && popped.stack.tables()[k]
                                        == u as usize;
                                assert(popped.stack.entries@[k].table == u as usize);
                            }
                            if u == t {
                                assert(old(self).stack.tables()[d as int] == t);
                                if popped.stack.tables().contains(u as usize) {
                                    let k = choose|k: int|
                                        0 <= k < popped.stack.tables().len()
                                            && popped.stack.tables()[k] == u as usize;
                                    assert(old(self).stack.entries@[k].table
                                        != old(self).stack.entries@[d as int].table);
                                }
                            }
                        }
                        assert(self.tables_view() =~= want);
                    }
                },
                None => {},
            }
            proof {
                advances_twice(old(self), &popped, self);
            }
        }
        true
    }

    /// Takes the table `t` off the top of the stack, at depth `d`, though
    /// strands of it wait for a table further down, and hands what it waits
    /// for to the table below. The strand below that asked for `t` waits
    /// too, unless there is an answer for it. Says `false` if the strand
    /// asked under a negation and nothing refutes it.
    fn leave_waiting(&mut self, d: usize, t: usize) -> (sound: bool)
        requires
            old(self).wf(),
            t < old(self).tables@.len(),
            d + 1 == old(self).stack.depth(),
            old(self).stack.tables()[d as int] == t,
            d > 0,
            old(self).stack.entries@[d as int].cyclic_min < d,
        ensures
            final(self).advances(old(self)),
            final(self).left_waiting(old(self), d, t, sound),
            old(self).context.stratified() ==> sound,
    {
        let ghost hard = old(self).context.stratified();
        let left = match self.pop_top() {
            Some(e) => e,
            None => {
                return true;
            },
        };
        let ghost popped = *self;
        let below = d - 1;
        let negated = left.negated;
        proof {
            assert(left.link() == old(self).stack.links()[d as int]);
            assert(old(self).stack.marks()[d as int].1 == left.members@);
            assert(left.table == t);
            assert(popped.stack.entries@[below as int].link() == popped.stack.links()[below as int]);
            if hard {
                assert(old(self).waits_within(d as int));
                assert(old(self).steps_down(d as int));
                stack_descends(old(self), left.cyclic_min as int, below as int);
                assert(!negated);
                assert(popped.level_at(below as int) == old(self).level_at(below as int));
                assert(popped.level_at(left.cyclic_min as int) == old(self).level_at(
                    left.cyclic_min as int,
                ));
                assert(popped.waits_within(below as int));
            }
        }
        let ghost min = if left.cyclic_min < popped.stack.links()[below as int].1 {
            left.cyclic_min
        } else {
            popped.stack.links()[below as int].1
        };
        self.stack.inherit(below, left);
        let caller = self.stack.entries[below].table;
        assert(self.stack.tables()[below as int] == caller);
        let ghost start = *self;
        proof {
            after_relink(&popped, &start, below as int, min);
            advances_twice(old(self), &popped, &start);
        }
        proof {
            assert(start.tables_view() == old(self).tables_view());
            assert(caller == old(self).stack.links()[below as int].0);
            assert(old(self).stack.entries@[below as int].table != old(self).stack.entries@[d as int].table);
            assert(caller != t);
            assert(start.tables_view()[t as int] == start.tables@[t as int]@);
            assert(start.tables_view()[caller as int] == start.tables@[caller as int]@);
        }
        if negated {
            return self.tables[t].has_definite_answer();
        }
        let ghost cv = old(self).tables@[caller as int]@;
        match self.take_strand(caller) {
            None => {},
            Some(asking) => {
                proof {
                    assert(self.tables_view()[t as int] == self.tables@[t as int]@);
                }
                let waits = asking.cursor >= self.tables[t].answers.len();
                let ghost mid = *self;
                if waits {
                    self.park_strand(caller, asking);
                } else {
                    self.put_strand(caller, asking);
                }
                proof {
                    advances_twice(&start, &mid, self);
                    assert(mid.tables_view()[caller as int] == mid.tables@[caller as int]@);
                    if waits {
                        assert(self.tables_view() =~= old(self).tables_view().update(
                            caller as int,
                            cv.without_last().with_blocked(cv.strands.last()),
                        ));
                    } else {
                        assert(cv.without_last().with_strand(cv.strands.last()).strands
                            =~= cv.strands);
                        assert(self.tables_view() =~= old(self).tables_view());
                    }
                }
            },
        }
        proof {
            advances_twice(old(self), &start, self);
        }
        true
    }

    /// Closes, as complete, the tables of `members` that are in progress
    /// and not under resolution.
    fn close_members(&mut self, members: &Vec<usize>)
        requires
            old(self).wf(),
        ensures
            final(self).advances(old(self)),
            final(self).rest_as(old(self)),
            final(self).tables_view() == old(self).members_closed(members@),
            final(self).stack == old(self).stack,
            final(self).tables@.len() == old(self).tables@.len(),
    {
        let mut i: usize = 0;
        proof {
            same_stack(old(self), self);
            assert(members@.take(0) =~= Seq::<usize>::empty());
            assert(self.tables_view() =~= old(self).members_closed(members@.take(0)));
        }
        while i < members.len()
            invariant
                i <= members.len(),
                self.advances(old(self)),
                self.stack == old(self).stack,
                self.tables@.len() == old(self).tables@.len(),
                self.rest_as(old(self)),
                self.tables_view() == old(self).members_closed(members@.take(i as int)),
            decreases members.len() - i,
        {
            let m = members[i];
            let ghost mid = *self;
            if m < self.tables.len() && self.stack.is_active(m).is_none() {
                self.close_table(m, TableState::Complete);
                proof {
                    advances_twice(old(self), &mid, self);
                }
            }
            proof {
                let done = members@.take(i as int);
                let more = members@.take(i + 1);
                assert(more =~= done.push(m));
                let want = old(self).members_closed(more);
                assert(self.tables_view().len() == want.len());
                assert(more[i as int] == m);
                assert forall|u: int| 0 <= u < want.len() implies self.tables_view()[u]
                    == want[u] by {
                    assert(mid.tables_view()[u] == old(self).members_closed(done)[u]);
                    if done.contains(u as usize) {
                        let k = choose|k: int| 0 <= k < done.len() && done[k] == u as usize;
                        assert(more[k] == u as usize);
                    }
                    if more.contains(u as usize) && u != m {
                        let k = choose|k: int| 0 <= k < more.len() && more[k] == u as usize;
                        assert(k < i);
                        assert(done[k] == u as usize);
                    }
                    if u == m {
                        assert(more.contains(u as usize));
                        let was = old(self).tables@[u]@;
                        assert(was.closed(TableState::Complete).closed(TableState::Complete)
                            == was.closed(TableState::Complete));
                    }
                }
                assert(self.tables_view() =~= want);
            }
            i += 1;
        }
        assert(members@.take(members@.len() as int) =~= members@);
    }

    /// Whether `test` is known to hold of the bindings of some answer of
    /// `table` that is recorded at `index` or after it and depends on no
    /// assumption, or of some strand of the table that has not ended.
    pub open spec fn any_future<F: Fn(&Vec<Term>) -> bool>(
        &self,
        table: usize,
        index: usize,
        test: F,
    ) -> bool {
        let tb = self.tables@[table as int];
        ||| exists|i: int|
            index <= i < tb.answers@.len() && !(#[trigger] tb.answers@[i])@.is_conditional()
                && test.ensures((&tb.answers@[i].subst,), true)
        ||| exists|i: int|
            0 <= i < tb.strands@.len() && test.ensures((&(#[trigger] tb.strands@[i]).subst,), true)
        ||| exists|i: int|
            0 <= i < tb.blocked@.len() && test.ensures((&(#[trigger] tb.blocked@[i]).subst,), true)
    }

    /// Whether `test` is known to fail of the bindings of every answer of
    /// `table` that is recorded at `index` or after it and depends on no
    /// assumption, and of every strand of the table that has not ended.
    pub open spec fn none_future<F: Fn(&Vec<Term>) -> bool>(
        &self,
        table: usize,
        index: usize,
        test: F,
    ) -> bool {
        let tb = self.tables@[table as int];
        &&& forall|i: int|
            index <= i < tb.answers@.len() && !(#[trigger] tb.answers@[i])@.is_conditional()
                ==> test.ensures((&tb.answers@[i].subst,), false)
        &&& forall|i: int|
            0 <= i < tb.strands@.len() ==> test.ensures(
                (&(#[trigger] tb.strands@[i]).subst,),
                false,
            )
        &&& forall|i: int|
            0 <= i < tb.blocked@.len() ==> test.ensures(
                (&(#[trigger] tb.blocked@[i]).subst,),
                false,
            )
    }

    /// Whether `test` holds of the bindings of an answer of `table` that is
    /// recorded at `index` or after it and depends on no assumption, or of
    /// a strand of the table that has not ended. The answers are tried
    /// first, in their order, then the strands; the first success ends the
    /// trial.
    pub fn any_future_answer(
        &self,
        table: usize,
        index: usize,
        test: impl Fn(&Vec<Term>) -> bool,
    ) -> (r: bool)
        requires
            table < self.tables@.len(),
            forall|s: &Vec<Term>| test.requires((s,)),
        ensures
            r ==> self.any_future(table, index, test),
            !r ==> self.none_future(table, index, test),
    {
        let tb = &self.tables[table];
        let mut i: usize = index;
        while i < tb.answers.len()
            invariant
                forall|s: &Vec<Term>| test.requires((s,)),
                index <= i,
                tb == &self.tables@[table as int],
                forall|k: int|
                    index <= k < i && k < tb.answers@.len() ==> (#[trigger] tb.answers@[k])@.is_conditional()
                        || test.ensures((&tb.answers@[k].subst,), false),
            decreases tb.answers.len() - i,
        {
            if !tb.answers[i].is_conditional() && test(&tb.answers[i].subst) {
                return true;
            }
            i += 1;
        }
        let mut j: usize = 0;
        while j < tb.strands.len()
            invariant
                forall|s: &Vec<Term>| test.requires((s,)),
                j <= tb.strands.len(),
                tb == &self.tables@[table as int],
                forall|k: int|
                    index <= k < tb.answers@.len() ==> (#[trigger] tb.answers@[k])@.is_conditional()
                        || test.ensures((&tb.answers@[k].subst,), false),
                forall|k: int|
                    0 <= k < j ==> test.ensures((&(#[trigger] tb.strands@[k]).subst,), false),
            decreases tb.strands.len() - j,
        {
            if test(&tb.strands[j].subst) {
                return true;
            }
            j += 1;
        }
        let mut k: usize = 0;
        while k < tb.blocked.len()
            invariant
                forall|s: &Vec<Term>| test.requires((s,)),
                k <= tb.blocked.len(),
                tb == &self.tables@[table as int],
                forall|m: int|
                    index <= m < tb.answers@.len() ==> (#[trigger] tb.answers@[m])@.is_conditional()
                        || test.ensures((&tb.answers@[m].subst,), false),
                forall|m: int|
                    0 <= m < tb.strands@.len() ==> test.ensures(
                        (&(#[trigger] tb.strands@[m]).subst,),
                        false,
                    ),
                forall|m: int|
                    0 <= m < k ==> test.ensures((&(#[trigger] tb.blocked@[m]).subst,), false),
            decreases tb.blocked.len() - k,
        {
            if test(&tb.blocked[k].subst) {
                return true;
            }
            k += 1;
        }
        false
    }

    /// Takes one step of the search that is under way: the strand that is
    /// next in the table at the top of the stack is resolved with its
    /// selected literal, or yields an answer, or, where no strand can run,
    /// the table leaves the stack. Says `false` if a goal was found to
    /// depend on its own negation. In a stratified program none does.
    fn step(&mut self) -> (sound: bool)
        requires
            old(self).wf(),
            old(self).stack.depth() > 0,
        ensures
            final(self).advances(old(self)),
            final(self).stepped(old(self), sound),
            old(self).context.stratified() ==> sound,
    {
        let d = self.stack.entries.len() - 1;
        let t = self.stack.entries[d].table;
        proof {
            assert(self.stack.tables()[d as int] == t);
            assert(self.stack.links()[d as int] == self.stack.entries@[d as int].link());
            assert(self.top() == t);
            assert(self.tables@[t as int]@.strands.len() == self.tables@[t as int].strands@.len());
        }
        if self.tables[t].strands.len() == 0 {
            return self.on_exhausted(d, t);
        }
        let next = self.take_strand(t);
        let ghost mid = *self;
        let sound = match next {
            None => true,
            Some(strand) => {
                proof {
                    assert(strand@.subgoals.len() == strand.subgoals@.len());
                }
                if strand.subgoals.len() == 0 {
                    self.record_answer(t, strand);
                    true
                } else {
                    self.pursue(d, t, strand)
                }
            },
        };
        proof {
            advances_twice(old(self), &mid, self);
            assert(mid.changed_at(old(self), t, old(self).tables@[t as int]@.without_last()));
        }
        sound
    }

    /// Pulls answer `index` of `table`. Where the state of the forest
    /// decides the result, nothing is changed. Otherwise the forest is
    /// `pulled`: one step of the search is taken, and the result is what
    /// the state then decides, or `QuantumExceeded`.
    pub fn root_answer(&mut self, table: usize, index: usize) -> (r: Result<
        CompleteAnswer,
        RootSearchFail,
    >)
        requires
            old(self).wf(),
            table < old(self).tables@.len(),
        ensures
            final(self).wf(),
            final(self).extends(old(self)),
            old(self).decided(table, index) is Some ==> *final(self) == *old(self) && outcome(r)
                == old(self).decided(table, index).unwrap(),
            old(self).decided(table, index) is None ==> final(self).pulled(old(self), table)
                && outcome(r) == match final(self).decided(table, index) {
                Some(x) => x,
                None => Err(RootSearchFail::QuantumExceeded),
            },
            r is Err && r->Err_0 == RootSearchFail::NegativeCycle ==> final(self).poisoned,
    {
        match self.lookup(table, index) {
            Some(r) => {
                proof {
                    crate::forest::extends_reflexive(self);
                }
                return r;
            },
            None => {},
        }
        if self.stack.len() > 0 && self.stack.entries[0].table != table {
            self.stack.clear();
        }
        let ghost start = *self;
        proof {
            same_tables(old(self), &start);
        }
        let sound = if self.stack.len() == 0 {
            self.enter(table, false);
            true
        } else {
            self.step()
        };
        proof {
            crate::forest::extends_transitive(old(self), &start, self);
        }
        let ghost after = *self;
        proof {
            assert(start.ready(old(self), table));
            assert(after.moved(&start, table, sound));
        }
        if !sound {
            self.poisoned = true;
            self.stack.clear();
            proof {
                assert(!start.context.stratified());
                same_tables(&after, self);
                assert(self.settles(&after, sound));
                reveal(Forest::pulled);
                assert(self.pulled(old(self), table));
            }
            // the table has no answer at the index, for the state did not
            // decide the pull, and the move that failed recorded none
            return self.fault(table, index);
        }
        proof {
            assert(self.settles(&after, sound));
            reveal(Forest::pulled);
            assert(self.pulled(old(self), table));
        }
        match self.lookup(table, index) {
            Some(r) => r,
            None => Err(RootSearchFail::QuantumExceeded),
        }
    }

    /// The result of a pull on a poisoned forest.
    fn fault(&self, table: usize, index: usize) -> (r: Result<CompleteAnswer, RootSearchFail>)
        requires
            table < self.tables@.len(),
            self.poisoned,
        ensures
            outcome(r) == self.decided(table, index).unwrap(),
            self.decided(table, index) is Some,
    {
        match self.lookup(table, index) {
            Some(r) => r,
            None => Err(RootSearchFail::NegativeCycle),
        }
    }
}

/// A change that leaves the tables, the program and the links of the stack
/// as they are keeps the forest consistent.
proof fn same_stack(before: &Forest, after: &Forest)
    requires
        before.wf(),
        after.tables == before.tables,
        after.context == before.context,
        after.poisoned == before.poisoned,
        after.stack.distinct(),
        after.stack.tables() == before.stack.tables(),
        after.stack.links() == before.stack.links(),
    ensures
        after.advances(before),
{
    same_tables(before, after);
}

/// A change that leaves the tables and the program as they are, and the
/// stack as it is or empty, keeps the forest consistent and to the strata
/// of the program. The poison is not looked at.
pub proof fn same_tables(before: &Forest, after: &Forest)
    requires
        before.wf(),
        after.tables == before.tables,
        after.context == before.context,
        after.stack.links() == before.stack.links() && after.stack.tables() == before.stack.tables()
            && after.stack.distinct() || after.stack.depth() == 0,
        before.poisoned ==> after.poisoned,
    ensures
        after.wf(),
        forall|t: int|
            0 <= t < before.tables@.len() ==> (#[trigger] after.tables@[t]).extends(&before.tables@[t]),
{
    assert(after.stack.tables().len() == after.stack.depth());
    assert(before.stack.tables().len() == before.stack.depth());
    assert(after.stack.links().len() == after.stack.depth());
    assert forall|d: int| 0 <= d < after.stack.depth() implies (#[trigger] after.stack.tables()[d])
        < after.tables@.len() by {
        assert(before.stack.tables()[d] < before.tables@.len());
    }
    assert forall|i: int| 0 <= i < before.tables@.len() implies (#[trigger] after.tables@[i]).extends(
        &before.tables@[i],
    ) by {}
    if before.context.stratified() {
        assert forall|d: int| 0 < d < after.stack.depth() implies #[trigger] after.steps_down(d) by {
            assert(before.steps_down(d));
        }
        assert forall|d: int| 0 <= d < after.stack.depth() implies #[trigger] after.waits_within(
            d,
        ) by {
            assert(before.waits_within(d));
        }
    }
}

/// The literals after one was put in front of them.
proof fn put_in_front(before: Seq<Literal>, after: Seq<Literal>, lit: Literal)
    requires
        after == before.insert(0, lit),
    ensures
        literals_view(after).len() == literals_view(before).len() + 1,
        literals_view(after)[0] == lit@,
        forall|i: int|
            0 <= i < literals_view(before).len() ==> #[trigger] literals_view(after)[i + 1]
                == literals_view(before)[i],
{
    assert(after.len() == before.len() + 1);
    assert(after[0] == lit);
    assert forall|i: int| 0 <= i < literals_view(before).len() implies #[trigger] literals_view(
        after,
    )[i + 1] == literals_view(before)[i] by {
        assert(after[i + 1] == before[i]);
    }
}

/// A strand to which the literal that was selected is put back, at the
/// front, keeps to its stratum if the literal does.
proof fn put_back_fits(
    before: crate::table::StrandView,
    after: crate::table::StrandView,
    atom: AtomView,
    negated: bool,
    context: &crate::context::Context,
    top: usize,
)
    requires
        before.fits(context, top),
        after.delayed == before.delayed,
        after.subgoals.len() == before.subgoals.len() + 1,
        after.subgoals[0] == if negated {
            LiteralView::Negative(atom)
        } else {
            LiteralView::Positive(atom)
        },
        forall|i: int|
            0 <= i < before.subgoals.len() ==> #[trigger] after.subgoals[i + 1]
                == before.subgoals[i],
        negated ==> context.level(atom.pred) < top,
        !negated ==> context.level(atom.pred) <= top,
    ensures
        after.fits(context, top),
{
    assert forall|i: int| 0 <= i < after.subgoals.len() implies context.fits(
        #[trigger] after.subgoals[i],
        top,
    ) by {
        if i > 0 {
            assert(after.subgoals[(i - 1) + 1] == before.subgoals[i - 1]);
            assert(context.fits(before.subgoals[i - 1], top));
        }
    }
}

/// A search that is taken up again gives what a search without a break
/// gives: the run that leads from `a` to `b` and the one that leads on from
/// `b` to `c` are, one after the other, one run from `a` to `c`.
pub proof fn runs_add_up(
    a: &Forest,
    b: &Forest,
    c: &Forest,
    table: usize,
    first: Seq<Forest>,
    second: Seq<Forest>,
)
    requires
        b.searched(a, table, first),
        c.searched(b, table, second),
    ensures
        c.searched(a, table, first + second.subrange(1, second.len() as int)),
{
    let rest = second.subrange(1, second.len() as int);
    let trail = first + rest;
    assert forall|i: int| 0 <= i < trail.len() - 1 implies #[trigger] pull_at(trail, table, i) by {
        if i + 1 < first.len() {
            assert(pull_at(first, table, i));
            assert(trail[i] == first[i]);
            assert(trail[i + 1] == first[i + 1]);
        } else {
            let j = i + 1 - first.len();
            assert(pull_at(second, table, j));
            assert(trail[i] == second[j]);
            assert(trail[i + 1] == second[j + 1]);
        }
    }
    if rest.len() == 0 {
        assert(trail =~= first);
    }
}

/// A search that is taken up again gives what a search without a break
/// gives: where `b` comes of `a` by a search at `table` and `c` of `b`, `c`
/// comes of `a` by one search.
pub proof fn search_resumes(a: &Forest, b: &Forest, c: &Forest, table: usize)
    requires
        b.reached(a, table),
        c.reached(b, table),
    ensures
        c.reached(a, table),
{
    let first = choose|trail: Seq<Forest>| #[trigger] b.searched(a, table, trail);
    let second = choose|trail: Seq<Forest>| #[trigger] c.searched(b, table, trail);
    runs_add_up(a, b, c, table, first, second);
}

/// A search that is taken up again and then takes more pulls than can be
/// counted has taken more than can be counted in all.
pub proof fn overrun_adds(a: &Forest, b: &Forest, c: &Forest, table: usize)
    requires
        b.reached(a, table),
        c.overran(b, table),
    ensures
        c.overran(a, table),
{
    let first = choose|trail: Seq<Forest>| #[trigger] b.searched(a, table, trail);
    let second = choose|trail: Seq<Forest>|
        #[trigger] c.searched(b, table, trail) && trail.len() > usize::MAX;
    runs_add_up(a, b, c, table, first, second);
    let trail = first + second.subrange(1, second.len() as int);
    assert(trail.len() == first.len() + second.len() - 1);
    assert(c.searched(a, table, trail));
}

/// Every forest of a search extends the forest that the search started
/// from.
pub proof fn search_extends(a: &Forest, b: &Forest, table: usize, trail: Seq<Forest>, i: int)
    requires
        b.searched(a, table, trail),
        0 <= i < trail.len(),
    ensures
        trail[i].extends(a),
    decreases i,
{
    if i == 0 {
        crate::forest::extends_reflexive(a);
    } else {
        search_extends(a, b, table, trail, i - 1);
        assert(pull_at(trail, table, i - 1));
        crate::forest::extends_transitive(a, &trail[i - 1], &trail[i]);
    }
}

/// A table that is closed is not searched: a search for its answers leaves
/// the forest as it is. So is a poisoned forest.
pub proof fn closed_tables_are_not_searched(before: &Forest, after: &Forest, table: usize)
    requires
        after.reached(before, table),
        before.tables@[table as int].state != TableState::InProgress || before.poisoned,
    ensures
        *after == *before,
{
    let trail = choose|trail: Seq<Forest>| #[trigger] after.searched(before, table, trail);
    if trail.len() > 1 {
        assert(pull_at(trail, table, 0));
        reveal(Forest::pulled);
    }
}

} // verus!
