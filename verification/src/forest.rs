//! The forest: the tables of all goals met so far and the stack of those
//! under resolution.

use crate::context::{
    clauses_view, complete, constrained_subst_from_answer, openings, openings_fit,
    openings_have_width, AnswerResult, NegativeCycle,
    AnswerResultView, CompleteAnswerView, ConstrainedSubst, ConstrainedSubstView, Context,
};
use crate::logic::RootSearchFail;
use crate::render::Render;
use crate::stack::{cycle_kind, CycleKind, Stack};
use crate::table::{strands_view, Table, TableState};
use crate::term::{canonical, canonicalize, Atom, AtomView, Term};
use vstd::prelude::*;

verus! {

/// The tables of all goals met so far, and the search that is under way.
#[derive(Debug)]
pub struct Forest {
    /// The program.
    pub context: Context,
    /// One table for each goal, in the order in which the goals were met.
    pub tables: Vec<Table>,
    /// The tables under resolution.
    pub stack: Stack,
    /// Set for good once a goal was found to depend on its own negation.
    /// From then on nothing is searched: what is recorded is given as
    /// before, and a pull for more from a table in progress gives the
    /// fault.
    pub poisoned: bool,
}

impl Forest {
    /// Whether some table holds `goal`.
    pub open spec fn has_table(&self, goal: AtomView) -> bool {
        exists|t: int| 0 <= t < self.tables@.len() && (#[trigger] self.tables@[t]).goal@ == goal
    }

    /// The index of the table of `goal`.
    pub open spec fn index_of(&self, goal: AtomView) -> usize {
        choose|t: usize| t < self.tables@.len() && (#[trigger] self.tables@[t as int]).goal@ == goal
    }

    /// The forest is consistent: every table is, no goal has two tables,
    /// the stack holds tables of the forest, none of them twice, and the
    /// search keeps to the strata of the program if the program is
    /// stratified.
    pub open spec fn wf(&self) -> bool {
        &&& self.levelled()
        &&& forall|t: int| 0 <= t < self.tables@.len() ==> (#[trigger] self.tables@[t]).wf()
        &&& forall|i: int, j: int|
            0 <= i < j < self.tables@.len() ==> (#[trigger] self.tables@[i]).goal@ != (
            #[trigger] self.tables@[j]).goal@
        &&& self.stack.distinct()
        &&& forall|d: int|
            0 <= d < self.stack.depth() ==> (#[trigger] self.stack.tables()[d])
                < self.tables@.len()
    }

    /// The stratum of the goal of table `t`.
    pub open spec fn level_of_table(&self, t: int) -> usize {
        self.context.level(self.tables@[t].goal.pred)
    }

    /// The stratum of the goal at depth `d` of the stack.
    pub open spec fn level_at(&self, d: int) -> usize {
        self.level_of_table(self.stack.links()[d].0 as int)
    }

    /// Whether the goal at depth `d` of the stack is of no higher stratum
    /// than the goal below it that asked for it, and of a lower one if it
    /// was asked for under a negation.
    pub open spec fn steps_down(&self, d: int) -> bool {
        &&& self.level_at(d) <= self.level_at(d - 1)
        &&& self.stack.links()[d].2 ==> self.level_at(d) < self.level_at(d - 1)
    }

    /// Whether the goal at depth `d` of the stack waits for a goal that is
    /// not above it, and of no higher stratum.
    pub open spec fn waits_within(&self, d: int) -> bool {
        &&& self.stack.links()[d].1 <= d
        &&& self.level_at(self.stack.links()[d].1 as int) <= self.level_at(d)
    }

    /// Whether the search keeps to the strata of the program: every table
    /// does, and the strata do not rise along the stack.
    pub open spec fn strata_hold(&self) -> bool {
        &&& forall|t: int|
            0 <= t < self.tables@.len() ==> (#[trigger] self.tables@[t]).levelled(&self.context)
        &&& forall|d: int| 0 < d < self.stack.depth() ==> #[trigger] self.steps_down(d)
        &&& forall|d: int| 0 <= d < self.stack.depth() ==> #[trigger] self.waits_within(d)
    }

    /// Whether the search keeps to the strata of the program, if the
    /// program is stratified. Of a program that is not, nothing is asked.
    pub open spec fn levelled(&self) -> bool {
        self.context.stratified() ==> self.strata_hold()
    }

    /// Whether the strand `s` may be put into table `t`: it has a binding
    /// for each variable of the table's goal, and it keeps to the stratum
    /// of the goal, if the program is stratified.
    pub open spec fn admits(&self, t: usize, s: crate::table::StrandView) -> bool {
        &&& s.subst.len() == self.tables@[t as int].width()
        &&& self.context.stratified() ==> s.fits(&self.context, self.level_of_table(t as int))
    }

    /// What may become of a forest: the program stays, no table is dropped,
    /// every table changes only as `Table::extends` allows, and a poisoned
    /// forest stays poisoned. Where the program is stratified, a forest
    /// that is not poisoned stays so.
    pub open spec fn extends(&self, before: &Forest) -> bool {
        &&& self.context == before.context
        &&& before.tables@.len() <= self.tables@.len()
        &&& forall|t: int|
            0 <= t < before.tables@.len() ==> (#[trigger] self.tables@[t]).extends(&before.tables@[t])
        &&& before.poisoned ==> self.poisoned
        &&& before.context.stratified() && !before.poisoned ==> !self.poisoned
    }

    /// Whether every table on the stack from `depth` up is coinductive.
    pub open spec fn coinductive_from(&self, depth: usize) -> bool {
        forall|d: int|
            depth <= d < self.stack.depth() ==> self.tables@[(
            #[trigger] self.stack.tables()[d]) as int].coinductive
    }

    /// An empty forest for the program `context`.
    pub fn new(context: Context) -> (forest: Forest)
        ensures
            forest.context == context,
            forest.tables@.len() == 0,
            forest.stack.depth() == 0,
            !forest.poisoned,
            forest.wf(),
    {
        Forest { context, tables: Vec::new(), stack: Stack::new(), poisoned: false }
    }

    /// The program that the forest resolves goals against.
    pub fn context(&self) -> (context: &Context)
        ensures
            *context == self.context,
    {
        &self.context
    }

    /// Whether a goal was found to depend on its own negation.
    pub fn is_poisoned(&self) -> (r: bool)
        ensures
            r == self.poisoned,
    {
        self.poisoned
    }

    /// The stratum of the goal of table `t`.
    fn table_level(&self, t: usize) -> (level: usize)
        requires
            t < self.tables@.len(),
        ensures
            level == self.level_of_table(t as int),
    {
        self.context.level_of(self.tables[t].goal.pred)
    }

    /// Whether the search keeps to the strata of the program, if the
    /// program is stratified.
    pub fn keeps_strata(&self) -> (r: bool)
        requires
            forall|d: int|
                0 <= d < self.stack.depth() ==> (#[trigger] self.stack.tables()[d])
                    < self.tables@.len(),
        ensures
            r == self.levelled(),
    {
        if !self.context.is_stratified() {
            return true;
        }
        let mut t: usize = 0;
        while t < self.tables.len()
            invariant
                t <= self.tables.len(),
                self.context.stratified(),
                forall|u: int| 0 <= u < t ==> (#[trigger] self.tables@[u]).levelled(&self.context),
            decreases self.tables.len() - t,
        {
            if !self.tables[t].keeps_stratum(&self.context) {
                assert(!self.tables@[t as int].levelled(&self.context));
                assert(!self.strata_hold());
                return false;
            }
            t += 1;
        }
        let mut d: usize = 0;
        while d < self.stack.entries.len()
            invariant
                d <= self.stack.entries.len(),
                self.context.stratified(),
                forall|u: int|
                    0 <= u < self.tables@.len() ==> (#[trigger] self.tables@[u]).levelled(
                        &self.context,
                    ),
                forall|k: int|
                    0 <= k < self.stack.depth() ==> (#[trigger] self.stack.tables()[k])
                        < self.tables@.len(),
                forall|k: int| 0 < k < d ==> #[trigger] self.steps_down(k),
                forall|k: int| 0 <= k < d ==> #[trigger] self.waits_within(k),
            decreases self.stack.entries.len() - d,
        {
            let entry = &self.stack.entries[d];
            assert(entry.link() == self.stack.links()[d as int]);
            assert(self.stack.tables()[d as int] == entry.table);
            if entry.cyclic_min > d {
                assert(!self.waits_within(d as int));
                assert(!self.strata_hold());
                return false;
            }
            let here = self.table_level(entry.table);
            let awaited = &self.stack.entries[entry.cyclic_min];
            assert(awaited.link() == self.stack.links()[entry.cyclic_min as int]);
            assert(self.stack.tables()[entry.cyclic_min as int] == awaited.table);
            if self.table_level(awaited.table) > here {
                assert(!self.waits_within(d as int));
                assert(!self.strata_hold());
                return false;
            }
            if d > 0 {
                let below = &self.stack.entries[d - 1];
                assert(below.link() == self.stack.links()[d - 1]);
                assert(self.stack.tables()[d - 1] == below.table);
                let under = self.table_level(below.table);
                if here > under || (entry.negated && here >= under) {
                    assert(!self.steps_down(d as int));
                    assert(!self.strata_hold());
                    return false;
                }
            }
            d += 1;
        }
        true
    }

    /// Whether the forest is consistent. Every forest that `new` has made
    /// and that only the functions of this crate have changed is.
    pub fn is_consistent(&self) -> (r: bool)
        ensures
            r == self.wf(),
    {
        let mut j: usize = 0;
        while j < self.tables.len()
            invariant
                j <= self.tables.len(),
                forall|a: int| 0 <= a < j ==> (#[trigger] self.tables@[a]).wf(),
                forall|a: int, b: int|
                    0 <= a < b < j ==> (#[trigger] self.tables@[a]).goal@ != (
                    #[trigger] self.tables@[b]).goal@,
            decreases self.tables.len() - j,
        {
            if !self.tables[j].is_consistent() {
                return false;
            }
            let mut i: usize = 0;
            while i < j
                invariant
                    i <= j,
                    j < self.tables.len(),
                    forall|a: int|
                        0 <= a < i ==> (#[trigger] self.tables@[a]).goal@ != self.tables@[j as int].goal@,
                decreases j - i,
            {
                if self.tables[i].goal.same(&self.tables[j].goal) {
                    return false;
                }
                i += 1;
            }
            j += 1;
        }
        let mut e: usize = 0;
        while e < self.stack.entries.len()
            invariant
                e <= self.stack.entries.len(),
                forall|a: int, b: int|
                    0 <= a < b < e ==> (#[trigger] self.stack.entries@[a]).table != (
                    #[trigger] self.stack.entries@[b]).table,
                forall|a: int| 0 <= a < e ==> (#[trigger] self.stack.tables()[a]) < self.tables@.len(),
            decreases self.stack.entries.len() - e,
        {
            let table = self.stack.entries[e].table;
            assert(self.stack.tables()[e as int] == table);
            if table >= self.tables.len() {
                return false;
            }
            let mut d: usize = 0;
            while d < e
                invariant
                    d <= e,
                    e < self.stack.entries.len(),
                    table == self.stack.entries@[e as int].table,
                    forall|a: int| 0 <= a < d ==> (#[trigger] self.stack.entries@[a]).table != table,
                decreases e - d,
            {
                if self.stack.entries[d].table == table {
                    return false;
                }
                d += 1;
            }
            e += 1;
        }
        self.keeps_strata()
    }

    /// The table of `goal`, if there is one.
    pub fn find_table(&self, goal: &Atom) -> (r: Option<usize>)
        ensures
            r is Some <==> self.has_table(goal@),
            r matches Some(t) ==> t < self.tables@.len() && self.tables@[t as int].goal@ == goal@,
    {
        let mut t: usize = 0;
        while t < self.tables.len()
            invariant
                t <= self.tables.len(),
                forall|k: int| 0 <= k < t ==> (#[trigger] self.tables@[k]).goal@ != goal@,
            decreases self.tables.len() - t,
        {
            if self.tables[t].goal.same(goal) {
                return Some(t);
            }
            t += 1;
        }
        None
    }

    /// The table with which the search for `goal`, a goal with `n`
    /// variables, starts: in progress, without answers, with one strand for
    /// each clause that applies.
    pub open spec fn fresh_table(&self, goal: AtomView, n: usize) -> crate::table::TableView {
        crate::table::TableView {
            goal,
            coinductive: self.context.coinductive(goal.pred),
            state: TableState::InProgress,
            answers: Seq::empty(),
            strands: openings(clauses_view(self.context.clauses@), goal, n),
            blocked: Seq::empty(),
        }
    }

    /// Whether the forest is `before` with the table of `goal`: as it was,
    /// if `before` has it, and with a fresh table after the others if not.
    pub open spec fn has_made(&self, before: &Forest, goal: AtomView, n: usize) -> bool {
        &&& self.rest_as(before)
        &&& self.stack_as(before)
        &&& self.has_table(goal)
        &&& self.tables_view() == if before.has_table(goal) {
            before.tables_view()
        } else {
            before.tables_view().push(before.fresh_table(goal, n))
        }
    }

    /// The table of `goal`, a canonical goal with `n` variables. Where the
    /// goal is met for the first time the table is made, with one strand for
    /// each clause that applies; otherwise nothing changes.
    pub fn get_or_create_table(&mut self, goal: Atom, n: usize) -> (t: usize)
        requires
            old(self).wf(),
            goal@ == canonical(goal@),
            n == crate::term::variables(goal@).len(),
        ensures
            final(self).has_made(old(self), goal@, n),
            final(self).wf(),
            final(self).extends(old(self)),
            final(self).stack == old(self).stack,
            final(self).poisoned == old(self).poisoned,
            t < final(self).tables@.len(),
            final(self).tables@[t as int].goal@ == goal@,
            old(self).has_table(goal@) ==> *final(self) == *old(self),
            !old(self).has_table(goal@) ==> {
                &&& t == old(self).tables@.len()
                &&& final(self).tables@.len() == t + 1
                &&& final(self).tables@.take(t as int) == old(self).tables@
                &&& final(self).tables@[t as int].coinductive == old(self).context.coinductive(
                    goal.pred,
                )
                &&& final(self).tables@[t as int].state == TableState::InProgress
                &&& final(self).tables@[t as int].answers@.len() == 0
                &&& final(self).tables@[t as int].blocked@.len() == 0
                &&& strands_view(final(self).tables@[t as int].strands@) == openings(
                    clauses_view(old(self).context.clauses@),
                    goal@,
                    n,
                )
            },
    {
        match self.find_table(&goal) {
            Some(t) => t,
            None => {
                let coinductive = self.context.is_coinductive(&goal);
                let strands = self.context.program_strands(&goal, n);
                let t = self.tables.len();
                proof {
                    openings_have_width(clauses_view(self.context.clauses@), goal@, n);
                    assert forall|i: int| 0 <= i < strands@.len() implies (
                    #[trigger] strands@[i]).subst@.len() == n by {
                        assert(strands_view(strands@)[i] == strands@[i]@);
                    }
                    if self.context.stratified() {
                        openings_fit(
                            clauses_view(self.context.clauses@),
                            goal@,
                            n,
                            &self.context,
                        );
                    }
                }
                let ghost first = strands_view(strands@);
                let ghost top = self.context.level(goal.pred);
                self.tables.push(Table::new(goal, coinductive, strands));
                assert(self.tables@.take(t as int) =~= old(self).tables@);
                assert(self.tables@[t as int]@.answers =~= Seq::empty());
                assert(self.tables@[t as int]@.blocked =~= Seq::empty());
                assert(self.tables_view() =~= old(self).tables_view().push(
                    old(self).fresh_table(goal@, n),
                )) by {
                    assert forall|u: int| 0 <= u < t implies self.tables_view()[u] == old(
                        self,
                    ).tables_view()[u] by {
                        assert(self.tables@[u] == old(self).tables@.take(t as int)[u]);
                    }
                }
                proof {
                    let made = self.tables@[t as int];
                    assert(self.stack.links() == old(self).stack.links());
                    if self.context.stratified() {
                        assert forall|i: int| 0 <= i < made.strands@.len() implies (
                        #[trigger] made.strands@[i])@.fits(&self.context, top) by {
                            assert(first[i] == made.strands@[i]@);
                            assert(first[i].fits(&self.context, top));
                        }
                        assert(made.levelled(&self.context));
                        assert forall|u: int| 0 <= u < self.tables@.len() implies (
                        #[trigger] self.tables@[u]).levelled(&self.context) by {
                            if u < t {
                                assert(self.tables@[u] == old(self).tables@[u]);
                            }
                        }
                        assert forall|d: int| 0 < d < self.stack.depth() implies #[trigger] self.steps_down(
                            d,
                        ) by {
                            assert(old(self).steps_down(d));
                            assert(old(self).stack.tables()[d] < t);
                            assert(old(self).stack.tables()[d - 1] < t);
                        }
                        assert forall|d: int| 0 <= d < self.stack.depth() implies #[trigger] self.waits_within(
                            d,
                        ) by {
                            assert(old(self).waits_within(d));
                            assert(old(self).stack.tables()[d] < t);
                            assert(old(self).stack.tables()[old(self).stack.links()[d].1 as int] < t);
                        }
                    }
                }
                assert forall|i: int, j: int| 0 <= i < j < self.tables@.len() implies (
                #[trigger] self.tables@[i]).goal@ != (#[trigger] self.tables@[j]).goal@ by {
                    if j == t {
                        assert(self.tables@[i] == old(self).tables@[i]);
                    }
                }
                t
            },
        }
    }

    /// True if all the tables on the stack starting from `depth` and
    /// continuing until the top of the stack are coinductive.
    ///
    /// With `Foo: XXX` at depth 0, `Foo: Send` at depth 1 and `Bar: Send`
    /// at depth 2, where `Send` is coinductive and `XXX` is not, the answer
    /// is true from depth 1 and false from depth 0.
    pub fn top_of_stack_is_coinductive_from(&self, depth: usize) -> (r: bool)
        requires
            self.wf(),
        ensures
            r == self.coinductive_from(depth),
    {
        let mut d: usize = depth;
        while d < self.stack.entries.len()
            invariant
                self.wf(),
                depth <= d,
                forall|k: int|
                    depth <= k < d && k < self.stack.depth() ==> self.tables@[(
                    #[trigger] self.stack.tables()[k]) as int].coinductive,
            decreases self.stack.entries.len() - d,
        {
            let table = self.stack.entries[d].table;
            assert(self.stack.tables()[d as int] == table);
            if !self.tables[table].coinductive {
                return false;
            }
            d += 1;
        }
        true
    }

    /// How to treat a goal that is asked for again while its table is on
    /// the stack at `depth`. The cycle is a proof exactly if the goal is not
    /// negated, the strand that asks is not there to confirm an assumption,
    /// and every table from `depth` up is coinductive; under a negation it
    /// is a fault of the program; otherwise the strand that asks has to
    /// wait.
    pub fn classify_cycle(&self, depth: usize, negated: bool, confirming: bool) -> (kind: CycleKind)
        requires
            self.wf(),
        ensures
            kind == cycle_kind(negated, confirming, self.coinductive_from(depth)),
    {
        if negated {
            CycleKind::Negative
        } else if !confirming && self.top_of_stack_is_coinductive_from(depth) {
            CycleKind::Coinductive
        } else {
            CycleKind::Deferred
        }
    }
}

/// The budget of a query that is never cut short.
pub fn always() -> (go: bool)
    ensures
        go,
{
    true
}

/// One result of a query that asks for every answer.
#[derive(Debug)]
pub enum SubstitutionResult<S> {
    /// An answer that holds.
    Definite(S),
    /// An answer whose proof rests on a sub-goal that could not be decided.
    Ambiguous(S),
    /// The search has floundered: the goal depends on a sub-goal that
    /// cannot be decided.
    Floundered,
}

impl<S: View> View for SubstitutionResult<S> {
    type V = SubstitutionResult<S::V>;

    open spec fn view(&self) -> SubstitutionResult<S::V> {
        match self {
            SubstitutionResult::Definite(s) => SubstitutionResult::Definite(s@),
            SubstitutionResult::Ambiguous(s) => SubstitutionResult::Ambiguous(s@),
            SubstitutionResult::Floundered => SubstitutionResult::Floundered,
        }
    }
}

impl<S: Render> Render for SubstitutionResult<S> {
    /// A definite answer is written as its substitution, an ambiguous one
    /// as `Ambiguous(` substitution `)`, and the third result as
    /// `Floundered`.
    open spec fn text(&self, context: &Context) -> Seq<char> {
        match self {
            SubstitutionResult::Definite(subst) => subst.text(context),
            SubstitutionResult::Ambiguous(subst) => "Ambiguous("@ + subst.text(context) + ")"@,
            SubstitutionResult::Floundered => "Floundered"@,
        }
    }

    fn render(&self, context: &Context) -> (s: String) {
        match self {
            SubstitutionResult::Definite(subst) => subst.render(context),
            SubstitutionResult::Ambiguous(subst) => {
                let mut s = String::from_str("Ambiguous(");
                s.append(subst.render(context).as_str());
                s.append(")");
                s
            },
            SubstitutionResult::Floundered => String::from_str("Floundered"),
        }
    }
}

/// A cursor over the answers of one goal. A pull does as much of the
/// search as the next answer takes.
pub struct ForestSolver<'me> {
    pub forest: &'me mut Forest,
    /// The table of the goal.
    pub table: usize,
    /// The index of the answer that the next pull asks for.
    pub answer: usize,
}

impl Forest {
    /// Whether `table` holds an answer at index `i` that depends on
    /// assumptions.
    pub open spec fn passes_over(&self, table: usize, i: int) -> bool {
        0 <= i < self.tables@[table as int].answers@.len()
            && self.tables@[table as int].answers@[i]@.is_conditional()
    }

    /// Whether the answers of `table` at the indices `from .. to` all
    /// depend on assumptions, so that a stream passes them over.
    pub open spec fn skips(&self, table: usize, from: usize, to: usize) -> bool {
        &&& from <= to
        &&& forall|i: int| from <= i < to ==> #[trigger] self.passes_over(table, i)
    }

    /// Where a stream over `table` that stands at `from` comes to rest: the
    /// first index from there on that holds no answer to pass over.
    pub open spec fn rests(&self, table: usize, from: usize) -> usize
        decreases self.tables@[table as int].answers@.len() - from,
    {
        if self.passes_over(table, from as int) && from < usize::MAX {
            self.rests(table, (from + 1) as usize)
        } else {
            from
        }
    }

    /// What a stream over `table` that stands at `cursor` gives, as far as
    /// the state of the forest decides it; `QuantumExceeded` where it does
    /// not.
    pub open spec fn yields(&self, table: usize, cursor: usize) -> AnswerResultView {
        match self.decided(table, cursor) {
            Some(Ok(a)) => AnswerResultView::Answer(a),
            Some(Err(RootSearchFail::Floundered)) => AnswerResultView::Floundered,
            Some(Err(RootSearchFail::NoMoreSolutions)) => AnswerResultView::NoMoreSolutions,
            _ => AnswerResultView::QuantumExceeded,
        }
    }

    /// Whether the state of the forest decides what a stream over `table`
    /// that stands at `cursor` gives: an answer for use outside, the end of
    /// the answers, or that the search has floundered.
    pub open spec fn settled(&self, table: usize, cursor: usize) -> bool {
        !(self.yields(table, cursor) is QuantumExceeded)
    }

    /// Whether `trail` is the search of a look at what a stream over
    /// `table` gives from the place `from`: a search in which each pull
    /// is taken from a forest that does not decide what the stream gives.
    pub open spec fn sought(
        &self,
        before: &Forest,
        table: usize,
        from: usize,
        trail: Seq<Forest>,
    ) -> bool {
        &&& self.searched(before, table, trail)
        &&& forall|i: int|
            #![trigger trail[i]]
            0 <= i < trail.len() - 1 ==> !trail[i].settled(table, trail[i].rests(table, from))
    }

    /// Whether the forest comes of `before` by a look at what a stream
    /// over `table` gives from the place `from`: by the pulls of a search
    /// that goes on for as long as the forest does not decide it, and no
    /// further. At least one pull is taken, unless `before` decides what
    /// the stream gives or is poisoned.
    pub open spec fn looked(&self, before: &Forest, table: usize, from: usize) -> bool {
        exists|trail: Seq<Forest>| #[trigger]
            self.sought(before, table, from, trail) && (trail.len() > 1 || before.poisoned
                || before.settled(table, before.rests(table, from)))
    }

    /// How a look at the next answer takes a stream over `table` from the
    /// place `from` in the forest `before` to the place `to` in this
    /// forest, with the result `r`.
    ///
    /// The forest comes of `before` by the pulls of the look, and it is not
    /// poisoned. The answers from `from` up to `to` depend on assumptions
    /// and were passed over, and `to` is the first place at which there is
    /// no such answer. The result is what this forest decides for the
    /// place `to`; it is `QuantumExceeded` exactly if the forest does not
    /// decide it. Where `before` decided the result at the place where the
    /// stream was to come to rest, nothing has changed.
    pub open spec fn peeks(
        &self,
        before: &Forest,
        table: usize,
        from: usize,
        to: usize,
        r: AnswerResultView,
    ) -> bool {
        &&& self.extends(before)
        &&& self.looked(before, table, from)
        &&& !self.poisoned
        &&& self.skips(table, from, to)
        &&& to == self.rests(table, from)
        &&& r == self.yields(table, to)
        &&& r is QuantumExceeded <==> !self.settled(table, to)
        &&& before.settled(table, before.rests(table, from)) ==> *self == *before
    }

    /// How a pull takes a stream over `table` from the place `from` in the
    /// forest `before` to the place `to` in this forest, with the result
    /// `r`: as a look at the next answer does, and then one place on, unless
    /// the place cannot be counted further.
    pub open spec fn pulls(
        &self,
        before: &Forest,
        table: usize,
        from: usize,
        to: usize,
        r: AnswerResultView,
    ) -> bool {
        &&& self.peeks(before, table, from, self.rests(table, from), r)
        &&& to == if self.rests(table, from) < usize::MAX {
            (self.rests(table, from) + 1) as usize
        } else {
            self.rests(table, from)
        }
    }

    /// Whether the forest comes of `before` by the moves in `trail`: the
    /// trail starts with `before` and ends with this forest, and each
    /// forest in it comes of the one before it by one move of a query.
    pub open spec fn came(&self, before: &Forest, trail: Seq<Forest>) -> bool {
        &&& trail.len() > 0
        &&& trail[0] == *before
        &&& trail[trail.len() - 1] == *self
        &&& forall|i: int| 0 <= i < trail.len() - 1 ==> #[trigger] move_at(trail, i)
    }

    /// Whether the forest comes of `before` by queries: by making the
    /// tables of goals and by pulls at tables, in any number and order.
    pub open spec fn comes_of(&self, before: &Forest) -> bool {
        exists|trail: Seq<Forest>| #[trigger] self.came(before, trail)
    }

    /// Whether no query finds a goal that depends on its own negation:
    /// no forest that comes of this one is poisoned, nor is this one. A
    /// forest that is not poisoned is safe if its program is stratified.
    pub open spec fn safe(&self) -> bool {
        forall|after: Forest| #[trigger] after.comes_of(self) ==> !after.poisoned
    }

    /// Whether a query that cannot fail may be put to the forest: it is
    /// consistent, and no query finds a goal that depends on its own
    /// negation.
    pub open spec fn sound(&self) -> bool {
        &&& self.wf()
        &&& self.safe()
    }

    /// Whether the forest is safe by the strata of its program: it is not
    /// poisoned and its program is stratified. This is one way to find out
    /// that no query finds a goal that depends on its own negation.
    pub fn is_safe_by_strata(&self) -> (r: bool)
        ensures
            r == (self.context.stratified() && !self.poisoned),
            r ==> self.safe(),
    {
        let r = !self.poisoned && self.context.is_stratified();
        proof {
            if r {
                stratified_forests_are_safe(self);
            }
        }
        r
    }

    /// Returns a cursor over the answers of `goal`. Each pull does the work
    /// to extract one more answer; the answers are kept in the forest
    /// between pulls and between cursors. The forest has the table of the
    /// goal from then on, a fresh one after the others if it had none;
    /// nothing else changes.
    pub fn iter_answers<'f>(&'f mut self, goal: &Atom) -> (solver: ForestSolver<'f>)
        requires
            old(self).wf(),
        ensures
            solver.answer == 0,
            solver.wf(),
            solver.table == solver.forest.index_of(canonical(goal@)),
            solver.forest.tables@[solver.table as int].goal@ == canonical(goal@),
            solver.forest.has_made(
                old(self),
                canonical(goal@),
                crate::term::variables(goal@).len() as usize,
            ),
            solver.forest.extends(old(self)),
            old(self).safe() ==> solver.sound(),
            *final(self) == *final(solver.forest),
    {
        let (key, vars) = canonicalize(goal);
        proof {
            assert(goal.args@.len() == goal.args.len());
            crate::alpha::canonical_is_idempotent(goal@);
        }
        let table = self.get_or_create_table(key, vars.len());
        proof {
            index_of_table(self, table);
            if old(self).safe() {
                making_is_a_move(old(self), self, canonical(goal@), vars.len());
                safe_stays(old(self), self);
            }
        }
        ForestSolver { forest: self, table, answer: 0 }
    }
}

/// Whether the forest after the one at `i` in `trail` comes of it by one
/// move of a query: the table of a goal is made, or a pull is taken at a
/// table. Either way it extends the forest before it.
pub open spec fn move_at(trail: Seq<Forest>, i: int) -> bool {
    &&& trail[i + 1].extends(&trail[i])
    &&& {
        ||| exists|table: usize| #[trigger] trail[i + 1].pulled(&trail[i], table)
        ||| exists|goal: AtomView, n: usize| #[trigger] trail[i + 1].has_made(&trail[i], goal, n)
    }
}

impl Forest {
    /// Whether the forest comes of `before` by a query of `goal`: the
    /// table of the goal is made, if `before` had none, and then the search
    /// for the answers of that table takes its pulls.
    pub open spec fn queried(&self, before: &Forest, goal: AtomView) -> bool {
        exists|start: Forest| #[trigger]
            start.has_made(before, canonical(goal), crate::term::variables(goal).len() as usize)
                && start.extends(before) && self.reached(&start, start.index_of(canonical(goal)))
    }

    /// Whether the forest comes of `before` by a query for the solution of
    /// `goal`: the table of the goal is made, if `before` had none, and
    /// then the search for a solution takes its looks at that table.
    pub open spec fn solved(&self, before: &Forest, goal: AtomView) -> bool {
        exists|start: Forest| #[trigger]
            start.has_made(before, canonical(goal), crate::term::variables(goal).len() as usize)
                && self.weighed(&start, start.index_of(canonical(goal)), 0)
    }

    /// Solves a given goal, producing the solution, or says that a goal
    /// was found to depend on its own negation. This will do only as
    /// much work towards `goal` as it has to, and that work is kept for
    /// later queries.
    ///
    /// The forest is left as the query has made it. The query fails
    /// exactly if the forest is poisoned then. Otherwise the result is the
    /// solution that the forest gives for the table of the goal; if the
    /// search was cut short, `should_continue` has said so, or a look has
    /// taken more pulls than can be counted.
    pub fn try_solve(&mut self, goal: &Atom, should_continue: impl Fn() -> bool) -> (r: Result<
        Option<crate::solution::Solution>,
        NegativeCycle,
    >)
        requires
            old(self).wf(),
            should_continue.requires(()),
        ensures
            final(self).wf(),
            final(self).extends(old(self)),
            final(self).has_table(canonical(goal@)),
            final(self).queried(old(self), goal@),
            r is Err <==> final(self).poisoned,
            r matches Ok(s) ==> {
                let table = final(self).index_of(canonical(goal@));
                &&& final(self).solved(old(self), goal@)
                &&& crate::solution::solution_view(s) == final(self).solution(table, 0)
                &&& final(self).cut_short(table, 0) ==> should_continue.ensures((), false)
                    || final(self).overran_query(old(self), goal@)
            },
    {
        let ghost start = *self;
        let answers = self.iter_answers(goal);
        let ghost mid = *answers.forest;
        let ghost table = answers.table;
        let r = crate::solution::try_make_solution(answers, should_continue);
        proof {
            query_keeps_table(&start, &mid, self, goal@, table);
            if r is Ok {
                assert(self.weighed(&mid, table, 0));
            }
        }
        r
    }

    /// Solves a given goal, producing the solution. This will do only as
    /// much work towards `goal` as it has to, and that work is kept for
    /// later queries.
    ///
    /// The forest is left as the query has made it, and the result is the
    /// solution that it then gives for the table of the goal; if the search
    /// was cut short, `should_continue` has said so, or a look has taken
    /// more pulls than can be counted.
    ///
    /// # Panics
    ///
    /// A forest to which a query may be put finds no goal that depends on
    /// its own negation. The function panics if it is called against its
    /// contract and finds one; `try_solve` reports it.
    pub fn solve(&mut self, goal: &Atom, should_continue: impl Fn() -> bool) -> (r: Option<
        crate::solution::Solution,
    >)
        requires
            old(self).sound(),
            should_continue.requires(()),
        ensures
            final(self).sound(),
            final(self).extends(old(self)),
            final(self).has_table(canonical(goal@)),
            final(self).queried(old(self), goal@),
            final(self).solved(old(self), goal@),
            crate::solution::solution_view(r) == final(self).solution(
                final(self).index_of(canonical(goal@)),
                0,
            ),
            final(self).cut_short(final(self).index_of(canonical(goal@)), 0)
                ==> should_continue.ensures((), false) || final(self).overran_query(
                old(self),
                goal@,
            ),
    {
        let r = self.try_solve(goal, should_continue);
        proof {
            query_is_moves(old(self), self, goal@);
            safe_stays(old(self), self);
        }
        match r {
            Ok(s) => s,
            Err(_) => vstd::pervasive::unreached(),
        }
    }

    /// Solves a given goal and hands every result to `f`, in the order of
    /// the table, each with a hint that says whether a look ahead found
    /// anything but the end of the answers, or says that a goal was found
    /// to depend on its own negation.
    ///
    /// The forest is left as the query has made it. The query fails
    /// exactly if the forest is poisoned then. Otherwise it says `false`
    /// exactly if the last call of `f` said to stop, and what `f` was
    /// handed and how often is as `Forest::handed_out` says of the forest.
    pub fn try_solve_multiple<F: Fn(SubstitutionResult<ConstrainedSubst>, bool) -> bool>(
        &mut self,
        goal: &Atom,
        f: F,
    ) -> (r: Result<bool, NegativeCycle>)
        requires
            old(self).wf(),
            forall|s: SubstitutionResult<ConstrainedSubst>, more: bool| f.requires((s, more)),
        ensures
            final(self).wf(),
            final(self).extends(old(self)),
            final(self).has_table(canonical(goal@)),
            final(self).queried(old(self), goal@),
            r is Err <==> final(self).poisoned,
            r matches Ok(b) ==> final(self).enumerated(old(self), goal@, f, b),
    {
        let ghost start = *self;
        let answers = self.iter_answers(goal);
        let ghost mid = *answers.forest;
        let ghost table = answers.table;
        let r = try_each_answer(answers, f);
        proof {
            query_keeps_table(&start, &mid, self, goal@, table);
            if r is Ok {
                assert(self.went(&mid, table, 0, f, r->Ok_0));
            }
        }
        r
    }

    /// Solves a given goal and hands every result to `f`, in the order of
    /// the table: each answer, and the word that the search has floundered
    /// for as long as `f` goes on after it. With each goes a hint that
    /// says whether a look ahead found anything but the end of the
    /// answers. Says `false` when `f` says to stop, and `true` when the
    /// answers have come to an end.
    ///
    /// The forest is left as the looks of the query have made it, one
    /// before the first call of `f` and one after each answer. The query
    /// says `false` exactly if the last call of `f` said to stop, and what
    /// `f` was handed and how often is as `Forest::handed_out` says of the
    /// forest.
    ///
    /// # Panics
    ///
    /// As `solve` does; `try_solve_multiple` reports what this function
    /// would panic at.
    pub fn solve_multiple<F: Fn(SubstitutionResult<ConstrainedSubst>, bool) -> bool>(
        &mut self,
        goal: &Atom,
        f: F,
    ) -> (r: bool)
        requires
            old(self).sound(),
            forall|s: SubstitutionResult<ConstrainedSubst>, more: bool| f.requires((s, more)),
        ensures
            final(self).sound(),
            final(self).extends(old(self)),
            final(self).has_table(canonical(goal@)),
            final(self).queried(old(self), goal@),
            final(self).enumerated(old(self), goal@, f, r),
    {
        let r = self.try_solve_multiple(goal, f);
        proof {
            query_is_moves(old(self), self, goal@);
            safe_stays(old(self), self);
        }
        match r {
            Ok(b) => b,
            Err(_) => vstd::pervasive::unreached(),
        }
    }
}

pub open spec fn substitution_result(a: CompleteAnswerView) -> SubstitutionResult<
    ConstrainedSubstView,
> {
    if a.ambiguous {
        SubstitutionResult::Ambiguous(a.subst)
    } else {
        SubstitutionResult::Definite(a.subst)
    }
}

impl Forest {
    /// The place at which a stream over `table` that stood at `from` comes
    /// to rest for its result number `j`, counted from zero: the first
    /// from where it stood, each later one from the place after the result
    /// before it.
    pub open spec fn place(&self, table: usize, from: usize, j: nat) -> usize
        decreases j,
    {
        if j == 0 {
            self.rests(table, from)
        } else {
            self.rests(table, (self.place(table, from, (j - 1) as nat) + 1) as usize)
        }
    }

    /// What a stream over `table` that stood at `from` gives as its result
    /// number `j`.
    pub open spec fn result(&self, table: usize, from: usize, j: nat) -> AnswerResultView {
        self.yields(table, self.place(table, from, j))
    }

    /// What the caller of a query for every answer is handed for result
    /// number `j`: the answer, or that the search floundered.
    pub open spec fn handed(&self, table: usize, from: usize, j: nat) -> SubstitutionResult<
        ConstrainedSubstView,
    > {
        match self.result(table, from, j) {
            AnswerResultView::Answer(a) => substitution_result(a),
            _ => SubstitutionResult::Floundered,
        }
    }

    /// The hint that goes with result number `j`: whether the result after
    /// an answer is anything but the end of the answers. With the word
    /// that the search floundered the hint is `true`.
    pub open spec fn hint(&self, table: usize, from: usize, j: nat) -> bool {
        match self.result(table, from, j) {
            AnswerResultView::Answer(_) => !(self.result(table, from, j + 1) is NoMoreSolutions),
            _ => true,
        }
    }

    /// Whether `f`, handed result number `j` and its hint, gave the verdict
    /// `go`.
    pub open spec fn called<F: Fn(SubstitutionResult<ConstrainedSubst>, bool) -> bool>(
        &self,
        table: usize,
        from: usize,
        j: nat,
        f: F,
        go: bool,
    ) -> bool {
        exists|s: SubstitutionResult<ConstrainedSubst>|
            s@ == self.handed(table, from, j) && #[trigger] f.ensures(
                (s, self.hint(table, from, j)),
                go,
            )
    }

    /// Whether a query for every answer that has called `f` for `n`
    /// results calls it no more: the answers are at an end, or a limit of
    /// the machine is reached, which is that the place of the last result
    /// cannot be counted further, or that the look for the next result has
    /// taken more pulls than can be counted.
    pub open spec fn stopped(&self, table: usize, from: usize, n: nat) -> bool {
        ||| self.result(table, from, n) is NoMoreSolutions
        ||| self.result(table, from, n) is QuantumExceeded
        ||| n > 0 && self.place(table, from, (n - 1) as nat) == usize::MAX
    }

    /// How a query for every answer of `table` by a stream that stood at
    /// `from` went, with the result `r`: `f` was called `n` times, and its
    /// last verdict was `go`.
    ///
    /// The calls were for the first `n` results of the stream, in their
    /// order, each with its hint. Each was an answer or the word that the
    /// search has floundered, and `f` said to go on after all but the
    /// last. If it said so after the last too, or was not called, the
    /// query has stopped as `stopped` says. The query says `false` exactly
    /// if the last call of `f` said to stop.
    pub open spec fn handed_out<F: Fn(SubstitutionResult<ConstrainedSubst>, bool) -> bool>(
        &self,
        table: usize,
        from: usize,
        f: F,
        n: nat,
        go: bool,
        r: bool,
    ) -> bool {
        &&& forall|j: nat|
            j < n ==> (#[trigger] self.result(table, from, j)) is Answer || self.result(
                table,
                from,
                j,
            ) is Floundered
        &&& forall|j: nat| j + 1 < n ==> #[trigger] self.called(table, from, j, f, true)
        &&& n > 0 ==> self.called(table, from, (n - 1) as nat, f, go)
        &&& n == 0 ==> go
        &&& go ==> self.stopped(table, from, n)
        &&& r == go
    }
}

impl Forest {
    /// Whether `stages` are the forests that the looks of a query for
    /// every answer of `table` have left, one after the other, on the way
    /// from `before` to this forest: the first comes of `before` by a look
    /// from the place `from`, each later one comes of the one before it by
    /// a look from the place after the answer that the look before it had
    /// found, and the last is this forest.
    pub open spec fn staged(
        &self,
        before: &Forest,
        table: usize,
        from: usize,
        stages: Seq<Forest>,
    ) -> bool {
        &&& stages.len() > 0
        &&& stages[0].looked(before, table, from)
        &&& stages[stages.len() - 1] == *self
        &&& forall|j: int|
            0 <= j < stages.len() - 1 ==> #[trigger] self.look_at(stages, table, from, j)
    }

    /// Whether the forest after the one at `j` in `stages` comes of it by
    /// a look from the place after answer number `j` of the stream.
    pub open spec fn look_at(&self, stages: Seq<Forest>, table: usize, from: usize, j: int) -> bool {
        stages[j + 1].looked(&stages[j], table, (self.place(table, from, j as nat) + 1) as usize)
    }

    /// Whether `a` of the first `n` results of the stream are answers:
    /// those before the first word that the search has floundered, or
    /// all of them.
    pub open spec fn answered(&self, table: usize, from: usize, n: nat, a: nat) -> bool {
        &&& a <= n
        &&& forall|j: nat| j < a ==> (#[trigger] self.result(table, from, j)) is Answer
        &&& a < n ==> self.result(table, from, a) is Floundered
    }

    /// How a query for every answer of `table` by a stream that stood at
    /// `from` has led from `before` to this forest, with the result `r`:
    /// the calls of `f` and the result are as `handed_out` says, and the
    /// forest is what the looks of the query have left, as `staged` says:
    /// one look before the first call and one after each answer. A look
    /// that did not decide its result has taken more pulls than can be
    /// counted.
    pub open spec fn went<F: Fn(SubstitutionResult<ConstrainedSubst>, bool) -> bool>(
        &self,
        before: &Forest,
        table: usize,
        from: usize,
        f: F,
        r: bool,
    ) -> bool {
        exists|n: nat, go: bool, stages: Seq<Forest>|
            #![trigger self.handed_out(table, from, f, n, go, r), self.staged(before, table, from, stages)]
            {
                &&& self.handed_out(table, from, f, n, go, r)
                &&& self.staged(before, table, from, stages)
                &&& self.answered(table, from, n, (stages.len() - 1) as nat)
                &&& go && self.result(table, from, n) is QuantumExceeded ==> self.overran(
                    before,
                    table,
                )
            }
    }

    /// How a query for every answer of `goal` has led from `before` to
    /// this forest, with the result `r`: the table of the goal was made,
    /// if `before` had none, and the rest is as `went` says of that table.
    pub open spec fn enumerated<F: Fn(SubstitutionResult<ConstrainedSubst>, bool) -> bool>(
        &self,
        before: &Forest,
        goal: AtomView,
        f: F,
        r: bool,
    ) -> bool {
        exists|start: Forest| #[trigger]
            start.has_made(before, canonical(goal), crate::term::variables(goal).len() as usize)
                && self.went(&start, start.index_of(canonical(goal)), 0, f, r)
    }

    /// Whether a look of a query of `goal` that led from `before` to this
    /// forest has taken more pulls than can be counted.
    pub open spec fn overran_query(&self, before: &Forest, goal: AtomView) -> bool {
        exists|start: Forest| #[trigger]
            start.has_made(before, canonical(goal), crate::term::variables(goal).len() as usize)
                && self.overran(&start, start.index_of(canonical(goal)))
    }
}

/// The looks of a query for every answer, with one more look after the
/// answer number `k`.
pub proof fn stage_on(
    start: &Forest,
    before: &Forest,
    after: &Forest,
    table: usize,
    from: usize,
    k: nat,
    stages: Seq<Forest>,
)
    requires
        before.staged(start, table, from, stages),
        stages.len() == k + 1,
        after.looked(before, table, (before.place(table, from, k) + 1) as usize),
        forall|j: nat|
            j <= k ==> (#[trigger] after.place(table, from, j)) == before.place(table, from, j),
    ensures
        after.staged(start, table, from, stages.push(*after)),
{
    let longer = stages.push(*after);
    assert(longer[0] == stages[0]);
    assert forall|j: int| 0 <= j < longer.len() - 1 implies #[trigger] after.look_at(
        longer,
        table,
        from,
        j,
    ) by {
        assert(after.place(table, from, j as nat) == before.place(table, from, j as nat));
        assert(longer[j] == stages[j]);
        if j + 1 < stages.len() {
            assert(before.look_at(stages, table, from, j));
            assert(longer[j + 1] == stages[j + 1]);
        }
    }
}

/// A look is a search.
pub proof fn look_is_a_search(before: &Forest, after: &Forest, table: usize, from: usize)
    requires
        after.looked(before, table, from),
    ensures
        after.reached(before, table),
{
    let trail = choose|trail: Seq<Forest>| #[trigger]
        after.sought(before, table, from, trail) && (trail.len() > 1 || before.poisoned
            || before.settled(table, before.rests(table, from)));
    assert(after.searched(before, table, trail));
}

/// A look that was cut short and is taken up again, from the place that
/// the stream had come to, is one look from the place where it started.
pub proof fn looks_add_up(
    start: &Forest,
    once: &Forest,
    twice: &Forest,
    table: usize,
    from: usize,
    first: usize,
)
    requires
        table < start.tables@.len(),
        once.extends(start),
        once.skips(table, from, first),
        once.looked(start, table, from),
        twice.looked(once, table, first),
    ensures
        twice.looked(start, table, from),
{
    let t1 = choose|trail: Seq<Forest>| #[trigger]
        once.sought(start, table, from, trail) && (trail.len() > 1 || start.poisoned
            || start.settled(table, start.rests(table, from)));
    let t2 = choose|trail: Seq<Forest>| #[trigger]
        twice.sought(once, table, first, trail) && (trail.len() > 1 || once.poisoned
            || once.settled(table, once.rests(table, first)));
    crate::logic::runs_add_up(start, once, twice, table, t1, t2);
    let trail = t1 + t2.subrange(1, t2.len() as int);
    assert forall|i: int| #![trigger trail[i]] 0 <= i < trail.len() - 1 implies !trail[i].settled(
        table,
        trail[i].rests(table, from),
    ) by {
        if i + 1 < t1.len() {
            assert(trail[i] == t1[i]);
        } else {
            let j = i + 1 - t1.len();
            assert(trail[i] == t2[j]);
            crate::logic::search_extends(once, twice, table, t2, j);
            skips_persist(once, &t2[j], table, from, first);
            rests_after_skips(&t2[j], table, from, first);
        }
    }
    assert(twice.sought(start, table, from, trail));
}

/// A forest comes of itself, by no move at all.
pub proof fn comes_of_itself(a: &Forest)
    ensures
        a.comes_of(a),
{
    assert(a.came(a, seq![*a]));
}

/// What comes of a forest that comes of another comes of that one.
pub proof fn moves_add_up(a: &Forest, b: &Forest, c: &Forest)
    requires
        b.comes_of(a),
        c.comes_of(b),
    ensures
        c.comes_of(a),
{
    let first = choose|trail: Seq<Forest>| #[trigger] b.came(a, trail);
    let second = choose|trail: Seq<Forest>| #[trigger] c.came(b, trail);
    let rest = second.subrange(1, second.len() as int);
    let trail = first + rest;
    assert forall|i: int| 0 <= i < trail.len() - 1 implies #[trigger] move_at(trail, i) by {
        if i + 1 < first.len() {
            assert(move_at(first, i));
            assert(trail[i] == first[i]);
            assert(trail[i + 1] == first[i + 1]);
        } else {
            let j = i + 1 - first.len();
            assert(move_at(second, j));
            assert(trail[i] == second[j]);
            assert(trail[i + 1] == second[j + 1]);
        }
    }
    if rest.len() == 0 {
        assert(trail =~= first);
    }
    assert(c.came(a, trail));
}

/// The pulls of a search are moves of a query.
pub proof fn search_is_moves(a: &Forest, b: &Forest, table: usize)
    requires
        b.reached(a, table),
    ensures
        b.comes_of(a),
{
    let trail = choose|trail: Seq<Forest>| #[trigger] b.searched(a, table, trail);
    assert forall|i: int| 0 <= i < trail.len() - 1 implies #[trigger] move_at(trail, i) by {
        assert(crate::logic::pull_at(trail, table, i));
        assert(trail[i + 1].pulled(&trail[i], table));
    }
    assert(b.came(a, trail));
}

/// To make the table of a goal is a move of a query.
pub proof fn making_is_a_move(a: &Forest, b: &Forest, goal: AtomView, n: usize)
    requires
        b.has_made(a, goal, n),
        b.extends(a),
    ensures
        b.comes_of(a),
{
    let trail = seq![*a, *b];
    assert forall|i: int| 0 <= i < trail.len() - 1 implies #[trigger] move_at(trail, i) by {
        assert(trail[i] == *a);
        assert(trail[i + 1] == *b);
        assert(trail[i + 1].has_made(&trail[i], goal, n));
    }
    assert(b.came(a, trail));
}

/// A query is made of moves.
pub proof fn query_is_moves(a: &Forest, b: &Forest, goal: AtomView)
    requires
        b.queried(a, goal),
    ensures
        b.comes_of(a),
{
    let n = crate::term::variables(goal).len() as usize;
    let start = choose|start: Forest| #[trigger]
        start.has_made(a, canonical(goal), n) && start.extends(a) && b.reached(
            &start,
            start.index_of(canonical(goal)),
        );
    making_is_a_move(a, &start, canonical(goal), n);
    search_is_moves(&start, b, start.index_of(canonical(goal)));
    moves_add_up(a, &start, b);
}

/// What comes of a safe forest is safe, and not poisoned.
pub proof fn safe_stays(a: &Forest, b: &Forest)
    requires
        a.safe(),
        b.comes_of(a),
    ensures
        b.safe(),
        !b.poisoned,
{
    assert forall|c: Forest| #[trigger] c.comes_of(b) implies !c.poisoned by {
        moves_add_up(a, b, &c);
    }
}

/// Where the program is stratified, no goal depends on its own negation:
/// a forest that is not poisoned is safe, so that every query may be put
/// to it if it is consistent.
pub proof fn stratified_forests_are_safe(f: &Forest)
    requires
        f.context.stratified(),
        !f.poisoned,
    ensures
        f.safe(),
{
    assert forall|after: Forest| #[trigger] after.comes_of(f) implies !after.poisoned by {
        let trail = choose|trail: Seq<Forest>| #[trigger] after.came(f, trail);
        moves_extend(f, &after, trail, trail.len() - 1);
    }
}

/// What comes of a forest extends it.
pub proof fn moves_extend(a: &Forest, b: &Forest, trail: Seq<Forest>, i: int)
    requires
        b.came(a, trail),
        0 <= i < trail.len(),
    ensures
        trail[i].extends(a),
    decreases i,
{
    if i == 0 {
        extends_reflexive(a);
    } else {
        moves_extend(a, b, trail, i - 1);
        assert(move_at(trail, i - 1));
        extends_transitive(a, &trail[i - 1], &trail[i]);
    }
}

/// After a query of `goal` the forest has the table of the goal where the
/// query had it.
pub proof fn query_keeps_table(
    start: &Forest,
    mid: &Forest,
    last: &Forest,
    goal: AtomView,
    table: usize,
)
    requires
        last.wf(),
        mid.extends(start),
        last.extends(mid),
        table < mid.tables@.len(),
        mid.tables@[table as int].goal@ == canonical(goal),
        mid.has_made(start, canonical(goal), crate::term::variables(goal).len() as usize),
        table == mid.index_of(canonical(goal)),
        last.reached(mid, table),
    ensures
        last.extends(start),
        last.has_table(canonical(goal)),
        last.index_of(canonical(goal)) == table,
        last.queried(start, goal),
{
    extends_transitive(start, mid, last);
    assert(last.tables@[table as int].extends(&mid.tables@[table as int]));
    index_of_table(last, table);
}

/// A stream that passes over the answers from `from` up to `mid` comes to
/// rest where a stream from `mid` does.
pub proof fn rests_after_skips(f: &Forest, table: usize, from: usize, mid: usize)
    requires
        f.skips(table, from, mid),
    ensures
        f.rests(table, from) == f.rests(table, mid),
{
    skips_to_rest(f, table, mid);
    let to = f.rests(table, mid);
    assert forall|i: int| from <= i < to implies #[trigger] f.passes_over(table, i) by {}
    rests_from_skips(f, table, from, to);
}

/// A stream passes over the answers up to the place where it comes to
/// rest, and not over what is there.
pub proof fn skips_to_rest(f: &Forest, table: usize, from: usize)
    ensures
        f.skips(table, from, f.rests(table, from)),
        !f.passes_over(table, f.rests(table, from) as int),
    decreases f.tables@[table as int].answers@.len() - from,
{
    if f.passes_over(table, from as int) && from < usize::MAX {
        skips_to_rest(f, table, (from + 1) as usize);
        let to = f.rests(table, (from + 1) as usize);
        assert forall|i: int| from <= i < to implies #[trigger] f.passes_over(table, i) by {}
    } else {
        assert(f.tables@[table as int].answers@.len() == f.tables@[table as int].answers.len());
    }
}

/// The places of the answers that a stream has given, and the answers, are
/// the same in every extension of the forest.
pub proof fn places_persist(before: &Forest, after: &Forest, table: usize, from: usize, j: nat)
    requires
        after.extends(before),
        table < before.tables@.len(),
        forall|i: nat| i <= j ==> #[trigger] before.result(table, from, i) is Answer,
    ensures
        after.place(table, from, j) == before.place(table, from, j),
        after.result(table, from, j) == before.result(table, from, j),
    decreases j,
{
    assert(before.result(table, from, j) is Answer);
    if j == 0 {
        skips_to_rest(before, table, from);
        crate::solution::answer_persists(
            before,
            after,
            table,
            from,
            before.rests(table, from),
        );
    } else {
        let i = (j - 1) as nat;
        places_persist(before, after, table, from, i);
        let next = (before.place(table, from, i) + 1) as usize;
        skips_to_rest(before, table, next);
        crate::solution::answer_persists(
            before,
            after,
            table,
            next,
            before.rests(table, next),
        );
    }
}

/// The calls that were made for the answers of a stream are, in every
/// extension of the forest, the calls for the same answers with the same
/// hints.
pub proof fn calls_persist<F: Fn(SubstitutionResult<ConstrainedSubst>, bool) -> bool>(
    before: &Forest,
    after: &Forest,
    table: usize,
    from: usize,
    k: nat,
    f: F,
)
    requires
        after.extends(before),
        table < before.tables@.len(),
        forall|j: nat| j <= k ==> #[trigger] before.result(table, from, j) is Answer,
        forall|j: nat| j < k ==> #[trigger] before.called(table, from, j, f, true),
    ensures
        forall|j: nat|
            j <= k ==> (#[trigger] after.place(table, from, j)) == before.place(table, from, j),
        forall|j: nat|
            j <= k ==> (#[trigger] after.result(table, from, j)) == before.result(table, from, j),
        forall|j: nat| j < k ==> #[trigger] after.called(table, from, j, f, true),
{
    assert forall|j: nat| j <= k implies (#[trigger] after.place(table, from, j)) == before.place(
        table,
        from,
        j,
    ) by {
        places_persist(before, after, table, from, j);
    }
    assert forall|j: nat| j <= k implies (#[trigger] after.result(table, from, j)) == before.result(
        table,
        from,
        j,
    ) by {
        places_persist(before, after, table, from, j);
    }
    assert forall|j: nat| j < k implies #[trigger] after.called(table, from, j, f, true) by {
        assert(before.called(table, from, j, f, true));
        assert(after.result(table, from, j) == before.result(table, from, j));
        assert(after.result(table, from, j + 1) == before.result(table, from, j + 1));
        assert(before.result(table, from, j + 1) is Answer);
        let s = choose|s: SubstitutionResult<ConstrainedSubst>|
            s@ == before.handed(table, from, j) && #[trigger] f.ensures(
                (s, before.hint(table, from, j)),
                true,
            );
        assert(f.ensures((s, after.hint(table, from, j)), true));
    }
}

/// Tells `f` that the search has floundered, with the hint that more may
/// follow, for as long as `f` says to go on and the places of the stream
/// can be counted, from the place `at` on. Says what `f` said last.
fn tell_floundered<F: Fn(SubstitutionResult<ConstrainedSubst>, bool) -> bool>(
    f: F,
    at: usize,
    Ghost(forest): Ghost<Forest>,
    Ghost(table): Ghost<usize>,
    Ghost(from): Ghost<usize>,
    Ghost(a): Ghost<nat>,
) -> (r: bool)
    requires
        forall|s: SubstitutionResult<ConstrainedSubst>, more: bool| f.requires((s, more)),
        !forest.poisoned,
        forest.place(table, from, a) == at,
        forest.result(table, from, a) is Floundered,
        forall|j: nat| j < a ==> (#[trigger] forest.result(table, from, j)) is Answer,
        forall|j: nat| j < a ==> #[trigger] forest.called(table, from, j, f, true),
    ensures
        exists|n: nat, go: bool| #[trigger]
            forest.handed_out(table, from, f, n, go, r) && forest.answered(table, from, n, a) && !(
            forest.result(table, from, n) is QuantumExceeded),
{
    let mut at = at;
    let ghost mut k: nat = a;
    loop
        invariant
            forall|s: SubstitutionResult<ConstrainedSubst>, more: bool| f.requires((s, more)),
            !forest.poisoned,
            forest.tables@[table as int].state == TableState::Floundered,
            at >= forest.tables@[table as int].answers@.len(),
            a <= k,
            forest.place(table, from, k) == at,
            forall|j: nat| j < a ==> (#[trigger] forest.result(table, from, j)) is Answer,
            forall|j: nat| a <= j <= k ==> (#[trigger] forest.result(table, from, j)) is Floundered,
            forall|j: nat| j < k ==> #[trigger] forest.called(table, from, j, f, true),
        decreases usize::MAX - at,
    {
        let go = f(SubstitutionResult::Floundered, true);
        proof {
            assert(forest.result(table, from, k) is Floundered);
            assert(forest.called(table, from, k, f, go));
            assert(forest.answered(table, from, k + 1, a));
        }
        if !go {
            proof {
                assert(forest.handed_out(table, from, f, k + 1, false, false));
                skips_to_rest(&forest, table, (at + 1) as usize);
            }
            return false;
        }
        if at == usize::MAX {
            proof {
                assert(forest.stopped(table, from, k + 1));
                assert(forest.handed_out(table, from, f, k + 1, true, true));
                skips_to_rest(&forest, table, (at + 1) as usize);
            }
            return true;
        }
        at = at + 1;
        proof {
            k = k + 1;
            assert(!forest.passes_over(table, at as int));
            assert(forest.rests(table, at) == at);
            assert(forest.place(table, from, k) == at);
        }
    }
}

/// Hands every result that the cursor still gives to `f`, in the order of
/// the table, each with a hint that says whether a look ahead found
/// anything but the end of the answers, or says that a goal was found to
/// depend on its own negation.
///
/// The forest is left as the looks of the query have made it, one before
/// the first call of `f` and one after each answer. The query fails
/// exactly if the forest is poisoned then. Otherwise it says `false`
/// exactly if the last call of `f` said to stop, and what `f` was handed
/// and how often is as `Forest::handed_out` says of the forest.
pub fn try_each_answer<F: Fn(SubstitutionResult<ConstrainedSubst>, bool) -> bool>(
    answers: ForestSolver<'_>,
    f: F,
) -> (r: Result<bool, NegativeCycle>)
    requires
        answers.wf(),
        forall|s: SubstitutionResult<ConstrainedSubst>, more: bool| f.requires((s, more)),
    ensures
        final(answers.forest).wf(),
        final(answers.forest).extends(old(answers.forest)),
        final(answers.forest).reached(old(answers.forest), answers.table),
        r is Err <==> final(answers.forest).poisoned,
        r matches Ok(b) ==> final(answers.forest).went(
            old(answers.forest),
            answers.table,
            answers.answer,
            f,
            b,
        ),
{
    let mut cur = answers;
    let ghost table = cur.table;
    let ghost from = cur.answer;
    let ghost mut k: nat = 0;
    let first = cur.try_peek_answer(always);
    proof {
        look_is_a_search(old(answers.forest), &*cur.forest, table, from);
    }
    let mut current = match first {
        Ok(a) => a,
        Err(e) => {
            return Err(e);
        },
    };
    let ghost mut stages: Seq<Forest> = seq![*cur.forest];
    loop
        invariant
            stages.len() == k + 1,
            cur.forest.staged(old(answers.forest), table, from, stages),
            cur.wf(),
            !cur.forest.poisoned,
            cur.table == table,
            table == answers.table,
            from == answers.answer,
            cur.forest.extends(old(answers.forest)),
            cur.forest.reached(old(answers.forest), table),
            forall|s: SubstitutionResult<ConstrainedSubst>, more: bool| f.requires((s, more)),
            *final(cur.forest) == *final(answers.forest),
            cur.answer == cur.forest.place(table, from, k),
            current@ == cur.forest.result(table, from, k),
            current is QuantumExceeded ==> cur.forest.overran(old(answers.forest), table),
            forall|j: nat| j < k ==> (#[trigger] cur.forest.result(table, from, j)) is Answer,
            forall|j: nat| j < k ==> #[trigger] cur.forest.called(table, from, j, f, true),
        decreases usize::MAX - cur.answer,
    {
        let ghost before = *cur.forest;
        let ghost at = cur.answer;
        let subst = match current {
            AnswerResult::Answer(answer) => {
                if !answer.ambiguous {
                    SubstitutionResult::Definite(constrained_subst_from_answer(answer))
                } else {
                    SubstitutionResult::Ambiguous(constrained_subst_from_answer(answer))
                }
            },
            AnswerResult::Floundered => {
                let r = tell_floundered(
                    f,
                    cur.answer,
                    Ghost(before),
                    Ghost(table),
                    Ghost(from),
                    Ghost(k),
                );
                proof {
                    let (n, go) = choose|n: nat, go: bool| #[trigger]
                        before.handed_out(table, from, f, n, go, r) && before.answered(
                            table,
                            from,
                            n,
                            k,
                        ) && !(before.result(table, from, n) is QuantumExceeded);
                    assert(before.handed_out(table, from, f, n, go, r));
                    assert(before.staged(old(answers.forest), table, from, stages));
                }
                return Ok(r);
            },
            AnswerResult::NoMoreSolutions => {
                proof {
                    assert(before.handed_out(table, from, f, k, true, true));
                    assert(before.answered(table, from, k, k));
                    assert(before.staged(old(answers.forest), table, from, stages));
                }
                return Ok(true);
            },
            AnswerResult::QuantumExceeded => {
                proof {
                    assert(before.handed_out(table, from, f, k, true, true));
                    assert(before.answered(table, from, k, k));
                    assert(before.staged(old(answers.forest), table, from, stages));
                }
                return Ok(true);
            },
        };
        assert(at < before.tables@[table as int].answers.len());
        cur.answer = cur.answer + 1;
        let next = cur.try_peek_answer(always);
        proof {
            let now = &*cur.forest;
            extends_transitive(old(answers.forest), &before, now);
            look_is_a_search(&before, now, table, (at + 1) as usize);
            crate::logic::search_resumes(old(answers.forest), &before, now, table);
        }
        let look = match next {
            Ok(a) => a,
            Err(e) => {
                return Err(e);
            },
        };
        let more = !look.is_no_more_solutions();
        proof {
            let now = &*cur.forest;
            calls_persist(&before, now, table, from, k, f);
            stage_on(old(answers.forest), &before, now, table, from, k, stages);
            stages = stages.push(*now);
            assert(now.place(table, from, k) == at);
            assert(now.place(table, from, k + 1) == cur.answer);
            assert(subst@ == now.handed(table, from, k));
            assert(more == now.hint(table, from, k));
            if look is QuantumExceeded {
                crate::logic::overrun_adds(old(answers.forest), &before, now, table);
            }
        }
        let ghost given = subst;
        let go = f(subst, more);
        proof {
            let now = &*cur.forest;
            assert(f.ensures((given, now.hint(table, from, k)), go));
            assert(now.called(table, from, k, f, go));
        }
        if !go {
            proof {
                assert(cur.forest.handed_out(table, from, f, k + 1, false, false));
                assert(cur.forest.answered(table, from, k + 1, k + 1));
                assert(cur.forest.staged(old(answers.forest), table, from, stages));
            }
            return Ok(false);
        }
        proof {
            k = k + 1;
        }
        current = look;
    }
}

/// Hands every result that the cursor still gives to `f`, in the order of
/// the table: each answer, and the word that the search has floundered for
/// as long as `f` goes on after it. With each goes a hint that says
/// whether a look ahead found anything but the end of the answers. Says
/// `false` when `f` says to stop, and `true` when the answers have come to
/// an end.
///
/// The forest is left as the looks of the query have made it, one before
/// the first call of `f` and one after each answer. The query says `false`
/// exactly if the last call of `f` said to stop, and what `f` was handed
/// and how often is as `Forest::handed_out` says of the forest.
///
/// # Panics
///
/// As `ForestSolver::peek_answer` does; `try_each_answer` reports what
/// this function would panic at.
pub fn each_answer<F: Fn(SubstitutionResult<ConstrainedSubst>, bool) -> bool>(
    answers: ForestSolver<'_>,
    f: F,
) -> (r: bool)
    requires
        answers.sound(),
        forall|s: SubstitutionResult<ConstrainedSubst>, more: bool| f.requires((s, more)),
    ensures
        final(answers.forest).sound(),
        final(answers.forest).extends(old(answers.forest)),
        final(answers.forest).reached(old(answers.forest), answers.table),
        final(answers.forest).went(old(answers.forest), answers.table, answers.answer, f, r),
{
    let mut cur = answers;
    let ghost table = cur.table;
    let again = ForestSolver { forest: &mut *cur.forest, table: cur.table, answer: cur.answer };
    let r = try_each_answer(again, f);
    proof {
        search_is_moves(old(answers.forest), &*cur.forest, table);
        safe_stays(old(answers.forest), &*cur.forest);
    }
    match r {
        Ok(b) => b,
        Err(_) => vstd::pervasive::unreached(),
    }
}

impl<'me> ForestSolver<'me> {
    /// What may be asked of a cursor: its forest is consistent and holds
    /// its table.
    pub open spec fn wf(&self) -> bool {
        &&& self.forest.wf()
        &&& self.table < self.forest.tables@.len()
    }

    /// What may be asked of a cursor whose pulls cannot fail: besides,
    /// no query finds a goal that depends on its own negation.
    pub open spec fn sound(&self) -> bool {
        &&& self.wf()
        &&& self.forest.safe()
    }

    /// Whether `test` is known to hold of the bindings of some answer
    /// that is still to come.
    pub open spec fn future<F: Fn(&Vec<Term>) -> bool>(&self, test: F) -> bool {
        self.forest.any_future(self.table, self.answer, test)
    }

    /// Whether `test` is known to fail of the bindings of every answer
    /// that is still to come.
    pub open spec fn no_future<F: Fn(&Vec<Term>) -> bool>(&self, test: F) -> bool {
        self.forest.none_future(self.table, self.answer, test)
    }

    /// Gives the next answer without moving on, or says that a goal was
    /// found to depend on its own negation. Answers that depend on
    /// assumptions are passed over. The search goes on for as long as
    /// `should_continue` says so after each step.
    ///
    /// The forest is left as the pulls of the look have made it. The look
    /// fails exactly if the forest is poisoned then. Otherwise the result
    /// is what the forest decides for the place where the cursor comes to
    /// stand; it is `QuantumExceeded` exactly if the forest does not
    /// decide it, and then `should_continue` has said no, or the look has
    /// taken more pulls than can be counted.
    pub fn try_peek_answer(&mut self, should_continue: impl Fn() -> bool) -> (r: Result<
        AnswerResult,
        NegativeCycle,
    >)
        requires
            old(self).wf(),
            should_continue.requires(()),
        ensures
            final(self).wf(),
            final(self).table == old(self).table,
            final(self).forest.extends(&*old(self).forest),
            final(self).forest.looked(&*old(self).forest, old(self).table, old(self).answer),
            r is Err <==> final(self).forest.poisoned,
            r matches Ok(a) ==> final(self).forest.peeks(
                &*old(self).forest,
                old(self).table,
                old(self).answer,
                final(self).answer,
                a@,
            ),
            r matches Ok(a) ==> (a is QuantumExceeded ==> should_continue.ensures((), false)
                || final(self).forest.overran(&*old(self).forest, old(self).table)),
            *final(final(self).forest) == *final(old(self).forest),
    {
        if self.forest.is_poisoned() {
            proof {
                extends_reflexive(&*self.forest);
                assert(self.forest.sought(
                    &*old(self).forest,
                    self.table,
                    self.answer,
                    seq![*old(self).forest],
                ));
            }
            return Err(NegativeCycle);
        }
        let mut left: usize = usize::MAX;
        let ghost mut trail: Seq<Forest> = seq![*old(self).forest];
        proof {
            extends_reflexive(&*self.forest);
        }
        loop
            invariant
                self.wf(),
                !self.forest.poisoned,
                !old(self).forest.poisoned,
                should_continue.requires(()),
                self.table == old(self).table,
                self.forest.extends(&*old(self).forest),
                self.forest.sought(&*old(self).forest, old(self).table, old(self).answer, trail),
                self.forest.skips(old(self).table, old(self).answer, self.answer),
                trail.len() - 1 >= usize::MAX - left,
                *final(self.forest) == *final(old(self).forest),
            decreases left, usize::MAX - self.answer,
        {
            let ghost before = *self.forest;
            let pulled = self.forest.root_answer(self.table, self.answer);
            proof {
                extends_transitive(&*old(self).forest, &before, &*self.forest);
                skips_persist(
                    &before,
                    &*self.forest,
                    self.table,
                    old(self).answer,
                    self.answer,
                );
                if before.decided(self.table, self.answer) is None {
                    assert(!before.passes_over(self.table, self.answer as int));
                    rests_from_skips(&before, self.table, old(self).answer, self.answer);
                    assert(!before.settled(self.table, before.rests(self.table, old(self).answer)));
                    assert(self.forest.pulled(&before, self.table));
                    let ghost so_far = trail;
                    trail = trail.push(*self.forest);
                    assert forall|i: int| 0 <= i < trail.len() - 1 implies #[trigger] crate::logic::pull_at(
                        trail,
                        self.table,
                        i,
                    ) by {
                        if i + 1 < so_far.len() {
                            assert(crate::logic::pull_at(so_far, self.table, i));
                            assert(trail[i] == so_far[i]);
                            assert(trail[i + 1] == so_far[i + 1]);
                        } else {
                            assert(trail[i] == before);
                            assert(trail[i + 1] == *self.forest);
                        }
                    }
                    assert forall|i: int| #![trigger trail[i]] 0 <= i < trail.len() - 1 implies !trail[i].settled(
                        self.table,
                        trail[i].rests(self.table, old(self).answer),
                    ) by {
                        if i + 1 < so_far.len() {
                            assert(trail[i] == so_far[i]);
                        } else {
                            assert(trail[i] == before);
                        }
                    }
                    assert(self.forest.sought(
                        &*old(self).forest,
                        self.table,
                        old(self).answer,
                        trail,
                    ));
                }
                if trail.len() == 1 {
                    assert(*self.forest == *old(self).forest);
                } else {
                    assert(!trail[0].settled(self.table, trail[0].rests(self.table, old(self).answer)));
                }
            }
            if self.forest.is_poisoned() {
                return Err(NegativeCycle);
            }
            proof {
                if !(pulled is Err && pulled->Err_0 == RootSearchFail::InvalidAnswer) {
                    assert(!self.forest.passes_over(self.table, self.answer as int));
                    rests_from_skips(&*self.forest, self.table, old(self).answer, self.answer);
                }
            }
            match pulled {
                Ok(answer) => {
                    return Ok(AnswerResult::Answer(answer));
                },
                Err(RootSearchFail::InvalidAnswer) => {
                    assert(self.forest.decided(self.table, self.answer) == Some(
                        Err::<crate::context::CompleteAnswerView, RootSearchFail>(
                            RootSearchFail::InvalidAnswer,
                        ),
                    ));
                    assert(self.answer < self.forest.tables@[self.table as int].answers.len());
                    self.answer = self.answer + 1;
                },
                Err(RootSearchFail::Floundered) => {
                    return Ok(AnswerResult::Floundered);
                },
                Err(RootSearchFail::NoMoreSolutions) => {
                    return Ok(AnswerResult::NoMoreSolutions);
                },
                Err(RootSearchFail::QuantumExceeded) => {
                    if !should_continue() {
                        return Ok(AnswerResult::QuantumExceeded);
                    }
                    if left == 0 {
                        proof {
                            assert(self.forest.searched(
                                &*old(self).forest,
                                self.table,
                                trail,
                            ));
                        }
                        return Ok(AnswerResult::QuantumExceeded);
                    }
                    left = left - 1;
                },
                Err(RootSearchFail::NegativeCycle) => {
                    return Err(NegativeCycle);
                },
            }
        }
    }

    /// Gives the next answer without moving on. Answers that depend on
    /// assumptions are passed over. The search goes on for as long as
    /// `should_continue` says so after each step.
    ///
    /// The result is what the forest decides for the place where the
    /// cursor comes to stand; it is `QuantumExceeded` exactly if the forest
    /// does not decide it, and then `should_continue` has said no, or the
    /// look has taken more pulls than can be counted. Where the forest
    /// decided the result from the start, nothing changes.
    ///
    /// # Panics
    ///
    /// A cursor whose pulls cannot fail finds no goal that depends on its
    /// own negation. The function panics if it is called against its
    /// contract and finds one; `try_peek_answer` reports it.
    pub fn peek_answer(&mut self, should_continue: impl Fn() -> bool) -> (r: AnswerResult)
        requires
            old(self).sound(),
            should_continue.requires(()),
        ensures
            final(self).sound(),
            final(self).table == old(self).table,
            final(self).forest.peeks(
                &*old(self).forest,
                old(self).table,
                old(self).answer,
                final(self).answer,
                r@,
            ),
            r is QuantumExceeded ==> should_continue.ensures((), false)
                || final(self).forest.overran(&*old(self).forest, old(self).table),
            *final(final(self).forest) == *final(old(self).forest),
    {
        let r = self.try_peek_answer(should_continue);
        proof {
            look_is_a_search(&*old(self).forest, &*self.forest, self.table, old(self).answer);
            search_is_moves(&*old(self).forest, &*self.forest, self.table);
            safe_stays(&*old(self).forest, &*self.forest);
        }
        match r {
            Ok(a) => a,
            Err(_) => vstd::pervasive::unreached(),
        }
    }

    /// Gives the next answer and moves on, whatever the result was, or
    /// says that a goal was found to depend on its own negation. The
    /// result is that of `try_peek_answer`; the cursor then stands one
    /// past the place where it had come to rest.
    pub fn try_next_answer(&mut self, should_continue: impl Fn() -> bool) -> (r: Result<
        AnswerResult,
        NegativeCycle,
    >)
        requires
            old(self).wf(),
            should_continue.requires(()),
        ensures
            final(self).wf(),
            final(self).table == old(self).table,
            final(self).forest.extends(&*old(self).forest),
            final(self).forest.looked(&*old(self).forest, old(self).table, old(self).answer),
            r is Err <==> final(self).forest.poisoned,
            r matches Ok(a) ==> final(self).forest.pulls(
                &*old(self).forest,
                old(self).table,
                old(self).answer,
                final(self).answer,
                a@,
            ),
            r matches Ok(a) ==> (a is QuantumExceeded ==> should_continue.ensures((), false)
                || final(self).forest.overran(&*old(self).forest, old(self).table)),
            *final(final(self).forest) == *final(old(self).forest),
    {
        let answer = self.try_peek_answer(should_continue);
        if self.answer < usize::MAX {
            self.answer = self.answer + 1;
        }
        answer
    }

    /// Gives the next answer and moves on, whatever the result was. The
    /// result is that of `peek_answer`; the cursor then stands one past the
    /// place where it had come to rest.
    ///
    /// # Panics
    ///
    /// As `peek_answer` does; `try_next_answer` reports what this function
    /// would panic at.
    pub fn next_answer(&mut self, should_continue: impl Fn() -> bool) -> (r: AnswerResult)
        requires
            old(self).sound(),
            should_continue.requires(()),
        ensures
            final(self).sound(),
            final(self).table == old(self).table,
            final(self).forest.pulls(
                &*old(self).forest,
                old(self).table,
                old(self).answer,
                final(self).answer,
                r@,
            ),
            r is QuantumExceeded ==> should_continue.ensures((), false)
                || final(self).forest.overran(&*old(self).forest, old(self).table),
            *final(final(self).forest) == *final(old(self).forest),
    {
        let answer = self.peek_answer(should_continue);
        if self.answer < usize::MAX {
            self.answer = self.answer + 1;
        }
        answer
    }

    /// Whether `test` holds of the bindings of an answer that is still to
    /// come: of an answer that is recorded at the cursor or after it and
    /// depends on no assumption, or of a strand that has not ended.
    /// Nothing is searched and nothing changes.
    pub fn any_future_answer(&self, test: impl Fn(&Vec<Term>) -> bool) -> (r: bool)
        requires
            self.wf(),
            forall|s: &Vec<Term>| test.requires((s,)),
        ensures
            r ==> self.future(test),
            !r ==> self.no_future(test),
    {
        self.forest.any_future_answer(self.table, self.answer, test)
    }
}


/// A goal has one table only.
pub proof fn index_of_table(f: &Forest, t: usize)
    requires
        f.wf(),
        t < f.tables@.len(),
    ensures
        f.index_of(f.tables@[t as int].goal@) == t,
{
    let goal = f.tables@[t as int].goal@;
    let u = f.index_of(goal);
    assert(u < f.tables@.len() && f.tables@[u as int].goal@ == goal);
    if u < t {
        assert(f.tables@[u as int].goal@ != f.tables@[t as int].goal@);
    } else if t < u {
        assert(f.tables@[t as int].goal@ != f.tables@[u as int].goal@);
    }
}

/// A stream that passes over the answers from `from` up to `to`, and not
/// over the one at `to`, comes to rest at `to`.
pub proof fn rests_from_skips(f: &Forest, table: usize, from: usize, to: usize)
    requires
        f.skips(table, from, to),
        !f.passes_over(table, to as int),
    ensures
        f.rests(table, from) == to,
    decreases to - from,
{
    if from < to {
        assert(f.passes_over(table, from as int));
        assert forall|i: int| from + 1 <= i < to implies #[trigger] f.passes_over(table, i) by {}
        rests_from_skips(f, table, (from + 1) as usize, to);
    }
}

/// Answers that a stream passes over are passed over in every extension of
/// the forest.
pub proof fn skips_persist(before: &Forest, after: &Forest, table: usize, from: usize, to: usize)
    requires
        after.extends(before),
        table < before.tables@.len(),
        before.skips(table, from, to),
    ensures
        after.skips(table, from, to),
{
    let a = before.tables@[table as int];
    let b = after.tables@[table as int];
    assert(b.extends(&a));
    assert(a.answers_view().len() == a.answers@.len());
    assert(b.answers_view().len() == b.answers@.len());
    assert forall|i: int| from <= i < to implies #[trigger] after.passes_over(table, i) by {
        assert(before.passes_over(table, i));
        assert(a.answers_view()[i] == b.answers_view()[i]);
    }
}

/// A forest extends itself.
pub proof fn extends_reflexive(f: &Forest)
    ensures
        f.extends(f),
{
}

/// What extends an extension of a forest extends the forest.
pub proof fn extends_transitive(a: &Forest, b: &Forest, c: &Forest)
    requires
        b.extends(a),
        c.extends(b),
    ensures
        c.extends(a),
{
    assert forall|t: int| 0 <= t < a.tables@.len() implies (#[trigger] c.tables@[t]).extends(
        &a.tables@[t],
    ) by {
        assert(b.tables@[t].extends(&a.tables@[t]));
        assert(c.tables@[t].extends(&b.tables@[t]));
    }
}

} // verus!

