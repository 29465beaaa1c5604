//! The chain of tables whose goals are under resolution, the outermost
//! first. A goal that is asked for while its table is on the stack closes a
//! cycle.

use vstd::prelude::*;

verus! {

/// One table under resolution.
#[derive(Debug)]
pub struct StackEntry {
    /// The index of the table in the forest.
    pub table: usize,
    /// The least depth of a table on which a strand of this table, or of a
    /// table that was resolved above it, waits. The entry's own depth when
    /// there is none.
    pub cyclic_min: usize,
    /// Whether an answer was recorded anywhere since the entry last
    /// started over.
    pub progress: bool,
    /// The tables that were left unfinished above this entry because they
    /// wait for it or for a table below it.
    pub members: Vec<usize>,
    /// Whether the literal that asked for the table is a negation.
    pub negated: bool,
}

impl StackEntry {
    /// What ties the entry to the others: its table, the depth it waits
    /// for, and whether it was asked for under a negation.
    pub open spec fn link(&self) -> (usize, usize, bool) {
        (self.table, self.cyclic_min, self.negated)
    }
}

/// How a goal that is asked for again while it is under resolution is to be
/// treated.
#[derive(Clone, Copy, Debug, PartialEq, Eq, Structural)]
pub enum CycleKind {
    /// Every goal on the cycle is coinductive: the goal is assumed, and the
    /// assumption is recorded with the answer that rests on it.
    Coinductive,
    /// The goal is asked for under a negation: the program is at fault.
    Negative,
    /// The strand that asks has to wait for answers of the goal.
    Deferred,
}

/// The classification of a cycle from what is known of it: whether the
/// goal is asked for under a negation, whether the strand that asks is
/// there to confirm an assumption, and whether every table on the cycle is
/// coinductive.
pub open spec fn cycle_kind(negated: bool, confirming: bool, coinductive: bool) -> CycleKind {
    if negated {
        CycleKind::Negative
    } else if coinductive && !confirming {
        CycleKind::Coinductive
    } else {
        CycleKind::Deferred
    }
}

/// The tables under resolution. Depth zero is the goal that was asked for
/// from outside.
#[derive(Debug)]
pub struct Stack {
    pub entries: Vec<StackEntry>,
}

impl Stack {
    /// The number of entries.
    pub open spec fn depth(&self) -> nat {
        self.entries@.len()
    }

    /// The table at each depth.
    pub open spec fn tables(&self) -> Seq<usize> {
        Seq::new(self.entries@.len(), |d: int| self.entries@[d].table)
    }

    /// The links of the entries, the outermost first.
    pub open spec fn links(&self) -> Seq<(usize, usize, bool)> {
        Seq::new(self.entries@.len(), |d: int| self.entries@[d].link())
    }

    /// What each entry has noted: whether an answer was recorded since it
    /// started over, and the tables that were left unfinished above it.
    pub open spec fn marks(&self) -> Seq<(bool, Seq<usize>)> {
        Seq::new(self.entries@.len(), |d: int| (self.entries@[d].progress, self.entries@[d].members@))
    }

    /// Whether `table` is under resolution.
    pub open spec fn holds(&self, table: usize) -> bool {
        exists|d: int| 0 <= d < self.entries@.len() && (#[trigger] self.entries@[d]).table == table
    }

    /// The depth at which `table` is under resolution.
    pub open spec fn depth_of(&self, table: usize) -> int {
        choose|d: int| 0 <= d < self.entries@.len() && (#[trigger] self.entries@[d]).table == table
    }

    /// No table occurs twice.
    pub open spec fn distinct(&self) -> bool {
        forall|i: int, j: int|
            0 <= i < j < self.entries@.len() ==> (#[trigger] self.entries@[i]).table != (
            #[trigger] self.entries@[j]).table
    }

    pub fn new() -> (s: Stack)
        ensures
            s.depth() == 0,
            s.distinct(),
    {
        Stack { entries: Vec::new() }
    }

    pub fn len(&self) -> (n: usize)
        ensures
            n == self.depth(),
    {
        self.entries.len()
    }

    /// The depth at which `table` is under resolution, if it is.
    pub fn is_active(&self, table: usize) -> (r: Option<usize>)
        ensures
            self.distinct() ==> (r matches Some(d) ==> d == self.depth_of(table)),
            r is Some <==> self.holds(table),
            r matches Some(d) ==> d < self.depth() && self.entries@[d as int].table == table,
    {
        let mut d: usize = 0;
        while d < self.entries.len()
            invariant
                d <= self.entries.len(),
                forall|k: int| 0 <= k < d ==> (#[trigger] self.entries@[k]).table != table,
            decreases self.entries.len() - d,
        {
            if self.entries[d].table == table {
                proof {
                    if self.distinct() {
                        let k = self.depth_of(table);
                        if k < d {
                            assert(self.entries@[k].table != self.entries@[d as int].table);
                        } else if d < k {
                            assert(self.entries@[d as int].table != self.entries@[k].table);
                        }
                    }
                }
                return Some(d);
            }
            d += 1;
        }
        None
    }

    /// Puts a table that is not under resolution on top.
    pub fn push(&mut self, table: usize, negated: bool)
        requires
            old(self).distinct(),
            !old(self).holds(table),
        ensures
            final(self).distinct(),
            final(self).tables() == old(self).tables().push(table),
            final(self).links() == old(self).links().push(
                (table, old(self).depth() as usize, negated),
            ),
            final(self).marks() == old(self).marks().push((false, Seq::<usize>::empty())),
            final(self).depth() == old(self).depth() + 1,
            forall|d: int| 0 <= d < old(self).depth() ==> final(self).entries@[d] == old(self).entries@[d],
    {
        let depth = self.entries.len();
        self.entries.push(
            StackEntry { table, cyclic_min: depth, progress: false, members: Vec::new(), negated },
        );
        assert(self.tables() =~= old(self).tables().push(table));
        assert(self.links() =~= old(self).links().push((table, depth, negated)));
        assert(self.marks() =~= old(self).marks().push((false, Seq::<usize>::empty())));
        assert forall|i: int, j: int| 0 <= i < j < self.entries@.len() implies (
        #[trigger] self.entries@[i]).table != (#[trigger] self.entries@[j]).table by {
            if j == depth {
                assert(self.entries@[i] == old(self).entries@[i]);
            }
        }
    }

    /// Takes the top entry off.
    pub fn pop(&mut self) -> (e: Option<StackEntry>)
        requires
            old(self).distinct(),
        ensures
            final(self).distinct(),
            old(self).depth() == 0 ==> e is None && final(self).entries@ == old(self).entries@,
            old(self).depth() > 0 ==> e == Some(old(self).entries@.last()) && final(self).entries@
                == old(self).entries@.drop_last(),
            final(self).tables() == if old(self).depth() == 0 {
                old(self).tables()
            } else {
                old(self).tables().drop_last()
            },
            final(self).links() == if old(self).depth() == 0 {
                old(self).links()
            } else {
                old(self).links().drop_last()
            },
            final(self).marks() == if old(self).depth() == 0 {
                old(self).marks()
            } else {
                old(self).marks().drop_last()
            },
    {
        let e = self.entries.pop();
        assert(self.marks() =~= if old(self).depth() == 0 {
            old(self).marks()
        } else {
            old(self).marks().drop_last()
        });
        assert(self.links() =~= if old(self).depth() == 0 {
            old(self).links()
        } else {
            old(self).links().drop_last()
        });
        assert(self.tables() =~= if old(self).depth() == 0 {
            old(self).tables()
        } else {
            old(self).tables().drop_last()
        });
        e
    }

    /// Empties the stack.
    pub fn clear(&mut self)
        ensures
            final(self).depth() == 0,
            final(self).distinct(),
            final(self).links() == Seq::<(usize, usize, bool)>::empty(),
            final(self).marks() == Seq::<(bool, Seq<usize>)>::empty(),
    {
        self.entries.clear();
        assert(self.marks() =~= Seq::<(bool, Seq<usize>)>::empty());
        assert(self.links() =~= Seq::<(usize, usize, bool)>::empty());
    }

    /// Notes that the entry at depth `d` waits for the table at `depth`.
    pub fn lower_min(&mut self, d: usize, depth: usize)
        requires
            d < old(self).depth(),
        ensures
            final(self).marks() == old(self).marks(),
            final(self).tables() == old(self).tables(),
            final(self).depth() == old(self).depth(),
            old(self).distinct() ==> final(self).distinct(),
            final(self).links() == old(self).links().update(
                d as int,
                (
                    old(self).entries@[d as int].table,
                    if depth < old(self).entries@[d as int].cyclic_min {
                        depth
                    } else {
                        old(self).entries@[d as int].cyclic_min
                    },
                    old(self).entries@[d as int].negated,
                ),
            ),
    {
        if depth < self.entries[d].cyclic_min {
            self.entries[d].cyclic_min = depth;
        }
        assert(self.marks() =~= old(self).marks());
        assert(self.tables() =~= old(self).tables());
        assert(self.links() =~= old(self).links().update(
            d as int,
            (
                old(self).entries@[d as int].table,
                if depth < old(self).entries@[d as int].cyclic_min {
                    depth
                } else {
                    old(self).entries@[d as int].cyclic_min
                },
                old(self).entries@[d as int].negated,
            ),
        ));
        assert(old(self).distinct() ==> self.distinct()) by {
            assert forall|i: int| 0 <= i < self.entries@.len() implies (
            #[trigger] self.entries@[i]).table == old(self).entries@[i].table by {}
        }
    }

    /// Lets the entry at depth `d` start over as the first of its cycle.
    pub fn restart(&mut self, d: usize)
        requires
            d < old(self).depth(),
        ensures
            final(self).marks() == old(self).marks().update(
                d as int,
                (false, Seq::<usize>::empty()),
            ),
            final(self).tables() == old(self).tables(),
            final(self).depth() == old(self).depth(),
            old(self).distinct() ==> final(self).distinct(),
            final(self).links() == old(self).links().update(
                d as int,
                (old(self).entries@[d as int].table, d, old(self).entries@[d as int].negated),
            ),
    {
        self.entries[d].progress = false;
        self.entries[d].cyclic_min = d;
        self.entries[d].members.clear();
        assert(self.marks() =~= old(self).marks().update(d as int, (false, Seq::<usize>::empty())));
        assert(self.tables() =~= old(self).tables());
        assert(self.links() =~= old(self).links().update(
            d as int,
            (old(self).entries@[d as int].table, d, old(self).entries@[d as int].negated),
        ));
        assert(old(self).distinct() ==> self.distinct()) by {
            assert forall|i: int| 0 <= i < self.entries@.len() implies (
            #[trigger] self.entries@[i]).table == old(self).entries@[i].table by {}
        }
    }

    /// Hands what a table left unfinished at depth `d + 1` down to the
    /// entry at depth `d`: the table itself, the tables left unfinished
    /// above it, and the depth for which they wait.
    pub fn inherit(&mut self, d: usize, left: StackEntry)
        requires
            d < old(self).depth(),
        ensures
            final(self).marks() == old(self).marks().update(
                d as int,
                (
                    old(self).marks()[d as int].0,
                    old(self).marks()[d as int].1 + seq![left.table] + left.members@,
                ),
            ),
            final(self).tables() == old(self).tables(),
            final(self).depth() == old(self).depth(),
            old(self).distinct() ==> final(self).distinct(),
            final(self).links() == old(self).links().update(
                d as int,
                (
                    old(self).entries@[d as int].table,
                    if left.cyclic_min < old(self).entries@[d as int].cyclic_min {
                        left.cyclic_min
                    } else {
                        old(self).entries@[d as int].cyclic_min
                    },
                    old(self).entries@[d as int].negated,
                ),
            ),
    {
        let ghost want = old(self).links().update(
            d as int,
            (
                old(self).entries@[d as int].table,
                if left.cyclic_min < old(self).entries@[d as int].cyclic_min {
                    left.cyclic_min
                } else {
                    old(self).entries@[d as int].cyclic_min
                },
                old(self).entries@[d as int].negated,
            ),
        );
        if left.cyclic_min < self.entries[d].cyclic_min {
            self.entries[d].cyclic_min = left.cyclic_min;
        }
        self.entries[d].members.push(left.table);
        assert(self.links() =~= want);
        let ghost was = old(self).marks();
        assert(self.entries@[d as int].members@ =~= was[d as int].1 + seq![left.table]
            + left.members@.take(0));
        assert(self.marks() =~= was.update(
            d as int,
            (was[d as int].0, was[d as int].1 + seq![left.table] + left.members@.take(0)),
        ));
        let mut i: usize = 0;
        while i < left.members.len()
            invariant
                i <= left.members.len(),
                d < self.entries.len(),
                self.entries.len() == old(self).entries.len(),
                was == old(self).marks(),
                self.marks() == was.update(
                    d as int,
                    (
                        was[d as int].0,
                        was[d as int].1 + seq![left.table] + left.members@.take(i as int),
                    ),
                ),
                self.links() == want,
                forall|k: int|
                    0 <= k < self.entries.len() ==> (#[trigger] self.entries@[k]).table == old(
                        self,
                    ).entries@[k].table,
            decreases left.members.len() - i,
        {
            let ghost before = self.links();
            let ghost prev = self.marks();
            let ghost held = self.entries@[d as int].members@;
            assert(held == was[d as int].1 + seq![left.table] + left.members@.take(i as int)) by {
                assert(self.marks()[d as int].1 == held);
            }
            self.entries[d].members.push(left.members[i]);
            assert(self.links() =~= before);
            proof {
                assert(left.members@.take(i + 1) =~= left.members@.take(i as int).push(
                    left.members@[i as int],
                ));
                assert(self.entries@[d as int].members@ =~= was[d as int].1 + seq![left.table]
                    + left.members@.take(i + 1));
                let want = was.update(
                    d as int,
                    (
                        was[d as int].0,
                        was[d as int].1 + seq![left.table] + left.members@.take(i + 1),
                    ),
                );
                assert(self.marks().len() == want.len());
                assert forall|k: int| 0 <= k < want.len() implies self.marks()[k] == want[k] by {
                    if k == d {
                        assert(self.marks()[k].0 == prev[k].0);
                        assert(self.marks()[k].1 == self.entries@[d as int].members@);
                    } else {
                        assert(self.marks()[k] == prev[k]);
                    }
                }
                assert(self.marks() =~= was.update(
                    d as int,
                    (
                        was[d as int].0,
                        was[d as int].1 + seq![left.table] + left.members@.take(i + 1),
                    ),
                ));
            }
            i += 1;
        }
        assert(left.members@.take(left.members@.len() as int) =~= left.members@);
        assert(self.tables() =~= old(self).tables());
    }

    /// Tells every entry that an answer was recorded.
    pub fn mark_progress(&mut self)
        ensures
            final(self).tables() == old(self).tables(),
            final(self).links() == old(self).links(),
            final(self).depth() == old(self).depth(),
            old(self).distinct() ==> final(self).distinct(),
            forall|d: int| 0 <= d < final(self).depth() ==> (#[trigger] final(self).entries@[d]).progress,
            final(self).marks() == Seq::new(
                old(self).depth(),
                |d: int| (true, old(self).marks()[d].1),
            ),
    {
        let mut d: usize = 0;
        while d < self.entries.len()
            invariant
                d <= self.entries.len(),
                self.entries.len() == old(self).entries.len(),
                forall|k: int|
                    0 <= k < self.entries.len() ==> (#[trigger] self.entries@[k]).link() == old(
                        self,
                    ).entries@[k].link(),
                forall|k: int| 0 <= k < d ==> (#[trigger] self.entries@[k]).progress,
                forall|k: int|
                    0 <= k < self.entries.len() ==> (#[trigger] self.entries@[k]).members == old(
                        self,
                    ).entries@[k].members,
            decreases self.entries.len() - d,
        {
            self.entries[d].progress = true;
            d += 1;
        }
        assert(self.tables() =~= old(self).tables());
        assert(self.links() =~= old(self).links());
    }
}

} // verus!
