//! Canonical forms do not depend on the names of variables: goals that
//! differ only in those names have one canonical form, and so one table.

use crate::term::{
    canonical, first_index, first_index_is_least, note, note_seq, number, number_seq, variables,
    AtomView, Term,
};
use vstd::prelude::*;

verus! {

/// A term with its variable `v`, if it is one, replaced by variable
/// `rho(v)`.
pub open spec fn rename(t: Term, rho: spec_fn(usize) -> usize) -> Term {
    match t {
        Term::Var(v) => Term::Var(rho(v)),
        _ => t,
    }
}

/// Terms with every variable `v` replaced by variable `rho(v)`.
pub open spec fn rename_seq(ts: Seq<Term>, rho: spec_fn(usize) -> usize) -> Seq<Term> {
    Seq::new(ts.len(), |i: int| rename(ts[i], rho))
}

/// An atom with every variable `v` replaced by variable `rho(v)`.
pub open spec fn rename_atom(a: AtomView, rho: spec_fn(usize) -> usize) -> AtomView {
    AtomView { pred: a.pred, args: rename_seq(a.args, rho) }
}

/// Variables with every `v` replaced by `rho(v)`.
pub open spec fn rename_vars(vars: Seq<usize>, rho: spec_fn(usize) -> usize) -> Seq<usize> {
    Seq::new(vars.len(), |i: int| rho(vars[i]))
}

/// Whether variable `v` occurs in `ts`.
pub open spec fn occurs(ts: Seq<Term>, v: usize) -> bool {
    exists|i: int| 0 <= i < ts.len() && #[trigger] ts[i] == Term::Var(v)
}

/// Whether `rho` gives different variables of `ts` different names.
pub open spec fn injective_on(ts: Seq<Term>, rho: spec_fn(usize) -> usize) -> bool {
    forall|v: usize, w: usize|
        #![trigger occurs(ts, v), occurs(ts, w)]
        occurs(ts, v) && occurs(ts, w) && rho(v) == rho(w) ==> v == w
}

/// The least index that holds `v` is its first index.
pub proof fn first_index_is(seen: Seq<usize>, v: usize, k: int)
    requires
        0 <= k <= seen.len(),
        k < seen.len() ==> seen[k] == v,
        forall|j: int| 0 <= j < k ==> seen[j] != v,
    ensures
        first_index(seen, v) == k,
{
    first_index_is_least(seen, v);
}

/// Renaming the variables seen and the variable looked for alike does not
/// change where it is found.
proof fn first_index_renamed(seen: Seq<usize>, rho: spec_fn(usize) -> usize, v: usize)
    requires
        forall|k: int| 0 <= k < seen.len() && rho(#[trigger] seen[k]) == rho(v) ==> seen[k] == v,
    ensures
        first_index(rename_vars(seen, rho), rho(v)) == first_index(seen, v),
{
    first_index_is_least(seen, v);
    let k = first_index(seen, v);
    let renamed = rename_vars(seen, rho);
    assert forall|j: int| 0 <= j < k implies renamed[j] != rho(v) by {
        assert(seen[j] != v);
    }
    first_index_is(renamed, rho(v), k);
}

/// Looking at one more term keeps the variables that were seen, in their
/// places, and after it the variable of the term is among them.
proof fn note_keeps(seen: Seq<usize>, t: Term)
    ensures
        seen.is_prefix_of(note(seen, t)),
        t matches Term::Var(v) ==> first_index(note(seen, t), v) == first_index(seen, v)
            && first_index(seen, v) < note(seen, t).len(),
        forall|w: usize|
            first_index(seen, w) < seen.len() ==> first_index(note(seen, t), w) == first_index(
                seen,
                w,
            ),
{
    let after = note(seen, t);
    assert forall|w: usize| first_index(seen, w) < seen.len() implies first_index(after, w)
        == first_index(seen, w) by {
        first_index_is_least(seen, w);
        first_index_is(after, w, first_index(seen, w));
    }
    if let Term::Var(v) = t {
        first_index_is_least(seen, v);
        first_index_is(after, v, first_index(seen, v));
    }
}

/// Every variable seen in `ts` occurs in `ts`, and the variables seen in
/// the renamed terms are the renamed variables seen in `ts`.
proof fn note_seq_renamed(ts: Seq<Term>, rho: spec_fn(usize) -> usize, n: int)
    requires
        injective_on(ts, rho),
        0 <= n <= ts.len(),
    ensures
        note_seq(Seq::empty(), rename_seq(ts, rho).take(n)) == rename_vars(
            note_seq(Seq::empty(), ts.take(n)),
            rho,
        ),
        forall|k: int|
            0 <= k < note_seq(Seq::empty(), ts.take(n)).len() ==> occurs(
                ts,
                #[trigger] note_seq(Seq::empty(), ts.take(n))[k],
            ),
    decreases n,
{
    let renamed = rename_seq(ts, rho);
    if n == 0 {
        assert(ts.take(0) =~= Seq::<Term>::empty());
        assert(renamed.take(0) =~= Seq::<Term>::empty());
        assert(note_seq(Seq::empty(), renamed.take(0)) =~= rename_vars(
            note_seq(Seq::empty(), ts.take(0)),
            rho,
        ));
    } else {
        note_seq_renamed(ts, rho, n - 1);
        let before = note_seq(Seq::empty(), ts.take(n - 1));
        let before_renamed = note_seq(Seq::empty(), renamed.take(n - 1));
        assert(ts.take(n).drop_last() =~= ts.take(n - 1));
        assert(renamed.take(n).drop_last() =~= renamed.take(n - 1));
        assert(ts.take(n).last() == ts[n - 1]);
        assert(renamed.take(n).last() == rename(ts[n - 1], rho));
        let after = note(before, ts[n - 1]);
        if let Term::Var(v) = ts[n - 1] {
            assert(occurs(ts, v));
            assert forall|k: int| 0 <= k < before.len() && rho(#[trigger] before[k]) == rho(
                v,
            ) implies before[k] == v by {
                assert(occurs(ts, before[k]));
            }
            first_index_renamed(before, rho, v);
        }
        assert(note(before_renamed, renamed[n - 1]) =~= rename_vars(after, rho));
        assert forall|k: int| 0 <= k < after.len() implies occurs(ts, #[trigger] after[k]) by {
            if k < before.len() {
                assert(after[k] == before[k]);
            }
        }
    }
}

/// The canonical form of an atom does not depend on the names of its
/// variables: renaming them, different variables to different names, does
/// not change it, and the variables in the order of their first occurrence
/// are renamed with the atom.
pub proof fn canonical_ignores_names(a: AtomView, rho: spec_fn(usize) -> usize)
    requires
        injective_on(a.args, rho),
    ensures
        canonical(rename_atom(a, rho)) == canonical(a),
        variables(rename_atom(a, rho)) == rename_vars(variables(a), rho),
{
    let ts = a.args;
    let renamed = rename_seq(ts, rho);
    let none = Seq::<usize>::empty();
    assert forall|i: int| 0 <= i < ts.len() implies number_seq(none, renamed)[i] == number_seq(
        none,
        ts,
    )[i] by {
        note_seq_renamed(ts, rho, i);
        let before = note_seq(none, ts.take(i));
        if let Term::Var(v) = ts[i] {
            assert(occurs(ts, v));
            assert forall|k: int| 0 <= k < before.len() && rho(#[trigger] before[k]) == rho(
                v,
            ) implies before[k] == v by {
                assert(occurs(ts, before[k]));
            }
            first_index_renamed(before, rho, v);
        }
    }
    assert(number_seq(none, renamed) =~= number_seq(none, ts));
    note_seq_renamed(ts, rho, ts.len() as int);
    assert(ts.take(ts.len() as int) =~= ts);
    assert(renamed.take(ts.len() as int) =~= renamed);
}

/// The variables seen grow with the terms looked at, and a variable that
/// was seen keeps its place.
proof fn note_seq_grows(ts: Seq<Term>, m: int, n: int)
    requires
        0 <= m <= n <= ts.len(),
    ensures
        note_seq(Seq::empty(), ts.take(m)).is_prefix_of(note_seq(Seq::empty(), ts.take(n))),
        forall|w: usize|
            first_index(note_seq(Seq::empty(), ts.take(m)), w) < note_seq(
                Seq::empty(),
                ts.take(m),
            ).len() ==> first_index(note_seq(Seq::empty(), ts.take(n)), w) == first_index(
                note_seq(Seq::empty(), ts.take(m)),
                w,
            ),
    decreases n - m,
{
    if m < n {
        note_seq_grows(ts, m, n - 1);
        assert(ts.take(n).drop_last() =~= ts.take(n - 1));
        assert(ts.take(n).last() == ts[n - 1]);
        note_keeps(note_seq(Seq::empty(), ts.take(n - 1)), ts[n - 1]);
    }
}

/// No more variables are seen than terms were looked at.
proof fn note_seq_is_short(ts: Seq<Term>, n: int)
    requires
        0 <= n <= ts.len(),
    ensures
        note_seq(Seq::empty(), ts.take(n)).len() <= n,
    decreases n,
{
    if n > 0 {
        note_seq_is_short(ts, n - 1);
        assert(ts.take(n).drop_last() =~= ts.take(n - 1));
    } else {
        assert(ts.take(0) =~= Seq::<Term>::empty());
    }
}

/// The number that a variable gets is its place among the variables of the
/// whole atom.
proof fn number_is_place(ts: Seq<Term>, i: int)
    requires
        0 <= i < ts.len(),
    ensures
        ts[i] matches Term::Var(v) ==> number_seq(Seq::empty(), ts)[i] == Term::Var(
            first_index(note_seq(Seq::empty(), ts), v) as usize,
        ) && first_index(note_seq(Seq::empty(), ts), v) < note_seq(Seq::empty(), ts).len(),
        !(ts[i] is Var) ==> number_seq(Seq::empty(), ts)[i] == ts[i],
{
    if let Term::Var(v) = ts[i] {
        let before = note_seq(Seq::empty(), ts.take(i));
        assert(ts.take(i + 1).drop_last() =~= ts.take(i));
        assert(ts.take(i + 1).last() == ts[i]);
        note_keeps(before, ts[i]);
        note_seq_grows(ts, i + 1, ts.len() as int);
        assert(ts.take(ts.len() as int) =~= ts);
    }
}

/// A canonical form is its own canonical form, and it has as many
/// variables as the atom.
pub proof fn canonical_is_idempotent(a: AtomView)
    requires
        a.args.len() <= usize::MAX,
    ensures
        canonical(canonical(a)) == canonical(a),
        variables(canonical(a)).len() == variables(a).len(),
{
    let ts = a.args;
    let all = note_seq(Seq::empty(), ts);
    note_seq_is_short(ts, ts.len() as int);
    assert(ts.take(ts.len() as int) =~= ts);
    let rho = |v: usize| first_index(all, v) as usize;
    assert forall|i: int| 0 <= i < ts.len() implies number_seq(Seq::empty(), ts)[i] == rename(
        ts[i],
        rho,
    ) by {
        number_is_place(ts, i);
    }
    assert(number_seq(Seq::empty(), ts) =~= rename_seq(ts, rho));
    assert forall|v: usize, w: usize|
        #![trigger occurs(ts, v), occurs(ts, w)]
        occurs(ts, v) && occurs(ts, w) && rho(v) == rho(w) implies v == w by {
        let i = choose|i: int| 0 <= i < ts.len() && #[trigger] ts[i] == Term::Var(v);
        let j = choose|j: int| 0 <= j < ts.len() && #[trigger] ts[j] == Term::Var(w);
        number_is_place(ts, i);
        number_is_place(ts, j);
        first_index_is_least(all, v);
        first_index_is_least(all, w);
    }
    canonical_ignores_names(a, rho);
    assert(canonical(a) == rename_atom(a, rho));
}

} // verus!
