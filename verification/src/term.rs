//! Terms, atoms, literals and clauses of the function-free language that the
//! engine resolves, together with the three operations every resolution step
//! is built from: substitution, unification and the numbering of variables by
//! first occurrence.

use vstd::prelude::*;

verus! {

/// A term. There are no function symbols, so a term is a single symbol.
#[derive(Clone, Copy, Debug, PartialEq, Eq, Structural)]
pub enum Term {
    /// A constant declared by the program, by its index in the context.
    Const(usize),
    /// A universally quantified name of a query. It equals only itself.
    Placeholder(usize),
    /// A variable. In a table goal and in an answer the variables are
    /// numbered from zero in the order in which they first occur.
    Var(usize),
}

impl Term {
    /// The term that results when `r` is put in the place of variable `v`.
    pub open spec fn substitute(self, v: usize, r: Term) -> Term {
        if self == Term::Var(v) {
            r
        } else {
            self
        }
    }

    /// The term with its variable, if it is one, moved up by `base`; `None`
    /// if that number cannot be represented.
    pub open spec fn shift(self, base: usize) -> Option<Term> {
        match self {
            Term::Var(j) => if base + j <= usize::MAX {
                Some(Term::Var((base + j) as usize))
            } else {
                None
            },
            _ => Some(self),
        }
    }
}

/// `s` with `r` in the place of variable `v` throughout.
pub open spec fn substitute_seq(s: Seq<Term>, v: usize, r: Term) -> Seq<Term> {
    Seq::new(s.len(), |i: int| s[i].substitute(v, r))
}

/// Whether every term of `s` can be shifted by `base`.
pub open spec fn can_shift_seq(s: Seq<Term>, base: usize) -> bool {
    forall|i: int| 0 <= i < s.len() ==> (#[trigger] s[i]).shift(base) is Some
}

/// `s` with every variable moved up by `base`.
pub open spec fn shift_seq(s: Seq<Term>, base: usize) -> Seq<Term> {
    Seq::new(s.len(), |i: int| s[i].shift(base).unwrap())
}

/// Whether no term of `s` is a variable.
pub open spec fn ground_seq(s: Seq<Term>) -> bool {
    forall|i: int| 0 <= i < s.len() ==> !((#[trigger] s[i]) is Var)
}

/// Puts `r` in the place of variable `v`.
pub fn substitute_term(t: Term, v: usize, r: Term) -> (out: Term)
    ensures
        out == t.substitute(v, r),
{
    match t {
        Term::Var(w) => if w == v {
            r
        } else {
            t
        },
        _ => t,
    }
}

/// Moves the variable of the term, if it is one, up by `base`.
pub fn shift_term(t: Term, base: usize) -> (out: Option<Term>)
    ensures
        out == t.shift(base),
{
    match t {
        Term::Var(j) => match base.checked_add(j) {
            Some(k) => Some(Term::Var(k)),
            None => None,
        },
        _ => Some(t),
    }
}

/// Puts `r` in the place of variable `v` throughout.
pub fn substitute_terms(ts: &mut Vec<Term>, v: usize, r: Term)
    ensures
        final(ts)@ == substitute_seq(old(ts)@, v, r),
{
    let mut i: usize = 0;
    while i < ts.len()
        invariant
            ts.len() == old(ts).len(),
            i <= ts.len(),
            forall|j: int| 0 <= j < i ==> ts@[j] == old(ts)@[j].substitute(v, r),
            forall|j: int| i <= j < ts.len() ==> ts@[j] == old(ts)@[j],
        decreases ts.len() - i,
    {
        let t = ts[i];
        ts[i] = substitute_term(t, v, r);
        i += 1;
    }
    assert(ts@ =~= substitute_seq(old(ts)@, v, r));
}

/// Moves every variable up by `base`, if every one can be.
pub fn shift_terms(ts: &Vec<Term>, base: usize) -> (out: Option<Vec<Term>>)
    ensures
        out is Some <==> can_shift_seq(ts@, base),
        out is Some ==> out.unwrap()@ == shift_seq(ts@, base),
{
    let mut res: Vec<Term> = Vec::new();
    let mut i: usize = 0;
    while i < ts.len()
        invariant
            i <= ts.len(),
            res.len() == i,
            forall|j: int| 0 <= j < i ==> (#[trigger] ts@[j]).shift(base) == Some(res@[j]),
        decreases ts.len() - i,
    {
        match shift_term(ts[i], base) {
            Some(t) => res.push(t),
            None => {
                return None;
            },
        }
        i += 1;
    }
    assert(res@ =~= shift_seq(ts@, base));
    Some(res)
}

/// Copies the terms.
pub fn copy_terms(ts: &Vec<Term>) -> (out: Vec<Term>)
    ensures
        out@ == ts@,
{
    let mut res: Vec<Term> = Vec::new();
    let mut i: usize = 0;
    while i < ts.len()
        invariant
            i <= ts.len(),
            res.len() == i,
            forall|j: int| 0 <= j < i ==> res@[j] == ts@[j],
        decreases ts.len() - i,
    {
        res.push(ts[i]);
        i += 1;
    }
    assert(res@ =~= ts@);
    res
}

/// Whether the two sequences hold the same terms.
pub fn same_terms(a: &Vec<Term>, b: &Vec<Term>) -> (r: bool)
    ensures
        r == (a@ == b@),
{
    if a.len() != b.len() {
        return false;
    }
    let mut i: usize = 0;
    while i < a.len()
        invariant
            a.len() == b.len(),
            i <= a.len(),
            forall|j: int| 0 <= j < i ==> a@[j] == b@[j],
        decreases a.len() - i,
    {
        if a[i] != b[i] {
            return false;
        }
        i += 1;
    }
    assert(a@ =~= b@);
    true
}

/// Whether no term is a variable.
pub fn all_ground(ts: &Vec<Term>) -> (r: bool)
    ensures
        r == ground_seq(ts@),
{
    let mut i: usize = 0;
    while i < ts.len()
        invariant
            i <= ts.len(),
            forall|j: int| 0 <= j < i ==> !((#[trigger] ts@[j]) is Var),
        decreases ts.len() - i,
    {
        match ts[i] {
            Term::Var(_) => {
                return false;
            },
            _ => {},
        }
        i += 1;
    }
    true
}

/// What unifying two terms asks of the variables.
#[derive(Clone, Copy, Debug, PartialEq, Eq, Structural)]
pub enum Unifier {
    /// The terms are different symbols, neither of them a variable.
    Fail,
    /// The terms are equal already.
    Identity,
    /// The terms become equal when the variable is replaced by the term.
    Bind(usize, Term),
}

/// The most general unifier of two terms. Where both are variables the left
/// one is bound.
pub open spec fn unifier(a: Term, b: Term) -> Unifier {
    if a == b {
        Unifier::Identity
    } else if let Term::Var(v) = a {
        Unifier::Bind(v, b)
    } else if let Term::Var(v) = b {
        Unifier::Bind(v, a)
    } else {
        Unifier::Fail
    }
}

/// Unifies two terms.
pub fn unify(a: Term, b: Term) -> (u: Unifier)
    ensures
        u == unifier(a, b),
{
    if a == b {
        Unifier::Identity
    } else {
        match a {
            Term::Var(v) => Unifier::Bind(v, b),
            _ => match b {
                Term::Var(v) => Unifier::Bind(v, a),
                _ => Unifier::Fail,
            },
        }
    }
}

/// A binding that `unifier` yields makes the two terms equal, and one that
/// it refuses cannot be made equal by any single binding.
pub proof fn unifier_unifies(a: Term, b: Term)
    ensures
        unifier(a, b) matches Unifier::Bind(v, r) ==> a.substitute(v, r) == b.substitute(v, r) && a
            != b,
        unifier(a, b) is Identity <==> a == b,
        unifier(a, b) is Fail ==> forall|v: usize, r: Term|
            a.substitute(v, r) != b.substitute(v, r),
{
}

/// A predicate applied to terms.
#[derive(Debug)]
pub struct Atom {
    pub pred: usize,
    pub args: Vec<Term>,
}

/// The mathematical value of an `Atom`.
pub struct AtomView {
    pub pred: usize,
    pub args: Seq<Term>,
}

impl View for Atom {
    type V = AtomView;

    open spec fn view(&self) -> AtomView {
        AtomView { pred: self.pred, args: self.args@ }
    }
}

impl AtomView {
    pub open spec fn substitute(self, v: usize, r: Term) -> AtomView {
        AtomView { pred: self.pred, args: substitute_seq(self.args, v, r) }
    }

    pub open spec fn can_shift(self, base: usize) -> bool {
        can_shift_seq(self.args, base)
    }

    pub open spec fn shift(self, base: usize) -> AtomView {
        AtomView { pred: self.pred, args: shift_seq(self.args, base) }
    }

    pub open spec fn is_ground(self) -> bool {
        ground_seq(self.args)
    }
}

/// The values of a sequence of atoms.
pub open spec fn atoms_view(s: Seq<Atom>) -> Seq<AtomView> {
    Seq::new(s.len(), |i: int| s[i]@)
}

impl Clone for Atom {
    fn clone(&self) -> (out: Self)
        ensures
            out@ == self@,
    {
        Atom { pred: self.pred, args: copy_terms(&self.args) }
    }
}

impl Atom {
    pub fn same(&self, other: &Atom) -> (r: bool)
        ensures
            r == (self@ == other@),
    {
        self.pred == other.pred && same_terms(&self.args, &other.args)
    }

    pub fn substitute(&mut self, v: usize, r: Term)
        ensures
            final(self)@ == old(self)@.substitute(v, r),
    {
        substitute_terms(&mut self.args, v, r);
    }

    pub fn shift(&self, base: usize) -> (out: Option<Atom>)
        ensures
            out is Some <==> self@.can_shift(base),
            out is Some ==> out.unwrap()@ == self@.shift(base),
    {
        match shift_terms(&self.args, base) {
            Some(args) => Some(Atom { pred: self.pred, args }),
            None => None,
        }
    }

    pub fn is_ground(&self) -> (r: bool)
        ensures
            r == self@.is_ground(),
    {
        all_ground(&self.args)
    }
}

/// Copies the atoms.
pub fn copy_atoms(atoms: &Vec<Atom>) -> (out: Vec<Atom>)
    ensures
        atoms_view(out@) == atoms_view(atoms@),
{
    let mut res: Vec<Atom> = Vec::new();
    let mut i: usize = 0;
    while i < atoms.len()
        invariant
            i <= atoms.len(),
            res.len() == i,
            forall|j: int| 0 <= j < i ==> res@[j]@ == atoms@[j]@,
        decreases atoms.len() - i,
    {
        res.push(atoms[i].clone());
        i += 1;
    }
    assert(atoms_view(res@) =~= atoms_view(atoms@));
    res
}

/// Whether the two sequences hold the same atoms.
pub fn same_atoms(a: &Vec<Atom>, b: &Vec<Atom>) -> (r: bool)
    ensures
        r == (atoms_view(a@) == atoms_view(b@)),
{
    if a.len() != b.len() {
        assert(atoms_view(a@).len() != atoms_view(b@).len());
        return false;
    }
    let mut i: usize = 0;
    while i < a.len()
        invariant
            a.len() == b.len(),
            i <= a.len(),
            forall|j: int| 0 <= j < i ==> a@[j]@ == b@[j]@,
        decreases a.len() - i,
    {
        if !a[i].same(&b[i]) {
            assert(atoms_view(a@)[i as int] != atoms_view(b@)[i as int]);
            return false;
        }
        i += 1;
    }
    assert(atoms_view(a@) =~= atoms_view(b@));
    true
}

/// Puts `r` in the place of variable `v` in every atom.
pub fn substitute_atoms(atoms: &mut Vec<Atom>, v: usize, r: Term)
    ensures
        final(atoms).len() == old(atoms).len(),
        forall|j: int|
            0 <= j < old(atoms).len() ==> (#[trigger] final(atoms)@[j])@ == old(
                atoms,
            )@[j]@.substitute(v, r),
{
    let mut i: usize = 0;
    while i < atoms.len()
        invariant
            atoms.len() == old(atoms).len(),
            i <= atoms.len(),
            forall|j: int| 0 <= j < i ==> (#[trigger] atoms@[j])@ == old(atoms)@[j]@.substitute(v, r),
            forall|j: int| i <= j < atoms.len() ==> atoms@[j] == old(atoms)@[j],
        decreases atoms.len() - i,
    {
        atoms[i].substitute(v, r);
        i += 1;
    }
}

/// One condition in the body of a clause.
#[derive(Debug)]
pub enum Literal {
    /// The atom must be provable.
    Positive(Atom),
    /// The atom must have no proof.
    Negative(Atom),
    /// The two terms must be equal.
    Equals(Term, Term),
}

/// The mathematical value of a `Literal`.
pub enum LiteralView {
    Positive(AtomView),
    Negative(AtomView),
    Equals(Term, Term),
}

impl View for Literal {
    type V = LiteralView;

    open spec fn view(&self) -> LiteralView {
        match self {
            Literal::Positive(a) => LiteralView::Positive(a@),
            Literal::Negative(a) => LiteralView::Negative(a@),
            Literal::Equals(a, b) => LiteralView::Equals(*a, *b),
        }
    }
}

impl LiteralView {
    pub open spec fn substitute(self, v: usize, r: Term) -> LiteralView {
        match self {
            LiteralView::Positive(a) => LiteralView::Positive(a.substitute(v, r)),
            LiteralView::Negative(a) => LiteralView::Negative(a.substitute(v, r)),
            LiteralView::Equals(a, b) => LiteralView::Equals(
                a.substitute(v, r),
                b.substitute(v, r),
            ),
        }
    }

    pub open spec fn can_shift(self, base: usize) -> bool {
        match self {
            LiteralView::Positive(a) => a.can_shift(base),
            LiteralView::Negative(a) => a.can_shift(base),
            LiteralView::Equals(a, b) => a.shift(base) is Some && b.shift(base) is Some,
        }
    }

    pub open spec fn shift(self, base: usize) -> LiteralView {
        match self {
            LiteralView::Positive(a) => LiteralView::Positive(a.shift(base)),
            LiteralView::Negative(a) => LiteralView::Negative(a.shift(base)),
            LiteralView::Equals(a, b) => LiteralView::Equals(
                a.shift(base).unwrap(),
                b.shift(base).unwrap(),
            ),
        }
    }
}

/// The values of a sequence of literals.
pub open spec fn literals_view(s: Seq<Literal>) -> Seq<LiteralView> {
    Seq::new(s.len(), |i: int| s[i]@)
}

impl Clone for Literal {
    fn clone(&self) -> (out: Self)
        ensures
            out@ == self@,
    {
        match self {
            Literal::Positive(a) => Literal::Positive(a.clone()),
            Literal::Negative(a) => Literal::Negative(a.clone()),
            Literal::Equals(a, b) => Literal::Equals(*a, *b),
        }
    }
}

impl Literal {
    pub fn substitute(&mut self, v: usize, r: Term)
        ensures
            final(self)@ == old(self)@.substitute(v, r),
    {
        match self {
            Literal::Positive(a) => {
                a.substitute(v, r);
            },
            Literal::Negative(a) => {
                a.substitute(v, r);
            },
            Literal::Equals(a, b) => {
                *a = substitute_term(*a, v, r);
                *b = substitute_term(*b, v, r);
            },
        }
    }

    pub fn shift(&self, base: usize) -> (out: Option<Literal>)
        ensures
            out is Some <==> self@.can_shift(base),
            out is Some ==> out.unwrap()@ == self@.shift(base),
    {
        match self {
            Literal::Positive(a) => match a.shift(base) {
                Some(s) => Some(Literal::Positive(s)),
                None => None,
            },
            Literal::Negative(a) => match a.shift(base) {
                Some(s) => Some(Literal::Negative(s)),
                None => None,
            },
            Literal::Equals(a, b) => match shift_term(*a, base) {
                Some(x) => match shift_term(*b, base) {
                    Some(y) => Some(Literal::Equals(x, y)),
                    None => None,
                },
                None => None,
            },
        }
    }
}

/// Whether variable `v` is among the terms.
pub fn has_var(ts: &Vec<Term>, v: usize) -> (r: bool)
    ensures
        r == ts@.contains(Term::Var(v)),
{
    let mut i: usize = 0;
    while i < ts.len()
        invariant
            i <= ts.len(),
            forall|j: int| 0 <= j < i ==> ts@[j] != Term::Var(v),
        decreases ts.len() - i,
    {
        if ts[i] == Term::Var(v) {
            return true;
        }
        i += 1;
    }
    false
}

/// Whether variable `v` occurs in one of the atoms.
pub open spec fn atoms_mention(atoms: Seq<AtomView>, v: usize) -> bool {
    exists|i: int| 0 <= i < atoms.len() && (#[trigger] atoms[i]).args.contains(Term::Var(v))
}

/// Whether variable `v` occurs in one of the atoms.
pub fn atoms_have_var(atoms: &Vec<Atom>, v: usize) -> (r: bool)
    ensures
        r == atoms_mention(atoms_view(atoms@), v),
{
    let mut i: usize = 0;
    while i < atoms.len()
        invariant
            i <= atoms.len(),
            forall|j: int| 0 <= j < i ==> !(#[trigger] atoms@[j]).args@.contains(Term::Var(v)),
        decreases atoms.len() - i,
    {
        if has_var(&atoms[i].args, v) {
            assert(atoms_view(atoms@)[i as int].args.contains(Term::Var(v)));
            return true;
        }
        i += 1;
    }
    assert forall|j: int| 0 <= j < atoms_view(atoms@).len() implies !(#[trigger] atoms_view(
        atoms@,
    )[j]).args.contains(Term::Var(v)) by {
        assert(!atoms@[j].args@.contains(Term::Var(v)));
    }
    false
}

impl LiteralView {
    /// Whether variable `v` occurs in the literal.
    pub open spec fn mentions(self, v: usize) -> bool {
        match self {
            LiteralView::Positive(a) => a.args.contains(Term::Var(v)),
            LiteralView::Negative(a) => a.args.contains(Term::Var(v)),
            LiteralView::Equals(a, b) => a == Term::Var(v) || b == Term::Var(v),
        }
    }
}

/// Whether variable `v` occurs in one of the literals.
pub open spec fn literals_mention(lits: Seq<LiteralView>, v: usize) -> bool {
    exists|i: int| 0 <= i < lits.len() && (#[trigger] lits[i]).mentions(v)
}

/// Whether variable `v` occurs in one of the literals.
pub fn literals_have_var(lits: &Vec<Literal>, v: usize) -> (r: bool)
    ensures
        r == literals_mention(literals_view(lits@), v),
{
    let mut i: usize = 0;
    while i < lits.len()
        invariant
            i <= lits.len(),
            forall|j: int| 0 <= j < i ==> !(#[trigger] lits@[j])@.mentions(v),
        decreases lits.len() - i,
    {
        let hit = match &lits[i] {
            Literal::Positive(a) => has_var(&a.args, v),
            Literal::Negative(a) => has_var(&a.args, v),
            Literal::Equals(a, b) => *a == Term::Var(v) || *b == Term::Var(v),
        };
        if hit {
            assert(literals_view(lits@)[i as int].mentions(v));
            return true;
        }
        i += 1;
    }
    assert forall|j: int| 0 <= j < literals_view(lits@).len() implies !(#[trigger] literals_view(
        lits@,
    )[j]).mentions(v) by {
        assert(!lits@[j]@.mentions(v));
    }
    false
}

/// `atoms` with `a` added at the end, unless it is among them.
pub open spec fn with_atom(atoms: Seq<AtomView>, a: AtomView) -> Seq<AtomView> {
    if atoms.contains(a) {
        atoms
    } else {
        atoms.push(a)
    }
}

/// The atoms without those that occur before in the sequence.
pub open spec fn distinct_atoms(atoms: Seq<AtomView>) -> Seq<AtomView>
    decreases atoms.len(),
{
    if atoms.len() == 0 {
        Seq::empty()
    } else {
        with_atom(distinct_atoms(atoms.drop_last()), atoms.last())
    }
}

/// `lits` with `l` added at the end, unless it is among them.
pub open spec fn with_literal(lits: Seq<LiteralView>, l: LiteralView) -> Seq<LiteralView> {
    if lits.contains(l) {
        lits
    } else {
        lits.push(l)
    }
}

/// `lits` with the literals of `extra` added one after the other, each
/// unless it is there already.
pub open spec fn joined(lits: Seq<LiteralView>, extra: Seq<LiteralView>) -> Seq<LiteralView>
    decreases extra.len(),
{
    if extra.len() == 0 {
        lits
    } else {
        with_literal(joined(lits, extra.drop_last()), extra.last())
    }
}

impl Literal {
    /// Whether the two literals are equal.
    pub fn same(&self, other: &Literal) -> (r: bool)
        ensures
            r == (self@ == other@),
    {
        match (self, other) {
            (Literal::Positive(a), Literal::Positive(b)) => a.same(b),
            (Literal::Negative(a), Literal::Negative(b)) => a.same(b),
            (Literal::Equals(a, b), Literal::Equals(c, d)) => *a == *c && *b == *d,
            _ => false,
        }
    }
}

/// Whether `a` is among `atoms`.
pub fn holds_atom(atoms: &Vec<Atom>, a: &Atom) -> (r: bool)
    ensures
        r == atoms_view(atoms@).contains(a@),
{
    let mut i: usize = 0;
    while i < atoms.len()
        invariant
            i <= atoms.len(),
            forall|j: int| 0 <= j < i ==> (#[trigger] atoms@[j])@ != a@,
        decreases atoms.len() - i,
    {
        if atoms[i].same(a) {
            assert(atoms_view(atoms@)[i as int] == a@);
            return true;
        }
        i += 1;
    }
    assert forall|j: int| 0 <= j < atoms_view(atoms@).len() implies atoms_view(atoms@)[j] != a@ by {
        assert(atoms@[j]@ != a@);
    }
    false
}

/// Copies the atoms, each of them once.
pub fn dedupe_atoms(atoms: &Vec<Atom>) -> (out: Vec<Atom>)
    ensures
        atoms_view(out@) == distinct_atoms(atoms_view(atoms@)),
{
    let mut res: Vec<Atom> = Vec::new();
    let mut i: usize = 0;
    let ghost all = atoms_view(atoms@);
    assert(all.take(0) =~= Seq::<AtomView>::empty());
    assert(atoms_view(res@) =~= Seq::<AtomView>::empty());
    while i < atoms.len()
        invariant
            i <= atoms.len(),
            all == atoms_view(atoms@),
            atoms_view(res@) == distinct_atoms(all.take(i as int)),
        decreases atoms.len() - i,
    {
        proof {
            let next = all.take(i + 1);
            assert(next.drop_last() =~= all.take(i as int));
            assert(next.last() == atoms@[i as int]@);
        }
        if !holds_atom(&res, &atoms[i]) {
            let ghost before = atoms_view(res@);
            let a = atoms[i].clone();
            res.push(a);
            assert(atoms_view(res@) =~= before.push(atoms@[i as int]@));
        }
        i += 1;
    }
    assert(all.take(atoms.len() as int) =~= all);
    res
}

/// Whether `l` is among `lits`.
pub fn holds_literal(lits: &Vec<Literal>, l: &Literal) -> (r: bool)
    ensures
        r == literals_view(lits@).contains(l@),
{
    let mut i: usize = 0;
    while i < lits.len()
        invariant
            i <= lits.len(),
            forall|j: int| 0 <= j < i ==> (#[trigger] lits@[j])@ != l@,
        decreases lits.len() - i,
    {
        if lits[i].same(l) {
            assert(literals_view(lits@)[i as int] == l@);
            return true;
        }
        i += 1;
    }
    assert forall|j: int| 0 <= j < literals_view(lits@).len() implies literals_view(lits@)[j]
        != l@ by {
        assert(lits@[j]@ != l@);
    }
    false
}

/// Copies the literals.
pub fn copy_literals(lits: &Vec<Literal>) -> (out: Vec<Literal>)
    ensures
        literals_view(out@) == literals_view(lits@),
{
    let mut res: Vec<Literal> = Vec::new();
    let mut i: usize = 0;
    while i < lits.len()
        invariant
            i <= lits.len(),
            res.len() == i,
            forall|j: int| 0 <= j < i ==> res@[j]@ == lits@[j]@,
        decreases lits.len() - i,
    {
        res.push(lits[i].clone());
        i += 1;
    }
    assert(literals_view(res@) =~= literals_view(lits@));
    res
}

/// Puts `r` in the place of variable `v` in every literal.
pub fn substitute_literals(lits: &mut Vec<Literal>, v: usize, r: Term)
    ensures
        final(lits).len() == old(lits).len(),
        forall|j: int|
            0 <= j < old(lits).len() ==> (#[trigger] final(lits)@[j])@ == old(
                lits,
            )@[j]@.substitute(v, r),
{
    let mut i: usize = 0;
    while i < lits.len()
        invariant
            lits.len() == old(lits).len(),
            i <= lits.len(),
            forall|j: int| 0 <= j < i ==> (#[trigger] lits@[j])@ == old(lits)@[j]@.substitute(v, r),
            forall|j: int| i <= j < lits.len() ==> lits@[j] == old(lits)@[j],
        decreases lits.len() - i,
    {
        lits[i].substitute(v, r);
        i += 1;
    }
}

/// A clause of the program: the head holds for every value of the variables
/// `0 .. nvars` for which every literal of the body holds.
#[derive(Debug)]
pub struct Clause {
    pub nvars: usize,
    pub head: Atom,
    pub body: Vec<Literal>,
}

/// The index at which `v` first occurs in `seen`, or the length of `seen`
/// if it does not occur.
pub open spec fn first_index(seen: Seq<usize>, v: usize) -> int
    decreases seen.len(),
{
    if seen.len() == 0 {
        0
    } else if seen[0] == v {
        0
    } else {
        1 + first_index(seen.drop_first(), v)
    }
}

/// `first_index` is the least index that holds `v`.
pub proof fn first_index_is_least(seen: Seq<usize>, v: usize)
    ensures
        0 <= first_index(seen, v) <= seen.len(),
        first_index(seen, v) < seen.len() ==> seen[first_index(seen, v)] == v,
        forall|j: int| 0 <= j < first_index(seen, v) ==> seen[j] != v,
    decreases seen.len(),
{
    if seen.len() > 0 && seen[0] != v {
        let rest = seen.drop_first();
        first_index_is_least(rest, v);
        assert forall|j: int| 0 <= j < first_index(seen, v) implies seen[j] != v by {
            if j > 0 {
                assert(seen[j] == rest[j - 1]);
            }
        }
    }
}

/// The variables seen so far, after `t` has been looked at.
pub open spec fn note(seen: Seq<usize>, t: Term) -> Seq<usize> {
    match t {
        Term::Var(v) => if first_index(seen, v) < seen.len() {
            seen
        } else {
            seen.push(v)
        },
        _ => seen,
    }
}

/// `t` with its variable replaced by the number under which it was seen.
pub open spec fn number(seen: Seq<usize>, t: Term) -> Term {
    match t {
        Term::Var(v) => Term::Var(first_index(seen, v) as usize),
        _ => t,
    }
}

/// The variables seen after the terms of `ts` have been looked at in order.
pub open spec fn note_seq(seen: Seq<usize>, ts: Seq<Term>) -> Seq<usize>
    decreases ts.len(),
{
    if ts.len() == 0 {
        seen
    } else {
        note(note_seq(seen, ts.drop_last()), ts.last())
    }
}

/// `ts` with every variable replaced by the number of its first occurrence,
/// counting on from the variables in `seen`.
pub open spec fn number_seq(seen: Seq<usize>, ts: Seq<Term>) -> Seq<Term> {
    Seq::new(ts.len(), |i: int| number(note_seq(seen, ts.take(i)), ts[i]))
}

/// Where `v` first occurs in `seen`, or the length of `seen`.
pub fn find_var(seen: &Vec<usize>, v: usize) -> (k: usize)
    ensures
        k == first_index(seen@, v),
        k <= seen.len(),
{
    let mut i: usize = 0;
    while i < seen.len()
        invariant
            i <= seen.len(),
            forall|j: int| 0 <= j < i ==> seen@[j] != v,
        decreases seen.len() - i,
    {
        if seen[i] == v {
            proof {
                first_index_is_least(seen@, v);
            }
            return i;
        }
        i += 1;
    }
    proof {
        first_index_is_least(seen@, v);
    }
    i
}

/// Numbers one term, extending `seen` when its variable is new.
pub fn number_term(t: Term, seen: &mut Vec<usize>) -> (out: Term)
    ensures
        final(seen)@ == note(old(seen)@, t),
        out == number(old(seen)@, t),
{
    match t {
        Term::Var(v) => {
            let k = find_var(seen, v);
            if k == seen.len() {
                seen.push(v);
            }
            Term::Var(k)
        },
        _ => t,
    }
}

/// Numbers a sequence of terms from left to right.
pub fn number_terms(ts: &Vec<Term>, seen: &mut Vec<usize>) -> (out: Vec<Term>)
    ensures
        final(seen)@ == note_seq(old(seen)@, ts@),
        out@ == number_seq(old(seen)@, ts@),
{
    let mut res: Vec<Term> = Vec::new();
    let mut i: usize = 0;
    assert(ts@.take(0) =~= Seq::<Term>::empty());
    while i < ts.len()
        invariant
            i <= ts.len(),
            res.len() == i,
            seen@ == note_seq(old(seen)@, ts@.take(i as int)),
            forall|j: int|
                0 <= j < i ==> res@[j] == number(note_seq(old(seen)@, ts@.take(j)), ts@[j]),
        decreases ts.len() - i,
    {
        proof {
            let next = ts@.take(i + 1);
            assert(next.drop_last() =~= ts@.take(i as int));
            assert(next.last() == ts@[i as int]);
        }
        let t = number_term(ts[i], seen);
        res.push(t);
        i += 1;
    }
    assert(ts@.take(ts.len() as int) =~= ts@);
    assert(res@ =~= number_seq(old(seen)@, ts@));
    res
}

/// The atom with its variables numbered, counting on from `seen`.
pub open spec fn number_atom(seen: Seq<usize>, a: AtomView) -> AtomView {
    AtomView { pred: a.pred, args: number_seq(seen, a.args) }
}

impl Atom {
    /// Numbers the variables of the atom, extending `seen`.
    pub fn number(&self, seen: &mut Vec<usize>) -> (out: Atom)
        ensures
            final(seen)@ == note_seq(old(seen)@, self@.args),
            out@ == number_atom(old(seen)@, self@),
    {
        let args = number_terms(&self.args, seen);
        Atom { pred: self.pred, args }
    }
}

/// The variables seen after the atoms of `atoms` have been looked at in
/// order.
pub open spec fn note_atoms(seen: Seq<usize>, atoms: Seq<AtomView>) -> Seq<usize>
    decreases atoms.len(),
{
    if atoms.len() == 0 {
        seen
    } else {
        note_seq(note_atoms(seen, atoms.drop_last()), atoms.last().args)
    }
}

/// `atoms` with every variable replaced by the number of its first
/// occurrence, counting on from the variables in `seen`.
pub open spec fn number_atoms(seen: Seq<usize>, atoms: Seq<AtomView>) -> Seq<AtomView> {
    Seq::new(atoms.len(), |i: int| number_atom(note_atoms(seen, atoms.take(i)), atoms[i]))
}

/// Numbers the variables of a sequence of atoms from left to right.
pub fn number_all(atoms: &Vec<Atom>, seen: &mut Vec<usize>) -> (out: Vec<Atom>)
    ensures
        final(seen)@ == note_atoms(old(seen)@, atoms_view(atoms@)),
        atoms_view(out@) == number_atoms(old(seen)@, atoms_view(atoms@)),
{
    let mut res: Vec<Atom> = Vec::new();
    let mut i: usize = 0;
    let ghost all = atoms_view(atoms@);
    assert(all.take(0) =~= Seq::<AtomView>::empty());
    while i < atoms.len()
        invariant
            i <= atoms.len(),
            res.len() == i,
            all == atoms_view(atoms@),
            seen@ == note_atoms(old(seen)@, all.take(i as int)),
            forall|j: int|
                0 <= j < i ==> (#[trigger] res@[j])@ == number_atom(
                    note_atoms(old(seen)@, all.take(j)),
                    all[j],
                ),
        decreases atoms.len() - i,
    {
        proof {
            let next = all.take(i + 1);
            assert(next.drop_last() =~= all.take(i as int));
            assert(next.last() == atoms@[i as int]@);
        }
        let a = atoms[i].number(seen);
        res.push(a);
        i += 1;
    }
    assert(all.take(atoms.len() as int) =~= all);
    assert(atoms_view(res@) =~= number_atoms(old(seen)@, all));
    res
}

/// The atoms of `delayed` that are not `own`.
pub open spec fn kept(delayed: Seq<AtomView>, own: AtomView) -> Seq<AtomView>
    decreases delayed.len(),
{
    if delayed.len() == 0 {
        Seq::empty()
    } else if delayed.last() == own {
        kept(delayed.drop_last(), own)
    } else {
        kept(delayed.drop_last(), own).push(delayed.last())
    }
}

/// Every atom that is kept is one of the atoms that were there.
pub proof fn kept_is_part(delayed: Seq<AtomView>, goal: AtomView, i: int)
    requires
        0 <= i < kept(delayed, goal).len(),
    ensures
        exists|j: int| 0 <= j < delayed.len() && kept(delayed, goal)[i] == #[trigger] delayed[j],
    decreases delayed.len(),
{
    if delayed.len() > 0 {
        let rest = kept(delayed.drop_last(), goal);
        if i < rest.len() {
            kept_is_part(delayed.drop_last(), goal, i);
            let j = choose|j: int|
                0 <= j < delayed.drop_last().len() && rest[i] == #[trigger] delayed.drop_last()[j];
            assert(kept(delayed, goal)[i] == delayed[j]);
        } else {
            assert(kept(delayed, goal)[i] == delayed[delayed.len() - 1]);
        }
    }
}

/// Copies the atoms that are not `own`.
pub fn keep(delayed: &Vec<Atom>, own: &Atom) -> (out: Vec<Atom>)
    ensures
        atoms_view(out@) == kept(atoms_view(delayed@), own@),
{
    let mut res: Vec<Atom> = Vec::new();
    let mut i: usize = 0;
    let ghost all = atoms_view(delayed@);
    assert(all.take(0) =~= Seq::<AtomView>::empty());
    assert(atoms_view(res@) =~= Seq::<AtomView>::empty());
    while i < delayed.len()
        invariant
            i <= delayed.len(),
            all == atoms_view(delayed@),
            atoms_view(res@) == kept(all.take(i as int), own@),
        decreases delayed.len() - i,
    {
        proof {
            let next = all.take(i + 1);
            assert(next.drop_last() =~= all.take(i as int));
            assert(next.last() == delayed@[i as int]@);
        }
        if !delayed[i].same(own) {
            let ghost before = atoms_view(res@);
            let a = delayed[i].clone();
            res.push(a);
            assert(atoms_view(res@) =~= before.push(delayed@[i as int]@));
        }
        i += 1;
    }
    assert(all.take(delayed.len() as int) =~= all);
    res
}

/// The instance of `goal` in which each variable has the value that
/// `subst` gives it by its number. A variable without a value stays.
pub open spec fn instance(goal: AtomView, subst: Seq<Term>) -> AtomView {
    AtomView {
        pred: goal.pred,
        args: Seq::new(
            goal.args.len(),
            |i: int|
                match goal.args[i] {
                    Term::Var(v) => if v < subst.len() {
                        subst[v as int]
                    } else {
                        goal.args[i]
                    },
                    _ => goal.args[i],
                },
        ),
    }
}

/// The instance of `goal` under `subst`.
pub fn instantiate(goal: &Atom, subst: &Vec<Term>) -> (out: Atom)
    ensures
        out@ == instance(goal@, subst@),
{
    let mut args: Vec<Term> = Vec::new();
    let mut i: usize = 0;
    while i < goal.args.len()
        invariant
            i <= goal.args.len(),
            args.len() == i,
            forall|j: int| 0 <= j < i ==> args@[j] == instance(goal@, subst@).args[j],
        decreases goal.args.len() - i,
    {
        let t = match goal.args[i] {
            Term::Var(v) => if v < subst.len() {
                subst[v]
            } else {
                goal.args[i]
            },
            other => other,
        };
        args.push(t);
        i += 1;
    }
    assert(args@ =~= instance(goal@, subst@).args);
    Atom { pred: goal.pred, args }
}

/// The bindings that unify the terms of `a` and `b` from place `i` on, one
/// after the other, each made in what follows it: the variables, and beside
/// them their values. `None` if two terms cannot be unified.
pub open spec fn unifiers_from(a: Seq<Term>, b: Seq<Term>, i: nat) -> Option<
    (Seq<usize>, Seq<Term>),
>
    decreases a.len() - i,
{
    if i >= a.len() {
        Some((Seq::empty(), Seq::empty()))
    } else {
        match unifier(a[i as int], b[i as int]) {
            Unifier::Fail => None,
            Unifier::Identity => unifiers_from(a, b, i + 1),
            Unifier::Bind(v, r) => match unifiers_from(
                substitute_seq(a, v, r),
                substitute_seq(b, v, r),
                i + 1,
            ) {
                None => None,
                Some((vars, terms)) => Some((seq![v] + vars, seq![r] + terms)),
            },
        }
    }
}

/// `ts` after the first `k` of `vars` have been replaced, in order, by the
/// terms at the same places in `terms`.
pub open spec fn substitute_all(ts: Seq<Term>, vars: Seq<usize>, terms: Seq<Term>, k: nat) -> Seq<
    Term,
>
    decreases k,
{
    if k == 0 {
        ts
    } else {
        substitute_seq(substitute_all(ts, vars, terms, (k - 1) as nat), vars[k - 1], terms[k - 1])
    }
}

/// Replacing the first variable and then the others is replacing all.
proof fn substitute_all_from_first(ts: Seq<Term>, vars: Seq<usize>, terms: Seq<Term>, k: nat)
    requires
        0 < k <= vars.len(),
        k <= terms.len(),
    ensures
        substitute_all(ts, vars, terms, k) == substitute_all(
            substitute_seq(ts, vars[0], terms[0]),
            vars.drop_first(),
            terms.drop_first(),
            (k - 1) as nat,
        ),
    decreases k,
{
    let first = substitute_seq(ts, vars[0], terms[0]);
    if k > 1 {
        substitute_all_from_first(ts, vars, terms, (k - 1) as nat);
        assert(vars.drop_first()[k - 2] == vars[k - 1]);
        assert(terms.drop_first()[k - 2] == terms[k - 1]);
        assert(substitute_all(first, vars.drop_first(), terms.drop_first(), (k - 1) as nat)
            == substitute_seq(
            substitute_all(first, vars.drop_first(), terms.drop_first(), (k - 2) as nat),
            vars.drop_first()[k - 2],
            terms.drop_first()[k - 2],
        ));
    } else {
        assert(substitute_all(ts, vars, terms, 0) == ts);
        assert(substitute_all(first, vars.drop_first(), terms.drop_first(), 0) == first);
    }
}

/// Replacing variables keeps the length, and what is equal stays equal.
proof fn substitute_all_keeps(ts: Seq<Term>, vars: Seq<usize>, terms: Seq<Term>, k: nat)
    ensures
        substitute_all(ts, vars, terms, k).len() == ts.len(),
    decreases k,
{
    if k > 0 {
        substitute_all_keeps(ts, vars, terms, (k - 1) as nat);
    }
}

/// The bindings of a unifier make the terms equal from the place on from
/// which they were unified, and leave equal what was equal before.
pub proof fn unifiers_unify(a: Seq<Term>, b: Seq<Term>, i: nat, j: int)
    requires
        a.len() == b.len(),
        unifiers_from(a, b, i) is Some,
        0 <= j < a.len(),
        j >= i || a[j] == b[j],
    ensures
        ({
            let u = unifiers_from(a, b, i).unwrap();
            &&& u.0.len() == u.1.len()
            &&& substitute_all(a, u.0, u.1, u.0.len())[j] == substitute_all(b, u.0, u.1, u.0.len())[j]
        }),
    decreases a.len() - i,
{
    let u = unifiers_from(a, b, i).unwrap();
    unifier_is_paired(a, b, i);
    substitute_all_keeps(a, u.0, u.1, u.0.len());
    substitute_all_keeps(b, u.0, u.1, u.0.len());
    if i < a.len() {
        match unifier(a[i as int], b[i as int]) {
            Unifier::Fail => {},
            Unifier::Identity => {
                unifiers_unify(a, b, i + 1, j);
            },
            Unifier::Bind(v, r) => {
                let x = substitute_seq(a, v, r);
                let y = substitute_seq(b, v, r);
                let rest = unifiers_from(x, y, i + 1).unwrap();
                unifier_unifies(a[i as int], b[i as int]);
                assert(x[i as int] == y[i as int]);
                assert(j >= i + 1 || x[j] == y[j]);
                unifiers_unify(x, y, i + 1, j);
                assert(u.0 == seq![v] + rest.0);
                assert(u.1 == seq![r] + rest.1);
                assert(u.0.drop_first() =~= rest.0);
                assert(u.1.drop_first() =~= rest.1);
                unifier_is_paired(x, y, i + 1);
                substitute_all_from_first(a, u.0, u.1, u.0.len());
                substitute_all_from_first(b, u.0, u.1, u.0.len());
            },
        }
    }
}

/// The bindings that unify two atoms, made one after the other, make the
/// two atoms one.
pub proof fn atom_unifier_unifies(a: AtomView, b: AtomView)
    requires
        atom_unifier(a, b) is Some,
    ensures
        a.pred == b.pred,
        ({
            let u = atom_unifier(a, b).unwrap();
            &&& u.0.len() == u.1.len()
            &&& substitute_all(a.args, u.0, u.1, u.0.len()) == substitute_all(
                b.args,
                u.0,
                u.1,
                u.0.len(),
            )
        }),
{
    let u = atom_unifier(a, b).unwrap();
    unifier_is_paired(a.args, b.args, 0);
    substitute_all_keeps(a.args, u.0, u.1, u.0.len());
    substitute_all_keeps(b.args, u.0, u.1, u.0.len());
    assert forall|j: int| 0 <= j < a.args.len() implies substitute_all(
        a.args,
        u.0,
        u.1,
        u.0.len(),
    )[j] == substitute_all(b.args, u.0, u.1, u.0.len())[j] by {
        unifiers_unify(a.args, b.args, 0, j);
    }
    assert(substitute_all(a.args, u.0, u.1, u.0.len()) =~= substitute_all(
        b.args,
        u.0,
        u.1,
        u.0.len(),
    ));
}

/// A unifier gives one value for each variable that it binds.
pub proof fn unifier_is_paired(a: Seq<Term>, b: Seq<Term>, i: nat)
    ensures
        unifiers_from(a, b, i) matches Some(u) ==> u.0.len() == u.1.len(),
    decreases a.len() - i,
{
    if i < a.len() {
        match unifier(a[i as int], b[i as int]) {
            Unifier::Fail => {},
            Unifier::Identity => {
                unifier_is_paired(a, b, i + 1);
            },
            Unifier::Bind(v, r) => {
                unifier_is_paired(substitute_seq(a, v, r), substitute_seq(b, v, r), i + 1);
            },
        }
    }
}

/// The bindings that unify two atoms, or `None` if they cannot be unified.
pub open spec fn atom_unifier(a: AtomView, b: AtomView) -> Option<(Seq<usize>, Seq<Term>)> {
    if a.pred != b.pred || a.args.len() != b.args.len() {
        None
    } else {
        unifiers_from(a.args, b.args, 0)
    }
}

/// Unifies two atoms.
pub fn unify_atoms(a: &Atom, b: &Atom) -> (out: Option<(Vec<usize>, Vec<Term>)>)
    ensures
        out is Some <==> atom_unifier(a@, b@) is Some,
        out matches Some(u) ==> (u.0@, u.1@) == atom_unifier(a@, b@).unwrap(),
{
    if a.pred != b.pred || a.args.len() != b.args.len() {
        return None;
    }
    let mut x = copy_terms(&a.args);
    let mut y = copy_terms(&b.args);
    let mut vars: Vec<usize> = Vec::new();
    let mut terms: Vec<Term> = Vec::new();
    let mut i: usize = 0;
    let ghost whole = unifiers_from(a.args@, b.args@, 0);
    assert(vars@ + Seq::<usize>::empty() =~= vars@);
    assert(terms@ + Seq::<Term>::empty() =~= terms@);
    while i < x.len()
        invariant
            i <= x.len(),
            x.len() == y.len(),
            whole == atom_unifier(a@, b@),
            whole == match unifiers_from(x@, y@, i as nat) {
                None => None,
                Some((vs, ts)) => Some((vars@ + vs, terms@ + ts)),
            },
        decreases x.len() - i,
    {
        match unify(x[i], y[i]) {
            Unifier::Fail => {
                assert(unifiers_from(x@, y@, i as nat) is None);
                return None;
            },
            Unifier::Identity => {},
            Unifier::Bind(v, r) => {
                let ghost rest = unifiers_from(
                    substitute_seq(x@, v, r),
                    substitute_seq(y@, v, r),
                    (i + 1) as nat,
                );
                let ghost before_v = vars@;
                let ghost before_t = terms@;
                substitute_terms(&mut x, v, r);
                substitute_terms(&mut y, v, r);
                vars.push(v);
                terms.push(r);
                proof {
                    if let Some((vs, ts)) = rest {
                        assert(vars@ + vs =~= before_v + (seq![v] + vs));
                        assert(terms@ + ts =~= before_t + (seq![r] + ts));
                    }
                }
            },
        }
        i += 1;
    }
    proof {
        assert(vars@ + Seq::<usize>::empty() =~= vars@);
        assert(terms@ + Seq::<Term>::empty() =~= terms@);
    }
    Some((vars, terms))
}

/// The canonical form of an atom: its variables numbered from zero in the
/// order of their first occurrence.
pub open spec fn canonical(a: AtomView) -> AtomView {
    number_atom(Seq::empty(), a)
}

/// The variables of an atom in the order of their first occurrence.
pub open spec fn variables(a: AtomView) -> Seq<usize> {
    note_seq(Seq::empty(), a.args)
}

/// Brings an atom into canonical form and returns, beside it, the variable
/// that each number stands for.
pub fn canonicalize(a: &Atom) -> (out: (Atom, Vec<usize>))
    ensures
        out.0@ == canonical(a@),
        out.1@ == variables(a@),
{
    let mut seen: Vec<usize> = Vec::new();
    let goal = a.number(&mut seen);
    (goal, seen)
}

} // verus!
