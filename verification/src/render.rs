//! How substitutions are written out for a reader.

use crate::context::{ConstrainedSubst, ConstrainedSubstView, Context};
use crate::term::Term;
use vstd::prelude::*;

verus! {

/// The character of a decimal digit.
pub open spec fn digit(d: nat) -> char {
    if d == 0 {
        '0'
    } else if d == 1 {
        '1'
    } else if d == 2 {
        '2'
    } else if d == 3 {
        '3'
    } else if d == 4 {
        '4'
    } else if d == 5 {
        '5'
    } else if d == 6 {
        '6'
    } else if d == 7 {
        '7'
    } else if d == 8 {
        '8'
    } else {
        '9'
    }
}

/// A number in decimal notation.
pub open spec fn decimal(n: nat) -> Seq<char>
    decreases n,
{
    if n < 10 {
        seq![digit(n)]
    } else {
        decimal(n / 10).push(digit(n % 10))
    }
}

fn digit_str(d: usize) -> (s: &'static str)
    requires
        d < 10,
    ensures
        s@ == seq![digit(d as nat)],
{
    proof {
        reveal_strlit("0");
        reveal_strlit("1");
        reveal_strlit("2");
        reveal_strlit("3");
        reveal_strlit("4");
        reveal_strlit("5");
        reveal_strlit("6");
        reveal_strlit("7");
        reveal_strlit("8");
        reveal_strlit("9");
    }
    let s = if d == 0 {
        "0"
    } else if d == 1 {
        "1"
    } else if d == 2 {
        "2"
    } else if d == 3 {
        "3"
    } else if d == 4 {
        "4"
    } else if d == 5 {
        "5"
    } else if d == 6 {
        "6"
    } else if d == 7 {
        "7"
    } else if d == 8 {
        "8"
    } else {
        "9"
    };
    assert(s@ =~= seq![digit(d as nat)]);
    s
}

/// Appends a number in decimal notation.
pub fn push_decimal(s: &mut String, n: usize)
    ensures
        final(s)@ == old(s)@ + decimal(n as nat),
    decreases n,
{
    if n < 10 {
        s.append(digit_str(n));
    } else {
        push_decimal(s, n / 10);
        s.append(digit_str(n % 10));
        assert(s@ =~= old(s)@ + decimal(n as nat));
    }
}

impl Context {
    /// How a term is written: a constant by its name, or by `#` and its
    /// index if the program did not declare it; a placeholder by `!1_` and
    /// its index; a variable by `^` and its number.
    pub open spec fn term_text(&self, t: Term) -> Seq<char> {
        match t {
            Term::Const(c) => if c < self.constants@.len() {
                self.constants@[c as int]@
            } else {
                "#"@ + decimal(c as nat)
            },
            Term::Placeholder(p) => "!1_"@ + decimal(p as nat),
            Term::Var(v) => "^"@ + decimal(v as nat),
        }
    }

    /// How the bindings from index `from` on are written: `?i := term`,
    /// separated by commas.
    pub open spec fn bindings_text(&self, values: Seq<Term>, from: nat) -> Seq<char>
        decreases values.len() - from,
    {
        if from >= values.len() {
            Seq::empty()
        } else {
            let one = "?"@ + decimal(from) + " := "@ + self.term_text(values[from as int]);
            if from + 1 == values.len() {
                one
            } else {
                one + ", "@ + self.bindings_text(values, from + 1)
            }
        }
    }

    /// Appends how a term is written.
    pub fn push_term(&self, s: &mut String, t: Term)
        ensures
            final(s)@ == old(s)@ + self.term_text(t),
    {
        match t {
            Term::Const(c) => {
                if c < self.constants.len() {
                    s.append(self.constants[c].as_str());
                } else {
                    s.append("#");
                    push_decimal(s, c);
                    assert(s@ =~= old(s)@ + self.term_text(t));
                }
            },
            Term::Placeholder(p) => {
                s.append("!1_");
                push_decimal(s, p);
                assert(s@ =~= old(s)@ + self.term_text(t));
            },
            Term::Var(v) => {
                s.append("^");
                push_decimal(s, v);
                assert(s@ =~= old(s)@ + self.term_text(t));
            },
        }
    }

    /// Appends how the bindings are written.
    pub fn push_bindings(&self, s: &mut String, values: &Vec<Term>)
        ensures
            final(s)@ == old(s)@ + self.bindings_text(values@, 0),
    {
        let mut i: usize = 0;
        let ghost start = s@;
        assert(s@ =~= start + Seq::<char>::empty());
        while i < values.len()
            invariant
                i <= values.len(),
                start == old(s)@,
                forall|rest: Seq<char>|
                    #![trigger s@ + rest]
                    rest == self.bindings_text(values@, i as nat) ==> s@ + rest == start
                        + self.bindings_text(values@, 0),
            decreases values.len() - i,
        {
            let ghost before = s@;
            s.append("?");
            push_decimal(s, i);
            s.append(" := ");
            self.push_term(s, values[i]);
            if i + 1 < values.len() {
                s.append(", ");
            }
            proof {
                let one = "?"@ + decimal(i as nat) + " := "@ + self.term_text(values@[i as int]);
                let tail = self.bindings_text(values@, (i + 1) as nat);
                let whole = self.bindings_text(values@, i as nat);
                if i + 1 < values.len() {
                    assert(whole == one + ", "@ + tail);
                    assert(s@ =~= before + one + ", "@);
                    assert(s@ + tail =~= before + whole);
                } else {
                    assert(whole == one);
                    assert(tail =~= Seq::<char>::empty());
                    assert(s@ =~= before + one);
                    assert(s@ + tail =~= before + whole);
                }
                assert(before + whole == start + self.bindings_text(values@, 0));
            }
            i += 1;
        }
        proof {
            let rest = self.bindings_text(values@, i as nat);
            assert(rest =~= Seq::<char>::empty());
            assert(s@ + rest =~= s@);
        }
    }
}

/// How `n` binders are written: `?U0` for each, separated by commas.
pub open spec fn binders_text(n: nat) -> Seq<char>
    decreases n,
{
    if n == 0 {
        Seq::empty()
    } else if n == 1 {
        "?U0"@
    } else {
        binders_text((n - 1) as nat) + ","@ + "?U0"@
    }
}

/// Appends how `n` binders are written.
pub fn push_binders(s: &mut String, n: usize)
    ensures
        final(s)@ == old(s)@ + binders_text(n as nat),
{
    let mut i: usize = 0;
    assert(s@ =~= old(s)@ + binders_text(0));
    while i < n
        invariant
            i <= n,
            s@ == old(s)@ + binders_text(i as nat),
        decreases n - i,
    {
        if i > 0 {
            s.append(",");
        }
        s.append("?U0");
        proof {
            if i > 0 {
                assert(s@ =~= old(s)@ + (binders_text(i as nat) + ","@ + "?U0"@));
            } else {
                assert(s@ =~= old(s)@ + "?U0"@);
            }
        }
        i += 1;
    }
}

/// What can be written out, given the names that the program declares.
pub trait Render {
    /// The text that `render` gives.
    spec fn text(&self, context: &Context) -> Seq<char>;

    /// Writes the value out.
    fn render(&self, context: &Context) -> (s: String)
        ensures
            s@ == self.text(context),
    ;
}

impl ConstrainedSubstView {
    /// The bindings in brackets, and after them the constraints, of which
    /// the engine has none.
    pub open spec fn body_text(self, context: &Context) -> Seq<char> {
        "substitution ["@ + context.bindings_text(self.values, 0) + "], lifetime constraints []"@
    }

    /// The body, and around it the binders if the substitution leaves
    /// variables open.
    pub open spec fn text(self, context: &Context) -> Seq<char> {
        if self.binders == 0 {
            self.body_text(context)
        } else {
            "for<"@ + binders_text(self.binders as nat) + "> { "@ + self.body_text(context) + " }"@
        }
    }
}

impl Render for ConstrainedSubst {
    open spec fn text(&self, context: &Context) -> Seq<char> {
        self@.text(context)
    }

    fn render(&self, context: &Context) -> (s: String) {
        let mut s = String::new();
        if self.binders > 0 {
            s.append("for<");
            push_binders(&mut s, self.binders);
            s.append("> { ");
        }
        let ghost head = s@;
        s.append("substitution [");
        context.push_bindings(&mut s, &self.values);
        s.append("], lifetime constraints []");
        assert(s@ =~= head + self@.body_text(context));
        if self.binders > 0 {
            s.append(" }");
            assert(s@ =~= self@.text(context));
        } else {
            assert(head =~= Seq::<char>::empty());
            assert(s@ =~= self@.text(context));
        }
        s
    }
}

} // verus!
