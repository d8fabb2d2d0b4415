//! The expression tree and its canonical printed form.

use vstd::prelude::*;

verus! {

/// An expression tree. A leaf holds one character (a digit literal or
/// a variable name); an internal node holds an operator character and
/// exactly two operands, left and right.
#[derive(Debug, PartialEq, Eq)]
pub enum Expression {
    Atom(char),
    Operation(char, Box<Expression>, Box<Expression>),
}

/// The canonical printed form: an atom prints as its bare character,
/// an operation prints as `(<operator> <left> <right>)` with single
/// spaces.
pub open spec fn print_expr(e: Expression) -> Seq<char>
    decreases e,
{
    match e {
        Expression::Atom(c) => seq![c],
        Expression::Operation(op, l, r) => seq!['(', op, ' '] + print_expr(*l) + seq![' ']
            + print_expr(*r) + seq![')'],
    }
}

/// Relies on String::push: appends the given character to the end of
/// the string.
#[verifier::external_body]
fn push_char(s: &mut String, c: char)
    ensures
        final(s)@ == old(s)@.push(c),
{
    s.push(c);
}

impl Expression {
    /// The canonical printed form of the tree, e.g. `(+ 1 (* 2 3))`.
    pub fn to_string(&self) -> (r: String)
        ensures
            r@ == print_expr(*self),
        decreases self,
    {
        match self {
            Expression::Atom(c) => {
                let mut s = String::new();
                push_char(&mut s, *c);
                proof {
                    assert(s@ =~= print_expr(*self));
                }
                s
            },
            Expression::Operation(op, l, r) => {
                let mut s = String::new();
                push_char(&mut s, '(');
                push_char(&mut s, *op);
                push_char(&mut s, ' ');
                let left = l.to_string();
                s.append(left.as_str());
                push_char(&mut s, ' ');
                let right = r.to_string();
                s.append(right.as_str());
                push_char(&mut s, ')');
                proof {
                    assert(s@ =~= print_expr(*self));
                }
                s
            },
        }
    }
}

} // verus!
