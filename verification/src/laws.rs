//! Properties that relate the printer and the parser.

use vstd::prelude::*;

use crate::expr::{Expression, print_expr};
use crate::parser::{
    ParseError, spec_climb, spec_infix_binding_power, spec_parse, spec_parse_text, wf_expr,
};
use crate::token::{Token, classify_char, is_atom_char, tokenize};

verus! {

/// Law: how a chain of two infix operators groups is decided by the
/// binding powers alone. In `x o1 y o2 z`, if the left power of `o2`
/// reaches the right power of `o1`, `o2` takes `y` and the chain
/// nests to the right, `(o1 x (o2 y z))`; otherwise the climb folds
/// `o1` first and the chain nests to the left, `(o2 (o1 x y) z)`.
/// With `o1 == o2` this is associativity: a left-to-right chain for
/// `+ - * / .` (left power below right), a right-to-left chain for
/// `= ^ √` (right power below left). With distinct operators it is
/// precedence, e.g. `*` after `+` takes the middle operand.
pub proof fn lemma_two_operator_grouping(o1: char, o2: char, x: char, y: char, z: char)
    requires
        is_atom_char(x),
        is_atom_char(y),
        is_atom_char(z),
        spec_infix_binding_power(o1) is Some,
        spec_infix_binding_power(o2) is Some,
    ensures
        ({
            let bp1 = spec_infix_binding_power(o1)->0;
            let bp2 = spec_infix_binding_power(o2)->0;
            let r1 = bp1.1;
            let l2 = bp2.0;
            let toks = seq![
                Token::Atom(x),
                Token::Op(o1),
                Token::Atom(y),
                Token::Op(o2),
                Token::Atom(z),
            ];
            let grouped = if l2 >= r1 {
                Expression::Operation(
                    o1,
                    Box::new(Expression::Atom(x)),
                    Box::new(
                        Expression::Operation(
                            o2,
                            Box::new(Expression::Atom(y)),
                            Box::new(Expression::Atom(z)),
                        ),
                    ),
                )
            } else {
                Expression::Operation(
                    o2,
                    Box::new(
                        Expression::Operation(
                            o1,
                            Box::new(Expression::Atom(x)),
                            Box::new(Expression::Atom(y)),
                        ),
                    ),
                    Box::new(Expression::Atom(z)),
                )
            };
            spec_parse(toks, 0) == Ok::<(Expression, Seq<Token>), ParseError>(
                (grouped, Seq::empty()),
            )
        }),
{
    let bp1 = spec_infix_binding_power(o1)->0;
    let bp2 = spec_infix_binding_power(o2)->0;
    let r1 = bp1.1;
    let l2 = bp2.0;
    let ax = Expression::Atom(x);
    let ay = Expression::Atom(y);
    let az = Expression::Atom(z);
    let toks = seq![Token::Atom(x), Token::Op(o1), Token::Atom(y), Token::Op(o2), Token::Atom(z)];
    let t1 = seq![Token::Op(o1), Token::Atom(y), Token::Op(o2), Token::Atom(z)];
    let t2 = seq![Token::Atom(y), Token::Op(o2), Token::Atom(z)];
    let t3 = seq![Token::Op(o2), Token::Atom(z)];
    let t4 = seq![Token::Atom(z)];
    let empty = Seq::<Token>::empty();
    assert(toks.drop_first() =~= t1);
    assert(t1.drop_first() =~= t2);
    assert(t2.drop_first() =~= t3);
    assert(t3.drop_first() =~= t4);
    assert(t4.drop_first() =~= empty);
    // A parenthesis has no binding power, so neither operator is one.
    assert(o1 != ')' && o2 != ')');
    assert(spec_climb(az, empty, bp2.1) == Ok::<
        (Expression, Seq<Token>),
        ParseError,
    >((az, empty)));
    assert(spec_parse(t4, bp2.1) == Ok::<
        (Expression, Seq<Token>),
        ParseError,
    >((az, empty)));
    if l2 >= r1 {
        // `o2` binds at least as tightly as `o1` demands of its right
        // operand, so the inner climb at `r1` folds `o2` in.
        let inner = Expression::Operation(o2, Box::new(ay), Box::new(az));
        assert(spec_climb(inner, empty, r1) == Ok::<(Expression, Seq<Token>), ParseError>(
            (inner, empty),
        ));
        assert(spec_climb(ay, t3, r1) == Ok::<(Expression, Seq<Token>), ParseError>(
            (inner, empty),
        ));
        assert(spec_parse(t2, r1) == Ok::<(Expression, Seq<Token>), ParseError>((inner, empty)));
        let outer = Expression::Operation(o1, Box::new(ax), Box::new(inner));
        assert(spec_climb(outer, empty, 0) == Ok::<(Expression, Seq<Token>), ParseError>(
            (outer, empty),
        ));
        assert(spec_climb(ax, t1, 0) == Ok::<(Expression, Seq<Token>), ParseError>(
            (outer, empty),
        ));
    } else {
        // `o2` binds too weakly for the inner climb, which stops
        // without consuming it; the outer climb folds `o1` first.
        assert(spec_climb(ay, t3, r1) == Ok::<(Expression, Seq<Token>), ParseError>((ay, t3)));
        assert(spec_parse(t2, r1) == Ok::<(Expression, Seq<Token>), ParseError>((ay, t3)));
        let inner = Expression::Operation(o1, Box::new(ax), Box::new(ay));
        let outer = Expression::Operation(o2, Box::new(inner), Box::new(az));
        assert(spec_climb(outer, empty, 0) == Ok::<(Expression, Seq<Token>), ParseError>(
            (outer, empty),
        ));
        assert(spec_climb(az, empty, bp2.1) == Ok::<
            (Expression, Seq<Token>),
            ParseError,
        >((az, empty)));
        assert(spec_climb(inner, t3, 0) == Ok::<(Expression, Seq<Token>), ParseError>(
            (outer, empty),
        ));
        assert(spec_climb(ax, t1, 0) == Ok::<(Expression, Seq<Token>), ParseError>(
            (outer, empty),
        ));
    }
}

/// Law: a line holding one atom parses to that leaf, whose printed
/// form is the line itself; so printing and re-parsing an atom yields
/// the same tree. This is the round trip restricted to leaves: the
/// printed form of an operation is prefix (`(+ 1 2)`), which the
/// infix grammar rejects at the primary position, so only atoms
/// survive a round trip. See `lemma_print_unambiguous` for the sense
/// in which the printed form still identifies every tree.
pub proof fn lemma_print_parse_atom(c: char)
    requires
        is_atom_char(c),
    ensures
        spec_parse_text(seq![c]) == Ok::<Expression, ParseError>(Expression::Atom(c)),
        print_expr(Expression::Atom(c)) == seq![c],
        spec_parse_text(print_expr(Expression::Atom(c))) == Ok::<Expression, ParseError>(
            Expression::Atom(c),
        ),
{
    let p = print_expr(Expression::Atom(c));
    assert(p == seq![c]);
    assert(p.drop_first() =~= Seq::<char>::empty());
    assert(tokenize(Seq::<char>::empty()) =~= Seq::<Token>::empty());
    assert(!crate::token::is_ascii_whitespace_char(c));
    assert(tokenize(p) =~= seq![classify_char(c)]);
    let toks = tokenize(p);
    assert(toks[0] == Token::Atom(c));
    assert(toks.drop_first() =~= Seq::<Token>::empty());
    assert(spec_climb(Expression::Atom(c), toks.drop_first(), 0) == Ok::<
        (Expression, Seq<Token>),
        ParseError,
    >((Expression::Atom(c), toks.drop_first())));
}

/// Law: the printed form of an operation does not survive a round
/// trip, and fails in exactly one way: the form is prefix, so after
/// the opening parenthesis the operator stands where the infix
/// grammar requires a primary, and the parse rejects that operator as
/// an unexpected token.
pub proof fn lemma_print_operation_does_not_reparse(op: char, l: Expression, r: Expression)
    requires
        wf_expr(Expression::Operation(op, Box::new(l), Box::new(r))),
    ensures
        spec_parse_text(print_expr(Expression::Operation(op, Box::new(l), Box::new(r)))) == Err::<
            Expression,
            ParseError,
        >(ParseError::UnexpectedToken(Token::Op(op))),
{
    let e = Expression::Operation(op, Box::new(l), Box::new(r));
    let p = print_expr(e);
    assert(p[0] == '(' && p[1] == op);
    // A recognized operator is one of eight characters; none is
    // whitespace, alphanumeric, or a parenthesis.
    assert(crate::parser::is_known_op(op));
    assert(!crate::token::is_ascii_whitespace_char(op) && !is_atom_char(op) && op != '(');
    assert(!crate::token::is_ascii_whitespace_char('(') && !is_atom_char('('));
    let p1 = p.drop_first();
    assert(p1[0] == op);
    assert(tokenize(p) == seq![Token::Op('(')] + tokenize(p1));
    assert(tokenize(p1) == seq![Token::Op(op)] + tokenize(p1.drop_first()));
    let toks = tokenize(p);
    assert(toks[0] == Token::Op('('));
    assert(toks.drop_first() =~= seq![Token::Op(op)] + tokenize(p1.drop_first()));
    assert(toks.drop_first()[0] == Token::Op(op));
    assert(spec_parse(toks.drop_first(), 0) == Err::<(Expression, Seq<Token>), ParseError>(
        ParseError::UnexpectedToken(Token::Op(op)),
    ));
}

/// Law: the printed form is an unambiguous fingerprint — two
/// well-formed trees with the same printed form are the same tree.
pub proof fn lemma_print_unambiguous(a: Expression, b: Expression)
    requires
        wf_expr(a),
        wf_expr(b),
        print_expr(a) == print_expr(b),
    ensures
        a == b,
{
    lemma_print_prefix_free(a, b, Seq::empty(), Seq::empty());
}

/// No printed form is a proper prefix of another: if two printed
/// forms agree up to trailing text, the trees and the trailing text
/// agree.
proof fn lemma_print_prefix_free(a: Expression, b: Expression, s: Seq<char>, t: Seq<char>)
    requires
        wf_expr(a),
        wf_expr(b),
        print_expr(a) + s == print_expr(b) + t,
    ensures
        a == b,
        s == t,
    decreases a,
{
    let pa = print_expr(a);
    let pb = print_expr(b);
    assert((pa + s).len() == (pb + t).len());
    match (a, b) {
        (Expression::Atom(c1), Expression::Atom(c2)) => {
            assert(c1 == (pa + s)[0] && c2 == (pb + t)[0]);
            assert(s =~= t) by {
                assert forall|i: int| 0 <= i < s.len() implies s[i] == t[i] by {
                    assert(s[i] == (pa + s)[i + 1]);
                    assert(t[i] == (pb + t)[i + 1]);
                }
            }
        },
        (Expression::Atom(c1), Expression::Operation(_, _, _)) => {
            assert(c1 == (pa + s)[0]);
            assert((pb + t)[0] == '(');
            assert(!is_atom_char('('));
        },
        (Expression::Operation(_, _, _), Expression::Atom(c2)) => {
            assert(c2 == (pb + t)[0]);
            assert((pa + s)[0] == '(');
            assert(!is_atom_char('('));
        },
        (Expression::Operation(op1, l1, r1), Expression::Operation(op2, l2, r2)) => {
            assert(op1 == (pa + s)[1] && op2 == (pb + t)[1]);
            let sa = seq![' '] + print_expr(*r1) + seq![')'] + s;
            let sb = seq![' '] + print_expr(*r2) + seq![')'] + t;
            assert(print_expr(*l1) + sa =~= (pa + s).skip(3));
            assert(print_expr(*l2) + sb =~= (pb + t).skip(3));
            lemma_print_prefix_free(*l1, *l2, sa, sb);
            let ua = seq![')'] + s;
            let ub = seq![')'] + t;
            assert(print_expr(*r1) + ua =~= sa.skip(1));
            assert(print_expr(*r2) + ub =~= sb.skip(1));
            lemma_print_prefix_free(*r1, *r2, ua, ub);
            assert(s =~= t) by {
                assert forall|i: int| 0 <= i < s.len() implies s[i] == t[i] by {
                    assert(s[i] == ua[i + 1]);
                    assert(t[i] == ub[i + 1]);
                }
            }
        },
    }
}

} // verus!

