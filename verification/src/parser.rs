//! Precedence-climbing parser.
//!
//! A parse starts with a *primary* (an atom, or a parenthesized
//! sub-expression), then repeatedly folds in infix operators whose
//! left binding power is at least the minimum demanded by the caller.
//! The operator token is consumed only after that comparison passes:
//! an operator that binds too weakly is left in the stream for the
//! enclosing call.

use vstd::prelude::*;

use crate::expr::Expression;
use crate::token::{Lexer, Token, is_atom_char, tokenize};

verus! {

/// A fatal parse failure; it carries the offending token or operator.
#[derive(Debug, Clone, Copy, PartialEq, Eq, Structural)]
pub enum ParseError {
    /// A token that cannot start a primary, or an atom in infix
    /// position. `Eof` stands for running out of input.
    UnexpectedToken(Token),
    /// An opened group was not closed; carries what was found where
    /// `)` was required.
    MissingCloseParen(Token),
    /// An infix operator that is not in the binding-power table.
    UnknownOperator(char),
}

/// The binding powers (left, right) of the infix operators, on one
/// scale: a larger value binds tighter. An operator whose right power
/// exceeds its left power chains to the left; one whose left power
/// exceeds its right power chains to the right.
pub open spec fn spec_infix_binding_power(op: char) -> Option<(u32, u32)> {
    if op == '=' {
        Some((2, 1))
    } else if op == '+' || op == '-' {
        Some((10, 11))
    } else if op == '*' || op == '/' {
        Some((20, 21))
    } else if op == '^' || op == '√' {
        Some((31, 30))
    } else if op == '.' {
        Some((40, 41))
    } else {
        None
    }
}

/// An operator the parser recognizes.
pub open spec fn is_known_op(op: char) -> bool {
    spec_infix_binding_power(op) is Some
}

/// A well-formed tree: every leaf holds an alphanumeric character and
/// every internal node holds a recognized operator. The parser only
/// builds such trees.
pub open spec fn wf_expr(e: Expression) -> bool
    decreases e,
{
    match e {
        Expression::Atom(c) => is_atom_char(c),
        Expression::Operation(op, l, r) => is_known_op(op) && wf_expr(*l) && wf_expr(*r),
    }
}

/// A token stream whose atoms all hold alphanumeric characters; the
/// tokenizer produces no others.
pub open spec fn wf_tokens(toks: Seq<Token>) -> bool {
    forall|i: int|
        0 <= i < toks.len() ==> (#[trigger] toks[i] matches Token::Atom(c) ==> is_atom_char(c))
}

/// The tokenizer only produces well-formed streams.
pub proof fn lemma_tokenize_wf(s: Seq<char>)
    ensures
        wf_tokens(tokenize(s)),
    decreases s.len(),
{
    if s.len() > 0 {
        lemma_tokenize_wf(s.drop_first());
        if !crate::token::is_ascii_whitespace_char(s[0]) {
            assert forall|i: int|
                0 <= i < tokenize(s).len() implies (#[trigger] tokenize(s)[i] matches Token::Atom(
                c,
            ) ==> is_atom_char(c)) by {
                if i > 0 {
                    assert(tokenize(s)[i] == tokenize(s.drop_first())[i - 1]);
                }
            }
        }
    }
}

/// What parsing a token sequence at a minimum binding power yields: the
/// expression and the tokens left over, or the error. A parse consumes
/// a primary and then climbs.
///
/// The two length tests before the `spec_climb` calls always hold
/// (parsing a primary consumes at least one token, see
/// `lemma_parse_consumes`); they only make termination evident.
pub open spec fn spec_parse(toks: Seq<Token>, min_bp: u32) -> Result<
    (Expression, Seq<Token>),
    ParseError,
>
    decreases toks.len(), 1int,
{
    if toks.len() == 0 {
        Err(ParseError::UnexpectedToken(Token::Eof))
    } else {
        match toks[0] {
            Token::Atom(c) => spec_climb(Expression::Atom(c), toks.drop_first(), min_bp),
            Token::Op(c) => if c == '(' {
                match spec_parse(toks.drop_first(), 0) {
                    Err(e) => Err(e),
                    Ok((inner, rest)) => if rest.len() > 0 && rest[0] == Token::Op(')') {
                        if rest.len() <= toks.len() {
                            spec_climb(inner, rest.drop_first(), min_bp)
                        } else {
                            Err(ParseError::MissingCloseParen(Token::Eof))
                        }
                    } else if rest.len() == 0 {
                        Err(ParseError::MissingCloseParen(Token::Eof))
                    } else {
                        Err(ParseError::MissingCloseParen(rest[0]))
                    },
                }
            } else {
                Err(ParseError::UnexpectedToken(Token::Op(c)))
            },
            Token::Eof => Err(ParseError::UnexpectedToken(Token::Eof)),
        }
    }
}

/// The climbing phase: with `lhs` already parsed, fold in operators
/// until the input ends, a `)` is seen, or an operator binds more
/// weakly than `min_bp`. The operator that stops the climb is not
/// consumed.
pub open spec fn spec_climb(lhs: Expression, toks: Seq<Token>, min_bp: u32) -> Result<
    (Expression, Seq<Token>),
    ParseError,
>
    decreases toks.len(), 0int,
{
    if toks.len() == 0 {
        Ok((lhs, toks))
    } else {
        match toks[0] {
            Token::Atom(c) => Err(ParseError::UnexpectedToken(Token::Atom(c))),
            Token::Op(op) => if op == ')' {
                Ok((lhs, toks))
            } else {
                match spec_infix_binding_power(op) {
                    None => Err(ParseError::UnknownOperator(op)),
                    Some((l_bp, r_bp)) => if l_bp < min_bp {
                        Ok((lhs, toks))
                    } else {
                        match spec_parse(toks.drop_first(), r_bp) {
                            Err(e) => Err(e),
                            Ok((rhs, rest)) => if rest.len() < toks.len() {
                                spec_climb(
                                    Expression::Operation(op, Box::new(lhs), Box::new(rhs)),
                                    rest,
                                    min_bp,
                                )
                            } else {
                                Err(ParseError::UnexpectedToken(Token::Eof))
                            },
                        }
                    },
                }
            },
            Token::Eof => Ok((lhs, toks)),
        }
    }
}

/// A successful parse consumes at least the tokens of its primary.
pub proof fn lemma_parse_consumes(toks: Seq<Token>, min_bp: u32)
    ensures
        match spec_parse(toks, min_bp) {
            Ok((e, rest)) => rest.len() < toks.len(),
            Err(_) => true,
        },
    decreases toks.len(), 1int,
{
    if toks.len() > 0 {
        match toks[0] {
            Token::Atom(c) => {
                lemma_climb_consumes(Expression::Atom(c), toks.drop_first(), min_bp);
            },
            Token::Op(c) => {
                if c == '(' {
                    lemma_parse_consumes(toks.drop_first(), 0);
                    match spec_parse(toks.drop_first(), 0) {
                        Ok((inner, rest)) => {
                            if rest.len() > 0 && rest[0] == Token::Op(')') {
                                lemma_climb_consumes(inner, rest.drop_first(), min_bp);
                            }
                        },
                        Err(_) => {},
                    }
                }
            },
            Token::Eof => {},
        }
    }
}

/// The climbing phase never invents tokens.
pub proof fn lemma_climb_consumes(lhs: Expression, toks: Seq<Token>, min_bp: u32)
    ensures
        match spec_climb(lhs, toks, min_bp) {
            Ok((e, rest)) => rest.len() <= toks.len(),
            Err(_) => true,
        },
    decreases toks.len(), 0int,
{
    if toks.len() > 0 {
        match toks[0] {
            Token::Op(op) => {
                if op != ')' {
                    match spec_infix_binding_power(op) {
                        Some((l_bp, r_bp)) => {
                            if l_bp >= min_bp {
                                lemma_parse_consumes(toks.drop_first(), r_bp);
                                match spec_parse(toks.drop_first(), r_bp) {
                                    Ok((rhs, rest)) => {
                                        lemma_climb_consumes(
                                            Expression::Operation(
                                                op,
                                                Box::new(lhs),
                                                Box::new(rhs),
                                            ),
                                            rest,
                                            min_bp,
                                        );
                                    },
                                    Err(_) => {},
                                }
                            }
                        },
                        None => {},
                    }
                }
            },
            _ => {},
        }
    }
}

/// Dropping the first token keeps a stream well-formed.
proof fn lemma_wf_tokens_drop_first(toks: Seq<Token>)
    requires
        wf_tokens(toks),
        toks.len() > 0,
    ensures
        wf_tokens(toks.drop_first()),
{
    assert forall|i: int|
        0 <= i < toks.drop_first().len() implies (#[trigger] toks.drop_first()[i] matches
        Token::Atom(c) ==> is_atom_char(c)) by {
        assert(toks.drop_first()[i] == toks[i + 1]);
    }
}

/// On a well-formed stream, a successful parse yields a well-formed
/// tree and leaves a well-formed stream.
pub proof fn lemma_parse_wf(toks: Seq<Token>, min_bp: u32)
    ensures
        wf_tokens(toks) ==> match spec_parse(toks, min_bp) {
            Ok((e, rest)) => wf_expr(e) && wf_tokens(rest),
            Err(_) => true,
        },
    decreases toks.len(), 1int,
{
    if toks.len() > 0 && wf_tokens(toks) {
        lemma_wf_tokens_drop_first(toks);
        match toks[0] {
            Token::Atom(c) => {
                lemma_climb_wf(Expression::Atom(c), toks.drop_first(), min_bp);
            },
            Token::Op(c) => {
                if c == '(' {
                    lemma_parse_consumes(toks.drop_first(), 0);
                    lemma_parse_wf(toks.drop_first(), 0);
                    match spec_parse(toks.drop_first(), 0) {
                        Ok((inner, rest)) => {
                            if rest.len() > 0 && rest[0] == Token::Op(')') {
                                lemma_wf_tokens_drop_first(rest);
                                lemma_climb_wf(inner, rest.drop_first(), min_bp);
                            }
                        },
                        Err(_) => {},
                    }
                }
            },
            Token::Eof => {},
        }
    }
}

/// The climbing phase keeps trees and streams well-formed.
pub proof fn lemma_climb_wf(lhs: Expression, toks: Seq<Token>, min_bp: u32)
    ensures
        wf_expr(lhs) && wf_tokens(toks) ==> match spec_climb(lhs, toks, min_bp) {
            Ok((e, rest)) => wf_expr(e) && wf_tokens(rest),
            Err(_) => true,
        },
    decreases toks.len(), 0int,
{
    if toks.len() > 0 && wf_expr(lhs) && wf_tokens(toks) {
        lemma_wf_tokens_drop_first(toks);
        match toks[0] {
            Token::Op(op) => {
                if op != ')' {
                    match spec_infix_binding_power(op) {
                        Some((l_bp, r_bp)) => {
                            if l_bp >= min_bp {
                                lemma_parse_consumes(toks.drop_first(), r_bp);
                                lemma_parse_wf(toks.drop_first(), r_bp);
                                match spec_parse(toks.drop_first(), r_bp) {
                                    Ok((rhs, rest)) => {
                                        lemma_climb_wf(
                                            Expression::Operation(
                                                op,
                                                Box::new(lhs),
                                                Box::new(rhs),
                                            ),
                                            rest,
                                            min_bp,
                                        );
                                    },
                                    Err(_) => {},
                                }
                            }
                        },
                        None => {},
                    }
                }
            },
            _ => {},
        }
    }
}

/// What parsing a whole line yields. Tokens left over after the parse
/// stops at binding power zero (only possible after an unmatched `)`)
/// are ignored.
pub open spec fn spec_parse_text(s: Seq<char>) -> Result<Expression, ParseError> {
    match spec_parse(tokenize(s), 0) {
        Ok((e, rest)) => Ok(e),
        Err(e) => Err(e),
    }
}

/// The binding powers (left, right) of `op`, or `None` for an
/// unrecognized operator.
pub fn infix_binding_power(op: char) -> (r: Option<(u32, u32)>)
    ensures
        r == spec_infix_binding_power(op),
{
    match op {
        '=' => Some((2, 1)),
        '+' | '-' => Some((10, 11)),
        '*' | '/' => Some((20, 21)),
        '^' | '√' => Some((31, 30)),
        '.' => Some((40, 41)),
        _ => None,
    }
}

/// Parses one expression from the stream at the given minimum binding
/// power, leaving whatever stops the climb in the stream.
#[verifier::loop_isolation(false)]
pub fn parse_expression(lexer: &mut Lexer, min_bp: u32) -> (r: Result<Expression, ParseError>)
    ensures
        match r {
            Ok(e) => spec_parse(old(lexer)@, min_bp) == Ok::<(Expression, Seq<Token>), ParseError>(
                (e, final(lexer)@),
            ),
            Err(err) => spec_parse(old(lexer)@, min_bp) == Err::<
                (Expression, Seq<Token>),
                ParseError,
            >(err),
        },
    decreases old(lexer)@.len(),
{
    let ghost toks0 = lexer@;
    let t0 = lexer.next();
    let mut lhs: Expression;
    match t0 {
        Token::Atom(c) => {
            lhs = Expression::Atom(c);
        },
        Token::Op(c) => {
            if c == '(' {
                match parse_expression(lexer, 0) {
                    Err(err) => {
                        return Err(err);
                    },
                    Ok(inner) => {
                        proof {
                            lemma_parse_consumes(toks0.drop_first(), 0);
                        }
                        let t1 = lexer.next();
                        if t1 == Token::Op(')') {
                            lhs = inner;
                        } else {
                            return Err(ParseError::MissingCloseParen(t1));
                        }
                    },
                }
            } else {
                return Err(ParseError::UnexpectedToken(Token::Op(c)));
            }
        },
        Token::Eof => {
            return Err(ParseError::UnexpectedToken(Token::Eof));
        },
    }
    loop
        invariant
            lexer@.len() < toks0.len(),
            spec_climb(lhs, lexer@, min_bp) == spec_parse(toks0, min_bp),
        decreases lexer@.len(),
    {
        let t = lexer.peek();
        let op = match t {
            Token::Eof => {
                return Ok(lhs);
            },
            Token::Atom(c) => {
                return Err(ParseError::UnexpectedToken(Token::Atom(c)));
            },
            Token::Op(op) => {
                if op == ')' {
                    return Ok(lhs);
                }
                op
            },
        };
        match infix_binding_power(op) {
            None => {
                return Err(ParseError::UnknownOperator(op));
            },
            Some((l_bp, r_bp)) => {
                if l_bp < min_bp {
                    return Ok(lhs);
                }
                // The operator is consumed only now, after the
                // binding-power check passed: consuming it earlier
                // would steal a token an enclosing call still needs.
                let ghost toks_iter = lexer@;
                let _consumed = lexer.next();
                match parse_expression(lexer, r_bp) {
                    Err(err) => {
                        return Err(err);
                    },
                    Ok(rhs) => {
                        proof {
                            lemma_parse_consumes(toks_iter.drop_first(), r_bp);
                        }
                        lhs = Expression::Operation(op, Box::new(lhs), Box::new(rhs));
                    },
                }
            },
        }
    }
}

impl Expression {
    /// Tokenizes and parses one line of input, starting at minimum
    /// binding power zero.
    pub fn from_str(input: &str) -> (r: Result<Expression, ParseError>)
        ensures
            r == spec_parse_text(input@),
    {
        let mut lexer = Lexer::new(input);
        match parse_expression(&mut lexer, 0) {
            Ok(e) => Ok(e),
            Err(err) => Err(err),
        }
    }

    /// Every tree that `from_str` returns is well-formed.
    pub proof fn lemma_from_str_wf(s: Seq<char>)
        ensures
            match spec_parse_text(s) {
                Ok(e) => wf_expr(e),
                Err(_) => true,
            },
    {
        lemma_tokenize_wf(s);
        lemma_parse_wf(tokenize(s), 0);
    }
}

} // verus!
