//! Evaluation support: assignment detection, and compilation of an
//! expression tree to a postfix instruction program.
//!
//! The numeric work itself is floating point and is done by the host
//! that runs the program; everything decided here — how an atom
//! resolves, which operator applies, the left-before-right order of
//! evaluation, and every fatal condition — is verified.

use vstd::prelude::*;

use crate::expr::Expression;
use crate::token::{is_digit_char, is_letter_char};

verus! {

/// The six operators an expression can compute with. `=` and `.`
/// parse, but no operation is defined for them.
#[derive(Debug, Clone, Copy, PartialEq, Eq, Structural)]
pub enum OpKind {
    /// `+`
    Add,
    /// `-`
    Sub,
    /// `*`
    Mul,
    /// `/`
    Div,
    /// `^`: the left operand raised to the right.
    Pow,
    /// `√`: the right-th root of the left operand, i.e. the left
    /// operand raised to the reciprocal of the right.
    Root,
}

/// One step of a postfix program: push a digit literal, push the
/// value bound to a variable, or replace the two topmost values with
/// the operation applied to them (the deeper one on the left).
#[derive(Debug, Clone, Copy, PartialEq, Eq, Structural)]
pub enum Instr {
    PushDigit(u8),
    PushVar(char),
    Apply(OpKind),
}

/// A fatal evaluation failure; it carries the offending character.
#[derive(Debug, Clone, Copy, PartialEq, Eq, Structural)]
pub enum EvalError {
    /// A variable that the mapping does not bind.
    UndefinedVariable(char),
    /// A leaf character that is neither a digit nor a letter.
    BadAtom(char),
    /// An operator with no defined operation, such as `=` or `.` in
    /// operand position.
    BadOperator(char),
    /// An assignment whose target is not a letter.
    NotAVariableName(char),
    /// An assignment whose target is not an atom at all.
    MalformedAssignment,
}

/// The operation a character stands for, or `None`.
pub open spec fn spec_op_kind(op: char) -> Option<OpKind> {
    if op == '+' {
        Some(OpKind::Add)
    } else if op == '-' {
        Some(OpKind::Sub)
    } else if op == '*' {
        Some(OpKind::Mul)
    } else if op == '/' {
        Some(OpKind::Div)
    } else if op == '^' {
        Some(OpKind::Pow)
    } else if op == '√' {
        Some(OpKind::Root)
    } else {
        None
    }
}

/// The numeric value of a digit character.
pub open spec fn digit_val(c: char) -> u8 {
    (c as int - '0' as int) as u8
}

/// The postfix program of a tree, given the variable names the
/// mapping binds: a subtree's program leaves its value on the stack,
/// an operation runs its left operand's program, then its right
/// operand's, then applies. Errors surface in evaluation order — the
/// whole left operand, then the whole right, then the node's own
/// operator.
pub open spec fn spec_compile(e: Expression, vars: Seq<char>) -> Result<Seq<Instr>, EvalError>
    decreases e,
{
    match e {
        Expression::Atom(c) => if is_digit_char(c) {
            Ok(seq![Instr::PushDigit(digit_val(c))])
        } else if is_letter_char(c) {
            if vars.contains(c) {
                Ok(seq![Instr::PushVar(c)])
            } else {
                Err(EvalError::UndefinedVariable(c))
            }
        } else {
            Err(EvalError::BadAtom(c))
        },
        Expression::Operation(op, l, r) => match spec_compile(*l, vars) {
            Err(e1) => Err(e1),
            Ok(lp) => match spec_compile(*r, vars) {
                Err(e2) => Err(e2),
                Ok(rp) => match spec_op_kind(op) {
                    None => Err(EvalError::BadOperator(op)),
                    Some(k) => Ok(lp + rp + seq![Instr::Apply(k)]),
                },
            },
        },
    }
}

/// The stack depth after running a program from depth `d`: a push
/// deepens the stack by one, an application consumes two values and
/// leaves one, and `None` marks an underflow.
pub open spec fn spec_stack_depth(prog: Seq<Instr>, d: int) -> Option<int>
    decreases prog.len(),
{
    if prog.len() == 0 {
        Some(d)
    } else {
        match prog[0] {
            Instr::Apply(_) => if d >= 2 {
                spec_stack_depth(prog.drop_first(), d - 1)
            } else {
                None
            },
            _ => spec_stack_depth(prog.drop_first(), d + 1),
        }
    }
}

/// Running one program after another chains their depths.
proof fn lemma_stack_depth_concat(p1: Seq<Instr>, p2: Seq<Instr>, d: int, d1: int)
    requires
        spec_stack_depth(p1, d) == Some(d1),
    ensures
        spec_stack_depth(p1 + p2, d) == spec_stack_depth(p2, d1),
    decreases p1.len(),
{
    if p1.len() == 0 {
        assert(p1 + p2 =~= p2);
    } else {
        assert((p1 + p2).drop_first() =~= p1.drop_first() + p2);
        match p1[0] {
            Instr::Apply(_) => {
                lemma_stack_depth_concat(p1.drop_first(), p2, d - 1, d1);
            },
            _ => {
                lemma_stack_depth_concat(p1.drop_first(), p2, d + 1, d1);
            },
        }
    }
}

/// Law: a compiled program is a sound postfix program — run from any
/// non-negative starting depth, it never underflows and leaves
/// exactly one more value on the stack than it found, the tree's
/// value.
pub proof fn lemma_compile_stack_discipline(e: Expression, vars: Seq<char>, d: int)
    requires
        d >= 0,
    ensures
        match spec_compile(e, vars) {
            Ok(prog) => spec_stack_depth(prog, d) == Some(d + 1),
            Err(_) => true,
        },
    decreases e,
{
    match e {
        Expression::Atom(c) => {
            if spec_compile(e, vars) is Ok {
                let prog = spec_compile(e, vars)->Ok_0;
                assert(prog.len() == 1 && !(prog[0] is Apply));
                assert(prog.drop_first() =~= Seq::<Instr>::empty());
                assert(spec_stack_depth(prog.drop_first(), d + 1) == Some(d + 1));
                assert(spec_stack_depth(prog, d) == Some(d + 1));
            }
        },
        Expression::Operation(op, l, r) => {
            lemma_compile_stack_discipline(*l, vars, d);
            lemma_compile_stack_discipline(*r, vars, d + 1);
            match (spec_compile(*l, vars), spec_compile(*r, vars), spec_op_kind(op)) {
                (Ok(lp), Ok(rp), Some(k)) => {
                    let tail = seq![Instr::Apply(k)];
                    lemma_stack_depth_concat(lp, rp + tail, d, d + 1);
                    lemma_stack_depth_concat(rp, tail, d + 1, d + 2);
                    assert(lp + rp + tail =~= lp + (rp + tail));
                    assert(tail.drop_first() =~= Seq::<Instr>::empty());
                    assert(tail.len() == 1 && tail[0] == Instr::Apply(k));
                    assert(spec_stack_depth(Seq::<Instr>::empty(), d + 1) == Some(d + 1));
                    assert(spec_stack_depth(tail.drop_first(), d + 1) == Some(d + 1));
                    assert(spec_stack_depth(tail, d + 2) == Some(d + 1));
                },
                _ => {},
            }
        },
    }
}

/// What assignment detection sees at the root: `Ok(None)` for an
/// ordinary expression, the target letter and the right-hand side for
/// an `=` node, an error for an `=` node whose left side is not a
/// letter atom.
pub open spec fn spec_assignment(e: Expression) -> Result<Option<(char, Expression)>, EvalError> {
    match e {
        Expression::Atom(_) => Ok(None),
        Expression::Operation(op, l, r) => if op == '=' {
            match *l {
                Expression::Atom(c) => if is_letter_char(c) {
                    Ok(Some((c, *r)))
                } else {
                    Err(EvalError::NotAVariableName(c))
                },
                Expression::Operation(_, _, _) => Err(EvalError::MalformedAssignment),
            }
        } else {
            Ok(None)
        },
    }
}

/// The operation a character stands for, or `None`.
pub fn op_kind(op: char) -> (r: Option<OpKind>)
    ensures
        r == spec_op_kind(op),
{
    match op {
        '+' => Some(OpKind::Add),
        '-' => Some(OpKind::Sub),
        '*' => Some(OpKind::Mul),
        '/' => Some(OpKind::Div),
        '^' => Some(OpKind::Pow),
        '√' => Some(OpKind::Root),
        _ => None,
    }
}

/// Whether `vars` holds `c`.
fn contains_char(vars: &Vec<char>, c: char) -> (r: bool)
    ensures
        r == vars@.contains(c),
{
    let n = vars.len();
    let mut i: usize = 0;
    while i < n
        invariant
            i <= n,
            n == vars@.len(),
            forall|j: int| 0 <= j < i ==> vars@[j] != c,
        decreases n - i,
    {
        if vars[i] == c {
            return true;
        }
        i = i + 1;
    }
    false
}

impl Expression {
    /// Detects an assignment at the root of the tree. Only the root
    /// is inspected; `=` nodes further down are left for evaluation
    /// to reject.
    pub fn is_asign(&self) -> (r: Result<Option<(char, &Expression)>, EvalError>)
        ensures
            match r {
                Ok(None) => spec_assignment(*self) == Ok::<Option<(char, Expression)>, EvalError>(
                    None,
                ),
                Ok(Some((c, rhs))) => spec_assignment(*self) == Ok::<
                    Option<(char, Expression)>,
                    EvalError,
                >(Some((c, *rhs))),
                Err(err) => spec_assignment(*self) == Err::<
                    Option<(char, Expression)>,
                    EvalError,
                >(err),
            },
    {
        match self {
            Expression::Atom(_) => Ok(None),
            Expression::Operation(op, l, r) => {
                if *op == '=' {
                    match &**l {
                        Expression::Atom(c) => {
                            if ('a' <= *c && *c <= 'z') || ('A' <= *c && *c <= 'Z') {
                                Ok(Some((*c, &**r)))
                            } else {
                                Err(EvalError::NotAVariableName(*c))
                            }
                        },
                        Expression::Operation(_, _, _) => Err(EvalError::MalformedAssignment),
                    }
                } else {
                    Ok(None)
                }
            },
        }
    }

    /// Compiles the tree to its postfix program, resolving digit
    /// leaves to their values and checking every variable leaf
    /// against the names in `vars`.
    pub fn compile(&self, vars: &Vec<char>) -> (r: Result<Vec<Instr>, EvalError>)
        ensures
            match r {
                Ok(prog) => spec_compile(*self, vars@) == Ok::<Seq<Instr>, EvalError>(prog@),
                Err(err) => spec_compile(*self, vars@) == Err::<Seq<Instr>, EvalError>(err),
            },
        decreases self,
    {
        match self {
            Expression::Atom(c) => {
                if '0' <= *c && *c <= '9' {
                    let d: u8 = (*c as u32 - '0' as u32) as u8;
                    let prog = vec![Instr::PushDigit(d)];
                    proof {
                        assert(prog@ =~= seq![Instr::PushDigit(digit_val(*c))]);
                    }
                    Ok(prog)
                } else if ('a' <= *c && *c <= 'z') || ('A' <= *c && *c <= 'Z') {
                    if contains_char(vars, *c) {
                        let prog = vec![Instr::PushVar(*c)];
                        proof {
                            assert(prog@ =~= seq![Instr::PushVar(*c)]);
                        }
                        Ok(prog)
                    } else {
                        Err(EvalError::UndefinedVariable(*c))
                    }
                } else {
                    Err(EvalError::BadAtom(*c))
                }
            },
            Expression::Operation(op, l, r) => {
                let mut prog = match l.compile(vars) {
                    Ok(lp) => lp,
                    Err(e1) => {
                        return Err(e1);
                    },
                };
                let mut rp = match r.compile(vars) {
                    Ok(rp) => rp,
                    Err(e2) => {
                        return Err(e2);
                    },
                };
                match op_kind(*op) {
                    None => Err(EvalError::BadOperator(*op)),
                    Some(k) => {
                        prog.append(&mut rp);
                        prog.push(Instr::Apply(k));
                        proof {
                            let lp_s = spec_compile(**l, vars@) ->Ok_0;
                            let rp_s = spec_compile(**r, vars@) ->Ok_0;
                            assert(prog@ =~= lp_s + rp_s + seq![Instr::Apply(k)]);
                        }
                        Ok(prog)
                    },
                }
            },
        }
    }
}

} // verus!
