//! An integer expression node's arithmetic: checked 64-bit evaluation
//! over the values bound to its free variables, where an overflow is a
//! refusal that names the operation, never a wrap.

use vstd::prelude::*;
use crate::text::{push_signed_decimal_long, signed_decimal};

verus! {

/// A binary operator of the expression language.
#[derive(Debug, Clone, Copy, PartialEq, Eq, Structural)]
pub enum BinOp {
    Add,
    Sub,
    Mul,
    Div,
    Pow,
}

/// An expression as the integer evaluator reads it.
#[derive(Debug)]
pub enum IntExpr {
    /// A literal that is an exact integer.
    Number(i64),
    /// A literal outside the exact integer range, with its refusal.
    Inexact(String),
    /// A free variable, by name.
    Var(String),
    /// Negation.
    Neg(Box<IntExpr>),
    /// A binary operation.
    Binary(BinOp, Box<IntExpr>, Box<IntExpr>),
}

/// The value bound to a variable: an integer, or some other kind (by
/// its name).
#[derive(Debug, Clone, PartialEq, Eq)]
pub enum Bound {
    Integer(i64),
    Other(String),
}

/// A variable and its value.
#[derive(Debug, Clone, PartialEq, Eq)]
pub struct Variable {
    pub name: String,
    pub value: Bound,
}

/// The first variable named `name`.
pub open spec fn lookup(vars: Seq<Variable>, name: Seq<char>) -> Option<Bound>
    decreases vars.len(),
{
    if vars.len() == 0 {
        None
    } else if vars[0].name@ == name {
        Some(vars[0].value)
    } else {
        lookup(vars.drop_first(), name)
    }
}

/// Fits a signed 64-bit integer.
pub open spec fn fits_i64(n: int) -> bool {
    i64::MIN <= n <= i64::MAX
}

/// An operator's symbol.
pub open spec fn op_symbol(op: BinOp) -> Seq<char> {
    match op {
        BinOp::Add => "+"@,
        BinOp::Sub => "-"@,
        BinOp::Mul => "*"@,
        BinOp::Div => "/"@,
        BinOp::Pow => "^"@,
    }
}

/// The value of `e` in integer mode, or why there is none: operands
/// left to right, the first refusal standing; `/` and `^` are not
/// integer operators; a result outside 64 bits is an overflow.
pub open spec fn eval_int(e: IntExpr, vars: Seq<Variable>) -> Result<int, Seq<char>>
    decreases e,
{
    match e {
        IntExpr::Number(v) => Ok(v as int),
        IntExpr::Inexact(refusal) => Err(refusal@),
        IntExpr::Var(name) => match lookup(vars, name@) {
            None => Err("unbound expression variable `"@ + name@ + "`"@),
            Some(Bound::Integer(i)) => Ok(i as int),
            Some(Bound::Other(kind)) => Err(
                "integer expression got a "@ + kind@ + " for `"@ + name@ + "` \u{2014} checker bug"@,
            ),
        },
        IntExpr::Neg(operand) => match eval_int(*operand, vars) {
            Err(reason) => Err(reason),
            Ok(v) => if fits_i64(-v) {
                Ok(-v)
            } else {
                Err("integer overflow in `-`"@)
            },
        },
        IntExpr::Binary(op, lhs, rhs) => match eval_int(*lhs, vars) {
            Err(reason) => Err(reason),
            Ok(a) => match eval_int(*rhs, vars) {
                Err(reason) => Err(reason),
                Ok(b) => {
                    let exact = match op {
                        BinOp::Add => a + b,
                        BinOp::Sub => a - b,
                        _ => a * b,
                    };
                    if op == BinOp::Div || op == BinOp::Pow {
                        Err("non-integer operator in integer mode \u{2014} checker bug"@)
                    } else if fits_i64(exact) {
                        Ok(exact)
                    } else {
                        Err(
                            "integer overflow in `"@ + signed_decimal(a) + " "@ + op_symbol(op) + " "@
                                + signed_decimal(b) + "`"@,
                        )
                    }
                },
            },
        },
    }
}

/// The value bound to `name`, if any.
fn find_variable<'a>(vars: &'a [Variable], name: &String) -> (found: Option<&'a Bound>)
    ensures
        match found {
            Some(b) => lookup(vars@, name@) == Some(*b),
            None => lookup(vars@, name@) is None,
        },
{
    let mut k: usize = 0;
    assert(vars@.skip(0) =~= vars@);
    while k < vars.len()
        invariant
            0 <= k <= vars@.len(),
            lookup(vars@, name@) == lookup(vars@.skip(k as int), name@),
        decreases vars@.len() - k,
    {
        assert(vars@.skip(k as int)[0] == vars@[k as int]);
        assert(vars@.skip(k as int).drop_first() =~= vars@.skip(k + 1));
        if crate::text::same_text(vars[k].name.as_str(), name.as_str()) {
            return Some(&vars[k].value);
        }
        k += 1;
    }
    assert(vars@.skip(k as int).len() == 0);
    None
}

/// `head`, then `text`, then `tail`.
fn framed(head: &str, text: &str, tail: &str) -> (out: String)
    ensures
        out@ == head@ + text@ + tail@,
{
    let mut out = head.to_owned();
    out.append(text);
    out.append(tail);
    out
}

/// The views of an evaluation.
pub open spec fn evaluation_view(r: Result<i64, String>) -> Result<int, Seq<char>> {
    match r {
        Ok(v) => Ok(v as int),
        Err(reason) => Err(reason@),
    }
}

/// Evaluate an integer expression (see [`eval_int`]).
pub fn eval_integer(e: &IntExpr, vars: &[Variable]) -> (value: Result<i64, String>)
    ensures
        evaluation_view(value) == eval_int(*e, vars@),
    decreases e,
{
    match e {
        IntExpr::Number(v) => Ok(*v),
        IntExpr::Inexact(refusal) => Err(refusal.clone()),
        IntExpr::Var(name) => match find_variable(vars, name) {
            None => Err(framed("unbound expression variable `", name.as_str(), "`")),
            Some(Bound::Integer(i)) => Ok(*i),
            Some(Bound::Other(kind)) => {
                let mut out = framed("integer expression got a ", kind.as_str(), " for `");
                out.append(name.as_str());
                out.append("` \u{2014} checker bug");
                Err(out)
            },
        },
        IntExpr::Neg(operand) => {
            match eval_integer(operand, vars) {
                Err(reason) => Err(reason),
                Ok(v) => if v == i64::MIN {
                    Err("integer overflow in `-`".to_owned())
                } else {
                    Ok(-v)
                },
            }
        },
        IntExpr::Binary(op, lhs, rhs) => {
            let a = match eval_integer(lhs, vars) {
                Err(reason) => {
                    return Err(reason);
                },
                Ok(a) => a,
            };
            let b = match eval_integer(rhs, vars) {
                Err(reason) => {
                    return Err(reason);
                },
                Ok(b) => b,
            };
            let (result, symbol) = match op {
                BinOp::Add => (a.checked_add(b), "+"),
                BinOp::Sub => (a.checked_sub(b), "-"),
                BinOp::Mul => (a.checked_mul(b), "*"),
                BinOp::Div | BinOp::Pow => {
                    return Err("non-integer operator in integer mode \u{2014} checker bug".to_owned());
                },
            };
            match result {
                Some(r) => Ok(r),
                None => {
                    let mut out = "integer overflow in `".to_owned();
                    push_signed_decimal_long(&mut out, a);
                    out.append(" ");
                    out.append(symbol);
                    out.append(" ");
                    push_signed_decimal_long(&mut out, b);
                    out.append("`");
                    Err(out)
                },
            }
        },
    }
}

/// The exact value of `e` over the integers, with no width at all;
/// `None` for `/`, `^`, a refused literal and a variable that is unbound
/// or no integer.
pub open spec fn exact_value(e: IntExpr, vars: Seq<Variable>) -> Option<int>
    decreases e,
{
    match e {
        IntExpr::Number(v) => Some(v as int),
        IntExpr::Inexact(_) => None,
        IntExpr::Var(name) => match lookup(vars, name@) {
            Some(Bound::Integer(i)) => Some(i as int),
            _ => None,
        },
        IntExpr::Neg(operand) => match exact_value(*operand, vars) {
            Some(v) => Some(-v),
            None => None,
        },
        IntExpr::Binary(op, lhs, rhs) => match (exact_value(*lhs, vars), exact_value(*rhs, vars)) {
            (Some(a), Some(b)) => match op {
                BinOp::Add => Some(a + b),
                BinOp::Sub => Some(a - b),
                BinOp::Mul => Some(a * b),
                _ => None,
            },
            _ => None,
        },
    }
}

/// Integer mode never wraps: every value it answers is the exact value
/// of the expression, and fits 64 bits.
pub proof fn lemma_integer_mode_never_wraps(e: IntExpr, vars: Seq<Variable>)
    ensures
        eval_int(e, vars) matches Ok(v) ==> exact_value(e, vars) == Some(v) && fits_i64(v),
    decreases e,
{
    match e {
        IntExpr::Neg(operand) => {
            lemma_integer_mode_never_wraps(*operand, vars);
        },
        IntExpr::Binary(op, lhs, rhs) => {
            lemma_integer_mode_never_wraps(*lhs, vars);
            lemma_integer_mode_never_wraps(*rhs, vars);
        },
        _ => {},
    }
}


/// Every step of `e` has an exact value that fits 64 bits, and no step is
/// `/` or `^`: the expressions integer mode must answer.
pub open spec fn fits_throughout(e: IntExpr, vars: Seq<Variable>) -> bool
    decreases e,
{
    match e {
        IntExpr::Number(_) => true,
        IntExpr::Inexact(_) => false,
        IntExpr::Var(name) => lookup(vars, name@) matches Some(Bound::Integer(_)),
        IntExpr::Neg(operand) => fits_throughout(*operand, vars) && (exact_value(e, vars) matches Some(v)
            && fits_i64(v)),
        IntExpr::Binary(op, lhs, rhs) => op != BinOp::Div && op != BinOp::Pow && fits_throughout(*lhs, vars)
            && fits_throughout(*rhs, vars) && (exact_value(e, vars) matches Some(v) && fits_i64(v)),
    }
}

/// Integer mode refuses only what does not fit: an expression whose
/// every step has an exact value within 64 bits (and uses no `/` or `^`)
/// evaluates to its exact value.
pub proof fn lemma_integer_mode_answers_what_fits(e: IntExpr, vars: Seq<Variable>)
    ensures
        fits_throughout(e, vars) ==> exact_value(e, vars) is Some && eval_int(e, vars) == Ok::<int, Seq<char>>(
            exact_value(e, vars)->0,
        ),
    decreases e,
{
    match e {
        IntExpr::Neg(operand) => {
            lemma_integer_mode_answers_what_fits(*operand, vars);
        },
        IntExpr::Binary(op, lhs, rhs) => {
            lemma_integer_mode_answers_what_fits(*lhs, vars);
            lemma_integer_mode_answers_what_fits(*rhs, vars);
        },
        _ => {},
    }
}

/// Each operator, once its operands evaluate to `a` and `b`, answers the
/// exact result over the integers when it fits 64 bits and refuses
/// exactly when it does not: `a + b`, `a - b`, `a * b`; `/` and `^` are
/// always refused.
pub proof fn lemma_operators_are_exact(op: BinOp, lhs: IntExpr, rhs: IntExpr, vars: Seq<Variable>, a: int, b: int)
    requires
        eval_int(lhs, vars) == Ok::<int, Seq<char>>(a),
        eval_int(rhs, vars) == Ok::<int, Seq<char>>(b),
    ensures
        op == BinOp::Add && fits_i64(a + b) ==> eval_int(IntExpr::Binary(op, Box::new(lhs), Box::new(rhs)), vars)
            == Ok::<int, Seq<char>>(a + b),
        op == BinOp::Sub && fits_i64(a - b) ==> eval_int(IntExpr::Binary(op, Box::new(lhs), Box::new(rhs)), vars)
            == Ok::<int, Seq<char>>(a - b),
        op == BinOp::Mul && fits_i64(a * b) ==> eval_int(IntExpr::Binary(op, Box::new(lhs), Box::new(rhs)), vars)
            == Ok::<int, Seq<char>>(a * b),
        op == BinOp::Add && !fits_i64(a + b) ==> eval_int(IntExpr::Binary(op, Box::new(lhs), Box::new(rhs)), vars) is Err,
        op == BinOp::Sub && !fits_i64(a - b) ==> eval_int(IntExpr::Binary(op, Box::new(lhs), Box::new(rhs)), vars) is Err,
        op == BinOp::Mul && !fits_i64(a * b) ==> eval_int(IntExpr::Binary(op, Box::new(lhs), Box::new(rhs)), vars) is Err,
        op == BinOp::Div || op == BinOp::Pow ==> eval_int(IntExpr::Binary(op, Box::new(lhs), Box::new(rhs)), vars) is Err,
        fits_i64(-a) ==> eval_int(IntExpr::Neg(Box::new(lhs)), vars) == Ok::<int, Seq<char>>(-a),
        !fits_i64(-a) ==> eval_int(IntExpr::Neg(Box::new(lhs)), vars) is Err,
{
}

} // verus!
