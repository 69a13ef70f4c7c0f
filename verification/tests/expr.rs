use cicada_server::expr::{eval_integer, BinOp, Bound, IntExpr, Variable};

fn var(name: &str) -> Box<IntExpr> {
    Box::new(IntExpr::Var(name.to_owned()))
}

fn num(v: i64) -> Box<IntExpr> {
    Box::new(IntExpr::Number(v))
}

fn bin(op: BinOp, lhs: Box<IntExpr>, rhs: Box<IntExpr>) -> IntExpr {
    IntExpr::Binary(op, lhs, rhs)
}

fn vars() -> Vec<Variable> {
    vec![
        Variable {
            name: "n".to_owned(),
            value: Bound::Integer(7),
        },
        Variable {
            name: "big".to_owned(),
            value: Bound::Integer(i64::MAX),
        },
        Variable {
            name: "x".to_owned(),
            value: Bound::Other("Number".to_owned()),
        },
        Variable {
            name: "n".to_owned(),
            value: Bound::Integer(100),
        },
    ]
}

#[test]
fn integer_expressions_evaluate_with_checked_arithmetic() {
    let e = bin(BinOp::Mul, Box::new(bin(BinOp::Add, var("n"), num(3))), num(-2));
    assert_eq!(eval_integer(&e, &vars()), Ok(-20), "the first `n` binds");
    assert_eq!(
        eval_integer(&IntExpr::Neg(num(i64::MIN)), &vars()),
        Err("integer overflow in `-`".to_owned())
    );
    assert_eq!(eval_integer(&IntExpr::Neg(var("n")), &vars()), Ok(-7));
    assert_eq!(
        eval_integer(&bin(BinOp::Add, var("big"), num(1)), &vars()),
        Err("integer overflow in `9223372036854775807 + 1`".to_owned())
    );
    assert_eq!(
        eval_integer(&bin(BinOp::Mul, num(i64::MIN), num(-1)), &vars()),
        Err("integer overflow in `-9223372036854775808 * -1`".to_owned())
    );
    assert_eq!(
        eval_integer(&bin(BinOp::Sub, num(i64::MIN), num(1)), &vars()),
        Err("integer overflow in `-9223372036854775808 - 1`".to_owned())
    );
}

#[test]
fn integer_expressions_refuse_what_the_checker_should_have() {
    assert_eq!(
        eval_integer(&bin(BinOp::Div, num(4), num(2)), &vars()),
        Err("non-integer operator in integer mode \u{2014} checker bug".to_owned())
    );
    assert_eq!(
        eval_integer(&IntExpr::Var("x".to_owned()), &vars()),
        Err("integer expression got a Number for `x` \u{2014} checker bug".to_owned())
    );
    assert_eq!(
        eval_integer(&IntExpr::Var("y".to_owned()), &vars()),
        Err("unbound expression variable `y`".to_owned())
    );
    // The left operand's refusal stands over the right's and the operator's.
    assert_eq!(
        eval_integer(
            &bin(BinOp::Pow, var("y"), Box::new(IntExpr::Inexact("too big".to_owned()))),
            &vars()
        ),
        Err("unbound expression variable `y`".to_owned())
    );
    assert_eq!(
        eval_integer(&IntExpr::Inexact("too big".to_owned()), &vars()),
        Err("too big".to_owned())
    );
}
