use twig::twig_interp::{interp_program, Env, InterpErrors, Types};
use twig::twig_parser::{BooleanOperator, Expression, MathOperator};

#[test]
fn test_interp_program_int() {
    let mut env = Env::new();
    let e = Expression::Integer(1);

    let result = interp_program(e, &mut env).unwrap();
    let expected = Types::Integer(1);

    assert_eq!(result, expected);
}

#[test]
fn test_interp_program_bool() {
    let mut env = Env::new();
    let e = Expression::Boolean(true);

    let result = interp_program(e, &mut env).unwrap();
    let expected = Types::Boolean(true);

    assert_eq!(result, expected);
}

#[test]
fn test_interp_program_string() {
    let mut env = Env::new();
    let e = Expression::String(String::from("string"));

    let result = interp_program(e, &mut env).unwrap();
    let expected = Types::String(String::from("string"));

    assert_eq!(result, expected);
}

#[test]
fn test_interp_program_int_id() {
    let mut env = Env::new();
    let id = "a";
    env.set(String::from(id), Types::Integer(1));
    let e = Expression::Identifier(String::from(id));

    let result = interp_program(e, &mut env).unwrap();
    let expected = Types::Integer(1);

    assert_eq!(result, expected);
}

#[test]
fn test_interp_program_bool_id() {
    let mut env = Env::new();
    let id = "a";
    env.set(String::from(id), Types::Boolean(true));
    let e = Expression::Identifier(String::from(id));

    let result = interp_program(e, &mut env).unwrap();
    let expected = Types::Boolean(true);

    assert_eq!(result, expected);
}

#[test]
fn test_interp_program_string_id() {
    let mut env = Env::new();
    let id = "a";
    let value = "value";
    env.set(String::from(id), Types::String(String::from(value)));
    let e = Expression::Identifier(String::from(id));

    let result = interp_program(e, &mut env).unwrap();
    let expected = Types::String(String::from(value));

    assert_eq!(result, expected);
}

#[test]
fn test_interp_program_bad_id() {
    let mut env = Env::new();
    let id = "a";
    let value = "value";
    env.set(String::from("b"), Types::String(String::from(value)));
    let e = Expression::Identifier(String::from(id));

    let result = interp_program(e, &mut env);

    assert_eq!(result.unwrap_err(), InterpErrors::VariableDoesNotExist);
}

#[test]
fn test_interp_program_let_stmt() {
    let mut env = Env::new();
    let id = "a";
    let e = Expression::LetStmt {
        identifier: String::from(id),
        value: Box::new(Expression::Integer(1)),
    };

    let result = interp_program(e, &mut env).unwrap();
    let env_result = env.get(id).unwrap();

    assert_eq!(result, Types::Unit);
    assert_eq!(*env_result, Types::Integer(1));
}

#[test]
fn test_interp_program_math_op_add() {
    let mut env = Env::new();
    let e = Expression::MathOp {
        lhs: Box::new(Expression::Integer(1)),
        op: MathOperator::Add,
        rhs: Box::new(Expression::Integer(1)),
    };

    let result = interp_program(e, &mut env).unwrap();

    assert_eq!(result, Types::Integer(2));
}

#[test]
fn test_interp_program_math_op_sub() {
    let mut env = Env::new();
    let e = Expression::MathOp {
        lhs: Box::new(Expression::Integer(1)),
        op: MathOperator::Subtract,
        rhs: Box::new(Expression::Integer(1)),
    };

    let result = interp_program(e, &mut env).unwrap();

    assert_eq!(result, Types::Integer(0));
}

#[test]
fn test_interp_program_math_op_mult() {
    let mut env = Env::new();
    let e = Expression::MathOp {
        lhs: Box::new(Expression::Integer(2)),
        op: MathOperator::Multiply,
        rhs: Box::new(Expression::Integer(3)),
    };

    let result = interp_program(e, &mut env).unwrap();

    assert_eq!(result, Types::Integer(6));
}

#[test]
fn test_interp_program_math_op_div() {
    let mut env = Env::new();
    let e = Expression::MathOp {
        lhs: Box::new(Expression::Integer(100)),
        op: MathOperator::Divide,
        rhs: Box::new(Expression::Integer(10)),
    };

    let result = interp_program(e, &mut env).unwrap();

    assert_eq!(result, Types::Integer(10));
}

#[test]
fn test_interp_program_math_op_err() {
    let mut env = Env::new();
    let e = Expression::MathOp {
        lhs: Box::new(Expression::Boolean(true)),
        op: MathOperator::Divide,
        rhs: Box::new(Expression::Integer(10)),
    };

    let result = interp_program(e, &mut env).unwrap_err();

    assert_eq!(result, InterpErrors::InvalidTypeError);
}

#[test]
fn test_interp_program_bool_op_eq() {
    let mut env = Env::new();
    let e = Expression::BooleanOp {
        lhs: Box::new(Expression::Boolean(true)),
        op: BooleanOperator::Equal,
        rhs: Box::new(Expression::Boolean(false)),
    };

    let result = interp_program(e, &mut env).unwrap();

    assert_eq!(result, Types::Boolean(false));
}

#[test]
fn test_interp_program_bool_op_le() {
    let mut env = Env::new();
    let e = Expression::BooleanOp {
        lhs: Box::new(Expression::Integer(1)),
        op: BooleanOperator::LessThan,
        rhs: Box::new(Expression::Integer(10)),
    };

    let result = interp_program(e, &mut env).unwrap();

    assert_eq!(result, Types::Boolean(true));
}

#[test]
fn test_interp_program_bool_op_leq() {
    let mut env = Env::new();
    let e = Expression::BooleanOp {
        lhs: Box::new(Expression::Integer(1)),
        op: BooleanOperator::LessThanOrEqual,
        rhs: Box::new(Expression::Integer(10)),
    };

    let result = interp_program(e, &mut env).unwrap();

    assert_eq!(result, Types::Boolean(true));
}

#[test]
fn test_interp_program_bool_op_ge() {
    let mut env = Env::new();
    let e = Expression::BooleanOp {
        lhs: Box::new(Expression::Integer(1)),
        op: BooleanOperator::GreaterThan,
        rhs: Box::new(Expression::Integer(10)),
    };

    let result = interp_program(e, &mut env).unwrap();

    assert_eq!(result, Types::Boolean(false));
}

#[test]
fn test_interp_program_bool_op_geq() {
    let mut env = Env::new();
    let e = Expression::BooleanOp {
        lhs: Box::new(Expression::Integer(1)),
        op: BooleanOperator::GreaterThanOrEqual,
        rhs: Box::new(Expression::Integer(10)),
    };

    let result = interp_program(e, &mut env).unwrap();

    assert_eq!(result, Types::Boolean(false));
}

#[test]
fn test_interp_program_bool_op_mismatch_type_err() {
    let mut env = Env::new();
    let e = Expression::BooleanOp {
        lhs: Box::new(Expression::Boolean(true)),
        op: BooleanOperator::GreaterThanOrEqual,
        rhs: Box::new(Expression::Integer(10)),
    };

    let result = interp_program(e, &mut env).unwrap_err();

    assert_eq!(result, InterpErrors::MismatchedTypeError);
}

#[test]
fn test_interp_program_int_eq() {
    let mut env = Env::new();
    let e = Expression::BooleanOp {
        lhs: Box::new(Expression::Integer(4)),
        op: BooleanOperator::Equal,
        rhs: Box::new(Expression::Integer(4)),
    };

    let result = interp_program(e, &mut env).unwrap();

    assert_eq!(result, Types::Boolean(true));
}

#[test]
fn test_interp_program_bool_op_gt_true_false() {
    let mut env = Env::new();
    let e = Expression::BooleanOp {
        lhs: Box::new(Expression::Boolean(true)),
        op: BooleanOperator::GreaterThan,
        rhs: Box::new(Expression::Boolean(false)),
    };

    let result = interp_program(e, &mut env).unwrap();

    assert_eq!(result, Types::Boolean(true));
}

#[test]
fn test_interp_program_string_compare_invalid() {
    let mut env = Env::new();
    let e = Expression::BooleanOp {
        lhs: Box::new(Expression::String(String::from("abc"))),
        op: BooleanOperator::Equal,
        rhs: Box::new(Expression::String(String::from("abc"))),
    };

    let result = interp_program(e, &mut env).unwrap_err();

    assert_eq!(result, InterpErrors::InvalidTypeError);
}

#[test]
fn test_interp_program_int_ge_bool_mismatch() {
    let mut env = Env::new();
    let e = Expression::BooleanOp {
        lhs: Box::new(Expression::Integer(1)),
        op: BooleanOperator::GreaterThanOrEqual,
        rhs: Box::new(Expression::Boolean(true)),
    };

    let result = interp_program(e, &mut env).unwrap_err();

    assert_eq!(result, InterpErrors::MismatchedTypeError);
}

#[test]
fn test_interp_program_division_by_zero() {
    let mut env = Env::new();
    let e = Expression::MathOp {
        lhs: Box::new(Expression::Integer(3)),
        op: MathOperator::Divide,
        rhs: Box::new(Expression::Integer(0)),
    };

    let result = interp_program(e, &mut env).unwrap_err();

    assert_eq!(result, InterpErrors::DivisionByZero);
}

#[test]
fn test_interp_program_division_truncates_toward_zero() {
    let mut env = Env::new();
    let e = Expression::MathOp {
        lhs: Box::new(Expression::Integer(-7)),
        op: MathOperator::Divide,
        rhs: Box::new(Expression::Integer(2)),
    };

    let result = interp_program(e, &mut env).unwrap();

    assert_eq!(result, Types::Integer(-3));
}

#[test]
fn test_interp_program_add_wraps_on_overflow() {
    let mut env = Env::new();
    let e = Expression::MathOp {
        lhs: Box::new(Expression::Integer(i32::MAX)),
        op: MathOperator::Add,
        rhs: Box::new(Expression::Integer(1)),
    };

    let result = interp_program(e, &mut env).unwrap();

    assert_eq!(result, Types::Integer(i32::MIN));
}

#[test]
fn test_interp_program_min_divided_by_minus_one_wraps() {
    let mut env = Env::new();
    let e = Expression::MathOp {
        lhs: Box::new(Expression::Integer(i32::MIN)),
        op: MathOperator::Divide,
        rhs: Box::new(Expression::Integer(-1)),
    };

    let result = interp_program(e, &mut env).unwrap();

    assert_eq!(result, Types::Integer(i32::MIN));
}

#[test]
fn test_interp_program_unbound_id_on_empty_env() {
    let mut env = Env::new();
    let e = Expression::Identifier(String::from("z"));

    let result = interp_program(e, &mut env).unwrap_err();

    assert_eq!(result, InterpErrors::VariableDoesNotExist);
}

#[test]
fn test_interp_program_session_let_then_use() {
    let mut env = Env::new();
    let bind = Expression::LetStmt {
        identifier: String::from("a"),
        value: Box::new(Expression::Integer(5)),
    };
    let useit = Expression::MathOp {
        lhs: Box::new(Expression::Identifier(String::from("a"))),
        op: MathOperator::Add,
        rhs: Box::new(Expression::Integer(1)),
    };

    let first = interp_program(bind, &mut env).unwrap();
    let second = interp_program(useit, &mut env).unwrap();

    assert_eq!(first, Types::Unit);
    assert_eq!(second, Types::Integer(6));
}

#[test]
fn test_interp_program_session_rebind_overwrites() {
    let mut env = Env::new();
    let first = Expression::LetStmt {
        identifier: String::from("a"),
        value: Box::new(Expression::Integer(5)),
    };
    let second = Expression::LetStmt {
        identifier: String::from("a"),
        value: Box::new(Expression::Integer(7)),
    };
    let lookup = Expression::Identifier(String::from("a"));

    interp_program(first, &mut env).unwrap();
    interp_program(second, &mut env).unwrap();
    let result = interp_program(lookup, &mut env).unwrap();

    assert_eq!(result, Types::Integer(7));
}

#[test]
fn test_interp_program_failed_let_leaves_env_alone() {
    let mut env = Env::new();
    let bad_bind = Expression::LetStmt {
        identifier: String::from("a"),
        value: Box::new(Expression::Identifier(String::from("missing"))),
    };

    let result = interp_program(bad_bind, &mut env).unwrap_err();

    assert_eq!(result, InterpErrors::VariableDoesNotExist);
    assert!(env.get("a").is_none());
}

#[test]
fn test_interp_program_sub_wraps_on_overflow() {
    let mut env = Env::new();
    let e = Expression::MathOp {
        lhs: Box::new(Expression::Integer(i32::MIN)),
        op: MathOperator::Subtract,
        rhs: Box::new(Expression::Integer(1)),
    };

    let result = interp_program(e, &mut env).unwrap();

    assert_eq!(result, Types::Integer(i32::MAX));
}

#[test]
fn test_interp_program_mult_wraps_on_overflow() {
    let mut env = Env::new();
    let e = Expression::MathOp {
        lhs: Box::new(Expression::Integer(i32::MAX)),
        op: MathOperator::Multiply,
        rhs: Box::new(Expression::Integer(2)),
    };

    let result = interp_program(e, &mut env).unwrap();

    assert_eq!(result, Types::Integer(-2));
}

#[test]
fn test_interp_program_right_operand_runs_after_left_fails() {
    let mut env = Env::new();
    let e = Expression::MathOp {
        lhs: Box::new(Expression::Identifier(String::from("missing"))),
        op: MathOperator::Add,
        rhs: Box::new(Expression::LetStmt {
            identifier: String::from("b"),
            value: Box::new(Expression::Integer(1)),
        }),
    };

    let result = interp_program(e, &mut env).unwrap_err();

    assert_eq!(result, InterpErrors::InvalidTypeError);
    assert_eq!(*env.get("b").unwrap(), Types::Integer(1));
}

#[test]
fn test_env_set_get_overwrite() {
    let mut env = Env::new();
    assert!(env.get("x").is_none());

    env.set(String::from("x"), Types::Integer(1));
    assert_eq!(*env.get("x").unwrap(), Types::Integer(1));

    env.set(String::from("x"), Types::Boolean(false));
    assert_eq!(*env.get("x").unwrap(), Types::Boolean(false));
}
