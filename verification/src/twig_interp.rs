//! The evaluator: walks an `Expression` AST against a mutable binding
//! environment, type-checking each operation dynamically.
//!
//! Arithmetic follows two's-complement `i32` semantics: `+`, `-` and `*`
//! wrap around on overflow, `/` truncates toward zero (and wraps on the one
//! overflowing quotient, `i32::MIN / -1`). Division by zero is reported as
//! the dedicated `DivisionByZero` error rather than a fault.

use vstd::prelude::*;

use crate::twig_parser::{BooleanOperator, Expression, MathOperator};

verus! {

/// The runtime result of evaluating an `Expression`. `Unit` is produced by
/// binding statements only.
#[derive(Debug, PartialEq)]
pub enum Types {
    Integer(i32),
    Boolean(bool),
    String(String),
    Unit,
}

impl Clone for Types {
    /// A value read out of the environment is handed to the caller as a copy.
    fn clone(&self) -> (result: Types)
        ensures
            result == *self,
    {
        match self {
            Types::Integer(value) => Types::Integer(*value),
            Types::Boolean(value) => Types::Boolean(*value),
            Types::String(value) => Types::String(value.clone()),
            Types::Unit => Types::Unit,
        }
    }
}

/// The typed failures evaluation can report. All are non-fatal to a session.
#[derive(Debug, PartialEq)]
pub enum InterpErrors {
    MismatchedTypeError,
    InvalidTypeError,
    VariableDoesNotExist,
    DivisionByZero,
}

/// The binding table of one session: a flat mapping from identifier text to
/// the value last bound to it.
pub struct Env {
    table: vstd::hash_map::StringHashMap<Types>,
}

impl View for Env {
    type V = Map<Seq<char>, Types>;

    closed spec fn view(&self) -> Map<Seq<char>, Types> {
        self.table@
    }
}

impl Env {
    /// An environment with no bindings, as at the start of a session.
    pub fn new() -> (env: Env)
        ensures
            env@ == Map::<Seq<char>, Types>::empty(),
    {
        Env { table: vstd::hash_map::StringHashMap::new() }
    }

    /// Binds `name` to `value`, overwriting any prior binding of `name`.
    pub fn set(&mut self, name: String, value: Types)
        ensures
            final(self)@ == old(self)@.insert(name@, value),
    {
        self.table.insert(name, value);
    }

    /// The value currently bound to `name`; absence is a normal return.
    pub fn get(&self, name: &str) -> (result: Option<&Types>)
        ensures
            match result {
                Some(value) => self@.contains_key(name@) && *value == self@[name@],
                None => !self@.contains_key(name@),
            },
    {
        self.table.get(name)
    }
}

/// Truncating (round toward zero) integer division, the semantics of Rust's
/// `/` on machine integers; `int` division itself rounds toward negative
/// infinity.
pub open spec fn trunc_div(x: int, d: int) -> int
    recommends
        d != 0,
{
    if x == 0 {
        0
    } else if x > 0 && d > 0 {
        x / d
    } else if x < 0 && d < 0 {
        (x * -1) / (d * -1)
    } else if x < 0 {
        ((x * -1) / d) * -1
    } else {
        (x / (d * -1)) * -1
    }
}

/// The quotient an `i32` division yields: truncating division, except that
/// the one overflowing case, `i32::MIN / -1`, wraps back to `i32::MIN`.
pub open spec fn div_wrap(l: i32, r: i32) -> i32
    recommends
        r != 0,
{
    if l == i32::MIN && r == -1 {
        i32::MIN
    } else {
        trunc_div(l as int, r as int) as i32
    }
}

/// What a math operation yields once both operands are evaluated: both must
/// be integers (anything else, a failed operand included, is
/// `InvalidTypeError`), and the operator is applied with wrapping `i32`
/// semantics; dividing by zero is `DivisionByZero`.
pub open spec fn math_result(
    lhs: Result<Types, InterpErrors>,
    op: MathOperator,
    rhs: Result<Types, InterpErrors>,
) -> Result<Types, InterpErrors> {
    match (lhs, rhs) {
        (Ok(Types::Integer(l)), Ok(Types::Integer(r))) => match op {
            MathOperator::Add => Ok(Types::Integer(vstd::wrapping::i32_specs::wrapping_add(l, r))),
            MathOperator::Subtract => Ok(
                Types::Integer(vstd::wrapping::i32_specs::wrapping_sub(l, r)),
            ),
            MathOperator::Multiply => Ok(
                Types::Integer(vstd::wrapping::i32_specs::wrapping_mul(l, r)),
            ),
            MathOperator::Divide => if r == 0 {
                Err(InterpErrors::DivisionByZero)
            } else {
                Ok(Types::Integer(div_wrap(l, r)))
            },
        },
        _ => Err(InterpErrors::InvalidTypeError),
    }
}

/// How a comparison operator relates two integers.
pub open spec fn compare(l: int, op: BooleanOperator, r: int) -> bool {
    match op {
        BooleanOperator::Equal => l == r,
        BooleanOperator::GreaterThan => l > r,
        BooleanOperator::GreaterThanOrEqual => l >= r,
        BooleanOperator::LessThan => l < r,
        BooleanOperator::LessThanOrEqual => l <= r,
    }
}

/// The integer a boolean compares as: `false` as 0, `true` as 1.
pub open spec fn bool_as_int(b: bool) -> int {
    if b {
        1
    } else {
        0
    }
}

/// What a comparison yields once both operands are evaluated: two integers
/// compare numerically, two booleans through the 0/1 mapping, two strings
/// are rejected as `InvalidTypeError` (as is a failed operand), and any
/// other pairing of comparable kinds is `MismatchedTypeError`.
pub open spec fn bool_result(
    lhs: Result<Types, InterpErrors>,
    op: BooleanOperator,
    rhs: Result<Types, InterpErrors>,
) -> Result<Types, InterpErrors> {
    match (lhs, rhs) {
        (Ok(l), Ok(r)) => match (l, r) {
            (Types::Integer(i), Types::Integer(j)) => Ok(
                Types::Boolean(compare(i as int, op, j as int)),
            ),
            (Types::Boolean(i), Types::Boolean(j)) => Ok(
                Types::Boolean(compare(bool_as_int(i), op, bool_as_int(j))),
            ),
            (Types::String(_), Types::String(_)) => Err(InterpErrors::InvalidTypeError),
            _ => Err(InterpErrors::MismatchedTypeError),
        },
        _ => Err(InterpErrors::InvalidTypeError),
    }
}

/// The meaning of one statement: the value (or error) it evaluates to and
/// the environment it leaves behind. Operands are evaluated left first,
/// right second, and both sides of a binary operation are evaluated even
/// when the left one fails, so the right side's bindings always take effect.
pub open spec fn interp_expr(expr: Expression, env: Map<Seq<char>, Types>) -> (Result<
    Types,
    InterpErrors,
>, Map<Seq<char>, Types>)
    decreases expr,
{
    match expr {
        Expression::Integer(value) => (Ok(Types::Integer(value)), env),
        Expression::Boolean(value) => (Ok(Types::Boolean(value)), env),
        Expression::String(value) => (Ok(Types::String(value)), env),
        Expression::MathOp { lhs, op, rhs } => {
            let (lres, env1) = interp_expr(*lhs, env);
            let (rres, env2) = interp_expr(*rhs, env1);
            (math_result(lres, op, rres), env2)
        },
        Expression::BooleanOp { lhs, op, rhs } => {
            let (lres, env1) = interp_expr(*lhs, env);
            let (rres, env2) = interp_expr(*rhs, env1);
            (bool_result(lres, op, rres), env2)
        },
        Expression::LetStmt { identifier, value } => {
            let (vres, env1) = interp_expr(*value, env);
            match vres {
                Ok(v) => (Ok(Types::Unit), env1.insert(identifier@, v)),
                Err(e) => (Err(e), env1),
            }
        },
        Expression::Identifier(var) => if env.contains_key(var@) {
            (Ok(env[var@]), env)
        } else {
            (Err(InterpErrors::VariableDoesNotExist), env)
        },
    }
}

/// Truncating `i32` division on magnitudes carried as `u32`, so that every
/// intermediate value stays in range; the overflowing `i32::MIN / -1` wraps.
fn div_i32(l: i32, r: i32) -> (q: i32)
    requires
        r != 0,
    ensures
        q == div_wrap(l, r),
{
    if l == i32::MIN && r == -1 {
        i32::MIN
    } else {
        let labs: u32 = if l < 0 {
            (-(l as i64)) as u32
        } else {
            l as u32
        };
        let rabs: u32 = if r < 0 {
            (-(r as i64)) as u32
        } else {
            r as u32
        };
        let quot: u32 = labs / rabs;
        proof {
            vstd::arithmetic::div_mod::lemma_div_nonincreasing(labs as int, rabs as int);
        }
        if (l < 0) != (r < 0) {
            (-(quot as i64)) as i32
        } else {
            quot as i32
        }
    }
}

/// Computes the `Types` value of `expr`, threading the binding environment:
/// the result and the final environment are exactly those that
/// `interp_expr` ascribes to the statement.
pub fn interp_program(expr: Expression, env: &mut Env) -> (result: Result<Types, InterpErrors>)
    ensures
        result == interp_expr(expr, old(env)@).0,
        final(env)@ == interp_expr(expr, old(env)@).1,
    decreases expr,
{
    match expr {
        Expression::Integer(value) => Ok(Types::Integer(value)),
        Expression::Boolean(value) => Ok(Types::Boolean(value)),
        Expression::String(value) => Ok(Types::String(value)),
        Expression::MathOp { lhs, op, rhs } => {
            let lres = interp_program(*lhs, env);
            let rres = interp_program(*rhs, env);
            match (lres, rres) {
                (Ok(Types::Integer(l)), Ok(Types::Integer(r))) => match op {
                    MathOperator::Add => Ok(Types::Integer(l.wrapping_add(r))),
                    MathOperator::Subtract => Ok(Types::Integer(l.wrapping_sub(r))),
                    MathOperator::Multiply => Ok(Types::Integer(l.wrapping_mul(r))),
                    MathOperator::Divide => if r == 0 {
                        Err(InterpErrors::DivisionByZero)
                    } else {
                        Ok(Types::Integer(div_i32(l, r)))
                    },
                },
                _ => Err(InterpErrors::InvalidTypeError),
            }
        },
        Expression::BooleanOp { lhs, op, rhs } => {
            let lres = interp_program(*lhs, env);
            let rres = interp_program(*rhs, env);
            match (lres, rres) {
                (Ok(l), Ok(r)) => match (l, r) {
                    (Types::Integer(i), Types::Integer(j)) => Ok(
                        Types::Boolean(compare_i32(i, op, j)),
                    ),
                    (Types::Boolean(i), Types::Boolean(j)) => Ok(
                        Types::Boolean(compare_i32(bool_to_i32(i), op, bool_to_i32(j))),
                    ),
                    (Types::String(_), Types::String(_)) => Err(InterpErrors::InvalidTypeError),
                    _ => Err(InterpErrors::MismatchedTypeError),
                },
                _ => Err(InterpErrors::InvalidTypeError),
            }
        },
        Expression::LetStmt { identifier, value } => match interp_program(*value, env) {
            Ok(result) => {
                env.set(identifier, result);
                Ok(Types::Unit)
            },
            Err(e) => Err(e),
        },
        Expression::Identifier(var) => match env.get(var.as_str()) {
            Some(value) => Ok(value.clone()),
            None => Err(InterpErrors::VariableDoesNotExist),
        },
    }
}

/// Law: addition of integer literals evaluates to their exact sum whenever
/// that sum fits in `i32`, and leaves the environment alone.
pub proof fn lemma_interp_add(a: i32, b: i32, env: Map<Seq<char>, Types>)
    requires
        i32::MIN <= a + b <= i32::MAX,
    ensures
        interp_expr(
            (Expression::MathOp {
                lhs: Box::new(Expression::Integer(a)),
                op: MathOperator::Add,
                rhs: Box::new(Expression::Integer(b)),
            }),
            env,
        ) == (Ok::<Types, InterpErrors>(Types::Integer((a + b) as i32)), env),
{
    assert(interp_expr(Expression::Integer(a), env) == (
        Ok::<Types, InterpErrors>(Types::Integer(a)),
        env,
    ));
    assert(interp_expr(Expression::Integer(b), env) == (
        Ok::<Types, InterpErrors>(Types::Integer(b)),
        env,
    ));
}

/// Law: subtraction of integer literals evaluates to their exact difference
/// whenever that difference fits in `i32`.
pub proof fn lemma_interp_subtract(a: i32, b: i32, env: Map<Seq<char>, Types>)
    requires
        i32::MIN <= a - b <= i32::MAX,
    ensures
        interp_expr(
            (Expression::MathOp {
                lhs: Box::new(Expression::Integer(a)),
                op: MathOperator::Subtract,
                rhs: Box::new(Expression::Integer(b)),
            }),
            env,
        ) == (Ok::<Types, InterpErrors>(Types::Integer((a - b) as i32)), env),
{
    assert(interp_expr(Expression::Integer(a), env) == (
        Ok::<Types, InterpErrors>(Types::Integer(a)),
        env,
    ));
    assert(interp_expr(Expression::Integer(b), env) == (
        Ok::<Types, InterpErrors>(Types::Integer(b)),
        env,
    ));
}

/// Law: multiplication of integer literals evaluates to their exact product
/// whenever that product fits in `i32`.
pub proof fn lemma_interp_multiply(a: i32, b: i32, env: Map<Seq<char>, Types>)
    requires
        i32::MIN <= a * b <= i32::MAX,
    ensures
        interp_expr(
            (Expression::MathOp {
                lhs: Box::new(Expression::Integer(a)),
                op: MathOperator::Multiply,
                rhs: Box::new(Expression::Integer(b)),
            }),
            env,
        ) == (Ok::<Types, InterpErrors>(Types::Integer((a * b) as i32)), env),
{
    assert(interp_expr(Expression::Integer(a), env) == (
        Ok::<Types, InterpErrors>(Types::Integer(a)),
        env,
    ));
    assert(interp_expr(Expression::Integer(b), env) == (
        Ok::<Types, InterpErrors>(Types::Integer(b)),
        env,
    ));
    assert(vstd::wrapping::i32_specs::wrapping_mul(a, b) == (a * b) as i32) by {
        vstd::arithmetic::div_mod::lemma_small_mod((a * b - i32::MIN) as nat, 0x1_0000_0000);
        assert(a * b == (a * b - i32::MIN) + i32::MIN);
    };
}

/// Law: division of integer literals evaluates to their quotient, truncated
/// toward zero, for every divisor other than zero (and short of the one
/// wrapping case, `i32::MIN / -1`, which no `i32` can hold).
pub proof fn lemma_interp_divide(a: i32, b: i32, env: Map<Seq<char>, Types>)
    requires
        b != 0,
        !(a == i32::MIN && b == -1),
    ensures
        interp_expr(
            (Expression::MathOp {
                lhs: Box::new(Expression::Integer(a)),
                op: MathOperator::Divide,
                rhs: Box::new(Expression::Integer(b)),
            }),
            env,
        ) == (
            Ok::<Types, InterpErrors>(Types::Integer(trunc_div(a as int, b as int) as i32)),
            env,
        ),
        i32::MIN <= trunc_div(a as int, b as int) <= i32::MAX,
        a >= 0 && b > 0 ==> trunc_div(a as int, b as int) == a as int / b as int,
{
    assert(interp_expr(Expression::Integer(a), env) == (
        Ok::<Types, InterpErrors>(Types::Integer(a)),
        env,
    ));
    assert(interp_expr(Expression::Integer(b), env) == (
        Ok::<Types, InterpErrors>(Types::Integer(b)),
        env,
    ));
    let x = a as int;
    let d = b as int;
    if x > 0 && d > 0 {
        vstd::arithmetic::div_mod::lemma_div_nonincreasing(x, d);
        vstd::arithmetic::div_mod::lemma_div_pos_is_pos(x, d);
    } else if x < 0 && d < 0 {
        vstd::arithmetic::div_mod::lemma_div_pos_is_pos(x * -1, d * -1);
        if d == -1 {
            // `a` is not `i32::MIN` here, so the magnitude itself fits
            vstd::arithmetic::div_mod::lemma_div_nonincreasing(x * -1, 1);
        } else {
            vstd::arithmetic::div_mod::lemma_div_is_ordered_by_denominator(x * -1, 2, d * -1);
            vstd::arithmetic::div_mod::lemma_div_is_ordered(x * -1, 0x8000_0000, 2);
        }
    } else if x < 0 {
        vstd::arithmetic::div_mod::lemma_div_nonincreasing(x * -1, d);
        vstd::arithmetic::div_mod::lemma_div_pos_is_pos(x * -1, d);
    } else if x > 0 {
        vstd::arithmetic::div_mod::lemma_div_nonincreasing(x, d * -1);
        vstd::arithmetic::div_mod::lemma_div_pos_is_pos(x, d * -1);
    }
}

/// Law: dividing by the integer literal zero reports `DivisionByZero` and
/// leaves the environment alone.
pub proof fn lemma_interp_divide_by_zero(a: i32, env: Map<Seq<char>, Types>)
    ensures
        interp_expr(
            (Expression::MathOp {
                lhs: Box::new(Expression::Integer(a)),
                op: MathOperator::Divide,
                rhs: Box::new(Expression::Integer(0)),
            }),
            env,
        ) == (Err::<Types, InterpErrors>(InterpErrors::DivisionByZero), env),
{
    assert(interp_expr(Expression::Integer(a), env) == (
        Ok::<Types, InterpErrors>(Types::Integer(a)),
        env,
    ));
    assert(interp_expr(Expression::Integer(0), env) == (
        Ok::<Types, InterpErrors>(Types::Integer(0)),
        env,
    ));
}

/// Law: comparing two integer literals yields exactly what the comparison
/// operator says of the two numbers, for all five operators.
pub proof fn lemma_interp_compare_integers(
    a: i32,
    op: BooleanOperator,
    b: i32,
    env: Map<Seq<char>, Types>,
)
    ensures
        interp_expr(
            (Expression::BooleanOp {
                lhs: Box::new(Expression::Integer(a)),
                op,
                rhs: Box::new(Expression::Integer(b)),
            }),
            env,
        ) == (Ok::<Types, InterpErrors>(Types::Boolean(compare(a as int, op, b as int))), env),
{
    assert(interp_expr(Expression::Integer(a), env) == (
        Ok::<Types, InterpErrors>(Types::Integer(a)),
        env,
    ));
    assert(interp_expr(Expression::Integer(b), env) == (
        Ok::<Types, InterpErrors>(Types::Integer(b)),
        env,
    ));
}

/// Law: comparing two boolean literals compares them through the 0/1
/// mapping, so `true` exceeds `false` and equality is structural.
pub proof fn lemma_interp_compare_booleans(
    x: bool,
    op: BooleanOperator,
    y: bool,
    env: Map<Seq<char>, Types>,
)
    ensures
        interp_expr(
            (Expression::BooleanOp {
                lhs: Box::new(Expression::Boolean(x)),
                op,
                rhs: Box::new(Expression::Boolean(y)),
            }),
            env,
        ) == (
            Ok::<Types, InterpErrors>(Types::Boolean(compare(bool_as_int(x), op, bool_as_int(y)))),
            env,
        ),
{
    assert(interp_expr(Expression::Boolean(x), env) == (
        Ok::<Types, InterpErrors>(Types::Boolean(x)),
        env,
    ));
    assert(interp_expr(Expression::Boolean(y), env) == (
        Ok::<Types, InterpErrors>(Types::Boolean(y)),
        env,
    ));
}

/// Law: the five comparisons relate as expected: `<` and `>` (and `<=` and
/// `>=`) are converses, equality is symmetric, the strict comparisons are
/// irreflexive and the non-strict ones reflexive.
pub proof fn lemma_compare_laws(a: int, b: int)
    ensures
        compare(a, BooleanOperator::LessThan, b) == compare(b, BooleanOperator::GreaterThan, a),
        compare(a, BooleanOperator::LessThanOrEqual, b) == compare(
            b,
            BooleanOperator::GreaterThanOrEqual,
            a,
        ),
        compare(a, BooleanOperator::Equal, b) == compare(b, BooleanOperator::Equal, a),
        !compare(a, BooleanOperator::LessThan, a),
        !compare(a, BooleanOperator::GreaterThan, a),
        compare(a, BooleanOperator::LessThanOrEqual, a),
        compare(a, BooleanOperator::GreaterThanOrEqual, a),
        compare(a, BooleanOperator::Equal, a),
{
}

/// Law: comparing two string values always fails with `InvalidTypeError`,
/// whatever the strings and the operator, and leaves the environment alone.
pub proof fn lemma_interp_compare_strings(
    x: String,
    op: BooleanOperator,
    y: String,
    env: Map<Seq<char>, Types>,
)
    ensures
        interp_expr(
            (Expression::BooleanOp {
                lhs: Box::new(Expression::String(x)),
                op,
                rhs: Box::new(Expression::String(y)),
            }),
            env,
        ) == (Err::<Types, InterpErrors>(InterpErrors::InvalidTypeError), env),
{
    assert(interp_expr(Expression::String(x), env) == (
        Ok::<Types, InterpErrors>(Types::String(x)),
        env,
    ));
    assert(interp_expr(Expression::String(y), env) == (
        Ok::<Types, InterpErrors>(Types::String(y)),
        env,
    ));
}

/// Law: comparing an integer with a boolean fails with
/// `MismatchedTypeError`, in either order, for all five operators.
pub proof fn lemma_interp_compare_mismatched(
    i: i32,
    op: BooleanOperator,
    b: bool,
    env: Map<Seq<char>, Types>,
)
    ensures
        interp_expr(
            (Expression::BooleanOp {
                lhs: Box::new(Expression::Integer(i)),
                op,
                rhs: Box::new(Expression::Boolean(b)),
            }),
            env,
        ) == (Err::<Types, InterpErrors>(InterpErrors::MismatchedTypeError), env),
        interp_expr(
            (Expression::BooleanOp {
                lhs: Box::new(Expression::Boolean(b)),
                op,
                rhs: Box::new(Expression::Integer(i)),
            }),
            env,
        ) == (Err::<Types, InterpErrors>(InterpErrors::MismatchedTypeError), env),
{
    assert(interp_expr(Expression::Integer(i), env) == (
        Ok::<Types, InterpErrors>(Types::Integer(i)),
        env,
    ));
    assert(interp_expr(Expression::Boolean(b), env) == (
        Ok::<Types, InterpErrors>(Types::Boolean(b)),
        env,
    ));
}

/// Law: looking an identifier up returns the value bound to it, or
/// `VariableDoesNotExist` when nothing is; the environment never changes.
pub proof fn lemma_interp_identifier(name: String, env: Map<Seq<char>, Types>)
    ensures
        env.contains_key(name@) ==> interp_expr(Expression::Identifier(name), env) == (
            Ok::<Types, InterpErrors>(env[name@]),
            env,
        ),
        !env.contains_key(name@) ==> interp_expr(Expression::Identifier(name), env) == (
            Err::<Types, InterpErrors>(InterpErrors::VariableDoesNotExist),
            env,
        ),
{
}

/// Law: a binding statement whose right-hand side succeeds yields `Unit`
/// and binds the name to that value; looking the name up right after gives
/// the bound value back.
pub proof fn lemma_session_bind_then_lookup(
    name: String,
    value: Expression,
    env: Map<Seq<char>, Types>,
)
    requires
        interp_expr(value, env).0 is Ok,
    ensures
        ({
            let stmt = (Expression::LetStmt { identifier: name, value: Box::new(value) });
            let (r1, env1) = interp_expr(stmt, env);
            let (r2, env2) = interp_expr(Expression::Identifier(name), env1);
            &&& r1 == Ok::<Types, InterpErrors>(Types::Unit)
            &&& env1 == interp_expr(value, env).1.insert(name@, interp_expr(value, env).0->Ok_0)
            &&& r2 == Ok::<Types, InterpErrors>(interp_expr(value, env).0->Ok_0)
            &&& env2 == env1
        }),
{
}

/// Law: binding a name twice keeps only the later value: the environment a
/// rebinding leaves behind is the one a single binding of the later value
/// leaves behind.
pub proof fn lemma_rebind_last_wins(env: Map<Seq<char>, Types>, name: Seq<char>, v1: Types, v2: Types)
    ensures
        env.insert(name, v1).insert(name, v2) == env.insert(name, v2),
        env.insert(name, v1)[name] == v1,
{
    assert(env.insert(name, v1).insert(name, v2) =~= env.insert(name, v2));
}

/// Applies a comparison operator to two `i32` operands.
fn compare_i32(l: i32, op: BooleanOperator, r: i32) -> (result: bool)
    ensures
        result == compare(l as int, op, r as int),
{
    match op {
        BooleanOperator::Equal => l == r,
        BooleanOperator::GreaterThan => l > r,
        BooleanOperator::GreaterThanOrEqual => l >= r,
        BooleanOperator::LessThan => l < r,
        BooleanOperator::LessThanOrEqual => l <= r,
    }
}

/// The integer a boolean compares as.
fn bool_to_i32(b: bool) -> (result: i32)
    ensures
        result as int == bool_as_int(b),
{
    if b {
        1
    } else {
        0
    }
}

} // verus!
