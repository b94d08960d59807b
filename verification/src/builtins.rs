//! The builtin arithmetic library: each of `+ - * /` is a two-argument
//! native operation over runtime values, with one numeric-coercion table
//! applied uniformly.
//!
//! Two integers stay integral (with the host's 64-bit wraparound); a float
//! on either side coerces the other operand to a double; a non-numeric
//! operand (the null value or a function) absorbs the operation to `Noop`.
//! Division of two integers stays integral exactly when the remainder is
//! zero. Two cases the coercion table leaves open are settled here and
//! stated in the contracts: an integer division by zero yields `Noop`, and
//! the one overflowing integer quotient wraps.

use crate::double;
use crate::object::FunctionImplementation;
use crate::object::Object;
use vstd::math::abs;
use vstd::prelude::*;

verus! {

/// The sum of two runtime values under the numeric-coercion table.
pub open spec fn spec_add(a: Object, b: Object) -> Object {
    match (a, b) {
        (Object::Integer(x), Object::Integer(y)) => Object::Integer(x.wrapping_add(y)),
        (Object::Integer(x), Object::Float(fb)) => Object::Float(
            double::dbl_add(double::dbl_of_i64(x), fb),
        ),
        (Object::Float(fa), Object::Integer(y)) => Object::Float(
            double::dbl_add(fa, double::dbl_of_i64(y)),
        ),
        (Object::Float(fa), Object::Float(fb)) => Object::Float(double::dbl_add(fa, fb)),
        _ => Object::Noop,
    }
}

/// The difference of two runtime values under the numeric-coercion table.
pub open spec fn spec_sub(a: Object, b: Object) -> Object {
    match (a, b) {
        (Object::Integer(x), Object::Integer(y)) => Object::Integer(x.wrapping_sub(y)),
        (Object::Integer(x), Object::Float(fb)) => Object::Float(
            double::dbl_sub(double::dbl_of_i64(x), fb),
        ),
        (Object::Float(fa), Object::Integer(y)) => Object::Float(
            double::dbl_sub(fa, double::dbl_of_i64(y)),
        ),
        (Object::Float(fa), Object::Float(fb)) => Object::Float(double::dbl_sub(fa, fb)),
        _ => Object::Noop,
    }
}

/// The product of two runtime values under the numeric-coercion table.
pub open spec fn spec_mul(a: Object, b: Object) -> Object {
    match (a, b) {
        (Object::Integer(x), Object::Integer(y)) => Object::Integer(x.wrapping_mul(y)),
        (Object::Integer(x), Object::Float(fb)) => Object::Float(
            double::dbl_mul(double::dbl_of_i64(x), fb),
        ),
        (Object::Float(fa), Object::Integer(y)) => Object::Float(
            double::dbl_mul(fa, double::dbl_of_i64(y)),
        ),
        (Object::Float(fa), Object::Float(fb)) => Object::Float(double::dbl_mul(fa, fb)),
        _ => Object::Noop,
    }
}

/// The quotient of two integers: integral when the division is exact,
/// a double otherwise. The exact case carries the magnitude of the
/// quotient with the sign of the operands. Division by zero yields `Noop`;
/// the one overflowing exact quotient (`i64::MIN / -1`) wraps to
/// `i64::MIN`.
pub open spec fn spec_div_ints(x: i64, y: i64) -> Object {
    let xm = abs(x as int);
    let ym = abs(y as int);
    if y == 0 {
        Object::Noop
    } else if x == i64::MIN && y == -1 {
        Object::Integer(i64::MIN)
    } else if xm % ym == 0 {
        Object::Integer(
            if (x < 0) != (y < 0) {
                (-((xm / ym) as int)) as i64
            } else {
                ((xm / ym) as int) as i64
            },
        )
    } else {
        Object::Float(double::dbl_div(double::dbl_of_i64(x), double::dbl_of_i64(y)))
    }
}

/// The quotient of two runtime values under the numeric-coercion table.
pub open spec fn spec_div(a: Object, b: Object) -> Object {
    match (a, b) {
        (Object::Integer(x), Object::Integer(y)) => spec_div_ints(x, y),
        (Object::Integer(x), Object::Float(fb)) => Object::Float(
            double::dbl_div(double::dbl_of_i64(x), fb),
        ),
        (Object::Float(fa), Object::Integer(y)) => Object::Float(
            double::dbl_div(fa, double::dbl_of_i64(y)),
        ),
        (Object::Float(fa), Object::Float(fb)) => Object::Float(double::dbl_div(fa, fb)),
        _ => Object::Noop,
    }
}

/// One builtin operation applied to two values.
pub open spec fn spec_apply(f: FunctionImplementation, a: Object, b: Object) -> Object {
    match f {
        FunctionImplementation::Addition => spec_add(a, b),
        FunctionImplementation::Subtraction => spec_sub(a, b),
        FunctionImplementation::Multiplication => spec_mul(a, b),
        FunctionImplementation::Division => spec_div(a, b),
    }
}

/// What a builtin returns for a whole argument list: `Noop` when fewer
/// than two arguments arrive, and otherwise the operation applied to the
/// first two (further arguments are ignored).
pub open spec fn spec_call_args(f: FunctionImplementation, args: Seq<Object>) -> Object {
    if args.len() < 2 {
        Object::Noop
    } else {
        spec_apply(f, args[0], args[1])
    }
}

/// The builtin verb `+`.
pub fn add(args: Vec<Object>) -> (r: Object)
    ensures
        r == spec_call_args(FunctionImplementation::Addition, args@),
{
    if args.len() < 2 {
        return Object::Noop;
    }
    match (args[0], args[1]) {
        (Object::Integer(x), Object::Integer(y)) => Object::Integer(x.wrapping_add(y)),
        (Object::Integer(x), Object::Float(fb)) => Object::Float(
            double::add_bits(double::of_i64(x), fb),
        ),
        (Object::Float(fa), Object::Integer(y)) => Object::Float(
            double::add_bits(fa, double::of_i64(y)),
        ),
        (Object::Float(fa), Object::Float(fb)) => Object::Float(double::add_bits(fa, fb)),
        _ => Object::Noop,
    }
}

/// The builtin verb `-`.
pub fn sub(args: Vec<Object>) -> (r: Object)
    ensures
        r == spec_call_args(FunctionImplementation::Subtraction, args@),
{
    if args.len() < 2 {
        return Object::Noop;
    }
    match (args[0], args[1]) {
        (Object::Integer(x), Object::Integer(y)) => Object::Integer(x.wrapping_sub(y)),
        (Object::Integer(x), Object::Float(fb)) => Object::Float(
            double::sub_bits(double::of_i64(x), fb),
        ),
        (Object::Float(fa), Object::Integer(y)) => Object::Float(
            double::sub_bits(fa, double::of_i64(y)),
        ),
        (Object::Float(fa), Object::Float(fb)) => Object::Float(double::sub_bits(fa, fb)),
        _ => Object::Noop,
    }
}

/// The builtin verb `*`.
pub fn mul(args: Vec<Object>) -> (r: Object)
    ensures
        r == spec_call_args(FunctionImplementation::Multiplication, args@),
{
    if args.len() < 2 {
        return Object::Noop;
    }
    match (args[0], args[1]) {
        (Object::Integer(x), Object::Integer(y)) => Object::Integer(x.wrapping_mul(y)),
        (Object::Integer(x), Object::Float(fb)) => Object::Float(
            double::mul_bits(double::of_i64(x), fb),
        ),
        (Object::Float(fa), Object::Integer(y)) => Object::Float(
            double::mul_bits(fa, double::of_i64(y)),
        ),
        (Object::Float(fa), Object::Float(fb)) => Object::Float(double::mul_bits(fa, fb)),
        _ => Object::Noop,
    }
}

/// The builtin verb `/`.
pub fn div(args: Vec<Object>) -> (r: Object)
    ensures
        r == spec_call_args(FunctionImplementation::Division, args@),
{
    if args.len() < 2 {
        return Object::Noop;
    }
    match (args[0], args[1]) {
        (Object::Integer(x), Object::Integer(y)) => div_integers(x, y),
        (Object::Integer(x), Object::Float(fb)) => Object::Float(
            double::div_bits(double::of_i64(x), fb),
        ),
        (Object::Float(fa), Object::Integer(y)) => Object::Float(
            double::div_bits(fa, double::of_i64(y)),
        ),
        (Object::Float(fa), Object::Float(fb)) => Object::Float(double::div_bits(fa, fb)),
        _ => Object::Noop,
    }
}

/// The integer half of division: exact quotients stay integers, inexact
/// ones coerce both operands to doubles. The division is carried out on
/// the magnitudes, so the divisor is always positive.
fn div_integers(x: i64, y: i64) -> (r: Object)
    ensures
        r == spec_div_ints(x, y),
{
    if y == 0 {
        return Object::Noop;
    }
    if x == i64::MIN && y == -1 {
        return Object::Integer(i64::MIN);
    }
    let xm: u64 = magnitude(x);
    let ym: u64 = magnitude(y);
    let remainder = xm % ym;
    if remainder == 0 {
        let qm = xm / ym;
        let negative = (x < 0) != (y < 0);
        if negative {
            if qm == 9223372036854775808u64 {
                Object::Integer(i64::MIN)
            } else {
                Object::Integer(-(qm as i64))
            }
        } else {
            proof {
                lemma_small_exact_quotient(xm as int, ym as int, qm as int);
            }
            Object::Integer(qm as i64)
        }
    } else {
        Object::Float(double::div_bits(double::of_i64(x), double::of_i64(y)))
    }
}

/// The magnitude of a 64-bit signed integer.
fn magnitude(x: i64) -> (r: u64)
    ensures
        r == abs(x as int),
{
    if x == i64::MIN {
        9223372036854775808u64
    } else if x < 0 {
        (-x) as u64
    } else {
        x as u64
    }
}

/// An exact quotient of a magnitude below `2^63` by a divisor of at least
/// `2` stays below `2^63`: only `2^63 / 1` reaches it.
proof fn lemma_small_exact_quotient(xm: int, ym: int, qm: int)
    requires
        0 < ym,
        0 <= xm <= 0x8000_0000_0000_0000,
        ym == 1 ==> xm < 0x8000_0000_0000_0000,
        xm % ym == 0,
        qm == xm / ym,
    ensures
        qm < 0x8000_0000_0000_0000,
{
    vstd::arithmetic::div_mod::lemma_fundamental_div_mod(xm, ym);
    assert(xm == ym * qm);
    if qm >= 0x8000_0000_0000_0000 {
        assert(ym * qm >= ym * 0x8000_0000_0000_0000) by (nonlinear_arith)
            requires
                0 < ym && qm >= 0x8000_0000_0000_0000,
        ;
        assert(ym >= 2 ==> ym * 0x8000_0000_0000_0000 >= 2 * 0x8000_0000_0000_0000)
            by (nonlinear_arith);
        assert(false);
    }
}

/// The null value absorbs every builtin arithmetic operation: with `Noop`
/// on either side, each of the four operations yields `Noop`.
pub proof fn lemma_noop_absorbs(x: Object)
    ensures
        spec_add(Object::Noop, x) == Object::Noop,
        spec_add(x, Object::Noop) == Object::Noop,
        spec_sub(Object::Noop, x) == Object::Noop,
        spec_sub(x, Object::Noop) == Object::Noop,
        spec_mul(Object::Noop, x) == Object::Noop,
        spec_mul(x, Object::Noop) == Object::Noop,
        spec_div(Object::Noop, x) == Object::Noop,
        spec_div(x, Object::Noop) == Object::Noop,
{
}

} // verus!
