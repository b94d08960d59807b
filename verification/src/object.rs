//! The runtime value model: a closed tagged union of the absorbing null
//! value, 64-bit numbers and first-class builtin functions.

use vstd::prelude::*;

verus! {

/// The implementation of a first-class builtin function, compared by
/// identity: the interpreter's builtin library is a closed set of native
/// operations, so an implementation is an interned handle naming one of
/// them.
#[derive(Debug, Clone, Copy, PartialEq, Eq, Structural)]
pub enum FunctionImplementation {
    Addition,
    Subtraction,
    Multiplication,
    Division,
}

/// A runtime value.
///
/// `Noop` is the absorbing null value: it is produced by unset variables,
/// by the literal `noop`, and by any arithmetic whose operand is not
/// numeric. A float is carried as the bit pattern of an IEEE 754 double,
/// which keeps the value model exact while all floating-point arithmetic
/// happens behind the `double` module.
#[derive(Debug, Clone, Copy, PartialEq, Eq, Structural)]
pub enum Object {
    Noop,
    Integer(i64),
    Float(u64),
    Function { argument_count: u16, implementation: FunctionImplementation },
}

impl FunctionImplementation {
    /// What calling this builtin yields for an ordered argument list.
    pub open spec fn spec_call(self, args: Seq<Object>) -> Object {
        crate::builtins::spec_call_args(self, args)
    }

    /// Invoke the native operation on an ordered argument list.
    pub fn call(&self, arguments: Vec<Object>) -> (r: Object)
        ensures
            r == self.spec_call(arguments@),
    {
        match self {
            FunctionImplementation::Addition => crate::builtins::add(arguments),
            FunctionImplementation::Subtraction => crate::builtins::sub(arguments),
            FunctionImplementation::Multiplication => crate::builtins::mul(arguments),
            FunctionImplementation::Division => crate::builtins::div(arguments),
        }
    }
}

impl Object {
    /// The integer payload, when the value is an integer.
    pub fn get_integer(&self) -> (r: Option<i64>)
        ensures
            r == (match *self {
                Object::Integer(value) => Some(value),
                _ => None::<i64>,
            }),
    {
        match self {
            Self::Integer(value) => Some(*value),
            _ => None,
        }
    }

    /// The bit pattern of the float payload, when the value is a float.
    pub fn get_float(&self) -> (r: Option<u64>)
        ensures
            r == (match *self {
                Object::Float(bits) => Some(bits),
                _ => None::<u64>,
            }),
    {
        match self {
            Self::Float(bits) => Some(*bits),
            _ => None,
        }
    }
}

} // verus!
