//! The error model: typed error variants, and the wrapper that adds
//! the offending instruction and its ordinal.

use vstd::prelude::*;

use crate::data::{ConstID, IdentID, Op, Type};

verus! {

/// The binary operation that a [`Error::BadOperandTypes`] error names.
#[derive(Clone, Copy, Debug)]
pub enum BinOp {
    Sum,
    Subtraction,
    Multiplication,
    Division,
    Ordering,
}

/// An execution failure, without instruction context.
#[derive(Debug)]
pub enum Error {
    /// A coercion or dereference found the wrong variant: `(expected, actual)`.
    TypeError(Type, Type),
    /// An identifier was unresolved in the full frame chain: `(scope_depth, id)`.
    VariableNotFound(usize, IdentID),
    /// A constant id was out of range of the constants pool.
    ConstantNotFound(ConstID),
    /// An attempt to pop the root frame.
    IllegalStackPop,
    /// An operand-stack underflow.
    IllegalRegisterPop,
    /// A conversion to an unsupported target type: `(from, to)`.
    IllegalConversion(Type, Type),
    /// An error propagated out of a nested execution.
    RuntimeErrorInSubJob(Box<RuntimeError>),
    /// A binary operator applied to incompatible variants.
    BadOperandTypes(BinOp, Type, Type),
    /// A structural frame index out of range.
    BadScopeIndex(usize),
    /// The run outlived the interpreter's step budget.  Every run is
    /// bounded by an astronomically large number of machine steps
    /// (`2^64 - 1`); a program that exhausts it — in practice, one
    /// that does not terminate — fails with this error instead of
    /// running forever.
    StepBudgetExhausted,
}

/// An [`Error`] together with the instruction that raised it and that
/// instruction's ordinal within its procedure.  Both are absent for
/// errors that occur outside instruction dispatch (for example while
/// resolving the callee of a job).
#[derive(Debug)]
pub struct RuntimeError {
    pub instruction: Option<Op>,
    pub instruction_num: Option<usize>,
    pub error: Error,
}

impl RuntimeError {
    /// Wraps an error that occurred outside instruction dispatch.
    pub fn bare(error: Error) -> (r: RuntimeError)
        ensures
            r == (RuntimeError { instruction: None, instruction_num: None, error }),
    {
        RuntimeError { instruction: None, instruction_num: None, error }
    }

    /// Wraps an error raised by the instruction `inst`, the `num`th of
    /// its procedure.
    pub fn at(inst: Op, num: usize, error: Error) -> (r: RuntimeError)
        ensures
            r == (RuntimeError {
                instruction: Some(inst),
                instruction_num: Some(num),
                error,
            }),
    {
        RuntimeError { instruction: Some(inst), instruction_num: Some(num), error }
    }
}

} // verus!
