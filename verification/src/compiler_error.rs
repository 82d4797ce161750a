use vstd::prelude::*;

use crate::types::Type;
use crate::value::Value;

verus! {

/// The ways compiling a BrainCrab program can fail.
#[derive(Debug)]
pub enum CompilerError<'a> {
    UndefinedVariable(&'a str),
    AlreadyDefinedVariable(&'a str),
    NoFreeAddresses,
    UnclosedLoop,
    NonAsciiString(String),
    MutableBorrowOfImmutableVariable(Value),
    CantRegisterBorrowedValues(&'a str),
    TypeError { expected: Type, actual: Type },
    InvalidReinterpretCast { original: Type, new: Type },
    ArrayHasDifferentTypes { expected: Type, index: u16, actual: Type },
    NotAnArray(Type),
    /// A value would be moved into a variable that it occupies itself.
    OverlappingValues,
}

/// The result of a step of compiling.
pub type CompileResult<'a, A> = Result<A, CompilerError<'a>>;

} // verus!
