use vstd::prelude::*;

pub mod abf;
pub mod absolute_bf;
pub mod allocator;
pub mod ast;
pub mod bf_core;
pub mod compiler;
pub mod compiler_error;
pub mod constant_value;
pub mod emitted_code;
pub mod new_abf;
pub mod parser;
pub mod script;
pub mod text;
pub mod types;
pub mod value;

verus! {
}
