pub mod abf_ast;
pub mod abf_compiler;
pub mod abf_optimizer;
pub mod abf_program_builder;
pub mod abf_semantics;

pub use abf_ast::{ABFInstruction, ABFProgram};
pub use abf_compiler::ABFCompiler;
pub use abf_optimizer::ABFOptimizer;
pub use abf_program_builder::ABFProgramBuilder;
