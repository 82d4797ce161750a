use vstd::prelude::*;

use crate::abf::{ABFCompiler, ABFOptimizer};
use crate::bf_core::{trees_path, BFProgram, SpecBFTree};
use crate::compiler::BrainCrabCompiler;
use crate::compiler_error::CompilerError;
use crate::parser::{instructions_at, BrainCrabParser, ParseError};

verus! {

/// Why a BrainCrab script gave no Brainfuck program.
#[derive(Debug)]
pub enum ScriptError<'a> {
    /// The script holds a character that is not ASCII.
    NonAsciiProgram,
    /// The script does not parse.
    Parse(ParseError<'a>),
    /// A constant of the script is an empty array or mixes types.
    BadConstant,
    /// The script parses but does not compile.
    Compile(CompilerError<'a>),
    /// The optimizer met a variable it does not know.
    Optimize,
    /// The ABF program uses a variable it never declared, or needs more cells than the tape has.
    Backend,
}

/// Compiles a BrainCrab script to Brainfuck: it is parsed, compiled to ABF, optimized where
/// `optimize` holds (folding what is known, clearing unused variables and placing frees), and
/// compiled to Brainfuck, whose pointer never leaves the tape. Each stage's failure is its own
/// error.
pub fn compile_script<'a>(script: &'a str, optimize: bool) -> (r: Result<BFProgram, ScriptError<'a>>)
    requires
        script@.len() < usize::MAX,
    ensures
        !script.is_ascii() <==> r matches Err(ScriptError::NonAsciiProgram),
        script.is_ascii() ==> ((r matches Err(ScriptError::Parse(_))) <==> instructions_at(script@, 0).1 != script@.len()),
        r matches Err(ScriptError::BadConstant) ==> instructions_at(script@, 0).1 == script@.len(),
        r matches Ok(p) ==> trees_path(p@, 0) is Some,
        r is Ok ==> script.is_ascii() && instructions_at(script@, 0).1 == script@.len(),
        script.is_ascii() && instructions_at(script@, 0).1 == script@.len() && instructions_at(script@, 0).0.len() == 0 && !optimize ==> (r matches Ok(
            p,
        ) && p@ == Seq::<SpecBFTree>::empty()),
{
    if !script.is_ascii() {
        return Err(ScriptError::NonAsciiProgram);
    }
    let mut parser = BrainCrabParser::new();
    let parsed = match parser.parse_program(script) {
        Ok(parsed) => parsed,
        Err(e) => return Err(ScriptError::Parse(e)),
    };
    let program = parsed.value;
    if !program.constants_ok() {
        return Err(ScriptError::BadConstant);
    }
    let abf = match BrainCrabCompiler::compile_abf(program) {
        Ok(abf) => abf,
        Err(e) => return Err(ScriptError::Compile(e)),
    };
    let abf = if optimize {
        let mut optimized = match ABFOptimizer::optimize_abf(&abf) {
            Some(p) => p,
            None => return Err(ScriptError::Optimize),
        };
        optimized.clear_unused_variables();
        optimized.optimize_frees();
        optimized
    } else {
        abf
    };
    match ABFCompiler::compile_to_bf(&abf) {
        Some(bf) => Ok(bf),
        None => Err(ScriptError::Backend),
    }
}

} // verus!
