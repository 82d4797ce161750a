use braincrab::abf::{ABFCompiler, ABFOptimizer};
use braincrab::ast::{Expression, Instruction, Program};
use braincrab::constant_value::ConstantValue;
use braincrab::bf_core::{BFAction, BFInterpreter, BFProgram};
use braincrab::compiler::BrainCrabCompiler;
use braincrab::compiler_error::CompilerError;
use braincrab::types::Type;
use braincrab::parser::BrainCrabParser;
use braincrab::script::{compile_script, ScriptError};

fn run(program: &BFProgram, input: &[u8]) -> Vec<u8> {
    let code = program.flatten();
    let mut interpreter = BFInterpreter::new();
    let mut output = Vec::new();
    let mut input_index = 0;
    let mut pc = 0;
    let mut pending: Option<u8> = None;
    let mut steps = 0u64;
    while pc < code.len() {
        steps += 1;
        assert!(steps < 50_000_000, "the program runs too long");
        match interpreter.step(&code, pc, pending.take()) {
            BFAction::Continue(next) => pc = next,
            BFAction::Output(byte, next) => {
                output.push(byte);
                pc = next;
            }
            BFAction::NeedInput => {
                pending = Some(input[input_index]);
                input_index += 1;
            }
            BFAction::OutOfTape => panic!("the pointer left the tape"),
        }
    }
    output
}

/// Parses, compiles, optionally optimizes, compiles to Brainfuck, and runs.
fn compile_and_run(text: &str, input: &[u8], optimize: bool) -> Vec<u8> {
    let mut parser = BrainCrabParser::new();
    let program = match parser.parse_program(text) {
        Ok(parsed) => parsed.value,
        Err(error) => panic!("{}", error.to_string()),
    };
    assert!(program.constants_ok());
    let mut abf = BrainCrabCompiler::compile_abf(program).expect("compiles");
    if optimize {
        abf = ABFOptimizer::optimize_abf(&abf).expect("optimizes");
        abf.clear_unused_variables();
        abf.optimize_frees();
    }
    let bf = ABFCompiler::compile_to_bf(&abf).expect("fits on the tape");
    run(&bf, input)
}

/// The compiler's default path: compile, optimize, compile to Brainfuck, and run.
fn optimized(text: &str, input: &[u8]) -> Vec<u8> {
    compile_and_run(text, input, true)
}

#[test]
fn straight_code_runs_the_same_without_optimizing() {
    let text = "let x = 'A'; write(x); print(\"bc\");";
    assert_eq!(compile_and_run(text, b"", false), b"Abc".to_vec());
    assert_eq!(compile_and_run(text, b"", true), b"Abc".to_vec());
}

#[test]
fn writes_a_constant() {
    assert_eq!(optimized("let x = 'A'; write(x);", b""), b"A".to_vec());
}

#[test]
fn prints_a_string() {
    assert_eq!(optimized("print(\"Hello, World!\\n\");", b""), b"Hello, World!\n".to_vec());
}

#[test]
fn counts_down_in_a_loop() {
    let text = "let x = 'A'; mut y = 3; while y { write(x + y); y -= 1; }";
    assert_eq!(optimized(text, b""), b"DCB".to_vec());
}

#[test]
fn if_else_takes_the_right_branch() {
    let text = "let x = 65; if x == 65 { print(\"yes\"); } else { print(\"no\"); } if x == 66 { print(\"!\"); } else { print(\"?\"); }";
    assert_eq!(optimized(text, b""), b"yes?".to_vec());
}

#[test]
fn arithmetic_wraps_around() {
    let text = "let a = 200; let b = 100; write(a + b); write(b - a); write(a * 2); write(a / 7); write(a % 7);";
    assert_eq!(optimized(text, b""), vec![44, 156, 144, 28, 4]);
}

#[test]
fn comparisons_give_zero_for_false() {
    // A true comparison is any non-zero value: `<=` counts down to 255 where it holds, and
    // `!=` gives the difference of the two values.
    let text = "let a = 3; let b = 5; write(a < b); write(a > b); write(a <= 3); write(b >= 6); write(a != b); write(!(a == b));";
    assert_eq!(optimized(text, b""), vec![1, 0, 255, 0, 2, 1]);
}

#[test]
fn reads_input() {
    let text = "mut c = 0; read(c); c += 1; write(c);";
    assert_eq!(optimized(text, b"a"), b"b".to_vec());
}

#[test]
fn arrays_are_indexed() {
    let text = "let a = [10, 20, 30]; write(a[2]); write(a[0]);";
    assert_eq!(optimized(text, b""), vec![30, 10]);
}

#[test]
fn scopes_release_their_variables() {
    let text = "mut x = 1; { let y = 2; x += y; } write(x);";
    assert_eq!(optimized(text, b""), vec![3]);
}

#[test]
fn undefined_variable_is_an_error() {
    let mut parser = BrainCrabParser::new();
    let program = parser.parse_program("write(x);").ok().unwrap().value;
    let result = BrainCrabCompiler::compile_abf(program);
    assert!(matches!(result, Err(CompilerError::UndefinedVariable("x"))));
}

#[test]
fn defining_twice_in_one_scope_is_an_error() {
    let mut parser = BrainCrabParser::new();
    let program = parser.parse_program("let x = 1; let x = 2;").ok().unwrap().value;
    let result = BrainCrabCompiler::compile_abf(program);
    assert!(matches!(result, Err(CompilerError::AlreadyDefinedVariable("x"))));
}

#[test]
fn assigning_to_an_immutable_variable_is_an_error() {
    let mut parser = BrainCrabParser::new();
    let program = parser.parse_program("let x = 1; x += 1;").ok().unwrap().value;
    let result = BrainCrabCompiler::compile_abf(program);
    assert!(matches!(result, Err(CompilerError::MutableBorrowOfImmutableVariable(_))));
}

#[test]
fn mixing_types_is_an_error() {
    let mut parser = BrainCrabParser::new();
    let program = parser.parse_program("let x: bool = 1;").ok().unwrap().value;
    let result = BrainCrabCompiler::compile_abf(program);
    assert!(matches!(result, Err(CompilerError::TypeError { .. })));
}

#[test]
fn empty_arrays_are_not_placeable() {
    let program = Program {
        instructions: vec![Instruction::Write { expression: Expression::constant(ConstantValue::Array(vec![])) }],
    };
    assert!(!program.constants_ok());
    let mixed = Program {
        instructions: vec![Instruction::Write {
            expression: Expression::constant(ConstantValue::Array(vec![ConstantValue::U8(1), ConstantValue::Bool(true)])),
        }],
    };
    assert!(!mixed.constants_ok());
}

#[test]
fn assigning_a_borrowed_value_clears_then_copies_through_a_new_variable() {
    let mut compiler = BrainCrabCompiler::new();
    let a = compiler.value_from_const(ConstantValue::U8(7)).unwrap();
    let b = compiler.allocate(Type::U8).unwrap();
    compiler.assign(b.borrow(), a.borrow()).unwrap();
    compiler.write_value(b.borrow());
    compiler.write_value(a.borrow());
    let abf = compiler.get_result().unwrap();
    assert_eq!(
        abf.to_string(),
        "&0 = 7;\n&1 = 0;\nwhile &1 {\n    &1 += -1;\n}\n&2 = 0;\nwhile &0 {\n    &0 += -1;\n    &2 += 1;\n    &1 += 1;\n}\nwhile &2 {\n    &2 += -1;\n    &0 += 1;\n}\nwrite(&1);\nwrite(&0);\n"
    );
    let bf = ABFCompiler::compile_to_bf(&abf).expect("fits on the tape");
    assert_eq!(run(&bf, b""), vec![7, 7]);
}

#[test]
fn adding_an_owned_value_moves_it() {
    let mut compiler = BrainCrabCompiler::new();
    let a = compiler.value_from_const(ConstantValue::U8(200)).unwrap();
    let b = compiler.value_from_const(ConstantValue::U8(100)).unwrap();
    compiler.add_assign(a.borrow(), b).unwrap();
    compiler.write_value(a.borrow());
    let abf = compiler.get_result().unwrap();
    assert_eq!(abf.to_string(), "&0 = 200;\n&1 = 100;\nwhile &1 {\n    &1 += -1;\n    &0 += 1;\n}\nwrite(&0);\n");
    let bf = ABFCompiler::compile_to_bf(&abf).expect("fits on the tape");
    assert_eq!(run(&bf, b""), vec![44]);
}

#[test]
fn printing_a_string_declares_and_writes_each_byte() {
    let mut compiler = BrainCrabCompiler::new();
    compiler.print_string(String::from("Hi")).unwrap();
    let abf = compiler.get_result().unwrap();
    assert_eq!(abf.to_string(), "&0 = 72;\nwrite(&0);\n&1 = 105;\nwrite(&1);\n");
    let bf = ABFCompiler::compile_to_bf(&abf).expect("fits on the tape");
    assert_eq!(run(&bf, b""), b"Hi".to_vec());
}

#[test]
fn printing_non_ascii_text_is_an_error() {
    let mut compiler = BrainCrabCompiler::new();
    let result = compiler.print_string(String::from("é"));
    assert!(matches!(result, Err(CompilerError::NonAsciiString(_))));
}

#[test]
fn compile_script_runs_the_whole_pipeline() {
    let text = "mut x = 60; x += 5; write(x);";
    for optimize in [false, true] {
        let bf = compile_script(text, optimize).expect("compiles");
        assert_eq!(run(&bf, b""), b"A".to_vec());
    }
}

#[test]
fn compile_script_reports_each_stage() {
    assert!(matches!(compile_script("write(\u{e9});", false), Err(ScriptError::NonAsciiProgram)));
    assert!(matches!(compile_script("write(", false), Err(ScriptError::Parse(_))));
    assert!(matches!(compile_script("write(x);", false), Err(ScriptError::Compile(CompilerError::UndefinedVariable("x")))));
    assert!(compile_script("", false).expect("compiles").0.is_empty());
}

#[test]
fn adding_a_bool_to_a_byte_is_a_type_error() {
    let result = compile_script("write(1 + true);", false);
    assert!(matches!(
        result,
        Err(ScriptError::Compile(CompilerError::TypeError { expected: Type::U8, actual: Type::Bool }))
    ));
}

#[test]
fn an_if_on_a_byte_is_a_type_error() {
    let result = compile_script("if 1 { print(\"a\"); }", false);
    assert!(matches!(
        result,
        Err(ScriptError::Compile(CompilerError::TypeError { expected: Type::Bool, actual: Type::U8 }))
    ));
}

#[test]
fn a_mixed_array_names_its_first_mismatch() {
    let inner = ConstantValue::Array(vec![ConstantValue::Bool(true), ConstantValue::Bool(false), ConstantValue::U8(3)]);
    let outer = ConstantValue::Array(vec![
        ConstantValue::Array(vec![ConstantValue::Bool(true), ConstantValue::Bool(true), ConstantValue::Bool(true)]),
        inner,
        ConstantValue::U8(1),
    ]);
    match outer.value_type() {
        Err(CompilerError::ArrayHasDifferentTypes { expected, index, actual }) => {
            assert_eq!(expected, Type::Bool);
            assert_eq!(index, 2);
            assert_eq!(actual, Type::U8);
        },
        other => panic!("unexpected {:?}", other),
    }
    let flat = ConstantValue::Array(vec![ConstantValue::U8(1), ConstantValue::U8(2), ConstantValue::Bool(true)]);
    match flat.value_type() {
        Err(CompilerError::ArrayHasDifferentTypes { expected, index, actual }) => {
            assert_eq!(expected, Type::U8);
            assert_eq!(index, 2);
            assert_eq!(actual, Type::Bool);
        },
        other => panic!("unexpected {:?}", other),
    }
}

#[test]
fn constant_data_is_as_long_as_its_type() {
    let c = ConstantValue::Array(vec![
        ConstantValue::Array(vec![ConstantValue::U8(1), ConstantValue::U8(2)]),
        ConstantValue::Array(vec![ConstantValue::U8(3), ConstantValue::U8(4)]),
        ConstantValue::Array(vec![ConstantValue::Bool(true), ConstantValue::U8(6)]),
    ]);
    assert!(c.value_type().is_err());
    let d = ConstantValue::Array(vec![
        ConstantValue::Array(vec![ConstantValue::U8(1), ConstantValue::U8(2)]),
        ConstantValue::Array(vec![ConstantValue::U8(3), ConstantValue::U8(4)]),
        ConstantValue::Array(vec![ConstantValue::U8(5), ConstantValue::U8(6)]),
    ]);
    let t = d.value_type().unwrap();
    assert_eq!(d.data(), vec![1, 2, 3, 4, 5, 6]);
    assert_eq!(d.data().len(), t.size() as usize);
}
