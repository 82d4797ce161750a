use braincrab::abf::{ABFCompiler, ABFInstruction, ABFOptimizer, ABFProgram, ABFProgramBuilder};
use braincrab::bf_core::{BFAction, BFInterpreter, BFProgram};

fn run(program: &BFProgram, input: &[u8]) -> Vec<u8> {
    let code = program.flatten();
    let mut interpreter = BFInterpreter::new();
    let mut output = Vec::new();
    let mut input_index = 0;
    let mut pc = 0;
    let mut pending: Option<u8> = None;
    while pc < code.len() {
        match interpreter.step(&code, pc, pending.take()) {
            BFAction::Continue(next) => pc = next,
            BFAction::Output(byte, next) => {
                output.push(byte);
                pc = next;
            }
            BFAction::NeedInput => {
                pending = Some(input[input_index]);
                input_index += 1;
            }
            BFAction::OutOfTape => panic!("the pointer left the tape"),
        }
    }
    output
}

#[test]
fn frees_come_right_after_the_last_use() {
    let mut p = ABFProgram::new(vec![
        ABFInstruction::New(0, 1),
        ABFInstruction::New(1, 2),
        ABFInstruction::Free(1),
        ABFInstruction::Write(0),
        ABFInstruction::Write(1),
    ]);
    p.optimize_frees();
    assert_eq!(
        format!("{:?}", p.instructions),
        "[New(0, 1), New(1, 2), Write(0), Free(0), Write(1), Free(1)]"
    );
}

#[test]
fn frees_of_one_place_come_in_descending_order() {
    let mut p = ABFProgram::new(vec![ABFInstruction::New(1, 1), ABFInstruction::New(2, 2)]);
    p.optimize_frees();
    assert_eq!(format!("{:?}", p.instructions), "[New(1, 1), Free(1), New(2, 2), Free(2)]");
    let mut q = ABFProgram::new(vec![
        ABFInstruction::New(1, 1),
        ABFInstruction::New(2, 2),
        ABFInstruction::While(0, ABFProgram::new(vec![ABFInstruction::Write(1), ABFInstruction::Write(2)])),
    ]);
    q.optimize_frees();
    assert_eq!(
        format!("{:?}", q.instructions),
        "[New(1, 1), New(2, 2), While(0, ABFProgram { instructions: [Write(1), Write(2)] }), Free(2), Free(1)]"
    );
}

#[test]
fn unused_variables_are_cleared() {
    let mut p = ABFProgram::new(vec![
        ABFInstruction::New(0, 1),
        ABFInstruction::New(1, 2),
        ABFInstruction::Add(1, 3),
        ABFInstruction::Write(0),
        ABFInstruction::Free(1),
    ]);
    p.clear_unused_variables();
    assert_eq!(format!("{:?}", p.instructions), "[New(0, 1), Write(0)]");
}

#[test]
fn used_and_modified_addresses() {
    let p = ABFProgram::new(vec![
        ABFInstruction::New(4, 1),
        ABFInstruction::Read(2),
        ABFInstruction::While(3, ABFProgram::new(vec![ABFInstruction::Add(5, 1), ABFInstruction::Write(6)])),
    ]);
    assert_eq!(p.used_addresses().into_iter().collect::<Vec<u16>>(), vec![2, 3, 4, 5, 6]);
    assert_eq!(p.modified_addresses().into_iter().collect::<Vec<u16>>(), vec![2, 3, 5]);
}

#[test]
fn relevant_addresses() {
    assert_eq!(ABFInstruction::Write(3).relevant_address(), Some(3));
    assert_eq!(ABFInstruction::New(7, 0).relevant_address(), Some(7));
}

#[test]
fn abf_program_text() {
    let p = ABFProgram::new(vec![
        ABFInstruction::New(0, 65),
        ABFInstruction::While(
            0,
            ABFProgram::new(vec![
                ABFInstruction::Add(0, -1),
                ABFInstruction::While(1, ABFProgram::new(vec![ABFInstruction::Read(1)])),
                ABFInstruction::Write(1),
            ]),
        ),
        ABFInstruction::Free(0),
    ]);
    assert_eq!(
        p.to_string(),
        "&0 = 65;\nwhile &0 {\n    &0 += -1;\n    while &1 {\n        &1 = read();\n    }\n    write(&1);\n}\nfree(&0);\n"
    );
    assert_eq!(ABFInstruction::Add(3, 5).to_string(), "&3 += 5;\n");
}

#[test]
fn builder_numbers_variables_in_order() {
    let mut builder = ABFProgramBuilder::new();
    let a = builder.new_address(3);
    let b = builder.read();
    builder.add(a, 2);
    builder.write(a);
    builder.zero(b);
    assert_eq!((a, b), (0, 1));
    let program = builder.build();
    assert_eq!(
        format!("{:?}", program.instructions),
        "[New(0, 3), Read(1), Add(0, 2), Write(0), While(1, ABFProgram { instructions: [Add(1, -1)] })]"
    );
}

#[test]
fn builder_program_runs_after_optimizing() {
    let mut builder = ABFProgramBuilder::new();
    let counter = builder.new_address(3);
    let letter = builder.new_address(b'a');
    let mut body = builder.start_loop();
    body.write(letter);
    body.add(letter, 1);
    body.add(counter, -1);
    builder.end_loop(counter, body);
    let program = builder.build();

    let plain = ABFCompiler::compile_to_bf(&program).unwrap();
    assert_eq!(run(&plain, b""), b"abc".to_vec());

    let mut optimized = ABFOptimizer::optimize_abf(&program).unwrap();
    optimized.clear_unused_variables();
    optimized.optimize_frees();
    let bf = ABFCompiler::compile_to_bf(&optimized).unwrap();
    assert_eq!(run(&bf, b""), b"abc".to_vec());
}

#[test]
fn optimizer_keeps_input_dependent_loops() {
    let mut builder = ABFProgramBuilder::new();
    let input = builder.read();
    let out = builder.new_address(b'0');
    let mut body = builder.start_loop();
    body.add(out, 1);
    body.add(input, -1);
    builder.end_loop(input, body);
    builder.write(out);
    let program = builder.build();
    let optimized = ABFOptimizer::optimize_abf(&program).unwrap();
    let bf = ABFCompiler::compile_to_bf(&optimized).unwrap();
    assert_eq!(run(&bf, &[4]), b"4".to_vec());
    assert_eq!(run(&bf, &[0]), b"0".to_vec());
}

#[test]
fn undeclared_variables_do_not_compile() {
    let program = ABFProgram::new(vec![ABFInstruction::Write(9)]);
    assert!(ABFCompiler::compile_to_bf(&program).is_none());
}

#[test]
fn a_declaration_inside_a_loop_only_clears_its_cell() {
    // Inside a loop the compiler cannot know what a reused cell holds, and sets it to zero.
    let program = ABFProgram::new(vec![
        ABFInstruction::New(0, 1),
        ABFInstruction::While(
            0,
            ABFProgram::new(vec![
                ABFInstruction::New(1, 5),
                ABFInstruction::Write(1),
                ABFInstruction::Free(1),
                ABFInstruction::Add(0, -1),
            ]),
        ),
    ]);
    let bf = ABFCompiler::compile_to_bf(&program).unwrap();
    assert_eq!(run(&bf, b""), vec![0]);
}

#[test]
fn clearing_unused_variables_keeps_what_is_printed() {
    let program = || {
        ABFProgram::new(vec![
            ABFInstruction::New(0, 3),
            ABFInstruction::New(1, 65),
            ABFInstruction::New(2, 9),
            ABFInstruction::While(
                0,
                ABFProgram::new(vec![
                    ABFInstruction::Add(0, -1),
                    ABFInstruction::Add(2, 5),
                    ABFInstruction::Write(1),
                    ABFInstruction::Add(1, 1),
                ]),
            ),
            ABFInstruction::Add(2, 1),
        ])
    };
    let mut cleared = program();
    cleared.clear_unused_variables();
    assert_eq!(cleared.instructions.len(), 3);
    let before = ABFCompiler::compile_to_bf(&program()).unwrap();
    let after = ABFCompiler::compile_to_bf(&cleared).unwrap();
    assert_eq!(run(&after, b""), run(&before, b""));
    assert_eq!(run(&after, b""), b"ABC".to_vec());
}

#[test]
fn straight_line_programs_fold_to_constants() {
    let program = ABFProgram::new(vec![
        ABFInstruction::New(0, 5),
        ABFInstruction::Add(0, 2),
        ABFInstruction::Write(0),
        ABFInstruction::Add(0, -7),
        ABFInstruction::Write(0),
    ]);
    let optimized = ABFOptimizer::optimize_abf(&program).unwrap();
    assert_eq!(
        format!("{:?}", optimized.instructions),
        "[New(0, 7), Write(0), New(1, 0), Write(1)]"
    );
}

#[test]
fn optimize_abf_folds_an_add_into_the_printed_value() {
    let program = ABFProgram::new(vec![
        ABFInstruction::New(0, 60),
        ABFInstruction::Add(0, 5),
        ABFInstruction::Write(0),
    ]);
    let optimized = ABFOptimizer::optimize_abf(&program).unwrap();
    assert_eq!(format!("{:?}", optimized.instructions), "[New(0, 65), Write(0)]");
}

#[test]
fn optimize_abf_keeps_what_input_decides() {
    let program = ABFProgram::new(vec![
        ABFInstruction::Read(4),
        ABFInstruction::Add(4, 1),
        ABFInstruction::Free(2),
        ABFInstruction::Write(4),
    ]);
    let optimized = ABFOptimizer::optimize_abf(&program).unwrap();
    assert_eq!(format!("{:?}", optimized.instructions), "[Read(0), Add(0, 1), Write(0)]");
}

#[test]
fn compiled_brainfuck_prints_what_the_abf_prints() {
    let program = ABFProgram::new(vec![
        ABFInstruction::New(0, 72),
        ABFInstruction::Read(1),
        ABFInstruction::Write(0),
        ABFInstruction::Add(1, 1),
        ABFInstruction::Write(1),
        ABFInstruction::Free(0),
        ABFInstruction::New(2, 10),
        ABFInstruction::Write(2),
    ]);
    let bf = ABFCompiler::compile_to_bf(&program).unwrap();
    assert_eq!(run(&bf, b"a"), b"Hb\n".to_vec());
}

#[test]
fn compile_to_bf_refuses_a_later_use_of_an_undeclared_variable() {
    let late = ABFProgram::new(vec![ABFInstruction::New(0, 1), ABFInstruction::Write(0), ABFInstruction::Write(1)]);
    assert!(ABFCompiler::compile_to_bf(&late).is_none());
    let in_body = ABFProgram::new(vec![
        ABFInstruction::New(0, 1),
        ABFInstruction::While(0, ABFProgram::new(vec![ABFInstruction::Add(2, 1), ABFInstruction::Add(0, -1)])),
    ]);
    assert!(ABFCompiler::compile_to_bf(&in_body).is_none());
    let declared = ABFProgram::new(vec![ABFInstruction::New(0, 1), ABFInstruction::Write(0), ABFInstruction::Read(1), ABFInstruction::Write(1)]);
    assert!(ABFCompiler::compile_to_bf(&declared).is_some());
}

#[test]
fn builder_numbers_declarations_in_program_order() {
    let mut builder = ABFProgramBuilder::new();
    let a = builder.new_address(1);
    let mut body = builder.start_loop();
    let b = body.read();
    let c = body.new_address(2);
    body.add(a, -1);
    builder.end_loop(a, body);
    let d = builder.new_address(5);
    assert_eq!((a, b, c, d), (0, 1, 2, 3));
    assert_eq!(
        format!("{:?}", builder.build().instructions),
        "[New(0, 1), While(0, ABFProgram { instructions: [Read(1), New(2, 2), Add(0, -1)] }), New(3, 5)]"
    );
}

#[test]
fn optimize_abf_numbers_declarations_in_order() {
    let program = ABFProgram::new(vec![
        ABFInstruction::Read(7),
        ABFInstruction::Read(3),
        ABFInstruction::New(9, 4),
        ABFInstruction::Add(3, 1),
        ABFInstruction::Write(3),
        ABFInstruction::Write(7),
        ABFInstruction::Write(9),
    ]);
    let optimized = ABFOptimizer::optimize_abf(&program).unwrap();
    let declared: Vec<u16> = optimized
        .instructions
        .iter()
        .filter_map(|x| match x {
            ABFInstruction::New(a, _) => Some(*a),
            ABFInstruction::Read(a) => Some(*a),
            _ => None,
        })
        .collect();
    let expected: Vec<u16> = (0..declared.len() as u16).collect();
    assert_eq!(declared, expected);
    assert!(declared.len() >= 2);
}
