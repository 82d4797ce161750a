use braincrab::new_abf::{ABFCompiler, ABFInstruction, ABFProgram, ABFProgramBuilder};

#[test]
fn builder_places_values_near_the_last_cell() {
    let mut builder = ABFProgramBuilder::new();
    let a = builder.new_address(5);
    let b = builder.new_address(7);
    let c = builder.read();
    builder.write(c);
    builder.free(a);
    let d = builder.new_address(0);
    assert_eq!((a, b, c), (0, 1, 2));
    assert_eq!(d, 3);
    let program = builder.program();
    assert_eq!(
        format!("{:?}", program.instructions),
        "[New(0, 5), New(1, 7), Read(2), Write(2), Free(0), New(3, 0)]"
    );
}

#[test]
fn builder_loops_nest() {
    let mut builder = ABFProgramBuilder::new();
    let a = builder.new_address(2);
    builder.begin_loop();
    builder.add(a, -1);
    builder.write(a);
    builder.end_loop(a);
    let program = builder.program();
    assert_eq!(
        format!("{:?}", program.instructions),
        "[New(0, 2), While(0, ABFProgram { instructions: [Add(0, -1), Write(0)] })]"
    );
}

#[test]
fn optimize_writes_known_values_directly() {
    let program = ABFProgram::new(vec![
        ABFInstruction::New(0, 65),
        ABFInstruction::Write(0),
        ABFInstruction::Read(1),
        ABFInstruction::Write(1),
        ABFInstruction::Add(0, 1),
        ABFInstruction::Write(0),
    ]);
    let optimized = ABFCompiler::optimize(&program).unwrap();
    assert_eq!(
        format!("{:?}", optimized.instructions),
        "[WriteConst(65), Read(1), Write(1), WriteConst(66)]"
    );
}

#[test]
fn optimize_unrolls_loops_with_known_counts() {
    let program = ABFProgram::new(vec![
        ABFInstruction::New(0, 2),
        ABFInstruction::New(1, 10),
        ABFInstruction::While(
            0,
            ABFProgram::new(vec![ABFInstruction::Add(0, -1), ABFInstruction::Write(1), ABFInstruction::Add(1, 1)]),
        ),
    ]);
    let optimized = ABFCompiler::optimize(&program).unwrap();
    assert_eq!(format!("{:?}", optimized.instructions), "[WriteConst(10), WriteConst(11)]");
}

#[test]
fn optimize_keeps_loops_on_input() {
    let program = ABFProgram::new(vec![
        ABFInstruction::Read(0),
        ABFInstruction::New(1, 3),
        ABFInstruction::While(0, ABFProgram::new(vec![ABFInstruction::Add(0, -1), ABFInstruction::Add(1, 1)])),
        ABFInstruction::Write(1),
    ]);
    let optimized = ABFCompiler::optimize(&program).unwrap();
    assert_eq!(
        format!("{:?}", optimized.instructions),
        "[Read(0), New(1, 3), While(0, ABFProgram { instructions: [Add(0, -1), Add(1, 1)] }), Write(1)]"
    );
}

#[test]
fn optimize_refuses_unknown_cells() {
    let program = ABFProgram::new(vec![ABFInstruction::Write(3)]);
    assert!(ABFCompiler::optimize(&program).is_none());
}

#[test]
fn frees_after_the_last_use() {
    let mut program = ABFProgram::new(vec![
        ABFInstruction::New(0, 1),
        ABFInstruction::WriteConst(9),
        ABFInstruction::Read(1),
        ABFInstruction::Write(0),
        ABFInstruction::Write(1),
    ]);
    ABFCompiler::optimize_frees(&mut program);
    assert_eq!(
        format!("{:?}", program.instructions),
        "[New(0, 1), WriteConst(9), Read(1), Write(0), Free(0), Write(1), Free(1)]"
    );
}

#[test]
fn new_abf_program_text() {
    let program = ABFProgram::new(vec![
        ABFInstruction::WriteConst(7),
        ABFInstruction::While(2, ABFProgram::new(vec![ABFInstruction::Add(2, 127)])),
    ]);
    assert_eq!(program.to_string(), "write(7);\nwhile &2 {\n    &2 += 127;\n}\n");
    assert_eq!(program.used_addresses().into_iter().collect::<Vec<u16>>(), vec![2]);
}

#[test]
fn optimize_frees_drops_frees_of_cells_never_declared() {
    let mut program = ABFProgram::new(vec![
        ABFInstruction::Free(7),
        ABFInstruction::New(0, 1),
        ABFInstruction::Write(0),
    ]);
    ABFCompiler::optimize_frees(&mut program);
    assert_eq!(format!("{:?}", program.instructions), "[New(0, 1), Write(0), Free(0)]");
}

#[test]
fn optimize_refuses_a_cell_used_before_it_is_declared() {
    let program = ABFProgram::new(vec![ABFInstruction::Write(0)]);
    assert!(ABFCompiler::optimize(&program).is_none());
    let empty = ABFProgram::new(vec![]);
    let optimized = ABFCompiler::optimize(&empty).unwrap();
    assert!(optimized.instructions.is_empty());
}

#[test]
fn optimize_folds_a_straight_program_to_constant_writes() {
    let program = ABFProgram::new(vec![
        ABFInstruction::New(0, 65),
        ABFInstruction::Add(0, 1),
        ABFInstruction::Write(0),
        ABFInstruction::Free(0),
    ]);
    let optimized = ABFCompiler::optimize(&program).unwrap();
    assert_eq!(format!("{:?}", optimized.instructions), "[WriteConst(66)]");
}

#[test]
fn frees_move_past_a_loop_that_uses_the_cell() {
    let mut program = ABFProgram::new(vec![
        ABFInstruction::New(0, 3),
        ABFInstruction::Free(0),
        ABFInstruction::New(1, 0),
        ABFInstruction::While(0, ABFProgram::new(vec![ABFInstruction::Add(0, -1), ABFInstruction::Add(1, 1)])),
        ABFInstruction::Write(1),
        ABFInstruction::Free(1),
    ]);
    ABFCompiler::optimize_frees(&mut program);
    assert_eq!(
        format!("{:?}", program.instructions),
        "[New(0, 3), New(1, 0), While(0, ABFProgram { instructions: [Add(0, -1), Add(1, 1)] }), Free(0), Write(1), Free(1)]"
    );
}
