use braincrab::bf_core::{
    stringify_bf_tokens, tokenize_bf, BFAction, BFInterpreter, BFParseError, BFProgram, BFToken,
    BFTree, TAPE_LEN,
};

/// Runs a program on the given input and gives what it printed, or `None` where its pointer
/// left the tape.
fn run(program: &BFProgram, input: &[u8]) -> Option<Vec<u8>> {
    let code = program.flatten();
    let mut interpreter = BFInterpreter::new();
    let mut output = Vec::new();
    let mut input_index = 0;
    let mut pc = 0;
    let mut pending: Option<u8> = None;
    while pc < code.len() {
        match interpreter.step(&code, pc, pending.take()) {
            BFAction::Continue(next) => pc = next,
            BFAction::Output(byte, next) => {
                output.push(byte);
                pc = next;
            }
            BFAction::NeedInput => {
                pending = Some(input[input_index]);
                input_index += 1;
            }
            BFAction::OutOfTape => return None,
        }
    }
    Some(output)
}

fn parse(text: &str) -> BFProgram {
    BFProgram::parse(text).expect("balanced brackets")
}

#[test]
fn token_characters_round_trip() {
    let all = [
        BFToken::Left,
        BFToken::Right,
        BFToken::Inc,
        BFToken::Dec,
        BFToken::Write,
        BFToken::Read,
        BFToken::BeginLoop,
        BFToken::EndLoop,
    ];
    let chars: Vec<char> = all.iter().map(|t| t.to_char()).collect();
    assert_eq!(chars, vec!['<', '>', '+', '-', '.', ',', '[', ']']);
    for t in all {
        assert_eq!(BFToken::from_char(t.to_char()), Some(t));
    }
    assert_eq!(BFToken::from_char('a'), None);
    assert_eq!(BFToken::from_char(' '), None);
}

#[test]
fn tokenize_skips_other_characters() {
    let tokens = tokenize_bf("a+b[-]c.\n");
    assert_eq!(
        tokens,
        vec![BFToken::Inc, BFToken::BeginLoop, BFToken::Dec, BFToken::EndLoop, BFToken::Write]
    );
    assert_eq!(tokenize_bf(""), vec![]);
}

#[test]
fn stringify_then_tokenize_gives_tokens_back() {
    let tokens = vec![BFToken::Right, BFToken::Read, BFToken::BeginLoop, BFToken::Left, BFToken::EndLoop];
    let text = stringify_bf_tokens(&tokens);
    assert_eq!(text, ">,[<]");
    assert_eq!(tokenize_bf(&text), tokens);
}

#[test]
fn parse_merges_runs_of_moves_and_additions() {
    let program = parse("+++>>-<");
    assert_eq!(format!("{:?}", program.0), "[Add(3), Move(2), Add(255), Move(-1)]");
    let program = parse("+-");
    assert_eq!(format!("{:?}", program.0), "[Add(0)]");
    let program = parse("><");
    assert_eq!(format!("{:?}", program.0), "[Move(0)]");
}

#[test]
fn parse_builds_nested_loops() {
    let program = parse("+[>[-]<-].");
    assert_eq!(
        format!("{:?}", program.0),
        "[Add(1), Loop([Move(1), Loop([Add(255)]), Move(-1), Add(255)]), Write]"
    );
}

#[test]
fn unmatched_brackets_are_refused() {
    for text in ["[", "]", "[[]", "[]]", "][", "+[-"] {
        assert!(matches!(BFProgram::parse(text), Err(BFParseError::UnmatchedBrackets)), "{text}");
    }
    assert!(BFProgram::parse("[][[]]").is_ok());
    assert!(BFProgram::parse("").is_ok());
}

#[test]
fn parse_error_text() {
    assert_eq!(BFParseError::UnmatchedBrackets.to_string(), "unmatched brackets");
}

#[test]
fn printing_uses_the_shortest_direction() {
    let program = BFProgram(vec![
        BFTree::Add(200),
        BFTree::Move(-3),
        BFTree::Add(2),
        BFTree::Loop(vec![BFTree::Read, BFTree::Move(2)]),
        BFTree::Write,
    ]);
    let text = program.to_string();
    assert_eq!(text, format!("{}<<<++[,>>].", "-".repeat(56)));
    let tokens = program.to_bf_tokens();
    assert_eq!(tokens.len(), 56 + 3 + 2 + 5 + 1);
}

#[test]
fn print_then_parse_gives_the_program_back() {
    let program = BFProgram(vec![
        BFTree::Add(7),
        BFTree::Loop(vec![BFTree::Move(1), BFTree::Add(250), BFTree::Move(-1), BFTree::Add(255)]),
        BFTree::Move(1),
        BFTree::Write,
        BFTree::Read,
    ]);
    let text = program.to_string();
    let parsed = BFProgram::parse(&text).unwrap();
    assert_eq!(format!("{:?}", parsed.0), format!("{:?}", program.0));
}

#[test]
fn append_keeps_both_programs() {
    let mut a = parse("+.");
    let b = parse(">-");
    a.append(b);
    assert_eq!(a.to_string(), "+.>-");
    let mut c = BFProgram::new();
    c.push_instruction(BFTree::Write);
    assert_eq!(c.to_string(), ".");
}

#[test]
fn tree_tokens() {
    let tree = BFTree::Loop(vec![BFTree::Move(-2), BFTree::Add(129)]);
    let tokens = tree.to_tokens();
    assert_eq!(stringify_bf_tokens(&tokens), format!("[<<{}]", "-".repeat(127)));
}

#[test]
fn interpreter_prints_hello() {
    let text = format!("++++++++[>+++++++++<-]>.{}.", "+".repeat(33));
    let program = parse(&text);
    assert_eq!(run(&program, &[]), Some(b"Hi".to_vec()));
}

#[test]
fn interpreter_reads_input() {
    let program = parse(",+.,.");
    assert_eq!(run(&program, b"az"), Some(b"bz".to_vec()));
}

#[test]
fn interpreter_wraps_cells() {
    let program = parse("-.+.");
    assert_eq!(run(&program, &[]), Some(vec![255, 0]));
}

#[test]
fn interpreter_stops_when_the_pointer_leaves_the_tape() {
    assert_eq!(run(&parse("<"), &[]), None);
    let right = BFProgram(vec![BFTree::Move(TAPE_LEN as isize)]);
    assert_eq!(run(&right, &[]), None);
    let last = BFProgram(vec![BFTree::Move(TAPE_LEN as isize - 1), BFTree::Add(1), BFTree::Write]);
    assert_eq!(run(&last, &[]), Some(vec![1]));
}

#[test]
fn flatten_jumps_over_loop_bodies() {
    let program = parse("[-]+");
    let code = program.flatten();
    assert_eq!(
        format!("{:?}", code),
        "[JumpIfZero(3), Add(255), JumpIfNonZero(1), Add(1)]"
    );
}

#[test]
fn interpreter_starts_on_a_zero_tape() {
    let interpreter = BFInterpreter::new();
    assert_eq!(interpreter.tape.len(), TAPE_LEN);
    assert!(interpreter.tape.iter().all(|x| *x == 0));
    assert_eq!(interpreter.pointer, 0);
}
