use braincrab::ast::{Expression, Instruction};
use braincrab::parser::{BinaryOperator, BrainCrabParser, ExpressionParseTree, ParseError, ParseErrorMessage};

fn program_debug(text: &str) -> String {
    let mut parser = BrainCrabParser::new();
    match parser.parse_program(text) {
        Ok(parsed) => format!("{:?}", parsed.value.instructions),
        Err(error) => panic!("{}", error.to_string()),
    }
}

#[test]
fn parses_definitions() {
    assert_eq!(
        program_debug("let x = 5;"),
        "[Define { name: \"x\", value_type: None, mutable: false, value: Constant(U8(5)) }]"
    );
    assert_eq!(
        program_debug("mut flag: bool = true;"),
        "[Define { name: \"flag\", value_type: Some(Bool), mutable: true, value: Constant(Bool(true)) }]"
    );
    assert_eq!(
        program_debug("let c = 'A';"),
        "[Define { name: \"c\", value_type: None, mutable: false, value: Constant(U8(65)) }]"
    );
}

#[test]
fn operators_of_equal_precedence_group_to_the_right() {
    assert_eq!(
        program_debug("let x = 1 + 2 * 3;"),
        "[Define { name: \"x\", value_type: None, mutable: false, value: Add(Constant(U8(1)), Mul(Constant(U8(2)), Constant(U8(3)))) }]"
    );
    assert_eq!(
        program_debug("let x = 1 - 2 - 3;"),
        "[Define { name: \"x\", value_type: None, mutable: false, value: Sub(Constant(U8(1)), Sub(Constant(U8(2)), Constant(U8(3)))) }]"
    );
}

#[test]
fn parses_control_flow() {
    let text = "mut y = 3;\nwhile y {\n  write(y);\n  y -= 1;\n}\nif y == 0 { print(\"done\\n\"); } else { }";
    let mut parser = BrainCrabParser::new();
    let parsed = parser.parse_program(text).ok().unwrap();
    let instructions = parsed.value.instructions;
    assert_eq!(instructions.len(), 3);
    assert!(matches!(&instructions[1], Instruction::While { body, .. } if body.len() == 2));
    match &instructions[2] {
        Instruction::IfThenElse { if_body, else_body, .. } => {
            assert_eq!(if_body.len(), 1);
            assert!(else_body.is_empty());
            assert!(matches!(&if_body[0], Instruction::Print { string } if string == "done\n"));
        }
        other => panic!("{other:?}"),
    }
    assert_eq!(parsed.start, 0);
    assert_eq!(parsed.len, text.len());
}

#[test]
fn parses_arrays_and_indexing() {
    assert_eq!(
        program_debug("let a = [1, 2];"),
        "[Define { name: \"a\", value_type: None, mutable: false, value: Constant(Array([U8(1), U8(2)])) }]"
    );
    assert_eq!(
        program_debug("let a = [7; 3];"),
        "[Define { name: \"a\", value_type: None, mutable: false, value: Constant(Array([U8(7), U8(7), U8(7)])) }]"
    );
    assert_eq!(
        program_debug("let a = [1..7..2];"),
        "[Define { name: \"a\", value_type: None, mutable: false, value: Constant(Array([U8(1), U8(3), U8(5)])) }]"
    );
    assert_eq!(
        program_debug("let a: [u8; 2] = b[1];"),
        "[Define { name: \"a\", value_type: Some(Array { element_type: U8, len: 2 }), mutable: false, value: LValue(Index(\"b\", [Constant(U8(1))])) }]"
    );
}

#[test]
fn empty_program_parses() {
    assert_eq!(program_debug(""), "[]");
    assert_eq!(program_debug("  \n "), "[]");
}

#[test]
fn missing_semicolon_is_an_error() {
    let mut parser = BrainCrabParser::new();
    let result = parser.parse_program("let x = 5");
    let error = result.err().unwrap();
    assert_eq!(error.index, 9);
    assert!(error.messages.contains(&ParseErrorMessage::Expected(";")));
}

#[test]
fn trailing_garbage_is_an_error() {
    let mut parser = BrainCrabParser::new();
    let result = parser.parse_program("let x = 5; ?");
    assert!(result.is_err());
}

#[test]
fn number_out_of_range_is_an_error() {
    let mut parser = BrainCrabParser::new();
    assert!(parser.parse_program("let x = 256;").is_err());
    let mut parser = BrainCrabParser::new();
    assert!(parser.parse_program("let x = 255;").is_ok());
}

#[test]
fn error_messages_text() {
    assert_eq!(ParseErrorMessage::NonAsciiProgram.to_string(), "Not a valid ASCII program.");
    assert_eq!(ParseErrorMessage::UnexpectedEnd.to_string(), "Unexpected EOF.");
    assert_eq!(ParseErrorMessage::Expected("digit").to_string(), "Expected digit");
    assert_eq!(
        ParseErrorMessage::IgnoreError.to_string(),
        "This triggered an error that will be shown from somewhere else."
    );
}

#[test]
fn error_text_shows_the_line_and_each_message_once_in_order() {
    let error = ParseError {
        messages: vec![
            ParseErrorMessage::Expected("digit"),
            ParseErrorMessage::UnexpectedEnd,
            ParseErrorMessage::Expected("digit"),
            ParseErrorMessage::Expected("abc"),
        ],
        string: "let x = 5;\nwrite(y)\n",
        index: 18,
    };
    let pad = " ".repeat(7);
    let expected = format!(
        "\nwrite(y)\n{pad}╥\n{pad}╠═► Unexpected EOF.\n{pad}╠═► Expected abc\n{pad}╚═► Expected digit\n"
    );
    assert_eq!(error.to_string(), expected);
}

#[test]
fn error_text_on_the_first_line() {
    let error = ParseError { messages: vec![ParseErrorMessage::Expected(";")], string: "let x", index: 5 };
    assert_eq!(error.to_string(), "let x\n    ╥\n    ╚═► Expected ;\n");
}

#[test]
fn operator_precedence_values() {
    assert_eq!(BinaryOperator::Mul.precedence(), 3);
    assert_eq!(BinaryOperator::Add.precedence(), 4);
    assert_eq!(BinaryOperator::Lt.precedence(), 6);
    assert_eq!(BinaryOperator::Eq.precedence(), 7);
    assert_eq!(BinaryOperator::And.precedence(), 8);
    assert_eq!(BinaryOperator::Or.precedence(), 9);
}

#[test]
fn expression_tree_extends_by_precedence() {
    let one = Expression::constant(1u8.into());
    let tree = ExpressionParseTree::leaf(one)
        .extend(BinaryOperator::Add, Expression::constant(2u8.into()))
        .extend(BinaryOperator::Mul, Expression::constant(3u8.into()))
        .extend(BinaryOperator::Sub, Expression::constant(4u8.into()));
    assert_eq!(
        format!("{:?}", tree.into_expression()),
        "Add(Constant(U8(1)), Sub(Mul(Constant(U8(2)), Constant(U8(3))), Constant(U8(4))))"
    );
}
