use assembler::ast::{AstNode, NodeType};
use assembler::parser::{ParseError, Parser};
use assembler::tokenizer::{Position, Token, Tokenizer};

fn parse(source: &str) -> Result<AstNode, ParseError> {
    let mut tokenizer = Tokenizer::new();
    tokenizer.tokenize(source).expect("lexing should succeed");
    let mut parser = Parser::new(&tokenizer.tokens);
    parser.build_ast()
}

fn tree(source: &str) -> AstNode {
    parse(source).expect("parsing should succeed")
}

fn leaf(node_type: NodeType, value: &str) -> AstNode {
    AstNode { node_type, value: value.to_string(), children: Vec::new() }
}

fn node(node_type: NodeType, value: &str, children: Vec<AstNode>) -> AstNode {
    AstNode { node_type, value: value.to_string(), children }
}

#[test]
fn instruction_with_register_and_immediate() {
    let root = tree("MOV R0, #5\n");
    let expected = node(
        NodeType::Root,
        "",
        vec![node(
            NodeType::Instruction,
            "MOV",
            vec![leaf(NodeType::Register, "R0"), leaf(NodeType::Immediate, "5")],
        )],
    );
    assert_eq!(root, expected);
}

#[test]
fn label_definition() {
    let root = tree("loop:\n");
    assert_eq!(root, node(NodeType::Root, "", vec![leaf(NodeType::Label, "loop")]));
}

#[test]
fn directive_with_immediate_operand() {
    let root = tree(".word #5\n");
    let expected = node(
        NodeType::Root,
        "",
        vec![node(NodeType::Directive, "word", vec![leaf(NodeType::Immediate, "5")])],
    );
    assert_eq!(root, expected);
}

#[test]
fn directive_with_label_operand() {
    let root = tree(".global main\n");
    let expected = node(
        NodeType::Root,
        "",
        vec![node(NodeType::Directive, "global", vec![leaf(NodeType::Label, "main")])],
    );
    assert_eq!(root, expected);
}

#[test]
fn unknown_mnemonic_is_rejected() {
    match parse("FOO R0\n") {
        Err(ParseError::UnknownInstruction { mnemonic }) => assert_eq!(mnemonic, "FOO"),
        other => panic!("wrong outcome: {:?}", other),
    }
}

#[test]
fn missing_comma_between_operands() {
    match parse("MOV R0 R1\n") {
        Err(ParseError::ExpectedComma { position }) => {
            // the error names the operand before the missing comma
            assert_eq!(position, Position { line: 1, column: 4 });
        }
        other => panic!("wrong outcome: {:?}", other),
    }
}

#[test]
fn blank_lines_contribute_no_nodes() {
    assert_eq!(tree("\n\nMOV R0, #1\n"), tree("MOV R0, #1\n"));
    assert_eq!(tree("").children.len(), 0);
    assert_eq!(tree("\n\n").children.len(), 0);
}

#[test]
fn statements_in_source_order() {
    let root = tree("loop:\nMOV R0, #1\nRET\n");
    let expected = node(
        NodeType::Root,
        "",
        vec![
            leaf(NodeType::Label, "loop"),
            node(
                NodeType::Instruction,
                "MOV",
                vec![leaf(NodeType::Register, "R0"), leaf(NodeType::Immediate, "1")],
            ),
            node(NodeType::Instruction, "RET", vec![]),
        ],
    );
    assert_eq!(root, expected);
}

#[test]
fn mnemonic_lookup_is_case_insensitive() {
    let root = tree("mov r0, #2\n");
    let expected = node(
        NodeType::Root,
        "",
        vec![node(
            NodeType::Instruction,
            "MOV",
            vec![leaf(NodeType::Register, "r0"), leaf(NodeType::Immediate, "2")],
        )],
    );
    assert_eq!(root, expected);
}

#[test]
fn identifier_operand_is_a_label_reference() {
    let root = tree("MOV R1, target\n");
    let expected = node(
        NodeType::Root,
        "",
        vec![node(
            NodeType::Instruction,
            "MOV",
            vec![leaf(NodeType::Register, "R1"), leaf(NodeType::Label, "target")],
        )],
    );
    assert_eq!(root, expected);
}

#[test]
fn label_and_statement_may_share_a_line() {
    let root = tree("loop: RET\n");
    let expected = node(
        NodeType::Root,
        "",
        vec![leaf(NodeType::Label, "loop"), node(NodeType::Instruction, "RET", vec![])],
    );
    assert_eq!(root, expected);
}

#[test]
fn instruction_may_end_at_end_of_input() {
    let root = tree("RET");
    assert_eq!(root.children.len(), 1);
    assert_eq!(root.children[0].value, "RET");
}

#[test]
fn trailing_comma_is_tolerated() {
    let root = tree("MOV R0,\n");
    let expected = node(
        NodeType::Root,
        "",
        vec![node(NodeType::Instruction, "MOV", vec![leaf(NodeType::Register, "R0")])],
    );
    assert_eq!(root, expected);
}

#[test]
fn add_and_svc_are_not_registered() {
    match parse("ADD R0, R1\n") {
        Err(ParseError::UnknownInstruction { mnemonic }) => assert_eq!(mnemonic, "ADD"),
        other => panic!("wrong outcome: {:?}", other),
    }
    match parse("SVC\n") {
        Err(ParseError::UnknownInstruction { mnemonic }) => assert_eq!(mnemonic, "SVC"),
        other => panic!("wrong outcome: {:?}", other),
    }
}

#[test]
fn statement_may_not_start_with_punctuation() {
    match parse(", MOV\n") {
        Err(ParseError::UnexpectedToken { token_type, position }) => {
            assert_eq!(token_type, assembler::tokenizer::TokenType::Comma);
            assert_eq!(position, Position { line: 1, column: 0 });
        }
        other => panic!("wrong outcome: {:?}", other),
    }
    match parse("#5\n") {
        Err(ParseError::UnexpectedToken { token_type, .. }) => {
            assert_eq!(token_type, assembler::tokenizer::TokenType::Number);
        }
        other => panic!("wrong outcome: {:?}", other),
    }
}

#[test]
fn operand_must_be_identifier_or_number() {
    match parse("MOV R0, :\n") {
        Err(ParseError::UnexpectedOperand { token_type, position }) => {
            assert_eq!(token_type, assembler::tokenizer::TokenType::Colon);
            assert_eq!(position, Position { line: 1, column: 8 });
        }
        other => panic!("wrong outcome: {:?}", other),
    }
}

#[test]
fn identifier_before_colon_is_always_a_label() {
    // even a mnemonic name followed by a colon defines a label
    let root = tree("MOV:\n");
    assert_eq!(root, node(NodeType::Root, "", vec![leaf(NodeType::Label, "MOV")]));
}

#[test]
fn directive_operand_errors() {
    match parse(".word ,\n") {
        Err(ParseError::UnexpectedDirectiveOperand { token_type }) => {
            assert_eq!(token_type, assembler::tokenizer::TokenType::Comma);
        }
        other => panic!("wrong outcome: {:?}", other),
    }
    match parse(".word #5") {
        Err(ParseError::ExpectedNewlineAfterDirective) => {}
        other => panic!("wrong outcome: {:?}", other),
    }
    match parse(".word") {
        Err(ParseError::UnexpectedEndOfInput) => {}
        other => panic!("wrong outcome: {:?}", other),
    }
}

#[test]
fn register_heuristic() {
    let tokens: Vec<Token> = Vec::new();
    let parser = Parser::new(&tokens);
    for yes in ["R0", "w12", "Rzr", "XZR", "x0", "R", "W31"] {
        assert!(parser.is_register(yes), "{} should be a register", yes);
    }
    for no in ["A0", "R1x", "zr", "Wz", "target", "", "12", "Rz r"] {
        assert!(!parser.is_register(no), "{} should not be a register", no);
    }
}

#[test]
fn register_named_operand_wins_over_label() {
    let root = tree("MOV XZR, wzr\n");
    let expected = node(
        NodeType::Root,
        "",
        vec![node(
            NodeType::Instruction,
            "MOV",
            vec![leaf(NodeType::Register, "XZR"), leaf(NodeType::Register, "wzr")],
        )],
    );
    assert_eq!(root, expected);
}

#[test]
fn first_error_aborts_the_parse() {
    // the bad second statement hides the good first one: no partial tree
    match parse("RET\nFOO\n") {
        Err(ParseError::UnknownInstruction { mnemonic }) => assert_eq!(mnemonic, "FOO"),
        other => panic!("wrong outcome: {:?}", other),
    }
}
