use assembler::instruction::{contains, load_instructions, lookup, mnemonic_name, Mnemonic, Operand, OperandType, Register};
use assembler::text::{char_to_upper, str_eq_ignore_case, str_to_upper};

#[test]
fn registry_holds_the_seeded_table() {
    let instructions = load_instructions();
    assert_eq!(instructions.len(), 3);
    assert_eq!(instructions[0].mnemonic, Mnemonic::Mov);
    assert_eq!(
        instructions[0].operands,
        vec![
            vec![OperandType::Register, OperandType::Immediate],
            vec![OperandType::Register, OperandType::Label],
        ]
    );
    assert_eq!(instructions[1].mnemonic, Mnemonic::Ret);
    assert!(instructions[1].operands.is_empty());
    assert_eq!(instructions[2].mnemonic, Mnemonic::Bl);
    assert!(instructions[2].operands.is_empty());
}

#[test]
fn lookup_is_case_insensitive() {
    let instructions = load_instructions();
    for name in ["MOV", "mov", "Mov", "mOV"] {
        assert!(contains(&instructions, name), "{} should be found", name);
        let shapes = lookup(&instructions, name).expect("registered");
        assert_eq!(shapes.len(), 2);
    }
    assert!(contains(&instructions, "ret"));
    assert!(contains(&instructions, "BL"));
    let ret_shapes = lookup(&instructions, "ret").expect("registered");
    assert!(ret_shapes.is_empty());
}

#[test]
fn unknown_mnemonics_are_absent() {
    let instructions = load_instructions();
    for name in ["FOO", "add", "svc", "", "MOVE", "MO"] {
        assert!(!contains(&instructions, name), "{} should be absent", name);
        assert!(lookup(&instructions, name).is_none());
    }
}

#[test]
fn mnemonic_names() {
    assert_eq!(mnemonic_name(Mnemonic::Mov), "Mov");
    assert_eq!(mnemonic_name(Mnemonic::Add), "Add");
    assert_eq!(mnemonic_name(Mnemonic::Bl), "Bl");
    assert_eq!(mnemonic_name(Mnemonic::Svc), "Svc");
    assert_eq!(mnemonic_name(Mnemonic::Ret), "Ret");
}

#[test]
fn ascii_case_folding() {
    assert_eq!(char_to_upper('a'), 'A');
    assert_eq!(char_to_upper('z'), 'Z');
    assert_eq!(char_to_upper('R'), 'R');
    assert_eq!(char_to_upper('_'), '_');
    assert_eq!(str_to_upper("m0_v"), "M0_V");
    assert_eq!(str_to_upper(""), "");
    assert!(str_eq_ignore_case("mov", "MOV"));
    assert!(str_eq_ignore_case("", ""));
    assert!(!str_eq_ignore_case("mov", "mo"));
    assert!(!str_eq_ignore_case("mov", "ret"));
}

#[test]
fn operand_values_hold_their_payloads() {
    let op = Operand::Register(Register { width: 'X', number: 9 });
    match op {
        Operand::Register(r) => {
            assert_eq!(r.width, 'X');
            assert_eq!(r.number, 9);
        }
        _ => panic!("wrong operand"),
    }
    assert!(matches!(Operand::Immediate(31), Operand::Immediate(31)));
    match Operand::Label("loop".to_string()) {
        Operand::Label(name) => assert_eq!(name, "loop"),
        _ => panic!("wrong operand"),
    }
    assert!(matches!(
        Operand::Address { base: 1, offset: -4 },
        Operand::Address { base: 1, offset: -4 }
    ));
}
