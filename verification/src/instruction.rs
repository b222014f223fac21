//! The instruction registry: a fixed table mapping each known mnemonic to the
//! alternative operand-kind sequences it accepts. Lookup is case-insensitive.

use vstd::prelude::*;

use crate::text::upper;

verus! {

/// A register reference: width letter and register number.
pub struct Register {
    pub width: char,
    pub number: u8,
}

/// The mnemonics the assembler knows of.
#[derive(Debug, Clone, Copy, PartialEq, Eq, Hash, Structural)]
pub enum Mnemonic {
    Mov,
    Add,
    Bl,
    Svc,
    Ret,
}

/// An operand value accompanying an instruction.
pub enum Operand {
    Register(Register),
    Immediate(u32),
    Label(String),
    Address { base: u8, offset: i8 },
}

/// The kind of operand an instruction shape may ask for.
#[derive(Debug, Clone, Copy, PartialEq, Eq, Structural)]
pub enum OperandType {
    Register,
    Immediate,
    Label,
}

/// One registry entry: a mnemonic together with the alternative operand-kind
/// sequences it accepts; an empty set of shapes means "no operands accepted".
/// The shapes are descriptive, kept for the downstream encoder: the parser
/// checks that a mnemonic is registered but does not match operand lists
/// against these shapes.
pub struct Instruction {
    pub mnemonic: Mnemonic,
    pub operands: Vec<Vec<OperandType>>,
}

/// The textual name of a mnemonic.
pub open spec fn spec_mnemonic_name(m: Mnemonic) -> Seq<char> {
    match m {
        Mnemonic::Mov => "Mov"@,
        Mnemonic::Add => "Add"@,
        Mnemonic::Bl => "Bl"@,
        Mnemonic::Svc => "Svc"@,
        Mnemonic::Ret => "Ret"@,
    }
}

/// The textual name of a mnemonic.
pub fn mnemonic_name(m: Mnemonic) -> (r: &'static str)
    ensures
        r@ == spec_mnemonic_name(m),
{
    match m {
        Mnemonic::Mov => "Mov",
        Mnemonic::Add => "Add",
        Mnemonic::Bl => "Bl",
        Mnemonic::Svc => "Svc",
        Mnemonic::Ret => "Ret",
    }
}

/// The operand shapes of one registry entry, as a sequence of sequences.
pub open spec fn entry_shapes(e: Instruction) -> Seq<Seq<OperandType>> {
    e.operands@.map_values(|v: Vec<OperandType>| v@)
}

/// The mnemonics seeded into the registry, in table order.
pub open spec fn seeded_mnemonics() -> Seq<Mnemonic> {
    seq![Mnemonic::Mov, Mnemonic::Ret, Mnemonic::Bl]
}

/// The operand shapes seeded for a mnemonic: MOV accepts a register followed
/// by either an immediate or a label; RET and BL accept no operands.
pub open spec fn seeded_shapes(m: Mnemonic) -> Seq<Seq<OperandType>> {
    if m == Mnemonic::Mov {
        seq![
            seq![OperandType::Register, OperandType::Immediate],
            seq![OperandType::Register, OperandType::Label],
        ]
    } else {
        Seq::empty()
    }
}

/// The registry holds exactly the seeded table, in order.
pub open spec fn is_standard_registry(rs: Seq<Instruction>) -> bool {
    &&& rs.len() == seeded_mnemonics().len()
    &&& forall|i: int|
        0 <= i < rs.len() ==> (#[trigger] rs[i]).mnemonic == seeded_mnemonics()[i]
            && entry_shapes(rs[i]) == seeded_shapes(seeded_mnemonics()[i])
}

/// Case-insensitively, `text` names a mnemonic of the seeded table.
pub open spec fn known_mnemonic(text: Seq<char>) -> bool {
    exists|i: int|
        0 <= i < seeded_mnemonics().len() && upper(text) == upper(
            spec_mnemonic_name(#[trigger] seeded_mnemonics()[i]),
        )
}

/// Builds the fixed instruction table: MOV with its two operand shapes, then
/// RET and BL with none. The table is read-only from the parser's view.
pub fn load_instructions() -> (instructions: Vec<Instruction>)
    ensures
        is_standard_registry(instructions@),
{
    let mut mov_shapes: Vec<Vec<OperandType>> = Vec::new();
    let mut mov_reg_imm: Vec<OperandType> = Vec::new();
    mov_reg_imm.push(OperandType::Register);
    mov_reg_imm.push(OperandType::Immediate);
    let mut mov_reg_label: Vec<OperandType> = Vec::new();
    mov_reg_label.push(OperandType::Register);
    mov_reg_label.push(OperandType::Label);
    proof {
        assert(mov_reg_imm@ =~= seq![OperandType::Register, OperandType::Immediate]);
        assert(mov_reg_label@ =~= seq![OperandType::Register, OperandType::Label]);
    }
    mov_shapes.push(mov_reg_imm);
    mov_shapes.push(mov_reg_label);

    let mut instructions: Vec<Instruction> = Vec::new();
    instructions.push(Instruction { mnemonic: Mnemonic::Mov, operands: mov_shapes });
    instructions.push(Instruction { mnemonic: Mnemonic::Ret, operands: Vec::new() });
    instructions.push(Instruction { mnemonic: Mnemonic::Bl, operands: Vec::new() });
    proof {
        assert(entry_shapes(instructions@[0]) =~= seeded_shapes(Mnemonic::Mov));
        assert(entry_shapes(instructions@[1]) =~= seeded_shapes(Mnemonic::Ret));
        assert(entry_shapes(instructions@[2]) =~= seeded_shapes(Mnemonic::Bl));
    }
    instructions
}

/// Whether some entry of `instructions` has `mnemonic` as its name,
/// compared case-insensitively.
pub fn contains(instructions: &Vec<Instruction>, mnemonic: &str) -> (r: bool)
    ensures
        r == exists|i: int|
            0 <= i < instructions@.len() && upper(mnemonic@) == upper(
                spec_mnemonic_name((#[trigger] instructions@[i]).mnemonic),
            ),
{
    let n: usize = instructions.len();
    let mut i: usize = 0;
    while i < n
        invariant
            n == instructions@.len(),
            i <= n,
            forall|j: int|
                0 <= j < i ==> upper(mnemonic@) != upper(
                    spec_mnemonic_name((#[trigger] instructions@[j]).mnemonic),
                ),
        decreases n - i,
    {
        if crate::text::str_eq_ignore_case(mnemonic, mnemonic_name(instructions[i].mnemonic)) {
            return true;
        }
        i = i + 1;
    }
    false
}

/// The operand shapes registered for `mnemonic` (case-insensitive), or `None`
/// if the registry does not know it; the first matching entry decides.
pub fn lookup<'a>(instructions: &'a Vec<Instruction>, mnemonic: &str) -> (r: Option<
    &'a Vec<Vec<OperandType>>,
>)
    ensures
        match r {
            Some(shapes) => exists|i: int|
                {
                    &&& 0 <= i < instructions@.len()
                    &&& upper(mnemonic@) == upper(
                        spec_mnemonic_name((#[trigger] instructions@[i]).mnemonic),
                    )
                    &&& forall|j: int|
                        0 <= j < i ==> upper(mnemonic@) != upper(
                            spec_mnemonic_name((#[trigger] instructions@[j]).mnemonic),
                        )
                    &&& shapes@ == instructions@[i].operands@
                },
            None => forall|i: int|
                0 <= i < instructions@.len() ==> upper(mnemonic@) != upper(
                    spec_mnemonic_name((#[trigger] instructions@[i]).mnemonic),
                ),
        },
{
    let n: usize = instructions.len();
    let mut i: usize = 0;
    while i < n
        invariant
            n == instructions@.len(),
            i <= n,
            forall|j: int|
                0 <= j < i ==> upper(mnemonic@) != upper(
                    spec_mnemonic_name((#[trigger] instructions@[j]).mnemonic),
                ),
        decreases n - i,
    {
        if crate::text::str_eq_ignore_case(mnemonic, mnemonic_name(instructions[i].mnemonic)) {
            return Some(&instructions[i].operands);
        }
        i = i + 1;
    }
    None
}

} // verus!
