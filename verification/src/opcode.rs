//! The instruction set and its one encoding byte per opcode.
use vstd::prelude::*;

verus! {

/// The symbolic opcodes of the machine.
#[derive(Clone, Copy, Debug, PartialEq, Eq, Structural)]
pub enum Opcode {
    STOP,
    ADD,
    MUL,
    SUB,
    DIV,
    SDIV,
    MOD,
    SMOD,
    ADDMOD,
    MULMOD,
    EXP,
    SIGNEXTEND,
    LT,
    GT,
    SLT,
    SGT,
    EQ,
    ISZERO,
    AND,
    OR,
    XOR,
    NOT,
    BYTE,
    SHL,
    SHR,
    SAR,
    PUSH1,
    PUSH2,
    PUSH3,
    PUSH32,
}

/// The opcode table: the opcode an encoding byte stands for, if any.
pub open spec fn opcode_of(b: u8) -> Option<Opcode> {
    match b {
        0x00 => Some(Opcode::STOP),
        0x01 => Some(Opcode::ADD),
        0x02 => Some(Opcode::MUL),
        0x03 => Some(Opcode::SUB),
        0x04 => Some(Opcode::DIV),
        0x05 => Some(Opcode::SDIV),
        0x06 => Some(Opcode::MOD),
        0x07 => Some(Opcode::SMOD),
        0x08 => Some(Opcode::ADDMOD),
        0x09 => Some(Opcode::MULMOD),
        0x0a => Some(Opcode::EXP),
        0x0b => Some(Opcode::SIGNEXTEND),
        0x10 => Some(Opcode::LT),
        0x11 => Some(Opcode::GT),
        0x12 => Some(Opcode::SLT),
        0x13 => Some(Opcode::SGT),
        0x14 => Some(Opcode::EQ),
        0x15 => Some(Opcode::ISZERO),
        0x16 => Some(Opcode::AND),
        0x17 => Some(Opcode::OR),
        0x18 => Some(Opcode::XOR),
        0x19 => Some(Opcode::NOT),
        0x1a => Some(Opcode::BYTE),
        0x1b => Some(Opcode::SHL),
        0x1c => Some(Opcode::SHR),
        0x1d => Some(Opcode::SAR),
        0x60 => Some(Opcode::PUSH1),
        0x61 => Some(Opcode::PUSH2),
        0x62 => Some(Opcode::PUSH3),
        0x7f => Some(Opcode::PUSH32),
        _ => None,
    }
}

/// Table lookup of one program byte.
pub fn lookup_opcode(b: u8) -> (r: Option<Opcode>)
    ensures
        r == opcode_of(b),
{
    match b {
        0x00 => Some(Opcode::STOP),
        0x01 => Some(Opcode::ADD),
        0x02 => Some(Opcode::MUL),
        0x03 => Some(Opcode::SUB),
        0x04 => Some(Opcode::DIV),
        0x05 => Some(Opcode::SDIV),
        0x06 => Some(Opcode::MOD),
        0x07 => Some(Opcode::SMOD),
        0x08 => Some(Opcode::ADDMOD),
        0x09 => Some(Opcode::MULMOD),
        0x0a => Some(Opcode::EXP),
        0x0b => Some(Opcode::SIGNEXTEND),
        0x10 => Some(Opcode::LT),
        0x11 => Some(Opcode::GT),
        0x12 => Some(Opcode::SLT),
        0x13 => Some(Opcode::SGT),
        0x14 => Some(Opcode::EQ),
        0x15 => Some(Opcode::ISZERO),
        0x16 => Some(Opcode::AND),
        0x17 => Some(Opcode::OR),
        0x18 => Some(Opcode::XOR),
        0x19 => Some(Opcode::NOT),
        0x1a => Some(Opcode::BYTE),
        0x1b => Some(Opcode::SHL),
        0x1c => Some(Opcode::SHR),
        0x1d => Some(Opcode::SAR),
        0x60 => Some(Opcode::PUSH1),
        0x61 => Some(Opcode::PUSH2),
        0x62 => Some(Opcode::PUSH3),
        0x7f => Some(Opcode::PUSH32),
        _ => None,
    }
}

/// How many operands an opcode pops.
pub open spec fn arity(op: Opcode) -> nat {
    match op {
        Opcode::STOP => 0,
        Opcode::PUSH1 => 0,
        Opcode::PUSH2 => 0,
        Opcode::PUSH3 => 0,
        Opcode::PUSH32 => 0,
        Opcode::ISZERO => 1,
        Opcode::NOT => 1,
        Opcode::ADDMOD => 3,
        Opcode::MULMOD => 3,
        _ => 2,
    }
}

pub open spec fn is_push(op: Opcode) -> bool {
    op == Opcode::PUSH1 || op == Opcode::PUSH2 || op == Opcode::PUSH3 || op
        == Opcode::PUSH32
}

/// Immediate bytes that follow a push opcode.
pub open spec fn push_width(op: Opcode) -> nat {
    match op {
        Opcode::PUSH1 => 1,
        Opcode::PUSH2 => 2,
        Opcode::PUSH3 => 3,
        Opcode::PUSH32 => 32,
        _ => 0,
    }
}

} // verus!
