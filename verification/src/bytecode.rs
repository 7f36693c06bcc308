//! The instruction set: nine instruction forms over 8-bit register ids and
//! 32-bit immediates. Branch targets are absolute instruction indices.

use vstd::prelude::*;

verus! {

/// Register identifier.
pub type Reg = u8;

#[derive(Clone, Copy, Debug, PartialEq, Eq, Structural)]
pub enum Inst {
    /// Copy the second register into the first.
    Mov(Reg, Reg),
    /// Set a register to a zero-extended immediate.
    Movi(Reg, u32),
    /// Load an immediate into the accumulator.
    Ldai(u32),
    /// Load a register into the accumulator.
    Lda(Reg),
    /// Store the accumulator into a register.
    Sta(Reg),
    /// Add a register to the accumulator.
    Add(Reg),
    /// Subtract one from a register.
    Dec(Reg),
    /// Jump to the absolute index when the two registers differ.
    Bne(Reg, Reg, u32),
    /// Emit the accumulator.
    Print,
}

/// The opcode byte of each instruction form.
pub open spec fn opcode_of(inst: Inst) -> u8 {
    match inst {
        Inst::Mov(_, _) => 0,
        Inst::Movi(_, _) => 1,
        Inst::Ldai(_) => 2,
        Inst::Lda(_) => 3,
        Inst::Sta(_) => 4,
        Inst::Add(_) => 5,
        Inst::Dec(_) => 6,
        Inst::Bne(_, _, _) => 7,
        Inst::Print => 8,
    }
}

/// The branch target of an instruction, if it is a branch.
pub open spec fn branch_target(inst: Inst) -> Option<u32> {
    match inst {
        Inst::Bne(_, _, target) => Some(target),
        _ => None,
    }
}

impl Inst {
    /// Whether this instruction may transfer control somewhere other than
    /// the next instruction.
    pub fn is_branch(&self) -> (r: bool)
        ensures
            r == (branch_target(*self) is Some),
            r == (*self matches Inst::Bne(_, _, _)),
    {
        match self {
            Inst::Bne(_, _, _) => true,
            _ => false,
        }
    }

    /// The opcode byte that introduces this instruction in the binary format.
    pub fn opcode(&self) -> (op: u8)
        ensures
            op == opcode_of(*self),
            op <= 8,
    {
        match self {
            Inst::Mov(_, _) => 0,
            Inst::Movi(_, _) => 1,
            Inst::Ldai(_) => 2,
            Inst::Lda(_) => 3,
            Inst::Sta(_) => 4,
            Inst::Add(_) => 5,
            Inst::Dec(_) => 6,
            Inst::Bne(_, _, _) => 7,
            Inst::Print => 8,
        }
    }
}

} // verus!
