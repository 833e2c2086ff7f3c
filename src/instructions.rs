//! The abstract instructions a processor executes.

use vstd::prelude::*;

use crate::Data;

verus! {

/// Arithmetic filler, memory read or memory write.
#[derive(Clone, Copy, Debug, PartialEq, Eq, Structural)]
pub enum Instruction {
    Calc,
    Read { address: usize },
    Write { address: usize, data: Data },
}

/// Name of the kind of an instruction.
pub open spec fn kind_name(i: Instruction) -> Seq<char> {
    match i {
        Instruction::Calc => seq!['C', 'a', 'l', 'c'],
        Instruction::Read { .. } => seq!['R', 'e', 'a', 'd'],
        Instruction::Write { .. } => seq!['W', 'r', 'i', 't', 'e'],
    }
}

impl Instruction {
    /// Name of the kind of the instruction.
    pub fn get_type_str(&self) -> (r: &'static str)
        ensures
            r@ == kind_name(*self),
    {
        proof {
            reveal_strlit("Calc");
            reveal_strlit("Read");
            reveal_strlit("Write");
        }
        match self {
            Instruction::Calc => "Calc",
            Instruction::Read { .. } => "Read",
            Instruction::Write { .. } => "Write",
        }
    }
}

} // verus!
