//! The instruction model shared by the parser and the interpreter.

use vstd::prelude::*;

verus! {

/// One parsed, executable operation. An instruction is immutable once
/// constructed and carries no source position.
#[derive(Clone, Debug, PartialEq, Eq)]
pub enum Instruction {
    /// Emit a literal string.
    Print(String),
    /// Bind a name to a value; names are write-once.
    CreateVariable(String, String),
    /// Emit the value bound to a name.
    PrintVariable(String),
}

/// The mathematical model of an instruction: each operand as its character
/// sequence.
pub enum InstructionModel {
    Print(Seq<char>),
    CreateVariable(Seq<char>, Seq<char>),
    PrintVariable(Seq<char>),
}

impl View for Instruction {
    type V = InstructionModel;

    open spec fn view(&self) -> InstructionModel {
        match self {
            Instruction::Print(text) => InstructionModel::Print(text@),
            Instruction::CreateVariable(name, value) => InstructionModel::CreateVariable(
                name@,
                value@,
            ),
            Instruction::PrintVariable(name) => InstructionModel::PrintVariable(name@),
        }
    }
}

/// The models of a sequence of instructions, in order.
pub open spec fn instructions_view(instructions: Seq<Instruction>) -> Seq<InstructionModel> {
    instructions.map_values(|instruction: Instruction| instruction@)
}

} // verus!
