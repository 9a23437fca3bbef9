use vstd::prelude::*;

verus! {

/// Failures that the library reports.
#[derive(Debug, Clone, Copy, PartialEq, Eq, Structural)]
pub enum MemegaError {
    /// Two sequences that must have the same length do not.
    LengthMismatch,
    /// An assembler line holds no mnemonic.
    MissingToken,
    /// An assembler line starts with an unknown mnemonic.
    UnknownInstruction,
    /// An assembler line has fewer operands than its opcode takes.
    MissingOperand,
    /// An operand is not a prefix character followed by a number in range
    /// (below 256 for a register).
    BadOperand,
    /// An instruction's operands do not have the shape that its opcode takes.
    InvalidOperands,
}

} // verus!
