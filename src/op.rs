use vstd::prelude::*;

use crate::error::MemegaError;
use crate::opcode::{same_shape, spec_opcode_operands, Opcode, Operands};

verus! {

/// One instruction: an opcode and operands of the shape that it takes.
#[derive(Debug, Clone, Copy, PartialEq, Eq, Structural)]
pub struct Op {
    code: Opcode,
    operands: Operands,
}

impl Op {
    /// The instruction's opcode.
    pub closed spec fn spec_code(self) -> Opcode {
        self.code
    }

    /// The instruction's operands.
    pub closed spec fn spec_operands(self) -> Operands {
        self.operands
    }

    /// The operands have the shape that the opcode takes.
    pub open spec fn wf(self) -> bool {
        same_shape(spec_opcode_operands(self.spec_code()), self.spec_operands())
    }

    /// Two instructions with the same opcode and operands are equal.
    pub proof fn lemma_eq(a: Op, b: Op)
        requires
            a.spec_code() == b.spec_code(),
            a.spec_operands() == b.spec_operands(),
        ensures
            a == b,
    {
    }

    /// Builds an instruction; the operands must have the shape that the opcode
    /// takes.
    pub fn new(code: Opcode, operands: Operands) -> (r: Op)
        requires
            same_shape(spec_opcode_operands(code), operands),
        ensures
            r.spec_code() == code,
            r.spec_operands() == operands,
            r.wf(),
    {
        Op { code, operands }
    }

    /// Builds an instruction, or reports operands of the wrong shape.
    pub fn try_new(code: Opcode, operands: Operands) -> (r: Result<Op, MemegaError>)
        ensures
            same_shape(spec_opcode_operands(code), operands) <==> r is Ok,
            r matches Ok(op) ==> op.spec_code() == code && op.spec_operands() == operands,
            r matches Err(e) ==> e == MemegaError::InvalidOperands,
    {
        if code.operands().same_shape(&operands) {
            Ok(Op { code, operands })
        } else {
            Err(MemegaError::InvalidOperands)
        }
    }

    /// The instruction for `code` with every operand zero.
    pub fn from_code(code: Opcode) -> (r: Op)
        ensures
            r.spec_code() == code,
            r.spec_operands() == spec_opcode_operands(code),
            r.wf(),
    {
        Op { code, operands: code.operands() }
    }

    /// The instruction's opcode.
    pub fn code(&self) -> (r: Opcode)
        ensures
            r == self.spec_code(),
    {
        self.code
    }

    /// The instruction's operands.
    pub fn operands(&self) -> (r: Operands)
        ensures
            r == self.spec_operands(),
    {
        self.operands
    }

    /// Replaces the operands by others of the same shape.
    pub fn set_operands(&mut self, operands: Operands)
        requires
            same_shape(old(self).spec_operands(), operands),
        ensures
            final(self).spec_code() == old(self).spec_code(),
            final(self).spec_operands() == operands,
            old(self).wf() ==> final(self).wf(),
    {
        self.operands = operands;
    }
}

/// Penalty for instructions with different opcodes.
pub const OPCODE_PENALTY: u32 = 10;

/// One for each register operand in which two operand lists of the same
/// shape differ.
pub open spec fn spec_register_diffs(a: Operands, b: Operands) -> u32 {
    let d = |x: u8, y: u8| if x != y { 1u32 } else { 0u32 };
    match (a, b) {
        (Operands::Reg2Cmp { ra: a1, rb: b1 }, Operands::Reg2Cmp { ra: a2, rb: b2 }) => (d(a1, a2)
            + d(b1, b2)) as u32,
        (Operands::Reg2Assign { ri: i1, ra: a1 }, Operands::Reg2Assign { ri: i2, ra: a2 }) => (d(
            i1,
            i2,
        ) + d(a1, a2)) as u32,
        (
            Operands::Reg3Assign { ri: i1, ra: a1, rb: b1 },
            Operands::Reg3Assign { ri: i2, ra: a2, rb: b2 },
        ) => (d(i1, i2) + d(a1, a2) + d(b1, b2)) as u32,
        (Operands::ImmAssign { ri: i1, .. }, Operands::ImmAssign { ri: i2, .. }) => d(i1, i2),
        _ => 0,
    }
}

/// The distance between two instructions apart from their immediates: the
/// opcode penalty when the opcodes differ, plus one per differing register
/// operand when the operands have the same shape.
pub open spec fn spec_discrete_dist(a: Op, b: Op) -> u32 {
    ((if a.spec_code() != b.spec_code() { OPCODE_PENALTY } else { 0 }) + spec_register_diffs(
        a.spec_operands(),
        b.spec_operands(),
    )) as u32
}

fn diff(x: u8, y: u8) -> (r: u32)
    ensures
        r == if x != y { 1u32 } else { 0u32 },
{
    if x != y {
        1
    } else {
        0
    }
}

impl Op {
    /// The distance between two instructions apart from their immediates.
    pub fn discrete_dist(a: &Op, b: &Op) -> (r: u32)
        ensures
            r == spec_discrete_dist(*a, *b),
            r <= OPCODE_PENALTY + 3,
    {
        let regs = match (a.operands, b.operands) {
            (Operands::Reg2Cmp { ra: a1, rb: b1 }, Operands::Reg2Cmp { ra: a2, rb: b2 }) => diff(
                a1,
                a2,
            ) + diff(b1, b2),
            (Operands::Reg2Assign { ri: i1, ra: a1 }, Operands::Reg2Assign { ri: i2, ra: a2 }) => diff(
                i1,
                i2,
            ) + diff(a1, a2),
            (
                Operands::Reg3Assign { ri: i1, ra: a1, rb: b1 },
                Operands::Reg3Assign { ri: i2, ra: a2, rb: b2 },
            ) => diff(i1, i2) + diff(a1, a2) + diff(b1, b2),
            (Operands::ImmAssign { ri: i1, .. }, Operands::ImmAssign { ri: i2, .. }) => diff(i1, i2),
            _ => 0,
        };
        let code = if a.code != b.code {
            OPCODE_PENALTY
        } else {
            0
        };
        code + regs
    }
}

} // verus!
