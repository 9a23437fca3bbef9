use vstd::prelude::*;

verus! {

/// Operands of an instruction. Register indices address one memory of at
/// most 256 cells.
#[derive(Debug, Clone, Copy, PartialEq, Eq, Structural)]
pub enum Operands {
    /// Compare two registers.
    Reg2Cmp { ra: u8, rb: u8 },
    /// Assign a function of one register to another.
    Reg2Assign { ri: u8, ra: u8 },
    /// Assign a function of two registers to another.
    Reg3Assign { ri: u8, ra: u8, rb: u8 },
    /// Assign an immediate value to a register. `imm` holds the IEEE-754
    /// single-precision bit pattern of the value.
    ImmAssign { ri: u8, imm: u32 },
}

/// Registers that the operands read.
pub open spec fn spec_input_regs(o: Operands) -> Seq<u8> {
    match o {
        Operands::Reg2Assign { ra, .. } => seq![ra],
        Operands::Reg3Assign { ra, rb, .. } => seq![ra, rb],
        Operands::Reg2Cmp { ra, rb } => seq![ra, rb],
        Operands::ImmAssign { .. } => seq![],
    }
}

/// Registers that the operands write.
pub open spec fn spec_output_regs(o: Operands) -> Seq<u8> {
    match o {
        Operands::Reg2Cmp { .. } => seq![],
        Operands::Reg2Assign { ri, .. } => seq![ri],
        Operands::Reg3Assign { ri, .. } => seq![ri],
        Operands::ImmAssign { ri, .. } => seq![ri],
    }
}

/// Two operand values have the same variant.
pub open spec fn same_shape(a: Operands, b: Operands) -> bool {
    match (a, b) {
        (Operands::Reg2Cmp { .. }, Operands::Reg2Cmp { .. }) => true,
        (Operands::Reg2Assign { .. }, Operands::Reg2Assign { .. }) => true,
        (Operands::Reg3Assign { .. }, Operands::Reg3Assign { .. }) => true,
        (Operands::ImmAssign { .. }, Operands::ImmAssign { .. }) => true,
        _ => false,
    }
}

impl Operands {
    /// Registers that the instruction reads.
    pub fn input_regs(&self) -> (r: Vec<u8>)
        ensures
            r@ == spec_input_regs(*self),
    {
        match *self {
            Operands::Reg2Assign { ra, .. } => vec![ra],
            Operands::Reg3Assign { ra, rb, .. } => vec![ra, rb],
            Operands::Reg2Cmp { ra, rb } => vec![ra, rb],
            Operands::ImmAssign { .. } => vec![],
        }
    }

    /// Registers that the instruction writes.
    pub fn output_regs(&self) -> (r: Vec<u8>)
        ensures
            r@ == spec_output_regs(*self),
    {
        match *self {
            Operands::Reg2Cmp { .. } => vec![],
            Operands::Reg2Assign { ri, .. } => vec![ri],
            Operands::Reg3Assign { ri, .. } => vec![ri],
            Operands::ImmAssign { ri, .. } => vec![ri],
        }
    }

    /// Whether `self` and `other` are of the same variant.
    pub fn same_shape(&self, other: &Operands) -> (r: bool)
        ensures
            r == same_shape(*self, *other),
    {
        match (*self, *other) {
            (Operands::Reg2Cmp { .. }, Operands::Reg2Cmp { .. }) => true,
            (Operands::Reg2Assign { .. }, Operands::Reg2Assign { .. }) => true,
            (Operands::Reg3Assign { .. }, Operands::Reg3Assign { .. }) => true,
            (Operands::ImmAssign { .. }, Operands::ImmAssign { .. }) => true,
            _ => false,
        }
    }
}

/// Opcodes of the register machine. Its memory holds up to 256 cells; the
/// opcodes have a variable number of operands.
#[derive(Debug, Clone, Copy, PartialEq, Eq, Structural, Hash)]
pub enum Opcode {
    /// `add ri, ra, rb`: `ri = ra + rb`.
    Add,
    /// `sub ri, ra, rb`: `ri = ra - rb`.
    Sub,
    /// `mul ri, ra, rb`: `ri = ra * rb`.
    Mul,
    /// `div ri, ra, rb`: `ri = ra / rb`; a division by zero is skipped.
    Div,
    /// `pow ri, ra, rb`: `ri = ra ^ rb`; an infinite result is skipped.
    Pow,
    /// `abs ri, ra`: `ri = |ra|`.
    Abs,
    /// `neg ri, ra`: `ri = -ra`.
    Neg,
    /// `ln ri, ra`: `ri = ln(ra)`.
    Ln,
    /// `sin ri, ra`: `ri = sin(ra)`.
    Sin,
    /// `cos ri, ra`: `ri = cos(ra)`.
    Cos,
    /// `load ri, imm`: `ri = imm`.
    Load,
    /// `copy ri, ra`: `ri = ra`.
    Copy,
    /// `iflt ra, rb`: run the next instruction only if `ra < rb`. Can be chained.
    IfLt,
}

/// Number of opcodes.
pub const NUM_OPCODES: usize = 13;

/// The operand shape that an opcode takes, with every field zero.
pub open spec fn spec_opcode_operands(c: Opcode) -> Operands {
    match c {
        Opcode::Add | Opcode::Sub | Opcode::Mul | Opcode::Div | Opcode::Pow => Operands::Reg3Assign {
            ri: 0,
            ra: 0,
            rb: 0,
        },
        Opcode::Abs | Opcode::Neg | Opcode::Ln | Opcode::Sin | Opcode::Cos | Opcode::Copy => {
            Operands::Reg2Assign { ri: 0, ra: 0 }
        },
        Opcode::Load => Operands::ImmAssign { ri: 0, imm: 0 },
        Opcode::IfLt => Operands::Reg2Cmp { ra: 0, rb: 0 },
    }
}

/// The opcode at position `i` of the declaration order.
pub open spec fn spec_opcode_at(i: int) -> Opcode {
    if i == 0 {
        Opcode::Add
    } else if i == 1 {
        Opcode::Sub
    } else if i == 2 {
        Opcode::Mul
    } else if i == 3 {
        Opcode::Div
    } else if i == 4 {
        Opcode::Pow
    } else if i == 5 {
        Opcode::Abs
    } else if i == 6 {
        Opcode::Neg
    } else if i == 7 {
        Opcode::Ln
    } else if i == 8 {
        Opcode::Sin
    } else if i == 9 {
        Opcode::Cos
    } else if i == 10 {
        Opcode::Load
    } else if i == 11 {
        Opcode::Copy
    } else {
        Opcode::IfLt
    }
}

impl Opcode {
    /// The operand shape that this opcode takes, with every field zero.
    pub fn operands(&self) -> (r: Operands)
        ensures
            r == spec_opcode_operands(*self),
    {
        match self {
            Opcode::Add | Opcode::Sub | Opcode::Mul | Opcode::Div | Opcode::Pow => {
                Operands::Reg3Assign { ri: 0, ra: 0, rb: 0 }
            },
            Opcode::Abs | Opcode::Neg | Opcode::Ln | Opcode::Sin | Opcode::Cos | Opcode::Copy => {
                Operands::Reg2Assign { ri: 0, ra: 0 }
            },
            Opcode::Load => Operands::ImmAssign { ri: 0, imm: 0 },
            Opcode::IfLt => Operands::Reg2Cmp { ra: 0, rb: 0 },
        }
    }

    /// Whether the opcode is a branch.
    pub fn is_branch(&self) -> (r: bool)
        ensures
            r == (*self == Opcode::IfLt),
    {
        matches!(self, Opcode::IfLt)
    }

    /// Every opcode, in declaration order.
    pub fn all() -> (r: Vec<Opcode>)
        ensures
            r@.len() == NUM_OPCODES,
            forall|i: int| 0 <= i < NUM_OPCODES ==> r@[i] == spec_opcode_at(i),
    {
        vec![
            Opcode::Add,
            Opcode::Sub,
            Opcode::Mul,
            Opcode::Div,
            Opcode::Pow,
            Opcode::Abs,
            Opcode::Neg,
            Opcode::Ln,
            Opcode::Sin,
            Opcode::Cos,
            Opcode::Load,
            Opcode::Copy,
            Opcode::IfLt,
        ]
    }

    /// The opcode's name as its variant spells it.
    pub fn name(&self) -> (r: &'static str)
        ensures
            r@ == spec_opcode_name(*self),
    {
        match self {
            Opcode::Add => "Add",
            Opcode::Sub => "Sub",
            Opcode::Mul => "Mul",
            Opcode::Div => "Div",
            Opcode::Pow => "Pow",
            Opcode::Abs => "Abs",
            Opcode::Neg => "Neg",
            Opcode::Ln => "Ln",
            Opcode::Sin => "Sin",
            Opcode::Cos => "Cos",
            Opcode::Load => "Load",
            Opcode::Copy => "Copy",
            Opcode::IfLt => "IfLt",
        }
    }
}

/// The opcode's name as its variant spells it.
pub open spec fn spec_opcode_name(c: Opcode) -> Seq<char> {
    match c {
        Opcode::Add => "Add"@,
        Opcode::Sub => "Sub"@,
        Opcode::Mul => "Mul"@,
        Opcode::Div => "Div"@,
        Opcode::Pow => "Pow"@,
        Opcode::Abs => "Abs"@,
        Opcode::Neg => "Neg"@,
        Opcode::Ln => "Ln"@,
        Opcode::Sin => "Sin"@,
        Opcode::Cos => "Cos"@,
        Opcode::Load => "Load"@,
        Opcode::Copy => "Copy"@,
        Opcode::IfLt => "IfLt"@,
    }
}

/// Decodes a byte into an opcode, wrapping around the number of opcodes.
pub fn u8_to_opcode(v: u8) -> (r: Opcode)
    ensures
        r == spec_opcode_at(v as int % NUM_OPCODES as int),
{
    let i = (v as usize) % NUM_OPCODES;
    let all = Opcode::all();
    all[i]
}

} // verus!
