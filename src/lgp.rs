use vstd::prelude::*;

use crate::mutation::{mutate_insert, mutate_reset, mutate_scramble, mutate_swap};
use crate::op::Op;
use crate::opcode::{Opcode, Operands};
use crate::optimize::{spec_optimize, LgpOptimizer};
use crate::rng::{random_below, random_flag};

verus! {

/// Number of crossover strategies of the program evaluator (the first is the
/// identity).
pub const LGP_NUM_CROSSOVER: usize = 2;

/// Number of mutation strategies of the program evaluator.
pub const LGP_NUM_MUTATION: usize = 7;

/// A program evolved by linear genetic programming: its instructions, the
/// number of registers and of constants, and the registers it is read from.
#[derive(Debug, Clone, PartialEq, Eq)]
pub struct LgpState {
    ops_unopt: Vec<Op>,
    num_reg: usize,
    num_const: usize,
    output_regs: Vec<u8>,
}

impl LgpState {
    /// The program as evolved.
    pub closed spec fn spec_ops(&self) -> Seq<Op> {
        self.ops_unopt@
    }

    /// Number of registers.
    pub closed spec fn spec_num_reg(&self) -> usize {
        self.num_reg
    }

    /// Number of constants.
    pub closed spec fn spec_num_const(&self) -> usize {
        self.num_const
    }

    /// The registers the program is read from.
    pub closed spec fn spec_output_regs(&self) -> Seq<u8> {
        self.output_regs@
    }

    pub fn new(ops_unopt: Vec<Op>, num_reg: usize, num_const: usize, output_regs: &[u8]) -> (r:
        LgpState)
        ensures
            r.spec_ops() == ops_unopt@,
            r.spec_num_reg() == num_reg,
            r.spec_num_const() == num_const,
            r.spec_output_regs() == output_regs@,
    {
        let mut outs: Vec<u8> = Vec::new();
        let mut i: usize = 0;
        while i < output_regs.len()
            invariant
                i <= output_regs@.len(),
                outs@ == output_regs@.subrange(0, i as int),
            decreases output_regs@.len() - i,
        {
            outs.push(output_regs[i]);
            i = i + 1;
            proof {
                assert(outs@ =~= output_regs@.subrange(0, i as int));
            }
        }
        proof {
            assert(outs@ =~= output_regs@);
        }
        LgpState { ops_unopt, num_reg, num_const, output_regs: outs }
    }

    pub fn num_reg(&self) -> (r: usize)
        ensures
            r == self.spec_num_reg(),
    {
        self.num_reg
    }

    pub fn num_const(&self) -> (r: usize)
        ensures
            r == self.spec_num_const(),
    {
        self.num_const
    }

    /// The program as evolved.
    pub fn ops_unopt(&self) -> (r: &[Op])
        ensures
            r@ == self.spec_ops(),
    {
        self.ops_unopt.as_slice()
    }

    /// The registers the program is read from.
    pub fn output_regs(&self) -> (r: &[u8])
        ensures
            r@ == self.spec_output_regs(),
    {
        self.output_regs.as_slice()
    }

    /// Replaces the program.
    pub fn set_ops_unopt(&mut self, ops: Vec<Op>)
        ensures
            final(self).spec_ops() == ops@,
            final(self).spec_num_reg() == old(self).spec_num_reg(),
            final(self).spec_num_const() == old(self).spec_num_const(),
            final(self).spec_output_regs() == old(self).spec_output_regs(),
    {
        self.ops_unopt = ops;
    }

    /// The program with its dead code removed: what runs, and what distances
    /// are measured on.
    pub fn ops_opt(&self) -> (r: Vec<Op>)
        ensures
            r@ == spec_optimize(self.spec_ops(), self.spec_output_regs()),
    {
        LgpOptimizer::new(self.ops_unopt.as_slice(), self.output_regs.as_slice()).optimize()
    }
}

/// The operands write only registers below `num_reg` and read only cells
/// below `mem_size`.
pub open spec fn regs_in_range(o: Operands, num_reg: int, mem_size: int) -> bool {
    match o {
        Operands::Reg2Cmp { ra, rb } => ra < mem_size && rb < mem_size,
        Operands::Reg2Assign { ri, ra } => ri < num_reg && ra < mem_size,
        Operands::Reg3Assign { ri, ra, rb } => ri < num_reg && ra < mem_size && rb < mem_size,
        Operands::ImmAssign { ri, .. } => ri < num_reg,
    }
}

/// A register below `bound`, which is at most 256.
fn random_reg(bound: usize) -> (r: u8)
    requires
        0 < bound <= 256,
    ensures
        r < bound,
{
    random_below(bound) as u8
}

/// A random instruction: an opcode drawn from `opcodes`, registers drawn
/// below their bounds, and `imm` as the immediate of a load.
pub fn rand_op(opcodes: &[Opcode], num_reg: usize, num_const: usize, imm: u32) -> (r: Op)
    requires
        opcodes@.len() > 0,
        num_reg > 0,
        num_reg + num_const <= 256,
    ensures
        opcodes@.contains(r.spec_code()),
        r.wf(),
        regs_in_range(r.spec_operands(), num_reg as int, num_reg + num_const),
        r.spec_operands() matches Operands::ImmAssign { imm: v, .. } ==> v == imm,
{
    let mem_size = num_reg + num_const;
    let code = opcodes[random_below(opcodes.len())];
    let operands = match code.operands() {
        Operands::Reg2Cmp { .. } => Operands::Reg2Cmp {
            ra: random_reg(mem_size),
            rb: random_reg(mem_size),
        },
        Operands::Reg2Assign { .. } => Operands::Reg2Assign {
            ri: random_reg(num_reg),
            ra: random_reg(mem_size),
        },
        Operands::Reg3Assign { .. } => Operands::Reg3Assign {
            ri: random_reg(num_reg),
            ra: random_reg(mem_size),
            rb: random_reg(mem_size),
        },
        Operands::ImmAssign { .. } => Operands::ImmAssign { ri: random_reg(num_reg), imm },
    };
    Op::new(code, operands)
}

/// `new` differs from `old` in at most one operand, which (if it is a
/// register) is in range, or (if it is the immediate) is `imm`.
pub open spec fn one_operand_changed(old: Operands, new: Operands, num_reg: int, mem_size: int, imm: u32) -> bool {
    match (old, new) {
        (Operands::Reg2Cmp { ra: a0, rb: b0 }, Operands::Reg2Cmp { ra: a1, rb: b1 }) => (b0 == b1
            && a1 < mem_size) || (a0 == a1 && b1 < mem_size),
        (Operands::Reg2Assign { ri: i0, ra: a0 }, Operands::Reg2Assign { ri: i1, ra: a1 }) => (a0
            == a1 && i1 < num_reg) || (i0 == i1 && a1 < mem_size),
        (
            Operands::Reg3Assign { ri: i0, ra: a0, rb: b0 },
            Operands::Reg3Assign { ri: i1, ra: a1, rb: b1 },
        ) => (a0 == a1 && b0 == b1 && i1 < num_reg) || (i0 == i1 && b0 == b1 && a1 < mem_size) || (
        i0 == i1 && a0 == a1 && b1 < mem_size),
        (Operands::ImmAssign { ri: i0, imm: m0 }, Operands::ImmAssign { ri: i1, imm: m1 }) => (m0
            == m1 && i1 < num_reg) || (i0 == i1 && m1 == imm),
        _ => false,
    }
}

/// Micro-mutation: redraws one operand of `op` and keeps its opcode. A
/// register is drawn below its bound; an immediate becomes `imm`.
pub fn micro_mutate(op: &mut Op, num_reg: usize, num_const: usize, imm: u32)
    requires
        num_reg > 0,
        num_reg + num_const <= 256,
    ensures
        final(op).spec_code() == old(op).spec_code(),
        one_operand_changed(
            old(op).spec_operands(),
            final(op).spec_operands(),
            num_reg as int,
            num_reg + num_const,
            imm,
        ),
{
    let mem_size = num_reg + num_const;
    let operands = match op.operands() {
        Operands::Reg2Cmp { ra, rb } => {
            if random_flag() {
                Operands::Reg2Cmp { ra: random_reg(mem_size), rb }
            } else {
                Operands::Reg2Cmp { ra, rb: random_reg(mem_size) }
            }
        },
        Operands::Reg2Assign { ri, ra } => {
            if random_flag() {
                Operands::Reg2Assign { ri: random_reg(num_reg), ra }
            } else {
                Operands::Reg2Assign { ri, ra: random_reg(mem_size) }
            }
        },
        Operands::Reg3Assign { ri, ra, rb } => {
            let which = random_below(3);
            if which == 0 {
                Operands::Reg3Assign { ri: random_reg(num_reg), ra, rb }
            } else if which == 1 {
                Operands::Reg3Assign { ri, ra: random_reg(mem_size), rb }
            } else {
                Operands::Reg3Assign { ri, ra, rb: random_reg(mem_size) }
            }
        },
        Operands::ImmAssign { ri, imm: old_imm } => {
            if random_flag() {
                Operands::ImmAssign { ri: random_reg(num_reg), imm: old_imm }
            } else {
                Operands::ImmAssign { ri, imm }
            }
        },
    };
    op.set_operands(operands);
}

/// Applies the mutation strategy `idx` (below 6) to a program:
/// swap two instructions, move one next to another, reset one to `fresh`,
/// scramble a stretch, insert `fresh` (while shorter than `max_code`), or
/// delete one (while longer than one instruction).
pub fn mutate_program(ops: &mut Vec<Op>, idx: usize, fresh: Op, max_code: usize)
    requires
        idx < 6,
        old(ops)@.len() > 0,
    ensures
        idx <= 3 ==> final(ops)@.len() == old(ops)@.len(),
        idx == 2 ==> exists|i: int|
            0 <= i < old(ops)@.len() && final(ops)@ == old(ops)@.update(i, fresh),
        idx == 4 ==> if old(ops)@.len() < max_code {
            exists|i: int| 0 <= i < old(ops)@.len() && final(ops)@ == old(ops)@.insert(i, fresh)
        } else {
            final(ops)@ == old(ops)@
        },
        idx == 5 ==> if old(ops)@.len() > 1 {
            exists|i: int| 0 <= i < old(ops)@.len() && final(ops)@ == old(ops)@.remove(i)
        } else {
            final(ops)@ == old(ops)@
        },
        idx == 0 ==> exists|i: int, j: int| crate::mutation::swapped(old(ops)@, final(ops)@, i, j),
        idx == 1 ==> exists|st: int, en: int|
            crate::mutation::moved_to(old(ops)@, final(ops)@, st, en),
        idx == 3 ==> exists|st: int, en: int|
            crate::mutation::scrambled(old(ops)@, final(ops)@, st, en),
{
    let n = ops.len();
    if idx == 0 {
        mutate_swap(ops.as_mut_slice());
    } else if idx == 1 {
        mutate_insert(ops.as_mut_slice());
    } else if idx == 2 {
        mutate_reset(ops.as_mut_slice(), fresh);
    } else if idx == 3 {
        mutate_scramble(ops.as_mut_slice());
    } else if idx == 4 {
        if n < max_code {
            let at = random_below(n);
            ops.insert(at, fresh);
        }
    } else {
        if n > 1 {
            let at = random_below(n);
            ops.remove(at);
        }
    }
}

/// Configuration of the register-machine genome: the number of registers,
/// the longest program, and the opcodes to draw from.
#[derive(Debug, Clone)]
pub struct LgpGenomeConfig {
    max_reg: usize,
    max_code: usize,
    opcodes: Vec<Opcode>,
}

impl LgpGenomeConfig {
    pub closed spec fn spec_max_reg(&self) -> usize {
        self.max_reg
    }

    pub closed spec fn spec_max_code(&self) -> usize {
        self.max_code
    }

    pub closed spec fn spec_opcodes(&self) -> Seq<Opcode> {
        self.opcodes@
    }

    /// A configuration that draws from every opcode.
    pub fn new(max_reg: usize, max_code: usize) -> (r: LgpGenomeConfig)
        ensures
            r.spec_max_reg() == max_reg,
            r.spec_max_code() == max_code,
            r.spec_opcodes().len() == crate::opcode::NUM_OPCODES,
            forall|i: int|
                0 <= i < crate::opcode::NUM_OPCODES ==> r.spec_opcodes()[i]
                    == crate::opcode::spec_opcode_at(i),
    {
        LgpGenomeConfig { max_reg, max_code, opcodes: Opcode::all() }
    }

    /// The same configuration drawing from `opcodes` only.
    pub fn with_opcodes(self, opcodes: &[Opcode]) -> (r: LgpGenomeConfig)
        ensures
            r.spec_max_reg() == self.spec_max_reg(),
            r.spec_max_code() == self.spec_max_code(),
            r.spec_opcodes() == opcodes@,
    {
        let mut v: Vec<Opcode> = Vec::new();
        let mut i: usize = 0;
        while i < opcodes.len()
            invariant
                i <= opcodes@.len(),
                v@ == opcodes@.subrange(0, i as int),
            decreases opcodes@.len() - i,
        {
            v.push(opcodes[i]);
            i = i + 1;
            proof {
                assert(v@ =~= opcodes@.subrange(0, i as int));
            }
        }
        proof {
            assert(v@ =~= opcodes@);
        }
        LgpGenomeConfig { max_reg: self.max_reg, max_code: self.max_code, opcodes: v }
    }
}

/// The register-machine genome, built from its configuration.
#[derive(Debug, Clone)]
pub struct LgpGenome {
    cfg: LgpGenomeConfig,
}

impl LgpGenome {
    pub closed spec fn spec_cfg(&self) -> LgpGenomeConfig {
        self.cfg
    }

    pub fn new(cfg: LgpGenomeConfig) -> (r: LgpGenome)
        ensures
            r.spec_cfg() == cfg,
    {
        LgpGenome { cfg }
    }
}

} // verus!
