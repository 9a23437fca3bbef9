use vstd::prelude::*;

use crate::op::Op;
use crate::opcode::Opcode;

verus! {

/// Largest number of memory cells (registers and constants together).
pub const MAX_MEMORY: usize = 256;

/// The cell `idx` holds a constant: writes to it are dropped.
pub open spec fn spec_is_constant(idx: u8, num_reg: usize) -> bool {
    idx as int >= num_reg as int
}

/// Whether cell `idx` is read-only in a memory whose first `num_reg` cells
/// are registers.
pub fn is_constant(idx: u8, num_reg: usize) -> (r: bool)
    ensures
        r == spec_is_constant(idx, num_reg),
{
    idx as usize >= num_reg
}

/// A memory of `num_reg` registers followed by `num_const` constants fits
/// in the machine.
pub fn memory_fits(num_reg: usize, num_const: usize) -> (r: bool)
    ensures
        r == (num_reg + num_const <= MAX_MEMORY),
{
    num_reg <= MAX_MEMORY && num_const <= MAX_MEMORY - num_reg
}

/// The instruction is a branch.
pub open spec fn spec_is_branch(op: Op) -> bool {
    op.spec_code() == Opcode::IfLt
}

/// The program counter after a branch whose condition failed, when the
/// next instruction to fetch is at `pc`: past the run of branches that
/// follows and the first instruction that is not a branch, or the end of
/// the program.
pub open spec fn spec_skip_guarded(code: Seq<Op>, pc: int) -> int
    decreases code.len() - pc,
{
    if pc >= code.len() {
        pc
    } else if !spec_is_branch(code[pc]) {
        pc + 1
    } else {
        spec_skip_guarded(code, pc + 1)
    }
}

/// Skips the instruction that a failed branch guards, with any branches
/// chained before it.
pub fn skip_guarded(code: &[Op], pc: usize) -> (r: usize)
    requires
        pc <= code@.len(),
    ensures
        r == spec_skip_guarded(code@, pc as int),
        pc < r <= code@.len() || (pc == code@.len() && r == pc),
{
    let mut p = pc;
    while p < code.len()
        invariant
            pc <= p <= code@.len(),
            spec_skip_guarded(code@, pc as int) == spec_skip_guarded(code@, p as int),
            forall|k: int| pc <= k < p ==> spec_is_branch(code@[k]),
        decreases code@.len() - p,
    {
        if !code[p].code().is_branch() {
            return p + 1;
        }
        p = p + 1;
    }
    p
}

/// The instruction at `pc` and the program counter after it, or `None` at
/// the end of the program.
pub fn fetch(code: &[Op], pc: usize) -> (r: Option<(Op, usize)>)
    ensures
        pc >= code@.len() <==> r is None,
        r matches Some((op, next)) ==> op == code@[pc as int] && next == pc + 1,
{
    if pc >= code.len() {
        None
    } else {
        Some((code[pc], pc + 1))
    }
}

/// The instructions that run, in order, when every branch condition is
/// given by `taken` (indexed by position in the program).
pub open spec fn spec_trace(code: Seq<Op>, taken: Seq<bool>, pc: int) -> Seq<int>
    decreases code.len() - pc,
{
    if pc < 0 || pc >= code.len() {
        Seq::empty()
    } else if spec_is_branch(code[pc]) && !taken[pc] {
        let next = spec_skip_guarded(code, pc + 1);
        if next <= pc || next > code.len() {
            Seq::empty()
        } else {
            seq![pc] + spec_trace(code, taken, next)
        }
    } else {
        seq![pc] + spec_trace(code, taken, pc + 1)
    }
}

proof fn lemma_skip_advances(code: Seq<Op>, pc: int)
    requires
        0 <= pc <= code.len(),
    ensures
        pc <= spec_skip_guarded(code, pc) <= code.len(),
        pc < code.len() ==> pc < spec_skip_guarded(code, pc),
    decreases code.len() - pc,
{
    if pc < code.len() && spec_is_branch(code[pc]) {
        lemma_skip_advances(code, pc + 1);
    }
}

/// Every program terminates: the program counter only moves forward, so the
/// instructions that run are at increasing positions and at most as many as
/// the program has.
pub proof fn lemma_trace_moves_forward(code: Seq<Op>, taken: Seq<bool>, pc: int)
    requires
        0 <= pc,
    ensures
        spec_trace(code, taken, pc).len() <= if pc < code.len() { code.len() - pc } else { 0 },
        forall|i: int, j: int|
            0 <= i < j < spec_trace(code, taken, pc).len() ==> #[trigger] spec_trace(
                code,
                taken,
                pc,
            )[i] < #[trigger] spec_trace(code, taken, pc)[j],
        forall|i: int|
            0 <= i < spec_trace(code, taken, pc).len() ==> pc <= #[trigger] spec_trace(
                code,
                taken,
                pc,
            )[i] < code.len(),
    decreases code.len() - pc,
{
    if pc < code.len() {
        if spec_is_branch(code[pc]) && !taken[pc] {
            lemma_skip_advances(code, pc + 1);
            let next = spec_skip_guarded(code, pc + 1);
            lemma_trace_moves_forward(code, taken, next);
        } else {
            lemma_trace_moves_forward(code, taken, pc + 1);
        }
    }
}

} // verus!
