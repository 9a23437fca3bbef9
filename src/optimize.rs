use vstd::prelude::*;

use crate::op::Op;
use crate::opcode::{spec_input_regs, spec_output_regs, Opcode};

verus! {

/// Number of register cells that the machine can address.
pub const NUM_CELLS: usize = 256;

/// `eff` with the cell of every register of `regs` set to `v`.
pub open spec fn set_regs(eff: Seq<bool>, regs: Seq<u8>, v: bool) -> Seq<bool>
    decreases regs.len(),
{
    if regs.len() == 0 {
        eff
    } else {
        set_regs(eff, regs.drop_last(), v).update(regs.last() as int, v)
    }
}

/// Some register of `regs` is marked in `eff`.
pub open spec fn marks_any(eff: Seq<bool>, regs: Seq<u8>) -> bool {
    exists|k: int| 0 <= k < regs.len() && eff[regs[k] as int]
}

/// The effective registers before the pass starts: the output registers.
pub open spec fn initial_effective(outputs: Seq<u8>) -> Seq<bool> {
    set_regs(Seq::new(NUM_CELLS as nat, |i: int| false), outputs, true)
}

/// State of the backward pass: the effective registers, whether the
/// instruction after the current one was kept, that instruction's output
/// registers, and the kept instructions from the last one backwards.
pub type PassState = (Seq<bool>, bool, Seq<u8>, Seq<Op>);

/// The branch `op` guards a kept instruction: it is kept too, and the guarded
/// write may be skipped, so the registers it writes stay effective.
pub open spec fn resurrects(op: Op, st: PassState) -> bool {
    st.1 && op.spec_code() == Opcode::IfLt
}

/// One step of the backward pass over the instruction `op`.
pub open spec fn pass_step(op: Op, st: PassState) -> PassState {
    let outs = spec_output_regs(op.spec_operands());
    let ins = spec_input_regs(op.spec_operands());
    let writes = marks_any(st.0, outs);
    let eff1 = set_regs(st.0, outs, false);
    let res = resurrects(op, st);
    let effective = writes || res;
    let eff2 = if res {
        set_regs(eff1, st.2, true)
    } else {
        eff1
    };
    let eff3 = if effective {
        set_regs(eff2, ins, true)
    } else {
        eff2
    };
    (eff3, effective, outs, if effective { st.3.push(op) } else { st.3 })
}

/// The pass state after the instructions from `i` to the end have been
/// visited, last one first.
pub open spec fn pass_from(code: Seq<Op>, outputs: Seq<u8>, i: int) -> PassState
    decreases code.len() - i,
{
    if i >= code.len() {
        (initial_effective(outputs), false, Seq::empty(), Seq::empty())
    } else {
        pass_step(code[i], pass_from(code, outputs, i + 1))
    }
}

/// The program with the instructions that cannot affect an output register
/// removed, in program order.
pub open spec fn spec_optimize(code: Seq<Op>, outputs: Seq<u8>) -> Seq<Op> {
    let rev = pass_from(code, outputs, 0).3;
    Seq::new(rev.len(), |i: int| rev[rev.len() - 1 - i])
}

/// `sub` is `code` at the strictly increasing positions `idx`.
pub open spec fn picks(sub: Seq<Op>, code: Seq<Op>, idx: Seq<int>) -> bool {
    &&& idx.len() == sub.len()
    &&& forall|j: int| 0 <= j < idx.len() ==> 0 <= #[trigger] idx[j] < code.len() && sub[j] == code[idx[j]]
    &&& forall|j: int, k: int| 0 <= j < k < idx.len() ==> #[trigger] idx[j] < #[trigger] idx[k]
}

/// `rev` is `code` at the strictly decreasing positions `idx`, all at least `lo`.
pub open spec fn picks_backwards(rev: Seq<Op>, code: Seq<Op>, idx: Seq<int>, lo: int) -> bool {
    &&& idx.len() == rev.len()
    &&& forall|j: int|
        0 <= j < idx.len() ==> lo <= #[trigger] idx[j] < code.len() && rev[j] == code[idx[j]]
    &&& forall|j: int, k: int| 0 <= j < k < idx.len() ==> #[trigger] idx[j] > #[trigger] idx[k]
}

proof fn lemma_pass_picks(code: Seq<Op>, outputs: Seq<u8>, i: int)
    requires
        0 <= i <= code.len(),
    ensures
        exists|idx: Seq<int>| #[trigger] picks_backwards(pass_from(code, outputs, i).3, code, idx, i),
    decreases code.len() - i,
{
    if i == code.len() {
        assert(picks_backwards(pass_from(code, outputs, i).3, code, Seq::<int>::empty(), i));
    } else {
        lemma_pass_picks(code, outputs, i + 1);
        let prev = pass_from(code, outputs, i + 1).3;
        let idx = choose|idx: Seq<int>| #[trigger] picks_backwards(prev, code, idx, i + 1);
        let rev = pass_from(code, outputs, i).3;
        if rev.len() == prev.len() {
            assert(rev == prev);
            assert(picks_backwards(rev, code, idx, i));
        } else {
            assert(rev == prev.push(code[i]));
            let idx2 = idx.push(i);
            assert forall|j: int| 0 <= j < idx2.len() implies i <= #[trigger] idx2[j] < code.len()
                && rev[j] == code[idx2[j]] by {
                if j < idx.len() {
                    assert(idx2[j] == idx[j]);
                }
            }
            assert forall|j: int, k: int| 0 <= j < k < idx2.len() implies #[trigger] idx2[j]
                > #[trigger] idx2[k] by {
                if k < idx.len() {
                    assert(idx2[j] == idx[j] && idx2[k] == idx[k]);
                } else {
                    assert(idx2[j] == idx[j]);
                }
            }
            assert(picks_backwards(rev, code, idx2, i));
        }
    }
}

/// Dead-code elimination keeps instructions of the program, in their order:
/// the optimized program is a subsequence of the input program.
pub proof fn lemma_optimize_keeps_order(code: Seq<Op>, outputs: Seq<u8>)
    ensures
        exists|idx: Seq<int>| #[trigger] picks(spec_optimize(code, outputs), code, idx),
{
    lemma_pass_picks(code, outputs, 0);
    let rev = pass_from(code, outputs, 0).3;
    let idx = choose|idx: Seq<int>| #[trigger] picks_backwards(rev, code, idx, 0);
    let n = idx.len();
    let fwd = Seq::new(n, |j: int| idx[n - 1 - j]);
    let opt = spec_optimize(code, outputs);
    assert forall|j: int| 0 <= j < fwd.len() implies 0 <= #[trigger] fwd[j] < code.len() && opt[j]
        == code[fwd[j]] by {
        assert(fwd[j] == idx[n - 1 - j]);
    }
    assert forall|j: int, k: int| 0 <= j < k < fwd.len() implies #[trigger] fwd[j] < #[trigger] fwd[k] by {
        assert(fwd[j] == idx[n - 1 - j] && fwd[k] == idx[n - 1 - k]);
    }
    assert(picks(opt, code, fwd));
}

/// Dead-code elimination for register-machine programs, driven by a set of
/// output registers.
#[derive(Debug, Clone)]
pub struct LgpOptimizer {
    code: Vec<Op>,
    output_regs: Vec<u8>,
}

fn marks_any_exec(eff: &Vec<bool>, regs: &Vec<u8>) -> (r: bool)
    requires
        eff@.len() == NUM_CELLS,
    ensures
        r == marks_any(eff@, regs@),
{
    let mut k: usize = 0;
    while k < regs.len()
        invariant
            eff@.len() == NUM_CELLS,
            k <= regs@.len(),
            forall|m: int| 0 <= m < k ==> !eff@[regs@[m] as int],
        decreases regs@.len() - k,
    {
        if eff[regs[k] as usize] {
            return true;
        }
        k = k + 1;
    }
    false
}

fn set_regs_exec(eff: &mut Vec<bool>, regs: &Vec<u8>, v: bool)
    requires
        old(eff)@.len() == NUM_CELLS,
    ensures
        final(eff)@ == set_regs(old(eff)@, regs@, v),
        final(eff)@.len() == NUM_CELLS,
{
    let mut k: usize = 0;
    while k < regs.len()
        invariant
            k <= regs@.len(),
            eff@ == set_regs(old(eff)@, regs@.subrange(0, k as int), v),
            eff@.len() == NUM_CELLS,
        decreases regs@.len() - k,
    {
        proof {
            assert(regs@.subrange(0, k + 1).drop_last() =~= regs@.subrange(0, k as int));
        }
        eff.set(regs[k] as usize, v);
        k = k + 1;
    }
    proof {
        assert(regs@.subrange(0, k as int) =~= regs@);
    }
}

proof fn lemma_set_regs_len(eff: Seq<bool>, regs: Seq<u8>, v: bool)
    requires
        eff.len() == NUM_CELLS,
    ensures
        set_regs(eff, regs, v).len() == NUM_CELLS,
    decreases regs.len(),
{
    if regs.len() > 0 {
        lemma_set_regs_len(eff, regs.drop_last(), v);
    }
}

fn copy_slice<T: Copy>(s: &[T]) -> (r: Vec<T>)
    ensures
        r@ == s@,
{
    let mut r: Vec<T> = Vec::new();
    let mut i: usize = 0;
    while i < s.len()
        invariant
            i <= s@.len(),
            r@ == s@.subrange(0, i as int),
        decreases s@.len() - i,
    {
        r.push(s[i]);
        i = i + 1;
        proof {
            assert(r@ =~= s@.subrange(0, i as int));
        }
    }
    proof {
        assert(s@.subrange(0, i as int) =~= s@);
    }
    r
}

impl LgpOptimizer {
    /// The program that the optimizer works on.
    pub closed spec fn spec_code(&self) -> Seq<Op> {
        self.code@
    }

    /// The output registers.
    pub closed spec fn spec_output_regs(&self) -> Seq<u8> {
        self.output_regs@
    }

    /// An optimizer for `code` whose results are read from `output_regs`.
    pub fn new(code: &[Op], output_regs: &[u8]) -> (r: LgpOptimizer)
        ensures
            r.spec_code() == code@,
            r.spec_output_regs() == output_regs@,
    {
        LgpOptimizer { code: copy_slice(code), output_regs: copy_slice(output_regs) }
    }

    /// The program with its dead code removed, in one backward pass: an
    /// instruction is kept when it writes an effective register, or when it
    /// is a branch guarding a kept instruction. A kept instruction's output
    /// registers stop being effective before it (unless a branch guards it)
    /// and its input registers become effective.
    pub fn optimize(&self) -> (r: Vec<Op>)
        ensures
            r@ == spec_optimize(self.spec_code(), self.spec_output_regs()),
    {
        let ghost code = self.code@;
        let ghost outs = self.output_regs@;
        let mut eff: Vec<bool> = Vec::new();
        while eff.len() < NUM_CELLS
            invariant
                eff@.len() <= NUM_CELLS,
                forall|k: int| 0 <= k < eff@.len() ==> !eff@[k],
            decreases NUM_CELLS - eff@.len(),
        {
            eff.push(false);
        }
        proof {
            assert(eff@ =~= Seq::new(NUM_CELLS as nat, |i: int| false));
        }
        set_regs_exec(&mut eff, &self.output_regs, true);
        let mut kept: Vec<Op> = Vec::new();
        let mut next_effective = false;
        let mut next_outputs: Vec<u8> = Vec::new();
        let mut i = self.code.len();
        while i > 0
            invariant
                code == self.code@,
                outs == self.output_regs@,
                i <= code.len(),
                eff@.len() == NUM_CELLS,
                (eff@, next_effective, next_outputs@, kept@) == pass_from(code, outs, i as int),
            decreases i,
        {
            let op = self.code[i - 1];
            let outputs = op.operands().output_regs();
            let inputs = op.operands().input_regs();
            let writes = marks_any_exec(&eff, &outputs);
            set_regs_exec(&mut eff, &outputs, false);
            let res = next_effective && op.code().is_branch();
            if res {
                set_regs_exec(&mut eff, &next_outputs, true);
            }
            let effective = writes || res;
            if effective {
                set_regs_exec(&mut eff, &inputs, true);
                kept.push(op);
            }
            next_effective = effective;
            next_outputs = outputs;
            i = i - 1;
        }
        let mut r: Vec<Op> = Vec::new();
        let mut j = kept.len();
        while j > 0
            invariant
                j <= kept@.len(),
                r@.len() == kept@.len() - j,
                forall|m: int| 0 <= m < r@.len() ==> r@[m] == kept@[kept@.len() - 1 - m],
            decreases j,
        {
            r.push(kept[j - 1]);
            j = j - 1;
        }
        proof {
            assert(r@ =~= spec_optimize(code, outs));
        }
        r
    }
}

/// A program of one instruction never has a branch guard a kept instruction:
/// it is kept exactly when it writes an output register.
pub proof fn lemma_single_op_no_resurrection(code: Seq<Op>, outputs: Seq<u8>)
    requires
        code.len() == 1,
    ensures
        !resurrects(code[0], pass_from(code, outputs, 1)),
        spec_optimize(code, outputs) == if marks_any(
            initial_effective(outputs),
            spec_output_regs(code[0].spec_operands()),
        ) {
            seq![code[0]]
        } else {
            Seq::<Op>::empty()
        },
{
    let st = pass_from(code, outputs, 1);
    assert(st.1 == false);
    assert(pass_from(code, outputs, 0) == pass_step(code[0], st));
    let rev = pass_from(code, outputs, 0).3;
    if marks_any(initial_effective(outputs), spec_output_regs(code[0].spec_operands())) {
        assert(rev =~= seq![code[0]]);
        assert(spec_optimize(code, outputs) =~= seq![code[0]]);
    } else {
        assert(rev =~= Seq::<Op>::empty());
        assert(spec_optimize(code, outputs) =~= Seq::<Op>::empty());
    }
}

} // verus!
