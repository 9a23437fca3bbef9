use vstd::prelude::*;

use crate::error::MemegaError;
use crate::op::Op;
use crate::opcode::{spec_opcode_operands, Opcode, Operands};

verus! {

// Program text: one instruction per line, `<mnemonic> <operand>, <operand>...`.
// A register is `r<decimal>`; an immediate is `#<decimal>` giving its
// single-precision bit pattern.

/// Characters that separate tokens on a line.
pub open spec fn is_ws(c: char) -> bool {
    c == ' ' || c == '\t' || c == '\r'
}

/// The value of a decimal digit.
pub open spec fn digit_value(c: char) -> Option<nat> {
    if c == '0' {
        Some(0)
    } else if c == '1' {
        Some(1)
    } else if c == '2' {
        Some(2)
    } else if c == '3' {
        Some(3)
    } else if c == '4' {
        Some(4)
    } else if c == '5' {
        Some(5)
    } else if c == '6' {
        Some(6)
    } else if c == '7' {
        Some(7)
    } else if c == '8' {
        Some(8)
    } else if c == '9' {
        Some(9)
    } else {
        None
    }
}

/// The digit for a value below ten.
pub open spec fn digit_char(d: nat) -> char {
    if d == 0 {
        '0'
    } else if d == 1 {
        '1'
    } else if d == 2 {
        '2'
    } else if d == 3 {
        '3'
    } else if d == 4 {
        '4'
    } else if d == 5 {
        '5'
    } else if d == 6 {
        '6'
    } else if d == 7 {
        '7'
    } else if d == 8 {
        '8'
    } else {
        '9'
    }
}

/// The value of a sequence of decimal digits, or `None` if it is empty or
/// holds anything else.
pub open spec fn decimal_value(t: Seq<char>) -> Option<nat>
    decreases t.len(),
{
    if t.len() == 0 {
        None
    } else {
        match digit_value(t.last()) {
            None => None,
            Some(d) => if t.len() == 1 {
                Some(d)
            } else {
                match decimal_value(t.drop_last()) {
                    None => None,
                    Some(v) => Some(v * 10 + d),
                }
            },
        }
    }
}

/// The decimal digits of `n`.
pub open spec fn decimal_text(n: nat) -> Seq<char>
    decreases n,
{
    if n < 10 {
        seq![digit_char(n)]
    } else {
        decimal_text(n / 10).push(digit_char(n % 10))
    }
}

/// `t` without its commas.
pub open spec fn strip_commas(t: Seq<char>) -> Seq<char> {
    t.filter(|c: char| c != ',')
}

/// The number that an operand token gives: commas removed, its first
/// character skipped, the rest decimal digits with a value of at most `max`.
pub open spec fn operand_value(t: Seq<char>, max: nat) -> Option<nat> {
    let u = strip_commas(t);
    if u.len() < 2 {
        None
    } else {
        match decimal_value(u.drop_first()) {
            Some(v) => if v <= max {
                Some(v)
            } else {
                None
            },
            None => None,
        }
    }
}

/// First position from `p` on, before `end`, that holds no whitespace.
pub open spec fn skip_ws(s: Seq<char>, p: int, end: int) -> int
    decreases end - p,
{
    if p >= end {
        end
    } else if is_ws(s[p]) {
        skip_ws(s, p + 1, end)
    } else {
        p
    }
}

/// First position from `p` on, before `end`, that holds whitespace.
pub open spec fn token_end(s: Seq<char>, p: int, end: int) -> int
    decreases end - p,
{
    if p >= end {
        end
    } else if is_ws(s[p]) {
        p
    } else {
        token_end(s, p + 1, end)
    }
}

/// The next token of `s` from `p` on, before `end`, and the position after it.
pub open spec fn next_token(s: Seq<char>, p: int, end: int) -> Option<(Seq<char>, int)> {
    let a = skip_ws(s, p, end);
    if a >= end {
        None
    } else {
        let b = token_end(s, a, end);
        Some((s.subrange(a, b), b))
    }
}

/// The opcode that a mnemonic names.
pub open spec fn mnemonic_opcode(t: Seq<char>) -> Option<Opcode> {
    if t == "add"@ {
        Some(Opcode::Add)
    } else if t == "sub"@ {
        Some(Opcode::Sub)
    } else if t == "mul"@ {
        Some(Opcode::Mul)
    } else if t == "div"@ {
        Some(Opcode::Div)
    } else if t == "abs"@ {
        Some(Opcode::Abs)
    } else if t == "neg"@ {
        Some(Opcode::Neg)
    } else if t == "pow"@ {
        Some(Opcode::Pow)
    } else if t == "ln"@ {
        Some(Opcode::Ln)
    } else if t == "sin"@ {
        Some(Opcode::Sin)
    } else if t == "cos"@ {
        Some(Opcode::Cos)
    } else if t == "load"@ {
        Some(Opcode::Load)
    } else if t == "copy"@ {
        Some(Opcode::Copy)
    } else if t == "iflt"@ {
        Some(Opcode::IfLt)
    } else {
        None
    }
}

/// The mnemonic of an opcode.
pub open spec fn mnemonic_text(c: Opcode) -> Seq<char> {
    match c {
        Opcode::Add => "add"@,
        Opcode::Sub => "sub"@,
        Opcode::Mul => "mul"@,
        Opcode::Div => "div"@,
        Opcode::Abs => "abs"@,
        Opcode::Neg => "neg"@,
        Opcode::Pow => "pow"@,
        Opcode::Ln => "ln"@,
        Opcode::Sin => "sin"@,
        Opcode::Cos => "cos"@,
        Opcode::Load => "load"@,
        Opcode::Copy => "copy"@,
        Opcode::IfLt => "iflt"@,
    }
}

/// The operand read from the next token: a number of at most `max`, and the
/// position after the token.
pub open spec fn operand_at(s: Seq<char>, p: int, end: int, max: nat) -> Result<
    (nat, int),
    MemegaError,
> {
    match next_token(s, p, end) {
        None => Err(MemegaError::MissingOperand),
        Some((t, q)) => match operand_value(t, max) {
            None => Err(MemegaError::BadOperand),
            Some(v) => Ok((v, q)),
        },
    }
}

/// Largest register number.
pub open spec fn max_reg() -> nat {
    255
}

/// Largest immediate bit pattern.
pub open spec fn max_imm() -> nat {
    0xffff_ffff
}

/// The operands of an instruction with opcode `code`, read from the tokens
/// from `p` on; tokens after them are ignored.
pub open spec fn operands_at(s: Seq<char>, p: int, end: int, code: Opcode) -> Result<
    Operands,
    MemegaError,
> {
    match spec_opcode_operands(code) {
        Operands::Reg2Cmp { .. } => match operand_at(s, p, end, max_reg()) {
            Err(e) => Err(e),
            Ok((a, q)) => match operand_at(s, q, end, max_reg()) {
                Err(e) => Err(e),
                Ok((b, _)) => Ok(Operands::Reg2Cmp { ra: a as u8, rb: b as u8 }),
            },
        },
        Operands::Reg2Assign { .. } => match operand_at(s, p, end, max_reg()) {
            Err(e) => Err(e),
            Ok((i, q)) => match operand_at(s, q, end, max_reg()) {
                Err(e) => Err(e),
                Ok((a, _)) => Ok(Operands::Reg2Assign { ri: i as u8, ra: a as u8 }),
            },
        },
        Operands::Reg3Assign { .. } => match operand_at(s, p, end, max_reg()) {
            Err(e) => Err(e),
            Ok((i, q)) => match operand_at(s, q, end, max_reg()) {
                Err(e) => Err(e),
                Ok((a, q2)) => match operand_at(s, q2, end, max_reg()) {
                    Err(e) => Err(e),
                    Ok((b, _)) => Ok(Operands::Reg3Assign { ri: i as u8, ra: a as u8, rb: b as u8 }),
                },
            },
        },
        Operands::ImmAssign { .. } => match operand_at(s, p, end, max_reg()) {
            Err(e) => Err(e),
            Ok((i, q)) => match operand_at(s, q, end, max_imm()) {
                Err(e) => Err(e),
                Ok((m, _)) => Ok(Operands::ImmAssign { ri: i as u8, imm: m as u32 }),
            },
        },
    }
}

/// The opcode and operands on the line `[p, end)` of `s`.
pub open spec fn line_at(s: Seq<char>, p: int, end: int) -> Result<(Opcode, Operands), MemegaError> {
    match next_token(s, p, end) {
        None => Err(MemegaError::MissingToken),
        Some((m, q)) => match mnemonic_opcode(m) {
            None => Err(MemegaError::UnknownInstruction),
            Some(code) => match operands_at(s, q, end, code) {
                Err(e) => Err(e),
                Ok(o) => Ok((code, o)),
            },
        },
    }
}

/// Position of the first newline from `p` on, or the end of `s`.
pub open spec fn line_end(s: Seq<char>, p: int) -> int
    decreases s.len() - p,
{
    if p >= s.len() {
        s.len() as int
    } else if s[p] == '\n' {
        p
    } else {
        line_end(s, p + 1)
    }
}

/// The instructions of the lines of `s` from `p` on, as opcodes and
/// operands, or the error of the first line that does not parse.
pub open spec fn asm_from(s: Seq<char>, p: int) -> Result<Seq<(Opcode, Operands)>, MemegaError>
    decreases s.len() - p,
{
    if p >= s.len() {
        Ok(Seq::empty())
    } else {
        let e = line_end(s, p);
        if e < p {
            Ok(Seq::empty())
        } else {
            match line_at(s, p, e) {
                Err(err) => Err(err),
                Ok(ins) => if e >= s.len() {
                    Ok(seq![ins])
                } else {
                    match asm_from(s, e + 1) {
                        Err(err) => Err(err),
                        Ok(rest) => Ok(seq![ins] + rest),
                    }
                },
            }
        }
    }
}

/// The instructions as their opcodes and operands.
pub open spec fn op_parts(code: Seq<Op>) -> Seq<(Opcode, Operands)> {
    Seq::new(code.len(), |i: int| (code[i].spec_code(), code[i].spec_operands()))
}

/// The text of a register.
pub open spec fn reg_text(r: u8) -> Seq<char> {
    seq!['r'] + decimal_text(r as nat)
}

/// The text of operands.
pub open spec fn operands_text(o: Operands) -> Seq<char> {
    match o {
        Operands::Reg2Cmp { ra, rb } => reg_text(ra) + ", "@ + reg_text(rb),
        Operands::Reg2Assign { ri, ra } => reg_text(ri) + ", "@ + reg_text(ra),
        Operands::Reg3Assign { ri, ra, rb } => reg_text(ri) + ", "@ + reg_text(ra) + ", "@
            + reg_text(rb),
        Operands::ImmAssign { ri, imm } => reg_text(ri) + ", "@ + seq!['#'] + decimal_text(
            imm as nat,
        ),
    }
}

/// The text of one instruction, without its newline.
pub open spec fn op_text(op: Op) -> Seq<char> {
    mnemonic_text(op.spec_code()) + " "@ + operands_text(op.spec_operands())
}

/// The text of a program: each instruction on a line of its own.
pub open spec fn disasm_text(code: Seq<Op>) -> Seq<char>
    decreases code.len(),
{
    if code.len() == 0 {
        Seq::empty()
    } else {
        disasm_text(code.drop_last()) + op_text(code.last()) + "\n"@
    }
}

fn push_str(out: &mut String, s: &str)
    ensures
        final(out)@ == old(out)@ + s@,
{
    out.append(s);
}

fn digit_str(d: u64) -> (r: &'static str)
    requires
        d < 10,
    ensures
        r@ == seq![digit_char(d as nat)],
{
    if d == 0 {
        proof { reveal_strlit("0"); }
        "0"
    } else if d == 1 {
        proof { reveal_strlit("1"); }
        "1"
    } else if d == 2 {
        proof { reveal_strlit("2"); }
        "2"
    } else if d == 3 {
        proof { reveal_strlit("3"); }
        "3"
    } else if d == 4 {
        proof { reveal_strlit("4"); }
        "4"
    } else if d == 5 {
        proof { reveal_strlit("5"); }
        "5"
    } else if d == 6 {
        proof { reveal_strlit("6"); }
        "6"
    } else if d == 7 {
        proof { reveal_strlit("7"); }
        "7"
    } else if d == 8 {
        proof { reveal_strlit("8"); }
        "8"
    } else {
        proof { reveal_strlit("9"); }
        "9"
    }
}

fn push_decimal(out: &mut String, n: u64)
    ensures
        final(out)@ == old(out)@ + decimal_text(n as nat),
    decreases n,
{
    if n < 10 {
        push_str(out, digit_str(n));
    } else {
        push_decimal(out, n / 10);
        push_str(out, digit_str(n % 10));
        proof {
            assert(old(out)@ + decimal_text(n as nat) =~= old(out)@ + decimal_text((n / 10) as nat)
                + seq![digit_char((n % 10) as nat)]);
        }
    }
}

fn push_reg(out: &mut String, r: u8)
    ensures
        final(out)@ == old(out)@ + reg_text(r),
{
    proof { reveal_strlit("r"); }
    push_str(out, "r");
    push_decimal(out, r as u64);
    proof {
        assert(old(out)@ + reg_text(r) =~= old(out)@ + "r"@ + decimal_text(r as nat));
    }
}

fn mnemonic_str(c: Opcode) -> (r: &'static str)
    ensures
        r@ == mnemonic_text(c),
{
    match c {
        Opcode::Add => "add",
        Opcode::Sub => "sub",
        Opcode::Mul => "mul",
        Opcode::Div => "div",
        Opcode::Abs => "abs",
        Opcode::Neg => "neg",
        Opcode::Pow => "pow",
        Opcode::Ln => "ln",
        Opcode::Sin => "sin",
        Opcode::Cos => "cos",
        Opcode::Load => "load",
        Opcode::Copy => "copy",
        Opcode::IfLt => "iflt",
    }
}

/// Appends the text of one instruction, without its newline.
fn push_op(out: &mut String, op: &Op)
    ensures
        final(out)@ == old(out)@ + op_text(*op),
{
    let ghost start = out@;
    push_str(out, mnemonic_str(op.code()));
    push_str(out, " ");
    match op.operands() {
        Operands::Reg2Cmp { ra, rb } => {
            push_reg(out, ra);
            push_str(out, ", ");
            push_reg(out, rb);
        },
        Operands::Reg2Assign { ri, ra } => {
            push_reg(out, ri);
            push_str(out, ", ");
            push_reg(out, ra);
        },
        Operands::Reg3Assign { ri, ra, rb } => {
            push_reg(out, ri);
            push_str(out, ", ");
            push_reg(out, ra);
            push_str(out, ", ");
            push_reg(out, rb);
        },
        Operands::ImmAssign { ri, imm } => {
            push_reg(out, ri);
            push_str(out, ", ");
            proof { reveal_strlit("#"); }
            push_str(out, "#");
            push_decimal(out, imm as u64);
        },
    }
    proof {
        assert(out@ =~= start + op_text(*op));
    }
}

/// The text of a program: one line per instruction, `<mnemonic> <operand>, ...`,
/// registers as `r<decimal>` and a load's immediate as `#` followed by the
/// decimal value of its single-precision bit pattern (`load r0, #1065353216`
/// loads 1.0).
pub fn lgp_disasm(code: &[Op]) -> (r: String)
    ensures
        r@ == disasm_text(code@),
{
    let mut out = String::new();
    let mut i: usize = 0;
    while i < code.len()
        invariant
            i <= code@.len(),
            out@ == disasm_text(code@.subrange(0, i as int)),
        decreases code@.len() - i,
    {
        push_op(&mut out, &code[i]);
        push_str(&mut out, "\n");
        proof {
            let sub = code@.subrange(0, i + 1);
            assert(sub.drop_last() =~= code@.subrange(0, i as int));
        }
        i = i + 1;
    }
    proof {
        assert(code@.subrange(0, i as int) =~= code@);
    }
    out
}

// Parsing.

fn is_ws_exec(c: char) -> (r: bool)
    ensures
        r == is_ws(c),
{
    c == ' ' || c == '\t' || c == '\r'
}

fn digit_value_exec(c: char) -> (r: Option<u64>)
    ensures
        r matches Some(d) ==> digit_value(c) == Some(d as nat) && d < 10,
        r is None ==> digit_value(c) is None,
{
    if c == '0' {
        Some(0)
    } else if c == '1' {
        Some(1)
    } else if c == '2' {
        Some(2)
    } else if c == '3' {
        Some(3)
    } else if c == '4' {
        Some(4)
    } else if c == '5' {
        Some(5)
    } else if c == '6' {
        Some(6)
    } else if c == '7' {
        Some(7)
    } else if c == '8' {
        Some(8)
    } else if c == '9' {
        Some(9)
    } else {
        None
    }
}

proof fn lemma_decimal_prefix_grows(t: Seq<char>, k: int)
    requires
        1 <= k <= t.len(),
        decimal_value(t) is Some,
    ensures
        decimal_value(t.subrange(0, k)) is Some,
        decimal_value(t.subrange(0, k)).unwrap() <= decimal_value(t).unwrap(),
    decreases t.len(),
{
    if k < t.len() {
        assert(t.subrange(0, k) =~= t.drop_last().subrange(0, k));
        lemma_decimal_prefix_grows(t.drop_last(), k);
    } else {
        assert(t.subrange(0, k) =~= t);
    }
}

/// The value of the digits `t[from..]` if they are all digits, at least one,
/// with a value of at most `max`.
fn decimal_exec(t: &Vec<char>, from: usize, max: u64) -> (r: Option<u64>)
    requires
        from <= t@.len(),
    ensures
        r matches Some(v) ==> decimal_value(t@.subrange(from as int, t@.len() as int)) == Some(
            v as nat,
        ) && v <= max,
        r is None ==> !(decimal_value(t@.subrange(from as int, t@.len() as int)) matches Some(v)
            && v <= max),
{
    if from == t.len() {
        return None;
    }
    let ghost u = t@.subrange(from as int, t@.len() as int);
    let mut v: u64 = 0;
    let mut i = from;
    while i < t.len()
        invariant
            from <= i <= t@.len(),
            u == t@.subrange(from as int, t@.len() as int),
            v <= max,
            i > from ==> decimal_value(t@.subrange(from as int, i as int)) == Some(v as nat),
        decreases t@.len() - i,
    {
        let d = match digit_value_exec(t[i]) {
            Some(d) => d,
            None => {
                proof {
                    lemma_not_decimal(u, i - from);
                }
                return None;
            },
        };
        proof {
            let pre = t@.subrange(from as int, i + 1);
            assert(pre.last() == t@[i as int]);
            if i > from {
                assert(pre.drop_last() =~= t@.subrange(from as int, i as int));
            }
        }
        if d > max || (i > from && v > (max - d) / 10) {
            proof {
                let pre = t@.subrange(from as int, i + 1);
                if i > from {
                    if d <= max {
                        assert(v * 10 + d > max) by (nonlinear_arith)
                            requires
                                v > (max - d) / 10,
                                d <= max,
                        ;
                    }
                    assert(decimal_value(pre) == Some((v * 10 + d) as nat));
                } else {
                    assert(pre.len() == 1);
                    assert(decimal_value(pre) == Some(d as nat));
                }
                if decimal_value(u) is Some {
                    lemma_decimal_prefix_grows(u, i + 1 - from);
                    assert(u.subrange(0, i + 1 - from) =~= pre);
                }
            }
            return None;
        }
        proof {
            if i > from {
                assert(v * 10 + d <= max) by (nonlinear_arith)
                    requires
                        v <= (max - d) / 10,
                        d <= max,
                ;
            }
        }
        v = if i == from { d } else { v * 10 + d };
        i = i + 1;
    }
    Some(v)
}

proof fn lemma_not_decimal(u: Seq<char>, k: int)
    requires
        0 <= k < u.len(),
        digit_value(u[k]) is None,
    ensures
        decimal_value(u) is None,
    decreases u.len(),
{
    if k < u.len() - 1 {
        lemma_not_decimal(u.drop_last(), k);
    }
}

fn strip_commas_exec(t: &Vec<char>) -> (r: Vec<char>)
    ensures
        r@ == strip_commas(t@),
{
    let mut r: Vec<char> = Vec::new();
    let mut i: usize = 0;
    while i < t.len()
        invariant
            i <= t@.len(),
            r@ == strip_commas(t@.subrange(0, i as int)),
        decreases t@.len() - i,
    {
        proof {
            let pre = t@.subrange(0, i + 1);
            assert(pre.drop_last() =~= t@.subrange(0, i as int));
            pre.drop_last().lemma_filter_push(pre.last(), |c: char| c != ',');
            assert(pre =~= pre.drop_last().push(pre.last()));
        }
        if t[i] != ',' {
            r.push(t[i]);
        }
        i = i + 1;
    }
    proof {
        assert(t@.subrange(0, i as int) =~= t@);
    }
    r
}

fn operand_value_exec(t: &Vec<char>, max: u64) -> (r: Option<u64>)
    ensures
        r matches Some(v) ==> operand_value(t@, max as nat) == Some(v as nat),
        r is None ==> operand_value(t@, max as nat) is None,
{
    let u = strip_commas_exec(t);
    if u.len() < 2 {
        return None;
    }
    let r = decimal_exec(&u, 1, max);
    proof {
        assert(u@.subrange(1, u@.len() as int) =~= u@.drop_first());
    }
    r
}

fn skip_ws_exec(s: &Vec<char>, p: usize, end: usize) -> (r: usize)
    requires
        p <= end <= s@.len(),
    ensures
        r == skip_ws(s@, p as int, end as int),
        p <= r <= end,
{
    let mut q = p;
    while q < end && is_ws_exec(s[q])
        invariant
            p <= q <= end <= s@.len(),
            skip_ws(s@, p as int, end as int) == skip_ws(s@, q as int, end as int),
        decreases end - q,
    {
        q = q + 1;
    }
    q
}

fn token_end_exec(s: &Vec<char>, p: usize, end: usize) -> (r: usize)
    requires
        p <= end <= s@.len(),
    ensures
        r == token_end(s@, p as int, end as int),
        p <= r <= end,
{
    let mut q = p;
    while q < end && !is_ws_exec(s[q])
        invariant
            p <= q <= end <= s@.len(),
            token_end(s@, p as int, end as int) == token_end(s@, q as int, end as int),
        decreases end - q,
    {
        q = q + 1;
    }
    q
}

fn next_token_exec(s: &Vec<char>, p: usize, end: usize) -> (r: Option<(Vec<char>, usize)>)
    requires
        p <= end <= s@.len(),
    ensures
        r is None ==> next_token(s@, p as int, end as int) is None,
        r matches Some((t, q)) ==> next_token(s@, p as int, end as int) == Some((t@, q as int))
            && q <= end,
{
    let a = skip_ws_exec(s, p, end);
    if a >= end {
        return None;
    }
    let b = token_end_exec(s, a, end);
    let mut t: Vec<char> = Vec::new();
    let mut i = a;
    while i < b
        invariant
            a <= i <= b <= end <= s@.len(),
            t@ == s@.subrange(a as int, i as int),
        decreases b - i,
    {
        t.push(s[i]);
        i = i + 1;
        proof {
            assert(t@ =~= s@.subrange(a as int, i as int));
        }
    }
    Some((t, b))
}

fn same_text(t: &Vec<char>, lit: &str) -> (r: bool)
    ensures
        r == (t@ == lit@),
{
    let n = lit.unicode_len();
    if t.len() != n {
        return false;
    }
    let mut i: usize = 0;
    while i < n
        invariant
            n == lit@.len(),
            t@.len() == n,
            i <= n,
            forall|k: int| 0 <= k < i ==> t@[k] == lit@[k],
        decreases n - i,
    {
        if t[i] != lit.get_char(i) {
            return false;
        }
        i = i + 1;
    }
    assert(t@ =~= lit@);
    true
}

fn mnemonic_opcode_exec(t: &Vec<char>) -> (r: Option<Opcode>)
    ensures
        r == mnemonic_opcode(t@),
{
    if same_text(t, "add") {
        Some(Opcode::Add)
    } else if same_text(t, "sub") {
        Some(Opcode::Sub)
    } else if same_text(t, "mul") {
        Some(Opcode::Mul)
    } else if same_text(t, "div") {
        Some(Opcode::Div)
    } else if same_text(t, "abs") {
        Some(Opcode::Abs)
    } else if same_text(t, "neg") {
        Some(Opcode::Neg)
    } else if same_text(t, "pow") {
        Some(Opcode::Pow)
    } else if same_text(t, "ln") {
        Some(Opcode::Ln)
    } else if same_text(t, "sin") {
        Some(Opcode::Sin)
    } else if same_text(t, "cos") {
        Some(Opcode::Cos)
    } else if same_text(t, "load") {
        Some(Opcode::Load)
    } else if same_text(t, "copy") {
        Some(Opcode::Copy)
    } else if same_text(t, "iflt") {
        Some(Opcode::IfLt)
    } else {
        None
    }
}

fn operand_at_exec(s: &Vec<char>, p: usize, end: usize, max: u64) -> (r: Result<
    (u64, usize),
    MemegaError,
>)
    requires
        p <= end <= s@.len(),
    ensures
        r matches Ok((v, q)) ==> operand_at(s@, p as int, end as int, max as nat) == Ok::<
            (nat, int),
            MemegaError,
        >((v as nat, q as int)) && q <= end,
        r matches Err(e) ==> operand_at(s@, p as int, end as int, max as nat) == Err::<
            (nat, int),
            MemegaError,
        >(e),
{
    match next_token_exec(s, p, end) {
        None => Err(MemegaError::MissingOperand),
        Some((t, q)) => match operand_value_exec(&t, max) {
            None => Err(MemegaError::BadOperand),
            Some(v) => Ok((v, q)),
        },
    }
}

fn operands_at_exec(s: &Vec<char>, p: usize, end: usize, code: Opcode) -> (r: Result<
    Operands,
    MemegaError,
>)
    requires
        p <= end <= s@.len(),
    ensures
        r == operands_at(s@, p as int, end as int, code),
{
    match code.operands() {
        Operands::Reg2Cmp { .. } => {
            let (a, q) = operand_at_exec(s, p, end, 255)?;
            let (b, _) = operand_at_exec(s, q, end, 255)?;
            Ok(Operands::Reg2Cmp { ra: a as u8, rb: b as u8 })
        },
        Operands::Reg2Assign { .. } => {
            let (i, q) = operand_at_exec(s, p, end, 255)?;
            let (a, _) = operand_at_exec(s, q, end, 255)?;
            Ok(Operands::Reg2Assign { ri: i as u8, ra: a as u8 })
        },
        Operands::Reg3Assign { .. } => {
            let (i, q) = operand_at_exec(s, p, end, 255)?;
            let (a, q2) = operand_at_exec(s, q, end, 255)?;
            let (b, _) = operand_at_exec(s, q2, end, 255)?;
            Ok(Operands::Reg3Assign { ri: i as u8, ra: a as u8, rb: b as u8 })
        },
        Operands::ImmAssign { .. } => {
            let (i, q) = operand_at_exec(s, p, end, 255)?;
            let (m, _) = operand_at_exec(s, q, end, 0xffff_ffff)?;
            Ok(Operands::ImmAssign { ri: i as u8, imm: m as u32 })
        },
    }
}

fn line_at_exec(s: &Vec<char>, p: usize, end: usize) -> (r: Result<Op, MemegaError>)
    requires
        p <= end <= s@.len(),
    ensures
        r matches Ok(op) ==> line_at(s@, p as int, end as int) == Ok::<
            (Opcode, Operands),
            MemegaError,
        >((op.spec_code(), op.spec_operands())) && op.wf(),
        r matches Err(e) ==> line_at(s@, p as int, end as int) == Err::<
            (Opcode, Operands),
            MemegaError,
        >(e),
{
    match next_token_exec(s, p, end) {
        None => Err(MemegaError::MissingToken),
        Some((m, q)) => match mnemonic_opcode_exec(&m) {
            None => Err(MemegaError::UnknownInstruction),
            Some(code) => {
                let o = operands_at_exec(s, q, end, code)?;
                Ok(Op::new(code, o))
            },
        },
    }
}

fn line_end_exec(s: &Vec<char>, p: usize) -> (r: usize)
    requires
        p <= s@.len(),
    ensures
        r == line_end(s@, p as int),
        p <= r <= s@.len(),
{
    let mut q = p;
    while q < s.len() && s[q] != '\n'
        invariant
            p <= q <= s@.len(),
            line_end(s@, p as int) == line_end(s@, q as int),
        decreases s@.len() - q,
    {
        q = q + 1;
    }
    q
}

/// Reads a program: one instruction per line, tokens separated by spaces,
/// tabs or carriage returns, commas ignored. A register is any prefix
/// character followed by a decimal below 256 (`r3`); a load's immediate is
/// any prefix character followed by the decimal value of its single-precision
/// bit pattern (`#1065353216` for 1.0). Tokens after the operands are
/// ignored. The error is that of the first line that does not parse.
pub fn lgp_asm(s: &str) -> (r: Result<Vec<Op>, MemegaError>)
    ensures
        r matches Ok(code) ==> asm_from(s@, 0) == Ok::<Seq<(Opcode, Operands)>, MemegaError>(
            op_parts(code@),
        ) && forall|i: int| 0 <= i < code@.len() ==> code@[i].wf(),
        r matches Err(e) ==> asm_from(s@, 0) == Err::<Seq<(Opcode, Operands)>, MemegaError>(e),
{
    let n = s.unicode_len();
    let mut chars: Vec<char> = Vec::new();
    let mut i: usize = 0;
    while i < n
        invariant
            n == s@.len(),
            i <= n,
            chars@ == s@.subrange(0, i as int),
        decreases n - i,
    {
        chars.push(s.get_char(i));
        i = i + 1;
        proof {
            assert(chars@ =~= s@.subrange(0, i as int));
        }
    }
    proof {
        assert(chars@ =~= s@);
    }
    let mut ops: Vec<Op> = Vec::new();
    let mut p: usize = 0;
    while p < n
        invariant
            n == chars@.len(),
            chars@ == s@,
            p <= n + 1,
            forall|k: int| 0 <= k < ops@.len() ==> ops@[k].wf(),
            asm_from(s@, 0) == match asm_from(s@, p as int) {
                Ok(rest) => Ok(op_parts(ops@) + rest),
                Err(e) => Err(e),
            },
        decreases n + 1 - p,
    {
        let e = line_end_exec(&chars, p);
        let op = line_at_exec(&chars, p, e)?;
        let ghost before = ops@;
        ops.push(op);
        proof {
            assert(op_parts(ops@) =~= op_parts(before) + seq![(op.spec_code(), op.spec_operands())]);
        }
        if e >= n {
            proof {
                assert(op_parts(before) + seq![(op.spec_code(), op.spec_operands())] =~= op_parts(
                    ops@,
                ) + Seq::<(Opcode, Operands)>::empty());
                assert(asm_from(s@, n as int) == Ok::<Seq<(Opcode, Operands)>, MemegaError>(
                    Seq::empty(),
                ));
            }
            p = n;
        } else {
            proof {
                match asm_from(s@, e + 1) {
                    Ok(rest) => {
                        assert(op_parts(before) + (seq![(op.spec_code(), op.spec_operands())]
                            + rest) =~= op_parts(ops@) + rest);
                    },
                    Err(_) => {},
                }
            }
            p = e + 1;
        }
    }
    proof {
        assert(op_parts(ops@) + Seq::<(Opcode, Operands)>::empty() =~= op_parts(ops@));
    }
    Ok(ops)
}

// The round trip from program to text and back.

proof fn lemma_digit(d: nat)
    requires
        d < 10,
    ensures
        digit_value(digit_char(d)) == Some(d),
{
}

proof fn lemma_digit_char_kind(c: char)
    requires
        digit_value(c) is Some,
    ensures
        !is_ws(c),
        c != ',',
        c != '\n',
{
}

proof fn lemma_decimal_text(n: nat)
    ensures
        decimal_value(decimal_text(n)) == Some(n),
        decimal_text(n).len() >= 1,
        forall|i: int| 0 <= i < decimal_text(n).len() ==> #[trigger] digit_value(decimal_text(n)[i]) is Some,
    decreases n,
{
    if n < 10 {
        lemma_digit(n);
    } else {
        lemma_decimal_text(n / 10);
        lemma_digit(n % 10);
        let t = decimal_text(n);
        assert(t.drop_last() =~= decimal_text(n / 10));
        assert forall|i: int| 0 <= i < t.len() implies #[trigger] digit_value(t[i]) is Some by {
            if i < t.len() - 1 {
                assert(t[i] == decimal_text(n / 10)[i]);
            }
        }
    }
}

proof fn lemma_strip_no_commas(t: Seq<char>)
    requires
        forall|i: int| 0 <= i < t.len() ==> t[i] != ',',
    ensures
        strip_commas(t) == t,
    decreases t.len(),
{
    if t.len() > 0 {
        lemma_strip_no_commas(t.drop_last());
        t.drop_last().lemma_filter_push(t.last(), |c: char| c != ',');
        assert(t =~= t.drop_last().push(t.last()));
    } else {
        assert(strip_commas(t) =~= t);
    }
}

proof fn lemma_strip_trailing_comma(t: Seq<char>)
    ensures
        strip_commas(t.push(',')) == strip_commas(t),
{
    t.lemma_filter_push(',', |c: char| c != ',');
}

proof fn lemma_number_no_commas(prefix: char, v: nat)
    requires
        prefix != ',',
    ensures
        forall|i: int| 0 <= i < number_text(prefix, v).len() ==> number_text(prefix, v)[i] != ',',
{
    let t = number_text(prefix, v);
    let d = decimal_text(v);
    lemma_decimal_text(v);
    assert forall|i: int| 0 <= i < t.len() implies t[i] != ',' by {
        if i > 0 {
            assert(t[i] == d[i - 1]);
            lemma_digit_char_kind(d[i - 1]);
        }
    }
}

proof fn lemma_number_value(prefix: char, v: nat, max: nat)
    requires
        v <= max,
        prefix != ',',
    ensures
        operand_value(number_text(prefix, v), max) == Some(v),
{
    let t = number_text(prefix, v);
    lemma_decimal_text(v);
    lemma_number_no_commas(prefix, v);
    lemma_strip_no_commas(t);
    assert(t.drop_first() =~= decimal_text(v));
}

/// The operand token `prefix` + digits of `v`, with a trailing comma if
/// `comma`, reads as `v`.
proof fn lemma_operand_token(prefix: char, v: nat, max: nat, comma: bool)
    requires
        v <= max,
        prefix != ',',
    ensures
        operand_value(
            if comma {
                number_text(prefix, v).push(',')
            } else {
                number_text(prefix, v)
            },
            max,
        ) == Some(v),
{
    lemma_number_value(prefix, v, max);
    if comma {
        lemma_strip_trailing_comma(number_text(prefix, v));
    }
}

proof fn lemma_skip_ws_to(s: Seq<char>, p: int, a: int, e: int)
    requires
        0 <= p <= a <= e <= s.len(),
        forall|k: int| p <= k < a ==> is_ws(s[k]),
        a < e ==> !is_ws(s[a]),
    ensures
        skip_ws(s, p, e) == a,
    decreases a - p,
{
    if p < a {
        lemma_skip_ws_to(s, p + 1, a, e);
    }
}

proof fn lemma_token_end_to(s: Seq<char>, a: int, b: int, e: int)
    requires
        0 <= a <= b <= e <= s.len(),
        forall|k: int| a <= k < b ==> !is_ws(s[k]),
        b < e ==> is_ws(s[b]),
    ensures
        token_end(s, a, e) == b,
    decreases b - a,
{
    if a < b {
        lemma_token_end_to(s, a + 1, b, e);
    }
}

/// The next token from `p` is `t`, found at `a` after whitespace only.
proof fn lemma_next_token(s: Seq<char>, p: int, a: int, e: int, t: Seq<char>)
    requires
        0 <= p <= a,
        a + t.len() <= e <= s.len(),
        t.len() > 0,
        forall|k: int| p <= k < a ==> is_ws(s[k]),
        s.subrange(a, a + t.len()) == t,
        forall|k: int| 0 <= k < t.len() ==> !is_ws(#[trigger] t[k]),
        a + t.len() < e ==> is_ws(s[a + t.len()]),
    ensures
        next_token(s, p, e) == Some((t, a + t.len())),
{
    assert forall|k: int| a <= k < a + t.len() implies !is_ws(s[k]) by {
        assert(s[k] == s.subrange(a, a + t.len())[k - a]);
    }
    assert(s[a] == t[0]);
    lemma_skip_ws_to(s, p, a, e);
    lemma_token_end_to(s, a, a + t.len(), e);
}

proof fn lemma_mnemonic(c: Opcode)
    ensures
        mnemonic_opcode(mnemonic_text(c)) == Some(c),
        mnemonic_text(c).len() >= 2,
        forall|k: int|
            0 <= k < mnemonic_text(c).len() ==> !is_ws(#[trigger] mnemonic_text(c)[k])
                && mnemonic_text(c)[k] != '\n',
{
    reveal_strlit("add");
    reveal_strlit("sub");
    reveal_strlit("mul");
    reveal_strlit("div");
    reveal_strlit("abs");
    reveal_strlit("neg");
    reveal_strlit("pow");
    reveal_strlit("ln");
    reveal_strlit("sin");
    reveal_strlit("cos");
    reveal_strlit("load");
    reveal_strlit("copy");
    reveal_strlit("iflt");
    assert("add"@[0] == 'a' && "add"@[1] == 'd' && "add"@[2] == 'd');
    assert("sub"@[0] == 's' && "sub"@[1] == 'u' && "sub"@[2] == 'b');
    assert("mul"@[0] == 'm' && "mul"@[1] == 'u' && "mul"@[2] == 'l');
    assert("div"@[0] == 'd' && "div"@[1] == 'i' && "div"@[2] == 'v');
    assert("abs"@[0] == 'a' && "abs"@[1] == 'b' && "abs"@[2] == 's');
    assert("neg"@[0] == 'n' && "neg"@[1] == 'e' && "neg"@[2] == 'g');
    assert("pow"@[0] == 'p' && "pow"@[1] == 'o' && "pow"@[2] == 'w');
    assert("ln"@[0] == 'l' && "ln"@[1] == 'n');
    assert("sin"@[0] == 's' && "sin"@[1] == 'i' && "sin"@[2] == 'n');
    assert("cos"@[0] == 'c' && "cos"@[1] == 'o' && "cos"@[2] == 's');
    assert("load"@[0] == 'l' && "load"@[1] == 'o' && "load"@[2] == 'a' && "load"@[3] == 'd');
    assert("copy"@[0] == 'c' && "copy"@[1] == 'o' && "copy"@[2] == 'p' && "copy"@[3] == 'y');
    assert("iflt"@[0] == 'i' && "iflt"@[1] == 'f' && "iflt"@[2] == 'l' && "iflt"@[3] == 't');
    match c {
        Opcode::Add => {},
        Opcode::Sub => {},
        Opcode::Mul => {},
        Opcode::Div => {},
        Opcode::Abs => {},
        Opcode::Neg => {},
        Opcode::Pow => {},
        Opcode::Ln => {},
        Opcode::Sin => {},
        Opcode::Cos => {},
        Opcode::Load => {},
        Opcode::Copy => {},
        Opcode::IfLt => {},
    }
}

/// A register or immediate token: its prefix and the digits of its value.
pub open spec fn number_text(prefix: char, v: nat) -> Seq<char> {
    seq![prefix] + decimal_text(v)
}

proof fn lemma_number_text(prefix: char, v: nat)
    requires
        !is_ws(prefix),
        prefix != '\n',
    ensures
        number_text(prefix, v).len() >= 2,
        forall|k: int|
            0 <= k < number_text(prefix, v).len() ==> !is_ws(#[trigger] number_text(prefix, v)[k])
                && number_text(prefix, v)[k] != '\n',
{
    lemma_decimal_text(v);
    assert forall|k: int| 0 <= k < number_text(prefix, v).len() implies !is_ws(
        #[trigger] number_text(prefix, v)[k],
    ) && number_text(prefix, v)[k] != '\n' by {
        if k > 0 {
            assert(number_text(prefix, v)[k] == decimal_text(v)[k - 1]);
            lemma_digit_char_kind(decimal_text(v)[k - 1]);
        }
    }
}

/// At `q` a space, then the operand token `t` (followed by a comma unless it
/// is the `last`), which ends at `e` or before a space.
proof fn lemma_operand_at(
    s: Seq<char>,
    q: int,
    e: int,
    t: Seq<char>,
    prefix: char,
    v: nat,
    max: nat,
    last: bool,
)
    requires
        0 <= q,
        q + 1 + t.len() <= e <= s.len(),
        t == number_text(prefix, v),
        !is_ws(prefix),
        prefix != ',',
        prefix != '\n',
        v <= max,
        s[q] == ' ',
        s.subrange(q + 1, q + 1 + t.len()) == t,
        last ==> q + 1 + t.len() == e,
        !last ==> s[q + 1 + t.len()] == ',' && q + 2 + t.len() < e && s[q + 2 + t.len()] == ' ',
    ensures
        operand_at(s, q, e, max) == Ok::<(nat, int), MemegaError>(
            (v, if last { e } else { q + 2 + t.len() }),
        ),
{
    lemma_number_text(prefix, v);
    let tok = if last { t } else { t.push(',') };
    let a = q + 1;
    assert(s.subrange(a, a + tok.len()) =~= tok);
    assert forall|k: int| 0 <= k < tok.len() implies !is_ws(#[trigger] tok[k]) by {
        if k < t.len() {
            assert(tok[k] == t[k]);
        }
    }
    lemma_next_token(s, q, a, e, tok);
    lemma_operand_token(prefix, v, max, !last);
}

proof fn lemma_window<A>(s: Seq<A>, p: int, l: Seq<A>, a: int, t: Seq<A>)
    requires
        0 <= p,
        p + l.len() <= s.len(),
        s.subrange(p, p + l.len()) == l,
        0 <= a,
        a + t.len() <= l.len(),
        l.subrange(a, a + t.len()) == t,
    ensures
        s.subrange(p + a, p + a + t.len()) == t,
{
    assert forall|k: int| 0 <= k < t.len() implies s.subrange(p + a, p + a + t.len())[k] == t[k] by {
        assert(s[p + a + k] == s.subrange(p, p + l.len())[a + k]);
        assert(t[k] == l.subrange(a, a + t.len())[k]);
    }
    assert(s.subrange(p + a, p + a + t.len()) =~= t);
}

proof fn lemma_at<A>(s: Seq<A>, p: int, l: Seq<A>, k: int)
    requires
        0 <= p,
        p + l.len() <= s.len(),
        s.subrange(p, p + l.len()) == l,
        0 <= k < l.len(),
    ensures
        s[p + k] == l[k],
{
    assert(s[p + k] == s.subrange(p, p + l.len())[k]);
}

/// The line holding the text of `op` reads back as `op`.
#[verifier::rlimit(80)]
proof fn lemma_line_at(s: Seq<char>, p: int, op: Op)
    requires
        op.wf(),
        0 <= p,
        p + op_text(op).len() <= s.len(),
        s.subrange(p, p + op_text(op).len()) == op_text(op),
    ensures
        line_at(s, p, p + op_text(op).len()) == Ok::<(Opcode, Operands), MemegaError>(
            (op.spec_code(), op.spec_operands()),
        ),
{
    reveal_strlit(" ");
    reveal_strlit(", ");
    let code = op.spec_code();
    let l = op_text(op);
    let m = mnemonic_text(code);
    let e = p + l.len();
    let rest = operands_text(op.spec_operands());
    lemma_mnemonic(code);
    assert(l =~= m + seq![' '] + rest);
    assert(l.subrange(0, m.len() as int) =~= m);
    lemma_window(s, p, l, 0, m);
    lemma_at(s, p, l, m.len() as int);
    lemma_next_token(s, p, p, e, m);
    let q1 = p + m.len();
    // Offsets below are from `p`, over `l = m + " " + rest`.
    let base = m.len() as int + 1;
    match op.spec_operands() {
        Operands::Reg2Cmp { ra, rb } => {
            let t1 = number_text('r', ra as nat);
            let t2 = number_text('r', rb as nat);
            assert(rest =~= t1 + seq![',', ' '] + t2);
            assert(l.subrange(base, base + t1.len()) =~= t1);
            assert(l.subrange(base + t1.len() + 2, base + t1.len() + 2 + t2.len()) =~= t2);
            lemma_window(s, p, l, base, t1);
            lemma_window(s, p, l, base + t1.len() + 2, t2);
            lemma_at(s, p, l, base + t1.len());
            lemma_at(s, p, l, base + t1.len() + 1);
            lemma_at(s, p, l, m.len() as int);
            lemma_number_text('r', rb as nat);
            lemma_operand_at(s, q1, e, t1, 'r', ra as nat, max_reg(), false);
            let q2 = q1 + t1.len() + 2;
            lemma_operand_at(s, q2, e, t2, 'r', rb as nat, max_reg(), true);
        },
        Operands::Reg2Assign { ri, ra } => {
            let t1 = number_text('r', ri as nat);
            let t2 = number_text('r', ra as nat);
            assert(rest =~= t1 + seq![',', ' '] + t2);
            assert(l.subrange(base, base + t1.len()) =~= t1);
            assert(l.subrange(base + t1.len() + 2, base + t1.len() + 2 + t2.len()) =~= t2);
            lemma_window(s, p, l, base, t1);
            lemma_window(s, p, l, base + t1.len() + 2, t2);
            lemma_at(s, p, l, base + t1.len());
            lemma_at(s, p, l, base + t1.len() + 1);
            lemma_at(s, p, l, m.len() as int);
            lemma_number_text('r', ra as nat);
            lemma_operand_at(s, q1, e, t1, 'r', ri as nat, max_reg(), false);
            let q2 = q1 + t1.len() + 2;
            lemma_operand_at(s, q2, e, t2, 'r', ra as nat, max_reg(), true);
        },
        Operands::Reg3Assign { ri, ra, rb } => {
            let t1 = number_text('r', ri as nat);
            let t2 = number_text('r', ra as nat);
            let t3 = number_text('r', rb as nat);
            assert(rest =~= t1 + seq![',', ' '] + t2 + seq![',', ' '] + t3);
            let o2 = base + t1.len() as int + 2;
            let o3 = o2 + t2.len() as int + 2;
            assert(l.subrange(base, base + t1.len()) =~= t1);
            assert(l.subrange(o2, o2 + t2.len()) =~= t2);
            assert(l.subrange(o3, o3 + t3.len()) =~= t3);
            lemma_window(s, p, l, base, t1);
            lemma_window(s, p, l, o2, t2);
            lemma_window(s, p, l, o3, t3);
            lemma_at(s, p, l, base + t1.len());
            lemma_at(s, p, l, base + t1.len() + 1);
            lemma_at(s, p, l, o2 + t2.len());
            lemma_at(s, p, l, o2 + t2.len() + 1);
            lemma_at(s, p, l, m.len() as int);
            lemma_number_text('r', ra as nat);
            lemma_number_text('r', rb as nat);
            lemma_operand_at(s, q1, e, t1, 'r', ri as nat, max_reg(), false);
            let q2 = q1 + t1.len() + 2;
            lemma_operand_at(s, q2, e, t2, 'r', ra as nat, max_reg(), false);
            let q3 = q2 + t2.len() + 2;
            lemma_operand_at(s, q3, e, t3, 'r', rb as nat, max_reg(), true);
        },
        Operands::ImmAssign { ri, imm } => {
            let t1 = number_text('r', ri as nat);
            let t2 = number_text('#', imm as nat);
            assert(rest =~= t1 + seq![',', ' '] + t2);
            assert(l.subrange(base, base + t1.len()) =~= t1);
            assert(l.subrange(base + t1.len() + 2, base + t1.len() + 2 + t2.len()) =~= t2);
            lemma_window(s, p, l, base, t1);
            lemma_window(s, p, l, base + t1.len() + 2, t2);
            lemma_at(s, p, l, base + t1.len());
            lemma_at(s, p, l, base + t1.len() + 1);
            lemma_at(s, p, l, m.len() as int);
            lemma_number_text('#', imm as nat);
            lemma_operand_at(s, q1, e, t1, 'r', ri as nat, max_reg(), false);
            let q2 = q1 + t1.len() + 2;
            lemma_operand_at(s, q2, e, t2, '#', imm as nat, max_imm(), true);
        },
    }
}

/// No character of `t` ends a line.
pub open spec fn no_newline(t: Seq<char>) -> bool {
    forall|k: int| 0 <= k < t.len() ==> t[k] != '\n'
}

proof fn lemma_no_newline_concat(a: Seq<char>, b: Seq<char>)
    requires
        no_newline(a),
        no_newline(b),
    ensures
        no_newline(a + b),
{
    assert forall|k: int| 0 <= k < (a + b).len() implies (a + b)[k] != '\n' by {
        if k >= a.len() {
            assert((a + b)[k] == b[k - a.len()]);
        }
    }
}

proof fn lemma_op_text_no_newline(op: Op)
    ensures
        no_newline(op_text(op)),
        op_text(op).len() > 0,
{
    reveal_strlit(" ");
    reveal_strlit(", ");
    lemma_mnemonic(op.spec_code());
    let sep = seq![',', ' '];
    assert(no_newline(sep));
    assert(no_newline(" "@));
    let m = mnemonic_text(op.spec_code());
    lemma_no_newline_concat(m, " "@);
    match op.spec_operands() {
        Operands::Reg2Cmp { ra: x, rb: y } | Operands::Reg2Assign { ri: x, ra: y } => {
            lemma_number_text('r', x as nat);
            lemma_number_text('r', y as nat);
            let t1 = number_text('r', x as nat);
            let t2 = number_text('r', y as nat);
            lemma_no_newline_concat(t1, sep);
            lemma_no_newline_concat(t1 + sep, t2);
            assert(operands_text(op.spec_operands()) =~= t1 + sep + t2);
            lemma_no_newline_concat(m + " "@, t1 + sep + t2);
            assert(op_text(op) =~= m + " "@ + (t1 + sep + t2));
        },
        Operands::Reg3Assign { ri, ra, rb } => {
            lemma_number_text('r', ri as nat);
            lemma_number_text('r', ra as nat);
            lemma_number_text('r', rb as nat);
            let t1 = number_text('r', ri as nat);
            let t2 = number_text('r', ra as nat);
            let t3 = number_text('r', rb as nat);
            lemma_no_newline_concat(t1, sep);
            lemma_no_newline_concat(t1 + sep, t2);
            lemma_no_newline_concat(t1 + sep + t2, sep);
            lemma_no_newline_concat(t1 + sep + t2 + sep, t3);
            assert(operands_text(op.spec_operands()) =~= t1 + sep + t2 + sep + t3);
            lemma_no_newline_concat(m + " "@, t1 + sep + t2 + sep + t3);
            assert(op_text(op) =~= m + " "@ + (t1 + sep + t2 + sep + t3));
        },
        Operands::ImmAssign { ri, imm } => {
            lemma_number_text('r', ri as nat);
            lemma_number_text('#', imm as nat);
            let t1 = number_text('r', ri as nat);
            let t2 = number_text('#', imm as nat);
            lemma_no_newline_concat(t1, sep);
            lemma_no_newline_concat(t1 + sep, t2);
            assert(operands_text(op.spec_operands()) =~= t1 + sep + t2);
            lemma_no_newline_concat(m + " "@, t1 + sep + t2);
            assert(op_text(op) =~= m + " "@ + (t1 + sep + t2));
        },
    }
}

proof fn lemma_line_end_to(s: Seq<char>, p: int, q: int)
    requires
        0 <= p <= q <= s.len(),
        forall|k: int| p <= k < q ==> s[k] != '\n',
        q < s.len() ==> s[q] == '\n',
    ensures
        line_end(s, p) == q,
    decreases q - p,
{
    if p < q {
        lemma_line_end_to(s, p + 1, q);
    }
}

proof fn lemma_disasm_concat(a: Seq<Op>, b: Seq<Op>)
    ensures
        disasm_text(a + b) == disasm_text(a) + disasm_text(b),
    decreases b.len(),
{
    if b.len() == 0 {
        assert(a + b =~= a);
        assert(disasm_text(a) + disasm_text(b) =~= disasm_text(a));
    } else {
        assert((a + b).drop_last() =~= a + b.drop_last());
        lemma_disasm_concat(a, b.drop_last());
        assert((a + b).last() == b.last());
        assert(disasm_text(a + b) =~= disasm_text(a) + disasm_text(b));
    }
}

/// Reading the text of a program from the start of its line `k` gives the
/// instructions from `k` on.
proof fn lemma_asm_from_line(code: Seq<Op>, k: int)
    requires
        0 <= k <= code.len(),
        forall|i: int| 0 <= i < code.len() ==> #[trigger] code[i].wf(),
    ensures
        asm_from(disasm_text(code), disasm_text(code.subrange(0, k)).len() as int) == Ok::<
            Seq<(Opcode, Operands)>,
            MemegaError,
        >(op_parts(code.subrange(k, code.len() as int))),
    decreases code.len() - k,
{
    reveal_strlit("\n");
    let s = disasm_text(code);
    let n = code.len() as int;
    let pre = code.subrange(0, k);
    let p = disasm_text(pre).len() as int;
    assert(code =~= pre + code.subrange(k, n));
    lemma_disasm_concat(pre, code.subrange(k, n));
    if k == n {
        assert(code.subrange(k, n) =~= Seq::<Op>::empty());
        assert(op_parts(code.subrange(k, n)) =~= Seq::<(Opcode, Operands)>::empty());
    } else {
        let op = code[k];
        let l = op_text(op);
        let tail = code.subrange(k + 1, n);
        assert(code.subrange(k, n) =~= seq![op] + tail);
        lemma_disasm_concat(seq![op], tail);
        assert(seq![op].drop_last() =~= Seq::<Op>::empty());
        assert(seq![op].last() == op);
        assert(disasm_text(Seq::<Op>::empty()) == Seq::<char>::empty());
        assert(disasm_text(seq![op]) == disasm_text(seq![op].drop_last()) + op_text(op) + "\n"@);
        assert(disasm_text(seq![op]) =~= l + "\n"@);
        // s = text of the lines before k, then line k, then the rest.
        assert(s =~= disasm_text(pre) + (l + "\n"@) + disasm_text(tail));
        lemma_op_text_no_newline(op);
        assert(s.subrange(p, p + l.len()) =~= l);
        assert(s[p + l.len()] == '\n');
        assert forall|j: int| p <= j < p + l.len() implies s[j] != '\n' by {
            assert(s[j] == l[j - p]);
        }
        lemma_line_end_to(s, p, p + l.len());
        lemma_line_at(s, p, op);
        let pre1 = code.subrange(0, k + 1);
        assert(pre1.drop_last() =~= pre);
        assert(pre1.last() == op);
        assert(disasm_text(pre1).len() == p + l.len() + 1);
        lemma_asm_from_line(code, k + 1);
        if p + l.len() >= s.len() {
            assert(disasm_text(tail).len() == 0);
            assert(tail.len() == 0) by {
                if tail.len() > 0 {
                    lemma_op_text_no_newline(tail.last());
                    assert(disasm_text(tail) =~= disasm_text(tail.drop_last()) + op_text(
                        tail.last(),
                    ) + "\n"@);
                }
            }
        }
        assert(op_parts(code.subrange(k, n)) =~= seq![(op.spec_code(), op.spec_operands())]
            + op_parts(tail));
    }
}

/// Reading back the text of a program gives the program: every instruction
/// with the same opcode and operands, in the same order.
pub proof fn lemma_asm_disasm_round_trip(code: Seq<Op>)
    requires
        forall|i: int| 0 <= i < code.len() ==> #[trigger] code[i].wf(),
    ensures
        asm_from(disasm_text(code), 0) == Ok::<Seq<(Opcode, Operands)>, MemegaError>(
            op_parts(code),
        ),
{
    lemma_asm_from_line(code, 0);
    assert(code.subrange(0, 0) =~= Seq::<Op>::empty());
    assert(code.subrange(0, code.len() as int) =~= code);
}

} // verus!
