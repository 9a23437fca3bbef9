use memega::assembler::{lgp_asm, lgp_disasm};
use memega::error::MemegaError;
use memega::lgp::{micro_mutate, mutate_program, rand_op, LgpGenome, LgpGenomeConfig, LgpState};
use memega::op::Op;
use memega::opcode::{u8_to_opcode, Opcode, Operands};
use memega::optimize::LgpOptimizer;
use memega::vm::{fetch, is_constant, memory_fits, skip_guarded};

#[test]
fn disasm_basic_disasm() -> Result<(), MemegaError> {
    let code = vec![
        Op::new(Opcode::Add, Operands::Reg3Assign { ri: 0, ra: 1, rb: 2 }),
        Op::new(Opcode::Sub, Operands::Reg3Assign { ri: 2, ra: 1, rb: 0 }),
    ];
    let text = "add r0, r1, r2\nsub r2, r1, r0\n";
    assert_eq!(text, lgp_disasm(&code));
    assert_eq!(code, lgp_asm(text)?);
    Ok(())
}

#[test]
fn optimize_branches() -> Result<(), MemegaError> {
    let code = lgp_asm(
        "neg r1, r2\n\
        iflt r1, r2\n\
        mul r0, r1, r3\n\
        iflt r2, r3\n\
        mul r0, r2, r3\n\
        add r0, r1, r2\n",
    )?;
    let expected = "neg r1, r2\n\
        add r0, r1, r2\n";
    assert_eq!(expected, lgp_disasm(&LgpOptimizer::new(&code, &[0]).optimize()));
    Ok(())
}

#[test]
fn optimize_basic() -> Result<(), MemegaError> {
    let code = lgp_asm(
        "add r1, r1, r2\n\
        iflt r1, r2\n\
        mul r1, r1, r3\n\
        add r0, r2, r3\n",
    )?;
    let expected = "add r0, r2, r3\n";
    assert_eq!(expected, lgp_disasm(&LgpOptimizer::new(&code, &[0]).optimize()));
    Ok(())
}

#[test]
fn optimize_branch_off() -> Result<(), MemegaError> {
    let code = lgp_asm(
        "add r4, r1, r2\n\
        add r3, r1, r2\n\
        add r1, r1, r2\n\
        iflt r2, r3\n\
        mul r1, r2, r3\n\
        add r0, r2, r2\n",
    )?;
    let expected = "add r0, r2, r2\n";
    assert_eq!(expected, lgp_disasm(&LgpOptimizer::new(&code, &[0]).optimize()));
    Ok(())
}

#[test]
fn optimize_branch_on() -> Result<(), MemegaError> {
    let code = lgp_asm(
        "add r4, r1, r2\n\
        add r3, r1, r2\n\
        add r1, r1, r2\n\
        iflt r2, r3\n\
        mul r1, r2, r3\n\
        add r0, r1, r1\n",
    )?;
    let expected = "add r3, r1, r2\n\
        add r1, r1, r2\n\
        iflt r2, r3\n\
        mul r1, r2, r3\n\
        add r0, r1, r1\n";
    assert_eq!(expected, lgp_disasm(&LgpOptimizer::new(&code, &[0]).optimize()));
    Ok(())
}

#[test]
fn optimize_two_branch_off() -> Result<(), MemegaError> {
    let code = lgp_asm(
        "add r4, r1, r2\n\
        add r3, r1, r2\n\
        add r1, r1, r2\n\
        iflt r2, r4\n\
        iflt r2, r3\n\
        mul r1, r2, r3\n\
        add r0, r2, r2\n",
    )?;
    let expected = "add r0, r2, r2\n";
    assert_eq!(expected, lgp_disasm(&LgpOptimizer::new(&code, &[0]).optimize()));
    Ok(())
}

#[test]
fn optimize_two_branch_on() -> Result<(), MemegaError> {
    let code = lgp_asm(
        "add r4, r1, r2\n\
        add r3, r1, r2\n\
        add r1, r1, r2\n\
        iflt r2, r4\n\
        iflt r2, r3\n\
        mul r1, r2, r3\n\
        add r0, r1, r1\n",
    )?;
    let expected = "add r4, r1, r2\n\
        add r3, r1, r2\n\
        add r1, r1, r2\n\
        iflt r2, r4\n\
        iflt r2, r3\n\
        mul r1, r2, r3\n\
        add r0, r1, r1\n";
    assert_eq!(expected, lgp_disasm(&LgpOptimizer::new(&code, &[0]).optimize()));
    Ok(())
}

#[test]
fn optimize_remove_last_branch() -> Result<(), MemegaError> {
    let code = lgp_asm(
        "iflt r1, r2\n\
        mul r1, r1, r3\n",
    )?;
    let expected = "";
    assert_eq!(expected, lgp_disasm(&LgpOptimizer::new(&code, &[0]).optimize()));
    Ok(())
}

#[test]
fn optimize_keep_last_branch() -> Result<(), MemegaError> {
    let code = lgp_asm(
        "iflt r1, r2\n\
        mul r0, r1, r3\n",
    )?;
    let expected = "iflt r1, r2\n\
        mul r0, r1, r3\n";
    assert_eq!(expected, lgp_disasm(&LgpOptimizer::new(&code, &[0]).optimize()));
    Ok(())
}

#[test]
fn optimize_single_instruction() -> Result<(), MemegaError> {
    let code = lgp_asm("mul r0, r1, r3\n")?;
    assert_eq!(LgpOptimizer::new(&code, &[0]).optimize(), code);
    let code = lgp_asm("mul r1, r1, r3\n")?;
    assert!(LgpOptimizer::new(&code, &[0]).optimize().is_empty());
    let code = lgp_asm("iflt r0, r1\n")?;
    assert!(LgpOptimizer::new(&code, &[0]).optimize().is_empty());
    Ok(())
}

#[test]
fn optimize_empty_program() {
    assert!(LgpOptimizer::new(&[], &[0]).optimize().is_empty());
}

#[test]
fn round_trip_every_opcode() -> Result<(), MemegaError> {
    let code = vec![
        Op::new(Opcode::Add, Operands::Reg3Assign { ri: 0, ra: 1, rb: 255 }),
        Op::new(Opcode::Pow, Operands::Reg3Assign { ri: 10, ra: 99, rb: 100 }),
        Op::new(Opcode::Abs, Operands::Reg2Assign { ri: 3, ra: 7 }),
        Op::new(Opcode::Cos, Operands::Reg2Assign { ri: 3, ra: 7 }),
        Op::new(Opcode::Load, Operands::ImmAssign { ri: 2, imm: 1069547520 }),
        Op::new(Opcode::Copy, Operands::Reg2Assign { ri: 1, ra: 0 }),
        Op::new(Opcode::IfLt, Operands::Reg2Cmp { ra: 4, rb: 5 }),
    ];
    let text = lgp_disasm(&code);
    assert_eq!(
        text,
        "add r0, r1, r255\npow r10, r99, r100\nabs r3, r7\ncos r3, r7\nload r2, #1069547520\ncopy r1, r0\niflt r4, r5\n"
    );
    assert_eq!(lgp_asm(&text)?, code);
    Ok(())
}

#[test]
fn asm_is_lenient_about_spacing() -> Result<(), MemegaError> {
    let code = lgp_asm("  add   r0,  r1 ,r2\t\r\nneg r1, r2")?;
    assert_eq!(lgp_disasm(&code), "add r0, r1, r2\nneg r1, r2\n");
    Ok(())
}

#[test]
fn asm_errors() {
    assert_eq!(lgp_asm(""), Ok(vec![]));
    assert_eq!(lgp_asm("add r0, r1, r2\n\nadd r0, r1, r2\n"), Err(MemegaError::MissingToken));
    assert_eq!(lgp_asm("jmp r0\n"), Err(MemegaError::UnknownInstruction));
    assert_eq!(lgp_asm("add r0, r1\n"), Err(MemegaError::MissingOperand));
    assert_eq!(lgp_asm("add r0, r1, r256\n"), Err(MemegaError::BadOperand));
    assert_eq!(lgp_asm("add r0, r1, rx\n"), Err(MemegaError::BadOperand));
    assert_eq!(lgp_asm("load r0, #4294967296\n"), Err(MemegaError::BadOperand));
    assert_eq!(lgp_asm("neg r1, r2\nsub\n"), Err(MemegaError::MissingOperand));
}

#[test]
fn op_shapes() {
    assert_eq!(
        Op::try_new(Opcode::Add, Operands::Reg2Assign { ri: 0, ra: 1 }),
        Err(MemegaError::InvalidOperands)
    );
    let op = Op::try_new(Opcode::Neg, Operands::Reg2Assign { ri: 0, ra: 1 }).unwrap();
    assert_eq!(op.code(), Opcode::Neg);
    assert_eq!(op.operands().input_regs(), vec![1]);
    assert_eq!(op.operands().output_regs(), vec![0]);
    assert_eq!(Operands::Reg2Cmp { ra: 3, rb: 4 }.input_regs(), vec![3, 4]);
    assert!(Operands::Reg2Cmp { ra: 3, rb: 4 }.output_regs().is_empty());
    assert!(Operands::ImmAssign { ri: 3, imm: 0 }.input_regs().is_empty());
    assert_eq!(Op::from_code(Opcode::Load).operands(), Operands::ImmAssign { ri: 0, imm: 0 });
    assert!(Opcode::IfLt.is_branch());
    assert!(!Opcode::Copy.is_branch());
}

#[test]
fn opcode_from_byte_wraps() {
    assert_eq!(u8_to_opcode(0), Opcode::Add);
    assert_eq!(u8_to_opcode(12), Opcode::IfLt);
    assert_eq!(u8_to_opcode(13), Opcode::Add);
    assert_eq!(u8_to_opcode(255), Opcode::Sin);
    assert_eq!(Opcode::all().len(), 13);
    assert_eq!(Opcode::Add.name(), "Add");
}

#[test]
fn branch_skipping() -> Result<(), MemegaError> {
    let code = lgp_asm("iflt r0, r1\niflt r1, r2\nadd r0, r0, r0\nneg r0, r0\n")?;
    assert_eq!(skip_guarded(&code, 1), 3);
    assert_eq!(skip_guarded(&code, 3), 4);
    assert_eq!(skip_guarded(&code, 4), 4);
    let code = lgp_asm("iflt r0, r1\niflt r1, r2\n")?;
    assert_eq!(skip_guarded(&code, 1), 2);
    assert_eq!(fetch(&code, 2), None);
    assert_eq!(fetch(&code, 1).map(|(_, pc)| pc), Some(2));
    assert!(is_constant(4, 4));
    assert!(!is_constant(3, 4));
    assert!(memory_fits(200, 56));
    assert!(!memory_fits(200, 57));
    Ok(())
}

#[test]
fn program_state_and_mutation() -> Result<(), MemegaError> {
    let code = lgp_asm("add r1, r1, r2\niflt r1, r2\nmul r1, r1, r3\nadd r0, r2, r3\n")?;
    let state = LgpState::new(code.clone(), 4, 0, &[0]);
    assert_eq!(lgp_disasm(&state.ops_opt()), "add r0, r2, r3\n");
    assert_eq!(state.ops_unopt(), &code[..]);
    assert_eq!(state.num_reg(), 4);
    assert_eq!(state.num_const(), 0);

    let fresh = Op::new(Opcode::Copy, Operands::Reg2Assign { ri: 1, ra: 2 });
    let mut ops = code.clone();
    mutate_program(&mut ops, 4, fresh, 100);
    assert_eq!(ops.len(), code.len() + 1);
    let mut ops = code.clone();
    mutate_program(&mut ops, 4, fresh, 4);
    assert_eq!(ops, code);
    let mut ops = code.clone();
    mutate_program(&mut ops, 5, fresh, 100);
    assert_eq!(ops.len(), code.len() - 1);
    let mut one = vec![fresh];
    mutate_program(&mut one, 5, fresh, 100);
    assert_eq!(one.len(), 1);
    let mut ops = code.clone();
    mutate_program(&mut ops, 2, fresh, 100);
    assert_eq!(ops.iter().zip(&code).filter(|(a, b)| a != b).count() <= 1, true);

    for _ in 0..50 {
        let op = rand_op(&[Opcode::Add, Opcode::Load], 3, 2, 7);
        match op.operands() {
            Operands::Reg3Assign { ri, ra, rb } => assert!(ri < 3 && ra < 5 && rb < 5),
            Operands::ImmAssign { ri, imm } => assert!(ri < 3 && imm == 7),
            _ => panic!("unexpected shape"),
        }
        let mut m = op;
        micro_mutate(&mut m, 3, 2, 9);
        assert_eq!(m.code(), op.code());
    }
    let cfg = LgpGenomeConfig::new(4, 10).with_opcodes(&[Opcode::Add]);
    let _genome = LgpGenome::new(cfg);
    Ok(())
}

#[test]
fn instruction_distance() -> Result<(), MemegaError> {
    let code = lgp_asm("add r0, r1, r2\nadd r0, r1, r3\nsub r3, r1, r3\nneg r0, r1\nload r0, #5\nload r1, #9\n")?;
    assert_eq!(Op::discrete_dist(&code[0], &code[0]), 0);
    assert_eq!(Op::discrete_dist(&code[0], &code[1]), 1);
    assert_eq!(Op::discrete_dist(&code[0], &code[2]), 12);
    assert_eq!(Op::discrete_dist(&code[0], &code[3]), 10);
    assert_eq!(Op::discrete_dist(&code[4], &code[5]), 1);
    Ok(())
}
