use regvm::assembler::assemble;
use regvm::bytecode::Inst;
use regvm::codec::{decode, encode};
use regvm::vm::{interpret, ExecError, Machine, Status};

#[test]
fn movi_lda_print_prints_five() {
    let insts = assemble(b"movi v0, 5\nlda v0\nprint\n".to_vec()).unwrap();
    let bytes = encode(&insts);
    assert_eq!(bytes, vec![0x01, 0x00, 0x05, 0x00, 0x00, 0x00, 0x03, 0x00, 0x08]);
    let program = decode(&bytes).unwrap();
    let (machine, status) = interpret(&program, 1000);
    assert_eq!(status, Status::Halted);
    assert_eq!(machine.output, vec![5]);
}

#[test]
fn backward_branch_runs_the_body_three_times() {
    let src = b"movi v0, 3\nmovi v2, 1\nL1:\nadd v2\nprint\ndec v0\nbne v0, v1, L1\nprint\n";
    let program = assemble(src.to_vec()).unwrap();
    assert_eq!(
        program,
        vec![
            Inst::Movi(0, 3),
            Inst::Movi(2, 1),
            Inst::Add(2),
            Inst::Print,
            Inst::Dec(0),
            Inst::Bne(0, 1, 2),
            Inst::Print,
        ]
    );
    let (machine, status) = interpret(&program, 1000);
    assert_eq!(status, Status::Halted);
    assert_eq!(machine.output, vec![1, 2, 3, 3]);
    assert_eq!(machine.acc, 3);
    assert_eq!(machine.regs[0], 0);
    assert_eq!(machine.pc, 7);
}

#[test]
fn same_program_prints_the_same_values_on_every_run() {
    let program = vec![
        Inst::Movi(0, 4),
        Inst::Ldai(10),
        Inst::Add(0),
        Inst::Print,
        Inst::Dec(0),
        Inst::Bne(0, 1, 2),
    ];
    let (first, s1) = interpret(&program, 10_000);
    let (second, s2) = interpret(&program, 50_000);
    assert_eq!(s1, Status::Halted);
    assert_eq!(s2, Status::Halted);
    assert_eq!(first.output, vec![14, 17, 19, 20]);
    assert_eq!(first.output, second.output);
    assert_eq!(first.regs, second.regs);
    assert_eq!(first.acc, second.acc);
}

#[test]
fn empty_program_halts_at_once() {
    let (machine, status) = interpret(&[], 0);
    assert_eq!(status, Status::Halted);
    assert_eq!(machine.pc, 0);
    assert_eq!(machine.acc, 0);
    assert_eq!(machine.regs, vec![0u64; 256]);
    assert!(machine.output.is_empty());
}

#[test]
fn each_instruction_does_its_work() {
    let program = vec![
        Inst::Movi(1, 0xffff_ffff),
        Inst::Mov(2, 1),
        Inst::Lda(2),
        Inst::Add(1),
        Inst::Sta(255),
        Inst::Ldai(9),
        Inst::Dec(255),
        Inst::Print,
    ];
    let (m, status) = interpret(&program, 100);
    assert_eq!(status, Status::Halted);
    assert_eq!(m.regs[1], 0xffff_ffff);
    assert_eq!(m.regs[2], 0xffff_ffff);
    assert_eq!(m.regs[255], 0x1_ffff_fffd);
    assert_eq!(m.acc, 9);
    assert_eq!(m.output, vec![9]);
    assert_eq!(m.pc, 8);
}

#[test]
fn decrement_of_zero_is_an_error() {
    let program = vec![Inst::Ldai(7), Inst::Print, Inst::Dec(3), Inst::Print];
    let (m, status) = interpret(&program, 100);
    assert_eq!(status, Status::Failed(ExecError::RegisterUnderflow));
    assert_eq!(m.pc, 2);
    assert_eq!(m.regs[3], 0);
    assert_eq!(m.output, vec![7]);
}

#[test]
fn decrement_of_one_gives_zero() {
    let program = vec![Inst::Movi(3, 1), Inst::Dec(3)];
    let (m, status) = interpret(&program, 100);
    assert_eq!(status, Status::Halted);
    assert_eq!(m.regs[3], 0);
}

#[test]
fn accumulator_wraps_at_sixty_four_bits() {
    // Doubling 2^32 - 1 by repeated addition until it passes 2^64.
    let mut program = vec![Inst::Movi(0, 0xffff_ffff), Inst::Lda(0)];
    for _ in 0..33 {
        program.push(Inst::Sta(0));
        program.push(Inst::Add(0));
    }
    program.push(Inst::Print);
    let (m, status) = interpret(&program, 1000);
    assert_eq!(status, Status::Halted);
    let expected = ((0xffff_ffffu128 << 33) % (1u128 << 64)) as u64;
    assert_eq!(m.output, vec![expected]);
}

#[test]
fn branch_is_taken_only_when_registers_differ() {
    let program = vec![Inst::Bne(0, 1, 3), Inst::Ldai(1), Inst::Print, Inst::Print];
    let (m, status) = interpret(&program, 100);
    assert_eq!(status, Status::Halted);
    assert_eq!(m.output, vec![1, 1]);

    let program = vec![Inst::Movi(0, 1), Inst::Bne(0, 1, 4), Inst::Ldai(1), Inst::Print, Inst::Print];
    let (m, status) = interpret(&program, 100);
    assert_eq!(status, Status::Halted);
    assert_eq!(m.output, vec![0]);
}

#[test]
fn branch_to_the_end_halts_and_beyond_it_fails() {
    let program = vec![Inst::Movi(0, 1), Inst::Bne(0, 1, 2)];
    let (m, status) = interpret(&program, 100);
    assert_eq!(status, Status::Halted);
    assert_eq!(m.pc, 2);

    let program = vec![Inst::Movi(0, 1), Inst::Bne(0, 1, 3)];
    let (m, status) = interpret(&program, 100);
    assert_eq!(status, Status::Failed(ExecError::BranchOutOfRange));
    assert_eq!(m.pc, 1);
}

#[test]
fn endless_loop_stops_when_the_budget_is_spent() {
    let program = vec![Inst::Movi(0, 1), Inst::Print, Inst::Bne(0, 1, 1)];
    let (m, status) = interpret(&program, 7);
    assert_eq!(status, Status::OutOfSteps);
    assert_eq!(m.output, vec![0, 0, 0]);
    assert_eq!(m.pc, 1);
}

#[test]
fn single_steps_follow_the_program() {
    let program = vec![Inst::Ldai(4), Inst::Sta(9), Inst::Dec(8)];
    let mut m = Machine::new();
    assert_eq!(m.step(&program), Ok(()));
    assert_eq!((m.acc, m.pc), (4, 1));
    assert_eq!(m.step(&program), Ok(()));
    assert_eq!((m.regs[9], m.pc), (4, 2));
    assert_eq!(m.step(&program), Err(ExecError::RegisterUnderflow));
    assert_eq!(m.pc, 2);
}
