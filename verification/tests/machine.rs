use mipsevm::{compute_root_from_proof, MachineState, Memory, VmError};

fn insn(op: u8, a: u8, b: u8, c: u8) -> [u8; 4] {
    [op, a, b, c]
}

fn load_program(words: &[[u8; 4]]) -> MachineState {
    let mut mem = Memory::new();
    for (k, w) in words.iter().enumerate() {
        mem.write(4 * k as u64, w).unwrap();
    }
    MachineState::new(mem, 0)
}

#[test]
fn exited_machine_never_changes() {
    let mut m = load_program(&[insn(0xFF, 7, 0, 0)]);
    m.step().unwrap();
    assert!(m.exited);
    assert_eq!(m.exit_code, 7);
    let pc = m.pc;
    let steps = m.step_count;
    let regs = m.regs.clone();
    let root = m.mem.merkle_root();
    let c1 = m.state_commitment();
    assert_eq!(m.step().unwrap_err(), VmError::AlreadyExited);
    assert_eq!(m.pc, pc);
    assert_eq!(m.step_count, steps);
    assert_eq!(m.regs, regs);
    assert_eq!(m.mem.merkle_root(), root);
    assert_eq!(m.state_commitment(), c1);
}

#[test]
fn end_to_end_program_is_reproducible() {
    let program = [
        insn(0x01, 1, 0x00, 0x10), // r1 = 0x1000
        insn(0x01, 2, 0xAB, 0x00), // r2 = 0xAB
        insn(0x01, 3, 0xCD, 0x00), // r3 = 0xCD
        insn(0x03, 1, 2, 0),       // mem[r1 + 0] = low byte of r2
        insn(0x03, 1, 3, 1),       // mem[r1 + 1] = low byte of r3
        insn(0xFF, 0, 0, 0),       // exit(0)
    ];
    let run = || {
        let mut m = load_program(&program);
        let mut n = 0;
        while !m.exited {
            m.step().unwrap();
            n += 1;
            assert!(n <= 10);
        }
        m
    };
    let mut m1 = run();
    let mut m2 = run();
    assert_eq!(m1.exit_code, 0);
    assert_eq!(m1.step_count, 6);
    assert_eq!(m1.mem.read(0x1000, 2).unwrap(), vec![0xAB, 0xCD]);
    // bit-for-bit reproducible across two independent executions
    assert_eq!(m1.state_commitment(), m2.state_commitment());
    // and the inclusion proof for the written address validates
    let root = m1.mem.merkle_root();
    let proof = m1.mem.proof_for(0x1000);
    let leaf: [u8; 32] = m1.mem.read(0x1000, 32).unwrap().try_into().unwrap();
    assert_eq!(compute_root_from_proof(&leaf, &proof, 0x1000), root);
}

#[test]
fn add_wraps_around() {
    let mut m = load_program(&[insn(0x02, 1, 2, 3)]);
    m.regs[2] = u64::MAX;
    m.regs[3] = 5;
    m.step().unwrap();
    assert_eq!(m.regs[1], 4);
    assert_eq!(m.pc, 4);
    assert_eq!(m.step_count, 1);
}

#[test]
fn mul_fills_result_registers() {
    let mut m = load_program(&[insn(0x08, 1, 2, 0)]);
    m.regs[1] = 1 << 32;
    m.regs[2] = 1 << 33;
    m.step().unwrap();
    assert_eq!(m.lo_reg, 0);
    assert_eq!(m.hi_reg, 2);
}

#[test]
fn loads_sign_extend() {
    let program = [
        insn(0x04, 1, 2, 0), // r1 = sign-extended byte at [r2]
        insn(0x07, 3, 2, 4), // r3 = sign-extended word at [r2 + 4]
        insn(0xFF, 0, 0, 0),
    ];
    let mut m = load_program(&program);
    m.mem
        .write(0x2000, &[0x80, 0, 0, 0, 0x00, 0x00, 0x00, 0x80])
        .unwrap();
    m.regs[2] = 0x2000;
    m.step().unwrap();
    m.step().unwrap();
    assert_eq!(m.regs[1], 0xFFFF_FFFF_FFFF_FF80);
    assert_eq!(m.regs[3], 0xFFFF_FFFF_8000_0000);
}

#[test]
fn store_word_little_endian() {
    let mut m = load_program(&[insn(0x06, 1, 2, 0)]);
    m.regs[1] = 0x3000;
    m.regs[2] = 0xDDCC_BBAA;
    m.step().unwrap();
    assert_eq!(m.mem.read(0x3000, 4).unwrap(), vec![0xAA, 0xBB, 0xCC, 0xDD]);
}

#[test]
fn jump_sets_pc() {
    let mut m = load_program(&[insn(0x05, 1, 0, 0)]);
    m.regs[1] = 0x400;
    m.step().unwrap();
    assert_eq!(m.pc, 0x400);
    // jumping to an unaligned target is refused and changes nothing
    let mut m2 = load_program(&[insn(0x05, 1, 0, 0)]);
    m2.regs[1] = 0x401;
    assert_eq!(m2.step().unwrap_err(), VmError::UnalignedAccess);
    assert_eq!(m2.pc, 0);
}

#[test]
fn undefined_opcode_is_decode_failure() {
    let mut m = load_program(&[insn(0x99, 0, 0, 0)]);
    assert_eq!(m.step().unwrap_err(), VmError::DecodeFailure);
    assert_eq!(m.step_count, 0);
    // a register operand out of range decodes to the same failure
    let mut m2 = load_program(&[insn(0x01, 40, 0, 0)]);
    assert_eq!(m2.step().unwrap_err(), VmError::DecodeFailure);
}

#[test]
fn unaligned_pc_is_refused() {
    let mem = Memory::new();
    let mut m = MachineState::new(mem, 2);
    assert_eq!(m.step().unwrap_err(), VmError::UnalignedAccess);
}

#[test]
fn store_out_of_bounds_is_refused() {
    let mut m = load_program(&[insn(0x03, 1, 2, 0)]);
    m.regs[1] = u64::MAX;
    assert_eq!(m.step().unwrap_err(), VmError::OutOfBounds);
    assert_eq!(m.step_count, 0);
}

#[test]
fn li_sign_extends_negative_immediate() {
    // immediate 0x8000 has its 16th bit set: the register fills with ones
    let mut m = load_program(&[insn(0x01, 1, 0x00, 0x80)]);
    m.step().unwrap();
    assert_eq!(m.regs[1], 0xFFFF_FFFF_FFFF_8000);
}

#[test]
fn pc_wraps_at_end_of_address_space() {
    let mut mem = Memory::new();
    mem.write(0xFFFF_FFFC, &[0, 0, 0, 0]).unwrap();
    let mut m = MachineState::new(mem, 0xFFFF_FFFC);
    m.step().unwrap();
    assert_eq!(m.pc, 0);
    assert_eq!(m.step_count, 1);
}
