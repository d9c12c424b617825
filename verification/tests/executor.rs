//! Programs that run on the executor.
use std::cell::{Cell, RefCell};
use zkvm_executor::executor::ExecutorImpl;
use zkvm_executor::monitor::{MemoryImage, MemoryMonitor, Program};
use zkvm_executor::segment::{Segment, Session};
use zkvm_executor::types::{
    Assumption, Claim, CycleCosts, ExecError, ExecutorEnv, ExitCode, HartFault, MajorType, OpCode,
    OpCodeResult, Receipt, SyscallReply, SyscallRequest, TraceEvent,
};

const COSTS: CycleCosts = CycleCosts {
    init_cycles: 1,
    fini_cycles: 1,
    zk_cycles: 1,
    page_read_cycles: 10,
    page_write_cycles: 20,
};

const ENTRY: u32 = 0x400;
const ECALL: u32 = 0x73;

const T0: u32 = 5;
const A0: u32 = 10;
const A1: u32 = 11;
const A2: u32 = 12;
const A3: u32 = 13;
const A4: u32 = 14;

fn env() -> ExecutorEnv {
    ExecutorEnv {
        session_limit: None,
        segment_limit_po2: Some(13),
        trace: false,
        pprof: false,
        fault_proof: false,
        syscalls: vec![String::from("echo"), String::from("commit")],
        segment_path: None,
    }
}

fn addi(rd: u32, rs1: u32, imm: u32) -> u32 {
    imm << 20 | rs1 << 15 | rd << 7 | 0x13
}

fn lui(rd: u32, page: u32) -> u32 {
    page << 12 | rd << 7 | 0x37
}

fn lw(rd: u32, rs1: u32, imm: u32) -> u32 {
    imm << 20 | rs1 << 15 | 2 << 12 | rd << 7 | 0x03
}

fn sw(rs2: u32, rs1: u32, imm: u32) -> u32 {
    (imm >> 5) << 25 | rs2 << 20 | rs1 << 15 | 2 << 12 | (imm & 0x1f) << 7 | 0x23
}

fn sb(rs2: u32, rs1: u32, imm: u32) -> u32 {
    (imm >> 5) << 25 | rs2 << 20 | rs1 << 15 | (imm & 0x1f) << 7 | 0x23
}

fn decode(insn: u32, _pc: u32) -> Result<OpCode, ExecError> {
    let major = if insn == ECALL { MajorType::ECall } else { MajorType::Hart };
    Ok(OpCode::new(insn, major, 1))
}

fn slow(insn: u32, _pc: u32) -> Result<OpCode, ExecError> {
    let major = if insn == ECALL { MajorType::ECall } else { MajorType::Hart };
    Ok(OpCode::new(insn, major, 4000))
}

fn nobody(_request: &SyscallRequest, _monitor: &MemoryMonitor) -> Result<SyscallReply, ExecError> {
    Err(ExecError::Host(1))
}

fn quiet(_events: &Vec<TraceEvent>) {}

fn keep(segment: Segment) -> Result<Segment, ExecError> {
    Ok(segment)
}

fn image(code: &[u32], data: &[(u32, u32)]) -> MemoryImage {
    let mut words: Vec<(u32, u32)> = Vec::new();
    for (i, word) in code.iter().enumerate() {
        words.push((ENTRY + 4 * i as u32, *word));
    }
    words.extend_from_slice(data);
    MemoryImage::new(&Program { entry: ENTRY, image: words }).unwrap()
}

fn load(env: ExecutorEnv, code: &[u32], data: &[(u32, u32)]) -> ExecutorImpl<Segment> {
    ExecutorImpl::new(env, image(code, data), &COSTS).unwrap()
}

fn run(exec: &mut ExecutorImpl<Segment>) -> Result<Session<Segment>, ExecError> {
    exec.run_with_callback(&decode, &nobody, &quiet, &keep)
}

fn outcome(code: &[u32], data: &[(u32, u32)]) -> ExecError {
    run(&mut load(env(), code, data)).unwrap_err()
}

fn byte_of(image: &MemoryImage, addr: u32) -> u8 {
    MemoryMonitor::new(image.clone(), false, &COSTS).peek_u8(addr)
}

/// The words of a string that ends with a zero byte.
fn text(addr: u32, bytes: &[u8]) -> Vec<(u32, u32)> {
    let mut all = bytes.to_vec();
    all.push(0);
    while all.len() % 4 != 0 {
        all.push(0);
    }
    all.chunks(4)
        .enumerate()
        .map(|(i, c)| (addr + 4 * i as u32, u32::from_le_bytes([c[0], c[1], c[2], c[3]])))
        .collect()
}

fn halt_with(user: u32) -> Vec<u32> {
    vec![addi(T0, 0, 0), lui(A1, 1), addi(A0, 0, user << 8), ECALL]
}

#[test]
fn new_checks_the_segment_limit() {
    for po2 in [0u32, 12, 25, 64] {
        let mut e = env();
        e.segment_limit_po2 = Some(po2);
        let r: Result<ExecutorImpl<Segment>, ExecError> =
            ExecutorImpl::new(e, MemoryImage::empty(ENTRY), &COSTS);
        assert_eq!(r.err(), Some(ExecError::InvalidSegmentLimit(po2)));
    }
    for po2 in [Some(13u32), Some(24), None] {
        let mut e = env();
        e.segment_limit_po2 = po2;
        let r: Result<ExecutorImpl<Segment>, ExecError> =
            ExecutorImpl::new(e, MemoryImage::empty(ENTRY), &COSTS);
        assert!(r.is_ok());
    }
}

#[test]
fn a_new_executor_has_only_constant_cycles() {
    let exec = load(env(), &[], &[]);
    assert_eq!(exec.total_cycles(), 1 + 1 + 73 + 1);
    assert_eq!(exec.session_cycle(), 1);
    assert_eq!(exec.pc(), ENTRY);
}

#[test]
fn halt_ends_the_session() {
    let mut exec = load(env(), &halt_with(5), &[]);
    let session = run(&mut exec).unwrap();
    assert_eq!(session.exit_code, ExitCode::Halted(5));
    assert_eq!(session.journal, None);
    assert_eq!(session.post_image.pc(), ENTRY + 12);
    assert_eq!(session.segments.len(), 1);
    let segment = &session.segments[0];
    assert_eq!(segment.exit_code, ExitCode::Halted(5));
    assert_eq!(segment.index, 0);
    assert_eq!(segment.cycles, 4);
    assert_eq!(segment.split_insn, None);
    assert!(segment.output.is_none());
    assert_eq!(segment.pre_image.pc(), ENTRY);
    assert_eq!(segment.faults.reads.iter().copied().collect::<Vec<u32>>(), vec![1, 4]);
    assert!(segment.faults.writes.is_empty());
    // 76 constant cycles, two pages that were read, and four instructions.
    assert_eq!(exec.total_cycles(), 100);
    assert_eq!(segment.po2, 7);
    assert_eq!(exec.session_cycle(), 1 + 20 + 4);
}

#[test]
fn a_halted_execution_cannot_be_resumed() {
    let mut exec = load(env(), &halt_with(5), &[]);
    run(&mut exec).unwrap();
    assert_eq!(run(&mut exec).unwrap_err(), ExecError::CannotResume(ExitCode::Halted(5)));
}

#[test]
fn a_run_that_is_refused_gives_the_host_nothing() {
    let never = |_segment: Segment| -> Result<Segment, ExecError> { panic!("given a segment") };
    let mut halted = load(env(), &halt_with(0), &[]);
    run(&mut halted).unwrap();
    let r = halted.run_with_callback(&decode, &nobody, &quiet, &never);
    assert_eq!(r.unwrap_err(), ExecError::CannotResume(ExitCode::Halted(0)));

    let mut e = env();
    e.session_limit = Some(0);
    let mut limited = load(e, &halt_with(0), &[]);
    assert_eq!(run(&mut limited).unwrap_err(), ExecError::SessionLimitExceeded);
    let r = limited.run_with_callback(&decode, &nobody, &quiet, &never);
    assert_eq!(r.unwrap_err(), ExecError::NoPreImage);
}

#[test]
fn a_paused_execution_is_resumed_behind_the_pause() {
    let code = [
        addi(T0, 0, 0),
        lui(A1, 1),
        addi(A0, 0, 0x301),
        ECALL,
        addi(A0, A0, 0x6ff),
        ECALL,
    ];
    let mut exec = load(env(), &code, &[]);
    let first = run(&mut exec).unwrap();
    assert_eq!(first.exit_code, ExitCode::Paused(3));
    assert_eq!(first.post_image.pc(), ENTRY + 12);
    // 0x301 + 0x6ff is 0xa00: the register was kept.
    let second = run(&mut exec).unwrap();
    assert_eq!(second.exit_code, ExitCode::Halted(10));
    assert_eq!(second.segments.len(), 1);
    assert_eq!(second.segments[0].index, 0);
    assert_eq!(second.segments[0].pre_image.pc(), ENTRY + 16);
    assert_eq!(second.segments[0].cycles, 2);
}

#[test]
fn full_segments_follow_on_each_other() {
    let code = [
        lui(3, 2),
        addi(4, 0, 7),
        sw(4, 3, 0),
        addi(4, 4, 1),
        addi(T0, 0, 0),
        lui(A1, 1),
        ECALL,
    ];
    let mut exec = load(env(), &code, &[]);
    let session = exec.run_with_callback(&slow, &nobody, &quiet, &keep).unwrap();
    assert_eq!(session.exit_code, ExitCode::Halted(0));
    assert_eq!(session.segments.len(), 4);
    for (i, segment) in session.segments.iter().enumerate() {
        assert_eq!(segment.index, i as u32);
        assert!(segment.po2 <= 13);
        assert!(segment.cycles <= 1 << segment.po2);
        if i < 3 {
            assert_eq!(segment.exit_code, ExitCode::SystemSplit);
            assert_eq!(segment.split_insn, Some(2));
            assert_eq!(segment.cycles, 8000);
            let next = &session.segments[i + 1];
            assert_eq!(segment.post_image.pc(), next.pre_image.pc());
            assert_eq!(byte_of(&segment.post_image, 0x2000), byte_of(&next.pre_image, 0x2000));
        }
    }
    // The store was cut off in the first segment, and taken up in the second.
    assert_eq!(byte_of(&session.segments[0].post_image, 0x2000), 0);
    assert!(session.segments[0].faults.writes.is_empty());
    assert_eq!(byte_of(&session.segments[1].post_image, 0x2000), 7);
    assert_eq!(
        session.segments[1].faults.writes.iter().copied().collect::<Vec<u32>>(),
        vec![8]
    );
    assert_eq!(session.segments[3].cycles, 4000);
}

#[test]
fn a_split_records_nothing() {
    let mut exec = load(env(), &[lui(3, 2), addi(4, 0, 7), sw(4, 3, 0)], &[]);
    assert_eq!(exec.step(&slow, &nobody), Ok(None));
    assert_eq!(exec.step(&slow, &nobody), Ok(None));
    let (pc, total, session) = (exec.pc(), exec.total_cycles(), exec.session_cycle());
    assert_eq!(total, 76 + 10 + 8000);
    assert_eq!(exec.step(&slow, &nobody), Ok(Some(ExitCode::SystemSplit)));
    assert_eq!((exec.pc(), exec.total_cycles(), exec.session_cycle()), (pc, total, session));
    assert_eq!(exec.monitor().peek_u8(0x2000), 0);
    assert!(exec.traced().is_empty());
}

#[test]
fn an_instruction_has_to_fit_into_a_segment() {
    fn huge(insn: u32, _pc: u32) -> Result<OpCode, ExecError> {
        Ok(OpCode::new(insn, MajorType::Hart, 9000))
    }
    let mut exec = load(env(), &[addi(4, 0, 7)], &[]);
    assert_eq!(exec.step(&huge, &nobody), Err(ExecError::SegmentTooSmall(ENTRY)));
}

#[test]
fn constant_cycles_may_be_too_many() {
    let costs = CycleCosts { init_cycles: 10_000, ..COSTS };
    let mut exec: ExecutorImpl<Segment> =
        ExecutorImpl::new(env(), image(&[addi(4, 0, 7)], &[]), &costs).unwrap();
    assert_eq!(run(&mut exec).unwrap_err(), ExecError::SegmentTooSmall(ENTRY));
    let mut e = env();
    e.fault_proof = true;
    let mut exec: ExecutorImpl<Segment> =
        ExecutorImpl::new(e, image(&[lw(4, 0, 0)], &[]), &costs).unwrap();
    assert_eq!(run(&mut exec).unwrap_err(), ExecError::SegmentOverLimit);
}

#[test]
fn the_session_limit_stops_a_run() {
    let mut e = env();
    e.session_limit = Some(13);
    let seen: RefCell<Vec<ExitCode>> = RefCell::new(Vec::new());
    let callback = |segment: Segment| -> Result<Segment, ExecError> {
        seen.borrow_mut().push(segment.exit_code);
        Ok(segment)
    };
    let mut exec = load(e, &[addi(4, 0, 7), addi(4, 0, 8), addi(4, 0, 9)], &[]);
    let r = exec.run_with_callback(&decode, &nobody, &quiet, &callback);
    assert_eq!(r.unwrap_err(), ExecError::SessionLimitExceeded);
    assert_eq!(*seen.borrow(), vec![ExitCode::SessionLimit]);
    // Two instructions and a page bring the session from cycle 1 to cycle 13.
    assert_eq!(exec.pc(), ENTRY + 8);
    assert_eq!(run(&mut exec).unwrap_err(), ExecError::NoPreImage);
}

#[test]
fn loads_and_stores_reach_guest_memory() {
    let code = [lui(3, 2), lw(4, 3, 4), addi(4, 4, 1), sw(4, 3, 8), sb(4, 3, 13)];
    let mut exec = load(env(), &code, &[(0x2004, 0x0102_0304)]);
    for _ in 0..5 {
        assert_eq!(exec.step(&decode, &nobody), Ok(None));
    }
    assert_eq!(exec.monitor().load_register(4), 0x0102_0305);
    let bytes: Vec<u8> = (0x2008..0x2010).map(|a| exec.monitor().peek_u8(a)).collect();
    assert_eq!(bytes, vec![5, 3, 2, 1, 0, 5, 0, 0]);
    // One page of code and one of data, which was changed.
    assert_eq!(exec.total_cycles(), 76 + 20 + 20 + 5);
}

#[test]
fn code_may_store_to_its_own_word() {
    let code = [lui(3, 0), addi(3, 3, 0x400), addi(4, 0, 0x55), sw(4, 3, 12)];
    let mut exec = load(env(), &code, &[]);
    for _ in 0..4 {
        assert_eq!(exec.step(&decode, &nobody), Ok(None));
    }
    assert_eq!(exec.monitor().peek_u8(ENTRY + 12), 0x55);
    assert_eq!(exec.monitor().peek_u8(ENTRY + 13), 0);
}

#[test]
fn a_fault_fails_the_execution() {
    assert_eq!(
        outcome(&[lw(4, 0, 0)], &[]),
        ExecError::InstructionFailed(HartFault::LoadAccessFault(0))
    );
    assert_eq!(
        outcome(&[sw(4, 0, 8)], &[]),
        ExecError::InstructionFailed(HartFault::StoreAccessFault(8))
    );
    assert_eq!(
        outcome(&[lui(3, 2), lw(4, 3, 2)], &[]),
        ExecError::InstructionFailed(HartFault::AlignmentFault(0x2002))
    );
    assert_eq!(
        outcome(&[0], &[]),
        ExecError::InstructionFailed(HartFault::IllegalInstruction(ENTRY, 0))
    );
}

#[test]
fn a_fault_can_be_proven() {
    let mut e = env();
    e.fault_proof = true;
    let mut exec = load(e, &[addi(4, 0, 7), lw(4, 0, 0)], &[]);
    let session = run(&mut exec).unwrap();
    assert_eq!(session.exit_code, ExitCode::Fault);
    assert_eq!(session.segments[0].split_insn, Some(1));
    assert_eq!(session.segments[0].cycles, 1);
    assert_eq!(session.post_image.pc(), ENTRY + 4);
    assert_eq!(run(&mut exec).unwrap_err(), ExecError::CannotResume(ExitCode::Fault));
}

#[test]
fn instructions_are_fetched_from_aligned_guest_memory() {
    for (pc, e) in [
        (0x402u32, ExecError::UnalignedAddress(0x402)),
        (0, ExecError::InvalidGuestAddress(0)),
        (0x0c00_0000, ExecError::InvalidGuestAddress(0x0c00_0000)),
    ] {
        let mut exec: ExecutorImpl<Segment> =
            ExecutorImpl::new(env(), MemoryImage::empty(pc), &COSTS).unwrap();
        assert_eq!(exec.step(&decode, &nobody), Err(e));
        assert_eq!(exec.pc(), pc);
    }
}

#[test]
fn ecalls_that_do_not_exist_are_refused() {
    assert_eq!(outcome(&[addi(T0, 0, 9), ECALL], &[]), ExecError::UnknownEcall(9));
    assert_eq!(
        outcome(&[addi(A0, 0, 2), lui(A1, 1), ECALL], &[]),
        ExecError::IllegalHaltType(2)
    );
    assert_eq!(outcome(&[addi(A1, 0, 3), ECALL], &[]), ExecError::InvalidGuestAddress(3));
}

#[test]
fn decoding_may_fail() {
    fn refuse(_insn: u32, _pc: u32) -> Result<OpCode, ExecError> {
        Err(ExecError::Host(77))
    }
    let mut exec = load(env(), &[addi(4, 0, 7)], &[]);
    assert_eq!(exec.step(&refuse, &nobody), Err(ExecError::Host(77)));
}

#[test]
fn an_ecall_that_fails_commits_nothing() {
    let mut exec = load(env(), &[addi(T0, 0, 9), ECALL], &[]);
    assert_eq!(exec.step(&decode, &nobody), Ok(None));
    let (total, session) = (exec.total_cycles(), exec.session_cycle());
    for _ in 0..2 {
        assert_eq!(exec.step(&decode, &nobody), Err(ExecError::UnknownEcall(9)));
        assert_eq!(exec.pc(), ENTRY + 4);
        assert_eq!((exec.total_cycles(), exec.session_cycle()), (total, session));
    }
}

#[test]
fn the_input_ecall_reads_a_digest() {
    let mut exec = load(env(), &[addi(T0, 0, 1), lui(A0, 1), ECALL], &[]);
    for _ in 0..3 {
        assert_eq!(exec.step(&decode, &nobody), Ok(None));
    }
    assert_eq!(exec.pc(), ENTRY + 12);
    assert_eq!(exec.total_cycles(), 76 + 20 + 3);
    assert_eq!(
        outcome(&[addi(T0, 0, 1), ECALL], &[]),
        ExecError::InvalidGuestAddress(0)
    );
}

#[test]
fn the_sha_ecall_compresses_blocks() {
    // The state of SHA-256 at the beginning, and the padded message "abc".
    let state: [u32; 8] = [
        0x6a09e667, 0xbb67ae85, 0x3c6ef372, 0xa54ff53a, 0x510e527f, 0x9b05688c, 0x1f83d9ab,
        0x5be0cd19,
    ];
    let mut data: Vec<(u32, u32)> = Vec::new();
    for (i, word) in state.iter().enumerate() {
        data.push((0x2000 + 4 * i as u32, word.swap_bytes()));
    }
    data.push((0x3000, 0x8063_6261));
    data.push((0x301c + 0x20, 24u32.swap_bytes()));
    let code = [
        addi(T0, 0, 3),
        lui(A0, 1),
        lui(A1, 2),
        lui(A2, 3),
        addi(A3, A2, 32),
        addi(A4, 0, 1),
        ECALL,
    ];
    let mut exec = load(env(), &code, &data);
    for _ in 0..6 {
        assert_eq!(exec.step(&decode, &nobody), Ok(None));
    }
    let before = exec.total_cycles();
    assert_eq!(exec.step(&decode, &nobody), Ok(None));
    let digest: Vec<u8> = (0x1000..0x1020).map(|a| exec.monitor().peek_u8(a)).collect();
    assert_eq!(
        digest,
        vec![
            0xba, 0x78, 0x16, 0xbf, 0x8f, 0x01, 0xcf, 0xea, 0x41, 0x41, 0x40, 0xde, 0x5d, 0xae,
            0x22, 0x23, 0xb0, 0x03, 0x61, 0xa3, 0x96, 0x17, 0x7a, 0x9c, 0xb4, 0x10, 0xff, 0x61,
            0xf2, 0x00, 0x15, 0xad
        ]
    );
    // Three more pages were read, one of them was changed, and one block was
    // compressed.
    assert_eq!(exec.total_cycles(), before + 30 + 20 + 1 + 73);
    assert_eq!(exec.pc(), ENTRY + 28);
}

/// Runs six instructions and then a SHA ecall that writes to 0x1000. Gives the digest
/// and the cycles that the call took.
fn absorb(exec: &mut ExecutorImpl<Segment>) -> (Vec<u8>, u64) {
    for _ in 0..6 {
        assert_eq!(exec.step(&decode, &nobody), Ok(None));
    }
    let before = exec.session_cycle();
    assert_eq!(exec.step(&decode, &nobody), Ok(None));
    let digest = (0x1000..0x1020).map(|a| exec.monitor().peek_u8(a)).collect();
    (digest, exec.session_cycle() - before)
}

/// Absorbs `count` blocks from 0x3000 + `skip` on into the state on page `input`.
fn absorb_code(input: u32, skip: u32, count: u32) -> Vec<u32> {
    vec![
        lui(A0, 1),
        lui(A1, input),
        lui(A2, 3),
        addi(A3, A2, skip + 32),
        addi(A2, A2, skip),
        addi(A4, 0, count),
        ECALL,
    ]
}

#[test]
fn two_sha_ecalls_do_what_one_does() {
    let data: Vec<(u32, u32)> = (0..32).map(|i| (0x3000 + 4 * i, 0x0101_0101 * i)).collect();
    let sha = addi(T0, 0, 3);
    let mut code = vec![sha];
    code.extend(absorb_code(2, 0, 2));
    let mut exec = load(env(), &code, &data);
    assert_eq!(exec.step(&decode, &nobody), Ok(None));
    let whole = absorb(&mut exec);

    // The second block is absorbed into the state that the first call has written.
    let mut code = vec![sha];
    code.extend(absorb_code(2, 0, 1));
    code.extend(absorb_code(1, 64, 1));
    let mut exec = load(env(), &code, &data);
    assert_eq!(exec.step(&decode, &nobody), Ok(None));
    let first = absorb(&mut exec);
    let second = absorb(&mut exec);
    assert_eq!(second.0, whole.0);
    assert_ne!(first.0, whole.0);
    // The pages are read once in either way, and one more instruction takes a cycle.
    assert_eq!(first.1 + second.1, whole.1 + 1);
}

#[test]
fn the_sha_ecall_reads_guest_memory_only() {
    let mut code = vec![addi(T0, 0, 3), lui(A0, 1), lui(A1, 2), lui(A2, 3), addi(A4, 0, 1), ECALL];
    assert_eq!(outcome(&code, &[]), ExecError::InvalidGuestAddress(0));
    code[3] = lui(A2, 0xbfff);
    code.insert(4, addi(A2, A2, 0x7f0));
    code.insert(5, addi(A2, A2, 0x7f0));
    code.insert(6, lui(A3, 3));
    // The block ends at 0xc000020.
    assert_eq!(outcome(&code, &[]), ExecError::InvalidGuestAddress(0x0c00_0000));
}

fn bigint_code(op: u32) -> Vec<u32> {
    vec![
        addi(T0, 0, 4),
        lui(A0, 1),
        addi(A1, 0, op),
        lui(A2, 2),
        lui(A3, 3),
        lui(A4, 4),
        ECALL,
    ]
}

#[test]
fn the_bigint_ecall_multiplies() {
    let data = [(0x2000, 7u32), (0x3000, 9), (0x4000, 10), (0x2004, 1)];
    let mut exec = load(env(), &bigint_code(0), &data);
    for _ in 0..6 {
        assert_eq!(exec.step(&decode, &nobody), Ok(None));
    }
    let before = exec.total_cycles();
    assert_eq!(exec.step(&decode, &nobody), Ok(None));
    // (2^32 + 7) * 9 modulo 10
    assert_eq!(exec.monitor().peek_u8(0x1000), ((0x1_0000_0007u64 * 9) % 10) as u8);
    assert_eq!(exec.monitor().peek_u8(0x1001), 0);
    assert_eq!(exec.total_cycles(), before + 40 + 20 + 1 + 9);
}

#[test]
fn the_bigint_ecall_multiplies_without_a_modulus() {
    let mut exec = load(env(), &bigint_code(0), &[(0x2000, 0x100), (0x3000, 0x30)]);
    for _ in 0..7 {
        assert_eq!(exec.step(&decode, &nobody), Ok(None));
    }
    assert_eq!(exec.monitor().peek_u8(0x1000), 0);
    assert_eq!(exec.monitor().peek_u8(0x1001), 0x30);
    assert_eq!(
        outcome(&bigint_code(0), &[(0x201c, 0x8000_0000), (0x3000, 2)]),
        ExecError::BigIntOverflow
    );
}

#[test]
fn the_bigint_operation_is_zero() {
    assert_eq!(outcome(&bigint_code(1), &[]), ExecError::InvalidBigIntOp(1));
}

fn syscall_code(page: u32, words: u32) -> Vec<u32> {
    vec![addi(T0, 0, 2), lui(A0, page), addi(A1, 0, words), lui(A2, 3), ECALL]
}

fn reply(to_guest: Vec<u32>, journal: &[u8]) -> SyscallReply {
    SyscallReply {
        to_guest,
        regs: (11, 22),
        loads: Vec::new(),
        journal: journal.to_vec(),
        assumptions: Vec::new(),
    }
}

#[test]
fn a_system_call_is_answered() {
    let seen: RefCell<Vec<(String, u32)>> = RefCell::new(Vec::new());
    let syscall = |request: &SyscallRequest,
                   _monitor: &MemoryMonitor|
     -> Result<SyscallReply, ExecError> {
        seen.borrow_mut().push((request.name.clone(), request.to_guest_words));
        Ok(reply(vec![0x0403_0201, 5, 6, 7], &[]))
    };
    let mut exec = load(env(), &syscall_code(2, 3), &text(0x3000, b"echo"));
    for _ in 0..4 {
        assert_eq!(exec.step(&decode, &syscall), Ok(None));
    }
    let before = exec.total_cycles();
    assert_eq!(exec.step(&decode, &syscall), Ok(None));
    assert_eq!(*seen.borrow(), vec![(String::from("echo"), 3)]);
    let bytes: Vec<u8> = (0x2000..0x2010).map(|a| exec.monitor().peek_u8(a)).collect();
    assert_eq!(bytes, vec![1, 2, 3, 4, 5, 0, 0, 0, 6, 0, 0, 0, 0, 0, 0, 0]);
    assert_eq!(exec.monitor().load_register(A0 as usize), 11);
    assert_eq!(exec.monitor().load_register(A1 as usize), 22);
    // Two pages, one of them changed, the instruction, and 1 + 4 + 1 cycles.
    assert_eq!(exec.total_cycles(), before + 20 + 20 + 1 + 6);
}

#[test]
fn an_answer_is_filled_up_with_zeros() {
    let syscall = |_request: &SyscallRequest,
                   _monitor: &MemoryMonitor|
     -> Result<SyscallReply, ExecError> { Ok(reply(vec![1], &[])) };
    let mut data = text(0x3000, b"echo");
    data.push((0x2004, 0xffff_ffff));
    let mut exec = load(env(), &syscall_code(2, 2), &data);
    for _ in 0..5 {
        assert_eq!(exec.step(&decode, &syscall), Ok(None));
    }
    assert_eq!(exec.monitor().peek_u8(0x2000), 1);
    assert_eq!(exec.monitor().peek_u8(0x2004), 0);
}

#[test]
fn what_the_host_reads_is_touched() {
    let syscall = |_request: &SyscallRequest,
                   monitor: &MemoryMonitor|
     -> Result<SyscallReply, ExecError> {
        let mut r = reply(vec![monitor.peek_u8(0x5000) as u32], &[]);
        r.loads = vec![(0x5000, 1), (0x6000, 0x401)];
        Ok(r)
    };
    let mut data = text(0x3000, b"echo");
    data.push((0x5000, 9));
    let mut exec = load(env(), &syscall_code(0, 1), &data);
    for _ in 0..5 {
        assert_eq!(exec.step(&decode, &syscall), Ok(None));
    }
    // The code, the name, and the three pages that the host has read.
    assert_eq!(exec.total_cycles(), 76 + 50 + 5 + 6);
    let refused = |_request: &SyscallRequest,
                   _monitor: &MemoryMonitor|
     -> Result<SyscallReply, ExecError> {
        let mut r = reply(Vec::new(), &[1]);
        r.loads = vec![(0, 1)];
        Ok(r)
    };
    let mut exec = load(env(), &syscall_code(0, 1), &text(0x3000, b"echo"));
    let r = exec.run_with_callback(&decode, &refused, &quiet, &keep);
    assert_eq!(r.unwrap_err(), ExecError::InvalidGuestAddress(0));
}

#[test]
fn system_calls_that_cannot_be_answered_fail() {
    assert_eq!(
        outcome(&syscall_code(0, 0), &text(0x3000, b"other")),
        ExecError::UnknownSyscall(String::from("other"))
    );
    assert_eq!(
        outcome(&syscall_code(0, 0), &text(0x3000, &[0xff, 0xfe])),
        ExecError::InvalidSyscallName
    );
    assert_eq!(outcome(&syscall_code(0, 0), &text(0x3000, b"echo")), ExecError::Host(1));
    assert_eq!(
        outcome(&[addi(T0, 0, 2), addi(A0, 0, 1), ECALL], &[]),
        ExecError::InvalidGuestAddress(1)
    );
}

#[test]
fn a_system_call_that_was_cut_off_is_replayed() {
    let calls: Cell<u32> = Cell::new(0);
    let syscall = |_request: &SyscallRequest,
                   _monitor: &MemoryMonitor|
     -> Result<SyscallReply, ExecError> {
        calls.set(calls.get() + 1);
        Ok(reply(vec![calls.get()], &[7, 8]))
    };
    let costly = |insn: u32, _pc: u32| -> Result<OpCode, ExecError> {
        let (major, cycles) = if insn == ECALL {
            (MajorType::ECall, 4000)
        } else {
            (MajorType::Hart, 1100)
        };
        Ok(OpCode::new(insn, major, cycles))
    };
    let mut code = syscall_code(2, 1);
    code.extend_from_slice(&[addi(T0, 0, 0), addi(A0, 0, 0), lui(A1, 2), ECALL]);
    let mut exec = load(env(), &code, &text(0x3000, b"commit"));
    let session = exec.run_with_callback(&costly, &syscall, &quiet, &keep).unwrap();
    assert_eq!(calls.get(), 1);
    assert_eq!(session.exit_code, ExitCode::Halted(0));
    assert_eq!(session.segments[0].split_insn, Some(4));
    assert_eq!(session.segments[0].syscalls.len(), 0);
    assert_eq!(session.segments[1].syscalls.len(), 1);
    assert_eq!(session.segments[1].syscalls[0].to_guest, vec![1]);
    assert_eq!(session.segments[1].syscalls[0].regs, (11, 22));
    // The digest at the end is that of an output, so that there is a journal.
    assert_eq!(session.journal, Some(vec![7, 8]));
}

fn committing(assumption: Assumption) -> Result<Session<Segment>, ExecError> {
    let syscall = |_request: &SyscallRequest,
                   _monitor: &MemoryMonitor|
     -> Result<SyscallReply, ExecError> {
        let mut r = reply(Vec::new(), &[1, 2, 3]);
        r.assumptions = vec![assumption];
        Ok(r)
    };
    let mut code = syscall_code(0, 0);
    code.extend_from_slice(&[addi(T0, 0, 0), addi(A0, 0, 0), lui(A1, 3), ECALL]);
    let mut exec = load(env(), &code, &text(0x3000, b"commit"));
    exec.run_with_callback(&decode, &syscall, &quiet, &keep)
}

#[test]
fn the_output_goes_to_the_last_segment() {
    let claim = Claim { digest: [4; 32] };
    for assumption in [
        Assumption::Unresolved(claim),
        Assumption::Proven(Receipt { claim: Some(claim) }),
    ] {
        let session = committing(assumption).unwrap();
        assert_eq!(session.journal, Some(vec![1, 2, 3]));
        assert_eq!(session.assumptions.len(), 1);
        let output = session.segments[0].output.as_ref().unwrap();
        assert_eq!(output.journal, vec![1, 2, 3]);
        assert_eq!(output.assumptions.len(), 1);
        assert_eq!(output.assumptions[0].digest, [4; 32]);
    }
    let r = committing(Assumption::Proven(Receipt { claim: None }));
    assert_eq!(r.unwrap_err(), ExecError::MissingClaim);
}

#[test]
fn there_is_no_journal_without_an_output() {
    let syscall = |_request: &SyscallRequest,
                   _monitor: &MemoryMonitor|
     -> Result<SyscallReply, ExecError> { Ok(reply(Vec::new(), &[1, 2, 3])) };
    let mut code = syscall_code(0, 0);
    code.extend_from_slice(&[addi(T0, 0, 0), addi(A0, 0, 0), lui(A1, 1), ECALL]);
    let mut exec = load(env(), &code, &text(0x3000, b"commit"));
    let session = exec.run_with_callback(&decode, &syscall, &quiet, &keep).unwrap();
    assert_eq!(session.journal, None);
    assert!(session.segments[0].output.is_none());
}

#[test]
fn listeners_are_told_of_each_instruction() {
    let mut e = env();
    e.trace = true;
    let told: RefCell<Vec<TraceEvent>> = RefCell::new(Vec::new());
    let trace = |events: &Vec<TraceEvent>| {
        told.borrow_mut().extend_from_slice(events);
    };
    let mut exec = load(e, &[addi(4, 0, 7), 0], &[]);
    let r = exec.run_with_callback(&decode, &nobody, &trace, &keep);
    assert!(r.is_err());
    assert_eq!(
        *told.borrow(),
        vec![
            TraceEvent::InstructionStart { cycle: 1, pc: ENTRY, insn: addi(4, 0, 7) },
            TraceEvent::RegisterSet { idx: 4, value: 7 },
        ]
    );
}

#[test]
fn a_host_that_does_not_take_a_segment_fails_the_run() {
    let refuse = |_segment: Segment| -> Result<Segment, ExecError> { Err(ExecError::Host(5)) };
    let mut exec = load(env(), &halt_with(0), &[]);
    let r = exec.run_with_callback(&decode, &nobody, &quiet, &refuse);
    assert_eq!(r.unwrap_err(), ExecError::Host(5));
}

#[test]
fn a_full_segment_that_is_refused_ends_the_execution() {
    let calls: Cell<u32> = Cell::new(0);
    let refuse = |segment: Segment| -> Result<Segment, ExecError> {
        calls.set(calls.get() + 1);
        assert_eq!(segment.exit_code, ExitCode::SystemSplit);
        Err(ExecError::Host(5))
    };
    let mut exec = load(env(), &[addi(3, 0, 1), addi(3, 0, 2), addi(3, 0, 3)], &[]);
    let r = exec.run_with_callback(&slow, &nobody, &quiet, &refuse);
    assert_eq!(r.unwrap_err(), ExecError::Host(5));
    let r = exec.run_with_callback(&slow, &nobody, &quiet, &refuse);
    assert_eq!(r.unwrap_err(), ExecError::NoPreImage);
    assert_eq!(calls.get(), 1);
}

#[test]
fn a_segment_has_the_least_size_that_reaches_its_cycles() {
    // 76 constant cycles and a page of code leave 42 of 128 cycles.
    for (cycles, po2) in [(42u32, 7u32), (43, 8)] {
        let charge = |insn: u32, _pc: u32| -> Result<OpCode, ExecError> {
            Ok(OpCode::new(insn, MajorType::Hart, cycles))
        };
        let mut e = env();
        e.fault_proof = true;
        let mut exec = load(e, &[addi(3, 0, 1)], &[]);
        let session = exec.run_with_callback(&charge, &nobody, &quiet, &keep).unwrap();
        assert_eq!(session.segments[0].cycles, cycles);
        assert_eq!(session.segments[0].po2, po2);
    }
}

#[test]
fn full_segments_have_no_output() {
    let mut code = vec![addi(3, 0, 1), addi(3, 0, 2)];
    code.extend_from_slice(&halt_with(0));
    let mut exec = load(env(), &code, &[(0x1000, 1)]);
    let session = exec.run_with_callback(&slow, &nobody, &quiet, &keep).unwrap();
    assert_eq!(session.journal, Some(Vec::new()));
    let (last, full) = session.segments.split_last().unwrap();
    assert!(last.output.is_some());
    for segment in full {
        assert!(segment.output.is_none());
        assert!(segment.split_insn.unwrap() >= 1);
    }
}

#[test]
fn run_keeps_segments_at_a_path() {
    let made: Cell<u32> = Cell::new(0);
    let tempdir = || -> Result<String, ExecError> {
        made.set(made.get() + 1);
        Ok(String::from("made"))
    };
    let store = |segment: Segment, path: &String| -> Result<String, ExecError> {
        Ok(format!("{}/{}", path, segment.index))
    };
    let mut exec: ExecutorImpl<String> =
        ExecutorImpl::new(env(), image(&halt_with(0), &[]), &COSTS).unwrap();
    let session = exec.run(&tempdir, &decode, &nobody, &quiet, &store).unwrap();
    assert_eq!(session.segments, vec![String::from("made/0")]);
    assert_eq!(made.get(), 1);

    let mut e = env();
    e.segment_path = Some(String::from("given"));
    let mut exec: ExecutorImpl<String> =
        ExecutorImpl::new(e, image(&halt_with(0), &[]), &COSTS).unwrap();
    let session = exec.run(&tempdir, &decode, &nobody, &quiet, &store).unwrap();
    assert_eq!(session.segments, vec![String::from("given/0")]);
    assert_eq!(made.get(), 1);

    let full = || -> Result<String, ExecError> { Err(ExecError::Host(28)) };
    let mut exec: ExecutorImpl<String> =
        ExecutorImpl::new(env(), image(&halt_with(0), &[]), &COSTS).unwrap();
    let r = exec.run(&full, &decode, &nobody, &quiet, &store);
    assert_eq!(r.unwrap_err(), ExecError::Host(28));
}

#[test]
fn from_elf_loads_a_program() {
    let load = |elf: &[u8], max: u32| -> Result<Program, ExecError> {
        if elf.is_empty() {
            return Err(ExecError::Host(2));
        }
        assert_eq!(max, 0x0c00_0000);
        Ok(Program { entry: ENTRY, image: vec![(elf[0] as u32 * 0x400, addi(4, 0, 7))] })
    };
    let mut e = env();
    e.pprof = true;
    let mut exec: ExecutorImpl<Segment> =
        ExecutorImpl::from_elf(e, &[1], &load, &COSTS).unwrap();
    assert_eq!(exec.step(&decode, &nobody), Ok(None));
    assert_eq!(exec.traced().len(), 2);
    assert_eq!(exec.monitor().load_register(4), 7);

    let r: Result<ExecutorImpl<Segment>, ExecError> =
        ExecutorImpl::from_elf(env(), &[], &load, &COSTS);
    assert_eq!(r.err(), Some(ExecError::Host(2)));
    let r: Result<ExecutorImpl<Segment>, ExecError> =
        ExecutorImpl::from_elf(env(), &[0], &load, &COSTS);
    assert_eq!(r.err(), Some(ExecError::InvalidGuestAddress(0)));
    let mut e = env();
    e.segment_limit_po2 = Some(1);
    let r: Result<ExecutorImpl<Segment>, ExecError> =
        ExecutorImpl::from_elf(e, &[1], &load, &COSTS);
    assert_eq!(r.err(), Some(ExecError::InvalidSegmentLimit(1)));
}

#[test]
fn settling_commits_or_splits() {
    let mut exec = load(env(), &[], &[]);
    let op = OpCode::new(1, MajorType::Hart, 100);
    let end = OpCodeResult::new(0x500, Some(ExitCode::Halted(1)), 16);
    assert_eq!(exec.settle(&op, end), Ok(Some(ExitCode::Halted(1))));
    assert_eq!(exec.pc(), 0x500);
    assert_eq!(exec.total_cycles(), 76 + 116);
    assert_eq!(
        exec.settle(&op, OpCodeResult::new(0x600, None, 7901)),
        Ok(Some(ExitCode::SystemSplit))
    );
    assert_eq!(exec.pc(), 0x500);
    assert_eq!(exec.settle(&op, OpCodeResult::new(0x600, None, 7900)), Ok(None));
    assert_eq!(exec.total_cycles(), 8192);
}

#[test]
fn faults_are_dropped() {
    let mut exec = load(env(), &[], &[]);
    let fault = HartFault::FetchError(4);
    assert_eq!(exec.fault(fault), Err(ExecError::InstructionFailed(fault)));
    let mut e = env();
    e.fault_proof = true;
    assert_eq!(load(e, &[], &[]).fault(fault), Ok(Some(ExitCode::Fault)));
}

#[test]
fn answers_and_states_are_stored() {
    let mut exec = load(env(), &[], &[]);
    let r = exec.answer_syscall(0x2000, 5, Ok(reply(vec![3], &[]))).unwrap();
    assert_eq!((r.pc, r.exit_code, r.extra_cycles), (ENTRY + 4, None, 1 + 8 + 1));
    assert_eq!(exec.monitor().peek_u8(0x2000), 3);
    assert_eq!(exec.answer_syscall(0, 0, Err(ExecError::Host(4))).err(), Some(ExecError::Host(4)));
    let state: Vec<u32> = vec![0x0102_0304; 8];
    let r = exec.store_sha_state(0x3000, &state, 2).unwrap();
    assert_eq!((r.pc, r.exit_code, r.extra_cycles), (ENTRY + 4, None, 146));
    assert_eq!(exec.monitor().peek_u8(0x3000), 1);
    assert_eq!(exec.monitor().peek_u8(0x3003), 4);
    assert_eq!(
        exec.store_sha_state(0x400 - 1, &state, 2).err(),
        Some(ExecError::InvalidGuestAddress(0x3ff))
    );
}
