//! Guest memory, and the small parts that the executor is built from.
use zkvm_executor::bigint::mul_mod;
use zkvm_executor::ecall::{absorb_blocks, apply_step, load_regions, run_hart, store_answer};
use zkvm_executor::hart::{run_instruction, HartStep};
use zkvm_executor::monitor::{MemoryImage, MemoryMonitor, Program};
use zkvm_executor::platform::{align_up, is_guest_memory, log2_ceil};
use zkvm_executor::segment::Journal;
use zkvm_executor::types::{
    collect_claims, fit_words, Assumption, Claim, CycleCosts, ExecError, ExitCode, HartFault,
    MajorType, OpCode, OpCodeResult, Receipt, SyscallRecord, TraceEvent,
};
use zkvm_executor::words::{
    word_from_le, words_from_be_bytes, words_from_le_bytes, words_to_be_bytes, words_to_le_bytes,
};

const COSTS: CycleCosts = CycleCosts {
    init_cycles: 1,
    fini_cycles: 1,
    zk_cycles: 1,
    page_read_cycles: 10,
    page_write_cycles: 20,
};

fn monitor(trace: bool) -> MemoryMonitor {
    MemoryMonitor::new(MemoryImage::empty(0x400), trace, &COSTS)
}

fn number(low: u64) -> Vec<u8> {
    let mut bytes = low.to_le_bytes().to_vec();
    bytes.resize(32, 0);
    bytes
}

#[test]
fn words_are_little_endian() {
    assert_eq!(word_from_le(1, 2, 3, 4), 0x0403_0201);
    assert_eq!(words_to_le_bytes(&vec![0x0403_0201]), vec![1, 2, 3, 4]);
    assert_eq!(words_to_be_bytes(&vec![0x0403_0201]), vec![4, 3, 2, 1]);
    assert_eq!(words_from_le_bytes(&vec![1, 2, 3, 4]), vec![0x0403_0201]);
    assert_eq!(words_from_be_bytes(&vec![1, 2, 3, 4]), vec![0x0102_0304]);
}

#[test]
fn numbers_are_rounded_up() {
    assert_eq!([0, 1, 4, 5].map(|n| align_up(n, 4)), [0, 4, 4, 8]);
    assert_eq!([0, 1, 2, 3, 4, 5, 8192, 8193].map(log2_ceil), [0, 0, 1, 2, 2, 3, 13, 14]);
}

#[test]
fn guest_memory_has_bounds() {
    assert!(!is_guest_memory(0x3ff));
    assert!(is_guest_memory(0x400));
    assert!(is_guest_memory(0x0bff_ffff));
    assert!(!is_guest_memory(0x0c00_0000));
}

#[test]
fn a_read_gives_back_a_write() {
    let mut m = monitor(false);
    assert_eq!(m.store_region_to_guest_memory(0x7fe, &vec![1, 2, 3, 4]), Ok(()));
    assert_eq!(m.load_array_from_guest_addr(0x7fd, 6), Ok(vec![0, 1, 2, 3, 4, 0]));
    assert_eq!(m.store_words(0x1000, &vec![5, 0x0607_0809]), Ok(()));
    assert_eq!(m.load_words(0x1000, 3), Ok(vec![5, 0x0607_0809, 0]));
    assert_eq!(m.load_u32(0x1004), Ok(0x0607_0809));
    assert_eq!(m.peek_u8(0x1004), 9);
    // Pages 1, 2 and 4.
    assert_eq!(m.page_read_cycles(), 30);
    assert_eq!(m.page_write_cycles(), 60);
}

#[test]
fn undo_brings_back_what_was_committed() {
    let mut m = monitor(true);
    m.store_register(3, 4);
    assert_eq!(m.store_u32_to_guest_memory(0x800, 0x0102_0304), Ok(()));
    m.commit(17);
    assert_eq!(m.get_cycle(), 17);
    assert!(m.trace_events().is_empty());
    m.store_register(3, 5);
    assert_eq!(m.store_u32_to_guest_memory(0x800, 9), Ok(()));
    assert_eq!(m.store_u32_to_guest_memory(0x800, 10), Ok(()));
    assert_eq!(m.store_u32_to_guest_memory(0xc00, 9), Ok(()));
    assert_eq!(m.page_write_cycles(), 40);
    assert_eq!(m.trace_events()[0], TraceEvent::RegisterSet { idx: 3, value: 5 });
    assert_eq!(m.trace_events()[1], TraceEvent::MemorySet { addr: 0x800, byte: 9 });
    m.undo();
    assert_eq!(m.load_register(3), 4);
    assert_eq!(m.load_u32(0x800), Ok(0x0102_0304));
    assert_eq!(m.peek_u8(0xc00), 0);
    assert_eq!(m.page_write_cycles(), 20);
    m.undo();
    assert_eq!(m.load_register(3), 4);
    assert_eq!(m.faults().writes.len(), 1);
}

#[test]
fn a_new_segment_keeps_the_guest() {
    let mut m = monitor(false);
    assert_eq!(m.store_u32_to_guest_memory(0x800, 7), Ok(()));
    m.commit(5);
    m.clear_segment();
    assert_eq!((m.page_read_cycles(), m.page_write_cycles()), (0, 0));
    assert_eq!(m.get_cycle(), 5);
    assert_eq!(m.peek_u8(0x800), 7);
    m.clear_session();
    assert_eq!(m.get_cycle(), 0);
    let image = m.build_image(0x444);
    assert_eq!(image.pc(), 0x444);
    assert_eq!(MemoryMonitor::new(image, false, &COSTS).peek_u8(0x800), 7);
}

#[test]
fn addresses_are_checked() {
    let mut m = monitor(false);
    assert_eq!(m.load_u32(0x3fc), Err(ExecError::InvalidGuestAddress(0x3fc)));
    assert_eq!(m.load_u32(0x401), Err(ExecError::UnalignedAddress(0x401)));
    assert_eq!(m.load_words(0x0bff_fffc, 2), Err(ExecError::InvalidGuestAddress(0x0c00_0000)));
    assert_eq!(
        m.load_array_from_guest_addr(0x0bff_ffff, 2),
        Err(ExecError::InvalidGuestAddress(0x0c00_0000))
    );
    assert_eq!(m.load_guest_addr_from_register(1), Err(ExecError::InvalidGuestAddress(0)));
    m.store_register(1, 0x400);
    assert_eq!(m.load_guest_addr_from_register(1), Ok(0x400));
    assert_eq!(
        m.store_words(0x0bff_fffc, &vec![1, 2]),
        Err(ExecError::InvalidGuestAddress(0x0c00_0000))
    );
}

#[test]
fn strings_end_with_a_zero() {
    let mut m = monitor(false);
    let text = "gr\u{fc}n".to_string();
    assert_eq!(m.store_region_to_guest_memory(0x800, &text.clone().into_bytes()), Ok(()));
    assert_eq!(m.load_string_from_guest_memory(0x800), Ok(text));
    assert_eq!(m.store_region_to_guest_memory(0x900, &vec![0xc3, 0x28]), Ok(()));
    assert_eq!(m.load_string_from_guest_memory(0x900), Err(ExecError::InvalidSyscallName));
    assert_eq!(m.store_region_to_guest_memory(0x0bff_ffff, &vec![65]), Ok(()));
    assert_eq!(
        m.load_string_from_guest_memory(0x0bff_ffff),
        Err(ExecError::InvalidGuestAddress(0x0c00_0000))
    );
}

#[test]
fn programs_are_loaded_into_guest_memory() {
    let program = Program { entry: 0x404, image: vec![(0x400, 1), (0x404, 2), (0x400, 3)] };
    let image = MemoryImage::new(&program).unwrap();
    assert_eq!(image.pc(), 0x404);
    let mut m = MemoryMonitor::new(image, false, &COSTS);
    assert_eq!(m.load_words(0x400, 2), Ok(vec![3, 2]));
    for (addr, e) in [
        (0u32, ExecError::InvalidGuestAddress(0)),
        (0x402, ExecError::UnalignedAddress(0x402)),
    ] {
        let program = Program { entry: 0x400, image: vec![(0x400, 1), (addr, 2)] };
        assert_eq!(MemoryImage::new(&program).err(), Some(e));
    }
}

#[test]
fn products_are_reduced() {
    assert_eq!(mul_mod(&number(7), &number(9), &number(10)), Some(number(3)));
    assert_eq!(mul_mod(&number(7), &number(9), &number(0)), Some(number(63)));
    // 2^255 * 2 modulo 2^64 - 1 is 1, and does not fit without a modulus.
    let mut top = number(0);
    top[31] = 0x80;
    assert_eq!(mul_mod(&top, &number(2), &number(u64::MAX)), Some(number(1)));
    assert_eq!(mul_mod(&top, &number(2), &number(0)), None);
}

#[test]
fn the_hart_sees_what_it_is_given() {
    let mut registers = [0u32; 32];
    registers[3] = 0x2000;
    // lw x4, 0(x3)
    let insn = 3 << 15 | 2 << 12 | 4 << 7 | 0x03;
    let fault = run_instruction(registers, 0x400, insn, None).unwrap_err();
    assert_eq!(fault, HartFault::LoadAccessFault(0x2000));
    let run = run_instruction(registers, 0x400, insn, Some((0x2000, 77))).unwrap();
    assert_eq!(run.step.written, Some(4));
    assert_eq!(run.step.registers[4], 77);
    assert_eq!(run.step.pc, 0x404);
    assert_eq!((run.code, run.data), (insn, 77));
}

#[test]
fn the_hart_runs_on_guest_memory() {
    let mut m = monitor(false);
    m.store_register(3, 0x2000);
    m.store_register(4, 0x55);
    // sw x4, 4(x3)
    let insn = 4 << 20 | 3 << 15 | 2 << 12 | 4 << 7 | 0x23;
    assert_eq!(run_hart(&mut m, 0x400, insn), Ok(0x404));
    assert_eq!(m.load_u32(0x2004), Ok(0x55));
    m.store_register(3, 0);
    assert_eq!(run_hart(&mut m, 0x400, insn), Err(HartFault::StoreAccessFault(4)));
}

#[test]
fn what_the_hart_did_is_taken_over() {
    let mut m = monitor(false);
    let step = HartStep { registers: [6; 32], pc: 0x408, written: Some(7) };
    assert_eq!(apply_step(&mut m, Some((0x800, 9)), &step), 0x408);
    assert_eq!(m.load_register(7), 6);
    assert_eq!(m.load_register(8), 0);
    assert_eq!(m.peek_u8(0x800), 9);
}

#[test]
fn no_block_leaves_the_state() {
    let mut m = monitor(false);
    assert_eq!(absorb_blocks(&mut m, vec![3; 8], 0x400, 0x400, 0), Ok(vec![3; 8]));
    assert_eq!(m.page_read_cycles(), 0);
    assert_eq!(
        absorb_blocks(&mut m, vec![3; 8], 0x402, 0x400, 1),
        Err(ExecError::UnalignedAddress(0x402))
    );
    let state = absorb_blocks(&mut m, vec![3; 8], 0x400, 0x420, 1).unwrap();
    assert_eq!(state.len(), 8);
    assert_ne!(state, vec![3; 8]);
}

#[test]
fn blocks_are_absorbed_one_after_the_other() {
    let mut m = monitor(false);
    let text: Vec<u8> = (0..128).collect();
    assert_eq!(m.store_region_to_guest_memory(0x800, &text), Ok(()));
    let both = absorb_blocks(&mut m, vec![3; 8], 0x800, 0x820, 2).unwrap();
    let first = absorb_blocks(&mut m, vec![3; 8], 0x800, 0x820, 1).unwrap();
    let second = absorb_blocks(&mut m, first.clone(), 0x840, 0x860, 1).unwrap();
    assert_eq!(both, second);
    assert_ne!(both, first);
}

#[test]
fn regions_are_read_in_turn() {
    let mut m = monitor(false);
    assert_eq!(
        load_regions(&mut m, &vec![(0x400, 1), (0, 1), (0x800, 1)]),
        Err(ExecError::InvalidGuestAddress(0))
    );
    assert_eq!(m.page_read_cycles(), 10);
    assert_eq!(load_regions(&mut m, &vec![(0x800, 1), (0, 0)]), Ok(()));
    assert_eq!(m.page_read_cycles(), 20);
}

#[test]
fn an_answer_without_a_pointer_is_not_stored() {
    let mut m = monitor(false);
    let record = SyscallRecord { to_guest: vec![1, 2], regs: (3, 4) };
    assert_eq!(store_answer(&mut m, 0, &record), Ok(()));
    assert_eq!((m.load_register(10), m.load_register(11)), (3, 4));
    assert_eq!(m.page_write_cycles(), 0);
    assert_eq!(
        store_answer(&mut m, 0x0bff_fffc, &record),
        Err(ExecError::InvalidGuestAddress(0x0c00_0000))
    );
}

#[test]
fn the_journal_collects_bytes() {
    let mut journal = Journal::new();
    assert_eq!(journal.write(&vec![1, 2]), 2);
    assert_eq!(journal.write(&vec![]), 0);
    journal.flush();
    assert_eq!(journal.write(&vec![3]), 1);
    assert_eq!(journal.take(), vec![1, 2, 3]);
    assert_eq!(journal.take(), Vec::<u8>::new());
}

#[test]
fn claims_are_collected_in_order() {
    let claims = [Claim { digest: [1; 32] }, Claim { digest: [2; 32] }];
    let assumptions = vec![
        Assumption::Unresolved(claims[0]),
        Assumption::Proven(Receipt { claim: Some(claims[1]) }),
    ];
    let collected = collect_claims(&assumptions).unwrap();
    assert_eq!(collected.iter().map(|c| c.digest[0]).collect::<Vec<u8>>(), vec![1, 2]);
    let unclaimed = vec![Assumption::Proven(Receipt { claim: None })];
    assert_eq!(collect_claims(&unclaimed).err(), Some(ExecError::MissingClaim));
}

#[test]
fn small_values_are_what_they_are_made_of() {
    assert_eq!(fit_words(&vec![1, 2, 3], 2), vec![1, 2]);
    assert_eq!(fit_words(&vec![1], 3), vec![1, 0, 0]);
    let r = OpCodeResult::new(4, Some(ExitCode::Fault), 9);
    assert_eq!((r.pc, r.exit_code, r.extra_cycles), (4, Some(ExitCode::Fault), 9));
    let op = OpCode::new(5, MajorType::ECall, 6);
    assert_eq!((op.insn(), op.major(), op.cycles()), (5, MajorType::ECall, 6));
    assert!(ExitCode::Halted(0).expects_output());
    assert!(ExitCode::Paused(0).expects_output());
    assert!(!ExitCode::Fault.expects_output());
    assert!(!ExitCode::SystemSplit.expects_output());
    assert!(!ExitCode::SessionLimit.expects_output());
}
