//! What instructions do to the guest, before they are committed.
use crate::guest::{word_error, MonitorView};
use crate::hart::{run_instruction, HartStep};
use crate::access::seq_result;
use crate::monitor::MemoryMonitor;
use crate::platform::{
    BLOCK_BYTES, BLOCK_WORDS, DIGEST_WORDS, OPCODE_MASK, OPCODE_STORE, REG_A0, REG_A1, WORD_SIZE,
};
use crate::sha::{sha256_compress, sha256_compressed};
use crate::state::{answered, hart_applied, hart_ran, read_regions, sha_rounds};
use crate::types::{viewed, ExecError, HartFault, SyscallRecord};
use crate::words::{le_bytes, words_to_le_bytes};
use vstd::prelude::*;

verus! {

/// Two monitors agree on everything but the instruction in progress.
pub open spec fn same_base(a: MonitorView, b: MonitorView) -> bool {
    &&& a.saved == b.saved
    &&& a.trace == b.trace
    &&& a.cycle == b.cycle
    &&& a.page_read_cost == b.page_read_cost
    &&& a.page_write_cost == b.page_write_cost
}

/// Absorbing blocks commits nothing.
pub proof fn lemma_sha_rounds_base(
    m: MonitorView,
    state: Seq<u32>,
    block1: u32,
    block2: u32,
    count: nat,
)
    ensures
        same_base(m, sha_rounds(m, state, block1, block2, count).0),
    decreases count,
{
    if count > 0 {
        let (m1, first) = m.read_words(block1, BLOCK_WORDS as int);
        let (m2, second) = m1.read_words(block2, DIGEST_WORDS as int);
        if first is Ok && second is Ok {
            lemma_sha_rounds_base(
                m2,
                sha256_compressed(state, le_bytes(first->Ok_0.take(DIGEST_WORDS as int) + second->Ok_0))@,
                (block1 + BLOCK_BYTES) as u32,
                (block2 + BLOCK_BYTES) as u32,
                (count - 1) as nat,
            );
        }
    }
}

/// Absorbs `count` blocks of guest memory into the state `initial`, by halves from `block1`
/// and from `block2` on.
#[verifier::rlimit(40)]
pub fn absorb_blocks(
    monitor: &mut MemoryMonitor,
    initial: Vec<u32>,
    block1: u32,
    block2: u32,
    count: u32,
) -> (r: Result<Vec<u32>, ExecError>)
    requires
        old(monitor).wf(),
        initial@.len() == 8,
    ensures
        final(monitor).wf(),
        (final(monitor)@, seq_result(r)) == sha_rounds(
            old(monitor)@,
            initial@,
            block1,
            block2,
            count as nat,
        ),
        same_base(old(monitor)@, final(monitor)@),
        r matches Ok(words) ==> words@.len() == 8,
{
    let ghost before = monitor@;
    let mut state: Vec<u32> = initial;
    let mut at1: u32 = block1;
    let mut at2: u32 = block2;
    let mut i: u32 = 0;
    proof {
        lemma_sha_rounds_base(before, initial@, block1, block2, count as nat);
    }
    while i < count
        invariant
            i <= count,
            monitor.wf(),
            state@.len() == 8,
            before == old(monitor)@,
            same_base(before, sha_rounds(before, initial@, block1, block2, count as nat).0),
            sha_rounds(monitor@, state@, at1, at2, (count - i) as nat) == sha_rounds(
                before,
                initial@,
                block1,
                block2,
                count as nat,
            ),
        decreases count - i,
    {
        let ghost state0 = state@;
        let mut block: Vec<u32> = match monitor.load_words(at1, BLOCK_WORDS as u32) {
            Ok(words) => words,
            Err(e) => {
                return Err(e);
            },
        };
        let ghost first = block@;
        let mut second: Vec<u32> = match monitor.load_words(at2, DIGEST_WORDS as u32) {
            Ok(words) => words,
            Err(e) => {
                return Err(e);
            },
        };
        let ghost second0 = second@;
        block.truncate(DIGEST_WORDS);
        block.append(&mut second);
        assert(block@ =~= first.take(8) + second0);
        let bytes: Vec<u8> = words_to_le_bytes(&block);
        state = sha256_compress(&state, &bytes);
        at1 = at1 + BLOCK_BYTES;
        at2 = at2 + BLOCK_BYTES;
        i = i + 1;
    }
    Ok(state)
}

/// Reading regions commits nothing.
pub proof fn lemma_read_regions_base(m: MonitorView, loads: Seq<(u32, u32)>)
    ensures
        same_base(m, read_regions(m, loads).0),
    decreases loads.len(),
{
    if loads.len() > 0 {
        lemma_read_regions_base(
            m.read_region(loads[0].0, loads[0].1 as int).0,
            loads.drop_first(),
        );
    }
}

/// Reads regions of guest memory, one after the other.
pub fn load_regions(monitor: &mut MemoryMonitor, loads: &Vec<(u32, u32)>) -> (r: Result<
    (),
    ExecError,
>)
    requires
        old(monitor).wf(),
    ensures
        final(monitor).wf(),
        (final(monitor)@, viewed(r)) == read_regions(old(monitor)@, loads@),
        same_base(old(monitor)@, final(monitor)@),
{
    let ghost before = monitor@;
    let mut i: usize = 0;
    proof {
        assert(loads@.skip(0) =~= loads@);
        lemma_read_regions_base(before, loads@);
    }
    while i < loads.len()
        invariant
            i <= loads@.len(),
            monitor.wf(),
            before == old(monitor)@,
            same_base(before, read_regions(before, loads@).0),
            read_regions(monitor@, loads@.skip(i as int)) == read_regions(before, loads@),
        decreases loads@.len() - i,
    {
        let (addr, len) = loads[i];
        proof {
            let rest = loads@.skip(i as int);
            assert(rest[0] == loads@[i as int]);
            assert(rest.drop_first() =~= loads@.skip(i + 1));
        }
        match monitor.load_array_from_guest_addr(addr, len) {
            Ok(_) => {},
            Err(e) => {
                return Err(e);
            },
        }
        i = i + 1;
    }
    Ok(())
}

/// Hands the answer of a system call to the guest. The pointer is null where
/// the guest sends something to the host: then there is no data to write to
/// guest memory.
pub fn store_answer(monitor: &mut MemoryMonitor, to_guest_ptr: u32, record: &SyscallRecord) -> (r:
    Result<(), ExecError>)
    requires
        old(monitor).wf(),
    ensures
        final(monitor).wf(),
        (final(monitor)@, viewed(r)) == answered(old(monitor)@, to_guest_ptr, record@),
        same_base(old(monitor)@, final(monitor)@),
{
    if to_guest_ptr != 0 {
        let bytes: Vec<u8> = words_to_le_bytes(&record.to_guest);
        match monitor.store_region_to_guest_memory(to_guest_ptr, &bytes) {
            Ok(()) => {},
            Err(e) => {
                return Err(e);
            },
        }
    }
    monitor.store_register(REG_A0, record.regs.0);
    monitor.store_register(REG_A1, record.regs.1);
    Ok(())
}

/// Takes over what the hart has done: the word that it has stored at an address,
/// if it has, and the register that it has written. Gives back where the
/// execution goes on.
pub fn apply_step(monitor: &mut MemoryMonitor, stored: Option<(u32, u32)>, step: &HartStep) -> (pc:
    u32)
    requires
        old(monitor).wf(),
        stored matches Some((addr, _)) ==> word_error(addr) is None,
        step.written matches Some(idx) ==> idx < 32,
    ensures
        final(monitor).wf(),
        (final(monitor)@, Ok::<u32, HartFault>(pc)) == hart_applied(
            old(monitor)@,
            stored,
            step@,
        ),
        same_base(old(monitor)@, final(monitor)@),
{
    if let Some((addr, word)) = stored {
        let _ = monitor.store_u32_to_guest_memory(addr, word);
    }
    if let Some(idx) = step.written {
        monitor.store_register(idx, step.registers[idx]);
    }
    step.pc
}

/// Executes the instruction `insn` at `pc`, which the hart executes by itself.
/// Gives back where the execution goes on, or the fault.
#[verifier::rlimit(40)]
pub fn run_hart(monitor: &mut MemoryMonitor, pc: u32, insn: u32) -> (r: Result<u32, HartFault>)
    requires
        old(monitor).wf(),
        word_error(pc) is None,
    ensures
        final(monitor).wf(),
        (final(monitor)@, r) == hart_ran(old(monitor)@, pc, insn),
        same_base(old(monitor)@, final(monitor)@),
{
    let registers: [u32; 32] = monitor.load_registers();
    let fault: HartFault = match run_instruction(registers, pc, insn, None) {
        Ok(run) => {
            let stored: Option<(u32, u32)> = if insn % OPCODE_MASK == OPCODE_STORE {
                Some((pc, run.code))
            } else {
                None
            };
            return Ok(apply_step(monitor, stored, &run.step));
        },
        Err(fault) => fault,
    };
    let (addr, stores) = match fault {
        HartFault::LoadAccessFault(addr) => (addr, false),
        HartFault::StoreAccessFault(addr) => (addr, true),
        _ => {
            return Err(fault);
        },
    };
    let at: u32 = addr - addr % WORD_SIZE;
    let word: u32 = match monitor.load_u32(at) {
        Ok(word) => word,
        Err(_) => {
            return Err(fault);
        },
    };
    match run_instruction(registers, pc, insn, Some((at, word))) {
        Ok(run) => {
            let stored: Option<(u32, u32)> = if stores {
                Some((at, run.data))
            } else {
                None
            };
            Ok(apply_step(monitor, stored, &run.step))
        },
        Err(fault) => Err(fault),
    }
}

} // verus!
