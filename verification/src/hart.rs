//! One instruction of a RISC-V hart, on a few words of memory.
use crate::types::HartFault;
use rrs_lib::instruction_executor::{InstructionException, InstructionExecutor};
use rrs_lib::memories::{MemorySpace, VecMemory};
use rrs_lib::{HartState, MemAccessSize, Memory};
use vstd::prelude::*;

verus! {

/// The memory of `rrs_lib` that is put together from pieces.
#[verifier::external_type_specification]
#[verifier::external_body]
pub struct ExMemorySpace(MemorySpace);

/// The words that a memory is put together from, by their addresses.
pub uninterp spec fn space_words(space: MemorySpace) -> Map<u32, u32>;

/// The highest address that a word of a memory may have, with room for the
/// arithmetic that `rrs_lib` does on addresses.
pub const SPACE_MAX: u32 = 0xffff_0000;

/// No words at all.
pub open spec fn no_words() -> Map<u32, u32> {
    Map::empty()
}

/// Whether all words of a memory lie where they may.
pub open spec fn space_wf(words: Map<u32, u32>) -> bool {
    forall|a: u32| #[trigger] words.contains_key(a) ==> a % 4 == 0 && a <= SPACE_MAX
}

/// A hart after an instruction.
#[derive(Debug)]
pub struct HartStep {
    pub registers: [u32; 32],
    pub pc: u32,
    /// The register that was written, if any was.
    pub written: Option<usize>,
}

/// The model of a [`HartStep`].
#[verifier::ext_equal]
pub struct HartStepView {
    pub registers: Seq<u32>,
    pub pc: u32,
    pub written: Option<usize>,
}

impl View for HartStep {
    type V = HartStepView;

    open spec fn view(&self) -> HartStepView {
        HartStepView { registers: self.registers@, pc: self.pc, written: self.written }
    }
}

/// A step or a fault.
pub open spec fn step_view(r: Result<HartStep, HartFault>) -> Result<HartStepView, HartFault> {
    match r {
        Ok(s) => Ok(s@),
        Err(f) => Err(f),
    }
}

/// What `step` of `rrs_lib`'s `InstructionExecutor` comes to, and the words of
/// memory after it, on a hart with these registers at `pc` that sees `words`.
pub uninterp spec fn hart_stepped(registers: Seq<u32>, pc: u32, words: Map<u32, u32>) -> (
    Result<HartStepView, HartFault>,
    Map<u32, u32>,
);

/// A memory without any words, by `MemorySpace::new` of `rrs_lib`.
#[verifier::external_body]
fn new_space() -> (r: MemorySpace)
    ensures
        space_words(r) == no_words(),
{
    MemorySpace::new()
}

/// Adds a word to a memory, by `add_memory` of `rrs_lib`'s `MemorySpace`, which
/// takes a piece where there is none yet.
#[verifier::external_body]
fn map_word(space: &mut MemorySpace, addr: u32, word: u32)
    requires
        space_wf(space_words(*old(space))),
        !space_words(*old(space)).contains_key(addr),
        addr % 4 == 0,
        addr <= SPACE_MAX,
    ensures
        space_words(*final(space)) == space_words(*old(space)).insert(addr, word),
{
    space.add_memory(addr, 4, Box::new(VecMemory::new(vec![word]))).unwrap();
}

/// The word of a memory at `addr`, by `read_mem` of `rrs_lib`'s `MemorySpace`.
#[verifier::external_body]
fn space_word(space: &mut MemorySpace, addr: u32) -> (r: Option<u32>)
    requires
        space_wf(space_words(*old(space))),
        addr % 4 == 0,
    ensures
        space_words(*final(space)) == space_words(*old(space)),
        r is Some <==> space_words(*old(space)).contains_key(addr),
        r is Some ==> r->Some_0 == space_words(*old(space))[addr],
{
    space.read_mem(addr, MemAccessSize::Word)
}

/// Executes one instruction by `step` of `rrs_lib`'s `InstructionExecutor`. What
/// it comes to depends on the registers, the program counter and the words of
/// memory alone. The register that is written, if there is one, is one of the
/// hart's, and memory has words where it had words before. A load or a store
/// cannot access a byte only where no word of memory holds it.
#[verifier::external_body]
fn hart_step(space: &mut MemorySpace, registers: [u32; 32], pc: u32) -> (r: Result<
    HartStep,
    HartFault,
>)
    requires
        space_wf(space_words(*old(space))),
        pc % 4 == 0,
        pc <= SPACE_MAX,
    ensures
        (step_view(r), space_words(*final(space))) == hart_stepped(
            registers@,
            pc,
            space_words(*old(space)),
        ),
        space_words(*final(space)).dom() == space_words(*old(space)).dom(),
        r matches Ok(s) ==> (s.written matches Some(idx) ==> idx < 32),
        r matches Err(HartFault::LoadAccessFault(addr)) ==> !space_words(*old(space)).contains_key(
            (addr - addr % 4) as u32,
        ),
        r matches Err(HartFault::StoreAccessFault(addr)) ==> !space_words(*old(space)).contains_key(
            (addr - addr % 4) as u32,
        ),
{
    let mut hart = HartState { registers, pc, last_register_write: None };
    match (InstructionExecutor { mem: space, hart_state: &mut hart }).step() {
        Ok(()) => Ok(HartStep { registers: hart.registers, pc: hart.pc, written: hart.last_register_write }),
        Err(InstructionException::IllegalInstruction(pc, insn)) => Err(HartFault::IllegalInstruction(pc, insn)),
        Err(InstructionException::FetchError(addr)) => Err(HartFault::FetchError(addr)),
        Err(InstructionException::LoadAccessFault(addr)) => Err(HartFault::LoadAccessFault(addr)),
        Err(InstructionException::StoreAccessFault(addr)) => Err(HartFault::StoreAccessFault(addr)),
        Err(InstructionException::AlignmentFault(addr)) => Err(HartFault::AlignmentFault(addr)),
    }
}

/// What one instruction changed in the words that it was given.
#[derive(Debug)]
pub struct HartRun {
    pub step: HartStep,
    /// The word that the instruction was fetched from.
    pub code: u32,
    /// The other word, if one was given.
    pub data: u32,
}

/// The words of a memory that holds `code` at `pc`, and `word` at `addr` if that
/// is given.
pub open spec fn seen(pc: u32, code: u32, data: Option<(u32, u32)>) -> Map<u32, u32> {
    let alone = no_words().insert(pc, code);
    match data {
        Some((addr, word)) => alone.insert(addr, word),
        None => alone,
    }
}

/// Executes the instruction `code` at `pc` on a hart that sees no other memory
/// than the word `data`, if that is given.
pub fn run_instruction(
    registers: [u32; 32],
    pc: u32,
    code: u32,
    data: Option<(u32, u32)>,
) -> (r: Result<HartRun, HartFault>)
    requires
        pc % 4 == 0,
        pc <= SPACE_MAX,
        data matches Some((addr, _)) ==> addr % 4 == 0 && addr <= SPACE_MAX && addr != pc,
    ensures
        ({
            let (outcome, words) = hart_stepped(registers@, pc, seen(pc, code, data));
            match r {
                Ok(run) => {
                    &&& outcome == Ok::<HartStepView, HartFault>(run.step@)
                    &&& run.code == words[pc]
                    &&& run.data == (match data {
                        Some((addr, _)) => words[addr],
                        None => 0,
                    })
                    &&& (run.step.written matches Some(idx) ==> idx < 32)
                },
                Err(f) => outcome == Err::<HartStepView, HartFault>(f),
            }
        }),
        r matches Err(HartFault::LoadAccessFault(addr)) ==> addr - addr % 4 != pc,
        r matches Err(HartFault::StoreAccessFault(addr)) ==> addr - addr % 4 != pc,
{
    let mut space = new_space();
    map_word(&mut space, pc, code);
    if let Some((addr, word)) = data {
        map_word(&mut space, addr, word);
    }
    assert(space_words(space) == seen(pc, code, data));
    match hart_step(&mut space, registers, pc) {
        Ok(step) => {
            assert(space_words(space).dom().contains(pc));
            let code_after: u32 = space_word(&mut space, pc).unwrap();
            let data_after: u32 = match data {
                Some((addr, _)) => {
                    assert(space_words(space).dom().contains(addr));
                    space_word(&mut space, addr).unwrap()
                },
                None => 0,
            };
            Ok(HartRun { step, code: code_after, data: data_after })
        },
        Err(f) => Err(f),
    }
}

} // verus!
