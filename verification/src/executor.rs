//! The executor: it runs a guest program to find out how its proof is to be
//! divided into segments.
use crate::bigint::mul_mod;
use crate::ecall::{absorb_blocks, load_regions, run_hart, store_answer};
use crate::guest::{program_image, word_error, GuestView, ImageView, MonitorView};
use crate::host::{
    can_ask, can_step, decode_of, host, keep_of, may_keep, may_reply, may_settle, stores_at, syscall_of, trace_of, HostView,
};
use crate::laws::law_step;
use crate::monitor::{MemoryImage, MemoryMonitor, Program};
use crate::platform::{
    align_up, is_guest_memory, is_log2_ceil, lemma_log2_ceil_unique, log2_ceil, BIGINT_CYCLES, BIGINT_WIDTH_WORDS,
    DEFAULT_SEGMENT_LIMIT_PO2, DIGEST_BYTES, ECALL_BIGINT, ECALL_HALT, ECALL_INPUT, ECALL_SHA,
    ECALL_SOFTWARE, GUEST_MAX_MEM, HALT_PAUSE, HALT_TERMINATE, MAX_CYCLES_PO2, MIN_CYCLES_PO2, REG_A0, REG_A1,
    REG_A2, REG_A3, REG_A4, REG_T0, SHA_CYCLES, WORD_SIZE,
};
use crate::segment::{
    journal_view, records_view, Journal, Output, Segment, SegmentView, Session, SessionView,
};
use crate::session::{
    can_run, can_tell, can_turn, closes, given_to, gives, hands_on, loops, may_give, runs, stops, takes, Turn,
};
use crate::state::{zero_digest, ExecView, FinishView};
use crate::turns::{
    leads, lemma_lined_up_first, lemma_lined_up_reachable, lemma_taken_failed, lemma_taken_gives,
    lemma_taken_on, lemma_taken_split, lemma_taken_stops, lemma_turn_taken, lined_up,
};
use crate::types::{
    collect_claims, fit_words, record_view, reply_view, viewed, Assumption, Claim, CycleCosts, EnvView,
    ErrorView, ExecError, ExecutorEnv,
    ExitCode, HartFault, MajorType, OpCode, OpCodeResult, SyscallRecord, SyscallReply,
    SyscallReplyView, SyscallRequest, TraceEvent,
};
use crate::words::{words_from_be_bytes, words_from_le_bytes, words_to_be_bytes, words_to_le_bytes};
use vstd::arithmetic::power2::*;
use vstd::prelude::*;

verus! {

/// The Executor provides an implementation for the execution phase.
///
/// Before a guest program is proven, the executor is responsible for deciding
/// where it should be split into segments and what work will be done in each
/// segment. A segment that is complete is handed to the host, and `R` is what
/// the host makes of it.
pub struct ExecutorImpl<R> {
    env: ExecutorEnv,
    pre_image: Option<MemoryImage>,
    monitor: MemoryMonitor,
    pc: u32,
    init_cycles: u64,
    body_cycles: u64,
    segment_limit: u64,
    segment_cycle: u64,
    segments: Vec<R>,
    insn_counter: u32,
    split_insn: Option<u32>,
    const_cycles: u64,
    pending_syscall: Option<SyscallRecord>,
    syscalls: Vec<SyscallRecord>,
    exit_code: Option<ExitCode>,
    output_digest: Option<Vec<u8>>,
    journal: Journal,
    assumptions: Vec<Assumption>,
    traced: Vec<TraceEvent>,
}

/// An image, where there is one.
pub open spec fn image_view(image: Option<MemoryImage>) -> Option<ImageView> {
    match image {
        Some(i) => Some(i@),
        None => None,
    }
}

/// A digest, where there is one.
pub open spec fn digest_view(digest: Option<Vec<u8>>) -> Option<Seq<u8>> {
    match digest {
        Some(d) => Some(d@),
        None => None,
    }
}

impl<R> View for ExecutorImpl<R> {
    type V = ExecView<R>;

    closed spec fn view(&self) -> ExecView<R> {
        ExecView {
            env: self.env@,
            pre_image: image_view(self.pre_image),
            monitor: self.monitor@,
            pc: self.pc,
            init_cycles: self.init_cycles as nat,
            body_cycles: self.body_cycles as nat,
            segment_limit: self.segment_limit as nat,
            segment_cycle: self.segment_cycle as nat,
            segments: self.segments@,
            insn_counter: self.insn_counter,
            split_insn: self.split_insn,
            const_cycles: self.const_cycles as nat,
            pending_syscall: record_view(self.pending_syscall),
            syscalls: records_view(self.syscalls@),
            exit_code: self.exit_code,
            output_digest: digest_view(self.output_digest),
            journal: self.journal@,
            assumptions: self.assumptions@,
            traced: self.traced@,
        }
    }
}

/// An executor before its first segment.
pub open spec fn fresh<R>(
    env: EnvView,
    image: ImageView,
    costs: CycleCosts,
) -> ExecView<R> {
    let guest = GuestView {
        mem: image.mem,
        regs: image.regs,
        reads: Set::empty(),
        writes: Set::empty(),
    };
    ExecView {
        env,
        pre_image: Some(image),
        monitor: MonitorView {
            now: guest,
            saved: guest,
            events: Seq::empty(),
            trace: env.trace,
            cycle: 0,
            page_read_cost: costs.page_read_cycles,
            page_write_cost: costs.page_write_cycles,
        },
        pc: image.pc,
        init_cycles: costs.init_cycles as nat,
        body_cycles: 0,
        segment_limit: pow2(env.limit_po2() as nat),
        segment_cycle: costs.init_cycles as nat,
        segments: Seq::empty(),
        insn_counter: 0,
        split_insn: None,
        const_cycles: costs.const_cycles(),
        pending_syscall: None,
        syscalls: Seq::empty(),
        exit_code: None,
        output_digest: None,
        journal: Seq::empty(),
        assumptions: Seq::empty(),
        traced: Seq::empty(),
    }
}

/// The executor that is made of these, unless the segment limit is out of bounds.
pub open spec fn created<R>(env: EnvView, image: ImageView, costs: CycleCosts) -> Result<
    ExecView<R>,
    ErrorView,
> {
    if MIN_CYCLES_PO2 <= env.limit_po2() <= MAX_CYCLES_PO2 {
        Ok(fresh(env, image, costs))
    } else {
        Err(ErrorView::InvalidSegmentLimit(env.limit_po2()))
    }
}

/// An executor or an error.
pub open spec fn exec_result<R>(r: Result<ExecutorImpl<R>, ExecError>) -> Result<
    ExecView<R>,
    ErrorView,
> {
    match r {
        Ok(exec) => Ok(exec@),
        Err(e) => Err(e@),
    }
}

/// The number of cycles of a segment of `2^po2` cycles.
fn cycles_of_po2(po2: u32) -> (r: u64)
    requires
        po2 <= MAX_CYCLES_PO2,
    ensures
        r == pow2(po2 as nat),
        r <= 0x100_0000,
{
    proof {
        lemma2_to64();
        vstd::bits::lemma_u64_shl_is_mul(1, po2 as u64);
        crate::platform::lemma_pow2_monotone(po2 as nat, 24);
    }
    1u64 << po2
}

impl<R> ExecutorImpl<R> {
    /// The executor is in order.
    pub closed spec fn wf(&self) -> bool {
        &&& self.monitor.wf()
        &&& self@.inv()
    }

    /// What is in order keeps the invariant of the model, which the laws ask for.
    pub proof fn lemma_wf_inv(&self)
        requires
            self.wf(),
        ensures
            self@.inv(),
    {
    }

    /// Construct a new executor from a memory image.
    ///
    /// `costs` are what the circuit charges for work that is not an instruction.
    pub fn new(env: ExecutorEnv, image: MemoryImage, costs: &CycleCosts) -> (r: Result<
        Self,
        ExecError,
    >)
        ensures
            exec_result(r) == created::<R>(env@, image@, *costs),
            r matches Ok(exec) ==> exec.wf(),
    {
        let segment_limit_po2: u32 = match env.segment_limit_po2 {
            Some(po2) => po2,
            None => DEFAULT_SEGMENT_LIMIT_PO2,
        };
        if segment_limit_po2 < MIN_CYCLES_PO2 || segment_limit_po2 > MAX_CYCLES_PO2 {
            return Err(ExecError::InvalidSegmentLimit(segment_limit_po2));
        }
        let pc: u32 = image.pc();
        let monitor = MemoryMonitor::new(image.clone(), env.trace, costs);
        let init_cycles: u64 = costs.init_cycles as u64;
        let fini_cycles: u64 = costs.fini_cycles as u64;
        let const_cycles: u64 = init_cycles + fini_cycles + SHA_CYCLES + costs.zk_cycles as u64;
        let r = ExecutorImpl {
            env,
            pre_image: Some(image),
            monitor,
            pc,
            init_cycles,
            body_cycles: 0,
            segment_limit: cycles_of_po2(segment_limit_po2),
            segment_cycle: init_cycles,
            segments: Vec::new(),
            insn_counter: 0,
            split_insn: None,
            const_cycles,
            pending_syscall: None,
            syscalls: Vec::new(),
            exit_code: None,
            output_digest: None,
            journal: Journal::new(),
            assumptions: Vec::new(),
            traced: Vec::new(),
        };
        assert(r@ =~= fresh::<R>(env@, image@, *costs));
        proof {
            lemma_untouched_cycles(r@.monitor);
        }
        Ok(r)
    }

    /// Where the guest is.
    pub fn pc(&self) -> (r: u32)
        ensures
            r == self@.pc,
    {
        self.pc
    }

    /// The guest.
    pub fn monitor(&self) -> (r: &MemoryMonitor)
        ensures
            r@ == self@.monitor,
    {
        &self.monitor
    }

    /// What the last instruction did, if anyone listens to that.
    pub fn traced(&self) -> (r: &Vec<TraceEvent>)
        ensures
            r@ == self@.traced,
    {
        &self.traced
    }

    /// The cycles that the segment takes if it ends now.
    pub fn total_cycles(&self) -> (r: u64)
        requires
            self.wf(),
        ensures
            r == self@.total_cycles(),
            r <= 0x0008_0000_0000_0000,
    {
        proof {
            lemma_limit_bound(self@);
        }
        self.const_cycles + self.monitor.page_read_cycles() + self.monitor.page_write_cycles()
            + self.body_cycles
    }

    /// How far the session is.
    pub fn session_cycle(&self) -> (r: u64)
        requires
            self.wf(),
        ensures
            r == self@.session_cycle(),
    {
        proof {
            lemma_session_cycle_bound(self@);
        }
        self.segments.len() as u64 * self.segment_limit + self.segment_cycle
    }
}

/// A segment is not larger than the largest that can be proven.
proof fn lemma_limit_bound<R>(s: ExecView<R>)
    requires
        s.inv(),
    ensures
        0x2000 <= s.segment_limit <= 0x100_0000,
{
    lemma2_to64();
    crate::platform::lemma_pow2_monotone(s.env.limit_po2() as nat, 24);
    crate::platform::lemma_pow2_monotone(13, s.env.limit_po2() as nat);
}

/// The cycles of a session can be counted.
proof fn lemma_session_cycle_bound<R>(s: ExecView<R>)
    requires
        s.inv(),
    ensures
        s.segments.len() * s.segment_limit <= 0x0100_0000_0000_0000,
        s.session_cycle() <= 0x0200_0000_0000_0000,
{
    lemma_limit_bound(s);
    let n = s.segments.len();
    let l = s.segment_limit;
    assert(n * l <= 0x0100_0000_0000_0000) by (nonlinear_arith)
        requires
            n <= 0x1_0000_0000,
            l <= 0x100_0000,
    ;
}

/// A committed instruction leaves the executor in order.
proof fn lemma_advanced_inv<R>(s: ExecView<R>, op: OpCode, r: OpCodeResult)
    requires
        s.inv(),
        op.spec_cycles() > 0,
        s.total_cycles() + op.spec_cycles() + r.extra_cycles <= s.segment_limit,
    ensures
        s.advanced(op, r).inv(),
        s.advanced(op, r).total_cycles() == s.total_cycles() + op.spec_cycles() + r.extra_cycles,
        s.advanced(op, r).monitor.clean(),
        s.advanced(op, r).session_cycle() <= 0x0200_0000_0000_0000,
        s.insn_counter < u32::MAX,
{
    lemma_limit_bound(s);
    lemma_session_cycle_bound(s.advanced(op, r));
}

impl<R> ExecutorImpl<R> {
    /// Commits the instruction `op`, which came to `r`.
    fn advance(&mut self, op: &OpCode, r: OpCodeResult) -> (exit_code: Option<ExitCode>)
        requires
            old(self).wf(),
            old(self)@.total_cycles() + op.spec_cycles() + r.extra_cycles
                <= old(self)@.segment_limit,
        ensures
            final(self).wf(),
            final(self)@ == old(self)@.advanced(*op, r),
            exit_code == r.exit_code,
    {
        let ghost before = self@;
        let cycles: u32 = op.cycles();
        proof {
            lemma_advanced_inv(before, *op, r);
            lemma_limit_bound(before);
        }
        self.traced = Vec::new();
        if self.env.trace {
            let session_cycle: u64 = self.session_cycle();
            let cycle: u32 = (session_cycle % 0x1_0000_0000) as u32;
            self.traced.push(TraceEvent::InstructionStart { cycle, pc: self.pc, insn: op.insn() });
            let mut events = self.monitor.trace_events().clone();
            assert(events@ =~= before.monitor.events);
            self.traced.append(&mut events);
        }
        assert(self.traced@ =~= before.trace_of(*op));
        self.pc = r.pc;
        self.insn_counter = self.insn_counter + 1;
        self.body_cycles = self.body_cycles + cycles as u64 + r.extra_cycles;
        let page_read_cycles: u64 = self.monitor.page_read_cycles();
        self.segment_cycle = self.init_cycles + page_read_cycles + self.body_cycles;
        proof {
            lemma_session_cycle_bound(before);
        }
        self.monitor.commit(self.segments.len() as u64 * self.segment_limit + self.segment_cycle);
        if let Some(syscall) = self.pending_syscall.take() {
            self.syscalls.push(syscall);
        }
        assert(self@.syscalls =~= before.advanced(*op, r).syscalls);
        assert(self@ =~= before.advanced(*op, r));
        r.exit_code
    }
}

impl<R> ExecutorImpl<R> {
    /// Halts or pauses the guest.
    fn ecall_halt(&mut self) -> (r: Result<OpCodeResult, ExecError>)
        requires
            old(self).wf(),
        ensures
            final(self).wf(),
            (final(self)@, viewed(r)) == old(self)@.halted(),
    {
        let tot_reg: u32 = self.monitor.load_register(REG_A0);
        let output_ptr: u32 = match self.monitor.load_guest_addr_from_register(REG_A1) {
            Ok(ptr) => ptr,
            Err(e) => {
                return Err(e);
            },
        };
        let halt_type: u32 = tot_reg & 0xff;
        let user_exit: u32 = (tot_reg >> 8) & 0xff;
        proof {
            assert(tot_reg & 0xff == tot_reg % 0x100) by (bit_vector);
            assert((tot_reg >> 8) & 0xff == (tot_reg / 0x100) % 0x100) by (bit_vector);
        }
        let output: Vec<u8> = match self.monitor.load_array_from_guest_addr(
            output_ptr,
            DIGEST_BYTES as u32,
        ) {
            Ok(output) => output,
            Err(e) => {
                return Err(e);
            },
        };
        self.output_digest = Some(output);
        if halt_type == HALT_TERMINATE {
            Ok(OpCodeResult::new(self.pc, Some(ExitCode::Halted(user_exit)), 0))
        } else if halt_type == HALT_PAUSE {
            Ok(OpCodeResult::new(self.pc, Some(ExitCode::Paused(user_exit)), 0))
        } else {
            Err(ExecError::IllegalHaltType(halt_type))
        }
    }

    /// Reads the input digest.
    fn ecall_input(&mut self) -> (r: Result<OpCodeResult, ExecError>)
        requires
            old(self).wf(),
            old(self)@.pc + WORD_SIZE <= u32::MAX,
        ensures
            final(self).wf(),
            (final(self)@, viewed(r)) == old(self)@.input_read(),
    {
        let in_addr: u32 = match self.monitor.load_guest_addr_from_register(REG_A0) {
            Ok(addr) => addr,
            Err(e) => {
                return Err(e);
            },
        };
        match self.monitor.load_array_from_guest_addr(in_addr, DIGEST_BYTES as u32) {
            Ok(_) => Ok(OpCodeResult::new(self.pc + WORD_SIZE, None, 0)),
            Err(e) => Err(e),
        }
    }

    /// Absorbs blocks of guest memory into a SHA-256 state in guest memory.
    #[verifier::rlimit(40)]
    fn ecall_sha(&mut self) -> (r: Result<OpCodeResult, ExecError>)
        requires
            old(self).wf(),
            old(self)@.pc + WORD_SIZE <= u32::MAX,
        ensures
            final(self).wf(),
            (final(self)@, viewed(r)) == old(self)@.sha_absorbed(),
    {
        let out_state_ptr: u32 = match self.monitor.load_guest_addr_from_register(REG_A0) {
            Ok(ptr) => ptr,
            Err(e) => {
                return Err(e);
            },
        };
        let in_state_ptr: u32 = match self.monitor.load_guest_addr_from_register(REG_A1) {
            Ok(ptr) => ptr,
            Err(e) => {
                return Err(e);
            },
        };
        let block1_ptr: u32 = match self.monitor.load_guest_addr_from_register(REG_A2) {
            Ok(ptr) => ptr,
            Err(e) => {
                return Err(e);
            },
        };
        let block2_ptr: u32 = match self.monitor.load_guest_addr_from_register(REG_A3) {
            Ok(ptr) => ptr,
            Err(e) => {
                return Err(e);
            },
        };
        let count: u32 = self.monitor.load_register(REG_A4);
        let in_state: Vec<u8> = match self.monitor.load_array_from_guest_addr(
            in_state_ptr,
            DIGEST_BYTES as u32,
        ) {
            Ok(bytes) => bytes,
            Err(e) => {
                return Err(e);
            },
        };
        let state: Vec<u32> = words_from_be_bytes(&in_state);
        match absorb_blocks(&mut self.monitor, state, block1_ptr, block2_ptr, count) {
            Ok(state) => self.store_sha_state(out_state_ptr, &state, count),
            Err(e) => Err(e),
        }
    }

    /// Writes a SHA-256 state that has absorbed `count` blocks to guest memory.
    pub fn store_sha_state(&mut self, out_ptr: u32, state: &Vec<u32>, count: u32) -> (r: Result<
        OpCodeResult,
        ExecError,
    >)
        requires
            old(self).wf(),
            old(self)@.pc + WORD_SIZE <= u32::MAX,
        ensures
            final(self).wf(),
            (final(self)@, viewed(r)) == old(self)@.sha_stored(out_ptr, state@, count),
    {
        let bytes: Vec<u8> = words_to_be_bytes(state);
        match self.monitor.store_region_to_guest_memory(out_ptr, &bytes) {
            Ok(()) => Ok(OpCodeResult::new(self.pc + WORD_SIZE, None, SHA_CYCLES * count as u64)),
            Err(e) => Err(e),
        }
    }

    /// Reads inputs `x`, `y` and `n` from guest memory, and writes the output
    /// `x * y` modulo `n`.
    #[verifier::rlimit(40)]
    fn ecall_bigint(&mut self) -> (r: Result<OpCodeResult, ExecError>)
        requires
            old(self).wf(),
            old(self)@.pc + WORD_SIZE <= u32::MAX,
        ensures
            final(self).wf(),
            (final(self)@, viewed(r)) == old(self)@.bigint_multiplied(),
    {
        let z_ptr: u32 = match self.monitor.load_guest_addr_from_register(REG_A0) {
            Ok(ptr) => ptr,
            Err(e) => {
                return Err(e);
            },
        };
        let op: u32 = self.monitor.load_register(REG_A1);
        let x_ptr: u32 = match self.monitor.load_guest_addr_from_register(REG_A2) {
            Ok(ptr) => ptr,
            Err(e) => {
                return Err(e);
            },
        };
        let y_ptr: u32 = match self.monitor.load_guest_addr_from_register(REG_A3) {
            Ok(ptr) => ptr,
            Err(e) => {
                return Err(e);
            },
        };
        let n_ptr: u32 = match self.monitor.load_guest_addr_from_register(REG_A4) {
            Ok(ptr) => ptr,
            Err(e) => {
                return Err(e);
            },
        };
        if op != 0 {
            return Err(ExecError::InvalidBigIntOp(op));
        }
        let x: Vec<u32> = match self.monitor.load_words(x_ptr, BIGINT_WIDTH_WORDS as u32) {
            Ok(words) => words,
            Err(e) => {
                return Err(e);
            },
        };
        let y: Vec<u32> = match self.monitor.load_words(y_ptr, BIGINT_WIDTH_WORDS as u32) {
            Ok(words) => words,
            Err(e) => {
                return Err(e);
            },
        };
        let n: Vec<u32> = match self.monitor.load_words(n_ptr, BIGINT_WIDTH_WORDS as u32) {
            Ok(words) => words,
            Err(e) => {
                return Err(e);
            },
        };
        let z: Vec<u8> = match mul_mod(
            &words_to_le_bytes(&x),
            &words_to_le_bytes(&y),
            &words_to_le_bytes(&n),
        ) {
            Some(z) => z,
            None => {
                return Err(ExecError::BigIntOverflow);
            },
        };
        match self.monitor.store_words(z_ptr, &words_from_le_bytes(&z)) {
            Ok(()) => Ok(OpCodeResult::new(self.pc + WORD_SIZE, None, BIGINT_CYCLES)),
            Err(e) => Err(e),
        }
    }
}

impl<R> ExecutorImpl<R> {
    /// Answers a system call of the guest: with the answer that is still to be
    /// committed, or else with what the host replies.
    #[verifier::rlimit(40)]
    fn ecall_software<S: FnOnce(&SyscallRequest, &MemoryMonitor) -> Result<SyscallReply, ExecError>>(
        &mut self,
        syscall: S,
    ) -> (r: Result<OpCodeResult, ExecError>)
        requires
            old(self).wf(),
            old(self)@.pc + WORD_SIZE <= u32::MAX,
            can_ask(&syscall, old(self)@),
        ensures
            final(self).wf(),
            exists|reply: Result<SyscallReplyView, ErrorView>|
                {
                    &&& old(self)@.may_answer(syscall_of(&syscall), reply)
                    &&& (final(self)@, viewed(r)) == #[trigger] old(self)@.syscall_answered(reply)
                },
    {
        let ghost before = self@;
        let ghost unasked: Result<SyscallReplyView, ErrorView> = Err(ErrorView::InvalidSyscallName);
        let to_guest_ptr: u32 = self.monitor.load_register(REG_A0);
        if !is_guest_memory(to_guest_ptr) && to_guest_ptr != 0 {
            let r: Result<OpCodeResult, ExecError> = Err(
                ExecError::InvalidGuestAddress(to_guest_ptr),
            );
            assert((self@, viewed(r)) == before.syscall_answered(unasked));
            return r;
        }
        let to_guest_words: u32 = self.monitor.load_register(REG_A1);
        let name_ptr: u32 = match self.monitor.load_guest_addr_from_register(REG_A2) {
            Ok(ptr) => ptr,
            Err(e) => {
                let r: Result<OpCodeResult, ExecError> = Err(e);
                assert((self@, viewed(r)) == before.syscall_answered(unasked));
                return r;
            },
        };
        let name: String = match self.monitor.load_string_from_guest_memory(name_ptr) {
            Ok(name) => name,
            Err(e) => {
                let r: Result<OpCodeResult, ExecError> = Err(e);
                assert((self@, viewed(r)) == before.syscall_answered(unasked));
                return r;
            },
        };
        let pending: Option<SyscallRecord> = self.pending_syscall.clone();
        if let Some(record) = pending {
            let r = self.settle_syscall(to_guest_ptr, to_guest_words, &record);
            assert((self@, viewed(r)) == before.syscall_answered(unasked));
            return r;
        }
        if !self.env.has_syscall(&name) {
            let r: Result<OpCodeResult, ExecError> = Err(ExecError::UnknownSyscall(name));
            assert((self@, viewed(r)) == before.syscall_answered(unasked));
            return r;
        }
        let request = SyscallRequest { name, to_guest_words };
        let ghost monitor = self.monitor;
        let reply: Result<SyscallReply, ExecError> = syscall(&request, &self.monitor);
        let ghost view = reply_view(reply);
        assert(may_reply(&syscall, name@, to_guest_words, monitor@, view)) by {
            assert(syscall.ensures((&request, &monitor), reply));
        }
        let r = self.answer_syscall(to_guest_ptr, to_guest_words, reply);
        assert((self@, viewed(r)) == before.syscall_answered(view));
        r
    }

    /// Takes what the host replies to a system call over, and hands it to the
    /// guest.
    pub fn answer_syscall(
        &mut self,
        to_guest_ptr: u32,
        to_guest_words: u32,
        reply: Result<SyscallReply, ExecError>,
    ) -> (r: Result<OpCodeResult, ExecError>)
        requires
            old(self).wf(),
            old(self)@.pc + WORD_SIZE <= u32::MAX,
        ensures
            final(self).wf(),
            (final(self)@, viewed(r)) == old(self)@.host_answered(
                to_guest_ptr,
                to_guest_words,
                reply_view(reply),
            ),
    {
        let ghost before = self@;
        let reply: SyscallReply = match reply {
            Ok(reply) => reply,
            Err(e) => {
                return Err(e);
            },
        };
        match load_regions(&mut self.monitor, &reply.loads) {
            Ok(()) => {},
            Err(e) => {
                return Err(e);
            },
        }
        let ghost view = reply@;
        let record = SyscallRecord {
            to_guest: fit_words(&reply.to_guest, to_guest_words),
            regs: reply.regs,
        };
        self.pending_syscall = Some(record.clone());
        let _ = self.journal.write(&reply.journal);
        let mut assumptions = reply.assumptions;
        self.assumptions.append(&mut assumptions);
        assert(self@ =~= before.with_monitor(self@.monitor).replied(to_guest_words, view));
        self.settle_syscall(to_guest_ptr, to_guest_words, &record)
    }

    /// Hands an answer to the guest. One cycle is for the ecall, one for each
    /// word that was asked for, up to a multiple of the word size, and one for
    /// the two registers.
    fn settle_syscall(&mut self, to_guest_ptr: u32, to_guest_words: u32, record: &SyscallRecord)
        -> (r: Result<OpCodeResult, ExecError>)
        requires
            old(self).wf(),
            old(self)@.pc + WORD_SIZE <= u32::MAX,
        ensures
            final(self).wf(),
            (final(self)@, viewed(r)) == old(self)@.syscall_settled(to_guest_ptr, to_guest_words, record@),
    {
        let chunks: u64 = align_up(to_guest_words as u64, WORD_SIZE as u64);
        match store_answer(&mut self.monitor, to_guest_ptr, record) {
            Ok(()) => Ok(OpCodeResult::new(self.pc + WORD_SIZE, None, 1 + chunks + 1)),
            Err(e) => Err(e),
        }
    }

    /// A call into the execution environment.
    #[verifier::rlimit(40)]
    fn ecall<S: FnOnce(&SyscallRequest, &MemoryMonitor) -> Result<SyscallReply, ExecError>>(
        &mut self,
        syscall: S,
    ) -> (r: Result<OpCodeResult, ExecError>)
        requires
            old(self).wf(),
            old(self)@.pc + WORD_SIZE <= u32::MAX,
            old(self)@.monitor.reg(REG_T0) == ECALL_SOFTWARE ==> can_ask(&syscall, old(self)@),
        ensures
            final(self).wf(),
            exists|reply: Result<SyscallReplyView, ErrorView>|
                {
                    &&& old(self)@.monitor.reg(REG_T0) == ECALL_SOFTWARE ==> old(self)@.may_answer(
                        syscall_of(&syscall),
                        reply,
                    )
                    &&& (final(self)@, viewed(r)) == #[trigger] old(self)@.ecalled(reply)
                },
    {
        let ghost before = self@;
        let ghost unasked: Result<SyscallReplyView, ErrorView> = Err(ErrorView::InvalidSyscallName);
        let call: u32 = self.monitor.load_register(REG_T0);
        if call == ECALL_SOFTWARE {
            let r = self.ecall_software(syscall);
            proof {
                let reply = choose|reply: Result<SyscallReplyView, ErrorView>|
                    {
                        &&& before.may_answer(syscall_of(&syscall), reply)
                        &&& (self@, viewed(r)) == #[trigger] before.syscall_answered(reply)
                    };
                assert((self@, viewed(r)) == before.ecalled(reply));
            }
            return r;
        }
        let r = if call == ECALL_HALT {
            self.ecall_halt()
        } else if call == ECALL_INPUT {
            self.ecall_input()
        } else if call == ECALL_SHA {
            self.ecall_sha()
        } else if call == ECALL_BIGINT {
            self.ecall_bigint()
        } else {
            Err(ExecError::UnknownEcall(call))
        };
        assert((self@, viewed(r)) == before.ecalled(unasked));
        r
    }

    /// Commits the instruction `op`, which came to `r`, unless the segment is
    /// full. In that case the program counter is not moved, no activity is
    /// recorded, and the segment is cut off.
    pub fn settle(&mut self, op: &OpCode, r: OpCodeResult) -> (exit_code: Result<
        Option<ExitCode>,
        ExecError,
    >)
        requires
            old(self).wf(),
            r.extra_cycles <= 0x8000_0000_0000_0000,
        ensures
            final(self).wf(),
            (final(self)@, viewed(exit_code)) == old(self)@.settled(*op, r),
    {
        let total_pending_cycles: u64 = self.total_cycles() + op.cycles() as u64 + r.extra_cycles;
        if total_pending_cycles > self.segment_limit {
            if self.insn_counter == 0 {
                // The first instruction of the segment does not fit, so that it
                // is too large for any.
                return Err(ExecError::SegmentTooSmall(self.pc));
            }
            self.split_insn = Some(self.insn_counter);
            self.monitor.undo();
            Ok(Some(ExitCode::SystemSplit))
        } else {
            Ok(self.advance(op, r))
        }
    }

    /// Drops the instruction in progress, which the hart could not execute.
    pub fn fault(&mut self, fault: HartFault) -> (exit_code: Result<Option<ExitCode>, ExecError>)
        requires
            old(self).wf(),
        ensures
            final(self).wf(),
            (final(self)@, viewed(exit_code)) == old(self)@.faulted(fault),
    {
        self.split_insn = Some(self.insn_counter);
        self.monitor.undo();
        if self.env.fault_proof {
            Ok(Some(ExitCode::Fault))
        } else {
            Err(ExecError::InstructionFailed(fault))
        }
    }
}

/// What executing the instruction in progress may come to.
spec fn executes<R>(
    s: ExecView<R>,
    insn: u32,
    op: OpCode,
    syscall: spec_fn(
        Seq<char>,
        u32,
        MonitorView,
        Result<SyscallReplyView, ErrorView>,
    ) -> bool,
    t: ExecView<R>,
    r: Result<Option<ExitCode>, ErrorView>,
) -> bool {
    exists|reply: Result<SyscallReplyView, ErrorView>|
        {
            &&& op.spec_major() == MajorType::ECall ==> s.monitor.reg(REG_T0) == ECALL_SOFTWARE
                ==> s.may_answer(syscall, reply)
            &&& (t, r) == #[trigger] s.executed(insn, op, reply)
        }
}

impl<R> ExecutorImpl<R> {
    /// Executes the instruction `insn`, decoded as `op`.
    #[verifier::rlimit(40)]
    fn execute<S: FnOnce(&SyscallRequest, &MemoryMonitor) -> Result<SyscallReply, ExecError>>(
        &mut self,
        insn: u32,
        op: &OpCode,
        syscall: S,
    ) -> (r: Result<Option<ExitCode>, ExecError>)
        requires
            old(self).wf(),
            word_error(old(self)@.pc) is None,
            op.spec_major() == MajorType::ECall ==> old(self)@.monitor.reg(REG_T0)
                == ECALL_SOFTWARE ==> can_ask(&syscall, old(self)@),
        ensures
            final(self).wf(),
            executes(old(self)@, insn, *op, syscall_of(&syscall), final(self)@, viewed(r)),
    {
        let ghost before = self@;
        if op.major() == MajorType::ECall {
            let result = self.ecall(syscall);
            let ghost after = self@;
            let ghost reply = choose|reply: Result<SyscallReplyView, ErrorView>|
                {
                    &&& before.monitor.reg(REG_T0) == ECALL_SOFTWARE ==> before.may_answer(
                        syscall_of(&syscall),
                        reply,
                    )
                    &&& (after, viewed(result)) == #[trigger] before.ecalled(reply)
                };
            proof {
                lemma_extra_cycles(before, reply);
            }
            let r = match result {
                Ok(result) => self.settle(op, result),
                Err(e) => Err(e),
            };
            assert((self@, viewed(r)) == before.executed(insn, *op, reply));
            return r;
        }
        let ghost unasked: Result<SyscallReplyView, ErrorView> = Err(ErrorView::InvalidSyscallName);
        let r = match run_hart(&mut self.monitor, self.pc, insn) {
            Ok(pc) => self.settle(op, OpCodeResult::new(pc, None, 0)),
            Err(fault) => self.fault(fault),
        };
        assert((self@, viewed(r)) == before.executed(insn, *op, unasked));
        r
    }

    /// Execute a single instruction.
    ///
    /// This can be directly used by debuggers. `decode` decodes the bits of an
    /// instruction at an address, and `syscall` replies to a system call of the
    /// guest.
    #[verifier::rlimit(40)]
    pub fn step<
        D: FnOnce(u32, u32) -> Result<OpCode, ExecError>,
        S: FnOnce(&SyscallRequest, &MemoryMonitor) -> Result<SyscallReply, ExecError>,
    >(&mut self, decode: D, syscall: S) -> (r: Result<Option<ExitCode>, ExecError>)
        requires
            old(self).wf(),
            can_step(&decode, &syscall, old(self)@),
        ensures
            final(self).wf(),
            exists|decoded: Result<OpCode, ErrorView>, reply: Result<SyscallReplyView, ErrorView>|
                {
                    &&& old(self)@.may_step(
                        decode_of(&decode),
                        syscall_of(&syscall),
                        decoded,
                        reply,
                    )
                    &&& (final(self)@, viewed(r)) == #[trigger] old(self)@.stepped(decoded, reply)
                },
    {
        let ghost before = self@;
        let ghost unasked: Result<SyscallReplyView, ErrorView> = Err(ErrorView::InvalidSyscallName);
        let ghost undecoded: Result<OpCode, ErrorView> = Err(ErrorView::InvalidSyscallName);
        self.traced = Vec::new();
        assert(self@ =~= before.untraced());
        if let Some(limit) = self.env.session_limit {
            if self.session_cycle() >= limit {
                let r: Result<Option<ExitCode>, ExecError> = Ok(Some(ExitCode::SessionLimit));
                assert((self@, viewed(r)) == before.stepped(undecoded, unasked));
                return r;
            }
        }
        let insn: u32 = match self.monitor.load_u32(self.pc) {
            Ok(insn) => insn,
            Err(e) => {
                let r: Result<Option<ExitCode>, ExecError> = Err(e);
                assert((self@, viewed(r)) == before.stepped(undecoded, unasked));
                return r;
            },
        };
        let ghost fetched = self@;
        let decoded: Result<OpCode, ExecError> = decode(insn, self.pc);
        let op: OpCode = match decoded {
            Ok(op) => op,
            Err(e) => {
                let r: Result<Option<ExitCode>, ExecError> = Err(e);
                assert((self@, viewed(r)) == before.stepped(viewed(decoded), unasked));
                return r;
            },
        };
        // Every instruction takes time.
        let _ = op.cycles();
        let r = self.execute(insn, &op, syscall);
        proof {
            let reply = choose|reply: Result<SyscallReplyView, ErrorView>|
                {
                    &&& op.spec_major() == MajorType::ECall ==> fetched.monitor.reg(REG_T0)
                        == ECALL_SOFTWARE ==> fetched.may_answer(syscall_of(&syscall), reply)
                    &&& (self@, viewed(r)) == #[trigger] fetched.executed(insn, op, reply)
                };
            assert((self@, viewed(r)) == before.stepped(viewed(decoded), reply));
        }
        r
    }
}

/// What an ecall takes on top of its instruction can be counted.
proof fn lemma_extra_cycles<R>(s: ExecView<R>, reply: Result<SyscallReplyView, ErrorView>)
    ensures
        s.ecalled(reply).1 matches Ok(r) ==> r.extra_cycles <= 0x8000_0000_0000_0000,
{
}

/// Whether `digest` is that of no output.
fn is_zero_digest(digest: &Vec<u8>) -> (r: bool)
    ensures
        r == (digest@ == zero_digest()),
{
    let mut i: usize = 0;
    if digest.len() != DIGEST_BYTES {
        return false;
    }
    while i < DIGEST_BYTES
        invariant
            i <= DIGEST_BYTES,
            digest@.len() == DIGEST_BYTES,
            forall|k: int| 0 <= k < i ==> digest@[k] == 0,
        decreases DIGEST_BYTES - i,
    {
        if digest[i] != 0 {
            assert(digest@[i as int] != zero_digest()[i as int]);
            return false;
        }
        i = i + 1;
    }
    assert(digest@ =~= zero_digest());
    true
}

/// What the last turn of a run comes to.
pub open spec fn outcome_view(r: Result<(ExitCode, Segment), ExecError>) -> Result<
    (ExitCode, SegmentView),
    ErrorView,
> {
    match r {
        Ok((exit_code, segment)) => Ok((exit_code, segment@)),
        Err(e) => Err(e@),
    }
}

/// A segment or an error.
pub open spec fn segment_view(r: Result<Segment, ExecError>) -> Result<SegmentView, ErrorView> {
    match r {
        Ok(segment) => Ok(segment@),
        Err(e) => Err(e@),
    }
}

/// A session or an error.
pub open spec fn session_view<R>(r: Result<Session<R>, ExecError>) -> Result<
    SessionView<R>,
    ErrorView,
> {
    match r {
        Ok(session) => Ok(session@),
        Err(e) => Err(e@),
    }
}

/// What a run makes of its segments at the end.
struct Finish {
    segment: Segment,
    journal: Option<Vec<u8>>,
    assumptions: Vec<Assumption>,
}

/// What a run makes of its segments at the end, or an error.
spec fn finish_view(r: Result<Finish, ExecError>) -> Result<FinishView, ErrorView> {
    match r {
        Ok(finish) => Ok(
            FinishView {
                segment: finish.segment@,
                journal: journal_view(finish.journal),
                assumptions: finish.assumptions@,
            },
        ),
        Err(e) => Err(e@),
    }
}

impl<R> ExecutorImpl<R> {
    /// Begins a segment from `pre_image`.
    fn split(&mut self, pre_image: Option<MemoryImage>)
        requires
            old(self).wf(),
        ensures
            final(self).wf(),
            final(self)@ == old(self)@.split(image_view(pre_image)),
    {
        self.pre_image = pre_image;
        self.body_cycles = 0;
        self.split_insn = None;
        self.insn_counter = 0;
        self.segment_cycle = self.init_cycles;
        self.monitor.clear_segment();
        proof {
            lemma_untouched_cycles(self@.monitor);
        }
    }

    /// Begins a session.
    fn begin(&mut self) -> (r: Result<(), ExecError>)
        requires
            old(self).wf(),
        ensures
            final(self).wf(),
            (final(self)@, viewed(r)) == old(self)@.begun(),
    {
        if let Some(code) = self.exit_code {
            match code {
                ExitCode::SystemSplit | ExitCode::Paused(_) => {},
                _ => {
                    return Err(ExecError::CannotResume(code));
                },
            }
        }
        let pc: u32 = match &self.pre_image {
            Some(image) => image.pc(),
            None => {
                return Err(ExecError::NoPreImage);
            },
        };
        self.pc = pc;
        self.monitor.clear_session();
        self.journal = Journal::new();
        proof {
            lemma_untouched_cycles(self@.monitor);
        }
        Ok(())
    }

    /// Closes the segment, which ends with `exit_code`.
    #[verifier::rlimit(40)]
    fn seal(&mut self, exit_code: ExitCode) -> (r: Result<Segment, ExecError>)
        requires
            old(self).wf(),
        ensures
            final(self).wf(),
            (final(self)@, segment_view(r)) == old(self)@.sealed(exit_code),
    {
        let ghost before = self@;
        let total_cycles: u64 = self.total_cycles();
        if total_cycles > self.segment_limit {
            return Err(ExecError::SegmentOverLimit);
        }
        let pre_image: MemoryImage = match self.pre_image.take() {
            Some(image) => image,
            None => {
                return Err(ExecError::NoPreImage);
            },
        };
        let post_image: MemoryImage = self.monitor.build_image(self.pc);
        let mut syscalls: Vec<SyscallRecord> = Vec::new();
        syscalls.append(&mut self.syscalls);
        let faults = self.monitor.faults();
        let po2: u32 = log2_ceil(total_cycles);
        proof {
            let chosen = choose|po2: u32| is_log2_ceil(before.total_cycles() as int, po2 as int);
            lemma_log2_ceil_unique(before.total_cycles() as int, po2 as int, chosen as int);
            lemma_limit_bound(before);
            assert(records_view(syscalls@) =~= before.syscalls);
            assert(self@.syscalls =~= Seq::empty());
        }
        let cycles: u32 = self.body_cycles as u32;
        if self.segments.len() as u64 > u32::MAX as u64 {
            return Err(ExecError::TooManySegments);
        }
        Ok(
            Segment {
                pre_image,
                post_image,
                output: None,
                faults,
                syscalls,
                exit_code,
                split_insn: self.split_insn,
                po2,
                index: self.segments.len() as u32,
                cycles,
            },
        )
    }

    /// Ends a session with its last segment.
    #[verifier::rlimit(40)]
    fn finish(&mut self, exit_code: ExitCode, segment: Segment) -> (r: Result<Finish, ExecError>)
        requires
            old(self).wf(),
        ensures
            final(self).wf(),
            (final(self)@, finish_view(r)) == old(self)@.finished(exit_code, segment@),
    {
        let ghost before = self@;
        let mut assumptions: Vec<Assumption> = Vec::new();
        assumptions.append(&mut self.assumptions);
        assert(assumptions@ =~= before.assumptions);
        assert(self@.assumptions =~= Seq::empty());
        let has_journal: bool = match &self.output_digest {
            Some(digest) => !is_zero_digest(digest),
            None => false,
        };
        let journal: Option<Vec<u8>> = if has_journal {
            Some(self.journal.take())
        } else {
            None
        };
        self.exit_code = Some(exit_code);
        let mut segment: Segment = segment;
        if exit_code.expects_output() {
            if let Some(bytes) = &journal {
                let claims: Vec<Claim> = match collect_claims(&assumptions) {
                    Ok(claims) => claims,
                    Err(e) => {
                        return Err(e);
                    },
                };
                let journal: Vec<u8> = bytes.clone();
                assert(journal@ =~= bytes@);
                segment.output = Some(Output { journal, assumptions: claims });
            }
        }
        Ok(Finish { segment, journal, assumptions })
    }
}

impl<R> ExecutorImpl<R> {
    /// Closes the segment after a turn that came to `exit_code`. Either the run goes
    /// on with the next segment, or it stops with the last one or with an error.
    #[verifier::rlimit(40)]
    fn end_turn<F: Fn(Segment) -> Result<R, ExecError>>(
        &mut self,
        exit_code: ExitCode,
        callback: &F,
    ) -> (r: Result<Option<(ExitCode, Segment)>, ExecError>)
        requires
            old(self).wf(),
            exit_code is Paused ==> old(self)@.pc + WORD_SIZE <= u32::MAX,
            forall|given: Segment|
                {
                    &&& exit_code is SystemSplit || exit_code is SessionLimit
                    &&& old(self)@.sealed(exit_code).1 == Ok::<SegmentView, ErrorView>(given@)
                } ==> #[trigger] callback.requires((given,)),
        ensures
            final(self).wf(),
            match r {
                Ok(None) => {
                    &&& exit_code is SystemSplit
                    &&& exists|kept: R| #[trigger]
                        hands_on(keep_of(callback), old(self)@, kept, final(self)@)
                },
                Ok(Some((code, segment))) => stops(
                    keep_of(callback),
                    old(self)@,
                    exit_code,
                    final(self)@,
                    Ok((code, segment@)),
                ),
                Err(e) => stops(
                    keep_of(callback),
                    old(self)@,
                    exit_code,
                    final(self)@,
                    Err(e@),
                ),
            },
    {
        let ghost before = self@;
        let ghost keep = keep_of(callback);
        let segment: Segment = match self.seal(exit_code) {
            Ok(segment) => segment,
            Err(e) => {
                return Err(e);
            },
        };
        let ghost view = segment@;
        match exit_code {
            ExitCode::SystemSplit => {
                let post_image: MemoryImage = segment.post_image.clone();
                let kept: Result<R, ExecError> = callback(segment);
                assert(may_keep(callback, view, viewed(kept)));
                match kept {
                    Ok(kept) => {
                        self.segments.push(kept);
                        self.split(Some(post_image));
                        assert(hands_on(keep, before, kept, self@));
                        Ok(None)
                    },
                    Err(e) => Err(e),
                }
            },
            ExitCode::SessionLimit => {
                let kept: Result<R, ExecError> = callback(segment);
                assert(may_keep(callback, view, viewed(kept)));
                match kept {
                    Ok(kept) => {
                        self.segments.push(kept);
                        assert(keep(view, Ok(kept)));
                        Err(ExecError::SessionLimitExceeded)
                    },
                    Err(e) => Err(e),
                }
            },
            ExitCode::Paused(_) => {
                // Make the executor ready to be run again, behind the instruction
                // that has paused it.
                let pc: u32 = self.pc + WORD_SIZE;
                let resume_image: MemoryImage = segment.post_image.clone().with_pc(pc);
                self.split(Some(resume_image));
                Ok(Some((exit_code, segment)))
            },
            ExitCode::Halted(_) | ExitCode::Fault => Ok(Some((exit_code, segment))),
        }
    }

    /// Takes a turn of a run: a step, of which those who listen are told.
    fn take_turn<
        D: Fn(u32, u32) -> Result<OpCode, ExecError>,
        S: Fn(&SyscallRequest, &MemoryMonitor) -> Result<SyscallReply, ExecError>,
        T: Fn(&Vec<TraceEvent>),
    >(&mut self, decode: &D, syscall: &S, trace: &T) -> (r: Result<Option<ExitCode>, ExecError>)
        requires
            old(self).wf(),
            old(self)@.monitor.clean(),
            can_step(decode, syscall, old(self)@),
            can_tell(decode, syscall, trace, old(self)@),
        ensures
            final(self).wf(),
            exists|turn: Turn<R>| #[trigger]
                leads(
                    decode_of(decode),
                    syscall_of(syscall),
                    trace_of(trace),
                    old(self)@,
                    turn,
                    final(self)@,
                    viewed(r),
                ),
            r is Ok ==> final(self)@.monitor.clean(),
            r == Ok::<Option<ExitCode>, ExecError>(None) ==> final(self)@.body_cycles > old(
                self,
            )@.body_cycles,
            r matches Ok(Some(ExitCode::Paused(_))) ==> final(self)@.pc + WORD_SIZE <= u32::MAX,
            final(self)@.segments == old(self)@.segments,
            final(self)@.segment_limit == old(self)@.segment_limit,
    {
        let ghost before = self@;
        let r: Result<Option<ExitCode>, ExecError> = self.step(decode, syscall);
        let ghost after = self@;
        let ghost (decoded, reply) = choose|
            decoded: Result<OpCode, ErrorView>,
            reply: Result<SyscallReplyView, ErrorView>,
        |
            {
                &&& before.may_step(decode_of(decode), syscall_of(syscall), decoded, reply)
                &&& (after, viewed(r)) == #[trigger] before.stepped(decoded, reply)
            };
        proof {
            law_step(before, decoded, reply);
        }
        if self.traced.len() > 0 {
            trace(&self.traced);
        }
        proof {
            reveal(leads);
            let turn = Turn { s: before, decoded, reply };
            assert(leads(
                decode_of(decode),
                syscall_of(syscall),
                trace_of(trace),
                before,
                turn,
                after,
                viewed(r),
            ));
        }
        r
    }

    /// Takes turn after turn until the run ends with a last segment or fails.
    #[verifier::rlimit(40)]
    fn run_loop<
        D: Fn(u32, u32) -> Result<OpCode, ExecError>,
        S: Fn(&SyscallRequest, &MemoryMonitor) -> Result<SyscallReply, ExecError>,
        T: Fn(&Vec<TraceEvent>),
        F: Fn(Segment) -> Result<R, ExecError>,
    >(&mut self, decode: &D, syscall: &S, trace: &T, callback: &F) -> (r: Result<
        (ExitCode, Segment),
        ExecError,
    >)
        requires
            old(self).wf(),
            old(self)@.monitor.clean(),
            can_turn(
                host(decode, syscall, trace, callback),
                decode,
                syscall,
                trace,
                old(self)@,
            ),
            forall|segment: Segment|
                given_to(host(decode, syscall, trace, callback), old(self)@, segment@)
                    ==> #[trigger] callback.requires((segment,)),
        ensures
            final(self).wf(),
            exists|turns: Seq<Turn<R>>| #[trigger]
                loops(
                    host(decode, syscall, trace, callback),
                    old(self)@,
                    turns,
                    final(self)@,
                    outcome_view(r),
                ),
    {
        let ghost h: HostView<R> = host(decode, syscall, trace, callback);
        let ghost mut turns: Seq<Turn<R>> = Seq::empty();
        proof {
            lemma_lined_up_first(h, self@);
        }
        loop
            invariant
                self.wf(),
                self@.monitor.clean(),
                can_turn(h, decode, syscall, trace, old(self)@),
                forall|segment: Segment|
                    given_to(h, old(self)@, segment@) ==> #[trigger] callback.requires((segment,)),
                h == host(decode, syscall, trace, callback),
                lined_up(h, old(self)@, turns, self@),
            decreases 0x1_0000_0000 - self.segments@.len(), self.segment_limit - self.body_cycles,
        {
            let ghost before = self@;
            proof {
                lemma_lined_up_reachable(h, old(self)@, turns, before);
            }
            let result: Result<Option<ExitCode>, ExecError> = self.take_turn(
                decode,
                syscall,
                trace,
            );
            let ghost after = self@;
            proof {
                let turn = choose|turn: Turn<R>| #[trigger]
                    leads(h.decode, h.syscall, h.trace, before, turn, after, viewed(result));
                lemma_turn_taken(h, old(self)@, turns, before, turn, after, viewed(result));
                turns = turns.push(turn);
            }
            let exit_code: ExitCode = match result {
                Err(e) => {
                    proof {
                        lemma_taken_failed(h, old(self)@, turns, after, e@);
                    }
                    return Err(e);
                },
                Ok(None) => {
                    proof {
                        lemma_taken_on(h, old(self)@, turns, after);
                    }
                    continue;
                },
                Ok(Some(exit_code)) => exit_code,
            };
            assert forall|given: Segment|
                {
                    &&& exit_code is SystemSplit || exit_code is SessionLimit
                    &&& after.sealed(exit_code).1 == Ok::<SegmentView, ErrorView>(given@)
                } implies #[trigger] callback.requires((given,)) by {
                lemma_taken_gives(h, old(self)@, turns, after, exit_code, given@);
            }
            match self.end_turn(exit_code, callback) {
                Ok(None) => {
                    proof {
                        let kept = choose|kept: R| #[trigger]
                            hands_on(h.keep, after, kept, self@);
                        lemma_taken_split(h, old(self)@, turns, after, kept, self@);
                    }
                },
                Ok(Some(outcome)) => {
                    proof {
                        let r = Ok((outcome.0, outcome.1@));
                        lemma_taken_stops(h, old(self)@, turns, after, exit_code, self@, r);
                    }
                    return Ok(outcome);
                },
                Err(e) => {
                    proof {
                        lemma_taken_stops(h, old(self)@, turns, after, exit_code, self@, Err(e@));
                    }
                    return Err(e);
                },
            }
        }
    }
}

impl<R> ExecutorImpl<R> {
    /// Hands the last segment to the host, and gives out the session.
    #[verifier::rlimit(40)]
    fn close<F: Fn(Segment) -> Result<R, ExecError>>(
        &mut self,
        exit_code: ExitCode,
        segment: Segment,
        callback: &F,
    ) -> (r: Result<Session<R>, ExecError>)
        requires
            old(self).wf(),
            forall|given: Segment|
                old(self)@.finished(exit_code, segment@).1 matches Ok(finish) && given@
                    == finish.segment ==> #[trigger] callback.requires((given,)),
        ensures
            final(self).wf(),
            closes(
                keep_of(callback),
                old(self)@,
                exit_code,
                segment@,
                final(self)@,
                session_view(r),
            ),
    {
        let ghost keep = keep_of(callback);
        let post_image: MemoryImage = segment.post_image.clone();
        let finish: Finish = match self.finish(exit_code, segment) {
            Ok(finish) => finish,
            Err(e) => {
                return Err(e);
            },
        };
        let ghost last = finish.segment@;
        let kept: Result<R, ExecError> = callback(finish.segment);
        assert(may_keep(callback, last, viewed(kept)));
        let kept: R = match kept {
            Ok(kept) => kept,
            Err(e) => {
                return Err(e);
            },
        };
        assert(keep(last, Ok(kept)));
        self.segments.push(kept);
        let ghost full = self@.segments;
        let mut segments: Vec<R> = Vec::new();
        segments.append(&mut self.segments);
        assert(segments@ =~= full);
        assert(self@.segments =~= Seq::empty());
        Ok(
            Session {
                segments,
                journal: finish.journal,
                exit_code,
                post_image,
                assumptions: finish.assumptions,
            },
        )
    }
}

impl<R> ExecutorImpl<R> {
    /// Run the executor until [`ExitCode::Halted`], [`ExitCode::Paused`], or
    /// [`ExitCode::Fault`] is reached, producing a [`Session`] as a result.
    ///
    /// `decode` decodes the bits of an instruction at an address, `syscall`
    /// replies to a system call of the guest, `trace` is told of each
    /// instruction if anyone listens, and `callback` takes the segments.
    #[verifier::rlimit(40)]
    pub fn run_with_callback<
        D: Fn(u32, u32) -> Result<OpCode, ExecError>,
        S: Fn(&SyscallRequest, &MemoryMonitor) -> Result<SyscallReply, ExecError>,
        T: Fn(&Vec<TraceEvent>),
        F: Fn(Segment) -> Result<R, ExecError>,
    >(&mut self, decode: &D, syscall: &S, trace: &T, callback: &F) -> (r: Result<
        Session<R>,
        ExecError,
    >)
        requires
            old(self).wf(),
            can_run(
                host(decode, syscall, trace, callback),
                decode,
                syscall,
                trace,
                old(self)@,
            ),
            forall|segment: Segment|
                may_give(host(decode, syscall, trace, callback), old(self)@, segment@)
                    ==> #[trigger] callback.requires((segment,)),
        ensures
            final(self).wf(),
            runs(
                host(decode, syscall, trace, callback),
                old(self)@,
                final(self)@,
                session_view(r),
            ),
    {
        let ghost h: HostView<R> = host(decode, syscall, trace, callback);
        match self.begin() {
            Ok(()) => {},
            Err(e) => {
                return Err(e);
            },
        }
        let ghost begun = self@;
        let outcome: Result<(ExitCode, Segment), ExecError> = self.run_loop(
            decode,
            syscall,
            trace,
            callback,
        );
        let ghost turns = choose|turns: Seq<Turn<R>>| #[trigger]
            loops(h, begun, turns, self@, outcome_view(outcome));
        let (exit_code, segment) = match outcome {
            Ok(outcome) => outcome,
            Err(e) => {
                assert(takes(h, old(self)@, turns, self@, Err(e@)));
                return Err(e);
            },
        };
        assert forall|given: Segment|
            self@.finished(exit_code, segment@).1 matches Ok(finish) && given@
                == finish.segment implies #[trigger] callback.requires((given,)) by {
            assert(gives(turns.last(), given@));
        }
        let r = self.close(exit_code, segment, callback);
        assert(takes(h, old(self)@, turns, self@, session_view(r)));
        r
    }
}

impl<R> ExecutorImpl<R> {
    /// This will run the executor to get a [`Session`] which contain the results
    /// of the execution.
    ///
    /// The segments are kept by `store` at the path that the environment names,
    /// or else in a directory that `tempdir` makes.
    #[verifier::rlimit(40)]
    pub fn run<
        P: Fn() -> Result<String, ExecError>,
        D: Fn(u32, u32) -> Result<OpCode, ExecError>,
        S: Fn(&SyscallRequest, &MemoryMonitor) -> Result<SyscallReply, ExecError>,
        T: Fn(&Vec<TraceEvent>),
        K: Fn(Segment, &String) -> Result<R, ExecError>,
    >(&mut self, tempdir: &P, decode: &D, syscall: &S, trace: &T, store: &K) -> (r: Result<
        Session<R>,
        ExecError,
    >)
        requires
            old(self).wf(),
            old(self)@.env.segment_path is None ==> tempdir.requires(()),
            forall|path: Seq<char>, h: HostView<R>|
                {
                    &&& may_settle(tempdir, old(self)@.env.segment_path, Ok(path))
                    &&& #[trigger] stores_at(h, decode, syscall, trace, store, path)
                } ==> {
                    let s = old(self)@.with_path(path);
                    &&& can_run(h, decode, syscall, trace, s)
                    &&& forall|segment: Segment, at: &String|
                        may_give(h, s, segment@) && at@ == path ==> #[trigger] store.requires(
                            (segment, at),
                        )
                },
        ensures
            final(self).wf(),
            ({
                ||| {
                    &&& r matches Err(e)
                    &&& may_settle(tempdir, old(self)@.env.segment_path, Err(e@))
                    &&& final(self)@ == old(self)@
                }
                ||| exists|path: Seq<char>, h: HostView<R>|
                    {
                        &&& may_settle(tempdir, old(self)@.env.segment_path, Ok(path))
                        &&& #[trigger] stores_at(h, decode, syscall, trace, store, path)
                        &&& runs(h, old(self)@.with_path(path), final(self)@, session_view(r))
                    }
            }),
    {
        let path: String = match &self.env.segment_path {
            Some(path) => path.clone(),
            None => match tempdir() {
                Ok(path) => path,
                Err(e) => {
                    return Err(e);
                },
            },
        };
        self.env.segment_path = Some(path.clone());
        assert(self@ =~= old(self)@.with_path(path@));
        let callback = |segment: Segment| -> (r: Result<R, ExecError>)
            requires
                store.requires((segment, &path)),
            ensures
                store.ensures((segment, &path), r),
            { store(segment, &path) };
        let ghost h: HostView<R> = host(decode, syscall, trace, &callback);
        assert(stores_at(h, decode, syscall, trace, store, path@));
        self.run_with_callback(decode, syscall, trace, &callback)
    }

    /// Construct a new executor from the ELF binary of the guest program you
    /// want to run and an environment containing relevant configuration details.
    ///
    /// `load` makes a program of the binary that does not reach the address that
    /// it is given: the ELF loader belongs to the workspace of the host, whose
    /// crates this library does not depend on. Whoever wants a profile listens to the execution.
    pub fn from_elf<L: Fn(&[u8], u32) -> Result<Program, ExecError>>(
        env: ExecutorEnv,
        elf: &[u8],
        load: &L,
        costs: &CycleCosts,
    ) -> (r: Result<Self, ExecError>)
        requires
            load.requires((elf, GUEST_MAX_MEM)),
        ensures
            exists|program: Result<Program, ExecError>|
                {
                    &&& #[trigger] load.ensures((elf, GUEST_MAX_MEM), program)
                    &&& match program {
                        Err(e) => exec_result(r) == Err::<ExecView<R>, ErrorView>(e@),
                        Ok(p) => match program_image(p.entry, p.image@) {
                            Err(e) => exec_result(r) == Err::<ExecView<R>, ErrorView>(e),
                            Ok(image) => exec_result(r) == created::<R>(
                                env@.listened(),
                                image,
                                *costs,
                            ),
                        },
                    }
                },
            r matches Ok(exec) ==> exec.wf(),
    {
        let program: Program = match load(elf, GUEST_MAX_MEM) {
            Ok(program) => program,
            Err(e) => {
                return Err(e);
            },
        };
        let image: MemoryImage = match MemoryImage::new(&program) {
            Ok(image) => image,
            Err(e) => {
                return Err(e);
            },
        };
        let mut env: ExecutorEnv = env;
        if env.pprof {
            env.trace = true;
        }
        Self::new(env, image, costs)
    }
}

/// Pages that were not touched take no cycles.
proof fn lemma_untouched_cycles(m: MonitorView)
    requires
        m.saved.reads == Set::<u32>::empty(),
        m.saved.writes == Set::<u32>::empty(),
    ensures
        m.undone().read_cycles() == 0,
        m.undone().write_cycles() == 0,
{
    let u = m.undone();
    assert(u.page_read_cost as nat * 0 == 0) by (nonlinear_arith);
    assert(u.page_write_cost as nat * 0 == 0) by (nonlinear_arith);
}

} // verus!
