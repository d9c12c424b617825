//! The model of an executor, and what each of its operations does to it.
use crate::bigint::{le_encoded, product};
use crate::guest::{word_error, ImageView, MonitorView};
use crate::hart::{hart_stepped, seen, HartStepView};
use crate::platform::{
    aligned_up, guest_addr, is_log2_ceil, BIGINT_CYCLES, BIGINT_WIDTH_BYTES,
    BIGINT_WIDTH_WORDS, BLOCK_BYTES, BLOCK_WORDS, DIGEST_BYTES, DIGEST_WORDS, ECALL_BIGINT, ECALL_HALT,
    ECALL_INPUT, ECALL_SHA, ECALL_SOFTWARE, HALT_PAUSE, HALT_TERMINATE, REG_A0, REG_A1, REG_A2,
    REG_A3, REG_A4, REG_T0, MAX_CYCLES_PO2, MIN_CYCLES_PO2, OPCODE_MASK, OPCODE_STORE,
    SHA_CYCLES,
};
use crate::segment::{OutputView, SegmentView, SessionView};
use crate::sha::sha256_compressed;
use crate::types::{
    all_claimed, claims_of, fitted, Assumption, EnvView, ErrorView, ExitCode, HartFault, MajorType,
    OpCode, OpCodeResult, SyscallRecordView, SyscallReplyView, TraceEvent,
};
use crate::words::{be_bytes, be_words, le_bytes, le_value, le_words};
use vstd::arithmetic::power2::pow2;
use vstd::prelude::*;

verus! {

/// The model of an executor.
#[verifier::ext_equal]
#[verifier::reject_recursive_types(R)]
pub struct ExecView<R> {
    pub env: EnvView,
    /// The guest before the segment, unless there is nothing to run.
    pub pre_image: Option<ImageView>,
    pub monitor: MonitorView,
    pub pc: u32,
    /// Cycles to load a segment.
    pub init_cycles: nat,
    /// Cycles of the instructions of the segment.
    pub body_cycles: nat,
    /// Cycles that a segment may take.
    pub segment_limit: nat,
    /// How far the segment is.
    pub segment_cycle: nat,
    /// What the host made of the segments so far.
    pub segments: Seq<R>,
    /// Instructions of the segment.
    pub insn_counter: u32,
    /// Where the segment was cut off.
    pub split_insn: Option<u32>,
    /// Cycles of a segment in which nothing happens.
    pub const_cycles: nat,
    /// The answer to a system call that is still to be committed.
    pub pending_syscall: Option<SyscallRecordView>,
    /// The answers to the system calls of the segment.
    pub syscalls: Seq<SyscallRecordView>,
    /// How the last run ended.
    pub exit_code: Option<ExitCode>,
    /// The digest of its output that the guest gave when it halted.
    pub output_digest: Option<Seq<u8>>,
    pub journal: Seq<u8>,
    /// What was taken for granted about other executions in this session.
    pub assumptions: Seq<Assumption>,
    /// What the last instruction did, if anyone listens to that.
    pub traced: Seq<TraceEvent>,
}

/// The digest of no output.
pub open spec fn zero_digest() -> Seq<u8> {
    Seq::new(DIGEST_BYTES as nat, |i: int| 0u8)
}

/// Whether an instruction stores something to memory.
pub open spec fn is_store(insn: u32) -> bool {
    insn % OPCODE_MASK == OPCODE_STORE
}

/// Absorbs `count` blocks into `state`, of which the first halves lie 64 bytes
/// apart from `block1` on, and the second halves 64 bytes apart from `block2` on.
/// All of the 64 bytes of a first half are read.
pub open spec fn sha_rounds(
    m: MonitorView,
    state: Seq<u32>,
    block1: u32,
    block2: u32,
    count: nat,
) -> (MonitorView, Result<Seq<u32>, ErrorView>)
    decreases count,
{
    if count == 0 {
        (m, Ok(state))
    } else {
        match m.read_words(block1, BLOCK_WORDS as int) {
            (m1, Err(e)) => (m1, Err(e)),
            (m1, Ok(first)) => match m1.read_words(block2, DIGEST_WORDS as int) {
                (m2, Err(e)) => (m2, Err(e)),
                (m2, Ok(second)) => sha_rounds(
                    m2,
                    sha256_compressed(state, le_bytes(first.take(DIGEST_WORDS as int) + second))@,
                    (block1 + BLOCK_BYTES) as u32,
                    (block2 + BLOCK_BYTES) as u32,
                    (count - 1) as nat,
                ),
            },
        }
    }
}

/// Reads regions of memory, one after the other.
pub open spec fn read_regions(m: MonitorView, loads: Seq<(u32, u32)>) -> (
    MonitorView,
    Result<(), ErrorView>,
)
    decreases loads.len(),
{
    if loads.len() == 0 {
        (m, Ok(()))
    } else {
        match m.read_region(loads[0].0, loads[0].1 as int) {
            (m1, Err(e)) => (m1, Err(e)),
            (m1, Ok(_)) => read_regions(m1, loads.drop_first()),
        }
    }
}

/// What comes of handing the answer of a system call to the guest.
pub open spec fn answered(m: MonitorView, to_guest_ptr: u32, record: SyscallRecordView) -> (
    MonitorView,
    Result<(), ErrorView>,
) {
    let (m1, stored) = if to_guest_ptr != 0 {
        m.write_region(to_guest_ptr, le_bytes(record.to_guest))
    } else {
        (m, Ok(()))
    };
    match stored {
        Err(e) => (m1, Err(e)),
        Ok(()) => (m1.with_reg(REG_A0, record.regs.0).with_reg(REG_A1, record.regs.1), Ok(())),
    }
}

/// What an instruction comes to that the hart executes by itself, on the guest
/// in `m`: the guest after it and where it goes on, or the fault.
///
/// The hart is given the instruction alone at first. Where it asks for another
/// word, to load from it or to store to it, it is given that word too, if it is
/// guest memory.
pub open spec fn hart_ran(m: MonitorView, pc: u32, insn: u32) -> (
    MonitorView,
    Result<u32, HartFault>,
) {
    let regs = m.now.regs;
    let (outcome, words) = hart_stepped(regs, pc, seen(pc, insn, None));
    match outcome {
        Ok(step) => hart_applied(
            m,
            if is_store(insn) {
                Some((pc, words[pc]))
            } else {
                None
            },
            step,
        ),
        Err(HartFault::LoadAccessFault(addr)) => {
            let at = (addr - addr % 4) as u32;
            if word_error(at) is Some {
                (m, Err(HartFault::LoadAccessFault(addr)))
            } else {
                let m1 = m.touched(at as int, 4);
                let word = m.now.word_at(at as int);
                match hart_stepped(regs, pc, seen(pc, insn, Some((at, word)))).0 {
                    Ok(step) => hart_applied(m1, None, step),
                    Err(fault) => (m1, Err(fault)),
                }
            }
        },
        Err(HartFault::StoreAccessFault(addr)) => {
            let at = (addr - addr % 4) as u32;
            if word_error(at) is Some {
                (m, Err(HartFault::StoreAccessFault(addr)))
            } else {
                let m1 = m.touched(at as int, 4);
                let word = m.now.word_at(at as int);
                let (outcome, words) = hart_stepped(regs, pc, seen(pc, insn, Some((at, word))));
                match outcome {
                    Ok(step) => hart_applied(m1, Some((at, words[at])), step),
                    Err(fault) => (m1, Err(fault)),
                }
            }
        },
        Err(fault) => (m, Err(fault)),
    }
}

/// Takes over what the hart has done: the word that it has stored at an address,
/// if it has, and the register that it has written.
pub open spec fn hart_applied(m: MonitorView, stored: Option<(u32, u32)>, step: HartStepView) -> (
    MonitorView,
    Result<u32, HartFault>,
) {
    let m1 = match stored {
        Some((addr, word)) => m.write_word(addr, word).0,
        None => m,
    };
    (
        match step.written {
            Some(idx) => m1.with_reg(idx, step.registers[idx as int]),
            None => m1,
        },
        Ok(step.pc),
    )
}

/// What a run of an executor makes of its segments at the end.
#[verifier::ext_equal]
pub struct FinishView {
    pub segment: SegmentView,
    pub journal: Option<Seq<u8>>,
    pub assumptions: Seq<Assumption>,
}

impl<R> ExecView<R> {
    /// What always holds of an executor.
    pub open spec fn inv(self) -> bool {
        &&& MIN_CYCLES_PO2 <= self.env.limit_po2() <= MAX_CYCLES_PO2
        &&& self.segment_limit == pow2(self.env.limit_po2() as nat)
        &&& self.init_cycles <= u32::MAX
        &&& self.init_cycles <= self.const_cycles <= 4 * u32::MAX
        &&& self.body_cycles <= self.segment_limit
        &&& self.insn_counter <= self.body_cycles
        &&& self.segment_cycle <= self.segment_limit || self.segment_cycle <= self.init_cycles
        &&& self.segments.len() <= u32::MAX + 1
        &&& self.insn_counter > 0 ==> self.fits()
        &&& self.fits() ==> self.with_monitor(self.monitor.undone()).total_cycles()
            <= self.segment_limit
    }

    /// A segment in which nothing happens can be proven.
    pub open spec fn fits(self) -> bool {
        self.const_cycles <= self.segment_limit
    }

    /// The cycles that the segment takes if it ends now.
    pub open spec fn total_cycles(self) -> nat {
        self.const_cycles + self.monitor.read_cycles() + self.monitor.write_cycles()
            + self.body_cycles
    }

    /// How far the session is.
    pub open spec fn session_cycle(self) -> nat {
        self.segments.len() * self.segment_limit + self.segment_cycle
    }

    /// The session has reached its limit.
    pub open spec fn session_over(self) -> bool {
        self.env.session_limit matches Some(limit) && self.session_cycle() >= limit
    }

    pub open spec fn with_monitor(self, monitor: MonitorView) -> ExecView<R> {
        ExecView { monitor, ..self }
    }

    /// The host keeps the segments at `path`.
    pub open spec fn with_path(self, path: Seq<char>) -> ExecView<R> {
        ExecView { env: EnvView { segment_path: Some(path), ..self.env }, ..self }
    }

    /// The guest goes on with the next instruction after `extra` cycles.
    pub open spec fn next(self, extra: int) -> OpCodeResult {
        OpCodeResult { pc: (self.pc + 4) as u32, exit_code: None, extra_cycles: extra as u64 }
    }

    /// Halts or pauses the guest.
    pub open spec fn halted(self) -> (ExecView<R>, Result<OpCodeResult, ErrorView>) {
        let request = self.monitor.reg(REG_A0);
        let halt_type = request % 0x100;
        let user_exit = (request / 0x100) % 0x100;
        match self.monitor.read_addr(REG_A1) {
            Err(e) => (self, Err(e)),
            Ok(output_ptr) => match self.monitor.read_region(output_ptr, DIGEST_BYTES as int) {
                (m, Err(e)) => (self.with_monitor(m), Err(e)),
                (m, Ok(output)) => (
                    ExecView { monitor: m, output_digest: Some(output), ..self },
                    if halt_type == HALT_TERMINATE {
                        Ok(
                            OpCodeResult {
                                pc: self.pc,
                                exit_code: Some(ExitCode::Halted(user_exit)),
                                extra_cycles: 0,
                            },
                        )
                    } else if halt_type == HALT_PAUSE {
                        Ok(
                            OpCodeResult {
                                pc: self.pc,
                                exit_code: Some(ExitCode::Paused(user_exit)),
                                extra_cycles: 0,
                            },
                        )
                    } else {
                        Err(ErrorView::IllegalHaltType(halt_type))
                    },
                ),
            },
        }
    }

    /// Reads the input digest.
    pub open spec fn input_read(self) -> (ExecView<R>, Result<OpCodeResult, ErrorView>) {
        match self.monitor.read_addr(REG_A0) {
            Err(e) => (self, Err(e)),
            Ok(addr) => match self.monitor.read_region(addr, DIGEST_BYTES as int) {
                (m, Err(e)) => (self.with_monitor(m), Err(e)),
                (m, Ok(_)) => (self.with_monitor(m), Ok(self.next(0))),
            },
        }
    }

    /// Absorbs blocks of guest memory into a SHA-256 state in guest memory.
    pub open spec fn sha_absorbed(self) -> (ExecView<R>, Result<OpCodeResult, ErrorView>) {
        let m = self.monitor;
        match (m.read_addr(REG_A0), m.read_addr(REG_A1), m.read_addr(REG_A2), m.read_addr(REG_A3)) {
            (Err(e), _, _, _) => (self, Err(e)),
            (_, Err(e), _, _) => (self, Err(e)),
            (_, _, Err(e), _) => (self, Err(e)),
            (_, _, _, Err(e)) => (self, Err(e)),
            (Ok(out_ptr), Ok(in_ptr), Ok(block1), Ok(block2)) => {
                let count = m.reg(REG_A4);
                match m.read_region(in_ptr, DIGEST_BYTES as int) {
                    (m1, Err(e)) => (self.with_monitor(m1), Err(e)),
                    (m1, Ok(state)) => match sha_rounds(
                        m1,
                        be_words(state),
                        block1,
                        block2,
                        count as nat,
                    ) {
                        (m2, Err(e)) => (self.with_monitor(m2), Err(e)),
                        (m2, Ok(state)) => self.with_monitor(m2).sha_stored(out_ptr, state, count),
                    },
                }
            },
        }
    }

    /// Writes a SHA-256 state that has absorbed `count` blocks to guest memory.
    pub open spec fn sha_stored(self, out_ptr: u32, state: Seq<u32>, count: u32) -> (
        ExecView<R>,
        Result<OpCodeResult, ErrorView>,
    ) {
        match self.monitor.write_region(out_ptr, be_bytes(state)) {
            (m, Err(e)) => (self.with_monitor(m), Err(e)),
            (m, Ok(())) => (self.with_monitor(m), Ok(self.next(SHA_CYCLES * count))),
        }
    }

    /// Writes `x * y` modulo `n`, all in guest memory.
    pub open spec fn bigint_multiplied(self) -> (ExecView<R>, Result<OpCodeResult, ErrorView>) {
        let m = self.monitor;
        match (m.read_addr(REG_A0), m.read_addr(REG_A2), m.read_addr(REG_A3), m.read_addr(REG_A4)) {
            (Err(e), _, _, _) => (self, Err(e)),
            (_, Err(e), _, _) => (self, Err(e)),
            (_, _, Err(e), _) => (self, Err(e)),
            (_, _, _, Err(e)) => (self, Err(e)),
            (Ok(z_ptr), Ok(x_ptr), Ok(y_ptr), Ok(n_ptr)) => if m.reg(REG_A1) != 0 {
                (self, Err(ErrorView::InvalidBigIntOp(m.reg(REG_A1))))
            } else {
                match m.read_words(x_ptr, BIGINT_WIDTH_WORDS as int) {
                    (m1, Err(e)) => (self.with_monitor(m1), Err(e)),
                    (m1, Ok(x)) => match m1.read_words(y_ptr, BIGINT_WIDTH_WORDS as int) {
                        (m2, Err(e)) => (self.with_monitor(m2), Err(e)),
                        (m2, Ok(y)) => match m2.read_words(n_ptr, BIGINT_WIDTH_WORDS as int) {
                            (m3, Err(e)) => (self.with_monitor(m3), Err(e)),
                            (m3, Ok(n)) => self.bigint_stored(m3, z_ptr, x, y, n),
                        },
                    },
                }
            },
        }
    }

    /// Writes `x * y` modulo `n` to `z_ptr`.
    pub open spec fn bigint_stored(
        self,
        m: MonitorView,
        z_ptr: u32,
        x: Seq<u32>,
        y: Seq<u32>,
        n: Seq<u32>,
    ) -> (ExecView<R>, Result<OpCodeResult, ErrorView>) {
        match product(le_value(le_bytes(x)), le_value(le_bytes(y)), le_value(le_bytes(n))) {
            None => (self.with_monitor(m), Err(ErrorView::BigIntOverflow)),
            Some(z) => match m.write_words(
                z_ptr,
                le_words(le_encoded(z, BIGINT_WIDTH_BYTES as nat)),
            ) {
                (m1, Err(e)) => (self.with_monitor(m1), Err(e)),
                (m1, Ok(())) => (self.with_monitor(m1), Ok(self.next(BIGINT_CYCLES as int))),
            },
        }
    }

    /// What the guest asks the host for, after the monitor has read it: where
    /// the answer goes, how many words it wants, and the name of the call.
    pub open spec fn syscall_read(self) -> (
        MonitorView,
        Result<(u32, u32, Seq<char>), ErrorView>,
    ) {
        let m = self.monitor;
        let to_guest_ptr = m.reg(REG_A0);
        if !guest_addr(to_guest_ptr as int) && to_guest_ptr != 0 {
            (m, Err(ErrorView::InvalidGuestAddress(to_guest_ptr)))
        } else {
            match m.read_addr(REG_A2) {
                Err(e) => (m, Err(e)),
                Ok(name_ptr) => match m.read_string(name_ptr) {
                    (m1, Err(e)) => (m1, Err(e)),
                    (m1, Ok(name)) => (m1, Ok((to_guest_ptr, m.reg(REG_A1), name))),
                },
            }
        }
    }

    /// Takes the answer of the host over.
    pub open spec fn replied(self, words: u32, reply: SyscallReplyView) -> ExecView<R> {
        ExecView {
            pending_syscall: Some(
                SyscallRecordView {
                    to_guest: fitted(reply.to_guest, words as nat),
                    regs: reply.regs,
                },
            ),
            journal: self.journal + reply.journal,
            assumptions: self.assumptions + reply.assumptions,
            ..self
        }
    }

    /// Takes what the host replies over, and hands it to the guest.
    pub open spec fn host_answered(
        self,
        to_guest_ptr: u32,
        words: u32,
        reply: Result<SyscallReplyView, ErrorView>,
    ) -> (ExecView<R>, Result<OpCodeResult, ErrorView>) {
        match reply {
            Err(e) => (self, Err(e)),
            Ok(r) => match read_regions(self.monitor, r.loads) {
                (m, Err(e)) => (self.with_monitor(m), Err(e)),
                (m, Ok(())) => {
                    let s = self.with_monitor(m).replied(words, r);
                    s.syscall_settled(to_guest_ptr, words, s.pending_syscall->Some_0)
                },
            },
        }
    }

    /// Answers a system call of the guest: with the answer that is still to be
    /// committed, or else with what the host replies.
    pub open spec fn syscall_answered(self, reply: Result<SyscallReplyView, ErrorView>) -> (
        ExecView<R>,
        Result<OpCodeResult, ErrorView>,
    ) {
        match self.syscall_read() {
            (m, Err(e)) => (self.with_monitor(m), Err(e)),
            (m, Ok((to_guest_ptr, words, name))) => match self.pending_syscall {
                Some(record) => self.with_monitor(m).syscall_settled(to_guest_ptr, words, record),
                None => if !self.env.syscalls.contains(name) {
                    (self.with_monitor(m), Err(ErrorView::UnknownSyscall(name)))
                } else {
                    self.with_monitor(m).host_answered(to_guest_ptr, words, reply)
                },
            },
        }
    }

    /// Hands an answer to the guest. One cycle is for the ecall, one for each
    /// word that was asked for, up to a multiple of the word size, and one for
    /// the two registers.
    pub open spec fn syscall_settled(
        self,
        to_guest_ptr: u32,
        words: u32,
        record: SyscallRecordView,
    ) -> (ExecView<R>, Result<OpCodeResult, ErrorView>) {
        match answered(self.monitor, to_guest_ptr, record) {
            (m, Err(e)) => (self.with_monitor(m), Err(e)),
            (m, Ok(())) => (
                self.with_monitor(m),
                Ok(self.next(1 + aligned_up(words as int, 4) + 1)),
            ),
        }
    }

    /// A call into the execution environment.
    pub open spec fn ecalled(self, reply: Result<SyscallReplyView, ErrorView>) -> (
        ExecView<R>,
        Result<OpCodeResult, ErrorView>,
    ) {
        let ecall = self.monitor.reg(REG_T0);
        if ecall == ECALL_HALT {
            self.halted()
        } else if ecall == ECALL_INPUT {
            self.input_read()
        } else if ecall == ECALL_SOFTWARE {
            self.syscall_answered(reply)
        } else if ecall == ECALL_SHA {
            self.sha_absorbed()
        } else if ecall == ECALL_BIGINT {
            self.bigint_multiplied()
        } else {
            (self, Err(ErrorView::UnknownEcall(ecall)))
        }
    }

    /// No instruction has been traced yet.
    pub open spec fn untraced(self) -> ExecView<R> {
        ExecView { traced: Seq::empty(), ..self }
    }

    /// Drops the instruction in progress, and notes where that was.
    pub open spec fn cut_off(self) -> ExecView<R> {
        ExecView {
            monitor: self.monitor.undone(),
            split_insn: Some(self.insn_counter),
            ..self
        }
    }

    /// Drops the instruction in progress, which the hart could not execute.
    pub open spec fn faulted(self, fault: HartFault) -> (
        ExecView<R>,
        Result<Option<ExitCode>, ErrorView>,
    ) {
        (
            self.cut_off(),
            if self.env.fault_proof {
                Ok(Some(ExitCode::Fault))
            } else {
                Err(ErrorView::InstructionFailed(fault))
            },
        )
    }

    /// What is traced when the instruction `op` is committed.
    pub open spec fn trace_of(self, op: OpCode) -> Seq<TraceEvent> {
        if self.env.trace {
            seq![
                TraceEvent::InstructionStart {
                    cycle: (self.session_cycle() % 0x1_0000_0000) as u32,
                    pc: self.pc,
                    insn: op.spec_insn(),
                },
            ] + self.monitor.events
        } else {
            Seq::empty()
        }
    }

    /// Commits the instruction `op`, which came to `r`.
    pub open spec fn advanced(self, op: OpCode, r: OpCodeResult) -> ExecView<R> {
        let body_cycles = self.body_cycles + op.spec_cycles() as nat + r.extra_cycles as nat;
        let moved = ExecView {
            pc: r.pc,
            insn_counter: (self.insn_counter + 1) as u32,
            body_cycles,
            segment_cycle: self.init_cycles + self.monitor.read_cycles() + body_cycles,
            ..self
        };
        ExecView {
            monitor: self.monitor.committed(moved.session_cycle() as u64),
            traced: self.trace_of(op),
            pending_syscall: None,
            syscalls: match self.pending_syscall {
                Some(record) => self.syscalls.push(record),
                None => self.syscalls,
            },
            ..moved
        }
    }

    /// Commits the instruction `op`, which came to `r`, unless the segment is
    /// full: then the instruction is dropped, and the segment is cut off. The
    /// first instruction of a segment has to fit.
    pub open spec fn settled(self, op: OpCode, r: OpCodeResult) -> (
        ExecView<R>,
        Result<Option<ExitCode>, ErrorView>,
    ) {
        if self.total_cycles() + op.spec_cycles() + r.extra_cycles > self.segment_limit {
            if self.insn_counter == 0 {
                (self, Err(ErrorView::SegmentTooSmall(self.pc)))
            } else {
                (self.cut_off(), Ok(Some(ExitCode::SystemSplit)))
            }
        } else {
            (self.advanced(op, r), Ok(r.exit_code))
        }
    }

    /// Executes the instruction `insn`, decoded as `op`.
    pub open spec fn executed(
        self,
        insn: u32,
        op: OpCode,
        reply: Result<SyscallReplyView, ErrorView>,
    ) -> (ExecView<R>, Result<Option<ExitCode>, ErrorView>) {
        if op.spec_major() == MajorType::ECall {
            match self.ecalled(reply) {
                (s, Err(e)) => (s, Err(e)),
                (s, Ok(r)) => s.settled(op, r),
            }
        } else {
            match hart_ran(self.monitor, self.pc, insn) {
                (m, Err(fault)) => self.with_monitor(m).faulted(fault),
                (m, Ok(pc)) => self.with_monitor(m).settled(
                    op,
                    OpCodeResult { pc, exit_code: None, extra_cycles: 0 },
                ),
            }
        }
    }

    /// Executes a single instruction, which is decoded as `decoded`, and whose
    /// system call, if it is one, is replied to with `reply`.
    pub open spec fn stepped(
        self,
        decoded: Result<OpCode, ErrorView>,
        reply: Result<SyscallReplyView, ErrorView>,
    ) -> (ExecView<R>, Result<Option<ExitCode>, ErrorView>) {
        let s = self.untraced();
        if s.session_over() {
            (s, Ok(Some(ExitCode::SessionLimit)))
        } else {
            match s.monitor.read_word(s.pc) {
                (m, Err(e)) => (s.with_monitor(m), Err(e)),
                (m, Ok(insn)) => match decoded {
                    Err(e) => (s.with_monitor(m), Err(e)),
                    Ok(op) => s.with_monitor(m).executed(insn, op, reply),
                },
            }
        }
    }

    /// Begins a segment from `pre_image`.
    pub open spec fn split(self, pre_image: Option<ImageView>) -> ExecView<R> {
        ExecView {
            pre_image,
            body_cycles: 0,
            split_insn: None,
            insn_counter: 0,
            segment_cycle: self.init_cycles,
            monitor: self.monitor.segment_cleared(),
            ..self
        }
    }

    /// Begins a session.
    pub open spec fn begun(self) -> (ExecView<R>, Result<(), ErrorView>) {
        match (self.exit_code, self.pre_image) {
            (Some(code), _) if !code.resumable() => (self, Err(ErrorView::CannotResume(code))),
            (_, None) => (self, Err(ErrorView::NoPreImage)),
            (_, Some(image)) => (
                ExecView {
                    pc: image.pc,
                    monitor: self.monitor.session_cleared(),
                    journal: Seq::empty(),
                    ..self
                },
                Ok(()),
            ),
        }
    }

    /// The segment that ends with `exit_code`.
    pub open spec fn segment(self, exit_code: ExitCode) -> SegmentView {
        SegmentView {
            pre_image: self.pre_image->Some_0,
            post_image: self.monitor.image(self.pc),
            output: None,
            reads: self.monitor.now.reads,
            writes: self.monitor.now.writes,
            syscalls: self.syscalls,
            exit_code,
            split_insn: self.split_insn,
            po2: choose|po2: u32| is_log2_ceil(self.total_cycles() as int, po2 as int),
            index: self.segments.len() as u32,
            cycles: self.body_cycles as u32,
        }
    }

    /// Closes the segment, which ends with `exit_code`.
    pub open spec fn sealed(self, exit_code: ExitCode) -> (
        ExecView<R>,
        Result<SegmentView, ErrorView>,
    ) {
        if self.total_cycles() > self.segment_limit {
            (self, Err(ErrorView::SegmentOverLimit))
        } else if self.pre_image is None {
            (self, Err(ErrorView::NoPreImage))
        } else {
            (
                ExecView { pre_image: None, syscalls: Seq::empty(), ..self },
                if self.segments.len() > u32::MAX {
                    Err(ErrorView::TooManySegments)
                } else {
                    Ok(self.segment(exit_code))
                },
            )
        }
    }

    /// Keeps what the host made of a segment.
    pub open spec fn kept(self, segment: R) -> ExecView<R> {
        ExecView { segments: self.segments.push(segment), ..self }
    }

    /// Makes the executor ready to go on after it was paused: behind the
    /// instruction that paused it.
    pub open spec fn paused(self, post_image: ImageView) -> ExecView<R> {
        self.split(Some(ImageView { pc: (post_image.pc + 4) as u32, ..post_image }))
    }

    /// What the guest made public: its journal, if the guest set a non-zero
    /// output.
    pub open spec fn session_journal(self) -> Option<Seq<u8>> {
        match self.output_digest {
            Some(digest) => if digest != zero_digest() {
                Some(self.journal)
            } else {
                None
            },
            None => None,
        }
    }

    /// Ends a session with its last segment.
    pub open spec fn finished(self, exit_code: ExitCode, segment: SegmentView) -> (
        ExecView<R>,
        Result<FinishView, ErrorView>,
    ) {
        let journal = self.session_journal();
        let s = ExecView {
            exit_code: Some(exit_code),
            assumptions: Seq::empty(),
            journal: if journal is Some {
                Seq::empty()
            } else {
                self.journal
            },
            ..self
        };
        if !exit_code.has_output() || journal is None {
            (s, Ok(FinishView { segment, journal, assumptions: self.assumptions }))
        } else if !all_claimed(self.assumptions) {
            (s, Err(ErrorView::MissingClaim))
        } else {
            let output = OutputView {
                journal: journal->Some_0,
                assumptions: claims_of(self.assumptions),
            };
            (
                s,
                Ok(
                    FinishView {
                        segment: SegmentView { output: Some(output), ..segment },
                        journal,
                        assumptions: self.assumptions,
                    },
                ),
            )
        }
    }

    /// Hands the session out.
    pub open spec fn released(
        self,
        exit_code: ExitCode,
        post_image: ImageView,
        finish: FinishView,
    ) -> (ExecView<R>, SessionView<R>) {
        (
            ExecView { segments: Seq::empty(), ..self },
            SessionView {
                segments: self.segments,
                journal: finish.journal,
                exit_code,
                post_image,
                assumptions: finish.assumptions,
            },
        )
    }
}

} // verus!
