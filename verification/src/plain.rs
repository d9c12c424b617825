//! Guest memory and the bookkeeping of a step in plain terms: by bytes, numbers and
//! pages.
use crate::guest::GuestView;
use crate::state::ExecView;
use crate::types::{
    Assumption, ErrorView, ExitCode, HartFault, OpCode, SyscallRecordView, TraceEvent,
};
use vstd::prelude::*;

verus! {

/// The byte of the guest at `a`. What was never set is zero.
pub open spec fn byte(g: GuestView, a: int) -> u8 {
    if g.mem.contains_key(a as u32) {
        g.mem[a as u32]
    } else {
        0
    }
}

/// The `n` bytes of the guest from `a` on.
pub open spec fn bytes(g: GuestView, a: int, n: int) -> Seq<u8> {
    Seq::new(n as nat, |i: int| byte(g, a + i))
}

/// The word of the guest at `a`: its first byte is the least significant one.
pub open spec fn word(g: GuestView, a: int) -> u32 {
    (byte(g, a) + 0x100 * byte(g, a + 1) + 0x1_0000 * byte(g, a + 2) + 0x100_0000 * byte(
        g,
        a + 3,
    )) as u32
}

/// Byte `i` of `words` in memory: a word begins with its least significant byte.
pub open spec fn word_part(words: Seq<u32>, i: int) -> u8 {
    let w = words[i / 4] as int;
    (if i % 4 == 0 {
        w % 0x100
    } else if i % 4 == 1 {
        w / 0x100 % 0x100
    } else if i % 4 == 2 {
        w / 0x1_0000 % 0x100
    } else {
        w / 0x100_0000
    }) as u8
}

/// `words` as they lie in memory.
pub open spec fn word_bytes(words: Seq<u32>) -> Seq<u8> {
    Seq::new(4 * words.len(), |i: int| word_part(words, i))
}

/// The guest owns the byte at `a`.
pub open spec fn owned(a: int) -> bool {
    0x400 <= a < 0x0C00_0000
}

/// The guest owns the `n` bytes from `a` on.
pub open spec fn owned_region(a: int, n: int) -> bool {
    n > 0 ==> owned(a) && a + n <= 0x0C00_0000
}

/// The pages of 1024 bytes that hold the `n` bytes from `a` on.
pub open spec fn page_set(a: int, n: int) -> Set<u32> {
    Set::new(|p: u32| n > 0 && a / 1024 <= p <= (a + n - 1) / 1024)
}

/// `g` turns into `h` by writing `data` at `a`: all other bytes are as before.
pub open spec fn put(g: GuestView, h: GuestView, a: int, data: Seq<u8>) -> bool {
    forall|k: u32|
        #[trigger] byte(h, k as int) == (if a <= k < a + data.len() {
            data[k - a]
        } else {
            byte(g, k as int)
        })
}

/// Each byte of `data` is set, from `a` on.
pub open spec fn set_events(a: int, data: Seq<u8>) -> Seq<TraceEvent> {
    Seq::new(
        data.len(),
        |i: int| TraceEvent::MemorySet { addr: (a + i) as u32, byte: data[i] },
    )
}

/// A register is set, if one is.
pub open spec fn reg_events(set: Option<(usize, u32)>) -> Seq<TraceEvent> {
    match set {
        Some((idx, value)) => seq![TraceEvent::RegisterSet { idx, value }],
        None => Seq::empty(),
    }
}

/// What executing an instruction has done, before it is committed.
pub struct Done {
    /// Where the guest goes on.
    pub pc: u32,
    /// How it ends, if it does.
    pub code: Option<ExitCode>,
    /// Cycles on top of those of the instruction.
    pub extra: int,
    /// The registers.
    pub regs: Seq<u32>,
    /// What is written to memory, and where.
    pub at: int,
    pub data: Seq<u8>,
    /// The pages that the segment has read and changed so far.
    pub reads: Set<u32>,
    pub writes: Set<u32>,
    /// What is traced of it.
    pub events: Seq<TraceEvent>,
    /// The answer to a system call that is to be recorded.
    pub answer: Option<SyscallRecordView>,
    /// The digest of the output, the journal, and what is taken for granted.
    pub digest: Option<Seq<u8>>,
    pub journal: Seq<u8>,
    pub assumptions: Seq<Assumption>,
}

/// Nothing was done in `s` yet, and the guest goes on at `pc` after `extra` cycles.
pub open spec fn nothing<R>(s: ExecView<R>, pc: int, extra: int) -> Done {
    Done {
        pc: pc as u32,
        code: None,
        extra,
        regs: s.monitor.now.regs,
        at: 0,
        data: Seq::empty(),
        reads: s.monitor.now.reads.union(page_set(s.pc as int, 4)),
        writes: s.monitor.now.writes,
        events: s.monitor.events,
        answer: s.pending_syscall,
        digest: s.output_digest,
        journal: s.journal,
        assumptions: s.assumptions,
    }
}

/// What is traced where anything is.
pub open spec fn events_if<R>(s: ExecView<R>, events: Seq<TraceEvent>) -> Seq<TraceEvent> {
    if s.monitor.trace {
        s.monitor.events + events
    } else {
        s.monitor.events
    }
}

/// The cycles that the segment takes with the instruction.
pub open spec fn cycles_with<R>(s: ExecView<R>, op: OpCode, done: Done) -> int {
    s.const_cycles + s.monitor.page_read_cost * done.reads.len() + s.monitor.page_write_cost
        * done.writes.len() + s.body_cycles + op.spec_cycles() + done.extra
}

/// Nothing is recorded of a step from `s` to `t`.
pub open spec fn unrecorded<R>(s: ExecView<R>, t: ExecView<R>) -> bool {
    &&& t.pc == s.pc
    &&& t.insn_counter == s.insn_counter
    &&& t.body_cycles == s.body_cycles
    &&& t.segment_cycle == s.segment_cycle
    &&& t.syscalls == s.syscalls
    &&& t.monitor.saved == s.monitor.saved
    &&& t.monitor.cycle == s.monitor.cycle
    &&& t.traced.len() == 0
    &&& settled_for_good(s, t)
}

/// What no step changes.
pub open spec fn settled_for_good<R>(s: ExecView<R>, t: ExecView<R>) -> bool {
    &&& t.segments == s.segments
    &&& t.pre_image == s.pre_image
    &&& t.env == s.env
    &&& t.exit_code == s.exit_code
    &&& t.init_cycles == s.init_cycles
    &&& t.const_cycles == s.const_cycles
    &&& t.segment_limit == s.segment_limit
    &&& t.monitor.trace == s.monitor.trace
    &&& t.monitor.page_read_cost == s.monitor.page_read_cost
    &&& t.monitor.page_write_cost == s.monitor.page_write_cost
}

/// A step from `s` to `t` that comes to `r` commits what was `done`, if the segment has
/// room for it. Otherwise it is dropped: the segment is cut off, unless the instruction
/// is its first.
pub open spec fn settles<R>(
    s: ExecView<R>,
    op: OpCode,
    done: Done,
    t: ExecView<R>,
    r: Result<Option<ExitCode>, ErrorView>,
) -> bool {
    &&& t.output_digest == done.digest
    &&& t.journal == done.journal
    &&& t.assumptions == done.assumptions
    &&& if cycles_with(s, op, done) <= s.segment_limit {
        &&& r == Ok::<Option<ExitCode>, ErrorView>(done.code)
        &&& t.pc == done.pc
        &&& t.monitor.now.regs == done.regs
        &&& put(s.monitor.now, t.monitor.now, done.at, done.data)
        &&& t.monitor.now.reads == done.reads
        &&& t.monitor.now.writes == done.writes
        &&& t.monitor.saved == t.monitor.now
        &&& t.monitor.events.len() == 0
        &&& t.insn_counter == s.insn_counter + 1
        &&& t.body_cycles == s.body_cycles + op.spec_cycles() + done.extra
        &&& t.segment_cycle == s.init_cycles + s.monitor.page_read_cost * done.reads.len()
            + t.body_cycles
        &&& t.monitor.cycle == s.segments.len() * s.segment_limit + t.segment_cycle
        &&& t.syscalls == (match done.answer {
            Some(answer) => s.syscalls.push(answer),
            None => s.syscalls,
        })
        &&& t.pending_syscall is None
        &&& t.split_insn == s.split_insn
        &&& t.traced == (if s.env.trace {
            seq![
                TraceEvent::InstructionStart {
                    cycle: ((s.segments.len() * s.segment_limit + s.segment_cycle)
                        % 0x1_0000_0000) as u32,
                    pc: s.pc,
                    insn: op.spec_insn(),
                },
            ] + done.events
        } else {
            Seq::empty()
        })
        &&& settled_for_good(s, t)
    } else {
        &&& unrecorded(s, t)
        &&& t.pending_syscall == done.answer
        &&& if s.insn_counter == 0 {
            &&& r == Err::<Option<ExitCode>, ErrorView>(ErrorView::SegmentTooSmall(s.pc))
            &&& t.split_insn == s.split_insn
            &&& t.monitor.now.regs == done.regs
            &&& put(s.monitor.now, t.monitor.now, done.at, done.data)
            &&& t.monitor.now.reads == done.reads
            &&& t.monitor.now.writes == done.writes
            &&& t.monitor.events == done.events
        } else {
            &&& r == Ok::<Option<ExitCode>, ErrorView>(Some(ExitCode::SystemSplit))
            &&& t.split_insn == Some(s.insn_counter)
            &&& t.monitor.now == s.monitor.saved
            &&& t.monitor.events.len() == 0
        }
    }
}

/// A step from `s` to `t` fails with `e`, and records nothing.
pub open spec fn fails<R>(
    s: ExecView<R>,
    e: ErrorView,
    t: ExecView<R>,
    r: Result<Option<ExitCode>, ErrorView>,
) -> bool {
    &&& r == Err::<Option<ExitCode>, ErrorView>(e)
    &&& unrecorded(s, t)
    &&& t.split_insn == s.split_insn
    &&& t.journal == s.journal
    &&& t.assumptions == s.assumptions
}

/// Between `s` and `t` the guest has changed nothing.
pub open spec fn unharmed<R>(s: ExecView<R>, t: ExecView<R>) -> bool {
    &&& t.monitor.now.mem == s.monitor.now.mem
    &&& t.monitor.now.regs == s.monitor.now.regs
    &&& t.monitor.now.writes == s.monitor.now.writes
    &&& t.monitor.events == s.monitor.events
}

/// A step from `s` to `t` fails with `e` before anything came of it.
pub open spec fn drops<R>(
    s: ExecView<R>,
    e: ErrorView,
    t: ExecView<R>,
    r: Result<Option<ExitCode>, ErrorView>,
) -> bool {
    &&& fails(s, e, t, r)
    &&& unharmed(s, t)
    &&& t.output_digest == s.output_digest
    &&& t.pending_syscall == s.pending_syscall
}

/// The hart cannot execute the instruction of a step from `s` to `t`: the segment ends
/// before it, if faults are proven, and nothing is recorded.
pub open spec fn faults<R>(
    s: ExecView<R>,
    fault: HartFault,
    t: ExecView<R>,
    r: Result<Option<ExitCode>, ErrorView>,
) -> bool {
    &&& r == (if s.env.fault_proof {
        Ok::<Option<ExitCode>, ErrorView>(Some(ExitCode::Fault))
    } else {
        Err::<Option<ExitCode>, ErrorView>(ErrorView::InstructionFailed(fault))
    })
    &&& unrecorded(s, t)
    &&& t.split_insn == Some(s.insn_counter)
    &&& t.monitor.now == s.monitor.saved
    &&& t.monitor.events.len() == 0
    &&& t.pending_syscall == s.pending_syscall
    &&& t.output_digest == s.output_digest
    &&& t.journal == s.journal
    &&& t.assumptions == s.assumptions
}

/// The session limit is not reached, and there is the instruction `insn` to execute in
/// `s`.
pub open spec fn at_instruction<R>(s: ExecView<R>, insn: u32) -> bool {
    &&& s.env.session_limit matches Some(limit) ==> s.segments.len() * s.segment_limit
        + s.segment_cycle < limit
    &&& owned(s.pc as int)
    &&& s.pc % 4 == 0
    &&& insn == word(s.monitor.now, s.pc as int)
}

} // verus!
