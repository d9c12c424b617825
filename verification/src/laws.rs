//! What holds of the executor as a whole.
use crate::ecall::{lemma_read_regions_base, lemma_sha_rounds_base, same_base};
use crate::executor::{created, fresh};
use crate::guest::{word_error, ImageView, MonitorView};
use crate::host::takes_time;
use crate::platform::{DIGEST_BYTES, REG_A1, REG_A2, REG_A3, REG_A4};
use crate::state::{hart_ran, ExecView};
use crate::types::{
    CycleCosts, EnvView, ErrorView, ExitCode, MajorType, OpCode, OpCodeResult, SyscallReplyView,
};
use crate::words::be_words;
use vstd::prelude::*;

verus! {

/// Executors that agree on everything but the instruction in progress, and what
/// that has to do with the outside.
pub open spec fn same_frame<R>(s: ExecView<R>, t: ExecView<R>) -> bool {
    &&& same_base(s.monitor, t.monitor)
    &&& t == ExecView {
        monitor: t.monitor,
        output_digest: t.output_digest,
        pending_syscall: t.pending_syscall,
        journal: t.journal,
        assumptions: t.assumptions,
        ..s
    }
}

/// An ecall commits nothing. The guest goes on with the next instruction, or it
/// ends where it is, and then it has halted or paused.
#[verifier::rlimit(40)]
pub proof fn law_ecall_commits_nothing<R>(
    s: ExecView<R>,
    reply: Result<SyscallReplyView, ErrorView>,
)
    ensures
        same_frame(s, s.ecalled(reply).0),
        s.ecalled(reply).1 matches Ok(r) ==> match r.exit_code {
            Some(code) => code.has_output() && r.pc == s.pc && r.extra_cycles == 0,
            None => r.pc == (s.pc + 4) as u32,
        },
{
    let m = s.monitor;
    if let Ok(in_ptr) = m.read_addr(REG_A1) {
        let (m1, state) = m.read_region(in_ptr, DIGEST_BYTES as int);
        if state is Ok {
            if let (Ok(block1), Ok(block2)) = (m.read_addr(REG_A2), m.read_addr(REG_A3)) {
                lemma_sha_rounds_base(
                    m1,
                    be_words(state->Ok_0),
                    block1,
                    block2,
                    m.reg(REG_A4) as nat,
                );
            }
        }
    }
    if let Ok(r) = reply {
        lemma_read_regions_base(s.syscall_read().0, r.loads);
    }
}

/// Nothing was recorded between `s` and `t`: the program counter has not moved,
/// nothing was committed, and no activity was counted or traced. Only a segment
/// may have been cut off, and the host may have answered.
pub open spec fn idle<R>(s: ExecView<R>, t: ExecView<R>) -> bool {
    same_frame(ExecView { split_insn: t.split_insn, traced: Seq::empty(), ..s }, t)
}

/// One instruction of the segment was committed between `s` and `t`.
pub open spec fn moved<R>(s: ExecView<R>, t: ExecView<R>) -> bool {
    &&& t.insn_counter == s.insn_counter + 1
    &&& t.body_cycles > s.body_cycles
    &&& t.monitor.clean()
    &&& t.total_cycles() <= t.segment_limit
    &&& t.split_insn == s.split_insn
    &&& t.pre_image == s.pre_image
    &&& t.segments == s.segments
    &&& t.exit_code == s.exit_code
    &&& t.env == s.env
    &&& t.segment_limit == s.segment_limit
    &&& t.const_cycles == s.const_cycles
    &&& t.init_cycles == s.init_cycles
    &&& t.monitor.page_read_cost == s.monitor.page_read_cost
    &&& t.monitor.page_write_cost == s.monitor.page_write_cost
}

/// What a step comes to. An instruction that fails, that faults or that does not
/// fit into the segment leaves nothing behind; any other is committed, and the
/// segment has room for it. No instruction is committed where not even a segment
/// in which nothing happens can be proven.
#[verifier::rlimit(40)]
pub proof fn law_step<R>(
    s: ExecView<R>,
    decoded: Result<OpCode, ErrorView>,
    reply: Result<SyscallReplyView, ErrorView>,
)
    requires
        s.inv(),
        takes_time(decoded),
    ensures
        ({
            let (t, r) = s.stepped(decoded, reply);
            &&& t.inv()
            &&& r is Ok ==> s.fits() || s.session_over() || s.env.fault_proof
            &&& match r {
                Err(_) => idle(s, t),
                Ok(Some(ExitCode::SessionLimit)) => s.session_over() && t == s.untraced(),
                Ok(Some(ExitCode::SystemSplit)) | Ok(Some(ExitCode::Fault)) => {
                    &&& idle(s, t)
                    &&& t.monitor == s.monitor.undone()
                    &&& t.split_insn == Some(s.insn_counter)
                    &&& r->Ok_0 == Some(ExitCode::SystemSplit) ==> s.insn_counter > 0
                },
                Ok(Some(_)) => moved(s, t) && t.pc == s.pc && word_error(s.pc) is None,
                Ok(None) => moved(s, t),
            }
        }),
{
    let s0 = s.untraced();
    if !s0.session_over() {
        let (m, insn) = s0.monitor.read_word(s0.pc);
        if insn is Ok && decoded is Ok {
            lemma_executed(s0.with_monitor(m), insn->Ok_0, decoded->Ok_0, reply);
        }
    }
}

/// An instruction that the hart executes by itself commits nothing.
proof fn lemma_hart_base(m: MonitorView, pc: u32, insn: u32)
    ensures
        same_base(m, hart_ran(m, pc, insn).0),
{
}

/// What executing an instruction comes to.
#[verifier::rlimit(40)]
proof fn lemma_executed<R>(
    s: ExecView<R>,
    insn: u32,
    op: OpCode,
    reply: Result<SyscallReplyView, ErrorView>,
)
    requires
        s.inv(),
        s.traced.len() == 0,
        op.spec_cycles() > 0,
    ensures
        ({
            let (t, r) = s.executed(insn, op, reply);
            &&& t.inv()
            &&& r is Ok ==> s.fits() || s.env.fault_proof
            &&& match r {
                Err(_) => idle(s, t),
                Ok(Some(ExitCode::SystemSplit)) | Ok(Some(ExitCode::Fault)) => {
                    &&& idle(s, t)
                    &&& t.monitor == s.monitor.undone()
                    &&& t.split_insn == Some(s.insn_counter)
                    &&& r->Ok_0 == Some(ExitCode::SystemSplit) ==> s.insn_counter > 0
                },
                Ok(Some(code)) => code.has_output() && moved(s, t) && t.pc == s.pc,
                Ok(None) => moved(s, t),
            }
        }),
{
    assert(s.traced =~= Seq::empty());
    if op.spec_major() == MajorType::ECall {
        law_ecall_commits_nothing(s, reply);
        let (s1, result) = s.ecalled(reply);
        assert(s1.inv());
        if result is Ok {
            lemma_settled(s1, op, result->Ok_0);
        }
    } else {
        let (m, ran) = hart_ran(s.monitor, s.pc, insn);
        lemma_hart_base(s.monitor, s.pc, insn);
        let s1 = s.with_monitor(m);
        assert(s1.inv());
        if ran is Ok {
            lemma_settled(s1, op, OpCodeResult { pc: ran->Ok_0, exit_code: None, extra_cycles: 0 });
        }
    }
}

/// What settling an instruction comes to.
proof fn lemma_settled<R>(s: ExecView<R>, op: OpCode, r: OpCodeResult)
    requires
        s.inv(),
        op.spec_cycles() > 0,
    ensures
        ({
            let (t, result) = s.settled(op, r);
            &&& t.inv()
            &&& result is Ok ==> s.fits()
            &&& match result {
                Err(_) => t == s,
                Ok(code) => {
                    ||| code == Some(ExitCode::SystemSplit) && t == s.cut_off() && s.insn_counter
                        > 0
                    ||| code == r.exit_code && moved(s, t) && t.pc == r.pc
                },
            }
        }),
{
    vstd::arithmetic::power2::lemma2_to64();
    crate::platform::lemma_pow2_monotone(s.env.limit_po2() as nat, 24);
}

/// An instruction that does not fit, or that faults, is cut off without a trace: the
/// program counter and all counters are as before, and the guest is as it was
/// committed last, so that the instruction can be taken up again.
pub proof fn law_split_records_nothing<R>(
    s: ExecView<R>,
    decoded: Result<OpCode, ErrorView>,
    reply: Result<SyscallReplyView, ErrorView>,
)
    requires
        s.inv(),
        takes_time(decoded),
        s.stepped(decoded, reply).1 == Ok::<Option<ExitCode>, ErrorView>(
            Some(ExitCode::SystemSplit),
        ) || s.stepped(decoded, reply).1 == Ok::<Option<ExitCode>, ErrorView>(
            Some(ExitCode::Fault),
        ),
    ensures
        ({
            let (t, r) = s.stepped(decoded, reply);
            &&& t.pc == s.pc
            &&& t.monitor == s.monitor.undone()
            &&& s.monitor.clean() ==> t.monitor == s.monitor
            &&& t.insn_counter == s.insn_counter
            &&& r->Ok_0 == Some(ExitCode::SystemSplit) ==> s.insn_counter > 0
            &&& t.body_cycles == s.body_cycles
            &&& t.segment_cycle == s.segment_cycle
            &&& t.syscalls == s.syscalls
            &&& t.segments == s.segments
            &&& t.traced.len() == 0
            &&& t.split_insn == Some(s.insn_counter)
        }),
{
    law_step(s, decoded, reply);
    if s.monitor.clean() {
        assert(s.monitor.undone().events =~= s.monitor.events);
        assert(s.monitor.undone() == s.monitor);
    }
}

/// A segment never grows too large: if it is within its limit, it is so after any
/// step that succeeds.
pub proof fn law_step_within_limit<R>(
    s: ExecView<R>,
    decoded: Result<OpCode, ErrorView>,
    reply: Result<SyscallReplyView, ErrorView>,
)
    requires
        s.inv(),
        s.total_cycles() <= s.segment_limit,
        takes_time(decoded),
    ensures
        ({
            let (t, r) = s.stepped(decoded, reply);
            r is Ok ==> t.total_cycles() <= t.segment_limit
        }),
{
    law_step(s, decoded, reply);
}

/// A step charges the segment for the instruction that it commits, and for nothing
/// else.
#[verifier::rlimit(40)]
pub proof fn law_step_charges<R>(
    s: ExecView<R>,
    decoded: Result<OpCode, ErrorView>,
    reply: Result<SyscallReplyView, ErrorView>,
)
    ensures
        s.stepped(decoded, reply).0.body_cycles == s.body_cycles + s.charge(decoded, reply),
{
    if s.fetches() && decoded is Ok {
        let f = s.fetched();
        law_ecall_commits_nothing(f, reply);
        assert(f.body_cycles == s.body_cycles);
    }
}

/// A system call that still has an answer to be committed does not ask the host, and
/// what it would reply makes no difference.
#[verifier::rlimit(40)]
pub proof fn law_replay_asks_nobody<R>(
    s: ExecView<R>,
    decoded: Result<OpCode, ErrorView>,
    a: Result<SyscallReplyView, ErrorView>,
    b: Result<SyscallReplyView, ErrorView>,
)
    requires
        s.pending_syscall is Some,
    ensures
        !s.calls_host(decoded),
        s.stepped(decoded, a) == s.stepped(decoded, b),
        s.taken(decoded, a) is None,
{
}

/// A step adds nothing to the journal and to what is taken for granted but what the
/// host replies.
#[verifier::rlimit(40)]
pub proof fn law_step_takes_reply<R>(
    s: ExecView<R>,
    decoded: Result<OpCode, ErrorView>,
    reply: Result<SyscallReplyView, ErrorView>,
)
    ensures
        ({
            let t = s.stepped(decoded, reply).0;
            match s.taken(decoded, reply) {
                Some(r) => {
                    &&& t.journal == s.journal + r.journal
                    &&& t.assumptions == s.assumptions + r.assumptions
                },
                None => t.journal == s.journal && t.assumptions == s.assumptions,
            }
        }),
{
}

/// A new executor is in order, and nothing is in progress.
pub proof fn law_fresh_in_order<R>(env: EnvView, image: ImageView, costs: CycleCosts)
    requires
        created::<R>(env, image, costs) is Ok,
    ensures
        fresh::<R>(env, image, costs).inv(),
        fresh::<R>(env, image, costs).monitor.clean(),
{
    let s = fresh::<R>(env, image, costs);
    assert(s.monitor.page_read_cost as nat * 0 == 0) by (nonlinear_arith);
    assert(s.monitor.page_write_cost as nat * 0 == 0) by (nonlinear_arith);
}

} // verus!
