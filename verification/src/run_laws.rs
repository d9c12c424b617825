//! What a run records, turn by turn, in plain terms.
use crate::access::string_result;
use crate::executor::created;
use crate::guest::{ImageView, MonitorView};
use crate::host::{
    decode_of, host, may_settle, stores_at, syscall_of, takes_time, trace_of, HostView,
};
use crate::instruction_laws::lemma_fetch;
use crate::laws::{law_ecall_commits_nothing, law_split_records_nothing, law_step};
use crate::monitor::MemoryMonitor;
use crate::monitor_laws::only_read;
use crate::number_laws::{claim_in, law_claims};
use crate::plain::{at_instruction, page_set};
use crate::segment::{Segment, SegmentView, SessionView};
use crate::session::{closes, connected, ends, goes_on, hands_on, loops, takes, Turn};
use crate::session_laws::{
    lemma_begun_ready, lemma_ends, lemma_reached, lemma_sealed, lemma_takes_connected, lemma_turn,
};
use crate::state::{zero_digest, ExecView, FinishView};
use crate::syscall_laws::{at_syscall, lemma_asked, name_of, record_of};
use crate::types::{
    fitted, reply_view, viewed, CycleCosts, EnvView, ErrorView, ExecError, ExitCode, MajorType,
    OpCode, SyscallRecordView, SyscallReply, SyscallReplyView, SyscallRequest, TraceEvent,
};
use vstd::arithmetic::power2::pow2;
use vstd::prelude::*;

verus! {

/// A step with this result commits an instruction.
pub open spec fn commits(r: Result<Option<ExitCode>, ErrorView>) -> bool {
    match r {
        Ok(None) => true,
        Ok(Some(code)) => code is Halted || code is Paused,
        Err(_) => false,
    }
}

/// The answer to a system call that there is in a step before it is settled: the one
/// that the host gives, or else the one that is left from before.
pub open spec fn answer_in<R>(
    s: ExecView<R>,
    decoded: Result<OpCode, ErrorView>,
    reply: Result<SyscallReplyView, ErrorView>,
    left: Option<SyscallRecordView>,
) -> Option<SyscallRecordView> {
    match s.taken(decoded, reply) {
        Some(r) => Some(record_of(r, s.monitor.now.regs[11])),
        None => left,
    }
}

/// `records`, with `answer` behind them if there is one and the step commits it.
pub open spec fn records_with(
    records: Seq<SyscallRecordView>,
    answer: Option<SyscallRecordView>,
    r: Result<Option<ExitCode>, ErrorView>,
) -> Seq<SyscallRecordView> {
    if commits(r) && answer is Some {
        records + seq![answer->Some_0]
    } else {
        records
    }
}

/// A step that commits with an answer pending records just that, behind the answers
/// before it. Any other step leaves the records as they are, and the answer pending.
#[verifier::rlimit(60)]
pub proof fn law_step_records<R>(
    s: ExecView<R>,
    decoded: Result<OpCode, ErrorView>,
    reply: Result<SyscallReplyView, ErrorView>,
)
    ensures
        ({
            let (t, r) = s.stepped(decoded, reply);
            let answer = answer_in(s, decoded, reply, s.pending_syscall);
            &&& t.syscalls == records_with(s.syscalls, answer, r)
            &&& t.pending_syscall == (if commits(r) {
                None
            } else {
                answer
            })
        }),
{
    let (t, r) = s.stepped(decoded, reply);
    let answer = answer_in(s, decoded, reply, s.pending_syscall);
    if s.fetches() && decoded is Ok {
        let f = s.fetched();
        let op = decoded->Ok_0;
        assert(f.monitor.reg(11) == s.monitor.now.regs[11]);
        if op.spec_major() == MajorType::ECall {
            law_ecall_commits_nothing(f, reply);
            lemma_answer_in(s, decoded, reply);
            let g = f.ecalled(reply).0;
            assert(g.syscalls == s.syscalls);
            assert(g.pending_syscall == answer);
        }
        if answer is Some {
            assert(s.syscalls.push(answer->Some_0) =~= s.syscalls + seq![answer->Some_0]);
        }
    }
}

/// The answer that is pending once an ecall was executed.
#[verifier::rlimit(60)]
proof fn lemma_answer_in<R>(
    s: ExecView<R>,
    decoded: Result<OpCode, ErrorView>,
    reply: Result<SyscallReplyView, ErrorView>,
)
    requires
        s.fetches(),
        decoded matches Ok(op) && op.spec_major() == MajorType::ECall,
    ensures
        s.fetched().ecalled(reply).0.pending_syscall == answer_in(
            s,
            decoded,
            reply,
            s.pending_syscall,
        ),
{
    let f = s.fetched();
    if let Some(r) = s.taken(decoded, reply) {
        let words = s.monitor.now.regs[11];
        assert(fitted(r.to_guest, words as nat) =~= record_of(r, words).to_guest);
    }
}

/// The answer to a system call that is left after `turns`, where `left` was before.
pub open spec fn left_after<R>(turns: Seq<Turn<R>>, left: Option<SyscallRecordView>) -> Option<
    SyscallRecordView,
>
    decreases turns.len(),
{
    if turns.len() == 0 {
        left
    } else if commits(turns.last().result()) {
        None
    } else {
        let turn = turns.last();
        answer_in(turn.s, turn.decoded, turn.reply, left_after(turns.drop_last(), left))
    }
}

/// The answers that were recorded in the segment in progress after `turns`: those of the
/// system calls that were committed in it, all of them and in order. `base` were there
/// before the run, and `left` was pending then.
pub open spec fn recorded<R>(
    turns: Seq<Turn<R>>,
    base: Seq<SyscallRecordView>,
    left: Option<SyscallRecordView>,
) -> Seq<SyscallRecordView>
    decreases turns.len(),
{
    if turns.len() == 0 {
        base
    } else if turns.last().splits() {
        Seq::empty()
    } else {
        let turn = turns.last();
        let before = turns.drop_last();
        records_with(
            recorded(before, base, left),
            answer_in(turn.s, turn.decoded, turn.reply, left_after(before, left)),
            turn.result(),
        )
    }
}

/// What is recorded where a turn starts.
proof fn lemma_recorded<R>(h: HostView<R>, s: ExecView<R>, turns: Seq<Turn<R>>, k: int)
    requires
        connected(h, s, turns),
        0 <= k < turns.len(),
    ensures
        turns[k].s.syscalls == recorded(turns.take(k), s.syscalls, s.pending_syscall),
        turns[k].s.pending_syscall == left_after(turns.take(k), s.pending_syscall),
    decreases k,
{
    if k > 0 {
        let i = k - 1;
        lemma_recorded(h, s, turns, i);
        let turn = turns[i];
        let v = turns[k].s;
        assert(turns.take(k).drop_last() =~= turns.take(i));
        assert(turns.take(k).last() == turn);
        assert(goes_on(h, turns[i], turns[k].s));
        law_step_records(turn.s, turn.decoded, turn.reply);
        if turn.splits() {
            let kept = choose|kept: R| #[trigger] hands_on(h.keep, turn.after(), kept, v);
            assert(hands_on(h.keep, turn.after(), kept, v));
        }
    }
}

/// The system calls of a segment that a run closes are the answers of those that were
/// committed in it, all of them and in order.
pub proof fn law_segment_syscalls<R>(
    h: HostView<R>,
    s: ExecView<R>,
    turns: Seq<Turn<R>>,
    t: ExecView<R>,
    r: Result<SessionView<R>, ErrorView>,
    k: int,
    exit_code: ExitCode,
)
    requires
        takes(h, s, turns, t, r),
        0 <= k < turns.len(),
        turns[k].result() == Ok::<Option<ExitCode>, ErrorView>(Some(exit_code)),
        turns[k].after().sealed(exit_code).1 is Ok,
    ensures
        ({
            let turn = turns[k];
            let segment = turn.after().sealed(exit_code).1->Ok_0;
            let before = turns.take(k);
            segment.syscalls == records_with(
                recorded(before, s.syscalls, s.pending_syscall),
                answer_in(
                    turn.s,
                    turn.decoded,
                    turn.reply,
                    left_after(before, s.pending_syscall),
                ),
                turn.result(),
            )
        }),
{
    lemma_takes_connected(h, s, turns, t, r);
    lemma_recorded(h, s.begun().0, turns, k);
    let turn = turns[k];
    law_step_records(turn.s, turn.decoded, turn.reply);
}

/// A step with which a segment ends leaves the guest where it was, with its memory and
/// its registers.
#[verifier::rlimit(60)]
pub proof fn law_end_keeps_guest<R>(
    s: ExecView<R>,
    decoded: Result<OpCode, ErrorView>,
    reply: Result<SyscallReplyView, ErrorView>,
)
    requires
        s.monitor.now == s.monitor.saved,
        s.stepped(decoded, reply).1 is Ok,
        s.stepped(decoded, reply).1->Ok_0 is Some,
    ensures
        ({
            let t = s.stepped(decoded, reply).0;
            &&& t.pc == s.pc
            &&& t.monitor.now.mem == s.monitor.now.mem
            &&& t.monitor.now.regs == s.monitor.now.regs
        }),
{
    if s.fetches() && decoded is Ok {
        let f = s.fetched();
        if decoded->Ok_0.spec_major() == MajorType::ECall {
            law_ecall_commits_nothing(f, reply);
        }
    }
}

/// The guest as it was committed last in `s`.
pub open spec fn committed_image<R>(s: ExecView<R>) -> ImageView {
    ImageView { mem: s.monitor.saved.mem, regs: s.monitor.saved.regs, pc: s.pc }
}

/// A segment that a run closes ends with the guest after the last instruction that was
/// committed: with the memory and the registers that the turn has found, and where the
/// executor is. It has counted what the segment has: the pages that were read and
/// changed, the cycles and the place where it was cut off.
#[verifier::rlimit(40)]
pub proof fn law_post_image<R>(
    h: HostView<R>,
    s: ExecView<R>,
    turns: Seq<Turn<R>>,
    t: ExecView<R>,
    r: Result<SessionView<R>, ErrorView>,
    k: int,
    exit_code: ExitCode,
)
    requires
        s.inv(),
        takes(h, s, turns, t, r),
        0 <= k < turns.len(),
        turns[k].result() == Ok::<Option<ExitCode>, ErrorView>(Some(exit_code)),
        turns[k].after().sealed(exit_code).1 is Ok,
    ensures
        ({
            let turn = turns[k];
            let after = turn.after();
            let segment = after.sealed(exit_code).1->Ok_0;
            &&& segment.post_image == committed_image(turn.s)
            &&& segment.post_image == committed_image(after)
            &&& turn.s.pre_image == Some(segment.pre_image)
            &&& segment.exit_code == exit_code
            &&& segment.output is None
            &&& segment.reads == after.monitor.saved.reads
            &&& segment.writes == after.monitor.saved.writes
            &&& segment.split_insn == after.split_insn
            &&& segment.index == turn.s.segments.len()
            &&& segment.cycles == after.body_cycles
            &&& !commits(turn.result()) ==> {
                &&& segment.reads == turn.s.monitor.saved.reads
                &&& segment.writes == turn.s.monitor.saved.writes
                &&& segment.cycles == turn.s.body_cycles
            }
        }),
{
    lemma_begun_ready(s);
    lemma_takes_connected(h, s, turns, t, r);
    lemma_reached(h, s.begun().0, turns, k);
    let turn = turns[k];
    lemma_turn(h, turn);
    lemma_sealed(turn.after(), exit_code);
    law_step(turn.s, turn.decoded, turn.reply);
    law_end_keeps_guest(turn.s, turn.decoded, turn.reply);
    let segment = turn.after().sealed(exit_code).1->Ok_0;
    assert(segment.post_image =~= committed_image(turn.s));
    assert(segment.post_image =~= committed_image(turn.after()));
}

/// What a step does not change.
#[verifier::rlimit(40)]
proof fn lemma_settings<R>(
    s: ExecView<R>,
    decoded: Result<OpCode, ErrorView>,
    reply: Result<SyscallReplyView, ErrorView>,
)
    requires
        s.inv(),
        takes_time(decoded),
    ensures
        same_settings(s, s.stepped(decoded, reply).0),
        s.stepped(decoded, reply).0.exit_code == s.exit_code,
        s.stepped(decoded, reply).0.pre_image == s.pre_image,
        s.stepped(decoded, reply).0.segments == s.segments,
{
    let t = s.stepped(decoded, reply).0;
    law_step(s, decoded, reply);
    if s.fetches() && decoded is Ok {
        law_ecall_commits_nothing(s.fetched(), reply);
    }
    assert(t.monitor.trace == s.monitor.trace);
}

/// How the segment begins that follows on a full one.
proof fn lemma_handed_on<R>(
    keep: spec_fn(SegmentView, Result<R, ErrorView>) -> bool,
    s: ExecView<R>,
    kept: R,
    u: ExecView<R>,
)
    requires
        hands_on(keep, s, kept, u),
        s.monitor.now == s.monitor.saved,
    ensures
        u.pre_image == Some(committed_image(s)),
        u.monitor.now == u.monitor.saved,
        u.monitor.now.mem == s.monitor.saved.mem,
        u.monitor.now.regs == s.monitor.saved.regs,
        u.monitor.now.reads == Set::<u32>::empty(),
        u.monitor.now.writes == Set::<u32>::empty(),
        u.monitor.cycle == s.monitor.cycle,
        u.monitor.events.len() == 0,
        u.insn_counter == 0,
        u.body_cycles == 0,
        u.segment_cycle == s.init_cycles,
        u.split_insn is None,
        u.syscalls.len() == 0,
        u.segments == s.segments.push(kept),
        u.pc == s.pc,
        u.pending_syscall == s.pending_syscall,
        u.journal == s.journal,
        u.assumptions == s.assumptions,
        u.output_digest == s.output_digest,
        u.exit_code == s.exit_code,
        u.traced == s.traced,
        same_settings(s, u),
{
}

/// After a segment was full the run goes on with the guest as it is: what the next
/// segment begins from is the memory, the registers and the program counter of the
/// executor. The segment starts with nothing counted. Within a segment, what it began
/// from stays.
#[verifier::rlimit(40)]
pub proof fn law_pre_image<R>(
    h: HostView<R>,
    s: ExecView<R>,
    turns: Seq<Turn<R>>,
    t: ExecView<R>,
    r: Result<SessionView<R>, ErrorView>,
    k: int,
)
    requires
        s.inv(),
        takes(h, s, turns, t, r),
        0 < k < turns.len(),
    ensures
        ({
            let (last, u) = (turns[k - 1], turns[k].s);
            if last.splits() {
                &&& u.pre_image == Some(committed_image(u))
                &&& committed_image(u) == committed_image(last.s)
                &&& u.monitor.now == u.monitor.saved
                &&& u.monitor.now.reads == Set::<u32>::empty()
                &&& u.monitor.now.writes == Set::<u32>::empty()
                &&& u.insn_counter == 0
                &&& u.body_cycles == 0
                &&& u.segment_cycle == u.init_cycles
                &&& u.init_cycles == last.s.init_cycles
                &&& u.split_insn is None
                &&& u.syscalls.len() == 0
                &&& u.segments.len() == last.s.segments.len() + 1
                &&& u.segments.drop_last() == last.s.segments
                &&& u.monitor.cycle == last.after().monitor.cycle
                &&& u.monitor.events.len() == 0
                &&& u.traced.len() == 0
                &&& u.pc == last.s.pc
                &&& u.pending_syscall == last.after().pending_syscall
                &&& u.journal == last.after().journal
                &&& u.assumptions == last.after().assumptions
                &&& u.output_digest == last.after().output_digest
                &&& u.exit_code == last.s.exit_code
                &&& same_settings(last.s, u)
            } else {
                &&& u == last.after()
                &&& u.pre_image == last.s.pre_image
                &&& u.segments == last.s.segments
                &&& u.exit_code == last.s.exit_code
                &&& same_settings(last.s, u)
            }
        }),
{
    lemma_begun_ready(s);
    lemma_takes_connected(h, s, turns, t, r);
    lemma_reached(h, s.begun().0, turns, k - 1);
    let (last, u) = (turns[k - 1], turns[k].s);
    assert(turns[k - 1].allowed(h));
    lemma_settings(last.s, last.decoded, last.reply);
    assert(goes_on(h, turns[k - 1], turns[k].s));
    if last.splits() {
        lemma_turn(h, last);
        law_split_records_nothing(last.s, last.decoded, last.reply);
        law_end_keeps_guest(last.s, last.decoded, last.reply);
        let kept = choose|kept: R| #[trigger] hands_on(h.keep, last.after(), kept, u);
        lemma_handed_on(h.keep, last.after(), kept, u);
        assert(u.segments.drop_last() =~= last.s.segments);
        assert(committed_image(u) =~= committed_image(last.s));
        assert(committed_image(last.after()) =~= committed_image(u));
    }
}

/// Between `s` and `u` nothing has changed that was settled when the executor was made.
pub open spec fn same_settings<R>(s: ExecView<R>, u: ExecView<R>) -> bool {
    &&& u.env == s.env
    &&& u.init_cycles == s.init_cycles
    &&& u.const_cycles == s.const_cycles
    &&& u.segment_limit == s.segment_limit
    &&& u.monitor.trace == s.monitor.trace
    &&& u.monitor.page_read_cost == s.monitor.page_read_cost
    &&& u.monitor.page_write_cost == s.monitor.page_write_cost
}

/// The first turn of a run starts with the guest that there is to run, with nothing
/// touched yet, and with an empty journal.
pub proof fn law_first_turn<R>(
    h: HostView<R>,
    s: ExecView<R>,
    turns: Seq<Turn<R>>,
    t: ExecView<R>,
    r: Result<SessionView<R>, ErrorView>,
)
    requires
        takes(h, s, turns, t, r),
    ensures
        ({
            let u = turns[0].s;
            &&& s.pre_image is Some
            &&& s.exit_code matches Some(code) ==> code is Paused || code is SystemSplit
            &&& u.pre_image == s.pre_image
            &&& u.pc == s.pre_image->Some_0.pc
            &&& u.monitor.now == u.monitor.saved
            &&& u.monitor.now.mem == s.monitor.saved.mem
            &&& u.monitor.now.regs == s.monitor.saved.regs
            &&& u.monitor.now.reads == Set::<u32>::empty()
            &&& u.monitor.now.writes == Set::<u32>::empty()
            &&& u.monitor.events.len() == 0
            &&& u.monitor.cycle == 0
            &&& u.journal.len() == 0
            &&& u == ExecView { pc: u.pc, monitor: u.monitor, journal: u.journal, ..s }
            &&& same_settings(s, u)
        }),
{
    lemma_takes_connected(h, s, turns, t, r);
}

/// A run cannot begin where the guest has halted, has faulted or has met the session
/// limit, nor where there is nothing to run. Then nothing is changed.
pub proof fn law_cannot_begin<R>(s: ExecView<R>)
    ensures
        match s.exit_code {
            Some(code) => if code is Halted || code is Fault || code is SessionLimit {
                s.begun() == (s, Err::<(), ErrorView>(ErrorView::CannotResume(code)))
            } else {
                true
            },
            None => true,
        },
        (s.exit_code matches Some(code) ==> code is Paused || code is SystemSplit)
            && s.pre_image is None ==> s.begun() == (s, Err::<(), ErrorView>(
            ErrorView::NoPreImage,
        )),
        (s.exit_code matches Some(code) ==> code is Paused || code is SystemSplit)
            && s.pre_image is Some ==> s.begun().1 is Ok,
{
}

/// A step meets the session limit if and only if the cycles of the session reach it: as
/// many as fit into each segment that was kept, and those of the segment in progress.
pub proof fn law_step_limit<R>(
    s: ExecView<R>,
    decoded: Result<OpCode, ErrorView>,
    reply: Result<SyscallReplyView, ErrorView>,
)
    ensures
        s.stepped(decoded, reply).1 == Ok::<Option<ExitCode>, ErrorView>(
            Some(ExitCode::SessionLimit),
        ) <==> (s.env.session_limit is Some && s.segments.len() * s.segment_limit
            + s.segment_cycle >= s.env.session_limit->Some_0),
{
    if s.fetches() && decoded is Ok {
        law_ecall_commits_nothing(s.fetched(), reply);
    }
}

/// A run that succeeds under a session limit keeps it: the segments before the last one,
/// each counted with as many cycles as fit into it, do not reach the limit.
#[verifier::rlimit(40)]
pub proof fn law_limit_kept<R>(
    h: HostView<R>,
    s: ExecView<R>,
    turns: Seq<Turn<R>>,
    t: ExecView<R>,
    session: SessionView<R>,
    limit: u64,
)
    requires
        s.inv(),
        takes(h, s, turns, t, Ok(session)),
        s.env.session_limit == Some(limit),
    ensures
        session.segments.len() > 0,
        (session.segments.len() - 1) * s.segment_limit < limit,
        forall|k: int|
            0 <= k < turns.len() ==> (#[trigger] turns[k]).s.segments.len() * s.segment_limit
                + turns[k].s.segment_cycle < limit,
        s.segment_limit == pow2(s.env.limit_po2() as nat),
{
    let r = Ok::<SessionView<R>, ErrorView>(session);
    let s1 = s.begun().0;
    lemma_begun_ready(s);
    lemma_takes_connected(h, s, turns, t, r);
    let (s2, exit_code, segment) = choose|
        s2: ExecView<R>,
        exit_code: ExitCode,
        segment: SegmentView,
    |
        {
            &&& #[trigger] loops(h, s1, turns, s2, Ok((exit_code, segment)))
            &&& closes(h.keep, s2, exit_code, segment, t, r)
        };
    let last = turns.len() - 1;
    assert forall|k: int| 0 <= k < turns.len() implies (#[trigger] turns[k]).s.segments.len()
        * s.segment_limit + turns[k].s.segment_cycle < limit by {
        let turn = turns[k];
        lemma_reached(h, s1, turns, k);
        law_step_limit(turn.s, turn.decoded, turn.reply);
        if k < last {
            assert(goes_on(h, turns[k], turns[k + 1].s));
        } else {
            lemma_ends(h, turn, s2, exit_code, segment);
        }
    }
    lemma_reached(h, s1, turns, last);
    lemma_ends(h, turns[last], s2, exit_code, segment);
    let u = turns[last].s;
    assert(session.segments.len() == u.segments.len() + 1);
    assert(u.segments.len() * s.segment_limit + u.segment_cycle < limit);
}

/// The cycles of the segment in progress: those of any segment, those of the pages that
/// it has touched, and those of its instructions.
pub open spec fn cycles_so_far<R>(s: ExecView<R>) -> int {
    s.const_cycles + s.monitor.page_read_cost * s.monitor.now.reads.len()
        + s.monitor.page_write_cost * s.monitor.now.writes.len() + s.body_cycles
}

/// How far the segment and the session are.
pub proof fn law_cycles<R>(s: ExecView<R>)
    ensures
        s.total_cycles() == cycles_so_far(s),
        s.session_cycle() == s.segments.len() * s.segment_limit + s.segment_cycle,
{
}

/// Closing a segment: it has to keep the limit, there has to be a guest that it began
/// with, and it has to have a number. Its size is the least power of two that reaches
/// its cycles. After that there is nothing to run from.
pub proof fn law_sealed<R>(s: ExecView<R>, exit_code: ExitCode)
    requires
        s.inv(),
    ensures
        ({
            let (t, r) = s.sealed(exit_code);
            if cycles_so_far(s) > s.segment_limit {
                t == s && r == Err::<SegmentView, ErrorView>(ErrorView::SegmentOverLimit)
            } else if s.pre_image is None {
                t == s && r == Err::<SegmentView, ErrorView>(ErrorView::NoPreImage)
            } else {
                &&& t == ExecView { pre_image: None, syscalls: Seq::empty(), ..s }
                &&& s.segments.len() > u32::MAX ==> r == Err::<SegmentView, ErrorView>(
                    ErrorView::TooManySegments,
                )
                &&& s.segments.len() <= u32::MAX ==> {
                    &&& r matches Ok(segment)
                    &&& segment.pre_image == s.pre_image->Some_0
                    &&& segment.post_image == (ImageView {
                        mem: s.monitor.now.mem,
                        regs: s.monitor.now.regs,
                        pc: s.pc,
                    })
                    &&& segment.output is None
                    &&& segment.reads == s.monitor.now.reads
                    &&& segment.writes == s.monitor.now.writes
                    &&& segment.syscalls == s.syscalls
                    &&& segment.exit_code == exit_code
                    &&& segment.split_insn == s.split_insn
                    &&& segment.index == s.segments.len()
                    &&& segment.cycles == s.body_cycles
                    &&& cycles_so_far(s) <= pow2(segment.po2 as nat)
                    &&& segment.po2 > 0 ==> pow2((segment.po2 - 1) as nat) < cycles_so_far(s)
                }
            }
        }),
{
    if s.sealed(exit_code).1 is Ok {
        lemma_sealed(s, exit_code);
    }
}

/// A new executor: segments have between 2 to the power of 13 and 2 to the power of 24
/// cycles, and 2 to the power of 20 if nothing else is settled. It is where its image
/// is, with nothing done yet.
pub proof fn law_created<R>(env: EnvView, image: ImageView, costs: CycleCosts)
    ensures
        ({
            let po2 = match env.segment_limit_po2 {
                Some(po2) => po2,
                None => 20,
            };
            let r = created::<R>(env, image, costs);
            if po2 < 13 || po2 > 24 {
                r == Err::<ExecView<R>, ErrorView>(ErrorView::InvalidSegmentLimit(po2))
            } else {
                &&& r matches Ok(s)
                &&& s.env == env
                &&& s.pre_image == Some(image)
                &&& s.pc == image.pc
                &&& s.monitor.now == s.monitor.saved
                &&& s.monitor.now.mem == image.mem
                &&& s.monitor.now.regs == image.regs
                &&& s.monitor.now.reads == Set::<u32>::empty()
                &&& s.monitor.now.writes == Set::<u32>::empty()
                &&& s.monitor.events.len() == 0
                &&& s.monitor.trace == env.trace
                &&& s.monitor.cycle == 0
                &&& s.monitor.page_read_cost == costs.page_read_cycles
                &&& s.monitor.page_write_cost == costs.page_write_cycles
                &&& s.segment_limit == pow2(po2 as nat)
                &&& s.init_cycles == costs.init_cycles
                &&& s.segment_cycle == costs.init_cycles
                &&& s.const_cycles == costs.init_cycles + costs.fini_cycles + costs.zk_cycles + 73
                &&& s.body_cycles == 0
                &&& s.insn_counter == 0
                &&& s.segments.len() == 0
                &&& s.split_insn is None
                &&& s.pending_syscall is None
                &&& s.syscalls.len() == 0
                &&& s.exit_code is None
                &&& s.output_digest is None
                &&& s.journal.len() == 0
                &&& s.assumptions.len() == 0
                &&& s.traced.len() == 0
            }
        }),
{
}

/// The guest has set an output: the digest that it gave is not 32 zeros.
pub open spec fn has_set_output<R>(s: ExecView<R>) -> bool {
    match s.output_digest {
        Some(d) => d.len() != 32 || exists|i: int| 0 <= i < 32 && #[trigger] d[i] != 0,
        None => false,
    }
}

/// Ending a session: the journal is made public if the guest has set an output, and then
/// the last segment of a guest that has halted or paused has it in its output, with what
/// each assumption claims. An assumption without a claim is an error there.
#[verifier::rlimit(40)]
pub proof fn law_finished<R>(s: ExecView<R>, exit_code: ExitCode, segment: SegmentView)
    ensures
        ({
            let (t, r) = s.finished(exit_code, segment);
            let public = has_set_output(s);
            let ends = exit_code is Halted || exit_code is Paused;
            let claimed = forall|i: int|
                0 <= i < s.assumptions.len() ==> claim_in(#[trigger] s.assumptions[i]) is Some;
            &&& t.exit_code == Some(exit_code)
            &&& t.assumptions.len() == 0
            &&& public ==> t.journal.len() == 0
            &&& t == ExecView {
                exit_code: t.exit_code,
                assumptions: t.assumptions,
                journal: if public {
                    t.journal
                } else {
                    s.journal
                },
                ..s
            }
            &&& if public && ends && !claimed {
                r == Err::<FinishView, ErrorView>(ErrorView::MissingClaim)
            } else {
                &&& r matches Ok(finish)
                &&& finish.journal == (if public {
                    Some(s.journal)
                } else {
                    None
                })
                &&& finish.assumptions == s.assumptions
                &&& finish.segment == SegmentView { output: finish.segment.output, ..segment }
                &&& !(public && ends) ==> finish.segment.output == segment.output
                &&& public && ends ==> {
                    &&& finish.segment.output matches Some(output)
                    &&& output.journal == s.journal
                    &&& output.assumptions.len() == s.assumptions.len()
                    &&& forall|i: int|
                        0 <= i < s.assumptions.len() ==> Some(#[trigger] output.assumptions[i])
                            == claim_in(s.assumptions[i])
                }
            }
        }),
{
    law_claims(s.assumptions);
    if let Some(d) = s.output_digest {
        if d.len() == 32 && forall|i: int| 0 <= i < 32 ==> #[trigger] d[i] == 0 {
            assert(d =~= zero_digest());
        }
        if d == zero_digest() {
            assert(!has_set_output(s));
        }
    }
}

/// A run that succeeds ends with its last turn: how that ended, and with the guest as it
/// was then. The session has one segment more than the executor had kept.
#[verifier::rlimit(40)]
pub proof fn law_session_end<R>(
    h: HostView<R>,
    s: ExecView<R>,
    turns: Seq<Turn<R>>,
    t: ExecView<R>,
    session: SessionView<R>,
)
    requires
        s.inv(),
        takes(h, s, turns, t, Ok(session)),
    ensures
        turns.last().result() == Ok::<Option<ExitCode>, ErrorView>(Some(session.exit_code)),
        session.post_image == committed_image(turns.last().s),
        session.segments.len() == turns.last().s.segments.len() + 1,
        session.segments.drop_last() == turns.last().s.segments,
        session.journal == (if has_set_output(turns.last().after()) {
            Some(turns.last().after().journal)
        } else {
            None
        }),
        session.assumptions == turns.last().after().assumptions,
        t.exit_code == Some(session.exit_code),
        t.segments.len() == 0,
        t.assumptions.len() == 0,
{
    let r = Ok::<SessionView<R>, ErrorView>(session);
    let s1 = s.begun().0;
    lemma_begun_ready(s);
    lemma_takes_connected(h, s, turns, t, r);
    let (s2, exit_code, segment) = choose|
        s2: ExecView<R>,
        exit_code: ExitCode,
        segment: SegmentView,
    |
        {
            &&& #[trigger] loops(h, s1, turns, s2, Ok((exit_code, segment)))
            &&& closes(h.keep, s2, exit_code, segment, t, r)
        };
    let k = turns.len() - 1;
    let turn = turns[k];
    lemma_reached(h, s1, turns, k);
    lemma_turn(h, turn);
    lemma_ends(h, turn, s2, exit_code, segment);
    lemma_sealed(turn.after(), exit_code);
    law_finished(s2, exit_code, segment);
    law_post_image(h, s, turns, t, r, k, exit_code);
    assert(has_set_output(s2) == has_set_output(turn.after()));
    assert(session.segments.drop_last() =~= turn.s.segments);
}

/// A run whose step fails, fails with that, and stays where it is.
pub proof fn law_step_fails_run<R>(
    h: HostView<R>,
    s: ExecView<R>,
    turns: Seq<Turn<R>>,
    t: ExecView<R>,
    r: Result<SessionView<R>, ErrorView>,
    k: int,
    e: ErrorView,
)
    requires
        takes(h, s, turns, t, r),
        0 <= k < turns.len(),
        turns[k].result() == Err::<Option<ExitCode>, ErrorView>(e),
    ensures
        k == turns.len() - 1,
        r == Err::<SessionView<R>, ErrorView>(e),
        t == turns[k].after(),
{
    let s1 = s.begun().0;
    lemma_takes_connected(h, s, turns, t, r);
    let turn = turns[k];
    if k < turns.len() - 1 {
        assert(goes_on(h, turns[k], turns[k + 1].s));
    } else if !(r is Err && loops(h, s1, turns, t, Err(r->Err_0))) {
        let (s2, exit_code, segment) = choose|
            s2: ExecView<R>,
            exit_code: ExitCode,
            segment: SegmentView,
        |
            {
                &&& #[trigger] loops(h, s1, turns, s2, Ok((exit_code, segment)))
                &&& closes(h.keep, s2, exit_code, segment, t, r)
            };
        assert(ends(h, turn, s2, Ok((exit_code, segment))));
    } else {
        assert(ends(h, turn, t, Err(r->Err_0)));
    }
}

/// A run is over with the first turn that ends the guest, and with no other that
/// succeeds: it goes on as long as instructions are committed and segments are full.
pub proof fn law_run_goes_on<R>(
    h: HostView<R>,
    s: ExecView<R>,
    turns: Seq<Turn<R>>,
    t: ExecView<R>,
    r: Result<SessionView<R>, ErrorView>,
    k: int,
)
    requires
        takes(h, s, turns, t, r),
        0 <= k < turns.len(),
    ensures
        k < turns.len() - 1 ==> turns[k].result() == Ok::<Option<ExitCode>, ErrorView>(None)
            || turns[k].splits(),
        k == turns.len() - 1 ==> turns[k].result() != Ok::<Option<ExitCode>, ErrorView>(None),
        k == turns.len() - 1 && turns[k].splits() ==> r is Err,
{
    let s1 = s.begun().0;
    lemma_takes_connected(h, s, turns, t, r);
    if k < turns.len() - 1 {
        assert(goes_on(h, turns[k], turns[k + 1].s));
    } else if !(r is Err && loops(h, s1, turns, t, Err(r->Err_0))) {
        let (s2, exit_code, segment) = choose|
            s2: ExecView<R>,
            exit_code: ExitCode,
            segment: SegmentView,
        |
            {
                &&& #[trigger] loops(h, s1, turns, s2, Ok((exit_code, segment)))
                &&& closes(h.keep, s2, exit_code, segment, t, r)
            };
        assert(ends(h, turns[k], s2, Ok((exit_code, segment))));
    } else {
        assert(ends(h, turns[k], t, Err(r->Err_0)));
    }
}

/// What a run comes to with its last turn. A segment that cannot be closed, or that the
/// host does not take, fails the run with just that error. At the session limit the run
/// fails even if the host takes the segment. The last segment is given to the host with
/// its output, and what the host makes of it is the last of the session.
#[verifier::rlimit(40)]
pub proof fn law_run_stops<R>(
    h: HostView<R>,
    s: ExecView<R>,
    turns: Seq<Turn<R>>,
    t: ExecView<R>,
    r: Result<SessionView<R>, ErrorView>,
    exit_code: ExitCode,
)
    requires
        takes(h, s, turns, t, r),
        turns.last().result() == Ok::<Option<ExitCode>, ErrorView>(Some(exit_code)),
    ensures
        match turns.last().after().sealed(exit_code) {
            (sealed, Err(e)) => t == sealed && r == Err::<SessionView<R>, ErrorView>(e),
            (sealed, Ok(segment)) => if exit_code is SystemSplit {
                t == sealed && r is Err && (h.keep)(segment, Err(r->Err_0))
            } else if exit_code is SessionLimit {
                &&& r is Err
                &&& (h.keep)(segment, Err(r->Err_0)) && t == sealed || (r->Err_0
                    == ErrorView::SessionLimitExceeded && exists|kept: R| #[trigger]
                    (h.keep)(segment, Ok(kept)) && t == (ExecView {
                        segments: sealed.segments.push(kept),
                        ..sealed
                    }))
            } else {
                &&& r is Err ==> {
                    &&& t.exit_code == Some(exit_code)
                    &&& t.segments == sealed.segments
                    &&& t.assumptions.len() == 0
                    &&& t.pre_image == (if exit_code is Paused {
                        Some(
                            ImageView {
                                pc: (segment.post_image.pc + 4) as u32,
                                ..segment.post_image
                            },
                        )
                    } else {
                        None
                    })
                }
                &&& match (sealed.finished(exit_code, segment).1, r) {
                    (Err(e), _) => r == Err::<SessionView<R>, ErrorView>(e),
                    (Ok(finish), Err(e)) => (h.keep)(finish.segment, Err(e)),
                    (Ok(finish), Ok(session)) => {
                        &&& session.segments.len() > 0
                        &&& (h.keep)(finish.segment, Ok(session.segments.last()))
                        &&& session.exit_code == exit_code
                        &&& session.post_image == segment.post_image
                        &&& session.journal == finish.journal
                        &&& session.assumptions == finish.assumptions
                    },
                }
            },
        },
{
    let s1 = s.begun().0;
    lemma_takes_connected(h, s, turns, t, r);
    let turn = turns.last();
    let after = turn.after();
    if r is Err && loops(h, s1, turns, t, Err(r->Err_0)) {
        assert(ends(h, turn, t, Err(r->Err_0)));
    } else {
        let (s2, code, segment) = choose|
            s2: ExecView<R>,
            code: ExitCode,
            segment: SegmentView,
        |
            {
                &&& #[trigger] loops(h, s1, turns, s2, Ok((code, segment)))
                &&& closes(h.keep, s2, code, segment, t, r)
            };
        assert(ends(h, turn, s2, Ok((code, segment))));
        let sealed = after.sealed(exit_code).0;
        assert(s2.finished(exit_code, segment).1 == sealed.finished(exit_code, segment).1);
    }
}

/// In each turn the host decodes the instruction that the guest is at, replies to its
/// system call, with the name and the number of words that the guest asks for and with
/// the guest as it is, and is told what was traced.
#[verifier::rlimit(40)]
pub proof fn law_host_asked<R>(
    h: HostView<R>,
    s: ExecView<R>,
    turns: Seq<Turn<R>>,
    t: ExecView<R>,
    r: Result<SessionView<R>, ErrorView>,
    k: int,
    insn: u32,
    len: nat,
)
    requires
        takes(h, s, turns, t, r),
        0 <= k < turns.len(),
        at_instruction(turns[k].s, insn),
    ensures
        (h.trace)(turns[k].after().traced),
        (h.decode)(insn, turns[k].s.pc, turns[k].decoded),
        turns[k].decoded matches Ok(op) ==> op.spec_cycles() > 0,
        ({
            let turn = turns[k];
            let g = turn.s.monitor.now;
            turn.decoded matches Ok(op) && at_syscall(turn.s, insn, op, len)
                && turn.s.pending_syscall is None && turn.s.env.syscalls.contains(
                name_of(turn.s, len),
            ) ==> exists|m: MonitorView|
                {
                    &&& #[trigger] (h.syscall)(name_of(turn.s, len), g.regs[11], m, turn.reply)
                    &&& only_read(
                        turn.s.monitor,
                        m,
                        page_set(turn.s.pc as int, 4).union(
                            page_set(g.regs[12] as int, len as int + 1),
                        ),
                    )
                }
        }),
{
    lemma_takes_connected(h, s, turns, t, r);
    let turn = turns[k];
    assert(turns[k].allowed(h));
    lemma_fetch(turn.s, insn);
    if let Ok(op) = turn.decoded {
        if at_syscall(turn.s, insn, op, len) && turn.s.pending_syscall is None
            && turn.s.env.syscalls.contains(name_of(turn.s, len)) {
            lemma_asked(turn.s, insn, op, len);
            let m = turn.s.fetched().syscall_read().0;
            let read = page_set(turn.s.pc as int, 4).union(
                page_set(turn.s.monitor.now.regs[12] as int, len as int + 1),
            );
            assert(m.now.reads =~= turn.s.monitor.now.reads.union(read));
            assert(turn.s.calls_system(turn.decoded));
            assert((h.syscall)(
                name_of(turn.s, len),
                turn.s.monitor.now.regs[11],
                m,
                turn.reply,
            ));
        }
    }
}

/// What the host answers is what its functions return, for what they are called with.
pub proof fn law_host_functions<
    R,
    D: Fn(u32, u32) -> Result<OpCode, ExecError>,
    S: Fn(&SyscallRequest, &MemoryMonitor) -> Result<SyscallReply, ExecError>,
    T: Fn(&Vec<TraceEvent>),
    F: Fn(Segment) -> Result<R, ExecError>,
>(decode: &D, syscall: &S, trace: &T, callback: &F)
    ensures
        ({
            let h: HostView<R> = host(decode, syscall, trace, callback);
            &&& forall|insn: u32, pc: u32, r: Result<OpCode, ErrorView>| #[trigger]
                (h.decode)(insn, pc, r) ==> exists|d: Result<OpCode, ExecError>| #[trigger]
                    decode.ensures((insn, pc), d) && viewed(d) == r
            &&& forall|
                name: Seq<char>,
                words: u32,
                m: MonitorView,
                r: Result<SyscallReplyView, ErrorView>,
            | #[trigger]
                (h.syscall)(name, words, m, r) ==> exists|
                    request: SyscallRequest,
                    monitor: MemoryMonitor,
                    d: Result<SyscallReply, ExecError>,
                |
                    {
                        &&& #[trigger] syscall.ensures((&request, &monitor), d)
                        &&& request.name@ == name
                        &&& request.to_guest_words == words
                        &&& monitor@ == m
                        &&& reply_view(d) == r
                    }
            &&& forall|events: Seq<TraceEvent>| #[trigger]
                (h.trace)(events) && events.len() > 0 ==> exists|told: Vec<TraceEvent>|
                    #[trigger] trace.ensures((&told,), ()) && told@ == events
            &&& forall|segment: SegmentView, r: Result<R, ErrorView>| #[trigger]
                (h.keep)(segment, r) ==> exists|given: Segment, d: Result<R, ExecError>|
                    #[trigger] callback.ensures((given,), d) && given@ == segment && viewed(d) == r
        }),
{
}

/// A session that was paused leaves the executor behind the instruction that has paused
/// it, at the start of a new segment. Any other leaves nothing to run from.
#[verifier::rlimit(40)]
pub proof fn law_after_session<R>(
    h: HostView<R>,
    s: ExecView<R>,
    turns: Seq<Turn<R>>,
    t: ExecView<R>,
    session: SessionView<R>,
)
    requires
        s.inv(),
        takes(h, s, turns, t, Ok(session)),
    ensures
        t.syscalls.len() == 0,
        t.pending_syscall == turns.last().after().pending_syscall,
        t.output_digest == turns.last().after().output_digest,
        t.env == s.env,
        t.segment_limit == s.segment_limit,
        t.const_cycles == s.const_cycles,
        has_set_output(turns.last().after()) ==> t.journal.len() == 0,
        t.monitor.saved.mem == session.post_image.mem,
        t.monitor.saved.regs == session.post_image.regs,
        session.exit_code is Paused ==> {
            &&& t.pre_image == Some(
                ImageView {
                    mem: session.post_image.mem,
                    regs: session.post_image.regs,
                    pc: (turns.last().s.pc + 4) as u32,
                },
            )
            &&& turns.last().s.pc + 4 <= u32::MAX
            &&& t.insn_counter == 0
            &&& t.body_cycles == 0
            &&& t.segment_cycle == t.init_cycles
            &&& t.split_insn is None
            &&& t.monitor.now == t.monitor.saved
            &&& t.monitor.saved.reads == Set::<u32>::empty()
            &&& t.monitor.saved.writes == Set::<u32>::empty()
        },
        !(session.exit_code is Paused) ==> {
            &&& t.pre_image is None
            &&& t.monitor == turns.last().after().monitor
            &&& t.insn_counter == turns.last().after().insn_counter
            &&& t.body_cycles == turns.last().after().body_cycles
            &&& t.segment_cycle == turns.last().after().segment_cycle
            &&& t.split_insn == turns.last().after().split_insn
        },
        t.pc == turns.last().s.pc,
        t.traced == turns.last().after().traced,
{
    let r = Ok::<SessionView<R>, ErrorView>(session);
    let s1 = s.begun().0;
    lemma_begun_ready(s);
    lemma_takes_connected(h, s, turns, t, r);
    let (s2, exit_code, segment) = choose|
        s2: ExecView<R>,
        exit_code: ExitCode,
        segment: SegmentView,
    |
        {
            &&& #[trigger] loops(h, s1, turns, s2, Ok((exit_code, segment)))
            &&& closes(h.keep, s2, exit_code, segment, t, r)
        };
    let k = turns.len() - 1;
    let turn = turns[k];
    lemma_reached(h, s1, turns, k);
    lemma_turn(h, turn);
    lemma_ends(h, turn, s2, exit_code, segment);
    lemma_sealed(turn.after(), exit_code);
    law_finished(s2, exit_code, segment);
    law_post_image(h, s, turns, t, r, k, exit_code);
    assert(has_set_output(s2) == has_set_output(turn.after()));
    assert(ends(h, turn, s2, Ok((exit_code, segment))));
}

/// Segments are kept at the path that is settled, if one is: then nobody is asked for
/// another. Otherwise they are kept in a directory that is made for them.
pub proof fn law_path<R, P: Fn() -> Result<String, ExecError>>(
    tempdir: &P,
    s: ExecView<R>,
    path: Seq<char>,
    r: Result<Seq<char>, ErrorView>,
)
    ensures
        may_settle(tempdir, Some(path), r) <==> r == Ok::<Seq<char>, ErrorView>(path),
        may_settle(tempdir, None, r) ==> exists|made: Result<String, ExecError>|
            {
                &&& #[trigger] tempdir.ensures((), made)
                &&& match (made, r) {
                    (Ok(at), Ok(p)) => at@ == p,
                    (Err(e), Err(f)) => e@ == f,
                    _ => false,
                }
            },
        s.with_path(path) == (ExecView {
            env: EnvView { segment_path: Some(path), ..s.env },
            ..s
        }),
{
    if may_settle(tempdir, None, r) {
        let made = choose|made: Result<String, ExecError>|
            string_result(made) == r && #[trigger] tempdir.ensures((), made);
        assert(tempdir.ensures((), made));
    }
}

/// A host that stores segments at a path is given that path with each of them, and
/// answers by its other functions as any does.
pub proof fn law_store<
    R,
    D: Fn(u32, u32) -> Result<OpCode, ExecError>,
    S: Fn(&SyscallRequest, &MemoryMonitor) -> Result<SyscallReply, ExecError>,
    T: Fn(&Vec<TraceEvent>),
    K: Fn(Segment, &String) -> Result<R, ExecError>,
>(h: HostView<R>, decode: &D, syscall: &S, trace: &T, store: &K, path: Seq<char>)
    requires
        stores_at(h, decode, syscall, trace, store, path),
    ensures
        h.decode == decode_of(decode),
        h.syscall == syscall_of(syscall),
        h.trace == trace_of(trace),
        forall|segment: SegmentView, r: Result<R, ErrorView>| #[trigger]
            (h.keep)(segment, r) ==> exists|given: Segment, at: String, d: Result<R, ExecError>|
                {
                    &&& #[trigger] store.ensures((given, &at), d)
                    &&& given@ == segment
                    &&& at@ == path
                    &&& viewed(d) == r
                },
{
}

} // verus!
