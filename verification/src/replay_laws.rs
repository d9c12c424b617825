//! What holds of system calls that are cut off and taken up again.
use crate::guest::{GuestView, MonitorView};
use crate::host::takes_time;
use crate::laws::{law_split_records_nothing, law_step};
use crate::platform::{guest_addr, GUEST_MAX_MEM};
use crate::state::{answered, read_regions, ExecView};
use crate::types::{
    fitted, ErrorView, ExitCode, OpCode, SyscallRecordView, SyscallReplyView,
};
use vstd::prelude::*;

verus! {

/// Two states of the guest have the same memory and the same registers.
pub open spec fn same_guest(a: MonitorView, b: MonitorView) -> bool {
    a.now.mem == b.now.mem && a.now.regs == b.now.regs
}

/// The executor in the next segment, after the host made `kept` of the segment that
/// was full in `t`.
pub open spec fn next_segment<R>(t: ExecView<R>, kept: R) -> ExecView<R> {
    let (s, segment) = t.sealed(ExitCode::SystemSplit);
    s.kept(kept).split(Some(segment->Ok_0.post_image))
}

/// The answer that a system call leaves to be committed: the one that it found, or
/// else what the host replies.
pub open spec fn answer_of<R>(s: ExecView<R>, reply: Result<SyscallReplyView, ErrorView>) -> Option<
    SyscallRecordView,
> {
    match (s.pending_syscall, reply) {
        (Some(record), _) => Some(record),
        (None, Ok(r)) => Some(
            SyscallRecordView {
                to_guest: fitted(r.to_guest, s.syscall_read().1->Ok_0.1 as nat),
                regs: r.regs,
            },
        ),
        (None, Err(_)) => None,
    }
}

/// Strings are read from memory alone.
proof fn lemma_string_len(a: GuestView, b: GuestView, addr: int)
    requires
        a.mem == b.mem,
    ensures
        a.string_len(addr) == b.string_len(addr),
    decreases GUEST_MAX_MEM - addr,
{
    if guest_addr(addr) && a.byte_at(addr) != 0 {
        lemma_string_len(a, b, addr + 1);
    }
}

/// What a guest asks for depends on its memory and its registers alone, and asking
/// changes neither.
proof fn lemma_same_request<R>(a: ExecView<R>, b: ExecView<R>)
    requires
        same_guest(a.monitor, b.monitor),
    ensures
        a.syscall_read().1 == b.syscall_read().1,
        same_guest(a.syscall_read().0, a.monitor),
        same_guest(b.syscall_read().0, b.monitor),
{
    let (m, n) = (a.monitor, b.monitor);
    if let Ok(addr) = m.read_addr(crate::platform::REG_A2) {
        lemma_string_len(m.now, n.now, addr as int);
        let len = m.now.string_len(addr as int) as int;
        assert(m.now.bytes_at(addr as int, len) =~= n.now.bytes_at(addr as int, len));
    }
}

/// Handing an answer over depends on the memory and the registers of the guest
/// alone.
proof fn lemma_same_answer(m: MonitorView, n: MonitorView, to_guest_ptr: u32, record: SyscallRecordView)
    requires
        same_guest(m, n),
    ensures
        answered(m, to_guest_ptr, record).1 == answered(n, to_guest_ptr, record).1,
        same_guest(answered(m, to_guest_ptr, record).0, answered(n, to_guest_ptr, record).0),
{
}

/// Reading regions changes neither memory nor registers.
pub proof fn lemma_read_regions_guest(m: MonitorView, loads: Seq<(u32, u32)>)
    ensures
        same_guest(read_regions(m, loads).0, m),
    decreases loads.len(),
{
    if loads.len() > 0 {
        lemma_read_regions_guest(
            m.read_region(loads[0].0, loads[0].1 as int).0,
            loads.drop_first(),
        );
    }
}

/// What a system call that succeeds does: it hands the answer to the guest.
#[verifier::rlimit(40)]
proof fn lemma_syscall_answered<R>(s: ExecView<R>, reply: Result<SyscallReplyView, ErrorView>)
    requires
        s.syscall_answered(reply).1 is Ok,
    ensures
        ({
            let (t, r) = s.syscall_answered(reply);
            let (ptr, words, _) = s.syscall_read().1->Ok_0;
            &&& s.syscall_read().1 is Ok
            &&& answer_of(s, reply) is Some
            &&& t.pending_syscall == answer_of(s, reply)
            &&& answered(s.monitor, ptr, answer_of(s, reply)->Some_0).1 is Ok
            &&& same_guest(t.monitor, answered(s.monitor, ptr, answer_of(s, reply)->Some_0).0)
            &&& r == Ok::<crate::types::OpCodeResult, ErrorView>(
                s.next(1 + crate::platform::aligned_up(words as int, 4) + 1),
            )
        }),
{
    lemma_same_request(s, s);
    let (m, call) = s.syscall_read();
    let (ptr, words, _) = call->Ok_0;
    let record = answer_of(s, reply)->Some_0;
    if s.pending_syscall is None && reply is Ok {
        let r = reply->Ok_0;
        lemma_read_regions_guest(m, r.loads);
        lemma_same_answer(s.monitor, read_regions(m, r.loads).0, ptr, record);
    } else {
        lemma_same_answer(s.monitor, m, ptr, record);
    }
}

/// A system call that is replayed gives the guest the same answer as before: the
/// same memory, the same registers and the same cycles.
#[verifier::rlimit(40)]
pub proof fn law_replay_answers_alike<R>(
    s: ExecView<R>,
    again: ExecView<R>,
    reply: Result<SyscallReplyView, ErrorView>,
    other: Result<SyscallReplyView, ErrorView>,
)
    requires
        s.syscall_answered(reply).1 is Ok,
        again.pending_syscall == s.syscall_answered(reply).0.pending_syscall,
        again.pc == s.pc,
        same_guest(s.monitor, again.monitor),
    ensures
        ({
            let (t, r1) = s.syscall_answered(reply);
            let (u, r2) = again.syscall_answered(other);
            &&& again.pending_syscall is Some
            &&& r2 == r1
            &&& same_guest(u.monitor, t.monitor)
            &&& u.pending_syscall == again.pending_syscall
            &&& u.journal == again.journal
            &&& u.assumptions == again.assumptions
        }),
{
    lemma_syscall_answered(s, reply);
    lemma_same_request(s, again);
    let (ptr, words, _) = s.syscall_read().1->Ok_0;
    let record = answer_of(s, reply)->Some_0;
    let m = again.syscall_read().0;
    lemma_same_answer(s.monitor, m, ptr, record);
}

/// A system call that is cut off because the segment is full is taken up again in
/// the next segment without the host: the guest is as it was before the call, the
/// call finds the answer that it left, and it comes to the same. The host is asked
/// once, however often the instruction is executed.
#[verifier::rlimit(60)]
pub proof fn law_replay_across_split<R>(
    s: ExecView<R>,
    decoded: Result<OpCode, ErrorView>,
    reply: Result<SyscallReplyView, ErrorView>,
    kept: R,
    other: Result<SyscallReplyView, ErrorView>,
)
    requires
        s.inv(),
        s.monitor.clean(),
        takes_time(decoded),
        s.calls_system(decoded),
        s.stepped(decoded, reply).1 == Ok::<Option<ExitCode>, ErrorView>(
            Some(ExitCode::SystemSplit),
        ),
        s.stepped(decoded, reply).0.sealed(ExitCode::SystemSplit).1 is Ok,
    ensures
        ({
            let u = next_segment(s.stepped(decoded, reply).0, kept);
            let (first, r1) = s.fetched().ecalled(reply);
            let (again, r2) = u.fetched().ecalled(other);
            // The guest is as it was before the call.
            &&& u.pc == s.pc
            &&& same_guest(u.monitor, s.monitor)
            &&& u.monitor.read_word(u.pc).1 == s.monitor.read_word(s.pc).1
            // The answer is kept.
            &&& answer_of(s.fetched(), reply) is Some
            &&& first.pending_syscall == answer_of(s.fetched(), reply)
            &&& u.pending_syscall == first.pending_syscall
            // The host is not asked again.
            &&& !u.calls_host(decoded)
            &&& u.taken(decoded, other) is None
            // The call comes to the same.
            &&& r1 is Ok
            &&& r2 == r1
            &&& same_guest(again.monitor, first.monitor)
            &&& again.pending_syscall == u.pending_syscall
            &&& again.journal == u.journal && u.journal == first.journal
            &&& again.assumptions == u.assumptions && u.assumptions == first.assumptions
            &&& u.fetches() ==> u.came_to(decoded, other) == s.came_to(decoded, reply)
        }),
{
    let t = s.stepped(decoded, reply).0;
    let u = next_segment(t, kept);
    law_step(s, decoded, reply);
    law_split_records_nothing(s, decoded, reply);
    let f = s.fetched();
    let (first, r1) = f.ecalled(reply);
    assert(r1 is Ok);
    assert(t == first.cut_off());
    assert(same_guest(u.monitor, s.monitor));
    lemma_syscall_answered(f, reply);
    law_replay_answers_alike(f, u.fetched(), reply, other);
}

} // verus!
