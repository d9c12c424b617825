//! What the host may answer where the executor asks it.
use crate::access::string_result;
use crate::guest::MonitorView;
use crate::monitor::MemoryMonitor;
use crate::platform::{ECALL_SOFTWARE, REG_T0};
use crate::segment::{Segment, SegmentView};
use crate::state::{hart_ran, read_regions, ExecView};
use crate::types::{
    reply_view, viewed, ErrorView, ExecError, ExitCode, MajorType, OpCode, OpCodeResult, SyscallReply,
    SyscallReplyView, SyscallRequest, TraceEvent,
};
use vstd::prelude::*;

verus! {

/// The host, as the answers that it may give.
#[verifier::reject_recursive_types(R)]
pub struct HostView<R> {
    /// The instruction with these bits at this address may be decoded like this.
    pub decode: spec_fn(u32, u32, Result<OpCode, ErrorView>) -> bool,
    /// The system call with this name, which wants this many words from the
    /// guest in this state, may be replied to like this.
    pub syscall: spec_fn(Seq<char>, u32, MonitorView, Result<SyscallReplyView, ErrorView>) -> bool,
    /// The host was told of these events.
    pub trace: spec_fn(Seq<TraceEvent>) -> bool,
    /// This may be made of this segment.
    pub keep: spec_fn(SegmentView, Result<R, ErrorView>) -> bool,
}

/// Whether `syscall` may answer like this.
pub open spec fn may_reply<S: FnOnce(&SyscallRequest, &MemoryMonitor) -> Result<SyscallReply, ExecError>>(
    syscall: &S,
    name: Seq<char>,
    words: u32,
    guest: MonitorView,
    reply: Result<SyscallReplyView, ErrorView>,
) -> bool {
    exists|request: SyscallRequest, monitor: MemoryMonitor, r: Result<SyscallReply, ExecError>|
        {
            &&& request.name@ == name
            &&& request.to_guest_words == words
            &&& monitor@ == guest
            &&& reply_view(r) == reply
            &&& #[trigger] syscall.ensures((&request, &monitor), r)
        }
}

/// Decoded instructions take time.
pub open spec fn takes_time(decoded: Result<OpCode, ErrorView>) -> bool {
    decoded matches Ok(op) ==> op.spec_cycles() > 0
}

/// Whether `decode` may answer like this.
pub open spec fn may_decode<D: FnOnce(u32, u32) -> Result<OpCode, ExecError>>(
    decode: &D,
    insn: u32,
    pc: u32,
    r: Result<OpCode, ErrorView>,
) -> bool {
    exists|decoded: Result<OpCode, ExecError>|
        viewed(decoded) == r && #[trigger] decode.ensures((insn, pc), decoded)
}

/// The answers that `decode` may give.
pub open spec fn decode_of<D: FnOnce(u32, u32) -> Result<OpCode, ExecError>>(decode: &D) -> spec_fn(
    u32,
    u32,
    Result<OpCode, ErrorView>,
) -> bool {
    |insn: u32, pc: u32, r: Result<OpCode, ErrorView>| may_decode(decode, insn, pc, r)
}

/// The replies that `syscall` may give.
pub open spec fn syscall_of<S: FnOnce(&SyscallRequest, &MemoryMonitor) -> Result<SyscallReply, ExecError>>(
    syscall: &S,
) -> spec_fn(Seq<char>, u32, MonitorView, Result<SyscallReplyView, ErrorView>) -> bool {
    |
        name: Seq<char>,
        words: u32,
        guest: MonitorView,
        reply: Result<SyscallReplyView, ErrorView>,
    | may_reply(syscall, name, words, guest, reply)
}

/// Whether `trace` was told of these events, if there are any.
pub open spec fn was_told<T: Fn(&Vec<TraceEvent>)>(trace: &T, events: Seq<TraceEvent>) -> bool {
    events.len() > 0 ==> exists|told: Vec<TraceEvent>|
        told@ == events && #[trigger] trace.ensures((&told,), ())
}

/// Whether `callback` may make this of the segment.
pub open spec fn may_keep<R, F: Fn(Segment) -> Result<R, ExecError>>(
    callback: &F,
    segment: SegmentView,
    r: Result<R, ErrorView>,
) -> bool {
    exists|given: Segment, kept: Result<R, ExecError>|
        given@ == segment && viewed(kept) == r && #[trigger] callback.ensures((given,), kept)
}

/// What `callback` may make of segments.
pub open spec fn keep_of<R, F: Fn(Segment) -> Result<R, ExecError>>(callback: &F) -> spec_fn(
    SegmentView,
    Result<R, ErrorView>,
) -> bool {
    |segment: SegmentView, r: Result<R, ErrorView>| may_keep(callback, segment, r)
}

/// Whether `store` may make this of the segment, with `path` to keep it at.
pub open spec fn may_store<R, K: Fn(Segment, &String) -> Result<R, ExecError>>(
    store: &K,
    path: Seq<char>,
    segment: SegmentView,
    r: Result<R, ErrorView>,
) -> bool {
    exists|given: Segment, at: String, kept: Result<R, ExecError>|
        {
            &&& given@ == segment
            &&& at@ == path
            &&& viewed(kept) == r
            &&& #[trigger] store.ensures((given, &at), kept)
        }
}

/// Whether `r` may be where segments are kept: at the path that is settled, or
/// in a directory that `tempdir` makes.
pub open spec fn may_settle<P: Fn() -> Result<String, ExecError>>(
    tempdir: &P,
    settled: Option<Seq<char>>,
    r: Result<Seq<char>, ErrorView>,
) -> bool {
    match settled {
        Some(path) => r == Ok::<Seq<char>, ErrorView>(path),
        None => exists|made: Result<String, ExecError>|
            string_result(made) == r && #[trigger] tempdir.ensures((), made),
    }
}

/// A host that answers by these functions, and keeps segments at `path`.
pub open spec fn stores_at<
    R,
    D: Fn(u32, u32) -> Result<OpCode, ExecError>,
    S: Fn(&SyscallRequest, &MemoryMonitor) -> Result<SyscallReply, ExecError>,
    T: Fn(&Vec<TraceEvent>),
    K: Fn(Segment, &String) -> Result<R, ExecError>,
>(h: HostView<R>, decode: &D, syscall: &S, trace: &T, store: &K, path: Seq<char>) -> bool {
    &&& h.decode == decode_of(decode)
    &&& h.syscall == syscall_of(syscall)
    &&& h.trace == trace_of(trace)
    &&& forall|segment: SegmentView, r: Result<R, ErrorView>| #[trigger]
        (h.keep)(segment, r) ==> may_store(store, path, segment, r)
}

/// What `trace` was told.
pub open spec fn trace_of<T: Fn(&Vec<TraceEvent>)>(trace: &T) -> spec_fn(Seq<TraceEvent>) -> bool {
    |events: Seq<TraceEvent>| was_told(trace, events)
}

/// The host that answers by these functions.
pub open spec fn host<
    R,
    D: Fn(u32, u32) -> Result<OpCode, ExecError>,
    S: Fn(&SyscallRequest, &MemoryMonitor) -> Result<SyscallReply, ExecError>,
    T: Fn(&Vec<TraceEvent>),
    F: Fn(Segment) -> Result<R, ExecError>,
>(decode: &D, syscall: &S, trace: &T, callback: &F) -> HostView<R> {
    HostView {
        decode: decode_of(decode),
        syscall: syscall_of(syscall),
        trace: trace_of(trace),
        keep: keep_of(callback),
    }
}

/// `syscall` can be called where the host is asked to reply, with what the guest
/// asks for. It cannot be counted on anywhere else.
pub open spec fn can_ask<R, S: FnOnce(&SyscallRequest, &MemoryMonitor) -> Result<SyscallReply, ExecError>>(
    syscall: &S,
    s: ExecView<R>,
) -> bool {
    s.asks_host() ==> {
        let (m, call) = s.syscall_read();
        forall|request: &SyscallRequest, monitor: &MemoryMonitor|
            request.name@ == call->Ok_0.2 && request.to_guest_words == call->Ok_0.1 && monitor@ == m
                ==> #[trigger] syscall.requires((request, monitor))
    }
}

/// `decode` and `syscall` can be called where a step from `s` needs them: the one
/// for the instruction that is fetched, the other if that is a system call which
/// the host is asked to reply to.
pub open spec fn can_step<
    R,
    D: FnOnce(u32, u32) -> Result<OpCode, ExecError>,
    S: FnOnce(&SyscallRequest, &MemoryMonitor) -> Result<SyscallReply, ExecError>,
>(decode: &D, syscall: &S, s: ExecView<R>) -> bool {
    s.fetches() ==> {
        let insn = s.monitor.read_word(s.pc).1->Ok_0;
        &&& decode.requires((insn, s.pc))
        &&& forall|decoded: Result<OpCode, ExecError>| #[trigger]
            decode.ensures((insn, s.pc), decoded) && s.calls_host(viewed(decoded)) ==> can_ask(
                syscall,
                s.fetched(),
            )
    }
}

impl<R> ExecView<R> {
    /// The host is asked to reply to a system call: there is a call that it
    /// answers, and no answer yet.
    pub open spec fn asks_host(self) -> bool {
        &&& self.syscall_read().1 matches Ok((_, _, name))
        &&& self.pending_syscall is None
        &&& self.env.syscalls.contains(name)
    }

    /// Where the host is asked to reply, it may reply like this.
    pub open spec fn may_answer(
        self,
        syscall: spec_fn(
            Seq<char>,
            u32,
            MonitorView,
            Result<SyscallReplyView, ErrorView>,
        ) -> bool,
        reply: Result<SyscallReplyView, ErrorView>,
    ) -> bool {
        self.asks_host() ==> {
            let (m, call) = self.syscall_read();
            syscall(call->Ok_0.2, call->Ok_0.1, m, reply)
        }
    }

    /// A step fetches an instruction.
    pub open spec fn fetches(self) -> bool {
        !self.session_over() && self.monitor.read_word(self.pc).1 is Ok
    }

    /// The executor once the instruction is fetched.
    pub open spec fn fetched(self) -> ExecView<R> {
        self.untraced().with_monitor(self.monitor.read_word(self.pc).0)
    }

    /// The instruction that a step fetches is a system call, if it is decoded like
    /// this.
    pub open spec fn calls_system(self, decoded: Result<OpCode, ErrorView>) -> bool {
        &&& self.fetches()
        &&& decoded matches Ok(op)
        &&& op.spec_major() == MajorType::ECall
        &&& self.fetched().monitor.reg(REG_T0) == ECALL_SOFTWARE
    }

    /// A step asks the host to reply to a system call, if the instruction is
    /// decoded like this.
    pub open spec fn calls_host(self, decoded: Result<OpCode, ErrorView>) -> bool {
        self.calls_system(decoded) && self.fetched().asks_host()
    }

    /// Where an instruction is fetched, it may be decoded like this, and where
    /// it is a system call, the host may reply to it like this.
    pub open spec fn may_step(
        self,
        decode: spec_fn(u32, u32, Result<OpCode, ErrorView>) -> bool,
        syscall: spec_fn(
            Seq<char>,
            u32,
            MonitorView,
            Result<SyscallReplyView, ErrorView>,
        ) -> bool,
        decoded: Result<OpCode, ErrorView>,
        reply: Result<SyscallReplyView, ErrorView>,
    ) -> bool {
        &&& takes_time(decoded)
        &&& self.fetches() ==> decode(self.monitor.read_word(self.pc).1->Ok_0, self.pc, decoded)
        &&& self.calls_system(decoded) ==> self.fetched().may_answer(syscall, reply)
    }

    /// The reply that a step takes over from the host, if it does.
    pub open spec fn taken(
        self,
        decoded: Result<OpCode, ErrorView>,
        reply: Result<SyscallReplyView, ErrorView>,
    ) -> Option<SyscallReplyView> {
        match reply {
            Ok(r) => if self.calls_host(decoded) && read_regions(
                self.fetched().syscall_read().0,
                r.loads,
            ).1 is Ok {
                Some(r)
            } else {
                None
            },
            Err(_) => None,
        }
    }

    /// What the instruction that a step fetches comes to before it is committed,
    /// if it can be executed.
    pub open spec fn came_to(
        self,
        decoded: Result<OpCode, ErrorView>,
        reply: Result<SyscallReplyView, ErrorView>,
    ) -> Option<OpCodeResult> {
        match decoded {
            Ok(op) => if !self.fetches() {
                None
            } else if op.spec_major() == MajorType::ECall {
                match self.fetched().ecalled(reply).1 {
                    Ok(r) => Some(r),
                    Err(_) => None,
                }
            } else {
                let m = self.fetched().monitor;
                match hart_ran(m, self.pc, self.monitor.read_word(self.pc).1->Ok_0).1 {
                    Ok(pc) => Some(OpCodeResult { pc, exit_code: None, extra_cycles: 0 }),
                    Err(_) => None,
                }
            },
            Err(_) => None,
        }
    }

    /// The cycles that a step charges to the segment: those of the instruction and
    /// those on top of it, if it is committed.
    pub open spec fn charge(
        self,
        decoded: Result<OpCode, ErrorView>,
        reply: Result<SyscallReplyView, ErrorView>,
    ) -> nat {
        match (decoded, self.came_to(decoded, reply)) {
            (Ok(op), Some(r)) => if self.stepped(decoded, reply).1 == Ok::<
                Option<ExitCode>,
                ErrorView,
            >(r.exit_code) {
                op.spec_cycles() as nat + r.extra_cycles as nat
            } else {
                0
            },
            _ => 0,
        }
    }
}

} // verus!
