//! What a run of the executor comes to, turn by turn.
use crate::host::{can_step, decode_of, syscall_of, HostView};
use crate::monitor::MemoryMonitor;
use crate::segment::{SegmentView, SessionView};
use crate::state::ExecView;
use crate::types::{
    ErrorView, ExecError, ExitCode, OpCode, SyscallReply, SyscallReplyView, SyscallRequest,
    TraceEvent,
};
use vstd::prelude::*;

verus! {

/// One turn of a run: a step, with what the host answers to it.
#[verifier::reject_recursive_types(R)]
pub struct Turn<R> {
    /// The executor before the turn.
    pub s: ExecView<R>,
    /// How the instruction is decoded.
    pub decoded: Result<OpCode, ErrorView>,
    /// What the host replies, if it is asked.
    pub reply: Result<SyscallReplyView, ErrorView>,
}

impl<R> Turn<R> {
    /// The executor after the step.
    pub open spec fn after(self) -> ExecView<R> {
        self.s.stepped(self.decoded, self.reply).0
    }

    /// What the step comes to.
    pub open spec fn result(self) -> Result<Option<ExitCode>, ErrorView> {
        self.s.stepped(self.decoded, self.reply).1
    }

    /// The host may answer like this, and it is told of the step.
    pub open spec fn allowed(self, h: HostView<R>) -> bool {
        &&& self.s.may_step(h.decode, h.syscall, self.decoded, self.reply)
        &&& (h.trace)(self.after().traced)
    }

    /// The segment turns out to be full.
    pub open spec fn splits(self) -> bool {
        self.result() == Ok::<Option<ExitCode>, ErrorView>(Some(ExitCode::SystemSplit))
    }
}

/// The host may make `kept` of the segment that is full in `s`, and the next one
/// begins in `t`, where `keep` says what may be made of a segment.
pub open spec fn hands_on<R>(
    keep: spec_fn(SegmentView, Result<R, ErrorView>) -> bool,
    s: ExecView<R>,
    kept: R,
    t: ExecView<R>,
) -> bool {
    &&& s.sealed(ExitCode::SystemSplit) matches (s1, Ok(segment))
    &&& keep(segment, Ok(kept))
    &&& t == s1.kept(kept).split(Some(segment.post_image))
}

/// After `turn` the run may go on from `t`: an instruction was executed, or the host
/// has taken a segment that was full.
pub open spec fn goes_on<R>(h: HostView<R>, turn: Turn<R>, t: ExecView<R>) -> bool {
    match turn.result() {
        Ok(None) => t == turn.after(),
        Ok(Some(ExitCode::SystemSplit)) => exists|kept: R| #[trigger]
            hands_on(h.keep, turn.after(), kept, t),
        _ => false,
    }
}

/// After a turn that came to `exit_code` and led to `s` the run may stop in `t`,
/// with its last segment or with an error.
pub open spec fn stops<R>(
    keep: spec_fn(SegmentView, Result<R, ErrorView>) -> bool,
    s: ExecView<R>,
    exit_code: ExitCode,
    t: ExecView<R>,
    r: Result<(ExitCode, SegmentView), ErrorView>,
) -> bool {
    match s.sealed(exit_code) {
        (s1, Err(e)) => t == s1 && r == Err::<(ExitCode, SegmentView), ErrorView>(e),
        (s1, Ok(segment)) => match exit_code {
            ExitCode::SystemSplit => {
                &&& t == s1
                &&& r matches Err(e)
                &&& keep(segment, Err(e))
            },
            ExitCode::SessionLimit => {
                ||| {
                    &&& t == s1
                    &&& r matches Err(e)
                    &&& keep(segment, Err(e))
                }
                ||| {
                    &&& r == Err::<(ExitCode, SegmentView), ErrorView>(
                        ErrorView::SessionLimitExceeded,
                    )
                    &&& exists|kept: R| #[trigger]
                        keep(segment, Ok(kept)) && t == s1.kept(kept)
                }
            },
            ExitCode::Paused(_) => {
                &&& t == s1.paused(segment.post_image)
                &&& r == Ok::<(ExitCode, SegmentView), ErrorView>((exit_code, segment))
            },
            ExitCode::Halted(_) | ExitCode::Fault => {
                &&& t == s1
                &&& r == Ok::<(ExitCode, SegmentView), ErrorView>((exit_code, segment))
            },
        },
    }
}

/// With `turn` the run may end in `t`.
pub open spec fn ends<R>(
    h: HostView<R>,
    turn: Turn<R>,
    t: ExecView<R>,
    r: Result<(ExitCode, SegmentView), ErrorView>,
) -> bool {
    match turn.result() {
        Err(e) => t == turn.after() && r == Err::<(ExitCode, SegmentView), ErrorView>(e),
        Ok(None) => false,
        Ok(Some(exit_code)) => stops(h.keep, turn.after(), exit_code, t, r),
    }
}

/// From `s` on, a run may take `turns` one after the other.
pub open spec fn connected<R>(h: HostView<R>, s: ExecView<R>, turns: Seq<Turn<R>>) -> bool {
    &&& turns.len() > 0 ==> turns[0].s == s
    &&& forall|i: int| 0 <= i < turns.len() ==> (#[trigger] turns[i]).allowed(h)
    &&& forall|i: int, j: int|
        0 <= i && j == i + 1 && j < turns.len() ==> goes_on(
            h,
            #[trigger] turns[i],
            (#[trigger] turns[j]).s,
        )
}

/// From `s` on, a run may take `turns` and end in `t` with the last of them.
pub open spec fn loops<R>(
    h: HostView<R>,
    s: ExecView<R>,
    turns: Seq<Turn<R>>,
    t: ExecView<R>,
    r: Result<(ExitCode, SegmentView), ErrorView>,
) -> bool {
    &&& turns.len() > 0
    &&& connected(h, s, turns)
    &&& ends(h, turns.last(), t, r)
}

/// After its last turn, which led to `s`, the run may come to `r` in `t`, where
/// `keep` says what may be made of a segment.
pub open spec fn closes<R>(
    keep: spec_fn(SegmentView, Result<R, ErrorView>) -> bool,
    s: ExecView<R>,
    exit_code: ExitCode,
    segment: SegmentView,
    t: ExecView<R>,
    r: Result<SessionView<R>, ErrorView>,
) -> bool {
    match s.finished(exit_code, segment) {
        (s1, Err(e)) => t == s1 && r == Err::<SessionView<R>, ErrorView>(e),
        (s1, Ok(finish)) => {
            ||| {
                &&& t == s1
                &&& r matches Err(e)
                &&& keep(finish.segment, Err(e))
            }
            ||| exists|kept: R|
                {
                    &&& #[trigger] keep(finish.segment, Ok(kept))
                    &&& r matches Ok(session)
                    &&& (t, session) == s1.kept(kept).released(
                        exit_code,
                        segment.post_image,
                        finish,
                    )
                }
        },
    }
}

/// A run that begins in `s` may take `turns` and come to `r` in `t`.
pub open spec fn takes<R>(
    h: HostView<R>,
    s: ExecView<R>,
    turns: Seq<Turn<R>>,
    t: ExecView<R>,
    r: Result<SessionView<R>, ErrorView>,
) -> bool {
    let (s1, begun) = s.begun();
    &&& begun is Ok
    &&& {
        ||| {
            &&& r matches Err(e)
            &&& loops(h, s1, turns, t, Err(e))
        }
        ||| exists|s2: ExecView<R>, exit_code: ExitCode, segment: SegmentView|
            {
                &&& #[trigger] loops(h, s1, turns, s2, Ok((exit_code, segment)))
                &&& closes(h.keep, s2, exit_code, segment, t, r)
            }
    }
}

/// A run from `s` may come to `r` in `t`.
pub open spec fn runs<R>(
    h: HostView<R>,
    s: ExecView<R>,
    t: ExecView<R>,
    r: Result<SessionView<R>, ErrorView>,
) -> bool {
    match s.begun() {
        (s1, Err(e)) => t == s1 && r == Err::<SessionView<R>, ErrorView>(e),
        (_, Ok(())) => exists|turns: Seq<Turn<R>>| #[trigger] takes(h, s, turns, t, r),
    }
}

/// A run from `s` on may come to take a turn in `u`.
pub open spec fn reachable<R>(h: HostView<R>, s: ExecView<R>, u: ExecView<R>) -> bool {
    exists|turns: Seq<Turn<R>>|
        {
            &&& #[trigger] connected(h, s, turns)
            &&& turns.len() == 0 ==> u == s
            &&& turns.len() > 0 ==> goes_on(h, turns.last(), u)
        }
}

/// `segment` is what the host is given after `turn`: a segment that is full, or that
/// is in progress at the session limit, or the last one with its output.
pub open spec fn gives<R>(turn: Turn<R>, segment: SegmentView) -> bool {
    match turn.result() {
        Ok(Some(exit_code)) => match turn.after().sealed(exit_code) {
            (t, Ok(sealed)) => if exit_code is SystemSplit || exit_code is SessionLimit {
                segment == sealed
            } else {
                t.finished(exit_code, sealed).1 matches Ok(finish) && segment == finish.segment
            },
            (_, Err(_)) => false,
        },
        _ => false,
    }
}

/// A run from `s` on may come to give `segment` to the host.
pub open spec fn given_to<R>(h: HostView<R>, s: ExecView<R>, segment: SegmentView) -> bool {
    exists|turns: Seq<Turn<R>>|
        {
            &&& turns.len() > 0
            &&& #[trigger] connected(h, s, turns)
            &&& gives(turns.last(), segment)
        }
}

/// A run that begins in `s` may come to give `segment` to the host. One that cannot
/// begin gives it nothing.
pub open spec fn may_give<R>(h: HostView<R>, s: ExecView<R>, segment: SegmentView) -> bool {
    s.begun().1 is Ok && given_to(h, s.begun().0, segment)
}

/// `trace` can be told of what a step from `s` does, as the host may answer to it.
pub open spec fn can_tell<
    R,
    D: Fn(u32, u32) -> Result<OpCode, ExecError>,
    S: Fn(&SyscallRequest, &MemoryMonitor) -> Result<SyscallReply, ExecError>,
    T: Fn(&Vec<TraceEvent>),
>(decode: &D, syscall: &S, trace: &T, s: ExecView<R>) -> bool {
    forall|
        decoded: Result<OpCode, ErrorView>,
        reply: Result<SyscallReplyView, ErrorView>,
        events: &Vec<TraceEvent>,
    |
        {
            &&& s.may_step(decode_of(decode), syscall_of(syscall), decoded, reply)
            &&& events@ == (#[trigger] s.stepped(decoded, reply)).0.traced
            &&& events@.len() > 0
        } ==> #[trigger] trace.requires((events,))
}

/// `decode`, `syscall` and `trace` can be called where a turn from `s` on needs them.
pub open spec fn can_turn<
    R,
    D: Fn(u32, u32) -> Result<OpCode, ExecError>,
    S: Fn(&SyscallRequest, &MemoryMonitor) -> Result<SyscallReply, ExecError>,
    T: Fn(&Vec<TraceEvent>),
>(h: HostView<R>, decode: &D, syscall: &S, trace: &T, s: ExecView<R>) -> bool {
    forall|u: ExecView<R>| #[trigger]
        reachable(h, s, u) ==> can_step(decode, syscall, u) && can_tell(decode, syscall, trace, u)
}

/// `decode`, `syscall` and `trace` can be called where a run from `s` needs them. One
/// that cannot begin needs none of them.
pub open spec fn can_run<
    R,
    D: Fn(u32, u32) -> Result<OpCode, ExecError>,
    S: Fn(&SyscallRequest, &MemoryMonitor) -> Result<SyscallReply, ExecError>,
    T: Fn(&Vec<TraceEvent>),
>(h: HostView<R>, decode: &D, syscall: &S, trace: &T, s: ExecView<R>) -> bool {
    s.begun().1 is Ok ==> can_turn(h, decode, syscall, trace, s.begun().0)
}

} // verus!
