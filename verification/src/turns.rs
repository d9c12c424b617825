//! Keeping track of the turns of a run while it goes on.
use crate::guest::MonitorView;
use crate::host::HostView;
use crate::segment::SegmentView;
use crate::session::{
    connected, given_to, gives, goes_on, hands_on, loops, reachable, stops, Turn,
};
use crate::state::ExecView;
use crate::types::{ErrorView, ExitCode, OpCode, SyscallReplyView, TraceEvent};
use vstd::prelude::*;

verus! {

/// The run has taken `turns` from `s` on, and goes on from `u`.
#[verifier::opaque]
pub open spec fn lined_up<R>(
    h: HostView<R>,
    s: ExecView<R>,
    turns: Seq<Turn<R>>,
    u: ExecView<R>,
) -> bool {
    &&& connected(h, s, turns)
    &&& turns.len() == 0 ==> u == s
    &&& turns.len() > 0 ==> goes_on(h, turns.last(), u)
}

/// The run has taken `turns` from `s` on, of which the last one led to `u` and came to
/// `r`.
#[verifier::opaque]
pub open spec fn taken_to<R>(
    h: HostView<R>,
    s: ExecView<R>,
    turns: Seq<Turn<R>>,
    u: ExecView<R>,
    r: Result<Option<ExitCode>, ErrorView>,
) -> bool {
    &&& connected(h, s, turns)
    &&& turns.len() > 0
    &&& turns.last().after() == u
    &&& turns.last().result() == r
}

/// `turn` leads from `s` to `t`, and comes to `r`.
#[verifier::opaque]
pub open spec fn leads<R>(
    decode: spec_fn(u32, u32, Result<OpCode, ErrorView>) -> bool,
    syscall: spec_fn(
        Seq<char>,
        u32,
        MonitorView,
        Result<SyscallReplyView, ErrorView>,
    ) -> bool,
    trace: spec_fn(Seq<TraceEvent>) -> bool,
    s: ExecView<R>,
    turn: Turn<R>,
    t: ExecView<R>,
    r: Result<Option<ExitCode>, ErrorView>,
) -> bool {
    &&& turn.s == s
    &&& s.may_step(decode, syscall, turn.decoded, turn.reply)
    &&& trace(t.traced)
    &&& s.stepped(turn.decoded, turn.reply) == (t, r)
}

/// No turn was taken yet.
pub proof fn lemma_lined_up_first<R>(h: HostView<R>, s: ExecView<R>)
    ensures
        lined_up(h, s, Seq::empty(), s),
{
    reveal(lined_up);
}

/// Where the run goes on from can be reached.
pub proof fn lemma_lined_up_reachable<R>(
    h: HostView<R>,
    s: ExecView<R>,
    turns: Seq<Turn<R>>,
    u: ExecView<R>,
)
    requires
        lined_up(h, s, turns, u),
    ensures
        reachable(h, s, u),
{
    reveal(lined_up);
}

/// One turn more is connected to those before it.
pub proof fn lemma_turn_taken<R>(
    h: HostView<R>,
    s: ExecView<R>,
    turns: Seq<Turn<R>>,
    u: ExecView<R>,
    turn: Turn<R>,
    t: ExecView<R>,
    r: Result<Option<ExitCode>, ErrorView>,
)
    requires
        lined_up(h, s, turns, u),
        leads(h.decode, h.syscall, h.trace, u, turn, t, r),
    ensures
        taken_to(h, s, turns.push(turn), t, r),
{
    reveal(lined_up);
    reveal(taken_to);
    reveal(leads);
    let all = turns.push(turn);
    assert(turn.allowed(h));
    assert forall|i: int| 0 <= i < all.len() implies (#[trigger] all[i]).allowed(h) by {
        if i < turns.len() {
            assert(turns[i].allowed(h));
        }
    }
    assert forall|i: int, j: int| 0 <= i && j == i + 1 && j < all.len() implies goes_on(
        h,
        #[trigger] all[i],
        (#[trigger] all[j]).s,
    ) by {
        if j < turns.len() {
            assert(goes_on(h, turns[i], turns[j].s));
        }
    }
}

/// After a turn that ends nothing the run goes on.
pub proof fn lemma_taken_on<R>(h: HostView<R>, s: ExecView<R>, turns: Seq<Turn<R>>, u: ExecView<R>)
    requires
        taken_to(h, s, turns, u, Ok(None)),
    ensures
        lined_up(h, s, turns, u),
{
    reveal(lined_up);
    reveal(taken_to);
}

/// After the host has taken a full segment the run goes on.
pub proof fn lemma_taken_split<R>(
    h: HostView<R>,
    s: ExecView<R>,
    turns: Seq<Turn<R>>,
    u: ExecView<R>,
    kept: R,
    v: ExecView<R>,
)
    requires
        taken_to(h, s, turns, u, Ok(Some(ExitCode::SystemSplit))),
        hands_on(h.keep, u, kept, v),
    ensures
        lined_up(h, s, turns, v),
{
    reveal(lined_up);
    reveal(taken_to);
}

/// A run whose last turn fails, ends with that.
pub proof fn lemma_taken_failed<R>(
    h: HostView<R>,
    s: ExecView<R>,
    turns: Seq<Turn<R>>,
    u: ExecView<R>,
    e: ErrorView,
)
    requires
        taken_to(h, s, turns, u, Err(e)),
    ensures
        loops(h, s, turns, u, Err(e)),
{
    reveal(taken_to);
}

/// A run stops with its last turn.
pub proof fn lemma_taken_stops<R>(
    h: HostView<R>,
    s: ExecView<R>,
    turns: Seq<Turn<R>>,
    u: ExecView<R>,
    exit_code: ExitCode,
    t: ExecView<R>,
    r: Result<(ExitCode, SegmentView), ErrorView>,
)
    requires
        taken_to(h, s, turns, u, Ok(Some(exit_code))),
        stops(h.keep, u, exit_code, t, r),
    ensures
        loops(h, s, turns, t, r),
{
    reveal(taken_to);
}

/// What the host is given after the last turn.
pub proof fn lemma_taken_gives<R>(
    h: HostView<R>,
    s: ExecView<R>,
    turns: Seq<Turn<R>>,
    u: ExecView<R>,
    exit_code: ExitCode,
    segment: SegmentView,
)
    requires
        taken_to(h, s, turns, u, Ok(Some(exit_code))),
        exit_code is SystemSplit || exit_code is SessionLimit,
        u.sealed(exit_code).1 == Ok::<SegmentView, ErrorView>(segment),
    ensures
        given_to(h, s, segment),
{
    reveal(taken_to);
    assert(gives(turns.last(), segment));
}

} // verus!
