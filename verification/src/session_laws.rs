//! What holds of a run, and of the session that it comes to.
use crate::guest::ImageView;
use crate::host::HostView;
use crate::laws::{law_step, law_step_charges, law_step_takes_reply};
use crate::platform::{is_log2_ceil, lemma_pow2_monotone};
use crate::segment::{OutputView, SegmentView, SessionView};
use crate::session::{closes, connected, ends, goes_on, hands_on, loops, may_give, runs, takes, Turn};
use crate::state::{zero_digest, ExecView};
use crate::types::{claims_of, Assumption, ErrorView, ExitCode};
use vstd::arithmetic::power2::*;
use vstd::prelude::*;

verus! {

/// The cycles that `segment` takes on an executor like `s`: those of any segment,
/// those of the pages that it touches, and those of its instructions.
pub open spec fn segment_total<R>(s: ExecView<R>, segment: SegmentView) -> nat {
    s.const_cycles + s.monitor.page_read_cost as nat * segment.reads.len()
        + s.monitor.page_write_cost as nat * segment.writes.len() + segment.cycles as nat
}

/// `segment` has the least size that reaches its cycles, and keeps the limit of `s`.
pub open spec fn sized<R>(s: ExecView<R>, segment: SegmentView) -> bool {
    &&& is_log2_ceil(segment_total(s, segment) as int, segment.po2 as int)
    &&& segment_total(s, segment) <= s.segment_limit
    &&& segment.po2 <= s.env.limit_po2()
}

/// The segments that `turns` close, one after the other.
pub open spec fn segments_of<R>(turns: Seq<Turn<R>>) -> Seq<SegmentView>
    decreases turns.len(),
{
    if turns.len() == 0 {
        Seq::empty()
    } else {
        let before = segments_of(turns.drop_last());
        match turns.last().result() {
            Ok(Some(exit_code)) => before.push(turns.last().after().segment(exit_code)),
            _ => before,
        }
    }
}

/// The cycles that `turns` have charged to the segment in progress, which had been
/// charged `base` before: the sum over its instructions, since the last segment was
/// full.
pub open spec fn charged<R>(turns: Seq<Turn<R>>, base: nat) -> nat
    decreases turns.len(),
{
    if turns.len() == 0 {
        base
    } else if turns.last().splits() {
        0
    } else {
        let turn = turns.last();
        charged(turns.drop_last(), base) + turn.s.charge(turn.decoded, turn.reply)
    }
}

/// What the host has committed to the journal in `turns`, reply after reply.
pub open spec fn replied_journal<R>(turns: Seq<Turn<R>>) -> Seq<u8>
    decreases turns.len(),
{
    if turns.len() == 0 {
        Seq::empty()
    } else {
        let turn = turns.last();
        replied_journal(turns.drop_last()) + (match turn.s.taken(turn.decoded, turn.reply) {
            Some(r) => r.journal,
            None => Seq::empty(),
        })
    }
}

/// What the host has taken for granted in `turns`, reply after reply.
pub open spec fn replied_assumptions<R>(turns: Seq<Turn<R>>) -> Seq<Assumption>
    decreases turns.len(),
{
    if turns.len() == 0 {
        Seq::empty()
    } else {
        let turn = turns.last();
        replied_assumptions(turns.drop_last()) + (match turn.s.taken(turn.decoded, turn.reply) {
            Some(r) => r.assumptions,
            None => Seq::empty(),
        })
    }
}

/// The host made `kept` of `segments`, which an executor like `s` found to be full.
/// They follow on each other and are numbered from `first` on.
pub open spec fn chained<R>(
    h: HostView<R>,
    s: ExecView<R>,
    segments: Seq<SegmentView>,
    kept: Seq<R>,
    first: nat,
) -> bool {
    &&& segments.len() == kept.len()
    &&& forall|i: int|
        0 <= i < segments.len() ==> {
            &&& #[trigger] (h.keep)(segments[i], Ok(kept[i]))
            &&& segments[i].index == first + i
            &&& full(s, segments[i])
        }
    &&& forall|i: int, j: int|
        0 <= i && j == i + 1 && j < segments.len() ==> (#[trigger] segments[j]).pre_image == (
        #[trigger] segments[i]).post_image
}

/// `segment` was cut off because it was full: behind at least one instruction, and
/// without an output.
pub open spec fn full<R>(s: ExecView<R>, segment: SegmentView) -> bool {
    &&& segment.exit_code == ExitCode::SystemSplit
    &&& segment.output is None
    &&& segment.split_insn is Some
    &&& segment.split_insn->Some_0 >= 1
    &&& sized(s, segment)
}

/// The guest that the next segment begins with, after `segments` from `start` on.
pub open spec fn next_image(start: Option<ImageView>, segments: Seq<SegmentView>) -> Option<
    ImageView,
> {
    if segments.len() == 0 {
        start
    } else {
        Some(segments.last().post_image)
    }
}

/// What a run needs to begin a turn.
pub open spec fn ready<R>(s: ExecView<R>) -> bool {
    s.inv() && s.monitor.clean()
}

/// Two executors have the same limits and costs, and last exited alike.
pub open spec fn alike<R>(s: ExecView<R>, t: ExecView<R>) -> bool {
    &&& t.env == s.env
    &&& t.exit_code == s.exit_code
    &&& t.segment_limit == s.segment_limit
    &&& t.const_cycles == s.const_cycles
    &&& t.monitor.page_read_cost == s.monitor.page_read_cost
    &&& t.monitor.page_write_cost == s.monitor.page_write_cost
}

/// What holds in `u` where a run from `s` on has taken `turns`.
pub open spec fn reached<R>(h: HostView<R>, s: ExecView<R>, turns: Seq<Turn<R>>, u: ExecView<R>) -> bool {
    let n = s.segments.len();
    let segments = segments_of(turns);
    &&& ready(u)
    &&& alike(s, u)
    &&& u.segments.len() == n + segments.len()
    &&& u.segments.take(n as int) == s.segments
    &&& chained(h, s, segments, u.segments.skip(n as int), n)
    &&& u.pre_image == next_image(s.pre_image, segments)
    &&& segments.len() > 0 ==> Some(segments[0].pre_image) == s.pre_image
    &&& u.body_cycles == charged(turns, s.body_cycles)
    &&& u.journal == s.journal + replied_journal(turns)
    &&& u.assumptions == s.assumptions + replied_assumptions(turns)
}

/// There is a least power of two that reaches `n`.
proof fn lemma_log2_ceil_exists(n: int, top: nat)
    requires
        n <= pow2(top),
        top <= u32::MAX,
    ensures
        exists|po2: u32| is_log2_ceil(n, po2 as int),
    decreases top,
{
    if top == 0 || pow2((top - 1) as nat) < n {
        assert(is_log2_ceil(n, (top as u32) as int));
    } else {
        lemma_log2_ceil_exists(n, (top - 1) as nat);
    }
}

/// A sealed segment is numbered, and it has its size.
pub proof fn lemma_sealed<R>(s: ExecView<R>, exit_code: ExitCode)
    requires
        s.inv(),
        s.sealed(exit_code).1 is Ok,
    ensures
        s.fits(),
        ({
            let segment = s.sealed(exit_code).1->Ok_0;
            &&& segment == s.segment(exit_code)
            &&& segment.index == s.segments.len()
            &&& segment.cycles == s.body_cycles
            &&& sized(s, segment)
            &&& Some(segment.pre_image) == s.pre_image
        }),
{
    let segment = s.sealed(exit_code).1->Ok_0;
    let total = s.total_cycles() as int;
    let limit = s.env.limit_po2();
    lemma2_to64();
    lemma_pow2_monotone(limit as nat, 24);
    lemma_log2_ceil_exists(total, limit as nat);
    assert(segment_total(s, segment) == total);
    let po2 = segment.po2;
    assert(is_log2_ceil(total, po2 as int));
    if po2 > limit {
        lemma_pow2_monotone(limit as nat, (po2 - 1) as nat);
    }
}

/// What a turn of a run keeps.
pub proof fn lemma_turn<R>(h: HostView<R>, turn: Turn<R>)
    requires
        ready(turn.s),
        turn.allowed(h),
    ensures
        ({
            let (s, t) = (turn.s, turn.after());
            &&& t.inv()
            &&& turn.result() is Ok ==> t.monitor.clean()
            &&& alike(s, t)
            &&& t.segments == s.segments
            &&& t.pre_image == s.pre_image
            &&& t.body_cycles == s.body_cycles + s.charge(turn.decoded, turn.reply)
            &&& turn.splits() ==> {
                &&& t.body_cycles == s.body_cycles
                &&& t.split_insn is Some
                &&& t.split_insn->Some_0 >= 1
            }
            &&& turn.result() matches Ok(Some(ExitCode::Paused(_))) ==> t.pc <= u32::MAX - 4
        }),
{
    law_step(turn.s, turn.decoded, turn.reply);
    law_step_charges(turn.s, turn.decoded, turn.reply);
}

/// A segment that begins is ready.
proof fn lemma_split_ready<R>(s: ExecView<R>, image: ImageView)
    requires
        s.inv(),
    ensures
        ready(s.split(Some(image))),
{
    let t = s.split(Some(image));
    assert(t.monitor.page_read_cost as nat * 0 == 0) by (nonlinear_arith);
    assert(t.monitor.page_write_cost as nat * 0 == 0) by (nonlinear_arith);
}

/// Each turn of a run starts in a state that the turns before it have reached.
#[verifier::rlimit(60)]
pub proof fn lemma_reached<R>(h: HostView<R>, s: ExecView<R>, turns: Seq<Turn<R>>, k: int)
    requires
        ready(s),
        connected(h, s, turns),
        0 <= k < turns.len(),
    ensures
        reached(h, s, turns.take(k), turns[k].s),
    decreases k,
{
    let n = s.segments.len();
    if k == 0 {
        assert(turns.take(0) =~= Seq::empty());
        assert(s.segments.take(n as int) =~= s.segments);
        assert(s.segments.skip(n as int) =~= Seq::empty());
        assert(s.journal + Seq::<u8>::empty() =~= s.journal);
        assert(s.assumptions + Seq::<Assumption>::empty() =~= s.assumptions);
    } else {
        let i = k - 1;
        lemma_reached(h, s, turns, i);
        let turn = turns[i];
        assert(goes_on(h, turns[i], turns[k].s));
        assert(turns.take(k).drop_last() =~= turns.take(i));
        assert(turns.take(k).last() == turn);
        lemma_turn_reached(h, s, turns.take(i), turn, turns[k].s);
        assert(turns.take(k) =~= turns.take(i).push(turn));
    }
}

/// One turn more reaches the state that the run goes on from.
#[verifier::rlimit(60)]
proof fn lemma_turn_reached<R>(
    h: HostView<R>,
    s: ExecView<R>,
    turns: Seq<Turn<R>>,
    turn: Turn<R>,
    v: ExecView<R>,
)
    requires
        reached(h, s, turns, turn.s),
        turn.allowed(h),
        goes_on(h, turn, v),
    ensures
        reached(h, s, turns.push(turn), v),
{
    let n = s.segments.len();
    let u = turn.s;
    let t = turn.after();
    let all = turns.push(turn);
    assert(all.drop_last() =~= turns);
    let before = segments_of(turns);
    lemma_turn(h, turn);
    lemma_reply_reached(h, s, turns, turn);
    if turn.splits() {
        let kept = choose|kept: R| #[trigger] hands_on(h.keep, t, kept, v);
        lemma_sealed(t, ExitCode::SystemSplit);
        let (t1, sealed) = t.sealed(ExitCode::SystemSplit);
        let segment = sealed->Ok_0;
        assert(segments_of(all) == before.push(segment));
        lemma_split_ready(t1.kept(kept), segment.post_image);
        assert(v.segments =~= u.segments.push(kept));
        assert(v.segments.take(n as int) =~= u.segments.take(n as int));
        let tail = v.segments.skip(n as int);
        assert(tail =~= u.segments.skip(n as int).push(kept));
        assert(sized(s, segment));
        let segments = before.push(segment);
        assert forall|i: int| 0 <= i < segments.len() implies {
            &&& #[trigger] (h.keep)(segments[i], Ok(tail[i]))
            &&& segments[i].index == n + i
            &&& full(s, segments[i])
        } by {
            if i < before.len() {
                assert((h.keep)(before[i], Ok(u.segments.skip(n as int)[i])));
            }
        }
    }
}

/// One turn more adds what the host replies.
proof fn lemma_reply_reached<R>(
    h: HostView<R>,
    s: ExecView<R>,
    turns: Seq<Turn<R>>,
    turn: Turn<R>,
)
    requires
        reached(h, s, turns, turn.s),
    ensures
        turn.after().journal == s.journal + replied_journal(turns.push(turn)),
        turn.after().assumptions == s.assumptions + replied_assumptions(turns.push(turn)),
{
    let all = turns.push(turn);
    assert(all.drop_last() =~= turns);
    law_step_takes_reply(turn.s, turn.decoded, turn.reply);
    assert(turn.after().journal =~= s.journal + replied_journal(all));
    assert(turn.after().assumptions =~= s.assumptions + replied_assumptions(all));
}

/// Beginning a session leaves the executor ready.
pub proof fn lemma_begun_ready<R>(s: ExecView<R>)
    requires
        s.inv(),
        s.begun().1 is Ok,
    ensures
        ({
            let t = s.begun().0;
            &&& ready(t)
            &&& alike(s, t)
            &&& t.segments == s.segments
            &&& t.pre_image == s.pre_image
            &&& t.body_cycles == s.body_cycles
            &&& t.assumptions == s.assumptions
            &&& t.journal.len() == 0
        }),
{
    let t = s.begun().0;
    assert(t.monitor.page_read_cost as nat * 0 == 0) by (nonlinear_arith);
    assert(t.monitor.page_write_cost as nat * 0 == 0) by (nonlinear_arith);
}

/// The segments of a session that `turns` have led to, with the output in the last.
pub open spec fn session_segments<R>(turns: Seq<Turn<R>>, session: SessionView<R>) -> Seq<
    SegmentView,
> {
    segments_of(turns.drop_last()).push(
        SegmentView {
            output: match session.journal {
                Some(journal) => if session.exit_code.has_output() {
                    Some(OutputView { journal, assumptions: claims_of(session.assumptions) })
                } else {
                    None
                },
                None => None,
            },
            ..turns.last().after().segment(session.exit_code)
        },
    )
}

/// The session consists of what the host made of `segments`, which come after the
/// ones that it had taken before the run. The last of them ends the session.
pub open spec fn consists_of<R>(
    h: HostView<R>,
    s: ExecView<R>,
    session: SessionView<R>,
    segments: Seq<SegmentView>,
) -> bool {
    let n = s.segments.len();
    &&& segments.len() > 0
    &&& session.segments.len() == n + segments.len()
    &&& session.segments.take(n as int) == s.segments
    &&& chained(
        h,
        s,
        segments.drop_last(),
        session.segments.subrange(n as int, session.segments.len() - 1),
        n,
    )
    &&& Some(segments[0].pre_image) == s.pre_image
    &&& Some(segments.last().pre_image) == next_image(s.pre_image, segments.drop_last())
    &&& (h.keep)(segments.last(), Ok(session.segments.last()))
    &&& segments.last().index == session.segments.len() - 1
    &&& segments.last().exit_code == session.exit_code
    &&& segments.last().post_image == session.post_image
    &&& sized(s, segments.last())
}

/// What the last turn of a run comes to where it succeeds: the segment ends the
/// run, and only a guest that has paused can go on, behind the instruction that
/// has paused it.
pub proof fn lemma_ends<R>(
    h: HostView<R>,
    turn: Turn<R>,
    t: ExecView<R>,
    exit_code: ExitCode,
    segment: SegmentView,
)
    requires
        ready(turn.s),
        turn.allowed(h),
        ends(h, turn, t, Ok((exit_code, segment))),
    ensures
        turn.result() == Ok::<Option<ExitCode>, ErrorView>(Some(exit_code)),
        turn.after().sealed(exit_code).1 == Ok::<SegmentView, ErrorView>(segment),
        exit_code is Halted || exit_code is Paused || exit_code is Fault,
        t.inv(),
        alike(turn.s, t),
        t.segments == turn.s.segments,
        t.journal == turn.after().journal,
        t.assumptions == turn.after().assumptions,
        t.output_digest == turn.after().output_digest,
        t.monitor.saved.mem == segment.post_image.mem,
        t.monitor.saved.regs == segment.post_image.regs,
        t.pre_image == (if exit_code is Paused {
            Some(ImageView { pc: (segment.post_image.pc + 4) as u32, ..segment.post_image })
        } else {
            None
        }),
        exit_code is Paused ==> segment.post_image.pc + 4 <= u32::MAX,
{
    lemma_turn(h, turn);
    lemma_sealed(turn.after(), exit_code);
    if exit_code is Paused {
        let s = turn.after().sealed(exit_code).0;
        let image = segment.post_image;
        lemma_split_ready(s, ImageView { pc: (image.pc + 4) as u32, ..image });
    }
}

/// A run that succeeds has reached the end of the execution or a pause. It gives
/// out a session of the segments that its turns have closed: they follow on each
/// other, from the guest that the executor started with to the guest at the end.
#[verifier::rlimit(60)]
pub proof fn law_session<R>(
    h: HostView<R>,
    s: ExecView<R>,
    turns: Seq<Turn<R>>,
    t: ExecView<R>,
    session: SessionView<R>,
)
    requires
        s.inv(),
        takes(h, s, turns, t, Ok(session)),
    ensures
        session.exit_code is Halted || session.exit_code is Paused || session.exit_code is Fault,
        consists_of(h, s, session, session_segments(turns, session)),
        t.inv(),
        t.env == s.env,
        t.exit_code == Some(session.exit_code),
        t.segments.len() == 0,
        t.assumptions.len() == 0,
        t.pre_image == (if session.exit_code is Paused {
            Some(ImageView { pc: (session.post_image.pc + 4) as u32, ..session.post_image })
        } else {
            None
        }),
        session.exit_code is Paused ==> session.post_image.pc + 4 <= u32::MAX,
        t.monitor.saved.mem == session.post_image.mem,
        t.monitor.saved.regs == session.post_image.regs,
{
    let s1 = s.begun().0;
    lemma_begun_ready(s);
    let (s2, exit_code, segment) = choose|
        s2: ExecView<R>,
        exit_code: ExitCode,
        segment: SegmentView,
    |
        {
            &&& #[trigger] loops(h, s1, turns, s2, Ok((exit_code, segment)))
            &&& closes(h.keep, s2, exit_code, segment, t, Ok(session))
        };
    let k = turns.len() - 1;
    lemma_reached(h, s1, turns, k);
    assert(turns.take(k) =~= turns.drop_last());
    let turn = turns[k];
    let u = turn.s;
    lemma_ends(h, turn, s2, exit_code, segment);
    lemma_turn(h, turn);
    lemma_sealed(turn.after(), exit_code);
    let (s3, finished) = s2.finished(exit_code, segment);
    let finish = finished->Ok_0;
    let kept = choose|kept: R|
        {
            &&& #[trigger] (h.keep)(finish.segment, Ok(kept))
            &&& (t, session) == s3.kept(kept).released(exit_code, segment.post_image, finish)
        };
    let before = segments_of(turns.drop_last());
    let all = session_segments(turns, session);
    assert(all.last() == finish.segment);
    let n = s.segments.len() as int;
    assert(session.segments =~= u.segments.push(kept));
    assert(session.segments.take(n) =~= u.segments.take(n));
    assert(all.drop_last() =~= before);
    assert(session.segments.subrange(n, session.segments.len() - 1) =~= u.segments.skip(n));
    assert(chained(h, s, before, u.segments.skip(n), n as nat)) by {
        assert forall|i: int| 0 <= i < before.len() implies {
            &&& #[trigger] (h.keep)(before[i], Ok(u.segments.skip(n)[i]))
            &&& before[i].index == n + i
            &&& full(s, before[i])
        } by {
            assert((h.keep)(before[i], Ok(u.segments.skip(n)[i])));
        }
    }
}

/// Every segment that a run closes has the least size that reaches its cycles and
/// keeps the limit. It is charged with the cycles of the instructions that were
/// committed in it, and is numbered by the segments before it.
pub proof fn law_segment_size<R>(
    h: HostView<R>,
    s: ExecView<R>,
    turns: Seq<Turn<R>>,
    t: ExecView<R>,
    r: Result<SessionView<R>, ErrorView>,
    k: int,
    exit_code: ExitCode,
)
    requires
        s.inv(),
        takes(h, s, turns, t, r),
        0 <= k < turns.len(),
        turns[k].result() == Ok::<Option<ExitCode>, ErrorView>(Some(exit_code)),
        turns[k].after().sealed(exit_code).1 is Ok,
    ensures
        ({
            let turn = turns[k];
            let segment = turn.after().sealed(exit_code).1->Ok_0;
            &&& sized(s, segment)
            &&& segment.cycles == charged(turns.take(k), s.body_cycles) + turn.s.charge(
                turn.decoded,
                turn.reply,
            )
            &&& segment.index == s.segments.len() + segments_of(turns.take(k)).len()
        }),
{
    let s1 = s.begun().0;
    lemma_begun_ready(s);
    lemma_takes_connected(h, s, turns, t, r);
    lemma_reached(h, s1, turns, k);
    lemma_turn(h, turns[k]);
    lemma_sealed(turns[k].after(), exit_code);
}

/// The turns of a run are connected.
pub proof fn lemma_takes_connected<R>(
    h: HostView<R>,
    s: ExecView<R>,
    turns: Seq<Turn<R>>,
    t: ExecView<R>,
    r: Result<SessionView<R>, ErrorView>,
)
    requires
        takes(h, s, turns, t, r),
    ensures
        turns.len() > 0,
        connected(h, s.begun().0, turns),
        s.begun().1 is Ok,
{
}

/// The journal of a session is what the host has committed in the run, reply after
/// reply. There is one if and only if the guest has set a non-zero output.
pub proof fn law_journal<R>(
    h: HostView<R>,
    s: ExecView<R>,
    turns: Seq<Turn<R>>,
    t: ExecView<R>,
    session: SessionView<R>,
)
    requires
        s.inv(),
        takes(h, s, turns, t, Ok(session)),
    ensures
        session.journal == (if t.output_digest is Some && t.output_digest->Some_0
            != zero_digest() {
            Some(replied_journal(turns))
        } else {
            None
        }),
        session.assumptions == s.assumptions + replied_assumptions(turns),
{
    let s1 = s.begun().0;
    lemma_begun_ready(s);
    let (s2, exit_code, segment) = choose|
        s2: ExecView<R>,
        exit_code: ExitCode,
        segment: SegmentView,
    |
        {
            &&& #[trigger] loops(h, s1, turns, s2, Ok((exit_code, segment)))
            &&& closes(h.keep, s2, exit_code, segment, t, Ok(session))
        };
    let k = turns.len() - 1;
    lemma_reached(h, s1, turns, k);
    let turn = turns[k];
    lemma_ends(h, turn, s2, exit_code, segment);
    lemma_reply_reached(h, s1, turns.take(k), turn);
    assert(turns.take(k).push(turn) =~= turns);
    assert(s1.journal + replied_journal(turns) =~= replied_journal(turns));
}

/// A full segment that the host does not take ends the run with the host's error. It
/// is not among the segments, and there is nothing left to run from: no later run
/// gives a segment to the host, or gives out a session in which this one is missing.
pub proof fn law_refused_segment<R>(
    h: HostView<R>,
    s: ExecView<R>,
    turns: Seq<Turn<R>>,
    t: ExecView<R>,
    r: Result<SessionView<R>, ErrorView>,
    k: int,
    e: ErrorView,
)
    requires
        s.inv(),
        takes(h, s, turns, t, r),
        0 <= k < turns.len(),
        turns[k].splits(),
        turns[k].after().sealed(ExitCode::SystemSplit).1 is Ok,
        forall|kept: Result<R, ErrorView>| #[trigger]
            (h.keep)(turns[k].after().sealed(ExitCode::SystemSplit).1->Ok_0, kept) ==> kept == Err::<
                R,
                ErrorView,
            >(e),
    ensures
        k == turns.len() - 1,
        r == Err::<SessionView<R>, ErrorView>(e),
        t.segments == turns[k].s.segments,
        t.pre_image is None,
        forall|later: HostView<R>, u: ExecView<R>, q: Result<SessionView<R>, ErrorView>| #[trigger]
            runs(later, t, u, q) ==> u == t && q == Err::<SessionView<R>, ErrorView>(
                ErrorView::NoPreImage,
            ),
        forall|later: HostView<R>, segment: SegmentView| !#[trigger] may_give(later, t, segment),
{
    let s1 = s.begun().0;
    lemma_begun_ready(s);
    lemma_takes_connected(h, s, turns, t, r);
    lemma_reached(h, s1, turns, k);
    let turn = turns[k];
    lemma_turn(h, turn);
    if k < turns.len() - 1 {
        let v = turns[k + 1].s;
        assert(goes_on(h, turns[k], v));
        let kept = choose|kept: R| #[trigger] hands_on(h.keep, turn.after(), kept, v);
        assert((h.keep)(turn.after().sealed(ExitCode::SystemSplit).1->Ok_0, Ok(kept)));
    } else if !(r is Err && loops(h, s1, turns, t, Err(r->Err_0))) {
        let (s2, exit_code, segment) = choose|
            s2: ExecView<R>,
            exit_code: ExitCode,
            segment: SegmentView,
        |
            {
                &&& #[trigger] loops(h, s1, turns, s2, Ok((exit_code, segment)))
                &&& closes(h.keep, s2, exit_code, segment, t, r)
            };
        assert(ends(h, turn, s2, Ok((exit_code, segment))));
    }
}

/// A turn that meets the session limit does nothing, and is the last. The run fails:
/// the host is given the segment that was in progress, and whether it takes that
/// decides only what the run fails with. After that no run gives the host anything.
pub proof fn law_session_limit<R>(
    h: HostView<R>,
    s: ExecView<R>,
    turns: Seq<Turn<R>>,
    t: ExecView<R>,
    r: Result<SessionView<R>, ErrorView>,
    k: int,
)
    requires
        takes(h, s, turns, t, r),
        0 <= k < turns.len(),
        turns[k].s.session_over(),
    ensures
        k == turns.len() - 1,
        turns[k].after() == turns[k].s.untraced(),
        r is Err,
        match turns[k].after().sealed(ExitCode::SessionLimit) {
            (_, Err(e)) => r->Err_0 == e,
            (sealed, Ok(segment)) => {
                ||| {
                    &&& r->Err_0 == ErrorView::SessionLimitExceeded
                    &&& exists|kept: R| #[trigger]
                        (h.keep)(segment, Ok(kept)) && t == sealed.kept(kept)
                }
                ||| (h.keep)(segment, Err(r->Err_0)) && t == sealed
            },
        },
        turns[k].after().sealed(ExitCode::SessionLimit).1 is Ok ==> forall|
            later: HostView<R>,
            u: ExecView<R>,
            q: Result<SessionView<R>, ErrorView>,
        | #[trigger]
            runs(later, t, u, q) ==> u == t && q is Err,
        turns[k].after().sealed(ExitCode::SessionLimit).1 is Ok ==> forall|
            later: HostView<R>,
            segment: SegmentView,
        | !#[trigger] may_give(later, t, segment),
{
    let s1 = s.begun().0;
    lemma_takes_connected(h, s, turns, t, r);
    let turn = turns[k];
    assert(turn.s.untraced().session_over());
    assert(turn.result() == Ok::<Option<ExitCode>, ErrorView>(Some(ExitCode::SessionLimit)));
    if k < turns.len() - 1 {
        assert(goes_on(h, turns[k], turns[k + 1].s));
    } else if !(r is Err && loops(h, s1, turns, t, Err(r->Err_0))) {
        let (s2, exit_code, segment) = choose|
            s2: ExecView<R>,
            exit_code: ExitCode,
            segment: SegmentView,
        |
            {
                &&& #[trigger] loops(h, s1, turns, s2, Ok((exit_code, segment)))
                &&& closes(h.keep, s2, exit_code, segment, t, r)
            };
        assert(ends(h, turn, s2, Ok((exit_code, segment))));
    } else {
        assert(ends(h, turn, t, Err(r->Err_0)));
    }
}

/// An execution that has halted or faulted cannot be resumed: the executor stays as it
/// is, and the host is given nothing.
pub proof fn law_no_resume<R>(h: HostView<R>, s: ExecView<R>, t: ExecView<R>, r: Result<
    SessionView<R>,
    ErrorView,
>)
    requires
        s.exit_code matches Some(code) && !code.resumable(),
        runs(h, s, t, r),
    ensures
        t == s,
        r == Err::<SessionView<R>, ErrorView>(ErrorView::CannotResume(s.exit_code->Some_0)),
        forall|segment: SegmentView| !#[trigger] may_give(h, s, segment),
{
}

/// An execution that has paused is resumed behind the instruction that has paused
/// it, with the guest as it was, and with a new journal.
pub proof fn law_resume<R>(
    h: HostView<R>,
    s: ExecView<R>,
    t: ExecView<R>,
    session: SessionView<R>,
)
    requires
        s.inv(),
        runs(h, s, t, Ok(session)),
        session.exit_code is Paused,
    ensures
        ({
            let (begun, r) = t.begun();
            &&& r is Ok
            &&& begun.pc == session.post_image.pc + 4
            &&& begun.monitor.now.mem == session.post_image.mem
            &&& begun.monitor.now.regs == session.post_image.regs
            &&& begun.journal.len() == 0
            &&& begun.segments.len() == 0
        }),
{
    let turns = choose|turns: Seq<Turn<R>>| #[trigger] takes(h, s, turns, t, Ok(session));
    law_session(h, s, turns, t, session);
}

} // verus!
