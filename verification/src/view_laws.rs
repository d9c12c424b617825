//! What the models show of the values that they stand for.
use crate::executor::{exec_result, outcome_view, segment_view, session_view, ExecutorImpl};
use crate::hart::{step_view, HartStep, HartStepView};
use crate::segment::{Segment, SegmentView, Session, SessionView};
use crate::state::ExecView;
use crate::types::{
    reply_view, viewed, ErrorView, ExecError, ExecutorEnv, ExitCode, HartFault, SyscallRecord,
    SyscallReply, SyscallReplyView,
};
use vstd::prelude::*;

verus! {

/// The model of an answer of the host has all that the host gives.
pub proof fn law_reply_model(r: SyscallReply, e: ExecError)
    ensures
        reply_view(Err(e)) == Err::<SyscallReplyView, ErrorView>(e@),
        reply_view(Ok(r)) matches Ok(v) && {
            &&& v.to_guest == r.to_guest@
            &&& v.regs == r.regs
            &&& v.loads == r.loads@
            &&& v.journal == r.journal@
            &&& v.assumptions == r.assumptions@
        },
{
}

/// The model of a record has its words and its registers.
pub proof fn law_record_model(r: SyscallRecord)
    ensures
        r@.to_guest == r.to_guest@,
        r@.regs == r.regs,
{
}

/// The model of a hart after an instruction has its registers, where it goes on, and the
/// register that was written.
pub proof fn law_hart_model(step: HartStep, fault: HartFault)
    ensures
        step@.registers == step.registers@,
        step@.pc == step.pc,
        step@.written == step.written,
        step_view(Ok(step)) == Ok::<HartStepView, HartFault>(step@),
        step_view(Err(fault)) == Err::<HartStepView, HartFault>(fault),
{
}

/// The model of a segment has all that the segment has, and its answers in order.
pub proof fn law_segment_model(s: Segment)
    ensures
        s@.pre_image == s.pre_image@,
        s@.post_image == s.post_image@,
        s@.reads == s.faults.reads@,
        s@.writes == s.faults.writes@,
        s@.exit_code == s.exit_code,
        s@.split_insn == s.split_insn,
        s@.po2 == s.po2,
        s@.index == s.index,
        s@.cycles == s.cycles,
        s@.syscalls.len() == s.syscalls@.len(),
        forall|i: int|
            0 <= i < s.syscalls@.len() ==> #[trigger] s@.syscalls[i] == s.syscalls@[i]@,
        s@.output is Some <==> s.output is Some,
        s.output matches Some(o) ==> {
            &&& s@.output->Some_0.journal == o.journal@
            &&& s@.output->Some_0.assumptions == o.assumptions@
        },
{
}

/// The model of a session has all that the session has.
pub proof fn law_session_model<R>(s: Session<R>)
    ensures
        s@.segments == s.segments@,
        s@.exit_code == s.exit_code,
        s@.post_image == s.post_image@,
        s@.assumptions == s.assumptions@,
        s@.journal is Some <==> s.journal is Some,
        s.journal matches Some(j) ==> s@.journal == Some(j@),
{
}

/// The model of an environment has all that the environment has, and its names in order.
pub proof fn law_env_model(env: ExecutorEnv)
    ensures
        env@.session_limit == env.session_limit,
        env@.segment_limit_po2 == env.segment_limit_po2,
        env@.trace == env.trace,
        env@.pprof == env.pprof,
        env@.fault_proof == env.fault_proof,
        env@.syscalls.len() == env.syscalls@.len(),
        forall|i: int|
            0 <= i < env.syscalls@.len() ==> #[trigger] env@.syscalls[i] == env.syscalls@[i]@,
        env@.segment_path is Some <==> env.segment_path is Some,
        env.segment_path matches Some(path) ==> env@.segment_path == Some(path@),
{
}

/// Results are shown as what they are: a value by its model, and an error by its own.
pub proof fn law_result_models<R>(
    value: Option<ExitCode>,
    exec: ExecutorImpl<R>,
    exit_code: ExitCode,
    segment: Segment,
    session: Session<R>,
    e: ExecError,
)
    ensures
        viewed(Ok(value)) == Ok::<Option<ExitCode>, ErrorView>(value),
        viewed(Err::<Option<ExitCode>, ExecError>(e)) == Err::<Option<ExitCode>, ErrorView>(e@),
        exec_result(Ok(exec)) == Ok::<ExecView<R>, ErrorView>(exec@),
        exec_result::<R>(Err(e)) == Err::<ExecView<R>, ErrorView>(e@),
        outcome_view(Ok((exit_code, segment))) == Ok::<(ExitCode, SegmentView), ErrorView>((exit_code, segment@)),
        outcome_view(Err(e)) == Err::<(ExitCode, SegmentView), ErrorView>(e@),
        segment_view(Ok(segment)) == Ok::<SegmentView, ErrorView>(segment@),
        segment_view(Err(e)) == Err::<SegmentView, ErrorView>(e@),
        session_view(Ok(session)) == Ok::<SessionView<R>, ErrorView>(session@),
        session_view::<R>(Err(e)) == Err::<SessionView<R>, ErrorView>(e@),
{
}

/// Errors that are shown alike are alike.
pub proof fn law_error_models(a: ExecError, b: ExecError)
    requires
        a@ == b@,
    ensures
        a is UnknownSyscall ==> b is UnknownSyscall && a->UnknownSyscall_0@
            == b->UnknownSyscall_0@,
        !(a is UnknownSyscall) ==> a == b,
{
}

/// Each error is shown under its own name.
pub proof fn law_error_names(x: u32, code: ExitCode, number: u64)
    ensures
        ExecError::InvalidSegmentLimit(x)@ == ErrorView::InvalidSegmentLimit(x),
        ExecError::CannotResume(code)@ == ErrorView::CannotResume(code),
        ExecError::NoPreImage@ == ErrorView::NoPreImage,
        ExecError::SessionLimitExceeded@ == ErrorView::SessionLimitExceeded,
        ExecError::TooManySegments@ == ErrorView::TooManySegments,
        ExecError::SegmentOverLimit@ == ErrorView::SegmentOverLimit,
        ExecError::SegmentTooSmall(x)@ == ErrorView::SegmentTooSmall(x),
        ExecError::UnknownEcall(x)@ == ErrorView::UnknownEcall(x),
        ExecError::IllegalHaltType(x)@ == ErrorView::IllegalHaltType(x),
        ExecError::InvalidGuestAddress(x)@ == ErrorView::InvalidGuestAddress(x),
        ExecError::UnalignedAddress(x)@ == ErrorView::UnalignedAddress(x),
        ExecError::InvalidSyscallName@ == ErrorView::InvalidSyscallName,
        ExecError::InvalidBigIntOp(x)@ == ErrorView::InvalidBigIntOp(x),
        ExecError::BigIntOverflow@ == ErrorView::BigIntOverflow,
        ExecError::MissingClaim@ == ErrorView::MissingClaim,
        ExecError::Host(number)@ == ErrorView::Host(number),
{
}

} // verus!
