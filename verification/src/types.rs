//! The plain values that pass between the executor and its host.
use vstd::prelude::*;

verus! {

/// How an execution ended.
#[derive(Clone, Copy, Debug, PartialEq, Eq, Structural)]
pub enum ExitCode {
    /// The guest terminated with this user exit code.
    Halted(u32),
    /// The guest paused with this user exit code; it can be resumed.
    Paused(u32),
    /// The segment is full; the execution goes on in the next one.
    SystemSplit,
    /// The session reached its cycle limit.
    SessionLimit,
    /// The guest did something that the hart cannot execute.
    Fault,
}

impl ExitCode {
    /// Whether an execution that ends like this has an output.
    pub open spec fn has_output(self) -> bool {
        self is Halted || self is Paused
    }

    /// Whether an execution that ended like this can be run again.
    pub open spec fn resumable(self) -> bool {
        self is Paused || self is SystemSplit
    }

    /// Whether an execution that ends like this has an output.
    pub fn expects_output(&self) -> (r: bool)
        ensures
            r == self.has_output(),
    {
        match self {
            ExitCode::Halted(_) => true,
            ExitCode::Paused(_) => true,
            ExitCode::SystemSplit => false,
            ExitCode::SessionLimit => false,
            ExitCode::Fault => false,
        }
    }
}

/// Why the hart could not execute an instruction.
#[derive(Clone, Copy, Debug, PartialEq, Eq, Structural)]
pub enum HartFault {
    /// No instruction has these bits: the program counter, and the bits.
    IllegalInstruction(u32, u32),
    /// There is no instruction to fetch at this address.
    FetchError(u32),
    /// There is nothing to load at this address.
    LoadAccessFault(u32),
    /// Nothing can be stored at this address.
    StoreAccessFault(u32),
    /// The address is not aligned to the size of the access.
    AlignmentFault(u32),
}

/// Why an operation of the executor failed.
#[derive(Debug, PartialEq, Eq)]
pub enum ExecError {
    /// The segment limit, in powers of 2 cycles, is out of bounds.
    InvalidSegmentLimit(u32),
    /// An execution that exited like this cannot be resumed.
    CannotResume(ExitCode),
    /// There is no memory image to run from.
    NoPreImage,
    /// The session went over its cycle limit.
    SessionLimitExceeded,
    /// The segments can no longer be numbered.
    TooManySegments,
    /// A segment ends beyond its limit, because not even one in which nothing
    /// happens can be proven.
    SegmentOverLimit,
    /// The instruction at this address does not fit into a segment of its own.
    SegmentTooSmall(u32),
    /// The hart could not execute an instruction.
    InstructionFailed(HartFault),
    /// The guest asked for an ecall that does not exist.
    UnknownEcall(u32),
    /// The guest halted in a way that does not exist.
    IllegalHaltType(u32),
    /// The address does not belong to the guest.
    InvalidGuestAddress(u32),
    /// The address of a word is not a multiple of the word size.
    UnalignedAddress(u32),
    /// The name of a system call is not UTF-8.
    InvalidSyscallName,
    /// No system call has this name, which the guest gave.
    UnknownSyscall(String),
    /// The big integer operation must be 0, and was this.
    InvalidBigIntOp(u32),
    /// A product without a modulus does not fit into an operand.
    BigIntOverflow,
    /// A receipt that the guest relied on has no claim.
    MissingClaim,
    /// The host failed, for a reason that it knows under this number.
    Host(u64),
}

/// The model of an [`ExecError`].
#[verifier::ext_equal]
pub enum ErrorView {
    InvalidSegmentLimit(u32),
    CannotResume(ExitCode),
    NoPreImage,
    SessionLimitExceeded,
    TooManySegments,
    SegmentOverLimit,
    SegmentTooSmall(u32),
    InstructionFailed(HartFault),
    UnknownEcall(u32),
    IllegalHaltType(u32),
    InvalidGuestAddress(u32),
    UnalignedAddress(u32),
    InvalidSyscallName,
    UnknownSyscall(Seq<char>),
    InvalidBigIntOp(u32),
    BigIntOverflow,
    MissingClaim,
    Host(u64),
}

impl View for ExecError {
    type V = ErrorView;

    open spec fn view(&self) -> ErrorView {
        match self {
            ExecError::InvalidSegmentLimit(x) => ErrorView::InvalidSegmentLimit(*x),
            ExecError::CannotResume(x) => ErrorView::CannotResume(*x),
            ExecError::NoPreImage => ErrorView::NoPreImage,
            ExecError::SessionLimitExceeded => ErrorView::SessionLimitExceeded,
            ExecError::TooManySegments => ErrorView::TooManySegments,
            ExecError::SegmentOverLimit => ErrorView::SegmentOverLimit,
            ExecError::SegmentTooSmall(x) => ErrorView::SegmentTooSmall(*x),
            ExecError::InstructionFailed(x) => ErrorView::InstructionFailed(*x),
            ExecError::UnknownEcall(x) => ErrorView::UnknownEcall(*x),
            ExecError::IllegalHaltType(x) => ErrorView::IllegalHaltType(*x),
            ExecError::InvalidGuestAddress(x) => ErrorView::InvalidGuestAddress(*x),
            ExecError::UnalignedAddress(x) => ErrorView::UnalignedAddress(*x),
            ExecError::InvalidSyscallName => ErrorView::InvalidSyscallName,
            ExecError::UnknownSyscall(name) => ErrorView::UnknownSyscall(name@),
            ExecError::InvalidBigIntOp(x) => ErrorView::InvalidBigIntOp(*x),
            ExecError::BigIntOverflow => ErrorView::BigIntOverflow,
            ExecError::MissingClaim => ErrorView::MissingClaim,
            ExecError::Host(x) => ErrorView::Host(*x),
        }
    }
}

/// A value or an error, of which the error is looked at by its model.
pub open spec fn viewed<T>(r: Result<T, ExecError>) -> Result<T, ErrorView> {
    match r {
        Ok(value) => Ok(value),
        Err(e) => Err(e@),
    }
}

/// What the executor has to know of the kind of an instruction.
#[derive(Clone, Copy, Debug, PartialEq, Eq, Structural)]
pub enum MajorType {
    /// A call into the execution environment.
    ECall,
    /// Any instruction that the hart executes by itself.
    Hart,
}

/// A decoded instruction. It takes at least one cycle.
#[derive(Clone, Copy, Debug)]
pub struct OpCode {
    insn: u32,
    major: MajorType,
    cycles: u32,
}

impl OpCode {
    #[verifier::type_invariant]
    spec fn takes_time(self) -> bool {
        self.cycles > 0
    }

    /// The bits of the instruction.
    pub closed spec fn spec_insn(self) -> u32 {
        self.insn
    }

    /// The kind of the instruction.
    pub closed spec fn spec_major(self) -> MajorType {
        self.major
    }

    /// The cycles that the instruction takes.
    pub closed spec fn spec_cycles(self) -> u32 {
        self.cycles
    }

    pub fn new(insn: u32, major: MajorType, cycles: u32) -> (r: Self)
        requires
            cycles > 0,
        ensures
            r.spec_insn() == insn,
            r.spec_major() == major,
            r.spec_cycles() == cycles,
    {
        OpCode { insn, major, cycles }
    }

    /// The bits of the instruction.
    pub fn insn(&self) -> (r: u32)
        ensures
            r == self.spec_insn(),
    {
        self.insn
    }

    /// The kind of the instruction.
    pub fn major(&self) -> (r: MajorType)
        ensures
            r == self.spec_major(),
    {
        self.major
    }

    /// The cycles that the instruction takes.
    pub fn cycles(&self) -> (r: u32)
        ensures
            r == self.spec_cycles(),
            r > 0,
    {
        proof {
            use_type_invariant(self);
        }
        self.cycles
    }
}

/// What executing an instruction comes to, before it is committed.
#[derive(Clone, Copy, Debug)]
pub struct OpCodeResult {
    /// Where the execution goes on.
    pub pc: u32,
    /// How the execution ends with this instruction, if it does.
    pub exit_code: Option<ExitCode>,
    /// Cycles on top of those of the instruction itself.
    pub extra_cycles: u64,
}

impl OpCodeResult {
    pub fn new(pc: u32, exit_code: Option<ExitCode>, extra_cycles: u64) -> (r: Self)
        ensures
            r == (OpCodeResult { pc, exit_code, extra_cycles }),
    {
        OpCodeResult { pc, exit_code, extra_cycles }
    }
}

/// What a trace of the execution is made of.
#[derive(Clone, Copy, Debug, PartialEq, Eq, Structural)]
pub enum TraceEvent {
    /// An instruction starts.
    InstructionStart { cycle: u32, pc: u32, insn: u32 },
    /// A register takes a value.
    RegisterSet { idx: usize, value: u32 },
    /// A byte of guest memory takes a value.
    MemorySet { addr: u32, byte: u8 },
}

/// The answer to a system call, kept so that the call can be replayed.
#[derive(Debug)]
pub struct SyscallRecord {
    pub to_guest: Vec<u32>,
    pub regs: (u32, u32),
}

/// The model of a [`SyscallRecord`].
#[verifier::ext_equal]
pub struct SyscallRecordView {
    pub to_guest: Seq<u32>,
    pub regs: (u32, u32),
}

impl View for SyscallRecord {
    type V = SyscallRecordView;

    open spec fn view(&self) -> SyscallRecordView {
        SyscallRecordView { to_guest: self.to_guest@, regs: self.regs }
    }
}

impl Clone for SyscallRecord {
    fn clone(&self) -> (r: Self)
        ensures
            r@ == self@,
    {
        let to_guest = self.to_guest.clone();
        assert(to_guest@ =~= self.to_guest@);
        SyscallRecord { to_guest, regs: self.regs }
    }
}

/// The answer to the system call that is still to be committed.
pub open spec fn record_view(record: Option<SyscallRecord>) -> Option<SyscallRecordView> {
    match record {
        Some(r) => Some(r@),
        None => None,
    }
}

/// A statement about another execution.
#[derive(Clone, Copy, Debug)]
pub struct Claim {
    pub digest: [u8; 32],
}

/// A receipt, of which only the claim matters here.
#[derive(Clone, Copy, Debug)]
pub struct Receipt {
    pub claim: Option<Claim>,
}

/// What the guest took for granted about another execution.
#[derive(Clone, Copy, Debug)]
pub enum Assumption {
    /// There is a receipt.
    Proven(Receipt),
    /// There is only a claim so far.
    Unresolved(Claim),
}

impl Assumption {
    /// What was taken for granted, unless the receipt does not say.
    pub open spec fn spec_claim(self) -> Option<Claim> {
        match self {
            Assumption::Proven(receipt) => receipt.claim,
            Assumption::Unresolved(claim) => Some(claim),
        }
    }

    /// What was taken for granted, unless the receipt does not say.
    pub fn claim(&self) -> (r: Option<Claim>)
        ensures
            r == self.spec_claim(),
    {
        match self {
            Assumption::Proven(receipt) => receipt.claim,
            Assumption::Unresolved(claim) => Some(*claim),
        }
    }
}

/// Whether each of `assumptions` says what it claims.
pub open spec fn all_claimed(assumptions: Seq<Assumption>) -> bool {
    forall|i: int| 0 <= i < assumptions.len() ==> (#[trigger] assumptions[i]).spec_claim() is Some
}

/// What `assumptions` claim, in their order.
pub open spec fn claims_of(assumptions: Seq<Assumption>) -> Seq<Claim> {
    Seq::new(assumptions.len(), |i: int| assumptions[i].spec_claim()->Some_0)
}

/// Collects what `assumptions` claim.
pub fn collect_claims(assumptions: &Vec<Assumption>) -> (r: Result<Vec<Claim>, ExecError>)
    ensures
        match r {
            Ok(claims) => all_claimed(assumptions@) && claims@ == claims_of(assumptions@),
            Err(e) => !all_claimed(assumptions@) && e@ == ErrorView::MissingClaim,
        },
{
    let mut claims: Vec<Claim> = Vec::new();
    let mut i: usize = 0;
    while i < assumptions.len()
        invariant
            i <= assumptions.len(),
            claims@.len() == i,
            forall|k: int| 0 <= k < i ==> (#[trigger] assumptions@[k]).spec_claim() is Some,
            forall|k: int| 0 <= k < i ==> claims@[k] == claims_of(assumptions@)[k],
        decreases assumptions.len() - i,
    {
        match assumptions[i].claim() {
            Some(claim) => claims.push(claim),
            None => {
                return Err(ExecError::MissingClaim);
            },
        }
        i = i + 1;
    }
    assert(claims@ =~= claims_of(assumptions@));
    Ok(claims)
}

/// A system call that the host is asked to answer.
#[derive(Debug)]
pub struct SyscallRequest {
    /// The name of the system call.
    pub name: String,
    /// How many words the guest wants back.
    pub to_guest_words: u32,
}

/// What the host answers to a [`SyscallRequest`].
#[derive(Debug)]
pub struct SyscallReply {
    /// The words for the guest. What is missing of the number that was asked
    /// for is zero, and what is more is left out.
    pub to_guest: Vec<u32>,
    /// What the guest finds in its first two argument registers.
    pub regs: (u32, u32),
    /// The address and the length of each region of guest memory that the host
    /// has read for this answer.
    pub loads: Vec<(u32, u32)>,
    /// What the call adds to the journal.
    pub journal: Vec<u8>,
    /// What the call takes for granted about other executions.
    pub assumptions: Vec<Assumption>,
}

/// The model of a [`SyscallReply`].
#[verifier::ext_equal]
pub struct SyscallReplyView {
    pub to_guest: Seq<u32>,
    pub regs: (u32, u32),
    pub loads: Seq<(u32, u32)>,
    pub journal: Seq<u8>,
    pub assumptions: Seq<Assumption>,
}

impl View for SyscallReply {
    type V = SyscallReplyView;

    open spec fn view(&self) -> SyscallReplyView {
        SyscallReplyView {
            to_guest: self.to_guest@,
            regs: self.regs,
            loads: self.loads@,
            journal: self.journal@,
            assumptions: self.assumptions@,
        }
    }
}

/// What the host answers, or how it fails.
pub open spec fn reply_view(reply: Result<SyscallReply, ExecError>) -> Result<
    SyscallReplyView,
    ErrorView,
> {
    match reply {
        Ok(r) => Ok(r@),
        Err(e) => Err(e@),
    }
}

/// `words` cut or filled up with zeros to `n` words.
pub open spec fn fitted(words: Seq<u32>, n: nat) -> Seq<u32> {
    Seq::new(n, |i: int| if i < words.len() { words[i] } else { 0 })
}

/// Cuts `words` or fills them up with zeros to `n` words.
pub fn fit_words(words: &Vec<u32>, n: u32) -> (r: Vec<u32>)
    ensures
        r@ == fitted(words@, n as nat),
{
    let mut out: Vec<u32> = Vec::new();
    let mut i: u32 = 0;
    while i < n
        invariant
            i <= n,
            out@.len() == i,
            forall|k: int| 0 <= k < i ==> out@[k] == fitted(words@, n as nat)[k],
        decreases n - i,
    {
        if (i as usize) < words.len() {
            out.push(words[i as usize]);
        } else {
            out.push(0);
        }
        i = i + 1;
    }
    assert(out@ =~= fitted(words@, n as nat));
    out
}

/// What the circuit charges for work that is not an instruction.
#[derive(Clone, Copy, Debug)]
pub struct CycleCosts {
    /// Loading a segment.
    pub init_cycles: u32,
    /// Closing a segment.
    pub fini_cycles: u32,
    /// Keeping the execution secret.
    pub zk_cycles: u32,
    /// Reading a page of guest memory for the first time in a segment.
    pub page_read_cycles: u32,
    /// Writing back a page that was changed in a segment.
    pub page_write_cycles: u32,
}

impl CycleCosts {
    /// The cycles of a segment in which nothing happens.
    pub open spec fn const_cycles(self) -> nat {
        (self.init_cycles + self.fini_cycles + crate::platform::SHA_CYCLES + self.zk_cycles) as nat
    }
}

/// What an executor is configured with.
#[derive(Debug)]
pub struct ExecutorEnv {
    /// The cycles after which a session is stopped.
    pub session_limit: Option<u64>,
    /// The size of a segment, in powers of 2 cycles.
    pub segment_limit_po2: Option<u32>,
    /// Whether anyone listens to the trace of the execution.
    pub trace: bool,
    /// Whether a profile of the execution is wanted.
    pub pprof: bool,
    /// Whether a fault ends the execution instead of failing it.
    pub fault_proof: bool,
    /// The names of the system calls that the host answers.
    pub syscalls: Vec<String>,
    /// Where the host keeps the segments, if that is settled.
    pub segment_path: Option<String>,
}

/// The names in `names`.
pub open spec fn names_view(names: Seq<String>) -> Seq<Seq<char>> {
    Seq::new(names.len(), |i: int| names[i]@)
}

/// The model of an [`ExecutorEnv`].
#[verifier::ext_equal]
pub struct EnvView {
    pub session_limit: Option<u64>,
    pub segment_limit_po2: Option<u32>,
    pub trace: bool,
    pub pprof: bool,
    pub fault_proof: bool,
    pub syscalls: Seq<Seq<char>>,
    pub segment_path: Option<Seq<char>>,
}

/// A path, where there is one.
pub open spec fn path_view(path: Option<String>) -> Option<Seq<char>> {
    match path {
        Some(p) => Some(p@),
        None => None,
    }
}

impl EnvView {
    /// The size of a segment, in powers of 2 cycles.
    pub open spec fn limit_po2(self) -> u32 {
        match self.segment_limit_po2 {
            Some(po2) => po2,
            None => crate::platform::DEFAULT_SEGMENT_LIMIT_PO2,
        }
    }

    /// The environment of an executor that whoever wants a profile listens to.
    pub open spec fn listened(self) -> EnvView {
        EnvView { trace: self.trace || self.pprof, ..self }
    }
}

impl View for ExecutorEnv {
    type V = EnvView;

    open spec fn view(&self) -> EnvView {
        EnvView {
            session_limit: self.session_limit,
            segment_limit_po2: self.segment_limit_po2,
            trace: self.trace,
            pprof: self.pprof,
            fault_proof: self.fault_proof,
            syscalls: names_view(self.syscalls@),
            segment_path: path_view(self.segment_path),
        }
    }
}

impl ExecutorEnv {
    /// Whether the host answers the system call `name`.
    pub fn has_syscall(&self, name: &String) -> (r: bool)
        ensures
            r == self@.syscalls.contains(name@),
    {
        let mut i: usize = 0;
        while i < self.syscalls.len()
            invariant
                i <= self.syscalls.len(),
                forall|k: int| 0 <= k < i ==> self@.syscalls[k] != name@,
            decreases self.syscalls.len() - i,
        {
            if self.syscalls[i] == *name {
                assert(self@.syscalls[i as int] == name@);
                return true;
            }
            i = i + 1;
        }
        false
    }
}

} // verus!
