//! What an execution leaves behind.
use crate::guest::ImageView;
use crate::monitor::{MemoryImage, PageFaults};
use crate::types::{Assumption, Claim, ExitCode, SyscallRecord, SyscallRecordView};
use vstd::prelude::*;

verus! {

/// What the guest made public, and what that rests on.
#[derive(Debug)]
pub struct Output {
    pub journal: Vec<u8>,
    pub assumptions: Vec<Claim>,
}

/// The model of an [`Output`].
#[verifier::ext_equal]
pub struct OutputView {
    pub journal: Seq<u8>,
    pub assumptions: Seq<Claim>,
}

impl View for Output {
    type V = OutputView;

    open spec fn view(&self) -> OutputView {
        OutputView { journal: self.journal@, assumptions: self.assumptions@ }
    }
}

/// The part of an execution that is proven at once.
#[derive(Debug)]
pub struct Segment {
    /// The guest before the segment.
    pub pre_image: MemoryImage,
    /// The guest after the segment.
    pub post_image: MemoryImage,
    /// The output of the execution, in its last segment.
    pub output: Option<Output>,
    /// The pages that the segment touches.
    pub faults: PageFaults,
    /// The answers to the system calls of the segment.
    pub syscalls: Vec<SyscallRecord>,
    pub exit_code: ExitCode,
    /// The number of the instruction at which the segment was cut off.
    pub split_insn: Option<u32>,
    /// The size of the segment, in powers of 2 cycles.
    pub po2: u32,
    /// The number of the segment.
    pub index: u32,
    /// The cycles of its instructions.
    pub cycles: u32,
}

/// The model of a [`Segment`].
#[verifier::ext_equal]
pub struct SegmentView {
    pub pre_image: ImageView,
    pub post_image: ImageView,
    pub output: Option<OutputView>,
    pub reads: Set<u32>,
    pub writes: Set<u32>,
    pub syscalls: Seq<SyscallRecordView>,
    pub exit_code: ExitCode,
    pub split_insn: Option<u32>,
    pub po2: u32,
    pub index: u32,
    pub cycles: u32,
}

/// An output, where there is one.
pub open spec fn output_view(output: Option<Output>) -> Option<OutputView> {
    match output {
        Some(o) => Some(o@),
        None => None,
    }
}

/// The answers to system calls.
pub open spec fn records_view(records: Seq<SyscallRecord>) -> Seq<SyscallRecordView> {
    Seq::new(records.len(), |i: int| records[i]@)
}

impl View for Segment {
    type V = SegmentView;

    open spec fn view(&self) -> SegmentView {
        SegmentView {
            pre_image: self.pre_image@,
            post_image: self.post_image@,
            output: output_view(self.output),
            reads: self.faults.reads@,
            writes: self.faults.writes@,
            syscalls: records_view(self.syscalls@),
            exit_code: self.exit_code,
            split_insn: self.split_insn,
            po2: self.po2,
            index: self.index,
            cycles: self.cycles,
        }
    }
}

/// An execution, as far as it went.
#[derive(Debug)]
pub struct Session<R> {
    /// What the host made of the segments.
    pub segments: Vec<R>,
    /// What the guest made public.
    pub journal: Option<Vec<u8>>,
    pub exit_code: ExitCode,
    /// The guest at the end.
    pub post_image: MemoryImage,
    /// What was taken for granted about other executions.
    pub assumptions: Vec<Assumption>,
}

/// The model of a [`Session`].
#[verifier::ext_equal]
#[verifier::reject_recursive_types(R)]
pub struct SessionView<R> {
    pub segments: Seq<R>,
    pub journal: Option<Seq<u8>>,
    pub exit_code: ExitCode,
    pub post_image: ImageView,
    pub assumptions: Seq<Assumption>,
}

/// A journal, where there is one.
pub open spec fn journal_view(journal: Option<Vec<u8>>) -> Option<Seq<u8>> {
    match journal {
        Some(j) => Some(j@),
        None => None,
    }
}

impl<R> View for Session<R> {
    type V = SessionView<R>;

    open spec fn view(&self) -> SessionView<R> {
        SessionView {
            segments: self.segments@,
            journal: journal_view(self.journal),
            exit_code: self.exit_code,
            post_image: self.post_image@,
            assumptions: self.assumptions@,
        }
    }
}

/// Collects what the guest commits to.
#[derive(Debug)]
pub struct Journal {
    buf: Vec<u8>,
}

impl View for Journal {
    type V = Seq<u8>;

    closed spec fn view(&self) -> Seq<u8> {
        self.buf@
    }
}

impl Journal {
    /// A journal with nothing in it.
    pub fn new() -> (r: Self)
        ensures
            r@ == Seq::<u8>::empty(),
    {
        Journal { buf: Vec::new() }
    }

    /// Adds `bytes` to the journal, and says how many were added: all of them.
    pub fn write(&mut self, bytes: &Vec<u8>) -> (n: usize)
        ensures
            final(self)@ == old(self)@ + bytes@,
            n == bytes@.len(),
    {
        let mut i: usize = 0;
        let n: usize = bytes.len();
        while i < n
            invariant
                i <= n,
                n == bytes@.len(),
                self@ == old(self)@ + bytes@.take(i as int),
            decreases n - i,
        {
            self.buf.push(bytes[i]);
            i = i + 1;
            assert(self@ =~= old(self)@ + bytes@.take(i as int));
        }
        assert(bytes@.take(n as int) =~= bytes@);
        n
    }

    /// Does nothing: what is written is in the journal at once.
    pub fn flush(&mut self)
        ensures
            final(self)@ == old(self)@,
    {
    }

    /// Takes everything out of the journal.
    pub fn take(&mut self) -> (r: Vec<u8>)
        ensures
            r@ == old(self)@,
            final(self)@ == Seq::<u8>::empty(),
    {
        let mut out: Vec<u8> = Vec::new();
        out.append(&mut self.buf);
        assert(out@ =~= old(self)@);
        out
    }
}

} // verus!
