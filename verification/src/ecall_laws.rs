//! What each ecall does to the guest and to the executor, in plain terms.
use crate::bigint::{
    le_encoded, lemma_le_value_bound, lemma_le_value_encoded, lemma_le_value_join, product,
};
use crate::guest::{GuestView, MonitorView};
use crate::instruction_laws::{
    lemma_fetch, lemma_plain_bytes, lemma_plain_pages, lemma_plain_stored, lemma_settles,
};
use crate::laws::{law_ecall_commits_nothing, same_frame};
use crate::monitor_laws::{law_region_written, only_written, wrong_region};
use crate::plain::{
    at_instruction, byte, bytes, drops, events_if, fails, nothing, owned, page_set, put, set_events,
    settles, unharmed, unrecorded, Done,
};
use crate::sha::sha256_compressed;
use crate::sha_laws::law_sha_rounds_compose;
use crate::state::{sha_rounds, ExecView};
use crate::types::{ErrorView, ExitCode, MajorType, OpCode, OpCodeResult, SyscallReplyView};
use crate::words::{
    be_bytes, be_words, le_bytes, le_value, lemma_bytes_of_word, lemma_le_bytes_of_words,
};
use vstd::arithmetic::power2::pow2;
use vstd::prelude::*;

verus! {

/// There is an ecall to execute in `s`, decoded as `op`, whose number is `number`.
pub open spec fn at_ecall<R>(s: ExecView<R>, insn: u32, op: OpCode, number: u32) -> bool {
    &&& at_instruction(s, insn)
    &&& op.spec_major() == MajorType::ECall
    &&& op.spec_cycles() > 0
    &&& s.monitor.now.regs[5] == number
}

/// A step that executes an ecall.
pub proof fn lemma_ecall<R>(
    s: ExecView<R>,
    insn: u32,
    op: OpCode,
    number: u32,
    reply: Result<SyscallReplyView, ErrorView>,
)
    requires
        at_ecall(s, insn, op, number),
    ensures
        s.stepped(Ok(op), reply) == (match s.fetched().ecalled(reply) {
            (f, Err(e)) => (f, Err::<Option<ExitCode>, ErrorView>(e)),
            (f, Ok(r)) => f.settled(op, r),
        }),
        same_frame(s.untraced(), s.fetched().ecalled(reply).0),
        unrecorded(s, s.fetched().ecalled(reply).0),
        s.fetched().ecalled(reply).0.split_insn == s.split_insn,
        s.fetched().monitor.reg(5) == number,
        s.fetched().monitor.trace == s.monitor.trace,
        s.fetched().output_digest == s.output_digest,
        s.fetched().pending_syscall == s.pending_syscall,
        s.fetched().journal == s.journal,
        s.fetched().assumptions == s.assumptions,
{
    lemma_fetch(s, insn);
    law_ecall_commits_nothing(s.fetched(), reply);
}

/// Reading a region of the guest once an instruction is fetched.
proof fn lemma_region<R>(s: ExecView<R>, insn: u32, a: u32, n: int)
    requires
        at_instruction(s, insn),
        owned(a as int),
        0 <= n < 0x1000_0000,
    ensures
        ({
            let (m, r) = s.fetched().monitor.read_region(a, n);
            if n == 0 || a + n <= 0x0C00_0000 {
                &&& r == Ok::<Seq<u8>, ErrorView>(bytes(s.monitor.now, a as int, n))
                &&& m == s.fetched().monitor.touched(a as int, n)
                &&& m.now.reads == s.monitor.now.reads.union(page_set(s.pc as int, 4)).union(
                    page_set(a as int, n),
                )
            } else {
                r == Err::<Seq<u8>, ErrorView>(ErrorView::InvalidGuestAddress(0x0C00_0000))
            }
        }),
{
    lemma_fetch(s, insn);
    lemma_plain_bytes(s.monitor.now, a as int, n);
    if n == 0 || a + n <= 0x0C00_0000 {
        lemma_plain_pages(a as int, n);
    }
    assert(s.fetched().monitor.now.bytes_at(a as int, n) =~= s.monitor.now.bytes_at(a as int, n));
}

/// Halting: the low byte of a0 says whether the guest terminates or pauses, the next
/// one is its exit code, and the 32 bytes at a1 are the digest of its output. The guest
/// stays where it is.
#[verifier::rlimit(40)]
pub proof fn law_halt<R>(
    s: ExecView<R>,
    insn: u32,
    op: OpCode,
    reply: Result<SyscallReplyView, ErrorView>,
)
    requires
        s.inv(),
        at_ecall(s, insn, op, 0),
    ensures
        ({
            let (t, r) = s.stepped(Ok(op), reply);
            let request = s.monitor.now.regs[10];
            let at = s.monitor.now.regs[11];
            let user = (request / 256) % 256;
            let digest = bytes(s.monitor.now, at as int, 32);
            if !owned(at as int) {
                drops(s, ErrorView::InvalidGuestAddress(at), t, r)
            } else if at + 32 > 0x0C00_0000 {
                drops(s, ErrorView::InvalidGuestAddress(0x0C00_0000), t, r)
            } else if request % 256 <= 1 {
                settles(
                    s,
                    op,
                    Done {
                        code: Some(
                            if request % 256 == 0 {
                                ExitCode::Halted(user)
                            } else {
                                ExitCode::Paused(user)
                            },
                        ),
                        reads: s.monitor.now.reads.union(page_set(s.pc as int, 4)).union(
                            page_set(at as int, 32),
                        ),
                        digest: Some(digest),
                        ..nothing(s, s.pc as int, 0)
                    },
                    t,
                    r,
                )
            } else {
                &&& fails(s, ErrorView::IllegalHaltType(request % 256), t, r)
                &&& unharmed(s, t)
                &&& t.output_digest == Some(digest)
                &&& t.pending_syscall == s.pending_syscall
            }
        }),
{
    lemma_fetch(s, insn);
    lemma_ecall(s, insn, op, 0, reply);
    let request = s.monitor.now.regs[10];
    let at = s.monitor.now.regs[11];
    let user = (request / 256) % 256;
    if owned(at as int) {
        lemma_region(s, insn, at, 32);
        if at + 32 <= 0x0C00_0000 && request % 256 <= 1 {
            let (f, r) = s.fetched().ecalled(reply);
            lemma_settles(
                s,
                f,
                op,
                r->Ok_0,
                Done {
                    code: Some(
                        if request % 256 == 0 {
                            ExitCode::Halted(user)
                        } else {
                            ExitCode::Paused(user)
                        },
                    ),
                    reads: s.monitor.now.reads.union(page_set(s.pc as int, 4)).union(
                        page_set(at as int, 32),
                    ),
                    digest: Some(bytes(s.monitor.now, at as int, 32)),
                    ..nothing(s, s.pc as int, 0)
                },
            );
        }
    }
}

/// Reading the input digest: the 32 bytes at a0 are read, and nothing else comes of it.
#[verifier::rlimit(40)]
pub proof fn law_input<R>(
    s: ExecView<R>,
    insn: u32,
    op: OpCode,
    reply: Result<SyscallReplyView, ErrorView>,
)
    requires
        s.inv(),
        at_ecall(s, insn, op, 1),
    ensures
        ({
            let (t, r) = s.stepped(Ok(op), reply);
            let at = s.monitor.now.regs[10];
            if !owned(at as int) {
                drops(s, ErrorView::InvalidGuestAddress(at), t, r)
            } else if at + 32 > 0x0C00_0000 {
                drops(s, ErrorView::InvalidGuestAddress(0x0C00_0000), t, r)
            } else {
                settles(
                    s,
                    op,
                    Done {
                        reads: s.monitor.now.reads.union(page_set(s.pc as int, 4)).union(
                            page_set(at as int, 32),
                        ),
                        ..nothing(s, s.pc + 4, 0)
                    },
                    t,
                    r,
                )
            }
        }),
{
    lemma_fetch(s, insn);
    lemma_ecall(s, insn, op, 1, reply);
    let at = s.monitor.now.regs[10];
    if owned(at as int) {
        lemma_region(s, insn, at, 32);
        if at + 32 <= 0x0C00_0000 {
            let (f, r) = s.fetched().ecalled(reply);
            lemma_settles(
                s,
                f,
                op,
                r->Ok_0,
                Done {
                    reads: s.monitor.now.reads.union(page_set(s.pc as int, 4)).union(
                        page_set(at as int, 32),
                    ),
                    ..nothing(s, s.pc + 4, 0)
                },
            );
        }
    }
}

/// There are five ecalls, numbered from zero on.
pub proof fn law_unknown_ecall<R>(
    s: ExecView<R>,
    insn: u32,
    op: OpCode,
    number: u32,
    reply: Result<SyscallReplyView, ErrorView>,
)
    requires
        at_ecall(s, insn, op, number),
        number > 4,
    ensures
        drops(
            s,
            ErrorView::UnknownEcall(number),
            s.stepped(Ok(op), reply).0,
            s.stepped(Ok(op), reply).1,
        ),
{
    lemma_ecall(s, insn, op, number, reply);
}

/// The SHA-256 state that 32 bytes hold: eight words, each with its most significant
/// byte first.
pub open spec fn state_in(b: Seq<u8>) -> Seq<u32> {
    Seq::new(
        8,
        |i: int|
            (0x100_0000 * b[4 * i] + 0x1_0000 * b[4 * i + 1] + 0x100 * b[4 * i + 2] + b[4 * i
                + 3]) as u32,
    )
}

/// Byte `i` of a SHA-256 state.
pub open spec fn state_part(state: Seq<u32>, i: int) -> u8 {
    let w = state[i / 4] as int;
    (if i % 4 == 0 {
        w / 0x100_0000
    } else if i % 4 == 1 {
        w / 0x1_0000 % 0x100
    } else if i % 4 == 2 {
        w / 0x100 % 0x100
    } else {
        w % 0x100
    }) as u8
}

/// The 32 bytes that hold a SHA-256 state.
pub open spec fn state_out(state: Seq<u32>) -> Seq<u8> {
    Seq::new(32, |i: int| state_part(state, i))
}

/// Block `k`: 32 bytes from the first half at `b1`, and 32 bytes from the second half at
/// `b2`. Halves lie 64 bytes apart.
pub open spec fn block(g: GuestView, b1: int, b2: int, k: int) -> Seq<u8> {
    bytes(g, b1 + 64 * k, 32) + bytes(g, b2 + 64 * k, 32)
}

/// The state after `n` blocks were compressed into it, one after the other.
pub open spec fn absorbed(g: GuestView, state: Seq<u32>, b1: int, b2: int, n: nat) -> Seq<u32>
    decreases n,
{
    if n == 0 {
        state
    } else {
        let k = (n - 1) as nat;
        sha256_compressed(absorbed(g, state, b1, b2, k), block(g, b1, b2, k as int))@
    }
}

/// All of `n` blocks lie in guest memory, at aligned addresses. Of a first half 64 bytes
/// have to.
pub open spec fn blocks_owned(b1: int, b2: int, n: int) -> bool {
    n > 0 ==> {
        &&& b1 % 4 == 0
        &&& b2 % 4 == 0
        &&& b1 + 64 * n <= 0x0C00_0000
        &&& b2 + 64 * n - 32 <= 0x0C00_0000
    }
}

/// The pages that hold `n` blocks.
pub open spec fn block_pages(b1: int, b2: int, n: int) -> Set<u32> {
    page_set(b1, 64 * n).union(page_set(b2, 64 * n - 32))
}

/// The words of a region, as bytes.
proof fn lemma_region_words(m: MonitorView, a: u32, n: nat)
    requires
        owned(a as int),
        a % 4 == 0,
        0 < n,
        a + 4 * n <= 0x0C00_0000,
    ensures
        m.read_words(a, n as int).1 is Ok,
        m.read_words(a, n as int).1->Ok_0.len() == n,
        le_bytes(m.read_words(a, n as int).1->Ok_0) == bytes(m.now, a as int, 4 * n as int),
        m.read_words(a, n as int).0 == m.touched(a as int, 4 * n as int),
{
    let words = m.read_words(a, n as int).1->Ok_0;
    assert forall|i: int| 0 <= i < 4 * n implies le_bytes(words)[i] == byte(m.now, a + i) by {
        let at = a + 4 * (i / 4);
        lemma_bytes_of_word(
            m.now.byte_at(at),
            m.now.byte_at(at + 1),
            m.now.byte_at(at + 2),
            m.now.byte_at(at + 3),
        );
        assert(i % 4 == 0 || i % 4 == 1 || i % 4 == 2 || i % 4 == 3);
        assert(a + i == at + i % 4);
    }
    assert(le_bytes(words) =~= bytes(m.now, a as int, 4 * n as int));
}

/// Absorbing one block.
#[verifier::rlimit(40)]
proof fn lemma_one_round(m: MonitorView, state: Seq<u32>, b1: u32, b2: u32)
    requires
        owned(b1 as int),
        owned(b2 as int),
        blocks_owned(b1 as int, b2 as int, 1),
    ensures
        ({
            let (t, r) = sha_rounds(m, state, b1, b2, 1);
            &&& r == Ok::<Seq<u32>, ErrorView>(
                sha256_compressed(state, block(m.now, b1 as int, b2 as int, 0))@,
            )
            &&& t == m.touched(b1 as int, 64).touched(b2 as int, 32)
        }),
{
    reveal_with_fuel(sha_rounds, 2);
    lemma_region_words(m, b1, 16);
    let m1 = m.touched(b1 as int, 64);
    lemma_region_words(m1, b2, 8);
    let first = m.read_words(b1, 16).1->Ok_0;
    let second = m1.read_words(b2, 8).1->Ok_0;
    assert(bytes(m1.now, b2 as int, 32) =~= bytes(m.now, b2 as int, 32));
    let b = le_bytes(first.take(8) + second);
    assert forall|i: int| 0 <= i < 64 implies b[i] == block(m.now, b1 as int, b2 as int, 0)[i] by {
        if i < 32 {
            assert(b[i] == le_bytes(first)[i]);
        } else {
            assert(b[i] == le_bytes(second)[i - 32]);
        }
    }
    assert(b =~= block(m.now, b1 as int, b2 as int, 0));
}

/// The pages of one block more.
proof fn lemma_block_pages(reads: Set<u32>, b1: int, b2: int, k: int)
    requires
        0 <= b1,
        0 <= b2,
        0 <= k,
    ensures
        reads.union(block_pages(b1, b2, k)).union(page_set(b1 + 64 * k, 64)).union(
            page_set(b2 + 64 * k, 32),
        ) == reads.union(block_pages(b1, b2, k + 1)),
{
    assert(page_set(b1, 64 * k).union(page_set(b1 + 64 * k, 64)) =~= page_set(b1, 64 * (k + 1)));
    assert(page_set(b2, 64 * k - 32).union(page_set(b2 + 64 * k, 32)) =~= page_set(
        b2,
        64 * (k + 1) - 32,
    ));
    assert forall|p: u32| #[trigger]
        reads.union(block_pages(b1, b2, k)).union(page_set(b1 + 64 * k, 64)).union(
            page_set(b2 + 64 * k, 32),
        ).contains(p) == reads.union(block_pages(b1, b2, k + 1)).contains(p) by {
        assert(page_set(b1, 64 * (k + 1)).contains(p) == (page_set(b1, 64 * k).contains(p)
            || page_set(b1 + 64 * k, 64).contains(p)));
        assert(page_set(b2, 64 * (k + 1) - 32).contains(p) == (page_set(
            b2,
            64 * k - 32,
        ).contains(p) || page_set(b2 + 64 * k, 32).contains(p)));
    }
    assert(reads.union(block_pages(b1, b2, k)).union(page_set(b1 + 64 * k, 64)).union(
        page_set(b2 + 64 * k, 32),
    ) =~= reads.union(block_pages(b1, b2, k + 1)));
}

/// Absorbing blocks, in plain terms.
#[verifier::rlimit(40)]
proof fn lemma_rounds(m: MonitorView, state: Seq<u32>, b1: u32, b2: u32, n: nat)
    requires
        owned(b1 as int),
        owned(b2 as int),
        blocks_owned(b1 as int, b2 as int, n as int),
    ensures
        ({
            let (t, r) = sha_rounds(m, state, b1, b2, n);
            &&& r == Ok::<Seq<u32>, ErrorView>(
                absorbed(m.now, state, b1 as int, b2 as int, n),
            )
            &&& t.now.reads == m.now.reads.union(block_pages(b1 as int, b2 as int, n as int))
            &&& t == MonitorView { now: GuestView { reads: t.now.reads, ..m.now }, ..m }
        }),
    decreases n,
{
    if n == 0 {
        assert(block_pages(b1 as int, b2 as int, 0) =~= Set::empty());
        assert(m.now.reads.union(Set::empty()) =~= m.now.reads);
    } else {
        let k = (n - 1) as nat;
        lemma_rounds(m, state, b1, b2, k);
        law_sha_rounds_compose(m, state, b1, b2, k, 1);
        let (m1, r1) = sha_rounds(m, state, b1, b2, k);
        let (at1, at2) = ((b1 + 64 * k) as u32, (b2 + 64 * k) as u32);
        lemma_one_round(m1, r1->Ok_0, at1, at2);
        assert(block(m1.now, at1 as int, at2 as int, 0) =~= block(
            m.now,
            b1 as int,
            b2 as int,
            k as int,
        ));
        lemma_plain_pages(at1 as int, 64);
        lemma_plain_pages(at2 as int, 32);
        lemma_block_pages(m.now.reads, b1 as int, b2 as int, k as int);
    }
}

/// What a SHA-256 ecall in `s` does, where its pointers are in order.
pub open spec fn sha_done<R>(s: ExecView<R>) -> Done {
    let g = s.monitor.now;
    let out = g.regs[10] as int;
    let start = g.regs[11] as int;
    let (b1, b2, n) = (g.regs[12] as int, g.regs[13] as int, g.regs[14] as nat);
    let data = state_out(absorbed(g, state_in(bytes(g, start, 32)), b1, b2, n));
    Done {
        at: out,
        data,
        reads: g.reads.union(page_set(s.pc as int, 4)).union(page_set(start, 32)).union(
            block_pages(b1, b2, n as int),
        ).union(page_set(out, 32)),
        writes: g.writes.union(page_set(out, 32)),
        events: events_if(s, set_events(out, data)),
        ..nothing(s, s.pc + 4, 73 * n as int)
    }
}

/// Each of the four pointers of a SHA-256 ecall is one into guest memory.
pub open spec fn sha_pointers<R>(s: ExecView<R>) -> bool {
    let regs = s.monitor.now.regs;
    owned(regs[10] as int) && owned(regs[11] as int) && owned(regs[12] as int) && owned(
        regs[13] as int,
    )
}

/// The SHA-256 ecall: the state at a1 absorbs as many blocks as a4 says, whose halves are
/// at a2 and a3, and is written to a0. That takes 73 cycles for a block.
#[verifier::rlimit(60)]
pub proof fn law_sha<R>(
    s: ExecView<R>,
    insn: u32,
    op: OpCode,
    reply: Result<SyscallReplyView, ErrorView>,
)
    requires
        s.inv(),
        at_ecall(s, insn, op, 3),
        sha_pointers(s),
        blocks_owned(
            s.monitor.now.regs[12] as int,
            s.monitor.now.regs[13] as int,
            s.monitor.now.regs[14] as int,
        ),
        s.monitor.now.regs[11] + 32 <= 0x0C00_0000,
    ensures
        ({
            let (t, r) = s.stepped(Ok(op), reply);
            if s.monitor.now.regs[10] + 32 > 0x0C00_0000 {
                drops(s, ErrorView::InvalidGuestAddress(0x0C00_0000), t, r)
            } else {
                settles(s, op, sha_done(s), t, r)
            }
        }),
{
    lemma_fetch(s, insn);
    lemma_ecall(s, insn, op, 3, reply);
    let g = s.monitor.now;
    let m = s.fetched().monitor;
    let (out, start) = (g.regs[10], g.regs[11]);
    let (b1, b2, n) = (g.regs[12], g.regs[13], g.regs[14] as nat);
    lemma_region(s, insn, start, 32);
    let m1 = m.read_region(start, 32).0;
    let state = bytes(g, start as int, 32);
    assert(be_words(state) =~= state_in(state));
    lemma_rounds(m1, state_in(state), b1, b2, n);
    lemma_absorbed_same(m1.now, g, state_in(state), b1 as int, b2 as int, n);
    let last = absorbed(g, state_in(state), b1 as int, b2 as int, n);
    lemma_absorbed_len(g, state_in(state), b1 as int, b2 as int, n);
    let data = state_out(last);
    assert(be_bytes(last) =~= data) by {
        assert forall|i: int| 0 <= i < 32 implies be_bytes(last)[i] == state_part(last, i) by {
            assert(i % 4 == 0 || i % 4 == 1 || i % 4 == 2 || i % 4 == 3);
        }
    }
    let m2 = sha_rounds(m1, state_in(state), b1, b2, n).0;
    if out + 32 <= 0x0C00_0000 {
        lemma_plain_stored(m2, out as int, data);
        let (f, r) = s.fetched().ecalled(reply);
        assert(f.monitor == m2.stored(out as int, data));
        assert(put(g, f.monitor.now, out as int, data)) by {
            assert(forall|k: u32| #[trigger] byte(m2.now, k as int) == byte(g, k as int));
        }
        lemma_settles(s, f, op, r->Ok_0, sha_done(s));
    }
}

/// A SHA-256 ecall that is committed leaves at a0 the state that it has compressed its
/// blocks into: for one block, the state at a1 with 32 bytes at a2 and 32 bytes at a3.
pub proof fn law_sha_leaves<R>(
    s: ExecView<R>,
    insn: u32,
    op: OpCode,
    reply: Result<SyscallReplyView, ErrorView>,
)
    requires
        s.inv(),
        at_ecall(s, insn, op, 3),
        sha_pointers(s),
        blocks_owned(
            s.monitor.now.regs[12] as int,
            s.monitor.now.regs[13] as int,
            s.monitor.now.regs[14] as int,
        ),
        s.monitor.now.regs[11] + 32 <= 0x0C00_0000,
        s.stepped(Ok(op), reply).1 == Ok::<Option<ExitCode>, ErrorView>(None),
    ensures
        ({
            let (g, h) = (s.monitor.now, s.stepped(Ok(op), reply).0.monitor.saved);
            let (out, start) = (g.regs[10] as int, g.regs[11] as int);
            let (b1, b2, n) = (g.regs[12] as int, g.regs[13] as int, g.regs[14] as nat);
            let state = state_in(bytes(g, start, 32));
            &&& bytes(h, out, 32) == state_out(absorbed(g, state, b1, b2, n))
            &&& n == 1 ==> bytes(h, out, 32) == state_out(
                sha256_compressed(state, bytes(g, b1, 32) + bytes(g, b2, 32))@,
            )
        }),
{
    law_sha(s, insn, op, reply);
    let (g, h) = (s.monitor.now, s.stepped(Ok(op), reply).0.monitor.saved);
    let (out, start) = (g.regs[10] as int, g.regs[11] as int);
    let (b1, b2, n) = (g.regs[12] as int, g.regs[13] as int, g.regs[14] as nat);
    let state = state_in(bytes(g, start, 32));
    let data = state_out(absorbed(g, state, b1, b2, n));
    assert(sha_done(s).data == data);
    assert(put(g, h, out, data));
    assert forall|i: int| 0 <= i < 32 implies bytes(h, out, 32)[i] == data[i] by {
        assert(byte(h, ((out + i) as u32) as int) == data[i]);
    }
    assert(bytes(h, out, 32) =~= data);
    if n == 1 {
        reveal_with_fuel(absorbed, 2);
        assert(block(g, b1, b2, 0) =~= bytes(g, b1, 32) + bytes(g, b2, 32));
    }
}

/// A state that is stored lies in memory word after word, each with its most significant
/// byte first, and the guest goes on after 73 cycles for a block.
pub proof fn law_state_stored<R>(s: ExecView<R>, out: u32, state: Seq<u32>, count: u32)
    ensures
        ({
            let (t, r) = s.sha_stored(out, state, count);
            let data = Seq::new(4 * state.len(), |i: int| state_part(state, i));
            match wrong_region(out, data.len() as int) {
                Some(e) => t == s && r == Err::<OpCodeResult, ErrorView>(e),
                None => {
                    &&& t == (ExecView { monitor: t.monitor, ..s })
                    &&& only_written(s.monitor, t.monitor, out as int, data)
                    &&& r == Ok::<OpCodeResult, ErrorView>(
                        OpCodeResult {
                            pc: (s.pc + 4) as u32,
                            exit_code: None,
                            extra_cycles: (73 * count) as u64,
                        },
                    )
                },
            }
        }),
{
    let data = Seq::new(4 * state.len(), |i: int| state_part(state, i));
    assert(be_bytes(state) =~= data) by {
        assert forall|i: int| 0 <= i < data.len() implies be_bytes(state)[i] == state_part(
            state,
            i,
        ) by {
            assert(i % 4 == 0 || i % 4 == 1 || i % 4 == 2 || i % 4 == 3);
        }
    }
    law_region_written(s.monitor, out, data);
}

/// What is absorbed depends on memory alone.
proof fn lemma_absorbed_same(
    g: GuestView,
    h: GuestView,
    state: Seq<u32>,
    b1: int,
    b2: int,
    n: nat,
)
    requires
        g.mem == h.mem,
    ensures
        absorbed(g, state, b1, b2, n) == absorbed(h, state, b1, b2, n),
    decreases n,
{
    if n > 0 {
        let k = (n - 1) as nat;
        lemma_absorbed_same(g, h, state, b1, b2, k);
        assert(block(g, b1, b2, k as int) =~= block(h, b1, b2, k as int));
    }
}

/// A state has eight words.
proof fn lemma_absorbed_len(g: GuestView, state: Seq<u32>, b1: int, b2: int, n: nat)
    requires
        state.len() == 8,
    ensures
        absorbed(g, state, b1, b2, n).len() == 8,
{
}

/// A SHA-256 ecall whose pointers are not in order fails.
#[verifier::rlimit(40)]
pub proof fn law_sha_pointers<R>(
    s: ExecView<R>,
    insn: u32,
    op: OpCode,
    reply: Result<SyscallReplyView, ErrorView>,
)
    requires
        at_ecall(s, insn, op, 3),
        !sha_pointers(s) || s.monitor.now.regs[11] + 32 > 0x0C00_0000,
    ensures
        ({
            let (t, r) = s.stepped(Ok(op), reply);
            let regs = s.monitor.now.regs;
            let wrong = if !owned(regs[10] as int) {
                regs[10]
            } else if !owned(regs[11] as int) {
                regs[11]
            } else if !owned(regs[12] as int) {
                regs[12]
            } else if !owned(regs[13] as int) {
                regs[13]
            } else {
                0x0C00_0000
            };
            drops(s, ErrorView::InvalidGuestAddress(wrong), t, r)
        }),
{
    lemma_fetch(s, insn);
    lemma_ecall(s, insn, op, 3, reply);
    if sha_pointers(s) {
        lemma_region(s, insn, s.monitor.now.regs[11], 32);
    }
}

/// What is wrong with a block whose halves are at `b1` and `b2`.
pub open spec fn block_error(b1: int, b2: int) -> ErrorView {
    if b1 % 4 != 0 {
        ErrorView::UnalignedAddress(b1 as u32)
    } else if b1 + 64 > 0x0C00_0000 {
        ErrorView::InvalidGuestAddress(0x0C00_0000)
    } else if b2 >= 0x0C00_0000 {
        ErrorView::InvalidGuestAddress(b2 as u32)
    } else if b2 % 4 != 0 {
        ErrorView::UnalignedAddress(b2 as u32)
    } else {
        ErrorView::InvalidGuestAddress(0x0C00_0000)
    }
}

/// Absorbing a block that is not in order.
proof fn lemma_bad_round(m: MonitorView, state: Seq<u32>, b1: u32, b2: u32, n: nat)
    requires
        n > 0,
        owned(b1 as int) || b1 == 0x0C00_0000,
        0x400 <= b2,
        !blocks_owned(b1 as int, b2 as int, 1),
    ensures
        sha_rounds(m, state, b1, b2, n).1 == Err::<Seq<u32>, ErrorView>(
            block_error(b1 as int, b2 as int),
        ),
{
    if b1 % 4 == 0 && b1 + 64 <= 0x0C00_0000 {
        lemma_region_words(m, b1, 16);
    }
}

/// A SHA-256 ecall fails with the first block, `k`, that is not in guest memory or not
/// aligned. The halves of a block are tried one after the other.
#[verifier::rlimit(60)]
pub proof fn law_sha_blocks<R>(
    s: ExecView<R>,
    insn: u32,
    op: OpCode,
    reply: Result<SyscallReplyView, ErrorView>,
    k: nat,
)
    requires
        at_ecall(s, insn, op, 3),
        sha_pointers(s),
        s.monitor.now.regs[11] + 32 <= 0x0C00_0000,
        k < s.monitor.now.regs[14],
        blocks_owned(s.monitor.now.regs[12] as int, s.monitor.now.regs[13] as int, k as int),
        !blocks_owned(s.monitor.now.regs[12] as int, s.monitor.now.regs[13] as int, (k + 1) as int),
    ensures
        ({
            let (t, r) = s.stepped(Ok(op), reply);
            let (b1, b2) = (s.monitor.now.regs[12], s.monitor.now.regs[13]);
            drops(s, block_error(b1 + 64 * k, b2 + 64 * k), t, r)
        }),
{
    lemma_fetch(s, insn);
    lemma_ecall(s, insn, op, 3, reply);
    let g = s.monitor.now;
    let m = s.fetched().monitor;
    let (out, start) = (g.regs[10], g.regs[11]);
    let (b1, b2, n) = (g.regs[12], g.regs[13], g.regs[14] as nat);
    lemma_region(s, insn, start, 32);
    let m1 = m.read_region(start, 32).0;
    let state = be_words(bytes(g, start as int, 32));
    lemma_rounds(m1, state, b1, b2, k);
    law_sha_rounds_compose(m1, state, b1, b2, k, (n - k) as nat);
    let (m2, r2) = sha_rounds(m1, state, b1, b2, k);
    let (at1, at2) = ((b1 + 64 * k) as u32, (b2 + 64 * k) as u32);
    lemma_bad_round(m2, r2->Ok_0, at1, at2, (n - k) as nat);
    assert(sha_rounds(m1, state, b1, b2, n).1 == Err::<Seq<u32>, ErrorView>(
        block_error(at1 as int, at2 as int),
    ));
}

/// The number that bytes hold: byte `i` counts 2 to the power of `8 * i`.
pub open spec fn number(b: Seq<u8>) -> nat
    decreases b.len(),
{
    if b.len() == 0 {
        0
    } else {
        number(b.drop_last()) + b.last() as nat * pow2((8 * (b.len() - 1)) as nat)
    }
}

/// Numbers are the same from either end.
pub proof fn lemma_number(b: Seq<u8>)
    ensures
        le_value(b) == number(b),
    decreases b.len(),
{
    if b.len() > 0 {
        let rest = b.drop_last();
        let top = seq![b.last()];
        lemma_number(rest);
        lemma_le_value_join(rest, top);
        assert(rest + top =~= b);
        assert(top.drop_first().len() == 0);
        assert(le_value(top) == b.last() as nat + 256 * le_value(top.drop_first()));
        assert(le_value(top.drop_first()) == 0);
        assert(pow2(8 * rest.len()) * le_value(top) == b.last() as nat * pow2(8 * rest.len()))
            by (nonlinear_arith)
            requires
                le_value(top) == b.last() as nat,
        ;
    }
}

/// What is wrong with the operand of a big integer ecall at `a`, if anything is.
pub open spec fn operand_error(a: u32) -> Option<ErrorView> {
    if a % 4 != 0 {
        Some(ErrorView::UnalignedAddress(a))
    } else if a + 32 > 0x0C00_0000 {
        Some(ErrorView::InvalidGuestAddress(0x0C00_0000))
    } else {
        None
    }
}

/// What a big integer ecall in `s` does that comes to the bytes `data`.
pub open spec fn bigint_done<R>(s: ExecView<R>, data: Seq<u8>) -> Done {
    let g = s.monitor.now;
    let z = g.regs[10] as int;
    Done {
        at: z,
        data,
        reads: g.reads.union(page_set(s.pc as int, 4)).union(
            page_set(g.regs[12] as int, 32),
        ).union(page_set(g.regs[13] as int, 32)).union(page_set(g.regs[14] as int, 32)).union(
            page_set(z, 32),
        ),
        writes: g.writes.union(page_set(z, 32)),
        events: events_if(s, set_events(z, data)),
        ..nothing(s, s.pc + 4, 9)
    }
}

/// The pointers of a big integer ecall are in order, and it is a multiplication.
pub open spec fn bigint_pointers<R>(s: ExecView<R>) -> bool {
    let regs = s.monitor.now.regs;
    &&& owned(regs[10] as int)
    &&& owned(regs[12] as int)
    &&& owned(regs[13] as int)
    &&& owned(regs[14] as int)
    &&& regs[11] == 0
    &&& operand_error(regs[12]) is None
    &&& operand_error(regs[13]) is None
    &&& operand_error(regs[14]) is None
}

/// The big integer ecall: of the numbers of 256 bits at a2, a3 and a4 the product of the
/// first two, modulo the third unless that is zero, is written to a0. A product that
/// does not fit into 256 bits is an error.
#[verifier::rlimit(60)]
pub proof fn law_bigint<R>(
    s: ExecView<R>,
    insn: u32,
    op: OpCode,
    reply: Result<SyscallReplyView, ErrorView>,
)
    requires
        s.inv(),
        at_ecall(s, insn, op, 4),
        bigint_pointers(s),
    ensures
        ({
            let (t, r) = s.stepped(Ok(op), reply);
            let g = s.monitor.now;
            let x = number(bytes(g, g.regs[12] as int, 32));
            let y = number(bytes(g, g.regs[13] as int, 32));
            let n = number(bytes(g, g.regs[14] as int, 32));
            if n == 0 && x * y >= pow2(256) {
                drops(s, ErrorView::BigIntOverflow, t, r)
            } else {
                match operand_error(g.regs[10]) {
                    Some(e) => {
                        &&& fails(s, e, t, r)
                        &&& t.output_digest == s.output_digest
                        &&& t.pending_syscall == s.pending_syscall
                        &&& t.monitor.now.regs == g.regs
                    },
                    None => exists|data: Seq<u8>|
                        {
                            &&& data.len() == 32
                            &&& number(data) == (if n == 0 {
                                x * y
                            } else {
                                (x * y) % n
                            })
                            &&& #[trigger] settles(s, op, bigint_done(s, data), t, r)
                        },
                }
            }
        }),
{
    lemma_fetch(s, insn);
    lemma_ecall(s, insn, op, 4, reply);
    let g = s.monitor.now;
    let m = s.fetched().monitor;
    let (z_ptr, x_ptr, y_ptr, n_ptr) = (g.regs[10], g.regs[12], g.regs[13], g.regs[14]);
    lemma_region_words(m, x_ptr, 8);
    let m1 = m.touched(x_ptr as int, 32);
    lemma_region_words(m1, y_ptr, 8);
    let m2 = m1.touched(y_ptr as int, 32);
    lemma_region_words(m2, n_ptr, 8);
    let m3 = m2.touched(n_ptr as int, 32);
    assert(bytes(m.now, x_ptr as int, 32) =~= bytes(g, x_ptr as int, 32));
    assert(bytes(m1.now, y_ptr as int, 32) =~= bytes(g, y_ptr as int, 32));
    assert(bytes(m2.now, n_ptr as int, 32) =~= bytes(g, n_ptr as int, 32));
    lemma_number(bytes(g, x_ptr as int, 32));
    lemma_number(bytes(g, y_ptr as int, 32));
    lemma_number(bytes(g, n_ptr as int, 32));
    let x = number(bytes(g, x_ptr as int, 32));
    let y = number(bytes(g, y_ptr as int, 32));
    let n = number(bytes(g, n_ptr as int, 32));
    if n != 0 || x * y < pow2(256) {
        let z = product(x, y, n)->Some_0;
        lemma_le_value_bound(bytes(g, n_ptr as int, 32));
        assert(z < pow2(256));
        lemma_le_value_encoded(z, 32);
        let data = le_encoded(z, 32);
        lemma_number(data);
        lemma_le_bytes_of_words(data);
        if operand_error(z_ptr) is None {
            assert(data.take(32) =~= data);
            lemma_plain_stored(m3, z_ptr as int, data);
            lemma_plain_pages(x_ptr as int, 32);
            lemma_plain_pages(y_ptr as int, 32);
            lemma_plain_pages(n_ptr as int, 32);
            let (f, r) = s.fetched().ecalled(reply);
            assert(f.monitor == m3.stored(z_ptr as int, data));
            assert(put(g, f.monitor.now, z_ptr as int, data)) by {
                assert(forall|k: u32| #[trigger] byte(m3.now, k as int) == byte(g, k as int));
            }
            lemma_settles(s, f, op, r->Ok_0, bigint_done(s, data));
            assert(settles(
                s,
                op,
                bigint_done(s, data),
                s.stepped(Ok(op), reply).0,
                s.stepped(Ok(op), reply).1,
            ));
        }
    }
}

/// A big integer ecall whose pointers are not in order fails, and so does one that is no
/// multiplication.
#[verifier::rlimit(60)]
pub proof fn law_bigint_pointers<R>(
    s: ExecView<R>,
    insn: u32,
    op: OpCode,
    reply: Result<SyscallReplyView, ErrorView>,
)
    requires
        at_ecall(s, insn, op, 4),
        !bigint_pointers(s),
    ensures
        ({
            let (t, r) = s.stepped(Ok(op), reply);
            let regs = s.monitor.now.regs;
            let e = if !owned(regs[10] as int) {
                ErrorView::InvalidGuestAddress(regs[10])
            } else if !owned(regs[12] as int) {
                ErrorView::InvalidGuestAddress(regs[12])
            } else if !owned(regs[13] as int) {
                ErrorView::InvalidGuestAddress(regs[13])
            } else if !owned(regs[14] as int) {
                ErrorView::InvalidGuestAddress(regs[14])
            } else if regs[11] != 0 {
                ErrorView::InvalidBigIntOp(regs[11])
            } else if operand_error(regs[12]) is Some {
                operand_error(regs[12])->Some_0
            } else if operand_error(regs[13]) is Some {
                operand_error(regs[13])->Some_0
            } else {
                operand_error(regs[14])->Some_0
            };
            drops(s, e, t, r)
        }),
{
    lemma_fetch(s, insn);
    lemma_ecall(s, insn, op, 4, reply);
}

} // verus!
