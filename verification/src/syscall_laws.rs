//! What a system call does to the guest and to the executor, in plain terms.
use crate::ecall_laws::{at_ecall, lemma_ecall};
use crate::guest::{GuestView, MonitorView};
use crate::instruction_laws::{
    lemma_fetch, lemma_plain_bytes, lemma_plain_pages, lemma_plain_stored, lemma_plain_words,
    lemma_settles,
};
use crate::plain::{
    at_instruction, byte, bytes, drops, events_if, nothing, owned, owned_region, page_set, put, set_events, settles,
    unharmed, unrecorded, word, word_bytes, Done,
};
use crate::state::{answered, read_regions, ExecView};
use crate::types::{
    fitted, ErrorView, ExitCode, MajorType, OpCode, SyscallRecordView, SyscallReplyView,
    TraceEvent,
};
use vstd::prelude::*;
use vstd::utf8::{decode_utf8, valid_utf8};

verus! {

/// There is a string of `len` bytes at `a`: none of them is zero, and the next one is.
pub open spec fn string_at(g: GuestView, a: int, len: nat) -> bool {
    &&& owned(a)
    &&& forall|k: int| a <= k < a + len ==> #[trigger] byte(g, k) != 0
    &&& byte(g, a + len) == 0
    &&& owned(a + len)
}

/// No string at `a` comes to an end in guest memory.
pub open spec fn endless(g: GuestView, a: int) -> bool {
    forall|k: int| a <= k < 0x0C00_0000 ==> #[trigger] byte(g, k) != 0
}

/// The length of a string.
pub proof fn lemma_string_len(g: GuestView, a: int, len: nat)
    requires
        string_at(g, a, len),
    ensures
        g.string_len(a) == len,
    decreases len,
{
    lemma_plain_bytes(g, a, 1);
    assert(byte(g, a) != 0 || len == 0);
    if len > 0 {
        lemma_string_len(g, a + 1, (len - 1) as nat);
    }
}

/// The length of a string that does not end.
pub proof fn lemma_endless_len(g: GuestView, a: int)
    requires
        owned(a) || a == 0x0C00_0000,
        endless(g, a),
    ensures
        g.string_len(a) == 0x0C00_0000 - a,
    decreases 0x0C00_0000 - a,
{
    lemma_plain_bytes(g, a, 1);
    if a < 0x0C00_0000 {
        assert(byte(g, a) != 0);
        lemma_endless_len(g, a + 1);
    }
}

/// The guest in `s` calls the system with a name of `len` bytes, and its pointers are in
/// order.
pub open spec fn at_syscall<R>(s: ExecView<R>, insn: u32, op: OpCode, len: nat) -> bool {
    let g = s.monitor.now;
    &&& at_ecall(s, insn, op, 2)
    &&& g.regs[10] == 0 || owned(g.regs[10] as int)
    &&& string_at(g, g.regs[12] as int, len)
    &&& valid_utf8(bytes(g, g.regs[12] as int, len as int))
}

/// The name of a system call in `s`.
pub open spec fn name_of<R>(s: ExecView<R>, len: nat) -> Seq<char> {
    decode_utf8(bytes(s.monitor.now, s.monitor.now.regs[12] as int, len as int))
}

/// What is asked for once a system call is fetched.
pub proof fn lemma_asked<R>(s: ExecView<R>, insn: u32, op: OpCode, len: nat)
    requires
        at_syscall(s, insn, op, len),
    ensures
        ({
            let g = s.monitor.now;
            let f = s.fetched();
            let (m, call) = f.syscall_read();
            &&& call == Ok::<(u32, u32, Seq<char>), ErrorView>(
                (g.regs[10], g.regs[11], name_of(s, len)),
            )
            &&& m == f.monitor.touched(g.regs[12] as int, len as int + 1)
            &&& m.now.reads == g.reads.union(page_set(s.pc as int, 4)).union(
                page_set(g.regs[12] as int, len as int + 1),
            )
        }),
{
    lemma_fetch(s, insn);
    let g = s.monitor.now;
    let f = s.fetched().monitor.now;
    let a = g.regs[12] as int;
    assert(string_at(f, a, len)) by {
        assert(forall|k: int| #[trigger] byte(f, k) == byte(g, k));
    }
    lemma_string_len(f, a, len);
    lemma_plain_bytes(f, a, len as int);
    assert(bytes(f, a, len as int) =~= bytes(g, a, len as int));
    lemma_plain_pages(a, len as int + 1);
}

/// A system call fails where its pointers are not in order, and where its name does not
/// end, is no text or is not known to the host, and where the host fails.
#[verifier::rlimit(40)]
pub proof fn law_syscall_refused<R>(
    s: ExecView<R>,
    insn: u32,
    op: OpCode,
    reply: Result<SyscallReplyView, ErrorView>,
    len: nat,
)
    requires
        at_ecall(s, insn, op, 2),
    ensures
        ({
            let (t, r) = s.stepped(Ok(op), reply);
            let g = s.monitor.now;
            let (to, name) = (g.regs[10], g.regs[12]);
            if to != 0 && !owned(to as int) {
                drops(s, ErrorView::InvalidGuestAddress(to), t, r)
            } else if !owned(name as int) {
                drops(s, ErrorView::InvalidGuestAddress(name), t, r)
            } else if endless(g, name as int) {
                drops(s, ErrorView::InvalidGuestAddress(0x0C00_0000), t, r)
            } else if string_at(g, name as int, len) {
                &&& !valid_utf8(bytes(g, name as int, len as int)) ==> drops(
                    s,
                    ErrorView::InvalidSyscallName,
                    t,
                    r,
                )
                &&& valid_utf8(bytes(g, name as int, len as int)) && s.pending_syscall is None ==> {
                    if !s.env.syscalls.contains(name_of(s, len)) {
                        drops(s, ErrorView::UnknownSyscall(name_of(s, len)), t, r)
                    } else {
                        reply matches Err(e) ==> drops(s, e, t, r)
                    }
                }
            } else {
                true
            }
        }),
{
    lemma_fetch(s, insn);
    lemma_ecall(s, insn, op, 2, reply);
    let g = s.monitor.now;
    let f = s.fetched().monitor.now;
    let (to, name) = (g.regs[10], g.regs[12]);
    if (to == 0 || owned(to as int)) && owned(name as int) {
        assert(forall|k: int| #[trigger] byte(f, k) == byte(g, k));
        if endless(g, name as int) {
            lemma_endless_len(f, name as int);
        } else if string_at(g, name as int, len) {
            lemma_string_len(f, name as int, len);
            lemma_plain_bytes(f, name as int, len as int);
            assert(bytes(f, name as int, len as int) =~= bytes(g, name as int, len as int));
        }
    }
}

/// What the guest is handed: the answer `record`, where the host has read the pages
/// `loaded` before.
pub open spec fn syscall_done<R>(
    s: ExecView<R>,
    len: nat,
    record: SyscallRecordView,
    loaded: Set<u32>,
) -> Done {
    let g = s.monitor.now;
    let to = g.regs[10] as int;
    let data = if to == 0 {
        Seq::empty()
    } else {
        word_bytes(record.to_guest)
    };
    Done {
        regs: g.regs.update(10, record.regs.0).update(11, record.regs.1),
        at: to,
        data,
        reads: g.reads.union(page_set(s.pc as int, 4)).union(
            page_set(g.regs[12] as int, len as int + 1),
        ).union(loaded).union(page_set(to, data.len() as int)),
        writes: g.writes.union(page_set(to, data.len() as int)),
        events: events_if(
            s,
            set_events(to, data) + seq![
                TraceEvent::RegisterSet { idx: 10, value: record.regs.0 },
                TraceEvent::RegisterSet { idx: 11, value: record.regs.1 },
            ],
        ),
        answer: Some(record),
        ..nothing(s, s.pc + 4, 2 + (g.regs[11] + 3) / 4 * 4)
    }
}

/// There is room for the answer where the guest wants it.
pub open spec fn has_room<R>(s: ExecView<R>, record: SyscallRecordView) -> bool {
    let to = s.monitor.now.regs[10] as int;
    to == 0 || owned_region(to, 4 * record.to_guest.len() as int)
}

/// Handing an answer to the guest.
#[verifier::rlimit(40)]
proof fn lemma_handed(m: MonitorView, to: u32, record: SyscallRecordView)
    requires
        to == 0 || owned(to as int),
        record.to_guest.len() <= u32::MAX,
    ensures
        ({
            let (t, r) = answered(m, to, record);
            let data = if to == 0 {
                Seq::empty()
            } else {
                word_bytes(record.to_guest)
            };
            if to == 0 || owned_region(to as int, 4 * record.to_guest.len() as int) {
                &&& r is Ok
                &&& put(m.now, t.now, to as int, data)
                &&& t.now.regs == m.now.regs.update(10, record.regs.0).update(11, record.regs.1)
                &&& t.now.reads == m.now.reads.union(page_set(to as int, data.len() as int))
                &&& t.now.writes == m.now.writes.union(page_set(to as int, data.len() as int))
                &&& t.events == (if m.trace {
                    m.events + (set_events(to as int, data) + seq![
                        TraceEvent::RegisterSet { idx: 10, value: record.regs.0 },
                        TraceEvent::RegisterSet { idx: 11, value: record.regs.1 },
                    ])
                } else {
                    m.events
                })
            } else {
                &&& t == m
                &&& r == Err::<(), ErrorView>(ErrorView::InvalidGuestAddress(0x0C00_0000))
            }
        }),
{
    let t = answered(m, to, record).0;
    let data = if to == 0 {
        Seq::empty()
    } else {
        word_bytes(record.to_guest)
    };
    let n = 4 * record.to_guest.len() as int;
    lemma_plain_words(record.to_guest);
    if to == 0 {
        assert(page_set(0, 0) =~= Set::empty());
        assert(t.now.reads =~= m.now.reads.union(page_set(0, 0)));
        assert(t.now.writes =~= m.now.writes.union(page_set(0, 0)));
        assert(put(m.now, t.now, 0, data));
    } else if owned_region(to as int, n) {
        lemma_plain_stored(m, to as int, data);
        let m1 = m.stored(to as int, data);
        assert(forall|k: u32| #[trigger] byte(t.now, k as int) == byte(m1.now, k as int));
    }
    if to == 0 || owned_region(to as int, n) {
        if m.trace {
            assert(t.events =~= m.events + (set_events(to as int, data) + seq![
                TraceEvent::RegisterSet { idx: 10, value: record.regs.0 },
                TraceEvent::RegisterSet { idx: 11, value: record.regs.1 },
            ]));
        }
    }
}

/// A system call that still has an answer to be committed is handed just that. The
/// cycles are one for the ecall, one for the registers, and one for each word that was
/// asked for, up to a multiple of four.
#[verifier::rlimit(60)]
pub proof fn law_syscall_replayed<R>(
    s: ExecView<R>,
    insn: u32,
    op: OpCode,
    reply: Result<SyscallReplyView, ErrorView>,
    len: nat,
    record: SyscallRecordView,
)
    requires
        s.inv(),
        at_syscall(s, insn, op, len),
        s.pending_syscall == Some(record),
        record.to_guest.len() <= u32::MAX,
    ensures
        ({
            let (t, r) = s.stepped(Ok(op), reply);
            if has_room(s, record) {
                settles(s, op, syscall_done(s, len, record, Set::empty()), t, r)
            } else {
                drops(s, ErrorView::InvalidGuestAddress(0x0C00_0000), t, r)
            }
        }),
{
    lemma_fetch(s, insn);
    lemma_ecall(s, insn, op, 2, reply);
    lemma_asked(s, insn, op, len);
    let g = s.monitor.now;
    let to = g.regs[10];
    let m = s.fetched().syscall_read().0;
    lemma_handed(m, to, record);
    if has_room(s, record) {
        let (f, r) = s.fetched().ecalled(reply);
        let done = syscall_done(s, len, record, Set::empty());
        assert(f.monitor == answered(m, to, record).0);
        assert(m.now.reads.union(Set::empty()) =~= m.now.reads);
        assert(forall|k: u32| #[trigger] byte(m.now, k as int) == byte(g, k as int));
        assert(put(g, f.monitor.now, done.at, done.data));
        lemma_settles(s, f, op, r->Ok_0, done);
    }
}

/// A region that the host reads.
pub open spec fn load_owned(loads: Seq<(u32, u32)>, i: int) -> bool {
    owned_region(loads[i].0 as int, loads[i].1 as int)
}

/// The pages of all regions that the host reads.
pub open spec fn load_pages(loads: Seq<(u32, u32)>) -> Set<u32> {
    Set::new(
        |p: u32|
            exists|i: int|
                0 <= i < loads.len() && #[trigger] page_set(
                    loads[i].0 as int,
                    loads[i].1 as int,
                ).contains(p),
    )
}

/// Reading regions for the host: all of them, or up to the first one, `k`, that is not
/// in guest memory.
#[verifier::rlimit(40)]
proof fn lemma_loads(m: MonitorView, loads: Seq<(u32, u32)>, k: nat)
    requires
        k <= loads.len(),
        forall|i: int| 0 <= i < k ==> #[trigger] load_owned(loads, i),
        k < loads.len() ==> !load_owned(loads, k as int),
    ensures
        ({
            let (t, r) = read_regions(m, loads);
            if k == loads.len() {
                &&& r is Ok
                &&& t.now.reads == m.now.reads.union(load_pages(loads))
                &&& t == MonitorView { now: GuestView { reads: t.now.reads, ..m.now }, ..m }
            } else {
                &&& t == MonitorView { now: GuestView { reads: t.now.reads, ..m.now }, ..m }
                &&& r == Err::<(), ErrorView>(
                    ErrorView::InvalidGuestAddress(
                        if owned(loads[k as int].0 as int) {
                            0x0C00_0000
                        } else {
                            loads[k as int].0
                        },
                    ),
                )
            }
        }),
    decreases loads.len(),
{
    if loads.len() == 0 {
        assert(load_pages(loads) =~= Set::empty());
        assert(m.now.reads.union(load_pages(loads)) =~= m.now.reads);
    } else if k > 0 {
        assert(load_owned(loads, 0));
        let rest = loads.drop_first();
        let (a, n) = (loads[0].0, loads[0].1 as int);
        let m1 = m.read_region(a, n).0;
        assert forall|i: int| 0 <= i < k - 1 implies #[trigger] load_owned(rest, i) by {
            assert(load_owned(loads, i + 1));
        }
        lemma_loads(m1, rest, (k - 1) as nat);
        if k == loads.len() {
            if n > 0 {
                lemma_plain_pages(a as int, n);
            } else {
                assert(crate::guest::pages(a as int, n) =~= page_set(a as int, n));
            }
            let t = read_regions(m, loads).0;
            assert forall|p: u32| load_pages(loads).contains(p) == (page_set(
                a as int,
                n,
            ).contains(p) || load_pages(rest).contains(p)) by {
                if load_pages(loads).contains(p) {
                    let i = choose|i: int|
                        0 <= i < loads.len() && #[trigger] page_set(
                            loads[i].0 as int,
                            loads[i].1 as int,
                        ).contains(p);
                    if i > 0 {
                        assert(page_set(rest[i - 1].0 as int, rest[i - 1].1 as int).contains(p));
                    }
                }
                if page_set(a as int, n).contains(p) {
                    assert(page_set(loads[0].0 as int, loads[0].1 as int).contains(p));
                }
                if load_pages(rest).contains(p) {
                    let i = choose|i: int|
                        0 <= i < rest.len() && #[trigger] page_set(
                            rest[i].0 as int,
                            rest[i].1 as int,
                        ).contains(p);
                    assert(page_set(loads[i + 1].0 as int, loads[i + 1].1 as int).contains(p));
                }
            }
            assert(t.now.reads =~= m.now.reads.union(load_pages(loads)));
        }
    }
}

/// The answer that is recorded of a reply: as many words as were asked for, with zeros
/// at the end where the host gives fewer.
pub open spec fn record_of(reply: SyscallReplyView, words: u32) -> SyscallRecordView {
    SyscallRecordView {
        to_guest: Seq::new(
            words as nat,
            |i: int|
                if i < reply.to_guest.len() {
                    reply.to_guest[i]
                } else {
                    0
                },
        ),
        regs: reply.regs,
    }
}

/// A system call that the host replies to: the guest is handed as many words as it has
/// asked for and the two registers, and what the host has committed is added to the
/// journal. An answer that there is no room for is lost to the guest, but what the host
/// has committed stays.
#[verifier::rlimit(60)]
pub proof fn law_syscall_answered<R>(
    s: ExecView<R>,
    insn: u32,
    op: OpCode,
    reply: SyscallReplyView,
    len: nat,
)
    requires
        s.inv(),
        at_syscall(s, insn, op, len),
        s.pending_syscall is None,
        s.env.syscalls.contains(name_of(s, len)),
        forall|i: int| 0 <= i < reply.loads.len() ==> #[trigger] load_owned(reply.loads, i),
    ensures
        ({
            let (t, r) = s.stepped(Ok(op), Ok(reply));
            let record = record_of(reply, s.monitor.now.regs[11]);
            let done = Done {
                journal: s.journal + reply.journal,
                assumptions: s.assumptions + reply.assumptions,
                ..syscall_done(s, len, record, load_pages(reply.loads))
            };
            if has_room(s, record) {
                settles(s, op, done, t, r)
            } else {
                &&& r == Err::<Option<ExitCode>, ErrorView>(
                    ErrorView::InvalidGuestAddress(0x0C00_0000),
                )
                &&& unrecorded(s, t)
                &&& unharmed(s, t)
                &&& t.split_insn == s.split_insn
                &&& t.journal == done.journal
                &&& t.assumptions == done.assumptions
                &&& t.pending_syscall == Some(record)
                &&& t.output_digest == s.output_digest
            }
        }),
{
    lemma_fetch(s, insn);
    let all = Ok::<SyscallReplyView, ErrorView>(reply);
    lemma_ecall(s, insn, op, 2, all);
    lemma_asked(s, insn, op, len);
    let g = s.monitor.now;
    let to = g.regs[10];
    let m = s.fetched().syscall_read().0;
    lemma_loads(m, reply.loads, reply.loads.len());
    let m1 = read_regions(m, reply.loads).0;
    let record = record_of(reply, g.regs[11]);
    assert(fitted(reply.to_guest, g.regs[11] as nat) =~= record.to_guest);
    lemma_handed(m1, to, record);
    let done = Done {
        journal: s.journal + reply.journal,
        assumptions: s.assumptions + reply.assumptions,
        ..syscall_done(s, len, record, load_pages(reply.loads))
    };
    let (f, r) = s.fetched().ecalled(all);
    assert(f.monitor == answered(m1, to, record).0);
    if has_room(s, record) {
        assert(forall|k: u32| #[trigger] byte(m1.now, k as int) == byte(g, k as int));
        assert(put(g, f.monitor.now, done.at, done.data));
        lemma_settles(s, f, op, r->Ok_0, done);
    }
}

/// A reply is not taken over where the host reads a region that is not in guest memory.
/// Region `k` is the first such.
#[verifier::rlimit(40)]
pub proof fn law_syscall_loads<R>(
    s: ExecView<R>,
    insn: u32,
    op: OpCode,
    reply: SyscallReplyView,
    len: nat,
    k: nat,
)
    requires
        at_syscall(s, insn, op, len),
        s.pending_syscall is None,
        s.env.syscalls.contains(name_of(s, len)),
        k < reply.loads.len(),
        forall|i: int| 0 <= i < k ==> #[trigger] load_owned(reply.loads, i),
        !load_owned(reply.loads, k as int),
    ensures
        ({
            let (t, r) = s.stepped(Ok(op), Ok(reply));
            let a = reply.loads[k as int].0;
            drops(
                s,
                ErrorView::InvalidGuestAddress(
                    if owned(a as int) {
                        0x0C00_0000
                    } else {
                        a
                    },
                ),
                t,
                r,
            )
        }),
{
    lemma_fetch(s, insn);
    let all = Ok::<SyscallReplyView, ErrorView>(reply);
    lemma_ecall(s, insn, op, 2, all);
    lemma_asked(s, insn, op, len);
    lemma_loads(s.fetched().syscall_read().0, reply.loads, k);
}

/// The host is asked to reply to a system call only if there is no answer yet, and only
/// if it knows the name. It is asked for nothing else.
#[verifier::rlimit(40)]
pub proof fn law_asks_host<R>(s: ExecView<R>, insn: u32, op: OpCode, len: nat)
    requires
        at_instruction(s, insn),
    ensures
        at_syscall(s, insn, op, len) ==> (s.calls_host(Ok(op)) <==> (s.pending_syscall is None
            && s.env.syscalls.contains(name_of(s, len)))),
        op.spec_major() != MajorType::ECall || s.monitor.now.regs[5] != 2 ==> !s.calls_host(
            Ok(op),
        ),
{
    lemma_fetch(s, insn);
    if at_syscall(s, insn, op, len) {
        lemma_asked(s, insn, op, len);
    }
}

/// An instruction is decoded only where there is one to execute: at an aligned address
/// of the guest, before the session limit.
pub proof fn law_fetches<R>(s: ExecView<R>)
    ensures
        s.fetches() <==> at_instruction(s, word(s.monitor.now, s.pc as int)),
        s.fetches() ==> s.monitor.read_word(s.pc).1 == Ok::<u32, ErrorView>(
            word(s.monitor.now, s.pc as int),
        ),
{
    if at_instruction(s, word(s.monitor.now, s.pc as int)) {
        lemma_fetch(s, word(s.monitor.now, s.pc as int));
    }
}

} // verus!
