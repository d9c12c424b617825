//! What each instruction does to the guest and to the executor, in plain terms.
use crate::ecall::same_base;
use crate::guest::{pages, placed, GuestView, MonitorView};
use crate::hart::{hart_stepped, seen, HartStepView};
use crate::laws::same_frame;
use crate::plain::{
    at_instruction, byte, bytes, cycles_with, drops, events_if, faults, nothing, owned, page_set,
    put, reg_events, set_events, settles, word, word_bytes, word_part, Done,
};
use crate::platform::lemma_pow2_monotone;
use crate::state::{hart_ran, ExecView};
use crate::types::{
    ErrorView, ExitCode, HartFault, MajorType, OpCode, OpCodeResult, SyscallReplyView,
};
use crate::words::le_bytes;
use vstd::arithmetic::power2::lemma2_to64;
use vstd::prelude::*;

verus! {

/// Bytes and words of the guest.
pub proof fn lemma_plain_bytes(g: GuestView, a: int, n: int)
    ensures
        g.byte_at(a) == byte(g, a),
        g.word_at(a) == word(g, a),
        g.bytes_at(a, n) == bytes(g, a, n),
{
    assert(g.bytes_at(a, n) =~= bytes(g, a, n));
}

/// Pages of the guest.
pub proof fn lemma_plain_pages(a: int, n: int)
    requires
        0 <= a,
        a + n <= 0x1_0000_0000,
    ensures
        pages(a, n) == page_set(a, n),
{
    assert(pages(a, n) =~= page_set(a, n));
}

/// Words in memory.
pub proof fn lemma_plain_words(words: Seq<u32>)
    ensures
        le_bytes(words) == word_bytes(words),
{
    assert forall|i: int| 0 <= i < 4 * words.len() implies le_bytes(words)[i] == word_part(
        words,
        i,
    ) by {
        assert(i % 4 == 0 || i % 4 == 1 || i % 4 == 2 || i % 4 == 3);
    }
    assert(le_bytes(words) =~= word_bytes(words));
}

/// Storing puts bytes into memory, and touches nothing but their pages.
pub proof fn lemma_plain_stored(m: MonitorView, a: int, data: Seq<u8>)
    requires
        0 <= a,
        a + data.len() <= 0x1_0000_0000,
    ensures
        ({
            let t = m.stored(a, data);
            &&& put(m.now, t.now, a, data)
            &&& t.now.regs == m.now.regs
            &&& t.now.reads == m.now.reads.union(page_set(a, data.len() as int))
            &&& t.now.writes == m.now.writes.union(page_set(a, data.len() as int))
            &&& t.events == (if m.trace {
                m.events + set_events(a, data)
            } else {
                m.events
            })
            &&& same_base(m, t)
        }),
{
    let t = m.stored(a, data);
    lemma_plain_pages(a, data.len() as int);
    assert forall|k: u32|
        #[trigger] byte(t.now, k as int) == (if a <= k < a + data.len() {
            data[k - a]
        } else {
            byte(m.now, k as int)
        }) by {
        assert(placed(a, data).contains_key(k) <==> a <= k < a + data.len());
    }
    assert(crate::guest::store_events(a, data) =~= set_events(a, data));
}

/// Settling an instruction, in plain terms: `f` is the executor once the instruction
/// was executed in `s`.
#[verifier::rlimit(40)]
pub proof fn lemma_settles<R>(
    s: ExecView<R>,
    f: ExecView<R>,
    op: OpCode,
    r: OpCodeResult,
    done: Done,
)
    requires
        s.inv(),
        op.spec_cycles() > 0,
        same_frame(s.untraced(), f),
        r == (OpCodeResult { pc: done.pc, exit_code: done.code, extra_cycles: r.extra_cycles }),
        done.extra == r.extra_cycles,
        f.monitor.now.regs == done.regs,
        put(s.monitor.now, f.monitor.now, done.at, done.data),
        f.monitor.now.reads == done.reads,
        f.monitor.now.writes == done.writes,
        f.monitor.events == done.events,
        f.pending_syscall == done.answer,
        f.output_digest == done.digest,
        f.journal == done.journal,
        f.assumptions == done.assumptions,
    ensures
        settles(s, op, done, f.settled(op, r).0, f.settled(op, r).1),
{
    lemma2_to64();
    lemma_pow2_monotone(s.env.limit_po2() as nat, 24);
    let t = f.settled(op, r).0;
    assert(cycles_with(s, op, done) == f.total_cycles() + op.spec_cycles() + r.extra_cycles);
    if cycles_with(s, op, done) <= s.segment_limit {
        assert(t == f.advanced(op, r));
        let n = s.segments.len();
        let l = s.segment_limit;
        assert(n * l <= 0x0100_0000_0000_0000) by (nonlinear_arith)
            requires
                n <= 0x1_0000_0000,
                l <= 0x100_0000,
        ;
        assert(t.segment_cycle <= s.segment_limit);
    }
}

/// The instruction in `s` is fetched.
pub proof fn lemma_fetch<R>(s: ExecView<R>, insn: u32)
    requires
        at_instruction(s, insn),
    ensures
        s.fetches(),
        s.monitor.read_word(s.pc).1 == Ok::<u32, ErrorView>(insn),
        same_frame(s.untraced(), s.fetched()),
        s.fetched().monitor.now.mem == s.monitor.now.mem,
        s.fetched().monitor.now.regs == s.monitor.now.regs,
        s.fetched().monitor.now.writes == s.monitor.now.writes,
        s.fetched().monitor.now.reads == s.monitor.now.reads.union(page_set(s.pc as int, 4)),
        s.fetched().monitor.events == s.monitor.events,
        s.fetched().pc == s.pc,
        s.fetched().pending_syscall == s.pending_syscall,
        s.fetched().env == s.env,
{
    lemma_plain_bytes(s.monitor.now, s.pc as int, 4);
    lemma_plain_pages(s.pc as int, 4);
}

/// Before an instruction is executed: a step stops where the cycles of the session, over
/// all of its segments, reach the limit. Otherwise the instruction has to be an aligned
/// word of guest memory, and it has to be decoded.
pub proof fn law_step_begins<R>(
    s: ExecView<R>,
    decoded: Result<OpCode, ErrorView>,
    reply: Result<SyscallReplyView, ErrorView>,
)
    ensures
        ({
            let (t, r) = s.stepped(decoded, reply);
            let over = s.env.session_limit is Some && s.segments.len() * s.segment_limit
                + s.segment_cycle >= s.env.session_limit->Some_0;
            &&& over ==> t == (ExecView { traced: Seq::empty(), ..s }) && r == Ok::<
                Option<ExitCode>,
                ErrorView,
            >(Some(ExitCode::SessionLimit))
            &&& !over && !owned(s.pc as int) ==> drops(
                s,
                ErrorView::InvalidGuestAddress(s.pc),
                t,
                r,
            )
            &&& !over && owned(s.pc as int) && s.pc % 4 != 0 ==> drops(
                s,
                ErrorView::UnalignedAddress(s.pc),
                t,
                r,
            )
            &&& !over && owned(s.pc as int) && s.pc % 4 == 0 && decoded is Err ==> drops(
                s,
                decoded->Err_0,
                t,
                r,
            )
        }),
{
}

/// What the hart does with a register.
pub open spec fn written_reg(step: HartStepView) -> Option<(usize, u32)> {
    match step.written {
        Some(idx) => Some((idx, step.registers[idx as int])),
        None => None,
    }
}

/// The registers after the hart has done it.
pub open spec fn written_regs(regs: Seq<u32>, step: HartStepView) -> Seq<u32> {
    match step.written {
        Some(idx) => regs.update(idx as int, step.registers[idx as int]),
        None => regs,
    }
}

/// An instruction that the hart executes on the word that it is fetched from alone: the
/// guest goes on where the hart says, with the register that the hart has written.
/// Memory changes only by an instruction that stores, and then to what the hart leaves
/// there.
#[verifier::rlimit(60)]
pub proof fn law_hart_computes<R>(
    s: ExecView<R>,
    insn: u32,
    op: OpCode,
    reply: Result<SyscallReplyView, ErrorView>,
    step: HartStepView,
)
    requires
        s.inv(),
        op.spec_cycles() > 0,
        at_instruction(s, insn),
        op.spec_major() != MajorType::ECall,
        hart_stepped(
            s.monitor.now.regs,
            s.pc,
            Map::<u32, u32>::empty().insert(s.pc, insn),
        ).0 == Ok::<HartStepView, HartFault>(step),
    ensures
        ({
            let (t, r) = s.stepped(Ok(op), reply);
            let left = hart_stepped(
                s.monitor.now.regs,
                s.pc,
                Map::<u32, u32>::empty().insert(s.pc, insn),
            ).1;
            let data = if insn % 128 == 35 {
                word_bytes(seq![left[s.pc]])
            } else {
                Seq::empty()
            };
            let done = Done {
                regs: written_regs(s.monitor.now.regs, step),
                at: s.pc as int,
                data,
                writes: s.monitor.now.writes.union(page_set(s.pc as int, data.len() as int)),
                events: events_if(
                    s,
                    set_events(s.pc as int, data) + reg_events(written_reg(step)),
                ),
                ..nothing(s, step.pc as int, 0)
            };
            settles(s, op, done, t, r)
        }),
{
    lemma_fetch(s, insn);
    let f = s.fetched();
    let known = Map::<u32, u32>::empty().insert(s.pc, insn);
    assert(seen(s.pc, insn, None) == known);
    let left = hart_stepped(s.monitor.now.regs, s.pc, known).1;
    let data = if insn % 128 == 35 {
        word_bytes(seq![left[s.pc]])
    } else {
        Seq::empty()
    };
    let (m, ran) = hart_ran(f.monitor, s.pc, insn);
    lemma_hart_data(f.monitor, s.pc, left[s.pc]);
    let done = Done {
        regs: written_regs(s.monitor.now.regs, step),
        at: s.pc as int,
        data,
        writes: s.monitor.now.writes.union(page_set(s.pc as int, data.len() as int)),
        events: events_if(s, set_events(s.pc as int, data) + reg_events(written_reg(step))),
        ..nothing(s, step.pc as int, 0)
    };
    lemma_same_pages(f.monitor.now.reads, s.pc as int, s.monitor.now.reads);
    assert(page_set(s.pc as int, 0) =~= Set::empty());
    assert(done.writes =~= m.now.writes);
    assert(done.reads =~= m.now.reads);
    assert(done.events =~= m.events);
    let g = f.with_monitor(m);
    lemma_settles(
        s,
        g,
        op,
        OpCodeResult { pc: step.pc, exit_code: None, extra_cycles: 0 },
        done,
    );
}

/// An instruction that the hart executes, and that is committed, takes the guest where
/// the hart says. The register that the hart has written holds what the hart has left
/// there, and all others are as before.
pub proof fn law_hart_goes_on<R>(
    s: ExecView<R>,
    insn: u32,
    op: OpCode,
    reply: Result<SyscallReplyView, ErrorView>,
    step: HartStepView,
)
    requires
        s.inv(),
        op.spec_cycles() > 0,
        at_instruction(s, insn),
        op.spec_major() != MajorType::ECall,
        hart_stepped(
            s.monitor.now.regs,
            s.pc,
            Map::<u32, u32>::empty().insert(s.pc, insn),
        ).0 == Ok::<HartStepView, HartFault>(step),
        step.written matches Some(idx) ==> idx < s.monitor.now.regs.len(),
        s.stepped(Ok(op), reply).1 == Ok::<Option<ExitCode>, ErrorView>(None),
    ensures
        ({
            let t = s.stepped(Ok(op), reply).0;
            let (before, after) = (s.monitor.now.regs, t.monitor.saved.regs);
            &&& t.pc == step.pc
            &&& after.len() == before.len()
            &&& step.written matches Some(idx) ==> after[idx as int] == step.registers[idx as int]
            &&& forall|i: int|
                0 <= i < before.len() && (step.written matches Some(idx) ==> i != idx)
                    ==> #[trigger] after[i] == before[i]
        }),
{
    law_hart_computes(s, insn, op, reply, step);
}

/// An instruction that asks for a word to load from: the hart is given the aligned word
/// of the guest that holds the byte, and the guest goes on as the hart then says. The
/// word is read, and memory stays as it is.
#[verifier::rlimit(60)]
pub proof fn law_hart_loads<R>(
    s: ExecView<R>,
    insn: u32,
    op: OpCode,
    reply: Result<SyscallReplyView, ErrorView>,
    addr: u32,
)
    requires
        s.inv(),
        op.spec_cycles() > 0,
        at_instruction(s, insn),
        op.spec_major() != MajorType::ECall,
        hart_stepped(
            s.monitor.now.regs,
            s.pc,
            Map::<u32, u32>::empty().insert(s.pc, insn),
        ).0 == Err::<HartStepView, HartFault>(HartFault::LoadAccessFault(addr)),
        owned(addr - addr % 4),
    ensures
        ({
            let (t, r) = s.stepped(Ok(op), reply);
            let at = (addr - addr % 4) as u32;
            let known = Map::<u32, u32>::empty().insert(s.pc, insn).insert(
                at,
                word(s.monitor.now, at as int),
            );
            match hart_stepped(s.monitor.now.regs, s.pc, known).0 {
                Ok(step) => settles(
                    s,
                    op,
                    Done {
                        regs: written_regs(s.monitor.now.regs, step),
                        reads: s.monitor.now.reads.union(page_set(s.pc as int, 4)).union(
                            page_set(at as int, 4),
                        ),
                        events: events_if(s, reg_events(written_reg(step))),
                        ..nothing(s, step.pc as int, 0)
                    },
                    t,
                    r,
                ),
                Err(fault) => faults(s, fault, t, r),
            }
        }),
{
    lemma_fetch(s, insn);
    let f = s.fetched();
    let at = (addr - addr % 4) as u32;
    lemma_plain_bytes(s.monitor.now, at as int, 4);
    lemma_plain_bytes(f.monitor.now, at as int, 4);
    lemma_plain_pages(at as int, 4);
    let w = word(s.monitor.now, at as int);
    assert(seen(s.pc, insn, None) == Map::<u32, u32>::empty().insert(s.pc, insn));
    let known = Map::<u32, u32>::empty().insert(s.pc, insn).insert(at, w);
    assert(seen(s.pc, insn, Some((at, w))) =~= known);
    if let Ok(step) = hart_stepped(s.monitor.now.regs, s.pc, known).0 {
        let m = hart_ran(f.monitor, s.pc, insn).0;
        let done = Done {
            regs: written_regs(s.monitor.now.regs, step),
            reads: s.monitor.now.reads.union(page_set(s.pc as int, 4)).union(
                page_set(at as int, 4),
            ),
            events: events_if(s, reg_events(written_reg(step))),
            ..nothing(s, step.pc as int, 0)
        };
        assert(done.events =~= m.events);
        lemma_settles(
            s,
            f.with_monitor(m),
            op,
            OpCodeResult { pc: step.pc, exit_code: None, extra_cycles: 0 },
            done,
        );
    }
}

/// An instruction that asks for a word to store to: the hart is given the aligned word
/// of the guest that holds the byte, what it leaves there is written back, and the
/// guest goes on as the hart then says.
#[verifier::rlimit(60)]
pub proof fn law_hart_stores<R>(
    s: ExecView<R>,
    insn: u32,
    op: OpCode,
    reply: Result<SyscallReplyView, ErrorView>,
    addr: u32,
)
    requires
        s.inv(),
        op.spec_cycles() > 0,
        at_instruction(s, insn),
        op.spec_major() != MajorType::ECall,
        hart_stepped(
            s.monitor.now.regs,
            s.pc,
            Map::<u32, u32>::empty().insert(s.pc, insn),
        ).0 == Err::<HartStepView, HartFault>(HartFault::StoreAccessFault(addr)),
        owned(addr - addr % 4),
    ensures
        ({
            let (t, r) = s.stepped(Ok(op), reply);
            let at = (addr - addr % 4) as u32;
            let known = Map::<u32, u32>::empty().insert(s.pc, insn).insert(
                at,
                word(s.monitor.now, at as int),
            );
            let (ran, left) = hart_stepped(s.monitor.now.regs, s.pc, known);
            let data = word_bytes(seq![left[at]]);
            match ran {
                Ok(step) => settles(
                    s,
                    op,
                    Done {
                        regs: written_regs(s.monitor.now.regs, step),
                        at: at as int,
                        data,
                        reads: s.monitor.now.reads.union(page_set(s.pc as int, 4)).union(
                            page_set(at as int, 4),
                        ),
                        writes: s.monitor.now.writes.union(page_set(at as int, 4)),
                        events: events_if(
                            s,
                            set_events(at as int, data) + reg_events(written_reg(step)),
                        ),
                        ..nothing(s, step.pc as int, 0)
                    },
                    t,
                    r,
                ),
                Err(fault) => faults(s, fault, t, r),
            }
        }),
{
    lemma_fetch(s, insn);
    let f = s.fetched();
    let at = (addr - addr % 4) as u32;
    lemma_plain_bytes(s.monitor.now, at as int, 4);
    lemma_plain_bytes(f.monitor.now, at as int, 4);
    lemma_plain_pages(at as int, 4);
    let w = word(s.monitor.now, at as int);
    assert(seen(s.pc, insn, None) == Map::<u32, u32>::empty().insert(s.pc, insn));
    let known = Map::<u32, u32>::empty().insert(s.pc, insn).insert(at, w);
    assert(seen(s.pc, insn, Some((at, w))) =~= known);
    let (ran, left) = hart_stepped(s.monitor.now.regs, s.pc, known);
    if let Ok(step) = ran {
        let data = word_bytes(seq![left[at]]);
        let m = hart_ran(f.monitor, s.pc, insn).0;
        lemma_hart_data(f.monitor.touched(at as int, 4), at, left[at]);
        let done = Done {
            regs: written_regs(s.monitor.now.regs, step),
            at: at as int,
            data,
            reads: s.monitor.now.reads.union(page_set(s.pc as int, 4)).union(
                page_set(at as int, 4),
            ),
            writes: s.monitor.now.writes.union(page_set(at as int, 4)),
            events: events_if(s, set_events(at as int, data) + reg_events(written_reg(step))),
            ..nothing(s, step.pc as int, 0)
        };
        assert(done.events =~= m.events);
        assert(done.reads =~= m.now.reads);
        assert(put(f.monitor.now, m.now, at as int, data)) by {
            assert(forall|k: u32| #[trigger]
                byte(f.monitor.touched(at as int, 4).now, k as int) == byte(
                    f.monitor.now,
                    k as int,
                ));
        }
        lemma_settles(
            s,
            f.with_monitor(m),
            op,
            OpCodeResult { pc: step.pc, exit_code: None, extra_cycles: 0 },
            done,
        );
    }
}

/// An instruction that faults for another reason, or that asks for a word that is not
/// the guest's, faults.
#[verifier::rlimit(40)]
pub proof fn law_hart_fails<R>(
    s: ExecView<R>,
    insn: u32,
    op: OpCode,
    reply: Result<SyscallReplyView, ErrorView>,
    fault: HartFault,
)
    requires
        at_instruction(s, insn),
        op.spec_major() != MajorType::ECall,
        hart_stepped(
            s.monitor.now.regs,
            s.pc,
            Map::<u32, u32>::empty().insert(s.pc, insn),
        ).0 == Err::<HartStepView, HartFault>(fault),
        fault matches HartFault::LoadAccessFault(addr) ==> !owned(addr - addr % 4),
        fault matches HartFault::StoreAccessFault(addr) ==> !owned(addr - addr % 4),
    ensures
        faults(s, fault, s.stepped(Ok(op), reply).0, s.stepped(Ok(op), reply).1),
{
    lemma_fetch(s, insn);
    assert(seen(s.pc, insn, None) == Map::<u32, u32>::empty().insert(s.pc, insn));
}

/// What storing a word does.
proof fn lemma_hart_data(m: MonitorView, a: u32, w: u32)
    requires
        owned(a as int),
        a % 4 == 0,
    ensures
        ({
            let t = m.write_word(a, w).0;
            let data = word_bytes(seq![w]);
            &&& data.len() == 4
            &&& put(m.now, t.now, a as int, data)
            &&& t.now.regs == m.now.regs
            &&& t.now.reads == m.now.reads.union(page_set(a as int, 4))
            &&& t.now.writes == m.now.writes.union(page_set(a as int, 4))
            &&& t.events == (if m.trace {
                m.events + set_events(a as int, data)
            } else {
                m.events
            })
            &&& same_base(m, t)
        }),
{
    lemma_plain_words(seq![w]);
    lemma_plain_stored(m, a as int, word_bytes(seq![w]));
}

/// Pages that were read already stay the same.
proof fn lemma_same_pages(after: Set<u32>, a: int, before: Set<u32>)
    requires
        after == before.union(page_set(a, 4)),
    ensures
        after.union(page_set(a, 4)) == after,
{
    assert(after.union(page_set(a, 4)) =~= after);
}

} // verus!
