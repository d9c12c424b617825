//! What each access to the guest does, in plain terms.
use crate::guest::MonitorView;
use crate::instruction_laws::{
    lemma_plain_bytes, lemma_plain_pages, lemma_plain_stored, lemma_plain_words,
};
use crate::plain::{
    byte, bytes, owned, owned_region, page_set, put, set_events, word, word_bytes,
};
use crate::syscall_laws::{endless, lemma_endless_len, lemma_string_len, string_at};
use crate::types::{ErrorView, TraceEvent};
use vstd::prelude::*;
use vstd::utf8::{decode_utf8, valid_utf8};

verus! {

/// Between `m` and `t` only the pages `read` were read.
pub open spec fn only_read(m: MonitorView, t: MonitorView, read: Set<u32>) -> bool {
    &&& t.now.mem == m.now.mem
    &&& t.now.regs == m.now.regs
    &&& t.now.reads == m.now.reads.union(read)
    &&& t.now.writes == m.now.writes
    &&& t.events == m.events
    &&& kept_apart(m, t)
}

/// Between `m` and `t` only `data` was written, to the bytes from `a` on.
pub open spec fn only_written(m: MonitorView, t: MonitorView, a: int, data: Seq<u8>) -> bool {
    &&& put(m.now, t.now, a, data)
    &&& t.now.regs == m.now.regs
    &&& t.now.reads == m.now.reads.union(page_set(a, data.len() as int))
    &&& t.now.writes == m.now.writes.union(page_set(a, data.len() as int))
    &&& t.events == (if m.trace {
        m.events + set_events(a, data)
    } else {
        m.events
    })
    &&& kept_apart(m, t)
}

/// What no access to the guest changes.
pub open spec fn kept_apart(m: MonitorView, t: MonitorView) -> bool {
    &&& t.saved == m.saved
    &&& t.trace == m.trace
    &&& t.cycle == m.cycle
    &&& t.page_read_cost == m.page_read_cost
    &&& t.page_write_cost == m.page_write_cost
}

/// What is wrong with a word at `a`, if anything is.
pub open spec fn wrong_word(a: u32) -> Option<ErrorView> {
    if !owned(a as int) {
        Some(ErrorView::InvalidGuestAddress(a))
    } else if a % 4 != 0 {
        Some(ErrorView::UnalignedAddress(a))
    } else {
        None
    }
}

/// What is wrong with the `n` bytes from `a` on, if anything is.
pub open spec fn wrong_region(a: u32, n: int) -> Option<ErrorView> {
    if owned_region(a as int, n) {
        None
    } else if !owned(a as int) {
        Some(ErrorView::InvalidGuestAddress(a))
    } else {
        Some(ErrorView::InvalidGuestAddress(0x0C00_0000))
    }
}

/// A word that is read is made of its four bytes, and its page was read.
pub proof fn law_word_read(m: MonitorView, a: u32)
    ensures
        ({
            let (t, r) = m.read_word(a);
            match wrong_word(a) {
                Some(e) => t == m && r == Err::<u32, ErrorView>(e),
                None => {
                    &&& r == Ok::<u32, ErrorView>(word(m.now, a as int))
                    &&& only_read(m, t, page_set(a as int, 4))
                },
            }
        }),
{
    lemma_plain_bytes(m.now, a as int, 4);
    if owned(a as int) {
        lemma_plain_pages(a as int, 4);
    }
}

/// Words that are read follow on each other. Where they reach past the guest, those up
/// to its end were read.
pub proof fn law_words_read(m: MonitorView, a: u32, n: u32)
    requires
        n > 0,
    ensures
        ({
            let (t, r) = m.read_words(a, n as int);
            match wrong_word(a) {
                Some(e) => only_read(m, t, Set::empty()) && r == Err::<Seq<u32>, ErrorView>(e),
                None => if a + 4 * n > 0x0C00_0000 {
                    &&& r == Err::<Seq<u32>, ErrorView>(
                        ErrorView::InvalidGuestAddress(0x0C00_0000),
                    )
                    &&& only_read(m, t, page_set(a as int, 0x0C00_0000 - a))
                } else {
                    &&& r matches Ok(words)
                    &&& words.len() == n
                    &&& forall|i: int|
                        0 <= i < n ==> #[trigger] words[i] == word(m.now, a + 4 * i)
                    &&& only_read(m, t, page_set(a as int, 4 * n))
                },
            }
        }),
{
    let (t, r) = m.read_words(a, n as int);
    if wrong_word(a) is Some {
        assert(crate::guest::pages(a as int, 0) =~= Set::empty());
    } else if a + 4 * n > 0x0C00_0000 {
        lemma_plain_pages(a as int, 0x0C00_0000 - a);
    } else {
        lemma_plain_pages(a as int, 4 * n);
        assert forall|i: int| 0 <= i < n implies #[trigger] r->Ok_0[i] == word(
            m.now,
            a + 4 * i,
        ) by {
            lemma_plain_bytes(m.now, a + 4 * i, 4);
        }
    }
}

/// Bytes that are read follow on each other, and their pages were read.
pub proof fn law_region_read(m: MonitorView, a: u32, n: u32)
    ensures
        ({
            let (t, r) = m.read_region(a, n as int);
            match wrong_region(a, n as int) {
                Some(e) => t == m && r == Err::<Seq<u8>, ErrorView>(e),
                None => {
                    &&& r == Ok::<Seq<u8>, ErrorView>(bytes(m.now, a as int, n as int))
                    &&& only_read(m, t, page_set(a as int, n as int))
                },
            }
        }),
{
    lemma_plain_bytes(m.now, a as int, n as int);
    if n == 0 {
        assert(crate::guest::pages(a as int, 0) =~= page_set(a as int, 0));
    } else if owned_region(a as int, n as int) {
        lemma_plain_pages(a as int, n as int);
    }
}

/// A register holds an address only if it points into the guest.
pub proof fn law_address_read(m: MonitorView, idx: usize)
    ensures
        m.reg(idx) == m.now.regs[idx as int],
        m.read_addr(idx) == (if owned(m.now.regs[idx as int] as int) {
            Ok::<u32, ErrorView>(m.now.regs[idx as int])
        } else {
            Err::<u32, ErrorView>(ErrorView::InvalidGuestAddress(m.now.regs[idx as int]))
        }),
{
}

/// A string is read up to the first zero byte, with that byte, and it has to be text.
pub proof fn law_string_read(m: MonitorView, a: u32, len: nat)
    requires
        string_at(m.now, a as int, len),
    ensures
        ({
            let (t, r) = m.read_string(a);
            let text = bytes(m.now, a as int, len as int);
            &&& only_read(m, t, page_set(a as int, len as int + 1))
            &&& r == (if valid_utf8(text) {
                Ok::<Seq<char>, ErrorView>(decode_utf8(text))
            } else {
                Err::<Seq<char>, ErrorView>(ErrorView::InvalidSyscallName)
            })
        }),
{
    lemma_string_len(m.now, a as int, len);
    lemma_plain_bytes(m.now, a as int, len as int);
    lemma_plain_pages(a as int, len as int + 1);
}

/// A string that does not end in the guest is not read.
pub proof fn law_endless_string(m: MonitorView, a: u32)
    requires
        owned(a as int),
        endless(m.now, a as int),
    ensures
        ({
            let (t, r) = m.read_string(a);
            &&& only_read(m, t, page_set(a as int, 0x0C00_0000 - a))
            &&& r == Err::<Seq<char>, ErrorView>(ErrorView::InvalidGuestAddress(0x0C00_0000))
        }),
{
    lemma_endless_len(m.now, a as int);
    lemma_plain_pages(a as int, 0x0C00_0000 - a);
}

/// There is no string where the guest has no memory.
pub proof fn law_no_string(m: MonitorView, a: u32)
    requires
        !owned(a as int),
    ensures
        ({
            let (t, r) = m.read_string(a);
            &&& only_read(m, t, Set::empty())
            &&& r == Err::<Seq<char>, ErrorView>(ErrorView::InvalidGuestAddress(a))
        }),
{
    assert(crate::guest::pages(a as int, 0) =~= Set::empty());
}

/// A word is written with its least significant byte first.
pub proof fn law_word_written(m: MonitorView, a: u32, w: u32)
    ensures
        ({
            let (t, r) = m.write_word(a, w);
            match wrong_word(a) {
                Some(e) => t == m && r == Err::<(), ErrorView>(e),
                None => r is Ok && only_written(m, t, a as int, word_bytes(seq![w])),
            }
        }),
{
    lemma_plain_words(seq![w]);
    if owned(a as int) {
        lemma_plain_stored(m, a as int, word_bytes(seq![w]));
    }
}

/// Words are written one after the other. Where they reach past the guest, those up to
/// its end were written.
pub proof fn law_words_written(m: MonitorView, a: u32, words: Seq<u32>)
    requires
        0 < words.len() <= u32::MAX,
    ensures
        ({
            let (t, r) = m.write_words(a, words);
            let data = word_bytes(words);
            match wrong_word(a) {
                Some(e) => {
                    &&& only_written(m, t, a as int, Seq::empty())
                    &&& r == Err::<(), ErrorView>(e)
                },
                None => if a + data.len() > 0x0C00_0000 {
                    &&& only_written(m, t, a as int, data.take(0x0C00_0000 - a))
                    &&& r == Err::<(), ErrorView>(ErrorView::InvalidGuestAddress(0x0C00_0000))
                } else {
                    &&& only_written(m, t, a as int, data)
                    &&& r is Ok
                },
            }
        }),
{
    let data = word_bytes(words);
    lemma_plain_words(words);
    if wrong_word(a) is Some {
        assert(data.take(0) =~= Seq::empty());
        lemma_nothing_stored(m, a as int);
    } else if a + data.len() > 0x0C00_0000 {
        lemma_plain_stored(m, a as int, data.take(0x0C00_0000 - a));
    } else {
        assert(data.take(data.len() as int) =~= data);
        lemma_plain_stored(m, a as int, data);
    }
}

/// Storing nothing.
proof fn lemma_nothing_stored(m: MonitorView, a: int)
    ensures
        only_written(m, m.stored(a, Seq::empty()), a, Seq::empty()),
{
    let t = m.stored(a, Seq::empty());
    assert(crate::guest::pages(a, 0) =~= page_set(a, 0));
    assert(crate::guest::store_events(a, Seq::empty()) =~= set_events(a, Seq::empty()));
    assert forall|k: u32| #[trigger] byte(t.now, k as int) == byte(m.now, k as int) by {
        assert(!crate::guest::placed(a, Seq::empty()).contains_key(k));
    }
}

/// Bytes are written one after the other, if all of them are the guest's.
pub proof fn law_region_written(m: MonitorView, a: u32, data: Seq<u8>)
    ensures
        ({
            let (t, r) = m.write_region(a, data);
            match wrong_region(a, data.len() as int) {
                Some(e) => t == m && r == Err::<(), ErrorView>(e),
                None => r is Ok && only_written(m, t, a as int, data),
            }
        }),
{
    if data.len() == 0 {
        assert(data =~= Seq::empty());
        lemma_nothing_stored(m, a as int);
    } else if owned_region(a as int, data.len() as int) {
        lemma_plain_stored(m, a as int, data);
    }
}

/// A register that is written holds the value, and all others are as before.
pub proof fn law_register_written(m: MonitorView, idx: usize, value: u32)
    requires
        idx < m.now.regs.len(),
    ensures
        ({
            let t = m.with_reg(idx, value);
            &&& t.now.regs.len() == m.now.regs.len()
            &&& t.now.regs[idx as int] == value
            &&& forall|i: int|
                0 <= i < m.now.regs.len() && i != idx ==> #[trigger] t.now.regs[i]
                    == m.now.regs[i]
            &&& t.now.mem == m.now.mem
            &&& t.now.reads == m.now.reads
            &&& t.now.writes == m.now.writes
            &&& t.events == (if m.trace {
                m.events + seq![TraceEvent::RegisterSet { idx, value }]
            } else {
                m.events
            })
            &&& kept_apart(m, t)
        }),
{
    assert(m.events.push(TraceEvent::RegisterSet { idx, value }) =~= m.events + seq![
        TraceEvent::RegisterSet { idx, value },
    ]);
}

/// Committing keeps the guest as it is now, undoing brings back the one that was
/// committed, and neither has anything left in progress.
pub proof fn law_commit_and_undo(m: MonitorView, cycle: u64)
    ensures
        ({
            let t = m.committed(cycle);
            &&& t.now == m.now
            &&& t.saved == m.now
            &&& t.events.len() == 0
            &&& t.cycle == cycle
            &&& t.trace == m.trace
            &&& t.page_read_cost == m.page_read_cost
            &&& t.page_write_cost == m.page_write_cost
        }),
        ({
            let t = m.undone();
            &&& t.now == m.saved
            &&& t.events.len() == 0
            &&& kept_apart(m, t)
        }),
{
}

/// A segment starts with what was committed, and with no page touched. A session starts
/// its count of cycles anew.
pub proof fn law_cleared(m: MonitorView)
    ensures
        ({
            let t = m.segment_cleared();
            &&& t.now == t.saved
            &&& t.now.mem == m.saved.mem
            &&& t.now.regs == m.saved.regs
            &&& t.now.reads == Set::<u32>::empty()
            &&& t.now.writes == Set::<u32>::empty()
            &&& t.events.len() == 0
            &&& t.cycle == m.cycle
            &&& t.trace == m.trace
            &&& t.page_read_cost == m.page_read_cost
            &&& t.page_write_cost == m.page_write_cost
            &&& m.session_cleared() == (MonitorView { cycle: 0, ..t })
        }),
{
}

/// Each page that was read costs the same, and so does each that was changed.
pub proof fn law_page_cycles(m: MonitorView)
    ensures
        m.read_cycles() == m.page_read_cost * m.now.reads.len(),
        m.write_cycles() == m.page_write_cost * m.now.writes.len(),
{
}

/// An image has the memory and the registers of the guest as it is now.
pub proof fn law_image(m: MonitorView, pc: u32)
    ensures
        m.image(pc).mem == m.now.mem,
        m.image(pc).regs == m.now.regs,
        m.image(pc).pc == pc,
{
}

} // verus!
