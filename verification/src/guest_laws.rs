//! What holds of guest memory, and of what the ecalls write to it.
use crate::bigint::{le_encoded, lemma_le_value_bound, lemma_le_value_encoded, product};
use crate::ecall::same_base;
use crate::guest::{placed, MonitorView};
use crate::platform::{REG_A0, REG_A2, REG_A3, REG_A4};
use crate::state::ExecView;
use crate::words::{
    le_bytes, le_value, le_words, lemma_bytes_of_word, lemma_le_bytes_of_words, lemma_word_of_bytes,
};
use vstd::arithmetic::power2::*;
use vstd::prelude::*;

verus! {

/// A read gives back what a write wrote, and all other bytes are as before.
pub proof fn law_region_read_back(m: MonitorView, addr: u32, bytes: Seq<u8>)
    requires
        m.write_region(addr, bytes).1 is Ok,
    ensures
        ({
            let t = m.write_region(addr, bytes).0;
            &&& t.read_region(addr, bytes.len() as int).1 == Ok::<Seq<u8>, crate::types::ErrorView>(
                bytes,
            )
            &&& forall|k: u32|
                !(addr <= k < addr + bytes.len()) ==> #[trigger] t.now.byte_at(k as int)
                    == m.now.byte_at(k as int)
        }),
{
    let t = m.write_region(addr, bytes).0;
    lemma_stored_bytes(m, addr, bytes);
    assert(t.now.bytes_at(addr as int, bytes.len() as int) =~= bytes);
}

/// Words that were stored are read back.
pub proof fn law_words_read_back(m: MonitorView, addr: u32, words: Seq<u32>)
    requires
        m.write_words(addr, words).1 is Ok,
    ensures
        m.write_words(addr, words).0.read_words(addr, words.len() as int).1 == Ok::<
            Seq<u32>,
            crate::types::ErrorView,
        >(words),
{
    let bytes = le_bytes(words);
    let n = words.len() as int;
    assert(bytes.take(4 * n) =~= bytes);
    assert(bytes.take(0) =~= Seq::empty());
    let t = m.write_words(addr, words).0;
    if n > 0 {
        lemma_stored_bytes(m, addr, bytes);
    }
    let read = Seq::new(words.len(), |i: int| t.now.word_at(addr + 4 * i));
    assert forall|i: int| 0 <= i < n implies read[i] == words[i] by {
        lemma_word_of_bytes(words[i]);
        assert(t.now.byte_at(addr + 4 * i) == bytes[4 * i]);
        assert(t.now.byte_at(addr + 4 * i + 1) == bytes[4 * i + 1]);
        assert(t.now.byte_at(addr + 4 * i + 2) == bytes[4 * i + 2]);
        assert(t.now.byte_at(addr + 4 * i + 3) == bytes[4 * i + 3]);
    }
    assert(read =~= words);
}

/// Memory holds what was stored.
proof fn lemma_stored_bytes(m: MonitorView, addr: u32, bytes: Seq<u8>)
    requires
        addr + bytes.len() <= u32::MAX,
    ensures
        forall|i: int|
            0 <= i < bytes.len() ==> #[trigger] m.stored(addr as int, bytes).now.byte_at(addr + i)
                == bytes[i],
{
    let t = m.stored(addr as int, bytes);
    assert forall|i: int| 0 <= i < bytes.len() implies #[trigger] t.now.byte_at(addr + i)
        == bytes[i] by {
        assert(placed(addr as int, bytes).contains_key((addr + i) as u32));
    }
}

/// Dropping an instruction in progress brings back what was committed, whatever
/// the instruction did.
pub proof fn law_undo_restores(before: MonitorView, during: MonitorView)
    requires
        before.clean(),
        same_base(before, during),
    ensures
        during.undone() == before,
{
    assert(during.undone().events =~= before.events);
}

/// What was committed stays: there is nothing left to drop.
pub proof fn law_commit_stays(m: MonitorView, cycle: u64)
    ensures
        m.committed(cycle).clean(),
        m.committed(cycle).undone() == m.committed(cycle),
        m.committed(cycle).now == m.now,
{
}

/// Words and bytes of guest memory are two views of the same.
proof fn lemma_words_at(m: MonitorView, addr: u32, n: nat)
    ensures
        le_bytes(Seq::new(n, |i: int| m.now.word_at(addr + 4 * i))) == m.now.bytes_at(
            addr as int,
            4 * n as int,
        ),
{
    let words = Seq::new(n, |i: int| m.now.word_at(addr + 4 * i));
    assert forall|k: int| 0 <= k < 4 * n implies le_bytes(words)[k] == m.now.byte_at(addr + k) by {
        let i = k / 4;
        let at = addr + 4 * i;
        assert(words[i] == m.now.word_at(at));
        lemma_bytes_of_word(
            m.now.byte_at(at),
            m.now.byte_at(at + 1),
            m.now.byte_at(at + 2),
            m.now.byte_at(at + 3),
        );
    }
    assert(le_bytes(words) =~= m.now.bytes_at(addr as int, 4 * n as int));
}

/// The big integer ecall writes `x * y` modulo `n`, or simply `x * y` where `n` is
/// zero.
#[verifier::rlimit(40)]
pub proof fn law_bigint_multiplies<R>(s: ExecView<R>)
    requires
        s.bigint_multiplied().1 is Ok,
    ensures
        ({
            let m = s.monitor;
            let t = s.bigint_multiplied().0.monitor;
            let x = le_value(m.now.bytes_at(m.reg(REG_A2) as int, 32));
            let y = le_value(m.now.bytes_at(m.reg(REG_A3) as int, 32));
            let n = le_value(m.now.bytes_at(m.reg(REG_A4) as int, 32));
            let z = le_value(t.now.bytes_at(m.reg(REG_A0) as int, 32));
            if n != 0 {
                z == (x * y) % n
            } else {
                z == x * y
            }
        }),
{
    let m = s.monitor;
    let (z_ptr, x_ptr, y_ptr, n_ptr) = (m.reg(REG_A0), m.reg(REG_A2), m.reg(REG_A3), m.reg(REG_A4));
    let m1 = m.read_words(x_ptr, 8).0;
    let m2 = m1.read_words(y_ptr, 8).0;
    let m3 = m2.read_words(n_ptr, 8).0;
    lemma_words_at(m, x_ptr, 8);
    lemma_words_at(m1, y_ptr, 8);
    lemma_words_at(m2, n_ptr, 8);
    let x = le_value(m.now.bytes_at(x_ptr as int, 32));
    let y = le_value(m.now.bytes_at(y_ptr as int, 32));
    let n = le_value(m.now.bytes_at(n_ptr as int, 32));
    assert(m1.now.bytes_at(y_ptr as int, 32) =~= m.now.bytes_at(y_ptr as int, 32));
    assert(m2.now.bytes_at(n_ptr as int, 32) =~= m.now.bytes_at(n_ptr as int, 32));
    assert(product(x, y, n) is Some);
    let z = product(x, y, n)->Some_0;
    lemma_le_value_bound(m.now.bytes_at(n_ptr as int, 32));
    assert(z < pow2(256));
    lemma_le_value_encoded(z, 32);
    let bytes = le_encoded(z, 32);
    lemma_le_bytes_of_words(bytes);
    assert(le_bytes(le_words(bytes)) == bytes);
    assert(bytes.take(32) =~= bytes);
    lemma_stored_bytes(m3, z_ptr, bytes);
    let t = s.bigint_multiplied().0.monitor;
    assert(t == m3.stored(z_ptr as int, bytes));
    assert(t.now.bytes_at(z_ptr as int, 32) =~= bytes);
}

} // verus!
