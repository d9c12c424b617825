//! What holds of the SHA-256 ecall.
use crate::guest::{placed, MonitorView};
use crate::platform::{
    BLOCK_BYTES, BLOCK_WORDS, DIGEST_BYTES, DIGEST_WORDS, GUEST_MAX_MEM, REG_A0, REG_A1, REG_A2, REG_A3, REG_A4,
};
use crate::sha::sha256_compressed;
use crate::state::{sha_rounds, ExecView};
use crate::words::{be_bytes, be_words, le_bytes, lemma_word_of_bytes};
use vstd::prelude::*;

verus! {

/// Blocks are absorbed one after the other: what is absorbed first can be absorbed
/// apart.
pub proof fn law_sha_rounds_compose(
    m: MonitorView,
    state: Seq<u32>,
    block1: u32,
    block2: u32,
    a: nat,
    b: nat,
)
    ensures
        sha_rounds(m, state, block1, block2, a + b) == (match sha_rounds(
            m,
            state,
            block1,
            block2,
            a,
        ) {
            (m1, Err(e)) => (m1, Err(e)),
            (m1, Ok(state1)) => sha_rounds(
                m1,
                state1,
                (block1 + BLOCK_BYTES * a) as u32,
                (block2 + BLOCK_BYTES * a) as u32,
                b,
            ),
        }),
    decreases a,
{
    if a > 0 {
        let (m1, first) = m.read_words(block1, BLOCK_WORDS as int);
        let (m2, second) = m1.read_words(block2, DIGEST_WORDS as int);
        if first is Ok && second is Ok {
            let next = sha256_compressed(
                state,
                le_bytes(first->Ok_0.take(DIGEST_WORDS as int) + second->Ok_0),
            )@;
            let (at1, at2) = ((block1 + BLOCK_BYTES) as u32, (block2 + BLOCK_BYTES) as u32);
            law_sha_rounds_compose(m2, next, at1, at2, (a - 1) as nat, b);
            assert((a - 1) as nat + b == (a + b - 1) as nat);
            assert(at1 + BLOCK_BYTES * (a - 1) == block1 + BLOCK_BYTES * a);
            assert(at2 + BLOCK_BYTES * (a - 1) == block2 + BLOCK_BYTES * a);
        }
    }
}

/// Two guests have the same bytes in a region.
spec fn agree(a: MonitorView, b: MonitorView, addr: int, len: int) -> bool {
    forall|k: int|
        addr <= k < addr + len ==> #[trigger] a.now.byte_at(k) == b.now.byte_at(k)
}

/// Two guests have the same bytes in the halves of block `j`.
spec fn agree_block(a: MonitorView, b: MonitorView, block1: int, block2: int, j: int) -> bool {
    &&& agree(a, b, block1 + BLOCK_BYTES * j, BLOCK_BYTES as int)
    &&& agree(a, b, block2 + BLOCK_BYTES * j, DIGEST_BYTES as int)
}

/// Words are the same where bytes are.
proof fn lemma_agree_words(a: MonitorView, b: MonitorView, addr: u32, n: nat)
    requires
        agree(a, b, addr as int, 4 * n as int),
    ensures
        a.read_words(addr, n as int).1 == b.read_words(addr, n as int).1,
{
    let x = Seq::new(n, |i: int| a.now.word_at(addr + 4 * i));
    let y = Seq::new(n, |i: int| b.now.word_at(addr + 4 * i));
    assert forall|i: int| 0 <= i < n implies x[i] == y[i] by {
        let at = addr + 4 * i;
        assert(a.now.byte_at(at) == b.now.byte_at(at));
        assert(a.now.byte_at(at + 1) == b.now.byte_at(at + 1));
        assert(a.now.byte_at(at + 2) == b.now.byte_at(at + 2));
        assert(a.now.byte_at(at + 3) == b.now.byte_at(at + 3));
    }
    assert(x =~= y);
}

/// What blocks are absorbed to depends on their bytes alone, and absorbing them
/// changes no memory. There are as many words of state as before.
proof fn lemma_rounds_same(
    a: MonitorView,
    b: MonitorView,
    state: Seq<u32>,
    block1: u32,
    block2: u32,
    n: nat,
)
    requires
        state.len() == DIGEST_WORDS,
        forall|j: int|
            0 <= j < n ==> #[trigger] agree_block(a, b, block1 as int, block2 as int, j),
    ensures
        sha_rounds(a, state, block1, block2, n).1 == sha_rounds(b, state, block1, block2, n).1,
        sha_rounds(a, state, block1, block2, n).0.now.mem == a.now.mem,
        sha_rounds(a, state, block1, block2, n).1 matches Ok(s) ==> s.len() == DIGEST_WORDS,
    decreases n,
{
    if n > 0 {
        assert(agree_block(a, b, block1 as int, block2 as int, 0));
        let (a1, first) = a.read_words(block1, BLOCK_WORDS as int);
        let (a2, second) = a1.read_words(block2, DIGEST_WORDS as int);
        let b1 = b.read_words(block1, BLOCK_WORDS as int).0;
        let b2 = b1.read_words(block2, DIGEST_WORDS as int).0;
        lemma_agree_words(a, b, block1, BLOCK_WORDS as nat);
        assert(agree(a1, b1, block2 as int, DIGEST_BYTES as int)) by {
            assert forall|k: int|
                block2 <= k < block2 + DIGEST_BYTES implies #[trigger] a1.now.byte_at(k)
                == b1.now.byte_at(k) by {
                assert(a.now.byte_at(k) == b.now.byte_at(k));
            }
        }
        lemma_agree_words(a1, b1, block2, DIGEST_WORDS as nat);
        if first is Ok && second is Ok {
            let next = sha256_compressed(
                state,
                le_bytes(first->Ok_0.take(DIGEST_WORDS as int) + second->Ok_0),
            )@;
            let (at1, at2) = ((block1 + BLOCK_BYTES) as u32, (block2 + BLOCK_BYTES) as u32);
            let m = (n - 1) as nat;
            assert forall|j: int| 0 <= j < m implies #[trigger] agree_block(
                a2,
                b2,
                at1 as int,
                at2 as int,
                j,
            ) by {
                assert(agree_block(a, b, block1 as int, block2 as int, j + 1));
                assert forall|k: int|
                    at1 + BLOCK_BYTES * j <= k < at1 + BLOCK_BYTES * j
                        + BLOCK_BYTES implies #[trigger] a2.now.byte_at(k) == b2.now.byte_at(k) by {
                    assert(a.now.byte_at(k) == b.now.byte_at(k));
                }
                assert forall|k: int|
                    at2 + BLOCK_BYTES * j <= k < at2 + BLOCK_BYTES * j
                        + DIGEST_BYTES implies #[trigger] a2.now.byte_at(k) == b2.now.byte_at(k) by {
                    assert(a.now.byte_at(k) == b.now.byte_at(k));
                }
            }
            lemma_rounds_same(a2, b2, next, at1, at2, m);
        }
    }
}

/// Blocks that were absorbed lie in guest memory.
proof fn lemma_rounds_reach(
    m: MonitorView,
    state: Seq<u32>,
    block1: u32,
    block2: u32,
    n: nat,
    j: int,
)
    requires
        sha_rounds(m, state, block1, block2, n).1 is Ok,
        0 <= j < n,
    ensures
        block1 + BLOCK_BYTES * j + BLOCK_BYTES <= GUEST_MAX_MEM,
        block2 + BLOCK_BYTES * j + DIGEST_BYTES <= GUEST_MAX_MEM,
    decreases n,
{
    let (m1, first) = m.read_words(block1, BLOCK_WORDS as int);
    let (m2, second) = m1.read_words(block2, DIGEST_WORDS as int);
    if j > 0 {
        let next = sha256_compressed(
            state,
            le_bytes(first->Ok_0.take(DIGEST_WORDS as int) + second->Ok_0),
        )@;
        let (at1, at2) = ((block1 + BLOCK_BYTES) as u32, (block2 + BLOCK_BYTES) as u32);
        lemma_rounds_reach(m2, next, at1, at2, (n - 1) as nat, j - 1);
    }
}

/// Words written to bytes are read back.
proof fn lemma_be_words_of_bytes(words: Seq<u32>)
    ensures
        be_words(be_bytes(words)) == words,
        be_bytes(words).len() == 4 * words.len(),
{
    let bytes = be_bytes(words);
    assert forall|i: int| 0 <= i < words.len() implies be_words(bytes)[i] == words[i] by {
        lemma_word_of_bytes(words[i]);
    }
    assert(be_words(bytes) =~= words);
}

/// A digest at `out` does not overlap the halves of block `j`.
pub open spec fn apart(out: int, block1: int, block2: int, j: int) -> bool {
    let (at1, at2) = (block1 + BLOCK_BYTES * j, block2 + BLOCK_BYTES * j);
    &&& out + DIGEST_BYTES <= at1 || at1 + BLOCK_BYTES <= out
    &&& out + DIGEST_BYTES <= at2 || at2 + DIGEST_BYTES <= out
}

/// Blocks can be absorbed by two ecalls as well as by one: `s` absorbs the first
/// blocks, and `t` goes on with the others from the state that the first call has
/// written. That leaves the memory that one call in `whole` leaves, which absorbs all
/// of them, and takes as many cycles. The state that is written in between must not
/// overlap a block that is still to be absorbed.
#[verifier::rlimit(60)]
pub proof fn law_sha_calls_compose<R>(s: ExecView<R>, t: ExecView<R>, whole: ExecView<R>)
    requires
        s.sha_absorbed().1 is Ok,
        t.monitor.now.mem == s.sha_absorbed().0.monitor.now.mem,
        t.monitor.reg(REG_A0) == s.monitor.reg(REG_A0),
        t.monitor.reg(REG_A1) == s.monitor.reg(REG_A0),
        t.monitor.reg(REG_A2) == s.monitor.reg(REG_A2) + BLOCK_BYTES * s.monitor.reg(REG_A4),
        t.monitor.reg(REG_A3) == s.monitor.reg(REG_A3) + BLOCK_BYTES * s.monitor.reg(REG_A4),
        t.sha_absorbed().1 is Ok,
        whole.monitor.now.mem == s.monitor.now.mem,
        whole.monitor.reg(REG_A0) == s.monitor.reg(REG_A0),
        whole.monitor.reg(REG_A1) == s.monitor.reg(REG_A1),
        whole.monitor.reg(REG_A2) == s.monitor.reg(REG_A2),
        whole.monitor.reg(REG_A3) == s.monitor.reg(REG_A3),
        whole.monitor.reg(REG_A4) == s.monitor.reg(REG_A4) + t.monitor.reg(REG_A4),
        forall|j: int|
            0 <= j < t.monitor.reg(REG_A4) ==> #[trigger] apart(
                t.monitor.reg(REG_A0) as int,
                t.monitor.reg(REG_A2) as int,
                t.monitor.reg(REG_A3) as int,
                j,
            ),
    ensures
        whole.sha_absorbed().1 is Ok,
        whole.sha_absorbed().0.monitor.now.mem == t.sha_absorbed().0.monitor.now.mem,
        whole.sha_absorbed().1->Ok_0.extra_cycles == s.sha_absorbed().1->Ok_0.extra_cycles
            + t.sha_absorbed().1->Ok_0.extra_cycles,
{
    let m = s.monitor;
    let w = whole.monitor;
    let (out, input) = (m.reg(REG_A0), m.reg(REG_A1));
    let (block1, block2) = (m.reg(REG_A2), m.reg(REG_A3));
    let (a, b) = (m.reg(REG_A4) as nat, t.monitor.reg(REG_A4) as nat);
    // The first call.
    let m1 = m.read_region(input, DIGEST_BYTES as int).0;
    let state0 = be_words(m.now.bytes_at(input as int, DIGEST_BYTES as int));
    lemma_rounds_same(m1, m1, state0, block1, block2, a);
    let (m2, rounds1) = sha_rounds(m1, state0, block1, block2, a);
    let state1 = rounds1->Ok_0;
    lemma_be_words_of_bytes(state1);
    let m3 = m2.stored(out as int, be_bytes(state1));
    assert(s.sha_absorbed().0.monitor == m3);
    // The second call.
    let t0 = t.monitor;
    let t1 = t0.read_region(out, DIGEST_BYTES as int).0;
    let read = t0.now.bytes_at(out as int, DIGEST_BYTES as int);
    assert forall|i: int| 0 <= i < DIGEST_BYTES implies read[i] == be_bytes(state1)[i] by {
        assert(placed(out as int, be_bytes(state1)).contains_key((out + i) as u32));
    }
    assert(read =~= be_bytes(state1));
    let (at1, at2) = (t0.reg(REG_A2), t0.reg(REG_A3));
    assert forall|j: int| 0 <= j < b implies #[trigger] agree_block(
        t1,
        m2,
        at1 as int,
        at2 as int,
        j,
    ) by {
        assert(apart(out as int, at1 as int, at2 as int, j));
        lemma_rounds_reach(t1, state1, at1, at2, b, j);
        lemma_apart_agree(t1, m2, out, be_bytes(state1), at1 + BLOCK_BYTES * j, BLOCK_BYTES as int);
        lemma_apart_agree(t1, m2, out, be_bytes(state1), at2 + BLOCK_BYTES * j, DIGEST_BYTES as int);
    }
    lemma_rounds_same(t1, m2, state1, at1, at2, b);
    let state2 = sha_rounds(t1, state1, at1, at2, b).1->Ok_0;
    lemma_be_words_of_bytes(state2);
    // The one call.
    law_sha_rounds_compose(m1, state0, block1, block2, a, b);
    let w1 = w.read_region(input, DIGEST_BYTES as int).0;
    assert(w.now.bytes_at(input as int, DIGEST_BYTES as int) =~= m.now.bytes_at(
        input as int,
        DIGEST_BYTES as int,
    ));
    assert forall|j: int| 0 <= j < a + b implies #[trigger] agree_block(
        w1,
        m1,
        block1 as int,
        block2 as int,
        j,
    ) by {
    }
    lemma_rounds_same(w1, m1, state0, block1, block2, a + b);
    assert(sha_rounds(w1, state0, block1, block2, a + b).1 == sha_rounds(
        m2,
        state1,
        at1,
        at2,
        b,
    ).1);
    let after_two = t.sha_absorbed().0.monitor.now.mem;
    let after_one = whole.sha_absorbed().0.monitor.now.mem;
    assert(after_two == m3.now.mem.union_prefer_right(placed(out as int, be_bytes(state2))));
    assert(after_one == m.now.mem.union_prefer_right(placed(out as int, be_bytes(state2))));
    assert(after_one =~= after_two);
}

/// A region that what was stored does not overlap is as before.
proof fn lemma_apart_agree(
    a: MonitorView,
    b: MonitorView,
    out: u32,
    bytes: Seq<u8>,
    addr: int,
    len: int,
)
    requires
        a.now.mem == b.now.mem.union_prefer_right(placed(out as int, bytes)),
        0 <= addr,
        addr + len <= u32::MAX,
        out + bytes.len() <= addr || addr + len <= out,
    ensures
        agree(a, b, addr, len),
{
    assert forall|k: int| addr <= k < addr + len implies #[trigger] a.now.byte_at(k)
        == b.now.byte_at(k) by {
        assert(!placed(out as int, bytes).contains_key(k as u32));
    }
}

} // verus!
