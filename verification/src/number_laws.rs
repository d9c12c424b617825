//! What the numbers mean that the platform is built on.
use crate::bigint::{le_encoded, lemma_le_value_encoded, product};
use crate::ecall_laws::{lemma_number, number, state_part};
use crate::guest::{loaded, program_image};
use crate::instruction_laws::lemma_plain_words;
use crate::monitor_laws::wrong_word;
use crate::plain::{owned, word_bytes, word_part};
use crate::platform::{aligned_up, guest_addr, is_log2_ceil, page_of};
use crate::types::{
    all_claimed, claims_of, fitted, Assumption, Claim, CycleCosts, EnvView, ErrorView, ExitCode,
};
use crate::words::{
    be_bytes, be_words, le_bytes, le_value, le_word, le_words, lemma_word_of_bytes,
};
use vstd::arithmetic::power2::pow2;
use vstd::prelude::*;

verus! {

/// A word counts its bytes by powers of 256.
pub proof fn law_word(b0: u8, b1: u8, b2: u8, b3: u8)
    ensures
        le_word(b0, b1, b2, b3) as int == b0 + 0x100 * b1 + 0x1_0000 * b2 + 0x100_0000 * b3,
{
}

/// Bytes are put into words in either order, and none is lost.
pub proof fn law_words_of_bytes(b: Seq<u8>, i: int)
    requires
        0 <= i,
        4 * i + 4 <= b.len(),
    ensures
        i < le_words(b).len(),
        i < be_words(b).len(),
        le_words(b)[i] as int == b[4 * i] + 0x100 * b[4 * i + 1] + 0x1_0000 * b[4 * i + 2]
            + 0x100_0000 * b[4 * i + 3],
        be_words(b)[i] as int == b[4 * i + 3] + 0x100 * b[4 * i + 2] + 0x1_0000 * b[4 * i + 1]
            + 0x100_0000 * b[4 * i],
{
}

/// Words are taken apart in either order: one begins with its least significant byte,
/// and the other with its most significant one.
pub proof fn law_bytes_of_words(words: Seq<u32>)
    ensures
        le_bytes(words) == word_bytes(words),
        be_bytes(words).len() == 4 * words.len(),
        forall|i: int|
            0 <= i < 4 * words.len() ==> #[trigger] be_bytes(words)[i] == state_part(words, i),
{
    lemma_plain_words(words);
    assert forall|i: int| 0 <= i < 4 * words.len() implies #[trigger] be_bytes(words)[i]
        == state_part(words, i) by {
        assert(i % 4 == 0 || i % 4 == 1 || i % 4 == 2 || i % 4 == 3);
    }
}

/// Words are put together again from their bytes.
pub proof fn law_words_come_back(words: Seq<u32>)
    ensures
        le_words(le_bytes(words)) == words,
        be_words(be_bytes(words)) == words,
{
    assert forall|i: int| 0 <= i < words.len() implies le_words(le_bytes(words))[i] == words[i]
        && be_words(be_bytes(words))[i] == words[i] by {
        lemma_word_of_bytes(words[i]);
    }
    assert(le_words(le_bytes(words)) =~= words);
    assert(be_words(be_bytes(words)) =~= words);
}

/// A number is the sum of its bytes, each times its power of 256.
pub proof fn law_number(b: Seq<u8>)
    ensures
        le_value(b) == number(b),
{
    lemma_number(b);
}

/// A number that fits is held by the bytes that it is encoded to.
pub proof fn law_encoded(v: nat, n: nat)
    requires
        v < pow2(8 * n),
    ensures
        le_encoded(v, n).len() == n,
        number(le_encoded(v, n)) == v,
{
    lemma_le_value_encoded(v, n);
    lemma_number(le_encoded(v, n));
}

/// A product is taken modulo `n`, unless that is zero: then it has to fit into 256 bits.
pub proof fn law_product(x: nat, y: nat, n: nat)
    ensures
        n > 0 ==> product(x, y, n) == Some((x * y) % n),
        n == 0 && x * y < pow2(256) ==> product(x, y, n) == Some(x * y),
        n == 0 && x * y >= pow2(256) ==> product(x, y, n) is None,
{
}

/// Rounding up gives the least multiple that is not below.
pub proof fn law_aligned_up(n: int, align: int, k: int)
    requires
        align > 0,
    ensures
        aligned_up(n, align) % align == 0,
        n <= aligned_up(n, align) < n + align,
        n <= k && k % align == 0 ==> aligned_up(n, align) <= k,
{
    vstd::arithmetic::div_mod::lemma_fundamental_div_mod(n, align);
    let q = n / align;
    if n % align != 0 {
        assert(n + align - n % align == (q + 1) * align) by (nonlinear_arith)
            requires
                n == align * q + n % align,
        ;
        vstd::arithmetic::div_mod::lemma_mod_multiples_basic(q + 1, align);
        if n <= k && k % align == 0 {
            vstd::arithmetic::div_mod::lemma_fundamental_div_mod(k, align);
            let p = k / align;
            assert(p > q) by (nonlinear_arith)
                requires
                    k == align * p,
                    n == align * q + n % align,
                    n % align > 0,
                    n <= k,
                    align > 0,
            ;
            assert((q + 1) * align <= k) by (nonlinear_arith)
                requires
                    k == align * p,
                    p >= q + 1,
                    align > 0,
            ;
        }
    }
}

/// The size of a segment is the least power of two that reaches its cycles.
pub proof fn law_log2_ceil(n: int, po2: int)
    ensures
        is_log2_ceil(n, po2) <==> (po2 >= 0 && n <= pow2(po2 as nat) && (po2 > 0 ==> pow2(
            (po2 - 1) as nat,
        ) < n)),
{
}

/// The guest owns the memory from 1024 bytes to 192 MiB, in pages of 1024 bytes.
pub proof fn law_memory(a: int)
    ensures
        guest_addr(a) <==> 1024 <= a < 192 * 1024 * 1024,
        guest_addr(a) <==> owned(a),
        0 <= a <= u32::MAX ==> page_of(a) == a / 1024,
{
}

/// An answer has as many words as were asked for: those of the host, and zeros.
pub proof fn law_fitted(words: Seq<u32>, n: nat, i: int)
    requires
        0 <= i < n,
    ensures
        fitted(words, n).len() == n,
        i < words.len() ==> fitted(words, n)[i] == words[i],
        i >= words.len() ==> fitted(words, n)[i] == 0,
{
}

/// What is taken for granted of an execution.
pub open spec fn claim_in(a: Assumption) -> Option<Claim> {
    match a {
        Assumption::Proven(receipt) => receipt.claim,
        Assumption::Unresolved(claim) => Some(claim),
    }
}

/// Claims are collected in order, if there is one for each assumption.
pub proof fn law_claims(assumptions: Seq<Assumption>)
    ensures
        all_claimed(assumptions) <==> (forall|i: int|
            0 <= i < assumptions.len() ==> claim_in(#[trigger] assumptions[i]) is Some),
        claims_of(assumptions).len() == assumptions.len(),
        forall|i: int|
            0 <= i < assumptions.len() && claim_in(assumptions[i]) is Some ==> Some(
                #[trigger] claims_of(assumptions)[i],
            ) == claim_in(assumptions[i]),
{
    if forall|i: int| 0 <= i < assumptions.len() ==> claim_in(#[trigger] assumptions[i]) is Some {
        assert forall|i: int| 0 <= i < assumptions.len() implies (
        #[trigger] assumptions[i]).spec_claim() is Some by {
            assert(claim_in(assumptions[i]) is Some);
        }
    }
    if all_claimed(assumptions) {
        assert forall|i: int| 0 <= i < assumptions.len() implies claim_in(
            #[trigger] assumptions[i],
        ) is Some by {
            assert(assumptions[i].spec_claim() is Some);
        }
    }
}

/// Only an execution that halts or pauses has an output, and only one that was paused or
/// cut off goes on.
pub proof fn law_exit_codes(code: ExitCode)
    ensures
        code.has_output() <==> (code is Halted || code is Paused),
        code.resumable() <==> (code is Paused || code is SystemSplit),
{
}

/// Words are put into memory one after the other, so that the last one stays, and all
/// other bytes are zero.
pub open spec fn program_byte(words: Seq<(u32, u32)>, a: u32) -> Option<u8>
    decreases words.len(),
{
    if words.len() == 0 {
        None
    } else {
        let (at, w) = words.last();
        if at <= a < at + 4 {
            Some(word_part(seq![w], a - at))
        } else {
            program_byte(words.drop_last(), a)
        }
    }
}

/// Loading words behind what is loaded before.
proof fn lemma_loaded(mem: Map<u32, u8>, words: Seq<(u32, u32)>)
    ensures
        loaded(mem, words) == (if words.len() == 0 {
            Ok::<Map<u32, u8>, ErrorView>(mem)
        } else {
            match loaded(mem, words.drop_last()) {
                Err(e) => Err(e),
                Ok(before) => match wrong_word(words.last().0) {
                    Some(e) => Err(e),
                    None => Ok(
                        before.union_prefer_right(
                            crate::guest::placed(
                                words.last().0 as int,
                                le_bytes(seq![words.last().1]),
                            ),
                        ),
                    ),
                },
            }
        }),
    decreases words.len(),
{
    reveal_with_fuel(loaded, 2);
    if words.len() == 1 {
        assert(words.drop_last().len() == 0);
        assert(words.drop_first().len() == 0);
    } else if words.len() > 1 {
        let (a, w) = words[0];
        if wrong_word(a) is None {
            let next = mem.union_prefer_right(
                crate::guest::placed(a as int, le_bytes(seq![w])),
            );
            lemma_loaded(next, words.drop_first());
            assert(words.drop_first().drop_last() =~= words.drop_last().drop_first());
        }
    }
}

/// What memory holds once words were loaded.
proof fn lemma_program_byte(words: Seq<(u32, u32)>, a: u32)
    requires
        loaded(Map::empty(), words) is Ok,
    ensures
        ({
            let mem = loaded(Map::empty(), words)->Ok_0;
            match program_byte(words, a) {
                Some(b) => mem.contains_key(a) && mem[a] == b,
                None => !mem.contains_key(a),
            }
        }),
    decreases words.len(),
{
    lemma_loaded(Map::empty(), words);
    if words.len() > 0 {
        lemma_program_byte(words.drop_last(), a);
        lemma_plain_words(seq![words.last().1]);
    }
}

/// A program starts at its entry, with all registers zero and its words in memory. It is
/// not loaded if a word of it lies outside of the guest or is not aligned, and the first
/// such word says why.
pub proof fn law_program(entry: u32, words: Seq<(u32, u32)>, a: u32)
    ensures
        match program_image(entry, words) {
            Ok(image) => {
                &&& image.pc == entry
                &&& image.regs.len() == 32
                &&& forall|i: int| 0 <= i < 32 ==> #[trigger] image.regs[i] == 0
                &&& match program_byte(words, a) {
                    Some(b) => image.mem.contains_key(a) && image.mem[a] == b,
                    None => !image.mem.contains_key(a),
                }
                &&& forall|i: int|
                    0 <= i < words.len() ==> wrong_word((#[trigger] words[i]).0) is None
            },
            Err(e) => exists|i: int|
                {
                    &&& 0 <= i < words.len()
                    &&& wrong_word((#[trigger] words[i]).0) == Some(e)
                    &&& forall|j: int| 0 <= j < i ==> wrong_word((#[trigger] words[j]).0) is None
                },
        },
{
    if loaded(Map::empty(), words) is Ok {
        lemma_program_byte(words, a);
    }
    lemma_loaded_error(Map::empty(), words);
}

/// Which words can be loaded.
proof fn lemma_loaded_error(mem: Map<u32, u8>, words: Seq<(u32, u32)>)
    ensures
        match loaded(mem, words) {
            Ok(_) => forall|i: int|
                0 <= i < words.len() ==> wrong_word((#[trigger] words[i]).0) is None,
            Err(e) => exists|i: int|
                {
                    &&& 0 <= i < words.len()
                    &&& wrong_word((#[trigger] words[i]).0) == Some(e)
                    &&& forall|j: int| 0 <= j < i ==> wrong_word((#[trigger] words[j]).0) is None
                },
        },
    decreases words.len(),
{
    lemma_loaded(mem, words);
    if words.len() > 0 {
        let k = words.len() - 1;
        let before = words.drop_last();
        lemma_loaded_error(mem, before);
        match loaded(mem, before) {
            Ok(_) => {
                assert forall|j: int| 0 <= j < k implies wrong_word(
                    (#[trigger] words[j]).0,
                ) is None by {
                    assert(words[j] == before[j]);
                }
                assert(words[k] == words.last());
            },
            Err(e) => {
                let i = choose|i: int|
                    {
                        &&& 0 <= i < before.len()
                        &&& wrong_word((#[trigger] before[i]).0) == Some(e)
                        &&& forall|j: int|
                            0 <= j < i ==> wrong_word((#[trigger] before[j]).0) is None
                    };
                assert(words[i] == before[i]);
                assert forall|j: int| 0 <= j < i implies wrong_word(
                    (#[trigger] words[j]).0,
                ) is None by {
                    assert(words[j] == before[j]);
                }
            },
        }
    }
}

/// Segments have 2 to the power of 20 cycles unless that is settled otherwise, whoever
/// wants a profile listens, and a segment in which nothing happens takes a fixed number
/// of cycles.
pub proof fn law_settings(env: EnvView, costs: CycleCosts)
    ensures
        env.segment_limit_po2 is None ==> env.limit_po2() == 20,
        env.segment_limit_po2 is Some ==> env.limit_po2() == env.segment_limit_po2->Some_0,
        env.listened() == (EnvView { trace: env.trace || env.pprof, ..env }),
        costs.const_cycles() == costs.init_cycles + costs.fini_cycles + costs.zk_cycles + 73,
{
}

} // verus!
