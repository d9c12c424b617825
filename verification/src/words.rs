//! How words are laid out as bytes.
use vstd::prelude::*;

verus! {

/// The word whose bytes, least significant first, are `b0` to `b3`.
pub open spec fn le_word(b0: u8, b1: u8, b2: u8, b3: u8) -> u32 {
    (b0 + b1 * 0x100 + b2 * 0x1_0000 + b3 * 0x100_0000) as u32
}

/// Byte `k` of `w`, counted from the least significant one.
pub open spec fn word_byte(w: u32, k: int) -> u8 {
    if k == 0 {
        (w % 0x100) as u8
    } else if k == 1 {
        ((w / 0x100) % 0x100) as u8
    } else if k == 2 {
        ((w / 0x1_0000) % 0x100) as u8
    } else {
        (w / 0x100_0000) as u8
    }
}

/// `words` as bytes, each word with its least significant byte first.
pub open spec fn le_bytes(words: Seq<u32>) -> Seq<u8> {
    Seq::new(4 * words.len(), |i: int| word_byte(words[i / 4], i % 4))
}

/// `words` as bytes, each word with its most significant byte first.
pub open spec fn be_bytes(words: Seq<u32>) -> Seq<u8> {
    Seq::new(4 * words.len(), |i: int| word_byte(words[i / 4], 3 - i % 4))
}

/// The words that `bytes` hold, each with its least significant byte first.
pub open spec fn le_words(bytes: Seq<u8>) -> Seq<u32> {
    Seq::new(
        bytes.len() / 4,
        |i: int| le_word(bytes[4 * i], bytes[4 * i + 1], bytes[4 * i + 2], bytes[4 * i + 3]),
    )
}

/// The words that `bytes` hold, each with its most significant byte first.
pub open spec fn be_words(bytes: Seq<u8>) -> Seq<u32> {
    Seq::new(
        bytes.len() / 4,
        |i: int| le_word(bytes[4 * i + 3], bytes[4 * i + 2], bytes[4 * i + 1], bytes[4 * i]),
    )
}

/// The number that `bytes` hold with the least significant byte first.
pub open spec fn le_value(bytes: Seq<u8>) -> nat
    decreases bytes.len(),
{
    if bytes.len() == 0 {
        0
    } else {
        bytes[0] as nat + 256 * le_value(bytes.drop_first())
    }
}

/// A word is made of its own bytes.
pub proof fn lemma_word_of_bytes(w: u32)
    ensures
        le_word(word_byte(w, 0), word_byte(w, 1), word_byte(w, 2), word_byte(w, 3)) == w,
{
}

/// The bytes of a word are those that it was made of.
pub proof fn lemma_bytes_of_word(b0: u8, b1: u8, b2: u8, b3: u8)
    ensures
        word_byte(le_word(b0, b1, b2, b3), 0) == b0,
        word_byte(le_word(b0, b1, b2, b3), 1) == b1,
        word_byte(le_word(b0, b1, b2, b3), 2) == b2,
        word_byte(le_word(b0, b1, b2, b3), 3) == b3,
{
    let w = le_word(b0, b1, b2, b3);
    let high = b1 + b2 * 0x100 + b3 * 0x1_0000;
    let top = b2 + b3 * 0x100;
    assert(w == b0 + 0x100 * high);
    assert(w / 0x100 == high && w % 0x100 == b0);
    assert(high == b1 + 0x100 * top);
    assert(high / 0x100 == top && high % 0x100 == b1 as int);
    assert(w / 0x1_0000 == top);
    assert(top / 0x100 == b3 as int && top % 0x100 == b2 as int);
    assert(w / 0x100_0000 == b3);
}

/// The word whose bytes, least significant first, are `b0` to `b3`.
pub fn word_from_le(b0: u8, b1: u8, b2: u8, b3: u8) -> (w: u32)
    ensures
        w == le_word(b0, b1, b2, b3),
{
    b0 as u32 + b1 as u32 * 0x100 + b2 as u32 * 0x1_0000 + b3 as u32 * 0x100_0000
}

/// Appends the bytes of `w` to `out`, least significant first.
fn push_le(out: &mut Vec<u8>, w: u32)
    ensures
        final(out)@ == old(out)@ + seq![
            word_byte(w, 0),
            word_byte(w, 1),
            word_byte(w, 2),
            word_byte(w, 3),
        ],
{
    out.push((w % 0x100) as u8);
    out.push(((w / 0x100) % 0x100) as u8);
    out.push(((w / 0x1_0000) % 0x100) as u8);
    out.push((w / 0x100_0000) as u8);
    assert(out@ =~= old(out)@ + seq![
        word_byte(w, 0),
        word_byte(w, 1),
        word_byte(w, 2),
        word_byte(w, 3),
    ]);
}

/// Writes `words` out as bytes, least significant byte first.
pub fn words_to_le_bytes(words: &Vec<u32>) -> (bytes: Vec<u8>)
    ensures
        bytes@ == le_bytes(words@),
{
    let mut bytes: Vec<u8> = Vec::new();
    let mut i: usize = 0;
    while i < words.len()
        invariant
            i <= words.len(),
            bytes@ =~= le_bytes(words@.take(i as int)),
        decreases words.len() - i,
    {
        let ghost before = bytes@;
        push_le(&mut bytes, words[i]);
        i = i + 1;
        proof {
            let next = le_bytes(words@.take(i as int));
            assert(next.len() == before.len() + 4);
            assert forall|k: int| 0 <= k < next.len() implies bytes@[k] == next[k] by {
                if k < before.len() {
                    assert(words@.take(i as int)[k / 4] == words@.take(i - 1)[k / 4]);
                } else {
                    assert(k / 4 == i - 1);
                }
            }
            assert(bytes@ =~= next);
        }
    }
    assert(words@.take(words@.len() as int) =~= words@);
    bytes
}

/// Writes `words` out as bytes, most significant byte first.
pub fn words_to_be_bytes(words: &Vec<u32>) -> (bytes: Vec<u8>)
    ensures
        bytes@ == be_bytes(words@),
{
    let mut bytes: Vec<u8> = Vec::new();
    let mut i: usize = 0;
    while i < words.len()
        invariant
            i <= words.len(),
            bytes@ =~= be_bytes(words@.take(i as int)),
        decreases words.len() - i,
    {
        let ghost before = bytes@;
        let w: u32 = words[i];
        bytes.push((w / 0x100_0000) as u8);
        bytes.push(((w / 0x1_0000) % 0x100) as u8);
        bytes.push(((w / 0x100) % 0x100) as u8);
        bytes.push((w % 0x100) as u8);
        i = i + 1;
        proof {
            let next = be_bytes(words@.take(i as int));
            assert(next.len() == before.len() + 4);
            assert forall|k: int| 0 <= k < next.len() implies bytes@[k] == next[k] by {
                if k < before.len() {
                    assert(words@.take(i as int)[k / 4] == words@.take(i - 1)[k / 4]);
                } else {
                    assert(k / 4 == i - 1);
                }
            }
            assert(bytes@ =~= next);
        }
    }
    assert(words@.take(words@.len() as int) =~= words@);
    bytes
}

/// Reads `bytes` as words, least significant byte first.
pub fn words_from_le_bytes(bytes: &Vec<u8>) -> (words: Vec<u32>)
    requires
        bytes@.len() % 4 == 0,
    ensures
        words@ == le_words(bytes@),
{
    let mut words: Vec<u32> = Vec::new();
    let mut i: usize = 0;
    while i < bytes.len()
        invariant
            i <= bytes.len(),
            i % 4 == 0,
            bytes@.len() % 4 == 0,
            words@.len() == i / 4,
            forall|k: int| 0 <= k < words@.len() ==> words@[k] == le_words(bytes@)[k],
        decreases bytes.len() - i,
    {
        words.push(word_from_le(bytes[i], bytes[i + 1], bytes[i + 2], bytes[i + 3]));
        i = i + 4;
    }
    assert(words@ =~= le_words(bytes@));
    words
}

/// Reads `bytes` as words, most significant byte first.
pub fn words_from_be_bytes(bytes: &Vec<u8>) -> (words: Vec<u32>)
    requires
        bytes@.len() % 4 == 0,
    ensures
        words@ == be_words(bytes@),
{
    let mut words: Vec<u32> = Vec::new();
    let mut i: usize = 0;
    while i < bytes.len()
        invariant
            i <= bytes.len(),
            i % 4 == 0,
            bytes@.len() % 4 == 0,
            words@.len() == i / 4,
            forall|k: int| 0 <= k < words@.len() ==> words@[k] == be_words(bytes@)[k],
        decreases bytes.len() - i,
    {
        words.push(word_from_le(bytes[i + 3], bytes[i + 2], bytes[i + 1], bytes[i]));
        i = i + 4;
    }
    assert(words@ =~= be_words(bytes@));
    words
}

/// Bytes read as words and written back are the same bytes.
pub proof fn lemma_le_bytes_of_words(bytes: Seq<u8>)
    requires
        bytes.len() % 4 == 0,
    ensures
        le_bytes(le_words(bytes)) == bytes,
{
    let words = le_words(bytes);
    assert forall|i: int| 0 <= i < bytes.len() implies le_bytes(words)[i] == bytes[i] by {
        let k = i / 4;
        lemma_bytes_of_word(bytes[4 * k], bytes[4 * k + 1], bytes[4 * k + 2], bytes[4 * k + 3]);
    }
    assert(le_bytes(words) =~= bytes);
}

} // verus!
