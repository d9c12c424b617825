//! Multiplication of 256 bit numbers, held as 32 bytes with the least
//! significant one first.
use crate::words::le_value;
use crypto_bigint::{CheckedMul, Encoding, NonZero, U256, U512};
use vstd::arithmetic::power2::*;
use vstd::prelude::*;

verus! {

/// The product of two numbers if it fits into 256 bits, by `checked_mul` of
/// `crypto_bigint::U256`.
#[verifier::external_body]
fn checked_mul(x: &Vec<u8>, y: &Vec<u8>) -> (r: Option<Vec<u8>>)
    requires
        x@.len() == 32,
        y@.len() == 32,
    ensures
        match r {
            Some(z) => z@.len() == 32 && le_value(z@) == le_value(x@) * le_value(y@),
            None => le_value(x@) * le_value(y@) >= pow2(256),
        },
{
    let x = U256::from_le_bytes(x.as_slice().try_into().unwrap());
    let y = U256::from_le_bytes(y.as_slice().try_into().unwrap());
    let z: Option<U256> = x.checked_mul(&y).into();
    z.map(|z| z.to_le_bytes().to_vec())
}

/// The product of two numbers in two halves, the lower one first, by `mul_wide`
/// of `crypto_bigint::U256`.
#[verifier::external_body]
fn mul_wide(x: &Vec<u8>, y: &Vec<u8>) -> (r: (Vec<u8>, Vec<u8>))
    requires
        x@.len() == 32,
        y@.len() == 32,
    ensures
        r.0@.len() == 32,
        r.1@.len() == 32,
        le_value(r.0@) + pow2(256) * le_value(r.1@) == le_value(x@) * le_value(y@),
{
    let x = U256::from_le_bytes(x.as_slice().try_into().unwrap());
    let y = U256::from_le_bytes(y.as_slice().try_into().unwrap());
    let (lo, hi) = x.mul_wide(&y);
    (lo.to_le_bytes().to_vec(), hi.to_le_bytes().to_vec())
}

/// The remainder of a division of 512 bit numbers, by `rem` of
/// `crypto_bigint::U512`. The divisor is not zero.
#[verifier::external_body]
fn rem(w: &Vec<u8>, n: &Vec<u8>) -> (r: Vec<u8>)
    requires
        w@.len() == 64,
        n@.len() == 64,
        le_value(n@) != 0,
    ensures
        r@.len() == 64,
        le_value(r@) == le_value(w@) % le_value(n@),
{
    let w = U512::from_le_bytes(w.as_slice().try_into().unwrap());
    let n = U512::from_le_bytes(n.as_slice().try_into().unwrap());
    w.rem(&NonZero::<U512>::from_uint(n)).to_le_bytes().to_vec()
}

/// The lower `n` bytes of `v`, the least significant one first.
pub open spec fn le_encoded(v: nat, n: nat) -> Seq<u8>
    decreases n,
{
    if n == 0 {
        Seq::empty()
    } else {
        seq![(v % 256) as u8] + le_encoded(v / 256, (n - 1) as nat)
    }
}

/// `x * y` modulo `n`, or simply `x * y` where `n` is zero: then it has to fit
/// into 256 bits.
pub open spec fn product(x: nat, y: nat, n: nat) -> Option<nat> {
    if n != 0 {
        Some((x * y) % n)
    } else if x * y < pow2(256) {
        Some(x * y)
    } else {
        None
    }
}

/// The first bytes of a number are its lower part.
pub proof fn lemma_le_value_join(a: Seq<u8>, b: Seq<u8>)
    ensures
        le_value(a + b) == le_value(a) + pow2(8 * a.len()) * le_value(b),
    decreases a.len(),
{
    if a.len() == 0 {
        assert(a + b =~= b);
        lemma2_to64();
    } else {
        let rest = a.drop_first();
        lemma_le_value_join(rest, b);
        assert((a + b).drop_first() =~= rest + b);
        lemma_pow2_adds(8, 8 * rest.len());
        lemma2_to64();
        assert(8 + 8 * rest.len() == 8 * a.len());
        let p = pow2(8 * rest.len());
        let v = le_value(b);
        assert(256 * (p * v) == (256 * p) * v) by (nonlinear_arith);
        assert(256 * (le_value(rest) + p * v) == 256 * le_value(rest) + 256 * (p * v));
    }
}

/// A number is below the power of two that its bytes reach.
pub proof fn lemma_le_value_bound(bytes: Seq<u8>)
    ensures
        le_value(bytes) < pow2(8 * bytes.len()),
    decreases bytes.len(),
{
    lemma2_to64();
    if bytes.len() > 0 {
        let rest = bytes.drop_first();
        lemma_le_value_bound(rest);
        lemma_pow2_adds(8, 8 * rest.len());
        assert(8 + 8 * rest.len() == 8 * bytes.len());
    }
}

/// Zeros are zero.
proof fn lemma_le_value_zeros(bytes: Seq<u8>)
    requires
        forall|i: int| 0 <= i < bytes.len() ==> bytes[i] == 0,
    ensures
        le_value(bytes) == 0,
    decreases bytes.len(),
{
    if bytes.len() > 0 {
        lemma_le_value_zeros(bytes.drop_first());
    }
}

/// Bytes are the encoding of the number that they hold.
pub proof fn lemma_le_encoded_value(bytes: Seq<u8>)
    ensures
        le_encoded(le_value(bytes), bytes.len()) == bytes,
    decreases bytes.len(),
{
    if bytes.len() > 0 {
        let rest = bytes.drop_first();
        lemma_le_encoded_value(rest);
        let v = le_value(bytes);
        assert(v % 256 == bytes[0] && v / 256 == le_value(rest));
        assert(seq![bytes[0]] + rest =~= bytes);
    }
    assert(le_encoded(le_value(bytes), bytes.len()) =~= bytes);
}

/// A number that fits is what its encoding holds.
pub proof fn lemma_le_value_encoded(v: nat, n: nat)
    requires
        v < pow2(8 * n),
    ensures
        le_value(le_encoded(v, n)) == v,
        le_encoded(v, n).len() == n,
    decreases n,
{
    lemma2_to64();
    if n > 0 {
        let m = (n - 1) as nat;
        lemma_pow2_adds(8, 8 * m);
        assert(8 + 8 * m == 8 * n);
        lemma_le_value_encoded(v / 256, m);
        assert(le_encoded(v, n).drop_first() =~= le_encoded(v / 256, m));
    }
}

/// `x * y` modulo `n`, or simply `x * y` where `n` is zero. There is no result
/// where that product does not fit.
pub fn mul_mod(x: &Vec<u8>, y: &Vec<u8>, n: &Vec<u8>) -> (r: Option<Vec<u8>>)
    requires
        x@.len() == 32,
        y@.len() == 32,
        n@.len() == 32,
    ensures
        match product(le_value(x@), le_value(y@), le_value(n@)) {
            Some(z) => r is Some && r->Some_0@ == le_encoded(z, 32) && r->Some_0@.len() == 32,
            None => r is None,
        },
{
    let mut is_zero: bool = true;
    let mut i: usize = 0;
    while i < 32
        invariant
            i <= 32,
            n@.len() == 32,
            is_zero == (forall|k: int| 0 <= k < i ==> n@[k] == 0),
        decreases 32 - i,
    {
        if n[i] != 0 {
            is_zero = false;
        }
        i = i + 1;
    }
    proof {
        lemma_zero_iff(n@);
    }
    if is_zero {
        let r = checked_mul(x, y);
        proof {
            if r is Some {
                lemma_le_encoded_value(r->Some_0@);
                lemma_le_value_bound(r->Some_0@);
            }
        }
        return r;
    }
    let (mut w, mut hi) = mul_wide(x, y);
    let ghost lo = w@;
    let ghost hi0 = hi@;
    w.append(&mut hi);
    proof {
        lemma_le_value_join(lo, hi0);
        assert(w@ =~= lo + hi0);
    }
    let mut wide_n = n.clone();
    assert(wide_n@ =~= n@);
    let mut zeros: Vec<u8> = Vec::new();
    let mut i: usize = 0;
    while i < 32
        invariant
            i <= 32,
            zeros@.len() == i,
            forall|k: int| 0 <= k < i ==> zeros@[k] == 0,
        decreases 32 - i,
    {
        zeros.push(0);
        i = i + 1;
    }
    let ghost pad = zeros@;
    wide_n.append(&mut zeros);
    proof {
        lemma_le_value_join(n@, pad);
        lemma_le_value_zeros(pad);
        assert(wide_n@ =~= n@ + pad);
        assert(pow2(8 * n@.len()) * 0 == 0) by (nonlinear_arith);
    }
    let mut z = rem(&w, &wide_n);
    let ghost full = z@;
    z.truncate(32);
    proof {
        let low = full.take(32);
        let high = full.skip(32);
        assert(z@ =~= low);
        assert(low + high =~= full);
        lemma_le_value_join(low, high);
        lemma_le_value_bound(n@);
        let v = le_value(full);
        assert(v < le_value(n@) < pow2(256));
        let h = le_value(high);
        assert(h == 0) by (nonlinear_arith)
            requires
                v == le_value(low) + pow2(256) * h,
                v < pow2(256),
                h >= 0,
                le_value(low) >= 0,
        ;
        assert(pow2(256) * 0 == 0) by (nonlinear_arith);
        assert(le_value(z@) == v);
        lemma_le_encoded_value(z@);
    }
    Some(z)
}

/// A number is zero where all its bytes are.
proof fn lemma_zero_iff(bytes: Seq<u8>)
    ensures
        le_value(bytes) == 0 <==> forall|k: int| 0 <= k < bytes.len() ==> bytes[k] == 0,
    decreases bytes.len(),
{
    if bytes.len() > 0 {
        let rest = bytes.drop_first();
        lemma_zero_iff(rest);
        assert forall|k: int| 0 < k < bytes.len() implies bytes[k] == rest[k - 1] by {}
        if le_value(bytes) == 0 {
            assert forall|k: int| 0 <= k < bytes.len() implies bytes[k] == 0 by {
                if k > 0 {
                    assert(rest[k - 1] == 0);
                }
            }
        }
        if forall|k: int| 0 <= k < bytes.len() ==> bytes[k] == 0 {
            assert forall|k: int| 0 <= k < rest.len() implies rest[k] == 0 by {
                assert(bytes[k + 1] == 0);
            }
        }
    }
}

} // verus!
