//! Constants of the guest platform, and the small arithmetic helpers built on
//! them.
use vstd::arithmetic::power2::*;
use vstd::prelude::*;

verus! {

/// Bytes in a machine word.
pub const WORD_SIZE: u32 = 4;

/// Bytes in a page of guest memory.
pub const PAGE_SIZE: u32 = 1024;

/// The first address that belongs to the guest.
pub const GUEST_MIN_MEM: u32 = 0x0000_0400;

/// The first address past the memory that belongs to the guest.
pub const GUEST_MAX_MEM: u32 = 0x0C00_0000;

/// Pages below [`GUEST_MAX_MEM`].
pub const GUEST_PAGES: u32 = 0x0003_0000;

/// General purpose registers of a hart.
pub const REG_MAX: usize = 32;

pub const REG_T0: usize = 5;

pub const REG_A0: usize = 10;

pub const REG_A1: usize = 11;

pub const REG_A2: usize = 12;

pub const REG_A3: usize = 13;

pub const REG_A4: usize = 14;

pub const ECALL_HALT: u32 = 0;

pub const ECALL_INPUT: u32 = 1;

pub const ECALL_SOFTWARE: u32 = 2;

pub const ECALL_SHA: u32 = 3;

pub const ECALL_BIGINT: u32 = 4;

pub const HALT_TERMINATE: u32 = 0;

pub const HALT_PAUSE: u32 = 1;

pub const DIGEST_WORDS: usize = 8;

pub const DIGEST_BYTES: usize = 32;

pub const BLOCK_WORDS: usize = 16;

pub const BLOCK_BYTES: u32 = 64;

/// What an instruction is taken modulo for its opcode.
pub const OPCODE_MASK: u32 = 0x80;

/// The opcode of the instructions that store to memory.
pub const OPCODE_STORE: u32 = 0x23;

/// Words in an operand of the big integer ecall.
pub const BIGINT_WIDTH_WORDS: usize = 8;

/// Bytes in an operand of the big integer ecall.
pub const BIGINT_WIDTH_BYTES: usize = 32;

/// The number of cycles required to compress a SHA-256 block.
pub const SHA_CYCLES: u64 = 73;

/// Number of cycles required to complete a BigInt operation.
pub const BIGINT_CYCLES: u64 = 9;

/// The smallest segment that can be proven, in powers of 2 cycles.
pub const MIN_CYCLES_PO2: u32 = 13;

/// The largest segment that can be proven, in powers of 2 cycles.
pub const MAX_CYCLES_PO2: u32 = 24;

/// The default segment limit specified in powers of 2 cycles.
pub const DEFAULT_SEGMENT_LIMIT_PO2: u32 = 20;

/// Whether `addr` lies in the memory that belongs to the guest.
pub open spec fn guest_addr(addr: int) -> bool {
    GUEST_MIN_MEM <= addr < GUEST_MAX_MEM
}

/// Whether `addr` lies in the memory that belongs to the guest.
pub fn is_guest_memory(addr: u32) -> (r: bool)
    ensures
        r == guest_addr(addr as int),
{
    GUEST_MIN_MEM <= addr && addr < GUEST_MAX_MEM
}

/// The page that holds the byte at `addr`.
pub open spec fn page_of(addr: int) -> u32 {
    (addr / (PAGE_SIZE as int)) as u32
}

/// The least multiple of `align` that is not below `n`.
pub open spec fn aligned_up(n: int, align: int) -> int {
    if n % align == 0 {
        n
    } else {
        n + align - n % align
    }
}

/// Rounds `n` up to a multiple of `align`.
pub fn align_up(n: u64, align: u64) -> (r: u64)
    requires
        align > 0,
        n + align <= u64::MAX,
    ensures
        r == aligned_up(n as int, align as int),
        r % align == 0,
        n <= r < n + align,
{
    let rest: u64 = n % align;
    if rest == 0 {
        n
    } else {
        proof {
            vstd::arithmetic::div_mod::lemma_fundamental_div_mod(n as int, align as int);
            let q = n as int / align as int;
            assert(n + align - rest == align * (q + 1)) by (nonlinear_arith)
                requires
                    n == align * q + rest,
            ;
            vstd::arithmetic::div_mod::lemma_mod_multiples_basic(q + 1, align as int);
            assert(align * (q + 1) == (q + 1) * align) by (nonlinear_arith);
        }
        n + (align - rest)
    }
}

/// Whether `po2` is the least power of two exponent that reaches `n`.
pub open spec fn is_log2_ceil(n: int, po2: int) -> bool {
    &&& po2 >= 0
    &&& n <= pow2(po2 as nat)
    &&& po2 > 0 ==> pow2((po2 - 1) as nat) < n
}

/// The least `po2` such that `2^po2` is not below `n`.
pub fn log2_ceil(n: u64) -> (po2: u32)
    requires
        n <= 0x8000_0000_0000_0000,
    ensures
        is_log2_ceil(n as int, po2 as int),
        po2 <= 63,
{
    let mut po2: u32 = 0;
    let mut reach: u64 = 1;
    proof {
        lemma2_to64();
    }
    while reach < n
        invariant
            n <= 0x8000_0000_0000_0000,
            po2 <= 63,
            reach == pow2(po2 as nat),
            po2 > 0 ==> pow2((po2 - 1) as nat) < n,
        decreases 64 - po2,
    {
        proof {
            lemma2_to64();
            lemma2_to64_rest();
            lemma_pow2_unfold((po2 + 1) as nat);
            if po2 == 63 {
                assert(pow2(63) == 0x8000_0000_0000_0000);
            }
        }
        reach = reach * 2;
        po2 = po2 + 1;
    }
    po2
}

/// The exponent of [`is_log2_ceil`] is unique.
pub proof fn lemma_log2_ceil_unique(n: int, a: int, b: int)
    requires
        is_log2_ceil(n, a),
        is_log2_ceil(n, b),
    ensures
        a == b,
{
    if a < b {
        lemma_pow2_monotone(a as nat, (b - 1) as nat);
    } else if b < a {
        lemma_pow2_monotone(b as nat, (a - 1) as nat);
    }
}

/// Powers of two do not decrease with their exponent.
pub proof fn lemma_pow2_monotone(a: nat, b: nat)
    requires
        a <= b,
    ensures
        pow2(a) <= pow2(b),
{
    if a < b {
        lemma_pow2_strictly_increases(a, b);
    }
}

} // verus!
