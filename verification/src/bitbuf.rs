//! A big-endian bit accumulator, shared by the encoder and the decoder.
//!
//! A buffer value `b` holding `n` pending bits is kept as the integer
//! `b < pow2(n)`; bits are appended at the low end and removed from the
//! high end, so the earliest-appended bits are the most significant.
use vstd::prelude::*;
use vstd::arithmetic::power2::{pow2, lemma_pow2_adds, lemma_pow2_pos, lemma2_to64};
use vstd::arithmetic::div_mod::{lemma_fundamental_div_mod, lemma_multiply_divide_lt};
use vstd::arithmetic::mul::lemma_mul_inequality;
use vstd::bits::{lemma_u64_pow2_no_overflow, lemma_u64_shl_is_mul};

verus! {

/// `2^k` as a machine word.
pub fn pow2u64(k: u32) -> (r: u64)
    requires
        k < 64,
    ensures
        r == pow2(k as nat),
        r >= 1,
{
    proof {
        lemma_u64_pow2_no_overflow(k as nat);
        lemma_u64_shl_is_mul(1u64, k as u64);
        lemma_pow2_pos(k as nat);
    }
    1u64 << (k as u64)
}

/// Append the `k`-bit value `v` at the low end of the buffer.
pub fn put_bits(buf: &mut u64, n: &mut u32, k: u32, v: u64)
    requires
        *old(n) + k <= 63,
        *old(buf) < pow2(*old(n) as nat),
        v < pow2(k as nat),
    ensures
        *final(n) == *old(n) + k,
        *final(buf) == *old(buf) * pow2(k as nat) + v,
        *final(buf) < pow2(*final(n) as nat),
{
    let m: u64 = pow2u64(k);
    proof {
        let pn: int = pow2(*old(n) as nat) as int;
        let pk: int = pow2(k as nat) as int;
        lemma_pow2_adds(*old(n) as nat, k as nat);
        lemma_pow2_pos(k as nat);
        lemma_pow2_pos(*old(n) as nat);
        lemma_u64_pow2_no_overflow((*old(n) + k) as nat);
        // buf * m <= (pow2(n) - 1) * m == pow2(n + k) - m
        lemma_mul_inequality(*old(buf) as int, pn - 1, m as int);
        assert((pn - 1) * pk == pn * pk - pk) by (nonlinear_arith);
    }
    *buf = *buf * m + v;
    *n = *n + k;
}

/// Remove and return the top `k` bits of the buffer.
pub fn take_bits(buf: &mut u64, n: &mut u32, k: u32) -> (v: u64)
    requires
        k <= *old(n),
        *old(n) <= 63,
        *old(buf) < pow2(*old(n) as nat),
    ensures
        *final(n) == *old(n) - k,
        v as nat == *old(buf) as nat / pow2(*final(n) as nat),
        v < pow2(k as nat),
        *final(buf) as nat == *old(buf) as nat % pow2(*final(n) as nat),
        *final(buf) < pow2(*final(n) as nat),
        *old(buf) == v * pow2(*final(n) as nat) + *final(buf),
{
    let sh: u32 = *n - k;
    let m: u64 = pow2u64(sh);
    proof {
        lemma_pow2_pos(sh as nat);
        lemma_pow2_adds(sh as nat, k as nat);
        lemma_multiply_divide_lt(*old(buf) as int, m as int, pow2(k as nat) as int);
        lemma_fundamental_div_mod(*old(buf) as int, m as int);
    }
    let v: u64 = *buf / m;
    *buf = *buf % m;
    *n = sh;
    v
}

/// Read the top `k` bits of the buffer without removing them.
pub fn peek_bits(buf: u64, n: u32, k: u32) -> (v: u64)
    requires
        k <= n,
        n <= 63,
        buf < pow2(n as nat),
    ensures
        v as nat == buf as nat / pow2((n - k) as nat),
        v < pow2(k as nat),
{
    let sh: u32 = n - k;
    let m: u64 = pow2u64(sh);
    proof {
        lemma_pow2_pos(sh as nat);
        lemma_pow2_adds(sh as nat, k as nat);
        lemma_multiply_divide_lt(buf as int, m as int, pow2(k as nat) as int);
    }
    buf / m
}

/// Numeric values of the small powers of two that the codec's proofs use.
pub proof fn lemma_pow2_values()
    ensures
        pow2(0) == 1,
        pow2(1) == 2,
        pow2(2) == 4,
        pow2(3) == 8,
        pow2(4) == 16,
        pow2(5) == 32,
        pow2(6) == 64,
        pow2(7) == 128,
        pow2(8) == 256,
        pow2(9) == 512,
        pow2(10) == 1024,
        pow2(11) == 2048,
        pow2(12) == 4096,
        pow2(13) == 8192,
        pow2(14) == 16384,
        pow2(16) == 65536,
        pow2(24) == 0x1000000,
        pow2(25) == 0x2000000,
        pow2(26) == 0x4000000,
        pow2(27) == 0x8000000,
        pow2(28) == 0x10000000,
        pow2(32) == 0x100000000,
{
    lemma2_to64();
}

} // verus!
