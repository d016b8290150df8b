//! Double-width unsigned arithmetic: the 256-bit products and quotients
//! that exact fixed-point multiplication and division need.
//!
//! A 256-bit value is a pair `(hi, lo)` of `u128` limbs worth
//! `hi * 2^128 + lo`.

use vstd::arithmetic::div_mod::{lemma_fundamental_div_mod, lemma_fundamental_div_mod_converse};
use vstd::arithmetic::power2::{lemma2_to64, lemma2_to64_rest, lemma_pow2_adds, pow2};
use vstd::prelude::*;

verus! {

/// 2^64, the base of the digit decomposition used in multiplication.
pub(crate) const B64: u128 = 0x1_0000_0000_0000_0000;

/// The integer a 256-bit limb pair stands for.
pub(crate) open spec fn val256(hi: u128, lo: u128) -> int {
    hi * 0x1_0000_0000_0000_0000_0000_0000_0000_0000 + lo
}

/// Full 128x128 -> 256 bit multiplication by 64-bit-digit schoolbook.
pub(crate) fn mul_u128(a: u128, b: u128) -> (r: (u128, u128))
    ensures
        val256(r.0, r.1) == a * b,
{
    let ah = a / B64;
    let al = a % B64;
    let bh = b / B64;
    let bl = b % B64;
    proof {
        assert(ah < B64 && bh < B64) by (nonlinear_arith)
            requires
                ah == a / B64,
                bh == b / B64,
                B64 == 0x1_0000_0000_0000_0000,
        {
        }
        assert(ah * bh <= (B64 - 1) * (B64 - 1) && ah * bl <= (B64 - 1) * (B64 - 1) && al * bh
            <= (B64 - 1) * (B64 - 1) && al * bl <= (B64 - 1) * (B64 - 1)) by (nonlinear_arith)
            requires
                ah <= B64 - 1 && al <= B64 - 1 && bh <= B64 - 1 && bl <= B64 - 1,
        {
        }
    }
    let p00 = al * bl;
    let p01 = al * bh;
    let p10 = ah * bl;
    let p11 = ah * bh;
    let d0 = p00 % B64;
    let c0 = p00 / B64;
    let s1 = p01 % B64 + p10 % B64 + c0;
    let d1 = s1 % B64;
    let c1 = s1 / B64;
    let s2 = p01 / B64 + p10 / B64 + p11 % B64 + c1;
    let d2 = s2 % B64;
    let c2 = s2 / B64;
    let s3 = p11 / B64 + c2;
    proof {
        lemma_fundamental_div_mod(a as int, B64 as int);
        lemma_fundamental_div_mod(b as int, B64 as int);
        lemma_fundamental_div_mod(p00 as int, B64 as int);
        lemma_fundamental_div_mod(p01 as int, B64 as int);
        lemma_fundamental_div_mod(p10 as int, B64 as int);
        lemma_fundamental_div_mod(p11 as int, B64 as int);
        lemma_fundamental_div_mod(s1 as int, B64 as int);
        lemma_fundamental_div_mod(s2 as int, B64 as int);
        // The digits reassemble to the exact product.
        assert(p11 * B64 * B64 + (p01 + p10) * B64 + p00 == a * b) by (nonlinear_arith)
            requires
                a == B64 * ah + al,
                b == B64 * bh + bl,
                p00 == al * bl,
                p01 == al * bh,
                p10 == ah * bl,
                p11 == ah * bh,
        {
        }
        assert((s3 * B64 + d2) * (B64 * B64) + (d1 * B64 + d0) == p11 * B64 * B64 + (p01 + p10)
            * B64 + p00) by (nonlinear_arith)
            requires
                p00 == B64 * c0 + d0,
                s1 == p01 % B64 + p10 % B64 + c0,
                s1 == B64 * c1 + d1,
                s2 == p01 / B64 + p10 / B64 + p11 % B64 + c1,
                s2 == B64 * c2 + d2,
                s3 == p11 / B64 + c2,
                p01 == B64 * (p01 / B64) + p01 % B64,
                p10 == B64 * (p10 / B64) + p10 % B64,
                p11 == B64 * (p11 / B64) + p11 % B64,
                B64 == 0x1_0000_0000_0000_0000,
        {
        }
        // The top digit fits in 64 bits because the product is below 2^256.
        assert(s3 < B64) by (nonlinear_arith)
            requires
                (s3 * B64 + d2) * (B64 * B64) + (d1 * B64 + d0) == a * b,
                a <= 0xffff_ffff_ffff_ffff_ffff_ffff_ffff_ffffu128,
                b <= 0xffff_ffff_ffff_ffff_ffff_ffff_ffff_ffffu128,
                d0 >= 0 && d1 >= 0 && d2 >= 0 && s3 >= 0,
                B64 == 0x1_0000_0000_0000_0000,
        {
        }
        assert(s3 * B64 + d2 <= (B64 - 1) * B64 + (B64 - 1)) by (nonlinear_arith)
            requires
                s3 <= B64 - 1 && d2 <= B64 - 1,
        {
        }
    }
    let hi = s3 * B64 + d2;
    let lo = d1 * B64 + d0;
    proof {
        assert(hi * 0x1_0000_0000_0000_0000_0000_0000_0000_0000 + lo == a * b)
            by (nonlinear_arith)
            requires
                (s3 * B64 + d2) * (B64 * B64) + (d1 * B64 + d0) == a * b,
                hi == s3 * B64 + d2,
                lo == d1 * B64 + d0,
                B64 == 0x1_0000_0000_0000_0000,
        {
        }
    }
    (hi, lo)
}

/// Whether `(ah, al) <= (bh, bl)` as 256-bit values.
pub(crate) fn le256(ah: u128, al: u128, bh: u128, bl: u128) -> (r: bool)
    ensures
        r <==> val256(ah, al) <= val256(bh, bl),
{
    proof {
        if ah < bh {
            assert(val256(ah, al) <= val256(bh, bl)) by (nonlinear_arith)
                requires
                    ah < bh,
                    al <= 0xffff_ffff_ffff_ffff_ffff_ffff_ffff_ffffu128,
                    bl >= 0,
            {
            }
        }
        if ah > bh {
            assert(val256(ah, al) > val256(bh, bl)) by (nonlinear_arith)
                requires
                    ah > bh,
                    bl <= 0xffff_ffff_ffff_ffff_ffff_ffff_ffff_ffffu128,
                    al >= 0,
            {
            }
        }
    }
    ah < bh || (ah == bh && al <= bl)
}

/// Truncated division of a 256-bit value by a nonzero `u128`, by binary
/// search over the quotient. Returns `None` when the quotient does not fit
/// in 128 bits.
pub(crate) fn div256(n_hi: u128, n_lo: u128, d: u128) -> (r: Option<u128>)
    requires
        d > 0,
    ensures
        match r {
            Some(q) => q == val256(n_hi, n_lo) / (d as int),
            None => val256(n_hi, n_lo) / (d as int)
                > 0xffff_ffff_ffff_ffff_ffff_ffff_ffff_ffffu128,
        },
{
    let ghost n = val256(n_hi, n_lo);
    if n_hi >= d {
        proof {
            assert(n / (d as int) > 0xffff_ffff_ffff_ffff_ffff_ffff_ffff_ffffu128)
                by (nonlinear_arith)
                requires
                    n == val256(n_hi, n_lo),
                    n_hi >= d,
                    d > 0,
                    n_lo >= 0,
            {
                assert(n >= d * 0x1_0000_0000_0000_0000_0000_0000_0000_0000);
            }
        }
        return None;
    }
    let mut q: u128 = 0;
    let mut add: u128 = 0x8000_0000_0000_0000_0000_0000_0000_0000;
    let ghost mut k: nat = 127;
    proof {
        lemma2_to64();
        lemma2_to64_rest();
        lemma_pow2_adds(64, 63);
        assert(add == pow2(127));
        assert(n < (q + 2 * add) * d) by (nonlinear_arith)
            requires
                n == val256(n_hi, n_lo),
                n_hi < d,
                n_lo < 0x1_0000_0000_0000_0000_0000_0000_0000_0000,
                q == 0,
                add == 0x8000_0000_0000_0000_0000_0000_0000_0000u128,
        {
        }
    }
    while add > 0
        invariant
            d > 0,
            n == val256(n_hi, n_lo),
            add > 0 ==> add == pow2(k) && k <= 127,
            q * d <= n,
            add > 0 ==> n < (q + 2 * add) * d,
            add == 0 ==> n < (q + 1) * d,
            q + 2 * add <= 0x1_0000_0000_0000_0000_0000_0000_0000_0000,
        decreases add,
    {
        let cand = q + add;
        let p = mul_u128(cand, d);
        let take = le256(p.0, p.1, n_hi, n_lo);
        let ghost q_old = q;
        if take {
            q = cand;
        }
        if add == 1 {
            proof {
                if take {
                    assert(n < (q_old + 2) * d ==> n < (q + 1) * d) by (nonlinear_arith)
                        requires
                            q == q_old + 1,
                    {
                    }
                } else {
                    assert(!(cand * d <= n) ==> n < (q + 1) * d) by (nonlinear_arith)
                        requires
                            cand == q + 1,
                    {
                    }
                }
            }
            add = 0;
        } else {
            proof {
                lemma2_to64();
                assert(k > 0) by {
                    if k == 0 {
                        assert(add == pow2(0));
                    }
                }
                lemma_pow2_adds(1, (k - 1) as nat);
                assert(add == 2 * pow2((k - 1) as nat));
            }
            add = add / 2;
            proof {
                k = (k - 1) as nat;
                assert(add == pow2(k));
                if take {
                    assert(n < (q_old + 2 * (2 * add)) * d ==> n < (q + 2 * add) * d)
                        by (nonlinear_arith)
                        requires
                            q == q_old + 2 * add,
                    {
                    }
                } else {
                    assert(!((q + 2 * add) * d <= n) ==> n < (q + 2 * add) * d);
                }
            }
        }
    }
    proof {
        assert(0 <= n - q * d < d) by (nonlinear_arith)
            requires
                q * d <= n,
                n < (q + 1) * d,
        {
        }
        lemma_fundamental_div_mod_converse(n, d as int, q as int, n - q * d);
    }
    Some(q)
}

} // verus!
