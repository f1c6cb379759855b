//! Exact construction of 64-bit IEEE-754 bit patterns from rationals.
//!
//! Coercion widens an `Int` cell to a `Float` cell and reads `Float` cells
//! from decimal text.  Both reduce to one question: the bit pattern of the
//! binary64 value nearest to `num / den` (ties to even) for integer `num`
//! and `den`.  With `1 <= num <= u64::MAX` and `den` a power of ten up to
//! `10^19`, that value is always a normal number, so the pattern can be
//! computed exactly with integer arithmetic alone: normalize the ratio into
//! `[1, 2)` by powers of two, extract 52 fraction bits by long division, and
//! round on the remainder.  No floating-point operation is involved.

use vstd::arithmetic::power2::*;
use vstd::prelude::*;

verus! {

broadcast use lemma_pow2_pos;

/// Doubles `n` until it reaches `d`: the scaled value and the number of
/// doublings.
pub open spec fn scale_up(n: int, d: int) -> (int, int)
    decreases 2 * d - n
        when 1 <= n && 1 <= d
{
    if n < d {
        let (m, k) = scale_up(2 * n, d);
        (m, k + 1)
    } else {
        (n, 0)
    }
}

/// Doubles `d` until `n` is below `2 * d`: the scaled divisor and the number
/// of doublings.
pub open spec fn scale_down(n: int, d: int) -> (int, int)
    decreases n - d
        when 1 <= d <= n
{
    if n >= 2 * d {
        let (m, k) = scale_down(n, 2 * d);
        (m, k + 1)
    } else {
        (d, 0)
    }
}

/// Appends to `acc` the next `k` binary fraction digits of `r / d`, returning
/// the widened accumulator and the final remainder.
pub open spec fn bits_step(acc: int, r: int, d: int, k: nat) -> (int, int)
    decreases k,
{
    if k == 0 {
        (acc, r)
    } else {
        let r2 = 2 * r;
        if r2 >= d {
            bits_step(2 * acc + 1, r2 - d, d, (k - 1) as nat)
        } else {
            bits_step(2 * acc, r2, d, (k - 1) as nat)
        }
    }
}

/// What `scale_up` does: it multiplies `n` by the least power of two that
/// reaches `d`.
pub proof fn lemma_scale_up(n: int, d: int)
    requires
        1 <= n,
        1 <= d,
    ensures
        0 <= scale_up(n, d).1,
        scale_up(n, d).0 == n * pow2(scale_up(n, d).1 as nat),
        d <= scale_up(n, d).0,
        n < d ==> scale_up(n, d).0 < 2 * d,
        d <= n ==> scale_up(n, d) == (n, 0int),
    decreases 2 * d - n,
{
    if n < d {
        lemma_scale_up(2 * n, d);
        let (m, k) = scale_up(2 * n, d);
        lemma_pow2_unfold((k + 1) as nat);
        assert(m == (2 * n) * pow2(k as nat));
        assert(n * (2 * pow2(k as nat)) == (2 * n) * pow2(k as nat)) by (nonlinear_arith);
        if 2 * n < d {
        } else {
            assert(m == 2 * n < 2 * d);
        }
        let mk = scale_up(n, d);
        assert(mk == (m, k + 1));
        assert(0 <= k + 1);
        assert(pow2(((k + 1) as nat)) == 2 * pow2(((((k + 1) as nat) - 1)) as nat));
        assert(pow2((((k + 1) as nat) - 1) as nat) == pow2(k as nat));
        assert(mk.0 == n * pow2((k + 1) as nat));
        assert(d <= mk.0);
        assert(n < d ==> mk.0 < 2 * d);
    } else {
        assert(pow2(0) == 1) by {
            lemma2_to64();
        }
        let mk = scale_up(n, d);
        assert(mk == (n, 0int));
        assert(mk.0 == n * pow2(0));
        assert(d <= mk.0);
    }
}

/// What `scale_down` does: it multiplies `d` by the greatest power of two
/// that stays at or below `n`.
pub proof fn lemma_scale_down(n: int, d: int)
    requires
        1 <= d <= n,
    ensures
        0 <= scale_down(n, d).1,
        scale_down(n, d).0 == d * pow2(scale_down(n, d).1 as nat),
        scale_down(n, d).0 <= n < 2 * scale_down(n, d).0,
    decreases n - d,
{
    if n >= 2 * d {
        lemma_scale_down(n, 2 * d);
        let (m, k) = scale_down(n, 2 * d);
        lemma_pow2_unfold((k + 1) as nat);
        assert(m == (2 * d) * pow2(k as nat));
        assert(d * (2 * pow2(k as nat)) == (2 * d) * pow2(k as nat)) by (nonlinear_arith);
        let mk = scale_down(n, d);
        assert(mk == (m, k + 1));
        assert(mk.0 == d * pow2((k + 1) as nat));
        assert(mk.0 <= n < 2 * mk.0);
    } else {
        assert(pow2(0) == 1) by {
            lemma2_to64();
        }
        let mk = scale_down(n, d);
        assert(mk == (d, 0int));
        assert(mk.0 == d * pow2(0));
        assert(mk.0 <= n < 2 * mk.0);
    }
}

/// What `bits_step` does to the sizes: the accumulator gains exactly `k`
/// bits and the remainder stays below the divisor.
pub proof fn lemma_bits_step(acc: int, r: int, d: int, k: nat)
    requires
        0 <= acc,
        0 <= r < d,
    ensures
        acc * pow2(k) <= bits_step(acc, r, d, k).0 < (acc + 1) * pow2(k),
        0 <= bits_step(acc, r, d, k).1 < d,
    decreases k,
{
    if k == 0 {
        assert(pow2(0) == 1) by {
            lemma2_to64();
        }
    } else {
        let r2 = 2 * r;
        let km1 = (k - 1) as nat;
        lemma_pow2_unfold(k);
        if r2 >= d {
            lemma_bits_step(2 * acc + 1, r2 - d, d, km1);
            let (a2, rr) = bits_step(2 * acc + 1, r2 - d, d, km1);
            assert((2 * acc + 1) * pow2(km1) <= a2 < (2 * acc + 2) * pow2(km1));
            assert(acc * (2 * pow2(km1)) <= (2 * acc + 1) * pow2(km1)) by (nonlinear_arith)
                requires
                    0 <= acc && 0 < pow2(km1),
            ;
            assert((2 * acc + 2) * pow2(km1) == (acc + 1) * (2 * pow2(km1))) by (nonlinear_arith);
        } else {
            lemma_bits_step(2 * acc, r2, d, km1);
            let (a2, rr) = bits_step(2 * acc, r2, d, km1);
            assert((2 * acc) * pow2(km1) <= a2 < (2 * acc + 1) * pow2(km1));
            assert((2 * acc) * pow2(km1) == acc * (2 * pow2(km1))) by (nonlinear_arith);
            assert((2 * acc + 1) * pow2(km1) <= (acc + 1) * (2 * pow2(km1))) by (nonlinear_arith)
                requires
                    0 <= acc && 0 < pow2(km1),
            ;
        }
    }
}

/// The IEEE-754 binary64 bit pattern nearest to `num / den` (ties to even),
/// negated when `neg` holds.  Meaningful for `1 <= num` and `1 <= den` with
/// the ratio inside the normal range, which holds for every use in this
/// crate: `num` fits in 64 bits and `den` is a power of ten up to `10^19`.
pub open spec fn ratio_to_bits(neg: bool, num: int, den: int) -> u64 {
    let (n1, k1) = scale_up(num, den);
    let (d1, k2) = scale_down(n1, den);
    let e = k2 - k1;
    let (frac, rem) = bits_step(0, n1 - d1, d1, 52);
    let m0 = 0x10_0000_0000_0000 + frac;
    let m1 = if 2 * rem > d1 || (2 * rem == d1 && m0 % 2 == 1) {
        m0 + 1
    } else {
        m0
    };
    let m = if m1 == 0x20_0000_0000_0000 {
        0x10_0000_0000_0000int
    } else {
        m1
    };
    let e2 = if m1 == 0x20_0000_0000_0000 {
        e + 1
    } else {
        e
    };
    let sign: int = if neg {
        0x8000_0000_0000_0000
    } else {
        0
    };
    (sign + (e2 + 1023) * 0x10_0000_0000_0000 + (m - 0x10_0000_0000_0000)) as u64
}

/// The bit pattern of the binary64 value nearest to `i`.
pub open spec fn spec_int_float_bits(i: i64) -> u64 {
    if i == 0 {
        0
    } else if i > 0 {
        ratio_to_bits(false, i as int, 1)
    } else {
        ratio_to_bits(true, -(i as int), 1)
    }
}

fn scale_up_x(n: u128, d: u128) -> (r: (u128, u32))
    requires
        1 <= n <= 0x1_FFFF_FFFF_FFFF_FFFF,
        1 <= d <= 0xFFFF_FFFF_FFFF_FFFF,
    ensures
        (r.0 as int, r.1 as int) == scale_up(n as int, d as int),
        r.1 <= 64,
    decreases 2 * d - n,
{
    if n < d {
        let (m, k) = scale_up_x(2 * n, d);
        proof {
            lemma_scale_up(2 * n as int, d as int);
            lemma_scale_up(n as int, d as int);
            // m == n * pow2(k + 1) and m < 2 * d <= 2^65 - 2, so k + 1 <= 64.
            let kk = (k + 1) as nat;
            assert(pow2(kk) <= (n as int) * pow2(kk)) by (nonlinear_arith)
                requires
                    1 <= n && 0 < pow2(kk),
            ;
            if kk > 64 {
                lemma2_to64();
                lemma2_to64_rest();
                lemma_pow2_unfold(65);
                assert(pow2(65) == 0x2_0000_0000_0000_0000nat);
                if kk > 65 {
                    lemma_pow2_strictly_increases(65, kk);
                }
                assert(false);
            }
        }
        (m, k + 1)
    } else {
        (n, 0)
    }
}

fn scale_down_x(n: u128, d: u128) -> (r: (u128, u32))
    requires
        1 <= d <= n,
        n <= 0x3_FFFF_FFFF_FFFF_FFFF,
    ensures
        (r.0 as int, r.1 as int) == scale_down(n as int, d as int),
        r.1 <= 65,
    decreases n - d,
{
    if n >= 2 * d {
        let (m, k) = scale_down_x(n, 2 * d);
        proof {
            lemma_scale_down(n as int, 2 * d as int);
            lemma_scale_down(n as int, d as int);
            let kk = (k + 1) as nat;
            assert(pow2(kk) <= (d as int) * pow2(kk)) by (nonlinear_arith)
                requires
                    1 <= d && 0 < pow2(kk),
            ;
            if kk > 65 {
                lemma2_to64();
                lemma2_to64_rest();
                lemma_pow2_unfold(65);
                lemma_pow2_unfold(66);
                assert(pow2(66) == 0x4_0000_0000_0000_0000nat);
                if kk > 66 {
                    lemma_pow2_strictly_increases(66, kk);
                }
                assert(false);
            }
        }
        (m, k + 1)
    } else {
        (d, 0)
    }
}

fn bits_step_x(acc: u128, r: u128, d: u128, k: u32) -> (res: (u128, u128))
    requires
        r < d,
        d <= 0x3_FFFF_FFFF_FFFF_FFFF,
        k <= 52,
        (acc as int) < pow2((52 - k) as nat),
    ensures
        (res.0 as int, res.1 as int) == bits_step(acc as int, r as int, d as int, k as nat),
        res.0 < 0x10_0000_0000_0000,
        res.1 < d,
    decreases k,
{
    proof {
        lemma2_to64();
        lemma2_to64_rest();
        if k > 0 {
            lemma_pow2_strictly_increases((52 - k) as nat, 52);
        }
        assert(acc < 0x10_0000_0000_0000);
        lemma_bits_step(acc as int, r as int, d as int, k as nat);
        lemma_pow2_adds((52 - k) as nat, k as nat);
        assert((acc as int + 1) * pow2(k as nat) <= pow2((52 - k) as nat) * pow2(k as nat))
            by (nonlinear_arith)
            requires
                acc as int + 1 <= pow2((52 - k) as nat) && 0 < pow2(k as nat),
        ;
    }
    if k == 0 {
        (acc, r)
    } else {
        proof {
            lemma_pow2_unfold((52 - (k - 1)) as nat);
        }
        let r2 = 2 * r;
        if r2 >= d {
            bits_step_x(2 * acc + 1, r2 - d, d, k - 1)
        } else {
            bits_step_x(2 * acc, r2, d, k - 1)
        }
    }
}

/// The IEEE-754 binary64 bit pattern nearest to `num / den` (ties to even),
/// negated when `neg` holds.
pub fn ratio_bits(neg: bool, num: u64, den: u64) -> (bits: u64)
    requires
        1 <= num,
        1 <= den,
    ensures
        bits == ratio_to_bits(neg, num as int, den as int),
{
    let (n1, k1) = scale_up_x(num as u128, den as u128);
    proof {
        lemma_scale_up(num as int, den as int);
    }
    let (d1, k2) = scale_down_x(n1, den as u128);
    proof {
        lemma_scale_down(n1 as int, den as int);
    }
    let (frac, rem) = bits_step_x(0, n1 - d1, d1, 52);
    proof {
        lemma_bits_step(0, n1 as int - d1 as int, d1 as int, 52);
    }
    let m0: u64 = 0x10_0000_0000_0000u64 + (frac as u64);
    let m1: u64 = if 2 * rem > d1 || (2 * rem == d1 && m0 % 2 == 1) {
        m0 + 1
    } else {
        m0
    };
    let (m, e2): (u64, i64) = if m1 == 0x20_0000_0000_0000 {
        (0x10_0000_0000_0000u64, (k2 as i64) - (k1 as i64) + 1)
    } else {
        (m1, (k2 as i64) - (k1 as i64))
    };
    let sign: u64 = if neg {
        0x8000_0000_0000_0000
    } else {
        0
    };
    sign + (((e2 + 1023) as u64) * 0x10_0000_0000_0000) + (m - 0x10_0000_0000_0000)
}

/// The bit pattern of the binary64 value nearest to `i`.
pub fn int_to_float_bits(i: i64) -> (bits: u64)
    ensures
        bits == spec_int_float_bits(i),
{
    if i == 0 {
        0
    } else if i > 0 {
        ratio_bits(false, i as u64, 1)
    } else {
        let mag: u64 = (-(i as i128)) as u64;
        ratio_bits(true, mag, 1)
    }
}


/// The infinity of the given sign.
pub open spec fn inf_bits(neg: bool) -> u64 {
    if neg {
        0xFFF0_0000_0000_0000u64
    } else {
        0x7FF0_0000_0000_0000u64
    }
}

/// The zero of the given sign.
pub open spec fn zero_bits(neg: bool) -> u64 {
    if neg {
        0x8000_0000_0000_0000u64
    } else {
        0u64
    }
}

/// The IEEE-754 binary64 bit pattern nearest to `num / den` (ties to even),
/// negated when `neg` holds, for operands of any size: overflow gives the
/// infinity, and ratios below the normal range round into the subnormals or
/// to zero.
#[verifier::opaque]
pub open spec fn ratio_to_bits_wide(neg: bool, num: int, den: int) -> u64 {
    let (n1, k1) = scale_up(num, den);
    let (d1, k2) = scale_down(n1, den);
    let e = k2 - k1;
    let sign: int = if neg {
        0x8000_0000_0000_0000
    } else {
        0
    };
    if e >= -1022 {
        let (frac, rem) = bits_step(0, n1 - d1, d1, 52);
        let m0 = 0x10_0000_0000_0000 + frac;
        let m1 = if 2 * rem > d1 || (2 * rem == d1 && m0 % 2 == 1) {
            m0 + 1
        } else {
            m0
        };
        let m = if m1 == 0x20_0000_0000_0000 {
            0x10_0000_0000_0000int
        } else {
            m1
        };
        let e2 = if m1 == 0x20_0000_0000_0000 {
            e + 1
        } else {
            e
        };
        if e2 > 1023 {
            inf_bits(neg)
        } else {
            (sign + (e2 + 1023) * 0x10_0000_0000_0000 + (m - 0x10_0000_0000_0000)) as u64
        }
    } else {
        let k = e + 1074;
        if k < -1 {
            zero_bits(neg)
        } else if k == -1 {
            (sign + (if n1 > d1 {
                1int
            } else {
                0int
            })) as u64
        } else {
            let (frac, rem) = bits_step(0, n1 - d1, d1, k as nat);
            let m0 = pow2(k as nat) + frac;
            let m1 = if 2 * rem > d1 || (2 * rem == d1 && m0 % 2 == 1) {
                m0 + 1int
            } else {
                m0 as int
            };
            (sign + m1) as u64
        }
    }
}

/// On operands that fit 64 bits the wide builder agrees with the plain one:
/// such ratios are always normal and never overflow.
pub proof fn lemma_ratio_wide_small(neg: bool, num: int, den: int)
    requires
        1 <= num <= 0xFFFF_FFFF_FFFF_FFFF,
        1 <= den <= 0xFFFF_FFFF_FFFF_FFFF,
    ensures
        ratio_to_bits_wide(neg, num, den) == ratio_to_bits(neg, num, den),
{
    reveal(ratio_to_bits_wide);
    lemma_scale_up(num, den);
    let (n1, k1) = scale_up(num, den);
    lemma_scale_down(n1, den);
    let (d1, k2) = scale_down(n1, den);
    lemma2_to64();
    lemma_pow2_unfold(65);
    lemma_pow2_unfold(66);
    assert(pow2(65) == 0x2_0000_0000_0000_0000nat);
    assert(pow2(66) == 0x4_0000_0000_0000_0000nat);
    assert(pow2(k1 as nat) <= num * pow2(k1 as nat)) by (nonlinear_arith)
        requires
            1 <= num && 0 < pow2(k1 as nat),
    ;
    assert(k1 <= 65) by {
        if k1 > 65 {
            lemma_pow2_strictly_increases(65, k1 as nat);
        }
    }
    assert(pow2(k2 as nat) <= den * pow2(k2 as nat)) by (nonlinear_arith)
        requires
            1 <= den && 0 < pow2(k2 as nat),
    ;
    assert(n1 < 0x4_0000_0000_0000_0000) by {
        if num < den {
        } else {
        }
    }
    assert(k2 <= 66) by {
        if k2 > 66 {
            lemma_pow2_strictly_increases(66, k2 as nat);
        }
    }
    let e = k2 - k1;
    assert(-65 <= e <= 66);
}


/// Two to the `k`, for exponents fitting a `u64`.
fn pow2_u64(k: u32) -> (r: u64)
    requires
        k <= 63,
    ensures
        r as nat == pow2(k as nat),
        r >= 1,
    decreases k,
{
    if k == 0 {
        proof {
            lemma2_to64();
        }
        1
    } else {
        let h = pow2_u64(k - 1);
        proof {
            lemma_pow2_unfold(k as nat);
            lemma2_to64();
            lemma2_to64_rest();
            if k < 63 {
                lemma_pow2_strictly_increases(k as nat, 63);
            }
        }
        2 * h
    }
}

/// Doubles `n` until it reaches `d`, on limb vectors.
fn scale_up_big(n: Vec<u32>, d: &Vec<u32>) -> (r: (Vec<u32>, u64))
    requires
        1 <= crate::bignat::big_val(n@),
        1 <= crate::bignat::big_val(d@),
        d@.len() <= 0x100_0000,
    ensures
        crate::bignat::big_val(r.0@) as int == scale_up(
            crate::bignat::big_val(n@) as int,
            crate::bignat::big_val(d@) as int,
        ).0,
        r.1 as int == scale_up(
            crate::bignat::big_val(n@) as int,
            crate::bignat::big_val(d@) as int,
        ).1,
        r.0@.len() <= n@.len() + r.1,
        r.1 <= 32 * d@.len() + 2,
    decreases 2 * crate::bignat::big_val(d@) - crate::bignat::big_val(n@),
{
    let ghost nv = crate::bignat::big_val(n@) as int;
    let ghost dv = crate::bignat::big_val(d@) as int;
    if crate::bignat::cmp_at(&n, d, 0) == -1 {
        let n2 = crate::bignat::scale_add(&n, 0, 2, 0);
        let (m, k) = scale_up_big(n2, d);
        proof {
            lemma_scale_up(2 * nv, dv);
            lemma_scale_up(nv, dv);
            let kk = (k + 1) as nat;
            crate::bignat::lemma_val_at_bound(d@, 0);
            let dbits = (32 * d@.len()) as nat;
            lemma_pow2_unfold((dbits + 1) as nat);
            assert(pow2(kk) <= nv * pow2(kk)) by (nonlinear_arith)
                requires
                    1 <= nv && 0 < pow2(kk),
            ;
            assert(nv * pow2(kk) < 2 * dv);
            assert(2 * dv < pow2(dbits + 1));
            assert(kk <= dbits + 1) by {
                if kk > dbits + 1 {
                    lemma_pow2_strictly_increases(dbits + 1, kk);
                }
            }
        }
        (m, k + 1)
    } else {
        (n, 0)
    }
}

/// Doubles `d` until `n` is below `2 * d`, on limb vectors.
fn scale_down_big(n: &Vec<u32>, d: Vec<u32>) -> (r: (Vec<u32>, u64))
    requires
        1 <= crate::bignat::big_val(d@) <= crate::bignat::big_val(n@),
        n@.len() <= 0x4000_0000,
    ensures
        crate::bignat::big_val(r.0@) as int == scale_down(
            crate::bignat::big_val(n@) as int,
            crate::bignat::big_val(d@) as int,
        ).0,
        r.1 as int == scale_down(
            crate::bignat::big_val(n@) as int,
            crate::bignat::big_val(d@) as int,
        ).1,
        r.1 <= 32 * n@.len() + 2,
    decreases crate::bignat::big_val(n@) - crate::bignat::big_val(d@),
{
    let ghost nv = crate::bignat::big_val(n@) as int;
    let ghost dv = crate::bignat::big_val(d@) as int;
    let d2 = crate::bignat::scale_add(&d, 0, 2, 0);
    if crate::bignat::cmp_at(n, &d2, 0) >= 0 {
        let (m, k) = scale_down_big(n, d2);
        proof {
            lemma_scale_down(nv, 2 * dv);
            lemma_scale_down(nv, dv);
            let kk = (k + 1) as nat;
            crate::bignat::lemma_val_at_bound(n@, 0);
            let nbits = (32 * n@.len()) as nat;
            assert(pow2(kk) <= dv * pow2(kk)) by (nonlinear_arith)
                requires
                    1 <= dv && 0 < pow2(kk),
            ;
            assert(dv * pow2(kk) <= nv);
            assert(nv < pow2(nbits));
            assert(kk <= nbits) by {
                if kk > nbits {
                    lemma_pow2_strictly_increases(nbits, kk);
                }
            }
        }
        (m, k + 1)
    } else {
        (d, 0)
    }
}

/// Appends `k` binary fraction digits of `r / d` to `acc`, on limb vectors.
fn bits_step_big(acc: u64, r: Vec<u32>, d: &Vec<u32>, k: u32) -> (res: (u64, Vec<u32>))
    requires
        crate::bignat::big_val(r@) < crate::bignat::big_val(d@),
        k <= 52,
        (acc as int) < pow2((52 - k) as nat),
    ensures
        res.0 as int == bits_step(
            acc as int,
            crate::bignat::big_val(r@) as int,
            crate::bignat::big_val(d@) as int,
            k as nat,
        ).0,
        crate::bignat::big_val(res.1@) as int == bits_step(
            acc as int,
            crate::bignat::big_val(r@) as int,
            crate::bignat::big_val(d@) as int,
            k as nat,
        ).1,
        res.0 < 0x10_0000_0000_0000,
        crate::bignat::big_val(res.1@) < crate::bignat::big_val(d@),
    decreases k,
{
    proof {
        lemma2_to64();
        lemma2_to64_rest();
        if k > 0 {
            lemma_pow2_strictly_increases((52 - k) as nat, 52);
        }
        assert(acc < 0x10_0000_0000_0000);
        lemma_bits_step(
            acc as int,
            crate::bignat::big_val(r@) as int,
            crate::bignat::big_val(d@) as int,
            k as nat,
        );
        lemma_pow2_adds((52 - k) as nat, k as nat);
        assert((acc as int + 1) * pow2(k as nat) <= pow2((52 - k) as nat) * pow2(k as nat))
            by (nonlinear_arith)
            requires
                acc as int + 1 <= pow2((52 - k) as nat) && 0 < pow2(k as nat),
        ;
    }
    if k == 0 {
        (acc, r)
    } else {
        proof {
            lemma_pow2_unfold((52 - (k - 1)) as nat);
        }
        let r2 = crate::bignat::scale_add(&r, 0, 2, 0);
        if crate::bignat::cmp_at(&r2, d, 0) >= 0 {
            let rr = crate::bignat::sub_at(&r2, d, 0, 0);
            bits_step_big(2 * acc + 1, rr, d, k - 1)
        } else {
            bits_step_big(2 * acc, r2, d, k - 1)
        }
    }
}


/// The IEEE-754 binary64 bit pattern nearest to `num / den` (ties to even),
/// negated when `neg` holds, on limb vectors of any size.
pub fn ratio_bits_wide(neg: bool, num: Vec<u32>, den: Vec<u32>) -> (bits: u64)
    requires
        1 <= crate::bignat::big_val(num@),
        1 <= crate::bignat::big_val(den@),
        num@.len() <= 0x100_0000,
        den@.len() <= 0x100_0000,
    ensures
        bits == ratio_to_bits_wide(
            neg,
            crate::bignat::big_val(num@) as int,
            crate::bignat::big_val(den@) as int,
        ),
{
    proof {
        reveal(ratio_to_bits_wide);
    }
    let ghost numv = crate::bignat::big_val(num@) as int;
    let ghost denv = crate::bignat::big_val(den@) as int;
    let (n1, k1) = scale_up_big(num, &den);
    proof {
        lemma_scale_up(numv, denv);
    }
    let (d1, k2) = scale_down_big(&n1, den);
    proof {
        lemma_scale_down(crate::bignat::big_val(n1@) as int, denv);
    }
    let ghost n1v = crate::bignat::big_val(n1@) as int;
    let ghost d1v = crate::bignat::big_val(d1@) as int;
    let e: i64 = k2 as i64 - k1 as i64;
    let sign: u64 = if neg {
        0x8000_0000_0000_0000
    } else {
        0
    };
    if e >= -1022 {
        let rinit = crate::bignat::sub_at(&n1, &d1, 0, 0);
        let (frac, rem) = bits_step_big(0, rinit, &d1, 52);
        proof {
            lemma_bits_step(0, n1v - d1v, d1v, 52);
        }
        let m0: u64 = 0x10_0000_0000_0000u64 + frac;
        let r2 = crate::bignat::scale_add(&rem, 0, 2, 0);
        let cr = crate::bignat::cmp_at(&r2, &d1, 0);
        let ghost remv = crate::bignat::big_val(rem@) as int;
        proof {
            if 2 * remv > d1v {
                assert(cr == 1);
            } else if 2 * remv == d1v {
                assert(cr == 0);
            } else {
                assert(cr == -1);
            }
        }
        let m1: u64 = if cr == 1 || (cr == 0 && m0 % 2 == 1) {
            m0 + 1
        } else {
            m0
        };
        if m1 == 0x20_0000_0000_0000 {
            if e + 1 > 1023 {
                sign + 0x7FF0_0000_0000_0000
            } else {
                sign + (((e + 1 + 1023) as u64) * 0x10_0000_0000_0000)
            }
        } else {
            if e > 1023 {
                sign + 0x7FF0_0000_0000_0000
            } else {
                sign + (((e + 1023) as u64) * 0x10_0000_0000_0000) + (m1 - 0x10_0000_0000_0000)
            }
        }
    } else {
        let k = e + 1074;
        if k < -1 {
            sign
        } else if k == -1 {
            let c = crate::bignat::cmp_at(&n1, &d1, 0);
            proof {
                if n1v > d1v {
                    assert(c == 1);
                } else {
                    assert(n1v == d1v);
                    assert(c != 1);
                }
            }
            sign + (if c == 1 {
                1u64
            } else {
                0u64
            })
        } else {
            let rinit = crate::bignat::sub_at(&n1, &d1, 0, 0);
            let (frac, rem) = bits_step_big(0, rinit, &d1, k as u32);
            proof {
                lemma_bits_step(0, n1v - d1v, d1v, k as nat);
                lemma2_to64();
                lemma2_to64_rest();
                assert(pow2(k as nat) <= pow2(51)) by {
                    if (k as nat) < 51 {
                        lemma_pow2_strictly_increases(k as nat, 51);
                    }
                }
                assert((0 + 1) * pow2(k as nat) == pow2(k as nat)) by (nonlinear_arith);
            }
            let m0: u64 = pow2_u64(k as u32) + frac;
            let r2 = crate::bignat::scale_add(&rem, 0, 2, 0);
            let cr = crate::bignat::cmp_at(&r2, &d1, 0);
            let ghost remv = crate::bignat::big_val(rem@) as int;
            proof {
                if 2 * remv > d1v {
                    assert(cr == 1);
                } else if 2 * remv == d1v {
                    assert(cr == 0);
                } else {
                    assert(cr == -1);
                }
            }
            let m1: u64 = if cr == 1 || (cr == 0 && m0 % 2 == 1) {
                m0 + 1
            } else {
                m0
            };
            sign + m1
        }
    }
}

} // verus!
