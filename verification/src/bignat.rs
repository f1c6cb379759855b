//! Unbounded naturals, for exact decimal-to-binary conversion.
//!
//! A number is a little-endian vector of 32-bit limbs.  Reading a float from
//! decimal text needs exact arithmetic on values far beyond 128 bits — a
//! significand times a power of ten reaches thousands of bits — so the
//! conversion works on these vectors with the handful of operations it
//! needs: scale-and-add (which covers doubling, times-ten and appending a
//! digit), comparison, and subtraction.

use vstd::arithmetic::power2::*;
use vstd::prelude::*;

verus! {

/// The value of the limbs from position `i` on, little-endian base `2^32`.
pub open spec fn val_at(s: Seq<u32>, i: int) -> nat
    decreases s.len() - i
        when i >= 0
{
    if i >= s.len() {
        0
    } else {
        (s[i] + 0x1_0000_0000 * val_at(s, i + 1)) as nat
    }
}

/// The value of a whole limb vector.
pub open spec fn big_val(s: Seq<u32>) -> nat {
    val_at(s, 0)
}

/// A limb vector's value is below `2^(32 * limbs)`.
pub proof fn lemma_val_at_bound(s: Seq<u32>, i: int)
    requires
        0 <= i <= s.len(),
    ensures
        val_at(s, i) < pow2((32 * (s.len() - i)) as nat),
    decreases s.len() - i,
{
    if i >= s.len() {
        lemma2_to64();
    } else {
        lemma_val_at_bound(s, i + 1);
        lemma_pow2_adds(32, (32 * (s.len() - i - 1)) as nat);
        lemma2_to64();
        let rest = val_at(s, i + 1);
        let cap = pow2((32 * (s.len() - i - 1)) as nat);
        assert(0x1_0000_0000 * rest + 0x1_0000_0000 <= 0x1_0000_0000 * cap)
            by (nonlinear_arith)
            requires
                rest + 1 <= cap,
        ;
    }
}

/// `mul` times the value from position `i` on, plus `carry`.
pub fn scale_add(v: &Vec<u32>, i: usize, mul: u32, carry: u32) -> (r: Vec<u32>)
    requires
        i <= v@.len(),
    ensures
        big_val(r@) == mul * val_at(v@, i as int) + carry,
        r@.len() <= v@.len() - i + 1,
    decreases v@.len() - i,
{
    if i == v.len() {
        let mut r: Vec<u32> = Vec::new();
        if carry > 0 {
            r.push(carry);
        }
        proof {
            if carry > 0 {
                assert(val_at(r@, 1) == 0);
            }
            assert(mul * val_at(v@, i as int) == 0) by (nonlinear_arith)
                requires
                    val_at(v@, i as int) == 0,
            ;
        }
        r
    } else {
        proof {
            assert((v@[i as int] as int) * (mul as int) + (carry as int) <= 0xFFFF_FFFF
                * 0xFFFF_FFFF + 0xFFFF_FFFF) by (nonlinear_arith)
                requires
                    v@[i as int] <= 0xFFFF_FFFFu32 && mul <= 0xFFFF_FFFFu32 && carry
                        <= 0xFFFF_FFFFu32,
            ;
        }
        let t: u64 = (v[i] as u64) * (mul as u64) + (carry as u64);
        let lo: u32 = (t & 0xFFFF_FFFF) as u32;
        let hi: u32 = (t >> 32) as u32;
        proof {
            assert(t == (t >> 32) * 0x1_0000_0000 + (t & 0xFFFF_FFFF)) by (bit_vector);
            assert(t & 0xFFFF_FFFF < 0x1_0000_0000) by (bit_vector);
            assert(t >> 32 < 0x1_0000_0000) by (bit_vector);
            assert(lo + 0x1_0000_0000 * (hi as int) == (v@[i as int] as int) * (mul as int) + (
            carry as int));
        }
        let mut rest = scale_add(v, i + 1, mul, hi);
        let ghost restv = rest@;
        rest.insert(0, lo);
        proof {
            assert(rest@ =~= seq![lo] + restv);
            assert(val_at(rest@, 1) == big_val(restv)) by {
                lemma_val_at_shift(restv, lo);
            }
            let vi = v@[i as int] as int;
            let m = mul as int;
            let c = carry as int;
            let tail = val_at(v@, i as int + 1) as int;
            assert(lo + 0x1_0000_0000 * (m * tail + hi) == m * (vi + 0x1_0000_0000 * tail) + c)
                by (nonlinear_arith)
                requires
                    lo + 0x1_0000_0000 * (hi as int) == m * vi + c,
            ;
        }
        rest
    }
}

/// Prepending a limb shifts the positions by one.
pub proof fn lemma_val_at_shift(s: Seq<u32>, x: u32)
    ensures
        forall|i: int| 0 <= i <= s.len() ==> val_at(seq![x] + s, i + 1) == val_at(s, i),
    decreases s.len(),
{
    let t = seq![x] + s;
    assert forall|i: int| 0 <= i <= s.len() implies val_at(t, i + 1) == val_at(s, i) by {
        lemma_val_at_shift_one(s, x, i);
    }
}

/// One position of the shift.
pub proof fn lemma_val_at_shift_one(s: Seq<u32>, x: u32, i: int)
    requires
        0 <= i <= s.len(),
    ensures
        val_at(seq![x] + s, i + 1) == val_at(s, i),
    decreases s.len() - i,
{
    let t = seq![x] + s;
    if i < s.len() {
        assert(t[i + 1] == s[i]);
        lemma_val_at_shift_one(s, x, i + 1);
    }
}

/// The limb at position `i`, zero beyond the end.
fn get_limb(v: &Vec<u32>, i: usize) -> (r: u32)
    ensures
        r as nat == (if (i as int) < v@.len() {
            v@[i as int] as nat
        } else {
            0
        }),
{
    if i < v.len() {
        v[i]
    } else {
        0
    }
}

/// Compares the values from position `i` on: `-1`, `0` or `1` as the first
/// is below, at or above the second.
pub fn cmp_at(a: &Vec<u32>, b: &Vec<u32>, i: usize) -> (r: i8)
    ensures
        r == -1 ==> val_at(a@, i as int) < val_at(b@, i as int),
        r == 0 ==> val_at(a@, i as int) == val_at(b@, i as int),
        r == 1 ==> val_at(a@, i as int) > val_at(b@, i as int),
        r == -1 || r == 0 || r == 1,
    decreases (if a@.len() > b@.len() {
        a@.len()
    } else {
        b@.len()
    }) - i,
{
    if i >= a.len() && i >= b.len() {
        0
    } else {
        let high = cmp_at(a, b, i + 1);
        let av = get_limb(a, i);
        let bv = get_limb(b, i);
        if high != 0 {
            high
        } else if av < bv {
            -1
        } else if av > bv {
            1
        } else {
            0
        }
    }
}

/// The difference of the values from position `i` on, less a borrow.
pub fn sub_at(a: &Vec<u32>, b: &Vec<u32>, i: usize, borrow: u32) -> (r: Vec<u32>)
    requires
        borrow <= 1,
        val_at(a@, i as int) >= val_at(b@, i as int) + borrow,
    ensures
        big_val(r@) == val_at(a@, i as int) - val_at(b@, i as int) - borrow,
        i <= (if a@.len() > b@.len() {
            a@.len()
        } else {
            b@.len()
        }) ==> r@.len() <= (if a@.len() > b@.len() {
            a@.len()
        } else {
            b@.len()
        }) - i,
    decreases (if a@.len() > b@.len() {
        a@.len()
    } else {
        b@.len()
    }) - i,
{
    if i >= a.len() && i >= b.len() {
        Vec::new()
    } else {
        let av = get_limb(a, i);
        let bv = get_limb(b, i);
        let (limb, borrow2): (u32, u32) = if av as u64 >= bv as u64 + borrow as u64 {
            (av - bv - borrow, 0)
        } else {
            (((av as u64 + 0x1_0000_0000) - bv as u64 - borrow as u64) as u32, 1)
        };
        proof {
            let ahi = val_at(a@, i as int + 1) as int;
            let bhi = val_at(b@, i as int + 1) as int;
            if av >= bv + borrow {
                if ahi < bhi {
                    assert(false);
                }
            } else {
                if ahi < bhi + 1 {
                    assert(false);
                }
            }
        }
        let mut rest = sub_at(a, b, i + 1, borrow2);
        let ghost restv = rest@;
        rest.insert(0, limb);
        proof {
            assert(rest@ =~= seq![limb] + restv);
            assert(val_at(rest@, 1) == big_val(restv)) by {
                lemma_val_at_shift(restv, limb);
            }
        }
        rest
    }
}

/// A vector holding one small value.
pub fn big_from_u32(x: u32) -> (r: Vec<u32>)
    ensures
        big_val(r@) == x,
        r@.len() <= 1,
{
    let mut r: Vec<u32> = Vec::new();
    if x > 0 {
        r.push(x);
        proof {
            assert(val_at(r@, 1) == 0);
        }
    }
    r
}

} // verus!
