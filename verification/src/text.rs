//! Textual forms of numbers: the decimal reading used by value coercion.
//!
//! Coercing a `Char` or `String` cell to a numeric type parses the decimal
//! text of the source value.  Floating-point results are produced as IEEE-754
//! bit patterns by exact integer arithmetic (see `float_bits`): the engine
//! itself never computes with floating point.

use vstd::prelude::*;

verus! {


/// Whether two characters are the same, decided on their code points.
pub fn char_eq(a: char, b: char) -> (r: bool)
    ensures
        r == (a == b),
{
    proof {
        vstd::utf8::char_u32_cast(a, a as u32);
        vstd::utf8::char_u32_cast(b, b as u32);
    }
    (a as u32) == (b as u32)
}

/// Whether `c` is a decimal digit.
pub open spec fn is_digit(c: char) -> bool {
    48 <= (c as u32) && (c as u32) <= 57
}

/// The value of a decimal digit.
pub open spec fn digit_val(c: char) -> nat
    recommends
        is_digit(c),
{
    ((c as u32) - 48) as nat
}

/// Whether every character of `s` is a decimal digit.
pub open spec fn all_digits(s: Seq<char>) -> bool {
    forall|i: int| 0 <= i < s.len() ==> is_digit(#[trigger] s[i])
}

/// The number written by a digit sequence, most significant digit first.
pub open spec fn digits_val(s: Seq<char>) -> nat
    decreases s.len(),
{
    if s.len() == 0 {
        0
    } else {
        digits_val(s.drop_last()) * 10 + digit_val(s.last())
    }
}

/// A longer digit prefix never denotes a smaller number.
pub proof fn lemma_digits_val_prefix_le(s: Seq<char>, i: int, j: int)
    requires
        0 <= i <= j <= s.len(),
    ensures
        digits_val(s.subrange(0, i)) <= digits_val(s.subrange(0, j)),
    decreases j - i,
{
    if i < j {
        lemma_digits_val_prefix_le(s, i, j - 1);
        let p = s.subrange(0, j);
        assert(p.drop_last() =~= s.subrange(0, j - 1));
    }
}

/// Extending a digit prefix by one digit multiplies its value by ten and adds
/// the new digit.
pub proof fn lemma_digits_val_step(s: Seq<char>, i: int)
    requires
        0 <= i < s.len(),
    ensures
        digits_val(s.subrange(0, i + 1)) == digits_val(s.subrange(0, i)) * 10 + digit_val(s[i]),
{
    let p = s.subrange(0, i + 1);
    assert(p.drop_last() =~= s.subrange(0, i));
    assert(p.last() == s[i]);
}

/// The digits of a signed decimal string: everything after an optional sign.
pub open spec fn spec_ds(s: Seq<char>) -> Seq<char> {
    if s.len() > 0 && (s[0] == '-' || s[0] == '+') {
        s.subrange(1, s.len() as int)
    } else {
        s
    }
}

/// The number a signed decimal string denotes, when it lies in the range of
/// an `i64`: an optional sign, then at least one digit and nothing else.
pub open spec fn spec_parse_i64(s: Seq<char>) -> Option<i64> {
    let neg = s.len() > 0 && s[0] == '-';
    let ds = spec_ds(s);
    if ds.len() == 0 || !all_digits(ds) {
        None
    } else {
        let v = digits_val(ds) as int;
        if !neg && v <= i64::MAX {
            Some(v as i64)
        } else if neg && v <= 0x8000_0000_0000_0000 {
            Some((-v) as i64)
        } else {
            None
        }
    }
}

/// Reads a signed decimal `i64` from `s`, exactly as `spec_parse_i64` says.
pub fn parse_i64(s: &str) -> (r: Option<i64>)
    ensures
        r == spec_parse_i64(s@),
{
    let n = s.unicode_len();
    let mut start: usize = 0;
    let mut neg = false;
    if n > 0 {
        let c0 = s.get_char(0);
        if char_eq(c0, '-') {
            neg = true;
            start = 1;
        } else if char_eq(c0, '+') {
            start = 1;
        }
    }
    let ghost ds = if start == 1 {
        s@.subrange(1, s@.len() as int)
    } else {
        s@
    };
    if n == start {
        return None;
    }
    let mut acc: i64 = 0;
    let mut i: usize = start;
    while i < n
        invariant
            start <= i <= n,
            start < n,
            n == s@.len(),
            start == 0 || start == 1,
            (start == 1) == (s@.len() > 0 && (s@[0] == '-' || s@[0] == '+')),
            neg == (s@.len() > 0 && s@[0] == '-'),
            ds == s@.subrange(start as int, n as int),
            all_digits(ds.subrange(0, i - start)),
            0 <= -(acc as int) <= 0x8000_0000_0000_0000,
            digits_val(ds.subrange(0, i - start)) == -(acc as int),
        decreases n - i,
    {
        let c = s.get_char(i);
        let u = c as u32;
        if u < 48 || u > 57 {
            proof {
                assert(ds[i - start] == s@[i as int]);
                assert(!is_digit(ds[i - start]));
                assert(!all_digits(ds));
                assert(spec_ds(s@) =~= ds);
            }
            return None;
        }
        let d = (u - 48) as i64;
        proof {
            assert(ds[i - start] == s@[i as int]);
            lemma_digits_val_step(ds, i - start);
        }
        let acc10 = match acc.checked_mul(10) {
            Some(x) => x,
            None => {
                proof {
                    lemma_digits_val_prefix_le(ds, i - start + 1, ds.len() as int);
                    assert(ds.subrange(0, ds.len() as int) =~= ds);
                    assert(digits_val(ds.subrange(0, i - start)) * 10 > 0x8000_0000_0000_0000);
                    assert(digits_val(ds) as int > 0x8000_0000_0000_0000);
                    assert(spec_ds(s@) =~= ds);
                }
                return None;
            }
        };
        acc = match acc10.checked_sub(d) {
            Some(x) => x,
            None => {
                proof {
                    lemma_digits_val_prefix_le(ds, i - start + 1, ds.len() as int);
                    assert(ds.subrange(0, ds.len() as int) =~= ds);
                    assert(digits_val(ds.subrange(0, i - start + 1)) as int > 0x8000_0000_0000_0000);
                    assert(digits_val(ds) as int > 0x8000_0000_0000_0000);
                    assert(spec_ds(s@) =~= ds);
                }
                return None;
            }
        };
        i = i + 1;
    }
    proof {
        assert(ds.subrange(0, ds.len() as int) =~= ds);
    }
    if neg {
        Some(acc)
    } else {
        if acc == i64::MIN {
            None
        } else {
            Some(-acc)
        }
    }
}


/// Ten to the `k`.
pub open spec fn pow10(k: nat) -> nat
    decreases k,
{
    if k == 0 {
        1
    } else {
        10 * pow10((k - 1) as nat)
    }
}

/// The index of the first decimal point of `t`, or `t.len()` when there is
/// none.
pub open spec fn first_dot(t: Seq<char>) -> int
    decreases t.len(),
{
    if t.len() == 0 {
        0
    } else if t[0] == '.' {
        0
    } else {
        1 + first_dot(t.subrange(1, t.len() as int))
    }
}

/// `first_dot` is pinned down by its two properties: nothing before it is a
/// decimal point, and it is one itself unless it is the end.
pub proof fn lemma_first_dot_char(t: Seq<char>, j: int)
    requires
        0 <= j <= t.len(),
        forall|i: int| 0 <= i < j ==> t[i] != '.',
        j < t.len() ==> t[j] == '.',
    ensures
        first_dot(t) == j,
    decreases t.len(),
{
    if t.len() == 0 {
    } else if t[0] == '.' {
    } else {
        let rest = t.subrange(1, t.len() as int);
        assert(forall|i: int| 0 <= i < j - 1 ==> rest[i] == t[i + 1]);
        lemma_first_dot_char(rest, j - 1);
    }
}

/// The code point of `c` with an ASCII capital folded to its small letter.
pub open spec fn lower_u(c: char) -> u32 {
    if 65 <= c as u32 <= 90 {
        (c as u32 + 32) as u32
    } else {
        c as u32
    }
}

/// Whether `t` spells `w` (given in small letters), ignoring ASCII case.
pub open spec fn word_ci(t: Seq<char>, w: Seq<char>) -> bool {
    t.len() == w.len() && (forall|i: int| 0 <= i < t.len() ==> lower_u(#[trigger] t[i]) == w[i] as u32)
}

/// The index of the first exponent marker of `t`, or `t.len()`.
pub open spec fn first_e(t: Seq<char>) -> int
    decreases t.len(),
{
    if t.len() == 0 {
        0
    } else if t[0] == 'e' || t[0] == 'E' {
        0
    } else {
        1 + first_e(t.subrange(1, t.len() as int))
    }
}

/// `first_e` is pinned down by its two properties.
pub proof fn lemma_first_e_char(t: Seq<char>, j: int)
    requires
        0 <= j <= t.len(),
        forall|i: int| 0 <= i < j ==> t[i] != 'e' && t[i] != 'E',
        j < t.len() ==> t[j] == 'e' || t[j] == 'E',
    ensures
        first_e(t) == j,
    decreases t.len(),
{
    if t.len() == 0 {
    } else if t[0] == 'e' || t[0] == 'E' {
    } else {
        let rest = t.subrange(1, t.len() as int);
        assert(forall|i: int| 0 <= i < j - 1 ==> rest[i] == t[i + 1]);
        lemma_first_e_char(rest, j - 1);
    }
}

/// The quiet not-a-number pattern of the given sign.
pub open spec fn nan_bits(neg: bool) -> u64 {
    if neg {
        0xFFF8_0000_0000_0000u64
    } else {
        0x7FF8_0000_0000_0000u64
    }
}

/// The number of decimal digits of `n`.
pub open spec fn digits10(n: nat) -> nat
    decreases n,
{
    if n == 0 {
        0
    } else {
        1 + digits10(n / 10)
    }
}

/// Appending a decimal digit to a number's text.
pub proof fn lemma_digits10_step(v: nat, d: nat)
    requires
        d < 10,
    ensures
        digits10(10 * v + d) == (if 10 * v + d == 0 {
            0nat
        } else {
            1 + digits10(v)
        }),
{
    if 10 * v + d > 0 {
        assert((10 * v + d) / 10 == v) by (nonlinear_arith)
            requires
                d < 10,
        ;
    }
}

/// An exponent's digits, read with saturation far beyond every exponent
/// that can matter: digit strings are capped at ten million places, so any
/// saturated exponent already lands outside the finite range either way.
pub open spec fn exp_sat(exds: Seq<char>) -> int {
    if digits_val(exds) >= 0x1000_0000_0000_0000 {
        0x1000_0000_0000_0000
    } else {
        digits_val(exds) as int
    }
}

/// The bit pattern of a significand `d` scaled by ten to the `net`: zero,
/// the infinity of the sign when the leading digit sits at or above the
/// 310th place, the signed zero when it sits at or below the minus 325th
/// (both beyond every finite double), and the exactly rounded ratio
/// otherwise.
#[verifier::opaque]
pub open spec fn spec_float_from_parts(neg: bool, d: nat, net: int) -> u64 {
    if d == 0 {
        crate::float_bits::zero_bits(neg)
    } else {
        let msd = digits10(d) - 1 + net;
        if msd >= 310 {
            crate::float_bits::inf_bits(neg)
        } else if msd <= -325 {
            crate::float_bits::zero_bits(neg)
        } else if net >= 0 {
            crate::float_bits::ratio_to_bits_wide(neg, (d * pow10(net as nat)) as int, 1)
        } else {
            crate::float_bits::ratio_to_bits_wide(neg, d as int, pow10((-net) as nat) as int)
        }
    }
}

/// The bit pattern a decimal string denotes, as the standard library's
/// `f64` reading does: an optional sign; `inf`, `infinity` or `nan` in any
/// letter case; or digits with at most one decimal point among them and an
/// optional exponent part, correctly rounded to the nearest binary64 value
/// with overflow to the infinity and underflow through the subnormals to
/// zero.  One resource bound is imposed: texts with more than ten million
/// mantissa digits are not read.
/// The bit pattern a plain decimal number denotes: digits with at most one
/// decimal point among them and an optional exponent part, correctly
/// rounded, with the resource bound on the mantissa's digit count.
#[verifier::opaque]
pub open spec fn spec_parse_number(neg: bool, t: Seq<char>) -> Option<u64> {
    let ei = first_e(t);
    let mant = t.subrange(0, ei);
    let di = first_dot(mant);
    let ip = mant.subrange(0, di);
    let fp = if di < mant.len() {
        mant.subrange(di + 1, mant.len() as int)
    } else {
        Seq::<char>::empty()
    };
    let digs = ip + fp;
    if digs.len() == 0 || !all_digits(digs) || digs.len() > 10000000 {
        None
    } else if ei < t.len() {
        let ex = t.subrange(ei + 1, t.len() as int);
        let exneg = ex.len() > 0 && ex[0] == '-';
        let exds = spec_ds(ex);
        if exds.len() == 0 || !all_digits(exds) {
            None
        } else {
            let net = (if exneg {
                -exp_sat(exds)
            } else {
                exp_sat(exds)
            }) - fp.len();
            Some(spec_float_from_parts(neg, digits_val(digs), net))
        }
    } else {
        Some(spec_float_from_parts(neg, digits_val(digs), -(fp.len() as int)))
    }
}

pub open spec fn spec_parse_float_bits(s: Seq<char>) -> Option<u64> {
    let neg = s.len() > 0 && s[0] == '-';
    let t = spec_ds(s);
    if word_ci(t, "inf"@) || word_ci(t, "infinity"@) {
        Some(crate::float_bits::inf_bits(neg))
    } else if word_ci(t, "nan"@) {
        Some(nan_bits(neg))
    } else {
        spec_parse_number(neg, t)
    }
}

/// What a one-character string reads as an integer: its digit value, or
/// nothing at all.
pub proof fn lemma_parse_i64_single(c: char)
    ensures
        spec_parse_i64(seq![c]) == if is_digit(c) {
            Some(digit_val(c) as i64)
        } else {
            None::<i64>
        },
{
    let s = seq![c];
    assert(s[0] == c);
    if c == '-' || c == '+' {
        assert(spec_ds(s) =~= Seq::<char>::empty());
        assert(!is_digit(c));
    } else {
        assert(spec_ds(s) == s);
        if is_digit(c) {
            assert(all_digits(s));
            assert(s.drop_last() =~= Seq::<char>::empty());
            assert(s.last() == c);
            assert(digits_val(Seq::<char>::empty()) == 0);
            assert(digits_val(s) == digit_val(c));
        } else {
            assert(!all_digits(s));
        }
    }
}

/// What a one-character string reads as a floating-point literal: the exact
/// small value of its digit, or nothing at all.
pub proof fn lemma_parse_float_single(c: char)
    ensures
        spec_parse_float_bits(seq![c]) == if c == '0' {
            Some(0u64)
        } else if is_digit(c) {
            Some(crate::float_bits::ratio_to_bits(false, digit_val(c) as int, 1))
        } else {
            None::<u64>
        },
{
    reveal(spec_parse_number);
    reveal(spec_float_from_parts);
    reveal_strlit("inf");
    reveal_strlit("infinity");
    reveal_strlit("nan");
    assert(("inf"@).len() == 3);
    assert(("infinity"@).len() == 8);
    assert(("nan"@).len() == 3);
    let s = seq![c];
    assert(s[0] == c);
    if c == '-' || c == '+' {
        let t = spec_ds(s);
        assert(t =~= Seq::<char>::empty());
        assert(first_e(t) == 0);
        assert(t.subrange(0, 0) =~= Seq::<char>::empty());
        assert(first_dot(t.subrange(0, 0)) == 0);
        assert(t.subrange(0, 0) + Seq::<char>::empty() =~= Seq::<char>::empty());
        assert(!is_digit(c));
    } else {
        let t = spec_ds(s);
        assert(t == s);
        assert(t.len() == 1);
        if c == 'e' || c == 'E' {
            assert(first_e(t) == 0);
            assert(t.subrange(0, 0) =~= Seq::<char>::empty());
            assert(first_dot(t.subrange(0, 0)) == 0);
            assert(t.subrange(0, 0) + Seq::<char>::empty() =~= Seq::<char>::empty());
            // an exponent marker with no mantissa digits reads as nothing
            assert(!is_digit(c)) by {
                vstd::utf8::char_u32_cast(c, c as u32);
                vstd::utf8::char_u32_cast('e', 101);
                vstd::utf8::char_u32_cast('E', 69);
            }
        } else {
            lemma_first_e_char(t, 1);
            let mant = t.subrange(0, 1);
            assert(mant =~= t);
            if c == '.' {
                assert(mant[0] == '.');
                lemma_first_dot_char(mant, 0);
                assert(mant.subrange(0, 0) =~= Seq::<char>::empty());
                assert(mant.subrange(1, 1) =~= Seq::<char>::empty());
                assert(mant.subrange(0, 0) + mant.subrange(1, 1) =~= Seq::<char>::empty());
                assert(!is_digit(c));
            } else {
                lemma_first_dot_char(mant, 1);
                let ip = mant.subrange(0, 1);
                assert(ip =~= s);
                let digs = ip + Seq::<char>::empty();
                assert(digs =~= s);
                if is_digit(c) {
                    assert(all_digits(digs));
                    assert(digs.len() == 1);
                    assert(digs.drop_last() =~= Seq::<char>::empty());
                    assert(digits_val(Seq::<char>::empty()) == 0);
                    assert(digits_val(digs) == digit_val(c));
                    assert(digit_val(c) <= 9);
                    let d = digits_val(digs);
                    vstd::utf8::char_u32_cast(c, c as u32);
                    vstd::utf8::char_u32_cast('0', 48);
                    if c == '0' {
                        assert(d == 0);
                    } else {
                        assert(c as u32 != 48);
                        assert(d >= 1);
                        assert(digits10(0) == 0);
                        assert(digits10(d) == 1) by {
                            assert(d / 10 == 0);
                        }
                        assert(pow10(0) == 1);
                        assert(d * pow10(0) == d) by (nonlinear_arith)
                            requires
                                pow10(0) == 1,
                        ;
                        crate::float_bits::lemma_ratio_wide_small(false, d as int, 1);
                    }
                } else {
                    assert(!all_digits(digs));
                }
            }
        }
    }
}


/// Whether the characters of `s` from `start` on spell `w` (given in small
/// letters), ignoring ASCII case.
fn word_ci_x(s: &str, start: usize, n: usize, w: &str) -> (r: bool)
    requires
        start <= n,
        n == s@.len(),
    ensures
        r == word_ci(s@.subrange(start as int, n as int), w@),
{
    let ghost t = s@.subrange(start as int, n as int);
    let wn = w.unicode_len();
    if n - start != wn {
        return false;
    }
    let mut i: usize = 0;
    while i < wn
        invariant
            0 <= i <= wn,
            start + wn <= n,
            n == s@.len(),
            wn == w@.len(),
            t == s@.subrange(start as int, n as int),
            t.len() == wn,
            forall|k: int| 0 <= k < i ==> lower_u(#[trigger] t[k]) == w@[k] as u32,
        decreases wn - i,
    {
        proof {
            assert(t[i as int] == s@[start + i]);
        }
        let c = s.get_char(start + i);
        let wc = w.get_char(i);
        let u = c as u32;
        let lu = if 65 <= u && u <= 90 {
            u + 32
        } else {
            u
        };
        if lu != wc as u32 {
            proof {
                assert(lower_u(t[i as int]) != w@[i as int] as u32);
            }
            return false;
        }
        i = i + 1;
    }
    true
}

/// Ten to the `k` is positive.
pub proof fn lemma_pow10_pos(k: nat)
    ensures
        pow10(k) >= 1,
    decreases k,
{
    if k > 0 {
        lemma_pow10_pos((k - 1) as nat);
    }
}

/// Reads one run of significand digits from `s[lo..hi)`, which the caller
/// locates at `off` within the digit sequence `digs`, extending the exact
/// accumulated significand, its digit count and its zeroness.
#[verifier::loop_isolation(false)]
fn scan_digit_run(
    s: &str,
    lo: usize,
    hi: usize,
    st: (Vec<u32>, u64, bool),
    digs: Ghost<Seq<char>>,
    off: Ghost<int>,
) -> (r: Option<(Vec<u32>, u64, bool)>)
    requires
        lo <= hi <= s@.len(),
        0 <= off@,
        off@ + (hi - lo) <= digs@.len(),
        digs@.len() <= 10000000,
        forall|i: int| 0 <= i < hi - lo ==> #[trigger] digs@[off@ + i] == s@[lo + i],
        all_digits(digs@.subrange(0, off@)),
        crate::bignat::big_val(st.0@) == digits_val(digs@.subrange(0, off@)),
        st.0@.len() <= off@ + 1,
        st.2 == (digits_val(digs@.subrange(0, off@)) == 0),
        st.1 as nat == digits10(digits_val(digs@.subrange(0, off@))),
        st.1 <= off@,
    ensures
        match r {
            Some(st2) => {
                let pref = digs@.subrange(0, off@ + (hi - lo));
                &&& all_digits(pref)
                &&& crate::bignat::big_val(st2.0@) == digits_val(pref)
                &&& st2.0@.len() <= off@ + (hi - lo) + 1
                &&& st2.2 == (digits_val(pref) == 0)
                &&& st2.1 as nat == digits10(digits_val(pref))
                &&& st2.1 <= off@ + (hi - lo)
            },
            None => !all_digits(digs@),
        },
{
    let (mut dnum, mut sig, mut zero) = st;
    let mut a: usize = lo;
    while a < hi
        invariant
            lo <= a <= hi,
            all_digits(digs@.subrange(0, off@ + (a - lo))),
            crate::bignat::big_val(dnum@) == digits_val(digs@.subrange(0, off@ + (a - lo))),
            dnum@.len() <= off@ + (a - lo) + 1,
            zero == (digits_val(digs@.subrange(0, off@ + (a - lo))) == 0),
            sig as nat == digits10(digits_val(digs@.subrange(0, off@ + (a - lo)))),
            sig <= off@ + (a - lo),
        decreases hi - a,
    {
        let c = s.get_char(a);
        let u = c as u32;
        proof {
            assert(digs@[off@ + (a - lo)] == s@[a as int]);
        }
        if u < 48 || u > 57 {
            proof {
                assert(!is_digit(digs@[off@ + (a - lo)]));
                assert(!all_digits(digs@));
            }
            return None;
        }
        proof {
            lemma_digits_val_step(digs@, off@ + (a - lo));
            lemma_digits10_step(
                digits_val(digs@.subrange(0, off@ + (a - lo))),
                (u - 48) as nat,
            );
        }
        dnum = crate::bignat::scale_add(&dnum, 0, 10, u - 48);
        if u != 48 || !zero {
            zero = false;
            sig = sig + 1;
        }
        a = a + 1;
    }
    Some((dnum, sig, zero))
}

/// The first position in `s[lo..hi)` holding either marker, or `hi`.
#[verifier::loop_isolation(false)]
fn find_either(s: &str, lo: usize, hi: usize, c1: char, c2: char) -> (r: usize)
    requires
        lo <= hi <= s@.len(),
    ensures
        lo <= r <= hi,
        forall|i: int| lo <= i < r ==> s@[i] != c1 && s@[i] != c2,
        r < hi ==> s@[r as int] == c1 || s@[r as int] == c2,
{
    let mut j: usize = lo;
    while j < hi
        invariant
            lo <= j <= hi,
            forall|i: int| lo <= i < j ==> s@[i] != c1 && s@[i] != c2,
        decreases hi - j,
    {
        let c = s.get_char(j);
        if char_eq(c, c1) || char_eq(c, c2) {
            return j;
        }
        j = j + 1;
    }
    hi
}

/// The words the float reading accepts whole: the infinities and the quiet
/// not-a-number, in any letter case.
fn special_word(s: &str, start: usize, n: usize, neg: bool) -> (r: Option<u64>)
    requires
        start <= n,
        n == s@.len(),
    ensures
        ({
            let t = s@.subrange(start as int, n as int);
            match r {
                Some(bits) => (word_ci(t, "inf"@) || word_ci(t, "infinity"@)) && bits
                    == crate::float_bits::inf_bits(neg) || !word_ci(t, "inf"@) && !word_ci(
                    t,
                    "infinity"@,
                ) && word_ci(t, "nan"@) && bits == nan_bits(neg),
                None => !word_ci(t, "inf"@) && !word_ci(t, "infinity"@) && !word_ci(t, "nan"@),
            }
        }),
{
    if word_ci_x(s, start, n, "inf") || word_ci_x(s, start, n, "infinity") {
        Some(
            if neg {
                0xFFF0_0000_0000_0000u64
            } else {
                0x7FF0_0000_0000_0000u64
            },
        )
    } else if word_ci_x(s, start, n, "nan") {
        Some(
            if neg {
                0xFFF8_0000_0000_0000u64
            } else {
                0x7FF8_0000_0000_0000u64
            },
        )
    } else {
        None
    }
}

/// Reads an exponent's digit run, saturated, or reports a stray character.
#[verifier::loop_isolation(false)]
fn scan_exponent(s: &str, exstart: usize, n: usize, exds: Ghost<Seq<char>>) -> (r: Option<u64>)
    requires
        exstart < n,
        n == s@.len(),
        exds@ == s@.subrange(exstart as int, n as int),
    ensures
        match r {
            Some(acc) => all_digits(exds@) && acc as nat == (if digits_val(exds@)
                >= 0x1000_0000_0000_0000 {
                0x1000_0000_0000_0000nat
            } else {
                digits_val(exds@)
            }),
            None => !all_digits(exds@),
        },
{
    let mut acc: u64 = 0;
    let mut x: usize = exstart;
    proof {
        assert(exds@.subrange(0, 0) =~= Seq::<char>::empty());
    }
    while x < n
        invariant
            exstart <= x <= n,
            all_digits(exds@.subrange(0, x - exstart)),
            acc as nat == (if digits_val(exds@.subrange(0, x - exstart)) >= 0x1000_0000_0000_0000 {
                0x1000_0000_0000_0000nat
            } else {
                digits_val(exds@.subrange(0, x - exstart))
            }),
        decreases n - x,
    {
        let c = s.get_char(x);
        let u = c as u32;
        proof {
            assert(exds@[x - exstart] == s@[x as int]);
        }
        if u < 48 || u > 57 {
            proof {
                assert(!all_digits(exds@));
            }
            return None;
        }
        proof {
            lemma_digits_val_step(exds@, x as int - exstart as int);
        }
        if acc < 0x1000_0000_0000_0000 {
            let next = acc * 10 + (u - 48) as u64;
            if next >= 0x1000_0000_0000_0000 {
                acc = 0x1000_0000_0000_0000;
            } else {
                acc = next;
            }
        }
        x = x + 1;
    }
    proof {
        assert(exds@.subrange(0, n - exstart) =~= exds@);
    }
    Some(acc)
}

/// Reads a decimal floating-point literal from `s`, exactly as
/// `spec_parse_float_bits` says.
pub fn parse_float_bits(s: &str) -> (r: Option<u64>)
    ensures
        r == spec_parse_float_bits(s@),
{
    let n = s.unicode_len();
    let mut start: usize = 0;
    let mut neg = false;
    if n > 0 {
        let c0 = s.get_char(0);
        if char_eq(c0, '-') {
            neg = true;
            start = 1;
        } else if char_eq(c0, '+') {
            start = 1;
        }
    }
    let ghost t = spec_ds(s@);
    proof {
        assert(t =~= s@.subrange(start as int, n as int));
    }
    match special_word(s, start, n, neg) {
        Some(bits) => {
            return Some(bits);
        }
        None => {}
    }
    parse_number_x(s, start, n, neg, Ghost(t))
}

/// Reads a plain decimal number, exactly as `spec_parse_number` says.
#[verifier::rlimit(100)]
#[verifier::loop_isolation(false)]
fn parse_number_x(s: &str, start: usize, n: usize, neg: bool, tg: Ghost<Seq<char>>) -> (r: Option<
    u64,
>)
    requires
        start <= n,
        n == s@.len(),
        tg@ == s@.subrange(start as int, n as int),
    ensures
        r == spec_parse_number(neg, tg@),
{
    proof {
        reveal(spec_parse_number);
    }
    let ghost t = tg@;
    // the exponent marker, if any
    let epos = find_either(s, start, n, 'e', 'E');
    proof {
        lemma_first_e_char(t, epos as int - start as int);
    }
    let ghost ei = epos as int - start as int;
    let ghost mant = t.subrange(0, ei);
    // the decimal point, if any, within the mantissa
    let dotp = find_either(s, start, epos, '.', '.');
    proof {
        assert(forall|i: int| 0 <= i < mant.len() ==> mant[i] == s@[start + i]);
        lemma_first_dot_char(mant, dotp as int - start as int);
    }
    let ghost di = dotp as int - start as int;
    let ghost ip = mant.subrange(0, di);
    let ghost fp = if di < mant.len() {
        mant.subrange(di + 1, mant.len() as int)
    } else {
        Seq::<char>::empty()
    };
    let ghost digs = ip + fp;
    let idigits = dotp - start;
    let fstart = if dotp < epos {
        dotp + 1
    } else {
        epos
    };
    let fdigits = epos - fstart;
    proof {
        assert(ip.len() == idigits);
        assert(fp.len() == fdigits);
    }
    if idigits + fdigits == 0 {
        proof {
            assert(digs.len() == 0);
        }
        return None;
    }
    if idigits > 10000000 || fdigits > 10000000 || idigits + fdigits > 10000000 {
        proof {
            assert(digs.len() > 10000000);
        }
        return None;
    }
    // the significand's digits, exactly
    proof {
        assert(digs.subrange(0, 0) =~= Seq::<char>::empty());
        assert forall|i: int| 0 <= i < idigits implies #[trigger] digs[0 + i] == s@[start + i] by {
            assert(digs[i] == ip[i]);
            assert(ip[i] == mant[i]);
        }
        assert forall|i: int| 0 <= i < fdigits implies #[trigger] digs[ip.len() + i] == s@[fstart
            + i] by {
            assert(digs[ip.len() + i] == fp[i]);
            assert(fp[i] == mant[di + 1 + i]);
        }
    }
    let st0 = (Vec::<u32>::new(), 0u64, true);
    let st1 = match scan_digit_run(s, start, dotp, st0, Ghost(digs), Ghost(0int)) {
        Some(st) => st,
        None => {
            return None;
        }
    };
    let st2 = match scan_digit_run(s, fstart, epos, st1, Ghost(digs), Ghost(ip.len() as int)) {
        Some(st) => st,
        None => {
            return None;
        }
    };
    let (dnum, sig, zero) = st2;
    proof {
        assert(digs.subrange(0, ip.len() + (epos - fstart)) =~= digs);
    }
    // the exponent, saturated far beyond anything that can matter
    let mut exneg = false;
    let mut acc: u64 = 0;
    if epos < n {
        let mut exstart = epos + 1;
        if exstart < n {
            let c0 = s.get_char(exstart);
            if char_eq(c0, '-') {
                exneg = true;
                exstart = exstart + 1;
            } else if char_eq(c0, '+') {
                exstart = exstart + 1;
            }
        }
        let ghost ex = t.subrange(ei + 1, t.len() as int);
        let ghost exds = spec_ds(ex);
        proof {
            assert(forall|i: int| 0 <= i < ex.len() ==> ex[i] == s@[epos + 1 + i]);
            assert(exds =~= s@.subrange(exstart as int, n as int));
            assert(exneg == (ex.len() > 0 && ex[0] == '-'));
        }
        if exstart == n {
            proof {
                assert(exds.len() == 0);
            }
            return None;
        }
        match scan_exponent(s, exstart, n, Ghost(exds)) {
            Some(a) => {
                acc = a;
            }
            None => {
                return None;
            }
        }
    }
    let ghost dval = digits_val(digs);
    let expv: i64 = if exneg {
        -(acc as i64)
    } else {
        acc as i64
    };
    let net: i64 = expv - fdigits as i64;
    proof {
        if epos < n {
            let ex = t.subrange(ei + 1, t.len() as int);
            let exds = spec_ds(ex);
            assert(net as int == (if exneg {
                -exp_sat(exds)
            } else {
                exp_sat(exds)
            }) - fp.len());
        }
    }
    Some(float_from_parts_x(neg, dnum, sig, zero, net))
}

/// The bit pattern of a significand and scale, exactly as
/// `spec_float_from_parts` says.
#[verifier::loop_isolation(false)]
#[verifier::rlimit(60)]
fn float_from_parts_x(neg: bool, dnum: Vec<u32>, sig: u64, zero: bool, net: i64) -> (r: u64)
    requires
        zero == (crate::bignat::big_val(dnum@) == 0),
        sig as nat == digits10(crate::bignat::big_val(dnum@)),
        dnum@.len() <= 10000001,
        sig <= 10000000,
        -0x1000_0000_0000_0000 - 10000000 <= net as int <= 0x1000_0000_0000_0000,
    ensures
        r == spec_float_from_parts(neg, crate::bignat::big_val(dnum@), net as int),
{
    proof {
        reveal(spec_float_from_parts);
    }
    let ghost dval = crate::bignat::big_val(dnum@);
    if zero {
        return if neg {
            0x8000_0000_0000_0000u64
        } else {
            0u64
        };
    }
    let msd: i64 = sig as i64 - 1 + net;
    proof {
        assert(msd as int == digits10(dval) - 1 + net);
    }
    if msd >= 310 {
        return if neg {
            0xFFF0_0000_0000_0000u64
        } else {
            0x7FF0_0000_0000_0000u64
        };
    }
    if msd <= -325 {
        return if neg {
            0x8000_0000_0000_0000u64
        } else {
            0u64
        };
    }
    if net >= 0 {
        // scale the significand up; the result stays within the builder's cap
        let ghost d0 = crate::bignat::big_val(dnum@);
        let ghost d0len = dnum@.len();
        let steps = net as usize;
        proof {
            assert(steps <= 309);
        }
        let mut num = dnum;
        let mut k: usize = 0;
        proof {
            assert(pow10(0) == 1);
            assert(d0 * pow10(0) == d0) by (nonlinear_arith)
                requires
                    pow10(0) == 1,
            ;
        }
        while k < steps
            invariant
                0 <= k <= steps,
                steps <= 309,
                crate::bignat::big_val(num@) == d0 * pow10(k as nat),
                num@.len() <= d0len + k,
            decreases steps - k,
        {
            num = crate::bignat::scale_add(&num, 0, 10, 0);
            proof {
                assert(pow10((k + 1) as nat) == 10 * pow10(k as nat));
                assert(10 * (d0 * pow10(k as nat)) == d0 * pow10((k + 1) as nat))
                    by (nonlinear_arith)
                    requires
                        pow10((k + 1) as nat) == 10 * pow10(k as nat),
                ;
            }
            k = k + 1;
        }
        let den = crate::bignat::big_from_u32(1);
        proof {
            lemma_pow10_pos(net as nat);
            assert(1 <= d0 * pow10(net as nat)) by (nonlinear_arith)
                requires
                    1 <= d0 && 1 <= pow10(net as nat),
            ;
        }
        crate::float_bits::ratio_bits_wide(neg, num, den)
    } else {
        let steps = (-net) as usize;
        proof {
            assert(steps <= 10000000 + 324);
        }
        let mut den = crate::bignat::big_from_u32(1);
        let mut k: usize = 0;
        proof {
            assert(pow10(0) == 1);
        }
        while k < steps
            invariant
                0 <= k <= steps,
                steps <= 10000000 + 324,
                crate::bignat::big_val(den@) == pow10(k as nat),
                den@.len() <= k + 1,
            decreases steps - k,
        {
            den = crate::bignat::scale_add(&den, 0, 10, 0);
            proof {
                assert(pow10((k + 1) as nat) == 10 * pow10(k as nat));
            }
            k = k + 1;
        }
        proof {
            lemma_pow10_pos(steps as nat);
        }
        crate::float_bits::ratio_bits_wide(neg, dnum, den)
    }
}

} // verus!
