//! Float literals: decimal text to the bits of the nearest 32-bit float.
//!
//! The conversion is exact integer arithmetic: the literal is the fraction
//! `m * 10^e`, and the result is the float nearest to it, ties to even
//! (`nearest_f32_bits`); a value below the smallest normal float reads as
//! zero, and one past the largest as infinity. Literals whose fraction
//! needs more than 30 decimal places are refused.

use vstd::prelude::*;

use crate::parser::lexer::{
    blank_end, digit_of, digits_end, digits_value, is_digit, is_digit_char, lemma_blank_end_bounds, lemma_digits_end,
    lemma_digits_value_mono,
    skip_blank,
};

verus! {

/// `10^k`.
fn pow10(k: u32) -> (r: u128)
    requires
        k <= 38,
    ensures
        r == ten_pow(k),
        r >= 1,
{
    let mut r: u128 = 1;
    let mut i: u32 = 0;
    while i < k
        invariant
            i <= k <= 38,
            r == ten_pow(i),
            r >= 1,
        decreases k - i,
    {
        proof {
            lemma_ten_pow(i);
        }
        r = r * 10;
        i = i + 1;
    }
    r
}

/// `10^i`.
pub open spec fn ten_pow(i: u32) -> int
    decreases i,
{
    if i == 0 {
        1
    } else {
        10 * ten_pow((i - 1) as u32)
    }
}

/// `10^38` fits in 128 bits.
proof fn lemma_ten_pow(i: u32)
    requires
        i < 38,
    ensures
        10 * ten_pow(i) <= u128::MAX,
        ten_pow((i + 1) as u32) == 10 * ten_pow(i),
{
    lemma_pow10_mono(i, 37);
    reveal_with_fuel(ten_pow, 39);
    assert(ten_pow(37) == 10000000000000000000000000000000000000);
}

/// `10^i` grows with `i`.
proof fn lemma_pow10_mono(i: u32, j: u32)
    requires
        i <= j,
    ensures
        ten_pow(i) <= ten_pow(j),
        ten_pow(i) >= 1,
    decreases j,
{
    if i < j {
        lemma_pow10_mono(i, (j - 1) as u32);
    } else if i > 0 {
        lemma_pow10_mono((i - 1) as u32, (i - 1) as u32);
    }
}

/// Whether `r` is the bits of a float that is not a NaN, whose sign bit
/// is set exactly when `neg`.
pub open spec fn signed_non_nan(r: u32, neg: bool) -> bool {
    &&& ((r & 0x8000_0000u32) != 0 <==> neg)
    &&& (r & 0x7fff_ffffu32) <= 0x7f80_0000u32
}

/// A sign bit joined to the bits of a magnitude that is not a NaN.
proof fn lemma_signed_non_nan(sign: u32, mag: u32, neg: bool)
    requires
        sign == (if neg { 0x8000_0000u32 } else { 0u32 }),
        mag <= 0x7f80_0000u32,
    ensures
        signed_non_nan(sign | mag, neg),
{
    assert(((sign | mag) & 0x8000_0000u32) != 0 <==> sign == 0x8000_0000u32) by (bit_vector)
        requires
            sign == 0x8000_0000u32 || sign == 0u32,
            mag <= 0x7f80_0000u32,
    ;
    assert((sign | mag) & 0x7fff_ffffu32 == mag) by (bit_vector)
        requires
            sign == 0x8000_0000u32 || sign == 0u32,
            mag <= 0x7f80_0000u32,
    ;
}

/// `2^k`.
pub open spec fn two_pow(k: nat) -> nat
    decreases k,
{
    if k == 0 {
        1
    } else {
        2 * two_pow((k - 1) as nat)
    }
}

/// For `n >= d`: the largest `e`, up to 127, with `d * 2^e <= n`, searching
/// up from `e`.
pub open spec fn exp_up(n: nat, d: nat, e: nat) -> nat
    decreases 127 - e,
{
    if e < 127 && d * two_pow(e + 1) <= n {
        exp_up(n, d, e + 1)
    } else {
        e
    }
}

/// For `n < d`: the least `k`, up to 100, with `n * 2^(k + 1) >= d`,
/// searching up from `k`.
pub open spec fn exp_down(n: nat, d: nat, k: nat) -> nat
    decreases 100 - k,
{
    if k < 100 && n * two_pow(k + 1) < d {
        exp_down(n, d, k + 1)
    } else {
        k
    }
}

/// The binary exponent of `n / d`: the `e` with `2^e <= n / d < 2^(e + 1)`.
pub open spec fn binary_exponent(n: nat, d: nat) -> int {
    if n >= d {
        exp_up(n, d, 0) as int
    } else {
        -(exp_down(n, d, 0) + 1)
    }
}

/// `a / b` rounded to the nearest integer, ties to the even one.
pub open spec fn round_half_even(a: nat, b: nat) -> nat {
    let q = a / b;
    let r = a % b;
    if 2 * r > b || (2 * r == b && q % 2 == 1) {
        q + 1
    } else {
        q
    }
}

/// The 24-bit significand of `n / d` with binary exponent `e`, rounded to
/// nearest, ties to even: `n / d * 2^(23 - e)`, rounded.
pub open spec fn significand(n: nat, d: nat, e: int) -> nat {
    if e <= 23 {
        round_half_even(n * two_pow((23 - e) as nat), d)
    } else {
        round_half_even(n, d * two_pow((e - 23) as nat))
    }
}

/// The bits of the 32-bit float nearest to `n / d`, ties to even, with the
/// sign bit set when `neg`: infinity past the largest exponent, and zero
/// below the smallest normal one.
pub open spec fn nearest_f32_bits(neg: bool, n: nat, d: nat) -> u32 {
    let sign: int = if neg {
        0x8000_0000
    } else {
        0
    };
    let e0 = binary_exponent(n, d);
    let q0 = significand(n, d, e0);
    let q: int = if q0 == 0x100_0000 {
        0x80_0000
    } else {
        q0 as int
    };
    let e: int = if q0 == 0x100_0000 {
        e0 + 1
    } else {
        e0
    };
    if e > 127 {
        (sign + 0x7f80_0000) as u32
    } else if e < -126 {
        sign as u32
    } else {
        (sign + (e + 127) * 0x80_0000 + (q - 0x80_0000)) as u32
    }
}

/// Known powers of two.
proof fn lemma_two_pow_values()
    ensures
        two_pow(23) == 0x80_0000,
        two_pow(24) == 0x100_0000,
        two_pow(100) == 1267650600228229401496703205376,
{
    reveal_with_fuel(two_pow, 51);
    assert(two_pow(50) == 1125899906842624);
    lemma_two_pow_adds(50, 50);
}

/// `2^(a + b) == 2^a * 2^b`.
proof fn lemma_two_pow_adds(a: nat, b: nat)
    ensures
        two_pow(a + b) == two_pow(a) * two_pow(b),
    decreases a,
{
    if a > 0 {
        lemma_two_pow_adds((a - 1) as nat, b);
        assert(two_pow(a + b) == 2 * two_pow((a - 1 + b) as nat));
        assert(2 * (two_pow((a - 1) as nat) * two_pow(b)) == (2 * two_pow((a - 1) as nat)) * two_pow(b)) by (nonlinear_arith);
    } else {
        assert(two_pow(a) == 1);
        assert(a + b == b);
    }
}

/// `2^a <= 2^b` for `a <= b`, and powers of two are positive.
proof fn lemma_two_pow_mono(a: nat, b: nat)
    requires
        a <= b,
    ensures
        1 <= two_pow(a) <= two_pow(b),
    decreases b,
{
    if a < b {
        lemma_two_pow_mono(a, (b - 1) as nat);
    } else if a > 0 {
        lemma_two_pow_mono((a - 1) as nat, (a - 1) as nat);
    }
}

/// `2^63`, `2^126` and `2^128`.
proof fn lemma_two_pow_large()
    ensures
        two_pow(63) == 0x8000_0000_0000_0000,
        two_pow(126) == 0x4000_0000_0000_0000_0000_0000_0000_0000,
        two_pow(128) == 0x1_0000_0000_0000_0000_0000_0000_0000_0000,
{
    reveal_with_fuel(two_pow, 65);
    assert(two_pow(63) == 0x8000_0000_0000_0000);
    assert(two_pow(64) == 0x1_0000_0000_0000_0000);
    lemma_two_pow_adds(63, 63);
    lemma_two_pow_adds(64, 64);
}

/// `2^k` as a 128-bit integer.
fn two_pow_u128(k: u32) -> (r: u128)
    requires
        k <= 126,
    ensures
        r == two_pow(k as nat),
        r >= 1,
{
    proof {
        lemma_two_pow_large();
    }
    let mut r: u128 = 1;
    let mut i: u32 = 0;
    while i < k
        invariant
            i <= k <= 126,
            r == two_pow(i as nat),
            two_pow(126) == 0x4000_0000_0000_0000_0000_0000_0000_0000,
        decreases k - i,
    {
        proof {
            lemma_two_pow_mono((i + 1) as nat, 126);
        }
        r = r * 2;
        i = i + 1;
    }
    proof {
        lemma_two_pow_mono(0, k as nat);
    }
    r
}

/// The float bits of a sign and a biased exponent and fraction in range.
proof fn lemma_float_fields(sign: u32, biased: u32, frac: u32)
    requires
        sign == 0x8000_0000u32 || sign == 0u32,
        biased <= 254u32,
        frac < 0x80_0000u32,
    ensures
        sign | (biased << 23u32) | frac == sign + biased * 0x80_0000 + frac,
        (biased << 23u32) | frac <= 0x7f7f_ffffu32,
        sign | (biased << 23u32) | frac == sign | ((biased << 23u32) | frac),
{
    assert(sign | (biased << 23u32) | frac == sign + biased * 0x80_0000u32 + frac && (biased << 23u32) | frac
        <= 0x7f7f_ffffu32 && sign | (biased << 23u32) | frac == sign | ((biased << 23u32) | frac)) by (bit_vector)
        requires
            sign == 0x8000_0000u32 || sign == 0u32,
            biased <= 254u32,
            frac < 0x80_0000u32,
    ;
}

/// The binary exponent of `n / d`, with the bounds it gives.
fn exponent_of(n: u128, d: u128) -> (e2: i32)
    requires
        n > 0,
        d >= 1,
        d <= 1_000_000_000_000_000_000_000_000_000_000u128,
    ensures
        e2 == binary_exponent(n as nat, d as nat),
        -100 <= e2 <= 127,
        n >= d ==> e2 >= 0 && d * two_pow(e2 as nat) <= n && (e2 < 127 ==> n < d * two_pow((e2 + 1) as nat)),
        n < d ==> e2 < 0 && n * two_pow((-e2 - 1) as nat) < d && n * two_pow((-e2) as nat) >= d,
{
    let ghost nn = n as nat;
    let ghost dd = d as nat;
    assert(two_pow(0) == 1);
    if n >= d {
        let mut t: u128 = d;
        let mut e: u32 = 0;
        while e < 127 && t <= n / 2
            invariant
                nn == n,
                dd == d,
                n >= d,
                e <= 127,
                t == dd * two_pow(e as nat),
                t <= n,
                exp_up(nn, dd, 0) == exp_up(nn, dd, e as nat),
            decreases 127 - e,
        {
            proof {
                assert(dd * two_pow((e + 1) as nat) == 2 * t) by (nonlinear_arith)
                    requires
                        two_pow((e + 1) as nat) == 2 * two_pow(e as nat),
                        t == dd * two_pow(e as nat),
                ;
            }
            t = t * 2;
            e = e + 1;
        }
        proof {
            assert(dd * two_pow((e + 1) as nat) == 2 * t) by (nonlinear_arith)
                requires
                    two_pow((e + 1) as nat) == 2 * two_pow(e as nat),
                    t == dd * two_pow(e as nat),
            ;
            assert(exp_up(nn, dd, e as nat) == e);
        }
        e as i32
    } else {
        let mut u: u128 = n;
        let mut k: u32 = 0;
        while k < 100 && u * 2 < d
            invariant
                nn == n,
                dd == d,
                n < d,
                d <= 1_000_000_000_000_000_000_000_000_000_000u128,
                k <= 100,
                u == nn * two_pow(k as nat),
                u < d,
                exp_down(nn, dd, 0) == exp_down(nn, dd, k as nat),
            decreases 100 - k,
        {
            proof {
                assert(nn * two_pow((k + 1) as nat) == 2 * u) by (nonlinear_arith)
                    requires
                        two_pow((k + 1) as nat) == 2 * two_pow(k as nat),
                        u == nn * two_pow(k as nat),
                ;
            }
            u = u * 2;
            k = k + 1;
        }
        proof {
            assert(nn * two_pow((k + 1) as nat) == 2 * u) by (nonlinear_arith)
                requires
                    two_pow((k + 1) as nat) == 2 * two_pow(k as nat),
                    u == nn * two_pow(k as nat),
            ;
            if k == 100 {
                lemma_two_pow_values();
                assert(nn * two_pow(100) >= two_pow(100)) by (nonlinear_arith)
                    requires
                        nn >= 1,
                ;
                assert(false);
            }
            assert(exp_down(nn, dd, k as nat) == k);
        }
        -((k + 1) as i32)
    }
}

/// Numerator and denominator whose quotient is `n / d * 2^(23 - e2)`, for
/// the binary exponent `e2` of `n / d`: the quotient is in `[2^23, 2^24)`.
fn scaled_pair(n: u128, d: u128, e2: i32) -> (r: (u128, u128))
    requires
        n > 0,
        d >= 1,
        d <= 1_000_000_000_000_000_000_000_000_000_000u128,
        -100 <= e2 <= 127,
        n >= d ==> e2 >= 0 && d * two_pow(e2 as nat) <= n && (e2 < 127 ==> n < d * two_pow((e2 + 1) as nat)),
        n < d ==> e2 < 0 && n * two_pow((-e2 - 1) as nat) < d && n * two_pow((-e2) as nat) >= d,
    ensures
        e2 <= 23 ==> r.0 == n * two_pow((23 - e2) as nat) && r.1 == d,
        e2 > 23 ==> r.0 == n && r.1 == d * two_pow((e2 - 23) as nat),
        r.1 >= 1,
        r.0 < r.1 * 0x100_0000,
        r.0 >= r.1 * 0x80_0000,
{
    let ghost nn = n as nat;
    let ghost dd = d as nat;
    proof {
        lemma_two_pow_values();
    }
    if e2 <= 23 {
        let s: u32 = (23 - e2) as u32;
        let p = two_pow_u128(s);
        proof {
            if n >= d {
                lemma_two_pow_adds(e2 as nat, s as nat);
                lemma_two_pow_adds((e2 + 1) as nat, s as nat);
                assert(two_pow(24) == two_pow(((e2 + 1) + s) as nat));
                assert(two_pow(23) == two_pow((e2 + s) as nat));
                assert(nn * p < dd * two_pow(24) && nn * p >= dd * two_pow(23)) by (nonlinear_arith)
                    requires
                        nn < dd * two_pow((e2 + 1) as nat),
                        nn >= dd * two_pow(e2 as nat),
                        two_pow(24) == two_pow((e2 + 1) as nat) * p,
                        two_pow(23) == two_pow(e2 as nat) * p,
                        p >= 1,
                ;
            } else {
                let k: nat = (-e2 - 1) as nat;
                lemma_two_pow_adds(k, 24);
                lemma_two_pow_adds(k + 1, 23);
                assert(k + 24 == s && k + 1 + 23 == s);
                assert(nn * p < dd * two_pow(24) && nn * p >= dd * two_pow(23)) by (nonlinear_arith)
                    requires
                        nn * two_pow(k) < dd,
                        nn * two_pow(k + 1) >= dd,
                        p == two_pow(k) * two_pow(24),
                        p == two_pow(k + 1) * two_pow(23),
                        two_pow(24) >= 1,
                ;
            }
            assert(dd * two_pow(24) <= 1_000_000_000_000_000_000_000_000_000_000 * 0x100_0000) by (nonlinear_arith)
                requires
                    dd <= 1_000_000_000_000_000_000_000_000_000_000,
                    two_pow(24) == 0x100_0000,
            ;
        }
        (n * p, d)
    } else {
        let s: u32 = (e2 - 23) as u32;
        let p = two_pow_u128(s);
        proof {
            lemma_two_pow_adds(s as nat, 23);
            lemma_two_pow_adds(s as nat, 24);
            assert(s + 23 == e2 && s + 24 == e2 + 1);
            if e2 == 127 {
                lemma_two_pow_large();
                assert(dd * two_pow(128) >= two_pow(128)) by (nonlinear_arith)
                    requires
                        dd >= 1,
                ;
            }
            assert(dd * p * two_pow(24) > nn && dd * p * two_pow(23) <= nn && dd * p <= nn) by (nonlinear_arith)
                requires
                    nn < dd * two_pow((e2 + 1) as nat),
                    nn >= dd * two_pow(e2 as nat),
                    two_pow(e2 as nat) == p * two_pow(23),
                    two_pow((e2 + 1) as nat) == p * two_pow(24),
                    two_pow(23) >= 1,
            ;
        }
        (n, d * p)
    }
}

/// The bits of the 32-bit float nearest to `n / d` (ties to even), with
/// the sign bit set when `neg`; infinity when it is too large, and zero
/// when it is below the smallest normal float.
fn round_to_f32(neg: bool, n: u128, d: u128) -> (r: u32)
    requires
        n > 0,
        d >= 1,
        d <= 1_000_000_000_000_000_000_000_000_000_000u128,
    ensures
        r == nearest_f32_bits(neg, n as nat, d as nat),
        signed_non_nan(r, neg),
{
    let sign: u32 = if neg {
        0x8000_0000
    } else {
        0
    };
    proof {
        lemma_signed_non_nan(sign, 0, neg);
        lemma_signed_non_nan(sign, 0x7f80_0000, neg);
        assert(sign | 0u32 == sign) by (bit_vector);
        assert(sign | 0x7f80_0000u32 == sign + 0x7f80_0000u32) by (bit_vector)
            requires
                sign == 0x8000_0000u32 || sign == 0u32,
        ;
    }
    let e2 = exponent_of(n, d);
    let (a, b) = scaled_pair(n, d, e2);
    let q0 = a / b;
    let rem = a % b;
    proof {
        assert(q0 >= 0x80_0000 && q0 < 0x100_0000) by (nonlinear_arith)
            requires
                a < b * 0x100_0000,
                a >= b * 0x80_0000,
                b >= 1,
                q0 == a / b,
        ;
    }
    let up = rem > b - rem || (rem == b - rem && q0 % 2 == 1);
    let q: u128 = if up {
        q0 + 1
    } else {
        q0
    };
    assert(q == significand(n as nat, d as nat, e2 as int));
    let mut qq: u128 = q;
    let mut e: i32 = e2;
    if q == 0x100_0000 {
        qq = 0x80_0000;
        e = e2 + 1;
    }
    if e > 127 {
        return sign | 0x7f80_0000;
    }
    if e < -126 {
        return sign;
    }
    let biased = (e + 127) as u32;
    let frac = (qq - 0x80_0000) as u32;
    proof {
        lemma_float_fields(sign, biased, frac);
        lemma_signed_non_nan(sign, (biased << 23u32) | frac, neg);
    }
    sign | (biased << 23) | frac
}

/// The bits of the float `m * 10^e` (negated when `neg`); none when `e` is
/// so negative that the fraction is out of the supported range.
/// The bits of the 32-bit float nearest to `m * 10^e`, negated when `neg`:
/// infinity once the value reaches `2^128`, beyond every float; none when
/// `e < -30` and `m` is not zero.
pub open spec fn decimal_float_bits(neg: bool, m: nat, e: int) -> Option<u32> {
    let sign: u32 = if neg {
        0x8000_0000
    } else {
        0
    };
    if m == 0 {
        Some(sign)
    } else if e >= 0 {
        if e > 38 || m * ten_pow(e as u32) > u128::MAX {
            Some(sign | 0x7f80_0000u32)
        } else {
            Some(nearest_f32_bits(neg, m * ten_pow(e as u32) as nat, 1))
        }
    } else if e < -30 {
        None
    } else {
        Some(nearest_f32_bits(neg, m, ten_pow((-e) as u32) as nat))
    }
}

fn decimal_bits(neg: bool, m: u128, e: i32) -> (r: Option<u32>)
    ensures
        r == decimal_float_bits(neg, m as nat, e as int),
        r is None <==> (m != 0 && e < -30),
        r matches Some(b) ==> signed_non_nan(b, neg),
        m == 0 ==> r == Some(if neg { 0x8000_0000u32 } else { 0u32 }),
{
    let sign: u32 = if neg {
        0x8000_0000
    } else {
        0
    };
    proof {
        lemma_signed_non_nan(sign, 0, neg);
        lemma_signed_non_nan(sign, 0x7f80_0000, neg);
        assert(sign | 0u32 == sign) by (bit_vector);
    }
    if m == 0 {
        return Some(sign);
    }
    if e >= 0 {
        if e > 38 {
            return Some(sign | 0x7f80_0000);
        }
        let p = pow10(e as u32);
        if m > u128::MAX / p {
            proof {
                assert(m * p > u128::MAX) by (nonlinear_arith)
                    requires
                        m > u128::MAX / p,
                        p >= 1,
                ;
            }
            return Some(sign | 0x7f80_0000);
        }
        proof {
            assert(m * p <= u128::MAX) by (nonlinear_arith)
                requires
                    m <= u128::MAX / p,
                    p >= 1,
            ;
            assert(m * p > 0) by (nonlinear_arith)
                requires
                    m > 0,
                    p >= 1,
            ;
        }
        Some(round_to_f32(neg, m * p, 1))
    } else {
        if e < -30 {
            return None;
        }
        let k = (-e) as u32;
        let d = pow10(k);
        proof {
            lemma_pow10_mono(k, 30);
            reveal_with_fuel(ten_pow, 31);
            assert(ten_pow(30) == 1_000_000_000_000_000_000_000_000_000_000);
        }
        Some(round_to_f32(neg, m, d))
    }
}

/// Whether the characters at `p` spell `w` once their ASCII upper-case
/// letters are made lower-case.
pub open spec fn word_nocase_at(s: Seq<char>, p: int, w: Seq<char>) -> bool {
    &&& 0 <= p
    &&& p + w.len() <= s.len()
    &&& forall|i: int| 0 <= i < w.len() ==> #[trigger] lower(s[p + i]) == w[i]
}

/// Whether the characters at `pos` spell `w`, ignoring ASCII case.
fn match_word_nocase(s: &Vec<char>, pos: usize, w: &str) -> (r: Option<usize>)
    requires
        pos <= s@.len(),
    ensures
        r is Some <==> word_nocase_at(s@, pos as int, w@),
        r matches Some(p) ==> p == pos + w@.len() && p <= s@.len(),
{
    let wl = w.unicode_len();
    if wl > s.len() - pos {
        return None;
    }
    let sl = s.len();
    let mut i: usize = 0;
    while i < wl
        invariant
            wl == w@.len(),
            sl == s@.len(),
            pos + wl <= s@.len(),
            i <= wl,
            forall|j: int| 0 <= j < i ==> #[trigger] lower(s@[pos + j]) == w@[j],
        decreases wl - i,
    {
        let k = pos + i;
        let c = s[k];
        let lower = if 'A' <= c && c <= 'Z' {
            to_lower(c)
        } else {
            c
        };
        if lower != w.get_char(i) {
            return None;
        }
        i = i + 1;
    }
    Some(pos + wl)
}

/// The character `c` with ASCII upper-case letters made lower-case.
pub open spec fn lower(c: char) -> char {
    if 'A' <= c <= 'Z' {
        ((c as u32) + 32) as char
    } else {
        c
    }
}

/// The value of `c` as a hexadecimal digit, if it is one.
pub open spec fn hex_digit(c: char) -> Option<u32> {
    if '0' <= c <= '9' {
        Some(((c as u32) - 48) as u32)
    } else if 'a' <= c <= 'f' {
        Some(((c as u32) - 87) as u32)
    } else if 'A' <= c <= 'F' {
        Some(((c as u32) - 55) as u32)
    } else {
        None
    }
}

/// The lower-case form of an ASCII upper-case letter.
fn to_lower(c: char) -> (r: char)
    requires
        'A' <= c <= 'Z',
    ensures
        r == lower(c),
        r as u32 == (c as u32) + 32,
{
    let x: u32 = c as u32;
    let y: u32 = x + 32;
    if y == 97 { 'a' } else if y == 98 { 'b' } else if y == 99 { 'c' } else if y == 100 { 'd' }
    else if y == 101 { 'e' } else if y == 102 { 'f' } else if y == 103 { 'g' } else if y == 104 { 'h' }
    else if y == 105 { 'i' } else if y == 106 { 'j' } else if y == 107 { 'k' } else if y == 108 { 'l' }
    else if y == 109 { 'm' } else if y == 110 { 'n' } else if y == 111 { 'o' } else if y == 112 { 'p' }
    else if y == 113 { 'q' } else if y == 114 { 'r' } else if y == 115 { 's' } else if y == 116 { 't' }
    else if y == 117 { 'u' } else if y == 118 { 'v' } else if y == 119 { 'w' } else if y == 120 { 'x' }
    else if y == 121 { 'y' } else { 'z' }
}

/// The value of a hexadecimal digit, if it is one.
fn hex_value(c: char) -> (r: Option<u32>)
    ensures
        r == hex_digit(c),
        r matches Some(v) ==> v < 16,
{
    if '0' <= c && c <= '9' {
        Some(digit_of(c) as u32)
    } else if 'a' <= c && c <= 'f' {
        let x: u32 = c as u32;
        Some(x - 87)
    } else if 'A' <= c && c <= 'F' {
        let x: u32 = c as u32;
        Some(x - 55)
    } else {
        None
    }
}

/// The end of the run of hexadecimal digits that starts at `p`.
pub open spec fn hex_end(s: Seq<char>, p: int) -> int
    decreases s.len() - p,
{
    if 0 <= p < s.len() && hex_digit(s[p]) is Some {
        hex_end(s, p + 1)
    } else {
        p
    }
}

/// `hex_end` does not go back, and stays within the input.
proof fn lemma_hex_end(s: Seq<char>, p: int)
    requires
        0 <= p <= s.len(),
    ensures
        p <= hex_end(s, p) <= s.len(),
    decreases s.len() - p,
{
    if p < s.len() && hex_digit(s[p]) is Some {
        lemma_hex_end(s, p + 1);
    }
}

/// The value of the `k` hexadecimal digits from `p` on.
pub open spec fn hex_val(s: Seq<char>, p: int, k: nat) -> int
    decreases k,
{
    if k == 0 {
        0
    } else {
        hex_val(s, p, (k - 1) as nat) * 16 + hex_digit(s[p + k - 1]).unwrap() as int
    }
}

/// How many hexadecimal digits a `0x` literal whose digits start at `p`
/// reads: the run of digits there, at most eight.
pub open spec fn hex_count(s: Seq<char>, p: int) -> int {
    if hex_end(s, p) - p < 8 {
        hex_end(s, p) - p
    } else {
        8
    }
}

/// Whether a float literal at `pos` is written in `0x` form.
pub open spec fn hex_form(s: Seq<char>, pos: int) -> bool {
    pos + 1 < s.len() && s[pos] == '0' && s[pos + 1] == 'x'
}

/// Where a float literal at `pos` starts once its sign is read.
pub open spec fn after_sign(s: Seq<char>, pos: int) -> int {
    if pos < s.len() && (s[pos] == '-' || s[pos] == '+') {
        pos + 1
    } else {
        pos
    }
}

/// The sign bit of a float literal at `pos`.
pub open spec fn sign_bit(s: Seq<char>, pos: int) -> u32 {
    if pos < s.len() && s[pos] == '-' {
        0x8000_0000
    } else {
        0
    }
}

/// Whether the mantissa after `p` has a `.` after its integer digits.
pub open spec fn has_dot(s: Seq<char>, p: int) -> bool {
    digits_end(s, p) < s.len() && s[digits_end(s, p)] == '.'
}

/// The end of the digits of a mantissa at `p`: its integer digits and,
/// after a `.`, its fraction digits.
pub open spec fn mantissa_end(s: Seq<char>, p: int) -> int {
    if has_dot(s, p) {
        digits_end(s, digits_end(s, p) + 1)
    } else {
        digits_end(s, p)
    }
}

/// The number of fraction digits of a mantissa at `p`.
pub open spec fn fraction_len(s: Seq<char>, p: int) -> int {
    if has_dot(s, p) {
        mantissa_end(s, p) - (digits_end(s, p) + 1)
    } else {
        0
    }
}

/// The number of digits of a mantissa at `p`.
pub open spec fn mantissa_digits(s: Seq<char>, p: int) -> int {
    (digits_end(s, p) - p) + fraction_len(s, p)
}

/// Where the digits of an exponent after `e` (at an `e` or `E`) start.
pub open spec fn exponent_start(s: Seq<char>, e: int) -> int {
    if e + 1 < s.len() && (s[e + 1] == '-' || s[e + 1] == '+') {
        e + 2
    } else {
        e + 1
    }
}

/// Whether an exponent with digits follows at `e`.
pub open spec fn has_exponent(s: Seq<char>, e: int) -> bool {
    e < s.len() && (s[e] == 'e' || s[e] == 'E') && digits_end(s, exponent_start(s, e)) > exponent_start(s, e)
}

/// The end of a decimal float literal whose mantissa starts at `p`.
pub open spec fn literal_end(s: Seq<char>, p: int) -> int {
    if has_exponent(s, mantissa_end(s, p)) {
        digits_end(s, exponent_start(s, mantissa_end(s, p)))
    } else {
        mantissa_end(s, p)
    }
}

/// Whether a float literal at `pos` is written with decimal digits: not in
/// `0x` form, nor an infinity or a NaN.
pub open spec fn decimal_form(s: Seq<char>, pos: int) -> bool {
    &&& !hex_form(s, pos)
    &&& !word_nocase_at(s, after_sign(s, pos), "infinity"@)
    &&& !word_nocase_at(s, after_sign(s, pos), "inf"@)
    &&& !word_nocase_at(s, after_sign(s, pos), "nan"@)
}

/// The digits of a mantissa at `p`: its integer digits, then its fraction
/// digits.
pub open spec fn mantissa_chars(s: Seq<char>, p: int) -> Seq<char> {
    if has_dot(s, p) {
        s.subrange(p, digits_end(s, p)) + s.subrange(digits_end(s, p) + 1, mantissa_end(s, p))
    } else {
        s.subrange(p, digits_end(s, p))
    }
}

/// The value of the digits of the exponent whose `e` or `E` is at `me`.
pub open spec fn exponent_digits(s: Seq<char>, me: int) -> nat {
    digits_value(s.subrange(exponent_start(s, me), digits_end(s, exponent_start(s, me))))
}

/// The power of ten of a decimal literal whose mantissa starts at `p`: its
/// exponent, less the number of its fraction digits.
pub open spec fn literal_exponent(s: Seq<char>, p: int) -> int {
    let me = mantissa_end(s, p);
    let x: int = if has_exponent(s, me) {
        if me + 1 < s.len() && s[me + 1] == '-' {
            -(exponent_digits(s, me) as int)
        } else {
            exponent_digits(s, me) as int
        }
    } else {
        0
    };
    x - fraction_len(s, p)
}

/// Whether a decimal literal whose mantissa starts at `p` is read exactly:
/// a mantissa whose value fits in 128 bits, at most 999 fraction digits,
/// and an exponent of at most 2000.
pub open spec fn decimal_in_range(s: Seq<char>, p: int) -> bool {
    &&& digits_value(mantissa_chars(s, p)) <= u128::MAX
    &&& fraction_len(s, p) <= 999
    &&& has_exponent(s, mantissa_end(s, p)) ==> exponent_digits(s, mantissa_end(s, p)) <= 2000
}

/// The value of the first `k + 1` digits of a run: ten times that of the
/// first `k`, plus the last.
proof fn lemma_digits_prefix_step(d: Seq<char>, k: int)
    requires
        0 <= k < d.len(),
        is_digit(d[k]),
    ensures
        digits_value(d.subrange(0, k + 1)) == digits_value(d.subrange(0, k)) * 10 + ((d[k] as int) - ('0' as int)),
{
    assert(d.subrange(0, k + 1).drop_last() =~= d.subrange(0, k));
    assert(d.subrange(0, k + 1).last() == d[k]);
}

/// Whether what a float literal at `pos` reads is fixed here: every form
/// but a decimal with digits that is not read exactly (`decimal_in_range`).
pub open spec fn float_determined(s: Seq<char>, pos: int) -> bool {
    decimal_form(s, pos) ==> (mantissa_digits(s, after_sign(s, pos)) == 0 || decimal_in_range(
        s,
        after_sign(s, pos),
    ))
}

/// What a float literal at `pos` reads, where `float_determined` holds: its
/// bits and where the blanks after it end, or none.
///
/// `0x` and one to eight hexadecimal digits give the bits themselves; `inf`,
/// `infinity` and `nan` (any case, after an optional sign) give infinity
/// and the quiet NaN; decimal digits with an optional fraction and exponent
/// give the float nearest to their value (see `decimal_float_bits`).
pub open spec fn float_result(s: Seq<char>, pos: int) -> Option<(u32, usize)> {
    let a = after_sign(s, pos);
    if hex_form(s, pos) {
        if hex_count(s, pos + 2) == 0 {
            None
        } else {
            Some((hex_val(s, pos + 2, hex_count(s, pos + 2) as nat) as u32, blank_end(s, pos + 2 + hex_count(s, pos + 2)) as usize))
        }
    } else if word_nocase_at(s, a, "infinity"@) {
        Some((sign_bit(s, pos) | 0x7f80_0000u32, blank_end(s, a + 8) as usize))
    } else if word_nocase_at(s, a, "inf"@) {
        Some((sign_bit(s, pos) | 0x7f80_0000u32, blank_end(s, a + 3) as usize))
    } else if word_nocase_at(s, a, "nan"@) {
        Some((sign_bit(s, pos) | 0x7fc0_0000u32, blank_end(s, a + 3) as usize))
    } else if mantissa_digits(s, a) == 0 {
        None
    } else {
        match decimal_float_bits(sign_bit(s, pos) != 0, digits_value(mantissa_chars(s, a)), literal_exponent(s, a)) {
            Some(b) => Some((b, blank_end(s, literal_end(s, a)) as usize)),
            None => None,
        }
    }
}

/// A float literal, then blanks: the bits of the nearest 32-bit float.
///
/// Accepted forms: an optional sign, then `inf`, `infinity` or `nan` (any
/// case), or decimal digits with an optional fraction and exponent; or
/// `0x` and up to eight hexadecimal digits giving the bits themselves.
#[verifier::rlimit(60)]
pub fn parse_float(s: &Vec<char>, pos: usize) -> (r: Option<(u32, usize)>)
    requires
        pos <= s@.len(),
    ensures
        r matches Some((_, p)) ==> pos < p <= s@.len(),
        hex_form(s@, pos as int) ==> r == (if hex_count(s@, pos + 2) == 0 {
            None
        } else {
            Some(
                (
                    hex_val(s@, pos + 2, hex_count(s@, pos + 2) as nat) as u32,
                    blank_end(s@, pos + 2 + hex_count(s@, pos + 2)) as usize,
                ),
            )
        }),
        !hex_form(s@, pos as int) && word_nocase_at(s@, after_sign(s@, pos as int), "infinity"@) ==> r
            == Some(
            (
                sign_bit(s@, pos as int) | 0x7f80_0000u32,
                blank_end(s@, after_sign(s@, pos as int) + "infinity"@.len()) as usize,
            ),
        ),
        !hex_form(s@, pos as int) && !word_nocase_at(s@, after_sign(s@, pos as int), "infinity"@)
            && word_nocase_at(s@, after_sign(s@, pos as int), "inf"@) ==> r == Some(
            (
                sign_bit(s@, pos as int) | 0x7f80_0000u32,
                blank_end(s@, after_sign(s@, pos as int) + "inf"@.len()) as usize,
            ),
        ),
        !hex_form(s@, pos as int) && !word_nocase_at(s@, after_sign(s@, pos as int), "infinity"@)
            && !word_nocase_at(s@, after_sign(s@, pos as int), "inf"@) && word_nocase_at(
            s@,
            after_sign(s@, pos as int),
            "nan"@,
        ) ==> r == Some(
            (
                sign_bit(s@, pos as int) | 0x7fc0_0000u32,
                blank_end(s@, after_sign(s@, pos as int) + "nan"@.len()) as usize,
            ),
        ),
        decimal_form(s@, pos as int) && mantissa_digits(s@, after_sign(s@, pos as int)) == 0 ==> r is None,
        decimal_form(s@, pos as int) && mantissa_digits(s@, after_sign(s@, pos as int)) > 0 && !has_exponent(
            s@,
            mantissa_end(s@, after_sign(s@, pos as int)),
        ) && fraction_len(s@, after_sign(s@, pos as int)) <= 30 ==> r is Some,
        decimal_form(s@, pos as int) ==> (r matches Some((b, _)) ==> signed_non_nan(
            b,
            sign_bit(s@, pos as int) != 0,
        )),
        decimal_form(s@, pos as int) ==> (r matches Some((_, p)) ==> p == blank_end(
            s@,
            literal_end(s@, after_sign(s@, pos as int)),
        )),
        float_determined(s@, pos as int) ==> r == float_result(s@, pos as int),
        decimal_form(s@, pos as int) && mantissa_digits(s@, after_sign(s@, pos as int)) > 0 && decimal_in_range(
            s@,
            after_sign(s@, pos as int),
        ) ==> r == (match decimal_float_bits(
            sign_bit(s@, pos as int) != 0,
            digits_value(mantissa_chars(s@, after_sign(s@, pos as int))),
            literal_exponent(s@, after_sign(s@, pos as int)),
        ) {
            Some(b) => Some((b, blank_end(s@, literal_end(s@, after_sign(s@, pos as int))) as usize)),
            None => None,
        }),
{
    proof {
        reveal_strlit("infinity");
        reveal_strlit("inf");
        reveal_strlit("nan");
    }
    if pos < s.len() && s.len() - pos > 1 && s[pos] == '0' && s[pos + 1] == 'x' {
        let mut p = pos + 2;
        let mut bits: u32 = 0;
        let mut count: usize = 0;
        proof {
            lemma_hex_end(s@, pos + 2);
        }
        while p < s.len() && count < 8
            invariant
                pos + 2 <= p <= s@.len(),
                count <= 8,
                count == 0 || bits < pow16_bound(count),
                count == 0 ==> bits == 0,
                p == pos + 2 + count,
                bits == hex_val(s@, pos + 2, count as nat),
                hex_end(s@, p as int) == hex_end(s@, pos + 2),
                p <= hex_end(s@, pos + 2) <= s@.len(),
            ensures
                p == pos + 2 + count,
                count <= 8,
                bits == hex_val(s@, pos + 2, count as nat),
                count == hex_count(s@, pos + 2),
            decreases s@.len() - p,
        {
            match hex_value(s[p]) {
                Some(v) => {
                    proof {
                        lemma_hex_end(s@, p + 1);
                        lemma_pow16_step(count, bits, v);
                        assert(hex_val(s@, pos + 2, (count + 1) as nat) == hex_val(s@, pos + 2, count as nat) * 16 + v);
                    }
                    bits = bits * 16 + v;
                    count = count + 1;
                    p = p + 1;
                },
                None => {
                    break;
                },
            }
        }
        proof {
            lemma_blank_end_bounds(s@, p as int);
        }
        if count == 0 {
            return None;
        }
        return Some((bits, skip_blank(s, p)));
    }
    let mut p = pos;
    let mut neg = false;
    if p < s.len() && (s[p] == '-' || s[p] == '+') {
        neg = s[p] == '-';
        p = p + 1;
    }
    let sign: u32 = if neg {
        0x8000_0000
    } else {
        0
    };
    if let Some(q) = match_word_nocase(s, p, "infinity") {
        return Some((sign | 0x7f80_0000, skip_blank(s, q)));
    }
    if let Some(q) = match_word_nocase(s, p, "inf") {
        return Some((sign | 0x7f80_0000, skip_blank(s, q)));
    }
    if let Some(q) = match_word_nocase(s, p, "nan") {
        return Some((sign | 0x7fc0_0000, skip_blank(s, q)));
    }
    let mut m: u128 = 0;
    let mut e: i32 = 0;
    let mut digits: usize = 0;
    let p0 = p;
    assert(p0 == after_sign(s@, pos as int));
    assert(sign == sign_bit(s@, pos as int));
    let ghost inr = decimal_in_range(s@, p0 as int);
    let ghost mc = mantissa_chars(s@, p0 as int);
    let ghost ie = digits_end(s@, p0 as int);
    proof {
        lemma_digits_end(s@, p0 as int);
        if has_dot(s@, p0 as int) {
            lemma_digits_end(s@, ie + 1);
        }
        assert forall|k: int| 0 <= k < mc.len() implies is_digit(#[trigger] mc[k]) by {
            if k < ie - p0 {
                assert(mc[k] == s@[p0 + k]);
            } else {
                assert(mc[k] == s@[ie + 1 + (k - (ie - p0))]);
            }
        }
    }
    while p < s.len() && is_digit_char(s[p])
        invariant
            pos <= p0 <= p <= s@.len(),
            digits == p - p0,
            0 <= e <= 1000,
            digits_end(s@, p as int) == digits_end(s@, p0 as int),
            ie == digits_end(s@, p0 as int),
            p0 <= ie <= s@.len(),
            mc == mantissa_chars(s@, p0 as int),
            inr == decimal_in_range(s@, p0 as int),
            forall|k: int| 0 <= k < mc.len() ==> is_digit(#[trigger] mc[k]),
            forall|k: int| p0 <= k < ie ==> is_digit(#[trigger] s@[k]),
            inr ==> m == digits_value(mc.subrange(0, digits as int)) && e == 0,
        ensures
            p == digits_end(s@, p0 as int),
            digits == p - p0,
            0 <= e <= 1000,
            inr ==> m == digits_value(mc.subrange(0, digits as int)) && e == 0,
        decreases s@.len() - p,
    {
        proof {
            if inr {
                lemma_digits_end(s@, p + 1);
                assert(p < ie);
                assert(mc[digits as int] == s@[p as int]);
                lemma_digits_value_mono(mc, digits + 1);
                lemma_digits_prefix_step(mc, digits as int);
            }
        }
        let d = digit_of(s[p]) as u128;
        proof {
            if inr {
                assert(m * 10 + d <= u128::MAX);
                assert(m <= (u128::MAX - d) / 10) by (nonlinear_arith)
                    requires
                        m * 10 + d <= u128::MAX,
                        d <= 9,
                ;
            }
        }
        if m <= (u128::MAX - d) / 10 {
            m = m * 10 + d;
        } else if e < 1000 {
            e = e + 1;
        }
        digits = digits + 1;
        p = p + 1;
    }
    if p < s.len() && s[p] == '.' {
        p = p + 1;
        let f0 = p;
        proof {
            lemma_digits_end(s@, f0 as int);
            assert(has_dot(s@, p0 as int));
        }
        while p < s.len() && is_digit_char(s[p])
            invariant
                pos <= p0 < f0 <= p <= s@.len(),
                f0 == digits_end(s@, p0 as int) + 1,
                digits == (f0 - 1 - p0) + (p - f0),
                -1000 <= e <= 1000,
                e + (p - f0) >= 0,
                digits_end(s@, p as int) == digits_end(s@, f0 as int),
                has_dot(s@, p0 as int),
                ie == digits_end(s@, p0 as int),
                mc == mantissa_chars(s@, p0 as int),
                inr == decimal_in_range(s@, p0 as int),
                forall|k: int| 0 <= k < mc.len() ==> is_digit(#[trigger] mc[k]),
                inr ==> m == digits_value(mc.subrange(0, digits as int)) && e == -(p - f0),
            ensures
                p == digits_end(s@, f0 as int),
                digits == (f0 - 1 - p0) + (p - f0),
                -1000 <= e <= 1000,
                e + (p - f0) >= 0,
                inr ==> m == digits_value(mc.subrange(0, digits as int)) && e == -(p - f0),
            decreases s@.len() - p,
        {
            proof {
                if inr {
                    lemma_digits_end(s@, f0 as int);
                    lemma_digits_end(s@, p + 1);
                    assert(p < digits_end(s@, f0 as int));
                    assert(mc[digits as int] == s@[p as int]);
                    lemma_digits_value_mono(mc, digits + 1);
                    lemma_digits_prefix_step(mc, digits as int);
                    assert(fraction_len(s@, p0 as int) == digits_end(s@, f0 as int) - f0);
                }
            }
            let d = digit_of(s[p]) as u128;
            proof {
                if inr {
                    assert(m * 10 + d <= u128::MAX);
                    assert(m <= (u128::MAX - d) / 10) by (nonlinear_arith)
                        requires
                            m * 10 + d <= u128::MAX,
                            d <= 9,
                    ;
                }
            }
            if m <= (u128::MAX - d) / 10 && e > -1000 {
                m = m * 10 + d;
                e = e - 1;
            }
            digits = digits + 1;
            p = p + 1;
        }
        assert(has_dot(s@, p0 as int));
        assert(fraction_len(s@, p0 as int) == p - f0);
    } else {
        assert(!has_dot(s@, p0 as int));
    }
    assert(p == mantissa_end(s@, p0 as int));
    assert(digits == mantissa_digits(s@, p0 as int));
    proof {
        if inr {
            assert(mc.len() == digits);
            assert(mc.subrange(0, digits as int) =~= mc);
            assert(m == digits_value(mc));
            assert(e == -fraction_len(s@, p0 as int));
        }
    }
    assert(e >= -fraction_len(s@, p0 as int));
    assert(-1000 <= e <= 1000);
    if digits == 0 {
        return None;
    }
    assert(p > pos);
    let pm = p;
    if p < s.len() && (s[p] == 'e' || s[p] == 'E') {
        let mut q = p + 1;
        let mut eneg = false;
        if q < s.len() && (s[q] == '-' || s[q] == '+') {
            eneg = s[q] == '-';
            q = q + 1;
        }
        let mut ev: i32 = 0;
        let mut edigits: usize = 0;
        let q0 = q;
        assert(q0 == exponent_start(s@, pm as int));
        proof {
            lemma_digits_end(s@, q0 as int);
        }
        let ghost ebig = exponent_digits(s@, pm as int);
        while q < s.len() && is_digit_char(s[q])
            invariant
                p < q0 <= q <= s@.len(),
                edigits == q - q0,
                0 <= ev <= 10000,
                digits_end(s@, q as int) == digits_end(s@, q0 as int),
                q0 <= digits_end(s@, q0 as int) <= s@.len(),
                forall|k: int| q0 <= k < digits_end(s@, q0 as int) ==> is_digit(#[trigger] s@[k]),
                ebig == digits_value(s@.subrange(q0 as int, digits_end(s@, q0 as int))),
                ebig <= 2000 ==> ev == digits_value(s@.subrange(q0 as int, q as int)),
            ensures
                q == digits_end(s@, q0 as int),
                edigits == q - q0,
                0 <= ev <= 10000,
                ebig <= 2000 ==> ev == digits_value(s@.subrange(q0 as int, q as int)),
            decreases s@.len() - q,
        {
            proof {
                if ebig <= 2000 {
                    let run = s@.subrange(q0 as int, digits_end(s@, q0 as int));
                    lemma_digits_end(s@, q + 1);
                    assert(q < digits_end(s@, q0 as int));
                    assert forall|k: int| 0 <= k < run.len() implies is_digit(#[trigger] run[k]) by {
                        assert(run[k] == s@[q0 + k]);
                    }
                    assert(run.subrange(0, (q - q0) as int) =~= s@.subrange(q0 as int, q as int));
                    assert(run.subrange(0, (q - q0 + 1) as int) =~= s@.subrange(q0 as int, q + 1));
                    lemma_digits_value_mono(run, (q - q0 + 1) as int);
                    lemma_digits_prefix_step(run, (q - q0) as int);
                    assert(run[(q - q0) as int] == s@[q as int]);
                }
            }
            let d = digit_of(s[q]) as i32;
            if ev < 1000 {
                ev = ev * 10 + d;
            }
            edigits = edigits + 1;
            q = q + 1;
        }
        proof {
            assert(s@.subrange(q0 as int, q as int) == s@.subrange(q0 as int, digits_end(s@, q0 as int)));
            assert(eneg == (pm + 1 < s@.len() && s@[pm + 1] == '-'));
        }
        if edigits > 0 {
            let ev2: i32 = if ev > 2000 {
                2000
            } else {
                ev
            };
            e = if eneg {
                e - ev2
            } else {
                e + ev2
            };
            p = q;
            assert(has_exponent(s@, pm as int));
        } else {
            assert(!has_exponent(s@, pm as int));
        }
    } else {
        assert(!has_exponent(s@, pm as int));
    }
    assert(p == literal_end(s@, p0 as int));
    proof {
        if inr {
            assert(e == literal_exponent(s@, p0 as int));
            assert(neg == (sign_bit(s@, pos as int) != 0));
        }
    }
    match decimal_bits(neg, m, e) {
        Some(bits) => Some((bits, skip_blank(s, p))),
        None => None,
    }
}

/// `16^k`.
spec fn pow16_bound(k: usize) -> int
    decreases k,
{
    if k == 0 {
        1
    } else {
        16 * pow16_bound((k - 1) as usize)
    }
}

/// One more hexadecimal digit keeps eight of them within 32 bits.
proof fn lemma_pow16_step(count: usize, bits: u32, v: u32)
    requires
        count < 8,
        count == 0 || bits < pow16_bound(count),
        count == 0 ==> bits == 0,
        v < 16,
    ensures
        bits * 16 + v < pow16_bound((count + 1) as usize),
        pow16_bound((count + 1) as usize) <= 0x1_0000_0000,
{
    reveal_with_fuel(pow16_bound, 9);
    if count > 0 {
        assert(bits * 16 + v < pow16_bound(count) * 16) by (nonlinear_arith)
            requires
                bits < pow16_bound(count),
                v < 16,
        ;
    }
}

} // verus!
