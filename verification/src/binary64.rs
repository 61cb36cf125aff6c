//! Exact integer arithmetic for printing a ratio the way `f64` arithmetic and
//! `format!("{:.p}", ..)` print it: the ratio is rounded to the nearest binary64
//! value (53 significant bits, ties to even), and that value is rounded to `p`
//! decimal places (ties to even). No floating-point type is involved.

use vstd::prelude::*;
use vstd::arithmetic::power2::{pow2, lemma_pow2_pos, lemma_pow2_adds, lemma_pow2_unfold};
use vstd::arithmetic::div_mod::lemma_fundamental_div_mod;
use crate::text::{decimal, pow10, push_decimal, push_zero_padded, zero_pad};

verus! {

/// `a / b` rounded to the nearest integer, ties to the even neighbour.
pub open spec fn round_half_even(a: nat, b: nat) -> nat
    recommends
        b > 0,
{
    let q = a / b;
    let r = a % b;
    if 2 * r > b || (2 * r == b && q % 2 == 1) {
        q + 1
    } else {
        q
    }
}

/// `floor(log2(num / den))` for `num >= den > 0`; `0` below that.
pub open spec fn floor_log2_ratio(num: nat, den: nat) -> nat
    decreases num - den,
{
    if den == 0 || num < 2 * den {
        0
    } else {
        1 + floor_log2_ratio(num, 2 * den)
    }
}

/// The binary64 value nearest to `num / den` (for `num / den >= 1` or `num == 0`),
/// as a ratio `(n, d)`: it keeps 53 significant bits, and a tie goes to the even
/// significand.
pub open spec fn nearest_binary64(num: nat, den: nat) -> (nat, nat) {
    let e = floor_log2_ratio(num, den);
    if e >= 52 {
        let unit = pow2((e - 52) as nat);
        (round_half_even(num, den * unit) * unit, 1)
    } else {
        let scale = pow2((52 - e) as nat);
        (round_half_even(num * scale, den), scale)
    }
}

/// The text of `num / den` rounded to `places` decimal places, ties to even:
/// the integer part, then (for `places > 0`) a point and exactly `places` digits.
pub open spec fn fixed_decimal(num: nat, den: nat, places: nat) -> Seq<char> {
    let n = round_half_even(num * pow10(places), den);
    if places == 0 {
        decimal(n)
    } else {
        decimal(n / pow10(places)) + seq!['.'] + zero_pad(decimal(n % pow10(places)), places)
    }
}

pub fn round_half_even_u128(a: u128, b: u128) -> (r: u128)
    requires
        b > 0,
    ensures
        r == round_half_even(a as nat, b as nat),
        r <= a / b + 1,
{
    let q = a / b;
    let rem = a % b;
    proof {
        lemma_fundamental_div_mod(a as int, b as int);
    }
    if rem > b - rem || (rem == b - rem && q % 2 == 1) {
        assert(b >= 2);
        assert(q <= a / 2) by (nonlinear_arith)
            requires
                q == a / b,
                b >= 2,
        {
        }
        q + 1
    } else {
        q
    }
}

/// `2^k` for `k < 128`.
pub fn pow2_u128(k: u32) -> (r: u128)
    requires
        k < 128,
    ensures
        r == pow2(k as nat),
{
    let mut r: u128 = 1;
    let mut i: u32 = 0;
    proof {
        vstd::arithmetic::power2::lemma2_to64();
    }
    while i < k
        invariant
            i <= k,
            k < 128,
            r == pow2(i as nat),
        decreases k - i,
    {
        proof {
            lemma_pow2_unfold((i + 1) as nat);
            lemma_pow2_strictly_below(i as nat);
        }
        r = r * 2;
        i = i + 1;
    }
    r
}

/// `2^75`: the numerators handled by `nearest_binary64_u128` stay below it.
pub open spec fn num_limit() -> nat {
    37778931862957161709568
}

proof fn lemma_pow2_values()
    ensures
        pow2(52) == 4503599627370496,
        pow2(53) == 9007199254740992,
        pow2(75) == num_limit(),
{
    vstd::arithmetic::power2::lemma2_to64();
    lemma_pow2_adds(32, 20);
    lemma_pow2_adds(32, 21);
    lemma_pow2_adds(64, 11);
}

/// The binary64 value nearest to `num / den`, as in `nearest_binary64`.
pub fn nearest_binary64_u128(num: u128, den: u128) -> (r: (u128, u128))
    requires
        den > 0,
        num < num_limit(),
    ensures
        (r.0 as nat, r.1 as nat) == nearest_binary64(num as nat, den as nat),
        1 <= r.1 <= 4503599627370496,
        r.0 <= 2 * num || r.0 <= 9007199254740992,
{
    proof {
        lemma_pow2_values();
        vstd::arithmetic::power2::lemma2_to64();
    }
    let mut d: u128 = den;
    let mut e: u32 = 0;
    while d <= num / 2
        invariant
            den > 0,
            num < num_limit(),
            pow2(75) == num_limit(),
            d as nat == den as nat * pow2(e as nat),
            e + floor_log2_ratio(num as nat, d as nat) == floor_log2_ratio(num as nat, den as nat),
            e > 0 ==> d <= num,
            d >= pow2(e as nat),
            e < 75,
        decreases num - d,
    {
        proof {
            lemma_pow2_unfold((e + 1) as nat);
            lemma_pow2_pos(e as nat);
            assert(2 * d <= num);
            assert(floor_log2_ratio(num as nat, d as nat) == 1 + floor_log2_ratio(
                num as nat,
                2 * d as nat,
            ));
            assert(den as nat * pow2((e + 1) as nat) == 2 * (den as nat * pow2(e as nat)))
                by (nonlinear_arith)
                requires
                    pow2((e + 1) as nat) == 2 * pow2(e as nat),
            ;
            if e + 1 >= 75 {
                if e + 1 > 75 {
                    vstd::arithmetic::power2::lemma_pow2_strictly_increases(75, (e + 1) as nat);
                }
            }
        }
        d = d * 2;
        e = e + 1;
    }
    assert(floor_log2_ratio(num as nat, d as nat) == 0);
    proof {
        lemma_pow2_pos(e as nat);
    }
    if e >= 52 {
        let unit = pow2_u128(e - 52);
        proof {
            lemma_pow2_adds((e - 52) as nat, 52);
            assert(den as nat * unit as nat <= d as nat) by (nonlinear_arith)
                requires
                    d as nat == den as nat * (unit as nat * pow2(52)),
                    pow2(52) == 4503599627370496,
            ;
        }
        let dd = den * unit;
        proof {
            lemma_pow2_pos((e - 52) as nat);
            assert(dd > 0) by (nonlinear_arith)
                requires
                    dd == den * unit,
                    den >= 1,
                    unit >= 1,
            ;
        }
        let m = round_half_even_u128(num, dd);
        proof {
            lemma_pow2_pos((e - 52) as nat);
            lemma_fundamental_div_mod(num as int, dd as int);
            assert(m * unit <= 2 * num) by (nonlinear_arith)
                requires
                    m <= num / dd + 1,
                    (num / dd) * dd + num % dd == num,
                    num % dd >= 0,
                    dd == den * unit,
                    den >= 1,
                    unit >= 1,
                    dd <= num,
            ;
        }
        (m * unit, 1)
    } else {
        let scale = pow2_u128(52 - e);
        proof {
            lemma_pow2_adds(e as nat, (52 - e) as nat);
            if e > 0 {
                vstd::arithmetic::power2::lemma_pow2_strictly_increases((52 - e) as nat, 52);
            }
            lemma_pow2_pos((52 - e) as nat);
            assert(num * scale < 0x8000_0000_0000_0000_0000_0000_0000_0000) by (nonlinear_arith)
                requires
                    num < 37778931862957161709568,
                    scale <= 4503599627370496,
            ;
        }
        let a = num * scale;
        let m = round_half_even_u128(a, den);
        proof {
            assert(a < den * 9007199254740992) by (nonlinear_arith)
                requires
                    a == num * scale,
                    num < 2 * d,
                    d == den * pow2(e as nat),
                    pow2(e as nat) * scale == 4503599627370496,
            ;
            assert(a / den < 9007199254740992) by (nonlinear_arith)
                requires
                    a < den * 9007199254740992,
                    den > 0,
            ;
        }
        (m, scale)
    }
}

/// Appends `fixed_decimal(num, den, places)` to `out`.
pub fn push_fixed_decimal(out: &mut String, num: u128, den: u128, places: u32)
    requires
        den > 0,
        places <= 2,
        num < num_limit(),
    ensures
        final(out)@ == old(out)@ + fixed_decimal(num as nat, den as nat, places as nat),
{
    let scale: u128 = if places == 0 {
        1
    } else if places == 1 {
        10
    } else {
        100
    };
    assert(scale == pow10(places as nat)) by {
        reveal_with_fuel(pow10, 3);
    }
    let n = round_half_even_u128(num * scale, den);
    let ghost start = out@;
    if places == 0 {
        push_decimal(out, n);
    } else {
        push_decimal(out, n / scale);
        out.push('.');
        push_zero_padded(out, n % scale, places as usize);
        assert(out@ =~= start + fixed_decimal(num as nat, den as nat, places as nat));
    }
}

proof fn lemma_pow2_strictly_below(i: nat)
    requires
        i < 127,
    ensures
        pow2(i) * 2 <= u128::MAX,
{
    vstd::arithmetic::power2::lemma_pow2_strictly_increases(i + 1, 128);
    lemma_pow2_unfold(i + 1);
    assert(pow2(128) == 0x1_0000_0000_0000_0000_0000_0000_0000_0000) by {
        vstd::arithmetic::power2::lemma2_to64();
        vstd::arithmetic::power2::lemma2_to64_rest();
        lemma_pow2_adds(64, 64);
    }
}

} // verus!
