//! Single-precision values as decimal text.
use crate::rounding;
use crate::rounding::INFINITE;
use crate::single;
use crate::single::{parts, Single};
use crate::text;
use crate::text::{last_digits_of, wide_digits_of};
use vstd::arithmetic::div_mod;
use vstd::arithmetic::mul;
use vstd::arithmetic::power2;
use vstd::prelude::*;

verus! {

/// Ten to the power of `places`.
pub open spec fn tens(places: nat) -> nat
    decreases places,
{
    if places == 0 {
        1
    } else {
        10 * tens((places - 1) as nat)
    }
}

/// The size of a finite value in steps of the last place, ties going to the
/// even step.
pub open spec fn steps(x: Single, places: nat) -> nat {
    rounding::round_half_even(x.units() * tens(places), power2::pow2(149))
}

/// A value with `places` digits after the point.
pub open spec fn fixed(x: Single, places: nat) -> Seq<char> {
    let sign = if x.negative() {
        seq!['-']
    } else {
        Seq::empty()
    };
    if x.nan() {
        "NaN"@
    } else if x.infinite() {
        sign + "inf"@
    } else {
        let n = steps(x, places);
        sign + (text::digits(n / tens(places)) + seq!['.'] + text::last_digits(
            n % tens(places),
            places,
        ))
    }
}

fn ten_to(places: u32) -> (r: u64)
    requires
        places <= 4,
    ensures
        r == tens(places as nat),
        0 < r <= 10_000,
{
    proof {
        reveal_with_fuel(tens, 5);
    }
    match places {
        0 => 1,
        1 => 10,
        2 => 100,
        3 => 1_000,
        _ => 10_000,
    }
}

/// Twice, `n` times over.
fn doubled(s: u32, n: u32) -> (r: u128)
    requires
        s < 0x100_0000,
        n <= 104,
    ensures
        r == s * power2::pow2(n as nat),
{
    let mut r: u128 = s as u128;
    let mut i: u32 = 0;
    proof {
        power2::lemma2_to64();
    }
    while i < n
        invariant
            i <= n,
            n <= 104,
            s < 0x100_0000,
            r == s * power2::pow2(i as nat),
        decreases n - i,
    {
        proof {
            let p = power2::pow2(i as nat) as int;
            rounding::lemma_pow2_facts(i as nat, 103);
            rounding::lemma_pow2_facts(52, 51);
            power2::lemma2_to64_rest();
            assert(power2::pow2(103) == 0x10_0000_0000_0000 * 0x8_0000_0000_0000);
            assert(s * p <= 0xff_ffff * 0x80_0000_0000_0000_0000_0000_0000) by (nonlinear_arith)
                requires
                    0 <= s <= 0xff_ffff,
                    0 < p <= 0x80_0000_0000_0000_0000_0000_0000,
            ;
            mul::lemma_mul_is_associative(2, s as int, p);
            mul::lemma_mul_is_associative(s as int, 2, p);
            mul::lemma_mul_is_commutative(2, s as int);
        }
        r = r * 2;
        i = i + 1;
    }
    r
}

/// A value in decimal, with its last place correctly rounded.
pub fn fixed_of(x: Single, places: u32) -> (r: String)
    requires
        places <= 4,
    ensures
        r@ == fixed(x, places as nat),
{
    proof {
        reveal_strlit("-");
        reveal_strlit("");
        reveal_strlit(".");
    }
    if x.is_nan() {
        return "NaN".to_string();
    }
    let mut r: String = if x.is_negative() {
        "-".to_string()
    } else {
        "".to_string()
    };
    let ghost sign = r@;
    assert("-"@ =~= seq!['-']);
    assert(""@ =~= Seq::empty());
    assert("."@ =~= seq!['.']);
    if x.size_bits() == INFINITE {
        r.append("inf");
        return r;
    }
    let scale: u64 = ten_to(places);
    let (s, e) = parts(x);
    let (whole, part): (u128, u64) = if e >= 149 {
        let w: u128 = doubled(s, e - 149);
        proof {
            single::lemma_parts(x);
            let big = power2::pow2(149) as int;
            rounding::lemma_pow2_facts((e - 149) as nat, 149);
            rounding::lemma_pow2_facts(149, 0);
            let (si, p, t) = (s as int, power2::pow2((e - 149) as nat) as int, scale as int);
            assert((si * (p * big)) * t == ((si * p) * t) * big) by (nonlinear_arith);
            div_mod::lemma_div_by_multiple(w * t, big);
            div_mod::lemma_mod_multiples_basic(w * t, big);
            div_mod::lemma_div_by_multiple(w as int, t);
            div_mod::lemma_mod_multiples_basic(w as int, t);
        }
        (w, 0)
    } else {
        let shift: u32 = 149 - e;
        proof {
            single::lemma_parts(x);
            assert(s * scale <= 0x100_0000 * 10_000) by (nonlinear_arith)
                requires
                    0 <= s <= 0x100_0000,
                    0 < scale <= 10_000,
            ;
        }
        let n: u64 = (s as u64) * scale;
        proof {
            let (w, c) = (power2::pow2(shift as nat), power2::pow2(e as nat));
            rounding::lemma_pow2_facts(shift as nat, e as nat);
            rounding::lemma_pow2_facts(e as nat, 0);
            rounding::lemma_round_scale(n as nat, w, c);
            let (si, ci, t) = (s as int, c as int, scale as int);
            assert((si * ci) * t == (si * t) * ci) by (nonlinear_arith);
        }
        let q: u64 = if shift < 64 {
            proof {
                rounding::lemma_pow2_facts(shift as nat, 63);
                power2::lemma2_to64_rest();
                vstd::bits::lemma_u64_shl_is_mul(1, shift as u64);
            }
            let w: u64 = 1u64 << (shift as u64);
            let q: u64 = n / w;
            let left: u64 = n % w;
            proof {
                div_mod::lemma_div_nonincreasing(n as int, w as int);
            }
            if left < w - left || (left == w - left && q % 2 == 0) {
                q
            } else {
                q + 1
            }
        } else {
            proof {
                rounding::lemma_pow2_facts(63, shift as nat);
                power2::lemma2_to64_rest();
                let w = power2::pow2(shift as nat);
                div_mod::lemma_basic_div(n as int, w as int);
                div_mod::lemma_small_mod(n as nat, w);
            }
            0
        };
        assert(q == steps(x, places as nat));
        ((q / scale) as u128, q % scale)
    };
    let head: String = wide_digits_of(whole);
    let tail: String = last_digits_of(part, places);
    r.append(head.as_str());
    r.append(".");
    r.append(tail.as_str());
    assert(r@ =~= fixed(x, places as nat));
    r
}

} // verus!
