//! Rounding of exact quotients to the binary32 grid.
//!
//! Every finite single-precision value is a whole multiple of the smallest
//! positive one, so magnitudes are counted in that unit. An exact result is a
//! quotient `n / d` of natural numbers in that unit, and rounding it means
//! finding the nearest multiple of the grid spacing of its binade.
use vstd::arithmetic::div_mod;
use vstd::arithmetic::mul;
use vstd::arithmetic::power2;
use vstd::prelude::*;

verus! {

/// Number of bit patterns in one binade: two to the number of stored
/// significand bits.
pub const BINADE: u32 = 0x80_0000;

/// The magnitude pattern of infinity: every finite magnitude lies below it.
pub const INFINITE: u32 = 0x7f80_0000;

/// The quotient `n / d` rounded to a whole number, ties going to the even one.
pub open spec fn round_half_even(n: nat, d: nat) -> nat {
    let q = n / d;
    let r = n % d;
    if 2 * r < d || (2 * r == d && q % 2 == 0) {
        q
    } else {
        q + 1
    }
}

/// The grid around `n / d` has spacing `2^k`: the quotient needs no more than
/// 24 significand bits above that spacing, and no finer spacing will do.
pub open spec fn in_binade(n: nat, d: nat, k: nat) -> bool {
    &&& n < d * power2::pow2(24 + k)
    &&& k > 0 ==> d * power2::pow2(23 + k) <= n
}

/// The magnitude pattern nearest to `n / d` units, ties going to the even
/// significand, and infinity where the finite values end.
pub open spec fn nearest(n: nat, d: nat) -> nat {
    let k = choose|k: nat| in_binade(n, d, k);
    let m = k * BINADE as nat + round_half_even(n, d * power2::pow2(k));
    if m < INFINITE {
        m
    } else {
        INFINITE as nat
    }
}

/// A power of two that grows with `e` above zero.
pub open spec fn scale_up(e: int) -> nat {
    power2::pow2(if e > 0 {
        e as nat
    } else {
        0
    })
}

/// A power of two that grows with `-e` below zero, so that
/// `scale_up(e) / scale_down(e)` is two to the `e`.
pub open spec fn scale_down(e: int) -> nat {
    scale_up(-e)
}

pub proof fn lemma_pow2_facts(a: nat, b: nat)
    ensures
        power2::pow2(a) > 0,
        power2::pow2(a + b) == power2::pow2(a) * power2::pow2(b),
        power2::pow2(a + 1) == 2 * power2::pow2(a),
        a < b ==> power2::pow2(a) < power2::pow2(b),
        a <= b ==> power2::pow2(a) <= power2::pow2(b),
{
    power2::lemma_pow2_pos(a);
    power2::lemma_pow2_adds(a, b);
    power2::lemma_pow2_unfold(a + 1);
    if a < b {
        power2::lemma_pow2_strictly_increases(a, b);
    }
}

proof fn lemma_binade_step(n: nat, d: nat, j: nat, k: nat)
    requires
        d > 0,
        in_binade(n, d, j),
        in_binade(n, d, k),
    ensures
        j >= k,
{
    if j < k {
        lemma_pow2_facts(24 + j, (23 + k) as nat);
        mul::lemma_mul_left_inequality(
            d as int,
            power2::pow2(24 + j) as int,
            power2::pow2(23 + k) as int,
        );
    }
}

/// There is one spacing for each quotient.
pub proof fn lemma_binade_unique(n: nat, d: nat, j: nat, k: nat)
    requires
        d > 0,
        in_binade(n, d, j),
        in_binade(n, d, k),
    ensures
        j == k,
{
    lemma_binade_step(n, d, j, k);
    lemma_binade_step(n, d, k, j);
}

/// Every quotient lies in a binade.
pub proof fn lemma_binade_exists(n: nat, d: nat) -> (k: nat)
    requires
        d > 0,
    ensures
        in_binade(n, d, k),
    decreases n,
{
    lemma_pow2_facts(24, 0);
    if n < d * power2::pow2(24) {
        0
    } else {
        mul::lemma_mul_strictly_positive(d as int, power2::pow2(24) as int);
        let j = lemma_binade_exists(n / 2, d);
        lemma_pow2_facts(24 + j, 0);
        lemma_pow2_facts(23 + j, 0);
        let hi = power2::pow2(24 + j) as int;
        let lo = power2::pow2(23 + j) as int;
        assert(d * (2 * hi) == 2 * (d * hi)) by (nonlinear_arith);
        assert(d * (2 * lo) == 2 * (d * lo)) by (nonlinear_arith);
        assert(power2::pow2(24 + (j + 1)) == 2 * hi);
        assert(power2::pow2(23 + (j + 1)) == 2 * lo);
        j + 1
    }
}

/// The definition of `nearest`, for a spacing at hand.
pub proof fn lemma_nearest_at(n: nat, d: nat, k: nat)
    requires
        d > 0,
        in_binade(n, d, k),
    ensures
        ({
            let m = k * BINADE as nat + round_half_even(n, d * power2::pow2(k));
            nearest(n, d) == if m < INFINITE {
                m
            } else {
                INFINITE as nat
            }
        }),
{
    let c = choose|c: nat| in_binade(n, d, c);
    lemma_binade_unique(n, d, c, k);
}

/// Rounding depends on the quotient alone.
pub proof fn lemma_round_scale(n: nat, d: nat, c: nat)
    requires
        d > 0,
        c > 0,
    ensures
        d * c > 0,
        round_half_even(n * c, d * c) == round_half_even(n, d),
{
    div_mod::lemma_div_multiples_vanish_quotient(c as int, n as int, d as int);
    div_mod::lemma_truncate_middle(n as int, c as int, d as int);
    mul::lemma_mul_is_commutative(c as int, n as int);
    mul::lemma_mul_is_commutative(c as int, d as int);
    let r = (n % d) as int;
    assert(2 * (c * r) == c * (2 * r)) by (nonlinear_arith);
    if 2 * r < d {
        mul::lemma_mul_left_inequality(c as int, 2 * r, d as int);
    } else if 2 * r > d {
        mul::lemma_mul_left_inequality(c as int, d as int, 2 * r);
    }
}

proof fn lemma_binade_scale(n: nat, d: nat, c: nat, k: nat)
    requires
        d > 0,
        c > 0,
        in_binade(n, d, k),
    ensures
        in_binade(n * c, d * c, k),
{
    let hi = power2::pow2(24 + k) as int;
    assert(n * c < (d * c) * hi) by (nonlinear_arith)
        requires
            n < d * hi,
            c > 0,
    ;
    if k > 0 {
        let lo = power2::pow2(23 + k) as int;
        assert((d * c) * lo <= n * c) by (nonlinear_arith)
            requires
                d * lo <= n,
                c > 0,
        ;
    }
}

/// The nearest pattern depends on the quotient alone.
pub proof fn lemma_nearest_scale(n: nat, d: nat, c: nat)
    requires
        d > 0,
        c > 0,
    ensures
        d * c > 0,
        nearest(n * c, d * c) == nearest(n, d),
{
    let k = lemma_binade_exists(n, d);
    lemma_binade_scale(n, d, c, k);
    let s = power2::pow2(k);
    lemma_pow2_facts(k, 0);
    assert(d * c > 0 && d * s > 0) by (nonlinear_arith)
        requires
            d > 0,
            c > 0,
            s > 0,
    ;
    lemma_round_scale(n, d * s, c);
    assert((d * s) * c == (d * c) * s) by (nonlinear_arith);
    lemma_nearest_at(n, d, k);
    lemma_nearest_at(n * c, d * c, k);
}

/// The rounded quotient below a bound on the quotient.
pub proof fn lemma_round_bounds(n: nat, d: nat, lo: nat, hi: nat)
    requires
        d > 0,
        d * lo <= n < d * hi,
    ensures
        lo <= round_half_even(n, d) <= hi,
{
    div_mod::lemma_multiply_divide_lt(n as int, d as int, hi as int);
    div_mod::lemma_div_is_ordered((d * lo) as int, n as int, d as int);
    div_mod::lemma_div_multiples_vanish(lo as int, d as int);
}

proof fn lemma_leading_zeros(p: u64)
    ensures
        0 <= vstd::std_specs::bits::u64_leading_zeros(p) <= 64,
        p < power2::pow2((64 - vstd::std_specs::bits::u64_leading_zeros(p)) as nat),
        p > 0 ==> vstd::std_specs::bits::u64_leading_zeros(p) < 64 && power2::pow2(
            (63 - vstd::std_specs::bits::u64_leading_zeros(p)) as nat,
        ) <= p,
    decreases p,
{
    reveal(vstd::std_specs::bits::u64_leading_zeros);
    power2::lemma2_to64();
    vstd::std_specs::bits::axiom_u64_leading_zeros(p);
    if p > 0 {
        lemma_leading_zeros(p / 2);
        let z = vstd::std_specs::bits::u64_leading_zeros(p / 2);
        lemma_pow2_facts((64 - z) as nat, 0);
        if p > 1 {
            lemma_pow2_facts((63 - z) as nat, 0);
        }
    }
}

/// The number of binary digits of `p`.
pub fn bit_length(p: u64) -> (len: u32)
    ensures
        len <= 64,
        p < power2::pow2(len as nat),
        p > 0 ==> len > 0 && power2::pow2((len - 1) as nat) <= p,
{
    proof {
        lemma_leading_zeros(p);
    }
    64 - p.leading_zeros()
}

proof fn lemma_scaled_binade(p: u64, e: int, len: nat, k: nat)
    requires
        p > 0,
        len > 0,
        power2::pow2((len - 1) as nat) <= p < power2::pow2(len),
        k == if len + e > 24 {
            len + e - 24
        } else {
            0
        },
    ensures
        scale_down(e) > 0,
        in_binade(p as nat * scale_up(e), scale_down(e), k),
{
    let a = (if e > 0 {
        e as nat
    } else {
        0
    });
    let b = (if e < 0 {
        (-e) as nat
    } else {
        0
    });
    lemma_pow2_facts(a, 0);
    lemma_pow2_facts(b, 24 + k);
    lemma_pow2_facts(len, a);
    lemma_pow2_facts(len + a, b + (24 + k));
    assert(p * power2::pow2(a) < power2::pow2(len) * power2::pow2(a)) by (nonlinear_arith)
        requires
            p < power2::pow2(len),
            power2::pow2(a) > 0,
    ;
    if k > 0 {
        lemma_pow2_facts(b, 23 + k);
        lemma_pow2_facts((len - 1) as nat, a);
        assert(b + (23 + k) == len - 1 + a);
        mul::lemma_mul_inequality(
            power2::pow2((len - 1) as nat) as int,
            p as int,
            power2::pow2(a) as int,
        );
    }
}

proof fn lemma_scaled_round(p: u64, e: int, k: nat)
    ensures
        k >= e ==> round_half_even(
            p as nat * scale_up(e),
            scale_down(e) * power2::pow2(k),
        ) == round_half_even(p as nat, power2::pow2((k - e) as nat)),
        k < e ==> round_half_even(p as nat * scale_up(e), scale_down(e) * power2::pow2(k)) == p
            * power2::pow2((e - k) as nat),
{
    let a = (if e > 0 {
        e as nat
    } else {
        0
    });
    let b = (if e < 0 {
        (-e) as nat
    } else {
        0
    });
    lemma_pow2_facts(a, 0);
    lemma_pow2_facts(b, k);
    power2::lemma2_to64();
    if k >= e {
        let s = (k - e) as nat;
        lemma_pow2_facts(s, a);
        assert(s + a == b + k);
        lemma_round_scale(p as nat, power2::pow2(s), power2::pow2(a));
    } else {
        let t = (e - k) as nat;
        lemma_pow2_facts(t, k);
        lemma_pow2_facts(k, 0);
        let x = p as nat * power2::pow2(t);
        assert(p * power2::pow2((t + k) as nat) == x * power2::pow2(k)) by {
            mul::lemma_mul_is_associative(
                p as int,
                power2::pow2(t) as int,
                power2::pow2(k) as int,
            );
        }
        lemma_round_scale(x, 1, power2::pow2(k));
    }
}

/// The magnitude pattern nearest to `p` times two to the `e`.
pub fn round_scaled(p: u64, e: i32) -> (m: u32)
    requires
        -1000 <= e <= 1000,
    ensures
        m == nearest(p as nat * scale_up(e as int), scale_down(e as int)),
        m <= INFINITE,
{
    let ghost n = p as nat * scale_up(e as int);
    let ghost d = scale_down(e as int);
    if p == 0 {
        proof {
            let b = (if e < 0 {
                (-e) as nat
            } else {
                0
            });
            lemma_pow2_facts(b, 0);
            lemma_pow2_facts(24, 0);
            lemma_pow2_facts(0, 0);
            mul::lemma_mul_strictly_positive(d as int, power2::pow2(24) as int);
            mul::lemma_mul_strictly_positive(d as int, power2::pow2(0) as int);
            lemma_nearest_at(n, d, 0);
        }
        return 0;
    }
    let len: i32 = bit_length(p) as i32;
    let k: i32 = if len + e > 24 {
        len + e - 24
    } else {
        0
    };
    proof {
        lemma_scaled_binade(p, e as int, len as nat, k as nat);
        lemma_nearest_at(n, d, k as nat);
        lemma_scaled_round(p, e as int, k as nat);
        lemma_pow2_facts(k as nat, 24);
        lemma_pow2_facts(k as nat, 23);
        power2::lemma2_to64();
        let w = power2::pow2(k as nat);
        assert(d * w > 0) by (nonlinear_arith)
            requires
                d > 0,
                w > 0,
        ;
        mul::lemma_mul_is_associative(d as int, w as int, power2::pow2(24) as int);
        mul::lemma_mul_is_associative(d as int, w as int, power2::pow2(23) as int);
        assert(k as nat + 24 == 24 + k as nat);
        assert(k as nat + 23 == 23 + k as nat);
        if k > 0 {
            lemma_round_bounds(n, d * w, BINADE as nat, 2 * BINADE as nat);
        } else {
            lemma_round_bounds(n, d * w, 0, 2 * BINADE as nat);
        }
    }
    if k > 253 {
        return INFINITE;
    }
    let s: i32 = k - e;
    let q: u64 = if s < 0 {
        let shift: u64 = (-s) as u64;
        proof {
            lemma_pow2_facts(shift as nat, 24);
            lemma_pow2_facts(len as nat, shift as nat);
            mul::lemma_mul_inequality(
                p as int,
                power2::pow2(len as nat) as int,
                power2::pow2(shift as nat) as int,
            );
            lemma_pow2_facts((len + shift) as nat, 24);
            vstd::bits::lemma_u64_shl_is_mul(p, shift);
        }
        p << shift
    } else if s > 64 {
        proof {
            lemma_pow2_facts(64, s as nat);
            lemma_pow2_facts(65, s as nat);
            lemma_pow2_facts(64, 0);
            power2::lemma2_to64_rest();
            div_mod::lemma_basic_div(p as int, power2::pow2(s as nat) as int);
            div_mod::lemma_small_mod(p as nat, power2::pow2(s as nat));
        }
        0
    } else if s == 64 {
        proof {
            power2::lemma2_to64_rest();
            lemma_pow2_facts(63, 0);
            div_mod::lemma_basic_div(p as int, power2::pow2(64) as int);
            div_mod::lemma_small_mod(p as nat, power2::pow2(64));
        }
        if p > 0x8000_0000_0000_0000 {
            1
        } else {
            0
        }
    } else {
        proof {
            lemma_pow2_facts(s as nat, 63);
            power2::lemma2_to64_rest();
            vstd::bits::lemma_u64_shl_is_mul(1, s as u64);
        }
        let w: u64 = 1u64 << (s as u64);
        let whole: u64 = p / w;
        let rest: u64 = p % w;
        if rest < w - rest || (rest == w - rest && whole % 2 == 0) {
            whole
        } else {
            whole + 1
        }
    };
    assert(q == round_half_even(n, d * power2::pow2(k as nat)));
    (k as u32) * BINADE + (q as u32)
}

/// A quotient whose numerator is scaled by two to the `e`, seen at a spacing of
/// `2^k` that is no finer: the scale moves into the divisor.
proof fn lemma_scaled_quotient(x: nat, y: nat, e: int, k: nat)
    requires
        y > 0,
        k >= e,
    ensures
        y * scale_down(e) > 0,
        x < y * power2::pow2((24 + k - e) as nat) <==> x * scale_up(e) < (y * scale_down(e))
            * power2::pow2(24 + k),
        y * power2::pow2((23 + k - e) as nat) <= x <==> (y * scale_down(e)) * power2::pow2(23 + k)
            <= x * scale_up(e),
        round_half_even(x * scale_up(e), (y * scale_down(e)) * power2::pow2(k)) == round_half_even(
            x,
            y * power2::pow2((k - e) as nat),
        ),
{
    let a = (if e > 0 {
        e as nat
    } else {
        0
    });
    let b = (if e < 0 {
        (-e) as nat
    } else {
        0
    });
    let up = power2::pow2(a);
    let down = power2::pow2(b);
    lemma_pow2_facts(a, 0);
    lemma_pow2_facts(b, 0);
    mul::lemma_mul_strictly_positive(y as int, down as int);
    assert forall|j: nat| j >= e implies (y * down) * #[trigger] power2::pow2(j) == (y
        * power2::pow2((j - e) as nat)) * up by {
        let s = (j - e) as nat;
        lemma_pow2_facts(b, j);
        lemma_pow2_facts(s, a);
        assert(b + j == s + a);
        mul::lemma_mul_is_associative(y as int, down as int, power2::pow2(j) as int);
        mul::lemma_mul_is_associative(y as int, power2::pow2(s) as int, up as int);
    }
    let hi = y * power2::pow2((24 + k - e) as nat);
    let lo = y * power2::pow2((23 + k - e) as nat);
    let mid = y * power2::pow2((k - e) as nat);
    assert((y * down) * power2::pow2(24 + k) == hi * up);
    assert((y * down) * power2::pow2(23 + k) == lo * up);
    assert((y * down) * power2::pow2(k) == mid * up);
    assert(x < hi <==> x * up < hi * up) by (nonlinear_arith)
        requires
            up > 0,
    ;
    assert(lo <= x <==> lo * up <= x * up) by (nonlinear_arith)
        requires
            up > 0,
    ;
    lemma_pow2_facts((k - e) as nat, 0);
    mul::lemma_mul_strictly_positive(y as int, power2::pow2((k - e) as nat) as int);
    lemma_round_scale(x, mid, up);
}

/// The quotient of `t` and `y` doubled, with a last digit that only records
/// whether something was left over.
pub open spec fn jammed(t: nat, y: nat) -> nat {
    2 * (t / y) + if t % y > 0 {
        1nat
    } else {
        0nat
    }
}

/// Rounded at a spacing of four or more, the recorded remainder rounds as the
/// exact quotient does.
proof fn lemma_jammed_round(t: nat, y: nat, quarter: nat)
    requires
        y > 0,
        quarter > 0,
    ensures
        round_half_even(2 * t, y * (4 * quarter)) == round_half_even(jammed(t, y), 4 * quarter),
{
    let q = t / y;
    let r = t % y;
    let b = if r > 0 {
        1int
    } else {
        0int
    };
    let big = q / (2 * quarter);
    let rest = q % (2 * quarter);
    let width = 4 * quarter;
    div_mod::lemma_fundamental_div_mod(t as int, y as int);
    div_mod::lemma_fundamental_div_mod(q as int, (2 * quarter) as int);
    let rho = 2 * (y * rest + r);
    assert(2 * t == (y * width) * big + rho) by (nonlinear_arith)
        requires
            t == y * q + r,
            q == (2 * quarter) * big + rest,
            width == 4 * quarter,
            rho == 2 * (y * rest + r),
    ;
    assert(0 <= rho < y * width) by (nonlinear_arith)
        requires
            rho == 2 * (y * rest + r),
            0 <= rest <= 2 * quarter - 1,
            0 <= r < y,
            width == 4 * quarter,
    ;
    mul::lemma_mul_is_commutative((y * width) as int, big as int);
    div_mod::lemma_fundamental_div_mod_converse(
        (2 * t) as int,
        (y * width) as int,
        big as int,
        rho as int,
    );
    assert(jammed(t, y) == width * big + (2 * rest + b)) by (nonlinear_arith)
        requires
            jammed(t, y) == 2 * q + b,
            q == (2 * quarter) * big + rest,
            width == 4 * quarter,
    ;
    div_mod::lemma_fundamental_div_mod_converse(
        jammed(t, y) as int,
        width as int,
        big as int,
        2 * rest + b,
    );
    if rest < quarter {
        assert(2 * rho < y * width) by (nonlinear_arith)
            requires
                rho == 2 * (y * rest + r),
                rest + 1 <= quarter,
                0 <= r < y,
                width == 4 * quarter,
        ;
    } else if rest > quarter {
        assert(2 * rho > y * width) by (nonlinear_arith)
            requires
                rho == 2 * (y * rest + r),
                rest >= quarter + 1,
                0 <= r < y,
                width == 4 * quarter,
        ;
    } else {
        assert(2 * rho == y * width + 4 * r) by (nonlinear_arith)
            requires
                rho == 2 * (y * rest + r),
                rest == quarter,
                width == 4 * quarter,
        ;
    }
}

/// The magnitude pattern nearest to `2 t / y` times two to the `e`, where the
/// quotient has digits to spare.
pub fn round_quotient(t: u64, y: u32, e: i32) -> (m: u32)
    requires
        y > 0,
        t < 0x1000_0000_0000_0000,
        t / y as u64 >= 0x1000_0000,
        -900 <= e <= 900,
    ensures
        m == nearest(2 * t as nat * scale_up(e as int), y as nat * scale_down(e as int)),
        m <= INFINITE,
{
    let whole: u64 = t / y as u64;
    let left: bool = t % y as u64 > 0;
    let p: u64 = 2 * whole + if left {
        1
    } else {
        0
    };
    let m: u32 = round_scaled(p, e);
    proof {
        assert(p == jammed(t as nat, y as nat));
        lemma_leading_zeros(p);
        let len = (64 - vstd::std_specs::bits::u64_leading_zeros(p)) as nat;
        let k = (if len + e > 24 {
            (len + e - 24) as nat
        } else {
            0
        });
        power2::lemma2_to64();
        assert(len > 26) by {
            if len <= 26 {
                lemma_pow2_facts(len, 26);
            }
        }
        let s = (k - e) as nat;
        lemma_scaled_binade(p, e as int, len, k);
        lemma_scaled_quotient(2 * t as nat, y as nat, e as int, k);
        lemma_scaled_quotient(p as nat, 1, e as int, k);
        lemma_pow2_facts((s - 2) as nat, 2);
        let quarter = power2::pow2((s - 2) as nat);
        lemma_jammed_round(t as nat, y as nat, quarter);
        let rest = (t % (y as u64)) as int;
        div_mod::lemma_fundamental_div_mod(t as int, y as int);
        lemma_pow2_facts((23 + s) as nat, 0);
        lemma_pow2_facts((22 + s) as nat, 0);
        let h = power2::pow2((23 + s) as nat) as int;
        let h2 = power2::pow2((22 + s) as nat) as int;
        assert(24 + s == 23 + s + 1);
        assert(23 + s == 22 + s + 1);
        assert(power2::pow2((24 + k - e) as nat) == 2 * h);
        assert(power2::pow2((23 + k - e) as nat) == 2 * h2);
        assert(p < 2 * h);
        assert(2 * t < y * (2 * h)) by (nonlinear_arith)
            requires
                t == y * whole + rest,
                rest < y,
                whole < h,
                y > 0,
        ;
        if k > 0 {
            assert(y * (2 * h2) <= 2 * t) by (nonlinear_arith)
                requires
                    t == y * whole + rest,
                    0 <= rest,
                    h2 <= whole,
                    y > 0,
            ;
        }
        let up = scale_up(e as int);
        let down = scale_down(e as int);
        lemma_nearest_at(2 * t as nat * up, y as nat * down, k);
        assert(1 * down == down);
        lemma_nearest_at(p as nat * up, down, k);
        assert(1 * power2::pow2(s) == power2::pow2(s));
    }
    m
}

/// A pattern's own size rounds to the pattern.
pub proof fn lemma_nearest_exact(s: nat, e: nat)
    requires
        s < 2 * BINADE,
        e > 0 ==> s >= BINADE,
        e <= 253,
    ensures
        nearest(s * power2::pow2(e), 1) == e * BINADE as nat + s,
{
    let w = power2::pow2(e);
    lemma_pow2_facts(e, 24);
    lemma_pow2_facts(e, 23);
    power2::lemma2_to64();
    assert(s * w < w * 0x100_0000) by (nonlinear_arith)
        requires
            s < 0x100_0000,
            w > 0,
    ;
    if e > 0 {
        assert(w * 0x80_0000 <= s * w) by (nonlinear_arith)
            requires
                s >= 0x80_0000,
                w > 0,
        ;
    }
    assert(1 * power2::pow2(24 + e) == power2::pow2(24 + e));
    assert(1 * power2::pow2(23 + e) == power2::pow2(23 + e));
    assert(e + 24 == 24 + e);
    assert(e + 23 == 23 + e);
    lemma_nearest_at(s * w, 1, e);
    lemma_round_scale(s, 1, w);
    assert(1 * w == w);
}

} // verus!
