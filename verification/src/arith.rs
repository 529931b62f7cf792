//! The four operations and the remainder on single-precision values.
use crate::rounding;
use crate::rounding::{bit_length, round_quotient, round_scaled, BINADE, INFINITE};
use crate::single;
use crate::single::{parts, Single, NOT_A_NUMBER};
use vstd::arithmetic::div_mod;
use vstd::arithmetic::mul;
use vstd::arithmetic::power2;
use vstd::prelude::*;

verus! {

/// A value moved by much less than the spacing of its binade rounds back to
/// itself, also just below a power of two, where the spacing halves.
proof fn lemma_absorbed(a: Single, small: nat, below: bool)
    requires
        a.finite(),
        a.exponent() >= 4,
        16 * small < power2::pow2(a.exponent()),
    ensures
        below ==> small < a.units() && rounding::nearest((a.units() - small) as nat, 1)
            == a.magnitude(),
        !below ==> rounding::nearest(a.units() + small, 1) == a.magnitude(),
{
    single::lemma_parts(a);
    let e = a.exponent();
    let s = a.significand();
    let w = power2::pow2(e) as int;
    rounding::lemma_pow2_facts(e, 0);
    rounding::lemma_pow2_facts((e - 1) as nat, 0);
    rounding::lemma_pow2_facts(24, e);
    rounding::lemma_pow2_facts(23, e);
    power2::lemma2_to64();
    let half = power2::pow2((e - 1) as nat) as int;
    assert(w == 2 * half);
    assert(s * w >= BINADE * w) by (nonlinear_arith)
        requires
            s >= BINADE,
            w > 0,
    ;
    assert((s + 1) * w <= 2 * BINADE * w) by (nonlinear_arith)
        requires
            s + 1 <= 2 * BINADE,
            w > 0,
    ;
    assert((s + 1) * w == s * w + w) by (nonlinear_arith);
    assert((s - 1) * w == s * w - w) by (nonlinear_arith);
    let n = if below {
        a.units() - small
    } else {
        a.units() + small as int
    };
    assert(1 * power2::pow2(e) == power2::pow2(e));
    assert(1 * power2::pow2(24 + e) == power2::pow2(24 + e));
    assert(1 * power2::pow2(23 + e) == power2::pow2(23 + e));
    if !below || small == 0 {
        rounding::lemma_nearest_at(n as nat, 1, e);
        mul::lemma_mul_is_commutative(s as int, w);
        div_mod::lemma_fundamental_div_mod_converse(n, w, s as int, small as int);
    } else if s > BINADE {
        assert((s - 1) * w >= BINADE * w) by (nonlinear_arith)
            requires
                s - 1 >= BINADE,
                w > 0,
        ;
        rounding::lemma_nearest_at(n as nat, 1, e);
        div_mod::lemma_fundamental_div_mod_converse(n, w, s - 1, w - small);
    } else {
        let k = (e - 1) as nat;
        rounding::lemma_pow2_facts(24, k);
        rounding::lemma_pow2_facts(23, k);
        assert(1 * power2::pow2(k) == power2::pow2(k));
        assert(1 * power2::pow2(24 + k) == power2::pow2(24 + k));
        assert(1 * power2::pow2(23 + k) == power2::pow2(23 + k));
        assert(n == 2 * BINADE * half - small);
        assert((2 * BINADE - 1) * half == 2 * BINADE * half - half) by (nonlinear_arith);
        assert(half > 1) by {
            rounding::lemma_pow2_facts(2, k);
        }
        rounding::lemma_nearest_at(n as nat, 1, k);
        div_mod::lemma_fundamental_div_mod_converse(n, half, 2 * BINADE - 1, half - small);
    }
}

/// The magnitude of the sum of two finite values, the first of them at least
/// as large as the second, with the second added or taken away.
fn combine(a: Single, b: Single, subtract: bool) -> (m: u32)
    requires
        a.finite(),
        b.finite(),
        b.magnitude() <= a.magnitude(),
    ensures
        b.units() <= a.units(),
        m <= INFINITE,
        subtract ==> m == rounding::nearest((a.units() - b.units()) as nat, 1),
        !subtract ==> m == rounding::nearest(a.units() + b.units(), 1),
{
    let (sa, ea) = parts(a);
    let (sb, eb) = parts(b);
    proof {
        single::lemma_parts(a);
        single::lemma_parts(b);
        if b.magnitude() < a.magnitude() {
            single::lemma_units_increase(b, a);
        }
    }
    let gap: u32 = ea - eb;
    if gap <= 36 {
        proof {
            rounding::lemma_pow2_facts(gap as nat, 36);
            rounding::lemma_pow2_facts(gap as nat, eb as nat);
            power2::lemma2_to64_rest();
            assert(sa * power2::pow2(gap as nat) < 0x100_0000 * 0x10_0000_0000) by (nonlinear_arith)
                requires
                    0 <= sa < 0x100_0000,
                    0 < power2::pow2(gap as nat) <= 0x10_0000_0000,
            ;
            vstd::bits::lemma_u64_shl_is_mul(sa as u64, gap as u64);
            mul::lemma_mul_is_associative(
                sa as int,
                power2::pow2(gap as nat) as int,
                power2::pow2(eb as nat) as int,
            );
        }
        let wide: u64 = (sa as u64) << (gap as u64);
        let ghost unit = power2::pow2(eb as nat) as int;
        proof {
            rounding::lemma_pow2_facts(eb as nat, 0);
            power2::lemma2_to64();
            assert(wide * unit == a.units());
            assert(wide >= sb) by {
                if wide < sb {
                    mul::lemma_mul_strict_inequality(wide as int, sb as int, unit);
                }
            }
            assert((wide + sb) * unit == wide * unit + sb * unit) by (nonlinear_arith);
            assert((wide - sb) * unit == wide * unit - sb * unit) by (nonlinear_arith);
        }
        let sum: u64 = if subtract {
            wide - sb as u64
        } else {
            wide + sb as u64
        };
        round_scaled(sum, eb as i32)
    } else {
        proof {
            let e = ea as nat;
            rounding::lemma_pow2_facts(eb as nat, 24);
            rounding::lemma_pow2_facts((eb + 24) as nat, 4);
            rounding::lemma_pow2_facts((eb + 28) as nat, e);
            power2::lemma2_to64();
            assert(b.units() <= 0x100_0000 * power2::pow2(eb as nat)) by (nonlinear_arith)
                requires
                    b.units() == sb * power2::pow2(eb as nat),
                    sb <= 0x100_0000,
            ;
            lemma_absorbed(a, b.units(), subtract);
        }
        a.size_bits()
    }
}

impl Single {
    pub fn add(self, other: Single) -> (r: Single)
        ensures
            r == self.plus(other),
    {
        proof {
            reveal(Single::plus);
        }
        let a: u32 = self.size_bits();
        let b: u32 = other.size_bits();
        let na: bool = self.is_negative();
        let nb: bool = other.is_negative();
        if a > INFINITE || b > INFINITE || (a == INFINITE && b == INFINITE && na != nb) {
            return Single { bits: NOT_A_NUMBER };
        }
        if a == INFINITE {
            return self;
        }
        if b == INFINITE {
            return other;
        }
        proof {
            single::lemma_parts(self);
            single::lemma_parts(other);
            if a < b {
                single::lemma_units_increase(self, other);
            } else if b < a {
                single::lemma_units_increase(other, self);
            }
        }
        if na != nb && a == b {
            Single { bits: 0 }
        } else if a == 0 && b == 0 {
            Single::assemble(na, 0)
        } else if a >= b {
            Single::assemble(na, combine(self, other, na != nb))
        } else {
            Single::assemble(nb, combine(other, self, na != nb))
        }
    }

    pub fn sub(self, other: Single) -> (r: Single)
        ensures
            r == self.minus(other),
    {
        self.add(other.neg())
    }

    pub fn mul(self, other: Single) -> (r: Single)
        ensures
            r == self.times(other),
    {
        proof {
            reveal(Single::times);
        }
        let a: u32 = self.size_bits();
        let b: u32 = other.size_bits();
        let negative: bool = self.is_negative() != other.is_negative();
        if a > INFINITE || b > INFINITE {
            return Single { bits: NOT_A_NUMBER };
        }
        if a == INFINITE || b == INFINITE {
            if a == 0 || b == 0 {
                return Single { bits: NOT_A_NUMBER };
            }
            return Single::assemble(negative, INFINITE);
        }
        let (sa, ea) = parts(self);
        let (sb, eb) = parts(other);
        proof {
            single::lemma_parts(self);
            single::lemma_parts(other);
            assert(sa * sb < 0x100_0000 * 0x100_0000) by (nonlinear_arith)
                requires
                    0 <= sa < 0x100_0000,
                    0 <= sb < 0x100_0000,
            ;
            assert(0 <= sa * sb) by (nonlinear_arith)
                requires
                    0 <= sa,
                    0 <= sb,
            ;
        }
        let product: u64 = (sa as u64) * (sb as u64);
        let e: i32 = (ea + eb) as i32 - 149;
        proof {
            let (pa, pb) = (power2::pow2(ea as nat) as int, power2::pow2(eb as nat) as int);
            rounding::lemma_pow2_facts(ea as nat, eb as nat);
            assert((sa * pa) * (sb * pb) == (sa * sb) * (pa * pb)) by (nonlinear_arith);
            let up = rounding::scale_up(e as int);
            let down = rounding::scale_down(e as int);
            let shared = if ea + eb < 149 {
                (ea + eb) as nat
            } else {
                149
            };
            rounding::lemma_pow2_facts((if e > 0 {
                e as nat
            } else {
                0
            }), shared);
            rounding::lemma_pow2_facts((if e < 0 {
                (-e) as nat
            } else {
                0
            }), shared);
            rounding::lemma_pow2_facts(shared, 0);
            mul::lemma_mul_is_associative(product as int, up as int, power2::pow2(shared) as int);
            rounding::lemma_nearest_scale(product as nat * up, down, power2::pow2(shared));
        }
        Single::assemble(negative, round_scaled(product, e))
    }

    pub fn div(self, other: Single) -> (r: Single)
        ensures
            r == self.over(other),
    {
        proof {
            reveal(Single::over);
        }
        let a: u32 = self.size_bits();
        let b: u32 = other.size_bits();
        let negative: bool = self.is_negative() != other.is_negative();
        if a > INFINITE || b > INFINITE {
            return Single { bits: NOT_A_NUMBER };
        }
        if a == INFINITE {
            if b == INFINITE {
                return Single { bits: NOT_A_NUMBER };
            }
            return Single::assemble(negative, INFINITE);
        }
        if b == INFINITE {
            return Single::assemble(negative, 0);
        }
        if b == 0 {
            if a == 0 {
                return Single { bits: NOT_A_NUMBER };
            }
            return Single::assemble(negative, INFINITE);
        }
        let (sa, ea) = parts(self);
        let (sb, eb) = parts(other);
        proof {
            single::lemma_parts(self);
            single::lemma_parts(other);
        }
        if a == 0 {
            proof {
                power2::lemma2_to64();
                rounding::lemma_pow2_facts(24, 0);
                let d = other.units();
                mul::lemma_mul_strictly_positive(d as int, power2::pow2(24) as int);
                assert(0nat * power2::pow2(149) == 0);
                rounding::lemma_nearest_at(0, d, 0);
                assert(d * power2::pow2(0) == d);
            }
            return Single::assemble(negative, 0);
        }
        let digits: u32 = bit_length(sa as u64);
        let ghost len = digits as nat;
        proof {
            power2::lemma2_to64();
            if len > 24 {
                rounding::lemma_pow2_facts(24, (len - 1) as nat);
            }
        }
        let lift: u32 = 24 - digits;
        proof {
            rounding::lemma_pow2_facts(len, lift as nat);
            rounding::lemma_pow2_facts((len - 1) as nat, lift as nat);
            let w = power2::pow2(lift as nat) as int;
            rounding::lemma_pow2_facts(lift as nat, 24);
            assert(sa * w < power2::pow2(len) * w) by (nonlinear_arith)
                requires
                    sa < power2::pow2(len),
                    w > 0,
            ;
            assert(power2::pow2((len - 1) as nat) * w <= sa * w) by (nonlinear_arith)
                requires
                    power2::pow2((len - 1) as nat) <= sa,
                    w > 0,
            ;
            vstd::bits::lemma_u64_shl_is_mul(sa as u64, lift as u64);
        }
        let full: u64 = (sa as u64) << (lift as u64);
        assert(0x80_0000 <= full < 0x100_0000);
        let t: u64 = full * 0x10_0000_0000;
        let e: i32 = (ea as i32) - (lift as i32) + 112 - (eb as i32);
        proof {
            assert(t / sb as u64 >= 0x1000_0000) by {
                div_mod::lemma_div_is_ordered_by_denominator(t as int, sb as int, 0x100_0000);
            }
            let up = rounding::scale_up(e as int);
            let down = rounding::scale_down(e as int);
            let x = (if e > 0 {
                e as nat
            } else {
                0
            });
            let y = (if e < 0 {
                (-e) as nat
            } else {
                0
            });
            power2::lemma2_to64_rest();
            // Both fractions over the same power of two.
            let n = self.units() * power2::pow2(149);
            let d = other.units();
            let wide = power2::pow2((ea + 149 + y) as nat) as int;
            rounding::lemma_pow2_facts(ea as nat, 149);
            rounding::lemma_pow2_facts((ea + 149) as nat, y);
            rounding::lemma_pow2_facts(lift as nat, 36);
            rounding::lemma_pow2_facts((lift + 36) as nat, 0);
            rounding::lemma_pow2_facts((lift + 37) as nat, x);
            rounding::lemma_pow2_facts((lift + 37 + x) as nat, eb as nat);
            assert(ea + 149 + y == lift + 37 + x + eb);
            assert(n * down == sa * wide) by (nonlinear_arith)
                requires
                    n == (sa * power2::pow2(ea as nat)) * power2::pow2(149),
                    power2::pow2((ea + 149) as nat) == power2::pow2(ea as nat) * power2::pow2(149),
                    wide == power2::pow2((ea + 149) as nat) * down,
            ;
            assert((2 * t as nat * up) * power2::pow2(eb as nat) == sa * wide) by (nonlinear_arith)
                requires
                    t == (sa * power2::pow2(lift as nat)) * 0x10_0000_0000,
                    power2::pow2((lift + 36) as nat) == power2::pow2(lift as nat) * 0x10_0000_0000,
                    power2::pow2((lift + 37) as nat) == 2 * power2::pow2((lift + 36) as nat),
                    power2::pow2((lift + 37 + x) as nat) == power2::pow2((lift + 37) as nat) * up,
                    wide == power2::pow2((lift + 37 + x) as nat) * power2::pow2(eb as nat),
            ;
            assert(d * down == (sb as nat * down) * power2::pow2(eb as nat)) by (nonlinear_arith)
                requires
                    d == sb * power2::pow2(eb as nat),
            ;
            rounding::lemma_pow2_facts(y, 0);
            rounding::lemma_pow2_facts(eb as nat, 0);
            mul::lemma_mul_strictly_positive(sb as int, down as int);
            rounding::lemma_nearest_scale(n, d, down);
            rounding::lemma_nearest_scale(
                2 * t as nat * up,
                sb as nat * down,
                power2::pow2(eb as nat),
            );
        }
        Single::assemble(negative, round_quotient(t, sb, e))
    }

    /// The remainder of a division that rounds towards zero.
    pub fn rem(self, other: Single) -> (r: Single)
        ensures
            r == self.modulo(other),
    {
        proof {
            reveal(Single::modulo);
        }
        let a: u32 = self.size_bits();
        let b: u32 = other.size_bits();
        if a >= INFINITE || b > INFINITE || b == 0 {
            return Single { bits: NOT_A_NUMBER };
        }
        if b == INFINITE {
            return self;
        }
        let (sa, ea) = parts(self);
        let (sb, eb) = parts(other);
        proof {
            single::lemma_parts(self);
            single::lemma_parts(other);
        }
        if ea < eb {
            proof {
                single::lemma_units_increase(self, other);
                div_mod::lemma_small_mod(self.units(), other.units());
                rounding::lemma_nearest_exact(sa as nat, ea as nat);
            }
            return self;
        }
        let gap: u32 = ea - eb;
        let mut left: u64 = (sa % sb) as u64;
        let mut i: u32 = 0;
        proof {
            power2::lemma2_to64();
            assert(sa as nat * power2::pow2(0) == sa);
        }
        while i < gap
            invariant
                i <= gap,
                0 < sb < 0x100_0000,
                left == (sa as nat * power2::pow2(i as nat)) % (sb as nat),
            decreases gap - i,
        {
            proof {
                let x = (sa as nat * power2::pow2(i as nat)) as int;
                rounding::lemma_pow2_facts(i as nat, 0);
                assert(sa as nat * power2::pow2((i + 1) as nat) == 2 * x) by (nonlinear_arith)
                    requires
                        power2::pow2((i + 1) as nat) == 2 * power2::pow2(i as nat),
                        x == sa as nat * power2::pow2(i as nat),
                ;
                div_mod::lemma_mul_mod_noop_right(2, x, sb as int);
            }
            left = (2 * left) % (sb as u64);
            i = i + 1;
        }
        proof {
            let x = sa as nat * power2::pow2(gap as nat);
            let unit = power2::pow2(eb as nat);
            rounding::lemma_pow2_facts(eb as nat, 0);
            rounding::lemma_pow2_facts(gap as nat, eb as nat);
            power2::lemma2_to64();
            mul::lemma_mul_is_associative(
                sa as int,
                power2::pow2(gap as nat) as int,
                unit as int,
            );
            div_mod::lemma_truncate_middle(x as int, unit as int, sb as int);
            mul::lemma_mul_is_commutative(unit as int, x as int);
            mul::lemma_mul_is_commutative(unit as int, sb as int);
            mul::lemma_mul_is_commutative(unit as int, left as int);
            assert(left * unit == self.units() % other.units());
        }
        Single::assemble(self.is_negative(), round_scaled(left, eb as i32))
    }

    /// The remainder that is not negative.
    pub fn rem_euclid(self, other: Single) -> (r: Single)
        ensures
            r == self.wrapped(other),
    {
        let r: Single = self.rem(other);
        if r.lt(Single { bits: 0 }) {
            r.add(other.abs())
        } else {
            r
        }
    }
}

} // verus!
