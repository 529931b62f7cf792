//! Whole numbers from single-precision values and back.
use crate::rounding;
use crate::rounding::{round_scaled, INFINITE};
use crate::single;
use crate::single::{parts, Single};
use vstd::arithmetic::div_mod;
use vstd::arithmetic::mul;
use vstd::arithmetic::power2;
use vstd::prelude::*;

verus! {

/// The whole part of a size, with what follows the point.
struct Split {
    /// The whole part, or the largest `u64` where it does not fit.
    whole: u64,
    /// Something follows the point.
    some: bool,
    /// What follows the point is a half or more.
    half: bool,
}

proof fn lemma_split(s: nat, e: nat)
    requires
        s < 0x100_0000,
    ensures
        power2::pow2(149) > 0,
        e >= 149 ==> (s * power2::pow2(e)) / power2::pow2(149) == s * power2::pow2(
            (e - 149) as nat,
        ) && (s * power2::pow2(e)) % power2::pow2(149) == 0,
        e < 149 ==> ({
            let w = power2::pow2((149 - e) as nat);
            let r = (s * power2::pow2(e)) % power2::pow2(149);
            &&& w > 0
            &&& (s * power2::pow2(e)) / power2::pow2(149) == s / w
            &&& r > 0 <==> s % w > 0
            &&& 2 * r >= power2::pow2(149) <==> 2 * (s % w) >= w
        }),
{
    rounding::lemma_pow2_facts(149, 0);
    rounding::lemma_pow2_facts(e, 0);
    if e >= 149 {
        let t = power2::pow2((e - 149) as nat);
        rounding::lemma_pow2_facts((e - 149) as nat, 149);
        mul::lemma_mul_is_associative(s as int, t as int, power2::pow2(149) as int);
        div_mod::lemma_div_by_multiple((s * t) as int, power2::pow2(149) as int);
        div_mod::lemma_mod_multiples_basic((s * t) as int, power2::pow2(149) as int);
    } else {
        let w = power2::pow2((149 - e) as nat);
        let c = power2::pow2(e);
        rounding::lemma_pow2_facts((149 - e) as nat, e);
        assert(w * c == power2::pow2(149));
        mul::lemma_mul_is_commutative(w as int, c as int);
        mul::lemma_mul_is_commutative(s as int, c as int);
        div_mod::lemma_div_multiples_vanish_quotient(c as int, s as int, w as int);
        div_mod::lemma_truncate_middle(s as int, c as int, w as int);
        let r = (s % w) as int;
        assert((c * r > 0 <==> r > 0) && (2 * (c * r) >= c * w <==> 2 * r >= w))
            by (nonlinear_arith)
            requires
                c > 0,
                r >= 0,
        ;
    }
}

fn split(a: Single) -> (r: Split)
    requires
        a.finite(),
    ensures
        r.whole == if a.floor_size() < u64::MAX {
            a.floor_size() as int
        } else {
            u64::MAX as int
        },
        r.some <==> a.fraction() > 0,
        r.half <==> 2 * a.fraction() >= power2::pow2(149),
{
    let (s, e) = parts(a);
    proof {
        single::lemma_parts(a);
        lemma_split(s as nat, e as nat);
    }
    if e >= 149 {
        let shift: u32 = e - 149;
        if shift <= 40 {
            proof {
                rounding::lemma_pow2_facts(shift as nat, 40);
                power2::lemma2_to64_rest();
                assert(s * power2::pow2(shift as nat) < 0x100_0000 * 0x100_0000_0000)
                    by (nonlinear_arith)
                    requires
                        0 <= s < 0x100_0000,
                        0 < power2::pow2(shift as nat) <= 0x100_0000_0000,
                ;
                vstd::bits::lemma_u64_shl_is_mul(s as u64, shift as u64);
            }
            Split { whole: (s as u64) << (shift as u64), some: false, half: false }
        } else {
            proof {
                rounding::lemma_pow2_facts(41, shift as nat);
                power2::lemma2_to64_rest();
                assert(s * power2::pow2(shift as nat) >= 0x80_0000 * 0x200_0000_0000)
                    by (nonlinear_arith)
                    requires
                        s >= 0x80_0000,
                        power2::pow2(shift as nat) >= 0x200_0000_0000,
                ;
            }
            Split { whole: u64::MAX, some: false, half: false }
        }
    } else {
        let shift: u32 = 149 - e;
        if shift < 64 {
            proof {
                rounding::lemma_pow2_facts(shift as nat, 63);
                power2::lemma2_to64_rest();
                vstd::bits::lemma_u64_shl_is_mul(1, shift as u64);
            }
            let w: u64 = 1u64 << (shift as u64);
            let left: u64 = (s as u64) % w;
            Split { whole: (s as u64) / w, some: left > 0, half: left >= w - left }
        } else {
            proof {
                rounding::lemma_pow2_facts(32, shift as nat);
                power2::lemma2_to64_rest();
                let w = power2::pow2(shift as nat);
                div_mod::lemma_basic_div(s as int, w as int);
                div_mod::lemma_small_mod(s as nat, w);
            }
            Split { whole: 0, some: s > 0, half: false }
        }
    }
}

impl Single {
    pub fn from_u64(n: u64) -> (r: Single)
        ensures
            r == Single::whole(n as int),
    {
        proof {
            reveal(Single::whole);
        }
        proof {
            power2::lemma2_to64();
        }
        Single::assemble(false, round_scaled(n, 149))
    }

    pub fn from_i32(n: i32) -> (r: Single)
        ensures
            r == Single::whole(n as int),
    {
        proof {
            reveal(Single::whole);
        }
        proof {
            power2::lemma2_to64();
        }
        if n < 0 {
            let size: i64 = -(n as i64);
            Single::assemble(true, round_scaled(size as u64, 149))
        } else {
            Single::assemble(false, round_scaled(n as u64, 149))
        }
    }

    /// The index at or below the value.
    pub fn floor_index(self) -> (r: usize)
        ensures
            r == self.index(false),
    {
        if self.is_nan() || self.is_negative() {
            0
        } else if self.size_bits() == INFINITE {
            usize::MAX
        } else {
            let s: Split = split(self);
            if s.whole < usize::MAX as u64 {
                s.whole as usize
            } else {
                usize::MAX
            }
        }
    }

    /// The index at or above the value.
    pub fn ceil_index(self) -> (r: usize)
        ensures
            r == self.index(true),
    {
        if self.is_nan() || self.is_negative() {
            0
        } else if self.size_bits() == INFINITE {
            usize::MAX
        } else {
            let s: Split = split(self);
            if s.whole < usize::MAX as u64 {
                s.whole as usize + if s.some {
                    1
                } else {
                    0
                }
            } else {
                usize::MAX
            }
        }
    }

    /// The nearest whole number, halves away from zero.
    pub fn round_i32(self) -> (r: i32)
        ensures
            r == self.round_within(i32::MIN as int, i32::MAX as int),
    {
        if self.is_nan() {
            return 0;
        }
        if self.size_bits() == INFINITE {
            return if self.is_negative() {
                i32::MIN
            } else {
                i32::MAX
            };
        }
        let s: Split = split(self);
        if self.is_negative() {
            if s.whole < 0x8000_0000 {
                let n: i64 = -(s.whole as i64 + if s.half {
                    1
                } else {
                    0
                });
                n as i32
            } else {
                i32::MIN
            }
        } else if s.whole < 0x7fff_ffff {
            let n: i64 = s.whole as i64 + if s.half {
                1
            } else {
                0
            };
            n as i32
        } else {
            i32::MAX
        }
    }

    /// The nearest whole number, halves away from zero, that a byte can hold.
    pub fn round_u8(self) -> (r: u8)
        ensures
            r == self.round_within(0, 255),
    {
        let n: i32 = self.round_i32();
        if n < 0 {
            0
        } else if n > 255 {
            255
        } else {
            n as u8
        }
    }
}

} // verus!
