//! From a band's value to a colour: the hue says which note, the brightness how
//! loud.
use crate::analysis;
use crate::analysis::{note_hue, sigmoid, sigmoid_exponent, Band, HUE_STEPS};
use crate::order;
use crate::rounding;
use crate::rounding::BINADE;
use crate::single;
use crate::single::{Single, NOT_A_NUMBER};
use crate::values::{
    BYTE, FOUR, HALF, HUNDREDTH, MINUS_TENTH, NINE_TENTHS, ONE, SIX, SIX_TENTHS, THREE,
    THREE_HALVES, THREE_QUARTERS, THREE_TENTHS, TWENTY, TWO, ZERO,
};
use vstd::arithmetic::div_mod;
use vstd::arithmetic::mul;
use vstd::arithmetic::power2;
use vstd::prelude::*;

verus! {

/// Red, green and blue.
pub type Rgb = (u8, u8, u8);

/// Steps of brightness.
pub const VAL_STEPS: usize = 256;

/// Steps of the contrast table.
pub const SIG_STEPS: usize = 2048;

/// The contrast table's domain. The pink correction makes values slightly
/// negative below A4; above the upper end the curve is saturated anyway.
pub const SIG_MIN: u32 = MINUS_TENTH;

pub const SIG_MAX: u32 = THREE_HALVES;

/// How much of a channel there is in a hue, from 0 to 1.
pub open spec fn presence(h: Single, offset: Single) -> Single {
    let turn = h.times(Single { bits: SIX }).plus(offset).wrapped(Single { bits: SIX });
    let away = turn.minus(Single { bits: THREE });
    Single::of(false, away.magnitude()).minus(Single { bits: ONE }).clamped(
        Single { bits: ZERO },
        Single { bits: ONE },
    )
}

/// A channel's intensity.
pub open spec fn intensity(x: Single, s: Single, l: Single) -> Single {
    let tilt = (Single { bits: TWO }).times(l).minus(Single { bits: ONE });
    l.plus(
        s.times(x.minus(Single { bits: HALF })).times(
            (Single { bits: ONE }).minus(Single::of(false, tilt.magnitude())),
        ),
    )
}

/// An intensity as a byte.
pub open spec fn byte_of(v: Single) -> u8 {
    v.clamped(Single { bits: ZERO }, Single { bits: ONE }).times(
        Single { bits: BYTE },
    ).round_within(0, 255) as u8
}

/// The colour of a hue (in turns), a saturation and a lightness.
pub open spec fn rgb_of(h: Single, s: Single, l: Single) -> Rgb {
    (
        byte_of(intensity(presence(h, Single { bits: ZERO }), s, l)),
        byte_of(intensity(presence(h, Single { bits: FOUR }), s, l)),
        byte_of(intensity(presence(h, Single { bits: TWO }), s, l)),
    )
}

fn channel(h: Single, s: Single, l: Single, offset: Single) -> (r: u8)
    ensures
        r == byte_of(intensity(presence(h, offset), s, l)),
{
    let turn: Single = h.mul(Single { bits: SIX }).add(offset).rem_euclid(Single { bits: SIX });
    let x: Single = turn.sub(Single { bits: THREE }).abs().sub(Single { bits: ONE }).clamp(
        Single { bits: ZERO },
        Single { bits: ONE },
    );
    let tilt: Single = (Single { bits: TWO }).mul(l).sub(Single { bits: ONE });
    let v: Single = l.add(
        s.mul(x.sub(Single { bits: HALF })).mul((Single { bits: ONE }).sub(tilt.abs())),
    );
    v.clamp(Single { bits: ZERO }, Single { bits: ONE }).mul(Single { bits: BYTE }).round_u8()
}

/// The colour of a hue (in turns), a saturation and a lightness.
pub fn hsl_to_rgb(h: Single, s: Single, l: Single) -> (r: Rgb)
    ensures
        r == rgb_of(h, s, l),
{
    (
        channel(h, s, l, Single { bits: ZERO }),
        channel(h, s, l, Single { bits: FOUR }),
        channel(h, s, l, Single { bits: TWO }),
    )
}

/// Bright reference colour for a note.
pub open spec fn reference(midi: Single) -> Rgb {
    rgb_of(analysis::hue_at(midi), Single { bits: NINE_TENTHS }, Single { bits: SIX_TENTHS })
}

/// Bright reference colour for a note.
pub fn note_color(midi: Single) -> (r: Rgb)
    ensures
        r == reference(midi),
{
    hsl_to_rgb(note_hue(midi), Single { bits: NINE_TENTHS }, Single { bits: SIX_TENTHS })
}

/// The colour of a hue at a brightness.
pub open spec fn lit(hue: Single, v: Single) -> Rgb {
    rgb_of(hue, v.smaller(Single { bits: ONE }), v.times(Single { bits: THREE_QUARTERS }))
}

/// The exponent of the contrast curve for a band's value.
pub fn shade_exponent(raw: Single, band: &Band, midpoint: Single, steep: Single) -> (r: Single)
    ensures
        r == analysis::curve_exponent(raw.plus(band.pink), midpoint, steep),
{
    sigmoid_exponent(raw.add(band.pink), midpoint, steep)
}

/// The colour of a band whose place on the contrast curve is given by the
/// exponential; black where it is faint.
pub open spec fn shaded(band: Band, exponential: Single) -> Rgb {
    let v = analysis::curve(exponential);
    if v.less(Single { bits: HUNDREDTH }) {
        (0u8, 0u8, 0u8)
    } else {
        lit(band.hue, v)
    }
}

/// The colour of a band whose place on the contrast curve is given by the
/// exponential: the exact reference of the tables below.
pub fn shade(band: &Band, exponential: Single) -> (r: Rgb)
    ensures
        r == shaded(*band, exponential),
{
    let v: Single = sigmoid(exponential);
    if v.lt(Single { bits: HUNDREDTH }) {
        return (0, 0, 0);
    }
    hsl_to_rgb(band.hue, v.min(Single { bits: ONE }), v.mul(Single { bits: THREE_QUARTERS }))
}

/// The width of the contrast table's domain.
pub open spec fn width() -> Single {
    (Single { bits: SIG_MAX }).minus(Single { bits: SIG_MIN })
}

/// Steps of the contrast table per unit.
pub open spec fn density() -> Single {
    Single::whole(SIG_STEPS - 1).over(width())
}

/// The value that step `i` of the contrast table stands for.
pub open spec fn step_value(i: int) -> Single {
    (Single { bits: SIG_MIN }).plus(
        Single::whole(i).over(Single::whole(SIG_STEPS - 1)).times(width()),
    )
}

/// The brightness byte for a place on the contrast curve; 0 is black.
pub open spec fn level_of(exponential: Single) -> u8 {
    let v = analysis::curve(exponential);
    if v.less(Single { bits: HUNDREDTH }) {
        0
    } else {
        v.times(Single::whole(VAL_STEPS - 1)).round_within(0, 255) as u8
    }
}

/// The colour of brightness `v` in column `h`: that of the column's centre.
pub open spec fn entry(v: int, h: int) -> Rgb {
    lit(
        Single::whole(h).plus(Single { bits: HALF }).over(Single::whole(HUE_STEPS as int)),
        Single::whole(v).over(Single::whole(VAL_STEPS - 1)),
    )
}

/// The step of the contrast table for a band's value.
pub open spec fn step_of(raw: Single, pink: Single) -> int {
    let corrected = raw.plus(pink).clamped(Single { bits: SIG_MIN }, Single { bits: SIG_MAX });
    corrected.minus(Single { bits: SIG_MIN }).times(density()).plus(
        Single { bits: HALF },
    ).index(false)
}

/// The colours in two tables: two look-ups per pixel in place of an exponential
/// and a conversion.
pub struct ColorMap {
    pub midpoint: Single,
    pub steep: Single,
    /// Steps of the contrast table per unit.
    pub density: Single,
    /// Corrected value to brightness byte (0 is black).
    pub sigmoid_lut: Vec<u8>,
    /// Brightness times columns plus column to colour.
    pub rgb: Vec<Rgb>,
}

impl ColorMap {
    pub open spec fn wf(self) -> bool {
        &&& self.density == density()
        &&& self.sigmoid_lut.len() == SIG_STEPS
        &&& self.rgb.len() == VAL_STEPS * HUE_STEPS
        &&& forall|v: int, h: int|
            0 <= v < VAL_STEPS && 0 <= h < HUE_STEPS ==> self.rgb@[v * HUE_STEPS + h]
                == #[trigger] entry(v, h)
    }

    /// The contrast table stands for these knobs.
    pub open spec fn current(self, midpoint: Single, steep: Single) -> bool {
        self.midpoint.equals(midpoint) && self.steep.equals(steep)
    }

    /// The colour of a band's value.
    pub open spec fn colour(self, raw: Single, band: Band) -> Rgb {
        let v = self.sigmoid_lut@[step_of(raw, band.pink)];
        if v == 0 {
            (0u8, 0u8, 0u8)
        } else {
            entry(v as int, band.hue_idx as int)
        }
    }

    /// The contrast table holds the brightness of these exponentials.
    pub open spec fn tabulates(self, exponentials: Seq<Single>) -> bool {
        forall|i: int|
            0 <= i < SIG_STEPS ==> #[trigger] self.sigmoid_lut@[i] == level_of(exponentials[i])
    }

    /// What the table is like after it was made sure that it goes with the knobs.
    pub open spec fn ensured(
        self,
        midpoint: Single,
        steep: Single,
        exponentials: Seq<Single>,
        next: ColorMap,
    ) -> bool {
        if self.current(midpoint, steep) {
            next == self
        } else {
            next.midpoint == midpoint && next.steep == steep && next.tabulates(exponentials)
        }
    }

    /// The exponents of the contrast curve at the table's steps.
    pub fn exponents(midpoint: Single, steep: Single) -> (r: Vec<Single>)
        ensures
            r.len() == SIG_STEPS,
            forall|i: int|
                0 <= i < SIG_STEPS ==> #[trigger] r[i] == analysis::curve_exponent(
                    step_value(i),
                    midpoint,
                    steep,
                ),
    {
        let span: Single = (Single { bits: SIG_MAX }).sub(Single { bits: SIG_MIN });
        let last: Single = Single::from_u64((SIG_STEPS - 1) as u64);
        let mut r: Vec<Single> = Vec::new();
        let mut i: usize = 0;
        while i < SIG_STEPS
            invariant
                i <= SIG_STEPS,
                span == width(),
                last == Single::whole(SIG_STEPS - 1),
                r.len() == i,
                forall|j: int|
                    0 <= j < i ==> #[trigger] r[j] == analysis::curve_exponent(
                        step_value(j),
                        midpoint,
                        steep,
                    ),
            decreases SIG_STEPS - i,
        {
            let x: Single = (Single { bits: SIG_MIN }).add(
                Single::from_u64(i as u64).div(last).mul(span),
            );
            r.push(sigmoid_exponent(x, midpoint, steep));
            i = i + 1;
        }
        r
    }

    /// The tables for a midpoint of 0.3 and a steepness of 20, with the
    /// exponentials of the exponents for these knobs.
    pub fn new(exponentials: &Vec<Single>) -> (r: ColorMap)
        requires
            exponentials.len() == SIG_STEPS,
        ensures
            r.wf(),
            r.midpoint == (Single { bits: THREE_TENTHS }),
            r.steep == (Single { bits: TWENTY }),
            r.tabulates(exponentials@),
    {
        let columns: Single = Single::from_u64(HUE_STEPS as u64);
        let top: Single = Single::from_u64((VAL_STEPS - 1) as u64);
        let mut rgb: Vec<Rgb> = Vec::new();
        let mut vi: usize = 0;
        while vi < VAL_STEPS
            invariant
                vi <= VAL_STEPS,
                columns == Single::whole(HUE_STEPS as int),
                top == Single::whole(VAL_STEPS - 1),
                rgb.len() == vi * HUE_STEPS,
                forall|v: int, h: int|
                    0 <= v < vi && 0 <= h < HUE_STEPS ==> rgb@[v * HUE_STEPS + h]
                        == #[trigger] entry(v, h),
            decreases VAL_STEPS - vi,
        {
            let v: Single = Single::from_u64(vi as u64).div(top);
            let s: Single = v.min(Single { bits: ONE });
            let l: Single = v.mul(Single { bits: THREE_QUARTERS });
            let mut hi: usize = 0;
            while hi < HUE_STEPS
                invariant
                    hi <= HUE_STEPS,
                    vi < VAL_STEPS,
                    columns == Single::whole(HUE_STEPS as int),
                    v == Single::whole(vi as int).over(Single::whole(VAL_STEPS - 1)),
                    s == v.smaller(Single { bits: ONE }),
                    l == v.times(Single { bits: THREE_QUARTERS }),
                    rgb.len() == vi * HUE_STEPS + hi,
                    forall|w: int, h: int|
                        (0 <= w < vi && 0 <= h < HUE_STEPS || w == vi && 0 <= h < hi)
                            ==> rgb@[w * HUE_STEPS + h] == #[trigger] entry(w, h),
                decreases HUE_STEPS - hi,
            {
                let h: Single = Single::from_u64(hi as u64).add(Single { bits: HALF }).div(columns);
                rgb.push(hsl_to_rgb(h, s, l));
                hi = hi + 1;
            }
            vi = vi + 1;
        }
        let span: Single = (Single { bits: SIG_MAX }).sub(Single { bits: SIG_MIN });
        let mut map: ColorMap = ColorMap {
            midpoint: Single { bits: NOT_A_NUMBER },
            steep: Single { bits: NOT_A_NUMBER },
            density: Single::from_u64((SIG_STEPS - 1) as u64).div(span),
            sigmoid_lut: blank_levels(),
            rgb,
        };
        map.ensure(Single { bits: THREE_TENTHS }, Single { bits: TWENTY }, exponentials);
        map
    }

    /// The contrast table must be made anew for these knobs.
    pub fn stale(&self, midpoint: Single, steep: Single) -> (r: bool)
        ensures
            r == !self.current(midpoint, steep),
    {
        !(self.midpoint.at_place_of(midpoint) && self.steep.at_place_of(steep))
    }

    /// Make the contrast table anew where the knobs have changed, from the
    /// exponentials of the exponents for the new ones.
    pub fn ensure(&mut self, midpoint: Single, steep: Single, exponentials: &Vec<Single>)
        requires
            old(self).wf(),
            !old(self).current(midpoint, steep) ==> exponentials.len() == SIG_STEPS,
        ensures
            final(self).wf(),
            old(self).ensured(midpoint, steep, exponentials@, *final(self)),
    {
        if !self.stale(midpoint, steep) {
            return;
        }
        self.midpoint = midpoint;
        self.steep = steep;
        let top: Single = Single::from_u64((VAL_STEPS - 1) as u64);
        let mut lut: Vec<u8> = Vec::new();
        let mut i: usize = 0;
        while i < SIG_STEPS
            invariant
                i <= SIG_STEPS,
                exponentials.len() == SIG_STEPS,
                top == Single::whole(VAL_STEPS - 1),
                lut.len() == i,
                forall|j: int| 0 <= j < i ==> #[trigger] lut[j] == level_of(exponentials[j]),
            decreases SIG_STEPS - i,
        {
            let v: Single = sigmoid(exponentials[i]);
            lut.push(
                if v.lt(Single { bits: HUNDREDTH }) {
                    0
                } else {
                    v.mul(top).round_u8()
                },
            );
            i = i + 1;
        }
        self.sigmoid_lut = lut;
    }
}

/// A contrast table that is black throughout.
fn blank_levels() -> (r: Vec<u8>)
    ensures
        r.len() == SIG_STEPS,
        forall|i: int| 0 <= i < SIG_STEPS ==> #[trigger] r[i] == 0,
{
    let mut r: Vec<u8> = Vec::new();
    let mut i: usize = 0;
    while i < SIG_STEPS
        invariant
            i <= SIG_STEPS,
            r.len() == i,
            forall|j: int| 0 <= j < i ==> #[trigger] r[j] == 0,
        decreases SIG_STEPS - i,
    {
        r.push(0);
        i = i + 1;
    }
    r
}

/// The width of the table's domain, computed: about 1.6.
pub proof fn lemma_width()
    ensures
        width() == (Single { bits: 0x3fcc_cccd }),
        width().finite(),
        width().rank() >= 0,
        width().units() == 0xcc_cccd * power2::pow2(126),
{
    reveal(Single::plus);
    let w = power2::pow2(122);
    let n: nat = 0xccc_cccd;
    let (a, b) = (Single { bits: SIG_MAX }, (Single { bits: SIG_MIN }).negated());
    order::lemma_units_of(a, 0xc0_0000, 126);
    order::lemma_units_of(b, 0xcc_cccd, 122);
    order::lemma_units_of(Single { bits: 0x3fcc_cccd }, 0xcc_cccd, 126);
    rounding::lemma_pow2_facts(4, 122);
    rounding::lemma_pow2_facts(28, 122);
    rounding::lemma_pow2_facts(27, 122);
    rounding::lemma_pow2_facts(122, 0);
    power2::lemma2_to64();
    assert(0xc0_0000 * (16 * w) + 0xcc_cccd * w == n * w) by (nonlinear_arith)
        requires
            n == 0xccc_cccd,
    ;
    assert(n * w < 0x1000_0000 * w && 0x800_0000 * w <= n * w && n * w > 0) by (nonlinear_arith)
        requires
            n == 0xccc_cccd,
            w > 0,
    ;
    assert(1 * power2::pow2(150) == power2::pow2(150));
    assert(1 * power2::pow2(149) == power2::pow2(149));
    assert(1 * power2::pow2(126) == power2::pow2(126));
    assert(rounding::in_binade(n * w, 1, 126));
    rounding::lemma_nearest_at(n * w, 1, 126);
    rounding::lemma_round_scale(n, 16, w);
    assert(a.value() + b.value() == n * w);
}

/// The table has at most 1279.4375 steps per unit.
proof fn lemma_density()
    ensures
        density().finite(),
        density().rank() >= 0,
        density().units() <= 0x9f_ee00 * power2::pow2(136),
{
    reveal(Single::over);
    let limit = Single { bits: 0x449f_ee00 };
    let last = Single::whole(SIG_STEPS - 1);
    let big = power2::pow2(149);
    lemma_width();
    order::lemma_whole_exact(SIG_STEPS - 1);
    order::lemma_units_of(limit, 0x9f_ee00, 136);
    single::lemma_parts(width());
    let wu = width().units();
    rounding::lemma_pow2_facts(149, 149);
    rounding::lemma_pow2_facts(126, 136);
    rounding::lemma_pow2_facts(36, 262);
    rounding::lemma_pow2_facts(149, 0);
    power2::lemma2_to64();
    power2::lemma2_to64_rest();
    let (p, q, r) = (power2::pow2(126) as int, power2::pow2(136) as int, power2::pow2(262) as int);
    assert(wu > 0);
    assert((2047 * big) * big == 2047 * (big * big)) by (nonlinear_arith);
    assert((0x9f_ee00 * q) * (0xcc_cccd * p) == (0x9f_ee00 * 0xcc_cccd) * (p * q))
        by (nonlinear_arith);
    assert(2047 * (0x10_0000_0000 * r) <= (0x9f_ee00 * 0xcc_cccd) * r) by (nonlinear_arith)
        requires
            r > 0,
    ;
    assert(last.units() == 2047 * big);
    order::lemma_nearest_increases(last.units() * big, limit.units() * wu, wu);
    order::lemma_nearest_of(limit, wu);
    assert(density().magnitude() <= limit.magnitude());
    if density().magnitude() < limit.magnitude() {
        single::lemma_units_increase(density(), limit);
    } else {
        assert(density() == limit);
    }
}

/// The steps that a distance from the domain's lower end makes: at most 2047.25.
proof fn lemma_steps(d: Single)
    requires
        d.finite(),
        0 <= d.rank() <= width().rank(),
    ensures
        d.times(density()).finite(),
        0 <= d.times(density()).rank() <= (Single { bits: 0x44ff_e800 }).rank(),
{
    let top = Single { bits: 0x44ff_e800 };
    let big = power2::pow2(149);
    lemma_width();
    lemma_density();
    order::lemma_units_of(top, 0xff_e800, 136);
    rounding::lemma_pow2_facts(126, 136);
    rounding::lemma_pow2_facts(136, 149);
    rounding::lemma_pow2_facts(23, 262);
    rounding::lemma_pow2_facts(149, 0);
    rounding::lemma_pow2_facts(262, 0);
    power2::lemma2_to64();
    let (p, q, r) = (power2::pow2(126) as int, power2::pow2(136) as int, power2::pow2(262) as int);
    let (du, ku) = (d.units() as int, density().units() as int);
    if d.magnitude() < width().magnitude() {
        single::lemma_units_increase(d, width());
    } else {
        single::lemma_parts(d);
        single::lemma_parts(width());
    }
    assert(du <= 0xcc_cccd * p);
    mul::lemma_mul_upper_bound(du, 0xcc_cccd * p, ku, 0x9f_ee00 * q);
    assert((0xcc_cccd * p) * (0x9f_ee00 * q) == (0xcc_cccd * 0x9f_ee00) * (p * q))
        by (nonlinear_arith);
    assert((0xff_e800 * q) * big == 0xff_e800 * (q * big)) by (nonlinear_arith);
    assert((0xcc_cccd * 0x9f_ee00) * r <= 0xff_e800 * (0x80_0000 * r)) by (nonlinear_arith)
        requires
            r > 0,
    ;
    order::lemma_product_place(d, density());
    order::lemma_nearest_increases(d.units() * density().units(), top.units() * big, big);
    order::lemma_nearest_of(top, big);
}

/// The last step and a half, computed.
proof fn lemma_top_half()
    ensures
        (Single { bits: 0x44ff_e800 }).plus(Single { bits: HALF }) == (Single {
            bits: 0x44ff_f800,
        }),
        (Single { bits: 0x44ff_e800 }).finite(),
        (Single { bits: 0x44ff_f800 }).units() == 0xff_f800 * power2::pow2(136),
{
    let top = Single { bits: 0x44ff_e800 };
    let end = Single { bits: 0x44ff_f800 };
    let half = Single { bits: HALF };
    order::lemma_units_of(top, 0xff_e800, 136);
    order::lemma_units_of(end, 0xff_f800, 136);
    order::lemma_units_of(half, BINADE as nat, 125);
    rounding::lemma_pow2_facts(23, 125);
    rounding::lemma_pow2_facts(12, 136);
    rounding::lemma_pow2_facts(136, 0);
    power2::lemma2_to64();
    let q = power2::pow2(136) as int;
    assert(0xff_e800 * q + 0x1000 * q == 0xff_f800 * q) by (nonlinear_arith);
    order::lemma_sum_exact(top, half, end);
    single::lemma_parts(end);
}

/// Half a step more is still below the table's length.
proof fn lemma_half_step_more(x: Single)
    requires
        x.finite(),
        0 <= x.rank() <= (Single { bits: 0x44ff_e800 }).rank(),
    ensures
        0 <= x.plus(Single { bits: HALF }).index(false) < SIG_STEPS,
{
    let top = Single { bits: 0x44ff_e800 };
    let end = Single { bits: 0x44ff_f800 };
    let half = Single { bits: HALF };
    let big = power2::pow2(149);
    lemma_top_half();
    rounding::lemma_pow2_facts(13, 136);
    rounding::lemma_pow2_facts(136, 0);
    rounding::lemma_pow2_facts(149, 0);
    power2::lemma2_to64();
    let q = power2::pow2(136) as int;
    order::lemma_plus_increases(x, top, half);
    let y = x.plus(half);
    assert(y.rank() <= end.rank());
    if !y.negative() {
        if y.magnitude() < end.magnitude() {
            single::lemma_units_increase(y, end);
        } else {
            assert(y == end);
        }
        assert(y.units() < 2048 * big) by {
            assert(0xff_f800 * q < 2048 * (0x2000 * q)) by (nonlinear_arith)
                requires
                    q > 0,
            ;
        }
        div_mod::lemma_multiply_divide_lt(y.units() as int, big as int, 2048);
    }
}

proof fn lemma_in_domain(z: Single)
    ensures
        ({
            let c = z.clamped(Single { bits: SIG_MIN }, Single { bits: SIG_MAX });
            ||| c.nan()
            ||| c.finite() && (Single { bits: SIG_MIN }).rank() <= c.rank() <= (Single {
                bits: SIG_MAX,
            }).rank()
        }),
{
}

proof fn lemma_step_of(c: Single)
    requires
        c.finite(),
        (Single { bits: SIG_MIN }).rank() <= c.rank() <= (Single { bits: SIG_MAX }).rank(),
    ensures
        0 <= c.minus(Single { bits: SIG_MIN }).times(density()).plus(Single { bits: HALF }).index(
            false,
        ) < SIG_STEPS,
{
    reveal(Single::plus);
    let (lo, hi) = (Single { bits: SIG_MIN }, Single { bits: SIG_MAX });
    let t = lo.negated();
    lemma_width();
    order::lemma_plus_increases(c, hi, t);
    order::lemma_plus_increases(lo, c, t);
    assert(lo.plus(t).rank() == 0) by {
        assert(lo.value() + t.value() == 0);
    }
    lemma_steps(c.minus(lo));
    lemma_half_step_more(c.minus(lo).times(density()));
}

/// Every value of a band, whatever it is, has its step in the contrast table.
pub proof fn law_step_in_table(raw: Single, pink: Single)
    ensures
        0 <= step_of(raw, pink) < SIG_STEPS,
{
    let z = raw.plus(pink);
    lemma_in_domain(z);
    let c = z.clamped(Single { bits: SIG_MIN }, Single { bits: SIG_MAX });
    if c.nan() {
        lemma_nan_step(c);
    } else {
        lemma_step_of(c);
    }
}

proof fn lemma_nan_step(c: Single)
    requires
        c.nan(),
    ensures
        c.minus(Single { bits: SIG_MIN }).times(density()).plus(Single { bits: HALF }).index(false)
            == 0,
{
    reveal(Single::plus);
    reveal(Single::times);
    assert(c.minus(Single { bits: SIG_MIN }) == Single::invalid());
    assert(Single::invalid().times(density()) == Single::invalid());
    assert(Single::invalid().plus(Single { bits: HALF }) == Single::invalid());
}

proof fn lemma_steps_increase(c: Single, d: Single)
    requires
        c.finite(),
        d.finite(),
        (Single { bits: SIG_MIN }).rank() <= c.rank() <= d.rank(),
        d.rank() <= (Single { bits: SIG_MAX }).rank(),
    ensures
        c.minus(Single { bits: SIG_MIN }).times(density()).plus(Single { bits: HALF }).index(false)
            <= d.minus(Single { bits: SIG_MIN }).times(density()).plus(
            Single { bits: HALF },
        ).index(false),
{
    let (lo, hi) = (Single { bits: SIG_MIN }, Single { bits: SIG_MAX });
    let t = lo.negated();
    lemma_width();
    lemma_density();
    order::lemma_plus_increases(c, d, t);
    order::lemma_plus_increases(d, hi, t);
    order::lemma_plus_increases(lo, c, t);
    assert(lo.plus(t).rank() == 0) by {
        reveal(Single::plus);
        assert(lo.value() + t.value() == 0);
    }
    let (x, y) = (c.minus(lo), d.minus(lo));
    lemma_steps(x);
    lemma_steps(y);
    order::lemma_times_increases(x, y, density());
    lemma_half_steps_increase(x.times(density()), y.times(density()));
}

proof fn lemma_half_steps_increase(m: Single, n: Single)
    requires
        m.finite(),
        n.finite(),
        0 <= m.rank() <= n.rank(),
        n.rank() <= (Single { bits: 0x44ff_e800 }).rank(),
    ensures
        m.plus(Single { bits: HALF }).index(false) <= n.plus(Single { bits: HALF }).index(false),
{
    let top = Single { bits: 0x44ff_e800 };
    let (zero, half) = (Single { bits: ZERO }, Single { bits: HALF });
    order::lemma_plus_increases(m, n, half);
    order::lemma_plus_increases(n, top, half);
    single::lemma_parts(zero);
    order::lemma_plus_increases(zero, m, half);
    order::lemma_sum_exact(zero, half, half);
    lemma_top_half();
    order::lemma_index_increases(m.plus(half), n.plus(half));
}

/// A louder value is never at a lower step of the contrast table.
pub proof fn law_louder_not_lower(quiet: Single, loud: Single, pink: Single)
    requires
        quiet.finite(),
        loud.finite(),
        pink.finite(),
        quiet.rank() <= loud.rank(),
    ensures
        step_of(quiet, pink) <= step_of(loud, pink),
{
    let (lo, hi) = (Single { bits: SIG_MIN }, Single { bits: SIG_MAX });
    order::lemma_plus_increases(quiet, loud, pink);
    let (x, y) = (quiet.plus(pink), loud.plus(pink));
    lemma_in_domain(x);
    lemma_in_domain(y);
    lemma_steps_increase(x.clamped(lo, hi), y.clamped(lo, hi));
}

impl ColorMap {
    /// The colour of a band's value.
    pub fn shade(&self, raw: Single, band: &Band) -> (r: Rgb)
        requires
            self.wf(),
            band.hue_idx < HUE_STEPS,
        ensures
            r == self.colour(raw, *band),
    {
        let corrected: Single = raw.add(band.pink).clamp(
            Single { bits: SIG_MIN },
            Single { bits: SIG_MAX },
        );
        let si: usize = corrected.sub(Single { bits: SIG_MIN }).mul(self.density).add(
            Single { bits: HALF },
        ).floor_index();
        proof {
            law_step_in_table(raw, band.pink);
        }
        let v: usize = self.sigmoid_lut[si] as usize;
        if v == 0 {
            return (0, 0, 0);
        }
        assert(entry(v as int, band.hue_idx as int) == self.rgb@[v * HUE_STEPS + band.hue_idx]);
        self.rgb[v * HUE_STEPS + band.hue_idx as usize]
    }
}

} // verus!
