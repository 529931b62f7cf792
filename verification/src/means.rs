//! The level of a band: the mean of all the bins that it spans.
use crate::analysis;
use crate::analysis::Band;
use crate::errors;
use crate::order;
use crate::rounding;
use crate::shades;
use crate::single;
use crate::single::Single;
use vstd::arithmetic::power2;
use vstd::prelude::*;

verus! {

/// The exact sum of levels.
pub open spec fn total_of(levels: Seq<Single>) -> int
    decreases levels.len(),
{
    if levels.len() == 0 {
        0
    } else {
        total_of(levels.drop_last()) + levels.last().value()
    }
}

/// A level is finite and within 300 dB of full scale.
pub open spec fn usual(x: Single) -> bool {
    x.finite() && errors::near(x.value(), 0, 300 * errors::big())
}

/// The levels are usual ones.
pub open spec fn all_usual(levels: Seq<Single>) -> bool {
    forall|i: int| 0 <= i < levels.len() ==> usual(#[trigger] levels[i])
}

/// The sum of levels, computed.
proof fn lemma_sum(levels: Seq<Single>)
    requires
        all_usual(levels),
        levels.len() <= 0x4000,
    ensures
        ({
            let n = levels.len() as int;
            let (b, s) = (errors::big(), analysis::level_sum(levels));
            &&& s.finite()
            &&& errors::near(total_of(levels), 0, 300 * (n * b))
            &&& errors::near(0x100_0000 * s.value(), 0x100_0000 * total_of(levels), 302 * (n * n * b))
        }),
    decreases levels.len(),
{
    let n = levels.len() as int;
    let b = errors::big();
    shades::lemma_grains();
    if n == 0 {
        single::lemma_parts(Single { bits: 0 });
        assert(0 * b == 0 && 0 * 0 * b == 0);
    } else {
        let m = n - 1;
        let rest = levels.drop_last();
        assert forall|i: int| 0 <= i < rest.len() implies usual(#[trigger] rest[i]) by {
            assert(rest[i] == levels[i]);
        }
        lemma_sum(rest);
        let (s, x) = (analysis::level_sum(rest), levels.last());
        assert(usual(levels[n - 1]));
        assert(n * b == m * b + b) by (nonlinear_arith)
            requires
                n == m + 1,
        ;
        assert(n * n * b == m * m * b + m * b + n * b) by (nonlinear_arith)
            requires
                n == m + 1,
        ;
        assert(0 <= m * m * b <= 0x4000 * (m * b)) by (nonlinear_arith)
            requires
                0 <= m <= 0x4000,
                b > 0,
        ;
        assert(0 <= m * b <= 0x4000 * b) by (nonlinear_arith)
            requires
                0 <= m <= 0x4000,
                b > 0,
        ;
        lemma_room();
        errors::lemma_sum_relative(s, x);
    }
}

/// There is room for large sums.
pub proof fn lemma_room()
    ensures
        0x1_0000_0000 * errors::big() < power2::pow2(250),
{
    power2::lemma2_to64();
    rounding::lemma_pow2_facts(32, 149);
    rounding::lemma_pow2_facts(181, 250);
}

/// The level of a band takes in every bin that it spans: times their number it is the
/// exact sum of their levels, up to the rounding of a sum of so many terms.
pub proof fn law_band_level_is_mean(db: Seq<Single>, band: Band)
    requires
        band.bin_lo <= band.bin_hi < db.len(),
        band.bin_hi - band.bin_lo < 0x4000,
        all_usual(db.subrange(band.bin_lo as int, band.bin_hi + 1)),
    ensures
        ({
            let n = band.bin_hi - band.bin_lo + 1;
            let bins = db.subrange(band.bin_lo as int, band.bin_hi + 1);
            let level = analysis::band_level(db, band);
            &&& level.finite()
            &&& errors::near(
                0x100_0000 * (level.value() * n),
                0x100_0000 * total_of(bins),
                1000 * (n * n * errors::big()),
            )
        }),
{
    let n = band.bin_hi - band.bin_lo + 1;
    let bins = db.subrange(band.bin_lo as int, band.bin_hi + 1);
    let b = errors::big();
    shades::lemma_grains();
    assert(bins.len() == n);
    lemma_sum(bins);
    let s = analysis::level_sum(bins);
    order::lemma_whole_exact(n);
    assert(n * b <= n * n * b && n * b > 0) by (nonlinear_arith)
        requires
            n >= 1,
            b > 0,
    ;
    assert(n * n * b <= 0x4000 * (n * b)) by (nonlinear_arith)
        requires
            1 <= n <= 0x4000,
            b > 0,
    ;
    lemma_quotient(s, n);
}

/// A sum over the number of its terms.
proof fn lemma_quotient(s: Single, n: int)
    requires
        s.finite(),
        1 <= n <= 0x4000,
        errors::near(s.value(), 0, 310 * (n * errors::big())),
    ensures
        s.over(Single::whole(n)).finite(),
        errors::near(
            0x100_0000 * (s.over(Single::whole(n)).value() * n),
            0x100_0000 * s.value(),
            512 * (n * errors::big()),
        ),
{
    let b = errors::big();
    let count = Single::whole(n);
    shades::lemma_grains();
    order::lemma_whole_exact(n);
    assert(n * b > 0) by (nonlinear_arith)
        requires
            n >= 1,
            b > 0,
    ;
    single::lemma_parts(count);
    power2::lemma2_to64();
    rounding::lemma_pow2_facts(9, 149);
    rounding::lemma_pow2_facts(9, 124);
    rounding::lemma_pow2_facts(24, 125);
    rounding::lemma_pow2_facts(124, 0);
    rounding::lemma_pow2_facts(125, 0);
    let t = power2::pow2(125) as int;
    assert(b == 0x100_0000 * t && power2::pow2(158) == 512 * b && power2::pow2(133) == 256 * t);
    assert(s.units() * b < count.units() * (512 * b)) by (nonlinear_arith)
        requires
            0 <= s.units() <= 310 * (n * b),
            count.units() == n * b,
            n * b > 0,
            b > 0,
    ;
    errors::lemma_quotient_error(s, count, 134);
    let q = s.over(count).value();
    errors::lemma_quotient_value(q, s.value(), n, 256 * t);
    assert(n * q == q * n) by (nonlinear_arith);
    assert(0x100_0000 * (n * (256 * t)) == 256 * (n * b)) by (nonlinear_arith)
        requires
            b == 0x100_0000 * t,
    ;
}

/// A sum lies between its number of terms times the least and the greatest.
proof fn lemma_total_between(levels: Seq<Single>, least: int, most: int)
    requires
        forall|i: int| 0 <= i < levels.len() ==> least <= (#[trigger] levels[i]).value() <= most,
    ensures
        levels.len() * least <= total_of(levels) <= levels.len() * most,
    decreases levels.len(),
{
    let n = levels.len() as int;
    if n == 0 {
        assert(0 * least == 0 && 0 * most == 0);
    } else {
        let rest = levels.drop_last();
        assert forall|i: int| 0 <= i < rest.len() implies least <= (#[trigger] rest[i]).value()
            <= most by {
            assert(rest[i] == levels[i]);
        }
        lemma_total_between(rest, least, most);
        assert(levels[n - 1] == levels.last());
        assert(n * least == (n - 1) * least + least && n * most == (n - 1) * most + most)
            by (nonlinear_arith);
    }
}

/// The level of a band lies between the least and the greatest of its bins, up to
/// rounding.
pub proof fn law_band_level_between(db: Seq<Single>, band: Band, least: int, most: int)
    requires
        band.bin_lo <= band.bin_hi < db.len(),
        band.bin_hi - band.bin_lo < 0x4000,
        all_usual(db.subrange(band.bin_lo as int, band.bin_hi + 1)),
        forall|i: int|
            band.bin_lo <= i <= band.bin_hi ==> least <= (#[trigger] db[i]).value() <= most,
    ensures
        ({
            let n = band.bin_hi - band.bin_lo + 1;
            let level = analysis::band_level(db, band).value();
            0x100_0000 * least - 1000 * (n * errors::big()) <= 0x100_0000 * level <= 0x100_0000
                * most + 1000 * (n * errors::big())
        }),
{
    let n = band.bin_hi - band.bin_lo + 1;
    let bins = db.subrange(band.bin_lo as int, band.bin_hi + 1);
    let b = errors::big();
    law_band_level_is_mean(db, band);
    assert forall|i: int| 0 <= i < bins.len() implies least <= (#[trigger] bins[i]).value()
        <= most by {
        assert(bins[i] == db[band.bin_lo + i]);
    }
    lemma_total_between(bins, least, most);
    assert(bins.len() == n);
    let (l, nb) = (analysis::band_level(db, band).value(), n * b);
    assert(n * n * b == n * nb) by (nonlinear_arith)
        requires
            nb == n * b,
    ;
    assert(0x100_0000 * least - 1000 * nb <= 0x100_0000 * l) by (nonlinear_arith)
        requires
            0x100_0000 * (l * n) >= 0x100_0000 * (n * least) - 1000 * (n * nb),
            n >= 1,
    ;
    assert(0x100_0000 * l <= 0x100_0000 * most + 1000 * nb) by (nonlinear_arith)
        requires
            0x100_0000 * (l * n) <= 0x100_0000 * (n * most) + 1000 * (n * nb),
            n >= 1,
    ;
}

/// One term of a sum that is raised raises the sum as much.
proof fn lemma_total_raised(levels: Seq<Single>, others: Seq<Single>, i: int)
    requires
        levels.len() == others.len(),
        0 <= i < levels.len(),
        forall|j: int| 0 <= j < levels.len() && j != i ==> #[trigger] others[j] == levels[j],
    ensures
        total_of(others) - total_of(levels) == others[i].value() - levels[i].value(),
    decreases levels.len(),
{
    let n = levels.len() as int;
    let (a, b) = (levels.drop_last(), others.drop_last());
    if i == n - 1 {
        assert(a =~= b);
    } else {
        assert(others[n - 1] == levels[n - 1]);
        lemma_total_raised(a, b, i);
    }
}

/// Every bin of a band counts: to raise any one of them enough raises the band's level.
pub proof fn law_louder_bin_raises_band(db: Seq<Single>, louder: Seq<Single>, band: Band, i: int)
    requires
        band.bin_lo <= i <= band.bin_hi < db.len(),
        band.bin_hi - band.bin_lo < 0x4000,
        louder.len() == db.len(),
        forall|j: int| 0 <= j < db.len() && j != i ==> #[trigger] louder[j] == db[j],
        all_usual(db.subrange(band.bin_lo as int, band.bin_hi + 1)),
        usual(louder[i]),
        ({
            let n = band.bin_hi - band.bin_lo + 1;
            0x100_0000 * (louder[i].value() - db[i].value()) > 2000 * (n * n * errors::big())
        }),
    ensures
        analysis::band_level(db, band).less(analysis::band_level(louder, band)),
{
    let n = band.bin_hi - band.bin_lo + 1;
    let bins = db.subrange(band.bin_lo as int, band.bin_hi + 1);
    let others = louder.subrange(band.bin_lo as int, band.bin_hi + 1);
    assert forall|j: int| 0 <= j < others.len() implies usual(#[trigger] others[j]) by {
        assert(others[j] == louder[band.bin_lo + j]);
        assert(usual(bins[j]));
    }
    law_band_level_is_mean(db, band);
    law_band_level_is_mean(louder, band);
    lemma_total_raised(bins, others, i - band.bin_lo);
    let (x, y) = (analysis::band_level(db, band), analysis::band_level(louder, band));
    let (xv, yv) = (x.value(), y.value());
    assert(xv < yv) by (nonlinear_arith)
        requires
            0x100_0000 * (yv * n) > 0x100_0000 * (xv * n),
            n >= 1,
    ;
    single::lemma_less_is_order(x, y);
}

} // verus!
