//! What the formulas of the analysis amount to, in exact arithmetic.
use crate::analysis;
use crate::analysis::Tones;
use crate::combs;
use crate::errors;
use crate::octaves;
use crate::order;
use crate::pass;
use crate::rounding;
use crate::shades;
use crate::single;
use crate::single::Single;
use crate::state::App;
use crate::values::{HALF, HUNDRED, HUNDREDTH, ONE, TURN, TWENTY, TWO};
use vstd::arithmetic::div_mod;
use vstd::arithmetic::power2;
use vstd::prelude::*;

verus! {

/// Half the spacing of the values from 1 to 2, in units.
pub open spec fn speck() -> int {
    power2::pow2(125) as int
}

/// The scales that the bounds speak of.
pub proof fn lemma_specks()
    ensures
        errors::big() == 0x100_0000 * speck(),
        errors::slack() == 1024 * speck(),
        shades::grain() == 8 * speck(),
        power2::pow2(150) == 2 * errors::big(),
        power2::pow2(152) == 8 * errors::big(),
        power2::pow2(155) == 64 * errors::big(),
        power2::pow2(158) == 512 * errors::big(),
        power2::pow2(127) == 4 * speck(),
        power2::pow2(130) == 32 * speck(),
        power2::pow2(133) == 256 * speck(),
        speck() > 0,
{
    power2::lemma2_to64();
    rounding::lemma_pow2_facts(24, 125);
    rounding::lemma_pow2_facts(10, 125);
    rounding::lemma_pow2_facts(8, 125);
    rounding::lemma_pow2_facts(5, 125);
    rounding::lemma_pow2_facts(3, 125);
    rounding::lemma_pow2_facts(2, 125);
    rounding::lemma_pow2_facts(125, 0);
    rounding::lemma_pow2_facts(149, 0);
    rounding::lemma_pow2_facts(3, 149);
    rounding::lemma_pow2_facts(6, 149);
    rounding::lemma_pow2_facts(9, 149);
}

/// The window is a raised cosine: at an angle whose cosine is `c` its weight is half of
/// what `c` lacks to one.
pub proof fn law_window_is_raised_cosine(c: Single)
    requires
        c.finite(),
        -errors::big() <= c.value() <= errors::big(),
    ensures
        analysis::weight_at(c).finite(),
        errors::near(
            2 * analysis::weight_at(c).value(),
            errors::big() - c.value(),
            4 * speck(),
        ),
{
    let (b, s) = (errors::big(), speck());
    let half = Single { bits: HALF };
    lemma_specks();
    shades::lemma_constants();
    assert(half.units() * c.units() < b * (2 * b)) by (nonlinear_arith)
        requires
            2 * half.units() == b,
            0 <= c.units() <= b,
            b > 0,
    ;
    errors::lemma_product_error(half, c, 126);
    let t = half.times(c);
    let (tv, hv, cv) = (t.value(), half.value(), c.value());
    assert(2 * (hv * cv) == cv * b && 2 * (b * s) == (2 * s) * b && 2 * (tv * b) == (2 * tv) * b)
        by (nonlinear_arith)
        requires
            2 * hv == b,
    ;
    errors::lemma_divided(2 * tv, cv, 2 * s, b);
    let less = t.negated();
    assert(less.units() == t.units());
    assert(less.value() == -tv);
    errors::lemma_sum_error(half, less, 126);
}

/// The angles of the window go once around: sample `i` of `n` is at `i` `n`ths of a turn,
/// which is 6.283185.
pub proof fn law_window_goes_once_around(i: int, n: int)
    requires
        0 <= i < n < 0x100_0000,
    ensures
        analysis::angle_at(i, n).finite(),
        errors::near(
            1_000_000 * (n * analysis::angle_at(i, n).value()),
            6_283_185 * (i * errors::big()),
            5 * (n * errors::big()),
        ),
{
    let (b, s) = (errors::big(), speck());
    let (at, all) = (Single::whole(i), Single::whole(n));
    lemma_specks();
    order::lemma_whole_exact(i);
    order::lemma_whole_exact(n);
    assert(0 <= i * b <= n * b && n * b >= b) by (nonlinear_arith)
        requires
            0 <= i < n,
            b > 0,
    ;
    single::lemma_parts(all);
    assert(at.units() * b < all.units() * (2 * b)) by (nonlinear_arith)
        requires
            0 <= at.units() <= all.units(),
            all.units() > 0,
            b > 0,
    ;
    errors::lemma_quotient_error(at, all, 126);
    let q = at.over(all);
    errors::lemma_quotient_value(q.value(), i * b, n, s);
    let qv = q.value();
    assert(-b <= qv <= 2 * b) by (nonlinear_arith)
        requires
            errors::near(n * qv, i * b, n * s),
            0 <= i * b <= n * b,
            n >= 1,
            b == 0x100_0000 * s,
            s > 0,
    ;
    lemma_turn();
    lemma_angle(q, i, n);
}

/// The turn of the window.
proof fn lemma_turn()
    ensures
        (Single { bits: TURN }).finite(),
        errors::near(
            1_000_000 * (Single { bits: TURN }).value(),
            6_283_185 * errors::big(),
            errors::big(),
        ),
{
    order::lemma_units_of(Single { bits: TURN }, 0xc9_0fdb, 128);
    power2::lemma2_to64();
    rounding::lemma_pow2_facts(21, 128);
    rounding::lemma_pow2_facts(128, 0);
    let w = power2::pow2(128) as int;
    assert(errors::big() == 0x20_0000 * w);
}

proof fn lemma_angle(q: Single, i: int, n: int)
    requires
        q.finite(),
        0 <= i < n < 0x100_0000,
        -errors::big() <= q.value() <= 2 * errors::big(),
        errors::near(n * q.value(), i * errors::big(), n * speck()),
    ensures
        (Single { bits: TURN }).times(q).finite(),
        errors::near(
            1_000_000 * (n * (Single { bits: TURN }).times(q).value()),
            6_283_185 * (i * errors::big()),
            5 * (n * errors::big()),
        ),
{
    let (b, s) = (errors::big(), speck());
    let turn = Single { bits: TURN };
    lemma_specks();
    lemma_turn();
    let (tv, qv) = (turn.value(), q.value());
    assert(turn.units() * q.units() < b * (64 * b)) by (nonlinear_arith)
        requires
            0 <= turn.units() <= 7 * b,
            0 <= q.units() <= 2 * b,
            b > 0,
    ;
    errors::lemma_product_error(turn, q, 131);
    let y = turn.times(q).value();
    assert(errors::near(1_000_000 * (tv * qv), (6_283_185 * qv) * b, 2 * (b * b)))
        by (nonlinear_arith)
        requires
            errors::near(1_000_000 * tv, 6_283_185 * b, b),
            -b <= qv <= 2 * b,
            b > 0,
    ;
    let x = 1_000_000 * y;
    let by = 2 * b + 32_000_000 * s;
    assert(1_000_000 * (y * b) == x * b && 2 * (b * b) + 1_000_000 * (b * (32 * s)) == by * b)
        by (nonlinear_arith)
        requires
            x == 1_000_000 * y,
            by == 2 * b + 32_000_000 * s,
    ;
    errors::lemma_divided(x, 6_283_185 * qv, by, b);
    assert(errors::near(1_000_000 * (n * y), 6_283_185 * (n * qv), n * by)) by (nonlinear_arith)
        requires
            errors::near(1_000_000 * y, 6_283_185 * qv, by),
            n >= 0,
    ;
    assert(n * by == 2 * (n * b) + 32_000_000 * (n * s) && n * b == 0x100_0000 * (n * s) && n * s
        >= 0) by (nonlinear_arith)
        requires
            by == 2 * b + 32_000_000 * s,
            b == 0x100_0000 * s,
            n >= 0,
            s > 0,
    ;
}

/// Smoothing is a mean of what was and what is, with the smoothing as the weight of what
/// was: for sizes between 0 and 1 it lies within a millionth of the exact one.
pub proof fn law_smoothing_is_weighted_mean(
    before: Single,
    size: Single,
    smooth: Single,
    sum: Single,
)
    requires
        before.finite(),
        0 <= before.value() <= errors::big(),
        size.times((Single { bits: TWO }).over(sum)).finite(),
        0 <= size.times((Single { bits: TWO }).over(sum)).value() <= errors::big(),
        smooth.finite(),
        0 <= smooth.value() <= errors::big(),
    ensures
        ({
            let b = errors::big();
            let now = size.times((Single { bits: TWO }).over(sum)).value();
            let mix = analysis::blended(before, size, smooth, sum);
            &&& mix.finite()
            &&& errors::near(
                mix.value() * b,
                smooth.value() * before.value() + (b - smooth.value()) * now,
                4 * (speck() * b),
            )
        }),
{
    let (b, s) = (errors::big(), speck());
    let one = Single { bits: ONE };
    let fresh = size.times((Single { bits: TWO }).over(sum));
    lemma_specks();
    shades::lemma_constants();
    assert(smooth.units() * before.units() < b * (2 * b)) by (nonlinear_arith)
        requires
            0 <= smooth.units() <= b,
            0 <= before.units() <= b,
            b > 0,
    ;
    errors::lemma_product_error(smooth, before, 126);
    let past = smooth.times(before);
    let less = smooth.negated();
    assert(less.units() == smooth.units());
    assert(less.value() == -smooth.value());
    errors::lemma_sum_error(one, less, 126);
    let rest = one.minus(smooth);
    assert(rest.units() * fresh.units() < b * (2 * b)) by (nonlinear_arith)
        requires
            0 <= rest.units() <= b + s,
            0 <= fresh.units() <= b,
            b > s,
            s > 0,
    ;
    errors::lemma_product_error(rest, fresh, 126);
    let part = rest.times(fresh);
    let (pv, qv, rv, fv) = (past.value(), part.value(), rest.value(), fresh.value());
    let (sv, xv) = (smooth.value(), before.value());
    let sb = s * b;
    assert(b * s == sb) by (nonlinear_arith)
        requires
            sb == s * b,
    ;
    assert(errors::near(rv * fv, (b - sv) * fv, sb)) by (nonlinear_arith)
        requires
            errors::near(rv, b - sv, s),
            0 <= fv <= b,
            sb == s * b,
            s > 0,
    ;
    assert(0 <= sv * xv && sv * xv + (b - sv) * fv <= b * b && (b - sv) * fv >= 0)
        by (nonlinear_arith)
        requires
            0 <= sv <= b,
            0 <= xv <= b,
            0 <= fv <= b,
    ;
    assert(b * b == 0x100_0000 * sb && sb > 0) by (nonlinear_arith)
        requires
            b == 0x100_0000 * s,
            sb == s * b,
            s > 0,
    ;
    assert((pv + qv) * b == pv * b + qv * b) by (nonlinear_arith);
    assert(-2 * b < pv + qv < 2 * b) by (nonlinear_arith)
        requires
            errors::near((pv + qv) * b, 0, b * b + 3 * sb),
            b * b == 0x100_0000 * sb,
            sb > 0,
            b > 0,
    ;
    errors::lemma_sum_error(past, part, 126);
    let m = past.plus(part).value();
    assert(errors::near(m * b, (pv + qv) * b, sb)) by (nonlinear_arith)
        requires
            errors::near(m, pv + qv, s),
            sb == s * b,
            b > 0,
    ;
}

/// A factor of ten in magnitude is 20 dB.
pub proof fn law_tenfold_is_twenty_decibels(log: Single)
    requires
        log.finite(),
        errors::near(log.value(), 0, 50 * errors::big()),
    ensures
        analysis::decibels(log).finite(),
        errors::near(analysis::decibels(log).value(), 20 * log.value(), errors::slack()),
{
    let (b, e) = (errors::big(), errors::slack());
    let twenty = Single { bits: TWENTY };
    shades::lemma_grains();
    power2::lemma2_to64();
    order::lemma_units_of(twenty, 0xa0_0000, 130);
    rounding::lemma_pow2_facts(130, 19);
    assert(0xa0_0000 * power2::pow2(130) == 20 * b) by (nonlinear_arith)
        requires
            b == power2::pow2(130) * 0x8_0000,
    ;
    assert(twenty.units() * log.units() < b * (2048 * b)) by (nonlinear_arith)
        requires
            twenty.units() == 20 * b,
            0 <= log.units() <= 50 * b,
            b > 0,
    ;
    errors::lemma_product_error(twenty, log, 136);
    assert((20 * b) * log.value() == log.value() * (20 * b)) by (nonlinear_arith);
    errors::lemma_product_value(twenty.times(log).value(), log.value(), 20, e);
}

/// Each sample goes into the spectrum with the weight of the window at its place.
pub proof fn law_samples_are_weighted(app: App, i: int)
    requires
        0 <= i < app.analyzer.fft_size,
        app.samples@[i].finite(),
        errors::near(app.samples@[i].value(), 0, errors::big()),
        app.analyzer.window@[i].finite(),
        errors::near(app.analyzer.window@[i].value(), 0, errors::big()),
    ensures
        pass::windowed(app).len() == app.analyzer.fft_size,
        pass::windowed(app)[i].finite(),
        errors::near(
            pass::windowed(app)[i].value() * errors::big(),
            app.samples@[i].value() * app.analyzer.window@[i].value(),
            errors::big() * speck(),
        ),
{
    let b = errors::big();
    let (x, w) = (app.samples@[i], app.analyzer.window@[i]);
    lemma_specks();
    assert(x.units() * w.units() < b * (2 * b)) by (nonlinear_arith)
        requires
            0 <= x.units() <= b,
            0 <= w.units() <= b,
            b > 0,
    ;
    errors::lemma_product_error(x, w, 126);
}

/// The loudness of a level is a hundredth of it: 0 dB are worth one, and every hundred dB
/// less a tenth.
pub proof fn law_loudness_is_hundredth(db: Single)
    requires
        combs::tame(db),
    ensures
        analysis::loudness(db).finite(),
        errors::near(100 * analysis::loudness(db).value(), db.value(), 2 * errors::slack()),
{
    let (b, s) = (errors::big(), speck());
    let (hundred, one) = (Single { bits: HUNDRED }, Single { bits: ONE });
    lemma_specks();
    shades::lemma_constants();
    lemma_hundred();
    errors::lemma_sum_error(db, hundred, 134);
    let x = db.plus(hundred);
    single::lemma_parts(hundred);
    assert(x.units() * b < hundred.units() * (8 * b)) by (nonlinear_arith)
        requires
            0 <= x.units() <= 401 * b,
            hundred.units() == 100 * b,
            b > 0,
    ;
    errors::lemma_quotient_error(x, hundred, 128);
    let q = x.over(hundred);
    errors::lemma_quotient_value(q.value(), x.value(), 100, 4 * s);
    let less = one.negated();
    assert(less.units() == one.units());
    assert(less.value() == -b);
    errors::lemma_sum_error(q, less, 128);
}

proof fn lemma_hundred()
    ensures
        (Single { bits: HUNDRED }).finite(),
        (Single { bits: HUNDRED }).value() == 100 * errors::big(),
        (Single { bits: HUNDREDTH }).finite(),
        errors::near(
            100 * (Single { bits: HUNDREDTH }).value(),
            errors::big(),
            speck(),
        ),
{
    let b = errors::big();
    power2::lemma2_to64();
    order::lemma_units_of(Single { bits: HUNDRED }, 0xc8_0000, 132);
    order::lemma_units_of(Single { bits: HUNDREDTH }, 0xa3_d70a, 119);
    rounding::lemma_pow2_facts(132, 17);
    rounding::lemma_pow2_facts(30, 119);
    rounding::lemma_pow2_facts(6, 119);
    assert(0xc8_0000 * power2::pow2(132) == 100 * b) by (nonlinear_arith)
        requires
            b == power2::pow2(132) * 0x2_0000,
    ;
    let w = power2::pow2(119) as int;
    assert(b == 0x4000_0000 * w && speck() == 64 * w);
}

/// The pink correction is 0.02 per octave above A4, and as much less below.
pub proof fn law_pink_per_octave(octaves: Single)
    requires
        octaves.finite(),
        errors::near(octaves.value(), 0, 20 * errors::big()),
    ensures
        analysis::pink_at(octaves).finite(),
        errors::near(
            100 * analysis::pink_at(octaves).value(),
            2 * octaves.value(),
            errors::slack(),
        ),
{
    let (b, s) = (errors::big(), speck());
    let (two, part) = (Single { bits: TWO }, Single { bits: HUNDREDTH });
    lemma_specks();
    shades::lemma_constants();
    lemma_hundred();
    let ov = octaves.value();
    assert(two.units() * octaves.units() < b * (64 * b)) by (nonlinear_arith)
        requires
            two.units() == 2 * b,
            0 <= octaves.units() <= 20 * b,
            b > 0,
    ;
    errors::lemma_product_error(two, octaves, 131);
    let t = two.times(octaves);
    assert((2 * b) * ov == ov * (2 * b)) by (nonlinear_arith);
    errors::lemma_product_value(t.value(), ov, 2, 32 * s);
    let (tv, hv) = (t.value(), part.value());
    assert(t.units() * part.units() < b * (2 * b)) by (nonlinear_arith)
        requires
            0 <= t.units() <= 41 * b,
            0 <= 100 * part.units() <= b + s,
            b == 0x100_0000 * s,
            s > 0,
    ;
    errors::lemma_product_error(t, part, 126);
    let y = t.times(part).value();
    let sb = s * b;
    assert(b * s == sb) by (nonlinear_arith)
        requires
            sb == s * b,
    ;
    assert(errors::near(100 * (tv * hv), tv * b, 41 * sb)) by (nonlinear_arith)
        requires
            errors::near(100 * hv, b, s),
            -41 * b <= tv <= 41 * b,
            sb == s * b,
            s > 0,
    ;
    assert(100 * (y * b) == (100 * y) * b && 141 * sb == (141 * s) * b) by (nonlinear_arith)
        requires
            sb == s * b,
    ;
    errors::lemma_divided(100 * y, tv, 141 * s, b);
}

/// The bins of a band reach from the one that its lower edge falls into to the one that
/// its upper edge falls short of, as far as the spectrum goes.
pub proof fn law_band_spans_its_edges(t: Tones, n: nat, rate: Single)
    requires
        n / 2 < usize::MAX,
        analysis::bin_place(t.power_lo, n, rate).finite(),
        analysis::bin_place(t.power_lo, n, rate).rank() >= 0,
        analysis::bin_place(t.power_hi, n, rate).finite(),
        analysis::bin_place(t.power_hi, n, rate).rank() >= 0,
    ensures
        ({
            let (lo, hi) = (analysis::low_bin(t, n, rate), analysis::high_bin(t, n, rate));
            let (x, y) = (
                analysis::bin_place(t.power_lo, n, rate).value(),
                analysis::bin_place(t.power_hi, n, rate).value(),
            );
            let (b, last) = (errors::big(), n as int / 2);
            &&& 0 <= lo <= hi <= last
            &&& lo * b <= x
            &&& lo < last ==> x < (lo + 1) * b
            &&& y <= last * b ==> y <= hi * b
            &&& y > last * b ==> hi == last
            &&& hi > lo ==> (hi - 1) * b < y
        }),
{
    let b = errors::big();
    lemma_specks();
    let (p, q) = (analysis::bin_place(t.power_lo, n, rate), analysis::bin_place(t.power_hi, n, rate));
    single::lemma_parts(p);
    single::lemma_parts(q);
    let last = n as int / 2;
    let (u, v) = (p.units() as int, q.units() as int);
    div_mod::lemma_fundamental_div_mod(u, b);
    div_mod::lemma_fundamental_div_mod(v, b);
    let (k, m) = (u / b, v / b);
    let up: int = if v % b > 0 {
        m + 1
    } else {
        m
    };
    assert(k >= 0 && m >= 0) by {
        div_mod::lemma_div_pos_is_pos(u, b);
        div_mod::lemma_div_pos_is_pos(v, b);
    }
    let (lo, hi) = (analysis::low_bin(t, n, rate), analysis::high_bin(t, n, rate));
    assert(b * k == k * b && b * m == m * b) by (nonlinear_arith);
    assert((k + 1) * b == k * b + b && (m + 1) * b == m * b + b && (m - 1) * b == m * b - b)
        by (nonlinear_arith);
    assert(v <= up * b && (up - 1) * b < v);
    assert(k >= last ==> last * b <= k * b) by (nonlinear_arith)
        requires
            b > 0,
    ;
    assert(up > last ==> (up - 1) * b >= last * b) by (nonlinear_arith)
        requires
            b > 0,
    ;
    assert(up <= last ==> up * b <= last * b) by (nonlinear_arith)
        requires
            b > 0,
    ;
    let (i, j) = (p.index(false), q.index(true));
    assert(i == k || k >= usize::MAX && i == usize::MAX);
    assert(j == up || up >= usize::MAX && j == usize::MAX);
    assert(lo == if k < last {
        k
    } else {
        last
    });
    assert(hi == if up < lo {
        lo
    } else if up > last {
        last
    } else {
        up
    });
    assert(up <= hi ==> up * b <= hi * b) by (nonlinear_arith)
        requires
            b > 0,
    ;
    assert(hi <= up ==> (hi - 1) * b <= (up - 1) * b) by (nonlinear_arith)
        requires
            b > 0,
    ;
}

/// A bin's size counts twice, over the sum of the window's weights, up to rounding.
pub proof fn law_size_is_normalised(size: Single, sum: Single)
    requires
        size.finite(),
        !size.negative(),
        errors::big() <= 0x100_0000_0000 * size.value(),
        size.value() <= 0x100_0000 * errors::big(),
        sum.finite(),
        !sum.negative(),
        errors::big() <= sum.value() <= 0x100_0000 * errors::big(),
    ensures
        ({
            let fresh = size.times((Single { bits: TWO }).over(sum));
            let exact = 2 * (size.value() * errors::big());
            &&& fresh.finite()
            &&& errors::near(0x100_0000 * (fresh.value() * sum.value()), 0x100_0000 * exact, 3 * exact)
        }),
{
    let b = errors::big();
    let two = Single { bits: TWO };
    lemma_specks();
    octaves::lemma_wide();
    shades::lemma_constants();
    let (z, s) = (size.value(), sum.value());
    single::lemma_parts(sum);
    assert(sum.units() * power2::pow2(23) <= two.units() * b && two.units() * b < sum.units()
        * power2::pow2(250)) by (nonlinear_arith)
        requires
            two.units() == 2 * b,
            b <= sum.units() <= 0x100_0000 * b,
            0x1_0000_0000_0000_0000 * b <= power2::pow2(250),
            0x1_0000_0000_0000_0000 * power2::pow2(23) <= b,
            b > 0,
    ;
    errors::lemma_quotient_relative(two, sum);
    let norm = two.over(sum);
    let n = norm.value();
    let square = b * b;
    assert((2 * b) * b == 2 * square) by (nonlinear_arith)
        requires
            square == b * b,
    ;
    assert(b <= 0x100_0000 * n && n <= 4 * b) by (nonlinear_arith)
        requires
            errors::near(0x100_0000 * (n * s), 0x100_0000 * (2 * square), 2 * square),
            square == b * b,
            b <= s <= 0x100_0000 * b,
            b > 0,
    ;
    assert(b * power2::pow2(23) <= size.units() * norm.units() < b * power2::pow2(250))
        by (nonlinear_arith)
        requires
            b <= 0x100_0000_0000 * size.units(),
            size.units() <= 0x100_0000 * b,
            b <= 0x100_0000 * norm.units(),
            norm.units() <= 4 * b,
            0x1_0000_0000_0000_0000 * b <= power2::pow2(250),
            0x1_0000_0000_0000_0000 * power2::pow2(23) <= b,
            b > 0,
    ;
    errors::lemma_product_relative(size, norm);
    let f = size.times(norm).value();
    lemma_normal(f, z, n, s);
}

proof fn lemma_normal(f: int, z: int, n: int, s: int)
    requires
        z >= 0,
        s > 0,
        errors::near(0x100_0000 * (f * errors::big()), 0x100_0000 * (z * n), z * n),
        errors::near(
            0x100_0000 * (n * s),
            0x100_0000 * (2 * (errors::big() * errors::big())),
            2 * (errors::big() * errors::big()),
        ),
    ensures
        errors::near(
            0x100_0000 * (f * s),
            0x100_0000 * (2 * (z * errors::big())),
            3 * (2 * (z * errors::big())),
        ),
{
    let b = errors::big();
    lemma_specks();
    let square = b * b;
    let (zns, whole) = (z * n * s, 2 * (z * square));
    let fs = f * s;
    assert(errors::near(0x100_0000 * (fs * b), 0x100_0000 * zns, zns)) by (nonlinear_arith)
        requires
            errors::near(0x100_0000 * (f * b), 0x100_0000 * (z * n), z * n),
            fs == f * s,
            zns == z * n * s,
            s > 0,
    ;
    assert(errors::near(0x100_0000 * zns, 0x100_0000 * whole, whole)) by (nonlinear_arith)
        requires
            errors::near(0x100_0000 * (n * s), 0x100_0000 * (2 * square), 2 * square),
            zns == z * n * s,
            whole == 2 * (z * square),
            z >= 0,
    ;
    let exact = 2 * (z * b);
    assert(whole == exact * b && whole >= 0) by (nonlinear_arith)
        requires
            whole == 2 * (z * square),
            square == b * b,
            exact == 2 * (z * b),
            z >= 0,
            b > 0,
    ;
    let (x, y) = (0x100_0000 * fs, 0x100_0000 * exact);
    assert(0x100_0000 * (fs * b) == x * b && 0x100_0000 * whole == y * b && 3 * whole == (3 * exact)
        * b) by (nonlinear_arith)
        requires
            x == 0x100_0000 * fs,
            y == 0x100_0000 * exact,
            whole == exact * b,
    ;
    errors::lemma_divided(x, y, 3 * exact, b);
}

} // verus!
