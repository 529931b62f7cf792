//! The contrast curve in exact arithmetic: where it stands, and which way it goes.
use crate::analysis;
use crate::errors;
use crate::order;
use crate::shades;
use crate::single;
use crate::single::Single;
use crate::steps;
use crate::table;
use vstd::prelude::*;

verus! {

/// The curve is one over one more than the exponential, up to rounding: for exponentials
/// up to 2000 it lies within a few thousandths of a byte's step of that.
pub proof fn law_curve_is_logistic(e: Single)
    requires
        e.finite(),
        e.rank() >= 0,
        e.value() <= 2000 * errors::big(),
    ensures
        ({
            let c = analysis::curve(e);
            let (b, g, k) = (errors::big(), shades::grain(), errors::slack());
            &&& c.finite()
            &&& 0 <= c.value() <= b
            &&& errors::near(c.value() * (b + e.value()), b * b, (b + e.value()) * g + 2 * (b * k))
        }),
{
    table::lemma_curve(e);
}

/// The exponent is the distance below the midpoint times the steepness, up to rounding.
pub proof fn law_exponent_is_scaled_distance(x: Single, midpoint: Single, steep: Single)
    requires
        x.finite(),
        midpoint.finite(),
        steep.finite(),
        -errors::big() <= 8 * x.value(),
        100 * x.value() <= 152 * errors::big(),
        0 <= midpoint.value() <= errors::big(),
        0 <= steep.value() <= 40 * errors::big(),
    ensures
        ({
            let e = analysis::curve_exponent(x, midpoint, steep);
            let b = errors::big();
            &&& e.finite()
            &&& errors::near(
                e.value() * b,
                steep.value() * (midpoint.value() - x.value()),
                b * errors::slack(),
            )
        }),
{
    let b = errors::big();
    let s = steps::speck();
    steps::lemma_specks();
    let u = steps::lemma_exponent(x, midpoint, steep);
    let (k, d) = (steep.value(), midpoint.value() - x.value());
    let sb = s * b;
    assert(errors::near(-(k * u), k * d, 40 * sb)) by (nonlinear_arith)
        requires
            errors::near(u, -d, s),
            0 <= k <= 40 * b,
            sb == s * b,
            s > 0,
    ;
    assert(1024 * sb == b * errors::slack() && sb > 0) by (nonlinear_arith)
        requires
            sb == s * b,
            errors::slack() == 1024 * s,
            s > 0,
            b > 0,
    ;
}

/// Scaling by a value that is not below zero keeps the order.
proof fn lemma_scaled_order(x: Single, y: Single, k: Single)
    requires
        x.finite(),
        y.finite(),
        k.finite(),
        k.rank() >= 0,
        x.rank() <= y.rank(),
    ensures
        !x.times(k).nan(),
        !y.times(k).nan(),
        x.times(k).rank() <= y.times(k).rank(),
{
    let (p, q) = (x.negated(), y.negated());
    assert(p.finite() && q.finite() && p.rank() == -x.rank() && q.rank() == -y.rank());
    order::lemma_times_negated(x, k);
    order::lemma_times_negated(y, k);
    if x.rank() >= 0 {
        order::lemma_times_increases(x, y, k);
    } else if y.rank() <= 0 {
        order::lemma_times_increases(q, p, k);
    } else {
        order::lemma_product_place(p, k);
        order::lemma_product_place(y, k);
    }
}

/// The louder a sound, the smaller its exponent: the curve never turns it darker.
pub proof fn law_louder_has_smaller_exponent(
    quiet: Single,
    loud: Single,
    midpoint: Single,
    steep: Single,
)
    requires
        quiet.finite(),
        loud.finite(),
        midpoint.finite(),
        steep.finite(),
        steep.rank() >= 0,
        quiet.value() <= loud.value(),
        quiet.minus(midpoint).finite(),
        loud.minus(midpoint).finite(),
    ensures
        ({
            let (a, b) = (
                analysis::curve_exponent(quiet, midpoint, steep),
                analysis::curve_exponent(loud, midpoint, steep),
            );
            !a.nan() && !b.nan() && b.rank() <= a.rank()
        }),
{
    let less = midpoint.negated();
    assert(less.finite());
    single::lemma_less_is_order(loud, quiet);
    order::lemma_plus_increases(quiet, loud, less);
    let (x, y) = (quiet.minus(midpoint), loud.minus(midpoint));
    lemma_scaled_order(x, y, steep);
    order::lemma_times_commutes(steep.negated(), x);
    order::lemma_times_commutes(steep.negated(), y);
    order::lemma_times_negated(x, steep);
    order::lemma_times_negated(y, steep);
}

} // verus!
