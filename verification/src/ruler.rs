//! Where the ruler names the notes: beside the bands that show them.
use crate::color;
use crate::controls;
use crate::errors;
use crate::formulas;
use crate::order;
use crate::render;
use crate::render::Mark;
use crate::shades;
use crate::single;
use crate::single::Single;
use crate::state::App;
use crate::values::{HALF, ONE, TWO, ZERO};
use crate::view::Area;
use vstd::arithmetic::div_mod;
use vstd::prelude::*;

verus! {

/// How far up the range of `span` semitones a note stands that is `up` semitones above its
/// lower end: in bands, counted from the middle of the lowest, and times twice the span.
pub open spec fn twice_up(up: int, span: int, bands: int) -> int {
    let place = 2 * (up * bands) - span;
    if place < 0 {
        0
    } else {
        place
    }
}

/// The place of a note in bands, computed.
proof fn lemma_place(c: int, lo: int, hi: int, bands: nat)
    requires
        lo <= c <= hi,
        0 < hi - lo <= 1000,
        1 <= bands < 2047,
    ensures
        ({
            let i = render::band_place(c, lo, hi, bands);
            &&& i.finite()
            &&& i.rank() >= 0
            &&& i.value() <= bands * errors::big()
            &&& errors::near(
                2 * ((hi - lo) * i.value()),
                twice_up(c - lo, hi - lo, bands as int) * errors::big(),
                10 * ((hi - lo) * errors::slack()),
            )
        }),
{
    let (b, e, s) = (errors::big(), errors::slack(), formulas::speck());
    let (up, span) = (c - lo, hi - lo);
    let (at, all, count) = (Single::whole(up), Single::whole(span), Single::whole(bands as int));
    let (half, zero) = (Single { bits: HALF }, Single { bits: ZERO });
    formulas::lemma_specks();
    shades::lemma_grains();
    shades::lemma_constants();
    order::lemma_whole_exact(up);
    order::lemma_whole_exact(span);
    order::lemma_whole_exact(bands as int);
    assert(0 <= up * b <= span * b && span * b >= b && b <= bands * b <= 2046 * b)
        by (nonlinear_arith)
        requires
            0 <= up <= span,
            span >= 1,
            1 <= bands <= 2046,
            b > 0,
    ;
    single::lemma_parts(all);
    assert(at.units() * b < all.units() * (2 * b)) by (nonlinear_arith)
        requires
            0 <= at.units() <= all.units(),
            all.units() > 0,
            b > 0,
    ;
    errors::lemma_quotient_error(at, all, 126);
    let q = at.over(all);
    let qv = q.value();
    errors::lemma_quotient_value(qv, up * b, span, s);
    assert(-s <= qv <= b + s) by (nonlinear_arith)
        requires
            errors::near(span * qv, up * b, span * s),
            0 <= up * b <= span * b,
            span >= 1,
    ;
    assert(q.units() * count.units() < b * (2048 * b)) by (nonlinear_arith)
        requires
            0 <= q.units() <= b + s,
            count.units() <= 2046 * b,
            b == 0x100_0000 * s,
            s > 0,
    ;
    errors::lemma_product_error(q, count, 136);
    let p = q.times(count);
    let pv = p.value();
    errors::lemma_product_value(pv, qv, bands as int, e);
    assert(-2 * e <= bands * qv <= bands * b + 2 * e) by (nonlinear_arith)
        requires
            -s <= qv <= b + s,
            1 <= bands <= 2046,
            e == 1024 * s,
            s > 0,
    ;
    let less = half.negated();
    assert(less.units() == half.units());
    assert(2 * less.value() == -b);
    errors::lemma_sum_error(p, less, 136);
    let m = p.minus(half);
    single::lemma_parts(zero);
    single::lemma_less_is_order(m, zero);
    let mv = m.value();
    let n = bands as int;
    assert(errors::near(span * (n * qv), (up * n) * b, 2 * (span * e))) by (nonlinear_arith)
        requires
            errors::near(span * qv, up * b, span * s),
            1 <= n <= 2046,
            span >= 1,
            e == 1024 * s,
            s > 0,
    ;
    assert(errors::near(2 * (span * mv), 2 * (span * (n * qv)) - span * b, 4 * (span * e)))
        by (nonlinear_arith)
        requires
            errors::near(2 * mv, 2 * (n * qv) - b, 4 * e),
            span >= 1,
    ;
    assert((2 * (up * n) - span) * b == 2 * ((up * n) * b) - span * b) by (nonlinear_arith);
    let exact = 2 * (up * n) - span;
    assert(exact < 0 ==> exact * b <= 0) by (nonlinear_arith)
        requires
            b > 0,
    ;
    assert(exact >= 0 ==> exact * b >= 0) by (nonlinear_arith)
        requires
            b > 0,
    ;
    assert(mv < 0 ==> span * mv <= 0) by (nonlinear_arith)
        requires
            span >= 1,
    ;
    assert(mv >= 0 ==> span * mv >= 0) by (nonlinear_arith)
        requires
            span >= 1,
    ;
    assert(span * 0 == 0 && 0 * b == 0);
}

/// A value cut to a coordinate: the whole number at or below it, within the length.
proof fn lemma_coordinate(v: Single, last: int)
    requires
        v.finite(),
        0 <= last < usize::MAX,
    ensures
        ({
            let (k, b) = (render::coordinate(v, last), errors::big());
            &&& 0 <= k <= last
            &&& k > 0 ==> k * b <= v.value()
            &&& k < last ==> v.value() < (k + 1) * b
        }),
{
    let b = errors::big();
    shades::lemma_grains();
    single::lemma_parts(v);
    let u = v.units() as int;
    div_mod::lemma_fundamental_div_mod(u, b);
    div_mod::lemma_div_pos_is_pos(u, b);
    let q = u / b;
    assert(b * q == q * b && (q + 1) * b == q * b + b) by (nonlinear_arith);
    assert(q >= last ==> last * b <= q * b) by (nonlinear_arith)
        requires
            b > 0,
    ;
    if v.negative() {
        assert((0 + 1) * b == b) by (nonlinear_arith);
    } else {
        assert(v.index(false) == q || q >= usize::MAX && v.index(false) == usize::MAX);
    }
}

/// Half of a value, computed.
proof fn lemma_half(x: Single)
    requires
        x.finite(),
        errors::near(x.value(), 0, 2047 * errors::big()),
    ensures
        x.over(Single { bits: TWO }).finite(),
        errors::near(
            2 * x.over(Single { bits: TWO }).value(),
            x.value(),
            2 * errors::slack(),
        ),
{
    let b = errors::big();
    let two = Single { bits: TWO };
    shades::lemma_grains();
    shades::lemma_constants();
    single::lemma_parts(two);
    assert(x.units() * b < two.units() * (2048 * b)) by (nonlinear_arith)
        requires
            0 <= x.units() <= 2047 * b,
            two.units() == 2 * b,
            b > 0,
    ;
    errors::lemma_quotient_error(x, two, 136);
    errors::lemma_quotient_value(x.over(two).value(), x.value(), 2, errors::slack());
}

/// Where pitch runs upwards, the label of a note begins at the left edge, with a tick behind
/// it, in the row of cells that shows its bands: of the two rows of pixels there, counted
/// from the top, its place among the bands, counted from the lowest, falls into one.
pub proof fn law_label_stands_beside_its_band(app: App, area: Area, c: int)
    requires
        app.params.wf(),
        app.params.horizontal,
        app.params.range_lo <= c <= app.params.range_hi,
        1 <= app.analyzer.bands@.len() < 2047,
        area.height > 0,
    ensures
        ({
            let (x, y, text) = render::label_of(app, area, c);
            let (span, n) = (
                app.params.range_hi - app.params.range_lo,
                app.analyzer.bands@.len() as int,
            );
            let (b, k) = (errors::big(), y - area.y);
            let down = 2 * (span * (n - 1)) - twice_up(c - app.params.range_lo, span, n);
            &&& x == area.x
            &&& text == controls::named(c) + "╶"@
            &&& 0 <= k < area.height
            &&& k > 0 ==> 4 * (span * k) * b <= down * b + span * (18 * errors::slack())
            &&& k < area.height - 1 ==> down * b < 4 * (span * (k + 1)) * b + span * (18
                * errors::slack())
        }),
{
    let n = app.analyzer.bands@.len();
    let (lo, hi) = (app.params.range_lo as int, app.params.range_hi as int);
    let (b, e, span) = (errors::big(), errors::slack(), hi - lo);
    let (count, one, two) = (Single::whole(n as int), Single { bits: ONE }, Single { bits: TWO });
    shades::lemma_grains();
    shades::lemma_constants();
    lemma_place(c, lo, hi, n);
    let i = render::band_place(c, lo, hi, n);
    single::lemma_parts(i);
    order::lemma_whole_exact(n as int);
    assert(b <= n * b <= 2046 * b) by (nonlinear_arith)
        requires
            1 <= n <= 2046,
            b > 0,
    ;
    let less = one.negated();
    assert(less.units() == one.units());
    assert(less.value() == -b);
    errors::lemma_sum_error(count, less, 136);
    let minus = i.negated();
    assert(minus.units() == i.units());
    assert(minus.value() == -i.value());
    errors::lemma_sum_error(count.minus(one), minus, 136);
    let row = count.minus(one).minus(i);
    lemma_half(row);
    let v = row.over(two);
    let last = area.height - 1;
    lemma_coordinate(v, last);
    let k = render::coordinate(v, last);
    let (iv, vv) = (i.value(), v.value());
    let down = 2 * (span * (n - 1)) - twice_up(c - lo, span, n as int);
    assert(errors::near(2 * vv, (n - 1) * b - iv, 4 * e)) by {
        assert((n - 1) * b == n * b - b) by (nonlinear_arith);
    }
    assert(errors::near(4 * (span * vv), 2 * (span * ((n - 1) * b)) - 2 * (span * iv), 8 * (span
        * e))) by (nonlinear_arith)
        requires
            errors::near(2 * vv, (n - 1) * b - iv, 4 * e),
            span >= 1,
    ;
    let t = twice_up(c - lo, span, n as int);
    assert(down * b == 2 * (span * ((n - 1) * b)) - t * b) by (nonlinear_arith)
        requires
            down == 2 * (span * (n - 1)) - t,
    ;
    assert(errors::near(4 * (span * vv), down * b, 18 * (span * e)));
    assert(span * (18 * e) == 18 * (span * e)) by (nonlinear_arith);
    assert(k > 0 ==> 4 * (span * k) * b <= 4 * (span * vv)) by (nonlinear_arith)
        requires
            k > 0 ==> k * b <= vv,
            span >= 1,
    ;
    assert(k < last ==> 4 * (span * vv) < 4 * (span * (k + 1)) * b) by (nonlinear_arith)
        requires
            k < last ==> vv < (k + 1) * b,
            span >= 1,
    ;
}

/// Where pitch runs to the right, the label of a note stands in the last row, in the column
/// of cells that shows its bands, as far as three letters leave room.
pub proof fn law_label_stands_below_its_band(app: App, area: Area, c: int)
    requires
        app.params.wf(),
        !app.params.horizontal,
        app.params.range_lo <= c <= app.params.range_hi,
        1 <= app.analyzer.bands@.len() < 2047,
        area.width > 3,
    ensures
        ({
            let (x, y, text) = render::label_of(app, area, c);
            let (span, n) = (
                app.params.range_hi - app.params.range_lo,
                app.analyzer.bands@.len() as int,
            );
            let (b, k) = (errors::big(), x - area.x);
            let up = twice_up(c - app.params.range_lo, span, n);
            &&& y == area.y + area.height - 1
            &&& text == controls::named(c)
            &&& 0 <= k <= area.width - 3
            &&& k > 0 ==> 4 * (span * k) * b <= up * b + span * (18 * errors::slack())
            &&& k < area.width - 3 ==> up * b < 4 * (span * (k + 1)) * b + span * (18
                * errors::slack())
        }),
{
    let n = app.analyzer.bands@.len();
    let (lo, hi) = (app.params.range_lo as int, app.params.range_hi as int);
    let (b, e, span) = (errors::big(), errors::slack(), hi - lo);
    shades::lemma_grains();
    lemma_place(c, lo, hi, n);
    let i = render::band_place(c, lo, hi, n);
    single::lemma_parts(i);
    assert(n * b <= 2046 * b) by (nonlinear_arith)
        requires
            n <= 2046,
            b > 0,
    ;
    lemma_half(i);
    let v = i.over(Single { bits: TWO });
    let last = area.width - 3;
    lemma_coordinate(v, last);
    let k = render::coordinate(v, last);
    let (iv, vv) = (i.value(), v.value());
    assert(errors::near(4 * (span * vv), 2 * (span * iv), 4 * (span * e))) by (nonlinear_arith)
        requires
            errors::near(2 * vv, iv, 2 * e),
            span >= 1,
    ;
    assert(span * (18 * e) == 18 * (span * e) && span * e > 0) by (nonlinear_arith)
        requires
            span >= 1,
            e > 0,
    ;
    assert(k > 0 ==> 4 * (span * k) * b <= 4 * (span * vv)) by (nonlinear_arith)
        requires
            k > 0 ==> k * b <= vv,
            span >= 1,
    ;
    assert(k < last ==> 4 * (span * vv) < 4 * (span * (k + 1)) * b) by (nonlinear_arith)
        requires
            k < last ==> vv < (k + 1) * b,
            span >= 1,
    ;
}

/// Every C has its label, letter by letter and in the colour of the note, over the
/// background that is there; other notes have none, and nothing else changes.
pub proof fn law_every_c_is_labelled(
    grid: Map<(u16, u16), Mark>,
    app: App,
    area: Area,
    c: int,
    p: (u16, u16),
)
    requires
        grid.dom().contains(p),
    ensures
        ({
            let (x, y, text) = render::label_of(app, area, c);
            let here = c % 12 == 0 && p.1 == y && x <= p.0 < x + text.len();
            render::noted(grid, app, area, c)[p] == if here {
                (
                    seq![text[p.0 - x]],
                    Some(color::reference(Single::whole(c))),
                    grid[p].2,
                )
            } else {
                grid[p]
            }
        }),
{
    reveal(render::noted);
}

} // verus!
