//! Where the history stands on the screen: every row and band that fits has its pixel,
//! and every cell shows its four pixels.
use crate::color::Rgb;
use crate::render;
use crate::render::Mark;
use crate::state::App;
use crate::view::Area;
use vstd::prelude::*;

verus! {

/// The colour of a value of the history; black where the history has none.
pub open spec fn colour_of(app: App, t: int, b: int) -> Rgb {
    if 0 <= t < app.history@.len() && 0 <= b < app.history@[t]@.len() && b
        < app.analyzer.bands@.len() {
        app.colors.colour(app.history@[t]@[b], app.analyzer.bands@[b])
    } else {
        (0u8, 0u8, 0u8)
    }
}

/// Every row of the history that fits has its place. Where pitch runs upwards, row `t`
/// from the newest stands `t` columns left of the right edge and band `b` stands `b` rows
/// above the lower edge. Where pitch runs to the right, row `t` stands `t` rows above the
/// lower edge and band `b` in column `b`.
pub proof fn law_history_has_its_place(app: App, w: int, h: int, t: int, b: int)
    ensures
        app.params.horizontal && 0 <= t < 2 * w && 0 <= b < 2 * h ==> render::screen_pixel(
            app,
            w,
            h,
            2 * w - 1 - t,
            2 * h - 1 - b,
        ) == colour_of(app, t, b),
        !app.params.horizontal && 0 <= t < 2 * h && 0 <= b < 2 * w ==> render::screen_pixel(
            app,
            w,
            h,
            b,
            2 * h - 1 - t,
        ) == colour_of(app, t, b),
{
}

/// Whether a quadrant glyph fills its top left, top right, bottom left or bottom right.
pub open spec fn fills(glyph: char, quadrant: int) -> bool {
    if quadrant == 0 {
        glyph == '▘' || glyph == '▚' || glyph == '▌' || glyph == '▙' || glyph == '▀' || glyph
            == '▜' || glyph == '▛' || glyph == '█'
    } else if quadrant == 1 {
        glyph == '▝' || glyph == '▐' || glyph == '▞' || glyph == '▟' || glyph == '▀' || glyph
            == '▜' || glyph == '▛' || glyph == '█'
    } else if quadrant == 2 {
        glyph == '▖' || glyph == '▄' || glyph == '▞' || glyph == '▟' || glyph == '▌' || glyph
            == '▙' || glyph == '▛' || glyph == '█'
    } else {
        glyph == '▗' || glyph == '▄' || glyph == '▐' || glyph == '▟' || glyph == '▚' || glyph
            == '▙' || glyph == '▜' || glyph == '█'
    }
}

/// The colour that a cell shows in a quadrant.
pub open spec fn seen(cell: (char, Rgb, Rgb), quadrant: int) -> Rgb {
    if fills(cell.0, quadrant) {
        cell.1
    } else {
        cell.2
    }
}

proof fn lemma_glyphs(px: Seq<Rgb>, q: int)
    requires
        px.len() == 4,
        0 <= q < 4,
    ensures
        fills(render::quad_of(px).0, q) <==> render::bright(px, q),
{
    let m = render::mask_of(px);
    assert(0 <= m <= 15);
    assert(render::QUADS@[0] == ' ' && render::QUADS@[1] == '▗' && render::QUADS@[2] == '▖'
        && render::QUADS@[3] == '▄' && render::QUADS@[4] == '▝' && render::QUADS@[5] == '▐'
        && render::QUADS@[6] == '▞' && render::QUADS@[7] == '▟' && render::QUADS@[8] == '▘'
        && render::QUADS@[9] == '▚' && render::QUADS@[10] == '▌' && render::QUADS@[11] == '▙'
        && render::QUADS@[12] == '▀' && render::QUADS@[13] == '▜' && render::QUADS@[14] == '▛'
        && render::QUADS@[15] == '█');
}

/// The quadrants that a cell marks are those whose pixels are no darker than the mean of
/// the four, in thousandths of luminance.
pub proof fn law_marks_are_bright(px: Seq<Rgb>, q: int)
    requires
        px.len() == 4,
        0 <= q < 4,
    ensures
        fills(render::quad_of(px).0, q) <==> 4 * weight_of(px[q]) >= weight_of(px[0]) + weight_of(
            px[1],
        ) + weight_of(px[2]) + weight_of(px[3]),
{
    lemma_glyphs(px, q);
}

/// How bright a colour is to the eye, in thousandths: green counts most and blue least.
pub open spec fn weight_of(c: Rgb) -> int {
    299 * c.0 + 587 * c.1 + 114 * c.2
}

/// A cell whose pixels have two colours of different luminance at most shows each pixel
/// in its own.
pub proof fn law_two_colours_are_shown(px: Seq<Rgb>, c: Rgb, d: Rgb, q: int)
    requires
        px.len() == 4,
        forall|i: int| 0 <= i < 4 ==> #[trigger] px[i] == c || px[i] == d,
        weight_of(c) > weight_of(d),
        0 <= q < 4,
    ensures
        seen(render::quad_of(px), q) == px[q],
{
    reveal_with_fuel(render::members, 5);
    reveal_with_fuel(render::parts_of, 5);
    lemma_glyphs(px, q);
    assert(px[0] == c || px[0] == d);
    assert(px[1] == c || px[1] == d);
    assert(px[2] == c || px[2] == d);
    assert(px[3] == c || px[3] == d);
    if forall|i: int| 0 <= i < 4 ==> #[trigger] px[i] == d {
        assert(px[0] == d && px[1] == d && px[2] == d && px[3] == d);
        lemma_cluster(px, true, d);
    } else {
        assert(forall|i: int| 0 <= i < 4 ==> (#[trigger] render::bright(px, i) <==> px[i] == c));
        lemma_cluster(px, true, c);
        if px[0] == d || px[1] == d || px[2] == d || px[3] == d {
            lemma_cluster(px, false, d);
        }
    }
}

/// The mean of pixels of one colour is that colour.
proof fn lemma_cluster(px: Seq<Rgb>, side: bool, c: Rgb)
    requires
        px.len() == 4,
        forall|i: int| 0 <= i < 4 && #[trigger] render::bright(px, i) == side ==> px[i] == c,
        exists|i: int| 0 <= i < 4 && #[trigger] render::bright(px, i) == side,
    ensures
        render::members(px, side, 4) > 0,
        render::cluster(px, side) == c,
{
    lemma_members(px, side, c, 4);
    reveal_with_fuel(render::members, 5);
    let n = render::members(px, side, 4) as int;
    lemma_mean(c.0 as int, n);
    lemma_mean(c.1 as int, n);
    lemma_mean(c.2 as int, n);
}

proof fn lemma_mean(v: int, n: int)
    requires
        n > 0,
    ensures
        (n * v) / n == v,
{
    vstd::arithmetic::div_mod::lemma_div_multiples_vanish(v, n);
}

proof fn lemma_members(px: Seq<Rgb>, side: bool, c: Rgb, m: nat)
    requires
        px.len() == 4,
        m <= 4,
        forall|i: int| 0 <= i < 4 && #[trigger] render::bright(px, i) == side ==> px[i] == c,
    ensures
        render::parts_of(px, side, 0, m) == render::members(px, side, m) * c.0,
        render::parts_of(px, side, 1, m) == render::members(px, side, m) * c.1,
        render::parts_of(px, side, 2, m) == render::members(px, side, m) * c.2,
    decreases m,
{
    if m > 0 {
        let l = (m - 1) as nat;
        lemma_members(px, side, c, l);
        let k = render::members(px, side, l) as int;
        let (x, y, z) = (c.0 as int, c.1 as int, c.2 as int);
        assert((k + 1) * x == k * x + x && (k + 1) * y == k * y + y && (k + 1) * z == k * z + z)
            by (nonlinear_arith);
        if render::bright(px, m - 1) == side {
            assert(px[m - 1] == c);
            assert(render::members(px, side, m) == k + 1);
        } else {
            assert(render::members(px, side, m) == k);
        }
    } else {
        let (x, y, z) = (c.0 as int, c.1 as int, c.2 as int);
        assert(0 * x == 0 && 0 * y == 0 && 0 * z == 0);
    }
}

/// What a grid shows in column `px` and row `py` of the pixels of an area.
pub open spec fn shown_at(grid: Map<(u16, u16), Mark>, area: Area, px: int, py: int) -> Option<
    Rgb,
> {
    let (symbol, fg, bg) = grid[((area.x + px / 2) as u16, (area.y + py / 2) as u16)];
    if fills(symbol[0], 2 * (py % 2) + px % 2) {
        fg
    } else {
        bg
    }
}

/// The waterfall's cell in a column and a row of its area.
proof fn lemma_cell(grid: Map<(u16, u16), Mark>, app: App, area: Area, x: int, y: int)
    requires
        area.fits(),
        0 <= x < area.width,
        0 <= y < area.height,
        grid.dom().contains(((area.x + x) as u16, (area.y + y) as u16)),
    ensures
        render::waterfall(grid, app, area)[((area.x + x) as u16, (area.y + y) as u16)]
            == render::waterfall_mark(app, area.width as int, area.height as int, x, y),
{
    let p = ((area.x + x) as u16, (area.y + y) as u16);
    assert(render::before(area, p, 0, area.height as int));
    assert(p.0 - area.x == x && p.1 - area.y == y);
}

/// A cell of the waterfall shows its four pixels.
proof fn lemma_mark(app: App, w: int, h: int, x: int, y: int, i: int, j: int, c: Rgb, d: Rgb)
    requires
        0 <= i < 2,
        0 <= j < 2,
        weight_of(c) > weight_of(d),
        in_two_colours(app, w, h, x, y, c, d),
    ensures
        ({
            let (symbol, fg, bg) = render::waterfall_mark(app, w, h, x, y);
            (if fills(symbol[0], 2 * j + i) {
                fg
            } else {
                bg
            }) == Some(render::screen_pixel(app, w, h, 2 * x + i, 2 * y + j))
        }),
{
    let four = seq![
        render::screen_pixel(app, w, h, 2 * x, 2 * y),
        render::screen_pixel(app, w, h, 2 * x + 1, 2 * y),
        render::screen_pixel(app, w, h, 2 * x, 2 * y + 1),
        render::screen_pixel(app, w, h, 2 * x + 1, 2 * y + 1),
    ];
    law_two_colours_are_shown(four, c, d, 2 * j + i);
    assert(four[2 * j + i] == render::screen_pixel(app, w, h, 2 * x + i, 2 * y + j));
}

/// The pixels of a cell have one of two colours each.
pub open spec fn in_two_colours(
    app: App,
    w: int,
    h: int,
    x: int,
    y: int,
    c: Rgb,
    d: Rgb,
) -> bool {
    let (p, q, r, s) = (
        render::screen_pixel(app, w, h, 2 * x, 2 * y),
        render::screen_pixel(app, w, h, 2 * x + 1, 2 * y),
        render::screen_pixel(app, w, h, 2 * x, 2 * y + 1),
        render::screen_pixel(app, w, h, 2 * x + 1, 2 * y + 1),
    );
    (p == c || p == d) && (q == c || q == d) && (r == c || r == d) && (s == c || s == d)
}

/// The waterfall shows each pixel where it belongs: wherever the pixels of a cell have two
/// colours of different luminance at most, each is shown in its own.
pub proof fn law_waterfall_shows_pixels(
    grid: Map<(u16, u16), Mark>,
    app: App,
    area: Area,
    px: int,
    py: int,
    c: Rgb,
    d: Rgb,
)
    requires
        area.fits(),
        0 <= px < 2 * area.width,
        0 <= py < 2 * area.height,
        grid.dom().contains(((area.x + px / 2) as u16, (area.y + py / 2) as u16)),
        weight_of(c) > weight_of(d),
        in_two_colours(app, area.width as int, area.height as int, px / 2, py / 2, c, d),
    ensures
        shown_at(render::waterfall(grid, app, area), area, px, py) == Some(
            render::screen_pixel(app, area.width as int, area.height as int, px, py),
        ),
{
    let (w, h) = (area.width as int, area.height as int);
    let (x, y, i, j) = (px / 2, py / 2, px % 2, py % 2);
    assert(px == 2 * x + i && py == 2 * y + j);
    lemma_cell(grid, app, area, x, y);
    lemma_mark(app, w, h, x, y, i, j, c, d);
}

/// Outside its area the waterfall changes nothing.
pub proof fn law_waterfall_keeps_to_its_area(
    grid: Map<(u16, u16), Mark>,
    app: App,
    area: Area,
    p: (u16, u16),
)
    requires
        grid.dom().contains(p),
        !area.holds(p.0 as int, p.1 as int),
    ensures
        render::waterfall(grid, app, area)[p] == grid[p],
{
}

} // verus!
