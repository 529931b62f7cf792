//! The waterfall and the ruler. Each cell of the screen shows two by two pixels
//! by one of the sixteen quadrant glyphs. A cell has only two colours, so the
//! pixels are split into a bright and a dark cluster at their mean luminance,
//! and the glyph marks which quadrants are bright. Neighbouring pixels of a
//! spectrogram are similar, so the fit is close.
use crate::analysis;
use crate::color;
use crate::color::{note_color, Rgb};
use crate::controls;
use crate::controls::note_name;
use crate::single::Single;
use crate::state::App;
use crate::text::chars_of;
use crate::values::{HALF, ONE, TWO, ZERO};
use crate::view::Area;
use ratatui::buffer::Buffer;
use ratatui::style::Color;
use vstd::arithmetic::div_mod;
use vstd::arithmetic::mul;
use vstd::prelude::*;

verus! {

/// Glyph for each mask of bright quadrants: top left counts 8, top right 4,
/// bottom left 2 and bottom right 1.
pub const QUADS: [char; 16] = [
    ' ',
    '▗',
    '▖',
    '▄',
    '▝',
    '▐',
    '▞',
    '▟',
    '▘',
    '▚',
    '▌',
    '▙',
    '▀',
    '▜',
    '▛',
    '█',
];

/// Luminance in thousandths.
pub open spec fn luma_of(c: Rgb) -> int {
    299 * c.0 + 587 * c.1 + 114 * c.2
}

fn luma(c: Rgb) -> (r: u32)
    ensures
        r == luma_of(c),
        r <= 255_000,
{
    299 * (c.0 as u32) + 587 * (c.1 as u32) + 114 * (c.2 as u32)
}

/// A pixel is at least as bright as the mean of the four.
pub open spec fn bright(px: Seq<Rgb>, i: int) -> bool {
    4 * luma_of(px[i]) >= luma_of(px[0]) + luma_of(px[1]) + luma_of(px[2]) + luma_of(px[3])
}

/// Red, green or blue.
pub open spec fn part(c: Rgb, k: int) -> int {
    if k == 0 {
        c.0 as int
    } else if k == 1 {
        c.1 as int
    } else {
        c.2 as int
    }
}

/// How many of the first `n` pixels are bright, or are not.
pub open spec fn members(px: Seq<Rgb>, side: bool, n: nat) -> nat
    decreases n,
{
    if n == 0 {
        0
    } else {
        members(px, side, (n - 1) as nat) + if bright(px, n - 1) == side {
            1nat
        } else {
            0nat
        }
    }
}

/// The sum of a colour's part over those of the first `n` pixels that are
/// bright, or are not.
pub open spec fn parts_of(px: Seq<Rgb>, side: bool, k: int, n: nat) -> nat
    decreases n,
{
    if n == 0 {
        0
    } else {
        parts_of(px, side, k, (n - 1) as nat) + if bright(px, n - 1) == side {
            part(px[n - 1], k) as nat
        } else {
            0nat
        }
    }
}

/// The mean colour of the bright pixels, or of the others.
pub open spec fn cluster(px: Seq<Rgb>, side: bool) -> Rgb {
    let n = members(px, side, 4);
    (
        (parts_of(px, side, 0, 4) / n) as u8,
        (parts_of(px, side, 1, 4) / n) as u8,
        (parts_of(px, side, 2, 4) / n) as u8,
    )
}

/// The mask of the bright pixels among top left, top right, bottom left and
/// bottom right.
pub open spec fn mask_of(px: Seq<Rgb>) -> int {
    (if bright(px, 0) {
        8int
    } else {
        0
    }) + (if bright(px, 1) {
        4int
    } else {
        0
    }) + (if bright(px, 2) {
        2int
    } else {
        0
    }) + (if bright(px, 3) {
        1int
    } else {
        0
    })
}

/// Four pixels in one cell: the glyph, its colour and that of the rest.
pub open spec fn quad_of(px: Seq<Rgb>) -> (char, Rgb, Rgb) {
    (
        QUADS@[mask_of(px)],
        cluster(px, true),
        if members(px, false, 4) > 0 {
            cluster(px, false)
        } else {
            cluster(px, true)
        },
    )
}

/// The brightest pixel is always among the bright ones.
proof fn lemma_some_bright(px: Seq<Rgb>)
    requires
        px.len() == 4,
    ensures
        members(px, true, 4) >= 1,
{
    reveal_with_fuel(members, 5);
}

/// The mean colour of the pixels on one side of the mean luminance, if there
/// are any.
fn cluster_color(px: &[Rgb; 4], sum: u32, side: bool) -> (r: Option<Rgb>)
    requires
        sum == luma_of(px@[0]) + luma_of(px@[1]) + luma_of(px@[2]) + luma_of(px@[3]),
    ensures
        r == if members(px@, side, 4) > 0 {
            Some(cluster(px@, side))
        } else {
            None
        },
{
    let mut red: u32 = 0;
    let mut green: u32 = 0;
    let mut blue: u32 = 0;
    let mut n: u32 = 0;
    let mut i: usize = 0;
    while i < 4
        invariant
            i <= 4,
            sum == luma_of(px@[0]) + luma_of(px@[1]) + luma_of(px@[2]) + luma_of(px@[3]),
            n == members(px@, side, i as nat),
            n <= i,
            red == parts_of(px@, side, 0, i as nat),
            green == parts_of(px@, side, 1, i as nat),
            blue == parts_of(px@, side, 2, i as nat),
            red <= 255 * n,
            green <= 255 * n,
            blue <= 255 * n,
        decreases 4 - i,
    {
        let c: Rgb = px[i];
        if (4 * luma(c) >= sum) == side {
            red = red + c.0 as u32;
            green = green + c.1 as u32;
            blue = blue + c.2 as u32;
            n = n + 1;
        }
        i = i + 1;
    }
    if n == 0 {
        return None;
    }
    proof {
        lemma_mean_fits(red as int, n as int);
        lemma_mean_fits(green as int, n as int);
        lemma_mean_fits(blue as int, n as int);
    }
    Some(((red / n) as u8, (green / n) as u8, (blue / n) as u8))
}

proof fn lemma_mean_fits(sum: int, n: int)
    requires
        n > 0,
        0 <= sum <= 255 * n,
    ensures
        0 <= sum / n <= 255,
{
    div_mod::lemma_div_pos_is_pos(sum, n);
    div_mod::lemma_div_is_ordered(sum, 255 * n, n);
    div_mod::lemma_div_multiples_vanish(255, n);
    mul::lemma_mul_is_commutative(255, n);
}

/// Fit four pixels (top left, top right, bottom left, bottom right) into one
/// cell.
pub fn quad_cell(px: [Rgb; 4]) -> (r: (char, Rgb, Rgb))
    ensures
        r == quad_of(px@),
{
    let (l0, l1, l2, l3): (u32, u32, u32, u32) = (
        luma(px[0]),
        luma(px[1]),
        luma(px[2]),
        luma(px[3]),
    );
    let sum: u32 = l0 + l1 + l2 + l3;
    let mut mask: usize = 0;
    if 4 * l0 >= sum {
        mask = mask + 8;
    }
    if 4 * l1 >= sum {
        mask = mask + 4;
    }
    if 4 * l2 >= sum {
        mask = mask + 2;
    }
    if 4 * l3 >= sum {
        mask = mask + 1;
    }
    proof {
        lemma_some_bright(px@);
    }
    let fg: Rgb = match cluster_color(&px, sum, true) {
        Some(c) => c,
        None => (0, 0, 0),
    };
    let bg: Rgb = match cluster_color(&px, sum, false) {
        Some(c) => c,
        None => fg,
    };
    (QUADS[mask], fg, bg)
}

/// A cell of one colour is all that colour.
pub proof fn law_uniform_cell(px: Seq<Rgb>, c: Rgb)
    requires
        px == seq![c, c, c, c],
    ensures
        quad_of(px) == ('█', c, c),
{
    reveal_with_fuel(members, 5);
    reveal_with_fuel(parts_of, 5);
    assert(members(px, true, 4) == 4);
    assert(members(px, false, 4) == 0);
    assert(parts_of(px, true, 0, 4) == 4 * c.0);
    assert(parts_of(px, true, 1, 4) == 4 * c.1);
    assert(parts_of(px, true, 2, 4) == 4 * c.2);
    assert(cluster(px, true) == c);
    assert(mask_of(px) == 15);
    assert(QUADS@[15] == '█');
}

/// Some quadrant is always marked, and the brightest pixel is among the marked.
pub proof fn law_brightest_is_marked(px: Seq<Rgb>, i: int)
    requires
        px.len() == 4,
        0 <= i < 4,
        forall|j: int| 0 <= j < 4 ==> luma_of(px[i]) >= luma_of(#[trigger] px[j]),
    ensures
        bright(px, i),
        mask_of(px) > 0,
{
    assert(luma_of(px[i]) >= luma_of(px[0]));
    assert(luma_of(px[i]) >= luma_of(px[1]));
    assert(luma_of(px[i]) >= luma_of(px[2]));
    assert(luma_of(px[i]) >= luma_of(px[3]));
}

/// The grid of cells that is drawn to the terminal.
#[verifier::external_type_specification]
#[verifier::external_body]
pub struct ExBuffer(ratatui::buffer::Buffer);

/// A cell as it is seen: its symbol, the colour of the symbol and that of the
/// rest; a colour that is not given by red, green and blue is not seen.
pub type Mark = (Seq<char>, Option<Rgb>, Option<Rgb>);

/// What a grid holds at each of its positions (column and row).
pub uninterp spec fn cells(buf: Buffer) -> Map<(u16, u16), (Seq<char>, Option<(u8, u8, u8)>, Option<(u8, u8, u8)>)>;

/// `Buffer::cell` finds a cell exactly at the positions of the grid.
#[verifier::external_body]
fn has_cell(buf: &Buffer, x: u16, y: u16) -> (r: bool)
    ensures
        r == cells(*buf).dom().contains((x, y)),
{
    buf.cell((x, y)).is_some()
}

/// `Cell::set_char` on the cell that `Buffer::cell_mut` finds at a position of
/// the grid makes the character the cell's symbol. Its colours and all other
/// cells stay as they are.
#[verifier::external_body]
fn set_char(buf: &mut Buffer, x: u16, y: u16, ch: char)
    requires
        cells(*old(buf)).dom().contains((x, y)),
    ensures
        cells(*final(buf)) == cells(*old(buf)).insert(
            (x, y),
            (seq![ch], cells(*old(buf))[(x, y)].1, cells(*old(buf))[(x, y)].2),
        ),
{
    buf.cell_mut((x, y)).unwrap().set_char(ch);
}

/// `Cell::set_fg` on the cell that `Buffer::cell_mut` finds at a position of the
/// grid makes the colour that of the cell's symbol. The symbol, the background
/// and all other cells stay as they are.
#[verifier::external_body]
fn set_fg(buf: &mut Buffer, x: u16, y: u16, c: Rgb)
    requires
        cells(*old(buf)).dom().contains((x, y)),
    ensures
        cells(*final(buf)) == cells(*old(buf)).insert(
            (x, y),
            (cells(*old(buf))[(x, y)].0, Some(c), cells(*old(buf))[(x, y)].2),
        ),
{
    buf.cell_mut((x, y)).unwrap().set_fg(Color::Rgb(c.0, c.1, c.2));
}

/// `Cell::set_bg` on the cell that `Buffer::cell_mut` finds at a position of the
/// grid makes the colour that of the cell's background. The symbol, its colour
/// and all other cells stay as they are.
#[verifier::external_body]
fn set_bg(buf: &mut Buffer, x: u16, y: u16, c: Rgb)
    requires
        cells(*old(buf)).dom().contains((x, y)),
    ensures
        cells(*final(buf)) == cells(*old(buf)).insert(
            (x, y),
            (cells(*old(buf))[(x, y)].0, cells(*old(buf))[(x, y)].1, Some(c)),
        ),
{
    buf.cell_mut((x, y)).unwrap().set_bg(Color::Rgb(c.0, c.1, c.2));
}

/// A cell painted all over, where the grid has it.
pub open spec fn painted(grid: Map<(u16, u16), Mark>, x: u16, y: u16, m: Mark) -> Map<
    (u16, u16),
    Mark,
> {
    if grid.dom().contains((x, y)) {
        grid.insert((x, y), m)
    } else {
        grid
    }
}

fn paint(buf: &mut Buffer, x: u16, y: u16, glyph: char, fg: Rgb, bg: Rgb)
    ensures
        cells(*final(buf)) == painted(
            cells(*old(buf)),
            x,
            y,
            (seq![glyph], Some(fg), Some(bg)),
        ),
{
    if has_cell(buf, x, y) {
        set_char(buf, x, y, glyph);
        set_fg(buf, x, y, fg);
        set_bg(buf, x, y, bg);
        assert(cells(*buf) =~= painted(
            cells(*old(buf)),
            x,
            y,
            (seq![glyph], Some(fg), Some(bg)),
        ));
    }
}

/// One pixel of the spectrogram: the band's value so many rows ago, in its
/// colour; black where there is none.
pub open spec fn pixel(app: App, t: int, band: int) -> Rgb {
    if 0 <= t < app.history@.len() && 0 <= band < app.history@[t]@.len() && band
        < app.analyzer.bands@.len() {
        app.colors.colour(app.history@[t]@[band], app.analyzer.bands@[band])
    } else {
        (0u8, 0u8, 0u8)
    }
}

fn pixel_at(app: &App, t: usize, band: usize) -> (r: Rgb)
    requires
        app.wf(),
    ensures
        r == pixel(*app, t as int, band as int),
{
    if t < app.history.len() {
        let row: &Vec<Single> = &app.history[t];
        if band < row.len() && band < app.analyzer.bands.len() {
            assert(analysis::fits(
                app.analyzer.bands@[band as int],
                app.analyzer.fft_size as nat,
            ));
            return app.colors.shade(row[band], &app.analyzer.bands[band]);
        }
    }
    (0, 0, 0)
}

/// The pixel in column `px` and row `py` of a screen of `w` by `h` cells. With
/// pitch upwards, time runs to the right and the newest is at the right edge;
/// else pitch runs to the right and the newest is at the bottom.
pub open spec fn screen_pixel(app: App, w: int, h: int, px: int, py: int) -> Rgb {
    if app.params.horizontal {
        pixel(app, 2 * w - 1 - px, 2 * h - 1 - py)
    } else {
        pixel(app, 2 * h - 1 - py, px)
    }
}

fn screen_pixel_at(app: &App, w: usize, h: usize, px: usize, py: usize) -> (r: Rgb)
    requires
        app.wf(),
        w <= u16::MAX,
        h <= u16::MAX,
        px < 2 * w,
        py < 2 * h,
    ensures
        r == screen_pixel(*app, w as int, h as int, px as int, py as int),
{
    if app.params.horizontal {
        pixel_at(app, 2 * w - 1 - px, 2 * h - 1 - py)
    } else {
        pixel_at(app, 2 * h - 1 - py, px)
    }
}

/// The cell in column `x` and row `y` of the waterfall.
pub open spec fn waterfall_mark(app: App, w: int, h: int, x: int, y: int) -> Mark {
    let (glyph, fg, bg) = quad_of(
        seq![
            screen_pixel(app, w, h, 2 * x, 2 * y),
            screen_pixel(app, w, h, 2 * x + 1, 2 * y),
            screen_pixel(app, w, h, 2 * x, 2 * y + 1),
            screen_pixel(app, w, h, 2 * x + 1, 2 * y + 1),
        ],
    );
    (seq![glyph], Some(fg), Some(bg))
}

/// The cell at a position comes before column `x` of row `y` of an area.
pub open spec fn before(area: Area, p: (u16, u16), x: int, y: int) -> bool {
    area.holds(p.0 as int, p.1 as int) && (p.1 < area.y + y || p.1 == area.y + y && p.0 < area.x
        + x)
}

/// The grid with what `look` gives drawn over an area up to column `x` of row
/// `y`.
pub open spec fn swept(
    grid: Map<(u16, u16), Mark>,
    look: spec_fn(int, int) -> Mark,
    area: Area,
    x: int,
    y: int,
) -> Map<(u16, u16), Mark> {
    Map::new(
        |p: (u16, u16)| grid.dom().contains(p),
        |p: (u16, u16)|
            if before(area, p, x, y) {
                look(p.0 - area.x, p.1 - area.y)
            } else {
                grid[p]
            },
    )
}

/// The waterfall's cells over an area.
pub open spec fn waterfall_look(app: App, area: Area) -> spec_fn(int, int) -> Mark {
    |x: int, y: int| waterfall_mark(app, area.width as int, area.height as int, x, y)
}

/// The grid with the waterfall drawn over an area.
pub open spec fn waterfall(grid: Map<(u16, u16), Mark>, app: App, area: Area) -> Map<
    (u16, u16),
    Mark,
> {
    swept(grid, waterfall_look(app, area), area, 0, area.height as int)
}

fn draw_cell(buf: &mut Buffer, area: Area, app: &App, x: u16, y: u16)
    requires
        app.wf(),
        area.fits(),
        x < area.width,
        y < area.height,
    ensures
        cells(*final(buf)) == painted(
            cells(*old(buf)),
            (area.x + x) as u16,
            (area.y + y) as u16,
            waterfall_look(*app, area)(x as int, y as int),
        ),
{
    let (w, h): (usize, usize) = (area.width as usize, area.height as usize);
    let (px, py): (usize, usize) = (2 * x as usize, 2 * y as usize);
    let quad: [Rgb; 4] = [
        screen_pixel_at(app, w, h, px, py),
        screen_pixel_at(app, w, h, px + 1, py),
        screen_pixel_at(app, w, h, px, py + 1),
        screen_pixel_at(app, w, h, px + 1, py + 1),
    ];
    assert(quad@ =~= seq![
        screen_pixel(*app, w as int, h as int, 2 * x, 2 * y),
        screen_pixel(*app, w as int, h as int, 2 * x + 1, 2 * y),
        screen_pixel(*app, w as int, h as int, 2 * x, 2 * y + 1),
        screen_pixel(*app, w as int, h as int, 2 * x + 1, 2 * y + 1),
    ]);
    let (glyph, fg, bg): (char, Rgb, Rgb) = quad_cell(quad);
    paint(buf, area.x + x, area.y + y, glyph, fg, bg);
}

/// Draw the waterfall over an area.
pub fn draw_waterfall(buf: &mut Buffer, area: Area, app: &App)
    requires
        app.wf(),
        area.fits(),
    ensures
        cells(*final(buf)) == waterfall(cells(*old(buf)), *app, area),
{
    let ghost grid = cells(*buf);
    let ghost look = waterfall_look(*app, area);
    let mut y: u16 = 0;
    assert(cells(*buf) =~= swept(grid, look, area, 0, 0));
    while y < area.height
        invariant
            y <= area.height,
            app.wf(),
            area.fits(),
            look == waterfall_look(*app, area),
            cells(*buf) == swept(grid, look, area, 0, y as int),
        decreases area.height - y,
    {
        let mut x: u16 = 0;
        while x < area.width
            invariant
                x <= area.width,
                y < area.height,
                app.wf(),
                area.fits(),
                look == waterfall_look(*app, area),
                cells(*buf) == swept(grid, look, area, x as int, y as int),
            decreases area.width - x,
        {
            draw_cell(buf, area, app, x, y);
            proof {
                lemma_cell_drawn(grid, look, area, x as int, y as int);
            }
            x = x + 1;
        }
        proof {
            lemma_row_drawn(grid, look, area, y as int);
        }
        y = y + 1;
    }
}

proof fn lemma_cell_drawn(
    grid: Map<(u16, u16), Mark>,
    look: spec_fn(int, int) -> Mark,
    area: Area,
    x: int,
    y: int,
)
    requires
        area.fits(),
        0 <= x < area.width,
        0 <= y < area.height,
    ensures
        painted(
            swept(grid, look, area, x, y),
            (area.x + x) as u16,
            (area.y + y) as u16,
            look(x, y),
        ) == swept(grid, look, area, x + 1, y),
{
    let done = painted(
        swept(grid, look, area, x, y),
        (area.x + x) as u16,
        (area.y + y) as u16,
        look(x, y),
    );
    assert(done =~= swept(grid, look, area, x + 1, y));
}

proof fn lemma_row_drawn(
    grid: Map<(u16, u16), Mark>,
    look: spec_fn(int, int) -> Mark,
    area: Area,
    y: int,
)
    ensures
        swept(grid, look, area, area.width as int, y) == swept(grid, look, area, 0, y + 1),
{
    assert(swept(grid, look, area, area.width as int, y) =~= swept(grid, look, area, 0, y + 1));
}

/// The grid with text in a colour written from column `x` of row `y` on, over
/// the backgrounds that are there.
pub open spec fn stamped(
    grid: Map<(u16, u16), Mark>,
    x: int,
    y: int,
    text: Seq<char>,
    c: Rgb,
) -> Map<(u16, u16), Mark> {
    Map::new(
        |p: (u16, u16)| grid.dom().contains(p),
        |p: (u16, u16)|
            if p.1 == y && x <= p.0 < x + text.len() {
                (seq![text[p.0 - x]], Some(c), grid[p].2)
            } else {
                grid[p]
            },
    )
}

fn stamp(buf: &mut Buffer, x: u16, y: u16, text: &str, c: Rgb)
    ensures
        cells(*final(buf)) == stamped(cells(*old(buf)), x as int, y as int, text@, c),
{
    let ghost grid = cells(*buf);
    let letters: Vec<char> = chars_of(text);
    let mut i: usize = 0;
    assert(cells(*buf) =~= stamped(grid, x as int, y as int, text@.take(0), c));
    while i < letters.len() && i <= (u16::MAX - x) as usize
        invariant
            i <= letters.len(),
            letters@ == text@,
            cells(*buf) == stamped(grid, x as int, y as int, text@.take(i as int), c),
            i <= u16::MAX - x + 1,
        decreases letters.len() - i,
    {
        let at: u16 = x + i as u16;
        if has_cell(buf, at, y) {
            set_char(buf, at, y, letters[i]);
            set_fg(buf, at, y, c);
        }
        assert(cells(*buf) =~= stamped(grid, x as int, y as int, text@.take(i + 1), c));
        i = i + 1;
    }
    assert(cells(*buf) =~= stamped(grid, x as int, y as int, text@, c));
}

/// Where a note stands along the pitch axis, in bands.
pub open spec fn band_place(c: int, lo: int, hi: int, bands: nat) -> Single {
    Single::whole(c - lo).over(Single::whole(hi - lo)).times(
        Single::whole(bands as int),
    ).minus(Single { bits: HALF }).larger(Single { bits: ZERO })
}

/// A value cut to a coordinate within a length.
pub open spec fn coordinate(v: Single, last: int) -> int {
    let k = v.index(false);
    if k < last {
        k
    } else {
        last
    }
}

/// Where the label of a note begins, and its text: at the left edge with a tick
/// behind it, or in the last row.
pub open spec fn label_of(app: App, area: Area, c: int) -> (int, int, Seq<char>) {
    let bands = app.analyzer.bands@.len();
    let i = band_place(c, app.params.range_lo as int, app.params.range_hi as int, bands);
    if app.params.horizontal {
        let row = Single::whole(bands as int).minus(Single { bits: ONE }).minus(i);
        (
            area.x as int,
            area.y + coordinate(row.over(Single { bits: TWO }), area.height - 1),
            controls::named(c) + "╶"@,
        )
    } else {
        (
            area.x + coordinate(i.over(Single { bits: TWO }), area.width - 3),
            area.y + area.height - 1,
            controls::named(c),
        )
    }
}

/// The grid with the label of a note, if that is a C.
#[verifier::opaque]
pub open spec fn noted(grid: Map<(u16, u16), Mark>, app: App, area: Area, c: int) -> Map<
    (u16, u16),
    Mark,
> {
    if c % 12 == 0 {
        let (x, y, label) = label_of(app, area, c);
        stamped(grid, x, y, label, color::reference(Single::whole(c)))
    } else {
        grid
    }
}

/// The grid with the labels of every C among the first `n` notes of the range.
pub open spec fn ruled(grid: Map<(u16, u16), Mark>, app: App, area: Area, n: nat) -> Map<
    (u16, u16),
    Mark,
>
    decreases n,
{
    if n == 0 {
        grid
    } else {
        noted(
            ruled(grid, app, area, (n - 1) as nat),
            app,
            area,
            app.params.range_lo + n - 1,
        )
    }
}

fn coordinate_of(v: Single, last: u16) -> (r: u16)
    ensures
        r == coordinate(v, last as int),
        r <= last,
{
    let k: usize = v.floor_index();
    if k < last as usize {
        k as u16
    } else {
        last
    }
}

/// The place of a note's label, and its text.
fn label(app: &App, area: Area, c: i32) -> (r: (u16, u16, String))
    requires
        app.wf(),
        area.fits(),
        area.roomy(),
        app.params.range_lo <= c <= app.params.range_hi,
    ensures
        (r.0 as int, r.1 as int, r.2@) == label_of(*app, area, c as int),
{
    let lo: i32 = app.params.range_lo;
    let span: Single = Single::from_i32(app.params.range_hi - lo);
    let bands: Single = Single::from_u64(app.analyzer.num_bands() as u64);
    let i: Single = Single::from_i32(c - lo).div(span).mul(bands).sub(Single { bits: HALF }).max(
        Single { bits: ZERO },
    );
    let mut name: String = note_name(c);
    if app.params.horizontal {
        let row: Single = bands.sub(Single { bits: ONE }).sub(i);
        name.append("╶");
        let y: u16 = coordinate_of(row.div(Single { bits: TWO }), area.height - 1);
        (area.x, area.y + y, name)
    } else {
        let x: u16 = coordinate_of(i.div(Single { bits: TWO }), area.width - 3);
        (area.x + x, area.y + (area.height - 1), name)
    }
}

fn draw_note(buf: &mut Buffer, area: Area, app: &App, c: i32)
    requires
        app.wf(),
        area.fits(),
        area.roomy(),
        app.params.range_lo <= c <= app.params.range_hi,
    ensures
        cells(*final(buf)) == noted(cells(*old(buf)), *app, area, c as int),
{
    proof {
        reveal(noted);
    }
    if c % 12 == 0 {
        let color: Rgb = note_color(Single::from_i32(c));
        let (x, y, name): (u16, u16, String) = label(app, area, c);
        stamp(buf, x, y, name.as_str(), color);
    }
}

/// Note labels along the pitch axis, each C in its colour.
pub fn draw_ruler(buf: &mut Buffer, area: Area, app: &App)
    requires
        app.wf(),
        area.fits(),
        area.roomy(),
    ensures
        cells(*final(buf)) == ruled(
            cells(*old(buf)),
            *app,
            area,
            (app.params.range_hi - app.params.range_lo + 1) as nat,
        ),
{
    let ghost grid = cells(*buf);
    let lo: i32 = app.params.range_lo;
    let hi: i32 = app.params.range_hi;
    let mut c: i32 = lo;
    while c <= hi
        invariant
            lo <= c <= hi + 1,
            lo == app.params.range_lo,
            hi == app.params.range_hi,
            app.wf(),
            area.fits(),
            area.roomy(),
            cells(*buf) == ruled(grid, *app, area, (c - lo) as nat),
        decreases hi + 1 - c,
    {
        draw_note(buf, area, app, c);
        c = c + 1;
    }
}

/// Draw what lies under the panels: the waterfall and its ruler, on a screen
/// that has room for them.
pub fn draw(buf: &mut Buffer, area: Area, app: &App)
    requires
        app.wf(),
        area.fits(),
    ensures
        cells(*final(buf)) == if area.roomy() {
            ruled(
                waterfall(cells(*old(buf)), *app, area),
                *app,
                area,
                (app.params.range_hi - app.params.range_lo + 1) as nat,
            )
        } else {
            cells(*old(buf))
        },
{
    if area.is_roomy() {
        draw_waterfall(buf, area, app);
        draw_ruler(buf, area, app);
    }
}

/// Wherever time and pitch run, the newest row is at the edge that time runs to
/// and the lowest band at the edge that pitch starts from.
pub proof fn law_edges(app: App, w: int, h: int, i: int)
    ensures
        app.params.horizontal ==> screen_pixel(app, w, h, 2 * w - 1, 2 * h - 1 - i) == pixel(
            app,
            0,
            i,
        ),
        !app.params.horizontal ==> screen_pixel(app, w, h, i, 2 * h - 1) == pixel(app, 0, i),
{
}

/// Turning the contrast knobs recolours the whole picture: the history holds
/// values, and every pixel of it takes its colour from the tables as they stand.
pub proof fn law_knobs_recolour(app: App, colors: color::ColorMap, t: int, band: int)
    requires
        0 <= t < app.history@.len(),
        0 <= band < app.history@[t]@.len(),
        band < app.analyzer.bands@.len(),
    ensures
        pixel((App { colors, ..app }), t, band) == colors.colour(
            app.history@[t]@[band],
            app.analyzer.bands@[band],
        ),
{
}

/// Before there is any history the waterfall is black.
pub proof fn law_no_history_is_black(app: App, w: int, h: int, x: int, y: int)
    requires
        app.history@.len() == 0,
    ensures
        waterfall_mark(app, w, h, x, y) == (
            seq!['█'],
            Some((0u8, 0u8, 0u8)),
            Some((0u8, 0u8, 0u8)),
        ),
{
    let black = (0u8, 0u8, 0u8);
    law_uniform_cell(seq![black, black, black, black], black);
}

/// Drawing adds no cell and takes none away.
pub proof fn law_drawing_keeps_grid(
    grid: Map<(u16, u16), Mark>,
    app: App,
    area: Area,
    n: nat,
)
    ensures
        waterfall(grid, app, area).dom() == grid.dom(),
        ruled(grid, app, area, n).dom() == grid.dom(),
    decreases n,
{
    assert(waterfall(grid, app, area).dom() =~= grid.dom());
    if n > 0 {
        law_drawing_keeps_grid(grid, app, area, (n - 1) as nat);
        reveal(noted);
        assert(ruled(grid, app, area, n).dom() =~= grid.dom());
    }
}

} // verus!
