//! Rectangles and a grid of styled character cells to draw on.
use vstd::prelude::*;
use crate::style::{Color, Style};

verus! {

/// A rectangle of cells: its top-left corner and its size.
#[derive(Debug, Clone, Copy, PartialEq, Eq, Hash)]
pub struct Rect {
    pub x: u16,
    pub y: u16,
    pub width: u16,
    pub height: u16,
}

impl Rect {
    /// The rectangle with the given corner and size.
    pub fn new(x: u16, y: u16, width: u16, height: u16) -> (r: Rect)
        ensures
            r == (Rect { x, y, width, height }),
    {
        Rect { x, y, width, height }
    }

    /// The rectangle holds no cell.
    pub fn is_empty(self) -> (r: bool)
        ensures
            r == (self.width == 0 || self.height == 0),
    {
        self.width == 0 || self.height == 0
    }

    /// Whether the cell at `(x, y)` lies in the rectangle.
    pub open spec fn covers(self, x: int, y: int) -> bool {
        self.x <= x < self.x + self.width && self.y <= y < self.y + self.height
    }
}

/// A cell of the drawing surface: one character and its appearance.
#[derive(Debug, Clone, Copy, PartialEq, Eq, Hash)]
pub struct BufferCell {
    pub symbol: char,
    pub fg: Color,
    pub bg: Color,
    pub modifier: u16,
}

impl BufferCell {
    /// A space in the terminal's own colours.
    pub open spec fn blank() -> BufferCell {
        BufferCell { symbol: ' ', fg: Color::Reset, bg: Color::Reset, modifier: 0 }
    }

    /// A space in the terminal's own colours.
    pub fn reset() -> (r: BufferCell)
        ensures
            r == BufferCell::blank(),
    {
        BufferCell { symbol: ' ', fg: Color::Reset, bg: Color::Reset, modifier: 0 }
    }

    /// This cell with `style` laid over it.
    pub open spec fn styled(self, style: Style) -> BufferCell {
        BufferCell {
            symbol: self.symbol,
            fg: if style.fg is Some { style.fg->0 } else { self.fg },
            bg: if style.bg is Some { style.bg->0 } else { self.bg },
            modifier: (self.modifier | style.add_modifier) & !style.sub_modifier,
        }
    }

    /// Lays `style` over this cell.
    pub fn set_style(self, style: Style) -> (r: BufferCell)
        ensures
            r == self.styled(style),
    {
        BufferCell {
            symbol: self.symbol,
            fg: match style.fg {
                Some(c) => c,
                None => self.fg,
            },
            bg: match style.bg {
                Some(c) => c,
                None => self.bg,
            },
            modifier: (self.modifier | style.add_modifier) & !style.sub_modifier,
        }
    }
}

/// Relies on unicode_width's `UnicodeWidthChar::width`.
pub uninterp spec fn char_width_of(c: char) -> Option<usize>;

/// Relies on unicode_width's `UnicodeWidthStr::width`.
pub uninterp spec fn str_width_of(s: Seq<char>) -> usize;

/// Relies on unicode_width's `UnicodeWidthChar::width`: the columns a
/// character takes on a terminal, `None` for a control character.
#[verifier::external_body]
fn char_width(c: char) -> (r: Option<usize>)
    ensures
        r == char_width_of(c),
{
    unicode_width::UnicodeWidthChar::width(c)
}

/// Relies on unicode_width's `UnicodeWidthStr::width`: the columns a string
/// takes on a terminal; the empty string takes none.
#[verifier::external_body]
pub(crate) fn str_width(s: &str) -> (r: usize)
    ensures
        r == str_width_of(s@),
        s@.len() == 0 ==> r == 0,
{
    unicode_width::UnicodeWidthStr::width(s)
}

/// The width of the widest of the first `n` strings, at most `0xffff`.
pub open spec fn widest(lines: Seq<&str>, n: int) -> int
    decreases n,
{
    if n <= 0 {
        0
    } else {
        let w = str_width_of(lines[n - 1]@) as int;
        let rest = widest(lines, n - 1);
        if w > rest {
            if w > 0xffff { 0xffff } else { w }
        } else {
            rest
        }
    }
}

/// A grid of cells covering `area`, stored row by row.
#[derive(Debug, Clone, PartialEq, Eq, Hash)]
pub struct Buffer {
    pub area: Rect,
    pub content: Vec<BufferCell>,
}

/// The column of the cell at `i` in a grid of the given area.
pub open spec fn column_of(area: Rect, i: int) -> int {
    area.x + i % (area.width as int)
}

/// The line of the cell at `i` in a grid of the given area.
pub open spec fn line_of(area: Rect, i: int) -> int {
    area.y + i / (area.width as int)
}

/// The cells of a grid over `grid` with `style` laid over those in `r`.
pub open spec fn styled_over(c: Seq<BufferCell>, grid: Rect, r: Rect, style: Style) -> Seq<BufferCell> {
    Seq::new(
        c.len(),
        |i: int| if r.covers(column_of(grid, i), line_of(grid, i)) { c[i].styled(style) } else { c[i] },
    )
}

/// The columns a character takes; none for a control character.
pub open spec fn char_cols(ch: char) -> int {
    match char_width_of(ch) {
        Some(w) => w as int,
        None => 0,
    }
}

/// A cell given the symbol `ch`, with `style` laid over it.
pub open spec fn first_cell(c: BufferCell, ch: char, style: Style) -> BufferCell {
    BufferCell { symbol: ch, fg: c.fg, bg: c.bg, modifier: c.modifier }.styled(style)
}

/// `k` cells from index `at` on made blank.
pub open spec fn blanked(c: Seq<BufferCell>, at: int, k: int) -> Seq<BufferCell>
    decreases k,
{
    if k <= 0 { c } else { blanked(c.update(at, BufferCell::blank()), at + 1, k - 1) }
}

/// The characters from the `i`-th on written from index `idx`, which is at
/// column `xo`, up to column `limit`: each character of some width goes in
/// the next cell in `style` and blanks the cells its width covers; a
/// character of no width is skipped; the first that does not fit ends it.
pub open spec fn chars_written(
    c: Seq<BufferCell>,
    chars: Seq<char>,
    i: int,
    idx: int,
    xo: int,
    limit: int,
    style: Style,
) -> Seq<BufferCell>
    decreases chars.len() - i,
{
    if i < 0 || i >= chars.len() {
        c
    } else {
        let w = char_cols(chars[i]);
        if w == 0 {
            chars_written(c, chars, i + 1, idx, xo, limit, style)
        } else if w > limit - xo {
            c
        } else {
            chars_written(
                blanked(c.update(idx, first_cell(c[idx], chars[i], style)), idx + 1, w - 1),
                chars,
                i + 1,
                idx + w,
                xo + w,
                limit,
                style,
            )
        }
    }
}

/// The string `chars` written from `(x, y)` in `style`, taking at most
/// `width` columns and stopping at the right edge of the grid; nothing is
/// written from outside the grid.
pub open spec fn string_written(
    c: Seq<BufferCell>,
    grid: Rect,
    x: int,
    y: int,
    chars: Seq<char>,
    width: int,
    style: Style,
) -> Seq<BufferCell> {
    if !grid.covers(x, y) {
        c
    } else {
        let right = grid.x + grid.width;
        let limit = if width <= right - x { x + width } else { right };
        chars_written(c, chars, 0, (y - grid.y) * grid.width + (x - grid.x), x, limit, style)
    }
}

/// Styling keeps two grids in agreement outside `big`.
pub proof fn lemma_styled_local(a: Seq<BufferCell>, b: Seq<BufferCell>, grid: Rect, big: Rect, r: Rect, style: Style)
    requires
        same_outside(a, b, grid, big),
    ensures
        same_outside(styled_over(a, grid, r, style), styled_over(b, grid, r, style), grid, big),
{
    assert forall|i: int|
        0 <= i < a.len() && !big.covers(column_of(grid, i), line_of(grid, i)) implies #[trigger] styled_over(
        b,
        grid,
        r,
        style,
    )[i] == styled_over(a, grid, r, style)[i] by {}
}

proof fn lemma_update(s: Seq<BufferCell>, k: int, v: BufferCell)
    requires
        0 <= k < s.len(),
    ensures
        s.update(k, v).len() == s.len(),
        s.update(k, v)[k] == v,
        forall|j: int| 0 <= j < s.len() && j != k ==> s.update(k, v)[j] == s[j],
{
}

proof fn lemma_blanked_local(a: Seq<BufferCell>, b: Seq<BufferCell>, grid: Rect, big: Rect, at: int, k: int)
    requires
        same_outside(a, b, grid, big),
        0 <= at,
        at + k <= a.len(),
    ensures
        same_outside(blanked(a, at, k), blanked(b, at, k), grid, big),
        blanked(a, at, k).len() == a.len(),
    decreases k,
{
    if k > 0 {
        let a1 = a.update(at, BufferCell::blank());
        let b1 = b.update(at, BufferCell::blank());
        assert(same_outside(a1, b1, grid, big));
        lemma_blanked_local(a1, b1, grid, big, at + 1, k - 1);
    }
}

proof fn lemma_chars_local(
    a: Seq<BufferCell>,
    b: Seq<BufferCell>,
    grid: Rect,
    big: Rect,
    chars: Seq<char>,
    i: int,
    idx: int,
    xo: int,
    limit: int,
    style: Style,
)
    requires
        same_outside(a, b, grid, big),
        0 <= idx,
        xo <= limit,
        idx + (limit - xo) <= a.len(),
    ensures
        same_outside(chars_written(a, chars, i, idx, xo, limit, style), chars_written(b, chars, i, idx, xo, limit, style), grid, big),
        chars_written(a, chars, i, idx, xo, limit, style).len() == a.len(),
    decreases chars.len() - i,
{
    if 0 <= i < chars.len() {
        let w = char_cols(chars[i]);
        if w == 0 {
            lemma_chars_local(a, b, grid, big, chars, i + 1, idx, xo, limit, style);
        } else if w <= limit - xo {
            let va = first_cell(a[idx], chars[i], style);
            let vb = first_cell(b[idx], chars[i], style);
            let a1 = a.update(idx, va);
            let b1 = b.update(idx, vb);
            assert(0 <= idx < a.len());
            assert(a.len() == b.len());
            lemma_update(a, idx, va);
            lemma_update(b, idx, vb);
            assert forall|j: int| 0 <= j < a1.len() && !big.covers(column_of(grid, j), line_of(grid, j)) implies #[trigger] b1[j]
                == a1[j] by {
                if j == idx {
                    assert(b[idx] == a[idx]);
                } else {
                    assert(b[j] == a[j]);
                }
            }
            lemma_blanked_local(a1, b1, grid, big, idx + 1, w - 1);
            lemma_chars_local(
                blanked(a1, idx + 1, w - 1),
                blanked(b1, idx + 1, w - 1),
                grid,
                big,
                chars,
                i + 1,
                idx + w,
                xo + w,
                limit,
                style,
            );
        }
    }
}

/// Writing a string keeps two grids in agreement outside `big`.
pub proof fn lemma_string_local(
    a: Seq<BufferCell>,
    b: Seq<BufferCell>,
    grid: Rect,
    big: Rect,
    x: int,
    y: int,
    chars: Seq<char>,
    width: int,
    style: Style,
)
    requires
        same_outside(a, b, grid, big),
        a.len() == grid.width * grid.height,
        width >= 0,
    ensures
        same_outside(string_written(a, grid, x, y, chars, width, style), string_written(b, grid, x, y, chars, width, style), grid, big),
        string_written(a, grid, x, y, chars, width, style).len() == a.len(),
{
    if grid.covers(x, y) {
        let right = grid.x + grid.width;
        let limit = if width <= right - x { x + width } else { right };
        let idx = (y - grid.y) * grid.width + (x - grid.x);
        assert(idx + (limit - x) <= a.len()) by (nonlinear_arith)
            requires idx == (y - grid.y) * grid.width + (x - grid.x), limit <= grid.x + grid.width, y - grid.y < grid.height,
                a.len() == grid.width * grid.height, grid.width >= 0;
        assert(idx >= 0) by (nonlinear_arith)
            requires idx == (y - grid.y) * grid.width + (x - grid.x), y >= grid.y, x >= grid.x, grid.width >= 0;
        lemma_chars_local(a, b, grid, big, chars, 0, idx, x, limit, style);
    }
}

/// `inner` lies within `outer`, or holds no cell.
pub open spec fn inside(inner: Rect, outer: Rect) -> bool {
    inner.width == 0 || inner.height == 0 || (outer.x <= inner.x && inner.x + inner.width <= outer.x + outer.width
        && outer.y <= inner.y && inner.y + inner.height <= outer.y + outer.height)
}

/// Every cell of a grid over `grid` that lies outside `r` is the same in `a` and `b`.
pub open spec fn same_outside(a: Seq<BufferCell>, b: Seq<BufferCell>, grid: Rect, r: Rect) -> bool {
    a.len() == b.len() && forall|i: int|
        0 <= i < a.len() && !r.covers(column_of(grid, i), line_of(grid, i)) ==> #[trigger] b[i] == a[i]
}

/// Changes confined to a rectangle are confined to any rectangle around it,
/// and confinement to one rectangle survives a second change confined to it.
pub proof fn lemma_same_outside(a: Seq<BufferCell>, b: Seq<BufferCell>, c: Seq<BufferCell>, grid: Rect, r: Rect, outer: Rect)
    requires
        same_outside(a, b, grid, r),
        inside(r, outer),
    ensures
        same_outside(a, b, grid, outer),
        same_outside(b, c, grid, outer) ==> same_outside(a, c, grid, outer),
{
}

/// Every cell of a grid lies in the grid's area.
proof fn lemma_in_grid(grid: Rect, i: int)
    requires
        0 <= i < grid.width * grid.height,
    ensures
        grid.covers(column_of(grid, i), line_of(grid, i)),
{
    let w = grid.width as int;
    assert(w > 0) by (nonlinear_arith)
        requires 0 <= i < w * grid.height, grid.height >= 0;
    vstd::arithmetic::div_mod::lemma_fundamental_div_mod(i, w);
    vstd::arithmetic::div_mod::lemma_div_pos_is_pos(i, w);
    assert(i / w < grid.height) by (nonlinear_arith)
        requires i == w * (i / w) + i % w, i % w >= 0, i < w * grid.height, w > 0;
}

/// The cell stored at `index_of(x, y)` is at column `x` and line `y`.
proof fn lemma_position(grid: Rect, x: int, y: int)
    requires
        grid.covers(x, y),
    ensures
        column_of(grid, (y - grid.y) * grid.width + (x - grid.x)) == x,
        line_of(grid, (y - grid.y) * grid.width + (x - grid.x)) == y,
{
    vstd::arithmetic::div_mod::lemma_fundamental_div_mod_converse(
        (y - grid.y) * grid.width + (x - grid.x),
        grid.width as int,
        y - grid.y,
        x - grid.x,
    );
}

impl Buffer {
    /// One cell for each position of the area, which lies within the
    /// coordinates a `u16` can address.
    pub open spec fn wf(&self) -> bool {
        &&& self.content@.len() == self.area.width * self.area.height
        &&& self.area.x + self.area.width <= 0xffff
        &&& self.area.y + self.area.height <= 0xffff
    }

    /// Where the cell at `(x, y)` is stored.
    pub open spec fn index_of(&self, x: int, y: int) -> int {
        (y - self.area.y) * self.area.width + (x - self.area.x)
    }

    /// A buffer of blank cells.
    pub fn empty(area: Rect) -> (r: Buffer)
        requires
            area.x + area.width <= 0xffff,
            area.y + area.height <= 0xffff,
        ensures
            r.wf(),
            r.area == area,
            forall|i: int| 0 <= i < r.content@.len() ==> r.content@[i] == BufferCell::blank(),
    {
        assert((area.width as int) * (area.height as int) <= 0xfffe0001) by (nonlinear_arith)
            requires area.width <= 0xffff, area.height <= 0xffff;
        let n = (area.width as usize) * (area.height as usize);
        let mut content: Vec<BufferCell> = Vec::new();
        let mut i: usize = 0;
        while i < n
            invariant
                i <= n,
                content@.len() == i,
                forall|j: int| 0 <= j < i ==> content@[j] == BufferCell::blank(),
            decreases n - i,
        {
            content.push(BufferCell::reset());
            i = i + 1;
        }
        Buffer { area, content }
    }

    /// The cell at `(x, y)`.
    pub fn get(&self, x: u16, y: u16) -> (r: BufferCell)
        requires
            self.wf(),
            self.area.covers(x as int, y as int),
        ensures
            r == self.content@[self.index_of(x as int, y as int)],
    {
        let i = self.index(x, y);
        self.content[i]
    }

    fn index(&self, x: u16, y: u16) -> (r: usize)
        requires
            self.wf(),
            self.area.covers(x as int, y as int),
        ensures
            r as int == self.index_of(x as int, y as int),
            r < self.content@.len(),
    {
        let dy = (y - self.area.y) as usize;
        let dx = (x - self.area.x) as usize;
        let w = self.area.width as usize;
        proof {
            assert(dy * w + dx < (self.area.width as int) * (self.area.height as int)) by (nonlinear_arith)
                requires dy < self.area.height, dx < w, w == self.area.width;
            assert((self.area.width as int) * (self.area.height as int) <= 0xfffe0001) by (nonlinear_arith)
                requires self.area.width <= 0xffff, self.area.height <= 0xffff;
        }
        dy * w + dx
    }

    /// Puts `symbol` in the cell at `(x, y)`, if it lies in the buffer, keeping its style.
    pub fn set_symbol(&mut self, x: u16, y: u16, symbol: char)
        requires
            old(self).wf(),
        ensures
            final(self).wf(),
            final(self).area == old(self).area,
            old(self).area.covers(x as int, y as int) ==> final(self).content@ == old(self).content@.update(
                old(self).index_of(x as int, y as int),
                BufferCell { symbol, ..old(self).content@[old(self).index_of(x as int, y as int)] },
            ),
            !old(self).area.covers(x as int, y as int) ==> final(self).content@ == old(self).content@,
            same_outside(old(self).content@, final(self).content@, old(self).area, Rect { x, y, width: 1, height: 1 }),
    {
        if self.area.x <= x && (x as u32) < self.area.x as u32 + self.area.width as u32 && self.area.y <= y && (y as u32)
            < self.area.y as u32 + self.area.height as u32 {
            let i = self.index(x, y);
            proof {
                lemma_position(self.area, x as int, y as int);
            }
            let c = BufferCell { symbol, ..self.content[i] };
            self.content.set(i, c);
        }
    }

    /// A buffer at the origin, one line per string and as wide as the widest,
    /// holding the strings unstyled.
    pub fn with_lines(lines: Vec<&str>) -> (r: Buffer)
        requires
            lines@.len() <= 0xffff,
        ensures
            r.wf(),
            r.area.x == 0 && r.area.y == 0,
            r.area.height == lines@.len(),
            r.area.width == widest(lines@, lines@.len() as int),
    {
        let mut width: u16 = 0;
        let mut i: usize = 0;
        while i < lines.len()
            invariant
                i <= lines@.len(),
                width as int == widest(lines@, i as int),
            decreases lines@.len() - i,
        {
            let w = str_width(lines[i]);
            if w > width as usize {
                width = if w > 0xffff { 0xffff } else { w as u16 };
            }
            i = i + 1;
        }
        let mut buf = Buffer::empty(Rect::new(0, 0, width, lines.len() as u16));
        let mut y: usize = 0;
        while y < lines.len()
            invariant
                y <= lines@.len(),
                lines@.len() <= 0xffff,
                buf.wf(),
                buf.area == (Rect { x: 0, y: 0, width, height: lines@.len() as u16 }),
                width as int == widest(lines@, lines@.len() as int),
            decreases lines@.len() - y,
        {
            buf.set_stringn(0, y as u16, lines[y], width as usize, Style::new());
            y = y + 1;
        }
        buf
    }

    /// Lays `style` over every cell of `area` that lies in the buffer.
    pub fn set_style(&mut self, area: Rect, style: Style)
        requires
            old(self).wf(),
        ensures
            final(self).wf(),
            final(self).area == old(self).area,
            forall|i: int|
                0 <= i < old(self).content@.len() ==> #[trigger] final(self).content@[i] == if area.covers(
                    column_of(old(self).area, i),
                    line_of(old(self).area, i),
                ) {
                    old(self).content@[i].styled(style)
                } else {
                    old(self).content@[i]
                },
            same_outside(old(self).content@, final(self).content@, old(self).area, area),
            final(self).content@ == styled_over(old(self).content@, old(self).area, area, style),
    {
        let ghost grid = self.area;
        let x0: u32 = if area.x > self.area.x { area.x as u32 } else { self.area.x as u32 };
        let x1a: u32 = area.x as u32 + area.width as u32;
        let x1b: u32 = self.area.x as u32 + self.area.width as u32;
        let x1: u32 = if x1a < x1b { x1a } else { x1b };
        let y0: u32 = if area.y > self.area.y { area.y as u32 } else { self.area.y as u32 };
        let y1a: u32 = area.y as u32 + area.height as u32;
        let y1b: u32 = self.area.y as u32 + self.area.height as u32;
        let y1: u32 = if y1a < y1b { y1a } else { y1b };
        proof {
            assert forall|i: int| 0 <= i < old(self).content@.len() implies grid.covers(
                #[trigger] column_of(grid, i),
                line_of(grid, i),
            ) by {
                lemma_in_grid(grid, i);
            }
        }
        let mut y: u32 = y0;
        while y < y1
            invariant
                self.wf(),
                self.area == grid,
                grid == old(self).area,
                self.content@.len() == old(self).content@.len(),
                y0 <= y <= y1 || y1 <= y0 && y == y0,
                x1 <= x1b && y1 <= y1b && x0 >= grid.x && y0 >= grid.y,
                x0 == (if area.x > grid.x { area.x as u32 } else { grid.x as u32 }),
                x1 == (if x1a < x1b { x1a } else { x1b }),
                y0 == (if area.y > grid.y { area.y as u32 } else { grid.y as u32 }),
                y1 == (if y1a < y1b { y1a } else { y1b }),
                x1a == area.x + area.width && x1b == grid.x + grid.width,
                y1a == area.y + area.height && y1b == grid.y + grid.height,
                forall|i: int| 0 <= i < old(self).content@.len() ==> grid.covers(#[trigger] column_of(grid, i), line_of(grid, i)),
                forall|i: int|
                    0 <= i < self.content@.len() ==> #[trigger] self.content@[i] == if area.covers(
                        column_of(grid, i),
                        line_of(grid, i),
                    ) && line_of(grid, i) < y {
                        old(self).content@[i].styled(style)
                    } else {
                        old(self).content@[i]
                    },
            decreases y1 - y,
        {
            let mut x: u32 = x0;
            while x < x1
                invariant
                    self.wf(),
                    self.area == grid,
                    grid == old(self).area,
                    self.content@.len() == old(self).content@.len(),
                    y0 <= y < y1,
                    x0 <= x <= x1 || x1 <= x0 && x == x0,
                    x1 <= x1b && y1 <= y1b && x0 >= grid.x && y0 >= grid.y,
                    x0 == (if area.x > grid.x { area.x as u32 } else { grid.x as u32 }),
                    x1 == (if x1a < x1b { x1a } else { x1b }),
                    y0 == (if area.y > grid.y { area.y as u32 } else { grid.y as u32 }),
                    y1 == (if y1a < y1b { y1a } else { y1b }),
                    x1a == area.x + area.width && x1b == grid.x + grid.width,
                    y1a == area.y + area.height && y1b == grid.y + grid.height,
                    forall|i: int|
                        0 <= i < self.content@.len() ==> #[trigger] self.content@[i] == if area.covers(
                            column_of(grid, i),
                            line_of(grid, i),
                        ) && (line_of(grid, i) < y || line_of(grid, i) == y && column_of(grid, i) < x) {
                            old(self).content@[i].styled(style)
                        } else {
                            old(self).content@[i]
                        },
                decreases x1 - x,
            {
                let i = self.index(x as u16, y as u16);
                proof {
                    lemma_position(grid, x as int, y as int);
                    assert forall|j: int|
                        0 <= j < self.content@.len() && column_of(grid, j) == x && line_of(grid, j) == y implies j == i by {
                        let w = grid.width as int;
                        vstd::arithmetic::div_mod::lemma_fundamental_div_mod(j, w);
                        assert(j / w == y - grid.y && j % w == x - grid.x);
                        assert(w * (j / w) == (y - grid.y) * w) by (nonlinear_arith)
                            requires j / w == y - grid.y;
                    }
                }
                let c = self.content[i].set_style(style);
                self.content.set(i, c);
                x = x + 1;
            }
            proof {
                assert forall|i: int| 0 <= i < self.content@.len() && area.covers(column_of(grid, i), line_of(grid, i)) && line_of(grid, i) == y
                    implies column_of(grid, i) < x by {
                    assert(grid.covers(column_of(grid, i), line_of(grid, i)));
                }
            }
            y = y + 1;
        }
        proof {
            assert forall|i: int| 0 <= i < self.content@.len() && area.covers(column_of(grid, i), line_of(grid, i))
                implies line_of(grid, i) < y by {
                assert(grid.covers(column_of(grid, i), line_of(grid, i)));
            }
            assert(self.content@ =~= styled_over(old(self).content@, old(self).area, area, style));
        }
    }

    /// Writes `s` from `(x, y)` onwards in `style`, taking at most `width`
    /// columns and stopping at the right edge of the buffer. A wide character
    /// blanks the cells it covers; a character of no width is skipped. Returns
    /// where the writing stopped. Outside the buffer nothing is written.
    pub fn set_stringn(&mut self, x: u16, y: u16, s: &str, width: usize, style: Style) -> (r: (u16, u16))
        requires
            old(self).wf(),
        ensures
            final(self).wf(),
            final(self).area == old(self).area,
            !old(self).area.covers(x as int, y as int) ==> final(self).content@ == old(self).content@,
            forall|i: int|
                0 <= i < old(self).content@.len() && (i < old(self).index_of(x as int, y as int) || i >= old(self).index_of(
                    old(self).area.x as int,
                    y as int + 1,
                )) ==> #[trigger] final(self).content@[i] == old(self).content@[i],
            forall|i: int|
                0 <= i < old(self).content@.len() && !(line_of(old(self).area, i) == y && x <= column_of(old(self).area, i) < x
                    + width) ==> #[trigger] final(self).content@[i] == old(self).content@[i],
            final(self).content@ == string_written(old(self).content@, old(self).area, x as int, y as int, s@, width as int, style),
    {
        if !(self.area.x <= x && (x as u32) < self.area.x as u32 + self.area.width as u32 && self.area.y <= y && (y as u32)
            < self.area.y as u32 + self.area.height as u32) {
            return (x, y);
        }
        let ghost start = self.index_of(x as int, y as int);
        let ghost stop = self.index_of(self.area.x as int, y as int + 1);
        let mut index = self.index(x, y);
        let right = self.area.x as usize + self.area.width as usize;
        let limit = if width <= right - x as usize { x as usize + width } else { right };
        let mut x_offset = x as usize;
        proof {
            let w = self.area.width as int;
            let h = self.area.height as int;
            let dy = y - self.area.y;
            assert(stop == (dy + 1) * w);
            assert((dy + 1) * w <= w * h) by (nonlinear_arith)
                requires dy + 1 <= h, w >= 0;
            assert(stop == start + (right - x)) by (nonlinear_arith)
                requires stop == (dy + 1) * w, start == dy * w + (x - self.area.x), right == self.area.x + w;
        }
        let n = s.unicode_len();
        let len = self.content.len();
        let ghost target = string_written(old(self).content@, old(self).area, x as int, y as int, s@, width as int, style);
        let mut done = false;
        let mut i: usize = 0;
        while i < n && !done
            invariant
                self.wf(),
                self.area == old(self).area,
                self.content@.len() == old(self).content@.len(),
                n == s@.len(),
                i <= n,
                target == chars_written(old(self).content@, s@, 0, start, x as int, limit as int, style),
                done ==> self.content@ == target,
                !done ==> chars_written(self.content@, s@, i as int, index as int, x_offset as int, limit as int, style) == target,
                x <= x_offset <= limit <= right,
                right == self.area.x + self.area.width,
                index == start + (x_offset - x),
                start <= index,
                stop == start + (right - x),
                stop <= self.content@.len(),
                len == self.content@.len(),
                limit <= x + width,
                forall|j: int|
                    0 <= j < self.content@.len() && (j < start || j >= index) ==> #[trigger] self.content@[j]
                        == old(self).content@[j],
            decreases n - i,
        {
            let c = s.get_char(i);
            let ghost at = i as int;
            i = i + 1;
            let w = match char_width(c) {
                Some(w) => w,
                None => 0,
            };
            proof {
                assert(w as int == char_cols(c));
            }
            if w == 0 {
                continue;
            }
            if w > limit - x_offset {
                done = true;
                continue;
            }
            let first = BufferCell { symbol: c, fg: self.content[index].fg, bg: self.content[index].bg, modifier: self.content[index].modifier }.set_style(style);
            let ghost after_first = self.content@.update(index as int, first);
            proof {
                assert(first == first_cell(self.content@[index as int], c, style));
            }
            self.content.set(index, first);
            let mut k: usize = 1;
            while k < w
                invariant
                    blanked(self.content@, index + k, w - k) == blanked(after_first, index + 1, w - 1),
                    self.wf(),
                    self.area == old(self).area,
                    self.content@.len() == old(self).content@.len(),
                    1 <= k <= w,
                    index + w <= stop,
                    start <= index,
                    stop <= self.content@.len(),
                    len == self.content@.len(),
                    forall|j: int|
                        0 <= j < self.content@.len() && (j < start || j >= index + w) ==> #[trigger] self.content@[j]
                            == old(self).content@[j],
                decreases w - k,
            {
                self.content.set(index + k, BufferCell::reset());
                k = k + 1;
            }
            proof {
                assert(blanked(self.content@, index + w, 0) == self.content@);
            }
            index = index + w;
            x_offset = x_offset + w;
        }
        proof {
            assert forall|j: int|
                0 <= j < old(self).content@.len() && !(line_of(old(self).area, j) == y && x <= column_of(old(self).area, j) < x
                    + width) implies #[trigger] self.content@[j] == old(self).content@[j] by {
                if start <= j < index {
                    let cx = j - start + x;
                    assert(old(self).area.covers(cx, y as int));
                    assert(j == (y - old(self).area.y) * old(self).area.width + (cx - old(self).area.x));
                    lemma_position(old(self).area, cx, y as int);
                }
            }
        }
        proof {
            if !done {
                assert(chars_written(self.content@, s@, i as int, index as int, x_offset as int, limit as int, style) == self.content@);
            }
        }
        (#[verifier::truncate] (x_offset as u16), y)
    }
}

} // verus!
