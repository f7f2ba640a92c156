//! A border with an optional title drawn around a widget.
use vstd::prelude::*;
use crate::buffer::{lemma_same_outside, same_outside, string_written, styled_over, Buffer, BufferCell, Rect};
use crate::style::Style;

verus! {

/// Which sides of a block carry a border, as bits of a `u8`.
pub struct Borders;

impl Borders {
    pub const NONE: u8 = 0b0000;
    pub const TOP: u8 = 0b0001;
    pub const RIGHT: u8 = 0b0010;
    pub const BOTTOM: u8 = 0b0100;
    pub const LEFT: u8 = 0b1000;
    pub const ALL: u8 = 0b1111;
}

/// A frame around an area: borders on some sides and a title on the top line.
#[derive(Debug, Clone, PartialEq, Eq, Hash)]
pub struct Block {
    pub borders: u8,
    pub title: Option<String>,
    pub style: Style,
}

pub open spec fn has_side(borders: u8, side: u8) -> bool {
    borders & side != 0
}

/// The cell at `(x, y)`, if it lies in the grid, given the symbol `ch`.
pub open spec fn symbol_set(c: Seq<BufferCell>, grid: Rect, x: int, y: int, ch: char) -> Seq<BufferCell> {
    if grid.covers(x, y) {
        let i = (y - grid.y) * grid.width + (x - grid.x);
        c.update(i, BufferCell { symbol: ch, ..c[i] })
    } else {
        c
    }
}

/// The symbol `ch` put in the cells of line `y` from column `x` to `right`.
pub open spec fn hline(c: Seq<BufferCell>, grid: Rect, x: int, right: int, y: int, ch: char) -> Seq<BufferCell>
    decreases right + 1 - x,
{
    if x > right { c } else { hline(symbol_set(c, grid, x, y, ch), grid, x + 1, right, y, ch) }
}

/// The symbol `ch` put in the cells of column `x` from line `y` to `bottom`.
pub open spec fn vline(c: Seq<BufferCell>, grid: Rect, x: int, y: int, bottom: int, ch: char) -> Seq<BufferCell>
    decreases bottom + 1 - y,
{
    if y > bottom { c } else { vline(symbol_set(c, grid, x, y, ch), grid, x, y + 1, bottom, ch) }
}

impl Default for Block {
    fn default() -> (r: Block)
        ensures
            r.borders == 0,
            r.title is None,
            r.style == Style::empty(),
    {
        Block::new()
    }
}

impl Block {
    /// A block without borders or title.
    pub fn new() -> (r: Block)
        ensures
            r.borders == 0,
            r.title is None,
            r.style == Style::empty(),
    {
        Block { borders: 0, title: None, style: Style::new() }
    }

    /// Sets the sides that carry a border.
    pub fn borders(self, borders: u8) -> (r: Block)
        ensures
            r.borders == borders,
            r.title == self.title,
            r.style == self.style,
    {
        Block { borders, ..self }
    }

    /// Sets the title.
    pub fn title(self, title: &str) -> (r: Block)
        ensures
            r.borders == self.borders,
            r.title is Some && r.title->0@ == title@,
            r.style == self.style,
    {
        Block { title: Some(title.to_owned()), ..self }
    }

    /// Sets the style of the whole block.
    pub fn style(self, style: Style) -> (r: Block)
        ensures
            r.borders == self.borders,
            r.title == self.title,
            r.style == style,
    {
        Block { style, ..self }
    }

    /// The area inside the borders (and below the title line, if there is a title).
    pub open spec fn spec_inner(&self, area: Rect) -> Rect {
        let left: int = if has_side(self.borders, Borders::LEFT) && area.width > 0 { 1 } else { 0 };
        let top: int = if (has_side(self.borders, Borders::TOP) || self.title is Some) && area.height > 0 { 1 } else { 0 };
        let right: int = if has_side(self.borders, Borders::RIGHT) && area.width - left > 0 { 1 } else { 0 };
        let bottom: int = if has_side(self.borders, Borders::BOTTOM) && area.height - top > 0 { 1 } else { 0 };
        Rect {
            x: (area.x + left) as u16,
            y: (area.y + top) as u16,
            width: (area.width - left - right) as u16,
            height: (area.height - top - bottom) as u16,
        }
    }

    /// The area inside the borders (and below the title line, if there is a title).
    pub fn inner(&self, area: Rect) -> (r: Rect)
        requires
            area.x + area.width <= 0xffff,
            area.y + area.height <= 0xffff,
        ensures
            r == self.spec_inner(area),
    {
        let left: u16 = if self.borders & Borders::LEFT != 0 && area.width > 0 { 1 } else { 0 };
        let top: u16 = if (self.borders & Borders::TOP != 0 || self.title.is_some()) && area.height > 0 { 1 } else { 0 };
        let right: u16 = if self.borders & Borders::RIGHT != 0 && area.width - left > 0 { 1 } else { 0 };
        let bottom: u16 = if self.borders & Borders::BOTTOM != 0 && area.height - top > 0 { 1 } else { 0 };
        Rect { x: area.x + left, y: area.y + top, width: area.width - left - right, height: area.height - top - bottom }
    }

    /// The block drawn over `area`: its style, the lines of its borders,
    /// the corners where two borders meet, and its title on the top line
    /// between the side borders.
    pub open spec fn block_drawn(&self, c: Seq<BufferCell>, grid: Rect, area: Rect) -> Seq<BufferCell> {
        if area.width == 0 || area.height == 0 {
            c
        } else {
            let l = area.x as int;
            let r = area.x + area.width - 1;
            let t = area.y as int;
            let b = area.y + area.height - 1;
            let top = has_side(self.borders, Borders::TOP);
            let bottom = has_side(self.borders, Borders::BOTTOM);
            let left = has_side(self.borders, Borders::LEFT);
            let right = has_side(self.borders, Borders::RIGHT);
            let c1 = styled_over(c, grid, area, self.style);
            let c2 = if top { hline(c1, grid, l, r, t, '─') } else { c1 };
            let c3 = if bottom { hline(c2, grid, l, r, b, '─') } else { c2 };
            let c4 = if left { vline(c3, grid, l, t, b, '│') } else { c3 };
            let c5 = if right { vline(c4, grid, r, t, b, '│') } else { c4 };
            let c6 = if top && left { symbol_set(c5, grid, l, t, '┌') } else { c5 };
            let c7 = if top && right { symbol_set(c6, grid, r, t, '┐') } else { c6 };
            let c8 = if bottom && left { symbol_set(c7, grid, l, b, '└') } else { c7 };
            let c9 = if bottom && right { symbol_set(c8, grid, r, b, '┘') } else { c8 };
            match self.title {
                Some(title) => {
                    let lead: int = if left { 1 } else { 0 };
                    let trail: int = if right { 1 } else { 0 };
                    let room: int = if area.width >= lead + trail { area.width - lead - trail } else { 0 };
                    string_written(c9, grid, l + lead, t, title@, room, crate::style::Style::empty())
                },
                None => c9,
            }
        }
    }

    /// Draws the block over `area`: its style, its borders and its title.
    pub fn render(&self, area: Rect, buf: &mut Buffer)
        requires
            old(buf).wf(),
            area.x + area.width <= 0xffff,
            area.y + area.height <= 0xffff,
        ensures
            final(buf).wf(),
            final(buf).area == old(buf).area,
            same_outside(old(buf).content@, final(buf).content@, old(buf).area, area),
            final(buf).content@ == self.block_drawn(old(buf).content@, old(buf).area, area),
    {
        if area.width == 0 || area.height == 0 {
            return;
        }
        buf.set_style(area, self.style);
        let left = area.x;
        let right = area.x + area.width - 1;
        let top = area.y;
        let bottom = area.y + area.height - 1;
        if self.borders & Borders::TOP != 0 {
            let ghost start_c = buf.content@;
            let mut x = left;
            while x <= right
                invariant
                    hline(buf.content@, buf.area, x as int, right as int, top as int, '─') == hline(start_c, buf.area, left as int, right as int, top as int, '─'),
                    buf.wf(),
                    buf.area == old(buf).area,
                    same_outside(old(buf).content@, buf.content@, old(buf).area, area),
                    area.width > 0 && area.height > 0,
                    left == area.x && right == area.x + area.width - 1,
                    top == area.y && bottom == area.y + area.height - 1,
                    left <= x <= right + 1,
                    right < 0xffff,
                decreases right + 1 - x,
            {
                let ghost before = buf.content@;
                buf.set_symbol(x, top, '─');
                proof {
                    lemma_same_outside(before, buf.content@, buf.content@, buf.area, Rect { x: x, y: top, width: 1, height: 1 }, area);
                }
                x = x + 1;
            }
        }
        if self.borders & Borders::BOTTOM != 0 {
            let ghost start_c = buf.content@;
            let mut x = left;
            while x <= right
                invariant
                    hline(buf.content@, buf.area, x as int, right as int, bottom as int, '─') == hline(start_c, buf.area, left as int, right as int, bottom as int, '─'),
                    buf.wf(),
                    buf.area == old(buf).area,
                    same_outside(old(buf).content@, buf.content@, old(buf).area, area),
                    area.width > 0 && area.height > 0,
                    left == area.x && right == area.x + area.width - 1,
                    top == area.y && bottom == area.y + area.height - 1,
                    left <= x <= right + 1,
                    right < 0xffff,
                decreases right + 1 - x,
            {
                let ghost before = buf.content@;
                buf.set_symbol(x, bottom, '─');
                proof {
                    lemma_same_outside(before, buf.content@, buf.content@, buf.area, Rect { x: x, y: bottom, width: 1, height: 1 }, area);
                }
                x = x + 1;
            }
        }
        if self.borders & Borders::LEFT != 0 {
            let ghost start_c = buf.content@;
            let mut y = top;
            while y <= bottom
                invariant
                    vline(buf.content@, buf.area, left as int, y as int, bottom as int, '│') == vline(start_c, buf.area, left as int, top as int, bottom as int, '│'),
                    buf.wf(),
                    buf.area == old(buf).area,
                    same_outside(old(buf).content@, buf.content@, old(buf).area, area),
                    area.width > 0 && area.height > 0,
                    left == area.x && right == area.x + area.width - 1,
                    top == area.y && bottom == area.y + area.height - 1,
                    top <= y <= bottom + 1,
                    bottom < 0xffff,
                decreases bottom + 1 - y,
            {
                let ghost before = buf.content@;
                buf.set_symbol(left, y, '│');
                proof {
                    lemma_same_outside(before, buf.content@, buf.content@, buf.area, Rect { x: left, y: y, width: 1, height: 1 }, area);
                }
                y = y + 1;
            }
        }
        if self.borders & Borders::RIGHT != 0 {
            let ghost start_c = buf.content@;
            let mut y = top;
            while y <= bottom
                invariant
                    vline(buf.content@, buf.area, right as int, y as int, bottom as int, '│') == vline(start_c, buf.area, right as int, top as int, bottom as int, '│'),
                    buf.wf(),
                    buf.area == old(buf).area,
                    same_outside(old(buf).content@, buf.content@, old(buf).area, area),
                    area.width > 0 && area.height > 0,
                    left == area.x && right == area.x + area.width - 1,
                    top == area.y && bottom == area.y + area.height - 1,
                    top <= y <= bottom + 1,
                    bottom < 0xffff,
                decreases bottom + 1 - y,
            {
                let ghost before = buf.content@;
                buf.set_symbol(right, y, '│');
                proof {
                    lemma_same_outside(before, buf.content@, buf.content@, buf.area, Rect { x: right, y: y, width: 1, height: 1 }, area);
                }
                y = y + 1;
            }
        }
        if self.borders & Borders::TOP != 0 && self.borders & Borders::LEFT != 0 {
            let ghost before = buf.content@;
            buf.set_symbol(left, top, '┌');
            proof {
                lemma_same_outside(before, buf.content@, buf.content@, buf.area, Rect { x: left, y: top, width: 1, height: 1 }, area);
            }
        }
        if self.borders & Borders::TOP != 0 && self.borders & Borders::RIGHT != 0 {
            let ghost before = buf.content@;
            buf.set_symbol(right, top, '┐');
            proof {
                lemma_same_outside(before, buf.content@, buf.content@, buf.area, Rect { x: right, y: top, width: 1, height: 1 }, area);
            }
        }
        if self.borders & Borders::BOTTOM != 0 && self.borders & Borders::LEFT != 0 {
            let ghost before = buf.content@;
            buf.set_symbol(left, bottom, '└');
            proof {
                lemma_same_outside(before, buf.content@, buf.content@, buf.area, Rect { x: left, y: bottom, width: 1, height: 1 }, area);
            }
        }
        if self.borders & Borders::BOTTOM != 0 && self.borders & Borders::RIGHT != 0 {
            let ghost before = buf.content@;
            buf.set_symbol(right, bottom, '┘');
            proof {
                lemma_same_outside(before, buf.content@, buf.content@, buf.area, Rect { x: right, y: bottom, width: 1, height: 1 }, area);
            }
        }
        match &self.title {
            Some(title) => {
                let lead: u16 = if self.borders & Borders::LEFT != 0 { 1 } else { 0 };
                let trail: u16 = if self.borders & Borders::RIGHT != 0 { 1 } else { 0 };
                let room: u16 = if area.width >= lead + trail { area.width - lead - trail } else { 0 };
                let ghost before = buf.content@;
                buf.set_stringn(left + lead, top, title.as_str(), room as usize, Style::new());
                proof {
                    assert(same_outside(before, buf.content@, buf.area, area));
                }
            },
            None => {},
        }
    }
}

} // verus!
