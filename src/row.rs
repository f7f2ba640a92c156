//! Table rows.
use vstd::prelude::*;
use crate::style::Style;
use crate::text::Cell;

verus! {

/// One row of a table: its cells, its height in lines, the blank lines kept
/// above and below it, and a style for the whole row.
#[derive(Debug, Clone, PartialEq, Eq, Hash)]
pub struct Row {
    pub cells: Vec<Cell>,
    pub height: u16,
    pub top_margin: u16,
    pub bottom_margin: u16,
    pub style: Style,
}

impl Row {
    /// A row one line high, without margins, holding the given cells.
    pub fn new(cells: Vec<Cell>) -> (r: Row)
        ensures
            r.cells@ == cells@,
            r.height == 1,
            r.top_margin == 0,
            r.bottom_margin == 0,
            r.style == Style::empty(),
    {
        Row { cells, height: 1, top_margin: 0, bottom_margin: 0, style: Style::new() }
    }

    /// Sets the height in lines.
    pub fn height(self, height: u16) -> (r: Row)
        ensures
            r == (Row { height, ..self }),
    {
        Row { height, ..self }
    }

    /// Sets the number of blank lines above the row.
    pub fn top_margin(self, margin: u16) -> (r: Row)
        ensures
            r == (Row { top_margin: margin, ..self }),
    {
        Row { top_margin: margin, ..self }
    }

    /// Sets the number of blank lines below the row.
    pub fn bottom_margin(self, margin: u16) -> (r: Row)
        ensures
            r == (Row { bottom_margin: margin, ..self }),
    {
        Row { bottom_margin: margin, ..self }
    }

    /// Sets the style of the whole row.
    pub fn style(self, style: Style) -> (r: Row)
        ensures
            r == (Row { style, ..self }),
    {
        Row { style, ..self }
    }

    /// The lines the row takes, margins included.
    pub open spec fn spec_height_with_margin(&self) -> int {
        self.height + self.top_margin + self.bottom_margin
    }

    /// The lines the row takes, margins included.
    pub fn height_with_margin(&self) -> (r: u32)
        ensures
            r as int == self.spec_height_with_margin(),
    {
        self.height as u32 + self.top_margin as u32 + self.bottom_margin as u32
    }
}

} // verus!
