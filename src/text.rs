//! Lines of text and table cells.
use vstd::prelude::*;
use crate::style::Style;

verus! {

/// Where a line sits within the width it is given.
#[derive(Debug, Clone, Copy, PartialEq, Eq, Hash)]
pub enum Alignment {
    Left,
    Center,
    Right,
}

/// One line of text with a style and an optional alignment.
#[derive(Debug, Clone, PartialEq, Eq, Hash)]
pub struct Line {
    pub content: String,
    pub style: Style,
    pub alignment: Option<Alignment>,
}

impl Line {
    /// An unstyled, unaligned line.
    pub fn raw(s: &str) -> (r: Line)
        ensures
            r.content@ == s@,
            r.style == Style::empty(),
            r.alignment is None,
    {
        Line { content: s.to_owned(), style: Style::new(), alignment: None }
    }

    /// Sets the alignment.
    pub fn alignment(self, alignment: Alignment) -> (r: Line)
        ensures
            r.content@ == self.content@,
            r.style == self.style,
            r.alignment == Some(alignment),
    {
        Line { alignment: Some(alignment), ..self }
    }

    /// Sets the style.
    pub fn style(self, style: Style) -> (r: Line)
        ensures
            r.content@ == self.content@,
            r.style == style,
            r.alignment == self.alignment,
    {
        Line { style, ..self }
    }
}

impl<'a> From<&'a str> for Line {
    fn from(s: &'a str) -> Line {
        Line::raw(s)
    }
}

impl<'a> vstd::std_specs::convert::FromSpecImpl<&'a str> for Line {
    open spec fn obeys_from_spec() -> bool {
        false
    }

    open spec fn from_spec(s: &'a str) -> Line {
        arbitrary()
    }
}

/// The content of one table cell: lines of text under a style.
#[derive(Debug, Clone, PartialEq, Eq, Hash)]
pub struct Cell {
    pub content: Vec<Line>,
    pub style: Style,
}

impl Cell {
    /// A cell that holds the given lines.
    pub fn new(content: Vec<Line>) -> (r: Cell)
        ensures
            r.content@ == content@,
            r.style == Style::empty(),
    {
        Cell { content, style: Style::new() }
    }

    /// Sets the style of the whole cell.
    pub fn style(self, style: Style) -> (r: Cell)
        ensures
            r.content@ == self.content@,
            r.style == style,
    {
        Cell { style, ..self }
    }
}

impl From<Line> for Cell {
    fn from(line: Line) -> Cell {
        Cell::new(vec![line])
    }
}

impl vstd::std_specs::convert::FromSpecImpl<Line> for Cell {
    open spec fn obeys_from_spec() -> bool {
        false
    }

    open spec fn from_spec(line: Line) -> Cell {
        arbitrary()
    }
}

impl<'a> From<&'a str> for Cell {
    fn from(s: &'a str) -> Cell {
        Cell::new(vec![Line::raw(s)])
    }
}

impl<'a> vstd::std_specs::convert::FromSpecImpl<&'a str> for Cell {
    open spec fn obeys_from_spec() -> bool {
        false
    }

    open spec fn from_spec(s: &'a str) -> Cell {
        arbitrary()
    }
}

} // verus!
