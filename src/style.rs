//! Colours, text modifiers and styles that patch one another.
use vstd::prelude::*;

verus! {

/// A terminal colour.
#[derive(Debug, Clone, Copy, PartialEq, Eq, Hash)]
pub enum Color {
    Reset,
    Black,
    Red,
    Green,
    Yellow,
    Blue,
    Magenta,
    Cyan,
    Gray,
    DarkGray,
    LightRed,
    LightGreen,
    LightYellow,
    LightBlue,
    LightMagenta,
    LightCyan,
    White,
    Rgb(u8, u8, u8),
    Indexed(u8),
}

/// Text modifiers, as bits of a `u16`.
pub struct Modifier;

impl Modifier {
    pub const BOLD: u16 = 0b0000_0000_0001;
    pub const DIM: u16 = 0b0000_0000_0010;
    pub const ITALIC: u16 = 0b0000_0000_0100;
    pub const UNDERLINED: u16 = 0b0000_0000_1000;
    pub const SLOW_BLINK: u16 = 0b0000_0001_0000;
    pub const RAPID_BLINK: u16 = 0b0000_0010_0000;
    pub const REVERSED: u16 = 0b0000_0100_0000;
    pub const HIDDEN: u16 = 0b0000_1000_0000;
    pub const CROSSED_OUT: u16 = 0b0001_0000_0000;
}

/// A change of appearance: colours to set and modifiers to add or remove.
/// Fields left `None` or empty keep what is underneath.
#[derive(Debug, Clone, Copy, PartialEq, Eq, Hash)]
pub struct Style {
    pub fg: Option<Color>,
    pub bg: Option<Color>,
    pub add_modifier: u16,
    pub sub_modifier: u16,
}

impl Default for Style {
    fn default() -> (r: Style)
        ensures
            r == Style::empty(),
    {
        Style::new()
    }
}

impl Style {
    /// The style that changes nothing.
    pub open spec fn empty() -> Style {
        Style { fg: None, bg: None, add_modifier: 0, sub_modifier: 0 }
    }

    /// The style that changes nothing.
    pub fn new() -> (r: Style)
        ensures
            r == Style::empty(),
    {
        Style { fg: None, bg: None, add_modifier: 0, sub_modifier: 0 }
    }

    /// Sets the foreground colour.
    pub fn fg(self, color: Color) -> (r: Style)
        ensures
            r == (Style { fg: Some(color), ..self }),
    {
        Style { fg: Some(color), ..self }
    }

    /// Sets the background colour.
    pub fn bg(self, color: Color) -> (r: Style)
        ensures
            r == (Style { bg: Some(color), ..self }),
    {
        Style { bg: Some(color), ..self }
    }

    /// Adds modifiers, taking them out of the ones to remove.
    pub fn add_modifier(self, modifier: u16) -> (r: Style)
        ensures
            r == (Style { add_modifier: self.add_modifier | modifier, sub_modifier: self.sub_modifier & !modifier, ..self }),
    {
        Style { add_modifier: self.add_modifier | modifier, sub_modifier: self.sub_modifier & !modifier, ..self }
    }

    /// Removes modifiers, taking them out of the ones to add.
    pub fn remove_modifier(self, modifier: u16) -> (r: Style)
        ensures
            r == (Style { add_modifier: self.add_modifier & !modifier, sub_modifier: self.sub_modifier | modifier, ..self }),
    {
        Style { add_modifier: self.add_modifier & !modifier, sub_modifier: self.sub_modifier | modifier, ..self }
    }

    /// `other` laid over `self`.
    pub open spec fn patched(self, other: Style) -> Style {
        Style {
            fg: if other.fg is Some { other.fg } else { self.fg },
            bg: if other.bg is Some { other.bg } else { self.bg },
            add_modifier: (self.add_modifier & !other.sub_modifier) | other.add_modifier,
            sub_modifier: (self.sub_modifier & !other.add_modifier) | other.sub_modifier,
        }
    }

    /// Lays `other` over this style: what `other` sets wins.
    pub fn patch(self, other: Style) -> (r: Style)
        ensures
            r == self.patched(other),
    {
        Style {
            fg: if other.fg.is_some() { other.fg } else { self.fg },
            bg: if other.bg.is_some() { other.bg } else { self.bg },
            add_modifier: (self.add_modifier & !other.sub_modifier) | other.add_modifier,
            sub_modifier: (self.sub_modifier & !other.add_modifier) | other.sub_modifier,
        }
    }

    /// Sets a black foreground.
    pub fn black(self) -> (r: Style)
        ensures
            r == (Style { fg: Some(Color::Black), ..self }),
    {
        self.fg(Color::Black)
    }

    /// Sets a red foreground.
    pub fn red(self) -> (r: Style)
        ensures
            r == (Style { fg: Some(Color::Red), ..self }),
    {
        self.fg(Color::Red)
    }

    /// Sets a blue foreground.
    pub fn blue(self) -> (r: Style)
        ensures
            r == (Style { fg: Some(Color::Blue), ..self }),
    {
        self.fg(Color::Blue)
    }

    /// Sets a white background.
    pub fn on_white(self) -> (r: Style)
        ensures
            r == (Style { bg: Some(Color::White), ..self }),
    {
        self.bg(Color::White)
    }

    /// Adds bold.
    pub fn bold(self) -> (r: Style)
        ensures
            r == (Style { add_modifier: self.add_modifier | Modifier::BOLD, sub_modifier: self.sub_modifier & !Modifier::BOLD, ..self }),
    {
        self.add_modifier(Modifier::BOLD)
    }

    /// Adds italics.
    pub fn italic(self) -> (r: Style)
        ensures
            r == (Style { add_modifier: self.add_modifier | Modifier::ITALIC, sub_modifier: self.sub_modifier & !Modifier::ITALIC, ..self }),
    {
        self.add_modifier(Modifier::ITALIC)
    }

    /// Adds reversed colours.
    pub fn reversed(self) -> (r: Style)
        ensures
            r == (Style { add_modifier: self.add_modifier | Modifier::REVERSED, sub_modifier: self.sub_modifier & !Modifier::REVERSED, ..self }),
    {
        self.add_modifier(Modifier::REVERSED)
    }

    /// Removes crossing out.
    pub fn not_crossed_out(self) -> (r: Style)
        ensures
            r == (Style { add_modifier: self.add_modifier & !Modifier::CROSSED_OUT, sub_modifier: self.sub_modifier | Modifier::CROSSED_OUT, ..self }),
    {
        self.remove_modifier(Modifier::CROSSED_OUT)
    }
}

} // verus!
