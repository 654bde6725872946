//! Styles, verse indices and the properties that a run of text carries.

use vstd::prelude::*;

verus! {

/// The styles in which text is set.
#[derive(Clone, Copy, Debug, PartialEq, Eq, Hash, Structural)]
pub enum Style {
    Verse,
    Normal,
    Header,
    Chapter,
}

/// The place of a verse: the number of its book, its chapter and its verse.
#[derive(Clone, Copy, Debug, PartialEq, Eq, Hash, Structural)]
pub struct Index {
    pub book: u16,
    pub chapter: u16,
    pub verse: u16,
}

impl Index {
    pub fn new(book: u16, chapter: u16, verse: u16) -> (r: Index)
        ensures
            r == (Index { book, chapter, verse }),
    {
        Index { book, chapter, verse }
    }
}

/// What laying out a run brings about besides its placement.
#[derive(Clone, Copy, Debug, PartialEq, Eq, Hash)]
pub enum Action {
    /// Records the page on which the run lands under this index.
    Index(Index),
}

/// The style of a run and the action attached to it.
#[derive(Clone, Copy, Debug, PartialEq, Eq, Hash)]
pub struct Properties {
    pub style: Style,
    pub action: Option<Action>,
}

impl Properties {
    /// Properties with a style and no action.
    pub fn new(style: Style) -> (r: Properties)
        ensures
            r == (Properties { style, action: None }),
    {
        Properties { style, action: None }
    }

    /// Whether two properties are the same.
    pub fn same(&self, other: &Properties) -> (r: bool)
        ensures
            r == (*self == *other),
    {
        self.style == other.style && match (self.action, other.action) {
            (None, None) => true,
            (Some(Action::Index(a)), Some(Action::Index(b))) => a == b,
            _ => false,
        }
    }
}

/// How the lines of a block are aligned.
#[derive(Clone, Copy, Debug, PartialEq, Eq, Structural)]
pub enum Format {
    Justified,
    Left,
    Center,
}

/// A rectangle on a page.
#[derive(Clone, Copy, Debug, PartialEq, Eq, Structural)]
pub struct Rectangle {
    pub top: i64,
    pub left: i64,
    pub width: i64,
    pub height: i64,
}

/// The size of a page, the height of the region that holds a header and the
/// space between a drop cap and the text that flows around it.
#[derive(Clone, Copy, Debug, PartialEq, Eq, Structural)]
pub struct Dimensions {
    pub width: i64,
    pub height: i64,
    pub header_height: i64,
    pub drop_cap_padding: i64,
}

impl Dimensions {
    /// All four lengths may be handed to the engine.
    pub open spec fn valid(self) -> bool {
        &&& 0 <= self.width <= crate::units::MAX_LENGTH
        &&& 0 <= self.height <= crate::units::MAX_LENGTH
        &&& 0 <= self.header_height <= crate::units::MAX_LENGTH
        &&& 0 <= self.drop_cap_padding <= crate::units::MAX_LENGTH
    }

    /// Tests `valid`.
    pub fn is_valid(&self) -> (r: bool)
        ensures
            r == self.valid(),
    {
        0 <= self.width && self.width <= crate::units::MAX_LENGTH && 0 <= self.height
            && self.height <= crate::units::MAX_LENGTH && 0 <= self.header_height
            && self.header_height <= crate::units::MAX_LENGTH && 0 <= self.drop_cap_padding
            && self.drop_cap_padding <= crate::units::MAX_LENGTH
    }
}

/// A half-open range of positions.
#[derive(Clone, Copy, Debug, PartialEq, Eq, Structural)]
pub struct Range {
    pub start: usize,
    pub end: usize,
}

} // verus!
