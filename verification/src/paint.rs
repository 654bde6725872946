//! The parsed book and the rules by which its parts are composed: which
//! styles their text is set in, where verse numbers go, and which operation
//! closes each block.

use vstd::prelude::*;
use crate::painter::{Operation, Painter, PainterView};
use crate::style::{Action, Format, Style};
use crate::text::push_char;
use crate::units::UNIT;
use crate::writer::LineFormat;

verus! {

/// The indent of the first line of a paragraph, and of a line of poetry for
/// each level of its style.
pub const INDENT: i64 = 20 * UNIT;

/// The indent of the lines of poetry that follow the first.
pub const HANGING_INDENT: i64 = 40 * UNIT;

/// Text with character styles, which may be nested.
#[derive(Debug)]
pub struct Character {
    pub contents: Vec<CharacterContents>,
}

#[derive(Debug)]
pub enum CharacterContents {
    Line(String),
    Character(Character),
}

#[derive(Debug)]
pub enum ParagraphContents {
    /// The number of the verse that begins here.
    Verse(u16),
    Line(String),
    Character(Character),
    /// Anything that is not set.
    Other,
}

#[derive(Debug)]
pub struct Paragraph {
    pub contents: Vec<ParagraphContents>,
}

#[derive(Clone, Copy, Debug, PartialEq, Eq)]
pub enum PoetryStyle {
    /// Poetry indented by a number of levels.
    Normal(u8),
    /// Any other style of poetry; it is not set.
    Other,
}

#[derive(Debug)]
pub struct Poetry {
    pub style: PoetryStyle,
    pub contents: Vec<ParagraphContents>,
}

#[derive(Clone, Copy, Debug, PartialEq, Eq)]
pub enum ElementType {
    Header,
    /// Any other element; it is not set.
    Other,
}

#[derive(Debug)]
pub enum ElementContents {
    Line(String),
    /// Anything that is not set.
    Other,
}

#[derive(Debug)]
pub struct Element {
    pub ty: ElementType,
    pub contents: Vec<ElementContents>,
}

#[derive(Debug)]
pub enum BookContents {
    /// The number of the book.
    Id { code: u16 },
    /// The number of the chapter that begins here.
    Chapter(u16),
    Paragraph(Paragraph),
    Poetry(Poetry),
    Element(Element),
    /// Anything that is not set.
    Other,
}

#[derive(Debug)]
pub struct Book {
    pub contents: Vec<BookContents>,
}

/// The character of a decimal digit.
pub open spec fn digit(d: nat) -> char {
    if d == 0 {
        '0'
    } else if d == 1 {
        '1'
    } else if d == 2 {
        '2'
    } else if d == 3 {
        '3'
    } else if d == 4 {
        '4'
    } else if d == 5 {
        '5'
    } else if d == 6 {
        '6'
    } else if d == 7 {
        '7'
    } else if d == 8 {
        '8'
    } else {
        '9'
    }
}

/// A number written in decimal digits.
pub open spec fn digits(n: nat) -> Seq<char>
    decreases n,
{
    if n < 10 {
        seq![digit(n)]
    } else {
        digits(n / 10).push(digit(n % 10))
    }
}

fn digit_char(d: u16) -> (c: char)
    requires
        d < 10,
    ensures
        c == digit(d as nat),
{
    if d == 0 {
        '0'
    } else if d == 1 {
        '1'
    } else if d == 2 {
        '2'
    } else if d == 3 {
        '3'
    } else if d == 4 {
        '4'
    } else if d == 5 {
        '5'
    } else if d == 6 {
        '6'
    } else if d == 7 {
        '7'
    } else if d == 8 {
        '8'
    } else {
        '9'
    }
}

fn push_digits(n: u16, out: &mut String)
    ensures
        final(out)@ == old(out)@ + digits(n as nat),
    decreases n,
{
    if n >= 10 {
        push_digits(n / 10, out);
    }
    push_char(out, digit_char(n % 10));
    proof {
        if n >= 10 {
            assert(out@ =~= old(out)@ + digits(n as nat));
        } else {
            assert(out@ =~= old(out)@ + digits(n as nat));
        }
    }
}

/// Writes a number in decimal digits.
pub fn number_text(n: u16) -> (r: String)
    ensures
        r@ == digits(n as nat),
{
    let mut out = String::new();
    push_digits(n, &mut out);
    assert(out@ =~= digits(n as nat));
    out
}

/// The value of a decimal digit; nothing for any other character.
pub open spec fn digit_value(c: char) -> Option<nat> {
    if c == '0' {
        Some(0)
    } else if c == '1' {
        Some(1)
    } else if c == '2' {
        Some(2)
    } else if c == '3' {
        Some(3)
    } else if c == '4' {
        Some(4)
    } else if c == '5' {
        Some(5)
    } else if c == '6' {
        Some(6)
    } else if c == '7' {
        Some(7)
    } else if c == '8' {
        Some(8)
    } else if c == '9' {
        Some(9)
    } else {
        None
    }
}

/// Where the decimal digits that stand in `s` from `at` on come to an end.
pub open spec fn digits_end(s: Seq<char>, at: int) -> int
    decreases s.len() - at,
{
    if 0 <= at < s.len() && digit_value(s[at]).is_some() {
        digits_end(s, at + 1)
    } else {
        at
    }
}

/// The number that a sequence of decimal digits spells; a character that is
/// no digit counts as zero.
pub open spec fn decimal(s: Seq<char>) -> nat
    decreases s.len(),
{
    if s.len() == 0 {
        0
    } else {
        decimal(s.drop_last()) * 10 + match digit_value(s.last()) {
            Some(d) => d,
            None => 0,
        }
    }
}

/// The verse that a marker names: the number spelt by the decimal digits that
/// the marker begins with, where there is a digit and the number is a `u16`.
pub open spec fn marked_verse(marker: Seq<char>) -> Option<u16> {
    let end = digits_end(marker, 0);
    let n = decimal(marker.subrange(0, end));
    if end > 0 && n <= u16::MAX {
        Some(n as u16)
    } else {
        None
    }
}

fn digit_of(c: char) -> (r: Option<u32>)
    ensures
        r.is_some() == digit_value(c).is_some(),
        r.is_some() ==> r.unwrap() == digit_value(c).unwrap() && r.unwrap() < 10,
{
    if c == '0' {
        Some(0)
    } else if c == '1' {
        Some(1)
    } else if c == '2' {
        Some(2)
    } else if c == '3' {
        Some(3)
    } else if c == '4' {
        Some(4)
    } else if c == '5' {
        Some(5)
    } else if c == '6' {
        Some(6)
    } else if c == '7' {
        Some(7)
    } else if c == '8' {
        Some(8)
    } else if c == '9' {
        Some(9)
    } else {
        None
    }
}

/// Reads the verse that a marker names.
pub fn verse_number(marker: &str) -> (r: Option<u16>)
    ensures
        r == marked_verse(marker@),
{
    let chars = crate::text::chars_of(marker);
    let mut value: u32 = 0;
    let mut fits: bool = true;
    let mut at: usize = 0;
    assert(chars@.subrange(0, 0) =~= Seq::<char>::empty());
    loop
        invariant
            chars@ == marker@,
            at <= chars.len(),
            digits_end(chars@, 0) == digits_end(chars@, at as int),
            fits ==> value == decimal(chars@.subrange(0, at as int)),
            fits ==> value <= u16::MAX,
            !fits ==> decimal(chars@.subrange(0, at as int)) > u16::MAX,
        ensures
            at == digits_end(chars@, 0),
        decreases chars.len() - at,
    {
        if at >= chars.len() {
            break ;
        }
        let d: u32 = match digit_of(chars[at]) {
            Some(d) => d,
            None => {
                break ;
            },
        };
        proof {
            let next = chars@.subrange(0, at + 1);
            assert(next.drop_last() =~= chars@.subrange(0, at as int));
            assert(next.last() == chars@[at as int]);
            assert(decimal(next) == decimal(chars@.subrange(0, at as int)) * 10 + d);
        }
        if fits {
            value = value * 10 + d;
            if value > 0xffff {
                fits = false;
            }
        }
        at += 1;
    }
    if at > 0 && fits {
        Some(value as u16)
    } else {
        None
    }
}

/// The digits that a number is written in spell that number, and nothing but
/// digits stands among them.
pub proof fn lemma_digits_spell(n: nat)
    ensures
        decimal(digits(n)) == n,
        digits(n).len() > 0,
        forall|i: int| 0 <= i < digits(n).len() ==> (#[trigger] digit_value(digits(n)[i])).is_some(),
    decreases n,
{
    if n < 10 {
        assert(digits(n).drop_last() =~= Seq::<char>::empty());
        assert(decimal(digits(n).drop_last()) == 0);
    } else {
        lemma_digits_spell(n / 10);
        assert(digits(n).drop_last() =~= digits(n / 10));
        assert(digits(n).last() == digit(n % 10));
    }
}

/// A run of digits that fills the text from `at` on ends where the text ends.
pub proof fn lemma_digits_to_the_end(s: Seq<char>, at: int)
    requires
        0 <= at <= s.len(),
        forall|i: int| at <= i < s.len() ==> (#[trigger] digit_value(s[i])).is_some(),
    ensures
        digits_end(s, at) == s.len(),
    decreases s.len() - at,
{
    if at < s.len() {
        lemma_digits_to_the_end(s, at + 1);
    }
}

/// A verse number that was written out is read back as the same number.
pub proof fn law_number_read_back(n: u16)
    ensures
        marked_verse(digits(n as nat)) == Some(n),
{
    let s = digits(n as nat);
    lemma_digits_spell(n as nat);
    lemma_digits_to_the_end(s, 0);
    assert(s.subrange(0, s.len() as int) =~= s);
}

/// The painter after the first `count` of the contents of a character span
/// were composed: the text of every line is added in order.
pub open spec fn character_painted(
    contents: Seq<CharacterContents>,
    painter: PainterView,
    count: int,
) -> PainterView
    decreases contents, count,
{
    if count <= 0 || count > contents.len() {
        painter
    } else {
        let before = character_painted(contents, painter, count - 1);
        match contents[count - 1] {
            CharacterContents::Line(s) => before.add_text(s@),
            CharacterContents::Character(c) => character_painted(
                c.contents@,
                before,
                c.contents@.len() as int,
            ),
        }
    }
}

/// The painter after a verse marker was composed: a space in the style that
/// is on top of the stack, then the number of the verse in the style of verse
/// numbers, with the index of the verse attached.
pub open spec fn verse_painted(painter: PainterView, verse: u16) -> PainterView {
    painter.add_text(" "@).push_style(Style::Verse).set_action(
        Action::Index(painter.verse_index(verse)),
    ).add_text(digits(verse as nat)).pop_style()
}

/// The painter after the first `count` of the contents of a paragraph were
/// composed.
pub open spec fn contents_painted(
    contents: Seq<ParagraphContents>,
    painter: PainterView,
    count: int,
) -> PainterView
    decreases count,
{
    if count <= 0 || count > contents.len() {
        painter
    } else {
        let before = contents_painted(contents, painter, count - 1);
        match contents[count - 1] {
            ParagraphContents::Verse(n) => verse_painted(before, n),
            ParagraphContents::Line(s) => before.add_text(s@),
            ParagraphContents::Character(c) => character_painted(
                c.contents@,
                before,
                c.contents@.len() as int,
            ),
            ParagraphContents::Other => before,
        }
    }
}

/// Some of the contents is a verse marker.
pub open spec fn marks_verse(contents: Seq<ParagraphContents>) -> bool {
    exists|k: int| 0 <= k < contents.len() && #[trigger] contents[k] is Verse
}

/// The book and the chapter are known.
pub open spec fn can_index(painter: PainterView) -> bool {
    painter.index.book is Some && painter.index.chapter is Some
}

/// The format of a paragraph.
pub open spec fn paragraph_format() -> LineFormat {
    LineFormat { head: INDENT, tail: 0, shrink: 0 }
}

/// The format of poetry of a level.
pub open spec fn poetry_format(level: u8) -> LineFormat {
    LineFormat { head: (INDENT * level) as i64, tail: HANGING_INDENT, shrink: 0 }
}

/// The painter after the first `count` of the contents of an element were
/// composed: every line of a header is a region of its own.
pub open spec fn element_painted(
    ty: ElementType,
    contents: Seq<ElementContents>,
    painter: PainterView,
    count: int,
) -> PainterView
    decreases count,
{
    if count <= 0 || count > contents.len() {
        painter
    } else {
        let before = element_painted(ty, contents, painter, count - 1);
        match (ty, contents[count - 1]) {
            (ElementType::Header, ElementContents::Line(s)) => before.push_style(
                Style::Header,
            ).add_text(s@).pop_style().close(
                Operation::Region { format: Format::Center, height: before.dim.header_height },
            ),
            _ => before,
        }
    }
}

/// Parts of a book that are composed on a painter.
pub trait Paint {
    /// The part can be composed: the book and the chapter are known wherever
    /// a verse is marked.
    spec fn paintable(&self, painter: PainterView) -> bool;

    /// The painter after the part was composed.
    spec fn painted(&self, painter: PainterView) -> PainterView;

    /// Composes the part.
    fn paint(&self, painter: &mut Painter)
        requires
            old(painter)@.wf(),
            self.paintable(old(painter)@),
        ensures
            final(painter)@ == self.painted(old(painter)@),
            final(painter)@.wf(),
    ;
}

/// Adding text, pushing and popping styles and attaching actions change
/// neither the index nor the blocks, the layout, the registry or the
/// dimensions.
pub open spec fn same_frame(a: PainterView, b: PainterView) -> bool {
    &&& a.index == b.index
    &&& a.blocks == b.blocks
    &&& a.layout == b.layout
    &&& a.registry == b.registry
    &&& a.dim == b.dim
}

/// Composing a character span leaves the style stack as it was and the
/// styled-cursor list not empty.
pub proof fn lemma_character_painted(
    contents: Seq<CharacterContents>,
    painter: PainterView,
    count: int,
)
    requires
        painter.properties.len() > 0,
        painter.queue.len() > 0,
    ensures
        character_painted(contents, painter, count).properties.len() > 0,
        character_painted(contents, painter, count).queue == painter.queue,
        same_frame(character_painted(contents, painter, count), painter),
    decreases contents, count,
{
    if 0 < count <= contents.len() {
        lemma_character_painted(contents, painter, count - 1);
        let before = character_painted(contents, painter, count - 1);
        match contents[count - 1] {
            CharacterContents::Line(s) => {},
            CharacterContents::Character(c) => {
                lemma_character_painted(c.contents@, before, c.contents@.len() as int);
            },
        }
    }
}

/// Composing the contents of a paragraph leaves the style stack as it was
/// and the styled-cursor list not empty.
pub proof fn lemma_contents_painted(
    contents: Seq<ParagraphContents>,
    painter: PainterView,
    count: int,
)
    requires
        painter.properties.len() > 0,
        painter.queue.len() > 0,
    ensures
        contents_painted(contents, painter, count).properties.len() > 0,
        contents_painted(contents, painter, count).queue =~= painter.queue,
        same_frame(contents_painted(contents, painter, count), painter),
    decreases count,
{
    if 0 < count <= contents.len() {
        lemma_contents_painted(contents, painter, count - 1);
        let before = contents_painted(contents, painter, count - 1);
        match contents[count - 1] {
            ParagraphContents::Verse(n) => {
                let a = before.add_text(" "@);
                let b = a.push_style(Style::Verse);
                let c = b.set_action(Action::Index(before.verse_index(n)));
                let d = c.add_text(digits(n as nat));
                assert(d.queue == c.queue);
                assert(c.queue.drop_last() =~= before.queue);
            },
            ParagraphContents::Line(s) => {},
            ParagraphContents::Character(c) => {
                lemma_character_painted(c.contents@, before, c.contents@.len() as int);
            },
            ParagraphContents::Other => {},
        }
    }
}

/// Composing an element changes neither the index nor the layout.
pub proof fn lemma_element_painted(
    ty: ElementType,
    contents: Seq<ElementContents>,
    painter: PainterView,
    count: int,
)
    ensures
        element_painted(ty, contents, painter, count).index == painter.index,
        element_painted(ty, contents, painter, count).layout == painter.layout,
    decreases count,
{
    if 0 < count <= contents.len() {
        lemma_element_painted(ty, contents, painter, count - 1);
    }
}

impl Character {
    /// Adds the text of every line of the span, in order.
    pub fn paint_lines(&self, painter: &mut Painter)
        requires
            old(painter)@.wf(),
            old(painter)@.properties.len() > 0,
            old(painter)@.queue.len() > 0,
        ensures
            final(painter)@ == character_painted(
                self.contents@,
                old(painter)@,
                self.contents@.len() as int,
            ),
            final(painter)@.wf(),
        decreases self,
    {
        let mut i: usize = 0;
        while i < self.contents.len()
            invariant
                i <= self.contents.len(),
                old(painter)@.properties.len() > 0,
                old(painter)@.queue.len() > 0,
                painter@ == character_painted(self.contents@, old(painter)@, i as int),
                painter@.wf(),
            decreases self.contents.len() - i,
        {
            proof {
                lemma_character_painted(self.contents@, old(painter)@, i as int);
            }
            match &self.contents[i] {
                CharacterContents::Line(s) => {
                    painter.add_text(s.as_str());
                },
                CharacterContents::Character(character) => {
                    character.paint_lines(painter);
                },
            }
            i += 1;
        }
    }
}

impl Paint for Character {
    open spec fn paintable(&self, painter: PainterView) -> bool {
        painter.properties.len() > 0 && painter.queue.len() > 0
    }

    open spec fn painted(&self, painter: PainterView) -> PainterView {
        character_painted(self.contents@, painter, self.contents@.len() as int)
    }

    fn paint(&self, painter: &mut Painter) {
        self.paint_lines(painter)
    }
}

/// Composes the contents of a paragraph or of poetry.
fn paint_contents(contents: &Vec<ParagraphContents>, painter: &mut Painter)
    requires
        old(painter)@.wf(),
        old(painter)@.properties.len() > 0,
        old(painter)@.queue.len() > 0,
        marks_verse(contents@) ==> can_index(old(painter)@),
    ensures
        final(painter)@ == contents_painted(contents@, old(painter)@, contents@.len() as int),
        final(painter)@.wf(),
{
    let mut i: usize = 0;
    while i < contents.len()
        invariant
            i <= contents.len(),
            old(painter)@.properties.len() > 0,
            old(painter)@.queue.len() > 0,
            marks_verse(contents@) ==> can_index(old(painter)@),
            painter@ == contents_painted(contents@, old(painter)@, i as int),
            painter@.wf(),
        decreases contents.len() - i,
    {
        proof {
            lemma_contents_painted(contents@, old(painter)@, i as int);
        }
        match &contents[i] {
            ParagraphContents::Verse(n) => {
                assert(contents@[i as int] is Verse);
                let ghost before = painter@;
                painter.add_text(" ");
                painter.push_style(Style::Verse);
                painter.index_verse(*n);
                let number = number_text(*n);
                painter.add_text(number.as_str());
                painter.pop_style();
                assert(painter@ == verse_painted(before, *n));
            },
            ParagraphContents::Line(s) => {
                painter.add_text(s.as_str());
            },
            ParagraphContents::Character(character) => {
                character.paint_lines(painter);
            },
            ParagraphContents::Other => {},
        }
        i += 1;
    }
}

impl Paint for Paragraph {
    open spec fn paintable(&self, painter: PainterView) -> bool {
        marks_verse(self.contents@) ==> can_index(painter)
    }

    open spec fn painted(&self, painter: PainterView) -> PainterView {
        contents_painted(
            self.contents@,
            painter.push_style(Style::Normal),
            self.contents@.len() as int,
        ).pop_style().close(
            Operation::Paragraph { format: Format::Justified, line_format: paragraph_format() },
        )
    }

    /// Sets the paragraph in the normal style, justified, its first line
    /// indented.
    fn paint(&self, painter: &mut Painter) {
        painter.push_style(Style::Normal);
        paint_contents(&self.contents, painter);
        painter.pop_style();
        painter.paint_paragraph(Format::Justified, LineFormat::new(INDENT, 0, 0));
    }
}

impl Paint for Poetry {
    open spec fn paintable(&self, painter: PainterView) -> bool {
        marks_verse(self.contents@) ==> can_index(painter)
    }

    open spec fn painted(&self, painter: PainterView) -> PainterView {
        let composed = contents_painted(
            self.contents@,
            painter.push_style(Style::Normal),
            self.contents@.len() as int,
        );
        match self.style {
            PoetryStyle::Normal(level) => composed.pop_style().close(
                Operation::Paragraph { format: Format::Left, line_format: poetry_format(level) },
            ),
            PoetryStyle::Other => composed.close(Operation::Discard),
        }
    }

    /// Sets poetry of the normal style left-aligned, its first line indented
    /// by its level and the others hanging; poetry of another style is
    /// dropped.
    fn paint(&self, painter: &mut Painter) {
        painter.push_style(Style::Normal);
        paint_contents(&self.contents, painter);
        match self.style {
            PoetryStyle::Normal(level) => {
                painter.pop_style();
                let head: i64 = INDENT * (level as i64);
                painter.paint_paragraph(Format::Left, LineFormat::new(head, HANGING_INDENT, 0));
            },
            PoetryStyle::Other => {
                painter.clean();
            },
        }
    }
}

impl Paint for Element {
    open spec fn paintable(&self, painter: PainterView) -> bool {
        true
    }

    open spec fn painted(&self, painter: PainterView) -> PainterView {
        element_painted(self.ty, self.contents@, painter, self.contents@.len() as int)
    }

    /// Sets every line of a header centred in a region of the height of
    /// headers; other elements are not set.
    fn paint(&self, painter: &mut Painter) {
        let mut i: usize = 0;
        while i < self.contents.len()
            invariant
                i <= self.contents.len(),
                painter@ == element_painted(self.ty, self.contents@, old(painter)@, i as int),
                painter@.wf(),
            decreases self.contents.len() - i,
        {
            match (self.ty, &self.contents[i]) {
                (ElementType::Header, ElementContents::Line(s)) => {
                    let header_height = painter.get_dimensions().header_height;
                    painter.push_style(Style::Header);
                    painter.add_text(s.as_str());
                    painter.pop_style();
                    painter.paint_region(Format::Center, header_height);
                },
                _ => {},
            }
            i += 1;
        }
    }
}

/// The painter after a chapter number was composed: the chapter is known
/// from here on, and its number is a drop cap.
pub open spec fn chapter_painted(painter: PainterView, chapter: u16) -> PainterView {
    (PainterView {
        index: crate::painter::PartialIndex { chapter: Some(chapter), ..painter.index },
        ..painter
    }).push_style(Style::Chapter).add_text(digits(chapter as nat)).pop_style().close(
        Operation::DropCap,
    )
}

impl Paint for BookContents {
    open spec fn paintable(&self, painter: PainterView) -> bool {
        match *self {
            BookContents::Paragraph(p) => p.paintable(painter),
            BookContents::Poetry(p) => p.paintable(painter),
            _ => true,
        }
    }

    open spec fn painted(&self, painter: PainterView) -> PainterView {
        match *self {
            BookContents::Id { code } => PainterView {
                index: crate::painter::PartialIndex { book: Some(code), ..painter.index },
                ..painter
            },
            BookContents::Chapter(n) => chapter_painted(painter, n),
            BookContents::Paragraph(p) => p.painted(painter),
            BookContents::Poetry(p) => p.painted(painter),
            BookContents::Element(e) => e.painted(painter),
            BookContents::Other => painter,
        }
    }

    fn paint(&self, painter: &mut Painter) {
        match self {
            BookContents::Id { code } => {
                painter.index_book(*code);
            },
            BookContents::Chapter(n) => {
                painter.index_chapter(*n);
                painter.push_style(Style::Chapter);
                let number = number_text(*n);
                painter.add_text(number.as_str());
                painter.pop_style();
                painter.paint_drop_cap();
            },
            BookContents::Paragraph(paragraph) => {
                paragraph.paint(painter);
            },
            BookContents::Poetry(poetry) => {
                poetry.paint(painter);
            },
            BookContents::Element(element) => {
                element.paint(painter);
            },
            BookContents::Other => {},
        }
    }
}

/// The painter after the first `count` parts of a book were composed.
pub open spec fn book_painted(contents: Seq<BookContents>, painter: PainterView, count: int) -> PainterView
    decreases count,
{
    if count <= 0 || count > contents.len() {
        painter
    } else {
        contents[count - 1].painted(book_painted(contents, painter, count - 1))
    }
}

/// The first `count` parts of a book can be composed one after the other.
pub open spec fn book_paintable(contents: Seq<BookContents>, painter: PainterView, count: int) -> bool
    decreases count,
{
    if count <= 0 || count > contents.len() {
        true
    } else {
        book_paintable(contents, painter, count - 1) && contents[count - 1].paintable(
            book_painted(contents, painter, count - 1),
        )
    }
}

impl Paint for Book {
    open spec fn paintable(&self, painter: PainterView) -> bool {
        book_paintable(self.contents@, painter, self.contents@.len() as int)
    }

    open spec fn painted(&self, painter: PainterView) -> PainterView {
        book_painted(self.contents@, painter, self.contents@.len() as int)
    }

    /// Composes the parts of the book in order.
    fn paint(&self, painter: &mut Painter) {
        let mut i: usize = 0;
        while i < self.contents.len()
            invariant
                i <= self.contents.len(),
                book_paintable(self.contents@, old(painter)@, self.contents@.len() as int),
                painter@ == book_painted(self.contents@, old(painter)@, i as int),
                painter@.wf(),
            decreases self.contents.len() - i,
        {
            proof {
                lemma_book_paintable(
                    self.contents@,
                    old(painter)@,
                    self.contents@.len() as int,
                    i + 1,
                );
            }
            self.contents[i].paint(painter);
            i += 1;
        }
    }
}

/// A book whose parts can be composed up to one of them can be composed up
/// to any earlier one.
pub proof fn lemma_book_paintable(
    contents: Seq<BookContents>,
    painter: PainterView,
    count: int,
    upto: int,
)
    requires
        book_paintable(contents, painter, count),
        0 <= upto <= count <= contents.len(),
    ensures
        book_paintable(contents, painter, upto),
    decreases count,
{
    if upto < count {
        lemma_book_paintable(contents, painter, count - 1, upto);
    }
}

/// Whether some of the contents is a verse marker.
fn has_verse_marker(contents: &Vec<ParagraphContents>) -> (r: bool)
    ensures
        r == marks_verse(contents@),
{
    let mut k: usize = 0;
    while k < contents.len()
        invariant
            k <= contents.len(),
            forall|j: int| 0 <= j < k ==> !(#[trigger] contents@[j] is Verse),
        decreases contents.len() - k,
    {
        match &contents[k] {
            ParagraphContents::Verse(_) => {
                return true;
            },
            _ => {},
        }
        k += 1;
    }
    false
}

/// Composing a part of a book makes the book known if the part names it,
/// the chapter if the part is a chapter number, and otherwise leaves what is
/// known of them as it was.
pub proof fn lemma_part_index(part: BookContents, painter: PainterView)
    ensures
        part.painted(painter).index.book is Some <==> part is Id || painter.index.book is Some,
        part.painted(painter).index.chapter is Some <==> part is Chapter
            || painter.index.chapter is Some,
{
    match part {
        BookContents::Paragraph(p) => {
            lemma_contents_painted(
                p.contents@,
                painter.push_style(Style::Normal),
                p.contents@.len() as int,
            );
        },
        BookContents::Poetry(p) => {
            lemma_contents_painted(
                p.contents@,
                painter.push_style(Style::Normal),
                p.contents@.len() as int,
            );
        },
        BookContents::Element(e) => {
            lemma_element_painted(e.ty, e.contents@, painter, e.contents@.len() as int);
        },
        _ => {},
    }
}

impl Book {
    /// Tests whether the book can be composed on the painter: whether the
    /// book and the chapter are known wherever a verse is marked.
    pub fn is_paintable(&self, painter: &Painter) -> (r: bool)
        ensures
            r == self.paintable(painter@),
    {
        let index = painter.get_index();
        let mut book: bool = index.book.is_some();
        let mut chapter: bool = index.chapter.is_some();
        let mut i: usize = 0;
        while i < self.contents.len()
            invariant
                i <= self.contents.len(),
                book_paintable(self.contents@, painter@, i as int),
                book == (book_painted(self.contents@, painter@, i as int).index.book is Some),
                chapter == (book_painted(
                    self.contents@,
                    painter@,
                    i as int,
                ).index.chapter is Some),
            decreases self.contents.len() - i,
        {
            let ghost before = book_painted(self.contents@, painter@, i as int);
            proof {
                lemma_part_index(self.contents@[i as int], before);
            }
            let fits = match &self.contents[i] {
                BookContents::Id { code } => {
                    book = true;
                    true
                },
                BookContents::Chapter(n) => {
                    chapter = true;
                    true
                },
                BookContents::Paragraph(p) => !has_verse_marker(&p.contents) || (book && chapter),
                BookContents::Poetry(p) => !has_verse_marker(&p.contents) || (book && chapter),
                _ => true,
            };
            if !fits {
                proof {
                    assert(!self.contents@[i as int].paintable(before));
                    assert(!book_paintable(self.contents@, painter@, i + 1));
                    lemma_book_unpaintable(
                        self.contents@,
                        painter@,
                        i + 1,
                        self.contents@.len() as int,
                    );
                }
                return false;
            }
            i += 1;
        }
        true
    }
}

/// A book whose parts cannot be composed up to one of them cannot be
/// composed up to any later one.
pub proof fn lemma_book_unpaintable(
    contents: Seq<BookContents>,
    painter: PainterView,
    upto: int,
    count: int,
)
    requires
        !book_paintable(contents, painter, upto),
        0 <= upto <= count <= contents.len(),
    ensures
        !book_paintable(contents, painter, count),
    decreases count,
{
    if upto < count {
        lemma_book_unpaintable(contents, painter, upto, count - 1);
    }
}

} // verus!
