//! The page manager: the body cursor, the queue of lines, the pages and the
//! table that tells on which page a verse begins.
//!
//! `State` is the layout as a mathematical value, and its functions say what
//! each operation does. `Layout` is the executable layout; every method of it
//! is specified by the function of the same name on its view.

use vstd::prelude::*;
use crate::style::{Index, Rectangle, Style};
use crate::units::MAX_LENGTH;

verus! {

/// A line of the body that waits for text.
///
/// `width` is the width that is still available on the line.
#[derive(Clone, Copy, Debug, PartialEq, Eq, Structural)]
pub struct Line {
    pub top: i64,
    pub left: i64,
    pub width: i64,
    pub locked: bool,
    pub page: usize,
}

/// The part of the page that the next line is taken from.
#[derive(Clone, Copy, Debug, PartialEq, Eq, Structural)]
pub struct Region {
    pub top: i64,
    pub left: i64,
    pub width: i64,
}

/// A piece of text placed on a page: the text, its rectangle, its style and
/// the space added to each of its word gaps.
#[derive(Debug)]
pub struct PartialText(pub String, pub Rectangle, pub Style, pub i64);

/// A page: its placements in the order in which they were written.
pub type Page = Vec<PartialText>;

/// A placement as a mathematical value.
pub struct Placement {
    pub text: Seq<char>,
    pub rect: Rectangle,
    pub style: Style,
    pub word_spacing: i64,
}

impl View for PartialText {
    type V = Placement;

    open spec fn view(&self) -> Placement {
        Placement { text: self.0@, rect: self.1, style: self.2, word_spacing: self.3 }
    }
}

impl PartialText {
    pub fn new(text: String, rect: Rectangle, style: Style, word_spacing: i64) -> (r: Self)
        ensures
            r@ == (Placement { text: text@, rect, style, word_spacing }),
    {
        PartialText(text, rect, style, word_spacing)
    }
}

/// The placements of a page.
pub open spec fn page_view(page: Seq<PartialText>) -> Seq<Placement> {
    Seq::new(page.len(), |i: int| page[i]@)
}

/// The placements of a sequence of pages.
pub open spec fn pages_view(pages: Seq<Page>) -> Seq<Seq<Placement>> {
    Seq::new(pages.len(), |i: int| page_view(pages[i]@))
}

/// The position of the first entry of `indices` for `index`, or the length of
/// `indices` if there is none.
pub open spec fn position(indices: Seq<(Index, usize)>, index: Index) -> int
    decreases indices.len(),
{
    if indices.len() == 0 {
        0
    } else if indices[0].0 == index {
        0
    } else {
        1 + position(indices.drop_first(), index)
    }
}

/// No index occurs twice.
pub open spec fn distinct(indices: Seq<(Index, usize)>) -> bool {
    forall|i: int, j: int| 0 <= i < j < indices.len() ==> indices[i].0 != indices[j].0
}

impl Line {
    /// The line moved right by `left` and widened by `width`; a locked line
    /// stays as it is.
    pub open spec fn mutated(self, left: int, width: int) -> Line {
        if self.locked {
            self
        } else {
            Line { left: (self.left + left) as i64, width: (self.width + width) as i64, ..self }
        }
    }

    /// The line is as the body hands it out: unlocked, at the left edge, on a
    /// page that exists, with a width and a top that are lengths, and with
    /// room for its height above the foot of the page wherever a line fits a
    /// page at all.
    pub open spec fn fresh(self, s: State) -> bool {
        &&& !self.locked
        &&& self.left == 0
        &&& 0 <= self.width <= MAX_LENGTH
        &&& 0 <= self.top <= MAX_LENGTH
        &&& self.page < s.pages.len()
        &&& s.line_height <= s.height ==> self.top + s.line_height <= s.height
    }

    /// The line, locked.
    pub open spec fn as_locked(self) -> Line {
        Line { locked: true, ..self }
    }

    /// The line after a piece of text `width` wide was written to it.
    pub open spec fn advanced(self, width: int) -> Line {
        Line { left: (self.left + width) as i64, ..self }
    }

    pub fn get_width(&self) -> (r: i64)
        ensures
            r == self.width,
    {
        self.width
    }

    /// Indents the line, unless it is locked.
    pub fn mutate(&mut self, left: i64, width: i64)
        requires
            !old(self).locked ==> i64::MIN <= old(self).left + left <= i64::MAX,
            !old(self).locked ==> i64::MIN <= old(self).width + width <= i64::MAX,
        ensures
            *final(self) == old(self).mutated(left as int, width as int),
    {
        if !self.locked {
            self.left += left;
            self.width += width;
        }
    }

    /// Forbids further indentation.
    pub fn lock(&mut self)
        ensures
            *final(self) == old(self).as_locked(),
    {
        self.locked = true;
    }
}

/// The layout as a mathematical value.
pub struct State {
    pub width: i64,
    pub height: i64,
    pub line_height: i64,
    pub body: Region,
    pub lines: Seq<Line>,
    pub pages: Seq<Seq<Placement>>,
    pub indices: Seq<(Index, usize)>,
}

impl State {
    /// There is a page, every queued line lies on a page that exists, no index
    /// is recorded twice, and the lengths are such that the body cursor cannot
    /// leave `i64`.
    pub open spec fn wf(self) -> bool {
        &&& self.pages.len() >= 1
        &&& forall|i: int| 0 <= i < self.lines.len() ==> (#[trigger] self.lines[i]).page < self.pages.len()
        &&& distinct(self.indices)
        &&& 0 <= self.width <= MAX_LENGTH
        &&& 0 <= self.height <= MAX_LENGTH
        &&& 0 <= self.line_height <= MAX_LENGTH
        &&& 0 <= self.body.top <= MAX_LENGTH
        &&& self.body.left == 0
        &&& 0 <= self.body.width <= MAX_LENGTH
    }

    /// A layout with one empty page and the body at its top.
    pub open spec fn new(width: i64, height: i64, line_height: i64) -> State {
        State {
            width,
            height,
            line_height,
            body: Region { top: 0, left: 0, width },
            lines: Seq::empty(),
            pages: seq![Seq::empty()],
            indices: Seq::empty(),
        }
    }

    /// The index of the last page.
    pub open spec fn current_page(self) -> int {
        self.pages.len() - 1
    }

    /// Whether a piece `height` high no longer fits below the body cursor.
    pub open spec fn overflows(self, height: int) -> bool {
        self.body.top + height > self.height
    }

    /// Makes room for `height`: starts a new page if it does not fit.
    pub open spec fn request_height(self, height: int) -> State {
        if self.overflows(height) {
            State {
                pages: self.pages.push(Seq::empty()),
                body: Region { top: 0, left: 0, width: self.width },
                ..self
            }
        } else {
            self
        }
    }

    /// Takes the next line from the body.
    pub open spec fn next_line(self) -> State {
        let s = self.request_height(self.line_height as int);
        State {
            lines: s.lines.push(
                Line {
                    top: s.body.top,
                    left: s.body.left,
                    width: s.body.width,
                    locked: false,
                    page: s.current_page() as usize,
                },
            ),
            body: Region { top: (s.body.top + s.line_height) as i64, ..s.body },
            ..s
        }
    }

    /// Takes lines from the body until `count` lines are queued.
    pub open spec fn extend_to(self, count: nat) -> State
        decreases count - self.lines.len(),
    {
        if self.lines.len() >= count {
            self
        } else {
            self.next_line().extend_to(count)
        }
    }

    /// Line `i` replaced.
    pub open spec fn with_line(self, i: int, line: Line) -> State {
        State { lines: self.lines.update(i, line), ..self }
    }

    /// The body cursor moved down by `height`.
    pub open spec fn mutate_body(self, height: int) -> State {
        State { body: Region { top: (self.body.top + height) as i64, ..self.body }, ..self }
    }

    /// A rectangle at the body cursor.
    pub open spec fn from_body(self, width: i64, height: i64) -> Rectangle {
        Rectangle { top: self.body.top, left: self.body.left, width, height }
    }

    /// A placement appended to a page.
    pub open spec fn write(self, page: int, placement: Placement) -> State {
        State { pages: self.pages.update(page, self.pages[page].push(placement)), ..self }
    }

    /// What `write_line` places.
    pub open spec fn line_placement(
        self,
        line: int,
        text: Seq<char>,
        style: Style,
        width: i64,
        word_spacing: i64,
        top_offset: int,
    ) -> Placement {
        Placement {
            text,
            rect: Rectangle {
                top: (self.lines[line].top + top_offset) as i64,
                left: self.lines[line].left,
                width,
                height: self.line_height,
            },
            style,
            word_spacing,
        }
    }

    /// A piece of text written at the left end of what is free of a line.
    pub open spec fn write_line(
        self,
        line: int,
        text: Seq<char>,
        style: Style,
        width: i64,
        word_spacing: i64,
        top_offset: int,
    ) -> State {
        self.write(
            self.lines[line].page as int,
            self.line_placement(line, text, style, width, word_spacing, top_offset),
        ).with_line(line, self.lines[line].advanced(width as int))
    }

    /// The queue of lines emptied.
    pub open spec fn drain_lines(self) -> State {
        State { lines: Seq::empty(), ..self }
    }

    /// The page recorded for an index: a first record is appended, a later
    /// one replaces the page.
    pub open spec fn record(self, index: Index, page: usize) -> State {
        let at = position(self.indices, index);
        if at < self.indices.len() {
            State { indices: self.indices.update(at, (index, page)), ..self }
        } else {
            State { indices: self.indices.push((index, page)), ..self }
        }
    }

    /// The page of a line recorded for an index.
    pub open spec fn add_index(self, index: Index, line: int) -> State {
        self.record(index, self.lines[line].page)
    }

    /// The page recorded for an index.
    pub open spec fn page_of(self, index: Index) -> Option<usize> {
        let at = position(self.indices, index);
        if at < self.indices.len() {
            Some(self.indices[at].1)
        } else {
            None
        }
    }

    /// The indices in the order in which they were first recorded.
    pub open spec fn verses(self) -> Seq<Index> {
        Seq::new(self.indices.len(), |i: int| self.indices[i].0)
    }
}

/// `position` finds an entry for the index, or the index does not occur.
pub proof fn lemma_position(indices: Seq<(Index, usize)>, index: Index)
    ensures
        0 <= position(indices, index) <= indices.len(),
        position(indices, index) < indices.len() ==> indices[position(indices, index)].0 == index,
        forall|i: int| 0 <= i < position(indices, index) ==> (#[trigger] indices[i]).0 != index,
    decreases indices.len(),
{
    if indices.len() > 0 && indices[0].0 != index {
        let rest = indices.drop_first();
        lemma_position(rest, index);
        assert forall|i: int| 0 <= i < position(indices, index) implies (#[trigger] indices[i]).0
            != index by {
            if i > 0 {
                assert(indices[i] == rest[i - 1]);
            }
        }
    }
}

/// Recording an index keeps the table free of repetitions, and afterwards the
/// index has the page recorded last.
pub proof fn lemma_record(s: State, index: Index, page: usize)
    requires
        distinct(s.indices),
    ensures
        distinct(s.record(index, page).indices),
        s.record(index, page).page_of(index) == Some(page),
        forall|other: Index| other != index ==> s.record(index, page).page_of(other) == s.page_of(other),
{
    let at = position(s.indices, index);
    let after = s.record(index, page).indices;
    lemma_position(s.indices, index);
    lemma_position(after, index);
    assert(distinct(after));
    assert(after[at].0 == index);
    assert(position(after, index) == at);
    assert forall|other: Index| other != index implies s.record(index, page).page_of(other)
        == s.page_of(other) by {
        lemma_position(s.indices, other);
        lemma_position(after, other);
        let p = position(s.indices, other);
        let q = position(after, other);
        if p < s.indices.len() {
            assert(after[p].0 == other);
            if q < p {
                assert(s.indices[q].0 != other);
            }
        }
        if q < after.len() {
            if q < s.indices.len() {
                assert(s.indices[q].0 == other);
            }
            if p < q {
                assert(after[p].0 != other);
            }
        }
    }
}

/// Taking lines from the body keeps the layout well formed, keeps the lines
/// that were queued, and leaves at least `count` lines queued.
pub proof fn lemma_extend_to(s: State, count: nat)
    requires
        s.wf(),
    ensures
        s.extend_to(count).wf(),
        s.extend_to(count).lines.len() == if s.lines.len() >= count {
            s.lines.len()
        } else {
            count
        },
        forall|i: int| 0 <= i < s.lines.len() ==> s.extend_to(count).lines[i] == s.lines[i],
        s.extend_to(count).pages.len() >= s.pages.len(),
        forall|p: int| 0 <= p < s.pages.len() ==> s.extend_to(count).pages[p] == s.pages[p],
        forall|p: int|
            s.pages.len() <= p < s.extend_to(count).pages.len() ==> s.extend_to(count).pages[p]
                == Seq::<Placement>::empty(),
        s.extend_to(count).indices == s.indices,
        s.extend_to(count).width == s.width,
        s.extend_to(count).height == s.height,
        s.extend_to(count).line_height == s.line_height,
        forall|i: int|
            s.lines.len() <= i < s.extend_to(count).lines.len() ==> (#[trigger] s.extend_to(
                count,
            ).lines[i]).fresh(s.extend_to(count)),
    decreases count - s.lines.len(),
{
    if s.lines.len() < count {
        let n = s.next_line();
        assert(n.wf());
        lemma_extend_to(n, count);
        let e = s.extend_to(count);
        assert(e == n.extend_to(count));
        assert forall|i: int| 0 <= i < s.lines.len() implies e.lines[i] == s.lines[i] by {
            assert(n.lines[i] == s.lines[i]);
        }
        assert forall|p: int| 0 <= p < s.pages.len() implies e.pages[p] == s.pages[p] by {
            assert(n.pages[p] == s.pages[p]);
        }
        assert forall|p: int| s.pages.len() <= p < e.pages.len() implies e.pages[p] == Seq::<
            Placement,
        >::empty() by {
            if p < n.pages.len() {
                assert(n.pages[p] == Seq::<Placement>::empty());
            }
        }
        assert forall|i: int| s.lines.len() <= i < e.lines.len() implies (#[trigger] e.lines[i]).fresh(
            e,
        ) by {
            if i == s.lines.len() {
                assert(e.lines[i] == n.lines[i]);
            }
        }
    }
}

/// The executable layout.
pub struct Layout {
    width: i64,
    height: i64,
    line_height: i64,
    body: Region,
    lines: Vec<Line>,
    pages: Vec<Page>,
    indices: Vec<(Index, usize)>,
}

impl View for Layout {
    type V = State;

    closed spec fn view(&self) -> State {
        State {
            width: self.width,
            height: self.height,
            line_height: self.line_height,
            body: self.body,
            lines: self.lines@,
            pages: pages_view(self.pages@),
            indices: self.indices@,
        }
    }
}

impl Layout {
    /// A layout for pages of the given size, with lines of the given height.
    pub fn new(width: i64, height: i64, line_height: i64) -> (r: Self)
        requires
            0 <= width <= MAX_LENGTH,
            0 <= height <= MAX_LENGTH,
            0 <= line_height <= MAX_LENGTH,
        ensures
            r@ == State::new(width, height, line_height),
            r@.wf(),
    {
        let mut pages: Vec<Page> = Vec::new();
        pages.push(Vec::new());
        let r = Layout {
            width,
            height,
            line_height,
            body: Region { top: 0, left: 0, width },
            lines: Vec::new(),
            pages,
            indices: Vec::new(),
        };
        assert(r@.pages =~= seq![Seq::<Placement>::empty()]) by {
            assert(page_view(r.pages@[0]@) =~= Seq::<Placement>::empty());
        }
        r
    }

    /// A layout of its own that starts where the body of this one stands.
    pub fn sub_layout(&self, width: i64, height: i64, line_height: i64) -> (r: Self)
        requires
            self@.wf(),
            0 <= width <= MAX_LENGTH,
            0 <= height <= MAX_LENGTH,
            0 <= line_height <= MAX_LENGTH,
        ensures
            r@ == (State { body: self@.body, ..State::new(width, height, line_height) }),
            r@.wf(),
    {
        let mut pages: Vec<Page> = Vec::new();
        pages.push(Vec::new());
        let r = Layout {
            width,
            height,
            line_height,
            body: self.body,
            lines: Vec::new(),
            pages,
            indices: Vec::new(),
        };
        assert(r@.pages =~= seq![Seq::<Placement>::empty()]) by {
            assert(page_view(r.pages@[0]@) =~= Seq::<Placement>::empty());
        }
        r
    }

    pub fn get_line_height(&self) -> (r: i64)
        ensures
            r == self@.line_height,
    {
        self.line_height
    }

    pub fn get_width(&self) -> (r: i64)
        ensures
            r == self@.width,
    {
        self.width
    }

    pub fn get_height(&self) -> (r: i64)
        ensures
            r == self@.height,
    {
        self.height
    }

    /// The body cursor.
    pub fn get_body(&self) -> (r: Region)
        ensures
            r == self@.body,
    {
        self.body
    }

    /// The number of queued lines.
    pub fn num_lines(&self) -> (r: usize)
        ensures
            r == self@.lines.len(),
    {
        self.lines.len()
    }

    /// The number of pages.
    pub fn num_pages(&self) -> (r: usize)
        ensures
            r == self@.pages.len(),
    {
        proof {
            assert(self@.pages.len() == self.pages@.len());
        }
        self.pages.len()
    }

    /// Moves the body cursor down.
    pub fn mutate_body(&mut self, height: i64)
        requires
            old(self)@.wf(),
            0 <= old(self)@.body.top + height <= MAX_LENGTH,
        ensures
            final(self)@ == old(self)@.mutate_body(height as int),
            final(self)@.wf(),
    {
        self.body.top += height;
        proof {
            assert(self@.lines == old(self)@.lines);
            assert(self@.pages == old(self)@.pages);
        }
    }

    pub fn get_pages(&self) -> (r: &Vec<Page>)
        ensures
            pages_view(r@) == self@.pages,
    {
        &self.pages
    }

    /// The recorded indices with their pages, in the order in which the
    /// indices were first recorded.
    pub fn get_indices(&self) -> (r: &Vec<(Index, usize)>)
        ensures
            r@ == self@.indices,
    {
        &self.indices
    }

    /// The recorded indices, in the order in which they were first recorded.
    pub fn get_verses(&self) -> (r: Vec<Index>)
        ensures
            r@ == self@.verses(),
    {
        let mut verses: Vec<Index> = Vec::new();
        let mut i: usize = 0;
        while i < self.indices.len()
            invariant
                i <= self.indices.len(),
                verses@.len() == i,
                forall|j: int| 0 <= j < i ==> verses@[j] == self.indices@[j].0,
            decreases self.indices.len() - i,
        {
            verses.push(self.indices[i].0);
            i += 1;
        }
        assert(verses@ =~= self@.verses());
        verses
    }

    /// The page recorded for an index.
    pub fn get_index(&self, index: Index) -> (r: Option<usize>)
        ensures
            r == self@.page_of(index),
    {
        let at = self.find(index);
        if at < self.indices.len() {
            Some(self.indices[at].1)
        } else {
            None
        }
    }

    fn find(&self, index: Index) -> (at: usize)
        ensures
            at == position(self@.indices, index),
    {
        let mut i: usize = 0;
        proof {
            lemma_position(self.indices@, index);
            assert(self.indices@.subrange(0, self.indices@.len() as int) =~= self.indices@);
        }
        while i < self.indices.len() && !(self.indices[i].0 == index)
            invariant
                i <= self.indices.len(),
                position(self.indices@, index) == i + position(
                    self.indices@.subrange(i as int, self.indices@.len() as int),
                    index,
                ),
            decreases self.indices.len() - i,
        {
            proof {
                let rest = self.indices@.subrange(i as int, self.indices@.len() as int);
                assert(rest.drop_first() =~= self.indices@.subrange(
                    i + 1,
                    self.indices@.len() as int,
                ));
            }
            i += 1;
        }
        proof {
            assert(self.indices@.subrange(0, self.indices@.len() as int) =~= self.indices@);
            let rest = self.indices@.subrange(i as int, self.indices@.len() as int);
            if i < self.indices.len() {
                assert(rest[0] == self.indices@[i as int]);
            }
        }
        i
    }

    /// Makes room for a piece of the given height and returns the page on
    /// which it will stand.
    pub fn request_height(&mut self, height: i64) -> (page: usize)
        requires
            old(self)@.wf(),
            old(self)@.body.top + height <= i64::MAX,
        ensures
            final(self)@ == old(self)@.request_height(height as int),
            final(self)@.wf(),
            page == final(self)@.current_page(),
    {
        if self.body.top + height > self.height {
            self.next_page();
        }
        proof {
            assert(self@.pages.len() == self.pages@.len());
        }
        self.pages.len() - 1
    }

    fn next_page(&mut self)
        requires
            old(self)@.wf(),
        ensures
            final(self)@ == (State {
                pages: old(self)@.pages.push(Seq::empty()),
                body: Region { top: 0, left: 0, width: old(self)@.width },
                ..old(self)@
            }),
            final(self)@.wf(),
    {
        self.pages.push(Vec::new());
        self.body = Region { top: 0, left: 0, width: self.width };
        proof {
            let new_page = self.pages@[self.pages@.len() - 1];
            assert(page_view(new_page@) =~= Seq::<Placement>::empty());
            assert(self@.pages =~= old(self)@.pages.push(Seq::empty()));
        }
    }

    /// Queues the next line of the body.
    pub fn next_line(&mut self)
        requires
            old(self)@.wf(),
        ensures
            final(self)@ == old(self)@.next_line(),
            final(self)@.wf(),
    {
        let page = self.request_height(self.line_height);
        self.lines.push(
            Line {
                top: self.body.top,
                left: self.body.left,
                width: self.body.width,
                locked: false,
                page,
            },
        );
        self.body.top += self.line_height;
    }

    /// Queues lines until line `line` exists, and returns that line.
    pub fn get_line(&mut self, line: usize) -> (r: &mut Line)
        requires
            old(self)@.wf(),
            line < usize::MAX,
        ensures
            *r == old(self)@.extend_to((line + 1) as nat).lines[line as int],
            final(self)@ == old(self)@.extend_to((line + 1) as nat).with_line(line as int, *final(r)),
    {
        while self.lines.len() <= line
            invariant
                self@.wf(),
                line < usize::MAX,
                self@.extend_to((line + 1) as nat) == old(self)@.extend_to((line + 1) as nat),
            decreases line + 1 - self.lines.len(),
        {
            self.next_line();
        }
        &mut self.lines[line]
    }

    /// Queued line `line`.
    pub fn get_line_unchecked(&mut self, line: usize) -> (r: &mut Line)
        requires
            line < old(self)@.lines.len(),
        ensures
            *r == old(self)@.lines[line as int],
            final(self)@ == old(self)@.with_line(line as int, *final(r)),
    {
        &mut self.lines[line]
    }

    /// A copy of queued line `line`.
    pub fn line(&self, line: usize) -> (r: Line)
        requires
            line < self@.lines.len(),
        ensures
            r == self@.lines[line as int],
    {
        self.lines[line]
    }

    /// Writes a piece of text at the left end of what is free of a queued
    /// line, on the page of that line.
    pub fn write_line(
        &mut self,
        line: usize,
        text: String,
        style: Style,
        width: i64,
        word_spacing: i64,
        top_offset: i64,
    )
        requires
            old(self)@.wf(),
            line < old(self)@.lines.len(),
            i64::MIN <= old(self)@.lines[line as int].top + top_offset <= i64::MAX,
            i64::MIN <= old(self)@.lines[line as int].left + width <= i64::MAX,
        ensures
            final(self)@ == old(self)@.write_line(
                line as int,
                text@,
                style,
                width,
                word_spacing,
                top_offset as int,
            ),
            final(self)@.wf(),
    {
        let page = self.lines[line].page;
        let rect = Rectangle {
            top: self.lines[line].top + top_offset,
            left: self.lines[line].left,
            width,
            height: self.line_height,
        };
        let moved = Line { left: self.lines[line].left + width, ..self.lines[line] };
        self.lines[line] = moved;
        self.write(page, text, rect, style, word_spacing);
    }

    /// Appends a placement to a page.
    pub fn write(&mut self, page: usize, text: String, rect: Rectangle, style: Style, word_spacing: i64)
        requires
            old(self)@.wf(),
            page < old(self)@.pages.len(),
        ensures
            final(self)@ == old(self)@.write(
                page as int,
                Placement { text: text@, rect, style, word_spacing },
            ),
            final(self)@.wf(),
    {
        let ghost placed = Placement { text: text@, rect, style, word_spacing };
        let text = PartialText::new(text, rect, style, word_spacing);
        self.pages[page].push(text);
        proof {
            let before = old(self)@.pages;
            let after = self@.pages;
            assert(after.len() == before.len());
            assert forall|p: int| 0 <= p < after.len() implies after[p] == before.update(
                page as int,
                before[page as int].push(placed),
            )[p] by {
                if p == page {
                    assert(page_view(self.pages@[p]@) =~= page_view(old(self).pages@[p]@).push(
                        placed,
                    ));
                } else {
                    assert(self.pages@[p] == old(self).pages@[p]);
                }
            }
            assert(after =~= before.update(page as int, before[page as int].push(placed)));
            assert(self@.lines == old(self)@.lines);
            assert(self@.pages.len() == old(self)@.pages.len());
        }
    }

    /// A rectangle of the given size at the body cursor.
    pub fn from_body(&self, width: i64, height: i64) -> (r: Rectangle)
        ensures
            r == self@.from_body(width, height),
    {
        Rectangle { top: self.body.top, left: self.body.left, width, height }
    }

    /// Empties the queue of lines.
    pub fn drain_lines(&mut self)
        requires
            old(self)@.wf(),
        ensures
            final(self)@ == old(self)@.drain_lines(),
            final(self)@.wf(),
    {
        self.lines.clear();
    }

    /// Records that the text under `index` stands on the page of queued line
    /// `line`.
    pub fn add_index(&mut self, index: Index, line: usize)
        requires
            old(self)@.wf(),
            line < old(self)@.lines.len(),
        ensures
            final(self)@ == old(self)@.add_index(index, line as int),
            final(self)@.wf(),
    {
        let page = self.lines[line].page;
        let at = self.find(index);
        proof {
            lemma_record(self@, index, page);
        }
        if at < self.indices.len() {
            self.indices[at] = (index, page);
        } else {
            self.indices.push((index, page));
        }
    }
}

} // verus!
