//! The painter: composes blocks of styled text, and lays the composed
//! blocks out once the host has measured their runs.
//!
//! Composing and laying out are two passes. Styles are pushed and popped and
//! text is added until an operation closes the block; the block then waits
//! in a queue. The host measures the runs of every queued block, and
//! `typeset` lays the blocks out in order with those widths.

use vstd::prelude::*;
use crate::inline::{
    entry_at, lemma_entry_from, lemma_resolved_count, lemma_resolved_ordered, measure, measured,
    resolved, run_count, run_of, uses_verse, Inline,
};
use crate::layout::{Layout, Page, State};
use crate::renderer::{lemma_top_offset_bounds, Registry, Renderer};
use crate::style::{Action, Dimensions, Format, Index, Properties, Range, Style};
use crate::text::chars_of;
use crate::typeset::{
    drop_cap, paint_drop_cap, paint_paragraph, paint_region, paragraph_laid, region_laid, settled,
    typesettable,
};
use crate::units::{MAX_LENGTH, MAX_RUNS};
use crate::writer::{LineFormat, Words};

verus! {

/// What closes a block, and so how the block is laid out.
#[derive(Clone, Copy, Debug, PartialEq, Eq)]
pub enum Operation {
    /// A region of a given height with its text centred in it.
    Region { format: Format, height: i64 },
    /// A drop cap, two lines high.
    DropCap,
    /// A paragraph.
    Paragraph { format: Format, line_format: LineFormat },
    /// Nothing is set; the queue of lines is emptied.
    Discard,
}

/// A composed block: its text, the styled-cursor list that says where the
/// text of each style ends, and the operation that closed it.
#[derive(Debug)]
pub struct Block {
    pub operation: Operation,
    pub text: Vec<char>,
    pub properties: Vec<(usize, Properties)>,
}

/// A block as a mathematical value.
pub struct BlockView {
    pub operation: Operation,
    pub text: Seq<char>,
    pub properties: Seq<(usize, Properties)>,
}

impl View for Block {
    type V = BlockView;

    open spec fn view(&self) -> BlockView {
        BlockView { operation: self.operation, text: self.text@, properties: self.properties@ }
    }
}

/// The blocks as mathematical values.
pub open spec fn block_views(blocks: Seq<Block>) -> Seq<BlockView> {
    Seq::new(blocks.len(), |k: int| blocks[k]@)
}

/// The widths of the runs of each block.
pub open spec fn width_views(widths: Seq<Vec<i64>>) -> Seq<Seq<i64>> {
    Seq::new(widths.len(), |k: int| widths[k]@)
}

/// The book and chapter under which verses are indexed, as far as they are
/// known.
#[derive(Clone, Copy, Debug, PartialEq, Eq)]
pub struct PartialIndex {
    pub book: Option<u16>,
    pub chapter: Option<u16>,
}

/// Why the queued blocks were not laid out.
#[derive(Clone, Copy, Debug, PartialEq, Eq)]
pub enum TypesetError {
    /// There are not as many lists of widths as blocks.
    Blocks,
    /// This block cannot be laid out with its list of widths.
    Block(usize),
}

impl BlockView {
    /// The style of the first character of the block.
    pub open spec fn first_style(self) -> Style {
        self.properties[entry_at(self.properties, 0)].1.style
    }

    /// The block can be laid out with these widths: it has a style, the
    /// metrics that verse numbers need are registered, there is one width for
    /// each run and each is a length, and what its operation needs holds.
    pub open spec fn layable(self, registry: Registry, widths: Seq<i64>) -> bool {
        match self.operation {
            Operation::Discard => true,
            _ => {
                &&& self.properties.len() > 0
                &&& uses_verse(self.properties) ==> registry.has_padding(Style::Normal)
                &&& widths.len() == run_count(self.text, self.properties)
                &&& widths.len() <= MAX_RUNS
                &&& forall|k: int| 0 <= k < widths.len() ==> 0 <= #[trigger] widths[k] <= MAX_LENGTH
                &&& match self.operation {
                    Operation::Paragraph { format, line_format } => line_format.valid(),
                    Operation::Region { format, height } => {
                        &&& format != Format::Left
                        &&& 0 <= height <= MAX_LENGTH
                        &&& self.text.len() > 0
                        &&& registry.has_style(self.first_style())
                    },
                    Operation::DropCap => self.text.len() > 0,
                    Operation::Discard => true,
                }
            },
        }
    }

    /// `after` is the layout `before` once the block was laid out with runs
    /// of these measured widths.
    pub open spec fn laid_with(
        self,
        before: State,
        after: State,
        registry: Registry,
        dim: Dimensions,
        inline: Seq<Inline>,
    ) -> bool {
        match self.operation {
            Operation::Paragraph { format, line_format } => if inline.len() == 0 {
                after == before.drain_lines()
            } else {
                exists|lines: Seq<Words>| #[trigger]
                    paragraph_laid(before, after, self.text, inline, format, line_format, lines)
            },
            Operation::Region { format, height } => exists|lines: Seq<Words>| #[trigger]
                region_laid(
                    before,
                    after,
                    dim,
                    self.text,
                    inline,
                    format,
                    height,
                    registry.line_height(inline[0].properties.style) as i64,
                    lines,
                ),
            Operation::DropCap => after == drop_cap(before, dim, self.text, inline),
            Operation::Discard => after == before.drain_lines(),
        }
    }

    /// `after` is the layout `before` once the block was laid out: its text
    /// was resolved into runs, the runs were given the widths, and the
    /// operation of the block was carried out on them.
    pub open spec fn laid(
        self,
        before: State,
        after: State,
        registry: Registry,
        dim: Dimensions,
        widths: Seq<i64>,
    ) -> bool {
        match self.operation {
            Operation::Discard => after == before.drain_lines(),
            _ => exists|runs: Seq<Inline>| #[trigger]
                resolved(registry, self.text, self.properties, runs, self.text.len() as int)
                    && runs.len() == widths.len() && self.laid_with(
                    before,
                    after,
                    registry,
                    dim,
                    measured(runs, widths),
                ),
        }
    }
}

/// `after` is the layout `before` once the first `count` blocks were laid
/// out in order.
pub open spec fn all_laid(
    before: State,
    after: State,
    registry: Registry,
    dim: Dimensions,
    blocks: Seq<BlockView>,
    widths: Seq<Seq<i64>>,
    count: int,
) -> bool
    decreases count,
{
    if count <= 0 {
        after == before
    } else {
        exists|mid: State|
            all_laid(before, mid, registry, dim, blocks, widths, count - 1) && #[trigger] blocks[count
                - 1].laid(mid, after, registry, dim, widths[count - 1])
    }
}

/// Whether some entry of a styled-cursor list has the style of verse numbers.
fn has_verse(styled: &Vec<(usize, Properties)>) -> (r: bool)
    ensures
        r == uses_verse(styled@),
{
    let mut k: usize = 0;
    while k < styled.len()
        invariant
            k <= styled.len(),
            forall|j: int| 0 <= j < k ==> (#[trigger] styled@[j]).1.style != Style::Verse,
        decreases styled.len() - k,
    {
        if styled[k].1.style == Style::Verse {
            return true;
        }
        k += 1;
    }
    false
}

/// Whether every width is a length that may be handed in.
fn are_lengths(widths: &Vec<i64>) -> (r: bool)
    ensures
        r == (forall|k: int| 0 <= k < widths@.len() ==> 0 <= #[trigger] widths@[k] <= MAX_LENGTH),
{
    let mut k: usize = 0;
    while k < widths.len()
        invariant
            k <= widths.len(),
            forall|j: int| 0 <= j < k ==> 0 <= #[trigger] widths@[j] <= MAX_LENGTH,
        decreases widths.len() - k,
    {
        if widths[k] < 0 || widths[k] > MAX_LENGTH {
            return false;
        }
        k += 1;
    }
    true
}

impl Block {
    /// Tests whether the block can be laid out with these widths.
    pub fn is_layable(&self, renderer: &Renderer, widths: &Vec<i64>) -> (r: bool)
        requires
            renderer@.wf(),
        ensures
            r == self@.layable(renderer@, widths@),
    {
        match self.operation {
            Operation::Discard => {
                return true;
            },
            _ => {},
        }
        if self.properties.len() == 0 {
            return false;
        }
        if has_verse(&self.properties) && !renderer.has_padding(Style::Normal) {
            return false;
        }
        let runs = crate::inline::inline(renderer, &self.text, &self.properties);
        proof {
            lemma_resolved_count(
                renderer@,
                self.text@,
                self.properties@,
                runs@,
                self.text@.len() as int,
            );
        }
        if widths.len() != runs.len() || widths.len() > MAX_RUNS || !are_lengths(widths) {
            return false;
        }
        match self.operation {
            Operation::Paragraph { format, line_format } => line_format.is_valid(),
            Operation::Region { format, height } => {
                if self.text.len() == 0 {
                    return false;
                }
                proof {
                    assert(run_of(renderer@, self.text@, self.properties@, runs@[0]));
                }
                let known = renderer.has_style(runs[0].properties.style);
                let aligned = match format {
                    Format::Left => false,
                    _ => true,
                };
                aligned && 0 <= height && height <= MAX_LENGTH && known
            },
            Operation::DropCap => self.text.len() > 0,
            Operation::Discard => true,
        }
    }

    /// The ranges of the runs of the block, which the host is to measure, or
    /// nothing if the block has no style or needs metrics that are not
    /// registered.
    pub fn ranges(&self, renderer: &Renderer) -> (r: Option<Vec<Range>>)
        requires
            renderer@.wf(),
        ensures
            r is Some <==> self.properties@.len() > 0 && (uses_verse(self.properties@)
                ==> renderer@.has_padding(Style::Normal)),
            r is Some ==> r->0@.len() == run_count(self.text@, self.properties@),
            r is Some ==> exists|runs: Seq<Inline>| #[trigger]
                resolved(renderer@, self.text@, self.properties@, runs, self.text@.len() as int)
                    && runs.len() == r->0@.len() && forall|j: int|
                    0 <= j < runs.len() ==> (#[trigger] r->0@[j]) == runs[j].range,
    {
        if self.properties.len() == 0 {
            return None;
        }
        if has_verse(&self.properties) && !renderer.has_padding(Style::Normal) {
            return None;
        }
        let runs = crate::inline::inline(renderer, &self.text, &self.properties);
        proof {
            lemma_resolved_count(
                renderer@,
                self.text@,
                self.properties@,
                runs@,
                self.text@.len() as int,
            );
        }
        let mut ranges: Vec<Range> = Vec::new();
        let mut j: usize = 0;
        while j < runs.len()
            invariant
                j <= runs.len(),
                ranges@.len() == j,
                forall|i: int| 0 <= i < j ==> (#[trigger] ranges@[i]) == runs@[i].range,
            decreases runs.len() - j,
        {
            ranges.push(runs[j].range);
            j += 1;
        }
        Some(ranges)
    }

    /// Lays the block out with the measured widths of its runs.
    pub fn lay(&self, layout: &mut Layout, renderer: &Renderer, dim: &Dimensions, widths: &Vec<i64>)
        requires
            old(layout)@.wf(),
            settled(old(layout)@),
            renderer@.wf(),
            dim.valid(),
            self@.layable(renderer@, widths@),
        ensures
            self@.laid(old(layout)@, final(layout)@, renderer@, *dim, widths@),
            final(layout)@.wf(),
            settled(final(layout)@),
    {
        match self.operation {
            Operation::Discard => {
                layout.drain_lines();
                return ;
            },
            _ => {},
        }
        let mut runs = crate::inline::inline(renderer, &self.text, &self.properties);
        let ghost resolved_runs = runs@;
        proof {
            lemma_resolved_count(
                renderer@,
                self.text@,
                self.properties@,
                runs@,
                self.text@.len() as int,
            );
        }
        measure(&mut runs, widths);
        proof {
            let len = self.text@.len() as int;
            assert forall|k: int| 0 <= k < runs@.len() implies 0 <= (#[trigger] runs@[k]).width
                <= MAX_LENGTH by {
                assert(runs@[k].width == widths@[k]);
            }
            assert forall|k: int| 0 <= k < runs@.len() implies -2 * MAX_LENGTH <= (
            #[trigger] runs@[k]).top_offset <= 2 * MAX_LENGTH by {
                assert(run_of(renderer@, self.text@, self.properties@, resolved_runs[k]));
                let style = resolved_runs[k].properties.style;
                if style == Style::Verse {
                    let e = entry_at(self.properties@, resolved_runs[k].range.start as int);
                    lemma_entry_from(self.properties@, resolved_runs[k].range.start as int, 0);
                    assert(self.properties@[e].1.style == Style::Verse);
                    lemma_top_offset_bounds(renderer@, style);
                }
            }
            assert forall|j: int, k: int| 0 <= j <= k < runs@.len() implies (
            #[trigger] runs@[j]).range.start <= (#[trigger] runs@[k]).range.end <= len by {
                lemma_resolved_ordered(
                    renderer@,
                    self.text@,
                    self.properties@,
                    resolved_runs,
                    len,
                    j,
                    k,
                );
            }
            assert(typesettable(runs@, len));
            assert forall|j: int| 0 <= j < old(layout)@.lines.len() implies (
            #[trigger] old(layout)@.lines[j]).bounded() by {}
        }
        match self.operation {
            Operation::Paragraph { format, line_format } => {
                paint_paragraph(layout, &self.text, &runs, format, line_format);
                assert(self@.laid_with(old(layout)@, layout@, renderer@, *dim, runs@));
            },
            Operation::Region { format, height } => {
                proof {
                    assert(run_of(renderer@, self.text@, self.properties@, resolved_runs[0]));
                }
                let line_height = renderer.line_height(runs[0].properties.style);
                paint_region(layout, dim, &self.text, &runs, format, height, line_height);
                proof {
                    let lines = choose|lines: Seq<Words>| #[trigger]
                        region_laid(
                            old(layout)@,
                            layout@,
                            *dim,
                            self.text@,
                            runs@,
                            format,
                            height,
                            line_height,
                            lines,
                        );
                    assert(line_height == renderer@.line_height(runs@[0].properties.style) as i64);
                    assert(region_laid(
                        old(layout)@,
                        layout@,
                        *dim,
                        self.text@,
                        runs@,
                        format,
                        height,
                        renderer@.line_height(runs@[0].properties.style) as i64,
                        lines,
                    ));
                }
                assert(self@.laid_with(old(layout)@, layout@, renderer@, *dim, runs@));
            },
            Operation::DropCap => {
                paint_drop_cap(layout, dim, &self.text, &runs);
                assert(self@.laid_with(old(layout)@, layout@, renderer@, *dim, runs@));
            },
            Operation::Discard => {},
        }
        proof {
            assert(runs@ == measured(resolved_runs, widths@));
            assert(resolved_runs.len() == widths@.len());
            assert(self@.laid_with(old(layout)@, layout@, renderer@, *dim, runs@));
            assert(resolved(
                renderer@,
                self.text@,
                self.properties@,
                resolved_runs,
                self.text@.len() as int,
            ) && resolved_runs.len() == widths@.len() && self@.laid_with(
                old(layout)@,
                layout@,
                renderer@,
                *dim,
                measured(resolved_runs, widths@),
            ));
        }
    }
}

/// The painter as a mathematical value.
pub struct PainterView {
    pub registry: Registry,
    pub dim: Dimensions,
    /// The text of the block that is being composed.
    pub text: Seq<char>,
    /// The styled-cursor list of the block that is being composed.
    pub properties: Seq<(usize, Properties)>,
    /// The style stack.
    pub queue: Seq<Properties>,
    /// The composed blocks that wait to be laid out.
    pub blocks: Seq<BlockView>,
    pub layout: State,
    pub index: PartialIndex,
}

impl PainterView {
    /// The registry and the layout are well formed and agree, the normal
    /// style is registered, no line waits that is not reserved, and the last
    /// entry of the styled-cursor list ends where the text ends.
    pub open spec fn wf(self) -> bool {
        &&& self.registry.wf()
        &&& self.registry.has_style(Style::Normal)
        &&& self.dim.valid()
        &&& self.layout.wf()
        &&& settled(self.layout)
        &&& self.properties.len() == 0 ==> self.text.len() == 0
        &&& self.properties.len() > 0 ==> self.properties.last().0 == self.text.len()
    }

    /// A style pushed: it lies on top of the stack, and text of it begins
    /// where the text ends.
    pub open spec fn push_style(self, style: Style) -> PainterView {
        let properties = Properties { style, action: None };
        PainterView {
            queue: self.queue.push(properties),
            properties: self.properties.push((self.text.len() as usize, properties)),
            ..self
        }
    }

    /// The top of the stack taken off, if there is one.
    pub open spec fn pop_style(self) -> PainterView {
        if self.queue.len() > 0 {
            PainterView { queue: self.queue.drop_last(), ..self }
        } else {
            self
        }
    }

    /// The styled-cursor list, with a new entry for the top of the stack
    /// unless its last entry has the properties of the top of the stack.
    pub open spec fn current(self) -> Seq<(usize, Properties)> {
        if self.properties.last().1 != self.queue.last() {
            self.properties.push((self.properties.last().0, self.queue.last()))
        } else {
            self.properties
        }
    }

    /// Text added in the style on top of the stack.
    pub open spec fn add_text(self, text: Seq<char>) -> PainterView {
        let current = self.current();
        PainterView {
            text: self.text + text,
            properties: current.update(
                current.len() - 1,
                ((self.text + text).len() as usize, current.last().1),
            ),
            ..self
        }
    }

    /// An action attached to the last entry of the styled-cursor list and to
    /// the top of the stack.
    pub open spec fn set_action(self, action: Action) -> PainterView {
        PainterView {
            properties: self.properties.update(
                self.properties.len() - 1,
                (
                    self.properties.last().0,
                    Properties { action: Some(action), ..self.properties.last().1 },
                ),
            ),
            queue: self.queue.update(
                self.queue.len() - 1,
                Properties { action: Some(action), ..self.queue.last() },
            ),
            ..self
        }
    }

    /// The index of a verse of the book and chapter that are known.
    pub open spec fn verse_index(self, verse: u16) -> Index {
        Index { book: self.index.book->0, chapter: self.index.chapter->0, verse }
    }

    /// The block closed by an operation: it joins the queue, and the next
    /// block begins empty.
    pub open spec fn close(self, operation: Operation) -> PainterView {
        PainterView {
            blocks: self.blocks.push(
                match operation {
                    Operation::Discard => BlockView {
                        operation,
                        text: Seq::empty(),
                        properties: Seq::empty(),
                    },
                    _ => BlockView { operation, text: self.text, properties: self.properties },
                },
            ),
            text: Seq::empty(),
            properties: Seq::empty(),
            ..self
        }
    }
}

/// The painter.
pub struct Painter {
    renderer: Renderer,
    dim: Dimensions,
    text: Vec<char>,
    properties: Vec<(usize, Properties)>,
    queue: Vec<Properties>,
    blocks: Vec<Block>,
    layout: Layout,
    index: PartialIndex,
}

impl View for Painter {
    type V = PainterView;

    closed spec fn view(&self) -> PainterView {
        PainterView {
            registry: self.renderer@,
            dim: self.dim,
            text: self.text@,
            properties: self.properties@,
            queue: self.queue@,
            blocks: block_views(self.blocks@),
            layout: self.layout@,
            index: self.index,
        }
    }
}

impl Painter {
    /// A painter for pages of the given dimensions, with lines as high as
    /// those of the normal style.
    pub fn new(renderer: &Renderer, dim: Dimensions) -> (r: Self)
        requires
            renderer@.wf(),
            renderer@.has_style(Style::Normal),
            dim.valid(),
        ensures
            r@ == (PainterView {
                registry: renderer@,
                dim,
                text: Seq::empty(),
                properties: Seq::empty(),
                queue: Seq::empty(),
                blocks: Seq::empty(),
                layout: State::new(
                    dim.width,
                    dim.height,
                    renderer@.line_height(Style::Normal) as i64,
                ),
                index: PartialIndex { book: None, chapter: None },
            }),
            r@.wf(),
    {
        let line_height = renderer.line_height(Style::Normal);
        let r = Painter {
            renderer: renderer.clone(),
            dim,
            text: Vec::new(),
            properties: Vec::new(),
            queue: Vec::new(),
            blocks: Vec::new(),
            layout: Layout::new(dim.width, dim.height, line_height),
            index: PartialIndex { book: None, chapter: None },
        };
        proof {
            assert(r@.blocks =~= Seq::<BlockView>::empty());
        }
        r
    }

    pub fn get_dimensions(&self) -> (r: &Dimensions)
        ensures
            *r == self@.dim,
    {
        &self.dim
    }

    /// The book and chapter under which verses are indexed.
    pub fn get_index(&self) -> (r: PartialIndex)
        ensures
            r == self@.index,
    {
        self.index
    }

    /// The registry of the painter.
    pub fn get_renderer(&self) -> (r: &Renderer)
        ensures
            r@ == self@.registry,
    {
        &self.renderer
    }

    /// The layout.
    pub fn get_layout(&self) -> (r: &Layout)
        ensures
            r@ == self@.layout,
    {
        &self.layout
    }

    /// The composed blocks that wait to be laid out.
    pub fn get_blocks(&self) -> (r: &Vec<Block>)
        ensures
            block_views(r@) == self@.blocks,
    {
        &self.blocks
    }

    /// The pages.
    pub fn get_pages(&self) -> (r: &Vec<Page>)
        ensures
            crate::layout::pages_view(r@) == self@.layout.pages,
    {
        self.layout.get_pages()
    }

    /// The recorded indices with their pages.
    pub fn get_indices(&self) -> (r: &Vec<(Index, usize)>)
        ensures
            r@ == self@.layout.indices,
    {
        self.layout.get_indices()
    }

    /// The recorded indices in the order in which they were first recorded.
    pub fn get_verses(&self) -> (r: Vec<Index>)
        ensures
            r@ == self@.layout.verses(),
    {
        self.layout.get_verses()
    }

    /// Pushes a style.
    pub fn push_style(&mut self, style: Style)
        requires
            old(self)@.wf(),
        ensures
            final(self)@ == old(self)@.push_style(style),
            final(self)@.wf(),
    {
        let properties = Properties { style, action: None };
        self.queue.push(properties);
        self.properties.push((self.text.len(), properties));
    }

    /// Takes the top off the style stack.
    pub fn pop_style(&mut self)
        requires
            old(self)@.wf(),
        ensures
            final(self)@ == old(self)@.pop_style(),
            final(self)@.wf(),
    {
        let _ = self.queue.pop();
        proof {
            if old(self)@.queue.len() == 0 {
                assert(self.queue@ =~= old(self).queue@);
            }
        }
    }

    /// Adds text in the style on top of the stack.
    pub fn add_text(&mut self, text: &str)
        requires
            old(self)@.wf(),
            old(self)@.properties.len() > 0,
            old(self)@.queue.len() > 0,
        ensures
            final(self)@ == old(self)@.add_text(text@),
            final(self)@.wf(),
    {
        let at: usize = self.properties.len() - 1;
        let current = self.properties[at];
        let style = self.queue[self.queue.len() - 1];
        if !current.1.same(&style) {
            self.properties.push((current.0, style));
        }
        let chars = chars_of(text);
        let mut i: usize = 0;
        while i < chars.len()
            invariant
                i <= chars.len(),
                chars@ == text@,
                self.text@ == old(self).text@ + chars@.subrange(0, i as int),
                self.properties@ == old(self)@.current(),
                self.queue == old(self).queue,
                self.blocks == old(self).blocks,
                self.layout == old(self).layout,
                self.renderer == old(self).renderer,
                self.dim == old(self).dim,
                self.index == old(self).index,
            decreases chars.len() - i,
        {
            self.text.push(chars[i]);
            i += 1;
            assert(self.text@ =~= old(self).text@ + chars@.subrange(0, i as int));
        }
        proof {
            assert(chars@.subrange(0, chars@.len() as int) =~= chars@);
        }
        let last: usize = self.properties.len() - 1;
        let entry = (self.text.len(), self.properties[last].1);
        self.properties[last] = entry;
    }

    fn set_action(&mut self, action: Action)
        requires
            old(self)@.wf(),
            old(self)@.properties.len() > 0,
            old(self)@.queue.len() > 0,
        ensures
            final(self)@ == old(self)@.set_action(action),
            final(self)@.wf(),
    {
        let last: usize = self.properties.len() - 1;
        let entry = (
            self.properties[last].0,
            Properties { style: self.properties[last].1.style, action: Some(action) },
        );
        self.properties[last] = entry;
        let top: usize = self.queue.len() - 1;
        let properties = Properties { style: self.queue[top].style, action: Some(action) };
        self.queue[top] = properties;
    }

    /// Names the book under which verses are indexed from now on.
    pub fn index_book(&mut self, book: u16)
        ensures
            final(self)@ == (PainterView {
                index: PartialIndex { book: Some(book), ..old(self)@.index },
                ..old(self)@
            }),
    {
        self.index.book = Some(book);
    }

    /// Names the chapter under which verses are indexed from now on.
    pub fn index_chapter(&mut self, chapter: u16)
        ensures
            final(self)@ == (PainterView {
                index: PartialIndex { chapter: Some(chapter), ..old(self)@.index },
                ..old(self)@
            }),
    {
        self.index.chapter = Some(chapter);
    }

    /// Attaches the index of a verse to the text of the style on top of the
    /// stack: the page on which that text lands is recorded for the verse.
    pub fn index_verse(&mut self, verse: u16)
        requires
            old(self)@.wf(),
            old(self)@.index.book is Some,
            old(self)@.index.chapter is Some,
            old(self)@.properties.len() > 0,
            old(self)@.queue.len() > 0,
        ensures
            final(self)@ == old(self)@.set_action(Action::Index(old(self)@.verse_index(verse))),
            final(self)@.wf(),
    {
        let index = Index::new(self.index.book.unwrap(), self.index.chapter.unwrap(), verse);
        self.set_action(Action::Index(index));
    }

    fn close(&mut self, operation: Operation)
        requires
            old(self)@.wf(),
        ensures
            final(self)@ == old(self)@.close(operation),
            final(self)@.wf(),
    {
        let mut text: Vec<char> = Vec::new();
        let mut properties: Vec<(usize, Properties)> = Vec::new();
        core::mem::swap(&mut text, &mut self.text);
        core::mem::swap(&mut properties, &mut self.properties);
        let block = match operation {
            Operation::Discard => Block { operation, text: Vec::new(), properties: Vec::new() },
            _ => Block { operation, text, properties },
        };
        self.blocks.push(block);
        proof {
            assert(self@.blocks =~= old(self)@.close(operation).blocks);
        }
    }

    /// Closes the block as a region of the given height.
    pub fn paint_region(&mut self, format: Format, height: i64)
        requires
            old(self)@.wf(),
        ensures
            final(self)@ == old(self)@.close(Operation::Region { format, height }),
            final(self)@.wf(),
    {
        self.close(Operation::Region { format, height })
    }

    /// Closes the block as a drop cap.
    pub fn paint_drop_cap(&mut self)
        requires
            old(self)@.wf(),
        ensures
            final(self)@ == old(self)@.close(Operation::DropCap),
            final(self)@.wf(),
    {
        self.close(Operation::DropCap)
    }

    /// Closes the block as a paragraph.
    pub fn paint_paragraph(&mut self, format: Format, line_format: LineFormat)
        requires
            old(self)@.wf(),
        ensures
            final(self)@ == old(self)@.close(Operation::Paragraph { format, line_format }),
            final(self)@.wf(),
    {
        self.close(Operation::Paragraph { format, line_format })
    }

    /// Drops what was composed: nothing of it is set, and when the blocks are
    /// laid out the queue of lines is emptied in its place.
    pub fn clean(&mut self)
        requires
            old(self)@.wf(),
        ensures
            final(self)@ == old(self)@.close(Operation::Discard),
            final(self)@.wf(),
    {
        self.close(Operation::Discard)
    }

    /// Lays out the composed blocks in order, with the measured widths of
    /// the runs of each, and empties the queue of blocks. Nothing is laid out
    /// unless every block can be laid out with its widths.
    pub fn typeset(&mut self, widths: &Vec<Vec<i64>>) -> (r: Result<(), TypesetError>)
        requires
            old(self)@.wf(),
        ensures
            final(self)@.wf(),
            r is Ok <==> widths@.len() == old(self)@.blocks.len() && forall|k: int|
                0 <= k < widths@.len() ==> (#[trigger] old(self)@.blocks[k]).layable(
                    old(self)@.registry,
                    widths@[k]@,
                ),
            r is Ok ==> final(self)@ == (PainterView {
                blocks: Seq::empty(),
                layout: final(self)@.layout,
                ..old(self)@
            }) && all_laid(
                old(self)@.layout,
                final(self)@.layout,
                old(self)@.registry,
                old(self)@.dim,
                old(self)@.blocks,
                width_views(widths@),
                widths@.len() as int,
            ),
            r is Err ==> final(self)@ == old(self)@,
            r == Err::<(), TypesetError>(TypesetError::Blocks) <==> widths@.len() != old(
                self,
            )@.blocks.len(),
            forall|k: usize|
                r == Err::<(), TypesetError>(TypesetError::Block(k)) ==> {
                    &&& k < widths@.len() == old(self)@.blocks.len()
                    &&& !old(self)@.blocks[k as int].layable(old(self)@.registry, widths@[k as int]@)
                    &&& forall|j: int|
                        0 <= j < k ==> (#[trigger] old(self)@.blocks[j]).layable(
                            old(self)@.registry,
                            widths@[j]@,
                        )
                },
    {
        let n: usize = self.blocks.len();
        if widths.len() != n {
            return Err(TypesetError::Blocks);
        }
        let mut k: usize = 0;
        while k < n
            invariant
                k <= n,
                n == self.blocks@.len(),
                n == widths@.len(),
                *self == *old(self),
                self@.wf(),
                forall|j: int|
                    0 <= j < k ==> (#[trigger] self@.blocks[j]).layable(self@.registry, widths@[j]@),
            decreases n - k,
        {
            if !self.blocks[k].is_layable(&self.renderer, &widths[k]) {
                proof {
                    assert(self@.blocks[k as int] == self.blocks@[k as int]@);
                }
                return Err(TypesetError::Block(k));
            }
            proof {
                assert(self@.blocks[k as int] == self.blocks@[k as int]@);
            }
            k += 1;
        }
        let mut blocks: Vec<Block> = Vec::new();
        core::mem::swap(&mut blocks, &mut self.blocks);
        let ghost all = block_views(blocks@);
        proof {
            assert(all =~= old(self)@.blocks);
            assert(self@.blocks =~= Seq::<BlockView>::empty());
        }
        k = 0;
        while k < n
            invariant
                k <= n,
                n == blocks@.len(),
                n == widths@.len(),
                all == block_views(blocks@),
                all == old(self)@.blocks,
                self@ == (PainterView {
                    blocks: Seq::empty(),
                    layout: self@.layout,
                    ..old(self)@
                }),
                self@.wf(),
                forall|j: int|
                    0 <= j < n ==> (#[trigger] all[j]).layable(old(self)@.registry, widths@[j]@),
                all_laid(
                    old(self)@.layout,
                    self@.layout,
                    old(self)@.registry,
                    old(self)@.dim,
                    all,
                    width_views(widths@),
                    k as int,
                ),
            decreases n - k,
        {
            let ghost mid = self@.layout;
            proof {
                assert(all[k as int] == blocks@[k as int]@);
                assert(all[k as int].layable(old(self)@.registry, widths@[k as int]@));
            }
            blocks[k].lay(&mut self.layout, &self.renderer, &self.dim, &widths[k]);
            proof {
                assert(width_views(widths@)[k as int] == widths@[k as int]@);
                assert(all_laid(
                    old(self)@.layout,
                    mid,
                    old(self)@.registry,
                    old(self)@.dim,
                    all,
                    width_views(widths@),
                    k as int,
                ) && all[k as int].laid(
                    mid,
                    self@.layout,
                    old(self)@.registry,
                    old(self)@.dim,
                    width_views(widths@)[k as int],
                ));
                let count = k + 1;
                assert(all_laid(
                    old(self)@.layout,
                    mid,
                    old(self)@.registry,
                    old(self)@.dim,
                    all,
                    width_views(widths@),
                    count - 1,
                ) && all[count - 1].laid(
                    mid,
                    self@.layout,
                    old(self)@.registry,
                    old(self)@.dim,
                    width_views(widths@)[count - 1],
                ));
                assert(all_laid(
                    old(self)@.layout,
                    self@.layout,
                    old(self)@.registry,
                    old(self)@.dim,
                    all,
                    width_views(widths@),
                    count,
                ));
            }
            k += 1;
        }
        Ok(())
    }
}

} // verus!
