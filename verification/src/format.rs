//! The splitter, which gathers the runs of each line into pieces of one style,
//! and the two ways of writing the pieces to the layout: as they are, or
//! with the white space stretched so that the line is filled.

use vstd::prelude::*;
use vstd::slice::slice_subrange;
use crate::inline::Inline;
use crate::layout::{Layout, State};
use crate::style::{Action, Properties};
use crate::text::{count_whitespace, spaces, string_of};
use crate::units::{floor_div, lemma_share_bounded, mul_div, MAX_ADVANCE, MAX_LEFT, MAX_LENGTH, MAX_RUNS};
use crate::writer::{lemma_width_bounds, lemma_width_split, measurable, total_width, whitespace_width, LineMetrics, Words};

verus! {

/// A piece of a line: the text of adjoining runs with the same properties,
/// with its width, the width of its white space, and the metrics of its line.
#[derive(Clone, Copy, Debug)]
pub struct Unformatted<'a> {
    pub line: usize,
    pub text: &'a [char],
    pub properties: Properties,
    pub width: i64,
    pub top_offset: i64,
    pub whitespace: i64,
    pub metrics: LineMetrics,
}

/// A piece as a mathematical value.
pub struct Group {
    pub line: usize,
    pub text: Seq<char>,
    pub properties: Properties,
    pub width: i64,
    pub top_offset: i64,
    pub whitespace: i64,
    pub metrics: LineMetrics,
}

impl<'a> View for Unformatted<'a> {
    type V = Group;

    open spec fn view(&self) -> Group {
        Group {
            line: self.line,
            text: self.text@,
            properties: self.properties,
            width: self.width,
            top_offset: self.top_offset,
            whitespace: self.whitespace,
            metrics: self.metrics,
        }
    }
}

/// The pieces as mathematical values.
pub open spec fn views(pieces: Seq<Unformatted>) -> Seq<Group> {
    Seq::new(pieces.len(), |i: int| pieces[i]@)
}

impl Group {
    /// The share of what the line has left that goes to this piece: in
    /// proportion to its share of the white space of the line, rounded down.
    /// A line without white space cannot be stretched.
    pub open spec fn spacing(self) -> int {
        if self.metrics.whitespace > 0 {
            self.metrics.remaining * self.whitespace / (self.metrics.whitespace as int)
        } else {
            0
        }
    }

    /// The number of white-space characters of the piece.
    pub open spec fn spaces(self) -> nat {
        count_whitespace(self.text)
    }

    /// What is added to each white-space character when the piece is
    /// stretched.
    pub open spec fn word_spacing(self) -> int {
        if self.spaces() == 0 {
            0
        } else {
            self.spacing() / (self.spaces() as int)
        }
    }

    /// The width with which the piece is written.
    pub open spec fn rendered_width(self, justified: bool) -> int {
        if justified {
            self.width + self.spacing()
        } else {
            self.width as int
        }
    }

    /// The space added to each of its word gaps when the piece is written.
    pub open spec fn rendered_spacing(self, justified: bool) -> int {
        if justified {
            self.word_spacing()
        } else {
            0
        }
    }

    /// The sizes of the piece are such that writing it cannot leave `i64`.
    pub open spec fn placeable(self) -> bool {
        &&& 0 <= self.width <= 0x400_0000_0000
        &&& 0 <= self.whitespace <= self.metrics.whitespace
        &&& -0x800_0000_0000 <= self.metrics.remaining <= 0x800_0000_0000
        &&& -2 * MAX_LENGTH <= self.top_offset <= 2 * MAX_LENGTH
    }
}

/// The layout after the index of a piece, if it has one, was recorded for the
/// page of its line.
pub open spec fn indexed(s: State, g: Group) -> State {
    match g.properties.action {
        Some(Action::Index(index)) => s.add_index(index, g.line as int),
        None => s,
    }
}

/// The layout after a piece was written to its line.
pub open spec fn placed(s: State, g: Group, justified: bool) -> State {
    indexed(s, g).write_line(
        g.line as int,
        g.text,
        g.properties.style,
        g.rendered_width(justified) as i64,
        g.rendered_spacing(justified) as i64,
        g.top_offset as int,
    )
}

/// The layout after the pieces were written in order.
pub open spec fn written(s: State, groups: Seq<Group>, justified: bool) -> State
    decreases groups.len(),
{
    if groups.len() == 0 {
        s
    } else {
        placed(written(s, groups.drop_last(), justified), groups.last(), justified)
    }
}

/// The lines have room for `pieces` more pieces of text.
pub open spec fn room(s: State, pieces: int) -> bool {
    forall|j: int|
        0 <= j < s.lines.len() ==> {
            &&& 0 <= (#[trigger] s.lines[j]).top <= MAX_LENGTH
            &&& -(MAX_LEFT - pieces * MAX_ADVANCE) <= s.lines[j].left <= MAX_LEFT - pieces
                * MAX_ADVANCE
        }
}

/// The stretch of a placeable piece is no larger than what its line has left,
/// and so is the share of each of its word gaps.
pub proof fn lemma_spacing_bounds(g: Group)
    requires
        g.placeable(),
    ensures
        -0x800_0000_0000 <= g.spacing() <= 0x800_0000_0000,
        -0x800_0000_0000 <= g.word_spacing() <= 0x800_0000_0000,
        -MAX_ADVANCE < g.width + g.spacing() < MAX_ADVANCE,
{
    if g.metrics.whitespace > 0 {
        lemma_share_bounded(
            g.metrics.remaining as int,
            g.whitespace as int,
            g.metrics.whitespace as int,
        );
    }
    if g.spaces() > 0 {
        assert(g.spacing() * 1 == g.spacing());
        lemma_share_bounded(g.spacing(), 1, g.spaces() as int);
    }
}

impl<'a> Unformatted<'a> {
    /// Writes the piece to its line, `spacing` wider than it is, and records
    /// its index, if it has one, for the page of the line.
    pub fn write_line(&self, layout: &mut Layout, spacing: i64, word_spacing: i64)
        requires
            old(layout)@.wf(),
            self.line < old(layout)@.lines.len(),
            i64::MIN <= self.width + spacing <= i64::MAX,
            i64::MIN <= old(layout)@.lines[self.line as int].top + self.top_offset <= i64::MAX,
            i64::MIN <= old(layout)@.lines[self.line as int].left + self.width + spacing
                <= i64::MAX,
        ensures
            final(layout)@ == indexed(old(layout)@, self@).write_line(
                self.line as int,
                self.text@,
                self.properties.style,
                (self.width + spacing) as i64,
                word_spacing,
                self.top_offset as int,
            ),
            final(layout)@.wf(),
    {
        match self.properties.action {
            Some(Action::Index(index)) => layout.add_index(index, self.line),
            None => (),
        }
        layout.write_line(
            self.line,
            string_of(self.text),
            self.properties.style,
            self.width + spacing,
            word_spacing,
            self.top_offset,
        );
    }

    /// The stretch of the piece.
    fn spacing(&self) -> (r: i64)
        requires
            self@.placeable(),
        ensures
            r == self@.spacing(),
    {
        proof {
            lemma_spacing_bounds(self@);
        }
        if self.metrics.whitespace > 0 {
            mul_div(self.metrics.remaining, self.whitespace, self.metrics.whitespace)
        } else {
            0
        }
    }

    /// The share of each word gap in a stretch of `spacing`.
    fn word_spacing(&self, spacing: i64) -> (r: i64)
        requires
            self@.placeable(),
            spacing == self@.spacing(),
        ensures
            r == self@.word_spacing(),
    {
        proof {
            lemma_spacing_bounds(self@);
        }
        let count: usize = spaces(self.text);
        if count == 0 {
            0
        } else {
            let share: i128 = floor_div(spacing as i128, count as i128);
            share as i64
        }
    }
}

/// Writes the pieces in order, stretched or as they are.
fn place(layout: &mut Layout, unformatted: &[Unformatted], justified: bool)
    requires
        old(layout)@.wf(),
        unformatted@.len() <= MAX_RUNS,
        room(old(layout)@, unformatted@.len() as int),
        forall|i: int|
            0 <= i < unformatted@.len() ==> (#[trigger] unformatted@[i])@.placeable()
                && unformatted@[i].line < old(layout)@.lines.len(),
    ensures
        final(layout)@ == written(old(layout)@, views(unformatted@), justified),
        final(layout)@.wf(),
        room(final(layout)@, 0),
        final(layout)@.lines.len() == old(layout)@.lines.len(),
{
    let n: usize = unformatted.len();
    let mut i: usize = 0;
    proof {
        assert(views(unformatted@).subrange(0, 0) =~= Seq::<Group>::empty());
    }
    while i < n
        invariant
            n == unformatted@.len(),
            n <= MAX_RUNS,
            i <= n,
            layout@.wf(),
            layout@.lines.len() == old(layout)@.lines.len(),
            room(layout@, n - i),
            layout@ == written(old(layout)@, views(unformatted@).subrange(0, i as int), justified),
            forall|k: int|
                0 <= k < unformatted@.len() ==> (#[trigger] unformatted@[k])@.placeable()
                    && unformatted@[k].line < old(layout)@.lines.len(),
        decreases n - i,
    {
        let words = &unformatted[i];
        let ghost before = layout@;
        proof {
            lemma_spacing_bounds(words@);
            assert(words@.placeable());
            let line = before.lines[words.line as int];
            assert(-(MAX_LEFT - (n - i) * MAX_ADVANCE) <= line.left <= MAX_LEFT - (n - i)
                * MAX_ADVANCE);
            assert(0 <= (n - i) * MAX_ADVANCE <= 0x1_0000 * MAX_ADVANCE) by (nonlinear_arith)
                requires
                    0 <= n - i <= 0x1_0000,
                    MAX_ADVANCE == 0x1000_0000_0000,
            ;
        }
        let spacing: i64 = if justified {
            words.spacing()
        } else {
            0
        };
        let word_spacing: i64 = if justified {
            words.word_spacing(spacing)
        } else {
            0
        };
        words.write_line(layout, spacing, word_spacing);
        proof {
            let done = views(unformatted@).subrange(0, i + 1);
            assert(done.drop_last() =~= views(unformatted@).subrange(0, i as int));
            assert(done.last() == words@);
            assert(layout@ == placed(before, words@, justified));
            assert((n - i) * MAX_ADVANCE == (n - i - 1) * MAX_ADVANCE + MAX_ADVANCE)
                by (nonlinear_arith);
            assert forall|j: int| 0 <= j < layout@.lines.len() implies {
                &&& 0 <= (#[trigger] layout@.lines[j]).top <= MAX_LENGTH
                &&& -(MAX_LEFT - (n - i - 1) * MAX_ADVANCE) <= layout@.lines[j].left <= MAX_LEFT
                    - (n - i - 1) * MAX_ADVANCE
            } by {
                assert(0 <= before.lines[j].top <= MAX_LENGTH);
                assert(indexed(before, words@).lines == before.lines);
            }
        }
        i += 1;
    }
    proof {
        assert(views(unformatted@).subrange(0, n as int) =~= views(unformatted@));
    }
}

/// Writes the pieces in order, each wider by its share of what its line has
/// left, so that the white space of a line fills the line.
pub fn justify(layout: &mut Layout, unformatted: &[Unformatted])
    requires
        old(layout)@.wf(),
        unformatted@.len() <= MAX_RUNS,
        room(old(layout)@, unformatted@.len() as int),
        forall|i: int|
            0 <= i < unformatted@.len() ==> (#[trigger] unformatted@[i])@.placeable()
                && unformatted@[i].line < old(layout)@.lines.len(),
    ensures
        final(layout)@ == written(old(layout)@, views(unformatted@), true),
        final(layout)@.wf(),
        room(final(layout)@, 0),
        final(layout)@.lines.len() == old(layout)@.lines.len(),
{
    place(layout, unformatted, true)
}

/// Writes the pieces in order, as wide as they are.
pub fn left(layout: &mut Layout, unformatted: &[Unformatted])
    requires
        old(layout)@.wf(),
        unformatted@.len() <= MAX_RUNS,
        room(old(layout)@, unformatted@.len() as int),
        forall|i: int|
            0 <= i < unformatted@.len() ==> (#[trigger] unformatted@[i])@.placeable()
                && unformatted@[i].line < old(layout)@.lines.len(),
    ensures
        final(layout)@ == written(old(layout)@, views(unformatted@), false),
        final(layout)@.wf(),
        room(final(layout)@, 0),
        final(layout)@.lines.len() == old(layout)@.lines.len(),
{
    place(layout, unformatted, false)
}

/// Behind the last of the runs that follow run `k` with its properties,
/// among runs up to `end`.
pub open spec fn group_end(inline: Seq<Inline>, k: int, end: int) -> int
    decreases end - k,
{
    if k + 1 < end && inline[k + 1].properties == inline[k].properties {
        group_end(inline, k + 1, end)
    } else {
        k + 1
    }
}

/// The piece made of runs `start` to `end` of line `line`.
pub open spec fn group(
    text: Seq<char>,
    inline: Seq<Inline>,
    line: usize,
    metrics: LineMetrics,
    start: int,
    end: int,
) -> Group {
    Group {
        line,
        text: text.subrange(inline[start].range.start as int, inline[end - 1].range.end as int),
        properties: inline[start].properties,
        width: total_width(inline, start, end) as i64,
        top_offset: inline[start].top_offset,
        whitespace: whitespace_width(inline, start, end) as i64,
        metrics,
    }
}

/// The pieces of runs `start` to `end` of line `line`: a new piece begins
/// wherever the properties change.
pub open spec fn line_groups(
    text: Seq<char>,
    inline: Seq<Inline>,
    line: usize,
    metrics: LineMetrics,
    start: int,
    end: int,
) -> Seq<Group>
    decreases end - start,
{
    if start >= end {
        Seq::empty()
    } else {
        let next = group_end(inline, start, end);
        if start < next <= end {
            seq![group(text, inline, line, metrics, start, next)] + line_groups(
                text,
                inline,
                line,
                metrics,
                next,
                end,
            )
        } else {
            Seq::empty()
        }
    }
}

/// The pieces of the first `count` lines, line after line.
pub open spec fn groups(text: Seq<char>, inline: Seq<Inline>, lines: Seq<Words>, count: int) -> Seq<
    Group,
>
    decreases count,
{
    if count <= 0 {
        Seq::empty()
    } else {
        groups(text, inline, lines, count - 1) + line_groups(
            text,
            inline,
            (count - 1) as usize,
            lines[count - 1].metrics(),
            lines[count - 1].range.start as int,
            lines[count - 1].range.end as int,
        )
    }
}

/// Every run lies within the text, and no run ends before an earlier one
/// begins.
pub open spec fn spanning(inline: Seq<Inline>, len: int) -> bool {
    forall|j: int, k: int|
        0 <= j <= k < inline.len() ==> (#[trigger] inline[j]).range.start <= (#[trigger] inline[k]).range.end
            <= len
}

/// Where a piece ends: behind its first run, not behind the line, and all
/// its runs have the properties of the first.
pub proof fn lemma_group_end(inline: Seq<Inline>, k: int, end: int)
    requires
        k < end,
    ensures
        k < group_end(inline, k, end) <= end,
        forall|j: int| k <= j < group_end(inline, k, end) ==> (#[trigger] inline[j]).properties == inline[k].properties,
        group_end(inline, k, end) < end ==> inline[group_end(inline, k, end)].properties
            != inline[group_end(inline, k, end) - 1].properties,
    decreases end - k,
{
    if k + 1 < end && inline[k + 1].properties == inline[k].properties {
        lemma_group_end(inline, k + 1, end);
    }
}

/// The white space of a part of a line is no wider than that of the line.
pub proof fn lemma_whitespace_part(inline: Seq<Inline>, start: int, a: int, b: int, end: int)
    requires
        measurable(inline),
        0 <= start <= a <= b <= end <= inline.len(),
    ensures
        0 <= whitespace_width(inline, a, b) <= whitespace_width(inline, start, end),
        0 <= total_width(inline, a, b) <= total_width(inline, start, end),
{
    lemma_width_split(inline, start, a, end);
    lemma_width_split(inline, a, b, end);
    lemma_width_bounds(inline, start, a);
    lemma_width_bounds(inline, a, b);
    lemma_width_bounds(inline, b, end);
}

/// The top offset of every run is small.
pub open spec fn offsets_bounded(inline: Seq<Inline>) -> bool {
    forall|k: int|
        0 <= k < inline.len() ==> -2 * MAX_LENGTH <= (#[trigger] inline[k]).top_offset <= 2
            * MAX_LENGTH
}

/// The pieces of a part of a line are placeable, lie on that line, and their
/// widths and white space add up to those of the part.
pub proof fn lemma_line_groups(
    text: Seq<char>,
    inline: Seq<Inline>,
    line: usize,
    words: Words,
    start: int,
)
    requires
        measurable(inline),
        offsets_bounded(inline),
        words.wf(),
        words.inline@ == inline,
        words.range.start <= start <= words.range.end,
    ensures
        forall|i: int|
            0 <= i < line_groups(
                text,
                inline,
                line,
                words.metrics(),
                start,
                words.range.end as int,
            ).len() ==> {
                let g = #[trigger] line_groups(
                    text,
                    inline,
                    line,
                    words.metrics(),
                    start,
                    words.range.end as int,
                )[i];
                &&& g.placeable()
                &&& g.line == line
                &&& g.metrics == words.metrics()
            },
        words.metrics().remaining == words.available - total_width(
            inline,
            words.range.start as int,
            words.range.end as int,
        ),
        words.metrics().whitespace == whitespace_width(
            inline,
            words.range.start as int,
            words.range.end as int,
        ),
    decreases words.range.end - start,
{
    let end = words.range.end as int;
    let metrics = words.metrics();
    lemma_width_bounds(inline, words.range.start as int, end);
    if start < end {
        lemma_group_end(inline, start, end);
        let next = group_end(inline, start, end);
        lemma_line_groups(text, inline, line, words, next);
        lemma_whitespace_part(inline, words.range.start as int, start, next, end);
        let first = group(text, inline, line, metrics, start, next);
        let rest = line_groups(text, inline, line, metrics, next, end);
        let all = line_groups(text, inline, line, metrics, start, end);
        assert(all == seq![first] + rest);
        assert(first.placeable());
        assert forall|i: int| 0 <= i < all.len() implies {
            let g = #[trigger] all[i];
            &&& g.placeable()
            &&& g.line == line
            &&& g.metrics == metrics
        } by {
            if i > 0 {
                assert(all[i] == rest[i - 1]);
            }
        }
    }
}

/// The pieces of lines are placeable, lie on their lines, and come line
/// after line.
pub proof fn lemma_groups(text: Seq<char>, inline: Seq<Inline>, lines: Seq<Words>, count: int)
    requires
        measurable(inline),
        offsets_bounded(inline),
        0 <= count <= lines.len() <= MAX_RUNS,
        forall|l: int| 0 <= l < lines.len() ==> (#[trigger] lines[l]).wf() && lines[l].inline@ == inline,
    ensures
        forall|i: int|
            0 <= i < groups(text, inline, lines, count).len() ==> {
                let g = #[trigger] groups(text, inline, lines, count)[i];
                &&& g.placeable()
                &&& g.line < count
                &&& g.metrics == lines[g.line as int].metrics()
            },
        forall|i: int, j: int|
            0 <= i <= j < groups(text, inline, lines, count).len() ==> (#[trigger] groups(
                text,
                inline,
                lines,
                count,
            )[i]).line <= (#[trigger] groups(text, inline, lines, count)[j]).line,
        groups(text, inline, lines, count).len() <= total_runs(lines, count),
    decreases count,
{
    if count > 0 {
        lemma_groups(text, inline, lines, count - 1);
        let words = lines[count - 1];
        assert(words.wf() && words.inline@ == inline);
        lemma_line_groups(text, inline, (count - 1) as usize, words, words.range.start as int);
        lemma_line_groups_len(
            text,
            inline,
            (count - 1) as usize,
            words.metrics(),
            words.range.start as int,
            words.range.end as int,
        );
        let before = groups(text, inline, lines, count - 1);
        let here = line_groups(
            text,
            inline,
            (count - 1) as usize,
            words.metrics(),
            words.range.start as int,
            words.range.end as int,
        );
        let all = groups(text, inline, lines, count);
        assert(all == before + here);
        assert forall|i: int| 0 <= i < all.len() implies {
            let g = #[trigger] all[i];
            &&& g.placeable()
            &&& g.line < count
            &&& g.metrics == lines[g.line as int].metrics()
        } by {
            if i < before.len() {
                assert(all[i] == before[i]);
            } else {
                assert(all[i] == here[i - before.len()]);
            }
        }
        assert forall|i: int, j: int| 0 <= i <= j < all.len() implies (#[trigger] all[i]).line <= (
        #[trigger] all[j]).line by {
            if j < before.len() {
                assert(all[i] == before[i]);
                assert(all[j] == before[j]);
            } else {
                assert(all[j] == here[j - before.len()]);
                if i < before.len() {
                    assert(all[i] == before[i]);
                } else {
                    assert(all[i] == here[i - before.len()]);
                }
            }
        }
    }
}

/// The number of runs in the first `count` lines.
pub open spec fn total_runs(lines: Seq<Words>, count: int) -> int
    decreases count,
{
    if count <= 0 {
        0
    } else {
        total_runs(lines, count - 1) + (lines[count - 1].range.end - lines[count - 1].range.start)
    }
}

/// A part of a line has no more pieces than runs.
pub proof fn lemma_line_groups_len(
    text: Seq<char>,
    inline: Seq<Inline>,
    line: usize,
    metrics: LineMetrics,
    start: int,
    end: int,
)
    requires
        start <= end,
    ensures
        line_groups(text, inline, line, metrics, start, end).len() <= end - start,
    decreases end - start,
{
    if start < end {
        lemma_group_end(inline, start, end);
        lemma_line_groups_len(text, inline, line, metrics, group_end(inline, start, end), end);
    }
}

/// Writing pieces leaves the queue of lines as long as it was, the tops and
/// pages of the lines, the size of the pages and the body as they were, each
/// page at least as long as it was, and uses up room for as many pieces.
pub proof fn lemma_written(s: State, groups: Seq<Group>, justified: bool, spare: int)
    requires
        s.wf(),
        0 <= spare,
        groups.len() + spare <= MAX_RUNS,
        room(s, groups.len() + spare),
        forall|i: int| 0 <= i < groups.len() ==> (#[trigger] groups[i]).placeable() && groups[i].line < s.lines.len(),
    ensures
        written(s, groups, justified).wf(),
        room(written(s, groups, justified), spare),
        written(s, groups, justified).lines.len() == s.lines.len(),
        forall|j: int|
            0 <= j < s.lines.len() ==> {
                &&& (#[trigger] written(s, groups, justified).lines[j]).top == s.lines[j].top
                &&& written(s, groups, justified).lines[j].page == s.lines[j].page
                &&& written(s, groups, justified).lines[j].locked == s.lines[j].locked
                &&& written(s, groups, justified).lines[j].width == s.lines[j].width
            },
        written(s, groups, justified).pages.len() == s.pages.len(),
        written(s, groups, justified).body == s.body,
        written(s, groups, justified).width == s.width,
        written(s, groups, justified).height == s.height,
        written(s, groups, justified).line_height == s.line_height,
    decreases groups.len(),
{
    if groups.len() > 0 {
        let head = groups.drop_last();
        let g = groups.last();
        assert((groups.len() + spare) * MAX_ADVANCE == (head.len() + spare + 1) * MAX_ADVANCE)
            by (nonlinear_arith)
            requires
                groups.len() == head.len() + 1,
        ;
        assert forall|i: int| 0 <= i < head.len() implies (#[trigger] head[i]).placeable()
            && head[i].line < s.lines.len() by {
            assert(head[i] == groups[i]);
        }
        lemma_written(s, head, justified, spare + 1);
        let before = written(s, head, justified);
        let after = placed(before, g, justified);
        assert(after == written(s, groups, justified));
        lemma_spacing_bounds(g);
        let mid = indexed(before, g);
        match g.properties.action {
            Some(Action::Index(index)) => {
                crate::layout::lemma_record(before, index, before.lines[g.line as int].page);
            },
            None => {},
        }
        assert(mid.lines == before.lines);
        assert(mid.pages == before.pages);
        assert((spare + 1) * MAX_ADVANCE == spare * MAX_ADVANCE + MAX_ADVANCE) by (nonlinear_arith);
        assert(0 <= spare * MAX_ADVANCE <= 0x1_0000 * MAX_ADVANCE) by (nonlinear_arith)
            requires
                0 <= spare <= 0x1_0000,
                MAX_ADVANCE == 0x1000_0000_0000,
        ;
        assert(before.lines[g.line as int].top == s.lines[g.line as int].top);
        assert forall|j: int| 0 <= j < after.lines.len() implies {
            &&& 0 <= (#[trigger] after.lines[j]).top <= MAX_LENGTH
            &&& -(MAX_LEFT - spare * MAX_ADVANCE) <= after.lines[j].left <= MAX_LEFT - spare
                * MAX_ADVANCE
        } by {
            assert(0 <= before.lines[j].top <= MAX_LENGTH);
        }
        assert forall|j: int| 0 <= j < s.lines.len() implies {
            &&& (#[trigger] after.lines[j]).top == s.lines[j].top
            &&& after.lines[j].page == s.lines[j].page
            &&& after.lines[j].locked == s.lines[j].locked
            &&& after.lines[j].width == s.lines[j].width
        } by {
            assert(before.lines[j].top == s.lines[j].top);
        }
        assert forall|i: int| 0 <= i < after.lines.len() implies (#[trigger] after.lines[i]).page
            < after.pages.len() by {
            assert(before.lines[i].page < before.pages.len());
        }
    }
}

/// Gathers the runs of each line into pieces.
pub fn get_unformatted<'a, 'b>(
    text: &'a Vec<char>,
    inline: &'a Vec<Inline>,
    lines: Vec<Words<'b>>,
) -> (unformatted: Vec<Unformatted<'a>>)
    requires
        measurable(inline@),
        spanning(inline@, text@.len() as int),
        forall|l: int|
            0 <= l < lines@.len() ==> (#[trigger] lines@[l]).wf() && lines@[l].inline@ == inline@,
    ensures
        views(unformatted@) == groups(text@, inline@, lines@, lines@.len() as int),
{
    let mut unformatted: Vec<Unformatted<'a>> = Vec::new();
    let mut line: usize = 0;
    proof {
        assert(views(unformatted@) =~= groups(text@, inline@, lines@, 0));
    }
    while line < lines.len()
        invariant
            line <= lines@.len(),
            measurable(inline@),
            spanning(inline@, text@.len() as int),
            forall|l: int|
                0 <= l < lines@.len() ==> (#[trigger] lines@[l]).wf() && lines@[l].inline@
                    == inline@,
            views(unformatted@) == groups(text@, inline@, lines@, line as int),
        decreases lines@.len() - line,
    {
        let words = &lines[line];
        assert(words.wf() && words.inline@ == inline@);
        let metrics = words.get_metrics();
        let end: usize = words.range.end;
        let mut start: usize = words.range.start;
        let ghost done = views(unformatted@);
        proof {
            assert(done + Seq::<Group>::empty() =~= done);
        }
        while start < end
            invariant
                line < lines@.len(),
                measurable(inline@),
                spanning(inline@, text@.len() as int),
                words.range.start <= start <= end <= inline@.len(),
                end == words.range.end,
                views(unformatted@) + line_groups(
                    text@,
                    inline@,
                    line,
                    metrics,
                    start as int,
                    end as int,
                ) == done + line_groups(
                    text@,
                    inline@,
                    line,
                    metrics,
                    words.range.start as int,
                    end as int,
                ),
            decreases end - start,
        {
            let first = &inline[start];
            let mut next: usize = start + 1;
            let mut width: i64 = first.width;
            let mut whitespace: i64 = if first.is_whitespace {
                first.width
            } else {
                0
            };
            proof {
                lemma_group_end(inline@, start as int, end as int);
                assert(total_width(inline@, start as int, start as int) == 0);
                assert(whitespace_width(inline@, start as int, start as int) == 0);
            }
            while next < end && inline[next].properties.same(&first.properties)
                invariant
                    measurable(inline@),
                    start < next <= end <= inline@.len(),
                    *first == inline@[start as int],
                    inline@[next - 1].properties == first.properties,
                    group_end(inline@, next - 1, end as int) == group_end(
                        inline@,
                        start as int,
                        end as int,
                    ),
                    width == total_width(inline@, start as int, next as int),
                    whitespace == whitespace_width(inline@, start as int, next as int),
                decreases end - next,
            {
                proof {
                    lemma_width_bounds(inline@, start as int, next as int);
                    lemma_width_bounds(inline@, start as int, next + 1);
                }
                width += inline[next].width;
                if inline[next].is_whitespace {
                    whitespace += inline[next].width;
                }
                next += 1;
            }
            proof {
                assert(inline@[start as int].range.start <= inline@[next - 1].range.end
                    <= text@.len());
                lemma_width_bounds(inline@, start as int, next as int);
            }
            let piece = Unformatted {
                line,
                text: slice_subrange(
                    text.as_slice(),
                    inline[start].range.start,
                    inline[next - 1].range.end,
                ),
                properties: first.properties,
                width,
                top_offset: first.top_offset,
                whitespace,
                metrics,
            };
            proof {
                let rest = line_groups(text@, inline@, line, metrics, next as int, end as int);
                let here = line_groups(text@, inline@, line, metrics, start as int, end as int);
                assert(piece@ == group(text@, inline@, line, metrics, start as int, next as int));
                assert(here == seq![piece@] + rest);
                assert(views(unformatted@.push(piece)) =~= views(unformatted@).push(piece@));
                assert(views(unformatted@).push(piece@) + rest =~= views(unformatted@) + here);
            }
            unformatted.push(piece);
            start = next;
        }
        proof {
            assert(line_groups(text@, inline@, line, metrics, end as int, end as int)
                =~= Seq::<Group>::empty());
            assert(views(unformatted@) + Seq::<Group>::empty() =~= views(unformatted@));
        }
        line += 1;
    }
    unformatted
}

} // verus!
