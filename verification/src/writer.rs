//! The line breaker: fills the lines of the layout with runs, first fit, and
//! trims the white space at the ends of each line.

use vstd::prelude::*;
use crate::inline::Inline;
use crate::layout::{lemma_extend_to, Layout, Line, State};
use crate::style::Range;
use crate::units::{MAX_LENGTH, MAX_LINE_EXTENT, MAX_RUNS};

verus! {

/// The indent of the first line, the indent of the others, and by how much
/// every line is made narrower.
#[derive(Clone, Copy, Debug, PartialEq, Eq, Structural)]
pub struct LineFormat {
    pub head: i64,
    pub tail: i64,
    pub shrink: i64,
}

impl LineFormat {
    pub fn new(head: i64, tail: i64, shrink: i64) -> (r: Self)
        ensures
            r == (LineFormat { head, tail, shrink }),
    {
        LineFormat { head, tail, shrink }
    }

    /// The three lengths may be handed to the engine.
    pub open spec fn valid(self) -> bool {
        &&& 0 <= self.head <= MAX_LENGTH
        &&& 0 <= self.tail <= MAX_LENGTH
        &&& 0 <= self.shrink <= MAX_LENGTH
    }

    /// Tests `valid`.
    pub fn is_valid(&self) -> (r: bool)
        ensures
            r == self.valid(),
    {
        0 <= self.head && self.head <= MAX_LENGTH && 0 <= self.tail && self.tail <= MAX_LENGTH && 0
            <= self.shrink && self.shrink <= MAX_LENGTH
    }

    /// The indent of line `line`.
    pub open spec fn indent(self, line: int) -> i64 {
        if line == 0 {
            self.head
        } else {
            self.tail
        }
    }
}

impl Default for LineFormat {
    fn default() -> (r: Self)
        ensures
            r == (LineFormat { head: 0, tail: 0, shrink: 0 }),
    {
        LineFormat { head: 0, tail: 0, shrink: 0 }
    }
}

/// What a line has left once its runs are placed, and how much of what is
/// placed is white space.
#[derive(Clone, Copy, Debug, PartialEq, Eq, Structural)]
pub struct LineMetrics {
    pub remaining: i64,
    pub whitespace: i64,
}

/// The runs of one line: a range of runs and the width that the line had for
/// them.
#[derive(Clone, Copy, Debug)]
pub struct Words<'a> {
    pub text: &'a Vec<char>,
    pub inline: &'a Vec<Inline>,
    pub range: Range,
    pub available: i64,
}

/// The sum of the widths of runs `start` to `end`.
pub open spec fn total_width(inline: Seq<Inline>, start: int, end: int) -> int
    decreases end - start,
{
    if start >= end {
        0
    } else {
        total_width(inline, start, end - 1) + inline[end - 1].width
    }
}

/// The sum of the widths of the white-space runs among runs `start` to `end`.
pub open spec fn whitespace_width(inline: Seq<Inline>, start: int, end: int) -> int
    decreases end - start,
{
    if start >= end {
        0
    } else {
        whitespace_width(inline, start, end - 1) + if inline[end - 1].is_whitespace {
            inline[end - 1].width as int
        } else {
            0
        }
    }
}

/// There are no more runs than a block may hold, and the width of each is a
/// length that may be handed in.
pub open spec fn measurable(inline: Seq<Inline>) -> bool {
    &&& inline.len() <= MAX_RUNS
    &&& forall|k: int| 0 <= k < inline.len() ==> 0 <= (#[trigger] inline[k]).width <= MAX_LENGTH
}

/// The widths of measurable runs add up to no more than their number times
/// the largest length, and their white space to no more than the whole.
pub proof fn lemma_width_bounds(inline: Seq<Inline>, start: int, end: int)
    requires
        measurable(inline),
        0 <= start <= end <= inline.len(),
    ensures
        0 <= whitespace_width(inline, start, end) <= total_width(inline, start, end) <= (end
            - start) * MAX_LENGTH,
        total_width(inline, start, end) <= 0x400_0000_0000,
    decreases end - start,
{
    if start < end {
        lemma_width_bounds(inline, start, end - 1);
        assert(0 <= inline[end - 1].width <= MAX_LENGTH);
        assert((end - start) * MAX_LENGTH == (end - 1 - start) * MAX_LENGTH + MAX_LENGTH)
            by (nonlinear_arith);
    }
    assert((end - start) * MAX_LENGTH <= 0x400_0000_0000) by (nonlinear_arith)
        requires
            0 <= end - start <= 0x1_0000,
            MAX_LENGTH == 0x3ff_ffff,
    ;
}

/// Widths add up over adjoining ranges.
pub proof fn lemma_width_split(inline: Seq<Inline>, start: int, mid: int, end: int)
    requires
        start <= mid <= end,
    ensures
        total_width(inline, start, end) == total_width(inline, start, mid) + total_width(
            inline,
            mid,
            end,
        ),
        whitespace_width(inline, start, end) == whitespace_width(inline, start, mid)
            + whitespace_width(inline, mid, end),
    decreases end - mid,
{
    if mid < end {
        lemma_width_split(inline, start, mid, end - 1);
    }
}

impl<'a> Words<'a> {
    pub fn new(text: &'a Vec<char>, inline: &'a Vec<Inline>, range: Range, available: i64) -> (r:
        Self)
        ensures
            r.text == text,
            r.inline == inline,
            r.range == range,
            r.available == available,
    {
        Words { text, inline, range, available }
    }

    /// What the line has left, and its white space.
    pub open spec fn metrics(self) -> LineMetrics {
        LineMetrics {
            remaining: (self.available - total_width(
                self.inline@,
                self.range.start as int,
                self.range.end as int,
            )) as i64,
            whitespace: whitespace_width(
                self.inline@,
                self.range.start as int,
                self.range.end as int,
            ) as i64,
        }
    }

    /// The range lies within the runs, and the line is not wider than a line
    /// can be.
    pub open spec fn wf(self) -> bool {
        &&& self.range.start <= self.range.end <= self.inline@.len()
        &&& -2 * MAX_LINE_EXTENT <= self.available <= 2 * MAX_LINE_EXTENT
    }

    /// Measures what the line has left, and its white space.
    pub fn get_metrics(&self) -> (r: LineMetrics)
        requires
            self.wf(),
            measurable(self.inline@),
        ensures
            r == self.metrics(),
            r.remaining == self.available - total_width(
                self.inline@,
                self.range.start as int,
                self.range.end as int,
            ),
            r.whitespace == whitespace_width(
                self.inline@,
                self.range.start as int,
                self.range.end as int,
            ),
    {
        let mut total: i64 = 0;
        let mut whitespace: i64 = 0;
        let mut k: usize = self.range.start;
        while k < self.range.end
            invariant
                self.wf(),
                measurable(self.inline@),
                self.range.start <= k <= self.range.end,
                total == total_width(self.inline@, self.range.start as int, k as int),
                whitespace == whitespace_width(self.inline@, self.range.start as int, k as int),
            decreases self.range.end - k,
        {
            proof {
                lemma_width_bounds(self.inline@, self.range.start as int, k as int);
                lemma_width_bounds(self.inline@, self.range.start as int, k + 1);
            }
            total += self.inline[k].width;
            if self.inline[k].is_whitespace {
                whitespace += self.inline[k].width;
            }
            k += 1;
        }
        proof {
            lemma_width_bounds(self.inline@, self.range.start as int, self.range.end as int);
        }
        LineMetrics { remaining: self.available - total, whitespace }
    }
}

/// Line `line` of the layout taken for text: queued if it was not, and
/// indented by `indent` and made narrower by `shrink` unless it is locked.
pub open spec fn taken(s: State, line: int, indent: i64, shrink: i64) -> State {
    let e = s.extend_to((line + 1) as nat);
    e.with_line(line, e.lines[line].mutated(indent as int, -indent - shrink))
}

/// The layout after its first `count` lines were taken in turn.
pub open spec fn indented(s: State, format: LineFormat, count: nat) -> State
    decreases count,
{
    if count == 0 {
        s
    } else {
        taken(indented(s, format, (count - 1) as nat), count - 1, format.indent(count - 1), format.shrink)
    }
}

/// Every queued line from `from` on lies within the extent that a line may
/// have when a block is laid out.
pub open spec fn lines_bounded(s: State, from: int) -> bool {
    forall|j: int| from <= j < s.lines.len() ==> (#[trigger] s.lines[j]).bounded()
}

impl Line {
    /// The line lies within the extent that a line may have when a block is
    /// laid out.
    pub open spec fn bounded(self) -> bool {
        &&& -MAX_LINE_EXTENT <= self.left <= MAX_LINE_EXTENT
        &&& -MAX_LINE_EXTENT <= self.width <= MAX_LINE_EXTENT
        &&& 0 <= self.top <= MAX_LENGTH
    }

    /// The line lies within the extent that a line may have once it was
    /// indented.
    pub open spec fn taken_bounded(self) -> bool {
        &&& -MAX_LINE_EXTENT <= self.left <= MAX_LINE_EXTENT + MAX_LENGTH
        &&& -MAX_LINE_EXTENT - 2 * MAX_LENGTH <= self.width <= MAX_LINE_EXTENT
        &&& 0 <= self.top <= MAX_LENGTH
    }
}

/// Taking a line keeps the layout well formed; it leaves the other lines that
/// were queued, the pages that were there and the indices as they were; the
/// line taken is within bounds; and lines behind it are queued only if they
/// were before.
pub proof fn lemma_taken(s: State, line: int, indent: i64, shrink: i64)
    requires
        s.wf(),
        0 <= line,
        lines_bounded(s, line),
        0 <= indent <= MAX_LENGTH,
        0 <= shrink <= MAX_LENGTH,
    ensures
        taken(s, line, indent, shrink).wf(),
        taken(s, line, indent, shrink).lines.len() == if s.lines.len() > line {
            s.lines.len()
        } else {
            (line + 1) as nat
        },
        forall|j: int|
            0 <= j < s.lines.len() && j != line ==> #[trigger] taken(s, line, indent, shrink).lines[j]
                == s.lines[j],
        taken(s, line, indent, shrink).lines[line].taken_bounded(),
        taken(s, line, indent, shrink).lines[line].page == s.extend_to((line + 1) as nat).lines[line].page,
        lines_bounded(taken(s, line, indent, shrink), line + 1),
        taken(s, line, indent, shrink).pages.len() >= s.pages.len(),
        forall|p: int|
            0 <= p < s.pages.len() ==> #[trigger] taken(s, line, indent, shrink).pages[p]
                == s.pages[p],
        forall|p: int|
            s.pages.len() <= p < taken(s, line, indent, shrink).pages.len() ==> #[trigger] taken(
                s,
                line,
                indent,
                shrink,
            ).pages[p] == Seq::<crate::layout::Placement>::empty(),
        taken(s, line, indent, shrink).indices == s.indices,
        taken(s, line, indent, shrink).width == s.width,
        taken(s, line, indent, shrink).height == s.height,
        taken(s, line, indent, shrink).line_height == s.line_height,
{
    let e = s.extend_to((line + 1) as nat);
    lemma_extend_to(s, (line + 1) as nat);
    let t = taken(s, line, indent, shrink);
    if line < s.lines.len() {
        assert(e.lines[line] == s.lines[line]);
        assert(s.lines[line].bounded());
    } else {
        assert(e.lines[line].fresh(e));
    }
    assert forall|j: int| line + 1 <= j < t.lines.len() implies (#[trigger] t.lines[j]).bounded() by {
        assert(t.lines[j] == s.lines[j]);
    }
    assert forall|i: int| 0 <= i < t.lines.len() implies (#[trigger] t.lines[i]).page
        < t.pages.len() by {
        if i != line {
            assert(t.lines[i] == e.lines[i]);
        }
        assert(e.lines[i].page < e.pages.len());
    }
}

/// Taking the first `count` lines in turn keeps the layout well formed,
/// leaves the lines behind them as they were, and leaves the pages that were
/// there and the indices as they were; each line taken is within bounds.
pub proof fn lemma_indented(s: State, format: LineFormat, count: nat)
    requires
        s.wf(),
        lines_bounded(s, 0),
        format.valid(),
    ensures
        indented(s, format, count).wf(),
        indented(s, format, count).lines.len() == if s.lines.len() > count {
            s.lines.len()
        } else {
            count
        },
        forall|j: int|
            0 <= j < count ==> (#[trigger] indented(s, format, count).lines[j]).taken_bounded(),
        forall|j: int|
            count <= j < s.lines.len() ==> #[trigger] indented(s, format, count).lines[j]
                == s.lines[j],
        lines_bounded(indented(s, format, count), count as int),
        indented(s, format, count).pages.len() >= s.pages.len(),
        forall|p: int|
            0 <= p < s.pages.len() ==> #[trigger] indented(s, format, count).pages[p] == s.pages[p],
        forall|p: int|
            s.pages.len() <= p < indented(s, format, count).pages.len() ==> #[trigger] indented(
                s,
                format,
                count,
            ).pages[p] == Seq::<crate::layout::Placement>::empty(),
        indented(s, format, count).indices == s.indices,
        indented(s, format, count).width == s.width,
        indented(s, format, count).height == s.height,
        indented(s, format, count).line_height == s.line_height,
    decreases count,
{
    if count > 0 {
        let before = indented(s, format, (count - 1) as nat);
        lemma_indented(s, format, (count - 1) as nat);
        lemma_taken(before, count - 1, format.indent(count - 1), format.shrink);
        let after = indented(s, format, count);
        assert(after == taken(before, count - 1, format.indent(count - 1), format.shrink));
        assert forall|j: int| 0 <= j < count implies (#[trigger] after.lines[j]).taken_bounded() by {
            if j < count - 1 {
                assert(after.lines[j] == before.lines[j]);
            }
        }
        assert forall|j: int| count <= j < s.lines.len() implies #[trigger] after.lines[j]
            == s.lines[j] by {
            assert(after.lines[j] == before.lines[j]);
        }
        assert forall|p: int| 0 <= p < s.pages.len() implies #[trigger] after.pages[p]
            == s.pages[p] by {
            assert(after.pages[p] == before.pages[p]);
        }
        assert forall|p: int| s.pages.len() <= p < after.pages.len() implies #[trigger] after.pages[p]
            == Seq::<crate::layout::Placement>::empty() by {
            if p < before.pages.len() {
                assert(after.pages[p] == before.pages[p]);
            }
        }
    }
}

/// The first `count` lines cover runs `0` to `end`: none is empty, each ends
/// where the next begins, each has the width of its line of the layout, each
/// run but the first of a line fitted when it was placed, and the run that
/// follows a line did not fit on it.
pub open spec fn broken(inline: Seq<Inline>, lines: Seq<Words>, s: State, end: int) -> bool {
    &&& lines.len() > 0
    &&& lines.len() <= s.lines.len()
    &&& lines[0].range.start == 0
    &&& lines.last().range.end == end
    &&& forall|l: int| 0 <= l < lines.len() ==> #[trigger] line_broken(inline, lines, s, l)
}

/// What `broken` says of line `l`.
pub open spec fn line_broken(inline: Seq<Inline>, lines: Seq<Words>, s: State, l: int) -> bool {
    &&& lines[l].range.start < lines[l].range.end <= inline.len()
    &&& lines[l].available == s.lines[l].width
    &&& fitted(inline, lines[l].range.start as int, lines[l].range.end as int, lines[l].available as int)
    &&& l + 1 < lines.len() ==> {
        &&& lines[l + 1].range.start == lines[l].range.end
        &&& total_width(inline, lines[l].range.start as int, lines[l].range.end as int)
            + inline[lines[l].range.end as int].width > lines[l].available
    }
}

/// Each of runs `start + 1` to `end` fitted on the line after the runs from
/// `start` on that came before it.
pub open spec fn fitted(inline: Seq<Inline>, start: int, end: int, available: int) -> bool {
    forall|k: int|
        start < k < end ==> #[trigger] total_width(inline, start, k) + inline[k].width <= available
}

/// The breaker.
pub struct Writer<'a> {
    pub text: &'a Vec<char>,
    pub inline: &'a Vec<Inline>,
    pub line_format: LineFormat,
    pub lines: Vec<Words<'a>>,
}

/// Takes line `line` of the layout and returns the width it has for text.
fn get_available(layout: &mut Layout, line: usize, indent: i64, shrink: i64) -> (available: i64)
    requires
        old(layout)@.wf(),
        lines_bounded(old(layout)@, line as int),
        line <= MAX_RUNS,
        0 <= indent <= MAX_LENGTH,
        0 <= shrink <= MAX_LENGTH,
    ensures
        final(layout)@ == taken(old(layout)@, line as int, indent, shrink),
        available == final(layout)@.lines[line as int].width,
{
    proof {
        lemma_extend_to(old(layout)@, (line + 1) as nat);
        let e = old(layout)@.extend_to((line + 1) as nat);
        if line < old(layout)@.lines.len() {
            assert(e.lines[line as int] == old(layout)@.lines[line as int]);
            assert(old(layout)@.lines[line as int].bounded());
        } else {
            assert(e.lines[line as int].fresh(e));
        }
    }
    let entry = layout.get_line(line);
    entry.mutate(indent, -indent - shrink);
    entry.get_width()
}

impl<'a> Writer<'a> {
    /// A breaker for the runs of a block.
    pub fn new(text: &'a Vec<char>, inline: &'a Vec<Inline>, line_format: LineFormat) -> (r: Self)
        ensures
            r.text == text,
            r.inline == inline,
            r.line_format == line_format,
            r.lines@.len() == 0,
    {
        Writer { text, inline, line_format, lines: Vec::new() }
    }

    /// Breaks the runs into lines. The first line of the layout is taken with
    /// the head indent, each further line with the tail indent when the next
    /// run no longer fits on the line before; a run that does not fit on an
    /// empty line is placed on it all the same.
    pub fn write(&mut self, layout: &mut Layout)
        requires
            old(self).lines@.len() == 0,
            old(self).inline@.len() > 0,
            measurable(old(self).inline@),
            old(self).line_format.valid(),
            old(layout)@.wf(),
            lines_bounded(old(layout)@, 0),
        ensures
            final(self).text == old(self).text,
            final(self).inline == old(self).inline,
            final(self).line_format == old(self).line_format,
            final(layout)@ == indented(
                old(layout)@,
                old(self).line_format,
                final(self).lines@.len(),
            ),
            final(layout)@.wf(),
            broken(
                old(self).inline@,
                final(self).lines@,
                final(layout)@,
                old(self).inline@.len() as int,
            ),
            forall|l: int|
                0 <= l < final(self).lines@.len() ==> (#[trigger] final(self).lines@[l]).text
                    == old(self).text && final(self).lines@[l].inline == old(self).inline,
            forall|l: int|
                0 <= l < final(self).lines@.len() ==> (#[trigger] final(layout)@.lines[l]).taken_bounded(),
    {
        let n: usize = self.inline.len();
        let format = self.line_format;
        proof {
            lemma_taken(layout@, 0, format.head, format.shrink);
            assert(indented(layout@, format, 0) == layout@);
        }
        let mut available: i64 = get_available(layout, 0, format.head, format.shrink);
        let mut a: usize = 0;
        let mut b: usize = 0;
        let mut total: i64 = 0;
        while b < n
            invariant
                n == self.inline@.len(),
                n > 0,
                measurable(self.inline@),
                format.valid(),
                self.text == old(self).text,
                self.inline == old(self).inline,
                self.line_format == old(self).line_format,
                format == self.line_format,
                a <= b <= n,
                a == b ==> b == 0,
                self.lines@.len() <= a,
                self.lines@.len() < layout@.lines.len(),
                layout@ == indented(old(layout)@, format, (self.lines@.len() + 1) as nat),
                layout@.wf(),
                lines_bounded(layout@, (self.lines@.len() + 1) as int),
                available == layout@.lines[self.lines@.len() as int].width,
                forall|l: int|
                    0 <= l <= self.lines@.len() ==> (#[trigger] layout@.lines[l]).taken_bounded(),
                total == total_width(self.inline@, a as int, b as int),
                fitted(self.inline@, a as int, b as int, available as int),
                self.lines@.len() == 0 ==> a == 0,
                self.lines@.len() > 0 ==> {
                    &&& self.lines@[0].range.start == 0
                    &&& self.lines@.last().range.end == a
                    &&& total_width(
                        self.inline@,
                        self.lines@.last().range.start as int,
                        self.lines@.last().range.end as int,
                    ) + self.inline@[a as int].width > self.lines@.last().available
                },
                forall|l: int|
                    0 <= l < self.lines@.len() ==> #[trigger] line_broken(
                        self.inline@,
                        self.lines@,
                        layout@,
                        l,
                    ),
                forall|l: int|
                    0 <= l < self.lines@.len() ==> (#[trigger] self.lines@[l]).text == old(
                        self,
                    ).text && self.lines@[l].inline == old(self).inline,
            decreases n - b,
        {
            let width: i64 = self.inline[b].width;
            proof {
                lemma_width_bounds(self.inline@, a as int, b as int);
                assert(layout@.lines[self.lines@.len() as int].taken_bounded());
            }
            if total + width > available && b > a {
                let ghost before = layout@;
                let ghost closed = self.lines@;
                let words = Words::new(self.text, self.inline, Range { start: a, end: b }, available);
                self.lines.push(words);
                proof {
                    lemma_taken(before, self.lines@.len() as int, format.tail, format.shrink);
                }
                available = get_available(layout, self.lines.len(), format.tail, format.shrink);
                proof {
                    let count = self.lines@.len() as int;
                    assert(layout@ == taken(before, count, format.tail, format.shrink));
                    assert(format.indent(count) == format.tail);
                    assert forall|l: int| 0 <= l < self.lines@.len() implies #[trigger] line_broken(
                        self.inline@,
                        self.lines@,
                        layout@,
                        l,
                    ) by {
                        assert(layout@.lines[l] == before.lines[l]);
                        if l < closed.len() {
                            assert(line_broken(self.inline@, closed, before, l));
                            assert(self.lines@[l] == closed[l]);
                        }
                    }
                    assert forall|l: int| 0 <= l <= self.lines@.len() implies (
                    #[trigger] layout@.lines[l]).taken_bounded() by {
                        if l < count {
                            assert(layout@.lines[l] == before.lines[l]);
                        }
                    }
                    assert forall|l: int| 0 <= l < self.lines@.len() implies (
                    #[trigger] self.lines@[l]).text == old(self).text && self.lines@[l].inline
                        == old(self).inline by {
                        if l < closed.len() {
                            assert(self.lines@[l] == closed[l]);
                        }
                    }
                    if closed.len() > 0 {
                        assert(self.lines@[0] == closed[0]);
                    }
                }
                a = b;
                total = 0;
            }
            proof {
                lemma_width_bounds(self.inline@, a as int, b as int);
                lemma_width_bounds(self.inline@, a as int, b + 1);
                assert forall|k: int| a < k < b + 1 implies #[trigger] total_width(
                    self.inline@,
                    a as int,
                    k,
                ) + self.inline@[k].width <= available by {
                    if k < b {
                        assert(fitted(self.inline@, a as int, b as int, available as int));
                    }
                }
            }
            b += 1;
            total += width;
        }
        let ghost before = self.lines@;
        let words = Words::new(self.text, self.inline, Range { start: a, end: b }, available);
        self.lines.push(words);
        proof {
            let lines = self.lines@;
            assert forall|l: int| 0 <= l < lines.len() implies #[trigger] line_broken(
                self.inline@,
                lines,
                layout@,
                l,
            ) by {
                if l < before.len() {
                    assert(line_broken(self.inline@, before, layout@, l));
                    assert(lines[l] == before[l]);
                    if l + 1 < before.len() {
                        assert(line_broken(self.inline@, before, layout@, l + 1));
                        assert(lines[l + 1] == before[l + 1]);
                    } else {
                        assert(lines[l + 1] == words);
                    }
                }
            }
            if before.len() > 0 {
                assert(lines[0] == before[0]);
            }
            assert forall|l: int| 0 <= l < lines.len() implies (#[trigger] lines[l]).text == old(
                self,
            ).text && lines[l].inline == old(self).inline by {
                if l < before.len() {
                    assert(lines[l] == before[l]);
                }
            }
        }
    }

    /// Trims the white space at both ends of every line.
    pub fn trim(&mut self)
        requires
            forall|l: int|
                0 <= l < old(self).lines@.len() ==> (#[trigger] old(self).lines@[l]).range.start
                    <= old(self).lines@[l].range.end <= old(self).inline@.len(),
        ensures
            final(self).text == old(self).text,
            final(self).inline == old(self).inline,
            final(self).line_format == old(self).line_format,
            final(self).lines@.len() == old(self).lines@.len(),
            forall|l: int|
                0 <= l < old(self).lines@.len() ==> #[trigger] final(self).lines@[l] == (Words {
                    range: trimmed(old(self).inline@, old(self).lines@[l].range),
                    ..old(self).lines@[l]
                }),
            forall|l: int|
                0 <= l < final(self).lines@.len() && (#[trigger] final(self).lines@[l]).range.start
                    < final(self).lines@[l].range.end ==> !final(self).inline@[final(self).lines@[l].range.start as int].is_whitespace
                    && !final(self).inline@[final(self).lines@[l].range.end - 1].is_whitespace,
    {
        let mut l: usize = 0;
        while l < self.lines.len()
            invariant
                self.text == old(self).text,
                self.inline == old(self).inline,
                self.line_format == old(self).line_format,
                self.lines@.len() == old(self).lines@.len(),
                l <= self.lines@.len(),
                forall|k: int|
                    0 <= k < l ==> #[trigger] self.lines@[k] == (Words {
                        range: trimmed(old(self).inline@, old(self).lines@[k].range),
                        ..old(self).lines@[k]
                    }),
                forall|k: int| l <= k < self.lines@.len() ==> #[trigger] self.lines@[k] == old(self).lines@[k],
                forall|k: int|
                    0 <= k < old(self).lines@.len() ==> (#[trigger] old(self).lines@[k]).range.start
                        <= old(self).lines@[k].range.end <= old(self).inline@.len(),
            decreases self.lines@.len() - l,
        {
            let words = self.lines[l];
            assert(words == old(self).lines@[l as int]);
            let range = trim_range(self.inline, words.range);
            self.lines[l] = Words { range, ..words };
            l += 1;
        }
        proof {
            assert forall|l: int|
                0 <= l < self.lines@.len() && (#[trigger] self.lines@[l]).range.start
                    < self.lines@[l].range.end implies !self.inline@[self.lines@[l].range.start as int].is_whitespace
                && !self.inline@[self.lines@[l].range.end - 1].is_whitespace by {
                lemma_trimmed(old(self).inline@, old(self).lines@[l].range);
            }
        }
    }

    /// The lines.
    pub fn get_lines(self) -> (r: Vec<Words<'a>>)
        ensures
            r@ == self.lines@,
    {
        self.lines
    }
}

/// Where the first run that is not white space stands among runs `start` to
/// `end`, or `end` if there is none.
pub open spec fn trim_start(inline: Seq<Inline>, start: int, end: int) -> int
    decreases end - start,
{
    if start < end && inline[start].is_whitespace {
        trim_start(inline, start + 1, end)
    } else {
        start
    }
}

/// Behind the last run that is not white space among runs `start` to `end`,
/// or `start` if there is none.
pub open spec fn trim_end(inline: Seq<Inline>, start: int, end: int) -> int
    decreases end - start,
{
    if start < end && inline[end - 1].is_whitespace {
        trim_end(inline, start, end - 1)
    } else {
        end
    }
}

/// The range without the white-space runs at its ends.
pub open spec fn trimmed(inline: Seq<Inline>, range: Range) -> Range {
    let start = trim_start(inline, range.start as int, range.end as int);
    Range { start: start as usize, end: trim_end(inline, start, range.end as int) as usize }
}

/// A trimmed range lies within the range it was trimmed from, begins and ends
/// with a run that is not white space unless it is empty, and leaves out
/// nothing but white space.
pub proof fn lemma_trimmed(inline: Seq<Inline>, range: Range)
    requires
        range.start <= range.end <= inline.len(),
    ensures
        range.start <= trimmed(inline, range).start <= trimmed(inline, range).end <= range.end,
        trimmed(inline, range).start == trim_start(inline, range.start as int, range.end as int),
        trimmed(inline, range).end == trim_end(
            inline,
            trim_start(inline, range.start as int, range.end as int),
            range.end as int,
        ),
        trimmed(inline, range).start < trimmed(inline, range).end ==> {
            &&& !inline[trimmed(inline, range).start as int].is_whitespace
            &&& !inline[trimmed(inline, range).end - 1].is_whitespace
        },
        forall|k: int|
            range.start <= k < trimmed(inline, range).start ==> (#[trigger] inline[k]).is_whitespace,
        forall|k: int|
            trimmed(inline, range).end <= k < range.end ==> (#[trigger] inline[k]).is_whitespace,
{
    lemma_trim_start(inline, range.start as int, range.end as int);
    let start = trim_start(inline, range.start as int, range.end as int);
    lemma_trim_end(inline, start, range.end as int);
}

/// Where `trim_start` ends.
pub proof fn lemma_trim_start(inline: Seq<Inline>, start: int, end: int)
    requires
        start <= end,
    ensures
        start <= trim_start(inline, start, end) <= end,
        trim_start(inline, start, end) < end ==> !inline[trim_start(inline, start, end)].is_whitespace,
        forall|k: int| start <= k < trim_start(inline, start, end) ==> (#[trigger] inline[k]).is_whitespace,
    decreases end - start,
{
    if start < end && inline[start].is_whitespace {
        lemma_trim_start(inline, start + 1, end);
    }
}

/// Where `trim_end` ends.
pub proof fn lemma_trim_end(inline: Seq<Inline>, start: int, end: int)
    requires
        start <= end,
    ensures
        start <= trim_end(inline, start, end) <= end,
        start < trim_end(inline, start, end) ==> !inline[trim_end(inline, start, end) - 1].is_whitespace,
        forall|k: int| trim_end(inline, start, end) <= k < end ==> (#[trigger] inline[k]).is_whitespace,
    decreases end - start,
{
    if start < end && inline[end - 1].is_whitespace {
        lemma_trim_end(inline, start, end - 1);
    }
}

/// Trims the white-space runs at the ends of a range of runs.
pub fn trim_range(inline: &Vec<Inline>, range: Range) -> (r: Range)
    requires
        range.start <= range.end <= inline.len(),
    ensures
        r == trimmed(inline@, range),
        range.start <= r.start <= r.end <= range.end,
        r.start < r.end ==> !inline@[r.start as int].is_whitespace && !inline@[r.end
            - 1].is_whitespace,
{
    proof {
        lemma_trimmed(inline@, range);
    }
    let mut start: usize = range.start;
    while start < range.end && inline[start].is_whitespace
        invariant
            range.start <= start <= range.end <= inline.len(),
            trim_start(inline@, start as int, range.end as int) == trim_start(
                inline@,
                range.start as int,
                range.end as int,
            ),
        decreases range.end - start,
    {
        start += 1;
    }
    let mut end: usize = range.end;
    while start < end && inline[end - 1].is_whitespace
        invariant
            start <= end <= range.end <= inline.len(),
            trim_end(inline@, start as int, end as int) == trim_end(
                inline@,
                start as int,
                range.end as int,
            ),
        decreases end - start,
    {
        end -= 1;
    }
    Range { start, end }
}

} // verus!
