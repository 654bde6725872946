//! What holds of every layout: theorems over the functions that say what
//! the operations do.

use vstd::prelude::*;
use crate::format::{
    group, group_end, groups, indexed, lemma_group_end, lemma_line_groups, line_groups, offsets_bounded,
    placed, spanning, written, Group,
};
use crate::inline::{
    boundary, lemma_resolved_ordered, measured, meets, resolved, run_of, Inline,
};
use crate::renderer::Registry;
use crate::style::Properties;
use crate::writer::{
    indented, lemma_indented, lemma_taken, lemma_width_bounds, lemma_width_split, lines_bounded,
    measurable, taken, total_width, whitespace_width, LineFormat, LineMetrics, Words,
};
use crate::layout::{lemma_extend_to, lemma_record, Placement, State};
use crate::style::{Action, Dimensions, Index};
use crate::format::lemma_groups;
use crate::style::Format;
use crate::typeset::{
    aligned, before_line, drop_cap, drop_cap_width, lemma_before_line, lemma_total_runs,
    paragraph_laid, reserved, trim_all,
};
use crate::writer::{broken, fitted, lemma_trimmed, line_broken};
use crate::units::MAX_LENGTH;

verus! {

/// The pieces come line after line.
pub open spec fn by_line(groups: Seq<Group>) -> bool {
    forall|i: int, j: int|
        0 <= i <= j < groups.len() ==> (#[trigger] groups[i]).line <= (#[trigger] groups[j]).line
}

/// The last line of a justified paragraph is set left-aligned: of pieces
/// that come line after line, those written as they are, with their own width
/// and no space added to their word gaps, are just those of the last line.
pub proof fn law_last_line_left(groups: Seq<Group>, count: int)
    requires
        by_line(groups),
        forall|i: int| 0 <= i < groups.len() ==> (#[trigger] groups[i]).line < count,
    ensures
        0 <= before_line(groups, count - 1) <= groups.len(),
        forall|i: int|
            0 <= i < groups.len() ==> (i >= before_line(groups, count - 1) <==> (
            #[trigger] groups[i]).line == count - 1),
        forall|i: int|
            0 <= i < groups.len() ==> (#[trigger] groups[i]).rendered_width(false)
                == groups[i].width && groups[i].rendered_spacing(false) == 0,
{
    lemma_before_line(groups, count - 1);
    let head = before_line(groups, count - 1);
    assert forall|i: int| 0 <= i < groups.len() implies (i >= head <==> (#[trigger] groups[i]).line
        == count - 1) by {
        if i < head {
            assert(groups[i].line <= groups[head - 1].line);
        }
    }
}

/// A piece is placed at the left end of what is free of its line, on the
/// page of that line, and the line is shortened by the width of the piece.
pub proof fn law_placed(s: State, g: Group, justified: bool)
    requires
        s.wf(),
        g.line < s.lines.len(),
    ensures
        ({
            let line = s.lines[g.line as int];
            let after = placed(s, g, justified);
            &&& after.pages.len() == s.pages.len()
            &&& after.pages[line.page as int] == s.pages[line.page as int].push(
                Placement {
                    text: g.text,
                    rect: crate::style::Rectangle {
                        top: (line.top + g.top_offset) as i64,
                        left: line.left,
                        width: g.rendered_width(justified) as i64,
                        height: s.line_height,
                    },
                    style: g.properties.style,
                    word_spacing: g.rendered_spacing(justified) as i64,
                },
            )
            &&& forall|p: int|
                0 <= p < s.pages.len() && p != line.page ==> #[trigger] after.pages[p]
                    == s.pages[p]
            &&& after.lines[g.line as int].left == (line.left + g.rendered_width(
                justified,
            ) as i64) as i64
        }),
{
    let mid = indexed(s, g);
    assert(mid.lines == s.lines);
    assert(mid.pages == s.pages);
}

/// When a piece that carries the index of a verse is written, the page
/// recorded for the verse is the page on which the piece is placed.
pub proof fn law_index_commit(s: State, g: Group, justified: bool, index: Index)
    requires
        s.wf(),
        g.line < s.lines.len(),
        g.properties.action == Some(Action::Index(index)),
    ensures
        placed(s, g, justified).page_of(index) == Some(s.lines[g.line as int].page),
        placed(s, g, justified).pages[s.lines[g.line as int].page as int].last().text == g.text,
{
    let page = s.lines[g.line as int].page;
    lemma_record(s, index, page);
    let mid = indexed(s, g);
    assert(mid == s.record(index, page));
    assert(placed(s, g, justified).indices == mid.indices);
}

/// Writing a piece leaves the pages recorded for other verses as they were.
pub proof fn law_index_kept(s: State, g: Group, justified: bool, index: Index)
    requires
        s.wf(),
        g.line < s.lines.len(),
        g.properties.action != Some(Action::Index(index)),
    ensures
        placed(s, g, justified).page_of(index) == s.page_of(index),
{
    let mid = indexed(s, g);
    assert(placed(s, g, justified).indices == mid.indices);
    match g.properties.action {
        Some(Action::Index(other)) => {
            lemma_record(s, other, s.lines[g.line as int].page);
        },
        None => {},
    }
}

/// After pieces were written in order, the page recorded for a verse is the
/// page of the line of the last piece that carries the index of the verse.
pub proof fn law_index_last(s: State, groups: Seq<Group>, justified: bool, index: Index, last: int)
    requires
        s.wf(),
        0 <= last < groups.len(),
        forall|i: int| 0 <= i < groups.len() ==> (#[trigger] groups[i]).line < s.lines.len(),
        groups[last].properties.action == Some(Action::Index(index)),
        forall|i: int|
            last < i < groups.len() ==> (#[trigger] groups[i]).properties.action != Some(
                Action::Index(index),
            ),
    ensures
        written(s, groups, justified).page_of(index) == Some(s.lines[groups[last].line as int].page),
    decreases groups.len(),
{
    let head = groups.drop_last();
    let g = groups.last();
    lemma_written_frame(s, head, justified);
    let before = written(s, head, justified);
    if last == groups.len() - 1 {
        law_index_commit(before, g, justified, index);
    } else {
        assert forall|i: int| 0 <= i < head.len() implies (#[trigger] head[i]).line
            < s.lines.len() by {
            assert(head[i] == groups[i]);
        }
        assert forall|i: int| last < i < head.len() implies (#[trigger] head[i]).properties.action
            != Some(Action::Index(index)) by {
            assert(head[i] == groups[i]);
        }
        assert(head[last] == groups[last]);
        law_index_last(s, head, justified, index, last);
        law_index_kept(before, g, justified, index);
    }
}

/// Writing pieces keeps the layout well formed and leaves the queue as long
/// as it was and every line on its page.
pub proof fn lemma_written_frame(s: State, groups: Seq<Group>, justified: bool)
    requires
        s.wf(),
        forall|i: int| 0 <= i < groups.len() ==> (#[trigger] groups[i]).line < s.lines.len(),
    ensures
        written(s, groups, justified).wf(),
        written(s, groups, justified).lines.len() == s.lines.len(),
        written(s, groups, justified).pages.len() == s.pages.len(),
        forall|j: int|
            0 <= j < s.lines.len() ==> (#[trigger] written(s, groups, justified).lines[j]).page
                == s.lines[j].page && written(s, groups, justified).lines[j].top == s.lines[j].top,
    decreases groups.len(),
{
    if groups.len() > 0 {
        let head = groups.drop_last();
        let g = groups.last();
        assert forall|i: int| 0 <= i < head.len() implies (#[trigger] head[i]).line
            < s.lines.len() by {
            assert(head[i] == groups[i]);
        }
        lemma_written_frame(s, head, justified);
        let before = written(s, head, justified);
        let mid = indexed(before, g);
        match g.properties.action {
            Some(Action::Index(index)) => {
                lemma_record(before, index, before.lines[g.line as int].page);
            },
            None => {},
        }
        assert(mid.lines == before.lines);
        assert(mid.pages == before.pages);
        let after = placed(before, g, justified);
        assert forall|i: int| 0 <= i < after.lines.len() implies (#[trigger] after.lines[i]).page
            < after.pages.len() by {
            assert(before.lines[i].page < before.pages.len());
        }
        assert forall|j: int| 0 <= j < s.lines.len() implies (#[trigger] after.lines[j]).page
            == s.lines[j].page && after.lines[j].top == s.lines[j].top by {
            assert(before.lines[j].page == s.lines[j].page);
        }
    }
}

/// A drop cap set while no line is queued reserves the next two lines: both
/// are locked, both begin right of the drop cap, by its width and the
/// padding, and are narrower than the body by as much; and indenting a locked
/// line changes nothing. Where two lines fit a page, the drop cap and both lines stand on
/// one page and the drop cap ends above the foot of the page.
pub proof fn law_drop_cap_reserves(s: State, dim: Dimensions, text: Seq<char>, inline: Seq<Inline>)
    requires
        s.wf(),
        s.pages.len() < usize::MAX,
        s.lines.len() == 0,
        dim.valid(),
        inline.len() > 0,
        0 <= inline[0].width <= MAX_LENGTH,
    ensures
        ({
            let after = drop_cap(s, dim, text, inline);
            let width = drop_cap_width(dim, inline);
            let page = s.request_height(2 * s.line_height).current_page();
            &&& after.lines.len() == 2
            &&& width == inline[0].width + dim.drop_cap_padding
            &&& forall|j: int|
                0 <= j < 2 ==> {
                    &&& (#[trigger] after.lines[j]).locked
                    &&& after.lines[j].left == width
                    &&& after.lines[j].left >= dim.drop_cap_padding + inline[0].width
                    &&& after.lines[j].width == s.request_height(
                        2 * s.line_height,
                    ).body.width - width
                    &&& forall|left: int, less: int| after.lines[j].mutated(left, less) == after.lines[j]
                }
            &&& after.pages[page].last().text == text
            &&& after.pages[page].last().rect.width == width
            &&& 2 * s.line_height <= s.height ==> {
                &&& after.lines[0].page == page
                &&& after.lines[1].page == page
                &&& after.lines[0].top == after.pages[page].last().rect.top
                &&& after.lines[1].top == after.lines[0].top + s.line_height
                &&& after.pages[page].last().rect.top + after.pages[page].last().rect.height
                    <= s.height
            }
        }),
{
    let width = drop_cap_width(dim, inline);
    let room = s.request_height(2 * s.line_height);
    assert(room.wf());
    assert(room.lines.len() == 0);
    let one = room.next_line();
    assert(room.extend_to(1) == one) by {
        assert(one.lines.len() == 1);
        assert(one.extend_to(1) == one);
    }
    let first = reserved(room, 0, width);
    assert(first.lines.len() == 1);
    assert(first.wf()) by {
        assert forall|i: int| 0 <= i < first.lines.len() implies (#[trigger] first.lines[i]).page
            < first.pages.len() by {
            assert(one.lines[i].page < one.pages.len());
        }
    }
    let two = first.next_line();
    assert(first.extend_to(2) == two) by {
        assert(two.lines.len() == 2);
        assert(two.extend_to(2) == two);
    }
    let second = reserved(first, 1, width);
    assert(second.lines.len() == 2);
    let after = drop_cap(s, dim, text, inline);
    assert(after.lines == second.lines);
    assert(after.lines[0] == first.lines[0]);
}

/// The sum of the widths with which pieces are written.
pub open spec fn rendered_total(groups: Seq<Group>, justified: bool) -> int
    decreases groups.len(),
{
    if groups.len() == 0 {
        0
    } else {
        groups[0].rendered_width(justified) + rendered_total(groups.drop_first(), justified)
    }
}

/// The sum of the widths of pieces.
pub open spec fn width_total(groups: Seq<Group>) -> int
    decreases groups.len(),
{
    if groups.len() == 0 {
        0
    } else {
        groups[0].width + width_total(groups.drop_first())
    }
}

/// The sum of the widths of the white space of pieces.
pub open spec fn whitespace_total(groups: Seq<Group>) -> int
    decreases groups.len(),
{
    if groups.len() == 0 {
        0
    } else {
        groups[0].whitespace + whitespace_total(groups.drop_first())
    }
}

/// The sum of the stretch of pieces.
pub open spec fn spacing_total(groups: Seq<Group>) -> int
    decreases groups.len(),
{
    if groups.len() == 0 {
        0
    } else {
        groups[0].spacing() + spacing_total(groups.drop_first())
    }
}

/// The texts of pieces, one after the other.
pub open spec fn texts(groups: Seq<Group>) -> Seq<char>
    decreases groups.len(),
{
    if groups.len() == 0 {
        Seq::empty()
    } else {
        groups[0].text + texts(groups.drop_first())
    }
}

/// Stretched, pieces are as much wider in all as they are stretched in all.
pub proof fn lemma_rendered_total(groups: Seq<Group>)
    ensures
        rendered_total(groups, true) == width_total(groups) + spacing_total(groups),
        rendered_total(groups, false) == width_total(groups),
    decreases groups.len(),
{
    if groups.len() > 0 {
        lemma_rendered_total(groups.drop_first());
    }
}

/// The pieces of a part of a line are as wide in all as the runs of the
/// part, and their white space is as wide in all as that of the runs.
pub proof fn lemma_line_sums(
    text: Seq<char>,
    inline: Seq<Inline>,
    line: usize,
    metrics: LineMetrics,
    start: int,
    end: int,
)
    requires
        measurable(inline),
        0 <= start <= end <= inline.len(),
    ensures
        width_total(line_groups(text, inline, line, metrics, start, end)) == total_width(
            inline,
            start,
            end,
        ),
        whitespace_total(line_groups(text, inline, line, metrics, start, end)) == whitespace_width(
            inline,
            start,
            end,
        ),
        forall|i: int|
            0 <= i < line_groups(text, inline, line, metrics, start, end).len() ==> {
                &&& (#[trigger] line_groups(text, inline, line, metrics, start, end)[i]).metrics
                    == metrics
                &&& line_groups(text, inline, line, metrics, start, end)[i].whitespace >= 0
            },
    decreases end - start,
{
    if start < end {
        lemma_group_end(inline, start, end);
        let next = group_end(inline, start, end);
        lemma_line_sums(text, inline, line, metrics, next, end);
        lemma_width_split(inline, start, next, end);
        lemma_width_bounds(inline, start, next);
        let first = group(text, inline, line, metrics, start, next);
        let rest = line_groups(text, inline, line, metrics, next, end);
        let all = line_groups(text, inline, line, metrics, start, end);
        assert(all == seq![first] + rest);
        assert(all.drop_first() =~= rest);
        assert(all[0] == first);
        assert forall|i: int| 0 <= i < all.len() implies {
            &&& (#[trigger] all[i]).metrics == metrics
            &&& all[i].whitespace >= 0
        } by {
            if i > 0 {
                assert(all[i] == rest[i - 1]);
            }
        }
    }
}

/// Pieces of one line whose white space can be stretched take what the line
/// has left in proportion: in all they are stretched by no more than the
/// line has left in proportion to their share of its white space, and by less
/// than one sub-unit each short of it.
pub proof fn lemma_spacing_sum(groups: Seq<Group>, metrics: LineMetrics)
    requires
        metrics.whitespace > 0,
        forall|i: int|
            0 <= i < groups.len() ==> (#[trigger] groups[i]).metrics == metrics
                && groups[i].whitespace >= 0,
    ensures
        metrics.whitespace * spacing_total(groups) <= metrics.remaining * whitespace_total(groups),
        metrics.remaining * whitespace_total(groups) < metrics.whitespace * (spacing_total(groups)
            + groups.len()) || groups.len() == 0,
    decreases groups.len(),
{
    if groups.len() > 0 {
        let rest = groups.drop_first();
        let g = groups[0];
        assert forall|i: int| 0 <= i < rest.len() implies (#[trigger] rest[i]).metrics == metrics
            && rest[i].whitespace >= 0 by {
            assert(rest[i] == groups[i + 1]);
        }
        lemma_spacing_sum(rest, metrics);
        let w = metrics.whitespace as int;
        let r = metrics.remaining as int;
        let q = g.spacing();
        vstd::arithmetic::div_mod::lemma_fundamental_div_mod(r * g.whitespace, w);
        let m = (r * g.whitespace) % w;
        assert(r * g.whitespace == w * q + m);
        let s = spacing_total(rest);
        let t = whitespace_total(rest);
        let n = rest.len() as int;
        assert(w * (q + s) <= r * (g.whitespace + t)) by (nonlinear_arith)
            requires
                r * g.whitespace == w * q + m,
                0 <= m < w,
                w * s <= r * t,
        ;
        assert(r * (g.whitespace + t) < w * (q + s + (n + 1))) by (nonlinear_arith)
            requires
                r * g.whitespace == w * q + m,
                0 <= m < w,
                r * t < w * (s + n) || (n == 0 && w * s <= r * t && s == 0 && t == 0),
        ;
    }
}

/// A justified line is filled: where a line has white space to stretch, the
/// widths with which its pieces are written add up to the width that the line
/// had for them, short of it by less than one sub-unit for each piece.
pub proof fn law_justified_line_fills(text: Seq<char>, inline: Seq<Inline>, line: usize, words: Words)
    requires
        measurable(inline),
        offsets_bounded(inline),
        words.wf(),
        words.inline@ == inline,
        words.metrics().whitespace > 0,
    ensures
        ({
            let pieces = line_groups(
                text,
                inline,
                line,
                words.metrics(),
                words.range.start as int,
                words.range.end as int,
            );
            words.available - pieces.len() < rendered_total(pieces, true) <= words.available
        }),
{
    let metrics = words.metrics();
    let start = words.range.start as int;
    let end = words.range.end as int;
    let pieces = line_groups(text, inline, line, metrics, start, end);
    lemma_line_groups(text, inline, line, words, start);
    lemma_line_sums(text, inline, line, metrics, start, end);
    lemma_spacing_sum(pieces, metrics);
    lemma_rendered_total(pieces);
    let w = metrics.whitespace as int;
    let r = metrics.remaining as int;
    let s = spacing_total(pieces);
    let n = pieces.len() as int;
    assert(whitespace_total(pieces) == w);
    if n == 0 {
        assert(whitespace_total(pieces) == 0);
    }
    assert(s <= r < s + n) by (nonlinear_arith)
        requires
            w > 0,
            w * s <= r * w,
            r * w < w * (s + n),
    ;
}

/// Each run ends where the next begins.
pub open spec fn linked(inline: Seq<Inline>) -> bool {
    forall|k: int| 0 <= k < inline.len() - 1 ==> #[trigger] meets(inline, k)
}

/// Resolved runs, measured or not, lie in the text in order and each ends
/// where the next begins.
pub proof fn law_runs_partition(
    registry: Registry,
    text: Seq<char>,
    styled: Seq<(usize, Properties)>,
    runs: Seq<Inline>,
    widths: Seq<i64>,
)
    requires
        resolved(registry, text, styled, runs, text.len() as int),
        widths.len() == runs.len(),
    ensures
        spanning(measured(runs, widths), text.len() as int),
        linked(measured(runs, widths)),
        runs.len() > 0 ==> measured(runs, widths)[0].range.start == 0 && measured(
            runs,
            widths,
        ).last().range.end == text.len(),
{
    let m = measured(runs, widths);
    assert forall|j: int, k: int| 0 <= j <= k < m.len() implies (#[trigger] m[j]).range.start <= (
    #[trigger] m[k]).range.end <= text.len() by {
        lemma_resolved_ordered(registry, text, styled, runs, text.len() as int, j, k);
    }
    assert forall|k: int| 0 <= k < m.len() - 1 implies #[trigger] meets(m, k) by {
        assert(meets(runs, k));
    }
}

/// Nothing of a line is lost: the texts of the pieces of a part of a line,
/// one after the other, are the text from the first character of the first
/// run of the part to the last character of its last run.
pub proof fn law_line_covered(
    text: Seq<char>,
    inline: Seq<Inline>,
    line: usize,
    metrics: LineMetrics,
    start: int,
    end: int,
)
    requires
        spanning(inline, text.len() as int),
        linked(inline),
        0 <= start < end <= inline.len(),
    ensures
        texts(line_groups(text, inline, line, metrics, start, end)) == text.subrange(
            inline[start].range.start as int,
            inline[end - 1].range.end as int,
        ),
    decreases end - start,
{
    lemma_group_end(inline, start, end);
    let next = group_end(inline, start, end);
    let first = group(text, inline, line, metrics, start, next);
    let rest = line_groups(text, inline, line, metrics, next, end);
    let all = line_groups(text, inline, line, metrics, start, end);
    assert(all == seq![first] + rest);
    assert(all.drop_first() =~= rest);
    assert(all[0] == first);
    let a = inline[start].range.start as int;
    let b = inline[next - 1].range.end as int;
    let c = inline[end - 1].range.end as int;
    assert(inline[start].range.start <= inline[next - 1].range.end <= text.len());
    assert(inline[start].range.start <= inline[end - 1].range.end <= text.len());
    assert(texts(all) == first.text + texts(all.drop_first()));
    assert(first.text == text.subrange(a, b));
    if next < end {
        law_line_covered(text, inline, line, metrics, next, end);
        assert(meets(inline, next - 1));
        assert(inline[next].range.start == b);
        assert(inline[next].range.start <= inline[end - 1].range.end <= text.len());
        assert(texts(rest) == text.subrange(b, c));
        assert(text.subrange(a, b) + text.subrange(b, c) =~= text.subrange(a, c));
    } else {
        assert(rest =~= Seq::<Group>::empty());
        assert(texts(rest) =~= Seq::<char>::empty());
        assert(text.subrange(a, b) + Seq::<char>::empty() =~= text.subrange(a, c));
    }
}

/// The texts of pieces that follow pieces follow their texts.
pub proof fn lemma_texts_concat(a: Seq<Group>, b: Seq<Group>)
    ensures
        texts(a + b) == texts(a) + texts(b),
    decreases a.len(),
{
    if a.len() == 0 {
        assert(a + b =~= b);
        assert(texts(a) + texts(b) =~= texts(b));
    } else {
        lemma_texts_concat(a.drop_first(), b);
        assert((a + b).drop_first() =~= a.drop_first() + b);
        assert((a + b)[0] == a[0]);
        assert(a[0].text + (texts(a.drop_first()) + texts(b)) =~= (a[0].text + texts(
            a.drop_first(),
        )) + texts(b));
    }
}

/// The text of the first `count` lines without the white space at the ends
/// of each line: for every line that is not empty, from the first character
/// of its first run to the last character of its last run.
pub open spec fn lines_text(text: Seq<char>, inline: Seq<Inline>, lines: Seq<Words>, count: int) -> Seq<
    char,
>
    decreases count,
{
    if count <= 0 {
        Seq::empty()
    } else {
        lines_text(text, inline, lines, count - 1) + if lines[count - 1].range.start
            < lines[count - 1].range.end {
            text.subrange(
                inline[lines[count - 1].range.start as int].range.start as int,
                inline[lines[count - 1].range.end - 1].range.end as int,
            )
        } else {
            Seq::empty()
        }
    }
}

/// Nothing but the white space at the ends of lines is lost: the texts of
/// the pieces of trimmed lines, one after the other, are the texts of the
/// lines, one after the other.
pub proof fn law_coverage(text: Seq<char>, inline: Seq<Inline>, lines: Seq<Words>, count: int)
    requires
        spanning(inline, text.len() as int),
        linked(inline),
        0 <= count <= lines.len(),
        forall|l: int|
            0 <= l < lines.len() ==> (#[trigger] lines[l]).range.start <= lines[l].range.end
                <= inline.len(),
    ensures
        texts(groups(text, inline, lines, count)) == lines_text(text, inline, lines, count),
    decreases count,
{
    if count > 0 {
        law_coverage(text, inline, lines, count - 1);
        let words = lines[count - 1];
        let here = line_groups(
            text,
            inline,
            (count - 1) as usize,
            words.metrics(),
            words.range.start as int,
            words.range.end as int,
        );
        lemma_texts_concat(groups(text, inline, lines, count - 1), here);
        if words.range.start < words.range.end {
            law_line_covered(
                text,
                inline,
                (count - 1) as usize,
                words.metrics(),
                words.range.start as int,
                words.range.end as int,
            );
        } else {
            assert(here =~= Seq::<Group>::empty());
        }
    }
}

/// The line leaves room for its height above the foot of the page.
pub open spec fn within_page(s: State, line: int) -> bool {
    0 <= s.lines[line].top && s.lines[line].top + s.line_height <= s.height
}

/// Lines stay on their pages: where a line fits a page at all, every line
/// that the breaker takes from the body begins on its page and ends above the
/// foot of the page, if the lines that were queued before did.
pub proof fn law_lines_within_page(s: State, format: LineFormat, count: nat)
    requires
        s.wf(),
        lines_bounded(s, 0),
        format.valid(),
        s.line_height <= s.height,
        forall|j: int| 0 <= j < s.lines.len() ==> #[trigger] within_page(s, j),
    ensures
        forall|j: int|
            0 <= j < indented(s, format, count).lines.len() ==> #[trigger] within_page(
                indented(s, format, count),
                j,
            ),
    decreases count,
{
    if count > 0 {
        let before = indented(s, format, (count - 1) as nat);
        law_lines_within_page(s, format, (count - 1) as nat);
        lemma_indented(s, format, (count - 1) as nat);
        let e = before.extend_to(count);
        lemma_extend_to(before, count);
        let after = indented(s, format, count);
        assert(after == taken(before, count - 1, format.indent(count - 1), format.shrink));
        assert forall|j: int| 0 <= j < after.lines.len() implies #[trigger] within_page(after, j) by {
            assert(after.lines[j].top == e.lines[j].top);
            if j < before.lines.len() {
                assert(e.lines[j] == before.lines[j]);
                assert(within_page(before, j));
            } else {
                assert(e.lines[j].fresh(e));
            }
        }
    }
}

/// A piece without a top offset, written to a line that stays on its page,
/// stays on the page: it ends above the foot of the page.
pub proof fn law_piece_within_page(s: State, g: Group, justified: bool)
    requires
        s.wf(),
        g.line < s.lines.len(),
        within_page(s, g.line as int),
        g.top_offset == 0,
    ensures
        ({
            let placement = placed(s, g, justified).pages[s.lines[g.line as int].page as int].last();
            0 <= placement.rect.top && placement.rect.top + placement.rect.height <= s.height
        }),
{
    law_placed(s, g, justified);
}

/// The texts of the placements of a page, one after the other.
pub open spec fn page_text(page: Seq<Placement>) -> Seq<char>
    decreases page.len(),
{
    if page.len() == 0 {
        Seq::empty()
    } else {
        page_text(page.drop_last()) + page.last().text
    }
}

/// The texts of the placements of all pages, page after page.
pub open spec fn pages_text(pages: Seq<Seq<Placement>>) -> Seq<char>
    decreases pages.len(),
{
    if pages.len() == 0 {
        Seq::empty()
    } else {
        pages_text(pages.drop_last()) + page_text(pages.last())
    }
}

/// The pages behind page `page` are empty.
pub open spec fn empty_behind(pages: Seq<Seq<Placement>>, page: int) -> bool {
    forall|q: int| page < q < pages.len() ==> (#[trigger] pages[q]).len() == 0
}

/// The pieces stand on pages of the layout that do not go back.
pub open spec fn by_page(s: State, groups: Seq<Group>) -> bool {
    forall|i: int, j: int|
        0 <= i <= j < groups.len() ==> s.lines[(#[trigger] groups[i]).line as int].page
            <= s.lines[(#[trigger] groups[j]).line as int].page
}

/// A placement appended to a page behind which all pages are empty comes
/// last of all.
pub proof fn lemma_pages_text_push(pages: Seq<Seq<Placement>>, page: int, placement: Placement)
    requires
        0 <= page < pages.len(),
        empty_behind(pages, page),
    ensures
        pages_text(pages.update(page, pages[page].push(placement))) == pages_text(pages)
            + placement.text,
    decreases pages.len(),
{
    let after = pages.update(page, pages[page].push(placement));
    if page == pages.len() - 1 {
        assert(after.drop_last() =~= pages.drop_last());
        assert(after.last() == pages.last().push(placement));
        assert(after.last().drop_last() =~= pages.last());
        assert(pages_text(pages.drop_last()) + (page_text(pages.last()) + placement.text)
            =~= (pages_text(pages.drop_last()) + page_text(pages.last())) + placement.text);
    } else {
        let head = pages.drop_last();
        assert(pages.last() == pages[pages.len() - 1]);
        assert(pages.last().len() == 0);
        assert forall|q: int| page < q < head.len() implies (#[trigger] head[q]).len() == 0 by {
            assert(head[q] == pages[q]);
        }
        lemma_pages_text_push(head, page, placement);
        assert(after.drop_last() =~= head.update(page, head[page].push(placement)));
        assert(after.last() == pages.last());
        assert(page_text(pages.last()) =~= Seq::<char>::empty());
        assert(pages_text(pages) =~= pages_text(head));
        assert(pages_text(after) =~= pages_text(after.drop_last()));
    }
}

/// The text of a piece that follows pieces follows their texts.
pub proof fn lemma_texts_push(groups: Seq<Group>, g: Group)
    ensures
        texts(groups.push(g)) == texts(groups) + g.text,
{
    lemma_texts_concat(groups, seq![g]);
    assert(groups.push(g) =~= groups + seq![g]);
    let one = seq![g];
    assert(one.drop_first() =~= Seq::<Group>::empty());
    assert(texts(one.drop_first()) =~= Seq::<char>::empty());
    assert(one[0] == g);
    assert(texts(one) == one[0].text + texts(one.drop_first()));
    assert(texts(one) =~= g.text);
}

/// What is written comes in order: where the pieces stand on pages that do
/// not go back and all pages behind the page of the first piece are empty,
/// the texts of all pages, page after page, are what they were, followed by
/// the texts of the pieces in the order in which they were written.
pub proof fn law_written_in_order(s: State, groups: Seq<Group>, justified: bool)
    requires
        s.wf(),
        forall|i: int| 0 <= i < groups.len() ==> (#[trigger] groups[i]).line < s.lines.len(),
        by_page(s, groups),
        groups.len() > 0 ==> empty_behind(s.pages, s.lines[groups[0].line as int].page as int),
    ensures
        pages_text(written(s, groups, justified).pages) == pages_text(s.pages) + texts(groups),
        groups.len() > 0 ==> empty_behind(
            written(s, groups, justified).pages,
            s.lines[groups.last().line as int].page as int,
        ),
    decreases groups.len(),
{
    if groups.len() == 0 {
        assert(pages_text(s.pages) + Seq::<char>::empty() =~= pages_text(s.pages));
    } else {
        let head = groups.drop_last();
        let g = groups.last();
        assert forall|i: int| 0 <= i < head.len() implies (#[trigger] head[i]).line
            < s.lines.len() by {
            assert(head[i] == groups[i]);
        }
        assert forall|i: int, j: int| 0 <= i <= j < head.len() implies s.lines[(
        #[trigger] head[i]).line as int].page <= s.lines[(#[trigger] head[j]).line as int].page by {
            assert(head[i] == groups[i]);
            assert(head[j] == groups[j]);
        }
        if head.len() > 0 {
            assert(head[0] == groups[0]);
        }
        law_written_in_order(s, head, justified);
        lemma_written_frame(s, head, justified);
        let before = written(s, head, justified);
        let page = s.lines[g.line as int].page as int;
        assert(before.lines[g.line as int].page == page);
        law_placed(before, g, justified);
        let after = placed(before, g, justified);
        assert(after == written(s, groups, justified));
        let placement = after.pages[page].last();
        assert(empty_behind(before.pages, page)) by {
            if head.len() > 0 {
                assert(head.last() == groups[groups.len() - 2]);
                assert(s.lines[groups[groups.len() - 2].line as int].page <= s.lines[groups[groups.len()
                    - 1].line as int].page);
            } else {
                assert(before == s);
                assert(groups[0] == g);
            }
        }
        assert(after.pages =~= before.pages.update(page, before.pages[page].push(placement)));
        lemma_pages_text_push(before.pages, page, placement);
        lemma_texts_push(head, g);
        assert(groups =~= head.push(g));
        assert(placement.text == g.text);
        assert((pages_text(s.pages) + texts(head)) + g.text =~= pages_text(s.pages) + (texts(head)
            + g.text));
        assert forall|q: int| page < q < after.pages.len() implies (#[trigger] after.pages[q]).len()
            == 0 by {
            assert(after.pages[q] == before.pages[q]);
        }
    }
}

/// The queued lines stand on pages that do not go back.
pub open spec fn lines_in_order(s: State) -> bool {
    forall|i: int, j: int|
        0 <= i <= j < s.lines.len() ==> (#[trigger] s.lines[i]).page <= (#[trigger] s.lines[j]).page
}

/// Lines taken from the body stand on pages that do not go back, behind the
/// lines that were queued, and not before the last page that there was.
pub proof fn lemma_extend_in_order(s: State, count: nat)
    requires
        s.wf(),
        lines_in_order(s),
        s.extend_to(count).pages.len() <= usize::MAX,
    ensures
        lines_in_order(s.extend_to(count)),
        forall|j: int|
            s.lines.len() <= j < s.extend_to(count).lines.len() ==> (#[trigger] s.extend_to(
                count,
            ).lines[j]).page >= s.pages.len() - 1,
    decreases count - s.lines.len(),
{
    if s.lines.len() < count {
        let n = s.next_line();
        let e = s.extend_to(count);
        lemma_extend_to(n, count);
        assert(e == n.extend_to(count));
        assert(n.pages.len() <= e.pages.len());
        assert forall|i: int, j: int| 0 <= i <= j < n.lines.len() implies (#[trigger] n.lines[i]).page
            <= (#[trigger] n.lines[j]).page by {
            if j < s.lines.len() {
                assert(n.lines[i] == s.lines[i]);
                assert(n.lines[j] == s.lines[j]);
            } else if i < s.lines.len() {
                assert(n.lines[i] == s.lines[i]);
                assert(s.lines[i].page < s.pages.len());
            }
        }
        lemma_extend_in_order(n, count);
        assert forall|j: int| s.lines.len() <= j < e.lines.len() implies (#[trigger] e.lines[j]).page
            >= s.pages.len() - 1 by {
            if j == s.lines.len() {
                assert(e.lines[j] == n.lines[j]);
            }
        }
    }
}

/// Lines that the breaker takes stand on pages that do not go back, and the
/// lines that were not queued before stand not before the last page that
/// there was.
pub proof fn lemma_indented_in_order(s: State, format: LineFormat, count: nat)
    requires
        s.wf(),
        lines_bounded(s, 0),
        format.valid(),
        lines_in_order(s),
        indented(s, format, count).pages.len() <= usize::MAX,
    ensures
        lines_in_order(indented(s, format, count)),
        forall|j: int|
            s.lines.len() <= j < indented(s, format, count).lines.len() ==> (#[trigger] indented(
                s,
                format,
                count,
            ).lines[j]).page >= s.pages.len() - 1,
        forall|j: int|
            0 <= j < s.lines.len() ==> (#[trigger] indented(s, format, count).lines[j]).page
                == s.lines[j].page,
    decreases count,
{
    if count > 0 {
        let before = indented(s, format, (count - 1) as nat);
        lemma_indented(s, format, (count - 1) as nat);
        lemma_taken(before, count - 1, format.indent(count - 1), format.shrink);
        let after = indented(s, format, count);
        assert(after == taken(before, count - 1, format.indent(count - 1), format.shrink));
        lemma_indented_in_order(s, format, (count - 1) as nat);
        let e = before.extend_to(count);
        lemma_extend_to(before, count);
        assert(e.pages == after.pages);
        lemma_extend_in_order(before, count);
        assert forall|j: int| 0 <= j < after.lines.len() implies (#[trigger] after.lines[j]).page
            == e.lines[j].page by {}
        assert forall|i: int, j: int| 0 <= i <= j < after.lines.len() implies (
        #[trigger] after.lines[i]).page <= (#[trigger] after.lines[j]).page by {
            assert(e.lines[i].page <= e.lines[j].page);
        }
        assert forall|j: int| s.lines.len() <= j < after.lines.len() implies (
        #[trigger] after.lines[j]).page >= s.pages.len() - 1 by {
            if j < before.lines.len() {
                assert(e.lines[j] == before.lines[j]);
            } else {
                assert(e.lines[j].page >= before.pages.len() - 1);
            }
        }
        assert forall|j: int| 0 <= j < s.lines.len() implies (#[trigger] after.lines[j]).page
            == s.lines[j].page by {
            assert(e.lines[j] == before.lines[j]);
        }
    }
}

/// Coverage: a justified or left-aligned paragraph adds to the pages, in
/// order, the text of its lines without the white space at the ends of each
/// line, and nothing else. It holds where the queued lines stand on pages
/// that do not go back and nothing is written behind the page of the first.
pub proof fn law_paragraph_coverage(
    before: State,
    after: State,
    text: Seq<char>,
    inline: Seq<Inline>,
    format: Format,
    line_format: LineFormat,
    lines: Seq<Words>,
)
    requires
        before.wf(),
        lines_bounded(before, 0),
        lines_in_order(before),
        before.lines.len() > 0 ==> empty_behind(before.pages, before.lines[0].page as int),
        line_format.valid(),
        format != Format::Center,
        measurable(inline),
        offsets_bounded(inline),
        spanning(inline, text.len() as int),
        linked(inline),
        forall|l: int| 0 <= l < lines.len() ==> (#[trigger] lines[l]).inline@ == inline,
        paragraph_laid(before, after, text, inline, format, line_format, lines),
        indented(before, line_format, lines.len()).pages.len() <= usize::MAX,
    ensures
        pages_text(after.pages) == pages_text(before.pages) + lines_text(
            text,
            inline,
            trim_all(inline, lines),
            lines.len() as int,
        ),
{
    let count = lines.len();
    let taken_state = indented(before, line_format, count);
    let trimmed_lines = trim_all(inline, lines);
    let pieces = groups(text, inline, trimmed_lines, count as int);
    lemma_indented(before, line_format, count);
    lemma_indented_in_order(before, line_format, count);
    lemma_total_runs(inline, lines, taken_state, count as int);
    assert forall|l: int| 0 <= l < trimmed_lines.len() implies (#[trigger] trimmed_lines[l]).wf()
        && trimmed_lines[l].inline@ == inline && trimmed_lines[l].range.start
        <= trimmed_lines[l].range.end <= inline.len() by {
        assert(line_broken(inline, lines, taken_state, l));
        lemma_trimmed(inline, lines[l].range);
        assert(taken_state.lines[l].taken_bounded());
    }
    lemma_groups(text, inline, trimmed_lines, count as int);
    law_coverage(text, inline, trimmed_lines, count as int);
    assert forall|i: int| 0 <= i < pieces.len() implies (#[trigger] pieces[i]).line
        < taken_state.lines.len() by {}
    assert(by_page(taken_state, pieces)) by {
        assert forall|i: int, j: int| 0 <= i <= j < pieces.len() implies taken_state.lines[(
        #[trigger] pieces[i]).line as int].page <= taken_state.lines[(
        #[trigger] pieces[j]).line as int].page by {
            assert(pieces[i].line <= pieces[j].line);
        }
    }
    // no page behind the page of the first line holds anything
    assert forall|l: int| 0 <= l < taken_state.lines.len() implies empty_behind(
        taken_state.pages,
        (#[trigger] taken_state.lines[l]).page as int,
    ) by {
        let first = taken_state.lines[0].page as int;
        assert(taken_state.lines[0].page <= taken_state.lines[l].page);
        assert forall|q: int| first < q < taken_state.pages.len() implies (
        #[trigger] taken_state.pages[q]).len() == 0 by {
            if q < before.pages.len() {
                assert(taken_state.pages[q] == before.pages[q]);
                if before.lines.len() > 0 {
                    assert(taken_state.lines[0].page == before.lines[0].page);
                }
            }
        }
    }
    match format {
        Format::Justified => {
            let head = before_line(pieces, count - 1);
            lemma_before_line(pieces, count - 1);
            let first = pieces.subrange(0, head);
            let rest = pieces.subrange(head, pieces.len() as int);
            assert(pieces =~= first + rest);
            lemma_texts_concat(first, rest);
            assert forall|i: int, j: int| 0 <= i <= j < first.len() implies taken_state.lines[(
            #[trigger] first[i]).line as int].page <= taken_state.lines[(
            #[trigger] first[j]).line as int].page by {
                assert(first[i] == pieces[i]);
                assert(first[j] == pieces[j]);
            }
            assert forall|i: int| 0 <= i < first.len() implies (#[trigger] first[i]).line
                < taken_state.lines.len() by {
                assert(first[i] == pieces[i]);
            }
            if first.len() > 0 {
                assert(first[0] == pieces[0]);
            }
            law_written_in_order(taken_state, first, true);
            lemma_written_frame(taken_state, first, true);
            let middle = written(taken_state, first, true);
            assert forall|i: int| 0 <= i < rest.len() implies (#[trigger] rest[i]).line
                < middle.lines.len() by {
                assert(rest[i] == pieces[head + i]);
            }
            assert forall|i: int, j: int| 0 <= i <= j < rest.len() implies middle.lines[(
            #[trigger] rest[i]).line as int].page <= middle.lines[(
            #[trigger] rest[j]).line as int].page by {
                assert(rest[i] == pieces[head + i]);
                assert(rest[j] == pieces[head + j]);
                assert(pieces[head + i].line <= pieces[head + j].line);
            }
            if rest.len() > 0 {
                assert(rest[0] == pieces[head]);
                let page = middle.lines[rest[0].line as int].page as int;
                assert forall|q: int| page < q < middle.pages.len() implies (
                #[trigger] middle.pages[q]).len() == 0 by {
                    if first.len() > 0 {
                        assert(first.last() == pieces[head - 1]);
                        assert(pieces[head - 1].line <= pieces[head].line);
                        assert(taken_state.lines[first.last().line as int].page <= page);
                    } else {
                        assert(middle == taken_state);
                    }
                }
            }
            law_written_in_order(middle, rest, false);
            assert((pages_text(taken_state.pages) + texts(first)) + texts(rest) =~= pages_text(
                taken_state.pages,
            ) + (texts(first) + texts(rest)));
        },
        Format::Left => {
            law_written_in_order(taken_state, pieces, false);
        },
        Format::Center => {},
    }
    lemma_pages_text_frame(before.pages, taken_state.pages);
}

/// Empty pages behind the pages add no text.
pub proof fn lemma_pages_text_frame(before: Seq<Seq<Placement>>, after: Seq<Seq<Placement>>)
    requires
        before.len() <= after.len(),
        forall|p: int| 0 <= p < before.len() ==> #[trigger] after[p] == before[p],
        forall|p: int| before.len() <= p < after.len() ==> (#[trigger] after[p]).len() == 0,
    ensures
        pages_text(after) == pages_text(before),
    decreases after.len(),
{
    if before.len() < after.len() {
        let head = after.drop_last();
        assert forall|p: int| 0 <= p < before.len() implies #[trigger] head[p] == before[p] by {
            assert(head[p] == after[p]);
        }
        assert forall|p: int| before.len() <= p < head.len() implies (#[trigger] head[p]).len()
            == 0 by {
            assert(head[p] == after[p]);
        }
        lemma_pages_text_frame(before, head);
        assert(after.last() == after[after.len() - 1]);
        assert(page_text(after.last()) =~= Seq::<char>::empty());
        assert(pages_text(after) =~= pages_text(head));
    } else {
        assert(after =~= before);
    }
}

/// The runs of a text are what they are: two lists of runs that both
/// resolve a text are the same list.
pub proof fn law_runs_unique(
    registry: Registry,
    text: Seq<char>,
    styled: Seq<(usize, Properties)>,
    a: Seq<Inline>,
    b: Seq<Inline>,
)
    requires
        resolved(registry, text, styled, a, text.len() as int),
        resolved(registry, text, styled, b, text.len() as int),
    ensures
        a == b,
{
    if a.len() > 0 {
        lemma_runs_agree(registry, text, styled, a, b, a.len() - 1);
        lemma_runs_agree(registry, text, styled, b, a, b.len() - 1);
        assert forall|j: int| 0 <= j < a.len() implies a[j] == b[j] by {
            lemma_runs_agree(registry, text, styled, a, b, j);
        }
    }
    assert(a =~= b);
}

/// Two lists of runs that both resolve a text agree up to run `j` of the
/// first.
pub proof fn lemma_runs_agree(
    registry: Registry,
    text: Seq<char>,
    styled: Seq<(usize, Properties)>,
    a: Seq<Inline>,
    b: Seq<Inline>,
    j: int,
)
    requires
        resolved(registry, text, styled, a, text.len() as int),
        resolved(registry, text, styled, b, text.len() as int),
        0 <= j < a.len(),
    ensures
        j < b.len(),
        a[j] == b[j],
        j == a.len() - 1 ==> j == b.len() - 1,
    decreases j,
{
    let n = text.len() as int;
    if j > 0 {
        lemma_runs_agree(registry, text, styled, a, b, j - 1);
        assert(meets(a, j - 1));
        lemma_resolved_ordered(registry, text, styled, a, n, j, j);
        lemma_resolved_ordered(registry, text, styled, b, n, j - 1, j - 1);
        // run j - 1 of `a` ends before the end of the text, so it is not the
        // last run of `b` either
        if j - 1 == b.len() - 1 {
            assert(b[j - 1].range.end == n);
            assert(a[j].range.start == a[j - 1].range.end);
            assert(false);
        }
        assert(meets(b, j - 1));
    }
    assert(a[j].range.start == b[j].range.start);
    lemma_resolved_ordered(registry, text, styled, a, n, j, j);
    lemma_resolved_ordered(registry, text, styled, b, n, j, j);
    let ea = a[j].range.end as int;
    let eb = b[j].range.end as int;
    if ea < eb {
        // a run of `a` begins at `ea`, inside run j of `b`
        assert(j + 1 < a.len()) by {
            if j == a.len() - 1 {
                assert(a.last().range.end == n);
            }
        }
        assert(meets(a, j));
        assert(boundary(text, styled, a[j + 1].range.start as int));
        assert(b[j].range.start < ea < b[j].range.end);
        assert(false);
    }
    if eb < ea {
        assert(j + 1 < b.len()) by {
            if j == b.len() - 1 {
                assert(b.last().range.end == n);
            }
        }
        assert(meets(b, j));
        assert(boundary(text, styled, b[j + 1].range.start as int));
        assert(a[j].range.start < eb < a[j].range.end);
        assert(false);
    }
    assert(run_of(registry, text, styled, a[j]));
    assert(run_of(registry, text, styled, b[j]));
    assert(a[j].range == b[j].range);
    if j == a.len() - 1 {
        assert(a.last().range.end == n);
        if j < b.len() - 1 {
            assert(meets(b, j));
            lemma_resolved_ordered(registry, text, styled, b, n, j + 1, j + 1);
            assert(false);
        }
    }
}

/// The lines of a paragraph are what they are: two lists of lines that both
/// break the same runs over the same lines of a layout have the same ranges
/// and the same widths.
pub proof fn law_lines_unique(inline: Seq<Inline>, a: Seq<Words>, b: Seq<Words>, s: State)
    requires
        broken(inline, a, s, inline.len() as int),
        broken(inline, b, s, inline.len() as int),
    ensures
        a.len() == b.len(),
        forall|l: int|
            0 <= l < a.len() ==> (#[trigger] a[l]).range == b[l].range && a[l].available
                == b[l].available,
{
    lemma_lines_agree(inline, a, b, s, a.len() - 1);
    lemma_lines_agree(inline, b, a, s, b.len() - 1);
    assert forall|l: int| 0 <= l < a.len() implies (#[trigger] a[l]).range == b[l].range
        && a[l].available == b[l].available by {
        lemma_lines_agree(inline, a, b, s, l);
    }
}

/// Two lists of lines that both break the same runs over the same lines of
/// a layout agree up to line `l` of the first.
pub proof fn lemma_lines_agree(inline: Seq<Inline>, a: Seq<Words>, b: Seq<Words>, s: State, l: int)
    requires
        broken(inline, a, s, inline.len() as int),
        broken(inline, b, s, inline.len() as int),
        0 <= l < a.len(),
    ensures
        l < b.len(),
        a[l].range == b[l].range,
        a[l].available == b[l].available,
        l == a.len() - 1 ==> l == b.len() - 1,
    decreases l,
{
    let n = inline.len() as int;
    assert(line_broken(inline, a, s, l));
    if l > 0 {
        lemma_lines_agree(inline, a, b, s, l - 1);
        assert(line_broken(inline, a, s, l - 1));
        assert(line_broken(inline, b, s, l - 1));
        if l - 1 == b.len() - 1 {
            assert(b.last().range.end == n);
            assert(false);
        }
    }
    assert(line_broken(inline, b, s, l));
    assert(a[l].range.start == b[l].range.start);
    let start = a[l].range.start as int;
    let ea = a[l].range.end as int;
    let eb = b[l].range.end as int;
    let available = a[l].available as int;
    if ea < eb {
        // the run at `ea` did not fit behind line l of `a`, yet fits on line
        // l of `b`
        assert(l + 1 < a.len()) by {
            if l == a.len() - 1 {
                assert(a.last().range.end == n);
            }
        }
        assert(fitted(inline, start, eb, available));
        assert(crate::writer::total_width(inline, start, ea) + inline[ea].width <= available);
        assert(false);
    }
    if eb < ea {
        assert(l + 1 < b.len()) by {
            if l == b.len() - 1 {
                assert(b.last().range.end == n);
            }
        }
        assert(fitted(inline, start, ea, available));
        assert(crate::writer::total_width(inline, start, eb) + inline[eb].width <= available);
        assert(false);
    }
    if l == a.len() - 1 {
        assert(a.last().range.end == n);
        if l < b.len() - 1 {
            assert(line_broken(inline, b, s, l + 1));
            assert(false);
        }
    }
}

} // verus!
