//! Laying out one block: a paragraph, a centred region or a drop cap.
//!
//! Each operation takes the runs of the block with their measured widths and
//! changes the layout; what it does is said by a function on `State`.

use vstd::prelude::*;
use vstd::slice::slice_subrange;
use crate::format::{
    get_unformatted, groups, justify, left, lemma_groups, lemma_written, offsets_bounded, room,
    spanning, total_runs, views, written, Group, Unformatted,
};
use crate::inline::Inline;
use crate::layout::{lemma_extend_to, Layout, Placement, State};
use crate::style::{Dimensions, Format, Rectangle};
use crate::text::string_of;
use crate::units::{half, MAX_ADVANCE, MAX_LEFT, MAX_LENGTH, MAX_RUNS};
use crate::writer::{
    broken, indented, lemma_indented, lemma_trimmed, line_broken, lines_bounded, measurable, trimmed, LineFormat,
    Words, Writer,
};

verus! {

/// The runs can be laid out: their widths and offsets are within bounds and
/// they lie in the text in order.
pub open spec fn typesettable(inline: Seq<Inline>, len: int) -> bool {
    &&& measurable(inline)
    &&& offsets_bounded(inline)
    &&& spanning(inline, len)
}

/// The lines with their ranges trimmed.
pub open spec fn trim_all(inline: Seq<Inline>, lines: Seq<Words>) -> Seq<Words> {
    Seq::new(lines.len(), |l: int| Words { range: trimmed(inline, lines[l].range), ..lines[l] })
}

/// The number of leading pieces that lie before line `line`.
pub open spec fn before_line(groups: Seq<Group>, line: int) -> int
    decreases groups.len(),
{
    if groups.len() > 0 && groups.last().line >= line {
        before_line(groups.drop_last(), line)
    } else {
        groups.len() as int
    }
}

/// The layout after the pieces of a paragraph of `count` lines were written:
/// justified but for the last line, left-aligned, or not at all.
pub open spec fn aligned(s: State, groups: Seq<Group>, format: Format, count: int) -> State {
    match format {
        Format::Justified => {
            let head = before_line(groups, count - 1);
            written(
                written(s, groups.subrange(0, head), true),
                groups.subrange(head, groups.len() as int),
                false,
            )
        },
        Format::Left => written(s, groups, false),
        Format::Center => s,
    }
}

/// `after` is the layout `before` once a paragraph was laid out that the
/// breaker broke into `lines`.
pub open spec fn paragraph_laid(
    before: State,
    after: State,
    text: Seq<char>,
    inline: Seq<Inline>,
    format: Format,
    line_format: LineFormat,
    lines: Seq<Words>,
) -> bool {
    let taken = indented(before, line_format, lines.len());
    &&& broken(inline, lines, taken, inline.len() as int)
    &&& after == aligned(
        taken,
        groups(text, inline, trim_all(inline, lines), lines.len() as int),
        format,
        lines.len() as int,
    ).drain_lines()
}

/// Where `before_line` ends.
pub proof fn lemma_before_line(groups: Seq<Group>, line: int)
    ensures
        0 <= before_line(groups, line) <= groups.len(),
        forall|i: int| before_line(groups, line) <= i < groups.len() ==> (#[trigger] groups[i]).line >= line,
        before_line(groups, line) > 0 ==> groups[before_line(groups, line) - 1].line < line,
    decreases groups.len(),
{
    if groups.len() > 0 && groups.last().line >= line {
        let head = groups.drop_last();
        lemma_before_line(head, line);
        assert forall|i: int| before_line(groups, line) <= i < groups.len() implies (
        #[trigger] groups[i]).line >= line by {
            if i < head.len() {
                assert(groups[i] == head[i]);
            }
        }
        if before_line(groups, line) > 0 {
            assert(groups[before_line(groups, line) - 1] == head[before_line(head, line) - 1]);
        }
    }
}

/// Trimmed lines hold no more runs than the lines they were trimmed from,
/// which hold each run once.
pub proof fn lemma_total_runs(inline: Seq<Inline>, lines: Seq<Words>, s: State, count: int)
    requires
        broken(inline, lines, s, inline.len() as int),
        0 < count <= lines.len(),
    ensures
        total_runs(trim_all(inline, lines), count) <= lines[count - 1].range.end <= inline.len(),
        count <= lines[count - 1].range.end,
    decreases count,
{
    assert(line_broken(inline, lines, s, count - 1));
    lemma_trimmed(inline, lines[count - 1].range);
    if count > 1 {
        lemma_total_runs(inline, lines, s, count - 1);
        assert(line_broken(inline, lines, s, count - 2));
    } else {
        assert(total_runs(trim_all(inline, lines), 0) == 0);
    }
}

/// Finds the first piece that does not lie before line `line`, for pieces
/// that end on or behind that line.
fn split_at_line(unformatted: &Vec<Unformatted>, line: usize) -> (head: usize)
    ensures
        head == before_line(views(unformatted@), line as int),
        head <= unformatted@.len(),
{
    let mut head: usize = unformatted.len();
    proof {
        assert(views(unformatted@).subrange(0, head as int) =~= views(unformatted@));
    }
    while head > 0 && unformatted[head - 1].line >= line
        invariant
            head <= unformatted@.len(),
            before_line(views(unformatted@).subrange(0, head as int), line as int) == before_line(
                views(unformatted@),
                line as int,
            ),
        decreases head,
    {
        proof {
            let now = views(unformatted@).subrange(0, head as int);
            assert(now.last() == unformatted@[head - 1]@);
            assert(now.drop_last() =~= views(unformatted@).subrange(0, head - 1));
        }
        head -= 1;
    }
    proof {
        let now = views(unformatted@).subrange(0, head as int);
        if head > 0 {
            assert(now.last() == unformatted@[head - 1]@);
        }
    }
    head
}

/// Lays out a paragraph: breaks the runs into lines of the layout, trims the
/// lines, gathers their pieces and writes them as the format says, the last
/// line of a justified paragraph left-aligned, then empties the queue of
/// lines. Without runs only the queue is emptied.
pub fn paint_paragraph(
    layout: &mut Layout,
    text: &Vec<char>,
    inline: &Vec<Inline>,
    format: Format,
    line_format: LineFormat,
)
    requires
        old(layout)@.wf(),
        lines_bounded(old(layout)@, 0),
        typesettable(inline@, text@.len() as int),
        line_format.valid(),
    ensures
        final(layout)@.wf(),
        final(layout)@.lines.len() == 0,
        inline@.len() == 0 ==> final(layout)@ == old(layout)@.drain_lines(),
        inline@.len() > 0 ==> exists|lines: Seq<Words>| #[trigger]
            paragraph_laid(old(layout)@, final(layout)@, text@, inline@, format, line_format, lines),
{
    if inline.len() == 0 {
        layout.drain_lines();
        return ;
    }
    let mut writer = Writer::new(text, inline, line_format);
    writer.write(layout);
    let ghost lines = writer.lines@;
    let ghost taken = layout@;
    proof {
        assert forall|l: int| 0 <= l < lines.len() implies (#[trigger] lines[l]).range.start
            <= lines[l].range.end <= inline@.len() by {
            assert(line_broken(inline@, lines, taken, l));
        }
        lemma_total_runs(inline@, lines, taken, lines.len() as int);
        lemma_indented(old(layout)@, line_format, lines.len());
    }
    writer.trim();
    let trimmed_lines = writer.get_lines();
    let count: usize = trimmed_lines.len();
    proof {
        assert(trimmed_lines@ =~= trim_all(inline@, lines));
        assert forall|l: int| 0 <= l < trimmed_lines@.len() implies (#[trigger] trimmed_lines@[l]).wf()
            && trimmed_lines@[l].inline@ == inline@ by {
            assert(line_broken(inline@, lines, taken, l));
            lemma_trimmed(inline@, lines[l].range);
            assert(taken.lines[l].taken_bounded());
        }
        assert(line_broken(inline@, lines, taken, 0));
        lemma_groups(text@, inline@, trimmed_lines@, count as int);
        lemma_total_runs(inline@, lines, taken, count as int);
    }
    let unformatted = get_unformatted(text, inline, trimmed_lines);
    let ghost all = views(unformatted@);
    proof {
        assert forall|j: int| 0 <= j < taken.lines.len() implies {
            &&& 0 <= (#[trigger] taken.lines[j]).top <= MAX_LENGTH
            &&& -(MAX_LEFT - all.len() * MAX_ADVANCE) <= taken.lines[j].left <= MAX_LEFT
                - all.len() * MAX_ADVANCE
        } by {
            assert(0 <= all.len() * MAX_ADVANCE <= 0x1_0000 * MAX_ADVANCE) by (nonlinear_arith)
                requires
                    0 <= all.len() <= 0x1_0000,
                    MAX_ADVANCE == 0x1000_0000_0000,
            ;
            if j < count {
                assert(taken.lines[j].taken_bounded());
            } else {
                assert(taken.lines[j].bounded());
            }
        }
        assert(room(taken, all.len() as int));
    }
    match format {
        Format::Justified => {
            let head: usize = split_at_line(&unformatted, count - 1);
            let first = slice_subrange(unformatted.as_slice(), 0, head);
            let rest = slice_subrange(unformatted.as_slice(), head, unformatted.len());
            proof {
                assert(views(first@) =~= all.subrange(0, head as int));
                assert(views(rest@) =~= all.subrange(head as int, all.len() as int));
                assert forall|i: int| 0 <= i < first@.len() implies (#[trigger] first@[i])@.placeable()
                    && first@[i].line < taken.lines.len() by {
                    assert(first@[i]@ == all[i]);
                }
                assert forall|i: int| 0 <= i < rest@.len() implies (#[trigger] rest@[i])@.placeable()
                    && rest@[i].line < taken.lines.len() by {
                    assert(rest@[i]@ == all[head + i]);
                }
                assert forall|i: int| 0 <= i < views(first@).len() implies (#[trigger] views(
                    first@,
                )[i]).placeable() && views(first@)[i].line < taken.lines.len() by {
                    assert(views(first@)[i] == all[i]);
                }
                assert((first@.len() + rest@.len()) * MAX_ADVANCE == all.len() * MAX_ADVANCE);
                lemma_written(taken, views(first@), true, rest@.len() as int);
            }
            proof {
                assert(room(taken, first@.len() as int)) by {
                    assert(first@.len() * MAX_ADVANCE <= all.len() * MAX_ADVANCE)
                        by (nonlinear_arith)
                        requires
                            0 <= first@.len() <= all.len(),
                            MAX_ADVANCE == 0x1000_0000_0000,
                    ;
                    assert forall|j: int| 0 <= j < taken.lines.len() implies {
                        &&& 0 <= (#[trigger] taken.lines[j]).top <= MAX_LENGTH
                        &&& -(MAX_LEFT - first@.len() * MAX_ADVANCE) <= taken.lines[j].left
                            <= MAX_LEFT - first@.len() * MAX_ADVANCE
                    } by {
                        assert(0 <= taken.lines[j].top <= MAX_LENGTH);
                    }
                }
            }
            justify(layout, first);
            left(layout, rest);
        },
        Format::Left => {
            let pieces = unformatted.as_slice();
            proof {
                assert(views(pieces@) =~= all);
                assert forall|i: int| 0 <= i < pieces@.len() implies (#[trigger] pieces@[i])@.placeable()
                    && pieces@[i].line < taken.lines.len() by {
                    assert(pieces@[i]@ == all[i]);
                }
            }
            left(layout, pieces);
        },
        Format::Center => {},
    }
    layout.drain_lines();
    proof {
        assert(paragraph_laid(old(layout)@, layout@, text@, inline@, format, line_format, lines));
    }
}

/// Every queued line is locked and within the extent that a line may have
/// when a block is laid out.
pub open spec fn settled(s: State) -> bool {
    forall|j: int| 0 <= j < s.lines.len() ==> (#[trigger] s.lines[j]).locked && s.lines[j].bounded()
}

/// Line `line` reserved for text that flows round a piece `width` wide:
/// queued if it was not, moved right and made narrower by `width` unless it
/// was locked, and locked.
pub open spec fn reserved(s: State, line: int, width: i64) -> State {
    let e = s.extend_to((line + 1) as nat);
    e.with_line(line, e.lines[line].mutated(width as int, -width).as_locked())
}

/// The width of a drop cap: that of its first run and the padding.
pub open spec fn drop_cap_width(dim: Dimensions, inline: Seq<Inline>) -> i64 {
    (inline[0].width + dim.drop_cap_padding) as i64
}

/// The layout after a drop cap was set: room is made for two lines, the
/// first two lines are reserved, and the text is placed at the body cursor,
/// two lines high.
pub open spec fn drop_cap(s: State, dim: Dimensions, text: Seq<char>, inline: Seq<Inline>) -> State {
    let width = drop_cap_width(dim, inline);
    let height = (2 * s.line_height) as i64;
    let room = s.request_height(height as int);
    reserved(reserved(room, 0, width), 1, width).write(
        room.current_page(),
        Placement {
            text,
            rect: room.from_body(width, height),
            style: inline[0].properties.style,
            word_spacing: 0,
        },
    )
}

/// Reserving a line keeps the layout well formed, leaves the other lines, the
/// pages that were there and the body as taking lines leaves them, and keeps
/// a settled layout settled.
pub proof fn lemma_reserved(s: State, line: int, width: i64)
    requires
        s.wf(),
        0 <= line,
        0 <= width <= 2 * MAX_LENGTH,
    ensures
        reserved(s, line, width).wf(),
        reserved(s, line, width).lines.len() == s.extend_to((line + 1) as nat).lines.len(),
        reserved(s, line, width).lines[line].locked,
        reserved(s, line, width).pages == s.extend_to((line + 1) as nat).pages,
        reserved(s, line, width).pages.len() >= s.pages.len(),
        forall|j: int|
            0 <= j < s.lines.len() && j != line ==> #[trigger] reserved(s, line, width).lines[j]
                == s.lines[j],
        line < s.lines.len() && s.lines[line].locked ==> reserved(s, line, width).lines[line]
            == s.lines[line],
        settled(s) && line <= s.lines.len() ==> settled(reserved(s, line, width)),
        lines_bounded(s, 0) && line + 1 < reserved(s, line, width).lines.len() ==> reserved(
            s,
            line,
            width,
        ).lines[line + 1].bounded(),
{
    let e = s.extend_to((line + 1) as nat);
    lemma_extend_to(s, (line + 1) as nat);
    let r = reserved(s, line, width);
    if line >= s.lines.len() {
        assert(e.lines[line].fresh(e));
    } else {
        assert(e.lines[line] == s.lines[line]);
    }
    assert forall|i: int| 0 <= i < r.lines.len() implies (#[trigger] r.lines[i]).page
        < r.pages.len() by {
        assert(e.lines[i].page < e.pages.len());
    }
    if settled(s) && line <= s.lines.len() {
        assert forall|j: int| 0 <= j < r.lines.len() implies (#[trigger] r.lines[j]).locked
            && r.lines[j].bounded() by {
            if j < s.lines.len() {
                assert(e.lines[j] == s.lines[j]);
                assert(s.lines[j].locked && s.lines[j].bounded());
            } else {
                assert(j == line);
                assert(e.lines[j].fresh(e));
            }
        }
    }
    if lines_bounded(s, 0) && line + 1 < r.lines.len() {
        assert(r.lines[line + 1] == s.lines[line + 1]);
        assert(s.lines[line + 1].bounded());
    }
}

/// Reserves a line for text that flows round a piece `width` wide.
fn reserve(layout: &mut Layout, line: usize, width: i64)
    requires
        old(layout)@.wf(),
        line < 2,
        0 <= width <= 2 * MAX_LENGTH,
        line < old(layout)@.lines.len() ==> old(layout)@.lines[line as int].bounded(),
    ensures
        final(layout)@ == reserved(old(layout)@, line as int, width),
        final(layout)@.wf(),
{
    proof {
        lemma_extend_to(old(layout)@, (line + 1) as nat);
        lemma_reserved(old(layout)@, line as int, width);
        let e = old(layout)@.extend_to((line + 1) as nat);
        if line < old(layout)@.lines.len() {
            assert(e.lines[line as int] == old(layout)@.lines[line as int]);
        } else {
            assert(e.lines[line as int].fresh(e));
        }
    }
    let entry = layout.get_line(line);
    entry.mutate(width, -width);
    entry.lock();
}

/// Sets a drop cap: the whole text of the block, as wide as its first run
/// and the padding, two lines high at the body cursor, with the first two
/// lines of the body reserved and locked for the text that flows round it.
pub fn paint_drop_cap(layout: &mut Layout, dim: &Dimensions, text: &Vec<char>, inline: &Vec<Inline>)
    requires
        old(layout)@.wf(),
        lines_bounded(old(layout)@, 0),
        dim.valid(),
        inline@.len() > 0,
        0 <= inline@[0].width <= MAX_LENGTH,
    ensures
        final(layout)@ == drop_cap(old(layout)@, *dim, text@, inline@),
        final(layout)@.wf(),
        settled(old(layout)@) ==> settled(final(layout)@),
{
    let width: i64 = inline[0].width + dim.drop_cap_padding;
    let height: i64 = 2 * layout.get_line_height();
    let page = layout.request_height(height);
    let rect = layout.from_body(width, height);
    let ghost room = layout@;
    proof {
        assert(room.lines == old(layout)@.lines);
        assert(lines_bounded(room, 0));
        assert(settled(old(layout)@) ==> settled(room));
        lemma_reserved(room, 0, width);
        lemma_reserved(reserved(room, 0, width), 1, width);
        if room.lines.len() > 0 {
            assert(room.lines[0].bounded());
        }
    }
    reserve(layout, 0, width);
    reserve(layout, 1, width);
    layout.write(page, string_of(text.as_slice()), rect, inline[0].properties.style, 0);
    proof {
        let first = reserved(room, 0, width);
        let last = reserved(first, 1, width);
        assert(layout@.lines == last.lines);
        lemma_extend_to(room, 1);
        assert(first.lines.len() >= 1);
        if settled(old(layout)@) {
            assert(settled(room));
            assert(settled(first));
            assert(settled(last));
            assert forall|j: int| 0 <= j < layout@.lines.len() implies (#[trigger] layout@.lines[j]).locked
                && layout@.lines[j].bounded() by {
                assert(last.lines[j].locked && last.lines[j].bounded());
            }
        }
    }
}

/// Where a piece of a centred region is placed: on its line of the region's
/// own layout, moved down so that as many lines as there are pieces stand in
/// the middle of the region, and moved right by half of what its line has
/// left.
pub open spec fn centered_placement(
    sub: State,
    g: Group,
    pieces: int,
    height: i64,
    line_height: i64,
) -> Placement {
    Placement {
        text: g.text,
        rect: Rectangle {
            top: (sub.lines[g.line as int].top + (height - pieces * line_height) / 2) as i64,
            left: (sub.lines[g.line as int].left + g.metrics.remaining / 2) as i64,
            width: g.width,
            height: line_height,
        },
        style: g.properties.style,
        word_spacing: 0,
    }
}

/// The layout after the first `count` pieces of a centred region were placed
/// on a page.
pub open spec fn centered(
    s: State,
    sub: State,
    groups: Seq<Group>,
    count: int,
    page: int,
    height: i64,
    line_height: i64,
) -> State
    decreases count,
{
    if count <= 0 {
        s
    } else {
        centered(s, sub, groups, count - 1, page, height, line_height).write(
            page,
            centered_placement(sub, groups[count - 1], groups.len() as int, height, line_height),
        )
    }
}

/// The layout of its own in which a region is broken into lines.
pub open spec fn region_layout(s: State, dim: Dimensions, height: i64, line_height: i64) -> State {
    State { body: s.body, ..State::new(dim.width, height, line_height) }
}

/// `after` is the layout `before` once a region was laid out that the
/// breaker broke into `lines`: room is made for the region and two lines,
/// the body cursor moves down by the height of the region, a centred region
/// has its pieces placed on the page, and the queue of lines is emptied.
pub open spec fn region_laid(
    before: State,
    after: State,
    dim: Dimensions,
    text: Seq<char>,
    inline: Seq<Inline>,
    format: Format,
    height: i64,
    line_height: i64,
    lines: Seq<Words>,
) -> bool {
    let sub = indented(
        region_layout(before, dim, height, line_height),
        LineFormat { head: 0, tail: 0, shrink: 0 },
        lines.len(),
    );
    let pieces = groups(text, inline, trim_all(inline, lines), lines.len() as int);
    let room = before.request_height(height + 2 * before.line_height);
    let moved = room.mutate_body(height as int);
    &&& inline.len() > 0 ==> broken(inline, lines, sub, inline.len() as int)
    &&& inline.len() == 0 ==> lines.len() == 0
    &&& after == (if format == Format::Center {
        centered(moved, sub, pieces, pieces.len() as int, room.current_page(), height, line_height)
    } else {
        moved
    }).drain_lines()
}

/// Placing pieces on a page changes that page alone.
pub proof fn lemma_centered(
    s: State,
    sub: State,
    groups: Seq<Group>,
    count: int,
    page: int,
    height: i64,
    line_height: i64,
)
    requires
        s.wf(),
        0 <= page < s.pages.len(),
        0 <= count,
    ensures
        centered(s, sub, groups, count, page, height, line_height).wf(),
        centered(s, sub, groups, count, page, height, line_height).lines == s.lines,
        centered(s, sub, groups, count, page, height, line_height).body == s.body,
        centered(s, sub, groups, count, page, height, line_height).pages.len() == s.pages.len(),
        centered(s, sub, groups, count, page, height, line_height).indices == s.indices,
    decreases count,
{
    if count > 0 {
        lemma_centered(s, sub, groups, count - 1, page, height, line_height);
        let before = centered(s, sub, groups, count - 1, page, height, line_height);
        let after = centered(s, sub, groups, count, page, height, line_height);
        assert forall|i: int| 0 <= i < after.lines.len() implies (#[trigger] after.lines[i]).page
            < after.pages.len() by {
            assert(before.lines[i].page < before.pages.len());
        }
    }
}

/// Lays out a region of the given height: breaks the runs into lines of a
/// layout of its own that starts at the body cursor, makes room on the page
/// for the region and two lines, moves the body cursor down by the height of
/// the region, places the pieces of a centred region, and empties the queue
/// of lines.
pub fn paint_region(
    layout: &mut Layout,
    dim: &Dimensions,
    text: &Vec<char>,
    inline: &Vec<Inline>,
    format: Format,
    height: i64,
    line_height: i64,
)
    requires
        old(layout)@.wf(),
        dim.valid(),
        typesettable(inline@, text@.len() as int),
        0 <= height <= MAX_LENGTH,
        0 <= line_height <= MAX_LENGTH,
        format != Format::Left,
    ensures
        final(layout)@.wf(),
        final(layout)@.lines.len() == 0,
        exists|lines: Seq<Words>| #[trigger]
            region_laid(
                old(layout)@,
                final(layout)@,
                *dim,
                text@,
                inline@,
                format,
                height,
                line_height,
                lines,
            ),
{
    let mut sub = layout.sub_layout(dim.width, height, line_height);
    let ghost sub0 = sub@;
    let mut writer = Writer::new(text, inline, LineFormat::default());
    if inline.len() > 0 {
        writer.write(&mut sub);
    }
    let ghost lines = writer.lines@;
    proof {
        if inline@.len() > 0 {
            assert forall|l: int| 0 <= l < lines.len() implies (#[trigger] lines[l]).range.start
                <= lines[l].range.end <= inline@.len() by {
                assert(line_broken(inline@, lines, sub@, l));
            }
            lemma_total_runs(inline@, lines, sub@, lines.len() as int);
        } else {
            assert(indented(sub0, LineFormat { head: 0, tail: 0, shrink: 0 }, 0) == sub0);
        }
        lemma_indented(sub0, LineFormat { head: 0, tail: 0, shrink: 0 }, lines.len());
    }
    writer.trim();
    let trimmed_lines = writer.get_lines();
    let ghost count = trimmed_lines@.len();
    proof {
        assert(trimmed_lines@ =~= trim_all(inline@, lines));
        assert forall|l: int| 0 <= l < trimmed_lines@.len() implies (#[trigger] trimmed_lines@[l]).wf()
            && trimmed_lines@[l].inline@ == inline@ by {
            assert(line_broken(inline@, lines, sub@, l));
            lemma_trimmed(inline@, lines[l].range);
            assert(sub@.lines[l].taken_bounded());
        }
        lemma_groups(text@, inline@, trimmed_lines@, count as int);
        if count > 0 {
            assert(line_broken(inline@, lines, sub@, 0));
        }
    }
    let unformatted = get_unformatted(text, inline, trimmed_lines);
    let ghost all = views(unformatted@);
    let page = layout.request_height(height + 2 * layout.get_line_height());
    let ghost room = layout@;
    layout.mutate_body(height);
    let ghost moved = layout@;
    match format {
        Format::Center => {
            let pieces: usize = unformatted.len();
            proof {
                assert(pieces <= MAX_RUNS);
                assert(0 <= pieces * line_height <= 0x1_0000 * 0x3ff_ffff) by (nonlinear_arith)
                    requires
                        0 <= pieces <= 0x1_0000,
                        0 <= line_height <= 0x3ff_ffff,
                ;
            }
            let total_height: i64 = (pieces as i64) * line_height;
            let top_offset: i64 = half(height - total_height);
            let mut i: usize = 0;
            while i < pieces
                invariant
                    pieces == unformatted@.len(),
                    all == views(unformatted@),
                    i <= pieces,
                    layout@.wf(),
                    page < moved.pages.len(),
                    moved.wf(),
                    sub@.wf(),
                    top_offset == (height - pieces * line_height) / 2,
                    -0x400_0000_0000 <= top_offset <= MAX_LENGTH,
                    layout@ == centered(moved, sub@, all, i as int, page as int, height, line_height),
                    forall|k: int|
                        0 <= k < all.len() ==> (#[trigger] all[k]).placeable() && all[k].line
                            < count,
                    count <= sub@.lines.len(),
                    forall|j: int| 0 <= j < count ==> (#[trigger] sub@.lines[j]).taken_bounded(),
                decreases pieces - i,
            {
                let piece = &unformatted[i];
                proof {
                    assert(piece@ == all[i as int]);
                    assert(all[i as int].placeable() && all[i as int].line < count);
                    assert(sub@.lines[piece.line as int].taken_bounded());
                    lemma_centered(moved, sub@, all, i as int, page as int, height, line_height);
                }
                let region = sub.line(piece.line);
                let rect = Rectangle {
                    top: region.top + top_offset,
                    left: region.left + half(piece.metrics.remaining),
                    width: piece.width,
                    height: line_height,
                };
                layout.write(page, string_of(piece.text), rect, piece.properties.style, 0);
                i += 1;
            }
        },
        _ => {},
    }
    proof {
        lemma_centered(moved, sub@, all, all.len() as int, page as int, height, line_height);
    }
    layout.drain_lines();
    proof {
        assert(region_laid(
            old(layout)@,
            layout@,
            *dim,
            text@,
            inline@,
            format,
            height,
            line_height,
            lines,
        ));
    }
}

} // verus!
