//! The inline resolver: cuts the text of a block into runs that share one
//! entry of the styled-cursor list and one class, white space or not.

use vstd::prelude::*;
use crate::renderer::{Registry, Renderer};
use crate::style::{Properties, Range, Style};
use crate::text::{is_whitespace, whitespace};

verus! {

/// A run of characters of one style and one class.
#[derive(Clone, Copy, Debug, PartialEq, Eq)]
pub struct Inline {
    /// The positions of its characters in the text of the block.
    pub range: Range,
    pub is_whitespace: bool,
    pub properties: Properties,
    /// The width that the host measured; zero until then.
    pub width: i64,
    pub top_offset: i64,
}

/// The entry that styles position `i`, searched from entry `from` on: the
/// first whose upper bound lies beyond `i`, or the last entry.
#[verifier::opaque]
pub open spec fn entry_from(styled: Seq<(usize, Properties)>, i: int, from: int) -> int
    decreases styled.len() - from,
{
    if from + 1 >= styled.len() {
        from
    } else if styled[from].0 > i {
        from
    } else {
        entry_from(styled, i, from + 1)
    }
}

/// The entry that styles position `i`.
pub open spec fn entry_at(styled: Seq<(usize, Properties)>, i: int) -> int {
    entry_from(styled, i, 0)
}

/// Whether a run ends before position `i`: the class or the entry changes
/// there.
#[verifier::opaque]
pub open spec fn boundary(text: Seq<char>, styled: Seq<(usize, Properties)>, i: int) -> bool {
    whitespace(text[i]) != whitespace(text[i - 1]) || entry_at(styled, i) != entry_at(
        styled,
        i - 1,
    )
}

/// The runs cover `[0, end)` without gap or overlap, none is empty, each ends
/// where the next begins, a run begins at every boundary and nowhere else, and
/// each run has the class of its characters, the properties of its entry, the
/// offset of its style and no width yet.
pub open spec fn resolved(
    registry: Registry,
    text: Seq<char>,
    styled: Seq<(usize, Properties)>,
    runs: Seq<Inline>,
    end: int,
) -> bool {
    &&& runs.len() == 0 <==> end == 0
    &&& runs.len() > 0 ==> runs[0].range.start == 0 && runs.last().range.end == end
    &&& forall|j: int| 0 <= j < runs.len() ==> (#[trigger] runs[j]).range.start < runs[j].range.end
    &&& forall|j: int| 0 <= j < runs.len() - 1 ==> #[trigger] meets(runs, j)
    &&& forall|j: int| 0 < j < runs.len() ==> boundary(text, styled, (#[trigger] runs[j]).range.start as int)
    &&& forall|j: int, i: int|
        0 <= j < runs.len() && (#[trigger] runs[j]).range.start < i < runs[j].range.end ==> !#[trigger] boundary(
            text,
            styled,
            i,
        )
    &&& forall|j: int| 0 <= j < runs.len() ==> run_of(registry, text, styled, #[trigger] runs[j])
}

/// Run `j` ends where the next run begins.
pub open spec fn meets(runs: Seq<Inline>, j: int) -> bool {
    runs[j].range.end == runs[j + 1].range.start
}

/// The run has the class of its first character, the properties of the entry
/// of its first character, the offset of its style and no width.
pub open spec fn run_of(
    registry: Registry,
    text: Seq<char>,
    styled: Seq<(usize, Properties)>,
    run: Inline,
) -> bool {
    &&& run.is_whitespace == whitespace(text[run.range.start as int])
    &&& run.properties == styled[entry_at(styled, run.range.start as int)].1
    &&& run.top_offset == registry.top_offset(run.properties.style)
    &&& run.width == 0
}

/// Where `entry_from` ends: at an entry not before `from`, after entries whose
/// bounds do not lie beyond `i`, and at the last entry or one whose bound does.
pub proof fn lemma_entry_from(styled: Seq<(usize, Properties)>, i: int, from: int)
    requires
        0 <= from < styled.len(),
    ensures
        from <= entry_from(styled, i, from) < styled.len(),
        forall|k: int| from <= k < entry_from(styled, i, from) ==> (#[trigger] styled[k]).0 <= i,
        entry_from(styled, i, from) + 1 == styled.len() || styled[entry_from(styled, i, from)].0
            > i,
    decreases styled.len() - from,
{
    reveal(entry_from);
    if from + 1 < styled.len() && styled[from].0 <= i {
        lemma_entry_from(styled, i, from + 1);
    }
}

/// The search may start at any entry up to the one it finds.
pub proof fn lemma_entry_from_any(styled: Seq<(usize, Properties)>, i: int, from: int, k: int)
    requires
        0 <= from <= k <= entry_from(styled, i, from),
        from < styled.len(),
    ensures
        entry_from(styled, i, k) == entry_from(styled, i, from),
    decreases k - from,
{
    reveal(entry_from);
    lemma_entry_from(styled, i, from);
    if from < k {
        assert(styled[from].0 <= i);
        lemma_entry_from_any(styled, i, from + 1, k);
    }
}

/// The entry of a position does not lie before the entry of an earlier one.
pub proof fn lemma_entry_monotone(styled: Seq<(usize, Properties)>, i: int, j: int)
    requires
        styled.len() > 0,
        i <= j,
    ensures
        entry_at(styled, i) <= entry_at(styled, j),
        entry_from(styled, j, entry_at(styled, i)) == entry_at(styled, j),
{
    lemma_entry_from(styled, i, 0);
    lemma_entry_from(styled, j, 0);
    let a = entry_at(styled, i);
    let b = entry_at(styled, j);
    if b < a {
        assert(styled[b].0 <= i);
    }
    lemma_entry_from_any(styled, j, 0, a);
}

/// The entry that styles position `i`, found from the entry of an earlier
/// position.
fn advance(styled: &Vec<(usize, Properties)>, i: usize, from: usize) -> (entry: usize)
    requires
        from < styled.len(),
    ensures
        entry == entry_from(styled@, i as int, from as int),
        entry < styled.len(),
{
    let mut k: usize = from;
    while k + 1 < styled.len() && styled[k].0 <= i
        invariant
            from <= k < styled.len(),
            entry_from(styled@, i as int, k as int) == entry_from(styled@, i as int, from as int),
        decreases styled.len() - k,
    {
        proof {
            reveal(entry_from);
        }
        k += 1;
    }
    proof {
        reveal(entry_from);
    }
    k
}

/// Cuts the text of a block into its runs.
///
/// `styled` is the styled-cursor list of the block: each entry holds the
/// position at which its text ends and the properties of that text.
pub fn inline(renderer: &Renderer, text: &Vec<char>, styled: &Vec<(usize, Properties)>) -> (runs:
    Vec<Inline>)
    requires
        renderer@.wf(),
        uses_verse(styled@) ==> renderer@.has_padding(Style::Normal),
        styled.len() > 0,
    ensures
        resolved(renderer@, text@, styled@, runs@, text@.len() as int),
{
    let n: usize = text.len();
    let mut runs: Vec<Inline> = Vec::new();
    if n == 0 {
        return runs;
    }
    let mut start: usize = 0;
    let mut entry: usize = advance(styled, 0, 0);
    let mut space: bool = is_whitespace(text[0]);
    let mut i: usize = 1;
    while i < n
        invariant
            n == text.len(),
            renderer@.wf(),
            uses_verse(styled@) ==> renderer@.has_padding(Style::Normal),
            styled.len() > 0,
            start < i <= n,
            entry < styled.len(),
            entry == entry_at(styled@, i - 1),
            entry == entry_at(styled@, start as int),
            space == whitespace(text@[i - 1]),
            space == whitespace(text@[start as int]),
            resolved(renderer@, text@, styled@, runs@, start as int),
            start > 0 ==> boundary(text@, styled@, start as int),
            forall|k: int| start < k < i ==> !#[trigger] boundary(text@, styled@, k),
        decreases n - i,
    {
        proof {
            lemma_entry_monotone(styled@, i - 1, i as int);
            reveal(boundary);
        }
        let next: usize = advance(styled, i, entry);
        let class: bool = is_whitespace(text[i]);
        if next != entry || class != space {
            let properties = styled[entry].1;
            assert(properties.style == Style::Verse ==> uses_verse(styled@)) by {
                assert(styled@[entry as int].1 == properties);
            }
            let run = Inline {
                range: Range { start, end: i },
                is_whitespace: space,
                properties,
                width: 0,
                top_offset: renderer.top_offset(properties.style),
            };
            proof {
                lemma_push_run(renderer@, text@, styled@, runs@, run);
            }
            runs.push(run);
            start = i;
        }
        entry = next;
        space = class;
        i += 1;
    }
    let properties = styled[entry].1;
    assert(properties.style == Style::Verse ==> uses_verse(styled@)) by {
        assert(styled@[entry as int].1 == properties);
    }
    let run = Inline {
        range: Range { start, end: n },
        is_whitespace: space,
        properties,
        width: 0,
        top_offset: renderer.top_offset(properties.style),
    };
    proof {
        lemma_push_run(renderer@, text@, styled@, runs@, run);
    }
    runs.push(run);
    runs
}

/// A further run, appended to the runs that cover the text before it, makes
/// runs that cover the text up to its end.
pub proof fn lemma_push_run(
    registry: Registry,
    text: Seq<char>,
    styled: Seq<(usize, Properties)>,
    runs: Seq<Inline>,
    run: Inline,
)
    requires
        resolved(registry, text, styled, runs, run.range.start as int),
        run.range.start < run.range.end,
        run.range.start > 0 ==> boundary(text, styled, run.range.start as int),
        forall|k: int| run.range.start < k < run.range.end ==> !#[trigger] boundary(text, styled, k),
        run_of(registry, text, styled, run),
    ensures
        resolved(registry, text, styled, runs.push(run), run.range.end as int),
{
    let after = runs.push(run);
    assert forall|j: int| 0 <= j < after.len() implies (#[trigger] after[j]).range.start
        < after[j].range.end by {
        if j < runs.len() {
            assert(after[j] == runs[j]);
        }
    }
    assert forall|j: int| 0 <= j < after.len() - 1 implies #[trigger] meets(after, j) by {
        if j < runs.len() - 1 {
            assert(meets(runs, j));
            assert(after[j] == runs[j]);
            assert(after[j + 1] == runs[j + 1]);
        } else {
            assert(after[j] == runs.last());
        }
    }
    assert forall|j: int| 0 < j < after.len() implies boundary(
        text,
        styled,
        (#[trigger] after[j]).range.start as int,
    ) by {
        if j < runs.len() {
            assert(after[j] == runs[j]);
        }
    }
    assert forall|j: int, i: int|
        0 <= j < after.len() && (#[trigger] after[j]).range.start < i
            < after[j].range.end implies !#[trigger] boundary(text, styled, i) by {
        if j < runs.len() {
            assert(after[j] == runs[j]);
        }
    }
    assert forall|j: int| 0 <= j < after.len() implies run_of(
        registry,
        text,
        styled,
        #[trigger] after[j],
    ) by {
        if j < runs.len() {
            assert(after[j] == runs[j]);
        }
    }
    if runs.len() > 0 {
        assert(after[0] == runs[0]);
    }
}

/// Some entry of the styled-cursor list has the style of verse numbers.
pub open spec fn uses_verse(styled: Seq<(usize, Properties)>) -> bool {
    exists|k: int| 0 <= k < styled.len() && (#[trigger] styled[k]).1.style == Style::Verse
}

/// The number of boundaries before position `end`.
pub open spec fn boundaries(text: Seq<char>, styled: Seq<(usize, Properties)>, end: int) -> int
    decreases end,
{
    if end <= 1 {
        0
    } else {
        boundaries(text, styled, end - 1) + if boundary(text, styled, end - 1) {
            1int
        } else {
            0int
        }
    }
}

/// The number of runs of a text: one more than it has boundaries, and none
/// for an empty text.
pub open spec fn run_count(text: Seq<char>, styled: Seq<(usize, Properties)>) -> int {
    if text.len() == 0 {
        0
    } else {
        boundaries(text, styled, text.len() as int) + 1
    }
}

/// Where no boundary lies between two positions, as many boundaries lie
/// before the one as before the other.
pub proof fn lemma_no_boundaries(text: Seq<char>, styled: Seq<(usize, Properties)>, a: int, b: int)
    requires
        0 <= a < b,
        forall|i: int| a < i < b ==> !#[trigger] boundary(text, styled, i),
    ensures
        boundaries(text, styled, b) == boundaries(text, styled, a + 1),
    decreases b - a,
{
    if a + 1 < b {
        lemma_no_boundaries(text, styled, a, b - 1);
        assert(!boundary(text, styled, b - 1));
    }
}

/// Resolved runs are as many as the text has runs.
pub proof fn lemma_resolved_count(
    registry: Registry,
    text: Seq<char>,
    styled: Seq<(usize, Properties)>,
    runs: Seq<Inline>,
    end: int,
)
    requires
        resolved(registry, text, styled, runs, end),
        0 <= end,
    ensures
        runs.len() == if end == 0 {
            0
        } else {
            boundaries(text, styled, end) + 1
        },
    decreases runs.len(),
{
    if runs.len() > 0 {
        let last = runs.last();
        let head = runs.drop_last();
        let start = last.range.start as int;
        assert(runs[runs.len() - 1] == last);
        if head.len() > 0 {
            assert(meets(runs, head.len() - 1));
            assert(head.last() == runs[head.len() - 1]);
            assert(runs[head.len() - 1].range.start < runs[head.len() - 1].range.end);
            assert(head[0] == runs[0]);
        }
        assert forall|j: int| 0 <= j < head.len() implies (#[trigger] head[j]).range.start
            < head[j].range.end by {
            assert(head[j] == runs[j]);
        }
        assert forall|j: int| 0 <= j < head.len() - 1 implies #[trigger] meets(head, j) by {
            assert(meets(runs, j));
            assert(head[j] == runs[j]);
            assert(head[j + 1] == runs[j + 1]);
        }
        assert forall|j: int| 0 < j < head.len() implies boundary(
            text,
            styled,
            (#[trigger] head[j]).range.start as int,
        ) by {
            assert(head[j] == runs[j]);
        }
        assert forall|j: int, i: int|
            0 <= j < head.len() && (#[trigger] head[j]).range.start < i
                < head[j].range.end implies !#[trigger] boundary(text, styled, i) by {
            assert(head[j] == runs[j]);
        }
        assert forall|j: int| 0 <= j < head.len() implies run_of(
            registry,
            text,
            styled,
            #[trigger] head[j],
        ) by {
            assert(head[j] == runs[j]);
        }
        assert(resolved(registry, text, styled, head, start));
        lemma_resolved_count(registry, text, styled, head, start);
        assert forall|i: int| start < i < end implies !#[trigger] boundary(text, styled, i) by {
            assert(runs[runs.len() - 1].range.start < i < runs[runs.len() - 1].range.end);
        }
        lemma_no_boundaries(text, styled, start, end);
        if start > 0 {
            assert(boundary(text, styled, runs[runs.len() - 1].range.start as int));
        }
    }
}

/// Of two resolved runs the later does not end before the earlier.
pub proof fn lemma_resolved_ordered(
    registry: Registry,
    text: Seq<char>,
    styled: Seq<(usize, Properties)>,
    runs: Seq<Inline>,
    end: int,
    j: int,
    k: int,
)
    requires
        resolved(registry, text, styled, runs, end),
        0 <= j <= k < runs.len(),
    ensures
        runs[j].range.start < runs[j].range.end <= runs[k].range.end <= end,
    decreases runs.len() - j,
{
    if j < k {
        assert(meets(runs, j));
        lemma_resolved_ordered(registry, text, styled, runs, end, j + 1, k);
    } else if k + 1 < runs.len() {
        assert(meets(runs, k));
        lemma_resolved_ordered(registry, text, styled, runs, end, k + 1, k + 1);
    }
}

/// The runs with the widths that the host measured, one for each run in
/// order.
pub open spec fn measured(runs: Seq<Inline>, widths: Seq<i64>) -> Seq<Inline> {
    Seq::new(runs.len(), |j: int| Inline { width: widths[j], ..runs[j] })
}

/// Gives each run its measured width.
pub fn measure(runs: &mut Vec<Inline>, widths: &Vec<i64>)
    requires
        old(runs).len() == widths.len(),
    ensures
        final(runs)@ == measured(old(runs)@, widths@),
{
    let mut j: usize = 0;
    while j < runs.len()
        invariant
            runs.len() == widths.len(),
            runs.len() == old(runs).len(),
            j <= runs.len(),
            forall|k: int| 0 <= k < j ==> runs@[k] == measured(old(runs)@, widths@)[k],
            forall|k: int| j <= k < runs.len() ==> runs@[k] == old(runs)@[k],
        decreases runs.len() - j,
    {
        let run = Inline { width: widths[j], ..runs[j] };
        runs[j] = run;
        j += 1;
    }
    assert(runs@ =~= measured(old(runs)@, widths@));
}

} // verus!
