use scripture_layout::format::{get_unformatted, justify, left};
use scripture_layout::inline::{measure, Inline};
use scripture_layout::layout::Layout;
use scripture_layout::renderer::{FontMetrics, Renderer, TextStyle};
use scripture_layout::style::{Action, Format, Index, Properties, Range, Rectangle, Style};
use scripture_layout::typeset::{paint_drop_cap, paint_paragraph, paint_region};
use scripture_layout::style::Dimensions;
use scripture_layout::writer::{trim_range, LineFormat, LineMetrics, Words, Writer};

const U: i64 = 1024;

fn style(font_size: i64, height: i64) -> TextStyle {
    TextStyle {
        font_family: String::from("mono"),
        font_size,
        height,
        letter_spacing: 0,
        word_spacing: 0,
    }
}

fn renderer() -> Renderer {
    let mut renderer = Renderer::new();
    renderer.register_style(Style::Normal, style(U, U));
    renderer.register_style(Style::Verse, style(U / 2, U));
    renderer.register_style(Style::Header, style(U, U));
    renderer.insert_metrics(Style::Normal, FontMetrics { ascent: -800, descent: 200 });
    renderer
}

fn chars(s: &str) -> Vec<char> {
    s.chars().collect()
}

/// Runs of one style, each character one unit wide.
fn mono(text: &Vec<char>, styled: &Vec<(usize, Properties)>) -> Vec<Inline> {
    let mut runs = scripture_layout::inline::inline(&renderer(), text, styled);
    let widths: Vec<i64> =
        runs.iter().map(|r| (r.range.end - r.range.start) as i64 * U).collect();
    measure(&mut runs, &widths);
    runs
}

fn plain(text: &Vec<char>) -> Vec<Inline> {
    mono(text, &vec![(text.len(), Properties::new(Style::Normal))])
}

#[test]
fn inline_cuts_at_white_space() {
    let text = chars("hello  world");
    let runs = scripture_layout::inline::inline(&renderer(), &text, &vec![(12, Properties::new(Style::Normal))]);
    assert_eq!(runs.len(), 3);
    assert_eq!(runs[0].range, Range { start: 0, end: 5 });
    assert!(!runs[0].is_whitespace);
    assert_eq!(runs[1].range, Range { start: 5, end: 7 });
    assert!(runs[1].is_whitespace);
    assert_eq!(runs[2].range, Range { start: 7, end: 12 });
    assert!(!runs[2].is_whitespace);
    assert!(runs.iter().all(|r| r.width == 0 && r.top_offset == 0));
    assert!(runs.iter().all(|r| r.properties == Properties::new(Style::Normal)));
}

#[test]
fn inline_cuts_at_style_boundaries() {
    let text = chars(" 12ab");
    let verse = Properties {
        style: Style::Verse,
        action: Some(Action::Index(Index::new(40, 1, 12))),
    };
    let styled = vec![(1, Properties::new(Style::Normal)), (3, verse), (5, Properties::new(Style::Normal))];
    let runs = scripture_layout::inline::inline(&renderer(), &text, &styled);
    assert_eq!(runs.len(), 3);
    assert_eq!(runs[0].range, Range { start: 0, end: 1 });
    assert!(runs[0].is_whitespace);
    assert_eq!(runs[1].range, Range { start: 1, end: 3 });
    assert_eq!(runs[1].properties, verse);
    // (1024 - 800 - 200) / 2
    assert_eq!(runs[1].top_offset, 12);
    assert_eq!(runs[2].range, Range { start: 3, end: 5 });
    assert_eq!(runs[2].properties.style, Style::Normal);
    assert_eq!(runs[2].top_offset, 0);
}

#[test]
fn inline_skips_entries_without_text() {
    let text = chars("ab");
    let styled = vec![
        (1, Properties::new(Style::Normal)),
        (1, Properties::new(Style::Verse)),
        (2, Properties::new(Style::Header)),
    ];
    let runs = scripture_layout::inline::inline(&renderer(), &text, &styled);
    assert_eq!(runs.len(), 2);
    assert_eq!(runs[0].properties.style, Style::Normal);
    assert_eq!(runs[1].properties.style, Style::Header);
}

#[test]
fn inline_of_empty_text_is_empty() {
    let runs = scripture_layout::inline::inline(&renderer(), &Vec::new(), &vec![(0, Properties::new(Style::Normal))]);
    assert!(runs.is_empty());
}

#[test]
fn measure_sets_the_widths() {
    let text = chars("a bc");
    let runs = plain(&text);
    assert_eq!(runs.iter().map(|r| r.width).collect::<Vec<_>>(), vec![U, U, 2 * U]);
}

#[test]
fn writer_breaks_first_fit_and_trims() {
    let text = chars("a b c d e f g h i j k");
    let runs = plain(&text);
    let mut layout = Layout::new(10 * U, 5 * U, U);
    let mut writer = Writer::new(&text, &runs, LineFormat::default());
    writer.write(&mut layout);
    assert_eq!(layout.num_lines(), 3);
    assert_eq!(
        writer.lines.iter().map(|w| w.range).collect::<Vec<_>>(),
        vec![
            Range { start: 0, end: 10 },
            Range { start: 10, end: 20 },
            Range { start: 20, end: 21 }
        ]
    );
    assert!(writer.lines.iter().all(|w| w.available == 10 * U));
    writer.trim();
    let lines = writer.get_lines();
    assert_eq!(lines[0].range, Range { start: 0, end: 9 });
    assert_eq!(lines[1].range, Range { start: 10, end: 19 });
    assert_eq!(lines[2].range, Range { start: 20, end: 21 });
    assert_eq!(lines[0].get_metrics(), LineMetrics { remaining: U, whitespace: 4 * U });
    assert_eq!(lines[2].get_metrics(), LineMetrics { remaining: 9 * U, whitespace: 0 });
}

#[test]
fn writer_indents_first_line_by_head_and_others_by_tail() {
    let text = chars("aaaa bbbb cccc");
    let runs = plain(&text);
    let mut layout = Layout::new(10 * U, 5 * U, U);
    let mut writer = Writer::new(&text, &runs, LineFormat::new(4 * U, 2 * U, U));
    writer.write(&mut layout);
    // first line: 10 - 4 - 1 = 5 wide, "aaaa " fits, "bbbb" does not
    assert_eq!(writer.lines[0].range, Range { start: 0, end: 2 });
    assert_eq!(writer.lines[0].available, 5 * U);
    assert_eq!(layout.line(0).left, 4 * U);
    // other lines: 10 - 2 - 1 = 7 wide
    assert_eq!(writer.lines[1].available, 7 * U);
    assert_eq!(layout.line(1).left, 2 * U);
    assert_eq!(layout.line(1).width, 7 * U);
}

#[test]
fn writer_places_a_run_that_is_too_wide_on_an_empty_line() {
    let text = chars("abcdefghijkl mn");
    let runs = plain(&text);
    let mut layout = Layout::new(10 * U, 5 * U, U);
    let mut writer = Writer::new(&text, &runs, LineFormat::default());
    writer.write(&mut layout);
    assert_eq!(
        writer.lines.iter().map(|w| w.range).collect::<Vec<_>>(),
        vec![Range { start: 0, end: 1 }, Range { start: 1, end: 3 }]
    );
}

#[test]
fn writer_uses_locked_lines_as_they_are() {
    let text = chars("ab cd");
    let runs = plain(&text);
    let mut layout = Layout::new(10 * U, 5 * U, U);
    layout.get_line(0).mutate(6 * U, -6 * U);
    layout.get_line(0).lock();
    let mut writer = Writer::new(&text, &runs, LineFormat::new(2 * U, 0, 0));
    writer.write(&mut layout);
    assert_eq!(writer.lines[0].available, 4 * U);
    assert_eq!(layout.line(0).left, 6 * U);
    assert_eq!(writer.lines[0].range, Range { start: 0, end: 2 });
    assert_eq!(writer.lines[1].range, Range { start: 2, end: 3 });
}

#[test]
fn trim_range_of_white_space_is_empty() {
    let text = chars("a   ");
    let runs = plain(&text);
    assert_eq!(trim_range(&runs, Range { start: 1, end: 2 }), Range { start: 2, end: 2 });
    assert_eq!(trim_range(&runs, Range { start: 0, end: 2 }), Range { start: 0, end: 1 });
}

#[test]
fn unformatted_pieces_follow_the_properties() {
    let text = chars("ab 12 cd");
    let verse = Properties { style: Style::Verse, action: None };
    let styled =
        vec![(3, Properties::new(Style::Normal)), (5, verse), (8, Properties::new(Style::Normal))];
    let runs = mono(&text, &styled);
    let lines = vec![Words::new(&text, &runs, Range { start: 0, end: runs.len() }, 10 * U)];
    let pieces = get_unformatted(&text, &runs, lines);
    assert_eq!(pieces.len(), 3);
    assert_eq!(pieces[0].text.iter().collect::<String>(), "ab ");
    assert_eq!(pieces[0].width, 3 * U);
    assert_eq!(pieces[0].whitespace, U);
    assert_eq!(pieces[0].line, 0);
    assert_eq!(pieces[1].text.iter().collect::<String>(), "12");
    assert_eq!(pieces[1].properties, verse);
    assert_eq!(pieces[1].whitespace, 0);
    assert_eq!(pieces[1].top_offset, 12);
    assert_eq!(pieces[2].text.iter().collect::<String>(), " cd");
    assert_eq!(pieces[2].whitespace, U);
    assert!(pieces.iter().all(|p| p.metrics == LineMetrics { remaining: 2 * U, whitespace: 2 * U }));
}

#[test]
fn justify_shares_what_is_left_by_white_space() {
    let text = chars("ab 12 cd");
    let verse = Properties { style: Style::Verse, action: None };
    let styled =
        vec![(3, Properties::new(Style::Normal)), (5, verse), (8, Properties::new(Style::Normal))];
    let runs = mono(&text, &styled);
    let mut layout = Layout::new(11 * U, 5 * U, U);
    layout.next_line();
    let lines = vec![Words::new(&text, &runs, Range { start: 0, end: runs.len() }, 11 * U)];
    let pieces = get_unformatted(&text, &runs, lines);
    justify(&mut layout, &pieces);
    let page = &layout.get_pages()[0];
    assert_eq!(page.len(), 3);
    // 3 left over, half of the white space in the first piece and half in the last
    assert_eq!(page[0].1, Rectangle { top: 0, left: 0, width: 3 * U + 3 * U / 2, height: U });
    assert_eq!(page[0].3, 3 * U / 2);
    assert_eq!(page[1].1, Rectangle { top: 12, left: 3 * U + 3 * U / 2, width: 2 * U, height: U });
    assert_eq!(page[1].3, 0);
    assert_eq!(page[2].1.left, 5 * U + 3 * U / 2);
    assert_eq!(page[2].1.width, 3 * U + 3 * U / 2);
    let total: i64 = page.iter().map(|p| p.1.width).sum();
    assert_eq!(total, 11 * U);
}

#[test]
fn justify_rounds_shares_down() {
    let text = chars("a b c");
    let runs = plain(&text);
    let mut layout = Layout::new(10 * U, 5 * U, U);
    layout.next_line();
    let lines = vec![Words::new(&text, &runs, Range { start: 0, end: 5 }, 5 * U + 3)];
    let pieces = get_unformatted(&text, &runs, lines);
    assert_eq!(pieces.len(), 1);
    justify(&mut layout, &pieces);
    let page = &layout.get_pages()[0];
    assert_eq!(page[0].1.width, 5 * U + 3);
    assert_eq!(page[0].3, 1);
}

#[test]
fn justify_leaves_a_line_without_white_space_alone() {
    let text = chars("abc");
    let runs = plain(&text);
    let mut layout = Layout::new(10 * U, 5 * U, U);
    layout.next_line();
    let lines = vec![Words::new(&text, &runs, Range { start: 0, end: 1 }, 10 * U)];
    let pieces = get_unformatted(&text, &runs, lines);
    justify(&mut layout, &pieces);
    let page = &layout.get_pages()[0];
    assert_eq!(page[0].1.width, 3 * U);
    assert_eq!(page[0].3, 0);
}

#[test]
fn left_writes_pieces_as_they_are_and_records_indices() {
    let text = chars("ab 12");
    let index = Index::new(40, 1, 12);
    let verse = Properties { style: Style::Verse, action: Some(Action::Index(index)) };
    let styled = vec![(3, Properties::new(Style::Normal)), (5, verse)];
    let runs = mono(&text, &styled);
    let mut layout = Layout::new(10 * U, 5 * U, U);
    layout.next_line();
    let lines = vec![Words::new(&text, &runs, Range { start: 0, end: runs.len() }, 10 * U)];
    let pieces = get_unformatted(&text, &runs, lines);
    left(&mut layout, &pieces);
    let page = &layout.get_pages()[0];
    assert_eq!(page.len(), 2);
    assert_eq!(page[0].0, "ab ");
    assert_eq!(page[0].1.width, 3 * U);
    assert_eq!(page[0].3, 0);
    assert_eq!(page[1].0, "12");
    assert_eq!(page[1].1.left, 3 * U);
    assert_eq!(layout.get_index(index), Some(0));
}

#[test]
fn paragraph_that_fits_is_one_piece() {
    let text = chars("hello world");
    let runs = plain(&text);
    let mut layout = Layout::new(11 * U, 5 * U, U);
    paint_paragraph(&mut layout, &text, &runs, Format::Justified, LineFormat::default());
    let pages = layout.get_pages();
    assert_eq!(pages.len(), 1);
    assert_eq!(pages[0].len(), 1);
    assert_eq!(pages[0][0].0, "hello world");
    assert_eq!(pages[0][0].1, Rectangle { top: 0, left: 0, width: 11 * U, height: U });
    assert_eq!(pages[0][0].2, Style::Normal);
    assert_eq!(pages[0][0].3, 0);
    assert_eq!(layout.num_lines(), 0);
    assert_eq!(layout.get_body().top, U);
}

#[test]
fn paragraph_is_justified_but_for_its_last_line() {
    let text = chars("a b c d e f g h i j k");
    let runs = plain(&text);
    let mut layout = Layout::new(10 * U, 5 * U, U);
    paint_paragraph(&mut layout, &text, &runs, Format::Justified, LineFormat::default());
    let page = &layout.get_pages()[0];
    assert_eq!(page.len(), 3);
    assert_eq!(page[0].0, "a b c d e");
    assert_eq!(page[0].1, Rectangle { top: 0, left: 0, width: 10 * U, height: U });
    assert_eq!(page[0].3, U / 4);
    assert_eq!(page[1].0, "f g h i j");
    assert_eq!(page[1].1, Rectangle { top: U, left: 0, width: 10 * U, height: U });
    assert_eq!(page[1].3, U / 4);
    assert_eq!(page[2].0, "k");
    assert_eq!(page[2].1, Rectangle { top: 2 * U, left: 0, width: U, height: U });
    assert_eq!(page[2].3, 0);
}

#[test]
fn left_paragraph_is_not_stretched() {
    let text = chars("a b c d e f g h i j k");
    let runs = plain(&text);
    let mut layout = Layout::new(10 * U, 5 * U, U);
    paint_paragraph(&mut layout, &text, &runs, Format::Left, LineFormat::default());
    let page = &layout.get_pages()[0];
    assert_eq!(page.len(), 3);
    assert!(page.iter().all(|p| p.3 == 0));
    assert_eq!(page[0].1.width, 9 * U);
    assert_eq!(page[1].1.width, 9 * U);
}

#[test]
fn paragraph_breaks_onto_the_next_page() {
    let text = chars("aaaa bbbb cccc");
    let runs = plain(&text);
    let mut layout = Layout::new(5 * U, 2 * U, U);
    paint_paragraph(&mut layout, &text, &runs, Format::Left, LineFormat::default());
    let pages = layout.get_pages();
    assert_eq!(pages.len(), 2);
    assert_eq!(pages[0].len(), 2);
    assert_eq!(pages[1].len(), 1);
    assert_eq!(pages[1][0].0, "cccc");
    assert_eq!(pages[1][0].1.top, 0);
    for page in pages {
        for text in page {
            assert!(text.1.top + text.1.height <= 2 * U);
        }
    }
}

#[test]
fn paragraph_of_white_space_writes_nothing() {
    let text = chars("   ");
    let runs = plain(&text);
    let mut layout = Layout::new(5 * U, 2 * U, U);
    paint_paragraph(&mut layout, &text, &runs, Format::Justified, LineFormat::default());
    assert_eq!(layout.get_pages()[0].len(), 0);
    assert_eq!(layout.num_lines(), 0);
}

#[test]
fn paragraph_without_runs_only_empties_the_queue() {
    let mut layout = Layout::new(5 * U, 2 * U, U);
    layout.next_line();
    paint_paragraph(&mut layout, &Vec::new(), &Vec::new(), Format::Justified, LineFormat::default());
    assert_eq!(layout.get_pages()[0].len(), 0);
    assert_eq!(layout.num_lines(), 0);
    assert_eq!(layout.get_body().top, U);
}

#[test]
fn drop_cap_reserves_two_locked_lines() {
    let dim = Dimensions { width: 10 * U, height: 5 * U, header_height: 2 * U, drop_cap_padding: U };
    let text = chars("3");
    let runs = mono(&text, &vec![(1, Properties::new(Style::Chapter))]);
    let mut layout = Layout::new(10 * U, 5 * U, U);
    paint_drop_cap(&mut layout, &dim, &text, &runs);
    let page = &layout.get_pages()[0];
    assert_eq!(page.len(), 1);
    assert_eq!(page[0].0, "3");
    assert_eq!(page[0].1, Rectangle { top: 0, left: 0, width: 2 * U, height: 2 * U });
    assert_eq!(page[0].2, Style::Chapter);
    assert_eq!(layout.num_lines(), 2);
    for i in 0..2 {
        let line = layout.line(i);
        assert!(line.locked);
        assert_eq!(line.left, 2 * U);
        assert_eq!(line.width, 8 * U);
        assert_eq!(line.top, i as i64 * U);
    }
    layout.get_line(0).mutate(U, -U);
    assert_eq!(layout.line(0).left, 2 * U);
}

#[test]
fn text_flows_round_a_drop_cap() {
    let dim = Dimensions { width: 10 * U, height: 5 * U, header_height: 2 * U, drop_cap_padding: U };
    let number = chars("3");
    let cap = mono(&number, &vec![(1, Properties::new(Style::Chapter))]);
    let mut layout = Layout::new(10 * U, 5 * U, U);
    paint_drop_cap(&mut layout, &dim, &number, &cap);
    let text = chars("In the beginning God created");
    let runs = plain(&text);
    paint_paragraph(&mut layout, &text, &runs, Format::Justified, LineFormat::new(20 * U, 0, 0));
    let page = &layout.get_pages()[0];
    assert_eq!(page.len(), 5);
    assert_eq!(page[1].0, "In the");
    assert_eq!(page[1].1, Rectangle { top: 0, left: 2 * U, width: 8 * U, height: U });
    assert_eq!(page[1].3, 2 * U);
    assert_eq!(page[2].0, "beginning");
    assert_eq!(page[2].1, Rectangle { top: U, left: 2 * U, width: 9 * U, height: U });
    assert_eq!(page[3].0, "God");
    assert_eq!(page[3].1.left, 0);
    assert_eq!(page[3].1.top, 2 * U);
    assert_eq!(page[4].0, "created");
    assert_eq!(page[4].3, 0);
}

#[test]
fn region_centres_its_text() {
    let dim = Dimensions { width: 10 * U, height: 5 * U, header_height: 2 * U, drop_cap_padding: U };
    let text = chars("Matthew");
    let runs = mono(&text, &vec![(7, Properties::new(Style::Header))]);
    let mut layout = Layout::new(10 * U, 5 * U, U);
    paint_region(&mut layout, &dim, &text, &runs, Format::Center, 2 * U, U);
    let page = &layout.get_pages()[0];
    assert_eq!(page.len(), 1);
    assert_eq!(page[0].0, "Matthew");
    assert_eq!(page[0].1, Rectangle { top: U / 2, left: 3 * U / 2, width: 7 * U, height: U });
    assert_eq!(page[0].2, Style::Header);
    assert_eq!(page[0].3, 0);
    assert_eq!(layout.get_body().top, 2 * U);
    assert_eq!(layout.num_lines(), 0);
}

#[test]
fn region_that_is_not_centred_only_takes_its_room() {
    let dim = Dimensions { width: 10 * U, height: 5 * U, header_height: 2 * U, drop_cap_padding: U };
    let text = chars("Matthew");
    let runs = mono(&text, &vec![(7, Properties::new(Style::Header))]);
    let mut layout = Layout::new(10 * U, 5 * U, U);
    paint_region(&mut layout, &dim, &text, &runs, Format::Justified, 2 * U, U);
    assert_eq!(layout.get_pages()[0].len(), 0);
    assert_eq!(layout.get_body().top, 2 * U);
}

#[test]
fn region_starts_a_page_when_it_does_not_fit() {
    let dim = Dimensions { width: 10 * U, height: 5 * U, header_height: 2 * U, drop_cap_padding: U };
    let text = chars("Mark");
    let runs = mono(&text, &vec![(4, Properties::new(Style::Header))]);
    let mut layout = Layout::new(10 * U, 5 * U, U);
    layout.mutate_body(2 * U);
    paint_region(&mut layout, &dim, &text, &runs, Format::Center, 2 * U, U);
    let pages = layout.get_pages();
    assert_eq!(pages.len(), 2);
    assert_eq!(pages[0].len(), 0);
    assert_eq!(pages[1].len(), 1);
    assert_eq!(layout.get_body().top, 2 * U);
}

#[test]
fn trimmed_lines_begin_and_end_with_words() {
    let text = chars("  aa bb   cc dd   ");
    let runs = plain(&text);
    let mut layout = Layout::new(6 * U, 9 * U, U);
    let mut writer = Writer::new(&text, &runs, LineFormat::default());
    writer.write(&mut layout);
    writer.trim();
    let lines = writer.get_lines();
    assert!(lines.len() > 1);
    for line in &lines {
        if line.range.start < line.range.end {
            assert!(!runs[line.range.start].is_whitespace);
            assert!(!runs[line.range.end - 1].is_whitespace);
        }
    }
}

#[test]
fn verse_on_the_second_page_is_indexed_there() {
    let index = Index::new(40, 1, 1);
    let verse = Properties { style: Style::Verse, action: Some(Action::Index(index)) };
    let text = chars("aaaa bbbb 1cc");
    let styled = vec![(10, Properties::new(Style::Normal)), (11, verse), (13, Properties::new(Style::Normal))];
    let runs = mono(&text, &styled);
    let mut layout = Layout::new(5 * U, 2 * U, U);
    paint_paragraph(&mut layout, &text, &runs, Format::Justified, LineFormat::default());
    let pages = layout.get_pages();
    assert_eq!(pages.len(), 2);
    assert_eq!(pages[1][0].0, "1");
    assert_eq!(pages[1][1].0, "cc");
    assert_eq!(layout.get_index(index), Some(1));
}
