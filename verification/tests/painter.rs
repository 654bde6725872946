use scripture_layout::paint::{
    number_text, verse_number, Book, BookContents, Character, CharacterContents, Element, ElementContents,
    ElementType, Paint, Paragraph, ParagraphContents, Poetry, PoetryStyle, HANGING_INDENT, INDENT,
};
use scripture_layout::painter::{Block, Operation, Painter, TypesetError};
use scripture_layout::renderer::{FontMetrics, Renderer, TextStyle};
use scripture_layout::style::{Action, Dimensions, Format, Index, Properties, Rectangle, Style};
use scripture_layout::writer::LineFormat;

const U: i64 = 1024;

fn style(font_size: i64, height: i64) -> TextStyle {
    TextStyle {
        font_family: String::from("mono"),
        font_size,
        height,
        letter_spacing: 0,
        word_spacing: 0,
    }
}

fn renderer() -> Renderer {
    let mut renderer = Renderer::new();
    renderer.register_style(Style::Normal, style(U, U));
    renderer.register_style(Style::Verse, style(U / 2, U));
    renderer.register_style(Style::Header, style(U, U));
    renderer.insert_metrics(Style::Normal, FontMetrics { ascent: -800, descent: 200 });
    renderer
}

fn dim(width: i64, height: i64) -> Dimensions {
    Dimensions { width: width * U, height: height * U, header_height: 2 * U, drop_cap_padding: U }
}

/// Every character one unit wide.
fn mono(painter: &Painter) -> Vec<Vec<i64>> {
    painter
        .get_blocks()
        .iter()
        .map(|block: &Block| match block.ranges(painter.get_renderer()) {
            Some(ranges) => ranges.iter().map(|r| (r.end - r.start) as i64 * U).collect(),
            None => Vec::new(),
        })
        .collect()
}

fn line(s: &str) -> ParagraphContents {
    ParagraphContents::Line(String::from(s))
}

fn texts(painter: &Painter, page: usize) -> Vec<String> {
    painter.get_pages()[page].iter().map(|t| t.0.clone()).collect()
}

#[test]
fn verse_number_reads_the_leading_digits() {
    assert_eq!(verse_number("1"), Some(1));
    assert_eq!(verse_number("007"), Some(7));
    assert_eq!(verse_number("12-13"), Some(12));
    assert_eq!(verse_number("3a"), Some(3));
    assert_eq!(verse_number("65535"), Some(65535));
}

#[test]
fn verse_number_is_nothing_without_a_digit_or_beyond_range() {
    assert_eq!(verse_number(""), None);
    assert_eq!(verse_number("a1"), None);
    assert_eq!(verse_number(" 1"), None);
    assert_eq!(verse_number("65536"), None);
    assert_eq!(verse_number("99999999999999999999"), None);
}

#[test]
fn verse_number_reads_back_what_number_text_wrote() {
    for n in [0u16, 9, 10, 119, 4096, 65535] {
        assert_eq!(verse_number(&number_text(n)), Some(n));
    }
}

#[test]
fn number_text_writes_decimal_digits() {
    assert_eq!(number_text(0), "0");
    assert_eq!(number_text(7), "7");
    assert_eq!(number_text(10), "10");
    assert_eq!(number_text(119), "119");
    assert_eq!(number_text(65535), "65535");
}

#[test]
fn add_text_extends_the_entry_of_the_style_on_top() {
    let mut painter = Painter::new(&renderer(), dim(10, 5));
    painter.push_style(Style::Normal);
    painter.add_text("ab");
    painter.add_text(" c");
    painter.paint_paragraph(Format::Left, LineFormat::default());
    let blocks = painter.get_blocks();
    assert_eq!(blocks.len(), 1);
    assert_eq!(blocks[0].text.iter().collect::<String>(), "ab c");
    assert_eq!(blocks[0].properties, vec![(4, Properties::new(Style::Normal))]);
    assert_eq!(
        blocks[0].operation,
        Operation::Paragraph { format: Format::Left, line_format: LineFormat::default() }
    );
}

#[test]
fn a_style_that_comes_back_after_a_pop_gets_a_new_entry() {
    let mut painter = Painter::new(&renderer(), dim(10, 5));
    painter.index_book(40);
    painter.index_chapter(3);
    painter.push_style(Style::Normal);
    painter.add_text("a ");
    painter.push_style(Style::Verse);
    painter.index_verse(16);
    painter.add_text("16");
    painter.pop_style();
    painter.add_text("For");
    painter.pop_style();
    painter.paint_paragraph(Format::Justified, LineFormat::default());
    let block = &painter.get_blocks()[0];
    assert_eq!(block.text.iter().collect::<String>(), "a 16For");
    let verse = Properties {
        style: Style::Verse,
        action: Some(Action::Index(Index::new(40, 3, 16))),
    };
    assert_eq!(
        block.properties,
        vec![(2, Properties::new(Style::Normal)), (4, verse), (7, Properties::new(Style::Normal))]
    );
}

#[test]
fn closing_a_block_starts_the_next_one_empty() {
    let mut painter = Painter::new(&renderer(), dim(10, 5));
    painter.push_style(Style::Chapter);
    painter.add_text("3");
    painter.pop_style();
    painter.paint_drop_cap();
    painter.push_style(Style::Header);
    painter.add_text("Mark");
    painter.pop_style();
    painter.paint_region(Format::Center, 2 * U);
    painter.push_style(Style::Normal);
    painter.add_text("dropped");
    painter.clean();
    let blocks = painter.get_blocks();
    assert_eq!(blocks.len(), 3);
    assert_eq!(blocks[0].operation, Operation::DropCap);
    assert_eq!(blocks[0].text, vec!['3']);
    assert_eq!(blocks[1].operation, Operation::Region { format: Format::Center, height: 2 * U });
    assert_eq!(blocks[1].text.iter().collect::<String>(), "Mark");
    assert_eq!(blocks[1].properties, vec![(4, Properties::new(Style::Header))]);
    assert_eq!(blocks[2].operation, Operation::Discard);
    assert!(blocks[2].text.is_empty());
    assert!(blocks[2].properties.is_empty());
}

#[test]
fn ranges_are_the_runs_to_measure() {
    let mut painter = Painter::new(&renderer(), dim(10, 5));
    painter.push_style(Style::Normal);
    painter.add_text("hello world");
    painter.paint_paragraph(Format::Left, LineFormat::default());
    let ranges = painter.get_blocks()[0].ranges(painter.get_renderer()).unwrap();
    assert_eq!(ranges.iter().map(|r| (r.start, r.end)).collect::<Vec<_>>(), vec![(0, 5), (5, 6), (6, 11)]);
}

#[test]
fn ranges_need_a_style_and_the_metrics_for_verse_numbers() {
    let mut bare = Renderer::new();
    bare.register_style(Style::Normal, style(U, U));
    let mut painter = Painter::new(&bare, dim(10, 5));
    painter.paint_paragraph(Format::Left, LineFormat::default());
    painter.push_style(Style::Verse);
    painter.add_text("1");
    painter.paint_paragraph(Format::Left, LineFormat::default());
    assert!(painter.get_blocks()[0].ranges(painter.get_renderer()).is_none());
    assert!(painter.get_blocks()[1].ranges(painter.get_renderer()).is_none());
    assert!(!painter.get_blocks()[1].is_layable(painter.get_renderer(), &vec![U]));
    assert_eq!(painter.typeset(&vec![vec![], vec![U]]), Err(TypesetError::Block(0)));
}

#[test]
fn typeset_needs_widths_for_every_block() {
    let mut painter = Painter::new(&renderer(), dim(10, 5));
    painter.push_style(Style::Normal);
    painter.add_text("ab cd");
    painter.paint_paragraph(Format::Left, LineFormat::default());
    assert_eq!(painter.typeset(&vec![]), Err(TypesetError::Blocks));
    assert_eq!(painter.typeset(&vec![vec![U, U]]), Err(TypesetError::Block(0)));
    assert_eq!(painter.typeset(&vec![vec![U, -1, U]]), Err(TypesetError::Block(0)));
    assert_eq!(painter.get_blocks().len(), 1);
    assert_eq!(painter.get_pages()[0].len(), 0);
    assert_eq!(painter.typeset(&vec![vec![2 * U, U, 2 * U]]), Ok(()));
    assert_eq!(painter.get_blocks().len(), 0);
    assert_eq!(texts(&painter, 0), vec!["ab cd"]);
}

#[test]
fn typeset_rejects_what_an_operation_cannot_take() {
    let mut painter = Painter::new(&renderer(), dim(10, 5));
    painter.push_style(Style::Normal);
    painter.add_text("a");
    painter.paint_paragraph(Format::Left, LineFormat::new(-1, 0, 0));
    assert_eq!(painter.typeset(&vec![vec![U]]), Err(TypesetError::Block(0)));

    let mut painter = Painter::new(&renderer(), dim(10, 5));
    painter.push_style(Style::Header);
    painter.add_text("a");
    painter.paint_region(Format::Left, U);
    assert_eq!(painter.typeset(&vec![vec![U]]), Err(TypesetError::Block(0)));

    let mut painter = Painter::new(&renderer(), dim(10, 5));
    painter.push_style(Style::Chapter);
    painter.paint_drop_cap();
    assert_eq!(painter.typeset(&vec![vec![]]), Err(TypesetError::Block(0)));
}

#[test]
fn a_block_later_in_the_queue_stops_everything() {
    let mut painter = Painter::new(&renderer(), dim(10, 5));
    painter.push_style(Style::Normal);
    painter.add_text("a");
    painter.paint_paragraph(Format::Left, LineFormat::default());
    painter.push_style(Style::Normal);
    painter.add_text("b");
    painter.paint_paragraph(Format::Left, LineFormat::default());
    assert_eq!(painter.typeset(&vec![vec![U], vec![]]), Err(TypesetError::Block(1)));
    assert_eq!(painter.get_pages()[0].len(), 0);
    assert_eq!(painter.get_blocks().len(), 2);
}

#[test]
fn paragraph_of_a_book_is_justified_and_indented() {
    let paragraph = Paragraph { contents: vec![line("hello world")] };
    let mut painter = Painter::new(&renderer(), dim(40, 5));
    paragraph.paint(&mut painter);
    assert_eq!(
        painter.get_blocks()[0].operation,
        Operation::Paragraph {
            format: Format::Justified,
            line_format: LineFormat::new(INDENT, 0, 0)
        }
    );
    assert_eq!(INDENT, 20 * U);
    let widths = mono(&painter);
    assert_eq!(painter.typeset(&widths), Ok(()));
    let page = &painter.get_pages()[0];
    assert_eq!(page.len(), 1);
    assert_eq!(page[0].0, "hello world");
    assert_eq!(page[0].1, Rectangle { top: 0, left: 20 * U, width: 11 * U, height: U });
    assert_eq!(page[0].2, Style::Normal);
    assert_eq!(page[0].3, 0);
}

#[test]
fn verse_marker_is_a_space_and_a_number_in_verse_style() {
    let paragraph = Paragraph {
        contents: vec![line("So"), ParagraphContents::Verse(1), line("For God")],
    };
    let mut painter = Painter::new(&renderer(), dim(60, 5));
    painter.index_book(43);
    painter.index_chapter(3);
    paragraph.paint(&mut painter);
    assert_eq!(painter.get_blocks()[0].text.iter().collect::<String>(), "So 1For God");
    let widths = mono(&painter);
    assert_eq!(painter.typeset(&widths), Ok(()));
    let page = &painter.get_pages()[0];
    assert_eq!(texts(&painter, 0), vec!["So ", "1", "For God"]);
    assert_eq!(page[0].2, Style::Normal);
    assert_eq!(page[1].2, Style::Verse);
    assert_eq!(page[1].1, Rectangle { top: 12, left: 23 * U, width: U, height: U });
    assert_eq!(page[2].1.top, 0);
    assert_eq!(page[2].1.left, 24 * U);
    assert!(page.iter().all(|t| t.3 == 0));
    assert_eq!(painter.get_layout().get_index(Index::new(43, 3, 1)), Some(0));
    assert_eq!(painter.get_verses(), vec![Index::new(43, 3, 1)]);
    assert_eq!(painter.get_indices(), &vec![(Index::new(43, 3, 1), 0)]);
}

#[test]
fn verse_marker_at_the_start_of_a_line_loses_its_space() {
    let paragraph = Paragraph { contents: vec![ParagraphContents::Verse(1), line("For God")] };
    let mut painter = Painter::new(&renderer(), dim(60, 5));
    painter.index_book(43);
    painter.index_chapter(3);
    paragraph.paint(&mut painter);
    let widths = mono(&painter);
    assert_eq!(painter.typeset(&widths), Ok(()));
    assert_eq!(texts(&painter, 0), vec!["1", "For God"]);
}

#[test]
fn nested_character_spans_add_their_lines_in_order() {
    let inner = Character { contents: vec![CharacterContents::Line(String::from("b"))] };
    let outer = Character {
        contents: vec![
            CharacterContents::Line(String::from("a")),
            CharacterContents::Character(inner),
            CharacterContents::Line(String::from("c")),
        ],
    };
    let paragraph = Paragraph {
        contents: vec![line("x"), ParagraphContents::Character(outer), ParagraphContents::Other],
    };
    let mut painter = Painter::new(&renderer(), dim(60, 5));
    paragraph.paint(&mut painter);
    let block = &painter.get_blocks()[0];
    assert_eq!(block.text.iter().collect::<String>(), "xabc");
    assert_eq!(block.properties, vec![(4, Properties::new(Style::Normal))]);
}

#[test]
fn poetry_is_left_aligned_with_hanging_lines() {
    let poetry = Poetry { style: PoetryStyle::Normal(2), contents: vec![line("aaaa bbbb")] };
    let mut painter = Painter::new(&renderer(), dim(46, 5));
    poetry.paint(&mut painter);
    assert_eq!(
        painter.get_blocks()[0].operation,
        Operation::Paragraph {
            format: Format::Left,
            line_format: LineFormat::new(40 * U, HANGING_INDENT, 0)
        }
    );
    assert_eq!(HANGING_INDENT, 40 * U);
    let widths = mono(&painter);
    assert_eq!(painter.typeset(&widths), Ok(()));
    let page = &painter.get_pages()[0];
    assert_eq!(texts(&painter, 0), vec!["aaaa", "bbbb"]);
    assert_eq!(page[0].1, Rectangle { top: 0, left: 40 * U, width: 4 * U, height: U });
    assert_eq!(page[1].1, Rectangle { top: U, left: 40 * U, width: 4 * U, height: U });
}

#[test]
fn poetry_of_another_style_is_dropped() {
    let poetry = Poetry { style: PoetryStyle::Other, contents: vec![line("aaaa")] };
    let mut painter = Painter::new(&renderer(), dim(46, 5));
    poetry.paint(&mut painter);
    assert_eq!(painter.get_blocks()[0].operation, Operation::Discard);
    let widths = mono(&painter);
    assert_eq!(painter.typeset(&widths), Ok(()));
    assert_eq!(painter.get_pages()[0].len(), 0);
}

#[test]
fn header_is_centred_in_its_region() {
    let element = Element {
        ty: ElementType::Header,
        contents: vec![ElementContents::Line(String::from("Matthew")), ElementContents::Other],
    };
    let mut painter = Painter::new(&renderer(), dim(10, 5));
    element.paint(&mut painter);
    assert_eq!(painter.get_blocks().len(), 1);
    let widths = mono(&painter);
    assert_eq!(painter.typeset(&widths), Ok(()));
    let page = &painter.get_pages()[0];
    assert_eq!(page.len(), 1);
    assert_eq!(page[0].0, "Matthew");
    assert_eq!(page[0].1, Rectangle { top: U / 2, left: 3 * U / 2, width: 7 * U, height: U });
    assert_eq!(page[0].2, Style::Header);
    assert_eq!(painter.get_layout().get_body().top, 2 * U);
}

#[test]
fn other_elements_are_not_set() {
    let element = Element {
        ty: ElementType::Other,
        contents: vec![ElementContents::Line(String::from("Matthew"))],
    };
    let mut painter = Painter::new(&renderer(), dim(10, 5));
    element.paint(&mut painter);
    assert_eq!(painter.get_blocks().len(), 0);
}

#[test]
fn book_with_chapter_and_verses() {
    let book = Book {
        contents: vec![
            BookContents::Id { code: 40 },
            BookContents::Other,
            BookContents::Element(Element {
                ty: ElementType::Header,
                contents: vec![ElementContents::Line(String::from("Matthew"))],
            }),
            BookContents::Chapter(3),
            BookContents::Paragraph(Paragraph {
                contents: vec![
                    ParagraphContents::Verse(1),
                    line("In the beginning God created"),
                    ParagraphContents::Verse(2),
                    line("and"),
                ],
            }),
        ],
    };
    let mut painter = Painter::new(&renderer(), dim(10, 5));
    book.paint(&mut painter);
    assert_eq!(painter.get_blocks().len(), 3);
    let widths = mono(&painter);
    assert_eq!(painter.typeset(&widths), Ok(()));
    let pages = painter.get_pages();
    assert_eq!(pages.len(), 2);
    assert_eq!(texts(&painter, 0), vec!["Matthew", "3", "1", "In the", "beginning"]);
    assert_eq!(texts(&painter, 1), vec!["God", "created ", "2", "and"]);
    // the drop cap stands below the header, and the text flows round it
    assert_eq!(pages[0][1].1, Rectangle { top: 2 * U, left: 0, width: 2 * U, height: 2 * U });
    assert_eq!(pages[0][2].1, Rectangle { top: 2 * U + 12, left: 2 * U, width: U, height: U });
    assert_eq!(pages[0][3].1, Rectangle { top: 2 * U, left: 3 * U, width: 7 * U, height: U });
    assert_eq!(pages[0][3].3, U);
    // the second reserved line holds only the space, which is trimmed
    assert_eq!(pages[0][4].1, Rectangle { top: 4 * U, left: 0, width: 9 * U, height: U });
    assert_eq!(pages[1][0].1, Rectangle { top: 0, left: 0, width: 3 * U, height: U });
    assert_eq!(pages[1][1].1, Rectangle { top: U, left: 0, width: 9 * U, height: U });
    assert_eq!(pages[1][1].3, U);
    assert_eq!(pages[1][2].1, Rectangle { top: U + 12, left: 9 * U, width: U, height: U });
    assert_eq!(pages[1][3].1, Rectangle { top: 2 * U, left: 0, width: 3 * U, height: U });
    let layout = painter.get_layout();
    assert_eq!(layout.get_index(Index::new(40, 3, 1)), Some(0));
    assert_eq!(layout.get_index(Index::new(40, 3, 2)), Some(1));
    assert_eq!(layout.get_index(Index::new(40, 3, 3)), None);
    assert_eq!(painter.get_verses(), vec![Index::new(40, 3, 1), Index::new(40, 3, 2)]);
}

#[test]
fn every_text_ends_above_the_foot_of_its_page() {
    let words: Vec<String> = (0..40).map(|i| format!("w{}", i)).collect();
    let paragraph = Paragraph { contents: vec![line(&words.join(" "))] };
    let mut painter = Painter::new(&renderer(), dim(30, 3));
    paragraph.paint(&mut painter);
    let widths = mono(&painter);
    assert_eq!(painter.typeset(&widths), Ok(()));
    let pages = painter.get_pages();
    assert!(pages.len() > 1);
    let mut all = String::new();
    for page in pages {
        for text in page {
            assert!(text.1.top >= 0);
            assert!(text.1.top + text.1.height <= 3 * U);
            if !all.is_empty() {
                all.push(' ');
            }
            all.push_str(&text.0);
        }
    }
    assert_eq!(all, words.join(" "));
}

#[test]
fn justified_lines_are_filled_to_within_a_sub_unit_a_piece() {
    let mut painter = Painter::new(&renderer(), dim(13, 20));
    let mut wide = dim(13, 20);
    wide.width += 5;
    let mut painter_odd = Painter::new(&renderer(), wide);
    for p in [&mut painter, &mut painter_odd] {
        p.push_style(Style::Normal);
        p.add_text("aa bbb c dddd ee f ggg hh iiii j kk lll mmmm n oo ppp");
        p.pop_style();
        p.paint_paragraph(Format::Justified, LineFormat::default());
        let widths = mono(p);
        assert_eq!(p.typeset(&widths), Ok(()));
        let available = p.get_dimensions().width;
        let page = &p.get_pages()[0];
        assert!(page.len() > 2);
        for text in &page[..page.len() - 1] {
            assert!(text.1.width <= available);
            assert!(text.1.width > available - 1);
        }
        let last = &page[page.len() - 1];
        assert_eq!(last.3, 0);
        assert_eq!(last.1.width, last.0.chars().count() as i64 * U);
    }
}
