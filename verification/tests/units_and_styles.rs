use scripture_layout::renderer::{FontMetrics, Renderer, TextStyle};
use scripture_layout::style::{Action, Dimensions, Index, Properties, Style};
use scripture_layout::text::{chars_of, spaces, string_of};
use scripture_layout::units::{floor_div, half, mul_div, MAX_LENGTH, UNIT};
use scripture_layout::writer::LineFormat;

fn style(family: &str, font_size: i64, height: i64) -> TextStyle {
    TextStyle {
        font_family: String::from(family),
        font_size,
        height,
        letter_spacing: 0,
        word_spacing: 0,
    }
}

#[test]
fn floor_div_rounds_towards_negative_infinity() {
    assert_eq!(floor_div(7, 2), 3);
    assert_eq!(floor_div(-7, 2), -4);
    assert_eq!(floor_div(-8, 2), -4);
    assert_eq!(floor_div(0, 5), 0);
    assert_eq!(floor_div(-1, 5), -1);
}

#[test]
fn mul_div_scales_exactly() {
    assert_eq!(mul_div(1024, 4096, 4096), 1024);
    assert_eq!(mul_div(3, 5, 2), 7);
    assert_eq!(mul_div(-3, 5, 2), -8);
    assert_eq!(mul_div(1536, 12 * 1024, UNIT), 18 * 1024);
}

#[test]
fn half_of_negative_rounds_down() {
    assert_eq!(half(3), 1);
    assert_eq!(half(-3), -2);
    assert_eq!(half(1024), 512);
}

#[test]
fn dimensions_validity() {
    let good = Dimensions { width: 10, height: 5, header_height: 2, drop_cap_padding: 1 };
    assert!(good.is_valid());
    let negative = Dimensions { width: -1, height: 5, header_height: 2, drop_cap_padding: 1 };
    assert!(!negative.is_valid());
    let large = Dimensions { width: MAX_LENGTH + 1, height: 5, header_height: 2, drop_cap_padding: 1 };
    assert!(!large.is_valid());
}

#[test]
fn line_format_default_is_zero() {
    assert_eq!(LineFormat::default(), LineFormat::new(0, 0, 0));
    assert!(LineFormat::new(20 * UNIT, 0, 0).is_valid());
    assert!(!LineFormat::new(-1, 0, 0).is_valid());
}

#[test]
fn line_height_is_font_size_times_factor() {
    let s = style("serif", 12 * UNIT, 1536);
    assert!(s.is_valid());
    assert_eq!(s.line_height(), 18 * UNIT);
}

#[test]
fn registering_normal_makes_chapter_style() {
    let mut renderer = Renderer::new();
    renderer.register_style(Style::Normal, style("serif", 12 * UNIT, 1536));
    assert!(renderer.has_style(Style::Normal));
    assert!(renderer.has_style(Style::Chapter));
    assert!(!renderer.has_style(Style::Header));
    let chapter = renderer.get_style(Style::Chapter);
    assert_eq!(chapter.font_size, 36 * UNIT);
    assert_eq!(chapter.height, UNIT);
    assert_eq!(chapter.font_family, "serif");
    assert_eq!(renderer.line_height(Style::Chapter), 36 * UNIT);
    assert_eq!(renderer.line_height(Style::Normal), 18 * UNIT);
}

#[test]
fn registering_chapter_afterwards_replaces_it() {
    let mut renderer = Renderer::new();
    renderer.register_style(Style::Normal, style("serif", 12 * UNIT, UNIT));
    renderer.register_style(Style::Chapter, style("display", 40 * UNIT, UNIT));
    assert_eq!(renderer.get_style(Style::Chapter).font_size, 40 * UNIT);
    assert_eq!(renderer.get_style(Style::Chapter).font_family, "display");
}

#[test]
fn registering_other_style_leaves_chapter_alone() {
    let mut renderer = Renderer::new();
    renderer.register_style(Style::Header, style("serif", 12 * UNIT, UNIT));
    assert!(renderer.has_style(Style::Header));
    assert!(!renderer.has_style(Style::Chapter));
}

#[test]
fn chapter_size_too_large_is_reported() {
    let s = style("serif", MAX_LENGTH, UNIT);
    assert_eq!(s.chapter_size(), None);
    let small = style("serif", 10 * UNIT, 2 * UNIT);
    assert_eq!(small.chapter_size(), Some(40 * UNIT));
}

#[test]
fn line_padding_and_top_offset() {
    let mut renderer = Renderer::new();
    renderer.register_style(Style::Normal, style("serif", 10 * UNIT, 2 * UNIT));
    renderer.insert_metrics(Style::Normal, FontMetrics { ascent: -8 * UNIT, descent: 2 * UNIT });
    assert!(renderer.has_padding(Style::Normal));
    assert!(!renderer.has_padding(Style::Chapter));
    assert_eq!(renderer.get_metrics(Style::Normal).ascent, -8 * UNIT);
    // 20 - 8 - 2
    assert_eq!(renderer.line_padding(Style::Normal), 10 * UNIT);
    assert_eq!(renderer.top_offset(Style::Verse), 5 * UNIT);
    assert_eq!(renderer.top_offset(Style::Normal), 0);
    assert_eq!(renderer.top_offset(Style::Header), 0);
    assert_eq!(renderer.top_offset(Style::Chapter), 0);
}

#[test]
fn font_metrics_validity() {
    assert!(FontMetrics { ascent: -1, descent: 1 }.is_valid());
    assert!(!FontMetrics { ascent: -MAX_LENGTH - 1, descent: 1 }.is_valid());
}

#[test]
fn renderer_clone_keeps_styles() {
    let mut renderer = Renderer::new();
    renderer.register_style(Style::Normal, style("serif", 10 * UNIT, UNIT));
    let copy = renderer.clone();
    assert!(copy.has_style(Style::Normal));
    assert_eq!(copy.get_style(Style::Normal).font_family, "serif");
    assert_eq!(copy.line_height(Style::Normal), 10 * UNIT);
}

#[test]
fn properties_are_compared_by_style_and_action() {
    let plain = Properties::new(Style::Normal);
    let verse = Properties::new(Style::Verse);
    let indexed = Properties {
        style: Style::Verse,
        action: Some(Action::Index(Index::new(40, 1, 1))),
    };
    let other = Properties {
        style: Style::Verse,
        action: Some(Action::Index(Index::new(40, 1, 2))),
    };
    assert!(plain.same(&plain));
    assert!(!plain.same(&verse));
    assert!(!verse.same(&indexed));
    assert!(indexed.same(&indexed));
    assert!(!indexed.same(&other));
}

#[test]
fn strings_and_characters() {
    assert_eq!(chars_of("a b"), vec!['a', ' ', 'b']);
    assert_eq!(chars_of(""), Vec::<char>::new());
    assert_eq!(string_of(&['h', 'i', '!']), "hi!");
    assert_eq!(string_of(&[]), "");
    assert_eq!(spaces(&[' ', 'a', '\t', 'b', '\u{a0}']), 3);
    assert_eq!(spaces(&['a', 'b']), 0);
}
