use scripture_layout::layout::{Layout, Line, PartialText};
use scripture_layout::style::{Index, Rectangle, Style};

const U: i64 = 1024;

#[test]
fn new_layout_has_one_empty_page() {
    let layout = Layout::new(10 * U, 5 * U, U);
    assert_eq!(layout.num_pages(), 1);
    assert_eq!(layout.num_lines(), 0);
    assert_eq!(layout.get_pages()[0].len(), 0);
    assert_eq!(layout.get_line_height(), U);
    assert_eq!(layout.get_width(), 10 * U);
    assert_eq!(layout.get_height(), 5 * U);
    assert_eq!(layout.get_body().top, 0);
}

#[test]
fn request_height_breaks_page_only_when_it_does_not_fit() {
    let mut layout = Layout::new(10 * U, 5 * U, U);
    assert_eq!(layout.request_height(5 * U), 0);
    assert_eq!(layout.num_pages(), 1);
    layout.mutate_body(U);
    assert_eq!(layout.get_body().top, U);
    assert_eq!(layout.request_height(4 * U), 0);
    assert_eq!(layout.request_height(4 * U + 1), 1);
    assert_eq!(layout.num_pages(), 2);
    assert_eq!(layout.get_body().top, 0);
    assert_eq!(layout.get_body().width, 10 * U);
}

#[test]
fn next_line_breaks_page_when_full() {
    let mut layout = Layout::new(10 * U, 2 * U, U);
    layout.next_line();
    layout.next_line();
    assert_eq!(layout.num_pages(), 1);
    layout.next_line();
    assert_eq!(layout.num_pages(), 2);
    let line = layout.line(2);
    assert_eq!(line.top, 0);
    assert_eq!(line.page, 1);
    assert_eq!(layout.line(1).top, U);
    assert_eq!(layout.line(1).page, 0);
    assert_eq!(layout.line(0), Line { top: 0, left: 0, width: 10 * U, locked: false, page: 0 });
}

#[test]
fn get_line_queues_lines_up_to_the_one_asked_for() {
    let mut layout = Layout::new(10 * U, 5 * U, U);
    let line = *layout.get_line(2);
    assert_eq!(layout.num_lines(), 3);
    assert_eq!(line.top, 2 * U);
    let again = *layout.get_line(1);
    assert_eq!(layout.num_lines(), 3);
    assert_eq!(again.top, U);
    assert_eq!(layout.get_line_unchecked(0).top, 0);
}

#[test]
fn mutate_indents_until_locked() {
    let mut line = Line { top: 0, left: 0, width: 100, locked: false, page: 0 };
    line.mutate(20, -30);
    assert_eq!(line.left, 20);
    assert_eq!(line.get_width(), 70);
    line.lock();
    assert!(line.locked);
    line.mutate(5, -5);
    assert_eq!(line.left, 20);
    assert_eq!(line.get_width(), 70);
}

#[test]
fn mutate_through_the_layout_changes_the_queued_line() {
    let mut layout = Layout::new(10 * U, 5 * U, U);
    layout.get_line(0).mutate(2 * U, -2 * U);
    layout.get_line(0).lock();
    layout.get_line(0).mutate(U, -U);
    let line = layout.line(0);
    assert_eq!(line.left, 2 * U);
    assert_eq!(line.width, 8 * U);
    assert!(line.locked);
}

#[test]
fn write_places_text_on_page() {
    let mut layout = Layout::new(10 * U, 2 * U, U);
    let rect = Rectangle { top: 0, left: 0, width: 5, height: 7 };
    layout.write(0, String::from("abc"), rect, Style::Header, 3);
    let page = &layout.get_pages()[0];
    assert_eq!(page.len(), 1);
    assert_eq!(page[0].0, "abc");
    assert_eq!(page[0].1, rect);
    assert_eq!(page[0].2, Style::Header);
    assert_eq!(page[0].3, 3);
}

#[test]
fn write_line_places_text_and_advances_the_line() {
    let mut layout = Layout::new(10 * U, 5 * U, U);
    layout.next_line();
    layout.next_line();
    layout.write_line(1, String::from("ab"), Style::Normal, 2 * U, 7, 3);
    layout.write_line(1, String::from("cd"), Style::Verse, 3 * U, 0, 0);
    let page = &layout.get_pages()[0];
    assert_eq!(page.len(), 2);
    assert_eq!(page[0].0, "ab");
    assert_eq!(page[0].1, Rectangle { top: U + 3, left: 0, width: 2 * U, height: U });
    assert_eq!(page[0].3, 7);
    assert_eq!(page[1].0, "cd");
    assert_eq!(page[1].1, Rectangle { top: U, left: 2 * U, width: 3 * U, height: U });
    assert_eq!(page[1].2, Style::Verse);
    assert_eq!(layout.line(1).left, 5 * U);
    assert_eq!(layout.line(0).left, 0);
}

#[test]
fn from_body_is_a_rectangle_at_the_cursor() {
    let mut layout = Layout::new(10 * U, 5 * U, U);
    layout.mutate_body(3 * U);
    assert_eq!(
        layout.from_body(2 * U, U),
        Rectangle { top: 3 * U, left: 0, width: 2 * U, height: U }
    );
}

#[test]
fn drain_lines_empties_the_queue_and_keeps_the_cursor() {
    let mut layout = Layout::new(10 * U, 5 * U, U);
    layout.next_line();
    layout.next_line();
    layout.drain_lines();
    assert_eq!(layout.num_lines(), 0);
    assert_eq!(layout.get_body().top, 2 * U);
    layout.next_line();
    assert_eq!(layout.line(0).top, 2 * U);
}

#[test]
fn sub_layout_starts_at_the_body_of_its_parent() {
    let mut layout = Layout::new(10 * U, 5 * U, U);
    layout.mutate_body(U);
    let mut sub = layout.sub_layout(8 * U, 2 * U, U / 2);
    assert_eq!(sub.get_body().top, U);
    assert_eq!(sub.get_height(), 2 * U);
    assert_eq!(sub.get_line_height(), U / 2);
    assert_eq!(sub.num_pages(), 1);
    sub.next_line();
    assert_eq!(sub.line(0).top, U);
    assert_eq!(layout.num_lines(), 0);
    assert_eq!(layout.get_body().top, U);
}

#[test]
fn add_index_records_the_page_of_the_line() {
    let mut layout = Layout::new(10 * U, U, U);
    layout.next_line();
    layout.next_line();
    let first = Index::new(40, 1, 1);
    let second = Index::new(40, 1, 2);
    assert_eq!(layout.get_index(first), None);
    layout.add_index(first, 0);
    layout.add_index(second, 1);
    assert_eq!(layout.get_index(first), Some(0));
    assert_eq!(layout.get_index(second), Some(1));
    assert_eq!(layout.get_verses(), vec![first, second]);
    assert_eq!(layout.get_indices().len(), 2);
}

#[test]
fn add_index_again_replaces_the_page() {
    let mut layout = Layout::new(10 * U, U, U);
    layout.next_line();
    layout.next_line();
    let index = Index::new(1, 2, 3);
    layout.add_index(index, 0);
    layout.add_index(index, 1);
    assert_eq!(layout.get_index(index), Some(1));
    assert_eq!(layout.get_verses(), vec![index]);
}

#[test]
fn partial_text_new_keeps_its_parts() {
    let rect = Rectangle { top: 1, left: 2, width: 3, height: 4 };
    let text = PartialText::new(String::from("x"), rect, Style::Chapter, 9);
    assert_eq!(text.0, "x");
    assert_eq!(text.1, rect);
    assert_eq!(text.2, Style::Chapter);
    assert_eq!(text.3, 9);
}
