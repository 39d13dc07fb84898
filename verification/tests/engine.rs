use decondenser::config::BreakStyleEnum;
use decondenser::formatting::engine::printer::{Printer, PrinterConfig};
use decondenser::formatting::engine::sliding_deque::SlidingDeque;
use decondenser::formatting::engine::token::{Measurement, Size};
use decondenser::formatting::engine::Formatter;
use decondenser::visual_size::MeasuredStr;

fn text(content: &str) -> MeasuredStr<'_> {
    MeasuredStr::with_size(content, content.chars().count())
}

fn config(max_line_size: usize, no_break_size: usize) -> PrinterConfig<'static> {
    PrinterConfig { max_line_size, no_break_size, indent_str: text("  ") }
}

#[test]
fn sliding_deque_keeps_indices_across_pops() {
    let mut deque: SlidingDeque<char> = SlidingDeque::new();
    assert_eq!(deque.push_back('a'), 0);
    assert_eq!(deque.push_back('b'), 1);
    assert_eq!(deque.push_back('c'), 2);
    assert_eq!(deque.basis(), 0);
    assert_eq!(deque.pop_front(), Some('a'));
    assert_eq!(deque.basis(), 1);
    assert_eq!(deque.len(), 2);
    assert_eq!(deque.get(0), None);
    assert_eq!(deque.get(1), Some(&'b'));
    assert_eq!(deque.get(2), Some(&'c'));
    assert_eq!(deque.push_back('d'), 3);
    *deque.get_mut(2).unwrap() = 'x';
    *deque.front_mut().unwrap() = 'y';
    assert_eq!(deque.front(), Some(&'y'));
    assert_eq!(deque.pop_back(), Some('d'));
    assert_eq!(deque.pop_front(), Some('y'));
    assert_eq!(deque.pop_front(), Some('x'));
    assert_eq!(deque.pop_front(), None);
    assert_eq!(deque.basis(), 3);
    assert_eq!(deque.get_mut(3), None);
    assert_eq!(deque.push_back('e'), 3);
}

#[test]
fn measurement_is_the_difference_to_the_preceding_size() {
    let mut distance = Measurement::Unmeasured { preceding_tokens_size: 7 };
    distance.measure_from(19);
    assert_eq!(distance, Measurement::Measured(Size::Fixed(12)));
    distance.measure_from(30);
    assert_eq!(distance, Measurement::Measured(Size::Fixed(12)));
}

#[test]
fn printer_prints_blanks_lazily() {
    let mut printer = Printer::new(config(10, 4));
    assert_eq!(printer.line_size_budget(), 10);
    printer.space(3);
    printer.raw(text("ab"));
    assert_eq!(printer.line_size_budget(), 8);
    printer.space(1);
    printer.space(2);
    assert_eq!(printer.line_size_budget(), 6);
    printer.raw(text("cd"));
    assert_eq!(printer.line_size_budget(), 4);
    printer.space(5);
    assert_eq!(printer.finish(), "ab  cd");
}

#[test]
fn the_first_text_stands_at_the_start_whatever_the_indent() {
    let mut printer = Printer::new(config(10, 4));
    printer.indent(1);
    printer.space(2);
    printer.raw(text("ab"));
    assert_eq!(printer.line_size_budget(), 8);
    printer.hard_break(1);
    printer.raw(text("cd"));
    assert_eq!(printer.finish(), "ab\n  cd");

    let mut formatter = Formatter::new(config(10, 4));
    formatter.indent(2);
    formatter.raw(text("ab"));
    assert_eq!(formatter.eoi(), "ab");
}

#[test]
fn printer_breaks_and_indents() {
    let mut printer = Printer::new(config(10, 4));
    printer.raw(text("ab"));
    printer.indent(2);
    printer.space(1);
    printer.hard_break(1);
    printer.hard_break(2);
    printer.space(4);
    assert_eq!(printer.line_size_budget(), 6);
    printer.raw(text("cd"));
    assert_eq!(printer.line_size_budget(), 4);
    printer.indent(-1);
    printer.hard_break(0);
    printer.raw(text("ef"));
    printer.indent(2);
    printer.indent(2);
    printer.hard_break(1);
    assert_eq!(printer.line_size_budget(), 4);
    printer.indent(-9);
    printer.raw(text("gh"));
    assert_eq!(printer.finish(), "ab\n\n    cdef\ngh");
}

#[test]
fn printer_keeps_soft_breaks_of_inline_groups() {
    let mut printer = Printer::new(config(10, 4));
    printer.begin(BreakStyleEnum::Consistent, Size::Fixed(10));
    printer.raw(text("ab"));
    printer.soft_break(Size::Fixed(100));
    printer.space(1);
    printer.raw(text("cd"));
    printer.soft_break(Size::Infinite);
    printer.raw(text("ef"));
    printer.end();
    printer.end();
    assert_eq!(printer.finish(), "ab cd\nef");
}

#[test]
fn printer_breaks_consistent_groups_at_every_soft_break() {
    let mut printer = Printer::new(config(10, 4));
    printer.begin(BreakStyleEnum::Consistent, Size::Fixed(11));
    printer.raw(text("ab"));
    printer.soft_break(Size::Fixed(1));
    printer.space(1);
    printer.raw(text("cd"));
    printer.end();
    printer.soft_break(Size::Fixed(8));
    printer.raw(text("ef"));
    printer.soft_break(Size::Fixed(9));
    printer.raw(text("gh"));
    assert_eq!(printer.finish(), "ab\ncdef\ngh");
}

#[test]
fn printer_breaks_compact_groups_where_the_line_overflows() {
    let mut printer = Printer::new(config(6, 3));
    printer.begin(BreakStyleEnum::Compact, Size::Infinite);
    printer.raw(text("ab"));
    printer.soft_break(Size::Fixed(3));
    printer.space(1);
    printer.raw(text("cd"));
    printer.soft_break(Size::Fixed(3));
    printer.space(1);
    printer.raw(text("ef"));
    printer.end();
    assert_eq!(printer.finish(), "ab cd\nef");
}

#[test]
fn formatter_squashes_blanks_and_drops_empty_groups() {
    let mut formatter = Formatter::new(config(80, 40));
    formatter.begin(BreakStyleEnum::Consistent);
    formatter.space(2);
    formatter.raw(text("a"));
    formatter.raw(text(""));
    formatter.space(1);
    formatter.space(3);
    formatter.space(0);
    formatter.begin(BreakStyleEnum::Compact);
    formatter.end();
    formatter.soft_break();
    formatter.soft_break();
    formatter.raw(text("b"));
    formatter.space(1);
    formatter.hard_break(2);
    formatter.hard_break(1);
    formatter.soft_break();
    formatter.space(7);
    formatter.indent(1);
    formatter.indent(1);
    formatter.raw(text("c"));
    formatter.space(4);
    formatter.hard_break(3);
    formatter.end();
    assert_eq!(formatter.eoi(), "a\nb\n\n    c");
}

#[test]
fn formatter_squashes_spaces_into_the_longest() {
    let mut formatter = Formatter::new(config(80, 40));
    formatter.begin(BreakStyleEnum::Consistent);
    formatter.raw(text("a"));
    formatter.space(1);
    formatter.space(3);
    formatter.space(2);
    formatter.soft_break();
    formatter.raw(text("b"));
    formatter.end();
    assert_eq!(formatter.eoi(), "a   b");
}

#[test]
fn formatter_breaks_the_outer_group_first() {
    let mut formatter = Formatter::new(config(8, 4));
    formatter.begin(BreakStyleEnum::Consistent);
    formatter.raw(text("aa"));
    formatter.indent(1);
    formatter.soft_break();
    formatter.begin(BreakStyleEnum::Consistent);
    formatter.raw(text("bb"));
    formatter.soft_break();
    formatter.space(1);
    formatter.raw(text("cc"));
    formatter.end();
    formatter.soft_break();
    formatter.space(1);
    formatter.raw(text("dd"));
    formatter.indent(-1);
    formatter.soft_break();
    formatter.raw(text("ee"));
    formatter.end();
    assert_eq!(formatter.eoi(), "aa\n  bb cc\n  dd\nee");
}

#[test]
fn formatter_prints_groups_that_never_end() {
    let mut formatter = Formatter::new(config(80, 40));
    formatter.begin(BreakStyleEnum::Consistent);
    formatter.raw(text("a"));
    formatter.begin(BreakStyleEnum::Consistent);
    formatter.soft_break();
    formatter.space(1);
    formatter.raw(text("b"));
    assert_eq!(formatter.eoi(), "a\nb");
}
