//! Tests of colored spans, lines, markup parsing and the colored wrap.

use conapp::{colored, parse_colored_line, Buffer, ColoredPrinter, ColoredSpan};

fn chars(s: &str) -> Vec<char> {
    s.chars().collect()
}

fn extract_line(buf: &Buffer, x: i32, y: i32, width: i32) -> String {
    let mut output = "".to_string();
    for cx in x..x + width {
        if let Some(g) = buf.get_glyph(cx, y) {
            output.push(char::from_u32(g).unwrap());
        }
    }
    output
}

fn printer() -> ColoredPrinter {
    colored(Buffer::new(50, 50))
}

#[test]
fn span_last_break_before() {
    let text = "This is a span of text";
    let span = ColoredSpan::new(Some("color"), text);

    assert_eq!(span.last_break_before(0), None);
    assert_eq!(span.last_break_before(4), None);
    assert_eq!(span.last_break_before(5), Some(4));
    assert_eq!(span.last_break_before(12), Some(9));
    assert_eq!(span.last_break_before(20), Some(17));

    let text = "This is a ";
    let span = ColoredSpan::new(Some("color"), text);

    assert_eq!(span.last_break_before(0), None);
    assert_eq!(span.last_break_before(0), None);
    assert_eq!(span.last_break_before(4), None);
    assert_eq!(span.last_break_before(5), Some(4));
    assert_eq!(span.last_break_before(12), Some(9));
}

#[test]
fn line_last_break_before() {
    let text = "This is a #[00F]span#[] of text";
    let mut colors = Vec::new();
    let line = parse_colored_line(text, &mut colors).unwrap();

    assert_eq!(line.last_break_before(0), None);
    assert_eq!(line.last_break_before(4), None);
    assert_eq!(line.last_break_before(5), Some(4));
    assert_eq!(line.last_break_before(12), Some(9));
    assert_eq!(line.last_break_before(20), Some(17));
}

#[test]
fn span_split_at_space() {
    let text = "This is a span of text";
    let span = ColoredSpan::new(Some("color"), text);

    let (left, right) = span.split_omitting(9);
    assert_eq!(left.txt, chars("This is a"));
    assert_eq!(right.txt, chars("span of text"));
    assert_eq!(left.color, Some(chars("color")));
    assert_eq!(right.color, Some(chars("color")));

    let (left, right) = span.split_omitting(0);
    assert_eq!(left.txt, chars(""));
    assert_eq!(right.txt, chars("his is a span of text"));
    assert_eq!(left.color, Some(chars("color")));
    assert_eq!(right.color, Some(chars("color")));

    let (left, right) = span.split_omitting(span.char_len() - 1);
    assert_eq!(left.txt, chars("This is a span of tex"));
    assert_eq!(right.txt, chars(""));
    assert_eq!(left.color, Some(chars("color")));
    assert_eq!(right.color, Some(chars("color")));
}

#[test]
fn line_split_at_space() {
    let text = "This is a #[00F]span#[] of text";
    let mut colors = Vec::new();
    let line = parse_colored_line(text, &mut colors).unwrap();
    let mut printer = printer();

    let (left, right) = line.split_omitting(9);
    left.print(&mut printer, 0, 0);
    right.print(&mut printer, 0, 1);
    assert_eq!(extract_line(printer.buffer(), 0, 0, 10), "This is a\0");
    assert_eq!(extract_line(printer.buffer(), 0, 1, 13), "span of text\0");

    printer.buffer.clear(true, true, true);
    let (left, right) = line.split_omitting(0);
    left.print(&mut printer, 0, 0);
    right.print(&mut printer, 0, 1);
    assert_eq!(extract_line(printer.buffer(), 0, 0, 5), "\0\0\0\0\0");
    assert_eq!(extract_line(printer.buffer(), 0, 1, 22), "his is a span of text\0");

    printer.buffer.clear(true, true, true);
    let (left, right) = line.split_omitting(line.char_len() - 1);
    left.print(&mut printer, 0, 0);
    right.print(&mut printer, 0, 1);
    assert_eq!(extract_line(printer.buffer(), 0, 0, 22), "This is a span of tex\0");
    assert_eq!(extract_line(printer.buffer(), 0, 1, 2), "\0\0");
}

#[test]
fn span_split_at_char() {
    let text = "This is a span of text";
    let span = ColoredSpan::new(Some("color"), text);

    let (left, right) = span.split_at_idx(9);
    assert_eq!(left.txt, chars("This is a"));
    assert_eq!(right.txt, chars(" span of text"));
    assert_eq!(left.color, Some(chars("color")));
    assert_eq!(right.color, Some(chars("color")));

    let (left, right) = span.split_at_idx(0);
    assert_eq!(left.txt, chars(""));
    assert_eq!(right.txt, chars("This is a span of text"));
    assert_eq!(left.color, Some(chars("color")));
    assert_eq!(right.color, Some(chars("color")));

    let (left, right) = span.split_at_idx(span.char_len() - 1);
    assert_eq!(left.txt, chars("This is a span of tex"));
    assert_eq!(right.txt, chars("t"));
    assert_eq!(left.color, Some(chars("color")));
    assert_eq!(right.color, Some(chars("color")));
}

#[test]
fn line_hyphenate_at_char() {
    let text = "This is a #[00F]span#[] of text";
    let mut colors = Vec::new();
    let line = parse_colored_line(text, &mut colors).unwrap();
    let mut printer = printer();

    let (left, right) = line.hyphenate_at_char(12);
    left.print(&mut printer, 0, 0);
    right.print(&mut printer, 0, 1);
    assert_eq!(extract_line(printer.buffer(), 0, 0, 14), "This is a sp-\0");
    assert_eq!(extract_line(printer.buffer(), 0, 1, 11), "an of text\0");

    printer.buffer.clear(true, true, true);
    let (left, right) = line.hyphenate_at_char(0);
    left.print(&mut printer, 0, 0);
    right.print(&mut printer, 0, 1);
    // A split at the very start still appends the synthetic hyphen, colored
    // by the ambient default: the left side is the one-character hyphen row.
    assert_eq!(left.char_len(), 1);
    assert_eq!(extract_line(printer.buffer(), 0, 0, 5), "-\0\0\0\0");
    assert_eq!(extract_line(printer.buffer(), 0, 1, 23), "This is a span of text\0");

    printer.buffer.clear(true, true, true);
    let (left, right) = line.hyphenate_at_char(line.char_len() - 1);
    left.print(&mut printer, 0, 0);
    right.print(&mut printer, 0, 1);
    assert_eq!(extract_line(printer.buffer(), 0, 0, 23), "This is a span of tex-\0");
    assert_eq!(extract_line(printer.buffer(), 0, 1, 2), "t\0");
}

#[test]
fn colored_wrap_basic() {
    let mut printer = printer().width(10);

    assert_eq!(printer.wrap(0, 0, "taco casa").unwrap(), (10, 1));
    assert_eq!(extract_line(printer.buffer(), 0, 0, 10), "taco casa\0");
}

#[test]
fn wrap_multi_plain() {
    let mut printer = printer().width(10);

    let r = printer.wrap(0, 1, "#[red]taco casa#[] is a great fast food place").unwrap();
    assert_eq!(extract_line(printer.buffer(), 0, 1, 11), "taco casa\0\0");
    assert_eq!(extract_line(printer.buffer(), 0, 2, 11), "is a great\0");
    assert_eq!(extract_line(printer.buffer(), 0, 3, 11), "fast food\0\0");
    assert_eq!(extract_line(printer.buffer(), 0, 4, 11), "place\0\0\0\0\0\0");
    assert_eq!(r, (10, 4));
}

#[test]
fn colored_wrap_breakword() {
    let mut printer = printer().width(10);

    let r = printer.wrap(0, 1, "supercalafragalisticexpialadocious").unwrap();
    assert_eq!(extract_line(printer.buffer(), 0, 1, 11), "supercala-\0");
    assert_eq!(extract_line(printer.buffer(), 0, 2, 11), "fragalist-\0");
    assert_eq!(extract_line(printer.buffer(), 0, 3, 11), "icexpiala-\0");
    assert_eq!(extract_line(printer.buffer(), 0, 4, 11), "docious\0\0\0\0");
    assert_eq!(r, (10, 4));
}

#[test]
fn colored_wrap_multi_hyphen() {
    let mut printer = printer().width(10);

    let r = printer
        .wrap(
            0,
            1,
            "the conflaguration exponentially #[#f00]deteriorated#[] the stonemasons' monuments",
        )
        .unwrap();
    assert_eq!(extract_line(printer.buffer(), 0, 1, 11), "the confl-\0");
    assert_eq!(extract_line(printer.buffer(), 0, 2, 11), "aguration\0\0");
    assert_eq!(extract_line(printer.buffer(), 0, 3, 11), "exponenti-\0");
    assert_eq!(extract_line(printer.buffer(), 0, 4, 11), "ally dete-\0");
    assert_eq!(extract_line(printer.buffer(), 0, 5, 11), "riorated\0\0\0");
    assert_eq!(extract_line(printer.buffer(), 0, 6, 11), "the stone-\0");
    assert_eq!(extract_line(printer.buffer(), 0, 7, 11), "masons'\0\0\0\0");
    assert_eq!(extract_line(printer.buffer(), 0, 8, 11), "monuments\0\0");
    assert_eq!(r, (10, 8));
}

#[test]
fn colored_wrap_lines() {
    let mut printer = printer().width(20);

    let r = printer
        .wrap(0, 1, "the conflaguration\nexponentially\ndeteriorated the\nstonemasons' monuments")
        .unwrap();
    assert_eq!(extract_line(printer.buffer(), 0, 1, 21), "the conflaguration\0\0\0");
    assert_eq!(extract_line(printer.buffer(), 0, 2, 21), "exponentially\0\0\0\0\0\0\0\0");
    assert_eq!(extract_line(printer.buffer(), 0, 3, 21), "deteriorated the\0\0\0\0\0");
    assert_eq!(extract_line(printer.buffer(), 0, 4, 21), "stonemasons' monume-\0");
    assert_eq!(
        extract_line(printer.buffer(), 0, 5, 21),
        "nts\0\0\0\0\0\0\0\0\0\0\0\0\0\0\0\0\0\0"
    );
    assert_eq!(r, (20, 5));
}
