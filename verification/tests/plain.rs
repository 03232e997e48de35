//! Tests of the plain word-wrap and printer.

use conapp::{plain, Buffer, PlainPrinter};

fn extract_line(buf: &Buffer, x: i32, y: i32, width: i32) -> String {
    let mut output = "".to_string();
    for cx in x..x + width {
        if let Some(g) = buf.get_glyph(cx, y) {
            output.push(char::from_u32(g).unwrap());
        }
    }
    output
}

fn printer() -> PlainPrinter {
    plain(Buffer::new(50, 50))
}

#[test]
fn plain_wrap_basic() {
    let mut printer = printer().width(10);

    assert_eq!(printer.wrap(0, 0, "taco casa"), (10, 1));
    assert_eq!(extract_line(printer.buffer(), 0, 0, 10), "taco casa\0");
}

#[test]
fn wrap_multi() {
    let mut printer = printer().width(10);

    let r = printer.wrap(0, 1, "taco casa is a great fast food place");
    assert_eq!(extract_line(printer.buffer(), 0, 1, 11), "taco casa\0\0");
    assert_eq!(extract_line(printer.buffer(), 0, 2, 11), "is a great\0");
    assert_eq!(extract_line(printer.buffer(), 0, 3, 11), "fast food\0\0");
    assert_eq!(extract_line(printer.buffer(), 0, 4, 11), "place\0\0\0\0\0\0");
    assert_eq!(r, (10, 4));
}

#[test]
fn plain_wrap_breakword() {
    let mut printer = printer().width(10);

    let r = printer.wrap(0, 1, "supercalafragalisticexpialadocious");
    assert_eq!(extract_line(printer.buffer(), 0, 1, 11), "supercala-\0");
    assert_eq!(extract_line(printer.buffer(), 0, 2, 11), "fragalist-\0");
    assert_eq!(extract_line(printer.buffer(), 0, 3, 11), "icexpiala-\0");
    assert_eq!(extract_line(printer.buffer(), 0, 4, 11), "docious\0\0\0\0");
    assert_eq!(r, (10, 4));
}

#[test]
fn plain_wrap_multi_hyphen() {
    let mut printer = printer().width(10);

    let r = printer.wrap(0, 1, "the conflaguration exponentially deteriorated the stonemasons' monuments");
    assert_eq!(extract_line(printer.buffer(), 0, 1, 11), "the confl-\0");
    assert_eq!(extract_line(printer.buffer(), 0, 2, 11), "aguration\0\0");
    assert_eq!(extract_line(printer.buffer(), 0, 3, 11), "exponenti-\0");
    assert_eq!(extract_line(printer.buffer(), 0, 4, 11), "ally dete-\0");
    assert_eq!(extract_line(printer.buffer(), 0, 5, 11), "riorated\0\0\0");
    assert_eq!(extract_line(printer.buffer(), 0, 6, 11), "the stone-\0");
    assert_eq!(extract_line(printer.buffer(), 0, 7, 11), "masons'\0\0\0\0");
    assert_eq!(extract_line(printer.buffer(), 0, 8, 11), "monuments\0\0");
    assert_eq!(r, (10, 8));
}

#[test]
fn plain_wrap_lines() {
    let mut printer = printer().width(20);

    let r = printer.wrap(
        0,
        1,
        "the conflaguration\nexponentially\ndeteriorated the\nstonemasons' monuments",
    );
    assert_eq!(extract_line(printer.buffer(), 0, 1, 21), "the conflaguration\0\0\0");
    assert_eq!(extract_line(printer.buffer(), 0, 2, 21), "exponentially\0\0\0\0\0\0\0\0");
    assert_eq!(extract_line(printer.buffer(), 0, 3, 21), "deteriorated the\0\0\0\0\0");
    assert_eq!(extract_line(printer.buffer(), 0, 4, 21), "stonemasons' monume-\0");
    assert_eq!(
        extract_line(printer.buffer(), 0, 5, 21),
        "nts\0\0\0\0\0\0\0\0\0\0\0\0\0\0\0\0\0\0"
    );
    assert_eq!(r, (20, 5));
}

#[test]
fn wrap_width() {
    let mut buffer = Buffer::new(50, 50);
    {
        let mut printer = plain(buffer).width(15);

        let r = printer.wrap(0, 0, "Inside a call to wrap, you can place a long text and it will automatically be wrapped at the width you specify.");

        assert_eq!(extract_line(printer.buffer(), 0, 0, 16), "Inside a call\0\0\0");
        assert_eq!(extract_line(printer.buffer(), 0, 1, 16), "to wrap, you\0\0\0\0");
        assert_eq!(extract_line(printer.buffer(), 0, 2, 16), "can place a\0\0\0\0\0");
        assert_eq!(extract_line(printer.buffer(), 0, 3, 16), "long text and\0\0\0");
        assert_eq!(extract_line(printer.buffer(), 0, 4, 16), "it will automa-\0");
        assert_eq!(extract_line(printer.buffer(), 0, 5, 16), "tically be wra-\0");
        assert_eq!(extract_line(printer.buffer(), 0, 6, 16), "pped at the\0\0\0\0\0");
        assert_eq!(extract_line(printer.buffer(), 0, 7, 16), "width you spec-\0");
        assert_eq!(extract_line(printer.buffer(), 0, 8, 16), "ify.\0\0\0\0\0\0\0\0\0\0\0\0");
        assert_eq!(r, (15, 9));
        buffer = printer.into_buffer();
    }

    {
        let mut printer = plain(buffer).width(15);

        let r = printer.wrap(0, 0, "Inside a call to wrap, you can place a long text and it will automatically be wrapped at the width you specify.");

        assert_eq!(extract_line(printer.buffer(), 0, 0, 16), "Inside a call\0\0\0");
        assert_eq!(extract_line(printer.buffer(), 0, 1, 16), "to wrap, you\0\0\0\0");
        assert_eq!(extract_line(printer.buffer(), 0, 2, 16), "can place a\0\0\0\0\0");
        assert_eq!(extract_line(printer.buffer(), 0, 3, 16), "long text and\0\0\0");
        assert_eq!(extract_line(printer.buffer(), 0, 4, 16), "it will automa-\0");
        assert_eq!(extract_line(printer.buffer(), 0, 5, 16), "tically be wra-\0");
        assert_eq!(extract_line(printer.buffer(), 0, 6, 16), "pped at the\0\0\0\0\0");
        assert_eq!(extract_line(printer.buffer(), 0, 7, 16), "width you spec-\0");
        assert_eq!(extract_line(printer.buffer(), 0, 8, 16), "ify.\0\0\0\0\0\0\0\0\0\0\0\0");
        assert_eq!(r, (15, 9));
    }
}
