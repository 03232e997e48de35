//! Scenario tests of printing, alignment, markup errors and the wrap
//! engine's edge cases.

use conapp::{
    colored, parse_colored_line, parse_colored_lines, plain, Buffer, ColorResolver, ColoredLine,
    GlyphMapper, MarkupError, TextAlign, RGBA,
};

fn extract_line(buf: &Buffer, x: i32, y: i32, width: i32) -> String {
    let mut output = "".to_string();
    for cx in x..x + width {
        if let Some(g) = buf.get_glyph(cx, y) {
            output.push(char::from_u32(g).unwrap());
        }
    }
    output
}

#[test]
fn print_no_bg_no_width() {
    let mut printer = colored(Buffer::new(30, 5));
    let w = printer.print(5, 0, "No #[0F0]bg#[], no #[00f]width#[]").unwrap();
    assert_eq!(w, 15);
    assert_eq!(extract_line(printer.buffer(), 5, 0, 16), "No bg, no width\0");
    // No padding: the cells left of the text stay blank.
    assert_eq!(extract_line(printer.buffer(), 0, 0, 5), "\0\0\0\0\0");
    // The two tagged runs resolve their own colors; the rest keeps the
    // default white foreground.
    let white = RGBA(255, 255, 255, 255);
    assert_eq!(printer.buffer().get_fore(5, 0), Some(white));
    assert_eq!(printer.buffer().get_fore(8, 0), Some(RGBA(0, 255, 0, 255)));
    assert_eq!(printer.buffer().get_fore(9, 0), Some(RGBA(0, 255, 0, 255)));
    assert_eq!(printer.buffer().get_fore(10, 0), Some(white));
    assert_eq!(printer.buffer().get_fore(15, 0), Some(RGBA(0, 0, 255, 255)));
    assert_eq!(printer.buffer().get_fore(19, 0), Some(RGBA(0, 0, 255, 255)));
}

#[test]
fn zero_window_finds_no_break() {
    let span = conapp::ColoredSpan::new(None, "words and spaces");
    assert_eq!(span.last_break_before(0), None);
    let mut colors = Vec::new();
    let line = parse_colored_line("words and spaces", &mut colors).unwrap();
    assert_eq!(line.last_break_before(0), None);
    let plain_line = conapp::Line::new("words and spaces");
    assert_eq!(plain_line.last_break_before(0), None);
}

#[test]
fn unterminated_tag_is_reported() {
    assert!(parse_colored_lines("plain text").is_ok());
    let err = parse_colored_lines("bad #[red stuff").unwrap_err();
    let MarkupError::UnterminatedTag(line) = err;
    assert_eq!(line, "bad #[red stuff");

    // The offending physical line is named, not the whole text.
    let err = parse_colored_lines("fine line\nbad #[oops").unwrap_err();
    let MarkupError::UnterminatedTag(line) = err;
    assert_eq!(line, "bad #[oops");

    let mut printer = colored(Buffer::new(10, 10));
    assert!(printer.print(0, 0, "no #[tag").is_err());
    assert!(printer.print_lines(0, 0, "no #[tag").is_err());
    assert!(printer.wrap(0, 0, "no #[tag").is_err());
}

#[test]
fn escaped_tag_prints_literally() {
    let mut printer = colored(Buffer::new(20, 3));
    let w = printer.print(0, 0, "a #[[red]b").unwrap();
    assert_eq!(w, 9);
    assert_eq!(extract_line(printer.buffer(), 0, 0, 11), "a #[red]b\0\0");
}

#[test]
fn color_stack_crosses_newlines() {
    // An unterminated tag colors the text after the embedded newline.
    let mut printer = colored(Buffer::new(20, 4));
    let (w, h) = printer.print_lines(0, 0, "#[0F0]one\ntwo#[] three").unwrap();
    assert_eq!((w, h), (9, 2));
    assert_eq!(extract_line(printer.buffer(), 0, 0, 4), "one\0");
    assert_eq!(extract_line(printer.buffer(), 0, 1, 10), "two three\0");
    let green = RGBA(0, 255, 0, 255);
    assert_eq!(printer.buffer().get_fore(0, 0), Some(green));
    assert_eq!(printer.buffer().get_fore(0, 1), Some(green));
    // After the pop, the default foreground applies again.
    assert_eq!(printer.buffer().get_fore(4, 1), Some(RGBA(255, 255, 255, 255)));
}

#[test]
fn alignment_and_background() {
    let bg = RGBA(10, 20, 30, 255);
    let mut printer = plain(Buffer::new(20, 5)).width(9).bg(bg).align(TextAlign::Right);
    printer.print(10, 0, "abc");
    // Right alignment shifts the field so it ends at column 10; the text
    // fills it from the left, nulls pad the rest.
    assert_eq!(extract_line(printer.buffer(), 2, 0, 9), "abc\0\0\0\0\0\0");
    assert_eq!(printer.buffer().get_back(3, 0), Some(bg));
    assert_eq!(printer.buffer().get_back(10, 0), Some(bg));
    assert_eq!(printer.buffer().get_back(11, 0), Some(RGBA(0, 0, 0, 0)));

    let mut printer = plain(Buffer::new(20, 5)).width(9).align(TextAlign::Center);
    printer.print(10, 0, "abc");
    // Center alignment starts the field half a width left of column 10.
    assert_eq!(extract_line(printer.buffer(), 6, 0, 3), "abc");
}

#[test]
fn codepage_mapper_prints_table_glyphs() {
    let mut printer = plain(Buffer::new(10, 2)).to_glyph(GlyphMapper::Codepage437);
    printer.print(0, 0, "½Ω");
    assert_eq!(printer.buffer().get_glyph(0, 0), Some(171));
    assert_eq!(printer.buffer().get_glyph(1, 0), Some(234));
}

#[test]
fn fixed_resolver_overrides_names() {
    let red = RGBA(255, 0, 0, 255);
    let mut printer = colored(Buffer::new(20, 2)).to_rgba(ColorResolver::Fixed(Some(red)));
    printer.print(0, 0, "#[anything]x#[]y").unwrap();
    assert_eq!(printer.buffer().get_fore(0, 0), Some(red));
    assert_eq!(printer.buffer().get_fore(1, 0), Some(RGBA(255, 255, 255, 255)));
}

#[test]
fn unresolved_name_falls_back_to_default() {
    let fg = RGBA(1, 2, 3, 255);
    let mut printer = colored(Buffer::new(20, 2)).fg(fg);
    printer.print(0, 0, "#[no such color]x#[]").unwrap();
    assert_eq!(printer.buffer().get_fore(0, 0), Some(fg));
}

#[test]
fn narrow_wrap_is_bounded() {
    // A degenerate width cannot make the engine loop: the iteration cap
    // reports truncation and hands the rows back. At a width this narrow
    // every split hyphenates at the start, so the emitted rows are bare
    // hyphen rows until the cap ends the line.
    let (lines, truncated) = conapp::plain::wrap(1, "ab cd");
    assert!(truncated);
    assert_eq!(lines.len(), 11);
    for l in lines.iter().take(10) {
        assert!(l.txt.is_empty());
        assert!(l.hyphen);
    }
    assert!(!lines[10].hyphen);
    let r = conapp::colored::wrap(1, "ab cd").unwrap();
    assert!(r.1);
    assert_eq!(r.0.len(), 11);
}

#[test]
fn wrap_emits_exact_rows() {
    let (lines, truncated) = conapp::plain::wrap(10, "taco casa is a great fast food place");
    assert!(!truncated);
    let texts: Vec<String> = lines
        .iter()
        .map(|l| {
            let mut s: String = l.txt.iter().collect();
            if l.hyphen {
                s.push('-');
            }
            s
        })
        .collect();
    assert_eq!(texts, vec!["taco casa", "is a great", "fast food", "place"]);
}

#[test]
fn colored_wrap_keeps_span_colors() {
    let r = conapp::colored::wrap(10, "#[f00]taco#[] casa").unwrap();
    assert!(!r.1);
    assert_eq!(r.0.len(), 1);
    let line: &ColoredLine = &r.0[0];
    // The first span keeps its tag's color name, the rest is uncolored.
    assert_eq!(line.spans[0].color, Some("f00".chars().collect::<Vec<char>>()));
    assert_eq!(line.spans[0].txt, "taco".chars().collect::<Vec<char>>());
    assert_eq!(line.spans[1].color, None);
    assert_eq!(line.spans[1].txt, " casa".chars().collect::<Vec<char>>());
}

#[test]
fn first_word_stops_at_space() {
    let mut colors = Vec::new();
    let line = parse_colored_line("alpha beta", &mut colors).unwrap();
    let fw = line.first_word();
    assert_eq!(fw.char_len(), 5);
    let line = parse_colored_line("single", &mut colors).unwrap();
    assert_eq!(line.first_word().char_len(), 6);
}

#[test]
fn builder_collects_settings() {
    let b = conapp::AppBuilder::new(800, 600)
        .title("demo")
        .vsync(false)
        .fullscreen(true)
        .fps(30)
        .font("fonts/plain_8x8.png")
        .image("img/logo.png");
    assert_eq!(b.config.size, (800, 600));
    assert_eq!(b.config.title, "demo");
    assert!(!b.config.vsync);
    assert!(b.config.fullscreen);
    assert_eq!(b.fps_goal, 30);
    assert_eq!(b.fonts, vec!["fonts/plain_8x8.png".to_string()]);
    assert_eq!(b.images, vec!["img/logo.png".to_string()]);
}

#[test]
fn rect_fills_area() {
    let mut r = conapp::rect(Buffer::new(10, 10)).glyph(42).fg(RGBA(1, 1, 1, 255));
    r.draw(2, 2, 3, 2);
    assert_eq!(r.buffer().get_glyph(2, 2), Some(42));
    assert_eq!(r.buffer().get_glyph(4, 3), Some(42));
    assert_eq!(r.buffer().get_glyph(5, 2), Some(0));
    assert_eq!(r.buffer().get_glyph(2, 4), Some(0));
    assert_eq!(r.buffer().get_fore(3, 2), Some(RGBA(1, 1, 1, 255)));
}

#[test]
fn out_of_bounds_draws_are_ignored() {
    let mut printer = plain(Buffer::new(5, 2));
    // The row is clipped at both edges of the buffer.
    let w = printer.print(-2, 0, "abcdefgh");
    assert_eq!(w, 5);
    assert_eq!(extract_line(printer.buffer(), 0, 0, 5), "cdefg");
    assert_eq!(printer.buffer().get_glyph(-1, 0), None);
    assert_eq!(printer.buffer().get_glyph(5, 0), None);
}

#[test]
fn frame_draws_border_and_title() {
    let mut f = conapp::frame(Buffer::new(12, 6)).title("hi");
    f.draw(0, 0, 10, 4);
    // Single border in CP437 glyphs: corners and edges.
    assert_eq!(f.buffer().get_glyph(0, 0), Some(218));
    assert_eq!(f.buffer().get_glyph(9, 0), Some(191));
    assert_eq!(f.buffer().get_glyph(0, 3), Some(192));
    assert_eq!(f.buffer().get_glyph(9, 3), Some(217));
    assert_eq!(f.buffer().get_glyph(4, 0), Some(196));
    assert_eq!(f.buffer().get_glyph(4, 3), Some(196));
    assert_eq!(f.buffer().get_glyph(0, 2), Some(179));
    assert_eq!(f.buffer().get_glyph(9, 2), Some(179));
    // The title is centered on the top edge at half the width and printed
    // with the unicode mapping.
    assert_eq!(f.buffer().get_glyph(5, 0), Some('h' as u32));
    assert_eq!(f.buffer().get_glyph(6, 0), Some('i' as u32));
    // The inside stays untouched without a fill.
    assert_eq!(f.buffer().get_glyph(4, 2), Some(0));
}

#[test]
fn frame_fill_writes_inside() {
    let mut f = conapp::frame(Buffer::new(8, 5))
        .border(conapp::BorderType::Color)
        .fill(Some(7), Some(RGBA(9, 9, 9, 255)), None);
    f.draw(1, 1, 4, 3);
    assert_eq!(f.buffer().get_glyph(2, 2), Some(7));
    assert_eq!(f.buffer().get_fore(2, 2), Some(RGBA(9, 9, 9, 255)));
    assert_eq!(f.buffer().get_glyph(0, 0), Some(0));
    // The color border overwrites the fill glyph on the edges with glyph 0.
    assert_eq!(f.buffer().get_glyph(1, 1), Some(0));
}

#[test]
fn char_size_from_font_name() {
    assert_eq!(conapp::parse_char_size("terminal_8x8.png"), Some((8, 8)));
    assert_eq!(conapp::parse_char_size("fonts/big_10x16.png"), Some((10, 16)));
    assert_eq!(conapp::parse_char_size("nosize.png"), None);
    assert_eq!(conapp::parse_char_size("no_x_here.png"), None);
    assert_eq!(conapp::parse_char_size("wrong_8.png"), None);
    assert_eq!(conapp::parse_char_size("_8x8.png"), Some((0, 0)));
    assert_eq!(conapp::parse_char_size("huge_99999999999x8.png"), None);
}

#[test]
fn saturating_color_math() {
    let a = RGBA(200, 100, 0, 255);
    let b = RGBA(100, 100, 100, 10);
    assert_eq!(a.saturating_add(b), RGBA(255, 200, 100, 255));
    assert_eq!(a.saturating_sub(b), RGBA(100, 0, 0, 245));
    assert_eq!(RGBA(0, 0, 0, 0).saturating_sub(RGBA(1, 2, 3, 4)), RGBA(0, 0, 0, 0));
}
