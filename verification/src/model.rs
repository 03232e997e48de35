//! The mathematical model of markup text: sequences of colored characters,
//! the tokenization of `#[color]...#[]` markup, and the word-wrap recursion.
//! The executable parser, span operations and wrap engine are specified
//! against the functions in this module.

use vstd::math::min;
use vstd::prelude::*;

verus! {

/// One character of output text together with the markup color name it
/// inherited: the pair holds the color (`None` means the caller's default
/// color) and the character.
pub type ColoredChar = (Option<Seq<char>>, char);

/// A run of output text with per-character colors.
pub type ColoredText = Seq<ColoredChar>;

/// The characters of a colored text, without their colors.
pub open spec fn text_of(s: ColoredText) -> Seq<char> {
    Seq::new(s.len(), |i: int| s[i].1)
}

/// Plain text, colored with the default color throughout.
pub open spec fn plain_chars(t: Seq<char>) -> ColoredText {
    tint(None, t)
}

/// Text colored uniformly by `color`.
pub open spec fn tint(color: Option<Seq<char>>, t: Seq<char>) -> ColoredText {
    Seq::new(t.len(), |i: int| (color, t[i]))
}

/// The index of the first occurrence of `c` in `t`, or `t.len()` if none.
pub open spec fn find_off(t: Seq<char>, c: char) -> nat
    decreases t.len(),
{
    if t.len() == 0 {
        0
    } else if t[0] == c {
        0
    } else {
        (1 + find_off(t.skip(1), c)) as nat
    }
}

pub proof fn lemma_find_off(t: Seq<char>, c: char)
    ensures
        find_off(t, c) <= t.len(),
        forall|k: int| 0 <= k < find_off(t, c) ==> t[k] != c,
        find_off(t, c) < t.len() ==> t[find_off(t, c) as int] == c,
    decreases t.len(),
{
    if t.len() > 0 && t[0] != c {
        lemma_find_off(t.skip(1), c);
        assert forall|k: int| 0 <= k < find_off(t, c) implies t[k] != c by {
            if k > 0 {
                assert(t.skip(1)[k - 1] != c);
            }
        }
    }
}

/// The index of the first occurrence of the tag opener `#[` in `t`, or
/// `t.len()` if none.
pub open spec fn find_tag(t: Seq<char>) -> nat
    decreases t.len(),
{
    if t.len() < 2 {
        t.len() as nat
    } else if t[0] == '#' && t[1] == '[' {
        0
    } else {
        (1 + find_tag(t.skip(1))) as nat
    }
}

pub proof fn lemma_find_tag(t: Seq<char>)
    ensures
        find_tag(t) <= t.len(),
        forall|k: int|
            0 <= k && k + 1 < t.len() && k < find_tag(t) ==> !(#[trigger] t[k] == '#' && t[k + 1]
                == '['),
        find_tag(t) < t.len() ==> find_tag(t) + 2 <= t.len() && t[find_tag(t) as int] == '#'
            && t[find_tag(t) + 1 as int] == '[',
    decreases t.len(),
{
    if t.len() >= 2 && !(t[0] == '#' && t[1] == '[') {
        lemma_find_tag(t.skip(1));
        assert forall|k: int|
            0 <= k && k + 1 < t.len() && k < find_tag(t) implies !(#[trigger] t[k] == '#' && t[k
            + 1] == '[') by {
            if k > 0 {
                assert(!(t.skip(1)[k - 1] == '#' && t.skip(1)[k] == '['));
            }
        }
    }
}

/// The index of the last space character strictly below `m` in `t`,
/// or `None` if the first `m` characters hold no space.
pub open spec fn last_space_upto(t: Seq<char>, m: int) -> Option<int>
    decreases m,
{
    if m <= 0 || m > t.len() {
        None
    } else if t[m - 1] == ' ' {
        Some(m - 1)
    } else {
        last_space_upto(t, m - 1)
    }
}

/// The index of the last space character of `t` that lies strictly below
/// the window `w`, or `None` if there is none: the break position that a
/// width-`w` search window can reach.
pub open spec fn last_space_before(t: Seq<char>, w: int) -> Option<int> {
    last_space_upto(t, min(w, t.len() as int))
}

pub proof fn lemma_last_space_upto(t: Seq<char>, m: int)
    requires
        m <= t.len(),
    ensures
        match last_space_upto(t, m) {
            Some(j) => 0 <= j < m && t[j] == ' ' && forall|k: int| j < k < m ==> t[k] != ' ',
            None => forall|k: int| 0 <= k < m ==> t[k] != ' ',
        },
    decreases m,
{
    if m > 0 && t[m - 1] != ' ' {
        lemma_last_space_upto(t, m - 1);
    }
}

/// The number of characters before the first space of `t` (the length of the
/// first word); `t.len()` when `t` holds no space.
pub open spec fn first_word_len(t: Seq<char>) -> nat {
    find_off(t, ' ')
}

/// `t` split at the literal newline characters, which are dropped.
pub open spec fn split_lines(t: Seq<char>) -> Seq<Seq<char>>
    decreases t.len(),
{
    let i = min(find_off(t, '\n') as int, t.len() as int);
    if i == t.len() {
        seq![t]
    } else {
        seq![t.take(i)] + split_lines(t.skip(i + 1))
    }
}

/// The color that the top of the markup stack assigns to text: the last
/// pushed name, or the default when the stack is empty.
pub open spec fn stack_top(stack: Seq<Seq<char>>) -> Option<Seq<char>> {
    if stack.len() > 0 {
        Some(stack.last())
    } else {
        None
    }
}

/// Popping an empty markup stack is a no-op.
pub open spec fn stack_pop(stack: Seq<Seq<char>>) -> Seq<Seq<char>> {
    if stack.len() > 0 {
        stack.drop_last()
    } else {
        stack
    }
}

/// The colored characters of one physical line, together with the markup
/// stack as the end of the line leaves it.
pub ghost struct ParsedLine {
    pub chars: ColoredText,
    pub stack: Seq<Seq<char>>,
}

/// Tokenizes one chunk of a line: the text between two `#[` delimiters (or
/// after the last one). An empty chunk is skipped; a chunk that begins with
/// `[` is the escape for a literal `#[`; otherwise the text before the first
/// `]` names a color (empty name pops the stack, any other name is pushed)
/// and the text after it is tinted by the new stack top. A chunk without a
/// `]` is malformed (`None`).
pub open spec fn parse_chunk(chunk: Seq<char>, stack: Seq<Seq<char>>) -> Option<(ColoredText, Seq<Seq<char>>)> {
    if chunk.len() == 0 {
        Some((Seq::empty(), stack))
    } else if chunk[0] == '[' {
        let top = stack_top(stack);
        Some((tint(top, seq!['#', '[']) + tint(top, chunk.skip(1)), stack))
    } else {
        let j = min(find_off(chunk, ']') as int, chunk.len() as int);
        if j == chunk.len() {
            None
        } else {
            let name = chunk.take(j);
            let stack2 = if name.len() == 0 {
                stack_pop(stack)
            } else {
                stack.push(name)
            };
            Some((tint(stack_top(stack2), chunk.skip(j + 1)), stack2))
        }
    }
}

/// Tokenizes the text that follows a `#[` delimiter: one chunk (up to the
/// next delimiter), then the rest.
pub open spec fn parse_chunks(t: Seq<char>, stack: Seq<Seq<char>>) -> Option<ParsedLine>
    decreases t.len(),
{
    let i = min(find_tag(t) as int, t.len() as int);
    match parse_chunk(t.take(i), stack) {
        None => None,
        Some((emitted, stack2)) => {
            if i < t.len() {
                match parse_chunks(t.skip(min(i + 2, t.len() as int)), stack2) {
                    None => None,
                    Some(r) => Some(ParsedLine { chars: emitted + r.chars, stack: r.stack }),
                }
            } else {
                Some(ParsedLine { chars: emitted, stack: stack2 })
            }
        },
    }
}

/// Tokenizes one physical line: the text before the first `#[` is tinted by
/// the current stack top, and the rest is tokenized chunk by chunk.
pub open spec fn parse_line(t: Seq<char>, stack: Seq<Seq<char>>) -> Option<ParsedLine> {
    let i = min(find_tag(t) as int, t.len() as int);
    let head = tint(stack_top(stack), t.take(i));
    if i < t.len() {
        match parse_chunks(t.skip(min(i + 2, t.len() as int)), stack) {
            None => None,
            Some(r) => Some(ParsedLine { chars: head + r.chars, stack: r.stack }),
        }
    } else {
        Some(ParsedLine { chars: head, stack })
    }
}

/// What one chunk contributes to the markup-stripped text.
pub open spec fn strip_chunk(chunk: Seq<char>) -> Option<Seq<char>> {
    if chunk.len() == 0 {
        Some(Seq::empty())
    } else if chunk[0] == '[' {
        Some(seq!['#', '['] + chunk.skip(1))
    } else {
        let j = min(find_off(chunk, ']') as int, chunk.len() as int);
        if j == chunk.len() {
            None
        } else {
            Some(chunk.skip(j + 1))
        }
    }
}

/// The markup-stripped text of what follows a `#[` delimiter.
pub open spec fn strip_chunks(t: Seq<char>) -> Option<Seq<char>>
    decreases t.len(),
{
    let i = min(find_tag(t) as int, t.len() as int);
    match strip_chunk(t.take(i)) {
        None => None,
        Some(emitted) => {
            if i < t.len() {
                match strip_chunks(t.skip(min(i + 2, t.len() as int))) {
                    None => None,
                    Some(r) => Some(emitted + r),
                }
            } else {
                Some(emitted)
            }
        },
    }
}

/// One physical line with the markup delimiters, color names and `]`
/// separators removed: the text a reader sees.
pub open spec fn strip_line(t: Seq<char>) -> Option<Seq<char>> {
    let i = min(find_tag(t) as int, t.len() as int);
    if i < t.len() {
        match strip_chunks(t.skip(min(i + 2, t.len() as int))) {
            None => None,
            Some(r) => Some(t.take(i) + r),
        }
    } else {
        Some(t.take(i))
    }
}

pub proof fn lemma_text_of_tint(color: Option<Seq<char>>, t: Seq<char>)
    ensures
        text_of(tint(color, t)) =~= t,
{
}

pub proof fn lemma_text_of_concat(a: ColoredText, b: ColoredText)
    ensures
        text_of(a + b) =~= text_of(a) + text_of(b),
{
}

/// Tokenizing a line succeeds exactly when stripping it does, whatever the
/// stack holds, and the characters of the parsed spans are the stripped text:
/// concatenating the span texts reproduces the markup-free line verbatim.
pub proof fn lemma_parse_line_strips(t: Seq<char>, stack: Seq<Seq<char>>)
    ensures
        parse_line(t, stack) is Some <==> strip_line(t) is Some,
        parse_line(t, stack) matches Some(r) ==> strip_line(t) == Some(text_of(r.chars)),
{
    let i = min(find_tag(t) as int, t.len() as int);
    lemma_text_of_tint(stack_top(stack), t.take(i));
    if i < t.len() {
        lemma_parse_chunks_strips(t.skip(min(i + 2, t.len() as int)), stack);
        if parse_line(t, stack) matches Some(r) {
            let rc = parse_chunks(t.skip(min(i + 2, t.len() as int)), stack).unwrap();
            lemma_text_of_concat(tint(stack_top(stack), t.take(i)), rc.chars);
        }
    }
}

pub proof fn lemma_parse_chunk_strips(chunk: Seq<char>, stack: Seq<Seq<char>>)
    ensures
        parse_chunk(chunk, stack) is Some <==> strip_chunk(chunk) is Some,
        parse_chunk(chunk, stack) matches Some(r) ==> strip_chunk(chunk) == Some(text_of(r.0)),
{
    if chunk.len() == 0 {
        assert(text_of(Seq::empty()) =~= Seq::<char>::empty());
    } else if chunk[0] == '[' {
        let top = stack_top(stack);
        lemma_text_of_tint(top, seq!['#', '[']);
        lemma_text_of_tint(top, chunk.skip(1));
        lemma_text_of_concat(tint(top, seq!['#', '[']), tint(top, chunk.skip(1)));
    } else {
        let j = min(find_off(chunk, ']') as int, chunk.len() as int);
        if j < chunk.len() {
            let name = chunk.take(j);
            let stack2 = if name.len() == 0 {
                stack_pop(stack)
            } else {
                stack.push(name)
            };
            lemma_text_of_tint(stack_top(stack2), chunk.skip(j + 1));
        }
    }
}

pub proof fn lemma_parse_chunks_strips(t: Seq<char>, stack: Seq<Seq<char>>)
    ensures
        parse_chunks(t, stack) is Some <==> strip_chunks(t) is Some,
        parse_chunks(t, stack) matches Some(r) ==> strip_chunks(t) == Some(text_of(r.chars)),
    decreases t.len(),
{
    let i = min(find_tag(t) as int, t.len() as int);
    lemma_parse_chunk_strips(t.take(i), stack);
    match parse_chunk(t.take(i), stack) {
        None => {},
        Some((emitted, stack2)) => {
            if i < t.len() {
                lemma_parse_chunks_strips(t.skip(min(i + 2, t.len() as int)), stack2);
                if parse_chunks(t, stack) matches Some(r) {
                    let rc = parse_chunks(t.skip(min(i + 2, t.len() as int)), stack2).unwrap();
                    lemma_text_of_concat(emitted, rc.chars);
                }
            }
        },
    }
}

/// Tokenizes every physical line of a text in order, threading the color
/// stack across the line boundaries so that an unterminated tag colors the
/// text after an embedded newline.
pub open spec fn parse_lines_rec(ls: Seq<Seq<char>>, stack: Seq<Seq<char>>) -> Option<
    (Seq<ColoredText>, Seq<Seq<char>>),
>
    decreases ls.len(),
{
    if ls.len() == 0 {
        Some((Seq::empty(), stack))
    } else {
        match parse_line(ls[0], stack) {
            None => None,
            Some(r) => match parse_lines_rec(ls.skip(1), r.stack) {
                None => None,
                Some(rr) => Some((seq![r.chars] + rr.0, rr.1)),
            },
        }
    }
}

/// The colored lines that a whole input text parses to, starting from an
/// empty color stack; `None` when some line holds malformed markup.
pub open spec fn parse_all(t: Seq<char>) -> Option<Seq<ColoredText>> {
    match parse_lines_rec(split_lines(t), Seq::empty()) {
        None => None,
        Some(r) => Some(r.0),
    }
}

/// A machine-word option index, widened for comparison with the model.
pub open spec fn opt_as_int(r: Option<usize>) -> Option<int> {
    match r {
        Some(u) => Some(u as int),
        None => None,
    }
}

/// Subtraction on naturals that stops at zero.
pub open spec fn sat_sub(a: int, b: int) -> int {
    if a >= b {
        a - b
    } else {
        0
    }
}

/// Splits `s` so the right side begins at index `idx` and appends a
/// one-character hyphen to the left side, colored as the character that now
/// ends the left side, or by the ambient default when the split is at the
/// start.
pub open spec fn spec_hyphenate(s: ColoredText, idx: int) -> (ColoredText, ColoredText)
    recommends
        0 <= idx <= s.len(),
{
    let color = if idx > 0 {
        s[idx - 1].0
    } else {
        None
    };
    (s.take(idx).push((color, '-')), s.skip(idx))
}

/// One emitted output row, whether it ends in a synthetic hyphen, and the
/// text that remains to be wrapped.
pub ghost struct WrapStep {
    pub line: ColoredText,
    pub hyphen: bool,
    pub rest: ColoredText,
}

/// One step of the greedy wrap of an over-long line: break at the last space
/// that a window of `limit + 1` characters reaches, or hyphenate the first
/// word when no space is reachable; after a space break, when at least 4
/// cells remain free and the next word has at least 6 characters, pull part
/// of that word onto the row with a hyphen instead.
pub open spec fn wrap_step(cur: ColoredText, limit: nat) -> WrapStep
    recommends
        text_of(cur).len() > limit,
{
    let t = text_of(cur);
    match last_space_before(t, limit + 1 as int) {
        None => {
            let fw = first_word_len(t) as int;
            let keep = min(sat_sub(limit as int, 1), sat_sub(fw, 2));
            let lr = spec_hyphenate(cur, keep);
            WrapStep { line: lr.0, hyphen: true, rest: lr.1 }
        },
        Some(bi) => {
            let room = sat_sub(sat_sub(limit as int, bi), 1);
            let nw = first_word_len(t.skip(bi + 1)) as int;
            if room >= 4 && nw >= 6 {
                let keep = min(room, nw - 2);
                let lr = spec_hyphenate(cur, bi + keep);
                WrapStep { line: lr.0, hyphen: true, rest: lr.1 }
            } else {
                WrapStep { line: cur.take(bi), hyphen: false, rest: cur.skip(bi + 1) }
            }
        },
    }
}

/// The output rows of a wrap, whether each ends in a synthetic hyphen, and
/// whether the per-line iteration cap was exhausted.
pub ghost struct WrapLines {
    pub lines: Seq<ColoredText>,
    pub hyphens: Seq<bool>,
    pub truncated: bool,
}

/// The per-line cap on split iterations: a safety bound against degenerate
/// widths, under which a line is emitted over-long rather than looping.
pub open spec fn wrap_fuel() -> nat {
    10
}

/// Wraps one physical line: emits rows while the text is longer than the
/// limit, spending one unit of fuel per split; when the fuel is exhausted
/// the remaining text is emitted as it stands and the wrap is marked
/// truncated. A line that already fits is emitted alone; an empty line is
/// dropped.
pub open spec fn wrap_line_rec(cur: ColoredText, limit: nat, fuel: nat) -> WrapLines
    decreases fuel,
{
    if text_of(cur).len() <= limit {
        if cur.len() > 0 {
            WrapLines { lines: seq![cur], hyphens: seq![false], truncated: false }
        } else {
            WrapLines { lines: Seq::empty(), hyphens: Seq::empty(), truncated: false }
        }
    } else if fuel == 0 {
        WrapLines { lines: seq![cur], hyphens: seq![false], truncated: true }
    } else {
        let st = wrap_step(cur, limit);
        let r = wrap_line_rec(st.rest, limit, (fuel - 1) as nat);
        WrapLines {
            lines: seq![st.line] + r.lines,
            hyphens: seq![st.hyphen] + r.hyphens,
            truncated: r.truncated,
        }
    }
}

/// Wraps a sequence of physical lines in order.
pub open spec fn wrap_lines_rec(ls: Seq<ColoredText>, limit: nat) -> WrapLines
    decreases ls.len(),
{
    if ls.len() == 0 {
        WrapLines { lines: Seq::empty(), hyphens: Seq::empty(), truncated: false }
    } else {
        let first = wrap_line_rec(ls[0], limit, wrap_fuel());
        let rest = wrap_lines_rec(ls.skip(1), limit);
        WrapLines {
            lines: first.lines + rest.lines,
            hyphens: first.hyphens + rest.hyphens,
            truncated: first.truncated || rest.truncated,
        }
    }
}

/// The full wrap of an input text: parse the markup, then wrap each physical
/// line; `None` when the markup is malformed.
pub open spec fn wrap_all(t: Seq<char>, limit: nat) -> Option<WrapLines> {
    match parse_all(t) {
        None => None,
        Some(ls) => Some(wrap_lines_rec(ls, limit)),
    }
}

pub proof fn lemma_text_of_take(s: ColoredText, i: int)
    requires
        0 <= i <= s.len(),
    ensures
        text_of(s.take(i)) =~= text_of(s).take(i),
{
}

pub proof fn lemma_text_of_skip(s: ColoredText, i: int)
    requires
        0 <= i <= s.len(),
    ensures
        text_of(s.skip(i)) =~= text_of(s).skip(i),
{
}

/// What one wrap step guarantees: the emitted row fits the limit (one cell
/// wide at least, for the hyphen a zero width forces), the row and the rest
/// partition the input (with the breaking space dropped, or a hyphen
/// added), and the hyphen flag tells which.
pub proof fn lemma_wrap_step(cur: ColoredText, limit: nat)
    requires
        text_of(cur).len() > limit,
    ensures
        ({
            let st = wrap_step(cur, limit);
            &&& st.line.len() <= vstd::math::max(limit as int, 1)
            &&& limit >= 1 ==> st.line.len() <= limit
            &&& st.rest.len() <= cur.len()
            &&& (st.hyphen ==> exists|idx: int|
                0 <= idx < cur.len() && st.line == cur.take(idx).push(
                    (
                        (if idx > 0 {
                            cur[idx - 1].0
                        } else {
                            None
                        }),
                        '-',
                    ),
                ) && st.rest == cur.skip(idx))
            &&& (!st.hyphen ==> exists|idx: int|
                0 <= idx < cur.len() && text_of(cur)[idx] == ' ' && st.line == cur.take(idx)
                    && st.rest == cur.skip(idx + 1))
        }),
{
    let t = text_of(cur);
    lemma_last_space_upto(t, min(limit + 1 as int, t.len() as int));
    match last_space_before(t, limit + 1 as int) {
        None => {
            let fw = first_word_len(t) as int;
            lemma_find_off(t, ' ');
            let keep = min(sat_sub(limit as int, 1), sat_sub(fw, 2));
            assert(0 <= keep < cur.len());
            assert(wrap_step(cur, limit).line == cur.take(keep).push(
                (
                    (if keep > 0 {
                        cur[keep - 1].0
                    } else {
                        None
                    }),
                    '-',
                ),
            ));
        },
        Some(bi) => {
            assert(0 <= bi <= limit && bi < t.len() && t[bi] == ' ');
            let room = sat_sub(sat_sub(limit as int, bi), 1);
            let nw = first_word_len(t.skip(bi + 1)) as int;
            if room >= 4 && nw >= 6 {
                lemma_find_off(t.skip(bi + 1), ' ');
                let keep = min(room, nw - 2);
                assert(0 < bi + keep < cur.len());
                assert(bi + keep + 1 <= limit);
            }
        },
    }
}

/// Every output row of a wrap that did not exhaust its iteration cap fits
/// the width limit, the trailing synthetic hyphen included in the count.
#[verifier::rlimit(100)]
#[verifier::spinoff_prover]
pub proof fn lemma_wrap_line_fits(cur: ColoredText, limit: nat, fuel: nat)
    requires
        limit >= 1,
    ensures
        ({
            let r = wrap_line_rec(cur, limit, fuel);
            !r.truncated ==> forall|k: int|
                0 <= k < r.lines.len() ==> (#[trigger] r.lines[k]).len() <= limit
        }),
    decreases fuel,
{
    if text_of(cur).len() <= limit {
    } else if fuel == 0 {
    } else {
        lemma_wrap_step(cur, limit);
        let st = wrap_step(cur, limit);
        lemma_wrap_line_fits(st.rest, limit, (fuel - 1) as nat);
        let rr = wrap_line_rec(st.rest, limit, (fuel - 1) as nat);
        let r = wrap_line_rec(cur, limit, fuel);
        if !r.truncated {
            assert forall|k: int| 0 <= k < r.lines.len() implies (#[trigger] r.lines[k]).len()
                <= limit by {
                if k == 0 {
                    assert(r.lines[0] == st.line);
                } else {
                    assert(r.lines[k] == rr.lines[k - 1]);
                }
            }
        }
    }
}

/// The fit guarantee for the whole wrap: when no line exhausted the
/// iteration cap, every output row fits the limit.
pub proof fn lemma_wrap_lines_fit(ls: Seq<ColoredText>, limit: nat)
    requires
        limit >= 1,
    ensures
        ({
            let r = wrap_lines_rec(ls, limit);
            !r.truncated ==> forall|k: int|
                0 <= k < r.lines.len() ==> (#[trigger] r.lines[k]).len() <= limit
        }),
    decreases ls.len(),
{
    if ls.len() > 0 {
        lemma_wrap_line_fits(ls[0], limit, wrap_fuel());
        lemma_wrap_lines_fit(ls.skip(1), limit);
        let first = wrap_line_rec(ls[0], limit, wrap_fuel());
        let rest = wrap_lines_rec(ls.skip(1), limit);
        let r = wrap_lines_rec(ls, limit);
        if !r.truncated {
            assert forall|k: int| 0 <= k < r.lines.len() implies (#[trigger] r.lines[k]).len()
                <= limit by {
                if k < first.lines.len() {
                    assert(r.lines[k] == first.lines[k]);
                } else {
                    assert(r.lines[k] == rest.lines[k - first.lines.len()]);
                }
            }
        }
    }
}

/// Tokenizing can only shrink a chunk sequence: each tag's delimiter, name
/// and separator are removed, and the escape restores two characters for
/// the three it consumed.
pub proof fn lemma_parse_chunks_len(t: Seq<char>, stack: Seq<Seq<char>>)
    ensures
        parse_chunks(t, stack) matches Some(r) ==> r.chars.len() <= t.len() + 1,
    decreases t.len(),
{
    let i = min(find_tag(t) as int, t.len() as int);
    match parse_chunk(t.take(i), stack) {
        None => {},
        Some((emitted, stack2)) => {
            if i < t.len() {
                lemma_parse_chunks_len(t.skip(min(i + 2, t.len() as int)), stack2);
                lemma_find_tag(t);
            }
        },
    }
}

/// A parsed line holds at most as many characters as its source text.
pub proof fn lemma_parse_line_len(t: Seq<char>, stack: Seq<Seq<char>>)
    ensures
        parse_line(t, stack) matches Some(r) ==> r.chars.len() <= t.len(),
{
    let i = min(find_tag(t) as int, t.len() as int);
    if i < t.len() {
        lemma_parse_chunks_len(t.skip(min(i + 2, t.len() as int)), stack);
        lemma_find_tag(t);
    }
}

/// Every line that a text parses to holds at most as many characters as the
/// whole text.
pub proof fn lemma_parse_lines_rec_len(ls: Seq<Seq<char>>, stack: Seq<Seq<char>>, bound: int)
    requires
        forall|k: int| 0 <= k < ls.len() ==> (#[trigger] ls[k]).len() <= bound,
    ensures
        parse_lines_rec(ls, stack) matches Some(r) ==> forall|k: int|
            0 <= k < r.0.len() ==> (#[trigger] r.0[k]).len() <= bound,
    decreases ls.len(),
{
    if ls.len() > 0 {
        match parse_line(ls[0], stack) {
            None => {},
            Some(r) => {
                lemma_parse_line_len(ls[0], stack);
                assert(forall|k: int|
                    0 <= k < ls.skip(1).len() ==> (#[trigger] ls.skip(1)[k]).len() <= bound);
                lemma_parse_lines_rec_len(ls.skip(1), r.stack, bound);
                match parse_lines_rec(ls.skip(1), r.stack) {
                    None => {},
                    Some(rr) => {
                        let whole = (seq![r.chars] + rr.0);
                        assert forall|k: int| 0 <= k < whole.len() implies (#[trigger] whole[k]).len()
                            <= bound by {
                            if k > 0 {
                                assert(whole[k] == rr.0[k - 1]);
                            }
                        }
                    },
                }
            },
        }
    }
}

/// Wrapping the lines with one more appended wraps the first lines and the
/// last one independently, in order.
pub proof fn lemma_wrap_lines_rec_push(ls: Seq<ColoredText>, x: ColoredText, limit: nat)
    ensures
        ({
            let a = wrap_lines_rec(ls, limit);
            let b = wrap_line_rec(x, limit, wrap_fuel());
            let c = wrap_lines_rec(ls.push(x), limit);
            &&& c.lines == a.lines + b.lines
            &&& c.hyphens == a.hyphens + b.hyphens
            &&& c.truncated == (a.truncated || b.truncated)
        }),
    decreases ls.len(),
{
    let a = wrap_lines_rec(ls, limit);
    let b = wrap_line_rec(x, limit, wrap_fuel());
    let c = wrap_lines_rec(ls.push(x), limit);
    if ls.len() == 0 {
        assert(ls.push(x)[0] == x);
        assert(ls.push(x).skip(1) =~= Seq::<ColoredText>::empty());
        let e = wrap_lines_rec(Seq::<ColoredText>::empty(), limit);
        assert(e.lines == Seq::<ColoredText>::empty() && e.hyphens == Seq::<bool>::empty()
            && !e.truncated);
        assert(a.lines == Seq::<ColoredText>::empty() && a.hyphens == Seq::<bool>::empty()
            && !a.truncated);
        assert(c.lines == b.lines + e.lines && c.hyphens == b.hyphens + e.hyphens);
        assert(c.lines =~= a.lines + b.lines);
        assert(c.hyphens =~= a.hyphens + b.hyphens);
    } else {
        assert(ls.push(x)[0] == ls[0]);
        assert(ls.push(x).skip(1) =~= ls.skip(1).push(x));
        lemma_wrap_lines_rec_push(ls.skip(1), x, limit);
        let f0 = wrap_line_rec(ls[0], limit, wrap_fuel());
        let arest = wrap_lines_rec(ls.skip(1), limit);
        let crest = wrap_lines_rec(ls.skip(1).push(x), limit);
        assert(c.lines == f0.lines + crest.lines);
        assert(a.lines == f0.lines + arest.lines);
        assert(c.lines =~= a.lines + b.lines);
        assert(c.hyphens =~= a.hyphens + b.hyphens);
    }
}

/// Bounds on a wrapped line's output: at most one row per unit of fuel plus
/// the final row, and no row longer than the input.
pub proof fn lemma_wrap_line_rec_count(cur: ColoredText, limit: nat, fuel: nat)
    ensures
        ({
            let r = wrap_line_rec(cur, limit, fuel);
            &&& r.lines.len() <= fuel + 1
            &&& r.hyphens.len() == r.lines.len()
            &&& forall|k: int| 0 <= k < r.lines.len() ==> (#[trigger] r.lines[k]).len() <= cur.len()
        }),
    decreases fuel,
{
    let r = wrap_line_rec(cur, limit, fuel);
    if text_of(cur).len() <= limit {
    } else if fuel == 0 {
    } else {
        lemma_wrap_step(cur, limit);
        let st = wrap_step(cur, limit);
        lemma_wrap_line_rec_count(st.rest, limit, (fuel - 1) as nat);
        let rr = wrap_line_rec(st.rest, limit, (fuel - 1) as nat);
        assert forall|k: int| 0 <= k < r.lines.len() implies (#[trigger] r.lines[k]).len()
            <= cur.len() by {
            if k > 0 {
                assert(r.lines[k] == rr.lines[k - 1]);
            }
        }
    }
}

/// Bounds on a whole wrap's output: at most eleven rows per physical line,
/// each no longer than the longest input line.
pub proof fn lemma_wrap_lines_rec_count(ls: Seq<ColoredText>, limit: nat, bound: int)
    requires
        forall|j: int| 0 <= j < ls.len() ==> (#[trigger] ls[j]).len() <= bound,
    ensures
        ({
            let r = wrap_lines_rec(ls, limit);
            &&& r.lines.len() <= 11 * ls.len()
            &&& forall|k: int| 0 <= k < r.lines.len() ==> (#[trigger] r.lines[k]).len() <= bound
        }),
    decreases ls.len(),
{
    let r = wrap_lines_rec(ls, limit);
    if ls.len() > 0 {
        lemma_wrap_line_rec_count(ls[0], limit, wrap_fuel());
        assert(forall|j: int| 0 <= j < ls.skip(1).len() ==> (#[trigger] ls.skip(1)[j]).len()
            <= bound);
        lemma_wrap_lines_rec_count(ls.skip(1), limit, bound);
        let first = wrap_line_rec(ls[0], limit, wrap_fuel());
        let rest = wrap_lines_rec(ls.skip(1), limit);
        assert forall|k: int| 0 <= k < r.lines.len() implies (#[trigger] r.lines[k]).len()
            <= bound by {
            if k < first.lines.len() {
                assert(r.lines[k] == first.lines[k]);
            } else {
                assert(r.lines[k] == rest.lines[k - first.lines.len()]);
            }
        }
    }
}

pub proof fn lemma_split_lines_len(t: Seq<char>)
    ensures
        split_lines(t).len() >= 1,
        split_lines(t).len() <= t.len() + 1,
        forall|k: int| 0 <= k < split_lines(t).len() ==> (#[trigger] split_lines(t)[k]).len()
            <= t.len(),
    decreases t.len(),
{
    let i = min(find_off(t, '\n') as int, t.len() as int);
    if i != t.len() {
        lemma_split_lines_len(t.skip(i + 1));
    }
}

} // verus!
