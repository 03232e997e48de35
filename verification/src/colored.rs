//! Color-markup text: spans and lines of colored characters, the markup
//! parser, and the word-wrap engine over colored lines.

use crate::buffer::{merge_cell, Buffer, Cell};
use crate::chars::{chars_of, copy_chars, find_char_from, find_tag_from, subvec};
use crate::model;
use crate::model::{
    first_word_len, last_space_before, spec_hyphenate, text_of, tint, ColoredText,
};
use crate::plain::{
    apply_row, blank_op, char_ops, draw_blanks, draw_text, lemma_apply_row_concat, repeat_op,
    row_post, row_pre, row_start, row_width, DrawOp, GlyphMapper, TextAlign,
};
use crate::rgba::{ColorResolver, RGBA};
use vstd::math::max as spec_max;
use vstd::math::min as spec_min;
use vstd::prelude::*;

verus! {

/// Converts an optional color to its view: the color name's characters.
pub open spec fn color_view(c: Option<Vec<char>>) -> Option<Seq<char>> {
    match c {
        Some(s) => Some(s@),
        None => None,
    }
}

/// A run of text in a single color. The color is the raw name from the
/// markup tag (`None` inherits the printer's default color).
#[derive(Debug)]
pub struct ColoredSpan {
    /// The color name this run inherited from the markup, if any.
    pub color: Option<Vec<char>>,
    /// The characters of the run.
    pub txt: Vec<char>,
}

impl View for ColoredSpan {
    type V = ColoredText;

    open spec fn view(&self) -> ColoredText {
        tint(color_view(self.color), self.txt@)
    }
}

/// Copies an optional color name.
fn copy_color(c: &Option<Vec<char>>) -> (r: Option<Vec<char>>)
    ensures
        color_view(r) == color_view(*c),
{
    match c {
        None => None,
        Some(s) => Some(copy_chars(s)),
    }
}

impl ColoredSpan {
    /// Constructs a new span of `txt` colored by `color`.
    pub fn new(color: Option<&str>, txt: &str) -> (r: Self)
        ensures
            r@ == tint(
                match color {
                    Some(c) => Some(c@),
                    None => None,
                },
                txt@,
            ),
    {
        let c: Option<Vec<char>> = match color {
            None => None,
            Some(c) => Some(chars_of(c)),
        };
        ColoredSpan { color: c, txt: chars_of(txt) }
    }

    /// The length of the span in characters.
    pub fn char_len(&self) -> (r: usize)
        ensures
            r == self@.len(),
    {
        self.txt.len()
    }

    /// A copy of this span.
    fn duplicate(&self) -> (r: Self)
        ensures
            r@ == self@,
    {
        ColoredSpan { color: copy_color(&self.color), txt: copy_chars(&self.txt) }
    }

    /// A span of the same color holding the characters of this one from
    /// `from` (inclusive) to `to` (exclusive).
    fn slice(&self, from: usize, to: usize) -> (r: Self)
        requires
            from <= to <= self@.len(),
        ensures
            r@ == self@.subrange(from as int, to as int),
    {
        let r = ColoredSpan { color: copy_color(&self.color), txt: subvec(&self.txt, from, to) };
        proof {
            assert(r@ =~= self@.subrange(from as int, to as int));
        }
        r
    }

    /// The position of the last space in this span that lies strictly below
    /// the window `char_idx`, or `None` when that part holds no space.
    pub fn last_break_before(&self, char_idx: usize) -> (r: Option<usize>)
        ensures
            model::opt_as_int(r) == last_space_before(text_of(self@), char_idx as int),
    {
        proof {
            assert(text_of(self@) =~= self.txt@);
        }
        last_space_scan(&self.txt, char_idx)
    }

    /// Splits the span in two; the character at `char_idx` begins the right
    /// side. Both halves keep the color.
    pub fn split_at_idx(&self, char_idx: usize) -> (r: (Self, Self))
        requires
            char_idx < self@.len(),
        ensures
            r.0@ == self@.take(char_idx as int),
            r.1@ == self@.skip(char_idx as int),
    {
        let left = self.slice(0, char_idx);
        let right = self.slice(char_idx, self.txt.len());
        proof {
            assert(self@.subrange(0, char_idx as int) =~= self@.take(char_idx as int));
            assert(self@.subrange(char_idx as int, self@.len() as int) =~= self@.skip(
                char_idx as int,
            ));
        }
        (left, right)
    }

    /// Splits the span in two, dropping the character at `omit_idx`
    /// entirely. Both halves keep the color.
    pub fn split_omitting(&self, omit_idx: usize) -> (r: (Self, Self))
        requires
            omit_idx < self@.len(),
        ensures
            r.0@ == self@.take(omit_idx as int),
            r.1@ == self@.skip(omit_idx + 1),
    {
        let n = self.txt.len();
        let left = self.slice(0, omit_idx);
        let right = self.slice(omit_idx + 1, n);
        proof {
            assert(self@.subrange(0, omit_idx as int) =~= self@.take(omit_idx as int));
            assert(self@.subrange(omit_idx + 1, self@.len() as int) =~= self@.skip(omit_idx + 1));
        }
        (left, right)
    }
}

/// The colored characters of a sequence of spans, in order.
pub open spec fn spans_view(ss: Seq<ColoredSpan>) -> ColoredText
    decreases ss.len(),
{
    if ss.len() == 0 {
        Seq::empty()
    } else {
        spans_view(ss.drop_last()) + ss.last()@
    }
}

pub proof fn lemma_spans_view_push(ss: Seq<ColoredSpan>, s: ColoredSpan)
    ensures
        spans_view(ss.push(s)) == spans_view(ss) + s@,
{
    assert(ss.push(s).drop_last() =~= ss);
    assert(ss.push(s).last() == s);
}

/// The spans before an index and those after it each contribute one
/// contiguous piece of the line's characters.
pub proof fn lemma_spans_view_split(ss: Seq<ColoredSpan>, k: int)
    requires
        0 <= k <= ss.len(),
    ensures
        spans_view(ss) == spans_view(ss.take(k)) + spans_view(ss.skip(k)),
    decreases ss.len(),
{
    if k == ss.len() {
        assert(ss.take(k) =~= ss);
        assert(spans_view(ss.skip(k)) =~= Seq::empty());
        assert(spans_view(ss) =~= spans_view(ss.take(k)) + spans_view(ss.skip(k)));
    } else {
        let dl = ss.drop_last();
        lemma_spans_view_split(dl, k);
        assert(ss.take(k) =~= dl.take(k));
        assert(ss.skip(k) =~= dl.skip(k).push(ss.last()));
        lemma_spans_view_push(dl.skip(k), ss.last());
        assert(spans_view(ss) =~= spans_view(ss.take(k)) + spans_view(ss.skip(k)));
    }
}

pub proof fn lemma_spans_view_take_step(ss: Seq<ColoredSpan>, k: int)
    requires
        0 <= k < ss.len(),
    ensures
        spans_view(ss.take(k + 1)) == spans_view(ss.take(k)) + ss[k]@,
{
    assert(ss.take(k + 1).drop_last() =~= ss.take(k));
    assert(ss.take(k + 1).last() == ss[k]);
}

/// A line of colored text: one input row, made up of spans.
#[derive(Debug)]
pub struct ColoredLine {
    /// The spans of the line, in order.
    pub spans: Vec<ColoredSpan>,
}

impl View for ColoredLine {
    type V = ColoredText;

    open spec fn view(&self) -> ColoredText {
        spans_view(self.spans@)
    }
}

impl ColoredLine {
    /// Constructs a new, empty line.
    pub fn new() -> (r: Self)
        ensures
            r@ == ColoredText::empty(),
            r.spans@.len() == 0,
    {
        ColoredLine { spans: Vec::new() }
    }

    /// Appends a span to the line.
    pub fn push(&mut self, span: ColoredSpan)
        ensures
            final(self)@ == old(self)@ + span@,
    {
        proof {
            lemma_spans_view_push(self.spans@, span);
        }
        self.spans.push(span);
    }

    /// A copy of this line.
    fn duplicate(&self) -> (r: Self)
        ensures
            r@ == self@,
    {
        let mut spans: Vec<ColoredSpan> = Vec::new();
        let n = self.spans.len();
        let mut k: usize = 0;
        while k < n
            invariant
                k <= n,
                n == self.spans@.len(),
                spans_view(spans@) == spans_view(self.spans@.take(k as int)),
            decreases n - k,
        {
            let d = self.spans[k].duplicate();
            proof {
                lemma_spans_view_push(spans@, d);
                lemma_spans_view_take_step(self.spans@, k as int);
            }
            spans.push(d);
            k += 1;
        }
        proof {
            assert(self.spans@.take(n as int) =~= self.spans@);
        }
        ColoredLine { spans }
    }

    /// The length of the line in characters: the sum of its spans' lengths.
    pub fn char_len(&self) -> (r: usize)
        requires
            self@.len() <= usize::MAX,
        ensures
            r == self@.len(),
    {
        let n = self.spans.len();
        let mut cnt: usize = 0;
        let mut k: usize = 0;
        while k < n
            invariant
                k <= n,
                n == self.spans@.len(),
                self@.len() <= usize::MAX,
                cnt == spans_view(self.spans@.take(k as int)).len(),
            decreases n - k,
        {
            proof {
                lemma_spans_view_take_step(self.spans@, k as int);
                lemma_spans_view_split(self.spans@, k + 1);
                assert(self.spans@.take(k + 1 as int) =~= self.spans@.take(k + 1));
            }
            cnt += self.spans[k].char_len();
            k += 1;
        }
        proof {
            assert(self.spans@.take(n as int) =~= self.spans@);
        }
        cnt
    }

    /// The characters of the line, colors dropped.
    fn line_chars(&self) -> (r: Vec<char>)
        requires
            self@.len() <= usize::MAX,
        ensures
            r@ == text_of(self@),
    {
        let n = self.spans.len();
        let mut out: Vec<char> = Vec::new();
        let mut k: usize = 0;
        while k < n
            invariant
                k <= n,
                n == self.spans@.len(),
                self@.len() <= usize::MAX,
                out@ == text_of(spans_view(self.spans@.take(k as int))),
            decreases n - k,
        {
            let span = &self.spans[k];
            let sl = span.txt.len();
            let mut j: usize = 0;
            proof {
                lemma_spans_view_take_step(self.spans@, k as int);
                lemma_spans_view_split(self.spans@, k + 1);
                assert(self.spans@.take(k + 1 as int) =~= self.spans@.take(k + 1));
            }
            while j < sl
                invariant
                    j <= sl,
                    sl == span.txt@.len(),
                    span == self.spans@[k as int],
                    0 <= k < n == self.spans@.len(),
                    self@.len() <= usize::MAX,
                    spans_view(self.spans@.take(k + 1)) == spans_view(self.spans@.take(k as int))
                        + span@,
                    spans_view(self.spans@.take(k + 1)).len() <= self@.len(),
                    out@ == text_of(spans_view(self.spans@.take(k as int))) + span.txt@.take(
                        j as int,
                    ),
                decreases sl - j,
            {
                out.push(span.txt[j]);
                j += 1;
                proof {
                    assert(out@ =~= text_of(spans_view(self.spans@.take(k as int)))
                        + span.txt@.take(j as int));
                }
            }
            k += 1;
            proof {
                assert(span.txt@.take(sl as int) =~= span.txt@);
                model::lemma_text_of_tint(color_view(span.color), span.txt@);
                model::lemma_text_of_concat(spans_view(self.spans@.take(k - 1)), span@);
                assert(out@ =~= text_of(spans_view(self.spans@.take(k as int))));
            }
        }
        proof {
            assert(self.spans@.take(n as int) =~= self.spans@);
        }
        out
    }

    /// The position of the last space in the line that lies strictly below
    /// the window `char_idx`, measured across all spans, or `None` when that
    /// part of the line holds no space.
    pub fn last_break_before(&self, char_idx: usize) -> (r: Option<usize>)
        requires
            self@.len() <= usize::MAX,
        ensures
            model::opt_as_int(r) == last_space_before(text_of(self@), char_idx as int),
    {
        let t = self.line_chars();
        last_space_scan(&t, char_idx)
    }

    /// The color of the character at `char_idx`.
    fn color_at(&self, char_idx: usize) -> (r: Option<Vec<char>>)
        requires
            char_idx < self@.len(),
            self@.len() <= usize::MAX,
        ensures
            color_view(r) == self@[char_idx as int].0,
    {
        let n = self.spans.len();
        let mut consumed: usize = 0;
        let mut k: usize = 0;
        while k < n
            invariant
                k <= n,
                n == self.spans@.len(),
                char_idx < self@.len() <= usize::MAX,
                consumed == spans_view(self.spans@.take(k as int)).len(),
                consumed <= char_idx,
            decreases n - k,
        {
            proof {
                lemma_spans_view_take_step(self.spans@, k as int);
                lemma_spans_view_split(self.spans@, k + 1);
                assert(self.spans@.take(k + 1 as int) =~= self.spans@.take(k + 1));
            }
            let span = &self.spans[k];
            let sl = span.txt.len();
            proof {
                assert(spans_view(self.spans@.take(k + 1)).len() == consumed + sl);
                assert(consumed + sl <= self@.len());
            }
            if char_idx < consumed + sl {
                proof {
                    let pre = spans_view(self.spans@.take(k as int));
                    let rest = spans_view(self.spans@.skip(k + 1));
                    assert(self@ == pre + span@ + rest);
                    assert(self@[char_idx as int] == span@[char_idx - consumed]);
                }
                return copy_color(&span.color);
            }
            consumed += sl;
            k += 1;
        }
        proof {
            assert(self.spans@.take(n as int) =~= self.spans@);
            assert(false);
        }
        None
    }

    /// The spans up to (and truncated at) the first space of the line; the
    /// whole line when it holds no space.
    pub fn first_word(&self) -> (r: Self)
        requires
            self@.len() <= usize::MAX,
        ensures
            r@ == self@.take(first_word_len(text_of(self@)) as int),
    {
        let n = self.spans.len();
        let mut out = ColoredLine::new();
        let mut consumed: usize = 0;
        let mut k: usize = 0;
        while k < n
            invariant
                k <= n,
                n == self.spans@.len(),
                self@.len() <= usize::MAX,
                consumed == spans_view(self.spans@.take(k as int)).len(),
                out@ == self@.take(consumed as int),
                forall|i: int| 0 <= i < consumed ==> text_of(self@)[i] != ' ',
            decreases n - k,
        {
            proof {
                lemma_spans_view_take_step(self.spans@, k as int);
                lemma_spans_view_split(self.spans@, k + 1);
                assert(self.spans@.take(k + 1 as int) =~= self.spans@.take(k + 1));
                lemma_spans_view_split(self.spans@, k as int);
            }
            let span = &self.spans[k];
            let sl = span.txt.len();
            proof {
                let pre = spans_view(self.spans@.take(k as int));
                assert(self@ == pre + spans_view(self.spans@.skip(k as int)));
                assert forall|j: int| 0 <= j < sl implies text_of(self@)[consumed + j]
                    == span.txt@[j] by {
                    assert(self@[consumed + j] == span@[j]);
                }
            }
            let j = find_char_from(&span.txt, ' ', 0);
            if j < sl {
                let piece = span.slice(0, j);
                out.push(piece);
                proof {
                    model::lemma_find_off(text_of(self@), ' ');
                    let fw = first_word_len(text_of(self@)) as int;
                    assert(text_of(self@)[consumed + j] == ' ');
                    assert(fw <= consumed + j);
                    assert(forall|i: int| 0 <= i < consumed + j ==> text_of(self@)[i] != ' ');
                    assert(fw == consumed + j);
                    assert(span@.subrange(0, j as int) =~= self@.subrange(
                        consumed as int,
                        consumed + j,
                    ));
                    assert(out@ =~= self@.take(consumed + j));
                }
                return out;
            }
            out.push(span.duplicate());
            proof {
                assert(span@ =~= self@.subrange(consumed as int, consumed + sl));
                assert(out@ =~= self@.take(consumed + sl));
                assert forall|i: int| 0 <= i < consumed + sl implies text_of(self@)[i] != ' ' by {
                    if consumed <= i {
                        assert(text_of(self@)[i] == span.txt@[i - consumed]);
                    }
                }
            }
            consumed += sl;
            k += 1;
        }
        proof {
            model::lemma_find_off(text_of(self@), ' ');
            assert(self.spans@.take(n as int) =~= self.spans@);
            let fw = first_word_len(text_of(self@)) as int;
            assert(consumed == self@.len());
            assert(fw == consumed);
            assert(out@ =~= self@.take(fw));
        }
        out
    }

    /// Splits the line in two; the character at `idx` begins the right side.
    fn split_at(&self, idx: usize) -> (r: (Self, Self))
        requires
            idx <= self@.len(),
            self@.len() <= usize::MAX,
        ensures
            r.0@ == self@.take(idx as int),
            r.1@ == self@.skip(idx as int),
    {
        let n = self.spans.len();
        let mut left = ColoredLine::new();
        let mut right = ColoredLine::new();
        let mut consumed: usize = 0;
        let mut k: usize = 0;
        while k < n
            invariant
                k <= n,
                n == self.spans@.len(),
                idx <= self@.len() <= usize::MAX,
                consumed == spans_view(self.spans@.take(k as int)).len(),
                left@ == self@.take(spec_min(idx as int, consumed as int)),
                right@ == if consumed > idx {
                    self@.subrange(idx as int, consumed as int)
                } else {
                    ColoredText::empty()
                },
            decreases n - k,
        {
            proof {
                lemma_spans_view_take_step(self.spans@, k as int);
                lemma_spans_view_split(self.spans@, k + 1);
                assert(self.spans@.take(k + 1 as int) =~= self.spans@.take(k + 1));
                lemma_spans_view_split(self.spans@, k as int);
                assert(self@ == spans_view(self.spans@.take(k as int)) + spans_view(
                    self.spans@.skip(k as int),
                ));
            }
            let span = &self.spans[k];
            let sl = span.txt.len();
            if consumed + sl <= idx {
                left.push(span.duplicate());
                proof {
                    assert(span@ =~= self@.subrange(consumed as int, consumed + sl));
                    assert(left@ =~= self@.take(spec_min(idx as int, consumed + sl)));
                }
            } else if consumed >= idx {
                right.push(span.duplicate());
                proof {
                    assert(span@ =~= self@.subrange(consumed as int, consumed + sl));
                    assert(right@ =~= self@.subrange(idx as int, consumed + sl));
                }
            } else {
                let local = idx - consumed;
                let (a, b) = span.split_at_idx(local);
                left.push(a);
                right.push(b);
                proof {
                    assert(span@ =~= self@.subrange(consumed as int, consumed + sl));
                    assert(a@ =~= self@.subrange(consumed as int, idx as int));
                    assert(b@ =~= self@.subrange(idx as int, consumed + sl));
                    assert(left@ =~= self@.take(spec_min(idx as int, consumed + sl)));
                    assert(right@ =~= self@.subrange(idx as int, consumed + sl));
                }
            }
            consumed += sl;
            k += 1;
        }
        proof {
            assert(self.spans@.take(n as int) =~= self.spans@);
            assert(consumed == self@.len());
            assert(left@ =~= self@.take(idx as int));
            if consumed > idx {
                assert(right@ =~= self@.skip(idx as int));
            } else {
                assert(idx == consumed);
                assert(right@ =~= self@.skip(idx as int));
            }
        }
        (left, right)
    }

    /// Splits the line in two, dropping the character at `omit_idx`
    /// entirely: the two sides hold the characters before and after it.
    pub fn split_omitting(&self, omit_idx: usize) -> (r: (Self, Self))
        requires
            omit_idx < self@.len(),
            self@.len() <= usize::MAX,
        ensures
            r.0@ == self@.take(omit_idx as int),
            r.1@ == self@.skip(omit_idx + 1),
    {
        let (left, rest) = self.split_at(omit_idx);
        let (_, right) = rest.split_at(1);
        proof {
            assert(rest@.skip(1) =~= self@.skip(omit_idx + 1));
        }
        (left, right)
    }

    /// Splits the line so the right side begins at `split_idx` and appends
    /// a one-character hyphen span to the left side, colored as the
    /// character that now ends the left side, or as the ambient default
    /// when the split is at the start.
    pub fn hyphenate_at_char(&self, split_idx: usize) -> (r: (Self, Self))
        requires
            split_idx <= self@.len(),
            self@.len() <= usize::MAX,
        ensures
            r.0@ == spec_hyphenate(self@, split_idx as int).0,
            r.1@ == spec_hyphenate(self@, split_idx as int).1,
    {
        let (mut left, right) = self.split_at(split_idx);
        let color = if split_idx > 0 {
            self.color_at(split_idx - 1)
        } else {
            None
        };
        let ghost cv = if split_idx > 0 {
            self@[split_idx - 1].0
        } else {
            None
        };
        let hyphen = ColoredSpan { color, txt: vec!['-'] };
        proof {
            assert(hyphen@ =~= seq![(cv, '-')]);
        }
        left.push(hyphen);
        proof {
            assert(left@ =~= self@.take(split_idx as int).push((cv, '-')));
        }
        (left, right)
    }
}

/// The view of a color stack: each pushed name's characters, in order.
pub open spec fn stack_view(colors: Seq<Vec<char>>) -> Seq<Seq<char>> {
    Seq::new(colors.len(), |i: int| colors[i]@)
}

/// The views of a sequence of colored lines.
pub open spec fn lines_view(ls: Seq<ColoredLine>) -> Seq<ColoredText> {
    Seq::new(ls.len(), |i: int| ls[i]@)
}

/// An error from parsing color markup.
#[derive(Debug)]
pub enum MarkupError {
    /// A `#[` was opened without a matching `]` on the same physical line;
    /// the payload is that line's text.
    UnterminatedTag(String),
}

/// The color at the top of the stack, copied out.
fn current_top(colors: &Vec<Vec<char>>) -> (r: Option<Vec<char>>)
    ensures
        color_view(r) == model::stack_top(stack_view(colors@)),
{
    let n = colors.len();
    if n > 0 {
        Some(copy_chars(&colors[n - 1]))
    } else {
        None
    }
}

/// Tokenizes the characters of one physical line against the color stack;
/// `None` reports an unterminated tag.
#[verifier::rlimit(100)]
#[verifier::spinoff_prover]
fn parse_line_vec(t: &Vec<char>, colors: &mut Vec<Vec<char>>) -> (r: Option<ColoredLine>)
    ensures
        (r is Some) == (model::parse_line(t@, stack_view(old(colors)@)) is Some),
        r matches Some(line) ==> model::parse_line(t@, stack_view(old(colors)@)) == Some(
            model::ParsedLine { chars: line@, stack: stack_view(final(colors)@) },
        ),
{
    let ghost stack0 = stack_view(colors@);
    let n = t.len();
    let mut out = ColoredLine::new();
    let d = find_tag_from(t, 0);
    proof {
        assert(t@.skip(0) =~= t@);
        assert(spec_min(model::find_tag(t@) as int, t@.len() as int) == d as int);
    }
    if d > 0 {
        let top = current_top(colors);
        let head = ColoredSpan { color: top, txt: subvec(t, 0, d) };
        proof {
            assert(head@ =~= tint(model::stack_top(stack0), t@.take(d as int)));
        }
        out.push(head);
    }
    proof {
        assert(out@ =~= tint(model::stack_top(stack0), t@.take(d as int)));
    }
    if d == n {
        proof {
            assert(model::parse_line(t@, stack0) == Some(
                model::ParsedLine { chars: out@, stack: stack0 },
            ));
        }
        return Some(out);
    }
    let mut pos = d + 2;
    proof {
        assert(t@.skip(spec_min(d + 2, t@.len() as int)) =~= t@.skip(pos as int));
    }
    loop
        invariant
            2 <= pos <= n,
            n == t@.len(),
            stack0 == stack_view(old(colors)@),
            match model::parse_chunks(t@.skip(pos as int), stack_view(colors@)) {
                None => model::parse_line(t@, stack0) is None,
                Some(pl) => model::parse_line(t@, stack0) == Some(
                    model::ParsedLine { chars: out@ + pl.chars, stack: pl.stack },
                ),
            },
        decreases n - pos,
    {
        let ghost st_in = stack_view(colors@);
        let ghost rest = t@.skip(pos as int);
        let ghost out0 = out@;
        let ce = find_tag_from(t, pos);
        let ghost chunk = t@.subrange(pos as int, ce as int);
        proof {
            assert(spec_min(model::find_tag(rest) as int, rest.len() as int) == (ce - pos));
            assert(rest.take(ce - pos) =~= chunk);
        }
        if ce == pos {
            // An empty chunk between delimiters is skipped.
            proof {
                assert(model::parse_chunk(chunk, st_in) == Some((ColoredText::empty(), st_in)));
                assert(out@ =~= out0 + model::parse_chunk(chunk, st_in).unwrap().0);
            }
        } else if t[pos] == '[' {
            // The escape `#[[`: a literal `#[` followed by the chunk's tail.
            let top = current_top(colors);
            let opener = ColoredSpan { color: top, txt: vec!['#', '['] };
            proof {
                assert(opener@ =~= tint(model::stack_top(st_in), seq!['#', '[']));
            }
            out.push(opener);
            let top2 = current_top(colors);
            let tail = ColoredSpan { color: top2, txt: subvec(t, pos + 1, ce) };
            proof {
                assert(chunk.skip(1) =~= t@.subrange(pos + 1, ce as int));
                assert(tail@ =~= tint(model::stack_top(st_in), chunk.skip(1)));
            }
            out.push(tail);
            proof {
                assert(out@ =~= out0 + model::parse_chunk(chunk, st_in).unwrap().0);
            }
        } else {
            // A color tag: the name before `]` changes the stack, the text
            // after it is tinted by the new top.
            let j = find_char_from(t, ']', pos);
            proof {
                model::lemma_find_off(chunk, ']');
            }
            if j >= ce {
                proof {
                    assert forall|k: int| 0 <= k < chunk.len() implies chunk[k] != ']' by {
                        assert(t@[pos + k] != ']');
                    }
                    assert(model::find_off(chunk, ']') == chunk.len());
                    assert(model::parse_chunk(chunk, st_in) is None);
                }
                return None;
            }
            proof {
                assert(chunk[j - pos] == ']');
                assert forall|k: int| 0 <= k < j - pos implies chunk[k] != ']' by {
                    assert(t@[pos + k] != ']');
                }
                assert(model::find_off(chunk, ']') == j - pos);
                assert(chunk.take(j - pos) =~= t@.subrange(pos as int, j as int));
            }
            let name = subvec(t, pos, j);
            if name.len() == 0 {
                colors.pop();
                proof {
                    assert(stack_view(colors@) =~= model::stack_pop(st_in));
                }
            } else {
                colors.push(name);
                proof {
                    assert(stack_view(colors@) =~= st_in.push(t@.subrange(pos as int, j as int)));
                }
            }
            let top = current_top(colors);
            let tail = ColoredSpan { color: top, txt: subvec(t, j + 1, ce) };
            proof {
                assert(chunk.skip(j - pos + 1) =~= t@.subrange(j + 1, ce as int));
                assert(tail@ =~= tint(model::stack_top(stack_view(colors@)), chunk.skip(
                    j - pos + 1,
                )));
            }
            out.push(tail);
            proof {
                assert(model::parse_chunk(chunk, st_in) matches Some(p) && p.1 == stack_view(
                    colors@,
                ) && out@ =~= out0 + p.0);
            }
        }
        proof {
            let step = model::parse_chunk(chunk, st_in);
            assert(step matches Some(p) && p.1 == stack_view(colors@) && out@ == out0 + p.0);
            let emitted = step.unwrap().0;
            if ce < n {
                assert(rest.skip(spec_min((ce - pos) + 2, rest.len() as int)) =~= t@.skip(ce + 2));
                assert(model::parse_chunks(rest, st_in) == (
                match model::parse_chunks(t@.skip(ce + 2), stack_view(colors@)) {
                    None => None::<model::ParsedLine>,
                    Some(r2) => Some(
                        model::ParsedLine { chars: emitted + r2.chars, stack: r2.stack },
                    ),
                }));
                match model::parse_chunks(t@.skip(ce + 2), stack_view(colors@)) {
                    None => {},
                    Some(r2) => {
                        assert(out@ + r2.chars =~= out0 + (emitted + r2.chars));
                    },
                }
            } else {
                assert(model::parse_chunks(rest, st_in) == Some(
                    model::ParsedLine { chars: emitted, stack: stack_view(colors@) },
                ));
                assert(out@ =~= out0 + emitted);
            }
        }
        if ce == n {
            return Some(out);
        }
        pos = ce + 2;
    }
}

/// Tokenizes one physical line of markup text into a line of colored spans.
/// The color stack is shared with the caller and mutated by the line's tags,
/// so unmatched tags carry over to the next line. A `#[` with no `]` on the
/// line is reported as `MarkupError::UnterminatedTag` with the line's text.
pub fn parse_colored_line(line: &str, colors: &mut Vec<Vec<char>>) -> (r: Result<
    ColoredLine,
    MarkupError,
>)
    ensures
        (r is Ok) == (model::parse_line(line@, stack_view(old(colors)@)) is Some),
        r matches Ok(l) ==> model::parse_line(line@, stack_view(old(colors)@)) == Some(
            model::ParsedLine { chars: l@, stack: stack_view(final(colors)@) },
        ),
        r matches Err(MarkupError::UnterminatedTag(s)) ==> s@ == line@,
{
    let t = chars_of(line);
    match parse_line_vec(&t, colors) {
        Some(l) => Ok(l),
        None => Err(MarkupError::UnterminatedTag(line.to_owned())),
    }
}

/// Splits `text` on literal newlines and tokenizes each physical line in
/// order, with one color stack threaded through all of them. An unterminated
/// tag on any line is an error carrying that line's text.
pub fn parse_colored_lines(text: &str) -> (r: Result<Vec<ColoredLine>, MarkupError>)
    ensures
        text@.len() <= usize::MAX,
        (r is Ok) == (model::parse_all(text@) is Some),
        r matches Ok(ls) ==> model::parse_all(text@) == Some(lines_view(ls@)),
        r matches Err(MarkupError::UnterminatedTag(s)) ==> exists|k: int|
            0 <= k < model::split_lines(text@).len() && s@ == #[trigger] model::split_lines(
                text@,
            )[k],
{
    let t = chars_of(text);
    let n = t.len();
    let mut colors: Vec<Vec<char>> = Vec::new();
    let mut out: Vec<ColoredLine> = Vec::new();
    let mut start: usize = 0;
    let ghost mut done: Seq<Seq<char>> = Seq::empty();
    proof {
        assert(stack_view(colors@) =~= Seq::<Seq<char>>::empty());
        assert(t@.skip(0) =~= t@);
        assert(done + model::split_lines(t@) =~= model::split_lines(t@));
        assert(lines_view(out@) =~= Seq::<ColoredText>::empty());
    }
    loop
        invariant
            start <= n,
            n == t@.len(),
            t@ == text@,
            done.len() == out@.len(),
            done + model::split_lines(t@.skip(start as int)) == model::split_lines(t@),
            match model::parse_lines_rec(
                model::split_lines(t@.skip(start as int)),
                stack_view(colors@),
            ) {
                None => model::parse_all(t@) is None,
                Some(pr) => model::parse_all(t@) == Some(lines_view(out@) + pr.0),
            },
        decreases n - start,
    {
        let ghost st_in = stack_view(colors@);
        let ghost rem = t@.skip(start as int);
        let ghost lines_rem = model::split_lines(rem);
        let e = find_char_from(&t, '\n', start);
        let ghost lt = t@.subrange(start as int, e as int);
        proof {
            assert(spec_min(model::find_off(rem, '\n') as int, rem.len() as int) == (e - start));
            assert(rem.take(e - start) =~= lt);
            if e < n {
                assert(rem.skip((e - start) + 1) =~= t@.skip(e + 1));
                assert(lines_rem == seq![lt] + model::split_lines(t@.skip(e + 1)));
            } else {
                assert(lt =~= rem);
                assert(lines_rem == seq![rem]);
            }
            assert(lines_rem[0] == lt);
            assert(lines_rem.skip(1) =~= if e < n {
                model::split_lines(t@.skip(e + 1))
            } else {
                Seq::<Seq<char>>::empty()
            });
        }
        let lv = subvec(&t, start, e);
        let ghost out0 = out@;
        match parse_line_vec(&lv, &mut colors) {
            None => {
                proof {
                    assert(model::parse_lines_rec(lines_rem, st_in) is None);
                    assert(model::split_lines(t@)[done.len() as int] == lt);
                }
                return Err(MarkupError::UnterminatedTag(text.substring_char(start, e).to_owned()));
            },
            Some(l) => {
                let ghost lview = l@;
                out.push(l);
                proof {
                    let pl = model::parse_line(lt, st_in).unwrap();
                    assert(pl.chars == lview && pl.stack == stack_view(colors@));
                    assert(lines_view(out@) =~= lines_view(out0).push(lview));
                    match model::parse_lines_rec(lines_rem.skip(1), stack_view(colors@)) {
                        None => {},
                        Some(rr) => {
                            assert(model::parse_lines_rec(lines_rem, st_in) == Some(
                                (seq![lview] + rr.0, rr.1),
                            ));
                            assert(lines_view(out0) + (seq![lview] + rr.0) =~= lines_view(out@)
                                + rr.0);
                        },
                    }
                }
            },
        }
        if e == n {
            proof {
                assert(model::split_lines(t@.skip(n as int)) == seq![t@.skip(n as int)]);
                assert(t@.skip(n as int) =~= Seq::<char>::empty());
                match model::parse_lines_rec(lines_rem.skip(1), stack_view(colors@)) {
                    None => {},
                    Some(rr) => {
                        assert(rr.0 =~= Seq::<ColoredText>::empty());
                        assert(lines_view(out@) + rr.0 =~= lines_view(out@));
                    },
                }
            }
            return Ok(out);
        }
        proof {
            done = done + seq![lt];
            assert(done + model::split_lines(t@.skip(e + 1)) =~= model::split_lines(t@));
        }
        start = e + 1;
    }
}

/// Wraps one physical line, appending the output rows to `out`; reports
/// whether the iteration cap was exhausted.
fn wrap_line_go(current: ColoredLine, limit: usize, fuel: u32, out: &mut Vec<ColoredLine>) -> (tr:
    bool)
    requires
        current@.len() <= usize::MAX,
    ensures
        ({
            let r = model::wrap_line_rec(current@, limit as nat, fuel as nat);
            &&& lines_view(final(out)@) == lines_view(old(out)@) + r.lines
            &&& tr == r.truncated
        }),
    decreases fuel,
{
    let ghost r = model::wrap_line_rec(current@, limit as nat, fuel as nat);
    let len = current.char_len();
    proof {
        assert(text_of(current@).len() == current@.len());
    }
    if len <= limit {
        if len > 0 {
            let ghost ov = out@;
            let ghost cv = current@;
            out.push(current);
            proof {
                assert(lines_view(out@) =~= lines_view(ov) + seq![cv]);
            }
        } else {
            proof {
                assert(lines_view(out@) =~= lines_view(out@) + r.lines);
            }
        }
        return false;
    }
    if fuel == 0 {
        let ghost ov = out@;
        let ghost cv = current@;
        out.push(current);
        proof {
            assert(lines_view(out@) =~= lines_view(ov) + seq![cv]);
        }
        return true;
    }
    let ghost st = model::wrap_step(current@, limit as nat);
    let ghost t = text_of(current@);
    let bi_opt = current.last_break_before(limit + 1);
    let ghost ov = out@;
    let left: ColoredLine;
    let right: ColoredLine;
    match bi_opt {
        None => {
            let fw_line = current.first_word();
            proof {
                model::lemma_find_off(t, ' ');
                assert(fw_line@.len() == first_word_len(t));
            }
            let fwl = fw_line.char_len();
            let a = if limit >= 1 {
                limit - 1
            } else {
                0
            };
            let b = if fwl >= 2 {
                fwl - 2
            } else {
                0
            };
            let keep = if a < b {
                a
            } else {
                b
            };
            let lr = current.hyphenate_at_char(keep);
            left = lr.0;
            right = lr.1;
            proof {
                assert(st.line == left@ && st.rest == right@);
            }
        },
        Some(bi) => {
            proof {
                model::lemma_last_space_upto(t, spec_min(limit + 1 as int, t.len() as int));
            }
            let lr0 = current.split_omitting(bi);
            let left_len = lr0.0.char_len();
            proof {
                assert(left_len == bi);
            }
            let r1 = if limit >= left_len {
                limit - left_len
            } else {
                0
            };
            let room = if r1 >= 1 {
                r1 - 1
            } else {
                0
            };
            let mut use_hyphen = false;
            let mut keep: usize = 0;
            if room >= 4 {
                let nw_line = lr0.1.first_word();
                proof {
                    model::lemma_text_of_skip(current@, bi + 1);
                    model::lemma_find_off(t.skip(bi + 1), ' ');
                    assert(nw_line@.len() == first_word_len(t.skip(bi + 1)));
                }
                let nwl = nw_line.char_len();
                if nwl >= 6 {
                    keep = if room < nwl - 2 {
                        room
                    } else {
                        nwl - 2
                    };
                    use_hyphen = true;
                }
            }
            if use_hyphen {
                let lr = current.hyphenate_at_char(bi + keep);
                left = lr.0;
                right = lr.1;
                proof {
                    assert(st.line == left@ && st.rest == right@);
                }
            } else {
                left = lr0.0;
                right = lr0.1;
                proof {
                    assert(st.line == left@ && st.rest == right@);
                }
            }
        },
    }
    let ghost lv = left@;
    out.push(left);
    proof {
        assert(lines_view(out@) =~= lines_view(ov) + seq![lv]);
        assert(right@.len() <= current@.len());
    }
    let tr = wrap_line_go(right, limit, fuel - 1, out);
    proof {
        let rr = model::wrap_line_rec(st.rest, limit as nat, (fuel - 1) as nat);
        assert(lines_view(out@) =~= lines_view(ov) + (seq![st.line] + rr.lines));
    }
    tr
}

/// Parses the markup of `text` and word-wraps every physical line to the
/// width `limit`, greedily breaking at spaces and hyphenating long words.
/// The flag reports whether any line exhausted the per-line iteration cap
/// and was emitted over-long as a result; malformed markup is an error
/// carrying the offending line's text.
pub fn wrap(limit: usize, text: &str) -> (r: Result<(Vec<ColoredLine>, bool), MarkupError>)
    ensures
        (r is Ok) == (model::parse_all(text@) is Some),
        r matches Ok(p) ==> model::wrap_all(text@, limit as nat) matches Some(w) && lines_view(
            p.0@,
        ) == w.lines && p.1 == w.truncated,
        r matches Err(MarkupError::UnterminatedTag(s)) ==> exists|k: int|
            0 <= k < model::split_lines(text@).len() && s@ == #[trigger] model::split_lines(
                text@,
            )[k],
{
    let parsed = match parse_colored_lines(text) {
        Ok(p) => p,
        Err(e) => {
            return Err(e);
        },
    };
    let ghost pls = lines_view(parsed@);
    proof {
        model::lemma_split_lines_len(text@);
        model::lemma_parse_lines_rec_len(
            model::split_lines(text@),
            Seq::empty(),
            text@.len() as int,
        );
    }
    let mut out: Vec<ColoredLine> = Vec::new();
    let mut truncated = false;
    let n = parsed.len();
    let mut k: usize = 0;
    proof {
        assert(lines_view(Seq::<ColoredLine>::empty()) =~= Seq::<ColoredText>::empty());
        assert(pls.take(0) =~= Seq::<ColoredText>::empty());
        assert(model::wrap_lines_rec(pls.take(0), limit as nat).lines =~= Seq::<
            ColoredText,
        >::empty());
        assert(lines_view(out@) =~= Seq::<ColoredText>::empty());
    }
    while k < n
        invariant
            k <= n,
            n == parsed@.len(),
            pls == lines_view(parsed@),
            model::parse_all(text@) == Some(pls),
            text@.len() <= usize::MAX,
            forall|j: int| 0 <= j < pls.len() ==> (#[trigger] pls[j]).len() <= text@.len(),
            ({
                let w = model::wrap_lines_rec(pls.take(k as int), limit as nat);
                lines_view(out@) == w.lines && truncated == w.truncated
            }),
        decreases n - k,
    {
        let ghost w0 = model::wrap_lines_rec(pls.take(k as int), limit as nat);
        let line = parsed[k].duplicate();
        proof {
            assert(pls[k as int] == parsed@[k as int]@);
            assert(line@.len() <= text@.len());
        }
        let ghost ov = out@;
        let tr = wrap_line_go(line, limit, 10, &mut out);
        truncated = truncated || tr;
        proof {
            model::lemma_wrap_lines_rec_push(pls.take(k as int), pls[k as int], limit as nat);
            assert(pls.take(k as int).push(pls[k as int]) =~= pls.take(k + 1));
            let w1 = model::wrap_lines_rec(pls.take(k + 1), limit as nat);
            let b = model::wrap_line_rec(pls[k as int], limit as nat, 10nat);
            assert(model::wrap_fuel() == 10nat);
            assert(lines_view(out@) == lines_view(ov) + b.lines);
            assert(lines_view(out@) == w1.lines);
        }
        k += 1;
    }
    proof {
        assert(pls.take(n as int) =~= pls);
    }
    Ok((out, truncated))
}

/// Scans `t` downward from the window `w` for the last space strictly below
/// `min(w, t.len())`.
fn last_space_scan(t: &Vec<char>, w: usize) -> (r: Option<usize>)
    ensures
        model::opt_as_int(r) == last_space_before(t@, w as int),
{
    let mut m: usize = if w < t.len() {
        w
    } else {
        t.len()
    };
    proof {
        assert(last_space_before(t@, w as int) == model::last_space_upto(t@, m as int));
    }
    while m > 0
        invariant
            m <= t@.len(),
            last_space_before(t@, w as int) == model::last_space_upto(t@, m as int),
        decreases m,
    {
        if t[m - 1] == ' ' {
            return Some(m - 1);
        }
        m -= 1;
    }
    None
}


/// The foreground a colored character is drawn with: its markup color
/// resolved through the resolver, falling back to the printer's default
/// when the character has no color or the name does not resolve.
pub open spec fn resolved_fg(
    resolver: ColorResolver,
    color: Option<Seq<char>>,
    fg: Option<RGBA>,
) -> Option<RGBA> {
    match color {
        None => fg,
        Some(name) => match resolver.spec_resolve(name) {
            Some(c) => Some(c),
            None => fg,
        },
    }
}

/// The writes that print a colored text run: each character's glyph over
/// its resolved foreground and the printer's background.
pub open spec fn colored_char_ops(
    mapper: GlyphMapper,
    resolver: ColorResolver,
    s: ColoredText,
    fg: Option<RGBA>,
    bg: Option<RGBA>,
) -> Seq<DrawOp> {
    Seq::new(s.len(), |i: int| (Some(mapper.spec_map(s[i].1)), resolved_fg(resolver, s[i].0, fg), bg))
}

/// The writes that print one colored row: padding, the colored characters,
/// padding.
pub open spec fn colored_row_ops(
    s: ColoredText,
    width: Option<i32>,
    align: TextAlign,
    fg: Option<RGBA>,
    bg: Option<RGBA>,
    mapper: GlyphMapper,
    resolver: ColorResolver,
) -> Seq<DrawOp> {
    let len = s.len() as int;
    let w = row_width(width, len);
    repeat_op(blank_op(fg, bg), row_pre(align, w, len)) + colored_char_ops(
        mapper,
        resolver,
        s,
        fg,
        bg,
    ) + repeat_op(blank_op(fg, bg), row_post(align, w, len))
}

/// Whether two printer states share the whole configuration and the
/// buffer's size.
pub open spec fn cprinter_config_unchanged(a: &ColoredPrinter, b: &ColoredPrinter) -> bool {
    &&& b.width == a.width
    &&& b.align == a.align
    &&& b.fg == a.fg
    &&& b.bg == a.bg
    &&& b.to_glyph == a.to_glyph
    &&& b.to_rgba == a.to_rgba
    &&& b.buffer.spec_width() == a.buffer.spec_width()
    &&& b.buffer.spec_height() == a.buffer.spec_height()
}

/// Prints color-markup text into an owned buffer, with optional fixed
/// width, alignment, default colors, glyph mapping and color resolution.
pub struct ColoredPrinter {
    /// The grid the printer writes into.
    pub buffer: Buffer,
    /// The fixed row width, if configured.
    pub width: Option<i32>,
    /// How rows relate to the `x` coordinate of a print.
    pub align: TextAlign,
    /// The foreground written for uncolored or unresolvable text.
    pub fg: Option<RGBA>,
    /// The background color written with every cell.
    pub bg: Option<RGBA>,
    /// The character-to-glyph mapping.
    pub to_glyph: GlyphMapper,
    /// The resolver that turns markup color names into colors.
    pub to_rgba: ColorResolver,
}

/// Creates a [`ColoredPrinter`] over the buffer.
pub fn colored(buffer: Buffer) -> (r: ColoredPrinter)
    ensures
        r == ColoredPrinter::spec_new(buffer),
{
    ColoredPrinter::new(buffer)
}

impl ColoredPrinter {
    /// A fresh printer over a buffer: no fixed width, left alignment, white
    /// foreground, no background, unicode glyph mapping, and color names
    /// resolved by parsing them.
    pub open spec fn spec_new(buffer: Buffer) -> ColoredPrinter {
        ColoredPrinter {
            buffer,
            width: None,
            align: TextAlign::Left,
            fg: Some(RGBA(255, 255, 255, 255)),
            bg: None,
            to_glyph: GlyphMapper::Unicode,
            to_rgba: ColorResolver::Parse,
        }
    }

    /// Creates a printer over the buffer with the default configuration.
    pub fn new(buffer: Buffer) -> (r: Self)
        ensures
            r == Self::spec_new(buffer),
    {
        ColoredPrinter {
            buffer,
            width: None,
            align: TextAlign::Left,
            fg: Some(RGBA::rgb(255, 255, 255)),
            bg: None,
            to_glyph: GlyphMapper::Unicode,
            to_rgba: ColorResolver::Parse,
        }
    }

    /// Sets the width of the printing; rows wider than the text are padded
    /// with the blank glyph (and any background).
    pub fn width(self, width: i32) -> (r: Self)
        ensures
            r == (ColoredPrinter { width: Some(width), ..self }),
    {
        ColoredPrinter { width: Some(width), ..self }
    }

    /// Sets the alignment for the printing.
    pub fn align(self, align: TextAlign) -> (r: Self)
        ensures
            r == (ColoredPrinter { align, ..self }),
    {
        ColoredPrinter { align, ..self }
    }

    /// Sets the default foreground color (the default is white).
    pub fn fg(self, fg: RGBA) -> (r: Self)
        ensures
            r == (ColoredPrinter { fg: Some(fg), ..self }),
    {
        ColoredPrinter { fg: Some(fg), ..self }
    }

    /// Sets the background color (the default is none).
    pub fn bg(self, bg: RGBA) -> (r: Self)
        ensures
            r == (ColoredPrinter { bg: Some(bg), ..self }),
    {
        ColoredPrinter { bg: Some(bg), ..self }
    }

    /// Sets the character-to-glyph mapping (the default is the character's
    /// own code point).
    pub fn to_glyph(self, to_glyph: GlyphMapper) -> (r: Self)
        ensures
            r == (ColoredPrinter { to_glyph, ..self }),
    {
        ColoredPrinter { to_glyph, ..self }
    }

    /// Sets the color-name resolver (the default parses names as colors).
    pub fn to_rgba(self, to_rgba: ColorResolver) -> (r: Self)
        ensures
            r == (ColoredPrinter { to_rgba, ..self }),
    {
        ColoredPrinter { to_rgba, ..self }
    }

    /// The buffer the printer draws into.
    pub fn buffer(&self) -> (r: &Buffer)
        ensures
            r == &self.buffer,
    {
        &self.buffer
    }

    /// Hands the buffer back, consuming the printer.
    pub fn into_buffer(self) -> (r: Buffer)
        ensures
            r == self.buffer,
    {
        self.buffer
    }
}

impl ColoredSpan {
    /// Writes the span's characters at consecutive columns from `x` on row
    /// `y`, each over its resolved foreground; returns the span's length.
    pub fn print(&self, printer: &mut ColoredPrinter, x: i32, y: i32) -> (r: i32)
        requires
            self@.len() <= 0x7FFF_FFFF,
        ensures
            cprinter_config_unchanged(old(printer), final(printer)),
            r == self@.len(),
            apply_row(
                old(printer).buffer,
                final(printer).buffer,
                x as int,
                y as int,
                colored_char_ops(
                    old(printer).to_glyph,
                    old(printer).to_rgba,
                    self@,
                    old(printer).fg,
                    old(printer).bg,
                ),
            ),
    {
        span_draw(self, printer, x as i64, y as i64);
        self.txt.len() as i32
    }
}

/// Writes one span's characters from `x` on row `y`.
fn span_draw(span: &ColoredSpan, printer: &mut ColoredPrinter, x: i64, y: i64)
    requires
        -0x4000_0000_0000_0000 <= x <= 0x4000_0000_0000_0000,
        span@.len() <= 0x4000_0000_0000_0000,
    ensures
        cprinter_config_unchanged(old(printer), final(printer)),
        apply_row(
            old(printer).buffer,
            final(printer).buffer,
            x as int,
            y as int,
            colored_char_ops(
                old(printer).to_glyph,
                old(printer).to_rgba,
                span@,
                old(printer).fg,
                old(printer).bg,
            ),
        ),
{
    let sfg: Option<RGBA> = match &span.color {
        None => printer.fg,
        Some(name) => match printer.to_rgba.resolve(name) {
            Some(c) => Some(c),
            None => printer.fg,
        },
    };
    proof {
        assert(sfg == resolved_fg(printer.to_rgba, color_view(span.color), printer.fg));
    }
    let bg = printer.bg;
    let mapper = printer.to_glyph;
    draw_text(&mut printer.buffer, x, y, &span.txt, &mapper, sfg, bg);
    proof {
        assert(char_ops(mapper, span.txt@, sfg, bg) =~= colored_char_ops(
            mapper,
            old(printer).to_rgba,
            span@,
            old(printer).fg,
            bg,
        ));
    }
}

impl ColoredLine {
    /// Prints the row into the printer's buffer at `(x, y)`: padding and
    /// alignment come from the printer's configuration, each span is drawn
    /// in its resolved color, and the return value is the row width used.
    pub fn print(&self, printer: &mut ColoredPrinter, x: i32, y: i32) -> (r: i32)
        requires
            self@.len() <= 0x7FFF_FFFF,
        ensures
            cprinter_config_unchanged(old(printer), final(printer)),
            r == row_width(old(printer).width, self@.len() as int),
            apply_row(
                old(printer).buffer,
                final(printer).buffer,
                row_start(
                    old(printer).align,
                    x as int,
                    row_width(old(printer).width, self@.len() as int),
                    self@.len() as int,
                ),
                y as int,
                colored_row_ops(
                    self@,
                    old(printer).width,
                    old(printer).align,
                    old(printer).fg,
                    old(printer).bg,
                    old(printer).to_glyph,
                    old(printer).to_rgba,
                ),
            ),
    {
        self.print_at(printer, x as i64, y as i64) as i32
    }

    /// The wide-coordinate core of [`ColoredLine::print`].
    #[verifier::rlimit(100)]
    #[verifier::spinoff_prover]
    pub(crate) fn print_at(&self, printer: &mut ColoredPrinter, x: i64, y: i64) -> (r: i64)
        requires
            self@.len() <= 0x7FFF_FFFF,
            -0x8000_0000 <= x <= 0x7FFF_FFFF,
        ensures
            cprinter_config_unchanged(old(printer), final(printer)),
            r == row_width(old(printer).width, self@.len() as int),
            apply_row(
                old(printer).buffer,
                final(printer).buffer,
                row_start(
                    old(printer).align,
                    x as int,
                    row_width(old(printer).width, self@.len() as int),
                    self@.len() as int,
                ),
                y as int,
                colored_row_ops(
                    self@,
                    old(printer).width,
                    old(printer).align,
                    old(printer).fg,
                    old(printer).bg,
                    old(printer).to_glyph,
                    old(printer).to_rgba,
                ),
            ),
    {
        let len = self.char_len() as i64;
        let w: i64 = match printer.width {
            Some(wc) => wc as i64,
            None => len,
        };
        let self_len: i64 = if w < len {
            w
        } else {
            len
        };
        let spaces: i64 = w - self_len;
        let half: i64 = spaces / 2;
        let halflen: i64 = if self_len >= 0 {
            self_len / 2
        } else {
            -((-self_len) / 2)
        };
        let sx: i64;
        let pre: i64;
        let post: i64;
        match printer.align {
            TextAlign::Left => {
                sx = x;
                pre = 0;
                post = spaces;
            },
            TextAlign::Center => {
                sx = x - half - halflen;
                pre = half;
                post = spaces - half;
            },
            TextAlign::Right => {
                sx = x - w + 1;
                pre = spaces;
                post = 0;
            },
        }
        let ghost ops = colored_row_ops(
            self@,
            printer.width,
            printer.align,
            printer.fg,
            printer.bg,
            printer.to_glyph,
            printer.to_rgba,
        );
        let ghost pre_ops = repeat_op(blank_op(printer.fg, printer.bg), pre as int);
        let ghost text_ops = colored_char_ops(
            printer.to_glyph,
            printer.to_rgba,
            self@,
            printer.fg,
            printer.bg,
        );
        let ghost post_ops = repeat_op(blank_op(printer.fg, printer.bg), post as int);
        proof {
            assert(pre >= 0 && post >= 0);
            assert(ops =~= pre_ops + text_ops + post_ops);
        }
        let fg = printer.fg;
        let bg = printer.bg;
        let ghost b0 = printer.buffer;
        draw_blanks(&mut printer.buffer, sx, y, pre, fg, bg);
        let ghost b1 = printer.buffer;
        let n = self.spans.len();
        let mut k: usize = 0;
        let mut cx: i64 = sx + pre;
        proof {
            assert(colored_char_ops(
                printer.to_glyph,
                printer.to_rgba,
                spans_view(self.spans@.take(0)),
                fg,
                bg,
            ) =~= Seq::<DrawOp>::empty());
            assert(apply_row(b1, printer.buffer, sx + pre, y as int, Seq::<DrawOp>::empty()));
        }
        while k < n
            invariant
                k <= n,
                n == self.spans@.len(),
                self@.len() <= 0x7FFF_FFFF,
                -0x1_0000_0000 <= sx + pre <= 0x1_0000_0000,
                cx == sx + pre + spans_view(self.spans@.take(k as int)).len(),
                fg == old(printer).fg,
                bg == old(printer).bg,
                cprinter_config_unchanged(old(printer), printer),
                printer.to_glyph == old(printer).to_glyph,
                printer.to_rgba == old(printer).to_rgba,
                apply_row(
                    b1,
                    printer.buffer,
                    sx + pre,
                    y as int,
                    colored_char_ops(
                        old(printer).to_glyph,
                        old(printer).to_rgba,
                        spans_view(self.spans@.take(k as int)),
                        fg,
                        bg,
                    ),
                ),
            decreases n - k,
        {
            proof {
                lemma_spans_view_take_step(self.spans@, k as int);
                lemma_spans_view_split(self.spans@, k + 1);
                assert(self.spans@.take(k + 1 as int) =~= self.spans@.take(k + 1));
            }
            let span = &self.spans[k];
            let ghost bmid = printer.buffer;
            span_draw(span, printer, cx, y);
            proof {
                let pk = spans_view(self.spans@.take(k as int));
                let pk1 = spans_view(self.spans@.take(k + 1));
                let mapper = old(printer).to_glyph;
                let resolver = old(printer).to_rgba;
                assert(colored_char_ops(mapper, resolver, pk1, fg, bg) =~= colored_char_ops(
                    mapper,
                    resolver,
                    pk,
                    fg,
                    bg,
                ) + colored_char_ops(mapper, resolver, span@, fg, bg));
                lemma_apply_row_concat(
                    b1,
                    bmid,
                    printer.buffer,
                    sx + pre,
                    y as int,
                    colored_char_ops(mapper, resolver, pk, fg, bg),
                    colored_char_ops(mapper, resolver, span@, fg, bg),
                );
            }
            cx = cx + span.txt.len() as i64;
            k += 1;
        }
        proof {
            assert(self.spans@.take(n as int) =~= self.spans@);
            assert(apply_row(b0, b1, sx as int, y as int, pre_ops));
            lemma_apply_row_concat(b0, b1, printer.buffer, sx as int, y as int, pre_ops, text_ops);
        }
        let ghost b2 = printer.buffer;
        draw_blanks(&mut printer.buffer, cx, y, post, fg, bg);
        proof {
            assert(cx == sx + pre_ops.len() + text_ops.len());
            lemma_apply_row_concat(
                b0,
                b2,
                printer.buffer,
                sx as int,
                y as int,
                pre_ops + text_ops,
                post_ops,
            );
            assert((pre_ops + text_ops) + post_ops =~= ops);
        }
        w
    }
}


/// The cell a colored row print leaves at column `i` of its row.
pub open spec fn colored_row_cell(
    b0: Buffer,
    x: int,
    j: int,
    s: ColoredText,
    width: Option<i32>,
    align: TextAlign,
    fg: Option<RGBA>,
    bg: Option<RGBA>,
    mapper: GlyphMapper,
    resolver: ColorResolver,
    i: int,
) -> Cell {
    let len = s.len() as int;
    let sx = row_start(align, x, row_width(width, len), len);
    let ops = colored_row_ops(s, width, align, fg, bg, mapper, resolver);
    if sx <= i < sx + ops.len() {
        merge_cell(b0.cell(i, j), ops[i - sx].0, ops[i - sx].1, ops[i - sx].2)
    } else {
        b0.cell(i, j)
    }
}

/// How printing a stack of colored rows changes the buffer: row `y + k`
/// holds the print of row `k`, and every other cell keeps its value.
pub open spec fn colored_rows_printed(
    b0: Buffer,
    b1: Buffer,
    x: int,
    y: int,
    rows: Seq<ColoredText>,
    width: Option<i32>,
    align: TextAlign,
    fg: Option<RGBA>,
    bg: Option<RGBA>,
    mapper: GlyphMapper,
    resolver: ColorResolver,
) -> bool {
    &&& b1.spec_width() == b0.spec_width()
    &&& b1.spec_height() == b0.spec_height()
    &&& forall|i: int, j: int|
        b0.in_bounds(i, j) ==> #[trigger] b1.cell(i, j) == (if y <= j < y + rows.len() {
            colored_row_cell(b0, x, j, rows[j - y], width, align, fg, bg, mapper, resolver, i)
        } else {
            b0.cell(i, j)
        })
}

/// The widest row width over a stack of rows (at least 0).
pub open spec fn rows_widest(rows: Seq<ColoredText>, width: Option<i32>) -> int
    decreases rows.len(),
{
    if rows.len() == 0 {
        0
    } else {
        spec_max(
            rows_widest(rows.drop_last(), width),
            row_width(width, rows.last().len() as int),
        )
    }
}

/// The widest row is bounded by the width configuration and the longest
/// row.
pub proof fn lemma_rows_widest_bound(rows: Seq<ColoredText>, width: Option<i32>, bound: int)
    requires
        0 <= bound,
        forall|k: int| 0 <= k < rows.len() ==> (#[trigger] rows[k]).len() <= bound,
    ensures
        0 <= rows_widest(rows, width) <= spec_max(0x7FFF_FFFF, bound),
    decreases rows.len(),
{
    if rows.len() > 0 {
        assert(forall|k: int|
            0 <= k < rows.drop_last().len() ==> (#[trigger] rows.drop_last()[k]).len() <= bound);
        lemma_rows_widest_bound(rows.drop_last(), width, bound);
    }
}

impl ColoredPrinter {
    /// Prints each line on its own row from `y` down, returning the widest
    /// row width used.
    fn draw_rows(&mut self, x: i64, y: i64, lines: &Vec<ColoredLine>) -> (widest: i64)
        requires
            forall|k: int| 0 <= k < lines@.len() ==> (#[trigger] lines@[k]@).len() <= 0x7FFF_FFFF,
            lines@.len() <= 0x7FFF_FFFF,
            -0x8000_0000 <= x <= 0x7FFF_FFFF,
            -0x8000_0000 <= y <= 0x7FFF_FFFF,
        ensures
            cprinter_config_unchanged(old(self), final(self)),
            widest == rows_widest(lines_view(lines@), old(self).width),
            colored_rows_printed(
                old(self).buffer,
                final(self).buffer,
                x as int,
                y as int,
                lines_view(lines@),
                old(self).width,
                old(self).align,
                old(self).fg,
                old(self).bg,
                old(self).to_glyph,
                old(self).to_rgba,
            ),
    {
        let ghost rows = lines_view(lines@);
        let n = lines.len();
        let mut widest: i64 = 0;
        let mut k: usize = 0;
        proof {
            assert(rows.take(0) =~= Seq::<ColoredText>::empty());
        }
        while k < n
            invariant
                k <= n,
                n == lines@.len() <= 0x7FFF_FFFF,
                rows == lines_view(lines@),
                forall|j: int| 0 <= j < lines@.len() ==> (#[trigger] lines@[j]@).len()
                    <= 0x7FFF_FFFF,
                -0x8000_0000 <= x <= 0x7FFF_FFFF,
                -0x8000_0000 <= y <= 0x7FFF_FFFF,
                cprinter_config_unchanged(old(self), self),
                self.width == old(self).width,
                self.align == old(self).align,
                self.fg == old(self).fg,
                self.bg == old(self).bg,
                self.to_glyph == old(self).to_glyph,
                self.to_rgba == old(self).to_rgba,
                -0x8000_0001 <= widest <= 0x8000_0000,
                widest == rows_widest(rows.take(k as int), old(self).width),
                colored_rows_printed(
                    old(self).buffer,
                    self.buffer,
                    x as int,
                    y as int,
                    rows.take(k as int),
                    old(self).width,
                    old(self).align,
                    old(self).fg,
                    old(self).bg,
                    old(self).to_glyph,
                    old(self).to_rgba,
                ),
            decreases n - k,
        {
            let cy = y + k as i64;
            let ghost bprev = self.buffer;
            let ghost line = lines@[k as int];
            proof {
                assert(rows[k as int] == lines@[k as int]@);
            }
            let w = lines[k].print_at(self, x, cy);
            if w > widest {
                widest = w;
            }
            proof {
                assert(rows.take(k + 1).drop_last() =~= rows.take(k as int));
                assert(rows.take(k + 1).last() == rows[k as int]);
                let width0 = old(self).width;
                let align0 = old(self).align;
                let fg0 = old(self).fg;
                let bg0 = old(self).bg;
                let m0 = old(self).to_glyph;
                let r0 = old(self).to_rgba;
                let s = rows[k as int];
                let len = s.len() as int;
                let sx = row_start(align0, x as int, row_width(width0, len), len);
                let ops = colored_row_ops(s, width0, align0, fg0, bg0, m0, r0);
                assert forall|i: int, j: int| old(self).buffer.in_bounds(i, j) implies #[trigger] self.buffer.cell(
                    i,
                    j,
                ) == (if y <= j < y + rows.take(k + 1).len() {
                    colored_row_cell(
                        old(self).buffer,
                        x as int,
                        j,
                        rows.take(k + 1)[j - y],
                        width0,
                        align0,
                        fg0,
                        bg0,
                        m0,
                        r0,
                        i,
                    )
                } else {
                    old(self).buffer.cell(i, j)
                }) by {
                    assert(bprev.cell(i, j) == (if y <= j < y + k {
                        colored_row_cell(
                            old(self).buffer,
                            x as int,
                            j,
                            rows.take(k as int)[j - y],
                            width0,
                            align0,
                            fg0,
                            bg0,
                            m0,
                            r0,
                            i,
                        )
                    } else {
                        old(self).buffer.cell(i, j)
                    }));
                    assert(self.buffer.cell(i, j) == (if j == cy && sx <= i < sx + ops.len() {
                        merge_cell(bprev.cell(i, j), ops[i - sx].0, ops[i - sx].1, ops[i - sx].2)
                    } else {
                        bprev.cell(i, j)
                    }));
                    if j == cy {
                        assert(bprev.cell(i, j) == old(self).buffer.cell(i, j));
                        assert(rows.take(k + 1)[j - y] == s);
                    } else if y <= j < y + k {
                        assert(rows.take(k + 1)[j - y] == rows.take(k as int)[j - y]);
                    }
                }
            }
            k += 1;
        }
        proof {
            assert(rows.take(n as int) =~= rows);
        }
        widest
    }

    /// Prints the first physical line of the text at `(x, y)`, returning
    /// the row width used (at least 0); malformed markup anywhere in the
    /// text is an error.
    #[verifier::rlimit(100)]
    #[verifier::spinoff_prover]
    pub fn print(&mut self, x: i32, y: i32, text: &str) -> (r: Result<i32, MarkupError>)
        requires
            text@.len() < 0x7FFF_FFFE,
        ensures
            cprinter_config_unchanged(old(self), final(self)),
            (r is Ok) == (model::parse_all(text@) is Some),
            r matches Ok(w) ==> ({
                let pls = model::parse_all(text@).unwrap();
                &&& w == spec_max(0, rows_widest(pls.take(1), old(self).width))
                &&& colored_rows_printed(
                    old(self).buffer,
                    final(self).buffer,
                    x as int,
                    y as int,
                    pls.take(1),
                    old(self).width,
                    old(self).align,
                    old(self).fg,
                    old(self).bg,
                    old(self).to_glyph,
                    old(self).to_rgba,
                )
            }),
            r matches Err(MarkupError::UnterminatedTag(s)) ==> exists|k: int|
                0 <= k < model::split_lines(text@).len() && s@ == #[trigger] model::split_lines(
                    text@,
                )[k],
    {
        let parsed = match parse_colored_lines(text) {
            Ok(p) => p,
            Err(e) => {
                return Err(e);
            },
        };
        proof {
            model::lemma_split_lines_len(text@);
            lemma_parse_all_counts(text@);
            let pls = model::parse_all(text@).unwrap();
            assert(pls == lines_view(parsed@));
            assert forall|k: int| 0 <= k < parsed@.len() implies (#[trigger] parsed@[k]@).len()
                <= 0x7FFF_FFFF by {
                assert(lines_view(parsed@)[k] == parsed@[k]@);
                assert(pls[k].len() <= text@.len());
            }
            assert(parsed@.len() == model::split_lines(text@).len());
        }
        let mut parsed = parsed;
        parsed.truncate(1);
        let first = parsed;
        proof {
            let pls = model::parse_all(text@).unwrap();
            assert(lines_view(first@) =~= pls.take(1));
        }
        let widest = self.draw_rows(x as i64, y as i64, &first);
        let r: i64 = if widest > 0 {
            widest
        } else {
            0
        };
        proof {
            lemma_rows_widest_bound(lines_view(first@), old(self).width, text@.len() as int);
        }
        Ok(r as i32)
    }

    /// Prints every physical line of the text on its own row from `y` down,
    /// returning the widest row width used and the number of rows;
    /// malformed markup is an error.
    #[verifier::rlimit(100)]
    #[verifier::spinoff_prover]
    pub fn print_lines(&mut self, x: i32, y: i32, text: &str) -> (r: Result<
        (i32, i32),
        MarkupError,
    >)
        requires
            text@.len() < 0x7FFF_FFFE,
        ensures
            cprinter_config_unchanged(old(self), final(self)),
            (r is Ok) == (model::parse_all(text@) is Some),
            r matches Ok(p) ==> ({
                let pls = model::parse_all(text@).unwrap();
                &&& p.0 == rows_widest(pls, old(self).width)
                &&& p.1 == pls.len()
                &&& colored_rows_printed(
                    old(self).buffer,
                    final(self).buffer,
                    x as int,
                    y as int,
                    pls,
                    old(self).width,
                    old(self).align,
                    old(self).fg,
                    old(self).bg,
                    old(self).to_glyph,
                    old(self).to_rgba,
                )
            }),
            r matches Err(MarkupError::UnterminatedTag(s)) ==> exists|k: int|
                0 <= k < model::split_lines(text@).len() && s@ == #[trigger] model::split_lines(
                    text@,
                )[k],
    {
        let parsed = match parse_colored_lines(text) {
            Ok(p) => p,
            Err(e) => {
                return Err(e);
            },
        };
        proof {
            model::lemma_split_lines_len(text@);
            lemma_parse_all_counts(text@);
            let pls = model::parse_all(text@).unwrap();
            assert(pls == lines_view(parsed@));
            assert forall|k: int| 0 <= k < parsed@.len() implies (#[trigger] parsed@[k]@).len()
                <= 0x7FFF_FFFF by {
                assert(lines_view(parsed@)[k] == parsed@[k]@);
                assert(pls[k].len() <= text@.len());
            }
            assert(parsed@.len() == model::split_lines(text@).len());
        }
        let widest = self.draw_rows(x as i64, y as i64, &parsed);
        proof {
            lemma_rows_widest_bound(lines_view(parsed@), old(self).width, text@.len() as int);
        }
        Ok((widest as i32, parsed.len() as i32))
    }

    /// Word-wraps the text at the configured width (or the buffer width
    /// left of `x`) and prints the wrapped rows from `y` down, returning
    /// the widest row width used and the number of rows; malformed markup
    /// is an error.
    #[verifier::rlimit(100)]
    #[verifier::spinoff_prover]
    pub fn wrap(&mut self, x: i32, y: i32, text: &str) -> (r: Result<(i32, i32), MarkupError>)
        requires
            text@.len() < 0x0800_0000,
        ensures
            cprinter_config_unchanged(old(self), final(self)),
            (r is Ok) == (model::parse_all(text@) is Some),
            r matches Ok(p) ==> ({
                let limit = spec_cwrap_limit(
                    old(self).width,
                    old(self).buffer.spec_width() as int,
                    x as int,
                );
                let wr = model::wrap_all(text@, limit).unwrap();
                &&& p.0 == rows_widest(wr.lines, old(self).width)
                &&& p.1 == wr.lines.len()
                &&& colored_rows_printed(
                    old(self).buffer,
                    final(self).buffer,
                    x as int,
                    y as int,
                    wr.lines,
                    old(self).width,
                    old(self).align,
                    old(self).fg,
                    old(self).bg,
                    old(self).to_glyph,
                    old(self).to_rgba,
                )
            }),
            r matches Err(MarkupError::UnterminatedTag(s)) ==> exists|k: int|
                0 <= k < model::split_lines(text@).len() && s@ == #[trigger] model::split_lines(
                    text@,
                )[k],
    {
        let bufw = self.buffer.width() as i64;
        let li: i64 = match self.width {
            Some(w) => w as i64,
            None => bufw - x as i64,
        };
        let limit: usize = if li < 0 {
            usize::MAX
        } else {
            li as usize
        };
        let lines = match wrap(limit, text) {
            Ok(p) => p.0,
            Err(e) => {
                return Err(e);
            },
        };
        proof {
            let l: int = match old(self).width {
                Some(w) => w as int,
                None => old(self).buffer.spec_width() - x,
            };
            assert(li as int == l);
            if li < 0 {
                assert(limit == usize::MAX);
            } else {
                assert(limit as int == l);
            }
            assert(limit as nat == spec_cwrap_limit(
                old(self).width,
                old(self).buffer.spec_width() as int,
                x as int,
            ));
            model::lemma_split_lines_len(text@);
            lemma_parse_all_counts(text@);
            let pls = model::parse_all(text@).unwrap();
            model::lemma_wrap_lines_rec_count(pls, limit as nat, text@.len() as int);
            let wr = model::wrap_all(text@, limit as nat).unwrap();
            assert(wr.lines == lines_view(lines@));
            assert forall|k: int| 0 <= k < lines@.len() implies (#[trigger] lines@[k]@).len()
                <= 0x7FFF_FFFF by {
                assert(lines_view(lines@)[k] == lines@[k]@);
                assert(wr.lines[k].len() <= text@.len());
            }
            assert(lines@.len() == wr.lines.len());
            assert(wr.lines.len() <= 11 * pls.len());
        }
        let widest = self.draw_rows(x as i64, y as i64, &lines);
        proof {
            lemma_rows_widest_bound(lines_view(lines@), old(self).width, text@.len() as int);
        }
        Ok((widest as i32, lines.len() as i32))
    }
}

/// The width a printer wraps to: the configured width, or the buffer width
/// to the right of `x`; a negative width disables wrapping.
pub open spec fn spec_cwrap_limit(width: Option<i32>, bufw: int, x: int) -> nat {
    let l = match width {
        Some(w) => w as int,
        None => bufw - x,
    };
    if l < 0 {
        usize::MAX as nat
    } else {
        l as nat
    }
}

/// A text parses to exactly one colored line per physical line, each no
/// longer than the text.
pub proof fn lemma_parse_all_counts(t: Seq<char>)
    ensures
        model::parse_all(t) matches Some(pls) ==> pls.len() == model::split_lines(t).len()
            && forall|k: int| 0 <= k < pls.len() ==> (#[trigger] pls[k]).len() <= t.len(),
{
    model::lemma_split_lines_len(t);
    model::lemma_parse_lines_rec_len(model::split_lines(t), Seq::empty(), t.len() as int);
    lemma_parse_lines_rec_n(model::split_lines(t), Seq::empty());
}

proof fn lemma_parse_lines_rec_n(ls: Seq<Seq<char>>, stack: Seq<Seq<char>>)
    ensures
        model::parse_lines_rec(ls, stack) matches Some(r) ==> r.0.len() == ls.len(),
    decreases ls.len(),
{
    if ls.len() > 0 {
        match model::parse_line(ls[0], stack) {
            None => {},
            Some(r) => {
                lemma_parse_lines_rec_n(ls.skip(1), r.stack);
            },
        }
    }
}

} // verus!
