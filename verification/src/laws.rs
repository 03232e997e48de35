//! The library's laws: properties of parsing and wrapping, stated over the
//! model that the executable functions' contracts use, and proved once and
//! for all inputs.

use crate::model::{
    find_tag, last_space_before, lemma_find_tag, lemma_parse_line_strips, lemma_text_of_skip,
    lemma_text_of_take, lemma_wrap_lines_fit, lemma_wrap_step, parse_all, parse_line,
    parse_lines_rec, plain_chars, split_lines, stack_top, strip_line, text_of, tint, wrap_all,
    wrap_line_rec, wrap_lines_rec, wrap_step, ColoredText, ParsedLine,
};
use vstd::prelude::*;

verus! {

/// Concatenating the texts of a parsed line's spans reproduces the original
/// line with its markup removed, verbatim: tokenizing loses or invents no
/// character, whatever the color stack holds.
pub proof fn law_parse_reproduces_text(line: Seq<char>, stack: Seq<Seq<char>>)
    ensures
        parse_line(line, stack) is Some <==> strip_line(line) is Some,
        parse_line(line, stack) matches Some(r) ==> strip_line(line) == Some(text_of(r.chars)),
{
    lemma_parse_line_strips(line, stack);
}

/// Every output row of a wrap to a limit of at least 1 that stayed under
/// the iteration cap fits the width limit, the trailing synthetic hyphen
/// counted within the limit.
pub proof fn law_wrapped_rows_fit(text: Seq<char>, limit: nat)
    requires
        limit >= 1,
    ensures
        wrap_all(text, limit) matches Some(w) ==> (!w.truncated ==> forall|k: int|
            0 <= k < w.lines.len() ==> (#[trigger] w.lines[k]).len() <= limit),
{
    if wrap_all(text, limit) is Some {
        let ls = parse_all(text).unwrap();
        lemma_wrap_lines_fit(ls, limit);
    }
}

/// Splitting colored text so the right side begins at `idx` preserves the
/// total length.
pub proof fn law_split_preserves_length(s: ColoredText, idx: int)
    requires
        0 <= idx <= s.len(),
    ensures
        s.take(idx).len() + s.skip(idx).len() == s.len(),
{
}

/// Splitting colored text with the character at `idx` omitted loses exactly
/// that one character.
pub proof fn law_split_omitting_loses_one(s: ColoredText, idx: int)
    requires
        0 <= idx < s.len(),
    ensures
        s.take(idx).len() + s.skip(idx + 1).len() == s.len() - 1,
{
}

/// A zero-width search window never finds a break: the last space below a
/// window of 0 is `None` for every line, empty or not.
pub proof fn law_zero_window_finds_no_break(t: Seq<char>)
    ensures
        last_space_before(t, 0) is None,
{
}

/// Whether a text holds no markup tag opener `#[` anywhere.
pub open spec fn markup_free(t: Seq<char>) -> bool {
    forall|k: int| 0 <= k && k + 1 < t.len() ==> !(#[trigger] t[k] == '#' && t[k + 1] == '[')
}

proof fn lemma_markup_free_subrange(t: Seq<char>, a: int, b: int)
    requires
        markup_free(t),
        0 <= a <= b <= t.len(),
    ensures
        markup_free(t.subrange(a, b)),
{
    let s = t.subrange(a, b);
    assert forall|k: int| 0 <= k && k + 1 < s.len() implies !(#[trigger] s[k] == '#' && s[k + 1]
        == '[') by {
        assert(s[k] == t[a + k] && s[k + 1] == t[a + k + 1]);
    }
}

proof fn lemma_split_lines_markup_free(t: Seq<char>)
    requires
        markup_free(t),
    ensures
        forall|k: int| 0 <= k < split_lines(t).len() ==> markup_free(#[trigger] split_lines(t)[k]),
    decreases t.len(),
{
    let i = vstd::math::min(crate::model::find_off(t, '\n') as int, t.len() as int);
    if i == t.len() {
    } else {
        assert(t.take(i) =~= t.subrange(0, i));
        lemma_markup_free_subrange(t, 0, i);
        assert(t.skip(i + 1) =~= t.subrange(i + 1, t.len() as int));
        lemma_markup_free_subrange(t, i + 1, t.len() as int);
        lemma_split_lines_markup_free(t.skip(i + 1));
        assert forall|k: int| 0 <= k < split_lines(t).len() implies markup_free(
            #[trigger] split_lines(t)[k],
        ) by {
            if k > 0 {
                assert(split_lines(t)[k] == split_lines(t.skip(i + 1))[k - 1]);
            }
        }
    }
}

proof fn lemma_parse_markup_free_line(line: Seq<char>, stack: Seq<Seq<char>>)
    requires
        markup_free(line),
    ensures
        parse_line(line, stack) == Some(
            ParsedLine { chars: tint(stack_top(stack), line), stack },
        ),
{
    lemma_find_tag(line);
    if find_tag(line) < line.len() {
        assert(line[find_tag(line) as int] == '#' && line[find_tag(line) + 1 as int] == '[');
        assert(false);
    }
    assert(line.take(line.len() as int) =~= line);
}

proof fn lemma_parse_markup_free_lines(ls: Seq<Seq<char>>, stack: Seq<Seq<char>>)
    requires
        forall|k: int| 0 <= k < ls.len() ==> markup_free(#[trigger] ls[k]),
        stack.len() == 0,
    ensures
        parse_lines_rec(ls, stack) matches Some(r) && r.0 == Seq::new(
            ls.len(),
            |i: int| plain_chars(ls[i]),
        ),
    decreases ls.len(),
{
    if ls.len() == 0 {
        assert(parse_lines_rec(ls, stack).unwrap().0 =~= Seq::new(
            ls.len(),
            |i: int| plain_chars(ls[i]),
        ));
    } else {
        lemma_parse_markup_free_line(ls[0], stack);
        assert(stack_top(stack) is None);
        lemma_parse_markup_free_lines(ls.skip(1), stack);
        let r0 = parse_lines_rec(ls.skip(1), stack).unwrap().0;
        assert(parse_lines_rec(ls, stack).unwrap().0 == seq![plain_chars(ls[0])] + r0);
        assert(seq![plain_chars(ls[0])] + r0 =~= Seq::new(ls.len(), |i: int| plain_chars(ls[i])));
    }
}

/// Wrapping is indifferent to markup when there is none: on text without a
/// single `#[` tag, the markup-aware wrap parses every physical line to one
/// uncolored run and produces exactly what the plain wrapping produces on
/// the same text — the same rows, the same hyphens, the same cap flag.
pub proof fn law_wrap_markup_free_is_plain(text: Seq<char>, limit: nat)
    requires
        markup_free(text),
    ensures
        parse_all(text) == Some(
            Seq::new(split_lines(text).len(), |i: int| plain_chars(split_lines(text)[i])),
        ),
        wrap_all(text, limit) == Some(
            wrap_lines_rec(
                Seq::new(split_lines(text).len(), |i: int| plain_chars(split_lines(text)[i])),
                limit,
            ),
        ),
{
    lemma_split_lines_markup_free(text);
    lemma_parse_markup_free_lines(split_lines(text), Seq::empty());
}

/// What one output row contributes to the reconstruction of its input: its
/// text with the synthetic hyphen removed.
pub open spec fn strip_row_hyphen(t: Seq<char>, hyphen: bool) -> Seq<char> {
    if hyphen {
        t.drop_last()
    } else {
        t
    }
}

/// The character a row boundary stands for: nothing after a hyphen break,
/// the dropped space after a space break.
pub open spec fn break_sep(hyphen: bool) -> Seq<char> {
    if hyphen {
        Seq::empty()
    } else {
        seq![' ']
    }
}

/// The text that a sequence of wrapped rows reconstructs: each row's text
/// with its inserted hyphen stripped, re-joined with a space at every break
/// that dropped one.
pub open spec fn rejoin_rows(rows: Seq<ColoredText>, hyphens: Seq<bool>) -> Seq<char>
    decreases rows.len(),
{
    if rows.len() == 0 {
        Seq::empty()
    } else if rows.len() == 1 {
        strip_row_hyphen(text_of(rows[0]), hyphens[0])
    } else {
        strip_row_hyphen(text_of(rows[0]), hyphens[0]) + break_sep(hyphens[0]) + rejoin_rows(
            rows.skip(1),
            hyphens.skip(1),
        )
    }
}

/// Re-joining the rows that wrapping one line produced reconstructs the
/// line: stripping the inserted hyphens and restoring the dropped break
/// spaces gives back the original text, except possibly one trailing space
/// that a break at the line's end consumed.
#[verifier::rlimit(100)]
#[verifier::spinoff_prover]
pub proof fn law_wrap_rejoins(cur: ColoredText, limit: nat, fuel: nat)
    ensures
        ({
            let r = wrap_line_rec(cur, limit, fuel);
            !r.truncated ==> rejoin_rows(r.lines, r.hyphens) == text_of(cur) || rejoin_rows(
                r.lines,
                r.hyphens,
            ).push(' ') == text_of(cur)
        }),
    decreases fuel,
{
    let r = wrap_line_rec(cur, limit, fuel);
    let t = text_of(cur);
    if t.len() <= limit {
        if cur.len() > 0 {
            assert(rejoin_rows(r.lines, r.hyphens) == t);
        } else {
            assert(t =~= Seq::<char>::empty());
            assert(rejoin_rows(r.lines, r.hyphens) =~= t);
        }
    } else if fuel == 0 {
    } else {
        lemma_wrap_step(cur, limit);
        let st = wrap_step(cur, limit);
        let rr = wrap_line_rec(st.rest, limit, (fuel - 1) as nat);
        law_wrap_rejoins(st.rest, limit, (fuel - 1) as nat);
        if !r.truncated {
            assert(!rr.truncated);
            assert(r.lines == seq![st.line] + rr.lines);
            assert(r.hyphens == seq![st.hyphen] + rr.hyphens);
            assert(r.lines[0] == st.line && r.hyphens[0] == st.hyphen);
            assert(r.lines.skip(1) =~= rr.lines);
            assert(r.hyphens.skip(1) =~= rr.hyphens);
            if st.hyphen {
                let idx = choose|idx: int|
                    0 <= idx < cur.len() && st.line == cur.take(idx).push(
                        (
                            (if idx > 0 {
                                cur[idx - 1].0
                            } else {
                                None
                            }),
                            '-',
                        ),
                    ) && st.rest == cur.skip(idx);
                if idx == 0 {
                    // A hyphenation at the very start of the line emits the
                    // bare hyphen row and hands the whole line back: the
                    // step makes no progress, so only the cap ends the
                    // recursion, and that path is excluded by the wrap not
                    // being truncated.
                    assert(cur.skip(0) =~= cur);
                    law_wrap_rejoins_stuck(cur, limit, fuel);
                    assert(false);
                }
                lemma_text_of_take(cur, idx);
                lemma_text_of_skip(cur, idx);
                assert(text_of(st.line) =~= t.take(idx).push('-'));
                assert(strip_row_hyphen(text_of(st.line), true) =~= t.take(idx));
                assert(text_of(st.rest) =~= t.skip(idx));
                if rr.lines.len() == 0 {
                    assert(st.rest.len() == 0);
                    assert(false);
                } else {
                    assert(rejoin_rows(r.lines, r.hyphens) == t.take(idx) + Seq::<char>::empty()
                        + rejoin_rows(rr.lines, rr.hyphens));
                    if rejoin_rows(rr.lines, rr.hyphens) == text_of(st.rest) {
                        assert(rejoin_rows(r.lines, r.hyphens) =~= t);
                    } else {
                        assert(rejoin_rows(rr.lines, rr.hyphens).push(' ') == text_of(st.rest));
                        assert(rejoin_rows(r.lines, r.hyphens).push(' ') =~= t.take(idx)
                            + rejoin_rows(rr.lines, rr.hyphens).push(' '));
                        assert(rejoin_rows(r.lines, r.hyphens).push(' ') =~= t);
                    }
                }
            } else {
                let idx = choose|idx: int|
                    0 <= idx < cur.len() && text_of(cur)[idx] == ' ' && st.line == cur.take(idx)
                        && st.rest == cur.skip(idx + 1);
                lemma_text_of_take(cur, idx);
                lemma_text_of_skip(cur, idx + 1);
                assert(text_of(st.line) =~= t.take(idx));
                assert(text_of(st.rest) =~= t.skip(idx + 1));
                if rr.lines.len() == 0 {
                    assert(st.rest.len() == 0);
                    assert(rejoin_rows(r.lines, r.hyphens) == t.take(idx));
                    assert(rejoin_rows(r.lines, r.hyphens).push(' ') =~= t);
                } else {
                    assert(rejoin_rows(r.lines, r.hyphens) == t.take(idx) + seq![' ']
                        + rejoin_rows(rr.lines, rr.hyphens));
                    if rejoin_rows(rr.lines, rr.hyphens) == text_of(st.rest) {
                        assert(rejoin_rows(r.lines, r.hyphens) =~= t);
                    } else {
                        assert(rejoin_rows(rr.lines, rr.hyphens).push(' ') == text_of(st.rest));
                        assert(rejoin_rows(r.lines, r.hyphens).push(' ') =~= t);
                    }
                }
            }
        }
    }
}

/// A wrap step that hands its whole input back unchanged repeats forever:
/// the recursion then ends only by exhausting its fuel.
proof fn law_wrap_rejoins_stuck(cur: ColoredText, limit: nat, fuel: nat)
    requires
        text_of(cur).len() > limit,
        fuel > 0,
        wrap_step(cur, limit).rest == cur,
    ensures
        wrap_line_rec(cur, limit, fuel).truncated,
    decreases fuel,
{
    let st = wrap_step(cur, limit);
    let r = wrap_line_rec(cur, limit, fuel);
    assert(r.truncated == wrap_line_rec(cur, limit, (fuel - 1) as nat).truncated);
    if fuel > 1 {
        law_wrap_rejoins_stuck(cur, limit, (fuel - 1) as nat);
    } else {
        assert(wrap_line_rec(cur, limit, 0).truncated);
    }
}

} // verus!
