//! Colors as `(red, green, blue, alpha)` byte tuples, and parsing of the
//! textual color notations (`#F00`, `0000FF`, `rgb(10,20,30)`, `(0,0,0)`).

use crate::chars::{chars_of, find_char_from, subvec};
use crate::model::{find_off, lemma_find_off};
use vstd::math::min as spec_min;
use vstd::prelude::*;

verus! {

/// Errors from parsing color strings.
#[derive(Debug, Copy, Clone, PartialEq, Eq, Structural)]
pub enum ColorParseErr {
    /// Found a digit that is not a hex digit `[0-9A-Fa-f]`.
    NonHexDigit,
    /// Found a digit that is not an ascii digit `[0-9]`, or a component
    /// that is empty or beyond 255.
    NonAsciiDigit,
    /// Found text that is not a valid hex length (3, 4, 6, or 8 digits).
    WrongHexLen,
    /// Found text that does not have 3 or 4 comma-separated components.
    WrongRgbLen,
}

/// Whether a character is an ascii decimal digit.
pub open spec fn is_digit(c: char) -> bool {
    48 <= c as u32 <= 57
}

/// The value of an ascii decimal digit.
pub open spec fn digit_val(c: char) -> int {
    c as u32 - 48
}

/// Whether a character is an ascii hexadecimal digit.
pub open spec fn is_hex_digit(c: char) -> bool {
    is_digit(c) || (65 <= c as u32 <= 70) || (97 <= c as u32 <= 102)
}

/// The value of an ascii hexadecimal digit.
pub open spec fn hex_val(c: char) -> int {
    if is_digit(c) {
        digit_val(c)
    } else if 65 <= c as u32 <= 70 {
        c as u32 - 55
    } else {
        c as u32 - 87
    }
}

/// The numeric value of a decimal digit string.
pub open spec fn dec_val(t: Seq<char>) -> int
    decreases t.len(),
{
    if t.len() == 0 {
        0
    } else {
        dec_val(t.drop_last()) * 10 + digit_val(t.last())
    }
}

/// Whether a character is ascii whitespace, as trimming removes it.
pub open spec fn is_space_char(c: char) -> bool {
    c == ' ' || c == '\t' || c == '\r' || c == '\n'
}

/// The text with its leading whitespace removed.
pub open spec fn trim_front(t: Seq<char>) -> Seq<char>
    decreases t.len(),
{
    if t.len() > 0 && is_space_char(t[0]) {
        trim_front(t.skip(1))
    } else {
        t
    }
}

/// The text with its trailing whitespace removed.
pub open spec fn trim_back(t: Seq<char>) -> Seq<char>
    decreases t.len(),
{
    if t.len() > 0 && is_space_char(t.last()) {
        trim_back(t.drop_last())
    } else {
        t
    }
}

/// The text with whitespace removed from both ends.
pub open spec fn spec_trim(t: Seq<char>) -> Seq<char> {
    trim_back(trim_front(t))
}

/// The character lowered to ascii lowercase.
pub open spec fn lower_char(c: char) -> char {
    if 65 <= c as u32 <= 90 {
        ((c as u32) + 32) as char
    } else {
        c
    }
}

/// The text with every ascii uppercase letter lowered.
pub open spec fn spec_lower(t: Seq<char>) -> Seq<char> {
    Seq::new(t.len(), |i: int| lower_char(t[i]))
}

/// The text split at commas, which are dropped.
pub open spec fn split_commas(t: Seq<char>) -> Seq<Seq<char>>
    decreases t.len(),
{
    let i = spec_min(find_off(t, ',') as int, t.len() as int);
    if i == t.len() {
        seq![t]
    } else {
        seq![t.take(i)] + split_commas(t.skip(i + 1))
    }
}

/// Whether a trimmed component is a valid decimal byte: nonempty, digits
/// only, and at most 255.
pub open spec fn valid_component(t: Seq<char>) -> bool {
    &&& t.len() > 0
    &&& forall|i: int| 0 <= i < t.len() ==> is_digit(#[trigger] t[i])
    &&& dec_val(t) <= 255
}

/// The digits of a hex color string: an optional leading `#` is dropped and
/// the text ends at the first space.
pub open spec fn hex_base(t: Seq<char>) -> Seq<char> {
    let no_hash = if t.len() > 0 && t[0] == '#' {
        t.skip(1)
    } else {
        t
    };
    no_hash.take(spec_min(find_off(no_hash, ' ') as int, no_hash.len() as int))
}

/// What parsing a hex color string returns: an optional leading `#` is
/// dropped, the digits end at the first space, and 3, 4, 6 or 8 hex digits
/// give the components (single digits are doubled; alpha defaults to 255).
pub open spec fn spec_parse_hex(t: Seq<char>) -> Result<RGBA, ColorParseErr> {
    let base = hex_base(t);
    if !(forall|i: int| 0 <= i < base.len() ==> is_hex_digit(#[trigger] base[i])) {
        Err(ColorParseErr::NonHexDigit)
    } else if base.len() == 3 {
        Ok(
            RGBA(
                (hex_val(base[0]) * 17) as u8,
                (hex_val(base[1]) * 17) as u8,
                (hex_val(base[2]) * 17) as u8,
                255,
            ),
        )
    } else if base.len() == 4 {
        Ok(
            RGBA(
                (hex_val(base[0]) * 17) as u8,
                (hex_val(base[1]) * 17) as u8,
                (hex_val(base[2]) * 17) as u8,
                (hex_val(base[3]) * 17) as u8,
            ),
        )
    } else if base.len() == 6 {
        Ok(
            RGBA(
                (hex_val(base[0]) * 16 + hex_val(base[1])) as u8,
                (hex_val(base[2]) * 16 + hex_val(base[3])) as u8,
                (hex_val(base[4]) * 16 + hex_val(base[5])) as u8,
                255,
            ),
        )
    } else if base.len() == 8 {
        Ok(
            RGBA(
                (hex_val(base[0]) * 16 + hex_val(base[1])) as u8,
                (hex_val(base[2]) * 16 + hex_val(base[3])) as u8,
                (hex_val(base[4]) * 16 + hex_val(base[5])) as u8,
                (hex_val(base[6]) * 16 + hex_val(base[7])) as u8,
            ),
        )
    } else {
        Err(ColorParseErr::WrongHexLen)
    }
}

/// The comma-separated components of an `rgb(...)`-style string: the text
/// after the first `(` (if any) and before the first `)` (if any), split at
/// commas, each trimmed.
pub open spec fn rgb_components(t: Seq<char>) -> Seq<Seq<char>> {
    let p = spec_min(find_off(t, '(') as int, t.len() as int);
    let s1 = if p < t.len() {
        t.skip(p + 1)
    } else {
        t
    };
    let body = s1.take(spec_min(find_off(s1, ')') as int, s1.len() as int));
    let parts = split_commas(body);
    Seq::new(parts.len(), |i: int| spec_trim(parts[i]))
}

/// What parsing a comma-separated color string returns: 3 or 4 components
/// are required, each a decimal byte; a missing alpha defaults to 255.
pub open spec fn spec_parse_rgb(t: Seq<char>) -> Result<RGBA, ColorParseErr> {
    let parts = rgb_components(t);
    if parts.len() != 3 && parts.len() != 4 {
        Err(ColorParseErr::WrongRgbLen)
    } else if !(forall|i: int| 0 <= i < parts.len() ==> valid_component(#[trigger] parts[i])) {
        Err(ColorParseErr::NonAsciiDigit)
    } else if parts.len() == 3 {
        Ok(RGBA(dec_val(parts[0]) as u8, dec_val(parts[1]) as u8, dec_val(parts[2]) as u8, 255))
    } else {
        Ok(
            RGBA(
                dec_val(parts[0]) as u8,
                dec_val(parts[1]) as u8,
                dec_val(parts[2]) as u8,
                dec_val(parts[3]) as u8,
            ),
        )
    }
}

/// Whether `pre` is a prefix of `t`.
pub open spec fn has_prefix(t: Seq<char>, pre: Seq<char>) -> bool {
    pre.len() <= t.len() && t.take(pre.len() as int) == pre
}

/// What parsing a color string in either notation returns: the string is
/// trimmed and lowercased; a leading `#` selects hex parsing, a leading
/// `(`, `rgb(` or `rgba(` or any comma selects component parsing, and
/// anything else is tried as bare hex digits.
pub open spec fn spec_parse_color(t: Seq<char>) -> Result<RGBA, ColorParseErr> {
    let name = spec_lower(spec_trim(t));
    if name.len() > 0 && name[0] == '#' {
        spec_parse_hex(name)
    } else if has_prefix(name, seq!['(']) || has_prefix(name, seq!['r', 'g', 'b', '('])
        || has_prefix(name, seq!['r', 'g', 'b', 'a', '(']) || find_off(name, ',') < name.len() {
        spec_parse_rgb(name)
    } else {
        spec_parse_hex(name)
    }
}

/// The color a name resolves to, if it parses in either notation.
pub open spec fn spec_to_rgba(t: Seq<char>) -> Option<RGBA> {
    match spec_parse_color(t) {
        Ok(c) => Some(c),
        Err(_) => None,
    }
}

/// Tuple of red, green, blue, alpha components, each 0-255.
#[derive(Copy, Clone, Debug, PartialEq, Eq, Structural)]
pub struct RGBA(pub u8, pub u8, pub u8, pub u8);

impl RGBA {
    /// Constructs an empty RGBA `(0,0,0,0)`.
    pub fn new() -> (c: Self)
        ensures
            c == (RGBA(0, 0, 0, 0)),
    {
        RGBA(0, 0, 0, 0)
    }

    /// Constructs an RGBA from R,G,B components; alpha is 255.
    pub fn rgb(r: u8, g: u8, b: u8) -> (c: Self)
        ensures
            c == (RGBA(r, g, b, 255)),
    {
        RGBA(r, g, b, 255)
    }

    /// Constructs an RGBA from R,G,B,A components.
    pub fn rgba(r: u8, g: u8, b: u8, a: u8) -> (c: Self)
        ensures
            c == (RGBA(r, g, b, a)),
    {
        RGBA(r, g, b, a)
    }

    /// The red component.
    pub fn r(&self) -> (v: u8)
        ensures
            v == self.0,
    {
        self.0
    }

    /// The green component.
    pub fn g(&self) -> (v: u8)
        ensures
            v == self.1,
    {
        self.1
    }

    /// The blue component.
    pub fn b(&self) -> (v: u8)
        ensures
            v == self.2,
    {
        self.2
    }

    /// The alpha component.
    pub fn a(&self) -> (v: u8)
        ensures
            v == self.3,
    {
        self.3
    }

    /// Multiplies the R,G,B components of `c1` and `c2`, using `c2` as a
    /// percentage of full intensity; the result's alpha is 255.
    pub fn multiply(c1: RGBA, c2: RGBA) -> (c: RGBA)
        ensures
            c == (RGBA(
                ((c1.0 * c2.0) / 255) as u8,
                ((c1.1 * c2.1) / 255) as u8,
                ((c1.2 * c2.2) / 255) as u8,
                255,
            )),
    {
        proof {
            assert(c1.0 * c2.0 <= 65025 && c1.1 * c2.1 <= 65025 && c1.2 * c2.2 <= 65025)
                by (nonlinear_arith)
                requires
                    c1.0 <= 255 && c2.0 <= 255 && c1.1 <= 255 && c2.1 <= 255 && c1.2 <= 255
                        && c2.2 <= 255,
            ;
        }
        RGBA(
            ((c1.0 as u32 * c2.0 as u32) / 255) as u8,
            ((c1.1 as u32 * c2.1 as u32) / 255) as u8,
            ((c1.2 as u32 * c2.2 as u32) / 255) as u8,
            255,
        )
    }

    /// Returns the component-wise average of `c1` and `c2` (50% of each).
    pub fn mix(c1: RGBA, c2: RGBA) -> (c: RGBA)
        ensures
            c == (RGBA(
                ((c1.0 + c2.0) / 2) as u8,
                ((c1.1 + c2.1) / 2) as u8,
                ((c1.2 + c2.2) / 2) as u8,
                ((c1.3 + c2.3) / 2) as u8,
            )),
    {
        RGBA(
            ((c1.0 as u32 + c2.0 as u32) / 2) as u8,
            ((c1.1 as u32 + c2.1 as u32) / 2) as u8,
            ((c1.2 as u32 + c2.2 as u32) / 2) as u8,
            ((c1.3 as u32 + c2.3 as u32) / 2) as u8,
        )
    }

    /// Adds the colors component-wise, each component stopping at 255.
    pub fn saturating_add(self, rhs: RGBA) -> (c: RGBA)
        ensures
            c == (RGBA(
                vstd::math::min(self.0 + rhs.0, 255) as u8,
                vstd::math::min(self.1 + rhs.1, 255) as u8,
                vstd::math::min(self.2 + rhs.2, 255) as u8,
                vstd::math::min(self.3 + rhs.3, 255) as u8,
            )),
    {
        RGBA(
            self.0.saturating_add(rhs.0),
            self.1.saturating_add(rhs.1),
            self.2.saturating_add(rhs.2),
            self.3.saturating_add(rhs.3),
        )
    }

    /// Subtracts the colors component-wise, each component stopping at 0.
    pub fn saturating_sub(self, rhs: RGBA) -> (c: RGBA)
        ensures
            c == (RGBA(
                vstd::math::max(self.0 - rhs.0, 0) as u8,
                vstd::math::max(self.1 - rhs.1, 0) as u8,
                vstd::math::max(self.2 - rhs.2, 0) as u8,
                vstd::math::max(self.3 - rhs.3, 0) as u8,
            )),
    {
        RGBA(
            self.0.saturating_sub(rhs.0),
            self.1.saturating_sub(rhs.1),
            self.2.saturating_sub(rhs.2),
            self.3.saturating_sub(rhs.3),
        )
    }

    /// Computes the squared euclidean distance between the R,G,B components
    /// of the two colors.
    pub fn distance(c1: RGBA, c2: RGBA) -> (d: i32)
        ensures
            d == (c1.0 - c2.0) * (c1.0 - c2.0) + (c1.1 - c2.1) * (c1.1 - c2.1) + (c1.2 - c2.2) * (
            c1.2 - c2.2),
    {
        let dr = c1.0 as i32 - c2.0 as i32;
        let dg = c1.1 as i32 - c2.1 as i32;
        let db = c1.2 as i32 - c2.2 as i32;
        proof {
            assert(0 <= dr * dr <= 65025) by (nonlinear_arith)
                requires
                    -255 <= dr <= 255,
            ;
            assert(0 <= dg * dg <= 65025) by (nonlinear_arith)
                requires
                    -255 <= dg <= 255,
            ;
            assert(0 <= db * db <= 65025) by (nonlinear_arith)
                requires
                    -255 <= db <= 255,
            ;
        }
        dr * dr + dg * dg + db * db
    }
}


/// A comma-split is never empty, and no longer than the text plus one.
proof fn lemma_split_commas_len(t: Seq<char>)
    ensures
        1 <= split_commas(t).len() <= t.len() + 1,
    decreases t.len(),
{
    let i = spec_min(find_off(t, ',') as int, t.len() as int);
    if i != t.len() {
        lemma_split_commas_len(t.skip(i + 1));
    }
}

/// A prefix test is an element-wise comparison.
proof fn lemma_prefix(t: Seq<char>, p: Seq<char>)
    ensures
        has_prefix(t, p) == (p.len() <= t.len() && forall|k: int|
            0 <= k < p.len() ==> t[k] == p[k]),
{
    if p.len() <= t.len() && forall|k: int| 0 <= k < p.len() ==> t[k] == p[k] {
        assert(t.take(p.len() as int) =~= p);
    }
    if has_prefix(t, p) {
        assert forall|k: int| 0 <= k < p.len() implies t[k] == p[k] by {
            assert(t.take(p.len() as int)[k] == t[k]);
        }
    }
}

/// A digit string's value never shrinks as digits are appended.
pub(crate) proof fn lemma_dec_val_prefix(s: Seq<char>, k: int)
    requires
        forall|i: int| 0 <= i < s.len() ==> is_digit(#[trigger] s[i]),
        0 <= k <= s.len(),
    ensures
        0 <= dec_val(s.take(k)) <= dec_val(s),
    decreases s.len() - k,
{
    if k == s.len() {
        assert(s.take(k) =~= s);
        lemma_dec_val_nonneg(s);
    } else {
        lemma_dec_val_prefix(s, k + 1);
        assert(s.take(k + 1).drop_last() =~= s.take(k));
        assert(s.take(k + 1).last() == s[k]);
        lemma_dec_val_nonneg(s.take(k));
    }
}

proof fn lemma_dec_val_nonneg(s: Seq<char>)
    requires
        forall|i: int| 0 <= i < s.len() ==> is_digit(#[trigger] s[i]),
    ensures
        dec_val(s) >= 0,
    decreases s.len(),
{
    if s.len() > 0 {
        assert(forall|i: int|
            0 <= i < s.drop_last().len() ==> is_digit(#[trigger] s.drop_last()[i]));
        lemma_dec_val_nonneg(s.drop_last());
    }
}

/// The ascii-lowercase form of a character.
fn lower_char_exec(c: char) -> (r: char)
    ensures
        r == lower_char(c),
{
    match c {
        'A' => 'a',
        'B' => 'b',
        'C' => 'c',
        'D' => 'd',
        'E' => 'e',
        'F' => 'f',
        'G' => 'g',
        'H' => 'h',
        'I' => 'i',
        'J' => 'j',
        'K' => 'k',
        'L' => 'l',
        'M' => 'm',
        'N' => 'n',
        'O' => 'o',
        'P' => 'p',
        'Q' => 'q',
        'R' => 'r',
        'S' => 's',
        'T' => 't',
        'U' => 'u',
        'V' => 'v',
        'W' => 'w',
        'X' => 'x',
        'Y' => 'y',
        'Z' => 'z',
        _ => c,
    }
}

/// The text with every ascii uppercase letter lowered.
fn lower_vec(t: &Vec<char>) -> (r: Vec<char>)
    ensures
        r@ == spec_lower(t@),
{
    let n = t.len();
    let mut r: Vec<char> = Vec::new();
    let mut i: usize = 0;
    while i < n
        invariant
            i <= n,
            n == t@.len(),
            r@.len() == i,
            forall|k: int| 0 <= k < i ==> r@[k] == lower_char(#[trigger] t@[k]),
        decreases n - i,
    {
        r.push(lower_char_exec(t[i]));
        i += 1;
    }
    proof {
        assert(r@ =~= spec_lower(t@));
    }
    r
}

/// Whether a character is ascii whitespace.
fn is_space_exec(c: char) -> (r: bool)
    ensures
        r == is_space_char(c),
{
    c == ' ' || c == '\t' || c == '\r' || c == '\n'
}

/// The bounds of `t[from..to]` with whitespace trimmed from both ends.
fn trim_bounds(t: &Vec<char>, from: usize, to: usize) -> (r: (usize, usize))
    requires
        from <= to <= t@.len(),
    ensures
        from <= r.0 <= r.1 <= to,
        t@.subrange(r.0 as int, r.1 as int) == spec_trim(t@.subrange(from as int, to as int)),
{
    let mut a = from;
    while a < to && is_space_exec(t[a])
        invariant
            from <= a <= to <= t@.len(),
            trim_front(t@.subrange(from as int, to as int)) == trim_front(
                t@.subrange(a as int, to as int),
            ),
        decreases to - a,
    {
        proof {
            let s = t@.subrange(a as int, to as int);
            assert(s[0] == t@[a as int]);
            assert(s.skip(1) =~= t@.subrange(a + 1, to as int));
        }
        a += 1;
    }
    proof {
        let s = t@.subrange(a as int, to as int);
        if a < to {
            assert(s[0] == t@[a as int]);
        }
        assert(trim_front(s) == s);
    }
    let mut b = to;
    while b > a && is_space_exec(t[b - 1])
        invariant
            a <= b <= to,
            a <= to <= t@.len(),
            trim_back(t@.subrange(a as int, to as int)) == trim_back(
                t@.subrange(a as int, b as int),
            ),
        decreases b,
    {
        proof {
            let s = t@.subrange(a as int, b as int);
            assert(s.last() == t@[b - 1]);
            assert(s.drop_last() =~= t@.subrange(a as int, b - 1));
        }
        b -= 1;
    }
    proof {
        let s = t@.subrange(a as int, b as int);
        if b > a {
            assert(s.last() == t@[b - 1]);
        }
        assert(trim_back(s) == s);
        assert(spec_trim(t@.subrange(from as int, to as int)) == s);
    }
    (a, b)
}

/// The value of one hex digit.
fn hex_digit_val(c: char) -> (v: u32)
    requires
        is_hex_digit(c),
    ensures
        v == hex_val(c),
{
    let u = c as u32;
    if u >= 97 {
        u - 87
    } else if u >= 65 {
        u - 55
    } else {
        u - 48
    }
}

/// Whether a character is an ascii hex digit.
fn is_hex_exec(c: char) -> (r: bool)
    ensures
        r == is_hex_digit(c),
{
    let u = c as u32;
    (48 <= u && u <= 57) || (65 <= u && u <= 70) || (97 <= u && u <= 102)
}

/// The character-vector core of [`parse_color_hex`].
#[verifier::rlimit(100)]
#[verifier::spinoff_prover]
fn parse_hex_vec(t: &Vec<char>) -> (r: Result<RGBA, ColorParseErr>)
    ensures
        r == spec_parse_hex(t@),
{
    let n = t.len();
    let off: usize = if n > 0 && t[0] == '#' {
        1
    } else {
        0
    };
    let e = find_char_from(t, ' ', off);
    let ghost no_hash = if off == 1 {
        t@.skip(1)
    } else {
        t@
    };
    let ghost base = hex_base(t@);
    proof {
        if off == 0 {
            assert(t@.skip(0) =~= t@);
        }
        assert(find_off(no_hash, ' ') == e - off);
        assert(base =~= t@.subrange(off as int, e as int));
    }
    let mut i = off;
    let mut ok = true;
    while i < e
        invariant
            off <= i <= e <= t@.len(),
            base == t@.subrange(off as int, e as int),
            ok == (forall|k: int| 0 <= k < i - off ==> is_hex_digit(#[trigger] base[k])),
        decreases e - i,
    {
        proof {
            assert(base[i - off] == t@[i as int]);
        }
        if !is_hex_exec(t[i]) {
            ok = false;
        }
        i += 1;
    }
    proof {
        assert(ok == (forall|k: int| 0 <= k < base.len() ==> is_hex_digit(#[trigger] base[k])));
    }
    if !ok {
        proof {
            assert(!(forall|k: int| 0 <= k < base.len() ==> is_hex_digit(#[trigger] base[k])));
            assert(spec_parse_hex(t@) is Err);
            assert(spec_parse_hex(t@) == Err::<RGBA, ColorParseErr>(ColorParseErr::NonHexDigit));
        }
        return Err(ColorParseErr::NonHexDigit);
    }
    let len = e - off;
    proof {
        assert(forall|k: int| 0 <= k < base.len() ==> is_hex_digit(#[trigger] base[k]));
        assert(forall|k: int| 0 <= k < base.len() ==> base[k] == t@[off + k]);
    }
    if len == 3 {
        let r0 = hex_digit_val(t[off]) * 17;
        let g0 = hex_digit_val(t[off + 1]) * 17;
        let b0 = hex_digit_val(t[off + 2]) * 17;
        Ok(RGBA(r0 as u8, g0 as u8, b0 as u8, 255))
    } else if len == 4 {
        let r0 = hex_digit_val(t[off]) * 17;
        let g0 = hex_digit_val(t[off + 1]) * 17;
        let b0 = hex_digit_val(t[off + 2]) * 17;
        let a0 = hex_digit_val(t[off + 3]) * 17;
        Ok(RGBA(r0 as u8, g0 as u8, b0 as u8, a0 as u8))
    } else if len == 6 {
        let r0 = hex_digit_val(t[off]) * 16 + hex_digit_val(t[off + 1]);
        let g0 = hex_digit_val(t[off + 2]) * 16 + hex_digit_val(t[off + 3]);
        let b0 = hex_digit_val(t[off + 4]) * 16 + hex_digit_val(t[off + 5]);
        Ok(RGBA(r0 as u8, g0 as u8, b0 as u8, 255))
    } else if len == 8 {
        let r0 = hex_digit_val(t[off]) * 16 + hex_digit_val(t[off + 1]);
        let g0 = hex_digit_val(t[off + 2]) * 16 + hex_digit_val(t[off + 3]);
        let b0 = hex_digit_val(t[off + 4]) * 16 + hex_digit_val(t[off + 5]);
        let a0 = hex_digit_val(t[off + 6]) * 16 + hex_digit_val(t[off + 7]);
        Ok(RGBA(r0 as u8, g0 as u8, b0 as u8, a0 as u8))
    } else {
        Err(ColorParseErr::WrongHexLen)
    }
}

/// Parses one trimmed component of `t[from..to]` as a decimal byte.
fn parse_component(t: &Vec<char>, from: usize, to: usize) -> (r: Option<u8>)
    requires
        from <= to <= t@.len(),
    ensures
        ({
            let s = t@.subrange(from as int, to as int);
            &&& (r is Some) == valid_component(s)
            &&& r matches Some(v) ==> v == dec_val(s)
        }),
{
    let ghost s = t@.subrange(from as int, to as int);
    if to == from {
        return None;
    }
    let mut i = from;
    while i < to
        invariant
            from <= i <= to <= t@.len(),
            s == t@.subrange(from as int, to as int),
            forall|k: int| 0 <= k < i - from ==> is_digit(#[trigger] s[k]),
        decreases to - i,
    {
        let u = t[i] as u32;
        if !(48 <= u && u <= 57) {
            proof {
                assert(s[i - from] == t@[i as int]);
            }
            return None;
        }
        proof {
            assert(s[i - from] == t@[i as int]);
        }
        i += 1;
    }
    proof {
        assert(forall|k: int| 0 <= k < s.len() ==> is_digit(#[trigger] s[k]));
    }
    let mut v: u32 = 0;
    let mut j = from;
    while j < to
        invariant
            from <= j <= to <= t@.len(),
            s == t@.subrange(from as int, to as int),
            forall|k: int| 0 <= k < s.len() ==> is_digit(#[trigger] s[k]),
            v == dec_val(s.take(j - from)),
            v <= 255,
        decreases to - j,
    {
        proof {
            assert(s[j - from] == t@[j as int]);
            assert(is_digit(t@[j as int]));
        }
        let d = t[j] as u32 - 48;
        v = v * 10 + d;
        proof {
            assert(s.take(j - from + 1).drop_last() =~= s.take(j - from));
            assert(s.take(j - from + 1).last() == s[j - from]);
        }
        j += 1;
        if v > 255 {
            proof {
                lemma_dec_val_prefix(s, j - from);
            }
            return None;
        }
    }
    proof {
        assert(s.take(to - from) =~= s);
    }
    Some(v as u8)
}

/// The character-vector core of [`parse_color_rgb`].
#[verifier::rlimit(100)]
#[verifier::spinoff_prover]
fn parse_rgb_vec(t: &Vec<char>) -> (r: Result<RGBA, ColorParseErr>)
    ensures
        r == spec_parse_rgb(t@),
{
    let n = t.len();
    let p = find_char_from(t, '(', 0);
    let s_start: usize = if p < n {
        p + 1
    } else {
        0
    };
    let ghost s1 = if p < n {
        t@.skip(p + 1)
    } else {
        t@
    };
    let e = find_char_from(t, ')', s_start);
    let ghost body = s1.take(spec_min(find_off(s1, ')') as int, s1.len() as int));
    proof {
        assert(t@.skip(0) =~= t@);
        assert(s1 =~= t@.skip(s_start as int));
        assert(find_off(s1, ')') == e - s_start);
        assert(body =~= t@.subrange(s_start as int, e as int));
    }
    let ghost parts = split_commas(body);
    let ghost comps = rgb_components(t@);
    proof {
        assert(comps.len() == parts.len());
        lemma_split_commas_len(body);
    }
    let mut vals: Vec<u8> = Vec::new();
    let mut all_ok = true;
    let mut pos = s_start;
    let ghost mut done: int = 0;
    proof {
        assert(body.skip(0) =~= body);
    }
    loop
        invariant
            s_start <= pos <= e <= t@.len(),
            body == t@.subrange(s_start as int, e as int),
            parts == split_commas(body),
            comps == rgb_components(t@),
            comps.len() == parts.len(),
            forall|k: int| 0 <= k < parts.len() ==> #[trigger] comps[k] == spec_trim(parts[k]),
            0 <= done < parts.len(),
            parts.len() <= body.len() + 1,
            body.len() <= t@.len(),
            split_commas(body.skip(pos - s_start)) == parts.skip(done),
            vals@.len() == done,
            all_ok <==> (forall|k: int| 0 <= k < done ==> valid_component(#[trigger] comps[k])),
            all_ok ==> forall|k: int|
                0 <= k < done ==> vals@[k] == dec_val(#[trigger] comps[k]),
        decreases e - pos,
    {
        let ghost rem = body.skip(pos - s_start);
        let c = find_char_from(t, ',', pos);
        let seg_end: usize = if c < e {
            c
        } else {
            e
        };
        proof {
            lemma_find_off(rem, ',');
            if c < e {
                assert(rem[c - pos] == ',');
                assert forall|k: int| 0 <= k < c - pos implies rem[k] != ',' by {
                    assert(rem[k] == t@[pos + k]);
                }
                assert(find_off(rem, ',') == c - pos);
            } else {
                assert forall|k: int| 0 <= k < rem.len() implies rem[k] != ',' by {
                    assert(rem[k] == t@[pos + k]);
                }
                assert(find_off(rem, ',') == rem.len());
            }
            assert(parts.skip(done)[0] == rem.take(
                spec_min(find_off(rem, ',') as int, rem.len() as int),
            ));
            assert(parts[done] =~= t@.subrange(pos as int, seg_end as int));
        }
        let tb = trim_bounds(t, pos, seg_end);
        proof {
            assert(comps[done] == t@.subrange(tb.0 as int, tb.1 as int));
        }
        match parse_component(t, tb.0, tb.1) {
            Some(v) => {
                vals.push(v);
            },
            None => {
                vals.push(0);
                all_ok = false;
            },
        }
        proof {
            done = done + 1;
        }
        if c >= e {
            // Last component reached.
            proof {
                assert(split_commas(rem).len() == 1);
                assert(parts.len() == done);
            }
            let count = vals.len();
            if count != 3 && count != 4 {
                return Err(ColorParseErr::WrongRgbLen);
            }
            if !all_ok {
                return Err(ColorParseErr::NonAsciiDigit);
            }
            if count == 3 {
                return Ok(RGBA(vals[0], vals[1], vals[2], 255));
            }
            return Ok(RGBA(vals[0], vals[1], vals[2], vals[3]));
        }
        let ghost oldpos = pos;
        pos = c + 1;
        proof {
            assert(rem.skip((c - oldpos) + 1) =~= body.skip(pos - s_start));
            assert(split_commas(rem).skip(1) =~= split_commas(body.skip(pos - s_start)));
            assert(parts.skip(done) =~= split_commas(body.skip(pos - s_start)));
            lemma_split_commas_len(body.skip(pos - s_start));
        }
    }
}

/// Parses an RGBA color from a hex string.
///
/// The text can start with or without `#` (`#fff` or `FFF`), the digits end
/// at the first space, and the forms `RGB`, `RGBA`, `RRGGBB` and `RRGGBBAA`
/// are accepted, every digit a hex digit `[0-9A-Fa-f]`.
pub fn parse_color_hex(text: &str) -> (r: Result<RGBA, ColorParseErr>)
    ensures
        r == spec_parse_hex(text@),
{
    let cs = chars_of(text);
    parse_hex_vec(&cs)
}

/// Parses an RGBA color from comma-separated decimal components.
///
/// Alpha is optional; the text may start with `rgb(`, `rgba(` or `(` and
/// may end with a closing paren. Exactly 3 or 4 components are required,
/// each a decimal value from 0 to 255.
pub fn parse_color_rgb(text: &str) -> (r: Result<RGBA, ColorParseErr>)
    ensures
        r == spec_parse_rgb(text@),
{
    let cs = chars_of(text);
    parse_rgb_vec(&cs)
}

/// The character-vector core of [`parse_color`].
fn parse_color_vec(cs: &Vec<char>) -> (r: Result<RGBA, ColorParseErr>)
    ensures
        r == spec_parse_color(cs@),
{
    let tb = trim_bounds(cs, 0, cs.len());
    proof {
        assert(cs@.subrange(0, cs@.len() as int) =~= cs@);
    }
    let trimmed = subvec(cs, tb.0, tb.1);
    let name = lower_vec(&trimmed);
    let n = name.len();
    if n > 0 && name[0] == '#' {
        return parse_hex_vec(&name);
    }
    let starts_paren = n >= 1 && name[0] == '(';
    let starts_rgb = n >= 4 && name[0] == 'r' && name[1] == 'g' && name[2] == 'b' && name[3]
        == '(';
    let starts_rgba = n >= 5 && name[0] == 'r' && name[1] == 'g' && name[2] == 'b' && name[3]
        == 'a' && name[4] == '(';
    let has_comma = find_char_from(&name, ',', 0) < n;
    proof {
        let nm = spec_lower(spec_trim(cs@));
        assert(name@ == nm);
        lemma_prefix(nm, seq!['(']);
        lemma_prefix(nm, seq!['r', 'g', 'b', '(']);
        lemma_prefix(nm, seq!['r', 'g', 'b', 'a', '(']);
        assert(starts_paren == has_prefix(nm, seq!['(']));
        assert(starts_rgb == has_prefix(nm, seq!['r', 'g', 'b', '(']));
        assert(starts_rgba == has_prefix(nm, seq!['r', 'g', 'b', 'a', '(']));
        assert(name@.skip(0) =~= name@);
        assert(has_comma == (find_off(nm, ',') < nm.len()));
    }
    if starts_paren || starts_rgb || starts_rgba || has_comma {
        parse_rgb_vec(&name)
    } else {
        parse_hex_vec(&name)
    }
}

/// Parses an RGBA color written as either hex digits or comma-separated
/// decimal components: the text is trimmed and lowercased, and the leading
/// characters decide which notation applies.
pub fn parse_color(name: &str) -> (r: Result<RGBA, ColorParseErr>)
    ensures
        r == spec_parse_color(name@),
{
    let cs = chars_of(name);
    parse_color_vec(&cs)
}

/// The color a name resolves to, or `None` when it parses in neither
/// notation.
pub fn to_rgba(name: &str) -> (r: Option<RGBA>)
    ensures
        r == spec_to_rgba(name@),
{
    match parse_color(name) {
        Err(_) => None,
        Ok(c) => Some(c),
    }
}

/// The name-to-color function a printer resolves markup colors with.
#[derive(Copy, Clone, Debug, PartialEq, Eq, Structural)]
pub enum ColorResolver {
    /// Resolve names by parsing them as hex or decimal color notation.
    Parse,
    /// Resolve every name to one fixed result.
    Fixed(Option<RGBA>),
}

impl ColorResolver {
    /// The color this resolver gives a name.
    pub open spec fn spec_resolve(self, name: Seq<char>) -> Option<RGBA> {
        match self {
            ColorResolver::Parse => spec_to_rgba(name),
            ColorResolver::Fixed(c) => c,
        }
    }

    /// Resolves a color name.
    pub fn resolve(&self, name: &Vec<char>) -> (r: Option<RGBA>)
        ensures
            r == self.spec_resolve(name@),
    {
        match self {
            ColorResolver::Parse => match parse_color_vec(name) {
                Err(_) => None,
                Ok(c) => Some(c),
            },
            ColorResolver::Fixed(c) => *c,
        }
    }
}

} // verus!
