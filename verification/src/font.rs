//! The cell-size convention of font file names: a name such as
//! `name_8x8.png` carries the character cell width and height between its
//! last underscore and its last dot.

use crate::chars::{chars_of, find_char_from};
use crate::model::find_off;
use crate::rgba::{dec_val, is_digit};
use vstd::math::min as spec_min;
use vstd::prelude::*;

verus! {

/// The index of the last occurrence of `c` in `t`, or `None` if it does
/// not occur.
pub open spec fn rfind(t: Seq<char>, c: char) -> Option<int>
    decreases t.len(),
{
    if t.len() == 0 {
        None
    } else if t.last() == c {
        Some(t.len() - 1)
    } else {
        rfind(t.drop_last(), c)
    }
}

pub proof fn lemma_rfind(t: Seq<char>, c: char)
    ensures
        match rfind(t, c) {
            Some(j) => 0 <= j < t.len() && t[j] == c && forall|k: int| j < k < t.len() ==> t[k]
                != c,
            None => forall|k: int| 0 <= k < t.len() ==> t[k] != c,
        },
    decreases t.len(),
{
    if t.len() > 0 && t.last() != c {
        lemma_rfind(t.drop_last(), c);
        match rfind(t, c) {
            Some(j) => {
                assert(t.drop_last()[j] == t[j]);
                assert forall|k: int| j < k < t.len() implies t[k] != c by {
                    if k < t.len() - 1 {
                        assert(t.drop_last()[k] == t[k]);
                    }
                }
            },
            None => {
                assert forall|k: int| 0 <= k < t.len() implies t[k] != c by {
                    if k < t.len() - 1 {
                        assert(t.drop_last()[k] == t[k]);
                    }
                }
            },
        }
    }
}

/// Whether a digit string is a valid decimal `u32`: nonempty, digits only,
/// within range.
pub open spec fn valid_u32(t: Seq<char>) -> bool {
    &&& t.len() > 0
    &&& forall|i: int| 0 <= i < t.len() ==> is_digit(#[trigger] t[i])
    &&& dec_val(t) <= 0xFFFF_FFFF
}

/// The cell size in a font file name, measured in characters: the text
/// between the last `_` and the last `.`, split at its `x` separators, read
/// as two decimal numbers. `None` where the name breaks the convention: no
/// underscore or dot, a dot before the underscore, a missing `x`, or a
/// component that is not a `u32`. A name whose underscore or dot stands
/// first gives the zero size.
pub open spec fn spec_parse_char_size(t: Seq<char>) -> Option<(u32, u32)> {
    match (rfind(t, '_'), rfind(t, '.')) {
        (Some(start), Some(end)) => {
            if start == 0 || end == 0 {
                Some((0u32, 0u32))
            } else if start + 1 > end {
                None
            } else {
                let sub = t.subrange(start + 1, end);
                let i = spec_min(find_off(sub, 'x') as int, sub.len() as int);
                if i == sub.len() {
                    None
                } else {
                    let first = sub.take(i);
                    let rest = sub.skip(i + 1);
                    let second = rest.take(spec_min(find_off(rest, 'x') as int, rest.len() as int));
                    if valid_u32(first) && valid_u32(second) {
                        Some(((dec_val(first)) as u32, (dec_val(second)) as u32))
                    } else {
                        None
                    }
                }
            }
        },
        _ => None,
    }
}

/// The index of the last occurrence of `c` in `v`.
fn find_last_char(v: &Vec<char>, c: char) -> (r: Option<usize>)
    ensures
        crate::model::opt_as_int(r) == rfind(v@, c),
{
    let mut m: usize = v.len();
    proof {
        assert(v@.take(v@.len() as int) =~= v@);
    }
    while m > 0
        invariant
            m <= v@.len(),
            rfind(v@, c) == rfind(v@.take(m as int), c),
        decreases m,
    {
        proof {
            assert(v@.take(m as int).last() == v@[m - 1]);
            assert(v@.take(m as int).drop_last() =~= v@.take(m - 1));
        }
        if v[m - 1] == c {
            return Some(m - 1);
        }
        m -= 1;
    }
    None
}

/// Reads `t[from..to]` as a decimal `u32`.
fn parse_u32_range(t: &Vec<char>, from: usize, to: usize) -> (r: Option<u32>)
    requires
        from <= to <= t@.len(),
    ensures
        ({
            let s = t@.subrange(from as int, to as int);
            &&& (r is Some) == valid_u32(s)
            &&& r matches Some(v) ==> v == dec_val(s)
        }),
{
    let ghost s = t@.subrange(from as int, to as int);
    if to == from {
        return None;
    }
    let mut i = from;
    while i < to
        invariant
            from <= i <= to <= t@.len(),
            s == t@.subrange(from as int, to as int),
            forall|k: int| 0 <= k < i - from ==> is_digit(#[trigger] s[k]),
        decreases to - i,
    {
        let u = t[i] as u32;
        proof {
            assert(s[i - from] == t@[i as int]);
        }
        if !(48 <= u && u <= 57) {
            return None;
        }
        i += 1;
    }
    proof {
        assert(forall|k: int| 0 <= k < s.len() ==> is_digit(#[trigger] s[k]));
    }
    let mut v: u64 = 0;
    let mut j = from;
    while j < to
        invariant
            from <= j <= to <= t@.len(),
            s == t@.subrange(from as int, to as int),
            forall|k: int| 0 <= k < s.len() ==> is_digit(#[trigger] s[k]),
            v == dec_val(s.take(j - from)),
            v <= 0xFFFF_FFFF,
        decreases to - j,
    {
        proof {
            assert(s[j - from] == t@[j as int]);
            assert(is_digit(t@[j as int]));
        }
        let d = (t[j] as u32 - 48) as u64;
        v = v * 10 + d;
        proof {
            assert(s.take(j - from + 1).drop_last() =~= s.take(j - from));
            assert(s.take(j - from + 1).last() == s[j - from]);
        }
        j += 1;
        if v > 0xFFFF_FFFF {
            proof {
                crate::rgba::lemma_dec_val_prefix(s, j - from);
            }
            return None;
        }
    }
    proof {
        assert(s.take(to - from) =~= s);
    }
    Some(v as u32)
}

/// Parses the character cell size out of a font file name such as
/// `name_8x8.png`: the numbers between the last `_` and the last `.`,
/// separated by `x`. Returns `None` where the name does not follow the
/// convention, and the zero size where the underscore or dot stands first.
/// Positions are measured in characters.
#[verifier::rlimit(100)]
#[verifier::spinoff_prover]
pub fn parse_char_size(filepath: &str) -> (r: Option<(u32, u32)>)
    ensures
        r == spec_parse_char_size(filepath@),
{
    let t = chars_of(filepath);
    proof {
        lemma_rfind(t@, '_');
        lemma_rfind(t@, '.');
    }
    let start = match find_last_char(&t, '_') {
        None => {
            return None;
        },
        Some(s) => s,
    };
    let end = match find_last_char(&t, '.') {
        None => {
            return None;
        },
        Some(e) => e,
    };
    proof {
        assert(start < t@.len() && end < t@.len());
    }
    if start == 0 || end == 0 {
        return Some((0, 0));
    }
    if start + 1 > end {
        return None;
    }
    let ghost sub = t@.subrange(start + 1, end as int);
    let x1 = find_char_from(&t, 'x', start + 1);
    proof {
        assert(t@.skip(start + 1).take(end - start - 1) =~= sub);
        crate::model::lemma_find_off(t@.skip(start + 1), 'x');
        crate::model::lemma_find_off(sub, 'x');
        if x1 < end {
            assert(sub[x1 - start - 1] == 'x');
            assert forall|k: int| 0 <= k < x1 - start - 1 implies sub[k] != 'x' by {
                assert(sub[k] == t@[start + 1 + k]);
            }
            assert(find_off(sub, 'x') == x1 - start - 1);
        } else {
            assert forall|k: int| 0 <= k < sub.len() implies sub[k] != 'x' by {
                assert(sub[k] == t@[start + 1 + k]);
            }
            assert(find_off(sub, 'x') == sub.len());
        }
    }
    if x1 >= end {
        return None;
    }
    let ghost rest = sub.skip((x1 - start - 1) + 1);
    let x2 = find_char_from(&t, 'x', x1 + 1);
    let second_end = if x2 < end {
        x2
    } else {
        end
    };
    proof {
        assert(rest =~= t@.subrange(x1 + 1, end as int));
        crate::model::lemma_find_off(rest, 'x');
        if x2 < end {
            assert(rest[x2 - x1 - 1] == 'x');
            assert forall|k: int| 0 <= k < x2 - x1 - 1 implies rest[k] != 'x' by {
                assert(rest[k] == t@[x1 + 1 + k]);
            }
            assert(find_off(rest, 'x') == x2 - x1 - 1);
        } else {
            assert forall|k: int| 0 <= k < rest.len() implies rest[k] != 'x' by {
                assert(rest[k] == t@[x1 + 1 + k]);
            }
            assert(find_off(rest, 'x') == rest.len());
        }
        assert(sub.take(x1 - start - 1) =~= t@.subrange(start + 1, x1 as int));
        assert(rest.take(spec_min(find_off(rest, 'x') as int, rest.len() as int))
            =~= t@.subrange(x1 + 1, second_end as int));
    }
    let w = match parse_u32_range(&t, start + 1, x1) {
        None => {
            return None;
        },
        Some(v) => v,
    };
    let h = match parse_u32_range(&t, x1 + 1, second_end) {
        None => {
            return None;
        },
        Some(v) => v,
    };
    Some((w, h))
}

} // verus!
