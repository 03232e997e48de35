//! Executable helpers over character vectors: conversion from `&str`,
//! sub-vector extraction, and scans for a character or a tag opener.

use crate::model::{find_off, find_tag, lemma_find_off, lemma_find_tag};
use vstd::prelude::*;
use vstd::string::StrSliceExecFns;

verus! {

/// The characters of `s`, in order.
pub fn chars_of(s: &str) -> (r: Vec<char>)
    ensures
        r@ == s@,
        s@.len() <= usize::MAX,
{
    let n = s.unicode_len();
    let mut r: Vec<char> = Vec::new();
    let mut i: usize = 0;
    while i < n
        invariant
            i <= n,
            n == s@.len(),
            r@ == s@.take(i as int),
        decreases n - i,
    {
        r.push(s.get_char(i));
        i += 1;
        proof {
            assert(r@ =~= s@.take(i as int));
        }
    }
    proof {
        assert(r@ =~= s@);
    }
    r
}

/// The characters of `v` from `from` (inclusive) to `to` (exclusive).
pub fn subvec(v: &Vec<char>, from: usize, to: usize) -> (r: Vec<char>)
    requires
        from <= to <= v@.len(),
    ensures
        r@ == v@.subrange(from as int, to as int),
{
    let mut r: Vec<char> = Vec::new();
    let mut i: usize = from;
    while i < to
        invariant
            from <= i <= to <= v@.len(),
            r@ == v@.subrange(from as int, i as int),
        decreases to - i,
    {
        r.push(v[i]);
        i += 1;
        proof {
            assert(r@ =~= v@.subrange(from as int, i as int));
        }
    }
    r
}

/// A copy of `v`.
pub fn copy_chars(v: &Vec<char>) -> (r: Vec<char>)
    ensures
        r@ == v@,
{
    let r = subvec(v, 0, v.len());
    proof {
        assert(v@.subrange(0, v@.len() as int) =~= v@);
    }
    r
}

/// The first position at or after `from` where `c` occurs in `v`, or the
/// length of `v` when it does not occur there.
pub fn find_char_from(v: &Vec<char>, c: char, from: usize) -> (r: usize)
    requires
        from <= v@.len(),
    ensures
        r == from + find_off(v@.skip(from as int), c),
        from <= r <= v@.len(),
        forall|k: int| from <= k < r ==> v@[k] != c,
        r < v@.len() ==> v@[r as int] == c,
{
    let n = v.len();
    let mut i: usize = from;
    while i < n
        invariant
            from <= i <= n,
            n == v@.len(),
            find_off(v@.skip(from as int), c) == (i - from) + find_off(v@.skip(i as int), c),
            forall|k: int| from <= k < i ==> v@[k] != c,
        decreases n - i,
    {
        if v[i] == c {
            proof {
                assert(v@.skip(i as int)[0] == c);
                lemma_find_off(v@.skip(from as int), c);
            }
            return i;
        }
        proof {
            assert(v@.skip(i as int).skip(1) =~= v@.skip(i + 1));
            assert(v@.skip(i as int)[0] != c);
        }
        i += 1;
    }
    proof {
        assert(v@.skip(n as int) =~= Seq::<char>::empty());
        lemma_find_off(v@.skip(from as int), c);
    }
    n
}

/// The first position at or after `from` where the tag opener `#[` begins
/// in `v`, or the length of `v` when no tag opens there.
pub fn find_tag_from(v: &Vec<char>, from: usize) -> (r: usize)
    requires
        from <= v@.len(),
    ensures
        r == from + find_tag(v@.skip(from as int)),
        from <= r <= v@.len(),
        r < v@.len() ==> r + 2 <= v@.len() && v@[r as int] == '#' && v@[r + 1 as int] == '[',
{
    let n = v.len();
    let mut i: usize = from;
    loop
        invariant
            from <= i <= n,
            n == v@.len(),
            find_tag(v@.skip(from as int)) == (i - from) + find_tag(v@.skip(i as int)),
        decreases n - i,
    {
        if i >= n || i + 1 >= n {
            proof {
                assert(v@.skip(n as int) =~= Seq::<char>::empty());
                lemma_find_tag(v@.skip(from as int));
                lemma_find_tag(v@.skip(i as int));
            }
            return n;
        }
        if v[i] == '#' && v[i + 1] == '[' {
            proof {
                assert(v@.skip(i as int)[0] == '#' && v@.skip(i as int)[1] == '[');
            }
            return i;
        }
        proof {
            assert(v@.skip(i as int).skip(1) =~= v@.skip(i + 1));
        }
        i += 1;
    }
}

} // verus!
