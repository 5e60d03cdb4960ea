//! Character-level helpers over strings.
//!
//! A string is viewed as the sequence of its characters.  The functions here
//! move between `String` and `Vec<char>` and state what they compute over
//! those sequences.

use vstd::prelude::*;
use vstd::std_specs::iter::IteratorSpec;

verus! {

/// `String::push` appends one character.
pub assume_specification[ String::push ](s: &mut String, c: char)
    ensures
        final(s)@ == old(s)@.push(c),
;

/// `String::push_str` appends the characters of a string slice.
pub assume_specification[ String::push_str ](s: &mut String, t: &str)
    ensures
        final(s)@ == old(s)@ + t@,
;

/// `str == str` compares the two character sequences.
pub assume_specification[ <str as PartialEq>::eq ](a: &str, b: &str) -> (r: bool)
    ensures
        r == (a@ == b@),
;

/// Whether two strings hold the same characters.
pub fn str_eq(a: &str, b: &str) -> (r: bool)
    ensures
        r == (a@ == b@),
{
    a.eq(b)
}

/// The characters of `s`, in order.
pub fn chars_of(s: &str) -> (v: Vec<char>)
    ensures
        v@ == s@,
{
    let mut v: Vec<char> = Vec::new();
    for c in it: s.chars()
        invariant
            it.seq() == s@,
            v@ == it.seq().take(it.index()),
    {
        v.push(c);
    }
    v
}

/// The string made of the characters `v[from..to]`.
pub(crate) fn string_of_range(v: &Vec<char>, from: usize, to: usize) -> (s: String)
    requires
        from <= to <= v.len(),
    ensures
        s@ == v@.subrange(from as int, to as int),
{
    let mut s = String::new();
    let mut i: usize = from;
    while i < to
        invariant
            from <= i <= to <= v.len(),
            s@ == v@.subrange(from as int, i as int),
        decreases to - i,
    {
        s.push(v[i]);
        i += 1;
    }
    s
}

/// The string made of the characters of `v`.
pub fn string_of(v: &Vec<char>) -> (s: String)
    ensures
        s@ == v@,
{
    let s = string_of_range(v, 0, v.len());
    assert(v@.subrange(0, v.len() as int) =~= v@);
    s
}

/// Appends the characters of `tail` to `v`.
pub fn push_str_chars(v: &mut Vec<char>, tail: &str)
    ensures
        final(v)@ == old(v)@ + tail@,
{
    let mut t = chars_of(tail);
    v.append(&mut t);
}

/// Appends the characters of `tail` to `v`.
pub fn push_chars(v: &mut Vec<char>, tail: &Vec<char>)
    ensures
        final(v)@ == old(v)@ + tail@,
{
    let mut i: usize = 0;
    while i < tail.len()
        invariant
            i <= tail.len(),
            v@ == old(v)@ + tail@.take(i as int),
        decreases tail.len() - i,
    {
        v.push(tail[i]);
        i += 1;
    }
    assert(tail@.take(tail.len() as int) =~= tail@);
}

/// The concatenation of two strings.
pub fn join2(a: &str, b: &str) -> (s: String)
    ensures
        s@ == a@ + b@,
{
    let mut s = a.to_string();
    s.push_str(b);
    s
}

/// The string `text` without the ending `suffix`, or `None` where `text`
/// does not end with it.
pub fn strip_suffix(text: &str, suffix: &str) -> (r: Option<String>)
    ensures
        match r {
            Some(s) => suffix@.is_suffix_of(text@) && s@ == text@.subrange(
                0,
                text@.len() - suffix@.len(),
            ),
            None => !suffix@.is_suffix_of(text@),
        },
{
    let t = chars_of(text);
    let x = chars_of(suffix);
    if x.len() > t.len() {
        return None;
    }
    let base: usize = t.len() - x.len();
    let mut i: usize = 0;
    while i < x.len()
        invariant
            i <= x.len() <= t.len(),
            base == t.len() - x.len(),
            t@ == text@,
            x@ == suffix@,
            forall|k: int| 0 <= k < i ==> x@[k] == t@[base + k],
        decreases x.len() - i,
    {
        if x[i] != t[base + i] {
            assert(x@[i as int] != t@.subrange(t@.len() - x@.len(), t@.len() as int)[i as int]);
            return None;
        }
        i += 1;
    }
    assert(x@ =~= t@.subrange(t@.len() - x@.len(), t@.len() as int));
    Some(string_of_range(&t, 0, base))
}

/// The string `text` without the start `prefix`, or `None` where `text`
/// does not start with it.
pub fn strip_prefix(text: &str, prefix: &str) -> (r: Option<String>)
    ensures
        match r {
            Some(s) => prefix@.is_prefix_of(text@) && s@ == text@.subrange(
                prefix@.len() as int,
                text@.len() as int,
            ),
            None => !prefix@.is_prefix_of(text@),
        },
{
    let t = chars_of(text);
    let x = chars_of(prefix);
    if x.len() > t.len() {
        return None;
    }
    let mut i: usize = 0;
    while i < x.len()
        invariant
            i <= x.len() <= t.len(),
            t@ == text@,
            x@ == prefix@,
            forall|k: int| 0 <= k < i ==> x@[k] == t@[k],
        decreases x.len() - i,
    {
        if x[i] != t[i] {
            assert(x@[i as int] != t@.subrange(0, x@.len() as int)[i as int]);
            return None;
        }
        i += 1;
    }
    assert(x@ =~= t@.subrange(0, x@.len() as int));
    Some(string_of_range(&t, x.len(), t.len()))
}

/// Whether a carriage return stands right before a line feed somewhere.
pub open spec fn has_crlf(s: Seq<char>) -> bool {
    exists|i: int| 0 <= i < s.len() - 1 && s[i] == '\r' && #[trigger] s[i + 1] == '\n'
}

/// Whether the text holds a carriage return right before a line feed.
pub fn contains_crlf(text: &str) -> (r: bool)
    ensures
        r == has_crlf(text@),
{
    let t = chars_of(text);
    let mut i: usize = 0;
    while i < t.len() && t.len() - i > 1
        invariant
            t@ == text@,
            forall|k: int|
                0 <= k < i && k < t.len() - 1 ==> !(t@[k] == '\r' && #[trigger] t@[k + 1] == '\n'),
        decreases t.len() - i,
    {
        if t[i] == '\r' && t[i + 1] == '\n' {
            return true;
        }
        i += 1;
    }
    false
}

} // verus!
