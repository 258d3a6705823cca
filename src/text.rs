//! Character-level helpers shared by the tokenizer and the line classifiers.
use vstd::prelude::*;
use vstd::string::*;

verus! {

/// The characters with Unicode's `White_Space` property.
pub open spec fn white_space(c: char) -> bool {
    let u = c as u32;
    (0x9 <= u && u <= 0xd) || u == 0x20 || u == 0x85 || u == 0xa0 || u == 0x1680 || (0x2000 <= u
        && u <= 0x200a) || u == 0x2028 || u == 0x2029 || u == 0x202f || u == 0x205f || u == 0x3000
}

/// Whether `c` is alphabetic or numeric in Unicode's sense, as `char::is_alphanumeric` decides.
pub uninterp spec fn alphanumeric(c: char) -> bool;

/// Whether `c` has Unicode's `White_Space` property, as `char::is_whitespace` decides.
pub fn is_whitespace(c: char) -> (r: bool)
    ensures
        r == white_space(c),
{
    let u = c as u32;
    (0x9 <= u && u <= 0xd) || u == 0x20 || u == 0x85 || u == 0xa0 || u == 0x1680 || (0x2000 <= u
        && u <= 0x200a) || u == 0x2028 || u == 0x2029 || u == 0x202f || u == 0x205f || u == 0x3000
}

/// Relies on `char::is_alphanumeric`: its answer depends on the character alone.
#[verifier::external_body]
pub(crate) fn is_alphanumeric(c: char) -> (r: bool)
    ensures
        r == alphanumeric(c),
{
    c.is_alphanumeric()
}

/// Relies on `String::push`: appends one character at the end.
#[verifier::external_body]
pub(crate) fn push_char(s: &mut String, c: char)
    ensures
        final(s)@ == old(s)@.push(c),
{
    s.push(c)
}

/// `s` begins with `p`.
pub open spec fn starts_with(s: Seq<char>, p: Seq<char>) -> bool {
    p.len() <= s.len() && s.take(p.len() as int) == p
}

/// Number of newline characters in `s`.
pub open spec fn nl_count(s: Seq<char>) -> nat
    decreases s.len(),
{
    if s.len() == 0 {
        0
    } else {
        nl_count(s.drop_last()) + if s.last() == '\n' {
            1nat
        } else {
            0nat
        }
    }
}

/// The characters of a string slice, in order.
pub fn to_chars(s: &str) -> (v: Vec<char>)
    ensures
        v@ == s@,
{
    let mut v: Vec<char> = Vec::new();
    for c in it: s.chars()
        invariant
            v@ == it.seq().take(it.index() as int),
    {
        v.push(c);
    }
    v
}

/// Whether `t[pos..]` begins with the characters of `s`.
pub fn starts_with_at(t: &Vec<char>, pos: usize, s: &str) -> (r: bool)
    requires
        pos <= t.len(),
    ensures
        r == starts_with(t@.skip(pos as int), s@),
{
    let n = s.unicode_len();
    if n > t.len() - pos {
        return false;
    }
    let mut k: usize = 0;
    while k < n
        invariant
            k <= n,
            n == s@.len(),
            pos + n <= t.len(),
            forall|j: int| 0 <= j < k ==> #[trigger] t@.skip(pos as int)[j] == s@[j],
        decreases n - k,
    {
        if t[pos + k] != s.get_char(k) {
            assert(t@.skip(pos as int).take(n as int)[k as int] != s@[k as int]);
            return false;
        }
        k = k + 1;
    }
    assert(t@.skip(pos as int).take(n as int) =~= s@);
    true
}

/// Whether `t[from..to]` is exactly `k[ks..ke]`.
pub fn range_equals(t: &Vec<char>, from: usize, to: usize, k: &Vec<char>, ks: usize, ke: usize) -> (r: bool)
    requires
        from <= to <= t.len(),
        ks <= ke <= k.len(),
    ensures
        r == (t@.subrange(from as int, to as int) == k@.subrange(ks as int, ke as int)),
{
    let n = ke - ks;
    if n != to - from {
        assert(t@.subrange(from as int, to as int).len() != k@.subrange(ks as int, ke as int).len());
        return false;
    }
    let mut j: usize = 0;
    while j < n
        invariant
            j <= n,
            n == ke - ks,
            from + n == to,
            ks <= ke <= k.len(),
            to <= t.len(),
            forall|i: int|
                0 <= i < j ==> #[trigger] t@.subrange(from as int, to as int)[i] == k@.subrange(
                    ks as int,
                    ke as int,
                )[i],
        decreases n - j,
    {
        if t[from + j] != k[ks + j] {
            assert(t@.subrange(from as int, to as int)[j as int] != k@.subrange(
                ks as int,
                ke as int,
            )[j as int]);
            return false;
        }
        j = j + 1;
    }
    assert(t@.subrange(from as int, to as int) =~= k@.subrange(ks as int, ke as int));
    true
}

/// Whether `s` is exactly the single character `c`.
pub fn is_single(s: &str, c: char) -> (r: bool)
    ensures
        r == (s@ == seq![c]),
{
    if s.unicode_len() == 1 {
        let d = s.get_char(0);
        if d == c {
            assert(s@ =~= seq![c]);
            true
        } else {
            false
        }
    } else {
        false
    }
}

/// Whether the character `c` occurs in `s`.
pub fn str_contains(s: &str, c: char) -> (r: bool)
    ensures
        r == s@.contains(c),
{
    let n = s.unicode_len();
    let mut k: usize = 0;
    while k < n
        invariant
            k <= n,
            n == s@.len(),
            forall|j: int| 0 <= j < k ==> s@[j] != c,
        decreases n - k,
    {
        if s.get_char(k) == c {
            return true;
        }
        k = k + 1;
    }
    false
}

} // verus!
