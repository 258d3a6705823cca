//! The tree-based classifier: byte spans that a syntax tree marks as not executable, and the
//! lines that hold code outside of them.
use crate::count::{
    lemma_line_const, lemma_nl_step, lemma_values_push, line_of, strictly_increasing, values,
};
use crate::text::{is_whitespace, starts_with, starts_with_at, to_chars, white_space};
use std::ops::Range;
use tree_sitter::Language as Grammar;
use tree_sitter::LanguageError as GrammarError;
use tree_sitter::Parser as TsParser;
use vstd::prelude::*;

verus! {

/// The number of bytes that `c` takes in UTF-8.
pub open spec fn utf8_len(c: char) -> int {
    let u = c as u32;
    if u < 0x80 {
        1
    } else if u < 0x800 {
        2
    } else if u < 0x10000 {
        3
    } else {
        4
    }
}

/// The byte offset, in UTF-8, of the character at position `k` of `t`.
pub open spec fn byte_pos(t: Seq<char>, k: int) -> int
    decreases k,
{
    if k <= 0 || k > t.len() {
        0
    } else {
        byte_pos(t, k - 1) + utf8_len(t[k - 1])
    }
}

/// Some range of `rs` holds byte `b`.
pub open spec fn covered(rs: Seq<Range<usize>>, b: int) -> bool {
    exists|q: int| 0 <= q < rs.len() && (#[trigger] rs[q]).start <= b < rs[q].end
}

/// The numbers, from 1, of the lines of `t` that hold a character that is neither white space
/// nor inside one of the byte ranges `rs`.
pub open spec fn executable_lines(t: Seq<char>, rs: Seq<Range<usize>>) -> Set<int> {
    Set::new(
        |j: int|
            exists|k: int|
                0 <= k < t.len() && line_of(t, k) + 1 == j && !white_space(#[trigger] t[k])
                    && !covered(rs, byte_pos(t, k)),
    )
}

/// The ranges are ordered and do not overlap.
pub open spec fn sorted_disjoint(rs: Seq<Range<usize>>) -> bool {
    &&& forall|q: int| 0 <= q < rs.len() ==> (#[trigger] rs[q]).start <= rs[q].end
    &&& forall|a: int, b: int| 0 <= a < b < rs.len() ==> (#[trigger] rs[a]).end <= (#[trigger] rs[b]).start
}

/// The part of `r` inside `[start, end]`, relative to `start`.
pub open spec fn clip(r: Range<usize>, start: int, end: int) -> Range<usize> {
    Range {
        start: ((if r.start < start {
            start
        } else {
            r.start as int
        }) - start) as usize,
        end: ((if r.end < end {
            r.end as int
        } else {
            end
        }) - start) as usize,
    }
}

/// Scanning the ranges from index `k` against the line `[start, end]`: the clipped ranges that
/// meet the line, and how many ranges end before it. The scan stops at the first range that
/// begins after the line.
pub open spec fn overlap_scan(rs: Seq<Range<usize>>, start: int, end: int, k: int) -> (Seq<Range<usize>>, int)
    decreases rs.len() - k,
{
    if k < 0 || k >= rs.len() {
        (seq![], 0)
    } else if rs[k].end < start {
        let (c, n) = overlap_scan(rs, start, end, k + 1);
        (c, n + 1)
    } else if start <= rs[k].end && rs[k].start <= end {
        let (c, n) = overlap_scan(rs, start, end, k + 1);
        (seq![clip(rs[k], start, end)] + c, n)
    } else {
        (seq![], 0)
    }
}

/// The ranges of `ranges` that meet the line `[start, end]`, clipped to it and made relative to
/// `start`, or `None` when there are none. Either way the ranges that end before the line are
/// dropped from the front of `ranges`.
pub fn has_overlapping_range(start: usize, end: usize, ranges: &mut Vec<Range<usize>>) -> (r: Option<
    Vec<Range<usize>>,
>)
    requires
        start <= end,
    ensures
        ({
            let (c, n) = overlap_scan(old(ranges)@, start as int, end as int, 0);
            &&& c.len() == 0 ==> r is None
            &&& c.len() > 0 ==> (r matches Some(v) && v@ == c)
            &&& 0 <= n <= old(ranges)@.len()
            &&& final(ranges)@ == old(ranges)@.skip(n)
        }),
{
    let ghost rs = ranges@;
    let mut ret_ranges: Vec<Range<usize>> = Vec::new();
    let mut remove_till: usize = 0;
    let mut k: usize = 0;
    let mut stop = false;
    while k < ranges.len() && !stop
        invariant
            rs == ranges@,
            start <= end,
            k <= ranges.len(),
            remove_till <= k,
            !stop ==> ({
                let (c, n) = overlap_scan(rs, start as int, end as int, k as int);
                overlap_scan(rs, start as int, end as int, 0) == (ret_ranges@ + c, remove_till + n)
            }),
            stop ==> overlap_scan(rs, start as int, end as int, 0) == (ret_ranges@, remove_till as int),
        decreases ranges.len() - k,
    {
        let rstart = ranges[k].start;
        let rend = ranges[k].end;
        if rend < start {
            remove_till = remove_till + 1;
        } else if start <= rend && rstart <= end {
            let s = if rstart < start {
                start
            } else {
                rstart
            } - start;
            let e = if rend < end {
                rend
            } else {
                end
            } - start;
            let ghost before = ret_ranges@;
            ret_ranges.push(Range { start: s, end: e });
            assert(ret_ranges@ == before + seq![clip(rs[k as int], start as int, end as int)]);
            assert(overlap_scan(rs, start as int, end as int, k as int).0 == seq![clip(rs[k as int], start as int, end as int)] + overlap_scan(rs, start as int, end as int, k + 1).0);
            assert(ret_ranges@ + overlap_scan(rs, start as int, end as int, k + 1).0 =~= before + overlap_scan(rs, start as int, end as int, k as int).0);
        } else {
            stop = true;
        }
        k = k + 1;
    }
    proof {
        if !stop {
            assert(ret_ranges@ + seq![] =~= ret_ranges@);
        }
    }
    let rest = ranges.split_off(remove_till);
    *ranges = rest;
    if ret_ranges.len() == 0 {
        None
    } else {
        Some(ret_ranges)
    }
}

/// Some range of `rs`, from index `k` on, holds byte `b`.
pub open spec fn covered_from(rs: Seq<Range<usize>>, k: int, b: int) -> bool {
    exists|q: int| k <= q < rs.len() && (#[trigger] rs[q]).start <= b < rs[q].end
}

/// Some range of `cs` holds position `x`.
pub open spec fn clip_covers(cs: Seq<Range<usize>>, x: int) -> bool {
    exists|i: int| 0 <= i < cs.len() && (#[trigger] cs[i]).start <= x < cs[i].end
}

proof fn lemma_scan_drops_none(rs: Seq<Range<usize>>, start: int, end: int, k: int)
    requires
        0 <= k,
        forall|q: int| k <= q < rs.len() ==> (#[trigger] rs[q]).end >= start,
    ensures
        overlap_scan(rs, start, end, k).1 == 0,
    decreases rs.len() - k,
{
    if k < rs.len() {
        lemma_scan_drops_none(rs, start, end, k + 1);
    }
}

/// The ranges that a scan counts as ending before the line are those at the front.
proof fn lemma_scan_drops_prefix(rs: Seq<Range<usize>>, start: int, end: int, k: int)
    requires
        0 <= k,
        sorted_disjoint(rs),
    ensures
        0 <= overlap_scan(rs, start, end, k).1,
        k + overlap_scan(rs, start, end, k).1 <= rs.len() || k >= rs.len(),
        forall|q: int|
            k <= q < k + overlap_scan(rs, start, end, k).1 ==> (#[trigger] rs[q]).end < start,
    decreases rs.len() - k,
{
    if k < rs.len() {
        lemma_scan_drops_prefix(rs, start, end, k + 1);
        if !(rs[k].end < start) && start <= rs[k].end && rs[k].start <= end {
            assert forall|q: int| k + 1 <= q < rs.len() implies (#[trigger] rs[q]).end >= start by {
                assert(rs[k].end <= rs[q].start);
            }
            lemma_scan_drops_none(rs, start, end, k + 1);
        }
    }
}

/// For a byte of the line, the clipped ranges of a scan hold it exactly when the scanned
/// ranges do.
proof fn lemma_scan_covers(rs: Seq<Range<usize>>, start: int, end: int, k: int, b: int)
    requires
        0 <= k,
        sorted_disjoint(rs),
        0 <= start <= b < end,
    ensures
        covered_from(rs, k, b) == clip_covers(overlap_scan(rs, start, end, k).0, b - start),
    decreases rs.len() - k,
{
    let cs = overlap_scan(rs, start, end, k).0;
    if k >= rs.len() {
    } else if rs[k].end < start {
        lemma_scan_covers(rs, start, end, k + 1, b);
        if covered_from(rs, k, b) {
            let q = choose|q: int| k <= q < rs.len() && (#[trigger] rs[q]).start <= b < rs[q].end;
            assert(q != k);
        }
        if covered_from(rs, k + 1, b) {
            let q = choose|q: int| k + 1 <= q < rs.len() && (#[trigger] rs[q]).start <= b < rs[q].end;
            assert(k <= q);
        }
    } else if start <= rs[k].end && rs[k].start <= end {
        lemma_scan_covers(rs, start, end, k + 1, b);
        let rest = overlap_scan(rs, start, end, k + 1).0;
        assert(cs == seq![clip(rs[k], start, end)] + rest);
        if covered_from(rs, k, b) {
            let q = choose|q: int| k <= q < rs.len() && (#[trigger] rs[q]).start <= b < rs[q].end;
            if q == k {
                assert(cs[0].start <= b - start < cs[0].end);
            } else {
                assert(covered_from(rs, k + 1, b));
                let i = choose|i: int| 0 <= i < rest.len() && (#[trigger] rest[i]).start <= b - start < rest[i].end;
                assert(cs[i + 1] == rest[i]);
            }
        }
        if clip_covers(cs, b - start) {
            let i = choose|i: int| 0 <= i < cs.len() && (#[trigger] cs[i]).start <= b - start < cs[i].end;
            if i == 0 {
                assert(rs[k].start <= b < rs[k].end);
            } else {
                assert(rest[i - 1] == cs[i]);
                assert(clip_covers(rest, b - start));
                let q = choose|q: int| k + 1 <= q < rs.len() && (#[trigger] rs[q]).start <= b < rs[q].end;
            }
        }
    } else {
        if covered_from(rs, k, b) {
            let q = choose|q: int| k <= q < rs.len() && (#[trigger] rs[q]).start <= b < rs[q].end;
            if q > k {
                assert(rs[k].end <= rs[q].start);
            }
        }
    }
}

proof fn lemma_byte_pos_mono(t: Seq<char>, a: int, b: int)
    requires
        0 <= a <= b <= t.len(),
    ensures
        byte_pos(t, a) <= byte_pos(t, b),
        a < b ==> byte_pos(t, a) < byte_pos(t, b),
    decreases b - a,
{
    if a < b {
        lemma_byte_pos_mono(t, a, b - 1);
    }
}

/// The number of bytes that `c` takes in UTF-8.
fn char_utf8_len(c: char) -> (r: usize)
    ensures
        r == utf8_len(c),
{
    let u = c as u32;
    if u < 0x80 {
        1
    } else if u < 0x800 {
        2
    } else if u < 0x10000 {
        3
    } else {
        4
    }
}

/// Whether some range of `cs` holds position `x`.
fn in_clipped(cs: &Vec<Range<usize>>, x: usize) -> (r: bool)
    ensures
        r == clip_covers(cs@, x as int),
{
    let mut i: usize = 0;
    while i < cs.len()
        invariant
            i <= cs.len(),
            forall|j: int| 0 <= j < i ==> !((#[trigger] cs@[j]).start <= x < cs@[j].end),
        decreases cs.len() - i,
    {
        if cs[i].start <= x && x < cs[i].end {
            return true;
        }
        i = i + 1;
    }
    false
}

/// The numbers, from 1, of the lines of `src` that hold a character that is neither white
/// space nor inside one of the byte ranges of `useless_ranges`, in increasing order.
pub fn get_list_of_meaningful_lines(src: &str, useless_ranges: Vec<Range<usize>>) -> (r: Vec<usize>)
    requires
        sorted_disjoint(useless_ranges@),
        src@.len() < usize::MAX,
        byte_pos(src@, src@.len() as int) < usize::MAX,
    ensures
        strictly_increasing(r@),
        values(r@) == executable_lines(src@, useless_ranges@),
{
    let t = to_chars(src);
    let ghost all = useless_ranges@;
    let mut ranges = useless_ranges;
    let ghost mut d: int = 0;
    let mut out: Vec<usize> = Vec::new();
    let mut k: usize = 0;
    let mut b: usize = 0;
    let mut line_no: usize = 1;
    proof {
        assert(t@.take(0) =~= Seq::<char>::empty());
        assert(values(out@) =~= Set::<int>::empty());
    }
    while k < t.len()
        invariant
            t@ == src@,
            t.len() < usize::MAX,
            byte_pos(t@, t@.len() as int) < usize::MAX,
            sorted_disjoint(all),
            k <= t.len(),
            b == byte_pos(t@, k as int),
            line_no >= 1,
            k < t.len() ==> line_no == line_of(t@, k as int) + 1,
            line_no <= k + 1,
            0 <= d <= all.len(),
            ranges@ == all.skip(d),
            forall|q: int| 0 <= q < d ==> (#[trigger] all[q]).end < b,
            strictly_increasing(out@),
            forall|i: int| 0 <= i < out.len() ==> out@[i] < line_no,
            values(out@) == Set::new(
                |j: int|
                    exists|p: int|
                        0 <= p < k && line_of(t@, p) + 1 == j && !white_space(#[trigger] t@[p])
                            && !covered(all, byte_pos(t@, p)),
            ),
        decreases t.len() - k,
    {
        // the line is t[k..e), its bytes [b, be)
        let mut e = k;
        let mut be = b;
        let mut ended = false;
        while e < t.len() && !ended
            invariant
                k <= e <= t.len(),
                t.len() < usize::MAX,
                byte_pos(t@, t@.len() as int) < usize::MAX,
                be == byte_pos(t@, e as int),
                ended == (e > k && t@[e - 1] == '\n'),
                forall|p: int| k <= p < e && p < e - 1 ==> t@[p] != '\n',
                !ended ==> forall|p: int| k <= p < e ==> t@[p] != '\n',
                e == k ==> !ended,
            decreases t.len() - e,
        {
            proof {
                lemma_byte_pos_mono(t@, e + 1, t@.len() as int);
            }
            be = be + char_utf8_len(t[e]);
            if t[e] == '\n' {
                ended = true;
            }
            e = e + 1;
        }
        proof {
            lemma_byte_pos_mono(t@, k as int, e as int);
            lemma_scan_drops_prefix(ranges@, b as int, be as int, 0);
        }
        let ghost rs = ranges@;
        let ov = has_overlapping_range(b, be, &mut ranges);
        let ghost cs = overlap_scan(rs, b as int, be as int, 0).0;
        // the line holds code where some character is neither white space nor covered
        let mut meaningful = false;
        let mut p = k;
        let mut bp = b;
        while p < e
            invariant
                k <= p <= e <= t.len(),
                b <= bp,
                bp == byte_pos(t@, p as int),
                be == byte_pos(t@, e as int),
                byte_pos(t@, t@.len() as int) < usize::MAX,
                meaningful == exists|pq: int|
                    k <= pq < p && !white_space(#[trigger] t@[pq]) && !clip_covers(
                        cs,
                        byte_pos(t@, pq) - b,
                    ),
                ov matches Some(v) ==> v@ == cs,
                ov is None ==> cs.len() == 0,
            decreases e - p,
        {
            proof {
                lemma_byte_pos_mono(t@, p + 1, e as int);
            }
            let c = t[p];
            if !is_whitespace(c) {
                let hidden = match &ov {
                    Some(v) => in_clipped(v, bp - b),
                    None => false,
                };
                if !hidden {
                    meaningful = true;
                }
            }
            bp = bp + char_utf8_len(c);
            p = p + 1;
        }
        let ghost before = out@;
        let ghost old_line = line_no;
        proof {
            assert forall|pq: int| k <= pq < e implies line_of(t@, pq) + 1 == line_no && b <= byte_pos(
                t@,
                pq,
            ) < be && (covered(all, #[trigger] byte_pos(t@, pq)) == clip_covers(cs, byte_pos(t@, pq) - b)) by {
                lemma_line_const(t@, k as int, pq);
                lemma_byte_pos_mono(t@, k as int, pq);
                lemma_byte_pos_mono(t@, pq + 1, e as int);
                let bp2 = byte_pos(t@, pq);
                lemma_scan_covers(rs, b as int, be as int, 0, bp2);
                if covered(all, bp2) {
                    let q = choose|q: int| 0 <= q < all.len() && (#[trigger] all[q]).start <= bp2 < all[q].end;
                    assert(q >= d);
                    assert(rs[q - d] == all[q]);
                }
                if covered_from(rs, 0, bp2) {
                    let q = choose|q: int| 0 <= q < rs.len() && (#[trigger] rs[q]).start <= bp2 < rs[q].end;
                    assert(rs[q] == all[q + d]);
                }
            }
        }
        if meaningful {
            out.push(line_no);
            proof {
                lemma_values_push(before, line_no);
            }
        }
        proof {
            let old_set = Set::new(
                |j: int|
                    exists|p: int|
                        0 <= p < k && line_of(t@, p) + 1 == j && !white_space(#[trigger] t@[p])
                            && !covered(all, byte_pos(t@, p)),
            );
            let new_set = Set::new(
                |j: int|
                    exists|p: int|
                        0 <= p < e && line_of(t@, p) + 1 == j && !white_space(#[trigger] t@[p])
                            && !covered(all, byte_pos(t@, p)),
            );
            assert forall|j: int| new_set.contains(j) implies values(out@).contains(j) by {
                let p = choose|p: int|
                    0 <= p < e && line_of(t@, p) + 1 == j && !white_space(#[trigger] t@[p])
                        && !covered(all, byte_pos(t@, p));
                if p < k {
                    assert(old_set.contains(j));
                } else {
                    assert(meaningful);
                }
            }
            assert forall|j: int| values(out@).contains(j) implies new_set.contains(j) by {
                if values(before).contains(j) {
                    assert(old_set.contains(j));
                } else {
                    assert(meaningful && j == line_no);
                    let pq = choose|pq: int|
                        k <= pq < p && !white_space(#[trigger] t@[pq]) && !clip_covers(
                            cs,
                            byte_pos(t@, pq) - b,
                        );
                }
            }
            assert(values(out@) =~= new_set);
            {
                let n = overlap_scan(rs, b as int, be as int, 0).1;
                assert(ranges@ =~= all.skip(d + n));
                assert forall|q: int| 0 <= q < d + n implies (#[trigger] all[q]).end < be by {
                    if q >= d {
                        assert(rs[q - d] == all[q]);
                    }
                }
                d = d + n;
            }
            if e < t.len() {
                lemma_nl_step(t@, e - 1);
                lemma_line_const(t@, k as int, e - 1);
            }
        }
        k = e;
        b = be;
        line_no = line_no + 1;
    }
    proof {
        assert(values(out@) =~= executable_lines(t@, all));
    }
    out
}

/// Whether `a` and `b` hold the same characters.
pub fn str_eq(a: &str, b: &str) -> (r: bool)
    ensures
        r == (a@ == b@),
{
    let n = a.unicode_len();
    if n != b.unicode_len() {
        return false;
    }
    let mut i: usize = 0;
    while i < n
        invariant
            i <= n,
            n == a@.len(),
            n == b@.len(),
            forall|j: int| 0 <= j < i ==> #[trigger] a@[j] == b@[j],
        decreases n - i,
    {
        if a.get_char(i) != b.get_char(i) {
            return false;
        }
        i = i + 1;
    }
    assert(a@ =~= b@);
    true
}

/// `needle` occurs somewhere in `hay`.
pub open spec fn occurs_in(needle: Seq<char>, hay: Seq<char>) -> bool {
    exists|i: int| 0 <= i <= hay.len() && starts_with(#[trigger] hay.skip(i), needle)
}

/// Whether `needle` occurs in `hay`.
pub fn str_occurs(needle: &str, hay: &str) -> (r: bool)
    ensures
        r == occurs_in(needle@, hay@),
{
    let t = to_chars(hay);
    let mut i: usize = 0;
    while i < t.len()
        invariant
            i <= t.len(),
            t@ == hay@,
            forall|j: int| 0 <= j < i ==> !starts_with(#[trigger] t@.skip(j), needle@),
        decreases t.len() - i,
    {
        if starts_with_at(&t, i, needle) {
            return true;
        }
        i = i + 1;
    }
    starts_with_at(&t, i, needle)
}

/// The grammars of the tree-based classifier.
#[derive(Clone, Copy, Debug, PartialEq, Eq)]
pub enum TreeSitterLanguage {
    C,
    Kotlin,
    Cpp,
    Rust,
    Java,
    Javascript,
    JSX,
    Typescript,
    TSX,
    CSharp,
    Scala,
    Ruby,
    Python,
    Go,
}

/// The node kinds whose subtrees are not executable in any grammar: comments, string
/// literals, parameter lists, and bare `=`, `(`, `)`, `{` and `}`.
pub open spec fn opaque_kinds() -> Seq<Seq<char>> {
    seq![
        "comment"@,
        "string"@,
        "string_literal"@,
        "raw_string_literal"@,
        "line_comment"@,
        "block_comment"@,
        "formal_parameters"@,
        "="@,
        "("@,
        ")"@,
        "{"@,
        "}"@,
    ]
}

/// A grammar's exception to the opaque kinds: nodes of `kind` are descended into when their
/// S-expression holds `needle`, and skipped otherwise.
pub struct TraversalException {
    pub kind: &'static str,
    pub needle: &'static str,
}

impl TreeSitterLanguage {
    pub open spec fn spec_exception(self) -> Option<(Seq<char>, Seq<char>)> {
        match self {
            TreeSitterLanguage::Kotlin => Some(("function_value_parameters"@, "expression"@)),
            _ => None,
        }
    }

    /// The traversal exception of this grammar, if any.
    pub fn exception(&self) -> (r: Option<TraversalException>)
        ensures
            match r {
                Some(x) => self.spec_exception() == Some((x.kind@, x.needle@)),
                None => self.spec_exception() is None,
            },
    {
        match self {
            TreeSitterLanguage::Kotlin => Some(
                TraversalException { kind: "function_value_parameters", needle: "expression" },
            ),
            _ => None,
        }
    }
}

/// Whether `kind` is one of the opaque kinds.
pub fn is_opaque_kind(kind: &str) -> (r: bool)
    ensures
        r == opaque_kinds().contains(kind@),
{
    let names = [
        "comment",
        "string",
        "string_literal",
        "raw_string_literal",
        "line_comment",
        "block_comment",
        "formal_parameters",
        "=",
        "(",
        ")",
        "{",
        "}",
    ];
    assert(names@.map_values(|s: &str| s@) =~= opaque_kinds());
    let mut i: usize = 0;
    while i < 12
        invariant
            i <= 12,
            names@.len() == 12,
            names@.map_values(|s: &str| s@) == opaque_kinds(),
            forall|j: int| 0 <= j < i ==> opaque_kinds()[j] != kind@,
        decreases 12 - i,
    {
        if str_eq(names[i], kind) {
            assert(opaque_kinds()[i as int] == kind@);
            return true;
        }
        i = i + 1;
    }
    false
}

/// Whether the traversal skips a node of `kind` in grammar `lang`, recording its range.
/// `sexp` is the node's S-expression, which only an exception of the grammar reads.
pub open spec fn skips(lang: TreeSitterLanguage, kind: Seq<char>, sexp: Seq<char>) -> bool {
    match lang.spec_exception() {
        Some((k, needle)) => if kind == k {
            !occurs_in(needle, sexp)
        } else {
            opaque_kinds().contains(kind)
        },
        None => opaque_kinds().contains(kind),
    }
}

/// Whether the traversal skips a node of `kind` in grammar `lang`, given its S-expression
/// `sexp` (read only by an exception of the grammar).
pub fn skip_decision(lang: TreeSitterLanguage, kind: &str, sexp: &str) -> (r: bool)
    ensures
        r == skips(lang, kind@, sexp@),
{
    match lang.exception() {
        Some(x) => {
            if str_eq(kind, x.kind) {
                !str_occurs(x.needle, sexp)
            } else {
                is_opaque_kind(kind)
            }
        },
        None => is_opaque_kind(kind),
    }
}

#[verifier::external_type_specification]
#[verifier::external_body]
pub struct ExTsParser(TsParser);

#[verifier::external_type_specification]
#[verifier::external_body]
pub struct ExTsTree(tree_sitter::Tree);

#[verifier::external_type_specification]
#[verifier::external_body]
pub struct ExTsLanguage(Grammar);

#[verifier::external_type_specification]
#[verifier::external_body]
pub struct ExTsLanguageError(GrammarError);

#[verifier::external_type_specification]
#[verifier::external_body]
pub struct ExTsNode<'tree>(tree_sitter::Node<'tree>);

#[verifier::external_type_specification]
#[verifier::external_body]
pub struct ExTsTreeCursor<'cursor>(tree_sitter::TreeCursor<'cursor>);

/// A node of a syntax tree, as plain values: its kind, its byte range, the number of nodes of
/// its subtree (itself included) and its S-expression.
pub struct NodeInfo {
    pub kind: Seq<char>,
    pub start: usize,
    pub end: usize,
    pub size: usize,
    pub sexp: Seq<char>,
}

/// The nodes of the syntax tree that grammar `lang` gives for the text `src`, in pre-order:
/// the node at index `i` is the `i`-th descendant of the root, the root being the 0-th.
pub uninterp spec fn syntax_nodes(lang: TreeSitterLanguage, src: Seq<char>) -> Seq<NodeInfo>;

/// The language of a grammar.
pub uninterp spec fn grammar_lang(g: Grammar) -> TreeSitterLanguage;

/// The parser ABI version that a grammar was generated for.
pub uninterp spec fn grammar_version(g: Grammar) -> int;

/// The language of the grammar that a parser reads, if it has one.
pub uninterp spec fn parser_grammar(p: TsParser) -> Option<TreeSitterLanguage>;

/// The nodes of a syntax tree, in pre-order.
pub uninterp spec fn tree_nodes(t: tree_sitter::Tree) -> Seq<NodeInfo>;

/// A node, as plain values.
pub uninterp spec fn node_info(n: tree_sitter::Node) -> NodeInfo;

/// The nodes of the tree that a cursor walks, in pre-order.
pub uninterp spec fn cursor_nodes(c: tree_sitter::TreeCursor) -> Seq<NodeInfo>;

/// The pre-order index of the node that a cursor stands on.
pub uninterp spec fn cursor_at(c: tree_sitter::TreeCursor) -> int;

/// Relies on `tree_sitter_c::language`: the grammar of that language, generated for version 14 of the
/// parser ABI (`LANGUAGE_VERSION` in its `parser.c`).
#[verifier::external_body]
fn grammar_c() -> (r: Grammar)
    ensures
        grammar_lang(r) == TreeSitterLanguage::C,
        grammar_version(r) == 14,
{
    tree_sitter_c::language()
}

/// Relies on `tree_sitter_cpp::language`: the grammar of that language, generated for version 14 of the
/// parser ABI (`LANGUAGE_VERSION` in its `parser.c`).
#[verifier::external_body]
fn grammar_cpp() -> (r: Grammar)
    ensures
        grammar_lang(r) == TreeSitterLanguage::Cpp,
        grammar_version(r) == 14,
{
    tree_sitter_cpp::language()
}

/// Relies on `tree_sitter_rust::language`: the grammar of that language, generated for version 14 of the
/// parser ABI (`LANGUAGE_VERSION` in its `parser.c`).
#[verifier::external_body]
fn grammar_rust() -> (r: Grammar)
    ensures
        grammar_lang(r) == TreeSitterLanguage::Rust,
        grammar_version(r) == 14,
{
    tree_sitter_rust::language()
}

/// Relies on `tree_sitter_java::language`: the grammar of that language, generated for version 14 of the
/// parser ABI (`LANGUAGE_VERSION` in its `parser.c`).
#[verifier::external_body]
fn grammar_java() -> (r: Grammar)
    ensures
        grammar_lang(r) == TreeSitterLanguage::Java,
        grammar_version(r) == 14,
{
    tree_sitter_java::language()
}

/// Relies on `tree_sitter_javascript::language`: the grammar of that language, generated for version 14 of the
/// parser ABI (`LANGUAGE_VERSION` in its `parser.c`).
#[verifier::external_body]
fn grammar_javascript() -> (r: Grammar)
    ensures
        grammar_lang(r) == TreeSitterLanguage::Javascript,
        grammar_version(r) == 14,
{
    tree_sitter_javascript::language()
}

/// Relies on `tree_sitter_c_sharp::language`: the grammar of that language, generated for version 14 of the
/// parser ABI (`LANGUAGE_VERSION` in its `parser.c`).
#[verifier::external_body]
fn grammar_c_sharp() -> (r: Grammar)
    ensures
        grammar_lang(r) == TreeSitterLanguage::CSharp,
        grammar_version(r) == 14,
{
    tree_sitter_c_sharp::language()
}

/// Relies on `tree_sitter_scala::language`: the grammar of that language, generated for version 14 of the
/// parser ABI (`LANGUAGE_VERSION` in its `parser.c`).
#[verifier::external_body]
fn grammar_scala() -> (r: Grammar)
    ensures
        grammar_lang(r) == TreeSitterLanguage::Scala,
        grammar_version(r) == 14,
{
    tree_sitter_scala::language()
}

/// Relies on `tree_sitter_ruby::language`: the grammar of that language, generated for version 14 of the
/// parser ABI (`LANGUAGE_VERSION` in its `parser.c`).
#[verifier::external_body]
fn grammar_ruby() -> (r: Grammar)
    ensures
        grammar_lang(r) == TreeSitterLanguage::Ruby,
        grammar_version(r) == 14,
{
    tree_sitter_ruby::language()
}

/// Relies on `tree_sitter_python::language`: the grammar of that language, generated for version 14 of the
/// parser ABI (`LANGUAGE_VERSION` in its `parser.c`).
#[verifier::external_body]
fn grammar_python() -> (r: Grammar)
    ensures
        grammar_lang(r) == TreeSitterLanguage::Python,
        grammar_version(r) == 14,
{
    tree_sitter_python::language()
}

/// Relies on `tree_sitter_go::language`: the grammar of that language, generated for version 14 of the
/// parser ABI (`LANGUAGE_VERSION` in its `parser.c`).
#[verifier::external_body]
fn grammar_go() -> (r: Grammar)
    ensures
        grammar_lang(r) == TreeSitterLanguage::Go,
        grammar_version(r) == 14,
{
    tree_sitter_go::language()
}

/// Relies on `tree_sitter_typescript::language_typescript`: the grammar of that language, generated for version 14 of the
/// parser ABI (`LANGUAGE_VERSION` in its `parser.c`).
#[verifier::external_body]
fn grammar_typescript() -> (r: Grammar)
    ensures
        grammar_lang(r) == TreeSitterLanguage::Typescript,
        grammar_version(r) == 14,
{
    tree_sitter_typescript::language_typescript()
}

/// Relies on `tree_sitter_typescript::language_tsx`: the grammar of that language, generated for version 14 of the
/// parser ABI (`LANGUAGE_VERSION` in its `parser.c`).
#[verifier::external_body]
fn grammar_tsx() -> (r: Grammar)
    ensures
        grammar_lang(r) == TreeSitterLanguage::TSX,
        grammar_version(r) == 14,
{
    tree_sitter_typescript::language_tsx()
}

/// Relies on `tree_sitter_kotlin::language`: the grammar of that language, generated for version 14 of the
/// parser ABI (`LANGUAGE_VERSION` in its `parser.c`).
#[verifier::external_body]
fn grammar_kotlin() -> (r: Grammar)
    ensures
        grammar_lang(r) == TreeSitterLanguage::Kotlin,
        grammar_version(r) == 14,
{
    tree_sitter_kotlin::language()
}

/// Relies on `tree_sitter::Parser::new`: a parser without a grammar.
#[verifier::external_body]
fn new_ts_parser() -> (r: TsParser)
    ensures
        parser_grammar(r) is None,
{
    TsParser::new()
}

/// Relies on `tree_sitter::Parser::set_language`: succeeds, and sets the grammar, exactly when
/// the grammar's ABI version lies in `13..=14`.
#[verifier::external_body]
fn set_grammar(p: &mut TsParser, g: &Grammar) -> (r: Result<(), GrammarError>)
    ensures
        r is Ok <==> 13 <= grammar_version(*g) <= 14,
        r is Ok ==> parser_grammar(*final(p)) == Some(grammar_lang(*g)),
        r is Err ==> parser_grammar(*final(p)) == parser_grammar(*old(p)),
{
    p.set_language(g)
}

/// Relies on `tree_sitter::Parser::parse`: with a grammar set, and neither a timeout nor a
/// cancellation flag, it returns the syntax tree of `src`; without a grammar, `None`.
#[verifier::external_body]
fn parse_text(p: &mut TsParser, src: &str) -> (r: Option<tree_sitter::Tree>)
    ensures
        parser_grammar(*final(p)) == parser_grammar(*old(p)),
        parser_grammar(*old(p)) matches Some(l) ==> (r matches Some(t) && tree_nodes(t)
            == syntax_nodes(l, src@)),
        parser_grammar(*old(p)) is None ==> r is None,
{
    p.parse(src, None)
}

/// Relies on `tree_sitter::Tree::root_node`: the 0-th node, whose subtree is the whole tree.
#[verifier::external_body]
fn root_node<'tree>(t: &'tree tree_sitter::Tree) -> (r: tree_sitter::Node<'tree>)
    ensures
        node_info(r).size == tree_nodes(*t).len(),
{
    t.root_node()
}

/// Relies on `tree_sitter::Tree::walk`: a cursor at the root node.
#[verifier::external_body]
fn walk<'tree>(t: &'tree tree_sitter::Tree) -> (r: tree_sitter::TreeCursor<'tree>)
    ensures
        cursor_nodes(r) == tree_nodes(*t),
        cursor_at(r) == 0,
{
    t.walk()
}

/// Relies on `tree_sitter::Node::descendant_count`: the nodes of the subtree, counting the
/// node itself, given as a `u32` by the C library.
#[verifier::external_body]
fn descendant_count(n: &tree_sitter::Node) -> (r: usize)
    ensures
        r == node_info(*n).size,
        1 <= r <= u32::MAX,
{
    n.descendant_count()
}

/// Relies on `tree_sitter::TreeCursor::goto_descendant`: moves to the node with the given
/// index in pre-order from the cursor's starting node, the index being taken as a `u32`.
#[verifier::external_body]
fn goto_descendant(c: &mut tree_sitter::TreeCursor, i: usize)
    requires
        i <= u32::MAX,
        i < cursor_nodes(*old(c)).len(),
    ensures
        cursor_nodes(*final(c)) == cursor_nodes(*old(c)),
        cursor_at(*final(c)) == i,
{
    c.goto_descendant(i)
}

/// Relies on `tree_sitter::TreeCursor::node`: the node that the cursor stands on.
#[verifier::external_body]
fn cursor_node<'tree>(c: &tree_sitter::TreeCursor<'tree>) -> (r: tree_sitter::Node<'tree>)
    requires
        0 <= cursor_at(*c) < cursor_nodes(*c).len(),
    ensures
        node_info(r) == cursor_nodes(*c)[cursor_at(*c)],
{
    c.node()
}

/// Relies on `tree_sitter::Node::kind`.
#[verifier::external_body]
fn node_kind(n: &tree_sitter::Node) -> (r: &'static str)
    ensures
        r@ == node_info(*n).kind,
{
    n.kind()
}

/// Relies on `tree_sitter::Node::byte_range`.
#[verifier::external_body]
fn node_byte_range(n: &tree_sitter::Node) -> (r: Range<usize>)
    ensures
        r.start == node_info(*n).start,
        r.end == node_info(*n).end,
{
    n.byte_range()
}

/// Relies on `tree_sitter::Node::to_sexp`.
#[verifier::external_body]
fn node_sexp(n: &tree_sitter::Node) -> (r: String)
    ensures
        r@ == node_info(*n).sexp,
{
    n.to_sexp()
}

/// The language whose grammar reads `lang`: JSX is read with the JavaScript grammar.
pub open spec fn tree_lang(lang: TreeSitterLanguage) -> TreeSitterLanguage {
    match lang {
        TreeSitterLanguage::JSX => TreeSitterLanguage::Javascript,
        _ => lang,
    }
}

/// The grammar of `lang`.
fn grammar_of(lang: TreeSitterLanguage) -> (r: Grammar)
    ensures
        grammar_lang(r) == tree_lang(lang),
        grammar_version(r) == 14,
{
    match lang {
        TreeSitterLanguage::C => grammar_c(),
        TreeSitterLanguage::Cpp => grammar_cpp(),
        TreeSitterLanguage::Rust => grammar_rust(),
        TreeSitterLanguage::Java => grammar_java(),
        TreeSitterLanguage::Javascript => grammar_javascript(),
        TreeSitterLanguage::JSX => grammar_javascript(),
        TreeSitterLanguage::CSharp => grammar_c_sharp(),
        TreeSitterLanguage::Scala => grammar_scala(),
        TreeSitterLanguage::Ruby => grammar_ruby(),
        TreeSitterLanguage::Python => grammar_python(),
        TreeSitterLanguage::Go => grammar_go(),
        TreeSitterLanguage::Typescript => grammar_typescript(),
        TreeSitterLanguage::TSX => grammar_tsx(),
        TreeSitterLanguage::Kotlin => grammar_kotlin(),
    }
}

/// The byte ranges of the nodes that a pre-order walk of `nodes` from index `i` skips under
/// `lang` (see [`skips`]), without visiting the subtrees of the nodes it skips.
pub open spec fn skipped_spans(lang: TreeSitterLanguage, nodes: Seq<NodeInfo>, i: int) -> Seq<
    Range<usize>,
>
    decreases nodes.len() - i,
{
    if i < 0 || i >= nodes.len() {
        seq![]
    } else if skips(lang, nodes[i].kind, nodes[i].sexp) {
        let step = if nodes[i].size >= 1 {
            nodes[i].size as int
        } else {
            1
        };
        let next = if i + step > nodes.len() {
            nodes.len() as int
        } else {
            i + step
        };
        seq![Range { start: nodes[i].start, end: nodes[i].end }] + skipped_spans(lang, nodes, next)
    } else {
        skipped_spans(lang, nodes, i + 1)
    }
}

/// The spans that the syntax tree of `src` in grammar `lang` marks as not executable.
pub open spec fn tree_spans(lang: TreeSitterLanguage, src: Seq<char>) -> Seq<Range<usize>> {
    skipped_spans(lang, syntax_nodes(tree_lang(lang), src), 0)
}

/// A syntax-tree parser for one grammar.
pub struct Parser {
    lang: TreeSitterLanguage,
    parser: TsParser,
}

impl Parser {
    /// The grammar that the parser reads.
    pub closed spec fn grammar(&self) -> TreeSitterLanguage {
        self.lang
    }

    /// The tree-sitter parser holds the grammar of [`Parser::grammar`].
    pub closed spec fn wf(&self) -> bool {
        parser_grammar(self.parser) == Some(tree_lang(self.lang))
    }

    /// A parser for `lang`. Every grammar loads, so the result is always `Some`.
    pub fn new(lang: TreeSitterLanguage) -> (r: Option<Self>)
        ensures
            r matches Some(p) && p.grammar() == lang && p.wf(),
    {
        let mut parser = new_ts_parser();
        let g = grammar_of(lang);
        match set_grammar(&mut parser, &g) {
            Ok(()) => Some(Parser { lang, parser }),
            Err(_) => None,
        }
    }

    /// The byte ranges of the nodes that a pre-order walk of the syntax tree of `src` skips
    /// (see [`skips`]), without descending into them.
    pub fn get_spans_of_meaningless_source(&mut self, src: &str) -> (r: Option<Vec<Range<usize>>>)
        requires
            old(self).wf(),
        ensures
            final(self).wf(),
            final(self).grammar() == old(self).grammar(),
            r matches Some(v) && v@ == tree_spans(old(self).grammar(), src@),
    {
        let ghost nodes = syntax_nodes(tree_lang(self.lang), src@);
        let tree = match parse_text(&mut self.parser, src) {
            Some(t) => t,
            None => return None,
        };
        let root = root_node(&tree);
        let total = descendant_count(&root);
        let mut cursor = walk(&tree);
        let exception = self.lang.exception();
        let mut spans: Vec<Range<usize>> = Vec::new();
        let mut i: usize = 0;
        while i < total
            invariant
                total <= u32::MAX,
                total == nodes.len(),
                i <= total,
                cursor_nodes(cursor) == nodes,
                match exception {
                    Some(x) => self.lang.spec_exception() == Some((x.kind@, x.needle@)),
                    None => self.lang.spec_exception() is None,
                },
                spans@ + skipped_spans(self.lang, nodes, i as int) == skipped_spans(
                    self.lang,
                    nodes,
                    0,
                ),
            decreases total - i,
        {
            goto_descendant(&mut cursor, i);
            let node = cursor_node(&cursor);
            let kind = node_kind(&node);
            let sexp = match &exception {
                Some(x) => if str_eq(kind, x.kind) {
                    node_sexp(&node)
                } else {
                    String::new()
                },
                None => String::new(),
            };
            let skip = skip_decision(self.lang, kind, sexp.as_str());
            assert(skip == skips(self.lang, nodes[i as int].kind, nodes[i as int].sexp));
            let ghost i0 = i as int;
            if skip {
                let range = node_byte_range(&node);
                let ghost before = spans@;
                spans.push(range);
                let size = descendant_count(&node);
                assert(range == Range { start: nodes[i0].start, end: nodes[i0].end });
                if size > total - i {
                    i = total;
                } else {
                    i = i + size;
                }
                assert(skipped_spans(self.lang, nodes, i0) == seq![range] + skipped_spans(
                    self.lang,
                    nodes,
                    i as int,
                ));
                assert(spans@ + skipped_spans(self.lang, nodes, i as int) =~= before
                    + skipped_spans(self.lang, nodes, i0));
            } else {
                i = i + 1;
            }
        }
        assert(spans@ + seq![] =~= spans@);
        Some(spans)
    }
}

/// Whether the ranges are ordered and do not overlap.
pub fn is_sorted_disjoint(rs: &Vec<Range<usize>>) -> (r: bool)
    ensures
        r == sorted_disjoint(rs@),
{
    let mut i: usize = 0;
    while i < rs.len()
        invariant
            i <= rs.len(),
            forall|q: int| 0 <= q < i ==> (#[trigger] rs@[q]).start <= rs@[q].end,
            forall|a: int, b: int| 0 <= a < b < i ==> (#[trigger] rs@[a]).end <= (#[trigger] rs@[b]).start,
        decreases rs.len() - i,
    {
        if rs[i].start > rs[i].end {
            return false;
        }
        if i > 0 && rs[i - 1].end > rs[i].start {
            return false;
        }
        proof {
            assert forall|a: int, b: int| 0 <= a < b < i + 1 implies (#[trigger] rs@[a]).end <= (#[trigger] rs@[b]).start by {
                if b == i && a < i - 1 {
                    assert(rs@[a].end <= rs@[i - 1].start);
                }
            }
        }
        i = i + 1;
    }
    true
}

/// The UTF-8 length of `t`, when it is below `usize::MAX`.
fn byte_length(t: &Vec<char>) -> (r: Option<usize>)
    ensures
        r matches Some(n) ==> n == byte_pos(t@, t@.len() as int) && n < usize::MAX,
        r is None ==> byte_pos(t@, t@.len() as int) >= usize::MAX,
{
    let mut k: usize = 0;
    let mut n: usize = 0;
    while k < t.len()
        invariant
            k <= t.len(),
            n == byte_pos(t@, k as int),
            n < usize::MAX,
        decreases t.len() - k,
    {
        let c = char_utf8_len(t[k]);
        if c >= usize::MAX - n {
            proof {
                lemma_byte_pos_mono(t@, k + 1, t@.len() as int);
            }
            return None;
        }
        n = n + c;
        k = k + 1;
    }
    Some(n)
}

/// The numbers, from 1, of the lines of `src` that hold code outside the spans that the
/// syntax tree of grammar `lang` marks as not executable; `None` exactly when those spans are
/// not ordered and apart, or the source is too long to number its bytes.
pub fn get_lines_with_executable_code(lang: TreeSitterLanguage, src: &str) -> (r: Option<Vec<usize>>)
    ensures
        r is Some <==> sorted_disjoint(tree_spans(lang, src@)) && src@.len() < usize::MAX
            && byte_pos(src@, src@.len() as int) < usize::MAX,
        r matches Some(v) ==> strictly_increasing(v@) && values(v@) == executable_lines(
            src@,
            tree_spans(lang, src@),
        ),
{
    let mut p = match Parser::new(lang) {
        Some(p) => p,
        None => return None,
    };
    let spans = match p.get_spans_of_meaningless_source(src) {
        Some(s) => s,
        None => return None,
    };
    if !is_sorted_disjoint(&spans) {
        return None;
    }
    let t = to_chars(src);
    if t.len() == usize::MAX {
        return None;
    }
    match byte_length(&t) {
        Some(_) => {},
        None => return None,
    }
    let lines = get_list_of_meaningful_lines(src, spans);
    Some(lines)
}

} // verus!
