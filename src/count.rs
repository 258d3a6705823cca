//! The line classifier: which lines of a source hold meaningful code, and the source with
//! everything but its meaningful fragments taken out.
use crate::parse::{
    first_rule_from, fragment_is_meaningful, lemma_chain_step, lemma_token_len,
    meaningful_fragment, next_index, parse_next, rule_token, source_end, token_at, Language,
    LanguageTable, ParseItem, ParseOutput, Parser,
};
use crate::text::{nl_count, push_char, to_chars};
use vstd::prelude::*;
use vstd::set_lib::{lemma_int_range, set_int_range};

verus! {

/// The index, from 0, of the line that holds position `i`: the number of newlines before it.
pub open spec fn line_of(t: Seq<char>, i: int) -> int {
    nl_count(t.take(i)) as int
}

/// The lines that the non-empty span `[a, b)` overlaps.
pub open spec fn lines_of_span(t: Seq<char>, a: int, b: int) -> Set<int> {
    set_int_range(line_of(t, a), line_of(t, b - 1) + 1)
}

/// The lines that a meaningful source fragment overlaps, over the tokens from position `i`
/// on.
pub open spec fn marked_from(items: Seq<ParseItem>, ignored: Seq<char>, t: Seq<char>, i: int) -> Set<
    int,
>
    decreases t.len() - i,
{
    if i < 0 || i >= t.len() {
        Set::empty()
    } else {
        let tok = token_at(items, t, i);
        let n = tok.spec_len();
        if tok is Invalid || n <= 0 || i + n > t.len() {
            Set::empty()
        } else {
            let rest = marked_from(items, ignored, t, i + n);
            if tok is Source && meaningful_fragment(t.subrange(i, i + n), ignored) {
                rest.union(lines_of_span(t, i, i + n))
            } else {
                rest
            }
        }
    }
}

/// The meaningful lines of `t`: those that some meaningful source fragment overlaps.
pub open spec fn meaningful_lines(items: Seq<ParseItem>, ignored: Seq<char>, t: Seq<char>) -> Set<
    int,
> {
    marked_from(items, ignored, t, 0)
}

pub open spec fn strictly_increasing(s: Seq<usize>) -> bool {
    forall|a: int, b: int| 0 <= a < b < s.len() ==> s[a] < s[b]
}

/// The values of `s`, as a set of integers.
pub open spec fn values(s: Seq<usize>) -> Set<int> {
    s.map_values(|x: usize| x as int).to_set()
}

pub proof fn lemma_nl_step(t: Seq<char>, p: int)
    requires
        0 <= p < t.len(),
    ensures
        line_of(t, p + 1) == line_of(t, p) + if t[p] == '\n' {
            1int
        } else {
            0int
        },
{
    assert(t.take(p + 1).drop_last() =~= t.take(p));
}

pub proof fn lemma_line_of_mono(t: Seq<char>, a: int, b: int)
    requires
        0 <= a <= b <= t.len(),
    ensures
        line_of(t, a) <= line_of(t, b),
        line_of(t, b) - line_of(t, a) <= b - a,
    decreases b - a,
{
    if a < b {
        lemma_line_of_mono(t, a, b - 1);
        lemma_nl_step(t, b - 1);
    }
}

/// Without a newline in `t[a..p)`, positions `a` and `p` lie on the same line.
pub proof fn lemma_line_const(t: Seq<char>, a: int, p: int)
    requires
        0 <= a <= p <= t.len(),
        forall|x: int| a <= x < p ==> t[x] != '\n',
    ensures
        line_of(t, p) == line_of(t, a),
    decreases p - a,
{
    if a < p {
        lemma_line_const(t, a, p - 1);
        lemma_nl_step(t, p - 1);
    }
}

/// Every line marked from `i` on lies at or after the line of `i`, and there are finitely many.
pub proof fn lemma_marked_from(items: Seq<ParseItem>, ignored: Seq<char>, t: Seq<char>, i: int)
    requires
        0 <= i,
    ensures
        marked_from(items, ignored, t, i).finite(),
        i <= t.len() ==> forall|x: int| #[trigger]
            marked_from(items, ignored, t, i).contains(x) ==> line_of(t, i) <= x,
    decreases t.len() - i,
{
    if i < t.len() {
        let tok = token_at(items, t, i);
        let n = tok.spec_len();
        if !(tok is Invalid || n <= 0 || i + n > t.len()) {
            lemma_marked_from(items, ignored, t, i + n);
            lemma_line_of_mono(t, i, i + n);
            lemma_line_of_mono(t, i, i + n - 1);
            if line_of(t, i) <= line_of(t, i + n - 1) + 1 {
                lemma_int_range(line_of(t, i), line_of(t, i + n - 1) + 1);
            }
        }
    }
}

pub proof fn lemma_values_push(s: Seq<usize>, x: usize)
    ensures
        values(s.push(x)) == values(s).insert(x as int),
{
    let f = |v: usize| v as int;
    let m = s.map_values(f);
    assert(s.push(x).map_values(f) =~= m.push(x as int));
    assert forall|y: int| #[trigger] values(s.push(x)).contains(y) implies values(s).insert(
        x as int,
    ).contains(y) by {
        let k = choose|k: int| 0 <= k < m.push(x as int).len() && m.push(x as int)[k] == y;
        if k < m.len() {
            assert(m[k] == y);
        }
    }
    assert forall|y: int| #[trigger] values(s).insert(x as int).contains(y) implies values(
        s.push(x),
    ).contains(y) by {
        if y == x as int {
            assert(m.push(x as int)[m.len() as int] == y);
        } else {
            let k = choose|k: int| 0 <= k < m.len() && m[k] == y;
            assert(m.push(x as int)[k] == y);
        }
    }
    assert(values(s.push(x)) =~= values(s).insert(x as int));
}

/// Counts the newlines of `t[from..to]` onto `line`, the line of `from`.
fn advance_line(t: &Vec<char>, from: usize, to: usize, line: usize) -> (r: usize)
    requires
        from <= to <= t.len(),
        line == line_of(t@, from as int),
    ensures
        r == line_of(t@, to as int),
{
    let mut p = from;
    let mut l = line;
    while p < to
        invariant
            from <= p <= to <= t.len(),
            l == line_of(t@, p as int),
        decreases to - p,
    {
        proof {
            lemma_nl_step(t@, p as int);
            lemma_line_of_mono(t@, 0, p as int);
            assert(t@.take(0) =~= Seq::<char>::empty());
        }
        if t[p] == '\n' {
            l = l + 1;
        } else {
        }
        p = p + 1;
    }
    l
}

/// The indices, from 0, of the meaningful lines of `src` under `table`, in increasing order.
pub fn meaningful_line_indices(src: &str, table: &LanguageTable) -> (r: Vec<usize>)
    requires
        src@.len() < usize::MAX,
    ensures
        strictly_increasing(r@),
        values(r@) == meaningful_lines(table.items@, table.ignored@, src@),
{
    let t = to_chars(src);
    let ghost items = table.items@;
    let ghost ign = table.ignored@;
    let mut r: Vec<usize> = Vec::new();
    let mut i: usize = 0;
    let mut line: usize = 0;
    proof {
        assert(t@.take(0) =~= Seq::<char>::empty());
        assert(values(r@) =~= Set::empty());
        lemma_marked_from(items, ign, t@, 0);
    }
    while i < t.len()
        invariant
            i <= t.len() < usize::MAX,
            t@ == src@,
            items == table.items@,
            ign == table.ignored@,
            line == line_of(t@, i as int),
            line <= i,
            strictly_increasing(r@),
            forall|k: int| 0 <= k < r.len() ==> r@[k] <= line,
            values(r@).union(marked_from(items, ign, t@, i as int)) == marked_from(
                items,
                ign,
                t@,
                0,
            ),
        decreases t.len() - i,
    {
        proof {
            lemma_token_len(items, t@, i as int);
            lemma_marked_from(items, ign, t@, i as int);
        }
        let tok = parse_next(&table.items, &t, i);
        if let ParseOutput::Invalid(..) = tok {
            assert(marked_from(items, ign, t@, i as int) =~= Set::empty());
            assert(values(r@) =~= values(r@).union(marked_from(items, ign, t@, i as int)));
            return r;
        }
        let n = tok.len();
        let next = i + n;
        let ghost before = r@;
        if let ParseOutput::Source(_) = tok {
            if fragment_is_meaningful(&t, i, next, table.ignored) {
                let last = advance_line(&t, i, next - 1, line);
                proof {
                    lemma_line_of_mono(t@, i as int, next - 1);
                    lemma_line_of_mono(t@, next - 1, next as int);
                }
                let mut j: usize = line;
                if r.len() > 0 && r[r.len() - 1] == line {
                    j = line + 1;
                    proof {
                        let k = r.len() - 1;
                        assert(r@.map_values(|x: usize| x as int)[k as int] == line as int);
                        assert(values(r@).contains(line as int));
                        assert(values(before).union(set_int_range(line as int, j as int)) =~= values(before));
                    }
                } else {
                    assert(values(before).union(set_int_range(line as int, j as int)) =~= values(before));
                }
                assert(r@.take(before.len() as int) =~= before);
                while j <= last
                    invariant
                        line <= j,
                        j <= last + 1,
                        last < usize::MAX,
                        strictly_increasing(r@),
                        forall|k: int| 0 <= k < r.len() ==> r@[k] < j,
                        before.len() <= r.len(),
                        r@.take(before.len() as int) == before,
                        values(r@) == values(before).union(set_int_range(line as int, j as int)),
                    decreases last + 1 - j,
                {
                    let ghost prev = r@;
                    r.push(j);
                    proof {
                        lemma_values_push(prev, j);
                        assert(set_int_range(line as int, j + 1) =~= set_int_range(line as int, j as int).insert(j as int));
                        assert(values(r@) =~= values(before).union(set_int_range(line as int, j + 1)));
                        assert(r@.take(before.len() as int) =~= prev.take(before.len() as int));
                    }
                    j = j + 1;
                }
                proof {
                    assert(lines_of_span(t@, i as int, next as int) == set_int_range(line as int, last + 1));
                    assert(values(r@).union(marked_from(items, ign, t@, next as int)) =~= values(before).union(marked_from(items, ign, t@, i as int)));
                }
            } else {
                assert(marked_from(items, ign, t@, i as int) == marked_from(items, ign, t@, next as int));
            }
        } else {
            assert(marked_from(items, ign, t@, i as int) == marked_from(items, ign, t@, next as int));
        }
        proof {
            lemma_line_of_mono(t@, i as int, next as int);
        }
        let new_line = advance_line(&t, i, next, line);
        i = next;
        line = new_line;
    }
    r
}

/// A strictly increasing list has as many entries as the set of its values.
pub proof fn lemma_increasing_len(s: Seq<usize>)
    requires
        strictly_increasing(s),
    ensures
        values(s).finite(),
        values(s).len() == s.len(),
{
    let m = s.map_values(|x: usize| x as int);
    assert forall|a: int, b: int| 0 <= a < m.len() && 0 <= b < m.len() && a != b implies m[a]
        != m[b] by {
        if a < b {
            assert(s[a] < s[b]);
        } else {
            assert(s[b] < s[a]);
        }
    }
    assert(m.no_duplicates());
    m.unique_seq_to_set();
    vstd::seq_lib::seq_to_set_is_finite(m);
}

/// The list of meaningful line indices has exactly one entry per meaningful line, so its
/// length is the count of meaningful lines.
pub proof fn law_index_count_agree(
    items: Seq<ParseItem>,
    ignored: Seq<char>,
    t: Seq<char>,
    indices: Seq<usize>,
)
    requires
        strictly_increasing(indices),
        values(indices) == meaningful_lines(items, ignored, t),
    ensures
        indices.len() == meaningful_lines(items, ignored, t).len(),
{
    lemma_increasing_len(indices);
}

/// The number of meaningful lines of `src` under `table`.
pub fn meaningful_line_count(src: &str, table: &LanguageTable) -> (n: usize)
    requires
        src@.len() < usize::MAX,
    ensures
        n == meaningful_lines(table.items@, table.ignored@, src@).len(),
{
    let r = meaningful_line_indices(src, table);
    proof {
        lemma_increasing_len(r@);
    }
    r.len()
}

/// Whether scanning the tokens from position `i` on meets an `Invalid` token.
pub open spec fn invalid_from(items: Seq<ParseItem>, t: Seq<char>, i: int) -> bool
    decreases t.len() - i,
{
    if i < 0 || i >= t.len() {
        false
    } else {
        let tok = token_at(items, t, i);
        let n = tok.spec_len();
        if tok is Invalid {
            true
        } else if n <= 0 || i + n > t.len() {
            false
        } else {
            invalid_from(items, t, i + n)
        }
    }
}

/// The meaningful fragments of the tokens from position `i` on, each line's fragments followed
/// by a newline when the line ends with one and holds any; `pending` holds the fragments kept
/// so far on the current line.
pub open spec fn cleaned_from(
    items: Seq<ParseItem>,
    ignored: Seq<char>,
    t: Seq<char>,
    i: int,
    pending: Seq<char>,
) -> Seq<char>
    decreases t.len() - i,
{
    if i < 0 || i >= t.len() {
        pending
    } else {
        let tok = token_at(items, t, i);
        let n = tok.spec_len();
        if tok is Invalid || n <= 0 || i + n > t.len() {
            pending
        } else if tok is EOL {
            (if pending.len() > 0 {
                pending.push('\n')
            } else {
                seq![]
            }) + cleaned_from(items, ignored, t, i + n, seq![])
        } else if tok is Source && meaningful_fragment(t.subrange(i, i + n), ignored) {
            cleaned_from(items, ignored, t, i + n, pending + t.subrange(i, i + n))
        } else {
            cleaned_from(items, ignored, t, i + n, pending)
        }
    }
}

/// The source with only its meaningful fragments kept, line by line; the source itself where
/// scanning meets an `Invalid` token.
pub open spec fn cleaned(items: Seq<ParseItem>, ignored: Seq<char>, t: Seq<char>) -> Seq<char> {
    if invalid_from(items, t, 0) {
        t
    } else {
        cleaned_from(items, ignored, t, 0, seq![])
    }
}

pub proof fn lemma_cleaned_step(
    items: Seq<ParseItem>,
    ignored: Seq<char>,
    t: Seq<char>,
    i: int,
    pending: Seq<char>,
)
    requires
        0 <= i < t.len() < usize::MAX,
        !(token_at(items, t, i) is Invalid),
    ensures
        ({
            let tok = token_at(items, t, i);
            let n = tok.spec_len();
            &&& 0 < n && i + n <= t.len()
            &&& invalid_from(items, t, i) == invalid_from(items, t, i + n)
            &&& tok is EOL ==> cleaned_from(items, ignored, t, i, pending) == (if pending.len() > 0 {
                pending.push('\n')
            } else {
                seq![]
            }) + cleaned_from(items, ignored, t, i + n, seq![])
            &&& (tok is Source && meaningful_fragment(t.subrange(i, i + n), ignored)) ==> cleaned_from(
                items,
                ignored,
                t,
                i,
                pending,
            ) == cleaned_from(items, ignored, t, i + n, pending + t.subrange(i, i + n))
            &&& (!(tok is EOL) && !(tok is Source && meaningful_fragment(
                t.subrange(i, i + n),
                ignored,
            ))) ==> cleaned_from(items, ignored, t, i, pending) == cleaned_from(
                items,
                ignored,
                t,
                i + n,
                pending,
            )
        }),
{
    lemma_token_len(items, t, i);
}

/// No rule of the table opens anywhere in `c`: the text holds no comment or string syntax.
pub open spec fn no_rule_opens(items: Seq<ParseItem>, c: Seq<char>) -> bool {
    forall|q: int| 0 <= q < c.len() ==> (#[trigger] first_rule_from(items, c.skip(q), 0)) is None
}

/// Where the line that holds position `q` of `c` ends: at its newline, or at the end of `c`.
pub open spec fn line_end(c: Seq<char>, q: int) -> int
    decreases c.len() - q,
{
    if q < 0 || q >= c.len() || c[q] == '\n' {
        q
    } else {
        line_end(c, q + 1)
    }
}

/// Every line of `c` is non-empty and meaningful.
pub open spec fn lines_meaningful(ignored: Seq<char>, c: Seq<char>) -> bool {
    forall|q: int|
        0 <= q < c.len() && (q == 0 || c[q - 1] == '\n') ==> c[q] != '\n' && meaningful_fragment(
            #[trigger] c.subrange(q, line_end(c, q)),
            ignored,
        )
}

proof fn lemma_line_end(c: Seq<char>, q: int)
    requires
        0 <= q <= c.len(),
    ensures
        q <= line_end(c, q) <= c.len(),
        line_end(c, q) < c.len() ==> c[line_end(c, q)] == '\n',
        forall|x: int| q <= x < line_end(c, q) ==> c[x] != '\n',
    decreases c.len() - q,
{
    if q < c.len() && c[q] != '\n' {
        lemma_line_end(c, q + 1);
    }
}

proof fn lemma_plain_source_end(items: Seq<ParseItem>, c: Seq<char>, q: int, x: int)
    requires
        no_rule_opens(items, c),
        0 <= q < c.len(),
        1 <= x <= line_end(c, q + 1) - q,
        forall|y: int| q + 1 <= y < q + x ==> c[y] != '\n',
    ensures
        source_end(items, c.skip(q), x) == line_end(c, q + 1) - q,
    decreases c.len() - q - x,
{
    lemma_line_end(c, q + 1);
    let r = c.skip(q);
    if x < r.len() {
        assert(r.skip(x) =~= c.skip(q + x));
        assert(first_rule_from(items, c.skip(q + x), 0) is None);
        if q + x < line_end(c, q + 1) {
            lemma_plain_source_end(items, c, q, x + 1);
        }
    }
}

proof fn lemma_plain_token(items: Seq<ParseItem>, c: Seq<char>, q: int)
    requires
        no_rule_opens(items, c),
        c.len() < usize::MAX,
        0 <= q < c.len(),
        c[q] != '\n',
    ensures
        token_at(items, c, q) == ParseOutput::Source(
            crate::parse::Span { start: q as usize, end: line_end(c, q) as usize },
        ),
        q < line_end(c, q) <= c.len(),
        line_end(c, q) < c.len() ==> token_at(items, c, line_end(c, q)) == ParseOutput::EOL(
            crate::parse::Span { start: line_end(c, q) as usize, end: (line_end(c, q) + 1) as usize },
        ),
{
    lemma_line_end(c, q);
    lemma_line_end(c, q + 1);
    assert(line_end(c, q) == line_end(c, q + 1));
    assert(first_rule_from(items, c.skip(q), 0) is None);
    lemma_plain_source_end(items, c, q, 1);
    assert(rule_token(items, c.skip(q)) is None);
}

/// Cleaning a text without rule openings, whose lines are all meaningful, from the start of a
/// line gives the rest of the text back.
#[verifier::rlimit(30)]
proof fn lemma_clean_plain(items: Seq<ParseItem>, ignored: Seq<char>, c: Seq<char>, q: int)
    requires
        no_rule_opens(items, c),
        lines_meaningful(ignored, c),
        c.len() < usize::MAX,
        0 <= q <= c.len(),
        q == 0 || c[q - 1] == '\n',
    ensures
        cleaned_from(items, ignored, c, q, seq![]) == c.skip(q),
        !invalid_from(items, c, q),
    decreases c.len() - q,
{
    if q < c.len() {
        let e = line_end(c, q);
        let frag = c.subrange(q, e);
        assert(c[q] != '\n' && meaningful_fragment(frag, ignored));
        lemma_plain_token(items, c, q);
        assert(seq![] + frag =~= frag);
        assert(cleaned_from(items, ignored, c, q, seq![]) == cleaned_from(items, ignored, c, e, frag));
        assert(invalid_from(items, c, q) == invalid_from(items, c, e));
        if e == c.len() {
            assert(frag =~= c.skip(q));
        } else {
            lemma_line_end(c, q);
            lemma_clean_plain(items, ignored, c, e + 1);
            assert(cleaned_from(items, ignored, c, e, frag) == frag.push('\n') + c.skip(e + 1));
            assert(frag.push('\n') + c.skip(e + 1) =~= c.skip(q));
        }
    }
}

/// Cleaning is idempotent on sources whose cleaned text holds no opening of a rule and only
/// meaningful lines: with no comment or string syntax left, cleaning again changes nothing.
pub proof fn law_cleaning_idempotent(items: Seq<ParseItem>, ignored: Seq<char>, t: Seq<char>)
    requires
        no_rule_opens(items, cleaned(items, ignored, t)),
        lines_meaningful(ignored, cleaned(items, ignored, t)),
        cleaned(items, ignored, t).len() < usize::MAX,
    ensures
        cleaned(items, ignored, cleaned(items, ignored, t)) == cleaned(items, ignored, t),
{
    let c = cleaned(items, ignored, t);
    lemma_clean_plain(items, ignored, c, 0);
    assert(c.skip(0) =~= c);
}

/// Appends `t[from..to]` to `out`.
fn push_range(out: &mut String, t: &Vec<char>, from: usize, to: usize)
    requires
        from <= to <= t.len(),
    ensures
        final(out)@ == old(out)@ + t@.subrange(from as int, to as int),
{
    let mut p = from;
    while p < to
        invariant
            from <= p <= to <= t.len(),
            out@ == old(out)@ + t@.subrange(from as int, p as int),
        decreases to - p,
    {
        push_char(out, t[p]);
        assert(t@.subrange(from as int, p + 1) =~= t@.subrange(from as int, p as int).push(t@[p as int]));
        p = p + 1;
    }
}

/// The source with only its meaningful fragments kept under `table`.
#[verifier::rlimit(40)]
pub fn cleaned_source(src: &str, table: &LanguageTable) -> (r: String)
    requires
        src@.len() < usize::MAX,
    ensures
        r@ == cleaned(table.items@, table.ignored@, src@),
{
    let t = to_chars(src);
    let ghost items = table.items@;
    let ghost ign = table.ignored@;
    let mut out = String::new();
    let ghost mut mark: int = 0;
    let mut line_has = false;
    let mut i: usize = 0;
    proof {
        assert(out@.take(0) =~= Seq::<char>::empty());
        assert(out@.skip(0) =~= Seq::<char>::empty());
    }
    while i < t.len()
        invariant
            i <= t.len() < usize::MAX,
            t@ == src@,
            items == table.items@,
            ign == table.ignored@,
            0 <= mark <= out@.len(),
            line_has == (out@.len() > mark),
            invalid_from(items, t@, 0) == invalid_from(items, t@, i as int),
            out@.take(mark) + cleaned_from(items, ign, t@, i as int, out@.skip(mark)) == cleaned_from(
                items,
                ign,
                t@,
                0,
                seq![],
            ),
        decreases t.len() - i,
    {
        let tok = parse_next(&table.items, &t, i);
        if let ParseOutput::Invalid(..) = tok {
            return src.to_owned();
        }
        proof {
            lemma_cleaned_step(items, ign, t@, i as int, out@.skip(mark));
        }
        let n = tok.len();
        let next = i + n;
        let ghost before = out@;
        match tok {
            ParseOutput::EOL(_) => {
                if line_has {
                    push_char(&mut out, '\n');
                    proof {
                        assert(out@.take(mark) + (out@.skip(mark)) =~= before.take(mark) + before.skip(mark).push('\n'));
                        assert(out@.take(out@.len() as int) =~= out@);
                    }
                } else {
                    proof {
                        assert(before.skip(mark) =~= Seq::<char>::empty());
                        assert(out@.take(out@.len() as int) =~= out@.take(mark));
                    }
                }
                proof {
                    assert(out@.skip(out@.len() as int) =~= Seq::<char>::empty());
                    mark = out@.len() as int;
                }
                line_has = false;
            },
            ParseOutput::Source(_) => {
                if fragment_is_meaningful(&t, i, next, table.ignored) {
                    push_range(&mut out, &t, i, next);
                    proof {
                        assert(out@.take(mark) =~= before.take(mark));
                        assert(out@.skip(mark) =~= before.skip(mark) + t@.subrange(i as int, next as int));
                    }
                    line_has = true;
                }
            },
            _ => {},
        }
        i = next;
    }
    proof {
        assert(out@.take(mark) + out@.skip(mark) =~= out@);
    }
    out
}

/// The indices, from 0, of the meaningful lines of `src` in language `L`, in increasing order.
pub fn get_meaningful_line_indices<L: Language>(src: &str) -> (r: Vec<usize>)
    requires
        src@.len() < usize::MAX,
    ensures
        strictly_increasing(r@),
        values(r@) == meaningful_lines(L::spec_items(), L::spec_ignored(), src@),
{
    meaningful_line_indices(src, &L::table())
}

/// The number of meaningful lines of `src` in language `L`.
pub fn get_count_of_meaningful_lines<L: Language>(src: &str) -> (n: usize)
    requires
        src@.len() < usize::MAX,
    ensures
        n == meaningful_lines(L::spec_items(), L::spec_ignored(), src@).len(),
{
    meaningful_line_count(src, &L::table())
}

/// `src` with only its meaningful fragments kept, in language `L`.
pub fn get_cleaned_source_code<L: Language>(src: &str) -> (r: String)
    requires
        src@.len() < usize::MAX,
    ensures
        r@ == cleaned(L::spec_items(), L::spec_ignored(), src@),
{
    cleaned_source(src, &L::table())
}

/// What a line leaves to the next one: nothing, or the token that runs on past its end.
#[derive(Clone, Copy, Debug, PartialEq, Eq)]
pub enum Carry {
    Empty,
    Token(ParseOutput),
}

/// The lines that a carried token makes meaningful.
pub open spec fn carry_lines(ignored: Seq<char>, t: Seq<char>, c: Carry) -> Set<int> {
    match c {
        Carry::Token(ParseOutput::Source(sp)) => if sp.start < sp.end && sp.end <= t.len()
            && meaningful_fragment(t.subrange(sp.start as int, sp.end as int), ignored) {
            lines_of_span(t, sp.start as int, sp.end as int)
        } else {
            Set::empty()
        },
        _ => Set::empty(),
    }
}

/// One step of the token chain for the marked lines: those of the token at `i`, then those
/// from where scanning goes on.
pub proof fn lemma_marked_step(items: Seq<ParseItem>, ignored: Seq<char>, t: Seq<char>, i: int)
    requires
        0 <= i < t.len() < usize::MAX,
    ensures
        marked_from(items, ignored, t, i) == carry_lines(ignored, t, Carry::Token(token_at(items, t, i))).union(
            marked_from(items, ignored, t, next_index(items, t, i)),
        ),
        i < next_index(items, t, i) <= t.len(),
        forall|x: int| #[trigger] carry_lines(ignored, t, Carry::Token(token_at(items, t, i))).contains(x)
            ==> line_of(t, i) <= x <= line_of(t, next_index(items, t, i) - 1),
        token_at(items, t, i) matches ParseOutput::Source(sp) ==> sp.start == i && sp.end == next_index(items, t, i),
{
    lemma_token_len(items, t, i);
    lemma_chain_step(items, t, i);
    let tok = token_at(items, t, i);
    if tok is Invalid {
        assert(marked_from(items, ignored, t, t.len() as int) == Set::<int>::empty());
        assert(marked_from(items, ignored, t, i) =~= carry_lines(ignored, t, Carry::Token(tok)).union(
            marked_from(items, ignored, t, next_index(items, t, i))));
    } else {
        assert(marked_from(items, ignored, t, i) =~= carry_lines(ignored, t, Carry::Token(tok)).union(
            marked_from(items, ignored, t, next_index(items, t, i))));
    }
}

/// The end of the line that starts at `ls`: just past its newline, or the end of `t`.
fn find_line_end(t: &Vec<char>, ls: usize) -> (le: usize)
    requires
        ls < t.len(),
    ensures
        ls < le <= t.len(),
        forall|x: int| ls <= x < le ==> line_of(t@, x) == line_of(t@, ls as int),
        le == t.len() || t@[le - 1] == '\n',
        le < t.len() ==> line_of(t@, le as int) == line_of(t@, ls as int) + 1,
{
    let n = t.len();
    let mut le = ls;
    while le < n && t[le] != '\n'
        invariant
            ls <= le <= n,
            n == t.len(),
            forall|x: int| ls <= x < le ==> t@[x] != '\n',
        decreases n - le,
    {
        le = le + 1;
    }
    let ghost nl = le as int;
    if le < n {
        le = le + 1;
    }
    proof {
        assert forall|x: int| ls <= x < le implies line_of(t@, x) == line_of(t@, ls as int) by {
            lemma_line_const(t@, ls as int, x);
        }
        if le < n {
            lemma_line_const(t@, ls as int, nl);
            lemma_nl_step(t@, nl);
        }
    }
    le
}

/// The number of lines of `t`: one per newline, and one more for a last line without one.
pub open spec fn line_count(t: Seq<char>) -> int {
    nl_count(t) + if t.len() > 0 && t.last() != '\n' {
        1int
    } else {
        0int
    }
}

/// A non-empty text has one line more than the index of the line of its last character.
pub proof fn lemma_line_count(t: Seq<char>)
    requires
        t.len() > 0,
    ensures
        line_count(t) == line_of(t, t.len() - 1) + 1,
{
    lemma_nl_step(t, t.len() - 1);
    assert(t.take(t.len() as int) =~= t);
}

/// The members of `s` from `j` on.
pub open spec fn at_or_after(s: Set<int>, j: int) -> Set<int> {
    s.filter(|x: int| x >= j)
}

/// Classifies the lines of a source one after the other, pulling tokens from the tokenizer
/// as far as each line reaches and carrying a token that runs past a line's end over to the
/// next line.
pub struct ParseLineMeaningfulIndexIter {
    parser: Parser,
    ignored: &'static str,
    line_start: usize,
    line_index: usize,
    carry: Carry,
}

impl ParseLineMeaningfulIndexIter {
    /// The source.
    pub closed spec fn text(&self) -> Seq<char> {
        self.parser.src@
    }

    /// The rules of the table.
    pub closed spec fn rules(&self) -> Seq<ParseItem> {
        self.parser.items@
    }

    /// The characters that do not make a fragment meaningful.
    pub closed spec fn ignored_chars(&self) -> Seq<char> {
        self.ignored@
    }

    /// The index of the next line to classify.
    pub closed spec fn line(&self) -> int {
        self.line_index as int
    }

    /// Every line has been classified.
    pub closed spec fn done(&self) -> bool {
        self.line_start >= self.parser.src.len()
    }

    pub closed spec fn wf(&self) -> bool {
        let t = self.parser.src@;
        let items = self.parser.items@;
        let ign = self.ignored@;
        let ls = self.line_start as int;
        let pi = self.parser.index as int;
        let j = self.line_index as int;
        &&& self.parser.wf()
        &&& ls <= t.len()
        &&& (ls == 0 || ls == t.len() || t[ls - 1] == '\n')
        &&& (ls < t.len() ==> j == line_of(t, ls))
        &&& (ls < t.len() ==> j < line_count(t))
        &&& (ls == t.len() ==> j == line_count(t))
        &&& ls <= pi <= t.len()
        &&& (self.carry matches Carry::Token(ParseOutput::Source(sp)) ==> sp.end == pi && sp.start
            < ls && ls < pi)
        &&& at_or_after(marked_from(items, ign, t, 0), j) == at_or_after(
            marked_from(items, ign, t, pi).union(carry_lines(ign, t, self.carry)),
            j,
        )
    }

    /// Starts classifying `src` under `table` at its first line.
    pub fn new(src: &str, table: LanguageTable) -> (r: Self)
        requires
            src@.len() < usize::MAX,
        ensures
            r.wf(),
            r.text() == src@,
            r.rules() == table.items@,
            r.ignored_chars() == table.ignored@,
            r.line() == 0,
            r.done() <==> src@.len() == 0,
            r.done() <==> r.line() >= line_count(r.text()),
    {
        let ignored = table.ignored;
        let parser = Parser::from_table(src, table);
        proof {
            if parser.src@.len() > 0 {
                lemma_line_count(parser.src@);
                lemma_line_of_mono(parser.src@, 0, parser.src@.len() - 1);
            }
            assert(parser.src@.take(0) =~= Seq::<char>::empty());
            assert(carry_lines(ignored@, parser.src@, Carry::Empty) =~= Set::<int>::empty());
            assert(marked_from(parser.items@, ignored@, parser.src@, 0).union(Set::<int>::empty())
                =~= marked_from(parser.items@, ignored@, parser.src@, 0));
        }
        ParseLineMeaningfulIndexIter { parser, ignored, line_start: 0, line_index: 0, carry: Carry::Empty }
    }

    /// Classifies the next line: `Some(Some(index))` when it is meaningful, `Some(None)` when it
    /// is not, and `None` once every line has been classified.
    #[verifier::rlimit(60)]
    pub fn next(&mut self) -> (r: Option<Option<usize>>)
        requires
            old(self).wf(),
        ensures
            final(self).wf(),
            final(self).text() == old(self).text(),
            final(self).rules() == old(self).rules(),
            final(self).ignored_chars() == old(self).ignored_chars(),
            old(self).done() ==> r is None && final(self).line() == old(self).line(),
            !old(self).done() ==> final(self).line() == old(self).line() + 1,
            final(self).done() <==> final(self).line() >= line_count(final(self).text()),
            !old(self).done() ==> (r matches Some(x) && (x matches Some(k) ==> k == old(self).line())
                && (x is Some <==> meaningful_lines(
                old(self).rules(),
                old(self).ignored_chars(),
                old(self).text(),
            ).contains(old(self).line()))),
    {
        let n = self.parser.src.len();
        if self.line_start >= n {
            return None;
        }
        let ghost t = self.parser.src@;
        let ghost items = self.parser.items@;
        let ghost ign = self.ignored@;
        let ls = self.line_start;
        let j = self.line_index;
        let ghost pi0 = self.parser.index as int;
        let ghost c0 = carry_lines(ign, t, self.carry);
        let ghost carry0 = self.carry;
        let le = find_line_end(&self.parser.src, ls);
        proof {
            lemma_marked_from(items, ign, t, pi0);
            if let Carry::Token(ParseOutput::Source(sp)) = self.carry {
                lemma_line_of_mono(t, sp.start as int, ls as int);
                lemma_line_of_mono(t, ls as int, pi0 - 1);
            }
        }
        // the old carry reaches no further than the line of its last character
        assert(forall|x: int| #[trigger] c0.contains(x) ==> pi0 > ls && x <= line_of(t, pi0 - 1));
        proof {
            lemma_line_of_mono(t, 0, ls as int);
            assert(t.take(0) =~= Seq::<char>::empty());
        }
        let mut meaningful = match self.carry {
            Carry::Token(ParseOutput::Source(sp)) => fragment_is_meaningful(
                &self.parser.src,
                sp.start,
                sp.end,
                self.ignored,
            ),
            _ => false,
        };
        let mut last = self.carry;
        let ghost mut pulled = Set::<int>::empty();
        assert(meaningful == (c0.union(pulled)).contains(j as int));
        while self.parser.index < le
            invariant
                self.parser.wf(),
                self.parser.src@ == t,
                self.parser.items@ == items,
                self.ignored@ == ign,
                t.len() == n,
                ls < le <= n,
                ls as int <= pi0 <= self.parser.index <= n,
                forall|x: int| ls <= x < le ==> line_of(t, x) == j,
                marked_from(items, ign, t, pi0) == pulled.union(
                    marked_from(items, ign, t, self.parser.index as int),
                ),
                meaningful == (c0.union(pulled)).contains(j as int),
                forall|x: int| #[trigger] pulled.contains(x) ==> x <= j || carry_lines(ign, t, last).contains(x),
                self.parser.index > pi0 ==> forall|x: int| #[trigger] carry_lines(ign, t, last).contains(x) ==> pulled.contains(x),
                forall|x: int| #[trigger] carry_lines(ign, t, last).contains(x) ==> x <= line_of(t, self.parser.index - 1),
                forall|x: int| #[trigger] c0.contains(x) ==> pi0 > ls && x <= line_of(t, pi0 - 1),
                self.parser.index > pi0 ==> (last matches Carry::Token(ParseOutput::Source(sp)) ==> sp.end == self.parser.index && sp.start < le),
                self.carry == carry0,
                self.ignored == old(self).ignored,
                c0 == carry_lines(ign, t, carry0),
                self.parser.index == pi0 ==> last == carry0 && pulled == Set::<int>::empty(),
                self.parser.index > pi0 ==> pi0 < le,
            decreases n - self.parser.index,
        {
            let i = self.parser.index;
            proof {
                lemma_marked_step(items, ign, t, i as int);
            }
            let ghost prev_last = last;
            let tok = self.parser.next();
            match tok {
                Some(tk) => {
                    let ghost add = carry_lines(ign, t, Carry::Token(tk));
                    if let ParseOutput::Source(sp) = tk {
                        if fragment_is_meaningful(&self.parser.src, sp.start, sp.end, self.ignored) {
                            meaningful = true;
                        }
                    }
                    proof {
                        if i > pi0 {
                            assert(line_of(t, i - 1) == j);
                        }
                        assert(line_of(t, i as int) == j);
                        if let ParseOutput::Source(sp) = tk {
                            lemma_line_of_mono(t, i as int, sp.end - 1);
                            if meaningful_fragment(t.subrange(sp.start as int, sp.end as int), ign) {
                                assert(add.contains(j as int));
                            } else {
                                assert(add =~= Set::<int>::empty());
                            }
                        } else {
                            assert(add =~= Set::<int>::empty());
                        }
                        pulled = pulled.union(add);
                        assert(marked_from(items, ign, t, pi0) =~= pulled.union(
                            marked_from(items, ign, t, self.parser.index as int),
                        ));
                    }
                    last = Carry::Token(tk);
                },
                None => {},
            }
        }
        let pi = self.parser.index;
        if pi > le {
            self.carry = last;
        } else {
            self.carry = Carry::Empty;
        }
        self.line_start = le;
        self.line_index = j + 1;
        proof {
            lemma_line_count(t);
            if le < n {
                lemma_line_of_mono(t, le as int, n - 1);
            } else {
                assert(line_of(t, n - 1) == j);
            }
            let m0 = marked_from(items, ign, t, 0);
            let mp = marked_from(items, ign, t, pi as int);
            let cn = carry_lines(ign, t, self.carry);
            lemma_marked_from(items, ign, t, pi as int);
            if le < n {
                lemma_line_of_mono(t, le as int, pi as int);
            }
            assert(!mp.contains(j as int));
            if pi0 <= le && pi0 > ls {
                assert(line_of(t, pi0 - 1) == j);
            }
            if pi == le {
                assert(line_of(t, pi - 1) == j);
            }
            assert forall|x: int| x > j && #[trigger] c0.contains(x) implies cn.contains(x) by {
                assert(pi0 > ls);
                if pi > pi0 {
                    assert(pi0 < le);
                    assert(line_of(t, pi0 - 1) == j);
                } else if pi <= le {
                    assert(line_of(t, pi0 - 1) == j);
                } else {
                    assert(self.carry == last);
                    assert(last == carry0);
                }
            }
            assert forall|x: int| x > j && #[trigger] pulled.contains(x) implies cn.contains(x) by {
                assert(pi > pi0);
                assert(carry_lines(ign, t, last).contains(x));
                if pi <= le {
                    assert(line_of(t, pi - 1) == j);
                }
            }
            assert forall|x: int| x > j && #[trigger] cn.contains(x) implies c0.union(pulled).contains(x) by {
                assert(pi > le);
                assert(self.carry == last);
                if pi > pi0 {
                    assert(pulled.contains(x));
                } else {
                    assert(c0.contains(x));
                }
            }
            assert(at_or_after(m0, j as int).contains(j as int) == m0.contains(j as int));
            assert(at_or_after(m0, j + 1) =~= at_or_after(mp.union(cn), j + 1)) by {
                assert forall|x: int| x >= j + 1 implies (m0.contains(x) <==> mp.union(cn).contains(x)) by {
                    assert(at_or_after(m0, j as int).contains(x) == m0.contains(x));
                }
            }
        }
        if meaningful {
            Some(Some(j))
        } else {
            Some(None)
        }
    }
}

} // verus!
