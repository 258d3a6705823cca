//! The declarative rule tables and the pull tokenizer that they drive.
//!
//! All positions and lengths count characters of the source.
use crate::text::{
    alphanumeric, is_alphanumeric, is_single, is_whitespace, range_equals, starts_with,
    starts_with_at, str_contains, to_chars, white_space,
};
use vstd::prelude::*;
use vstd::string::*;

pub mod v2;

verus! {

/// A half-open range `[start, end)` of positions.
#[derive(Clone, Copy, Debug, PartialEq, Eq)]
pub struct Span {
    pub start: usize,
    pub end: usize,
}

impl Span {
    pub fn new(start: usize, end: usize) -> (r: Self)
        ensures
            r.start == start,
            r.end == end,
    {
        Span { start, end }
    }
}

pub type Match = Span;

/// The three contiguous pieces matched by an [`EndPoint`]: its start, its key and its end.
pub type Matches = [Match; 3];

/// A prefix extraction function that a rule table can name.
#[derive(Clone, Copy, Debug, PartialEq, Eq)]
pub enum PrefixFn {
    /// Up to two of the string prefix letters `b`, `r`, `u`; matches the empty string too.
    PythonStringPrefix,
    /// The format string prefixes `fr`, `rf` or `f`; fails on anything else.
    PythonFormatPrefix,
}

pub open spec fn is_bru(c: char) -> bool {
    c == 'b' || c == 'r' || c == 'u'
}

impl PrefixFn {
    /// The length of the prefix of `r` that the function extracts, or `None`.
    pub open spec fn spec_apply(self, r: Seq<char>) -> Option<int> {
        match self {
            PrefixFn::PythonStringPrefix => {
                if r.len() > 0 && is_bru(r[0]) {
                    if r.len() > 1 && is_bru(r[1]) {
                        Some(2)
                    } else {
                        Some(1)
                    }
                } else {
                    Some(0)
                }
            },
            PrefixFn::PythonFormatPrefix => {
                if r.len() >= 2 && ((r[0] == 'f' && r[1] == 'r') || (r[0] == 'r' && r[1] == 'f')) {
                    Some(2)
                } else if r.len() >= 1 && r[0] == 'f' {
                    Some(1)
                } else {
                    None
                }
            },
        }
    }

    pub fn apply(&self, t: &Vec<char>, pos: usize) -> (r: Option<usize>)
        requires
            pos <= t.len(),
        ensures
            as_int(r) == self.spec_apply(t@.skip(pos as int)),
    {
        let n = t.len() - pos;
        match self {
            PrefixFn::PythonStringPrefix => {
                if n > 0 && (t[pos] == 'b' || t[pos] == 'r' || t[pos] == 'u') {
                    if n > 1 && (t[pos + 1] == 'b' || t[pos + 1] == 'r' || t[pos + 1] == 'u') {
                        Some(2)
                    } else {
                        Some(1)
                    }
                } else {
                    Some(0)
                }
            },
            PrefixFn::PythonFormatPrefix => {
                if n >= 2 && ((t[pos] == 'f' && t[pos + 1] == 'r') || (t[pos] == 'r' && t[pos + 1]
                    == 'f')) {
                    Some(2)
                } else if n >= 1 && t[pos] == 'f' {
                    Some(1)
                } else {
                    None
                }
            },
        }
    }
}

/// A length as a mathematical integer.
pub open spec fn as_int(o: Option<usize>) -> Option<int> {
    match o {
        Some(n) => Some(n as int),
        None => None,
    }
}

/// A matcher of a prefix of the text.
#[derive(Clone, Copy, Debug)]
pub enum Matcher {
    /// The literal itself.
    Exact(&'static str),
    /// The literal, of which all but its last character is consumed; at the very last
    /// character of the text, a newline literal consumes that character.
    PreExact(&'static str),
    /// As many repetitions of the literal as follow, possibly none.
    Repeat(&'static str),
    /// What the named extraction function returns.
    Fn(PrefixFn),
    /// The longest run of alphanumeric characters, possibly empty.
    AnyAlphaNumeric,
    /// The empty string.
    Empty,
}

/// Length of the longest prefix of `r` made of repetitions of `s`.
pub open spec fn repeat_len(s: Seq<char>, r: Seq<char>) -> int
    decreases r.len(),
{
    if s.len() > 0 && starts_with(r, s) {
        s.len() + repeat_len(s, r.skip(s.len() as int))
    } else {
        0
    }
}

/// Length of the longest prefix of `r` made of alphanumeric characters.
pub open spec fn alnum_run(r: Seq<char>) -> int
    decreases r.len(),
{
    if r.len() > 0 && alphanumeric(r[0]) {
        1 + alnum_run(r.skip(1))
    } else {
        0
    }
}

pub proof fn lemma_repeat_len_bounds(s: Seq<char>, r: Seq<char>)
    ensures
        0 <= repeat_len(s, r) <= r.len(),
    decreases r.len(),
{
    if s.len() > 0 && starts_with(r, s) {
        lemma_repeat_len_bounds(s, r.skip(s.len() as int));
    }
}

pub proof fn lemma_alnum_run_bounds(r: Seq<char>)
    ensures
        0 <= alnum_run(r) <= r.len(),
    decreases r.len(),
{
    if r.len() > 0 && alphanumeric(r[0]) {
        lemma_alnum_run_bounds(r.skip(1));
    }
}

impl Matcher {
    /// The length of the prefix of `r` that the matcher consumes, or `None` when it fails.
    pub open spec fn spec_match(self, r: Seq<char>) -> Option<int> {
        match self {
            Matcher::Exact(s) => if starts_with(r, s@) {
                Some(s@.len() as int)
            } else {
                None
            },
            Matcher::PreExact(s) => if s@.len() > 0 && starts_with(r, s@) {
                Some(s@.len() - 1)
            } else if s@ == seq!['\n'] && r.len() == 1 {
                Some(1)
            } else {
                None
            },
            Matcher::Repeat(s) => Some(repeat_len(s@, r)),
            Matcher::Fn(f) => f.spec_apply(r),
            Matcher::AnyAlphaNumeric => Some(alnum_run(r)),
            Matcher::Empty => Some(0),
        }
    }

    pub proof fn lemma_match_bounds(self, r: Seq<char>)
        ensures
            self.spec_match(r) matches Some(n) ==> 0 <= n <= r.len(),
    {
        match self {
            Matcher::Repeat(s) => lemma_repeat_len_bounds(s@, r),
            Matcher::AnyAlphaNumeric => lemma_alnum_run_bounds(r),
            _ => {},
        }
    }

    /// The length of the prefix of `t[pos..]` that the matcher consumes.
    pub fn get_match(&self, t: &Vec<char>, pos: usize) -> (r: Option<usize>)
        requires
            pos <= t.len(),
        ensures
            as_int(r) == self.spec_match(t@.skip(pos as int)),
            r matches Some(n) ==> pos + n <= t.len(),
    {
        proof {
            self.lemma_match_bounds(t@.skip(pos as int));
        }
        match self {
            Matcher::Exact(s) => {
                if starts_with_at(t, pos, s) {
                    Some(s.unicode_len())
                } else {
                    None
                }
            },
            Matcher::PreExact(s) => {
                let n = s.unicode_len();
                if n > 0 && starts_with_at(t, pos, s) {
                    Some(n - 1)
                } else if is_single(s, '\n') && t.len() - pos == 1 {
                    Some(1)
                } else {
                    None
                }
            },
            Matcher::Repeat(s) => {
                let n = s.unicode_len();
                if n == 0 {
                    return Some(0);
                }
                let mut i: usize = 0;
                while starts_with_at(t, pos + i, s)
                    invariant
                        n == s@.len(),
                        n > 0,
                        pos + i <= t.len(),
                        repeat_len(s@, t@.skip(pos as int)) == i + repeat_len(
                            s@,
                            t@.skip(pos + i),
                        ),
                    decreases t.len() - pos - i,
                {
                    assert(t@.skip(pos + i).skip(n as int) =~= t@.skip(pos + i + n));
                    i = i + n;
                }
                Some(i)
            },
            Matcher::Fn(f) => f.apply(t, pos),
            Matcher::AnyAlphaNumeric => {
                let mut i: usize = 0;
                while pos + i < t.len() && is_alphanumeric(t[pos + i])
                    invariant
                        pos + i <= t.len(),
                        alnum_run(t@.skip(pos as int)) == i + alnum_run(t@.skip(pos + i)),
                    decreases t.len() - pos - i,
                {
                    assert(t@.skip(pos + i).skip(1) =~= t@.skip(pos + i + 1));
                    i = i + 1;
                }
                Some(i)
            },
            Matcher::Empty => Some(0),
        }
    }
}

/// Three matchers applied one after the other: a start, a key and an end.
#[derive(Clone, Copy, Debug)]
pub struct EndPoint {
    pub start: Matcher,
    pub key: Matcher,
    pub end: Matcher,
}

/// The ends of the three pieces of a match, when they lie one after the other from 0.
pub open spec fn matches_view(r: Option<Matches>) -> Option<(int, int, int)> {
    match r {
        Some(m) => if m[0].start == 0 && m[1].start == m[0].end && m[2].start == m[1].end {
            Some((m[0].end as int, m[1].end as int, m[2].end as int))
        } else {
            None
        },
        None => None,
    }
}

impl EndPoint {
    /// Where the start, the key and the end of a match at the beginning of `r` end.
    pub open spec fn spec_matches(self, r: Seq<char>) -> Option<(int, int, int)> {
        match self.start.spec_match(r) {
            None => None,
            Some(a) => match self.key.spec_match(r.skip(a)) {
                None => None,
                Some(b) => match self.end.spec_match(r.skip(a + b)) {
                    None => None,
                    Some(c) => Some((a, a + b, a + b + c)),
                },
            },
        }
    }

    /// A match whose key is exactly `key`.
    pub open spec fn spec_matches_with_key(self, r: Seq<char>, key: Seq<char>) -> Option<
        (int, int, int),
    > {
        match self.spec_matches(r) {
            Some((a, b, c)) => if r.subrange(a, b) == key {
                Some((a, b, c))
            } else {
                None
            },
            None => None,
        }
    }

    pub proof fn lemma_matches_bounds(self, r: Seq<char>)
        ensures
            self.spec_matches(r) matches Some((a, b, c)) ==> 0 <= a <= b <= c <= r.len(),
    {
        self.start.lemma_match_bounds(r);
        if let Some(a) = self.start.spec_match(r) {
            self.key.lemma_match_bounds(r.skip(a));
            if let Some(b) = self.key.spec_match(r.skip(a)) {
                self.end.lemma_match_bounds(r.skip(a + b));
            }
        }
    }

    /// The match at `t[pos..]`, with positions relative to `pos`.
    pub fn matches_at(&self, t: &Vec<char>, pos: usize) -> (r: Option<Matches>)
        requires
            pos <= t.len(),
        ensures
            matches_view(r) == self.spec_matches(t@.skip(pos as int)),
            r is Some ==> matches_view(r) is Some,
            r matches Some(m) ==> pos + m[2].end <= t.len(),
    {
        let ghost rest = t@.skip(pos as int);
        let s1 = match self.start.get_match(t, pos) {
            Some(n) => n,
            None => return None,
        };
        assert(t@.skip(pos + s1) =~= rest.skip(s1 as int));
        let k = match self.key.get_match(t, pos + s1) {
            Some(n) => n,
            None => return None,
        };
        let s2 = s1 + k;
        assert(t@.skip(pos + s2) =~= rest.skip(s2 as int));
        let e = match self.end.get_match(t, pos + s2) {
            Some(n) => n,
            None => return None,
        };
        let s3 = s2 + e;
        Some([Span::new(0, s1), Span::new(s1, s2), Span::new(s2, s3)])
    }

    /// The match at the beginning of `src`.
    pub fn matches(&self, src: &str) -> (r: Option<Matches>)
        ensures
            matches_view(r) == self.spec_matches(src@),
            r is Some ==> matches_view(r) is Some,
    {
        let t = to_chars(src);
        assert(t@.skip(0) =~= t@);
        self.matches_at(&t, 0)
    }

    /// The match at `t[pos..]` whose key is exactly `k[ks..ke]`.
    pub fn matches_with_key_at(&self, t: &Vec<char>, pos: usize, k: &Vec<char>, ks: usize, ke: usize) -> (r:
        Option<Matches>)
        requires
            pos <= t.len(),
            ks <= ke <= k.len(),
        ensures
            matches_view(r) == self.spec_matches_with_key(
                t@.skip(pos as int),
                k@.subrange(ks as int, ke as int),
            ),
            r is Some ==> matches_view(r) is Some,
            r matches Some(m) ==> pos + m[2].end <= t.len(),
    {
        let m = self.matches_at(t, pos);
        match m {
            Some(spans) => {
                proof {
                    self.lemma_matches_bounds(t@.skip(pos as int));
                }
                let a = pos + spans[1].start;
                let b = pos + spans[1].end;
                assert(t@.skip(pos as int).subrange(spans[1].start as int, spans[1].end as int)
                    =~= t@.subrange(a as int, b as int));
                if range_equals(t, a, b, k, ks, ke) {
                    Some(spans)
                } else {
                    None
                }
            },
            None => None,
        }
    }

    /// The match at the beginning of `src` whose key is exactly `key`.
    pub fn matches_with_key(&self, src: &str, key: &str) -> (r: Option<Matches>)
        ensures
            matches_view(r) == self.spec_matches_with_key(src@, key@),
            r is Some ==> matches_view(r) is Some,
    {
        let t = to_chars(src);
        let k = to_chars(key);
        assert(t@.skip(0) =~= t@);
        assert(k@.subrange(0, k@.len() as int) =~= k@);
        self.matches_with_key_at(&t, 0, &k, 0, k.len())
    }
}

/// An endpoint made of the literal `s` alone.
pub open spec fn fixed(s: &'static str) -> EndPoint {
    EndPoint { start: Matcher::Exact(s), key: Matcher::Empty, end: Matcher::Empty }
}

/// An endpoint made of the literal `s` less its last character.
pub open spec fn pre_fixed(s: &'static str) -> EndPoint {
    EndPoint { start: Matcher::PreExact(s), key: Matcher::Empty, end: Matcher::Empty }
}

/// How a token opens and how it closes.
#[derive(Clone, Copy, Debug)]
pub struct ItemRange {
    pub begin: EndPoint,
    pub end: EndPoint,
}

/// An [`ItemRange`] whose opening is known and whose closing is still to be given.
#[derive(Clone, Copy, Debug)]
pub struct BuilderItemRange {
    pub begin: EndPoint,
}

impl BuilderItemRange {
    /// Closes with the literal `src`.
    pub fn fixed_end(self, src: &'static str) -> (r: ItemRange)
        ensures
            r == (ItemRange {
                begin: self.begin,
                end: EndPoint { start: Matcher::Exact(src), key: Matcher::Empty, end: Matcher::Empty },
            }),
    {
        ItemRange {
            begin: self.begin,
            end: EndPoint { start: Matcher::Exact(src), key: Matcher::Empty, end: Matcher::Empty },
        }
    }

    /// Closes just before the last character of the literal `src`.
    pub fn pre_fixed_end(self, src: &'static str) -> (r: ItemRange)
        requires
            src@.len() > 0,
        ensures
            r == (ItemRange {
                begin: self.begin,
                end: EndPoint {
                    start: Matcher::PreExact(src),
                    key: Matcher::Empty,
                    end: Matcher::Empty,
                },
            }),
    {
        ItemRange {
            begin: self.begin,
            end: EndPoint { start: Matcher::PreExact(src), key: Matcher::Empty, end: Matcher::Empty },
        }
    }

    /// Closes with the three given matchers.
    pub fn end_matcher(self, start: Matcher, key: Matcher, end: Matcher) -> (r: ItemRange)
        ensures
            r == (ItemRange { begin: self.begin, end: EndPoint { start, key, end } }),
    {
        ItemRange { begin: self.begin, end: EndPoint { start, key, end } }
    }
}

impl ItemRange {
    /// Opens with the literal `src`.
    pub fn fixed_start(src: &'static str) -> (r: BuilderItemRange)
        ensures
            r == (BuilderItemRange {
                begin: EndPoint { start: Matcher::Exact(src), key: Matcher::Empty, end: Matcher::Empty },
            }),
    {
        BuilderItemRange {
            begin: EndPoint { start: Matcher::Exact(src), key: Matcher::Empty, end: Matcher::Empty },
        }
    }

    /// Opens with the three given matchers.
    pub fn start_matcher(start: Matcher, key: Matcher, end: Matcher) -> (r: BuilderItemRange)
        ensures
            r == (BuilderItemRange { begin: EndPoint { start, key, end } }),
    {
        BuilderItemRange { begin: EndPoint { start, key, end } }
    }
}

/// What a rule of a table recognizes.
#[derive(Clone, Copy, Debug, PartialEq, Eq)]
pub enum TokenKind {
    Comment,
    String,
    /// A delimited piece that still counts as source, such as a format string.
    Source,
}

/// A rule of a language table. The flag of a comment or string rule says whether the closing
/// key must repeat the opening key (a source rule is never keyed); `Escaped` lets a backslash hide the closing sequence.
#[derive(Debug)]
pub enum ParseItem {
    Comment(ItemRange, bool),
    String(ItemRange, bool),
    InSource(ItemRange, bool),
    Escaped(Box<ParseItem>),
    UnEscaped(Box<ParseItem>),
}

impl ParseItem {
    pub open spec fn spec_range(self) -> ItemRange
        decreases self,
    {
        match self {
            ParseItem::Comment(r, _) => r,
            ParseItem::String(r, _) => r,
            ParseItem::InSource(r, _) => r,
            ParseItem::Escaped(p) => p.spec_range(),
            ParseItem::UnEscaped(p) => p.spec_range(),
        }
    }

    pub open spec fn spec_begin(self) -> EndPoint {
        self.spec_range().begin
    }

    pub open spec fn spec_end(self) -> EndPoint {
        self.spec_range().end
    }

    pub open spec fn spec_keyed(self) -> bool
        decreases self,
    {
        match self {
            ParseItem::Comment(_, k) => k,
            ParseItem::String(_, k) => k,
            ParseItem::InSource(..) => false,
            ParseItem::Escaped(p) => p.spec_keyed(),
            ParseItem::UnEscaped(p) => p.spec_keyed(),
        }
    }

    pub open spec fn spec_escaped(self) -> bool {
        self is Escaped
    }

    pub open spec fn spec_kind(self) -> TokenKind
        decreases self,
    {
        match self {
            ParseItem::Comment(..) => TokenKind::Comment,
            ParseItem::String(..) => TokenKind::String,
            ParseItem::InSource(..) => TokenKind::Source,
            ParseItem::Escaped(p) => p.spec_kind(),
            ParseItem::UnEscaped(p) => p.spec_kind(),
        }
    }

    /// How a token of this rule opens.
    pub fn begin(&self) -> (r: &EndPoint)
        ensures
            *r == self.spec_begin(),
        decreases self,
    {
        match self {
            ParseItem::Comment(r, _) => &r.begin,
            ParseItem::String(r, _) => &r.begin,
            ParseItem::InSource(r, _) => &r.begin,
            ParseItem::Escaped(p) => p.begin(),
            ParseItem::UnEscaped(p) => p.begin(),
        }
    }

    /// How a token of this rule closes.
    pub fn end(&self) -> (r: &EndPoint)
        ensures
            *r == self.spec_end(),
        decreases self,
    {
        match self {
            ParseItem::Comment(r, _) => &r.end,
            ParseItem::String(r, _) => &r.end,
            ParseItem::InSource(r, _) => &r.end,
            ParseItem::Escaped(p) => p.end(),
            ParseItem::UnEscaped(p) => p.end(),
        }
    }

    /// Whether the closing key must repeat the opening key.
    pub fn is_keyed(&self) -> (r: bool)
        ensures
            r == self.spec_keyed(),
        decreases self,
    {
        match self {
            ParseItem::Comment(_, k) => *k,
            ParseItem::String(_, k) => *k,
            ParseItem::InSource(..) => false,
            ParseItem::Escaped(p) => p.is_keyed(),
            ParseItem::UnEscaped(p) => p.is_keyed(),
        }
    }

    /// The same as [`ParseItem::is_keyed`].
    pub fn is_key_matched(&self) -> (r: bool)
        ensures
            r == self.spec_keyed(),
    {
        self.is_keyed()
    }

    /// Whether a backslash hides the closing sequence that follows it.
    pub fn is_escaped(&self) -> (r: bool)
        ensures
            r == self.spec_escaped(),
    {
        match self {
            ParseItem::Escaped(_) => true,
            _ => false,
        }
    }

    /// What this rule recognizes.
    pub fn kind(&self) -> (r: TokenKind)
        ensures
            r == self.spec_kind(),
        decreases self,
    {
        match self {
            ParseItem::Comment(..) => TokenKind::Comment,
            ParseItem::String(..) => TokenKind::String,
            ParseItem::InSource(..) => TokenKind::Source,
            ParseItem::Escaped(p) => p.kind(),
            ParseItem::UnEscaped(p) => p.kind(),
        }
    }

    pub open spec fn spec_output(self, span: Span) -> ParseOutput {
        match self.spec_kind() {
            TokenKind::Comment => ParseOutput::Comment(span),
            TokenKind::String => ParseOutput::String(span),
            TokenKind::Source => ParseOutput::Source(span),
        }
    }

    /// The token that this rule makes of the text at `span`.
    pub fn to_parse_output(&self, span: Span) -> (r: ParseOutput)
        ensures
            r == self.spec_output(span),
    {
        match self.kind() {
            TokenKind::Comment => ParseOutput::Comment(span),
            TokenKind::String => ParseOutput::String(span),
            TokenKind::Source => ParseOutput::Source(span),
        }
    }
}

/// A token, with the span of the source that it covers.
#[derive(Clone, Copy, Debug, PartialEq, Eq)]
pub enum ParseOutput {
    Comment(Span),
    String(Span),
    Source(Span),
    /// Scanning stopped at the given position, with the given number of characters left.
    Invalid(usize, usize),
    EOL(Span),
    EOF,
}

impl ParseOutput {
    pub open spec fn spec_len(self) -> int {
        match self {
            ParseOutput::Comment(s) => s.end - s.start,
            ParseOutput::String(s) => s.end - s.start,
            ParseOutput::Source(s) => s.end - s.start,
            ParseOutput::EOL(_) => 1,
            ParseOutput::Invalid(..) => 0,
            ParseOutput::EOF => 0,
        }
    }

    /// The number of characters that the token consumes.
    pub fn len(&self) -> (r: usize)
        requires
            self.spec_len() >= 0,
        ensures
            r == self.spec_len(),
    {
        match self {
            ParseOutput::Comment(s) => s.end - s.start,
            ParseOutput::String(s) => s.end - s.start,
            ParseOutput::Source(s) => s.end - s.start,
            ParseOutput::EOL(_) => 1,
            ParseOutput::Invalid(..) => 0,
            ParseOutput::EOF => 0,
        }
    }
}

/// A language's rules, in priority order, and the characters besides white space that do
/// not make a source fragment meaningful.
pub struct LanguageTable {
    pub items: Vec<ParseItem>,
    pub ignored: &'static str,
}

/// A language whose rule table drives the tokenizer.
pub trait Language {
    spec fn spec_items() -> Seq<ParseItem>;

    spec fn spec_ignored() -> Seq<char>;

    fn table() -> (r: LanguageTable)
        ensures
            r.items@ == Self::spec_items(),
            r.ignored@ == Self::spec_ignored(),
    ;
}

/// A source fragment is meaningful when it holds a character that is neither white space
/// nor one of the `ignored` characters.
pub open spec fn meaningful_fragment(s: Seq<char>, ignored: Seq<char>) -> bool {
    exists|k: int| 0 <= k < s.len() && !white_space(#[trigger] s[k]) && !ignored.contains(s[k])
}

/// Whether `t[a..b]` is a meaningful fragment.
pub fn fragment_is_meaningful(t: &Vec<char>, a: usize, b: usize, ignored: &str) -> (r: bool)
    requires
        a <= b <= t.len(),
    ensures
        r == meaningful_fragment(t@.subrange(a as int, b as int), ignored@),
{
    let ghost s = t@.subrange(a as int, b as int);
    let mut i: usize = a;
    while i < b
        invariant
            a <= i <= b <= t.len(),
            s == t@.subrange(a as int, b as int),
            forall|k: int|
                0 <= k < i - a ==> white_space(#[trigger] s[k]) || ignored@.contains(s[k]),
        decreases b - i,
    {
        let c = t[i];
        if !is_whitespace(c) && !str_contains(ignored, c) {
            assert(s[i - a] == c);
            return true;
        }
        i = i + 1;
    }
    false
}

/// Whether `src` is a meaningful fragment when the characters of `ignored` do not count.
pub fn is_meaningful_src(src: &str, ignored: &str) -> (r: bool)
    ensures
        r == meaningful_fragment(src@, ignored@),
{
    let t = to_chars(src);
    assert(t@.subrange(0, t@.len() as int) =~= t@);
    fragment_is_meaningful(&t, 0, t.len(), ignored)
}

impl ParseOutput {
    /// Whether the token is a meaningful source fragment of `t`.
    pub fn is_meaningful(&self, t: &Vec<char>, ignored: &str) -> (r: bool)
        ensures
            r == (self matches ParseOutput::Source(sp) && sp.start <= sp.end <= t.len()
                && meaningful_fragment(t@.subrange(sp.start as int, sp.end as int), ignored@)),
    {
        match self {
            ParseOutput::Source(sp) => {
                if sp.start <= sp.end && sp.end <= t.len() {
                    fragment_is_meaningful(t, sp.start, sp.end, ignored)
                } else {
                    false
                }
            },
            _ => false,
        }
    }
}

/// The first rule, at index `k` or after, whose opening matches at the beginning of `r`.
pub open spec fn first_rule_from(items: Seq<ParseItem>, r: Seq<char>, k: int) -> Option<int>
    decreases items.len() - k,
{
    if k < 0 || k >= items.len() {
        None
    } else if items[k].spec_begin().spec_matches(r) is Some {
        Some(k)
    } else {
        first_rule_from(items, r, k + 1)
    }
}

/// Scanning `r` from position `p` for the closing sequence of `item`: the position where it
/// matches and the length of its match. `key` is the opening key; `esc` says that the
/// character before `p` was a backslash that escapes the one at `p`.
pub open spec fn end_search(item: ParseItem, r: Seq<char>, key: Seq<char>, p: int, esc: bool) -> Option<
    (int, int),
>
    decreases r.len() - p,
{
    if p < 0 || p >= r.len() {
        None
    } else if esc {
        end_search(item, r, key, p + 1, false)
    } else if item.spec_escaped() && r[p] == '\\' {
        end_search(item, r, key, p + 1, true)
    } else {
        let m = if item.spec_keyed() {
            item.spec_end().spec_matches_with_key(r.skip(p), key)
        } else {
            item.spec_end().spec_matches(r.skip(p))
        };
        match m {
            Some((_, _, e)) => Some((p, e)),
            None => end_search(item, r, key, p + 1, false),
        }
    }
}

/// The rule that makes a token at the beginning of `r`, and the token's length: the first
/// rule whose opening matches, closed at the first place where its closing matches.
pub open spec fn rule_token(items: Seq<ParseItem>, r: Seq<char>) -> Option<(int, int)> {
    match first_rule_from(items, r, 0) {
        None => None,
        Some(k) => match items[k].spec_begin().spec_matches(r) {
            None => None,
            Some((a, b, c)) => match end_search(items[k], r, r.subrange(a, b), c, false) {
                None => None,
                Some((p, e)) => Some((k, p + e)),
            },
        },
    }
}

/// Where a source fragment that starts at the beginning of `r` ends, looking from `q`: at the
/// end of `r`, at a newline, or where the opening of some rule matches.
pub open spec fn source_end(items: Seq<ParseItem>, r: Seq<char>, q: int) -> int
    decreases r.len() - q,
{
    if q >= r.len() {
        r.len() as int
    } else if q >= 0 && (r[q] == '\n' || first_rule_from(items, r.skip(q), 0) is Some) {
        q
    } else {
        source_end(items, r, q + 1)
    }
}

/// The token that starts at position `i` of `t`.
pub open spec fn token_at(items: Seq<ParseItem>, t: Seq<char>, i: int) -> ParseOutput {
    let r = t.skip(i);
    if i < 0 || i >= t.len() {
        ParseOutput::EOF
    } else if r[0] == '\n' {
        ParseOutput::EOL(Span { start: i as usize, end: (i + 1) as usize })
    } else {
        match rule_token(items, r) {
            Some((k, n)) => if n == 0 {
                ParseOutput::Invalid(i as usize, (t.len() - i) as usize)
            } else {
                items[k].spec_output(Span { start: i as usize, end: (i + n) as usize })
            },
            None => ParseOutput::Source(
                Span { start: i as usize, end: (i + source_end(items, r, 1)) as usize },
            ),
        }
    }
}

/// Where scanning goes on after the token at `i`.
pub open spec fn next_index(items: Seq<ParseItem>, t: Seq<char>, i: int) -> int {
    if i >= t.len() {
        t.len() + 1int
    } else {
        match token_at(items, t, i) {
            ParseOutput::Invalid(..) => t.len() as int,
            tok => i + tok.spec_len(),
        }
    }
}

/// The tokens of `t` from position `i` on, ending with `EOF`.
pub open spec fn token_chain(items: Seq<ParseItem>, t: Seq<char>, i: int) -> Seq<ParseOutput>
    decreases t.len() - i,
{
    if i < 0 || i >= t.len() {
        seq![ParseOutput::EOF]
    } else {
        let tok = token_at(items, t, i);
        if tok is Invalid || tok.spec_len() <= 0 || i + tok.spec_len() > t.len() {
            seq![tok, ParseOutput::EOF]
        } else {
            seq![tok] + token_chain(items, t, i + tok.spec_len())
        }
    }
}

pub proof fn lemma_end_search_bounds(item: ParseItem, r: Seq<char>, key: Seq<char>, p: int, esc: bool)
    ensures
        end_search(item, r, key, p, esc) matches Some((q, e)) ==> p <= q && 0 <= e && q + e <= r.len(),
    decreases r.len() - p,
{
    if p < 0 || p >= r.len() {
    } else if esc {
        lemma_end_search_bounds(item, r, key, p + 1, false);
    } else if item.spec_escaped() && r[p] == '\\' {
        lemma_end_search_bounds(item, r, key, p + 1, true);
    } else {
        item.spec_end().lemma_matches_bounds(r.skip(p));
        lemma_end_search_bounds(item, r, key, p + 1, false);
    }
}

pub proof fn lemma_source_end_bounds(items: Seq<ParseItem>, r: Seq<char>, q: int)
    requires
        0 <= q <= r.len(),
    ensures
        q <= source_end(items, r, q) <= r.len(),
    decreases r.len() - q,
{
    if q < r.len() && !(r[q] == '\n' || first_rule_from(items, r.skip(q), 0) is Some) {
        lemma_source_end_bounds(items, r, q + 1);
    }
}

pub proof fn lemma_first_rule_bounds(items: Seq<ParseItem>, r: Seq<char>, k: int)
    requires
        0 <= k,
    ensures
        first_rule_from(items, r, k) matches Some(j) ==> k <= j < items.len()
            && items[j].spec_begin().spec_matches(r) is Some,
    decreases items.len() - k,
{
    if k < items.len() && !(items[k].spec_begin().spec_matches(r) is Some) {
        lemma_first_rule_bounds(items, r, k + 1);
    }
}

/// Every token but `Invalid` and `EOF` consumes at least one character, and no more than are
/// left.
pub proof fn lemma_token_len(items: Seq<ParseItem>, t: Seq<char>, i: int)
    requires
        0 <= i < t.len(),
        t.len() < usize::MAX,
    ensures
        !(token_at(items, t, i) is Invalid) ==> 0 < token_at(items, t, i).spec_len() <= t.len() - i,
        !(token_at(items, t, i) is EOF),
        token_at(items, t, i) is Source ==> token_at(items, t, i)->Source_0.start == i
            && token_at(items, t, i)->Source_0.end == i + token_at(items, t, i).spec_len(),
{
    let r = t.skip(i);
    lemma_source_end_bounds(items, r, 1);
    lemma_first_rule_bounds(items, r, 0);
    if let Some(k) = first_rule_from(items, r, 0) {
        items[k].spec_begin().lemma_matches_bounds(r);
        if let Some((a, b, c)) = items[k].spec_begin().spec_matches(r) {
            lemma_end_search_bounds(items[k], r, r.subrange(a, b), c, false);
            if let Some((p, e)) = end_search(items[k], r, r.subrange(a, b), c, false) {
                let sp = Span { start: i as usize, end: (i + p + e) as usize };
                assert(sp.end - sp.start == p + e);
                match items[k].spec_kind() {
                    TokenKind::Comment => {},
                    TokenKind::String => {},
                    TokenKind::Source => {},
                }
            }
        }
    }
}

/// One step of the token chain: the token at `i`, then the chain from where scanning goes
/// on (nothing more but `EOF` after an `Invalid` token).
pub proof fn lemma_chain_step(items: Seq<ParseItem>, t: Seq<char>, i: int)
    requires
        0 <= i <= t.len(),
        t.len() < usize::MAX,
    ensures
        i == t.len() ==> token_chain(items, t, i) == seq![ParseOutput::EOF],
        i < t.len() ==> token_chain(items, t, i) == seq![token_at(items, t, i)] + token_chain(
            items,
            t,
            next_index(items, t, i),
        ),
        i < t.len() ==> next_index(items, t, i) > i,
        i < t.len() ==> next_index(items, t, i) <= t.len(),
{
    if i < t.len() {
        lemma_token_len(items, t, i);
        let tok = token_at(items, t, i);
        if tok is Invalid {
            assert(token_chain(items, t, t.len() as int) == seq![ParseOutput::EOF]);
        }
    }
}

/// The number of backslashes right before position `p` of `r`, looking no further back
/// than `s`.
pub open spec fn backslash_run(r: Seq<char>, s: int, p: int) -> int
    decreases p - s,
{
    if p <= s || p - 1 >= r.len() || r[p - 1] != '\\' {
        0
    } else {
        1 + backslash_run(r, s, p - 1)
    }
}

/// Where the closing sequence of `item` matches at position `p` of `r`, the length of that
/// match; the key must begin with `key` when the item is keyed.
pub open spec fn closes_at(item: ParseItem, r: Seq<char>, key: Seq<char>, p: int) -> Option<int> {
    let m = if item.spec_keyed() {
        item.spec_end().spec_matches_with_key(r.skip(p), key)
    } else {
        item.spec_end().spec_matches(r.skip(p))
    };
    match m {
        Some((_, _, e)) => Some(e),
        None => None,
    }
}

/// A position where an escaped item may close: not itself a backslash, and preceded by an
/// even number of backslashes (none, or pairs that escape each other).
pub open spec fn may_close(item: ParseItem, r: Seq<char>, key: Seq<char>, s: int, p: int) -> bool {
    &&& r[p] != '\\'
    &&& backslash_run(r, s, p) % 2 == 0
    &&& closes_at(item, r, key, p) is Some
}

proof fn lemma_escape_scan(item: ParseItem, r: Seq<char>, key: Seq<char>, s: int, q: int, esc: bool)
    requires
        item.spec_escaped(),
        0 <= s <= q,
        esc == (backslash_run(r, s, q) % 2 == 1),
        forall|x: int| s <= x < q && x < r.len() ==> !may_close(item, r, key, s, x),
    ensures
        match end_search(item, r, key, q, esc) {
            Some((p, e)) => q <= p < r.len() && may_close(item, r, key, s, p) && closes_at(
                item,
                r,
                key,
                p,
            ) == Some(e) && forall|x: int| s <= x < p ==> !may_close(item, r, key, s, x),
            None => forall|x: int| s <= x < r.len() ==> !may_close(item, r, key, s, x),
        },
    decreases r.len() - q,
{
    if q >= r.len() {
    } else {
        assert(backslash_run(r, s, q + 1) == if r[q] == '\\' {
            1 + backslash_run(r, s, q)
        } else {
            0
        });
        if esc {
            assert(!may_close(item, r, key, s, q));
            lemma_escape_scan(item, r, key, s, q + 1, false);
        } else if r[q] == '\\' {
            lemma_escape_scan(item, r, key, s, q + 1, true);
        } else {
            if closes_at(item, r, key, q) is None {
                lemma_escape_scan(item, r, key, s, q + 1, false);
            }
        }
    }
}

/// For an escaped rule, scanning for the closing sequence from `s` stops at the first
/// position that is not a backslash, is preceded by an even number of backslashes, and where
/// the closing sequence matches. So a closing sequence right after one backslash never ends
/// the token, and one right after two backslashes does, when no earlier position does.
pub proof fn law_escaped_scan(item: ParseItem, r: Seq<char>, key: Seq<char>, s: int)
    requires
        item.spec_escaped(),
        0 <= s,
    ensures
        match end_search(item, r, key, s, false) {
            Some((p, e)) => s <= p < r.len() && may_close(item, r, key, s, p) && closes_at(
                item,
                r,
                key,
                p,
            ) == Some(e) && forall|x: int| s <= x < p ==> !may_close(item, r, key, s, x),
            None => forall|x: int| s <= x < r.len() ==> !may_close(item, r, key, s, x),
        },
{
    lemma_escape_scan(item, r, key, s, s, false);
}

/// The tokens of `t`.
pub open spec fn tokens_of(items: Seq<ParseItem>, t: Seq<char>) -> Seq<ParseOutput> {
    token_chain(items, t, 0)
}

/// The first rule whose opening matches at `t[pos..]`, with that match.
fn first_rule(items: &Vec<ParseItem>, t: &Vec<char>, pos: usize) -> (r: Option<(usize, Matches)>)
    requires
        pos <= t.len(),
    ensures
        r matches Some((k, m)) ==> {
            &&& first_rule_from(items@, t@.skip(pos as int), 0) == Some(k as int)
            &&& k < items.len()
            &&& matches_view(Some(m)) == items@[k as int].spec_begin().spec_matches(
                t@.skip(pos as int),
            )
            &&& matches_view(Some(m)) is Some
            &&& pos + m[2].end <= t.len()
        },
        r is None ==> first_rule_from(items@, t@.skip(pos as int), 0) is None,
{
    let ghost rest = t@.skip(pos as int);
    let mut k: usize = 0;
    while k < items.len()
        invariant
            k <= items.len(),
            pos <= t.len(),
            rest == t@.skip(pos as int),
            first_rule_from(items@, rest, 0) == first_rule_from(items@, rest, k as int),
        decreases items.len() - k,
    {
        let b = items[k].begin();
        match b.matches_at(t, pos) {
            Some(m) => {
                return Some((k, m));
            },
            None => {},
        }
        k = k + 1;
    }
    None
}

/// Scans `t[pos..]` from the relative position `from` for the closing sequence of `item`,
/// whose opening key is `t[ks..ke]`.
fn find_end(item: &ParseItem, t: &Vec<char>, pos: usize, from: usize, ks: usize, ke: usize) -> (r:
    Option<(usize, usize)>)
    requires
        pos + from <= t.len(),
        ks <= ke <= t.len(),
    ensures
        match r {
            Some((p, e)) => end_search(
                *item,
                t@.skip(pos as int),
                t@.subrange(ks as int, ke as int),
                from as int,
                false,
            ) == Some((p as int, e as int)) && pos + p + e <= t.len(),
            None => end_search(
                *item,
                t@.skip(pos as int),
                t@.subrange(ks as int, ke as int),
                from as int,
                false,
            ) is None,
        },
{
    let ghost r = t@.skip(pos as int);
    let ghost key = t@.subrange(ks as int, ke as int);
    let escaped = item.is_escaped();
    let keyed = item.is_keyed();
    let end = item.end();
    let mut p: usize = from;
    let mut esc = false;
    while pos + p < t.len()
        invariant
            pos + p <= t.len(),
            from <= p,
            ks <= ke <= t.len(),
            r == t@.skip(pos as int),
            key == t@.subrange(ks as int, ke as int),
            escaped == item.spec_escaped(),
            keyed == item.spec_keyed(),
            *end == item.spec_end(),
            end_search(*item, r, key, from as int, false) == end_search(
                *item,
                r,
                key,
                p as int,
                esc,
            ),
        decreases t.len() - pos - p,
    {
        if esc {
            esc = false;
        } else if escaped && t[pos + p] == '\\' {
            esc = true;
        } else {
            assert(r.skip(p as int) =~= t@.skip(pos + p));
            let m = if keyed {
                end.matches_with_key_at(t, pos + p, t, ks, ke)
            } else {
                end.matches_at(t, pos + p)
            };
            match m {
                Some(spans) => {
                    return Some((p, spans[2].end));
                },
                None => {},
            }
        }
        p = p + 1;
    }
    None
}

/// Where a source fragment that starts at `t[pos]` ends, as a length.
fn find_source_end(items: &Vec<ParseItem>, t: &Vec<char>, pos: usize) -> (r: usize)
    requires
        pos < t.len(),
    ensures
        r == source_end(items@, t@.skip(pos as int), 1),
        1 <= r,
        pos + r <= t.len(),
{
    let ghost rest = t@.skip(pos as int);
    let mut q: usize = 1;
    while pos + q < t.len()
        invariant
            1 <= q,
            pos + q <= t.len(),
            rest == t@.skip(pos as int),
            source_end(items@, rest, 1) == source_end(items@, rest, q as int),
        decreases t.len() - pos - q,
    {
        assert(rest.skip(q as int) =~= t@.skip(pos + q));
        if t[pos + q] == '\n' {
            return q;
        }
        match first_rule(items, t, pos + q) {
            Some(_) => {
                return q;
            },
            None => {},
        }
        q = q + 1;
    }
    q
}

/// The token that starts at `t[pos]`.
pub fn parse_next(items: &Vec<ParseItem>, t: &Vec<char>, pos: usize) -> (r: ParseOutput)
    requires
        pos < t.len(),
    ensures
        r == token_at(items@, t@, pos as int),
        !(r is Invalid) ==> pos + r.spec_len() <= t.len(),
        !(r is Invalid) ==> r.spec_len() > 0,
{
    let ghost rest = t@.skip(pos as int);
    if t[pos] == '\n' {
        return ParseOutput::EOL(Span::new(pos, pos + 1));
    }
    match first_rule(items, t, pos) {
        Some((k, m)) => {
            proof {
                items@[k as int].spec_begin().lemma_matches_bounds(rest);
            }
            let item = &items[k];
            match find_end(item, t, pos, m[2].end, pos + m[1].start, pos + m[1].end) {
                Some((p, e)) => {
                    assert(rest.subrange(m[1].start as int, m[1].end as int) =~= t@.subrange(
                        pos + m[1].start,
                        pos + m[1].end,
                    ));
                    let n = p + e;
                    if n == 0 {
                        return ParseOutput::Invalid(pos, t.len() - pos);
                    }
                    return item.to_parse_output(Span::new(pos, pos + n));
                },
                None => {
                    assert(rest.subrange(m[1].start as int, m[1].end as int) =~= t@.subrange(
                        pos + m[1].start,
                        pos + m[1].end,
                    ));
                },
            }
        },
        None => {},
    }
    let q = find_source_end(items, t, pos);
    ParseOutput::Source(Span::new(pos, pos + q))
}

/// The pull tokenizer: each call of [`Parser::next`] hands out the next token.
pub struct Parser {
    pub src: Vec<char>,
    pub index: usize,
    pub items: Vec<ParseItem>,
}

impl Parser {
    pub open spec fn wf(&self) -> bool {
        &&& self.index <= self.src.len() + 1
        &&& self.src.len() < usize::MAX
    }

    /// A tokenizer over `src` with the rules of `L`.
    pub fn new<L: Language>(src: &str) -> (r: Parser)
        requires
            src@.len() < usize::MAX,
        ensures
            r.wf(),
            r.src@ == src@,
            r.index == 0,
            r.items@ == L::spec_items(),
    {
        Self::from_table(src, L::table())
    }

    /// A tokenizer over `src` with the rules of `table`.
    pub fn from_table(src: &str, table: LanguageTable) -> (r: Parser)
        requires
            src@.len() < usize::MAX,
        ensures
            r.wf(),
            r.src@ == src@,
            r.index == 0,
            r.items@ == table.items@,
    {
        Parser { src: to_chars(src), index: 0, items: table.items }
    }

    /// The next token, or `None` once `EOF` was handed out.
    pub fn next(&mut self) -> (r: Option<ParseOutput>)
        requires
            old(self).wf(),
        ensures
            final(self).wf(),
            final(self).src == old(self).src,
            final(self).items == old(self).items,
            old(self).index > old(self).src.len() ==> r is None && final(self).index == old(
                self,
            ).index,
            old(self).index <= old(self).src.len() ==> r == Some(
                token_at(old(self).items@, old(self).src@, old(self).index as int),
            ) && final(self).index == next_index(
                old(self).items@,
                old(self).src@,
                old(self).index as int,
            ),
    {
        if self.index > self.src.len() {
            None
        } else if self.index == self.src.len() {
            self.index = self.src.len() + 1;
            Some(ParseOutput::EOF)
        } else {
            let tok = parse_next(&self.items, &self.src, self.index);
            match tok {
                ParseOutput::Invalid(..) => {
                    self.index = self.src.len();
                },
                _ => {
                    self.index = self.index + tok.len();
                },
            }
            Some(tok)
        }
    }
}

/// All tokens of `src` under `table`, ending with `EOF`.
pub fn tokenize(src: &str, table: LanguageTable) -> (r: Vec<ParseOutput>)
    requires
        src@.len() < usize::MAX,
    ensures
        r@ == tokens_of(table.items@, src@),
{
    let mut p = Parser::from_table(src, table);
    let mut out: Vec<ParseOutput> = Vec::new();
    while p.index <= p.src.len()
        invariant
            p.wf(),
            p.src@ == src@,
            p.items@ == table.items@,
            p.index <= p.src.len() ==> out@ + token_chain(p.items@, p.src@, p.index as int)
                == tokens_of(table.items@, src@),
            p.index == p.src.len() + 1 ==> out@ == tokens_of(table.items@, src@),
        decreases p.src.len() + 1 - p.index,
    {
        let ghost i = p.index as int;
        let ghost before = out@;
        proof {
            lemma_chain_step(p.items@, p.src@, i);
        }
        let tok = p.next();
        match tok {
            Some(t) => {
                out.push(t);
                assert(out@ == before + seq![t]);
                proof {
                    if i < p.src@.len() {
                        assert(out@ + token_chain(p.items@, p.src@, p.index as int) =~= before
                            + token_chain(p.items@, p.src@, i));
                    } else {
                        assert(out@ =~= before + token_chain(p.items@, p.src@, i));
                    }
                }
            },
            None => {},
        }
    }
    out
}

} // verus!
