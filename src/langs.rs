//! The rule tables of the languages that the tokenizer knows, in priority order.
use crate::parse::{
    fixed, pre_fixed, EndPoint, ItemRange, Language, LanguageTable, Matcher, ParseItem, PrefixFn,
};
use vstd::prelude::*;

verus! {

/// C: line comments may be continued by a backslash; raw strings are keyed by their
/// delimiter.
pub struct C;

impl Language for C {
    open spec fn spec_items() -> Seq<ParseItem> {
        seq![
            ParseItem::Escaped(Box::new(ParseItem::Comment(
                ItemRange { begin: fixed("//"), end: pre_fixed("\n") },
                false,
            ))),
            ParseItem::UnEscaped(Box::new(ParseItem::Comment(
                ItemRange { begin: fixed("/*"), end: fixed("*/") },
                false,
            ))),
            ParseItem::Escaped(Box::new(ParseItem::String(
                ItemRange { begin: fixed("\""), end: fixed("\"") },
                false,
            ))),
            ParseItem::UnEscaped(Box::new(ParseItem::String(
                ItemRange {
                    begin: EndPoint { start: Matcher::Exact("R\""), key: Matcher::AnyAlphaNumeric, end: Matcher::Exact("(") },
                    end: EndPoint { start: Matcher::Exact(")"), key: Matcher::AnyAlphaNumeric, end: Matcher::Exact("\"") },
                },
                true,
            ))),
        ]
    }

    open spec fn spec_ignored() -> Seq<char> {
        "{}"@
    }

    fn table() -> (r: LanguageTable) {
        proof {
            reveal_strlit("\n");
        }
        let items = vec![
            ParseItem::Escaped(Box::new(ParseItem::Comment(
                ItemRange::fixed_start("//").pre_fixed_end("\n"),
                false,
            ))),
            ParseItem::UnEscaped(Box::new(ParseItem::Comment(
                ItemRange::fixed_start("/*").fixed_end("*/"),
                false,
            ))),
            ParseItem::Escaped(Box::new(ParseItem::String(
                ItemRange::fixed_start("\"").fixed_end("\""),
                false,
            ))),
            ParseItem::UnEscaped(Box::new(ParseItem::String(
                ItemRange::start_matcher(Matcher::Exact("R\""), Matcher::AnyAlphaNumeric, Matcher::Exact("("))
                    .end_matcher(Matcher::Exact(")"), Matcher::AnyAlphaNumeric, Matcher::Exact("\"")),
                true,
            ))),
        ];
        assert(items@ =~= Self::spec_items());
        LanguageTable { items, ignored: "{}" }
    }
}

/// C#: comments and simple strings.
pub struct Csharp;

impl Language for Csharp {
    open spec fn spec_items() -> Seq<ParseItem> {
        seq![
            ParseItem::UnEscaped(Box::new(ParseItem::Comment(
                ItemRange { begin: fixed("//"), end: pre_fixed("\n") },
                false,
            ))),
            ParseItem::UnEscaped(Box::new(ParseItem::Comment(
                ItemRange { begin: fixed("/*"), end: fixed("*/") },
                false,
            ))),
            ParseItem::Escaped(Box::new(ParseItem::String(
                ItemRange { begin: fixed("\""), end: fixed("\"") },
                false,
            ))),
        ]
    }

    open spec fn spec_ignored() -> Seq<char> {
        ""@
    }

    fn table() -> (r: LanguageTable) {
        proof {
            reveal_strlit("\n");
        }
        let items = vec![
            ParseItem::UnEscaped(Box::new(ParseItem::Comment(
                ItemRange::fixed_start("//").pre_fixed_end("\n"),
                false,
            ))),
            ParseItem::UnEscaped(Box::new(ParseItem::Comment(
                ItemRange::fixed_start("/*").fixed_end("*/"),
                false,
            ))),
            ParseItem::Escaped(Box::new(ParseItem::String(
                ItemRange::fixed_start("\"").fixed_end("\""),
                false,
            ))),
        ];
        assert(items@ =~= Self::spec_items());
        LanguageTable { items, ignored: "" }
    }
}

/// Java: text blocks come before simple strings, which share their opening quote.
pub struct Java;

impl Language for Java {
    open spec fn spec_items() -> Seq<ParseItem> {
        seq![
            ParseItem::UnEscaped(Box::new(ParseItem::Comment(
                ItemRange { begin: fixed("//"), end: pre_fixed("\n") },
                false,
            ))),
            ParseItem::UnEscaped(Box::new(ParseItem::Comment(
                ItemRange { begin: fixed("/*"), end: fixed("*/") },
                false,
            ))),
            ParseItem::UnEscaped(Box::new(ParseItem::String(
                ItemRange { begin: fixed("\"\"\""), end: fixed("\"\"\"") },
                false,
            ))),
            ParseItem::Escaped(Box::new(ParseItem::String(
                ItemRange { begin: fixed("\""), end: fixed("\"") },
                false,
            ))),
        ]
    }

    open spec fn spec_ignored() -> Seq<char> {
        "{}"@
    }

    fn table() -> (r: LanguageTable) {
        proof {
            reveal_strlit("\n");
        }
        let items = vec![
            ParseItem::UnEscaped(Box::new(ParseItem::Comment(
                ItemRange::fixed_start("//").pre_fixed_end("\n"),
                false,
            ))),
            ParseItem::UnEscaped(Box::new(ParseItem::Comment(
                ItemRange::fixed_start("/*").fixed_end("*/"),
                false,
            ))),
            ParseItem::UnEscaped(Box::new(ParseItem::String(
                ItemRange::fixed_start("\"\"\"").fixed_end("\"\"\""),
                false,
            ))),
            ParseItem::Escaped(Box::new(ParseItem::String(
                ItemRange::fixed_start("\"").fixed_end("\""),
                false,
            ))),
        ];
        assert(items@ =~= Self::spec_items());
        LanguageTable { items, ignored: "{}" }
    }
}

/// JSX: markup comments beside script comments and strings.
pub struct JSX;

impl Language for JSX {
    open spec fn spec_items() -> Seq<ParseItem> {
        seq![
            ParseItem::UnEscaped(Box::new(ParseItem::Comment(
                ItemRange { begin: fixed("<!--"), end: pre_fixed("-->") },
                false,
            ))),
            ParseItem::UnEscaped(Box::new(ParseItem::Comment(
                ItemRange { begin: fixed("//"), end: pre_fixed("\n") },
                false,
            ))),
            ParseItem::Escaped(Box::new(ParseItem::String(
                ItemRange { begin: fixed("\""), end: fixed("\"") },
                false,
            ))),
            ParseItem::Escaped(Box::new(ParseItem::String(
                ItemRange { begin: fixed("'"), end: fixed("'") },
                false,
            ))),
            ParseItem::UnEscaped(Box::new(ParseItem::Comment(
                ItemRange { begin: fixed("/*"), end: fixed("*/") },
                false,
            ))),
        ]
    }

    open spec fn spec_ignored() -> Seq<char> {
        ""@
    }

    fn table() -> (r: LanguageTable) {
        proof {
            reveal_strlit("-->");
            reveal_strlit("\n");
        }
        let items = vec![
            ParseItem::UnEscaped(Box::new(ParseItem::Comment(
                ItemRange::fixed_start("<!--").pre_fixed_end("-->"),
                false,
            ))),
            ParseItem::UnEscaped(Box::new(ParseItem::Comment(
                ItemRange::fixed_start("//").pre_fixed_end("\n"),
                false,
            ))),
            ParseItem::Escaped(Box::new(ParseItem::String(
                ItemRange::fixed_start("\"").fixed_end("\""),
                false,
            ))),
            ParseItem::Escaped(Box::new(ParseItem::String(
                ItemRange::fixed_start("'").fixed_end("'"),
                false,
            ))),
            ParseItem::UnEscaped(Box::new(ParseItem::Comment(
                ItemRange::fixed_start("/*").fixed_end("*/"),
                false,
            ))),
        ];
        assert(items@ =~= Self::spec_items());
        LanguageTable { items, ignored: "" }
    }
}

/// Python: prefixed and triple-quoted strings; format strings stay source.
pub struct Python;

impl Language for Python {
    open spec fn spec_items() -> Seq<ParseItem> {
        seq![
            ParseItem::UnEscaped(Box::new(ParseItem::String(
                ItemRange {
                    begin: EndPoint { start: Matcher::Fn(PrefixFn::PythonStringPrefix), key: Matcher::Empty, end: Matcher::Exact("\"\"\"") },
                    end: EndPoint { start: Matcher::Exact("\"\"\""), key: Matcher::Empty, end: Matcher::Empty },
                },
                false,
            ))),
            ParseItem::UnEscaped(Box::new(ParseItem::String(
                ItemRange {
                    begin: EndPoint { start: Matcher::Fn(PrefixFn::PythonStringPrefix), key: Matcher::Empty, end: Matcher::Exact("'''") },
                    end: EndPoint { start: Matcher::Exact("'''"), key: Matcher::Empty, end: Matcher::Empty },
                },
                false,
            ))),
            ParseItem::UnEscaped(Box::new(ParseItem::InSource(
                ItemRange {
                    begin: EndPoint { start: Matcher::Fn(PrefixFn::PythonFormatPrefix), key: Matcher::Empty, end: Matcher::Exact("\"\"\"") },
                    end: EndPoint { start: Matcher::Exact("\"\"\""), key: Matcher::Empty, end: Matcher::Empty },
                },
                false,
            ))),
            ParseItem::UnEscaped(Box::new(ParseItem::InSource(
                ItemRange {
                    begin: EndPoint { start: Matcher::Fn(PrefixFn::PythonFormatPrefix), key: Matcher::Empty, end: Matcher::Exact("'''") },
                    end: EndPoint { start: Matcher::Exact("'''"), key: Matcher::Empty, end: Matcher::Empty },
                },
                false,
            ))),
            ParseItem::UnEscaped(Box::new(ParseItem::Comment(
                ItemRange { begin: fixed("#"), end: pre_fixed("\n") },
                false,
            ))),
            ParseItem::Escaped(Box::new(ParseItem::String(
                ItemRange {
                    begin: EndPoint { start: Matcher::Fn(PrefixFn::PythonStringPrefix), key: Matcher::Empty, end: Matcher::Exact("\"") },
                    end: EndPoint { start: Matcher::Exact("\""), key: Matcher::Empty, end: Matcher::Empty },
                },
                false,
            ))),
            ParseItem::Escaped(Box::new(ParseItem::String(
                ItemRange {
                    begin: EndPoint { start: Matcher::Fn(PrefixFn::PythonStringPrefix), key: Matcher::Empty, end: Matcher::Exact("'") },
                    end: EndPoint { start: Matcher::Exact("'"), key: Matcher::Empty, end: Matcher::Empty },
                },
                false,
            ))),
            ParseItem::Escaped(Box::new(ParseItem::InSource(
                ItemRange {
                    begin: EndPoint { start: Matcher::Fn(PrefixFn::PythonFormatPrefix), key: Matcher::Empty, end: Matcher::Exact("\"") },
                    end: EndPoint { start: Matcher::Exact("\""), key: Matcher::Empty, end: Matcher::Empty },
                },
                false,
            ))),
            ParseItem::Escaped(Box::new(ParseItem::InSource(
                ItemRange {
                    begin: EndPoint { start: Matcher::Fn(PrefixFn::PythonFormatPrefix), key: Matcher::Empty, end: Matcher::Exact("'") },
                    end: EndPoint { start: Matcher::Exact("'"), key: Matcher::Empty, end: Matcher::Empty },
                },
                false,
            ))),
        ]
    }

    open spec fn spec_ignored() -> Seq<char> {
        ""@
    }

    fn table() -> (r: LanguageTable) {
        proof {
            reveal_strlit("\n");
        }
        let items = vec![
            ParseItem::UnEscaped(Box::new(ParseItem::String(
                ItemRange::start_matcher(Matcher::Fn(PrefixFn::PythonStringPrefix), Matcher::Empty, Matcher::Exact("\"\"\""))
                    .end_matcher(Matcher::Exact("\"\"\""), Matcher::Empty, Matcher::Empty),
                false,
            ))),
            ParseItem::UnEscaped(Box::new(ParseItem::String(
                ItemRange::start_matcher(Matcher::Fn(PrefixFn::PythonStringPrefix), Matcher::Empty, Matcher::Exact("'''"))
                    .end_matcher(Matcher::Exact("'''"), Matcher::Empty, Matcher::Empty),
                false,
            ))),
            ParseItem::UnEscaped(Box::new(ParseItem::InSource(
                ItemRange::start_matcher(Matcher::Fn(PrefixFn::PythonFormatPrefix), Matcher::Empty, Matcher::Exact("\"\"\""))
                    .end_matcher(Matcher::Exact("\"\"\""), Matcher::Empty, Matcher::Empty),
                false,
            ))),
            ParseItem::UnEscaped(Box::new(ParseItem::InSource(
                ItemRange::start_matcher(Matcher::Fn(PrefixFn::PythonFormatPrefix), Matcher::Empty, Matcher::Exact("'''"))
                    .end_matcher(Matcher::Exact("'''"), Matcher::Empty, Matcher::Empty),
                false,
            ))),
            ParseItem::UnEscaped(Box::new(ParseItem::Comment(
                ItemRange::fixed_start("#").pre_fixed_end("\n"),
                false,
            ))),
            ParseItem::Escaped(Box::new(ParseItem::String(
                ItemRange::start_matcher(Matcher::Fn(PrefixFn::PythonStringPrefix), Matcher::Empty, Matcher::Exact("\""))
                    .end_matcher(Matcher::Exact("\""), Matcher::Empty, Matcher::Empty),
                false,
            ))),
            ParseItem::Escaped(Box::new(ParseItem::String(
                ItemRange::start_matcher(Matcher::Fn(PrefixFn::PythonStringPrefix), Matcher::Empty, Matcher::Exact("'"))
                    .end_matcher(Matcher::Exact("'"), Matcher::Empty, Matcher::Empty),
                false,
            ))),
            ParseItem::Escaped(Box::new(ParseItem::InSource(
                ItemRange::start_matcher(Matcher::Fn(PrefixFn::PythonFormatPrefix), Matcher::Empty, Matcher::Exact("\""))
                    .end_matcher(Matcher::Exact("\""), Matcher::Empty, Matcher::Empty),
                false,
            ))),
            ParseItem::Escaped(Box::new(ParseItem::InSource(
                ItemRange::start_matcher(Matcher::Fn(PrefixFn::PythonFormatPrefix), Matcher::Empty, Matcher::Exact("'"))
                    .end_matcher(Matcher::Exact("'"), Matcher::Empty, Matcher::Empty),
                false,
            ))),
        ];
        assert(items@ =~= Self::spec_items());
        LanguageTable { items, ignored: "" }
    }
}

/// Ruby: line comments and `=begin`/`=end` blocks.
pub struct Ruby;

impl Language for Ruby {
    open spec fn spec_items() -> Seq<ParseItem> {
        seq![
            ParseItem::UnEscaped(Box::new(ParseItem::Comment(
                ItemRange { begin: fixed("#"), end: pre_fixed("\n") },
                false,
            ))),
            ParseItem::UnEscaped(Box::new(ParseItem::Comment(
                ItemRange { begin: fixed("\n=begin"), end: fixed("\n=end") },
                false,
            ))),
        ]
    }

    open spec fn spec_ignored() -> Seq<char> {
        ""@
    }

    fn table() -> (r: LanguageTable) {
        proof {
            reveal_strlit("\n");
        }
        let items = vec![
            ParseItem::UnEscaped(Box::new(ParseItem::Comment(
                ItemRange::fixed_start("#").pre_fixed_end("\n"),
                false,
            ))),
            ParseItem::UnEscaped(Box::new(ParseItem::Comment(
                ItemRange::fixed_start("\n=begin").fixed_end("\n=end"),
                false,
            ))),
        ];
        assert(items@ =~= Self::spec_items());
        LanguageTable { items, ignored: "" }
    }
}

/// Rust: raw strings are keyed by their count of `#`.
pub struct Rust;

impl Language for Rust {
    open spec fn spec_items() -> Seq<ParseItem> {
        seq![
            ParseItem::UnEscaped(Box::new(ParseItem::Comment(
                ItemRange { begin: fixed("//"), end: pre_fixed("\n") },
                false,
            ))),
            ParseItem::UnEscaped(Box::new(ParseItem::Comment(
                ItemRange { begin: fixed("/*"), end: fixed("*/") },
                false,
            ))),
            ParseItem::Escaped(Box::new(ParseItem::String(
                ItemRange { begin: fixed("\""), end: fixed("\"") },
                false,
            ))),
            ParseItem::Escaped(Box::new(ParseItem::String(
                ItemRange { begin: fixed("b\""), end: fixed("\"") },
                false,
            ))),
            ParseItem::UnEscaped(Box::new(ParseItem::String(
                ItemRange {
                    begin: EndPoint { start: Matcher::Exact("r"), key: Matcher::Repeat("#"), end: Matcher::Exact("\"") },
                    end: EndPoint { start: Matcher::Exact("\""), key: Matcher::Repeat("#"), end: Matcher::Empty },
                },
                true,
            ))),
        ]
    }

    open spec fn spec_ignored() -> Seq<char> {
        "{}()"@
    }

    fn table() -> (r: LanguageTable) {
        proof {
            reveal_strlit("\n");
        }
        let items = vec![
            ParseItem::UnEscaped(Box::new(ParseItem::Comment(
                ItemRange::fixed_start("//").pre_fixed_end("\n"),
                false,
            ))),
            ParseItem::UnEscaped(Box::new(ParseItem::Comment(
                ItemRange::fixed_start("/*").fixed_end("*/"),
                false,
            ))),
            ParseItem::Escaped(Box::new(ParseItem::String(
                ItemRange::fixed_start("\"").fixed_end("\""),
                false,
            ))),
            ParseItem::Escaped(Box::new(ParseItem::String(
                ItemRange::fixed_start("b\"").fixed_end("\""),
                false,
            ))),
            ParseItem::UnEscaped(Box::new(ParseItem::String(
                ItemRange::start_matcher(Matcher::Exact("r"), Matcher::Repeat("#"), Matcher::Exact("\""))
                    .end_matcher(Matcher::Exact("\""), Matcher::Repeat("#"), Matcher::Empty),
                true,
            ))),
        ];
        assert(items@ =~= Self::spec_items());
        LanguageTable { items, ignored: "{}()" }
    }
}

/// Scala: comments and simple strings.
pub struct Scala;

impl Language for Scala {
    open spec fn spec_items() -> Seq<ParseItem> {
        seq![
            ParseItem::UnEscaped(Box::new(ParseItem::Comment(
                ItemRange { begin: fixed("//"), end: pre_fixed("\n") },
                false,
            ))),
            ParseItem::UnEscaped(Box::new(ParseItem::Comment(
                ItemRange { begin: fixed("/*"), end: fixed("*/") },
                false,
            ))),
            ParseItem::Escaped(Box::new(ParseItem::String(
                ItemRange { begin: fixed("\""), end: fixed("\"") },
                false,
            ))),
        ]
    }

    open spec fn spec_ignored() -> Seq<char> {
        ""@
    }

    fn table() -> (r: LanguageTable) {
        proof {
            reveal_strlit("\n");
        }
        let items = vec![
            ParseItem::UnEscaped(Box::new(ParseItem::Comment(
                ItemRange::fixed_start("//").pre_fixed_end("\n"),
                false,
            ))),
            ParseItem::UnEscaped(Box::new(ParseItem::Comment(
                ItemRange::fixed_start("/*").fixed_end("*/"),
                false,
            ))),
            ParseItem::Escaped(Box::new(ParseItem::String(
                ItemRange::fixed_start("\"").fixed_end("\""),
                false,
            ))),
        ];
        assert(items@ =~= Self::spec_items());
        LanguageTable { items, ignored: "" }
    }
}

} // verus!
