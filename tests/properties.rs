use dracula::count::{
    cleaned_source, get_cleaned_source_code, get_count_of_meaningful_lines,
    get_meaningful_line_indices, meaningful_line_count, meaningful_line_indices,
    ParseLineMeaningfulIndexIter,
};
use dracula::langs::{Csharp, Java, Python, Ruby, Rust, Scala, C, JSX};
use dracula::parse::v2::{
    get_lines_with_executable_code, get_list_of_meaningful_lines, has_overlapping_range,
    is_opaque_kind, skip_decision, TreeSitterLanguage,
};
use dracula::parse::{
    is_meaningful_src, tokenize, EndPoint, ItemRange, Language, LanguageTable, Matcher,
    ParseItem, ParseOutput, Parser, Span,
};

fn tokens<L: Language>(src: &str) -> Vec<ParseOutput> {
    tokenize(src, L::table())
}

#[test]
fn empty_input_halts_everywhere() {
    assert_eq!(tokens::<C>(""), vec![ParseOutput::EOF]);
    assert_eq!(tokens::<Python>(""), vec![ParseOutput::EOF]);
    assert_eq!(get_count_of_meaningful_lines::<Rust>(""), 0);
    assert_eq!(get_meaningful_line_indices::<Java>(""), Vec::<usize>::new());
    assert_eq!(get_cleaned_source_code::<Csharp>(""), "");
    assert_eq!(get_cleaned_source_code::<Scala>(""), "");
    assert_eq!(get_cleaned_source_code::<Ruby>(""), "");
    assert_eq!(get_cleaned_source_code::<JSX>(""), "");
    assert_eq!(get_list_of_meaningful_lines("", vec![]), Vec::<usize>::new());
    for lang in [
        TreeSitterLanguage::C,
        TreeSitterLanguage::Cpp,
        TreeSitterLanguage::Rust,
        TreeSitterLanguage::Java,
        TreeSitterLanguage::Javascript,
        TreeSitterLanguage::JSX,
        TreeSitterLanguage::Typescript,
        TreeSitterLanguage::TSX,
        TreeSitterLanguage::CSharp,
        TreeSitterLanguage::Scala,
        TreeSitterLanguage::Ruby,
        TreeSitterLanguage::Python,
        TreeSitterLanguage::Go,
        TreeSitterLanguage::Kotlin,
    ] {
        assert_eq!(get_lines_with_executable_code(lang, ""), Some(vec![]));
    }
}

#[test]
fn parser_hands_out_tokens_then_none() {
    let mut p = Parser::new::<C>("a\n");
    assert_eq!(p.next(), Some(ParseOutput::Source(Span::new(0, 1))));
    assert_eq!(p.next(), Some(ParseOutput::EOL(Span::new(1, 2))));
    assert_eq!(p.next(), Some(ParseOutput::EOF));
    assert_eq!(p.next(), None);
}

#[test]
fn cleaning_twice_changes_nothing() {
    let src = "int x = 1; // note\n{\n  y = \"s\" + z; /* c */\n}\n\nreturn x;";
    let once = get_cleaned_source_code::<C>(src);
    assert_eq!(once, "int x = 1; \n  y =  + z; \nreturn x;");
    assert_eq!(get_cleaned_source_code::<C>(&once), once);
    let src = "fn main() { // go\n    let s = r#\"x\"#;\n}\n";
    let once = get_cleaned_source_code::<Rust>(src);
    assert_eq!(get_cleaned_source_code::<Rust>(&once), once);
}

#[test]
fn index_list_length_is_the_count() {
    let samples = [
        "",
        "a\n\n/* x\ny */ b\n",
        "// only\n",
        "x = \"\"\"\nmulti\n\"\"\" + y\n",
    ];
    for s in samples {
        assert_eq!(
            get_meaningful_line_indices::<C>(s).len(),
            get_count_of_meaningful_lines::<C>(s)
        );
        assert_eq!(
            get_meaningful_line_indices::<Python>(s).len(),
            get_count_of_meaningful_lines::<Python>(s)
        );
    }
}

#[test]
fn keyed_raw_string_pairs_its_hashes() {
    let src = "r##\"a\"#b\"##";
    assert_eq!(
        tokens::<Rust>(src),
        vec![ParseOutput::String(Span::new(0, 11)), ParseOutput::EOF]
    );
    let src = "r#\"a\"#\"##";
    assert_eq!(tokens::<Rust>(src)[0], ParseOutput::String(Span::new(0, 6)));
}

#[test]
fn escaped_delimiter_does_not_close() {
    // one backslash hides the quote, so the string runs to the last quote
    let src = "\"a\\\"b\"";
    assert_eq!(
        tokens::<C>(src),
        vec![ParseOutput::String(Span::new(0, 6)), ParseOutput::EOF]
    );
    // two backslashes escape each other, so the quote after them closes
    let src = "\"a\\\\\"b\"";
    assert_eq!(
        tokens::<C>(src),
        vec![
            ParseOutput::String(Span::new(0, 5)),
            ParseOutput::Source(Span::new(5, 6)),
            ParseOutput::Source(Span::new(6, 7)),
            ParseOutput::EOF
        ]
    );
    // an unescaped rule does not look at backslashes
    let src = "/* a \\*/ b";
    assert_eq!(tokens::<C>(src)[0], ParseOutput::Comment(Span::new(0, 8)));
}

#[test]
fn block_comment_over_two_lines() {
    assert_eq!(
        get_meaningful_line_indices::<C>("/* line1\nline2 */\nx;\n"),
        vec![2]
    );
    assert_eq!(
        get_meaningful_line_indices::<C>("a /* line1\nline2 */ b\n"),
        vec![0, 1]
    );
    assert_eq!(
        get_meaningful_line_indices::<C>("/* line1\nline2 */ b\n"),
        vec![1]
    );
}

#[test]
fn python_comment_lines() {
    let src = "# skip this\ndef f():\n    pass # comment\n";
    assert_eq!(get_count_of_meaningful_lines::<Python>(src), 2);
    assert_eq!(get_meaningful_line_indices::<Python>(src), vec![1, 2]);
}

#[test]
fn c_raw_string_over_two_lines() {
    let src = "R\"TAG(raw\nstring)TAG\";\n";
    assert_eq!(
        tokens::<C>(src),
        vec![
            ParseOutput::String(Span::new(0, 21)),
            ParseOutput::Source(Span::new(21, 22)),
            ParseOutput::EOL(Span::new(22, 23)),
            ParseOutput::EOF
        ]
    );
    assert_eq!(get_meaningful_line_indices::<C>(src), vec![1]);
    // the key is read with Unicode's idea of alphanumeric
    let src = "R\"\u{e9}t\u{e9}(x)\u{e9}t\u{e9}\" y";
    assert_eq!(tokens::<C>(src)[0], ParseOutput::String(Span::new(0, 12)));
}

#[test]
fn format_strings_stay_source() {
    let src = "x = f\"{a}\"\ny = \"b\"\n";
    assert_eq!(get_cleaned_source_code::<Python>(src), "x = f\"{a}\"\ny = \n");
    let src = "s = f'''one\ntwo'''\n";
    assert_eq!(get_meaningful_line_indices::<Python>(src), vec![0, 1]);
}

#[test]
fn comment_at_end_of_input_without_newline() {
    assert_eq!(get_meaningful_line_indices::<Python>("x = 1\n# last"), vec![0]);
    assert_eq!(get_cleaned_source_code::<Python>("x = 1 # last"), "x = 1 ");
}

#[test]
fn braces_alone_are_not_meaningful() {
    assert_eq!(get_meaningful_line_indices::<Java>("class A {\n}\n"), vec![0]);
    assert_eq!(get_meaningful_line_indices::<Rust>("f(\n)\n"), vec![0]);
    assert_eq!(get_meaningful_line_indices::<Python>("{\n}\n"), vec![0, 1]);
    assert!(!is_meaningful_src(" \u{3000}\t", ""));
    assert!(!is_meaningful_src("{ }", "{}"));
    assert!(is_meaningful_src("{ x }", "{}"));
}

#[test]
fn endpoint_matches() {
    let e = EndPoint {
        start: Matcher::Exact("r"),
        key: Matcher::Repeat("#"),
        end: Matcher::Exact("\""),
    };
    assert_eq!(
        e.matches("r##\"x"),
        Some([Span::new(0, 1), Span::new(1, 3), Span::new(3, 4)])
    );
    assert_eq!(e.matches("r##x"), None);
    let close = EndPoint {
        start: Matcher::Exact("\""),
        key: Matcher::Repeat("#"),
        end: Matcher::Empty,
    };
    assert_eq!(close.matches_with_key("\"#", "##"), None);
    assert_eq!(close.matches_with_key("\"##", "#"), None);
    assert_eq!(
        close.matches_with_key("\"##", "##"),
        Some([Span::new(0, 1), Span::new(1, 3), Span::new(3, 3)])
    );
    let pre = ItemRange::fixed_start("#").pre_fixed_end("\n");
    assert_eq!(
        pre.end.matches("\nx"),
        Some([Span::new(0, 0), Span::new(0, 0), Span::new(0, 0)])
    );
    assert_eq!(
        pre.end.matches("x"),
        Some([Span::new(0, 1), Span::new(1, 1), Span::new(1, 1)])
    );
}

#[test]
fn rule_accessors() {
    let item = ParseItem::Escaped(Box::new(ParseItem::String(
        ItemRange::fixed_start("\"").fixed_end("\""),
        true,
    )));
    assert!(item.is_escaped());
    assert!(item.is_keyed());
    assert!(item.is_key_matched());
    assert_eq!(
        item.to_parse_output(Span::new(2, 4)),
        ParseOutput::String(Span::new(2, 4))
    );
    assert_eq!(ParseOutput::String(Span::new(2, 4)).len(), 2);
    assert_eq!(ParseOutput::EOL(Span::new(2, 3)).len(), 1);
    assert_eq!(ParseOutput::EOF.len(), 0);
    let plain = ParseItem::UnEscaped(Box::new(ParseItem::Comment(
        ItemRange::fixed_start("#").pre_fixed_end("\n"),
        false,
    )));
    assert!(!plain.is_escaped());
    assert!(!plain.is_keyed());
}

#[test]
fn empty_token_stops_scanning() {
    let table = LanguageTable {
        items: vec![ParseItem::String(
            ItemRange::start_matcher(Matcher::Empty, Matcher::Empty, Matcher::Empty)
                .end_matcher(Matcher::Empty, Matcher::Empty, Matcher::Empty),
            false,
        )],
        ignored: "",
    };
    assert_eq!(
        tokenize("ab", table),
        vec![ParseOutput::Invalid(0, 2), ParseOutput::EOF]
    );
    let table = LanguageTable {
        items: vec![ParseItem::String(
            ItemRange::start_matcher(Matcher::Empty, Matcher::Empty, Matcher::Empty)
                .end_matcher(Matcher::Empty, Matcher::Empty, Matcher::Empty),
            false,
        )],
        ignored: "",
    };
    assert_eq!(cleaned_source("ab\n", &table), "ab\n");
    assert_eq!(meaningful_line_count("ab\n", &table), 0);
    assert_eq!(meaningful_line_indices("ab\n", &table), Vec::<usize>::new());
}

#[test]
fn lines_outside_byte_ranges() {
    // "a\n" then "  b // c\n" then "// d\n"
    let src = "a\n  b // c\n// d\n";
    assert_eq!(get_list_of_meaningful_lines(src, vec![6..10, 11..15]), vec![1, 2]);
    assert_eq!(get_list_of_meaningful_lines(src, vec![0..1, 11..15]), vec![2]);
    assert_eq!(get_list_of_meaningful_lines(src, vec![]), vec![1, 2, 3]);
    // byte offsets: the two-byte character shifts what follows
    let src = "\u{e9} x\ny\n";
    assert_eq!(get_list_of_meaningful_lines(src, vec![0..2]), vec![1, 2]);
    assert_eq!(get_list_of_meaningful_lines(src, vec![0..4]), vec![2]);
}

#[test]
fn overlapping_ranges_are_clipped() {
    let mut ranges = vec![0..2, 3..8, 9..12, 20..25];
    let r = has_overlapping_range(5, 10, &mut ranges);
    assert_eq!(r, Some(vec![0..3, 4..5]));
    assert_eq!(ranges, vec![3..8, 9..12, 20..25]);
    let mut ranges = vec![0..2, 20..25];
    assert_eq!(has_overlapping_range(5, 10, &mut ranges), None);
    assert_eq!(ranges, vec![20..25]);
}

#[test]
fn opaque_node_kinds() {
    assert!(is_opaque_kind("comment"));
    assert!(is_opaque_kind("("));
    assert!(!is_opaque_kind("identifier"));
    assert!(skip_decision(TreeSitterLanguage::C, "string_literal", ""));
    assert!(!skip_decision(TreeSitterLanguage::C, "function_value_parameters", ""));
    assert!(skip_decision(
        TreeSitterLanguage::Kotlin,
        "function_value_parameters",
        "(function_value_parameters (parameter))"
    ));
    assert!(!skip_decision(
        TreeSitterLanguage::Kotlin,
        "function_value_parameters",
        "(function_value_parameters (parameter (integer_literal)) (expression))"
    ));
}

#[test]
fn executable_lines_from_a_syntax_tree() {
    let src = "x = 1\n# c\ny = \"s\"\n";
    assert_eq!(
        get_lines_with_executable_code(TreeSitterLanguage::Python, src),
        Some(vec![1, 3])
    );
    let src = "int f(int a) {\n  // c\n  return a;\n}\n";
    assert_eq!(
        get_lines_with_executable_code(TreeSitterLanguage::C, src),
        Some(vec![1, 3])
    );
}

fn line_by_line<L: Language>(src: &str) -> Vec<Option<usize>> {
    let mut it = ParseLineMeaningfulIndexIter::new(src, L::table());
    let mut out = vec![];
    while let Some(x) = it.next() {
        out.push(x);
    }
    out
}

#[test]
fn line_by_line_classification_carries_tokens() {
    let src = "a /* one\ntwo\nthree */ b\n\n// c\nd";
    assert_eq!(
        line_by_line::<C>(src),
        vec![Some(0), None, Some(2), None, None, Some(5)]
    );
    let src = "x = f'''one\n\ntwo'''\n# c\n";
    assert_eq!(line_by_line::<Python>(src), vec![Some(0), Some(1), Some(2), None]);
    assert_eq!(line_by_line::<Rust>(""), vec![]);
    for src in [
        "int main() {\n  return 0; /* x\n */ }\n",
        "\n\n",
        "R\"k(\n)k\" ;",
    ] {
        let flat: Vec<usize> = line_by_line::<C>(src).into_iter().flatten().collect();
        assert_eq!(flat, get_meaningful_line_indices::<C>(src));
    }
}

#[test]
fn token_meaningfulness() {
    let t: Vec<char> = "  x {".chars().collect();
    assert!(ParseOutput::Source(Span::new(0, 5)).is_meaningful(&t, "{}"));
    assert!(!ParseOutput::Source(Span::new(3, 5)).is_meaningful(&t, "{}"));
    assert!(!ParseOutput::Comment(Span::new(0, 5)).is_meaningful(&t, "{}"));
    assert!(!ParseOutput::Source(Span::new(0, 9)).is_meaningful(&t, ""));
}

#[test]
fn cleaning_can_join_fragments_into_a_comment() {
    let once = get_cleaned_source_code::<C>("a/\"x\"/b");
    assert_eq!(once, "a//b");
    assert_eq!(get_cleaned_source_code::<C>(&once), "a");
}

#[test]
fn keyed_close_needs_the_same_key() {
    // an opening with one `#` is not closed by a quote and two `#`
    let src = "r#\"a\"##b\"#";
    assert_eq!(tokens::<Rust>(src)[0], ParseOutput::String(Span::new(0, 10)));
}

#[test]
fn in_source_rules_are_never_keyed() {
    let item = ParseItem::InSource(ItemRange::fixed_start("f\"").fixed_end("\""), true);
    assert!(!item.is_keyed());
}

#[test]
fn line_iterator_stops_after_the_last_line() {
    assert_eq!(line_by_line::<C>(""), vec![]);
    assert_eq!(line_by_line::<C>("/* line1\nline2 */\n"), vec![None, None]);
    assert_eq!(line_by_line::<C>("/* line1\nline2 */ y;\n"), vec![None, Some(1)]);
    assert_eq!(line_by_line::<C>("a\nb"), vec![Some(0), Some(1)]);
}

#[test]
fn span_extractor_on_empty_source() {
    let mut p = dracula::parse::v2::Parser::new(TreeSitterLanguage::Rust).unwrap();
    let spans = p.get_spans_of_meaningless_source("").unwrap();
    assert!(spans.iter().all(|r| r.start == 0 && r.end == 0));
}
