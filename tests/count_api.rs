use dracula::count::{
    get_cleaned_source_code, get_count_of_meaningful_lines, get_meaningful_line_indices,
};
use dracula::langs::{Java, Python, Rust, C};
use dracula::parse::v2::{get_list_of_meaningful_lines, Parser, TreeSitterLanguage};

#[test]
fn test_halting_get_cleaned_source_code() {
    get_cleaned_source_code::<C>("\nint main() {}\n");
    get_cleaned_source_code::<Rust>("\nfn main() {}\n");
    get_cleaned_source_code::<Python>("\ndef main():\n\tpass");
    get_cleaned_source_code::<Java>("\nvoid main() {}\n");
}

#[test]
fn test_halting_get_meaningful_line_indices() {
    get_meaningful_line_indices::<C>("\nint main() {}\n")
        .into_iter()
        .for_each(|_| ());
    get_meaningful_line_indices::<Rust>("").into_iter().for_each(|_| ());
    get_meaningful_line_indices::<Python>("").into_iter().for_each(|_| ());
    get_meaningful_line_indices::<Java>("").into_iter().for_each(|_| ());
}

#[test]
fn meaningful_src_test() {
    let src = r#"
    #include "include"
    // thins
    int fn() {
        char* s = "";
        char* src = R"1(
            this si
        )1";
    }
    /* this */
    "#;
    let mut p = Parser::new(TreeSitterLanguage::Cpp).unwrap();
    p.get_spans_of_meaningless_source(src);
    let _lines = get_list_of_meaningful_lines(
        src,
        p.get_spans_of_meaningless_source(src).unwrap_or_default(),
    );
    let mut p = Parser::new(TreeSitterLanguage::Java).unwrap();
    let src = r#"
    class St {
        /**/
        public static void main(
            // this is interesting
            String args[]
        ) {
            // test
            var x = "";
        }
    }
    "#;
    let _lines = get_list_of_meaningful_lines(
        src,
        p.get_spans_of_meaningless_source(src).unwrap_or_default(),
    );
    let mut p = Parser::new(TreeSitterLanguage::Kotlin).unwrap();
    let src = r#"
        fun /*is this code valid*/ a(
            x: Int = 1,
            // comment here!
            y: Int = let {
                return Unit
            },
            z: Int = 3
        ) = 
        Unit
        fun /*is this code valid*/ a(
            x: Int = 1,
            // comment here!
            y: Int = 2,
            z: Int = 3
        )
        = 
        Unit
    "#;
    let _lines = get_list_of_meaningful_lines(
        src,
        p.get_spans_of_meaningless_source(src).unwrap_or_default(),
    );
}

#[test]
fn test_capi_test_get_meaningful_line_count() {
    let src = r#"
# entp için anayzer
if index == 10:
    pass
# skip this
def python():
    """
        Multi line comments also should be zero?
    """
    pass # only two meaningful lines
"#;
    assert_eq!(get_count_of_meaningful_lines::<Python>(src), 4);
}

#[test]
fn test_capi_test_get_meaningful_lines() {
    let src = r#"
# skip this
def python():
    """
        Multi line comments also should be zero?
    """
    pass # only two meaningful lines
"#;
    assert_eq!(get_meaningful_line_indices::<Python>(src), vec![2, 6]);
}

#[test]
fn test_capi_test_get_cleaned_src() {
    let src = r#"
# skip this
def python():
    """
        Multi line comments also should be zero?
    """
    pass # only two meaningful lines
def python(
    foo, bar
):
    pass
                "#;
    assert_eq!(
        get_cleaned_source_code::<Python>(src),
        r#"def python():
    pass 
def python(
    foo, bar
):
    pass
"#
    );
}

#[test]
fn test_capi_test_get_meaningful_line_count_c() {
    let src = r#"
// interesting line
int main() {
    // maybe not useful
    return 0;
    /*
        this is useful
    */ int x = 10;
}
                    "#;
    assert_eq!(get_count_of_meaningful_lines::<C>(src), 3);
}

#[test]
fn test_capi_test_get_meaningful_lines_c() {
    let src = r#"
// interesting line
int main() {
    // maybe not useful
    return 0;
    /*
        this is useful
    */ int x = 10;
}
"#;
    assert_eq!(get_meaningful_line_indices::<C>(src), vec![2, 4, 7]);
}

#[test]
fn test_capi_test_get_cleaned_src_c() {
    let src = r#"
// interesting line
int main() {
    // maybe not useful
    return 0;
    /*
        this is useful
    */ int x = 10;
}"#;
    assert_eq!(
        get_cleaned_source_code::<C>(src),
        r#"int main() {
    return 0;
 int x = 10;
"#
    );
}
