//! Classifies the lines of a source file as meaningful (holding code) or not
//! (blank, comment or string only), for several programming languages.
//!
//! Two classifiers stand side by side: one driven by per-language rule tables
//! (`parse`, `langs`, `count`), which numbers lines from 0, and one driven by a
//! syntax tree (`parse::v2`), which numbers lines from 1.
use crate::count::{cleaned, meaningful_lines};
use crate::parse::v2::executable_lines;
use crate::parse::{tokens_of, ParseItem, ParseOutput};
use std::ops::Range;
use vstd::prelude::*;

pub mod count;
pub mod langs;
pub mod parse;
pub mod text;

verus! {

/// On an empty source, under any rule table and any byte ranges, the tokenizer yields `EOF`
/// alone, no line is meaningful, the cleaned source is empty, and no line holds code.
pub proof fn law_empty_source(items: Seq<ParseItem>, ignored: Seq<char>, rs: Seq<Range<usize>>)
    ensures
        tokens_of(items, Seq::<char>::empty()) == seq![ParseOutput::EOF],
        meaningful_lines(items, ignored, Seq::<char>::empty()) == Set::<int>::empty(),
        cleaned(items, ignored, Seq::<char>::empty()) == Seq::<char>::empty(),
        executable_lines(Seq::<char>::empty(), rs) == Set::<int>::empty(),
{
    assert(executable_lines(Seq::<char>::empty(), rs) =~= Set::<int>::empty());
}

} // verus!
