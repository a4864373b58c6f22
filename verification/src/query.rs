//! Splits a raw input line into a search term and a sort directive.
//!
//! The first occurrence of the token `sort:` cuts the line: what stands
//! before it, trimmed of surrounding whitespace, is the search term.
//! The directive is chosen by plain substring containment of
//! `sort:memory` or `sort:cpu` anywhere in the original line; any other
//! shape, malformed directives included, leaves the ordering at its
//! default.
use crate::process::SortDirective;
use crate::text::{find_first, spec_contains, spec_find, spec_trim, trim_chars};
use vstd::prelude::*;

verus! {

/// The search term of a raw input line: everything before the first
/// `sort:`, trimmed.
pub open spec fn spec_search_term(input: Seq<char>) -> Seq<char> {
    let cut = match spec_find(input, "sort:"@) {
        Some(i) => i,
        None => input.len() as int,
    };
    spec_trim(input.subrange(0, cut))
}

/// The directive of a raw input line, by substring containment, with
/// `sort:memory` looked for first.
pub open spec fn spec_directive(input: Seq<char>) -> SortDirective {
    if spec_contains(input, "sort:memory"@) {
        SortDirective::ByMemory
    } else if spec_contains(input, "sort:cpu"@) {
        SortDirective::ByCpuTime
    } else {
        SortDirective::ByScore
    }
}

/// Splits the raw line into its search term and its sort directive.
pub fn parse_query(input: &str) -> (r: (String, SortDirective))
    ensures
        r.0@ == spec_search_term(input@),
        r.1 == spec_directive(input@),
{
    let len = input.unicode_len();
    let cut: usize = match find_first(input, "sort:") {
        Some(i) => {
            proof {
                crate::text::lemma_find_characterizes(input@, "sort:"@);
            }
            i
        },
        None => len,
    };
    let before = input.substring_char(0, cut);
    let term = trim_chars(before);
    let directive = if find_first(input, "sort:memory").is_some() {
        SortDirective::ByMemory
    } else if find_first(input, "sort:cpu").is_some() {
        SortDirective::ByCpuTime
    } else {
        SortDirective::ByScore
    };
    (term, directive)
}

} // verus!
