use vstd::prelude::*;
use vstd::string::StrSliceExecFns;

use crate::text::has_char;
use crate::text::contains_char;
use crate::text::split_chars;
use crate::text::split_str;

verus! {

/// A parsed tag query: every tag must be present (`Has`), at least one must
/// be (`OneOf`), or the tags must match exactly and exhaustively (`Only`).
#[derive(Debug, PartialEq, Eq)]
pub enum TagSearch {
    Has(Vec<String>),
    OneOf(Vec<String>),
    Only(Vec<String>),
}

/// The views of a tag list's entries.
pub open spec fn tag_views(ts: Seq<String>) -> Seq<Seq<char>> {
    ts.map_values(|t: String| t@)
}

impl TagSearch {
    /// Parses a tag query: `^tags$` asks for exactly those tags, a query
    /// with `|` for any one of the alternatives, and anything else for all
    /// of its space-separated tags.
    pub fn from_str(str: &String) -> (r: Self)
        ensures
            str@.len() > 0 && str@[0] == '^' && str@[str@.len() - 1] == '$' ==> (r matches
                TagSearch::Only(ts) && tag_views(ts@) == split_chars(
                str@.subrange(1, str@.len() - 1),
                ' ',
            )),
            !(str@.len() > 0 && str@[0] == '^' && str@[str@.len() - 1] == '$') && has_char(
                str@,
                '|',
            ) ==> (r matches TagSearch::OneOf(ts) && tag_views(ts@) == split_chars(str@, '|')),
            !(str@.len() > 0 && str@[0] == '^' && str@[str@.len() - 1] == '$') && !has_char(
                str@,
                '|',
            ) ==> (r matches TagSearch::Has(ts) && tag_views(ts@) == split_chars(str@, ' ')),
    {
        let s = str.as_str();
        let n = s.unicode_len();
        let exact = n > 0 && s.get_char(0) == '^' && s.get_char(n - 1) == '$';
        if exact {
            let inner = s.substring_char(1, n - 1);
            TagSearch::Only(split_str(inner, ' '))
        } else if contains_char(s, '|') {
            TagSearch::OneOf(split_str(s, '|'))
        } else {
            TagSearch::Has(split_str(s, ' '))
        }
    }
}

} // verus!
