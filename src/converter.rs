//! The whole conversion of one documentation comment.
use vstd::prelude::*;
use crate::pipeline::{
    comment, comment_of, common_trimmed_of, first_line_converter, first_line_of, kept_lines,
    remove_lines, trim_common_indent,
};
use crate::rewrite::{process_tokens, rewrite_of};
use crate::text::{join, join_lines, lines, lines_of, views};
use crate::token::{token_models_of, tokenize};

verus! {

/// The text with its first line rewritten as `first_line_of` says.
pub open spec fn header_of(s: Seq<char>) -> Seq<char> {
    let ls = lines_of(s);
    if ls.len() == 0 {
        Seq::empty()
    } else {
        join_lines(ls.update(0, first_line_of(ls[0])))
    }
}

/// The comment's text once structural lines are gone, the opening line is
/// rewritten and the common indentation, asterisk column and aligning
/// space are trimmed.
pub open spec fn normalized_of(s: Seq<char>) -> Seq<char> {
    let filtered = header_of(join_lines(kept_lines(s)));
    common_trimmed_of(common_trimmed_of(common_trimmed_of(filtered, ' '), '*'), ' ')
}

/// The converted form of a whole comment.
pub open spec fn convert_of(s: Seq<char>) -> Seq<char> {
    comment_of(rewrite_of(token_models_of(normalized_of(s))))
}

/// Converts a block documentation comment into line documentation comments.
pub fn convert(source: &str) -> (r: String)
    ensures
        r@ == convert_of(source@),
{
    let line_trimmed = remove_lines(source);
    let mut ls = lines(line_trimmed.as_str());
    if ls.len() > 0 {
        let first = first_line_converter(ls[0].as_str());
        let ghost before = views(ls@);
        ls.set(0, first);
        assert(views(ls@) =~= before.update(0, first_line_of(before[0])));
    }
    let line_trimmed = join(&ls);
    let trimmed = trim_common_indent(line_trimmed.as_str(), ' ');
    let trimmed = trim_common_indent(trimmed.as_str(), '*');
    let trimmed = trim_common_indent(trimmed.as_str(), ' ');
    let tokens = tokenize(trimmed.as_str());
    let processed = process_tokens(tokens.as_slice());
    comment(processed.as_str())
}

} // verus!
