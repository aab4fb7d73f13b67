//! Identifier naming conventions, computed by the `heck` crate.
use heck::{ToLowerCamelCase, ToSnakeCase, ToUpperCamelCase};
use vstd::prelude::*;

verus! {

/// What `heck` makes of an identifier in snake_case.
pub uninterp spec fn snake_of(s: Seq<char>) -> Seq<char>;

/// What `heck` makes of an identifier in lowerCamelCase.
pub uninterp spec fn lower_camel_of(s: Seq<char>) -> Seq<char>;

/// What `heck` makes of an identifier in UpperCamelCase.
pub uninterp spec fn upper_camel_of(s: Seq<char>) -> Seq<char>;

/// `s` is already in lowerCamelCase: converting it changes nothing.
pub open spec fn is_lower_camel(s: Seq<char>) -> bool {
    lower_camel_of(s) == s
}

/// `s` is already in UpperCamelCase: converting it changes nothing.
pub open spec fn is_upper_camel(s: Seq<char>) -> bool {
    upper_camel_of(s) == s
}

/// Relies on heck's `ToSnakeCase::to_snake_case` for `str`: a function of
/// the characters alone.
#[verifier::external_body]
pub(crate) fn snake_case(s: &str) -> (r: String)
    ensures
        r@ == snake_of(s@),
{
    s.to_snake_case()
}

/// Relies on heck's `ToLowerCamelCase::to_lower_camel_case` for `str`: a
/// function of the characters alone.
#[verifier::external_body]
pub(crate) fn lower_camel_case(s: &str) -> (r: String)
    ensures
        r@ == lower_camel_of(s@),
{
    s.to_lower_camel_case()
}

/// Relies on heck's `ToUpperCamelCase::to_upper_camel_case` for `str`: a
/// function of the characters alone.
#[verifier::external_body]
pub(crate) fn upper_camel_case(s: &str) -> (r: String)
    ensures
        r@ == upper_camel_of(s@),
{
    s.to_upper_camel_case()
}

} // verus!
