//! Rewriting a token sequence into the target documentation style.
use vstd::prelude::*;
use crate::casing::{
    is_lower_camel, lower_camel_case, lower_camel_of, snake_case, snake_of, upper_camel_case,
    upper_camel_of,
};
use crate::text::{ends_with, has_prefix, has_suffix, same_text, starts_with};
use crate::token::{models, RefToken, Token, TokenClass, TokenModel};

verus! {

/// The rewritten form of a function call `w` (a name followed by `()`),
/// where the name is already in lowerCamelCase: the name in snake_case,
/// followed by `()`.
pub open spec fn function_call_of(w: Seq<char>) -> Option<Seq<char>> {
    if has_suffix(w, "()"@) {
        let name = w.take(w.len() - 2);
        if is_lower_camel(name) {
            Some(snake_of(name) + "()"@)
        } else {
            None
        }
    } else {
        None
    }
}

/// The view of an optional string.
pub open spec fn opt_view(o: Option<String>) -> Option<Seq<char>> {
    match o {
        Some(s) => Some(s@),
        None => None,
    }
}

/// Given a function name, its lowerCamelCase form and its snake_case form:
/// the call in snake_case where the name is already in lowerCamelCase.
pub fn function_call_from(name: &str, lower_camel: &str, snake: &str) -> (r: Option<String>)
    ensures
        lower_camel@ == name@ ==> r is Some && r->0@ == snake@ + "()"@,
        lower_camel@ != name@ ==> r is None,
{
    if same_text(lower_camel, name) {
        Some(String::from_str(snake).concat("()"))
    } else {
        None
    }
}

/// Converts a C-style call such as `getBounds()` to `get_bounds()`; `None`
/// where the word is no call or its name is not in lowerCamelCase.
pub fn convert_c_function(word: &str) -> (r: Option<String>)
    ensures
        opt_view(r) == function_call_of(word@),
{
    proof {
        reveal_strlit("()");
    }
    if ends_with(word, "()") {
        let n = word.unicode_len();
        let fn_name = word.substring_char(0, n - 2);
        let camel = lower_camel_case(fn_name);
        let snake = snake_case(fn_name);
        assert(fn_name@ =~= word@.take(word@.len() - 2));
        function_call_from(fn_name, camel.as_str(), snake.as_str())
    } else {
        None
    }
}

/// A scope separator `::` starts at `k` in `s`.
pub open spec fn scope_at(s: Seq<char>, k: int) -> bool {
    0 <= k && k + 1 < s.len() && s[k] == ':' && s[k + 1] == ':'
}

/// The first scope separator of `s` starts at `k`.
pub open spec fn first_scope(s: Seq<char>, k: int) -> bool {
    scope_at(s, k) && forall|j: int| 0 <= j < k ==> !scope_at(s, j)
}

/// The reference `owner::sub_name` renamed, given the forms of its parts
/// that the naming conventions give: a nested type in UpperCamelCase keeps
/// its name under the type's module name in snake_case; a member in
/// lowerCamelCase goes to snake_case; anything else stays as it is.
pub open spec fn renamed_reference(
    owner: Seq<char>,
    sub_name: Seq<char>,
    sub_upper: Seq<char>,
    sub_lower: Seq<char>,
    owner_snake: Seq<char>,
    sub_snake: Seq<char>,
) -> Seq<char> {
    if sub_upper == sub_name {
        owner_snake + "::"@ + sub_name
    } else if sub_lower == sub_name {
        owner + "::"@ + sub_snake
    } else {
        owner + "::"@ + sub_name
    }
}

/// The target form of a symbol reference (without its `Sk` prefix).
pub open spec fn sk_reference_of(r: Seq<char>) -> Seq<char> {
    if exists|k: int| first_scope(r, k) {
        let k = choose|k: int| first_scope(r, k);
        let t = r.take(k);
        let sub = r.skip(k + 2);
        renamed_reference(t, sub, upper_camel_of(sub), lower_camel_of(sub), snake_of(t), snake_of(sub))
    } else {
        r
    }
}

/// Given the two parts of a reference `owner::sub_name` and the naming
/// forms of its parts, the reference renamed as `renamed_reference` says.
pub fn qualify_reference(
    owner: &str,
    sub_name: &str,
    sub_upper: &str,
    sub_lower: &str,
    owner_snake: &str,
    sub_snake: &str,
) -> (r: String)
    ensures
        r@ == renamed_reference(owner@, sub_name@, sub_upper@, sub_lower@, owner_snake@, sub_snake@),
{
    if same_text(sub_upper, sub_name) {
        String::from_str(owner_snake).concat("::").concat(sub_name)
    } else if same_text(sub_lower, sub_name) {
        String::from_str(owner).concat("::").concat(sub_snake)
    } else {
        String::from_str(owner).concat("::").concat(sub_name)
    }
}

/// Where the first `::` of `s` starts, if it has one.
fn find_scope(s: &str) -> (r: Option<usize>)
    ensures
        r is Some ==> first_scope(s@, r->0 as int),
        r is None ==> forall|k: int| !scope_at(s@, k),
{
    let n = s.unicode_len();
    let mut k: usize = 0;
    while k < n && n - k >= 2
        invariant
            n == s@.len(),
            forall|j: int| 0 <= j < k ==> !scope_at(s@, j),
        decreases n - k,
    {
        if s.get_char(k) == ':' && s.get_char(k + 1) == ':' {
            return Some(k);
        }
        k += 1;
    }
    None
}

/// Converts a reference such as `Path::updateBoundsCache` to
/// `Path::update_bounds_cache`, or `Path::Verb` to `path::Verb`.
pub fn convert_sk_reference(reference: &str) -> (r: String)
    ensures
        r@ == sk_reference_of(reference@),
{
    proof {
        reveal_strlit("::");
    }
    match find_scope(reference) {
        Some(k) => {
            let n = reference.unicode_len();
            let owner = reference.substring_char(0, k);
            let sub_name = reference.substring_char(k + 2, n);
            let sub_upper = upper_camel_case(sub_name);
            let sub_lower = lower_camel_case(sub_name);
            let owner_snake = snake_case(owner);
            let sub_snake = snake_case(sub_name);
            proof {
                let c = choose|c: int| first_scope(reference@, c);
                assert(first_scope(reference@, k as int));
                if c < k {
                    assert(!scope_at(reference@, c));
                } else if k < c {
                    assert(!scope_at(reference@, k as int));
                }
                assert(c == k);
                assert(owner@ =~= reference@.take(k as int));
                assert(sub_name@ =~= reference@.skip(k + 2));
                assert(reference@ =~= owner@ + "::"@ + sub_name@);
            }
            qualify_reference(
                owner,
                sub_name,
                sub_upper.as_str(),
                sub_lower.as_str(),
                owner_snake.as_str(),
                sub_snake.as_str(),
            )
        },
        None => String::from_str(reference),
    }
}

/// The rewritten form of a single word that no multi-token rule took.
pub open spec fn word_text_of(w: Seq<char>) -> Seq<char> {
    if has_prefix(w, "Sk"@) {
        "[`"@ + sk_reference_of(w.skip(2)) + "`]"@
    } else if has_prefix(w, "https://"@) {
        "<"@ + w + ">"@
    } else if w == "true"@ || w == "false"@ {
        "`"@ + w + "`"@
    } else {
        match function_call_of(w) {
            Some(f) => "`"@ + f + "`"@,
            None => w,
        }
    }
}

/// The first rule that matches the front of `ts`: how many tokens it takes,
/// and the text it gives.
pub open spec fn rule_of(ts: Seq<TokenModel>) -> (nat, Seq<char>) {
    if ts.len() >= 3 && ts[0] == (TokenClass::Word, "@param"@) && ts[1] == (
    TokenClass::Whitespace, " "@) && ts[2].0 == TokenClass::Word {
        (3, "- `"@ + ts[2].1 + "` "@)
    } else if ts.len() >= 3 && ts[0] == (TokenClass::Word, "@return"@) && ts[1].0
        == TokenClass::Whitespace && ts[2].0 == TokenClass::Word {
        (2, "Returns: "@)
    } else if ts[0].0 == TokenClass::Word {
        (1, word_text_of(ts[0].1))
    } else {
        (1, ts[0].1)
    }
}

/// The rewritten text of a whole token sequence: rules applied from the
/// front until nothing is left.
pub open spec fn rewrite_of(ts: Seq<TokenModel>) -> Seq<char>
    decreases ts.len(),
{
    if ts.len() == 0 {
        Seq::empty()
    } else {
        let (n, f) = rule_of(ts);
        if 1 <= n <= ts.len() {
            f + rewrite_of(ts.skip(n as int))
        } else {
            f
        }
    }
}

/// The models of borrowed tokens.
pub open spec fn ref_models(ts: Seq<RefToken>) -> Seq<TokenModel> {
    ts.map_values(|t: RefToken| t.model())
}

/// The text that a single word gives on its own.
fn word_text(word: &str) -> (r: String)
    ensures
        r@ == word_text_of(word@),
{
    proof {
        reveal_strlit("Sk");
    }
    if starts_with(word, "Sk") {
        let n = word.unicode_len();
        let reference = convert_sk_reference(word.substring_char(2, n));
        return String::from_str("[`").concat(reference.as_str()).concat("`]");
    }
    if starts_with(word, "https://") {
        return String::from_str("<").concat(word).concat(">");
    }
    if same_text(word, "true") || same_text(word, "false") {
        return String::from_str("`").concat(word).concat("`");
    }
    match convert_c_function(word) {
        Some(new_function_name) => String::from_str("`").concat(new_function_name.as_str()).concat(
            "`",
        ),
        None => String::from_str(word),
    }
}

/// Applies the first rule that matches the front of `tokens`: returns how
/// many tokens it took and the text it gave.
pub fn consume_tokens(tokens: &[RefToken]) -> (r: (usize, String))
    requires
        tokens@.len() > 0,
    ensures
        r.0 as nat == rule_of(ref_models(tokens@)).0,
        r.1@ == rule_of(ref_models(tokens@)).1,
{
    let ghost m = ref_models(tokens@);
    assert(m[0] == tokens@[0].model());
    if tokens.len() >= 3 {
        assert(m[1] == tokens@[1].model() && m[2] == tokens@[2].model());
        match (&tokens[0], &tokens[1], &tokens[2]) {
            (RefToken::Word(tag), RefToken::Whitespace(ws), RefToken::Word(name)) => {
                if same_text(tag, "@param") && same_text(ws, " ") {
                    return (3, String::from_str("- `").concat(name).concat("` "));
                }
                if same_text(tag, "@return") {
                    return (2, String::from_str("Returns: "));
                }
            },
            _ => {},
        }
    }
    match &tokens[0] {
        RefToken::Word(word) => (1, word_text(word)),
        RefToken::Whitespace(ws) => (1, String::from_str(ws)),
        RefToken::Separator(sep) => (1, String::from_str(sep)),
    }
}

/// Rewrites a whole token sequence, rule by rule from the front.
pub fn process_tokens(tokens: &[Token]) -> (r: String)
    ensures
        r@ == rewrite_of(models(tokens@)),
{
    let mut refs: Vec<RefToken> = Vec::new();
    let mut i: usize = 0;
    while i < tokens.len()
        invariant
            i <= tokens@.len(),
            ref_models(refs@) == models(tokens@).take(i as int),
        decreases tokens@.len() - i,
    {
        let ghost before = refs@;
        let t = tokens[i].as_ref();
        assert(t.model() == models(tokens@)[i as int]);
        refs.push(t);
        assert(refs@ == before.push(t));
        assert(ref_models(refs@) =~= ref_models(before).push(t.model()));
        assert(models(tokens@).take(i + 1) =~= models(tokens@).take(i as int).push(
            models(tokens@)[i as int],
        ));
        assert(ref_models(refs@) =~= models(tokens@).take(i + 1));
        i += 1;
    }
    assert(ref_models(refs@) =~= models(tokens@));
    let ghost m = models(tokens@);
    let mut r = String::new();
    let mut current: usize = 0;
    while current != refs.len()
        invariant
            current <= refs@.len(),
            m == ref_models(refs@),
            rewrite_of(m) == r@ + rewrite_of(m.skip(current as int)),
        decreases refs@.len() - current,
    {
        let rest = &refs.as_slice()[current..refs.len()];
        assert(ref_models(rest@) =~= m.skip(current as int));
        let (consumed, s) = consume_tokens(rest);
        assert(m.skip(current as int).skip(consumed as int) =~= m.skip(current + consumed));
        current += consumed;
        r.append(s.as_str());
    }
    assert(m.skip(current as int) =~= Seq::<TokenModel>::empty());
    r
}

} // verus!
