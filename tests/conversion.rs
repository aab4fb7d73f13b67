use comment_converter::converter::convert;
use comment_converter::pipeline::{
    comment, first_line_converter, indent_size, remove_line, remove_lines, trim_common_indent,
};
use comment_converter::rewrite::{
    consume_tokens, convert_c_function, convert_sk_reference, function_call_from, process_tokens,
    qualify_reference,
};
use comment_converter::text::{join, lines};
use comment_converter::token::{tokenize, RefToken, Token, TokenClass};

fn split_and_join(v: &str) -> String {
    join(&lines(v))
}

#[test]
fn lines_splitting_is_symmetric() {
    for v in ["", "a", "a\n", "a\nb", "a\nb\n\nc", "a\nb\n\nc\n", "a\nb\n\nc\n\n"] {
        assert_eq!(split_and_join(v), v);
    }
}

#[test]
fn lines_of_trailing_break() {
    assert_eq!(lines("a\n"), vec!["a".to_string(), String::new()]);
    assert!(lines("").is_empty());
    assert_eq!(lines("\n\n"), vec![String::new(), String::new(), String::new()]);
}

#[test]
fn tokenization_is_lossless() {
    for t in ["", "a", "Hello, world.  Next;one", "  lead\ttab\n", "x.,;y"] {
        let tokens = tokenize(t);
        let mut all = String::new();
        for token in &tokens {
            let text = match token {
                Token::Word(s) | Token::Whitespace(s) | Token::Separator(s) => s,
            };
            assert!(!text.is_empty());
            all.push_str(text);
        }
        assert_eq!(all, t);
    }
}

#[test]
fn tokens_are_maximal_runs() {
    let tokens = tokenize("ab  c.,d");
    let classes: Vec<TokenClass> = tokens
        .iter()
        .map(|t| match t {
            Token::Word(_) => TokenClass::Word,
            Token::Whitespace(_) => TokenClass::Whitespace,
            Token::Separator(_) => TokenClass::Separator,
        })
        .collect();
    assert_eq!(
        classes,
        vec![
            TokenClass::Word,
            TokenClass::Whitespace,
            TokenClass::Word,
            TokenClass::Separator,
            TokenClass::Word
        ]
    );
}

#[test]
fn classify_characters() {
    assert_eq!(TokenClass::classify('.'), TokenClass::Separator);
    assert_eq!(TokenClass::classify(','), TokenClass::Separator);
    assert_eq!(TokenClass::classify(';'), TokenClass::Separator);
    assert_eq!(TokenClass::classify(' '), TokenClass::Whitespace);
    assert_eq!(TokenClass::classify('\u{3000}'), TokenClass::Whitespace);
    assert_eq!(TokenClass::classify('a'), TokenClass::Word);
    assert_eq!(TokenClass::classify(':'), TokenClass::Word);
}

#[test]
fn to_token_and_as_ref() {
    let t = TokenClass::Separator.to_token(".;");
    assert!(matches!(t.as_ref(), RefToken::Separator(".;")));
    let w = TokenClass::Word.to_token("word");
    assert!(matches!(w.as_ref(), RefToken::Word("word")));
}

#[test]
fn recommenting_is_idempotent() {
    for s in ["", "a", "a\nb\n", "/// a\nb", "x\n   ", "a\n\nb"] {
        let once = comment(s);
        assert_eq!(comment(&once), once);
    }
}

#[test]
fn comment_marks_lines() {
    assert_eq!(comment("a\n/// b\n"), "/// a\n/// b\n");
    assert_eq!(comment("a\n  "), "/// a\n  ");
    assert_eq!(comment("  \na"), "///   \n/// a");
    assert_eq!(comment(""), "");
}

#[test]
fn param_tag() {
    // The tag rule ends its item with a space, and the whitespace token
    // after the name passes through as well.
    let out = convert("@param foo the foo value.");
    assert!(out.contains("- `foo` "));
    assert!(out.ends_with(" the foo value."));
    assert_eq!(out, "/// - `foo`  the foo value.");
}

#[test]
fn return_tag() {
    assert_eq!(convert("@return true if valid"), "/// Returns: `true` if valid");
}

#[test]
fn symbol_reference() {
    assert_eq!(convert("SkPath::updateBoundsCache"), "/// [`Path::update_bounds_cache`]");
    assert_eq!(convert("SkPath::Verb"), "/// [`path::Verb`]");
    assert_eq!(convert_sk_reference("Path::updateBoundsCache"), "Path::update_bounds_cache");
    assert_eq!(convert_sk_reference("Path::Verb"), "path::Verb");
    assert_eq!(convert_sk_reference("Path"), "Path");
    assert_eq!(convert_sk_reference("Path::update_cache"), "Path::update_cache");
}

#[test]
fn function_call_conversion() {
    assert_eq!(convert("getBounds()"), "/// `get_bounds()`");
    assert_eq!(convert("GetBounds()"), "/// GetBounds()");
    assert_eq!(convert_c_function("getBounds()"), Some("get_bounds()".to_string()));
    assert_eq!(convert_c_function("GetBounds()"), None);
    assert_eq!(convert_c_function("get_bounds()"), None);
    assert_eq!(convert_c_function("getBounds"), None);
}

#[test]
fn given_naming_forms() {
    assert_eq!(function_call_from("getX", "getX", "get_x"), Some("get_x()".to_string()));
    assert_eq!(function_call_from("GetX", "getX", "get_x"), None);
    assert_eq!(qualify_reference("Path", "Verb", "Verb", "verb", "path", "verb"), "path::Verb");
    assert_eq!(qualify_reference("Path", "isOk", "IsOk", "isOk", "path", "is_ok"), "Path::is_ok");
    assert_eq!(qualify_reference("Path", "is_ok", "IsOk", "isOk", "path", "is_ok"), "Path::is_ok");
}

#[test]
fn indent_normalization() {
    let s = "  * a\n  *  b\n  * c";
    let t = trim_common_indent(s, ' ');
    assert_eq!(t, "* a\n*  b\n* c");
    let t = trim_common_indent(&t, '*');
    let t = trim_common_indent(&t, ' ');
    assert_eq!(t, "a\n b\nc");
}

#[test]
fn indent_trim_ignores_trailing_break() {
    assert_eq!(trim_common_indent("  a\n    b\n", ' '), "a\n  b\n");
    assert_eq!(trim_common_indent("", ' '), "");
}

#[test]
fn indent_size_counts() {
    assert_eq!(indent_size("   x", ' '), Some(3));
    assert_eq!(indent_size("x", ' '), Some(0));
    assert_eq!(indent_size("   ", ' '), None);
    assert_eq!(indent_size("", ' '), None);
}

#[test]
fn structural_lines() {
    assert!(remove_line("/**"));
    assert!(remove_line("  */  "));
    assert!(remove_line(" /**\\class SkPath"));
    assert!(!remove_line("/** \\class SkPath"));
    assert!(!remove_line(" * text"));
    assert!(!remove_line("/** text"));
    assert_eq!(remove_lines("/**\n * a\n */"), " * a");
    assert_eq!(remove_lines("x\ny"), "x\ny");
}

#[test]
fn first_line_rewrite() {
    assert_eq!(first_line_converter("  /** Text"), "      Text");
    assert_eq!(first_line_converter("/**Text"), "/**Text");
    assert_eq!(first_line_converter("   "), "   ");
    assert_eq!(first_line_converter(" * /** x"), " * /** x");
}

#[test]
fn url_and_separators() {
    assert_eq!(convert("See https://skia.org."), "/// See <https://skia>.org.");
    assert_eq!(convert("a, false;"), "/// a, `false`;");
}

#[test]
fn consume_single_rules() {
    let ws = [RefToken::Whitespace("  ")];
    let (n, s) = consume_tokens(&ws);
    assert_eq!((n, s.as_str()), (1, "  "));
    let tag = [RefToken::Word("@param"), RefToken::Whitespace(" "), RefToken::Word("x")];
    let (n, s) = consume_tokens(&tag);
    assert_eq!((n, s.as_str()), (3, "- `x` "));
    let wide = [RefToken::Word("@param"), RefToken::Whitespace("  "), RefToken::Word("x")];
    let (n, s) = consume_tokens(&wide);
    assert_eq!((n, s.as_str()), (1, "@param"));
    let ret = [RefToken::Word("@return"), RefToken::Whitespace("\t"), RefToken::Word("x")];
    let (n, s) = consume_tokens(&ret);
    assert_eq!((n, s.as_str()), (2, "Returns: "));
}

#[test]
fn process_whole_sequence() {
    let tokens = tokenize("@param w SkRect::isEmpty, true.");
    assert_eq!(process_tokens(&tokens), "- `w`  [`Rect::is_empty`], `true`.");
}

#[test]
fn whole_comment() {
    let src = "/** Returns the bounds.\n    @param p  the SkPath.\n    @return true if set\n*/\n";
    assert_eq!(
        convert(src),
        "/// Returns the bounds.\n/// - `p`   the [`Path`].\n/// Returns: `true` if set\n"
    );
    assert_eq!(convert("/**\n * Hello world.\n */\n"), "/// Hello world.\n");
    assert_eq!(convert(""), "");
}
