//! Splitting text into maximal runs of words, whitespace and phrase
//! separators.
use vstd::prelude::*;
use crate::text::{is_ws, is_whitespace};

verus! {

/// The class of a single character.
#[derive(Copy, Clone, PartialEq, Eq, Debug, Structural)]
pub enum TokenClass {
    Word,
    Whitespace,
    /// Phrase separator only: `.`, `,` and `;`.
    Separator,
}

/// The class that a character belongs to, regardless of its neighbours.
pub open spec fn class_of(c: char) -> TokenClass {
    if c == '.' || c == ';' || c == ',' {
        TokenClass::Separator
    } else if is_ws(c) {
        TokenClass::Whitespace
    } else {
        TokenClass::Word
    }
}

/// A token of the original comment.
pub enum Token {
    Word(String),
    Whitespace(String),
    /// Phrase separator only, ,.;
    Separator(String),
}

/// A token that borrows its text.
pub enum RefToken<'a> {
    Word(&'a str),
    Whitespace(&'a str),
    Separator(&'a str),
}

/// A token as its class and its text.
pub type TokenModel = (TokenClass, Seq<char>);

impl Token {
    pub open spec fn class(&self) -> TokenClass {
        match self {
            Token::Word(_) => TokenClass::Word,
            Token::Whitespace(_) => TokenClass::Whitespace,
            Token::Separator(_) => TokenClass::Separator,
        }
    }

    pub open spec fn text(&self) -> Seq<char> {
        match self {
            Token::Word(s) => s@,
            Token::Whitespace(s) => s@,
            Token::Separator(s) => s@,
        }
    }

    pub open spec fn model(&self) -> TokenModel {
        (self.class(), self.text())
    }

    /// The same token, borrowing its text.
    pub fn as_ref(&self) -> (r: RefToken<'_>)
        ensures
            r.model() == self.model(),
    {
        match self {
            Token::Word(w) => RefToken::Word(w.as_str()),
            Token::Whitespace(ws) => RefToken::Whitespace(ws.as_str()),
            Token::Separator(ws) => RefToken::Separator(ws.as_str()),
        }
    }
}

impl<'a> RefToken<'a> {
    pub open spec fn class(&self) -> TokenClass {
        match self {
            RefToken::Word(_) => TokenClass::Word,
            RefToken::Whitespace(_) => TokenClass::Whitespace,
            RefToken::Separator(_) => TokenClass::Separator,
        }
    }

    pub open spec fn text(&self) -> Seq<char> {
        match self {
            RefToken::Word(s) => s@,
            RefToken::Whitespace(s) => s@,
            RefToken::Separator(s) => s@,
        }
    }

    pub open spec fn model(&self) -> TokenModel {
        (self.class(), self.text())
    }
}

impl TokenClass {
    /// The class of `c`: separator for `.`, `;` and `,`, whitespace for
    /// Unicode whitespace, word for everything else.
    pub fn classify(c: char) -> (r: TokenClass)
        ensures
            r == class_of(c),
    {
        if c == '.' || c == ';' || c == ',' {
            return TokenClass::Separator;
        }
        if is_whitespace(c) {
            return TokenClass::Whitespace;
        }
        TokenClass::Word
    }

    /// A token of this class holding `str`.
    pub fn to_token(self, str: &str) -> (r: Token)
        requires
            str@.len() > 0,
        ensures
            r.class() == self,
            r.text() == str@,
    {
        match self {
            TokenClass::Word => Token::Word(String::from_str(str)),
            TokenClass::Whitespace => Token::Whitespace(String::from_str(str)),
            TokenClass::Separator => Token::Separator(String::from_str(str)),
        }
    }
}

/// The texts of `ts`, one after the other.
pub open spec fn concat_texts(ts: Seq<Token>) -> Seq<char>
    decreases ts.len(),
{
    if ts.len() == 0 {
        Seq::empty()
    } else {
        concat_texts(ts.drop_last()) + ts.last().text()
    }
}

/// The token is non-empty and holds characters of its own class only.
#[verifier::opaque]
pub open spec fn is_uniform(t: Token) -> bool {
    t.text().len() > 0 && forall|j: int|
        0 <= j < t.text().len() ==> class_of(#[trigger] t.text()[j]) == t.class()
}

/// Each token is non-empty and holds characters of its own class only.
pub open spec fn uniform_tokens(ts: Seq<Token>) -> bool {
    forall|i: int| 0 <= i < ts.len() ==> is_uniform(#[trigger] ts[i])
}

proof fn lemma_push_token(ts: Seq<Token>, t: Token)
    requires
        uniform_tokens(ts),
        maximal_runs(ts),
        is_uniform(t),
        ts.len() > 0 ==> ts.last().class() != t.class(),
    ensures
        uniform_tokens(ts.push(t)),
        maximal_runs(ts.push(t)),
        concat_texts(ts.push(t)) == concat_texts(ts) + t.text(),
{
    let u = ts.push(t);
    assert(u.drop_last() =~= ts);
    assert forall|i: int| 0 <= i < u.len() implies is_uniform(#[trigger] u[i]) by {
        if i < ts.len() {
            assert(u[i] == ts[i]);
        }
    }
    assert forall|i: int, j: int| 0 <= i && j == i + 1 && j < u.len() implies #[trigger] u[i].class()
        != #[trigger] u[j].class() by {
        if j < ts.len() {
            assert(u[i] == ts[i] && u[j] == ts[j]);
        }
    }
}

/// No two neighbouring tokens share a class, so each is a maximal run.
pub open spec fn maximal_runs(ts: Seq<Token>) -> bool {
    forall|i: int, j: int|
        0 <= i && j == i + 1 && j < ts.len() ==> #[trigger] ts[i].class() != #[trigger] ts[j].class()
}

/// The models of tokens.
pub open spec fn models(ts: Seq<Token>) -> Seq<TokenModel> {
    ts.map_values(|t: Token| t.model())
}

/// The tokens of `s`, built one character at a time: a character of the
/// last token's class extends it, any other opens a new token.
pub open spec fn token_models_of(s: Seq<char>) -> Seq<TokenModel>
    decreases s.len(),
{
    if s.len() == 0 {
        Seq::empty()
    } else {
        let prev = token_models_of(s.drop_last());
        let c = s.last();
        if prev.len() > 0 && prev.last().0 == class_of(c) {
            prev.update(prev.len() - 1, (class_of(c), prev.last().1.push(c)))
        } else {
            prev.push((class_of(c), seq![c]))
        }
    }
}

/// Splits `source` into maximal runs of characters of one class. The
/// tokens' texts, one after the other, give back `source` exactly.
pub fn tokenize(source: &str) -> (r: Vec<Token>)
    ensures
        models(r@) == token_models_of(source@),
        concat_texts(r@) == source@,
        uniform_tokens(r@),
        maximal_runs(r@),
{
    let n = source.unicode_len();
    let mut r: Vec<Token> = Vec::new();
    if n == 0 {
        assert(concat_texts(r@) =~= source@);
        assert(models(r@) =~= token_models_of(source@));
        return r;
    }
    let mut current = TokenClass::classify(source.get_char(0));
    let mut start: usize = 0;
    let mut i: usize = 1;
    assert(source@.take(0) =~= Seq::<char>::empty());
    assert(source@.take(1).drop_last() =~= source@.take(0));
    assert(models(r@) =~= Seq::<TokenModel>::empty());
    assert(token_models_of(source@.take(0)) =~= Seq::<TokenModel>::empty());
    assert(source@.subrange(0, 1) =~= seq![source@[0]]);
    assert(source@.take(1).last() == source@[0]);
    assert(models(r@).push((current, source@.subrange(0, 1))) =~= token_models_of(source@.take(1)));
    while i < n
        invariant
            n == source@.len(),
            start < i <= n,
            current == class_of(source@[start as int]),
            forall|j: int| start <= j < i ==> class_of(#[trigger] source@[j]) == current,
            concat_texts(r@) == source@.take(start as int),
            uniform_tokens(r@),
            maximal_runs(r@),
            r@.len() > 0 ==> r@.last().class() != current,
            token_models_of(source@.take(i as int)) == models(r@).push(
                (current, source@.subrange(start as int, i as int)),
            ),
        decreases n - i,
    {
        let c = source.get_char(i);
        let class = TokenClass::classify(c);
        assert(source@.take(i + 1).drop_last() =~= source@.take(i as int));
        assert(source@.take(i + 1).last() == c);
        if class == current {
            assert(source@.subrange(start as int, i as int).push(c) =~= source@.subrange(
                start as int,
                i + 1,
            ));
            assert(token_models_of(source@.take(i + 1)) =~= models(r@).push(
                (current, source@.subrange(start as int, i + 1)),
            ));
        }
        if class != current {
            let ghost old_r = r@;
            let piece = source.substring_char(start, i);
            let token = current.to_token(piece);
            proof {
                assert(is_uniform(token)) by {
                    reveal(is_uniform);
                    assert forall|j: int| 0 <= j < token.text().len() implies class_of(
                        #[trigger] token.text()[j],
                    ) == token.class() by {
                        assert(token.text()[j] == source@[start + j]);
                    }
                }
                lemma_push_token(old_r, token);
            }
            r.push(token);
            assert(models(r@) =~= models(old_r).push(token.model()));
            assert(source@.take(start as int) + piece@ =~= source@.take(i as int));
            assert(source@.subrange(i as int, i + 1) =~= seq![c]);
            assert(token_models_of(source@.take(i + 1)) =~= models(r@).push(
                (class, source@.subrange(i as int, i + 1)),
            ));
            start = i;
            current = class;
        }
        i += 1;
    }
    let ghost old_r = r@;
    let piece = source.substring_char(start, n);
    let token = current.to_token(piece);
    proof {
        assert(is_uniform(token)) by {
            reveal(is_uniform);
            assert forall|j: int| 0 <= j < token.text().len() implies class_of(
                #[trigger] token.text()[j],
            ) == token.class() by {
                assert(token.text()[j] == source@[start + j]);
            }
        }
        lemma_push_token(old_r, token);
    }
    r.push(token);
    assert(models(r@) =~= models(old_r).push(token.model()));
    assert(source@.take(start as int) + piece@ =~= source@);
    assert(source@.take(n as int) =~= source@);
    r
}

} // verus!
