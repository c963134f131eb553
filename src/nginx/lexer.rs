//! Tokens of the Nginx syntax.

use crate::lexer::{find_line_end, lemma_line_end_bound, line_end, literal_at, scan_literal, text_of, Literal};
use vstd::prelude::*;

verus! {

/// A token of the Nginx syntax. Comments are tokens here: their text, after
/// the `#`, is a literal with quote `#`.
#[derive(Debug, PartialEq, Eq, Clone)]
pub enum Token {
    Semicolon,
    BlockStart,
    BlockEnd,
    NewLine,
    Eof,
    Literal(Literal),
    Comment(Literal),
}

/// What a token is, with a literal's raw text as a sequence.
pub enum TokenView {
    Semicolon,
    BlockStart,
    BlockEnd,
    NewLine,
    Eof,
    Literal(Seq<char>, u8),
    Comment(Seq<char>),
}

impl Token {
    pub open spec fn view(&self) -> TokenView {
        match self {
            Token::Semicolon => TokenView::Semicolon,
            Token::BlockStart => TokenView::BlockStart,
            Token::BlockEnd => TokenView::BlockEnd,
            Token::NewLine => TokenView::NewLine,
            Token::Eof => TokenView::Eof,
            Token::Literal(l) => TokenView::Literal(l.raw@, l.quote),
            Token::Comment(l) => TokenView::Comment(l.raw@),
        }
    }

    /// The raw text of a literal, read as an identifier.
    pub fn ident(&self) -> (r: Option<&str>)
        ensures
            r matches Some(x) ==> self.view() matches TokenView::Literal(raw, _) && x@ == raw,
            r is None <==> !(self.view() is Literal),
    {
        self.raw_string()
    }

    /// The raw text of a literal.
    pub fn raw_string(&self) -> (r: Option<&str>)
        ensures
            r matches Some(x) ==> self.view() matches TokenView::Literal(raw, _) && x@ == raw,
            r is None <==> !(self.view() is Literal),
    {
        match self {
            Token::Literal(l) => Some(l.raw.as_str()),
            _ => None,
        }
    }

    /// The literal, if the token is one.
    pub fn literal(&self) -> (r: Option<&Literal>)
        ensures
            r matches Some(l) ==> self.view() == TokenView::Literal(l.raw@, l.quote),
            r is None <==> !(self.view() is Literal),
    {
        match self {
            Token::Literal(l) => Some(l),
            _ => None,
        }
    }
}

pub open spec fn is_space(c: char) -> bool {
    c == ' ' || c == '\t' || c == '\r' || c == '\n'
}

pub open spec fn skip_space(s: Seq<char>, i: int) -> int
    decreases s.len() - i,
{
    if 0 <= i < s.len() && is_space(s[i]) {
        skip_space(s, i + 1)
    } else {
        i
    }
}

/// The token after `i` and where the input goes on after it; `Err` holds
/// where a token could not be read.
pub open spec fn next_token(s: Seq<char>, i: int) -> Result<(TokenView, int), int> {
    let j = skip_space(s, i);
    if j >= s.len() {
        Ok((TokenView::Eof, j))
    } else if s[j] == '{' {
        Ok((TokenView::BlockStart, j + 1))
    } else if s[j] == '}' {
        Ok((TokenView::BlockEnd, j + 1))
    } else if s[j] == '#' {
        Ok((TokenView::Comment(s.subrange(j + 1, line_end(s, j + 1))), line_end(s, j + 1)))
    } else if s[j] == ';' {
        Ok((TokenView::Semicolon, j + 1))
    } else {
        match literal_at(s, j, 1) {
            Some((a, b, e, q)) => Ok((TokenView::Literal(s.subrange(a, b), q), e)),
            None => Err(j),
        }
    }
}

proof fn lemma_skip_space_bound(s: Seq<char>, i: int)
    requires
        0 <= i <= s.len(),
    ensures
        i <= skip_space(s, i) <= s.len(),
    decreases s.len() - i,
{
    if i < s.len() && is_space(s[i]) {
        lemma_skip_space_bound(s, i + 1);
    }
}

/// Reads the token after `i`, as `next_token` says.
pub fn tokenizer(s: &[char], i: usize) -> (r: Result<(Token, usize), usize>)
    requires
        i <= s@.len(),
    ensures
        r matches Ok((t, e)) ==> next_token(s@, i as int) == Ok::<(TokenView, int), int>(
            (t.view(), e as int),
        ) && i <= e <= s@.len() && (!(t is Eof) ==> i < e),
        r matches Err(p) ==> next_token(s@, i as int) == Err::<(TokenView, int), int>(p as int),
{
    let n = s.len();
    let mut j = i;
    proof {
        lemma_skip_space_bound(s@, i as int);
    }
    while j < n && (s[j] == ' ' || s[j] == '\t' || s[j] == '\r' || s[j] == '\n')
        invariant
            i <= j <= n == s@.len(),
            skip_space(s@, j as int) == skip_space(s@, i as int),
        decreases n - j,
    {
        j = j + 1;
    }
    if j >= n {
        Ok((Token::Eof, j))
    } else if s[j] == '{' {
        Ok((Token::BlockStart, j + 1))
    } else if s[j] == '}' {
        Ok((Token::BlockEnd, j + 1))
    } else if s[j] == '#' {
        proof {
            lemma_line_end_bound(s@, j + 1);
        }
        let e = find_line_end(s, j + 1);
        Ok((Token::Comment(Literal { raw: text_of(s, j + 1, e), quote: 35u8 }), e))
    } else if s[j] == ';' {
        Ok((Token::Semicolon, j + 1))
    } else {
        match scan_literal(s, j, 1) {
            Some((a, b, e, q)) => Ok((Token::Literal(Literal { raw: text_of(s, a, b), quote: q }), e)),
            None => Err(j),
        }
    }
}

} // verus!
