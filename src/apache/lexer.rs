//! Tokens of the Apache syntax.

use crate::lexer::{
    find_line_end, lemma_line_end_bound, line_end, literal_at, scan_literal, text_of, unescaped,
};

use vstd::prelude::*;

verus! {

/// A token of the Apache syntax. Comments never become tokens.
#[derive(Debug, PartialEq, Eq, Clone)]
pub enum Token {
    OpenTag,
    EndTag,
    CloseTag,
    NewLine,
    Eof,
    Literal { raw: String, quote: u8 },
}

/// What a token is, with a literal's raw text as a sequence.
pub enum TokenView {
    OpenTag,
    EndTag,
    CloseTag,
    NewLine,
    Eof,
    Literal(Seq<char>, u8),
}

impl Token {
    pub open spec fn view(&self) -> TokenView {
        match self {
            Token::OpenTag => TokenView::OpenTag,
            Token::EndTag => TokenView::EndTag,
            Token::CloseTag => TokenView::CloseTag,
            Token::NewLine => TokenView::NewLine,
            Token::Eof => TokenView::Eof,
            Token::Literal { raw, quote } => TokenView::Literal(raw@, *quote),
        }
    }

    /// The raw text of a literal, read as an identifier.
    pub fn ident(&self) -> (r: Option<&str>)
        ensures
            r matches Some(x) ==> self.view() matches TokenView::Literal(raw, _) && x@ == raw,
            r is None <==> !(self.view() is Literal),
    {
        self.raw_string()
    }

    /// The raw text of a literal.
    pub fn raw_string(&self) -> (r: Option<&str>)
        ensures
            r matches Some(x) ==> self.view() matches TokenView::Literal(raw, _) && x@ == raw,
            r is None <==> !(self.view() is Literal),
    {
        match self {
            Token::Literal { raw, .. } => Some(raw.as_str()),
            _ => None,
        }
    }

    /// The logical value of a literal.
    pub fn unescape(&self) -> (r: Option<String>)
        ensures
            r matches Some(x) ==> self.view() matches TokenView::Literal(raw, q) && x@
                == unescaped(raw, q),
            r is None <==> !(self.view() is Literal),
    {
        match self {
            Token::Literal { raw, quote } => Some(
                crate::lexer::Literal { raw: raw.clone(), quote: *quote }.unescape(),
            ),
            _ => None,
        }
    }
}

/// Characters skipped between tokens: spaces and tabs, and line breaks too
/// unless `nl` (line breaks end a statement) holds.
pub open spec fn is_blank(c: char, nl: bool) -> bool {
    c == ' ' || c == '\t' || (!nl && (c == '\r' || c == '\n'))
}

pub open spec fn skip_blank(s: Seq<char>, i: int, nl: bool) -> int
    decreases s.len() - i,
{
    if 0 <= i < s.len() && is_blank(s[i], nl) {
        skip_blank(s, i + 1, nl)
    } else {
        i
    }
}

/// Where a `#` comment that starts at `j` ends: past its line break, if any.
pub open spec fn comment_end(s: Seq<char>, j: int) -> int {
    let e = line_end(s, j + 1);
    if e < s.len() {
        e + 1
    } else {
        e
    }
}

/// Skips blanks and comments, in any interleaving.
pub open spec fn skip_trivia(s: Seq<char>, i: int, nl: bool) -> int
    decreases s.len() - i,
{
    let j = skip_blank(s, i, nl);
    if i <= j < s.len() && s[j] == '#' && j < comment_end(s, j) <= s.len() {
        skip_trivia(s, comment_end(s, j), nl)
    } else {
        j
    }
}

/// The token after `i` and where the input goes on after it; `Err` holds
/// where a token could not be read.
pub open spec fn next_token(s: Seq<char>, i: int, nl: bool) -> Result<(TokenView, int), int> {
    let j = skip_trivia(s, i, nl);
    if j >= s.len() {
        Ok((TokenView::Eof, j))
    } else if s[j] == '<' && j + 1 < s.len() && s[j + 1] == '/' {
        Ok((TokenView::CloseTag, j + 2))
    } else if s[j] == '<' {
        Ok((TokenView::OpenTag, j + 1))
    } else if s[j] == '>' {
        Ok((TokenView::EndTag, j + 1))
    } else if s[j] == '\n' {
        Ok((TokenView::NewLine, j + 1))
    } else if s[j] == '\r' && j + 1 < s.len() && s[j + 1] == '\n' {
        Ok((TokenView::NewLine, j + 2))
    } else {
        match literal_at(s, j, 0) {
            Some((a, b, e, q)) => Ok((TokenView::Literal(s.subrange(a, b), q), e)),
            None => Err(j),
        }
    }
}

proof fn lemma_skip_blank_bound(s: Seq<char>, i: int, nl: bool)
    requires
        0 <= i <= s.len(),
    ensures
        i <= skip_blank(s, i, nl) <= s.len(),
    decreases s.len() - i,
{
    if i < s.len() && is_blank(s[i], nl) {
        lemma_skip_blank_bound(s, i + 1, nl);
    }
}

pub fn skip_blanks(s: &[char], i: usize, nl: bool) -> (r: usize)
    requires
        i <= s@.len(),
    ensures
        r == skip_blank(s@, i as int, nl),
        i <= r <= s@.len(),
{
    let mut k = i;
    proof {
        lemma_skip_blank_bound(s@, i as int, nl);
    }
    while k < s.len() && (s[k] == ' ' || s[k] == '\t' || (!nl && (s[k] == '\r' || s[k] == '\n')))
        invariant
            i <= k <= s@.len(),
            skip_blank(s@, k as int, nl) == skip_blank(s@, i as int, nl),
        decreases s@.len() - k,
    {
        k = k + 1;
    }
    k
}

fn skip_trivias(s: &[char], i: usize, nl: bool) -> (r: usize)
    requires
        i <= s@.len(),
    ensures
        r == skip_trivia(s@, i as int, nl),
        i <= r <= s@.len(),
{
    let mut k = i;
    loop
        invariant
            i <= k <= s@.len(),
            skip_trivia(s@, k as int, nl) == skip_trivia(s@, i as int, nl),
        decreases s@.len() - k,
    {
        let j = skip_blanks(s, k, nl);
        if j < s.len() && s[j] == '#' {
            proof {
                lemma_line_end_bound(s@, j + 1);
            }
            let e = find_line_end(s, j + 1);
            let e2 = if e < s.len() {
                e + 1
            } else {
                e
            };
            k = e2;
        } else {
            return j;
        }
    }
}

/// Reads the token after `i`, as `next_token` says. With `nl`, a line break
/// is a token; without it, it is skipped like a space.
pub fn inner_tokenizer(s: &[char], i: usize, nl: bool) -> (r: Result<(Token, usize), usize>)
    requires
        i <= s@.len(),
    ensures
        r matches Ok((t, e)) ==> next_token(s@, i as int, nl) == Ok::<(TokenView, int), int>(
            (t.view(), e as int),
        ) && i <= e <= s@.len() && (!(t is Eof) ==> i < e),
        r matches Err(p) ==> next_token(s@, i as int, nl) == Err::<(TokenView, int), int>(
            p as int,
        ),
{
    let n = s.len();
    let j = skip_trivias(s, i, nl);
    if j >= n {
        Ok((Token::Eof, j))
    } else if s[j] == '<' && j + 1 < n && s[j + 1] == '/' {
        Ok((Token::CloseTag, j + 2))
    } else if s[j] == '<' {
        Ok((Token::OpenTag, j + 1))
    } else if s[j] == '>' {
        Ok((Token::EndTag, j + 1))
    } else if s[j] == '\n' {
        Ok((Token::NewLine, j + 1))
    } else if s[j] == '\r' && j + 1 < n && s[j + 1] == '\n' {
        Ok((Token::NewLine, j + 2))
    } else {
        match scan_literal(s, j, 0) {
            Some((a, b, e, q)) => Ok((Token::Literal { raw: text_of(s, a, b), quote: q }, e)),
            None => Err(j),
        }
    }
}

/// Reads the token after `i`, line breaks skipped.
pub fn tokenizer(s: &[char], i: usize) -> (r: Result<(Token, usize), usize>)
    requires
        i <= s@.len(),
    ensures
        r matches Ok((t, e)) ==> next_token(s@, i as int, false) == Ok::<(TokenView, int), int>(
            (t.view(), e as int),
        ) && i <= e <= s@.len() && (!(t is Eof) ==> i < e),
        r matches Err(p) ==> next_token(s@, i as int, false) == Err::<(TokenView, int), int>(
            p as int,
        ),
{
    inner_tokenizer(s, i, false)
}

} // verus!
