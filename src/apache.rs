//! Parser for the Apache syntax: `<Name args>` ... `</Name>` blocks and
//! statements that end at the end of their line.

pub mod lexer;

use crate::ast::{
    dirs_view, lemma_dirs_view_push, lemma_views_shapes, lemma_prepend_push, parsed_bytes, prepend, same_dirs,
    strings_view, Directive, DirectiveModel, ParseError,
};
use crate::lexer::{text_of, unescaped, value_of};
use crate::utils::{chars_of, decode_chars, eq_ignore_ascii_case, eq_ignore_case};
use self::lexer::{inner_tokenizer, next_token, skip_blank, skip_blanks, tokenizer, Token, TokenView};
use vstd::prelude::*;

verus! {

/// Marks directive trees read from Apache configuration.
#[derive(Debug, Clone, Copy, Default)]
pub struct Apache;

/// `e` lies after `i`, within `s`.
pub open spec fn advances(s: Seq<char>, i: int, e: int) -> bool {
    i < e <= s.len()
}

/// The literals after `i`, each by its logical value, up to the first other
/// token, which is left unread.
pub open spec fn args_spec(s: Seq<char>, i: int, nl: bool) -> Result<(Seq<Seq<char>>, int), int>
    decreases s.len() - i,
{
    match next_token(s, i, nl) {
        Err(p) => Err(p),
        Ok((TokenView::Literal(raw, q), e)) => if advances(s, i, e) {
            match args_spec(s, e, nl) {
                Ok((rest, f)) => Ok((seq![unescaped(raw, q)] + rest, f)),
                Err(p) => Err(p),
            }
        } else {
            Err(i)
        },
        Ok(_) => Ok((seq![], i)),
    }
}

pub open spec fn is_cmp(c: char) -> bool {
    c == '<' || c == '>' || c == '='
}

/// The length of the version comparison that starts at `k` (`=`, `==`, `<`,
/// `<=`, `>`, `>=` or `~`, each possibly after `!`), or 0.
pub open spec fn op_len(s: Seq<char>, k: int) -> int {
    let b = if 0 <= k < s.len() && s[k] == '!' {
        1int
    } else {
        0int
    };
    let m = k + b;
    let core = if 0 <= m && m + 1 < s.len() && is_cmp(s[m]) && s[m + 1] == '=' {
        2int
    } else if 0 <= m < s.len() && (is_cmp(s[m]) || s[m] == '~') {
        1int
    } else {
        0int
    };
    if core == 0 {
        0
    } else {
        b + core
    }
}

/// How deep blocks may nest: a block below this many others is refused at
/// its `<`.
pub const MAX_DEPTH: usize = 100;

pub open spec fn if_version() -> Seq<char> {
    seq!['i', 'f', 'v', 'e', 'r', 's', 'i', 'o', 'n']
}

/// The three tokens that close the block named `name`: `</`, the name in any
/// case, `>`. Gives where the input goes on.
pub open spec fn close_spec(s: Seq<char>, e: int, name: Seq<char>) -> Result<int, int> {
    match next_token(s, e, false) {
        Err(p) => Err(p),
        Ok((a, ea)) => match next_token(s, ea, false) {
            Err(p) => Err(p),
            Ok((b, eb)) => match next_token(s, eb, false) {
                Err(p) => Err(p),
                Ok((c, ec)) => {
                    let t = match b {
                        TokenView::Literal(t, _) => t,
                        _ => Seq::<char>::empty(),
                    };
                    if a is CloseTag && c is EndTag && eq_ignore_case(t, name) {
                        Ok(ec)
                    } else {
                        Err(e)
                    }
                },
            },
        },
    }
}

/// The directives from `i` up to a `</` or the end of input, which is left
/// unread.
pub open spec fn block_spec(s: Seq<char>, i: int, depth: nat) -> Result<(Seq<DirectiveModel>, int), int>
    decreases s.len() - i,
{
    match next_token(s, i, false) {
        Err(p) => Err(p),
        Ok((tok, e)) => match tok {
            TokenView::CloseTag => Ok((seq![], i)),
            TokenView::Eof => Ok((seq![], i)),
            TokenView::NewLine => if advances(s, i, e) {
                block_spec(s, e, depth)
            } else {
                Err(i)
            },
            _ => if advances(s, i, e) {
                match one_spec(s, e, tok, depth) {
                    Err(p) => Err(p),
                    Ok((d, f)) => if advances(s, i, f) {
                        prepend(seq![d], block_spec(s, f, depth))
                    } else {
                        Err(i)
                    },
                }
            } else {
                Err(i)
            },
        },
    }
}

/// The directive that starts with token `tok`, read from `i` on: a block
/// after `<`, a statement after a literal.
pub open spec fn one_spec(s: Seq<char>, i: int, tok: TokenView, depth: nat) -> Result<(DirectiveModel, int), int>
    decreases s.len() - i,
{
    match tok {
        TokenView::OpenTag => if depth >= MAX_DEPTH as nat {
            Err(i)
        } else {
            match next_token(s, i, false) {
                Err(p) => Err(p),
                Ok((TokenView::Literal(name, _), e1)) => if advances(s, i, e1) {
                    let special = eq_ignore_case(name, if_version());
                    let k0 = if special {
                        skip_blank(s, e1, true)
                    } else {
                        e1
                    };
                    let ol = if special {
                        op_len(s, k0)
                    } else {
                        0
                    };
                    let ops = if ol > 0 {
                        seq![s.subrange(k0, k0 + ol)]
                    } else {
                        Seq::<Seq<char>>::empty()
                    };
                    match args_spec(s, k0 + ol, false) {
                        Err(p) => Err(p),
                        Ok((args, e2)) => match next_token(s, e2, false) {
                            Err(p) => Err(p),
                            Ok((TokenView::EndTag, e3)) => if advances(s, i, e3) {
                                match block_spec(s, e3, depth + 1) {
                                    Err(p) => Err(p),
                                    Ok((children, e4)) => match close_spec(s, e4, name) {
                                        Err(p) => Err(p),
                                        Ok(e5) => Ok(
                                            (
                                                DirectiveModel {
                                                    name,
                                                    args: ops + args,
                                                    children: Some(children),
                                                    is_comment: false,
                                                    newline: false,
                                                },
                                                e5,
                                            ),
                                        ),
                                    },
                                }
                            } else {
                                Err(i)
                            },
                            Ok(_) => Err(e2),
                        },
                    }
                } else {
                    Err(i)
                },
                Ok(_) => Err(i),
            }
        },
        TokenView::Literal(raw, _) => match args_spec(s, i, true) {
            Err(p) => Err(p),
            Ok((args, e)) => Ok(
                (
                    DirectiveModel {
                        name: raw,
                        args,
                        children: None,
                        is_comment: false,
                        newline: false,
                    },
                    e,
                ),
            ),
        },
        _ => Err(i),
    }
}

fn op_length(s: &[char], k: usize) -> (r: usize)
    requires
        k <= s@.len(),
    ensures
        r as int == op_len(s@, k as int),
        k + r <= s@.len(),
{
    let n = s.len();
    let b: usize = if k < n && s[k] == '!' {
        1
    } else {
        0
    };
    let m = k + b;
    let core: usize = if m < n && n - m >= 2 && (s[m] == '<' || s[m] == '>' || s[m] == '=') && s[m + 1]
        == '=' {
        2
    } else if m < n && (s[m] == '<' || s[m] == '>' || s[m] == '=' || s[m] == '~') {
        1
    } else {
        0
    };
    if core == 0 {
        0
    } else {
        b + core
    }
}

/// Reads the literals after `i`, as `args_spec` says.
fn parse_args(s: &[char], i: usize, nl: bool) -> (r: Result<(Vec<String>, usize), usize>)
    requires
        i <= s@.len(),
    ensures
        r matches Ok((v, e)) ==> args_spec(s@, i as int, nl) == Ok::<(Seq<Seq<char>>, int), int>(
            (strings_view(v@), e as int),
        ) && i <= e <= s@.len(),
        r matches Err(p) ==> args_spec(s@, i as int, nl) == Err::<(Seq<Seq<char>>, int), int>(
            p as int,
        ),
    decreases s@.len() - i,
{
    match inner_tokenizer(s, i, nl) {
        Err(p) => Err(p),
        Ok((Token::Literal { raw, quote }, e)) => {
            let rc = chars_of(raw.as_str());
            let v = value_of(rc.as_slice(), 0, rc.len(), quote);
            assert(rc@.subrange(0, rc@.len() as int) =~= raw@);
            match parse_args(s, e, nl) {
                Err(p) => Err(p),
                Ok((rest, f)) => {
                    let mut out = vec![v];
                    let ghost tail = rest@;
                    let mut rest = rest;
                    out.append(&mut rest);
                    assert(strings_view(out@) =~= seq![unescaped(raw@, quote)] + strings_view(
                        tail,
                    ));
                    Ok((out, f))
                },
            }
        },
        Ok((_, _)) => {
            let v: Vec<String> = Vec::new();
            assert(strings_view(v@) =~= Seq::<Seq<char>>::empty());
            Ok((v, i))
        },
    }
}

/// Reads the close of the block named `name`, as `close_spec` says.
fn close_tag(s: &[char], e: usize, name: &[char]) -> (r: Result<usize, usize>)
    requires
        e <= s@.len(),
    ensures
        r matches Ok(f) ==> close_spec(s@, e as int, name@) == Ok::<int, int>(f as int) && e <= f
            <= s@.len(),
        r matches Err(p) ==> close_spec(s@, e as int, name@) == Err::<int, int>(p as int),
{
    match tokenizer(s, e) {
        Err(p) => Err(p),
        Ok((a, ea)) => match tokenizer(s, ea) {
            Err(p) => Err(p),
            Ok((b, eb)) => match tokenizer(s, eb) {
                Err(p) => Err(p),
                Ok((c, ec)) => {
                    let same = match &b {
                        Token::Literal { raw, .. } => {
                            let t = chars_of(raw.as_str());
                            eq_ignore_ascii_case(t.as_slice(), name)
                        },
                        _ => {
                            let t: Vec<char> = Vec::new();
                            assert(t@ =~= Seq::<char>::empty());
                            eq_ignore_ascii_case(t.as_slice(), name)
                        },
                    };
                    if matches!(a, Token::CloseTag) && matches!(c, Token::EndTag) && same {
                        Ok(ec)
                    } else {
                        Err(e)
                    }
                },
            },
        },
    }
}

/// Reads the directives from `i` on, as `block_spec` says.
fn parse_block(s: &[char], i: usize, depth: usize) -> (r: Result<(Vec<Directive<Apache>>, usize), usize>)
    requires
        i <= s@.len(),
    ensures
        same_dirs(r, block_spec(s@, i as int, depth as nat)),
        r matches Ok((_, e)) ==> i <= e <= s@.len(),
    decreases s@.len() - i, 1int,
{
    let mut acc: Vec<Directive<Apache>> = Vec::new();
    let mut p = i;
    assert(dirs_view(acc@) + Seq::<DirectiveModel>::empty() =~= Seq::<DirectiveModel>::empty());
    assert(prepend(dirs_view(acc@), block_spec(s@, i as int, depth as nat)) == block_spec(
        s@,
        i as int,
        depth as nat,
    )) by {
        if let Ok((xs, _)) = block_spec(s@, i as int, depth as nat) {
            assert(dirs_view(acc@) + xs =~= xs);
        }
    }
    loop
        invariant
            i <= p <= s@.len(),
            block_spec(s@, i as int, depth as nat) == prepend(
                dirs_view(acc@),
                block_spec(s@, p as int, depth as nat),
            ),
        decreases s@.len() - p,
    {
        match tokenizer(s, p) {
            Err(q) => return Err(q),
            Ok((tok, e)) => match tok {
                Token::CloseTag => {
                    assert(dirs_view(acc@) + Seq::<DirectiveModel>::empty() =~= dirs_view(acc@));
                    return Ok((acc, p));
                },
                Token::Eof => {
                    assert(dirs_view(acc@) + Seq::<DirectiveModel>::empty() =~= dirs_view(acc@));
                    return Ok((acc, p));
                },
                Token::NewLine => {
                    p = e;
                },
                _ => {
                    match parse_one(s, e, tok, depth) {
                        Err(q) => return Err(q),
                        Ok((d, f)) => {
                            proof {
                                lemma_prepend_push(
                                    dirs_view(acc@),
                                    d.view(),
                                    block_spec(s@, f as int, depth as nat),
                                );
                                lemma_dirs_view_push(acc@, d);
                            }
                            acc.push(d);
                            p = f;
                        },
                    }
                },
            },
        }
    }
}

/// Reads the directive that starts with token `tok`, as `one_spec` says.
fn parse_one(s: &[char], i: usize, tok: Token, depth: usize) -> (r: Result<(Directive<Apache>, usize), usize>)
    requires
        i <= s@.len(),
    ensures
        r matches Ok((d, e)) ==> one_spec(s@, i as int, tok.view(), depth as nat) == Ok::<(DirectiveModel, int), int>(
            (d.view(), e as int),
        ) && i <= e <= s@.len(),
        r matches Err(p) ==> one_spec(s@, i as int, tok.view(), depth as nat) == Err::<(DirectiveModel, int), int>(
            p as int,
        ),
    decreases s@.len() - i, 0int,
{
    match tok {
        Token::OpenTag => if depth >= MAX_DEPTH {
            Err(i)
        } else {
            match tokenizer(s, i) {
                Err(p) => Err(p),
                Ok((Token::Literal { raw: name, quote: _ }, e1)) => {
                    let name_chars = chars_of(name.as_str());
                    let iv = vec!['i', 'f', 'v', 'e', 'r', 's', 'i', 'o', 'n'];
                    assert(iv@ =~= if_version());
                    let special = eq_ignore_ascii_case(name_chars.as_slice(), iv.as_slice());
                    let k0 = if special {
                        skip_blanks(s, e1, true)
                    } else {
                        e1
                    };
                    let ol = if special {
                        op_length(s, k0)
                    } else {
                        0
                    };
                    let n = s.len();
                    assert(k0 + ol <= n);
                    let mut all: Vec<String> = Vec::new();
                    if ol > 0 {
                        all.push(text_of(s, k0, k0 + ol));
                    }
                    let ghost ops = strings_view(all@);
                    assert(ops =~= if ol > 0 {
                        seq![s@.subrange(k0 as int, k0 + ol)]
                    } else {
                        Seq::<Seq<char>>::empty()
                    });
                    match parse_args(s, k0 + ol, false) {
                        Err(p) => Err(p),
                        Ok((args, e2)) => match tokenizer(s, e2) {
                            Err(p) => Err(p),
                            Ok((Token::EndTag, e3)) => match parse_block(s, e3, depth + 1) {
                                Err(p) => Err(p),
                                Ok((children, e4)) => match close_tag(s, e4, name_chars.as_slice()) {
                                    Err(p) => Err(p),
                                    Ok(e5) => {
                                        let ghost tail = args@;
                                        let mut args = args;
                                        all.append(&mut args);
                                        assert(strings_view(all@) =~= ops + strings_view(tail));
                                        Ok((Directive::new(name, all, Some(children)), e5))
                                    },
                                },
                            },
                            Ok((_, _)) => Err(e2),
                        },
                    }
                },
                Ok((_, _)) => Err(i),
            }
        },
        Token::Literal { raw, quote: _ } => match parse_args(s, i, true) {
            Err(p) => Err(p),
            Ok((args, e)) => Ok((Directive::new(raw, args, None), e)),
        },
        _ => Err(i),
    }
}

impl Directive<Apache> {
    /// Parses Apache configuration text into its top-level directives. The
    /// text ends at its end or at a stray `</`.
    pub fn parse(input: &[u8]) -> (r: Result<Vec<Directive<Apache>>, ParseError>)
        ensures
            r matches Ok(v) ==> parsed_bytes(input@, block_spec(vstd::utf8::decode_utf8(input@), 0, 0))
                == Ok::<Seq<DirectiveModel>, ParseError>(dirs_view(v@)),
            r matches Err(e) ==> parsed_bytes(input@, block_spec(vstd::utf8::decode_utf8(input@), 0, 0))
                == Err::<Seq<DirectiveModel>, ParseError>(e),
    {
        match decode_chars(input) {
            None => Err(ParseError::InvalidUtf8),
            Some(s) => match parse_block(s.as_slice(), 0, 0) {
                Ok((v, _)) => Ok(v),
                Err(p) => Err(ParseError::Syntax(p)),
            },
        }
    }
}

/// Parsing is deterministic: two successful parses of the same bytes give
/// directive sequences that are equal element by element under `==`.
pub proof fn lemma_parse_deterministic(
    input: Seq<u8>,
    a: Vec<Directive<Apache>>,
    b: Vec<Directive<Apache>>,
)
    requires
        parsed_bytes(input, block_spec(vstd::utf8::decode_utf8(input), 0, 0)) == Ok::<
            Seq<DirectiveModel>,
            ParseError,
        >(dirs_view(a@)),
        parsed_bytes(input, block_spec(vstd::utf8::decode_utf8(input), 0, 0)) == Ok::<
            Seq<DirectiveModel>,
            ParseError,
        >(dirs_view(b@)),
    ensures
        a@.len() == b@.len(),
        forall|i: int| 0 <= i < a@.len() ==> (#[trigger] a@[i]).shape() == b@[i].shape(),
{
    lemma_views_shapes(a@, b@);
}

/// A statement never gets a body, while a block always gets one, empty or
/// not.
pub proof fn lemma_statement_has_no_body(s: Seq<char>, i: int, tok: TokenView, depth: nat)
    ensures
        one_spec(s, i, tok, depth) matches Ok((d, _)) ==> (tok is Literal ==> d.children is None) && (
        tok is OpenTag ==> d.children is Some),
{
}

impl crate::ast::DirectiveTrait for Directive<Apache> {
    fn parse(input: &[u8]) -> Result<Vec<Self>, ParseError> {
        Directive::<Apache>::parse(input)
    }
}

} // verus!


