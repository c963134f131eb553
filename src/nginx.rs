//! Parser for the Nginx syntax: statements ended by `;`, blocks in braces,
//! and comments kept as directives. The body of a directive whose name ends
//! in `_by_lua_block` is Lua: it is skipped, not parsed.

pub mod lexer;

use crate::ast::{
    dirs_view, lemma_dirs_view_push, lemma_views_shapes, lemma_prepend_push, parsed_bytes, prepend, strings_view,
    Directive, DirectiveModel, ParseError,
};
use crate::lexer::{text_of, unescaped, Literal};
use crate::utils::{chars_of, decode_chars};
use self::lexer::{next_token, tokenizer, Token, TokenView};
use luaparse::token::{Symbol, TokenValue};
use std::marker::PhantomData;
use vstd::prelude::*;

verus! {

/// Marks directive trees read from Nginx configuration.
#[derive(Debug, Clone, Copy, Default)]
pub struct Nginx;

/// What luaparse's lexer reports on the text `src`, token by token.
pub uninterp spec fn lua_events(src: Seq<char>) -> Seq<(u8, usize)>;

/// Relies on `luaparse::Lexer`: for each token it reads from `src`, in order,
/// whether it is `{` (1), `}` (2) or another token (0), with the byte offset
/// the lexer stands at after it; then 3 with the offset where it stopped, at
/// the end of input or at a lexing error. The list depends on the text alone.
#[verifier::external_body]
fn lua_token_ends(src: &str) -> (r: Vec<(u8, usize)>)
    ensures
        r@ == lua_events(src@),
{
    let mut lexer = luaparse::Lexer::new(luaparse::InputCursor::new(src));
    let mut out = Vec::new();
    while let Some(Ok(tok)) = lexer.next() {
        let kind = match tok.value {
            TokenValue::Symbol(Symbol::CurlyBracketLeft) => 1u8,
            TokenValue::Symbol(Symbol::CurlyBracketRight) => 2u8,
            _ => 0u8,
        };
        out.push((kind, lexer.cursor().pos().byte));
    }
    out.push((3u8, lexer.cursor().pos().byte));
    out
}

/// The byte offset where the Lua body that `ev` describes ends: after the
/// `}` that brings the brace depth from `depth` down to 0, or else where the
/// lexer stopped.
pub open spec fn lua_stop(ev: Seq<(u8, usize)>, k: int, depth: int) -> int
    decreases ev.len() - k,
{
    if k < 0 || k >= ev.len() {
        if ev.len() == 0 {
            0
        } else {
            ev.last().1 as int
        }
    } else if ev[k].0 == 3 {
        ev[k].1 as int
    } else {
        let d = if ev[k].0 == 1 {
            depth + 1
        } else if ev[k].0 == 2 {
            depth - 1
        } else {
            depth
        };
        if d == 0 {
            ev[k].1 as int
        } else {
            lua_stop(ev, k + 1, d)
        }
    }
}

/// How many bytes UTF-8 takes for `c`.
pub open spec fn utf8_width(c: char) -> int {
    if (c as u32) < 0x80 {
        1
    } else if (c as u32) < 0x800 {
        2
    } else if (c as u32) < 0x10000 {
        3
    } else {
        4
    }
}

/// How many of the characters `cs` start within the first `b` bytes of their
/// UTF-8 encoding.
pub open spec fn char_index(cs: Seq<char>, b: int) -> int
    decreases cs.len(),
{
    if cs.len() == 0 || b <= 0 {
        0
    } else {
        1 + char_index(cs.drop_first(), b - utf8_width(cs[0]))
    }
}

/// Where the input goes on after a Lua body that starts at `k`.
pub open spec fn lua_skip(s: Seq<char>, k: int) -> int {
    let rest = s.subrange(k, s.len() as int);
    k + char_index(rest, lua_stop(lua_events(rest), 0, 1))
}

pub open spec fn lua_suffix() -> Seq<char> {
    seq!['_', 'b', 'y', '_', 'l', 'u', 'a', '_', 'b', 'l', 'o', 'c', 'k']
}

/// `raw` ends with `_by_lua_block`.
pub open spec fn is_lua_block(raw: Seq<char>) -> bool {
    raw.len() >= lua_suffix().len() && raw.subrange(
        raw.len() - lua_suffix().len(),
        raw.len() as int,
    ) == lua_suffix()
}

/// How deep blocks may nest: a block below this many others is refused at
/// the start of its directive.
pub const MAX_DEPTH: usize = 100;

/// `e` lies after `i`, within `s`.
pub open spec fn advances(s: Seq<char>, i: int, e: int) -> bool {
    i < e <= s.len()
}

/// The literals after `i`, each by its logical value, up to the first other
/// token, which is left unread.
pub open spec fn args_spec(s: Seq<char>, i: int) -> Result<(Seq<Seq<char>>, int), int>
    decreases s.len() - i,
{
    match next_token(s, i) {
        Err(p) => Err(p),
        Ok((TokenView::Literal(raw, q), e)) => if advances(s, i, e) {
            match args_spec(s, e) {
                Ok((rest, f)) => Ok((seq![unescaped(raw, q)] + rest, f)),
                Err(p) => Err(p),
            }
        } else {
            Err(i)
        },
        Ok(_) => Ok((seq![], i)),
    }
}

pub open spec fn statement(name: Seq<char>, args: Seq<Seq<char>>, children: Option<Seq<DirectiveModel>>, newline: bool) -> DirectiveModel {
    DirectiveModel { name, args, children, is_comment: false, newline }
}

/// The directives from `i` up to a `}` or the end of input, which is left
/// unread. `before` tells whether the item before was a statement
/// (`Some(true)`) or a comment (`Some(false)`): an item starts a new line when
/// it is not of the kind of the one before, and a block never does.
pub open spec fn block_spec(s: Seq<char>, i: int, before: Option<bool>, depth: nat) -> Result<
    (Seq<DirectiveModel>, int),
    int,
>
    decreases s.len() - i, 1int,
{
    match next_token(s, i) {
        Err(p) => Err(p),
        Ok((TokenView::BlockEnd, _)) => Ok((seq![], i)),
        Ok((TokenView::Eof, _)) => Ok((seq![], i)),
        Ok((TokenView::Comment(c), e)) => if advances(s, i, e) {
            let d = DirectiveModel {
                name: c,
                args: seq![],
                children: None,
                is_comment: true,
                newline: before != Some(false),
            };
            prepend(seq![d], block_spec(s, e, Some(false), depth))
        } else {
            Err(i)
        },
        Ok((TokenView::Literal(raw, q), e)) => if advances(s, i, e) {
            match item_spec(s, i, e, raw, q, before != Some(true), depth) {
                Err(p) => Err(p),
                Ok(None) => Ok((seq![], i)),
                Ok(Some((d, f))) => if advances(s, e, f) {
                    prepend(seq![d], block_spec(s, f, Some(true), depth))
                } else {
                    Err(i)
                },
            }
        } else {
            Err(i)
        },
        Ok(_) => Err(i),
    }
}

/// The rest of the statement or block whose name `raw` was read from `i` up
/// to `e`. `None` when the input ends before its `;`: the item is dropped.
pub open spec fn item_spec(
    s: Seq<char>,
    i: int,
    e: int,
    raw: Seq<char>,
    q: u8,
    nl: bool,
    depth: nat,
) -> Result<
    Option<(DirectiveModel, int)>,
    int,
>
    decreases s.len() - e, 0int,
{
    let name = unescaped(raw, q);
    match args_spec(s, e) {
        Err(p) => Err(p),
        Ok((args, e2)) => match next_token(s, e2) {
            Err(p) => Err(p),
            Ok((TokenView::Semicolon, e3)) => Ok(Some((statement(name, args, None, nl), e3))),
            Ok((TokenView::Eof, _)) => Ok(None),
            Ok((TokenView::BlockStart, e3)) => if is_lua_block(raw) {
                Ok(Some((statement(name, args, None, nl), lua_skip(s, e3))))
            } else if depth >= MAX_DEPTH as nat {
                Err(i)
            } else if advances(s, e, e3) {
                match block_spec(s, e3, None, depth + 1) {
                    Err(p) => Err(p),
                    Ok((children, e4)) => match next_token(s, e4) {
                        Err(p) => Err(p),
                        Ok((TokenView::BlockEnd, e5)) => Ok(
                            Some((statement(name, args, Some(children), false), e5)),
                        ),
                        Ok(_) => Err(i),
                    },
                }
            } else {
                Err(i)
            },
            Ok((_, e3)) => Err(e3),
        },
    }
}

fn lua_stop_at(ev: &Vec<(u8, usize)>) -> (r: usize)
    ensures
        r as int == lua_stop(ev@, 0, 1),
{
    let mut k: usize = 0;
    let mut depth: u128 = 1;
    while k < ev.len()
        invariant
            k <= ev@.len(),
            1 <= depth <= k + 1,
            lua_stop(ev@, k as int, depth as int) == lua_stop(ev@, 0, 1),
        decreases ev@.len() - k,
    {
        let (kind, pos) = ev[k];
        if kind == 3 {
            return pos;
        }
        let d = if kind == 1 {
            depth + 1
        } else if kind == 2 {
            depth - 1
        } else {
            depth
        };
        if d == 0 {
            return pos;
        }
        depth = d;
        k = k + 1;
    }
    if ev.len() == 0 {
        0
    } else {
        ev[ev.len() - 1].1
    }
}

fn width_of(c: char) -> (r: usize)
    ensures
        r as int == utf8_width(c),
{
    let u = c as u32;
    if u < 0x80 {
        1
    } else if u < 0x800 {
        2
    } else if u < 0x10000 {
        3
    } else {
        4
    }
}

proof fn lemma_char_index_bound(cs: Seq<char>, b: int)
    ensures
        0 <= char_index(cs, b) <= cs.len(),
    decreases cs.len(),
{
    if cs.len() > 0 && b > 0 {
        lemma_char_index_bound(cs.drop_first(), b - utf8_width(cs[0]));
    }
}

/// Where the input goes on after a Lua body that starts at `k`, as
/// `lua_skip` says.
fn skip_lua(s: &[char], k: usize) -> (r: usize)
    requires
        k <= s@.len(),
    ensures
        r as int == lua_skip(s@, k as int),
        k <= r <= s@.len(),
{
    let n = s.len();
    let text = text_of(s, k, n);
    let ev = lua_token_ends(text.as_str());
    let stop = lua_stop_at(&ev);
    let ghost rest = s@.subrange(k as int, n as int);
    proof {
        lemma_char_index_bound(rest, stop as int);
        assert(rest.subrange(0, rest.len() as int) =~= rest);
    }
    let mut idx: usize = 0;
    let mut rem: usize = stop;
    while k + idx < n && rem > 0
        invariant
            k <= n == s@.len(),
            rest == s@.subrange(k as int, n as int),
            k + idx <= n,
            char_index(rest, stop as int) == idx + char_index(
                rest.subrange(idx as int, rest.len() as int),
                rem as int,
            ),
        decreases n - k - idx,
    {
        let w = width_of(s[k + idx]);
        let ghost tail = rest.subrange(idx as int, rest.len() as int);
        assert(tail.drop_first() =~= rest.subrange(idx + 1, rest.len() as int));
        assert(tail[0] == s@[k + idx]);
        if w >= rem {
            assert(char_index(tail.drop_first(), rem - w) == 0);
            assert(char_index(rest.subrange(idx + 1, rest.len() as int), 0) == 0);
            rem = 0;
        } else {
            rem = rem - w;
        }
        idx = idx + 1;
    }
    proof {
        let tail = rest.subrange(idx as int, rest.len() as int);
        assert(char_index(tail, rem as int) == 0);
    }
    k + idx
}

/// Reads the literals after `i`, as `args_spec` says.
fn parse_args(s: &[char], i: usize) -> (r: Result<(Vec<String>, usize), usize>)
    requires
        i <= s@.len(),
    ensures
        r matches Ok((v, e)) ==> args_spec(s@, i as int) == Ok::<(Seq<Seq<char>>, int), int>(
            (strings_view(v@), e as int),
        ) && i <= e <= s@.len(),
        r matches Err(p) ==> args_spec(s@, i as int) == Err::<(Seq<Seq<char>>, int), int>(
            p as int,
        ),
    decreases s@.len() - i,
{
    match tokenizer(s, i) {
        Err(p) => Err(p),
        Ok((Token::Literal(l), e)) => {
            let v = l.unescape();
            match parse_args(s, e) {
                Err(p) => Err(p),
                Ok((rest, f)) => {
                    let mut out = vec![v];
                    let ghost tail = rest@;
                    let mut rest = rest;
                    out.append(&mut rest);
                    assert(strings_view(out@) =~= seq![unescaped(l.raw@, l.quote)] + strings_view(
                        tail,
                    ));
                    Ok((out, f))
                },
            }
        },
        Ok((_, _)) => {
            let v: Vec<String> = Vec::new();
            assert(strings_view(v@) =~= Seq::<Seq<char>>::empty());
            Ok((v, i))
        },
    }
}

fn ends_with_lua_block(raw: &str) -> (r: bool)
    ensures
        r == is_lua_block(raw@),
{
    let rc = chars_of(raw);
    let suffix = vec!['_', 'b', 'y', '_', 'l', 'u', 'a', '_', 'b', 'l', 'o', 'c', 'k'];
    assert(suffix@ =~= lua_suffix());
    if rc.len() < suffix.len() {
        return false;
    }
    crate::utils::starts_at(rc.as_slice(), rc.len() - suffix.len(), suffix.as_slice())
}

/// Reads the rest of the item named by `lit`, as `item_spec` says.
fn parse_item(s: &[char], i: usize, e: usize, lit: Literal, nl: bool, depth: usize) -> (r: Result<
    Option<(Directive<Nginx>, usize)>,
    usize,
>)
    requires
        i < e <= s@.len(),
    ensures
        r matches Ok(Some((d, f))) ==> item_spec(s@, i as int, e as int, lit.raw@, lit.quote, nl, depth as nat)
            == Ok::<Option<(DirectiveModel, int)>, int>(Some((d.view(), f as int))) && e < f
            <= s@.len(),
        r matches Ok(None) ==> item_spec(s@, i as int, e as int, lit.raw@, lit.quote, nl, depth as nat) == Ok::<
            Option<(DirectiveModel, int)>,
            int,
        >(None),
        r matches Err(p) ==> item_spec(s@, i as int, e as int, lit.raw@, lit.quote, nl, depth as nat) == Err::<
            Option<(DirectiveModel, int)>,
            int,
        >(p as int),
    decreases s@.len() - e, 0int,
{
    let name = lit.unescape();
    match parse_args(s, e) {
        Err(p) => Err(p),
        Ok((args, e2)) => match tokenizer(s, e2) {
            Err(p) => Err(p),
            Ok((Token::Semicolon, e3)) => {
                let mut d = Directive::new(name, args, None);
                d.newline = nl;
                Ok(Some((d, e3)))
            },
            Ok((Token::Eof, _)) => Ok(None),
            Ok((Token::BlockStart, e3)) => {
                if ends_with_lua_block(lit.raw.as_str()) {
                    let f = skip_lua(s, e3);
                    let mut d = Directive::new(name, args, None);
                    d.newline = nl;
                    Ok(Some((d, f)))
                } else if depth >= MAX_DEPTH {
                    Err(i)
                } else {
                    match parse_block(s, e3, depth + 1) {
                        Err(p) => Err(p),
                        Ok((children, e4)) => match tokenizer(s, e4) {
                            Err(p) => Err(p),
                            Ok((Token::BlockEnd, e5)) => Ok(
                                Some((Directive::new(name, args, Some(children)), e5)),
                            ),
                            Ok((_, _)) => Err(i),
                        },
                    }
                }
            },
            Ok((_, e3)) => Err(e3),
        },
    }
}

/// Reads the directives from `i` on, as `block_spec` says with no item
/// before.
fn parse_block(s: &[char], i: usize, depth: usize) -> (r: Result<(Vec<Directive<Nginx>>, usize), usize>)
    requires
        i <= s@.len(),
    ensures
        crate::ast::same_dirs(r, block_spec(s@, i as int, None, depth as nat)),
        r matches Ok((_, e)) ==> i <= e <= s@.len(),
    decreases s@.len() - i, 1int,
{
    let mut acc: Vec<Directive<Nginx>> = Vec::new();
    let mut p = i;
    let mut before: Option<bool> = None;
    assert(prepend(dirs_view(acc@), block_spec(s@, i as int, None, depth as nat)) == block_spec(s@, i as int, None, depth as nat)) by {
        if let Ok((xs, _)) = block_spec(s@, i as int, None, depth as nat) {
            assert(dirs_view(acc@) + xs =~= xs);
        }
    }
    loop
        invariant
            i <= p <= s@.len(),
            block_spec(s@, i as int, None, depth as nat) == prepend(dirs_view(acc@), block_spec(s@, p as int, before, depth as nat)),
        decreases s@.len() - p,
    {
        match tokenizer(s, p) {
            Err(q) => return Err(q),
            Ok((Token::BlockEnd, _)) => {
                assert(dirs_view(acc@) + Seq::<DirectiveModel>::empty() =~= dirs_view(acc@));
                return Ok((acc, p));
            },
            Ok((Token::Eof, _)) => {
                assert(dirs_view(acc@) + Seq::<DirectiveModel>::empty() =~= dirs_view(acc@));
                return Ok((acc, p));
            },
            Ok((Token::Comment(c), e)) => {
                let nl = !matches!(before, Some(false));
                let d = Directive::<Nginx> {
                    name: c.raw,
                    args: Vec::new(),
                    children: None,
                    is_comment: true,
                    newline: nl,
                    scheme: PhantomData,
                };
                assert(d.view().args =~= Seq::<Seq<char>>::empty());
                proof {
                    lemma_prepend_push(dirs_view(acc@), d.view(), block_spec(s@, e as int, Some(false), depth as nat));
                    lemma_dirs_view_push(acc@, d);
                }
                acc.push(d);
                before = Some(false);
                p = e;
            },
            Ok((Token::Literal(l), e)) => {
                let nl = !matches!(before, Some(true));
                match parse_item(s, p, e, l, nl, depth) {
                    Err(q) => return Err(q),
                    Ok(None) => {
                        assert(dirs_view(acc@) + Seq::<DirectiveModel>::empty() =~= dirs_view(acc@));
                        return Ok((acc, p));
                    },
                    Ok(Some((d, f))) => {
                        proof {
                            lemma_prepend_push(dirs_view(acc@), d.view(), block_spec(s@, f as int, Some(true), depth as nat));
                            lemma_dirs_view_push(acc@, d);
                        }
                        acc.push(d);
                        before = Some(true);
                        p = f;
                    },
                }
            },
            Ok((_, _)) => return Err(p),
        }
    }
}

impl Directive<Nginx> {
    /// Parses Nginx configuration text into its top-level directives, with
    /// comments among them. The text ends at its end or at a stray `}`.
    pub fn parse(input: &[u8]) -> (r: Result<Vec<Directive<Nginx>>, ParseError>)
        ensures
            r matches Ok(v) ==> parsed_bytes(input@, block_spec(vstd::utf8::decode_utf8(input@), 0, None, 0))
                == Ok::<Seq<DirectiveModel>, ParseError>(dirs_view(v@)),
            r matches Err(e) ==> parsed_bytes(input@, block_spec(vstd::utf8::decode_utf8(input@), 0, None, 0))
                == Err::<Seq<DirectiveModel>, ParseError>(e),
    {
        match decode_chars(input) {
            None => Err(ParseError::InvalidUtf8),
            Some(s) => match parse_block(s.as_slice(), 0, 0) {
                Ok((v, _)) => Ok(v),
                Err(p) => Err(ParseError::Syntax(p)),
            },
        }
    }
}

/// Parsing is deterministic: two successful parses of the same bytes give
/// directive sequences that are equal element by element under `==`.
pub proof fn lemma_parse_deterministic(
    input: Seq<u8>,
    a: Vec<Directive<Nginx>>,
    b: Vec<Directive<Nginx>>,
)
    requires
        parsed_bytes(input, block_spec(vstd::utf8::decode_utf8(input), 0, None, 0)) == Ok::<
            Seq<DirectiveModel>,
            ParseError,
        >(dirs_view(a@)),
        parsed_bytes(input, block_spec(vstd::utf8::decode_utf8(input), 0, None, 0)) == Ok::<
            Seq<DirectiveModel>,
            ParseError,
        >(dirs_view(b@)),
    ensures
        a@.len() == b@.len(),
        forall|i: int| 0 <= i < a@.len() ==> (#[trigger] a@[i]).shape() == b@[i].shape(),
{
    lemma_views_shapes(a@, b@);
}

/// A directive gets a body exactly when a `{` follows its arguments and its
/// name does not mark a Lua block: a statement ended by `;` never has one,
/// a block always has one, empty or not.
pub proof fn lemma_statement_has_no_body(
    s: Seq<char>,
    i: int,
    e: int,
    raw: Seq<char>,
    q: u8,
    nl: bool,
    depth: nat,
)
    ensures
        item_spec(s, i, e, raw, q, nl, depth) matches Ok(Some((d, _))) ==> (d.children is Some <==> (
        args_spec(s, e) matches Ok((_, e2)) && next_token(s, e2) matches Ok((TokenView::BlockStart, _))
            && !is_lua_block(raw) && depth < MAX_DEPTH)),
{
}

impl crate::ast::DirectiveTrait for Directive<Nginx> {
    fn parse(input: &[u8]) -> Result<Vec<Self>, ParseError> {
        Directive::<Nginx>::parse(input)
    }
}

} // verus!

