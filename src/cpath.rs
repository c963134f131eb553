//! The path query language: a path such as `//VirtualHost/ServerName` or
//! `http/server[listen=80]`, its lexer, its parser, and the walk of a
//! directive tree that answers it.

use crate::ast::{children_of, dirs_view, lemma_children_view, lemma_dirs_view_push, Directive, DirectiveModel};
use crate::lexer::{literal_at, scan_literal, text_of, unescaped, Literal};
use crate::nginx::lexer::skip_space;
use crate::utils::eq_ignore_case;
use vstd::prelude::*;

verus! {

/// `regex::Regex`, carried opaque inside `Pattern`.
#[verifier::external_type_specification]
#[verifier::external_body]
pub struct ExRegex(regex::Regex);

/// Whether `regex` accepts `pattern`.
pub uninterp spec fn regex_compiles(pattern: Seq<char>) -> bool;

/// Whether the regular expression `pattern` matches somewhere in `text`.
pub uninterp spec fn regex_is_match(pattern: Seq<char>, text: Seq<char>) -> bool;

/// A compiled regular expression together with its source. The fields are
/// private: a `Pattern` is only made by `Pattern::new`, so `re` is always
/// compiled from `source`.
#[derive(Debug)]
pub struct Pattern {
    source: String,
    re: regex::Regex,
}

impl Pattern {
    /// The source of the expression.
    pub closed spec fn view(&self) -> Seq<char> {
        self.source@
    }

    /// Relies on `regex::Regex::new`: it fails exactly on patterns that the
    /// crate refuses, which depends on the pattern alone.
    #[verifier::external_body]
    pub(crate) fn new(source: &str) -> (r: Option<Pattern>)
        ensures
            r is Some <==> regex_compiles(source@),
            r matches Some(p) ==> p@ == source@,
    {
        regex::Regex::new(source).ok().map(|re| Pattern { source: source.to_string(), re })
    }

    /// Relies on `regex::Regex::is_match`: whether the expression, compiled
    /// from `self@` by `Pattern::new`, matches somewhere in `text`.
    #[verifier::external_body]
    pub(crate) fn is_match(&self, text: &str) -> (r: bool)
        ensures
            r == regex_is_match(self@, text@),
    {
        self.re.is_match(text)
    }

    /// The source of the expression.
    pub fn as_str(&self) -> (r: &str)
        ensures
            r@ == self@,
    {
        self.source.as_str()
    }
}

/// A token of the query language.
#[derive(Debug, PartialEq, Eq, Clone)]
pub enum Token {
    Slash,
    DoubleSlash,
    LeftBracket,
    RightBracket,
    Eof,
    Operator(Op),
    Literal(Literal),
}

/// The comparison inside a condition: `=` or `~`.
#[derive(Debug, PartialEq, Eq, Clone, Copy)]
pub enum Op {
    Equal,
    Match,
}

/// What a token is, with a literal's raw text as a sequence.
pub enum TokenView {
    Slash,
    DoubleSlash,
    LeftBracket,
    RightBracket,
    Eof,
    Operator(Op),
    Literal(Seq<char>, u8),
}

impl Token {
    pub open spec fn view(&self) -> TokenView {
        match self {
            Token::Slash => TokenView::Slash,
            Token::DoubleSlash => TokenView::DoubleSlash,
            Token::LeftBracket => TokenView::LeftBracket,
            Token::RightBracket => TokenView::RightBracket,
            Token::Eof => TokenView::Eof,
            Token::Operator(op) => TokenView::Operator(*op),
            Token::Literal(l) => TokenView::Literal(l.raw@, l.quote),
        }
    }
}

/// The token after `i` and where the input goes on after it; `Err` holds
/// where a token could not be read.
pub open spec fn next_token(s: Seq<char>, i: int) -> Result<(TokenView, int), int> {
    let j = skip_space(s, i);
    if j >= s.len() {
        Ok((TokenView::Eof, j))
    } else if s[j] == '/' && j + 1 < s.len() && s[j + 1] == '/' {
        Ok((TokenView::DoubleSlash, j + 2))
    } else if s[j] == '/' {
        Ok((TokenView::Slash, j + 1))
    } else if s[j] == '[' {
        Ok((TokenView::LeftBracket, j + 1))
    } else if s[j] == ']' {
        Ok((TokenView::RightBracket, j + 1))
    } else if s[j] == '=' {
        Ok((TokenView::Operator(Op::Equal), j + 1))
    } else if s[j] == '~' {
        Ok((TokenView::Operator(Op::Match), j + 1))
    } else {
        match literal_at(s, j, 2) {
            Some((a, b, e, q)) => Ok((TokenView::Literal(s.subrange(a, b), q), e)),
            None => Err(j),
        }
    }
}

proof fn lemma_skip_space_bound(s: Seq<char>, i: int)
    requires
        0 <= i <= s.len(),
    ensures
        i <= skip_space(s, i) <= s.len(),
    decreases s.len() - i,
{
    if i < s.len() && crate::nginx::lexer::is_space(s[i]) {
        lemma_skip_space_bound(s, i + 1);
    }
}

/// Reads the token after `i`, as `next_token` says.
pub fn token(s: &[char], i: usize) -> (r: Result<(Token, usize), usize>)
    requires
        i <= s@.len(),
    ensures
        r matches Ok((t, e)) ==> next_token(s@, i as int) == Ok::<(TokenView, int), int>(
            (t.view(), e as int),
        ) && i <= e <= s@.len() && (!(t is Eof) ==> i < e),
        r matches Err(p) ==> next_token(s@, i as int) == Err::<(TokenView, int), int>(p as int),
{
    let n = s.len();
    let mut j = i;
    proof {
        lemma_skip_space_bound(s@, i as int);
    }
    while j < n && (s[j] == ' ' || s[j] == '\t' || s[j] == '\r' || s[j] == '\n')
        invariant
            i <= j <= n == s@.len(),
            skip_space(s@, j as int) == skip_space(s@, i as int),
        decreases n - j,
    {
        j = j + 1;
    }
    if j >= n {
        Ok((Token::Eof, j))
    } else if s[j] == '/' && j + 1 < n && s[j + 1] == '/' {
        Ok((Token::DoubleSlash, j + 2))
    } else if s[j] == '/' {
        Ok((Token::Slash, j + 1))
    } else if s[j] == '[' {
        Ok((Token::LeftBracket, j + 1))
    } else if s[j] == ']' {
        Ok((Token::RightBracket, j + 1))
    } else if s[j] == '=' {
        Ok((Token::Operator(Op::Equal), j + 1))
    } else if s[j] == '~' {
        Ok((Token::Operator(Op::Match), j + 1))
    } else {
        match scan_literal(s, j, 2) {
            Some((a, b, e, q)) => Ok((Token::Literal(Literal { raw: text_of(s, a, b), quote: q }), e)),
            None => Err(j),
        }
    }
}

/// One step of a path: which names it takes, and what else must hold.
#[derive(Debug)]
pub struct Item {
    pub filter: Box<Filter>,
    pub cond: Option<Box<Cond>>,
}

/// Which directive names a step takes.
#[derive(Debug)]
pub enum Filter {
    /// The name, in any ASCII case.
    Eq(String),
    /// Names the expression matches somewhere.
    Re(Pattern),
    /// Every name.
    Any,
    /// Not a step of its own: the rest of the path may start at any depth.
    AnyLevel,
}

impl Filter {
    /// Whether this is the any-depth marker.
    pub fn any_level(&self) -> (r: bool)
        ensures
            r == (self is AnyLevel),
    {
        matches!(self, Filter::AnyLevel)
    }
}

/// What a directive must satisfy besides its step's filter, written in
/// brackets after the step.
#[derive(Debug)]
pub enum Cond {
    /// `[re]`: the directive's own name matches `re`.
    Exists(Pattern),
    /// `[/step]`: an immediate child passes the filter of `step`.
    ChildExists(Item),
    /// `[name=value]`: an immediate child called `name` (any ASCII case) has
    /// `value` as its first argument.
    Equal { name: String, value: String },
    /// `[name~re]`: an immediate child called `name` (any ASCII case) has a
    /// first argument that `re` matches.
    Match { name: String, regex: Pattern },
}

/// A parsed path: its steps in order.
#[derive(Debug)]
pub struct CPathBuf(pub Vec<Item>);

/// Why a path could not be parsed.
#[derive(Debug, Clone, Copy, PartialEq, Eq)]
pub enum CPathError {
    /// The text breaks the syntax at this character offset.
    Syntax(usize),
    /// A pattern is not a regular expression that `regex` accepts.
    BadRegex,
}

pub enum FilterModel {
    Eq(Seq<char>),
    Re(Seq<char>),
    Any,
    AnyLevel,
}

pub struct ItemModel {
    pub filter: FilterModel,
    pub cond: Option<CondModel>,
}

pub enum CondModel {
    Exists(Seq<char>),
    ChildExists(Box<ItemModel>),
    Equal(Seq<char>, Seq<char>),
    Match(Seq<char>, Seq<char>),
}

impl Filter {
    pub open spec fn view(&self) -> FilterModel {
        match self {
            Filter::Eq(n) => FilterModel::Eq(n@),
            Filter::Re(p) => FilterModel::Re(p@),
            Filter::Any => FilterModel::Any,
            Filter::AnyLevel => FilterModel::AnyLevel,
        }
    }
}

impl Item {
    pub open spec fn view(&self) -> ItemModel
        decreases self,
    {
        ItemModel {
            filter: self.filter.view(),
            cond: match self.cond {
                Some(c) => Some(
                    match *c {
                        Cond::Exists(p) => CondModel::Exists(p@),
                        Cond::ChildExists(it) => CondModel::ChildExists(Box::new(it.view())),
                        Cond::Equal { name, value } => CondModel::Equal(name@, value@),
                        Cond::Match { name, regex } => CondModel::Match(name@, regex@),
                    },
                ),
                None => None,
            },
        }
    }
}

pub open spec fn items_view(v: Seq<Item>) -> Seq<ItemModel> {
    Seq::new(v.len(), |i: int| v[i].view())
}

impl CPathBuf {
    pub open spec fn view(&self) -> Seq<ItemModel> {
        items_view(self.0@)
    }
}

/// The step that `//` stands for.
pub open spec fn any_level_item() -> ItemModel {
    ItemModel { filter: FilterModel::AnyLevel, cond: None }
}

/// An operator and a literal's value after `e`, and where they end.
pub open spec fn pair_spec(s: Seq<char>, e: int) -> Option<(Op, Seq<char>, int)> {
    match next_token(s, e) {
        Ok((TokenView::Operator(op), e2)) => match next_token(s, e2) {
            Ok((TokenView::Literal(vr, vq), e3)) => Some((op, unescaped(vr, vq), e3)),
            _ => None,
        },
        _ => None,
    }
}

/// The step at `i`: a literal, as a regular expression over names, and
/// perhaps a condition. `None` when no step starts there.
pub open spec fn item_spec(s: Seq<char>, i: int) -> Result<Option<(ItemModel, int)>, CPathError>
    decreases s.len() - i, 2int,
{
    match next_token(s, i) {
        Ok((TokenView::Literal(raw, q), e)) => if i < e <= s.len() {
            let pat = unescaped(raw, q);
            if !regex_compiles(pat) {
                Err(CPathError::BadRegex)
            } else {
                match cond_spec(s, e) {
                    Err(x) => Err(x),
                    Ok(None) => Ok(Some((ItemModel { filter: FilterModel::Re(pat), cond: None }, e))),
                    Ok(Some((c, f))) => Ok(
                        Some((ItemModel { filter: FilterModel::Re(pat), cond: Some(c) }, f)),
                    ),
                }
            }
        } else {
            Ok(None)
        },
        _ => Ok(None),
    }
}

/// The bracketed condition at `i`; `None` when there is none there.
pub open spec fn cond_spec(s: Seq<char>, i: int) -> Result<Option<(CondModel, int)>, CPathError>
    decreases s.len() - i, 1int,
{
    match next_token(s, i) {
        Ok((TokenView::LeftBracket, e1)) => if i < e1 <= s.len() {
            match cond_body(s, e1) {
                Err(x) => Err(x),
                Ok(None) => Ok(None),
                Ok(Some((c, e2))) => match next_token(s, e2) {
                    Ok((TokenView::RightBracket, e3)) => Ok(Some((c, e3))),
                    _ => Ok(None),
                },
            }
        } else {
            Ok(None)
        },
        _ => Ok(None),
    }
}

/// What stands inside the brackets of a condition, from `i` on.
pub open spec fn cond_body(s: Seq<char>, i: int) -> Result<Option<(CondModel, int)>, CPathError>
    decreases s.len() - i, 0int,
{
    match next_token(s, i) {
        Ok((TokenView::Slash, e)) => if i < e <= s.len() {
            match item_spec(s, e) {
                Err(x) => Err(x),
                Ok(None) => Ok(None),
                Ok(Some((it, f))) => Ok(Some((CondModel::ChildExists(Box::new(it)), f))),
            }
        } else {
            Ok(None)
        },
        Ok((TokenView::Literal(raw, q), e)) => {
            let name = unescaped(raw, q);
            match pair_spec(s, e) {
                Some((Op::Equal, val, e3)) => Ok(Some((CondModel::Equal(name, val), e3))),
                Some((Op::Match, val, e3)) => if regex_compiles(val) {
                    Ok(Some((CondModel::Match(name, val), e3)))
                } else {
                    Err(CPathError::BadRegex)
                },
                None => if regex_compiles(name) {
                    Ok(Some((CondModel::Exists(name), e)))
                } else {
                    Err(CPathError::BadRegex)
                },
            }
        },
        _ => Ok(None),
    }
}

pub open spec fn prepend_item(it: ItemModel, r: Result<Seq<ItemModel>, CPathError>) -> Result<
    Seq<ItemModel>,
    CPathError,
> {
    match r {
        Ok(xs) => Ok(seq![it] + xs),
        Err(x) => Err(x),
    }
}

/// The steps of the path from `i` on. `//` gives an any-depth marker; a `/`
/// that no step follows ends the path.
pub open spec fn path_spec(s: Seq<char>, i: int) -> Result<Seq<ItemModel>, CPathError>
    decreases s.len() - i,
{
    match next_token(s, i) {
        Ok((TokenView::DoubleSlash, e)) => if i < e <= s.len() {
            prepend_item(any_level_item(), path_spec(s, e))
        } else {
            Err(CPathError::Syntax(i as usize))
        },
        Ok((TokenView::Slash, e)) => if i < e <= s.len() {
            match item_spec(s, e) {
                Err(x) => Err(x),
                Ok(None) => Ok(seq![]),
                Ok(Some((it, f))) => if e < f <= s.len() {
                    prepend_item(it, path_spec(s, f))
                } else {
                    Err(CPathError::Syntax(i as usize))
                },
            }
        } else {
            Err(CPathError::Syntax(i as usize))
        },
        Ok((TokenView::Literal(_, _), _)) => match item_spec(s, i) {
            Err(x) => Err(x),
            Ok(None) => Err(CPathError::Syntax(i as usize)),
            Ok(Some((it, f))) => if i < f <= s.len() {
                prepend_item(it, path_spec(s, f))
            } else {
                Err(CPathError::Syntax(i as usize))
            },
        },
        Ok((TokenView::Eof, _)) => Ok(seq![]),
        _ => Err(CPathError::Syntax(i as usize)),
    }
}

fn parse_pair(s: &[char], e: usize) -> (r: Option<(Op, String, usize)>)
    requires
        e <= s@.len(),
    ensures
        r matches Some((op, v, f)) ==> pair_spec(s@, e as int) == Some((op, v@, f as int)) && e < f
            <= s@.len(),
        r is None ==> pair_spec(s@, e as int) is None,
{
    match token(s, e) {
        Ok((Token::Operator(op), e2)) => match token(s, e2) {
            Ok((Token::Literal(l), e3)) => Some((op, l.unescape(), e3)),
            _ => None,
        },
        _ => None,
    }
}

fn parse_item(s: &[char], i: usize) -> (r: Result<Option<(Item, usize)>, CPathError>)
    requires
        i <= s@.len(),
    ensures
        r matches Ok(Some((it, f))) ==> item_spec(s@, i as int) == Ok::<
            Option<(ItemModel, int)>,
            CPathError,
        >(Some((it.view(), f as int))) && i < f <= s@.len(),
        r matches Ok(None) ==> item_spec(s@, i as int) == Ok::<Option<(ItemModel, int)>, CPathError>(
            None,
        ),
        r matches Err(x) ==> item_spec(s@, i as int) == Err::<Option<(ItemModel, int)>, CPathError>(
            x,
        ),
    decreases s@.len() - i, 2int,
{
    match token(s, i) {
        Ok((Token::Literal(l), e)) => {
            let pat = l.unescape();
            match Pattern::new(pat.as_str()) {
                None => Err(CPathError::BadRegex),
                Some(p) => match parse_cond(s, e) {
                    Err(x) => Err(x),
                    Ok(None) => Ok(Some((Item { filter: Box::new(Filter::Re(p)), cond: None }, e))),
                    Ok(Some((c, f))) => Ok(
                        Some((Item { filter: Box::new(Filter::Re(p)), cond: Some(Box::new(c)) }, f)),
                    ),
                },
            }
        },
        _ => Ok(None),
    }
}

pub open spec fn cond_view(c: Cond) -> CondModel {
    match c {
        Cond::Exists(p) => CondModel::Exists(p@),
        Cond::ChildExists(it) => CondModel::ChildExists(Box::new(it.view())),
        Cond::Equal { name, value } => CondModel::Equal(name@, value@),
        Cond::Match { name, regex } => CondModel::Match(name@, regex@),
    }
}

fn parse_cond(s: &[char], i: usize) -> (r: Result<Option<(Cond, usize)>, CPathError>)
    requires
        i <= s@.len(),
    ensures
        r matches Ok(Some((c, f))) ==> cond_spec(s@, i as int) == Ok::<
            Option<(CondModel, int)>,
            CPathError,
        >(Some((cond_view(c), f as int))) && i < f <= s@.len(),
        r matches Ok(None) ==> cond_spec(s@, i as int) == Ok::<Option<(CondModel, int)>, CPathError>(
            None,
        ),
        r matches Err(x) ==> cond_spec(s@, i as int) == Err::<Option<(CondModel, int)>, CPathError>(
            x,
        ),
    decreases s@.len() - i, 1int,
{
    match token(s, i) {
        Ok((Token::LeftBracket, e1)) => match parse_cond_body(s, e1) {
            Err(x) => Err(x),
            Ok(None) => Ok(None),
            Ok(Some((c, e2))) => match token(s, e2) {
                Ok((Token::RightBracket, e3)) => Ok(Some((c, e3))),
                _ => Ok(None),
            },
        },
        _ => Ok(None),
    }
}

fn parse_cond_body(s: &[char], i: usize) -> (r: Result<Option<(Cond, usize)>, CPathError>)
    requires
        i <= s@.len(),
    ensures
        r matches Ok(Some((c, f))) ==> cond_body(s@, i as int) == Ok::<
            Option<(CondModel, int)>,
            CPathError,
        >(Some((cond_view(c), f as int))) && i < f <= s@.len(),
        r matches Ok(None) ==> cond_body(s@, i as int) == Ok::<Option<(CondModel, int)>, CPathError>(
            None,
        ),
        r matches Err(x) ==> cond_body(s@, i as int) == Err::<Option<(CondModel, int)>, CPathError>(
            x,
        ),
    decreases s@.len() - i, 0int,
{
    match token(s, i) {
        Ok((Token::Slash, e)) => match parse_item(s, e) {
            Err(x) => Err(x),
            Ok(None) => Ok(None),
            Ok(Some((it, f))) => Ok(Some((Cond::ChildExists(it), f))),
        },
        Ok((Token::Literal(l), e)) => {
            let name = l.unescape();
            match parse_pair(s, e) {
                Some((Op::Equal, val, e3)) => Ok(Some((Cond::Equal { name, value: val }, e3))),
                Some((Op::Match, val, e3)) => match Pattern::new(val.as_str()) {
                    Some(p) => Ok(Some((Cond::Match { name, regex: p }, e3))),
                    None => Err(CPathError::BadRegex),
                },
                None => match Pattern::new(name.as_str()) {
                    Some(p) => Ok(Some((Cond::Exists(p), e))),
                    None => Err(CPathError::BadRegex),
                },
            }
        },
        _ => Ok(None),
    }
}

pub open spec fn prepend_all(xs: Seq<ItemModel>, r: Result<Seq<ItemModel>, CPathError>) -> Result<
    Seq<ItemModel>,
    CPathError,
> {
    match r {
        Ok(ys) => Ok(xs + ys),
        Err(x) => Err(x),
    }
}

proof fn lemma_prepend_all_push(xs: Seq<ItemModel>, it: ItemModel, r: Result<Seq<ItemModel>, CPathError>)
    ensures
        prepend_all(xs, prepend_item(it, r)) == prepend_all(xs.push(it), r),
{
    if let Ok(ys) = r {
        assert(xs + (seq![it] + ys) =~= xs.push(it) + ys);
    }
}

proof fn lemma_items_view_push(v: Seq<Item>, it: Item)
    ensures
        items_view(v.push(it)) == items_view(v).push(it.view()),
{
    assert(items_view(v.push(it)) =~= items_view(v).push(it.view()));
}

fn parse_cpath(s: &[char]) -> (r: Result<Vec<Item>, CPathError>)
    ensures
        r matches Ok(v) ==> path_spec(s@, 0) == Ok::<Seq<ItemModel>, CPathError>(items_view(v@)),
        r matches Err(x) ==> path_spec(s@, 0) == Err::<Seq<ItemModel>, CPathError>(x),
{
    let mut out: Vec<Item> = Vec::new();
    let mut p: usize = 0;
    assert(prepend_all(items_view(out@), path_spec(s@, 0)) == path_spec(s@, 0)) by {
        if let Ok(xs) = path_spec(s@, 0) {
            assert(items_view(out@) + xs =~= xs);
        }
    }
    loop
        invariant
            p <= s@.len(),
            path_spec(s@, 0) == prepend_all(items_view(out@), path_spec(s@, p as int)),
        decreases s@.len() - p,
    {
        match token(s, p) {
            Ok((Token::DoubleSlash, e)) => {
                let it = Item { filter: Box::new(Filter::AnyLevel), cond: None };
                proof {
                    lemma_prepend_all_push(items_view(out@), it.view(), path_spec(s@, e as int));
                    lemma_items_view_push(out@, it);
                }
                out.push(it);
                p = e;
            },
            Ok((Token::Slash, e)) => match parse_item(s, e) {
                Err(x) => return Err(x),
                Ok(None) => {
                    assert(items_view(out@) + Seq::<ItemModel>::empty() =~= items_view(out@));
                    return Ok(out);
                },
                Ok(Some((it, f))) => {
                    proof {
                        lemma_prepend_all_push(items_view(out@), it.view(), path_spec(s@, f as int));
                        lemma_items_view_push(out@, it);
                    }
                    out.push(it);
                    p = f;
                },
            },
            Ok((Token::Literal(_), _)) => match parse_item(s, p) {
                Err(x) => return Err(x),
                Ok(None) => return Err(CPathError::Syntax(p)),
                Ok(Some((it, f))) => {
                    proof {
                        lemma_prepend_all_push(items_view(out@), it.view(), path_spec(s@, f as int));
                        lemma_items_view_push(out@, it);
                    }
                    out.push(it);
                    p = f;
                },
            },
            Ok((Token::Eof, _)) => {
                assert(items_view(out@) + Seq::<ItemModel>::empty() =~= items_view(out@));
                return Ok(out);
            },
            _ => return Err(CPathError::Syntax(p)),
        }
    }
}

impl CPathBuf {
    /// Parses a path of the query language.
    pub fn parse(path: &str) -> (r: Result<CPathBuf, CPathError>)
        ensures
            r matches Ok(c) ==> path_spec(path@, 0) == Ok::<Seq<ItemModel>, CPathError>(c.view()),
            r matches Err(x) ==> path_spec(path@, 0) == Err::<Seq<ItemModel>, CPathError>(x),
    {
        let s = crate::utils::chars_of(path);
        match parse_cpath(s.as_slice()) {
            Ok(v) => Ok(CPathBuf(v)),
            Err(x) => Err(x),
        }
    }
}

/// The first index at or after `k` whose step is not an any-depth marker,
/// or the length of `path`.
pub open spec fn first_step(path: Seq<ItemModel>, k: int) -> int
    decreases path.len() - k,
{
    if k < 0 || k >= path.len() || !(path[k].filter is AnyLevel) {
        k
    } else {
        first_step(path, k + 1)
    }
}

/// The first real step of `path`, the steps after it, and whether any-depth
/// markers stood before it. `None` when the path has no real step.
pub open spec fn peek(path: Seq<ItemModel>) -> Option<(ItemModel, Seq<ItemModel>, bool)> {
    let k = first_step(path, 0);
    if 0 <= k < path.len() {
        Some((path[k], path.subrange(k + 1, path.len() as int), k > 0))
    } else {
        None
    }
}

/// Whether the name `name` passes the filter `f`.
pub open spec fn filter_ok(name: Seq<char>, f: FilterModel) -> bool {
    match f {
        FilterModel::Eq(n) => eq_ignore_case(name, n),
        FilterModel::Re(p) => regex_is_match(p, name),
        FilterModel::Any => true,
        FilterModel::AnyLevel => false,
    }
}

/// Whether the child `c` is called `n` and has a first argument.
pub open spec fn named_with_arg(c: DirectiveModel, n: Seq<char>) -> bool {
    eq_ignore_case(c.name, n) && c.args.len() > 0
}

/// Whether the `k`-th child of `d` is one that the condition `c` asks for.
pub open spec fn child_hit(d: DirectiveModel, c: CondModel, k: int) -> bool {
    let kid = children_of(d)[k];
    match c {
        CondModel::ChildExists(it) => filter_ok(kid.name, it.filter),
        CondModel::Equal(n, v) => named_with_arg(kid, n) && kid.args[0] == v,
        CondModel::Match(n, p) => named_with_arg(kid, n) && regex_is_match(p, kid.args[0]),
        CondModel::Exists(_) => false,
    }
}

/// Whether the directive `d` satisfies the condition `c`.
pub open spec fn cond_ok(d: DirectiveModel, c: CondModel) -> bool {
    match c {
        CondModel::Exists(p) => regex_is_match(p, d.name),
        _ => exists|k: int| 0 <= k < children_of(d).len() && #[trigger] child_hit(d, c, k),
    }
}

/// Whether the directive `d` is taken by the step `it`.
pub open spec fn item_ok(d: DirectiveModel, it: ItemModel) -> bool {
    filter_ok(d.name, it.filter) && match it.cond {
        None => true,
        Some(c) => cond_ok(d, c),
    }
}

/// What the path selects among `ds`, in tree order: a directive that the
/// first real step takes is selected when no step is left, else the rest of
/// the path is looked up among its children; after any-depth markers the
/// whole path is also looked up among the children of every directive.
pub open spec fn eval(ds: Seq<DirectiveModel>, path: Seq<ItemModel>) -> Seq<DirectiveModel>
    decreases ds,
{
    match peek(path) {
        None => seq![],
        Some((item, rest, any)) => if ds.len() == 0 {
            seq![]
        } else {
            let d = ds[0];
            let here = if item_ok(d, item) {
                if rest.len() == 0 {
                    seq![d]
                } else if d.children is Some {
                    eval(d.children->Some_0, rest)
                } else {
                    seq![]
                }
            } else {
                seq![]
            };
            let deeper = if any && d.children is Some {
                eval(d.children->Some_0, path)
            } else {
                seq![]
            };
            here + deeper + eval(ds.subrange(1, ds.len() as int), path)
        },
    }
}

fn filter_check(name: &str, f: &Filter) -> (r: bool)
    ensures
        r == filter_ok(name@, f.view()),
{
    match f {
        Filter::Eq(n) => {
            let nc = crate::utils::chars_of(n.as_str());
            crate::utils::str_eq_ignore_case(name, nc.as_slice())
        },
        Filter::Re(p) => p.is_match(name),
        Filter::Any => true,
        Filter::AnyLevel => false,
    }
}

fn cond_check<S>(d: &Directive<S>, c: &Cond) -> (r: bool)
    ensures
        r == cond_ok(d.view(), cond_view(*c)),
{
    proof {
        lemma_children_view(*d);
    }
    match c {
        Cond::Exists(p) => p.is_match(d.name.as_str()),
        _ => {
            let kids: &[Directive<S>] = match &d.children {
                Some(v) => v.as_slice(),
                None => &[],
            };
            let ghost kv = children_of(d.view());
            assert(kv =~= dirs_view(kids@));
            let mut k: usize = 0;
            while k < kids.len()
                invariant
                    kv == dirs_view(kids@),
                    kv == children_of(d.view()),
                    k <= kids@.len(),
                    !(cond_view(*c) is Exists),
                    forall|j: int| 0 <= j < k ==> !#[trigger] child_hit(d.view(), cond_view(*c), j),
                decreases kids@.len() - k,
            {
                let kid = &kids[k];
                assert(kv[k as int] == kid.view());
                let hit = match c {
                    Cond::ChildExists(it) => filter_check(kid.name.as_str(), &it.filter),
                    Cond::Equal { name, value } => {
                        let nc = crate::utils::chars_of(name.as_str());
                        crate::utils::str_eq_ignore_case(kid.name.as_str(), nc.as_slice())
                            && kid.args.len() > 0 && kid.args[0] == *value
                    },
                    Cond::Match { name, regex } => {
                        let nc = crate::utils::chars_of(name.as_str());
                        crate::utils::str_eq_ignore_case(kid.name.as_str(), nc.as_slice())
                            && kid.args.len() > 0 && regex.is_match(kid.args[0].as_str())
                    },
                    Cond::Exists(_) => false,
                };
                assert(hit == child_hit(d.view(), cond_view(*c), k as int));
                if hit {
                    return true;
                }
                k = k + 1;
            }
            false
        },
    }
}

fn item_check<S>(d: &Directive<S>, it: &Item) -> (r: bool)
    ensures
        r == item_ok(d.view(), it.view()),
{
    if !filter_check(d.name.as_str(), &it.filter) {
        return false;
    }
    match &it.cond {
        None => true,
        Some(c) => cond_check(d, c),
    }
}

fn first_step_index(path: &[Item]) -> (r: usize)
    ensures
        r as int == first_step(items_view(path@), 0),
        r <= path@.len(),
{
    let ghost pv = items_view(path@);
    let mut k: usize = 0;
    while k < path.len() && path[k].filter.any_level()
        invariant
            pv == items_view(path@),
            k <= path@.len(),
            first_step(pv, k as int) == first_step(pv, 0),
        decreases path@.len() - k,
    {
        k = k + 1;
    }
    k
}

fn inner_cpath_query<S>(dirs: &[Directive<S>], path: &[Item], out: &mut Vec<Directive<S>>)
    ensures
        dirs_view(final(out)@) == dirs_view(old(out)@) + eval(dirs_view(dirs@), items_view(path@)),
    decreases dirs@,
{
    let ghost dv = dirs_view(dirs@);
    let ghost pv = items_view(path@);
    let ghost start = dirs_view(out@);
    let k = first_step_index(path);
    if k >= path.len() {
        assert(eval(dv, pv) =~= Seq::<DirectiveModel>::empty());
        assert(start + Seq::<DirectiveModel>::empty() =~= start);
        return;
    }
    let item = &path[k];
    let rest = vstd::slice::slice_subrange(path, k + 1, path.len());
    assert(items_view(rest@) =~= pv.subrange(k + 1, pv.len() as int));
    let any = k > 0;
    let n = dirs.len();
    let mut j: usize = 0;
    assert(dv.subrange(0, dv.len() as int) =~= dv);
    assert(start + eval(dv, pv) =~= dirs_view(out@) + eval(dv.subrange(0, n as int), pv));
    while j < n
        invariant
            n == dirs@.len(),
            dv == dirs_view(dirs@),
            pv == items_view(path@),
            k < path@.len(),
            peek(pv) == Some((item.view(), items_view(rest@), any)),
            j <= n,
            start + eval(dv, pv) == dirs_view(out@) + eval(dv.subrange(j as int, n as int), pv),
        decreases n - j,
    {
        let d = &dirs[j];
        let ghost tail = dv.subrange(j as int, n as int);
        assert(tail.subrange(1, tail.len() as int) =~= dv.subrange(j + 1, n as int));
        assert(tail[0] == d.view());
        proof {
            lemma_children_view(*d);
        }
        let ghost before = dirs_view(out@);
        if item_check(d, item) {
            if rest.len() == 0 {
                let c = d.duplicate();
                proof {
                    lemma_dirs_view_push(out@, c);
                }
                out.push(c);
            } else if let Some(c) = &d.children {
                proof {
                    assert(decreases_to!(dirs@ => dirs@[j as int]));
                    assert(d.children->Some_0 == *c);
                    assert(decreases_to!(d.children => d.children->Some_0));
                    vstd::std_specs::vec::axiom_vec_decreases_to_view(*c);
                }
                inner_cpath_query(c.as_slice(), rest, out);
            }
        }
        let ghost mid = dirs_view(out@);
        if any {
            if let Some(c) = &d.children {
                proof {
                    assert(decreases_to!(dirs@ => dirs@[j as int]));
                    assert(d.children->Some_0 == *c);
                    assert(decreases_to!(d.children => d.children->Some_0));
                    vstd::std_specs::vec::axiom_vec_decreases_to_view(*c);
                }
                inner_cpath_query(c.as_slice(), path, out);
            }
        }
        proof {
            let here = mid.subrange(before.len() as int, mid.len() as int);
            let deeper = dirs_view(out@).subrange(mid.len() as int, dirs_view(out@).len() as int);
            assert(mid =~= before + here);
            assert(dirs_view(out@) =~= mid + deeper);
            assert(eval(tail, pv) == here + deeper + eval(dv.subrange(j + 1, n as int), pv));
            assert(before + eval(tail, pv) =~= dirs_view(out@) + eval(dv.subrange(j + 1, n as int), pv));
        }
        j = j + 1;
    }
    assert(dv.subrange(n as int, n as int) =~= Seq::<DirectiveModel>::empty());
    assert(dirs_view(out@) + Seq::<DirectiveModel>::empty() =~= dirs_view(out@));
}

impl<S> Directive<S> {
    /// The directives below this one that the path `path` selects, in tree
    /// order, as `eval` says.
    pub fn cpath_query(&self, path: &CPathBuf) -> (r: Vec<Self>)
        ensures
            dirs_view(r@) == eval(children_of(self.view()), path.view()),
    {
        let mut result: Vec<Self> = Vec::new();
        proof {
            lemma_children_view(*self);
        }
        match &self.children {
            Some(c) => inner_cpath_query(c.as_slice(), path.0.as_slice(), &mut result),
            None => {
                let empty: Vec<Directive<S>> = Vec::new();
                assert(dirs_view(empty@) =~= Seq::<DirectiveModel>::empty());
                inner_cpath_query(empty.as_slice(), path.0.as_slice(), &mut result);
            },
        }
        assert(dirs_view(Seq::<Directive<S>>::empty()) + eval(children_of(self.view()), path.view())
            =~= eval(children_of(self.view()), path.view()));
        result
    }
}

impl CPathBuf {
    /// The first real step of the path, the steps after it, and whether
    /// any-depth markers stood before it; `None` when there is no real step.
    pub fn peek(&self) -> (r: Option<(&Item, &[Item], bool)>)
        ensures
            r is None <==> peek(self.view()) is None,
            r matches Some((it, rest, any)) ==> peek(self.view()) == Some(
                (it.view(), items_view(rest@), any),
            ),
    {
        let k = first_step_index(self.0.as_slice());
        if k >= self.0.len() {
            return None;
        }
        let rest = vstd::slice::slice_subrange(self.0.as_slice(), k + 1, self.0.len());
        assert(items_view(rest@) =~= self.view().subrange(k + 1, self.view().len() as int));
        Some((&self.0[k], rest, k > 0))
    }
}

} // verus!
