//! The directive tree shared by both dialects.

use crate::utils::eq_ignore_case;
use std::marker::PhantomData;
use vstd::prelude::*;

verus! {

/// The mathematical value of a directive: what equality and queries look at,
/// plus the two presentation flags.
pub struct DirectiveModel {
    pub name: Seq<char>,
    pub args: Seq<Seq<char>>,
    pub children: Option<Seq<DirectiveModel>>,
    pub is_comment: bool,
    pub newline: bool,
}

/// One parsed configuration entry. `S` marks the dialect it came from.
#[derive(Debug)]
pub struct Directive<S> {
    pub name: String,
    pub args: Vec<String>,
    pub children: Option<Vec<Directive<S>>>,
    pub is_comment: bool,
    pub newline: bool,
    pub scheme: PhantomData<S>,
}

pub open spec fn strings_view(v: Seq<String>) -> Seq<Seq<char>> {
    v.map_values(|a: String| a@)
}

impl<S> Directive<S> {
    pub open spec fn view(&self) -> DirectiveModel
        decreases self,
    {
        DirectiveModel {
            name: self.name@,
            args: strings_view(self.args@),
            children: match self.children {
                Some(c) => Some(
                    Seq::new(
                        c@.len(),
                        |i: int|
                            if 0 <= i < c@.len() {
                                c@[i].view()
                            } else {
                                arbitrary()
                            },
                    ),
                ),
                None => None,
            },
            is_comment: self.is_comment,
            newline: self.newline,
        }
    }
}

/// The models of a sequence of directives.
pub open spec fn dirs_view<S>(v: Seq<Directive<S>>) -> Seq<DirectiveModel> {
    Seq::new(v.len(), |i: int| v[i].view())
}

pub proof fn lemma_dirs_view_push<S>(v: Seq<Directive<S>>, d: Directive<S>)
    ensures
        dirs_view(v.push(d)) == dirs_view(v).push(d.view()),
{
    assert(dirs_view(v.push(d)) =~= dirs_view(v).push(d.view()));
}

impl<S> Directive<S> {
    /// A directive that is not a comment and starts no new line.
    pub fn new(name: String, args: Vec<String>, children: Option<Vec<Directive<S>>>) -> (r: Self)
        ensures
            r.children == children,
            r.view() == (DirectiveModel {
                name: name@,
                args: strings_view(args@),
                children: match children {
                    Some(c) => Some(dirs_view(c@)),
                    None => None,
                },
                is_comment: false,
                newline: false,
            }),
    {
        let r = Directive { name, args, children, is_comment: false, newline: false, scheme: PhantomData };
        assert(r.view().children == match r.children {
            Some(c) => Some(dirs_view(c@)),
            None => None::<Seq<DirectiveModel>>,
        }) by {
            if r.children is Some {
                assert(r.view().children->Some_0 =~= dirs_view(r.children->Some_0@));
            }
        }
        r
    }
}

/// Why a configuration text could not be parsed.
#[derive(Debug, Clone, Copy, PartialEq, Eq)]
pub enum ParseError {
    /// The bytes are not UTF-8.
    InvalidUtf8,
    /// The text breaks the syntax at this character offset.
    Syntax(usize),
}

/// `r` is the exec form of the parse outcome `m`.
pub open spec fn same_dirs<S>(
    r: Result<(Vec<Directive<S>>, usize), usize>,
    m: Result<(Seq<DirectiveModel>, int), int>,
) -> bool {
    match r {
        Ok((v, e)) => m == Ok::<(Seq<DirectiveModel>, int), int>((dirs_view(v@), e as int)),
        Err(p) => m == Err::<(Seq<DirectiveModel>, int), int>(p as int),
    }
}

/// `ds` in front of what `r` parsed.
pub open spec fn prepend(ds: Seq<DirectiveModel>, r: Result<(Seq<DirectiveModel>, int), int>) -> Result<
    (Seq<DirectiveModel>, int),
    int,
> {
    match r {
        Ok((xs, e)) => Ok((ds + xs, e)),
        Err(p) => Err(p),
    }
}

pub proof fn lemma_prepend_push(ds: Seq<DirectiveModel>, d: DirectiveModel, r: Result<(Seq<DirectiveModel>, int), int>)
    ensures
        prepend(ds, prepend(seq![d], r)) == prepend(ds.push(d), r),
{
    if let Ok((xs, e)) = r {
        assert(ds + (seq![d] + xs) =~= ds.push(d) + xs);
    }
}

/// What parsing the bytes `input` gives, when the text they encode parses to
/// `m`: the directives, or the error.
pub open spec fn parsed_bytes(input: Seq<u8>, m: Result<(Seq<DirectiveModel>, int), int>) -> Result<
    Seq<DirectiveModel>,
    ParseError,
> {
    if !vstd::utf8::valid_utf8(input) {
        Err(ParseError::InvalidUtf8)
    } else {
        match m {
            Ok((ds, _)) => Ok(ds),
            Err(p) => Err(ParseError::Syntax(p as usize)),
        }
    }
}

/// What equality of directives looks at: the name, the arguments and the
/// children, not the two presentation flags.
pub struct Tree {
    pub name: Seq<char>,
    pub args: Seq<Seq<char>>,
    pub children: Option<Seq<Tree>>,
}

impl<S> Directive<S> {
    pub open spec fn shape(&self) -> Tree
        decreases self,
    {
        Tree {
            name: self.name@,
            args: strings_view(self.args@),
            children: match self.children {
                Some(c) => Some(
                    Seq::new(
                        c@.len(),
                        |i: int|
                            if 0 <= i < c@.len() {
                                c@[i].shape()
                            } else {
                                arbitrary()
                            },
                    ),
                ),
                None => None,
            },
        }
    }
}

/// The shapes of a sequence of directives.
pub open spec fn shapes<S>(v: Seq<Directive<S>>) -> Seq<Tree> {
    Seq::new(v.len(), |i: int| v[i].shape())
}

fn same_strings(a: &Vec<String>, b: &Vec<String>) -> (r: bool)
    ensures
        r == (strings_view(a@) == strings_view(b@)),
{
    if a.len() != b.len() {
        assert(strings_view(a@).len() != strings_view(b@).len());
        return false;
    }
    let mut k: usize = 0;
    while k < a.len()
        invariant
            a@.len() == b@.len(),
            k <= a@.len(),
            forall|j: int| 0 <= j < k ==> a@[j]@ == b@[j]@,
        decreases a@.len() - k,
    {
        if a[k] != b[k] {
            assert(strings_view(a@)[k as int] != strings_view(b@)[k as int]);
            return false;
        }
        k = k + 1;
    }
    assert(strings_view(a@) =~= strings_view(b@));
    true
}

fn same_shape<S>(a: &Directive<S>, b: &Directive<S>) -> (r: bool)
    ensures
        r == (a.shape() == b.shape()),
    decreases a,
{
    if a.name != b.name {
        return false;
    }
    if !same_strings(&a.args, &b.args) {
        return false;
    }
    match (&a.children, &b.children) {
        (None, None) => true,
        (Some(x), Some(y)) => {
            if x.len() != y.len() {
                assert(a.shape().children->Some_0.len() != b.shape().children->Some_0.len());
                return false;
            }
            let mut k: usize = 0;
            while k < x.len()
                invariant
                    x@.len() == y@.len(),
                    k <= x@.len(),
                    a.children == Some(*x),
                    b.children == Some(*y),
                    forall|j: int| 0 <= j < k ==> x@[j].shape() == y@[j].shape(),
                decreases x@.len() - k,
            {
                assert(decreases_to!(a => x@[k as int]));
                if !same_shape(&x[k], &y[k]) {
                    assert(a.shape().children->Some_0[k as int] != b.shape().children->Some_0[k as int]);
                    return false;
                }
                k = k + 1;
            }
            assert(a.shape().children->Some_0 =~= b.shape().children->Some_0);
            true
        },
        _ => false,
    }
}

impl<S> PartialEq for Directive<S> {
    fn eq(&self, other: &Self) -> (r: bool) {
        same_shape(self, other)
    }
}

impl<S> vstd::std_specs::cmp::PartialEqSpecImpl for Directive<S> {
    open spec fn obeys_eq_spec() -> bool {
        true
    }

    open spec fn eq_spec(&self, other: &Self) -> bool {
        self.shape() == other.shape()
    }
}

impl<S> Eq for Directive<S> {}

pub proof fn lemma_children_view<S>(d: Directive<S>)
    ensures
        d.children matches Some(c) ==> d.view().children == Some(dirs_view(c@)),
        d.children is None ==> d.view().children is None,
{
    if let Some(c) = d.children {
        assert(d.view().children->Some_0 =~= dirs_view(c@));
    }
}

pub(crate) fn copy_strings(a: &Vec<String>) -> (r: Vec<String>)
    ensures
        strings_view(r@) == strings_view(a@),
{
    let mut v: Vec<String> = Vec::new();
    let mut k: usize = 0;
    while k < a.len()
        invariant
            k <= a@.len(),
            v@.len() == k,
            forall|j: int| 0 <= j < k ==> v@[j]@ == a@[j]@,
        decreases a@.len() - k,
    {
        v.push(a[k].clone());
        k = k + 1;
    }
    assert(strings_view(v@) =~= strings_view(a@));
    v
}

fn copy_dir<S>(d: &Directive<S>) -> (r: Directive<S>)
    ensures
        r.view() == d.view(),
    decreases d,
{
    let children = match &d.children {
        None => None,
        Some(x) => {
            let mut v: Vec<Directive<S>> = Vec::new();
            let mut k: usize = 0;
            while k < x.len()
                invariant
                    d.children == Some(*x),
                    k <= x@.len(),
                    v@.len() == k,
                    forall|j: int| 0 <= j < k ==> v@[j].view() == x@[j].view(),
                decreases x@.len() - k,
            {
                proof {
                    vstd::std_specs::vec::axiom_vec_index_decreases(*x, k as int);
                    assert(decreases_to!(*d => d.children));
                    assert(d.children->Some_0 == *x);
                    assert(decreases_to!(d.children => d.children->Some_0));
                    assert(decreases_to!(*x => x[k as int]));
                }
                assert(decreases_to!(d => x@[k as int]));
                let c = copy_dir(&x[k]);
                v.push(c);
                k = k + 1;
            }
            assert(dirs_view(v@) =~= dirs_view(x@));
            Some(v)
        },
    };
    let r = Directive {
        name: d.name.clone(),
        args: copy_strings(&d.args),
        children,
        is_comment: d.is_comment,
        newline: d.newline,
        scheme: PhantomData,
    };
    proof {
        lemma_children_view(r);
        lemma_children_view(*d);
    }
    r
}

impl<S> Directive<S> {
    /// A deep copy of the directive.
    pub fn duplicate(&self) -> (r: Self)
        ensures
            r.view() == self.view(),
    {
        copy_dir(self)
    }
}

/// Where the first `/` at or after `k` stands in `p`, or its length.
pub open spec fn slash_at(p: Seq<char>, k: int) -> int
    decreases p.len() - k,
{
    if k < 0 || k >= p.len() || p[k] == '/' {
        k
    } else {
        slash_at(p, k + 1)
    }
}

proof fn lemma_slash_at_bound(p: Seq<char>, k: int)
    requires
        0 <= k <= p.len(),
    ensures
        k <= slash_at(p, k) <= p.len(),
        slash_at(p, k) < p.len() ==> p[slash_at(p, k)] == '/',
        forall|j: int| k <= j < slash_at(p, k) ==> p[j] != '/',
    decreases p.len() - k,
{
    if k < p.len() && p[k] != '/' {
        lemma_slash_at_bound(p, k + 1);
    }
}

/// The children of a directive, none when it has no body.
pub open spec fn children_of(d: DirectiveModel) -> Seq<DirectiveModel> {
    match d.children {
        Some(c) => c,
        None => seq![],
    }
}

/// What a name path selects among `ds`: the part of `path` before its first
/// `/` names, in any ASCII case, the directives of this level; the part after
/// it is looked up among their children. In tree order.
pub open spec fn query_spec(ds: Seq<DirectiveModel>, path: Seq<char>) -> Seq<DirectiveModel>
    decreases path.len(), ds.len(),
{
    if ds.len() == 0 {
        seq![]
    } else {
        let k = slash_at(path, 0);
        let d = ds[0];
        let here = if 0 <= k <= path.len() && eq_ignore_case(d.name, path.subrange(0, k)) {
            if 0 <= k < path.len() {
                query_spec(children_of(d), path.subrange(k + 1, path.len() as int))
            } else {
                seq![d]
            }
        } else {
            seq![]
        };
        here + query_spec(ds.subrange(1, ds.len() as int), path)
    }
}

fn inner_query<S>(dirs: &[Directive<S>], path: &[char], out: &mut Vec<Directive<S>>)
    ensures
        dirs_view(final(out)@) == dirs_view(old(out)@) + query_spec(dirs_view(dirs@), path@),
    decreases path@.len(),
{
    let n = path.len();
    let mut k: usize = 0;
    proof {
        lemma_slash_at_bound(path@, 0);
    }
    while k < n && path[k] != '/'
        invariant
            n == path@.len(),
            k <= n,
            slash_at(path@, k as int) == slash_at(path@, 0),
        decreases n - k,
    {
        k = k + 1;
    }
    let item = vstd::slice::slice_subrange(path, 0, k);
    let ghost dv = dirs_view(dirs@);
    let ghost start = dirs_view(out@);
    let mut j: usize = 0;
    assert(dv.subrange(0, dv.len() as int) =~= dv);
    assert(start + Seq::<DirectiveModel>::empty() =~= start);
    while j < dirs.len()
        invariant
            n == path@.len(),
            k == slash_at(path@, 0),
            k <= n,
            item@ == path@.subrange(0, k as int),
            dv == dirs_view(dirs@),
            j <= dirs@.len(),
            start + query_spec(dv, path@) == dirs_view(out@) + query_spec(
                dv.subrange(j as int, dv.len() as int),
                path@,
            ),
        decreases dirs@.len() - j,
    {
        let d = &dirs[j];
        let ghost tail = dv.subrange(j as int, dv.len() as int);
        assert(tail.subrange(1, tail.len() as int) =~= dv.subrange(j + 1, dv.len() as int));
        assert(tail[0] == d.view());
        let ghost before = dirs_view(out@);
        let name = crate::utils::chars_of(d.name.as_str());
        if crate::utils::eq_ignore_ascii_case(name.as_slice(), item) {
            if k < n {
                let rest = vstd::slice::slice_subrange(path, k + 1, n);
                proof {
                    lemma_children_view(*d);
                }
                match &d.children {
                    Some(c) => inner_query(c.as_slice(), rest, out),
                    None => {
                        let empty: Vec<Directive<S>> = Vec::new();
                        assert(dirs_view(empty@) =~= Seq::<DirectiveModel>::empty());
                        inner_query(empty.as_slice(), rest, out);
                    },
                }
            } else {
                let c = d.duplicate();
                proof {
                    lemma_dirs_view_push(out@, c);
                }
                out.push(c);
            }
        }
        proof {
            let here = dirs_view(out@).subrange(before.len() as int, dirs_view(out@).len() as int);
            assert(dirs_view(out@) =~= before + here);
        }
        j = j + 1;
    }
    assert(dv.subrange(j as int, dv.len() as int) =~= Seq::<DirectiveModel>::empty());
    assert(dirs_view(out@) + Seq::<DirectiveModel>::empty() =~= dirs_view(out@));
}

impl<S> Directive<S> {
    /// The directives that the name path `path` selects below this one: its
    /// segments, split at `/`, match names in any ASCII case, level by level.
    pub fn query(&self, path: &str) -> (r: Vec<Self>)
        ensures
            dirs_view(r@) == query_spec(children_of(self.view()), path@),
    {
        let mut result: Vec<Self> = Vec::new();
        let p = crate::utils::chars_of(path);
        proof {
            lemma_children_view(*self);
        }
        match &self.children {
            Some(c) => inner_query(c.as_slice(), p.as_slice(), &mut result),
            None => {
                let empty: Vec<Directive<S>> = Vec::new();
                assert(dirs_view(empty@) =~= Seq::<DirectiveModel>::empty());
                inner_query(empty.as_slice(), p.as_slice(), &mut result);
            },
        }
        assert(dirs_view(Seq::<Directive<S>>::empty()) + query_spec(children_of(self.view()), path@)
            =~= query_spec(children_of(self.view()), path@));
        result
    }
}

/// A parsed configuration file: where it was read from, and a root directive
/// whose children are the top-level directives.
#[derive(Debug)]
pub struct Config<S> {
    pub path: String,
    pub root: Directive<S>,
}

impl<S> Config<S> {
    /// A configuration read from `path` whose top-level directives are `dirs`.
    pub fn new(path: String, dirs: Vec<Directive<S>>) -> (r: Self)
        ensures
            r.path@ == path@,
            r.root.children == Some(dirs),
            r.root.view().children == Some(dirs_view(dirs@)),
    {
        let root = Directive::new(String::new(), Vec::new(), Some(dirs));
        Config { path, root }
    }

    /// The top-level directives.
    pub fn root_directives(&self) -> (r: &[Directive<S>])
        requires
            self.root.children is Some,
        ensures
            r@ == self.root.children->Some_0@,
    {
        match &self.root.children {
            Some(c) => c.as_slice(),
            None => {
                assert(false);
                &[]
            },
        }
    }
}

/// Directives with equal models have equal shapes.
pub proof fn lemma_view_shape<S>(a: Directive<S>, b: Directive<S>)
    requires
        a.view() == b.view(),
    ensures
        a.shape() == b.shape(),
    decreases a,
{
    lemma_children_view(a);
    lemma_children_view(b);
    if let (Some(x), Some(y)) = (a.children, b.children) {
        assert(dirs_view(x@) == dirs_view(y@));
        assert forall|i: int| 0 <= i < x@.len() implies x@[i].shape() == y@[i].shape() by {
            assert(dirs_view(x@)[i] == dirs_view(y@)[i]);
            assert(decreases_to!(a => a.children));
            assert(decreases_to!(a.children => a.children->Some_0));
            vstd::std_specs::vec::axiom_vec_index_decreases(x, i);
            lemma_view_shape(x@[i], y@[i]);
        }
        assert(a.shape().children->Some_0 =~= b.shape().children->Some_0);
    }
}

/// Sequences of directives with equal models are equal, element by element,
/// under the directives' `==`.
pub proof fn lemma_views_shapes<S>(a: Seq<Directive<S>>, b: Seq<Directive<S>>)
    requires
        dirs_view(a) == dirs_view(b),
    ensures
        a.len() == b.len(),
        forall|i: int| 0 <= i < a.len() ==> (#[trigger] a[i]).shape() == b[i].shape(),
{
    assert(dirs_view(a).len() == a.len());
    assert(dirs_view(b).len() == b.len());
    assert forall|i: int| 0 <= i < a.len() implies (#[trigger] a[i]).shape() == b[i].shape() by {
        assert(dirs_view(a)[i] == a[i].view());
        assert(dirs_view(b)[i] == b[i].view());
        lemma_view_shape(a[i], b[i]);
    }
}

/// A directive type that configuration text can be parsed into.
pub trait DirectiveTrait: Sized {
    /// Parses configuration text into its top-level directives.
    fn parse(input: &[u8]) -> Result<Vec<Self>, ParseError>;
}

} // verus!
