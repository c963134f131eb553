//! Resolution of inclusion directives, one at a time: find the first
//! inclusion directive of a tree, then put the directives of the files it
//! names in its place. Reading and globbing the files is left to the caller,
//! which repeats the two steps until no inclusion directive is left.

use crate::apache::Apache;
use crate::ast::{
    copy_strings, children_of, dirs_view, lemma_children_view, strings_view, Config, Directive,
    DirectiveModel,
};
use crate::nginx::Nginx;
use crate::utils::{chars_of, eq_ignore_ascii_case, eq_ignore_case};
use vstd::prelude::*;

verus! {

pub open spec fn include_word() -> Seq<char> {
    seq!['i', 'n', 'c', 'l', 'u', 'd', 'e']
}

pub open spec fn include_optional_word() -> Seq<char> {
    seq!['i', 'n', 'c', 'l', 'u', 'd', 'e', 'o', 'p', 't', 'i', 'o', 'n', 'a', 'l']
}

/// `name` names an inclusion: `include_word` in any ASCII case, and, where
/// the dialect has it (`optional_kw`), `include_optional_word` in any case.
pub open spec fn is_include(name: Seq<char>, optional_kw: bool) -> bool {
    eq_ignore_case(name, include_word()) || (optional_kw && eq_ignore_case(
        name,
        include_optional_word(),
    ))
}

/// The first inclusion directive of `ds`, in document order: a directive comes
/// before its children, which come before its next sibling.
pub open spec fn first_include(ds: Seq<DirectiveModel>, optional_kw: bool) -> Option<DirectiveModel>
    decreases ds,
{
    if ds.len() == 0 {
        None
    } else {
        let d = ds[0];
        if is_include(d.name, optional_kw) {
            Some(d)
        } else {
            let inner = match d.children {
                Some(c) => first_include(c, optional_kw),
                None => None,
            };
            match inner {
                Some(x) => Some(x),
                None => first_include(ds.subrange(1, ds.len() as int), optional_kw),
            }
        }
    }
}

/// `ds` with its first inclusion directive replaced by `repl`.
pub open spec fn spliced(ds: Seq<DirectiveModel>, repl: Seq<DirectiveModel>, optional_kw: bool) -> Seq<
    DirectiveModel,
>
    decreases ds,
{
    if ds.len() == 0 {
        ds
    } else {
        let d = ds[0];
        let tail = ds.subrange(1, ds.len() as int);
        if is_include(d.name, optional_kw) {
            repl + tail
        } else if d.children is Some && first_include(d.children->Some_0, optional_kw) is Some {
            seq![
                DirectiveModel {
                    children: Some(spliced(d.children->Some_0, repl, optional_kw)),
                    ..d
                },
            ] + tail
        } else {
            seq![d] + spliced(tail, repl, optional_kw)
        }
    }
}

/// What an inclusion directive asks for: its first argument, if it has one,
/// and whether a missing file is to be skipped.
#[derive(Debug, Clone, PartialEq, Eq)]
pub struct IncludeRequest {
    pub pattern: Option<String>,
    pub optional: bool,
}

/// The request that the inclusion directive `d` makes.
pub open spec fn request_of(d: DirectiveModel, optional_kw: bool) -> (Option<Seq<char>>, bool) {
    (
        if d.args.len() > 0 {
            Some(d.args[0])
        } else {
            None
        },
        optional_kw && eq_ignore_case(d.name, include_optional_word()),
    )
}

fn include_kind(name: &str, optional_kw: bool) -> (r: (bool, bool))
    ensures
        r.0 == is_include(name@, optional_kw),
        r.1 == (optional_kw && eq_ignore_case(name@, include_optional_word())),
{
    let n = chars_of(name);
    let w = vec!['i', 'n', 'c', 'l', 'u', 'd', 'e'];
    let o = vec!['i', 'n', 'c', 'l', 'u', 'd', 'e', 'o', 'p', 't', 'i', 'o', 'n', 'a', 'l'];
    assert(w@ =~= include_word());
    assert(o@ =~= include_optional_word());
    let plain = eq_ignore_ascii_case(n.as_slice(), w.as_slice());
    let opt = optional_kw && eq_ignore_ascii_case(n.as_slice(), o.as_slice());
    (plain || opt, opt)
}

fn find_include<S>(ds: &[Directive<S>], optional_kw: bool) -> (r: Option<IncludeRequest>)
    ensures
        r is Some <==> first_include(dirs_view(ds@), optional_kw) is Some,
        r matches Some(q) ==> request_of(first_include(dirs_view(ds@), optional_kw)->Some_0, optional_kw)
            == (match q.pattern {
                Some(p) => Some(p@),
                None => None::<Seq<char>>,
            }, q.optional),
    decreases ds@,
{
    let ghost dv = dirs_view(ds@);
    let mut k: usize = 0;
    assert(dv.subrange(0, dv.len() as int) =~= dv);
    while k < ds.len()
        invariant
            dv == dirs_view(ds@),
            k <= ds@.len(),
            first_include(dv, optional_kw) == first_include(
                dv.subrange(k as int, dv.len() as int),
                optional_kw,
            ),
        decreases ds@.len() - k,
    {
        let d = &ds[k];
        let ghost tail = dv.subrange(k as int, dv.len() as int);
        assert(tail.subrange(1, tail.len() as int) =~= dv.subrange(k + 1, dv.len() as int));
        assert(tail[0] == d.view());
        let (inc, opt) = include_kind(d.name.as_str(), optional_kw);
        if inc {
            let pattern = if d.args.len() > 0 {
                Some(d.args[0].clone())
            } else {
                None
            };
            assert(d.view().args == strings_view(d.args@));
            return Some(IncludeRequest { pattern, optional: opt });
        }
        proof {
            lemma_children_view(*d);
        }
        if let Some(c) = &d.children {
            proof {
                assert(decreases_to!(ds@ => ds@[k as int]));
                assert(d.children->Some_0 == *c);
                assert(decreases_to!(d.children => d.children->Some_0));
                vstd::std_specs::vec::axiom_vec_decreases_to_view(*c);
            }
            let found = find_include(c.as_slice(), optional_kw);
            if found.is_some() {
                return found;
            }
        }
        k = k + 1;
    }
    assert(dv.subrange(k as int, dv.len() as int).len() == 0);
    None
}

fn copy_all<S>(src: &[Directive<S>], out: &mut Vec<Directive<S>>)
    ensures
        dirs_view(final(out)@) == dirs_view(old(out)@) + dirs_view(src@),
{
    let ghost start = dirs_view(out@);
    let mut k: usize = 0;
    while k < src.len()
        invariant
            k <= src@.len(),
            dirs_view(out@) == start + dirs_view(src@.subrange(0, k as int)),
        decreases src@.len() - k,
    {
        let d = src[k].duplicate();
        proof {
            crate::ast::lemma_dirs_view_push(out@, d);
        }
        out.push(d);
        k = k + 1;
        assert(dirs_view(src@.subrange(0, k as int)) =~= dirs_view(src@.subrange(0, k - 1)).push(
            src@[k - 1].view(),
        ));
        assert(dirs_view(out@) =~= start + dirs_view(src@.subrange(0, k as int)));
    }
    assert(src@.subrange(0, k as int) =~= src@);
}

fn splice_dirs<S>(ds: &[Directive<S>], repl: &[Directive<S>], optional_kw: bool) -> (r: Vec<
    Directive<S>,
>)
    ensures
        dirs_view(r@) == spliced(dirs_view(ds@), dirs_view(repl@), optional_kw),
    decreases ds@,
{
    let ghost dv = dirs_view(ds@);
    let ghost rv = dirs_view(repl@);
    let n = ds.len();
    let mut out: Vec<Directive<S>> = Vec::new();
    let mut k: usize = 0;
    assert(dv.subrange(0, dv.len() as int) =~= dv);
    assert(dirs_view(out@) + spliced(dv, rv, optional_kw) =~= spliced(dv, rv, optional_kw));
    while k < n
        invariant
            n == ds@.len(),
            dv == dirs_view(ds@),
            rv == dirs_view(repl@),
            k <= n,
            spliced(dv, rv, optional_kw) == dirs_view(out@) + spliced(
                dv.subrange(k as int, n as int),
                rv,
                optional_kw,
            ),
        decreases n - k,
    {
        let d = &ds[k];
        let ghost tail = dv.subrange(k as int, n as int);
        assert(tail.subrange(1, tail.len() as int) =~= dv.subrange(k + 1, n as int));
        assert(tail[0] == d.view());
        let rest = vstd::slice::slice_subrange(ds, k + 1, n);
        assert(dirs_view(rest@) =~= dv.subrange(k + 1, n as int));
        let (inc, _) = include_kind(d.name.as_str(), optional_kw);
        if inc {
            let ghost before = dirs_view(out@);
            copy_all(repl, &mut out);
            copy_all(rest, &mut out);
            assert(before + (rv + dirs_view(rest@)) =~= before + rv + dirs_view(rest@));
            return out;
        }
        proof {
            lemma_children_view(*d);
        }
        if let Some(c) = &d.children {
            if find_include(c.as_slice(), optional_kw).is_some() {
                proof {
                    assert(decreases_to!(ds@ => ds@[k as int]));
                    assert(d.children->Some_0 == *c);
                    assert(decreases_to!(d.children => d.children->Some_0));
                    vstd::std_specs::vec::axiom_vec_decreases_to_view(*c);
                }
                let inner = splice_dirs(c.as_slice(), repl, optional_kw);
                let nd = Directive {
                    name: d.name.clone(),
                    args: copy_strings(&d.args),
                    children: Some(inner),
                    is_comment: d.is_comment,
                    newline: d.newline,
                    scheme: std::marker::PhantomData,
                };
                proof {
                    lemma_children_view(nd);
                    assert(nd.view() == DirectiveModel {
                        children: Some(spliced(d.view().children->Some_0, rv, optional_kw)),
                        ..d.view()
                    });
                    crate::ast::lemma_dirs_view_push(out@, nd);
                }
                let ghost before = dirs_view(out@);
                out.push(nd);
                copy_all(rest, &mut out);
                assert(before + (seq![nd.view()] + dirs_view(rest@)) =~= before.push(nd.view())
                    + dirs_view(rest@));
                return out;
            }
        }
        let c = d.duplicate();
        proof {
            crate::ast::lemma_dirs_view_push(out@, c);
            assert(dirs_view(out@) + (seq![d.view()] + spliced(dv.subrange(k + 1, n as int), rv, optional_kw))
                =~= dirs_view(out@).push(c.view()) + spliced(dv.subrange(k + 1, n as int), rv, optional_kw));
        }
        out.push(c);
        k = k + 1;
    }
    assert(dv.subrange(k as int, n as int) =~= Seq::<DirectiveModel>::empty());
    assert(dirs_view(out@) + Seq::<DirectiveModel>::empty() =~= dirs_view(out@));
    out
}

impl Config<Apache> {
    /// What the first inclusion directive of the configuration asks for
    /// (`Include` and `IncludeOptional`, in any case); `None` when there is
    /// none left.
    pub fn next_include(&self) -> (r: Option<IncludeRequest>)
        ensures
            r is Some <==> first_include(children_of(self.root.view()), true) is Some,
            r matches Some(q) ==> request_of(first_include(children_of(self.root.view()), true)->Some_0, true)
                == (match q.pattern {
                    Some(p) => Some(p@),
                    None => None::<Seq<char>>,
                }, q.optional),
    {
        proof {
            lemma_children_view(self.root);
        }
        match &self.root.children {
            Some(c) => find_include(c.as_slice(), true),
            None => {
                let e: Vec<Directive<Apache>> = Vec::new();
                assert(dirs_view(e@) =~= Seq::<DirectiveModel>::empty());
                find_include(e.as_slice(), true)
            },
        }
    }

    /// Puts `dirs`, the directives of the files that the first inclusion
    /// directive names, in its place.
    pub fn splice_include(&mut self, dirs: Vec<Directive<Apache>>)
        ensures
            final(self).path == old(self).path,
            final(self).root.children is Some,
            children_of(final(self).root.view()) == spliced(children_of(old(self).root.view()), dirs_view(dirs@), true),
    {
        proof {
            lemma_children_view(self.root);
        }
        let next = match &self.root.children {
            Some(c) => splice_dirs(c.as_slice(), dirs.as_slice(), true),
            None => {
                let e: Vec<Directive<Apache>> = Vec::new();
                assert(dirs_view(e@) =~= Seq::<DirectiveModel>::empty());
                splice_dirs(e.as_slice(), dirs.as_slice(), true)
            },
        };
        self.root.children = Some(next);
        proof {
            lemma_children_view(self.root);
        }
    }
}

impl Config<Nginx> {
    /// What the first inclusion directive of the configuration asks for
    /// (`include`, in any case); `None` when there is none left.
    pub fn next_include(&self) -> (r: Option<IncludeRequest>)
        ensures
            r is Some <==> first_include(children_of(self.root.view()), false) is Some,
            r matches Some(q) ==> request_of(first_include(children_of(self.root.view()), false)->Some_0, false)
                == (match q.pattern {
                    Some(p) => Some(p@),
                    None => None::<Seq<char>>,
                }, q.optional),
    {
        proof {
            lemma_children_view(self.root);
        }
        match &self.root.children {
            Some(c) => find_include(c.as_slice(), false),
            None => {
                let e: Vec<Directive<Nginx>> = Vec::new();
                assert(dirs_view(e@) =~= Seq::<DirectiveModel>::empty());
                find_include(e.as_slice(), false)
            },
        }
    }

    /// Puts `dirs`, the directives of the files that the first inclusion
    /// directive names, in its place.
    pub fn splice_include(&mut self, dirs: Vec<Directive<Nginx>>)
        ensures
            final(self).path == old(self).path,
            final(self).root.children is Some,
            children_of(final(self).root.view()) == spliced(children_of(old(self).root.view()), dirs_view(dirs@), false),
    {
        proof {
            lemma_children_view(self.root);
        }
        let next = match &self.root.children {
            Some(c) => splice_dirs(c.as_slice(), dirs.as_slice(), false),
            None => {
                let e: Vec<Directive<Nginx>> = Vec::new();
                assert(dirs_view(e@) =~= Seq::<DirectiveModel>::empty());
                splice_dirs(e.as_slice(), dirs.as_slice(), false)
            },
        };
        self.root.children = Some(next);
        proof {
            lemma_children_view(self.root);
        }
    }
}

} // verus!
