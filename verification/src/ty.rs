//! The type-expression model: what a field, parameter or alias target may
//! say about other declarations. A type expression is a primitive (never a
//! dependency), a named path with optional generic arguments, or a pointer.

use vstd::prelude::*;

use crate::text::{lex_lt, find_idx, lemma_find_idx};

verus! {

/// A type expression as it appears in a field, a signature or an alias.
#[derive(Debug)]
pub enum Ty {
    /// A built-in scalar name; contributes no dependencies.
    Primitive(String),
    /// A named declaration, possibly instantiated with generic arguments.
    Path(String, Vec<Ty>),
    /// A pointer to another type.
    Ptr(Box<Ty>),
}

/// The mathematical shape of a type expression.
pub enum TyModel {
    Primitive(Seq<char>),
    Path(Seq<char>, Seq<TyModel>),
    Ptr(Box<TyModel>),
}

/// The model of a type expression.
pub open spec fn ty_view(t: Ty) -> TyModel
    decreases t,
{
    match t {
        Ty::Primitive(p) => TyModel::Primitive(p@),
        Ty::Path(n, args) => TyModel::Path(n@, tys_view(args@)),
        Ty::Ptr(inner) => TyModel::Ptr(Box::new(ty_view(*inner))),
    }
}

/// The models of a sequence of type expressions.
pub open spec fn tys_view(ts: Seq<Ty>) -> Seq<TyModel>
    decreases ts,
{
    if ts.len() == 0 {
        Seq::empty()
    } else {
        tys_view(ts.drop_last()).push(ty_view(ts.last()))
    }
}

impl View for Ty {
    type V = TyModel;

    open spec fn view(&self) -> TyModel {
        ty_view(*self)
    }
}

/// `tys_view` maps each element to its model, position by position.
pub proof fn lemma_tys_view(ts: Seq<Ty>)
    ensures
        tys_view(ts).len() == ts.len(),
        forall|i: int| 0 <= i < ts.len() ==> tys_view(ts)[i] == ts[i]@,
    decreases ts.len(),
{
    if ts.len() > 0 {
        lemma_tys_view(ts.drop_last());
        assert forall|i: int| 0 <= i < ts.len() implies tys_view(ts)[i] == ts[i]@ by {
            if i < ts.len() - 1 {
                assert(ts.drop_last()[i] == ts[i]);
            } else {
                assert(ts.last() == ts[i]);
            }
        }
    }
}

/// The view of a path type is the path model over the argument views.
pub proof fn lemma_path_view(t: Ty)
    requires
        t is Path,
    ensures
        t@ == TyModel::Path(t->Path_0@, tys_view(t->Path_1@)),
{
}

/// The declaration names a type expression refers to, in left-to-right
/// textual order: the path head first, then the names inside its arguments.
pub open spec fn ty_names(t: TyModel) -> Seq<Seq<char>>
    decreases t,
{
    match t {
        TyModel::Primitive(_) => Seq::empty(),
        TyModel::Path(n, args) => seq![n] + tys_names(args),
        TyModel::Ptr(inner) => ty_names(*inner),
    }
}

/// The names referred to by a sequence of type expressions, concatenated.
pub open spec fn tys_names(ts: Seq<TyModel>) -> Seq<Seq<char>>
    decreases ts,
{
    if ts.len() == 0 {
        Seq::empty()
    } else {
        ty_names(ts[0]) + tys_names(ts.drop_first())
    }
}

pub proof fn lemma_tys_names_snoc(ts: Seq<TyModel>, x: TyModel)
    ensures
        tys_names(ts.push(x)) =~= tys_names(ts) + ty_names(x),
    decreases ts.len(),
{
    assert(ts.push(x)[0] == if ts.len() == 0 { x } else { ts[0] });
    if ts.len() == 0 {
        reveal_with_fuel(tys_names, 2);
        assert(ts.push(x).drop_first() =~= Seq::<TyModel>::empty());
        assert(tys_names(ts.push(x)) =~= ty_names(x));
    } else {
        assert(ts.push(x).drop_first() =~= ts.drop_first().push(x));
        lemma_tys_names_snoc(ts.drop_first(), x);
    }
}

/// Substitution of concrete arguments for generic parameter names: a bare
/// path whose name is a parameter becomes the matching argument; all other
/// structure is kept, with substitution applied inside nested arguments.
pub open spec fn ty_subst(t: TyModel, params: Seq<Seq<char>>, args: Seq<TyModel>) -> TyModel
    decreases t,
{
    match t {
        TyModel::Primitive(p) => TyModel::Primitive(p),
        TyModel::Path(n, inner) => {
            if inner.len() == 0 && params.contains(n) {
                args[find_idx(params, n)]
            } else {
                TyModel::Path(n, tys_subst(inner, params, args))
            }
        },
        TyModel::Ptr(inner) => TyModel::Ptr(Box::new(ty_subst(*inner, params, args))),
    }
}

pub open spec fn tys_subst(ts: Seq<TyModel>, params: Seq<Seq<char>>, args: Seq<TyModel>) -> Seq<TyModel>
    decreases ts,
{
    if ts.len() == 0 {
        Seq::empty()
    } else {
        seq![ty_subst(ts[0], params, args)] + tys_subst(ts.drop_first(), params, args)
    }
}

pub proof fn lemma_tys_subst_snoc(ts: Seq<TyModel>, x: TyModel, params: Seq<Seq<char>>, args: Seq<TyModel>)
    ensures
        tys_subst(ts.push(x), params, args) =~= tys_subst(ts, params, args).push(ty_subst(x, params, args)),
    decreases ts.len(),
{
    assert(ts.push(x)[0] == if ts.len() == 0 { x } else { ts[0] });
    if ts.len() == 0 {
        reveal_with_fuel(tys_subst, 2);
        assert(ts.push(x).drop_first() =~= Seq::<TyModel>::empty());
    } else {
        assert(ts.push(x).drop_first() =~= ts.drop_first().push(x));
        lemma_tys_subst_snoc(ts.drop_first(), x, params, args);
    }
}

/// `tys_subst` substitutes element by element.
pub proof fn lemma_tys_subst(ts: Seq<TyModel>, params: Seq<Seq<char>>, args: Seq<TyModel>)
    ensures
        tys_subst(ts, params, args).len() == ts.len(),
        forall|i: int| 0 <= i < ts.len() ==> tys_subst(ts, params, args)[i] == ty_subst(ts[i], params, args),
    decreases ts.len(),
{
    if ts.len() > 0 {
        lemma_tys_subst(ts.drop_first(), params, args);
        assert forall|i: int| 0 <= i < ts.len()
            implies tys_subst(ts, params, args)[i] == ty_subst(ts[i], params, args) by {
            if i > 0 {
                assert(ts.drop_first()[i - 1] == ts[i]);
                assert(tys_subst(ts, params, args)[i] == tys_subst(ts.drop_first(), params, args)[i - 1]);
            }
        }
    }
}

/// How a type expression prints inside the generated header.
pub open spec fn ty_render(t: TyModel) -> Seq<char>
    decreases t,
{
    match t {
        TyModel::Primitive(p) => p,
        TyModel::Path(n, args) => {
            if args.len() == 0 {
                n
            } else {
                n + "<"@ + tys_render(args) + ">"@
            }
        },
        TyModel::Ptr(inner) => ty_render(*inner) + "*"@,
    }
}

pub open spec fn tys_render(ts: Seq<TyModel>) -> Seq<char>
    decreases ts,
{
    if ts.len() == 0 {
        Seq::empty()
    } else {
        ty_render(ts[0]) + tys_render_tail(ts.drop_first())
    }
}

pub open spec fn tys_render_tail(ts: Seq<TyModel>) -> Seq<char>
    decreases ts,
{
    if ts.len() == 0 {
        Seq::empty()
    } else {
        ", "@ + ty_render(ts[0]) + tys_render_tail(ts.drop_first())
    }
}

pub proof fn lemma_tys_render_tail_snoc(ts: Seq<TyModel>, x: TyModel)
    ensures
        tys_render_tail(ts.push(x)) =~= tys_render_tail(ts) + ", "@ + ty_render(x),
    decreases ts.len(),
{
    assert(ts.push(x)[0] == if ts.len() == 0 { x } else { ts[0] });
    if ts.len() == 0 {
        reveal_with_fuel(tys_render_tail, 2);
        assert(ts.push(x).drop_first() =~= Seq::<TyModel>::empty());
    } else {
        assert(ts.push(x).drop_first() =~= ts.drop_first().push(x));
        lemma_tys_render_tail_snoc(ts.drop_first(), x);
    }
}

impl Ty {
    /// A structural copy whose model is the same.
    pub fn dup(&self) -> (r: Ty)
        ensures
            r@ == self@,
        decreases *self,
    {
        match self {
            Ty::Primitive(p) => Ty::Primitive(p.clone()),
            Ty::Path(n, args) => {
                let mut out: Vec<Ty> = Vec::new();
                let len = args.len();
                let mut i: usize = 0;
                while i < len
                    invariant
                        i <= len,
                        len == args@.len(),
                        out@.len() == i,
                        *self == Ty::Path(*n, *args),
                        forall|j: int| 0 <= j < i ==> out@[j]@ == args@[j]@,
                    decreases len - i,
                {
                    proof {
                        assert(*args == self->Path_1);
                        assert(decreases_to!(*self => self->Path_1));
                        assert(decreases_to!(self->Path_1 => self->Path_1@));
                        assert(decreases_to!(self->Path_1@ => self->Path_1@[i as int]));
                        assert(decreases_to!(*self => args@[i as int]));
                    }
                    let d = args[i].dup();
                    out.push(d);
                    i = i + 1;
                }
                let r = Ty::Path(n.clone(), out);
                proof {
                    lemma_tys_view(out@);
                    lemma_tys_view(args@);
                    assert(tys_view(out@) =~= tys_view(args@));
                    lemma_path_view(r);
                    lemma_path_view(*self);
                    assert(*args == self->Path_1);
                }
                r
            },
            Ty::Ptr(t) => Ty::Ptr(Box::new((**t).dup())),
        }
    }

    /// Appends the names this type refers to.
    pub fn push_names(&self, out: &mut Vec<String>)
        ensures
            names_view(final(out)@) =~= names_view(old(out)@) + ty_names(self@),
        decreases *self,
    {
        match self {
            Ty::Primitive(_) => {
                proof {
                    assert(names_view(out@) =~= names_view(old(out)@) + ty_names(self@));
                }
            },
            Ty::Path(n, args) => {
                out.push(n.clone());
                let ghost base = names_view(out@);
                proof {
                    assert(base =~= names_view(old(out)@) + seq![n@]);
                }
                let len = args.len();
                let mut i: usize = 0;
                while i < len
                    invariant
                        i <= len,
                        len == args@.len(),
                        *self == Ty::Path(*n, *args),
                        names_view(out@) =~= base + tys_names(tys_view(args@).take(i as int)),
                    decreases len - i,
                {
                    proof {
                        assert(*args == self->Path_1);
                        assert(decreases_to!(*self => self->Path_1));
                        assert(decreases_to!(self->Path_1 => self->Path_1@));
                        assert(decreases_to!(self->Path_1@ => self->Path_1@[i as int]));
                        assert(decreases_to!(*self => args@[i as int]));
                    }
                    args[i].push_names(out);
                    proof {
                        let tv = tys_view(args@);
                        lemma_tys_view(args@);
                        assert(tv.take(i + 1) =~= tv.take(i as int).push(tv[i as int]));
                        lemma_tys_names_snoc(tv.take(i as int), tv[i as int]);
                        assert(tv[i as int] == args@[i as int]@);
                        assert(names_view(out@) =~= base + tys_names(tv.take(i + 1)));
                    }
                    i = i + 1;
                }
                proof {
                    let tv = tys_view(args@);
                    lemma_tys_view(args@);
                    assert(tv.take(len as int) =~= tv);
                    lemma_path_view(*self);
                    assert(*args == self->Path_1);
                    assert(ty_names(self@) =~= seq![n@] + tys_names(tv));
                    assert(names_view(out@) =~= names_view(old(out)@) + ty_names(self@));
                }
            },
            Ty::Ptr(t) => {
                (**t).push_names(out);
            },
        }
    }

    /// Applies `ty_subst` with the given parameter names and arguments.
    pub fn subst(&self, params: &Vec<String>, args: &Vec<Ty>) -> (r: Ty)
        requires
            params@.len() == args@.len(),
        ensures
            r@ == ty_subst(self@, names_view(params@), tys_view(args@)),
        decreases *self,
    {
        let ghost pv = names_view(params@);
        let ghost av = tys_view(args@);
        match self {
            Ty::Primitive(p) => Ty::Primitive(p.clone()),
            Ty::Path(n, inner) => {
                proof {
                    lemma_path_view(*self);
                    assert(*inner == self->Path_1);
                    lemma_tys_view(inner@);
                    lemma_tys_view(args@);
                }
                if inner.is_empty() {
                    // A bare name: replaced when it is a parameter.
                    let plen = params.len();
                    let mut j: usize = 0;
                    loop
                        invariant
                            j <= plen,
                            plen == params@.len(),
                            params@.len() == args@.len(),
                            pv == names_view(params@),
                            av == tys_view(args@),
                            forall|q: int| 0 <= q < j ==> pv[q] != n@,
                        ensures
                            j <= plen,
                            forall|q: int| 0 <= q < j ==> pv[q] != n@,
                            j < plen ==> pv[j as int] == n@,
                        decreases plen - j,
                    {
                        if j == plen {
                            break;
                        }
                        if params[j] == *n {
                            break;
                        }
                        j = j + 1;
                    }
                    proof {
                        lemma_find_idx(pv, n@);
                        if j < plen {
                            assert(pv.contains(n@));
                            assert(find_idx(pv, n@) == j) by {
                                let f = find_idx(pv, n@);
                                assert(pv[f] == n@);
                            }
                        } else {
                            if pv.contains(n@) {
                                let q = choose|q: int| 0 <= q < pv.len() && pv[q] == n@;
                                assert(false);
                            }
                        }
                        assert(tys_view(inner@).len() == 0);
                    }
                    if j < plen {
                        args[j].dup()
                    } else {
                        let r = Ty::Path(n.clone(), Vec::new());
                        proof {
                            lemma_path_view(r);
                            assert(tys_subst(tys_view(inner@), pv, av) =~= Seq::<TyModel>::empty());
                            assert(tys_view(r->Path_1@) =~= tys_view(inner@));
                        }
                        r
                    }
                } else {
                    let mut out: Vec<Ty> = Vec::new();
                    let len = inner.len();
                    let mut i: usize = 0;
                    let ghost iv = tys_view(inner@);
                    while i < len
                        invariant
                            i <= len,
                            len == inner@.len(),
                            iv == tys_view(inner@),
                            pv == names_view(params@),
                            av == tys_view(args@),
                            params@.len() == args@.len(),
                            *self == Ty::Path(*n, *inner),
                            out@.len() == i,
                            forall|j: int| 0 <= j < i ==> out@[j]@ == ty_subst(iv[j], pv, av),
                        decreases len - i,
                    {
                        proof {
                            assert(*inner == self->Path_1);
                            assert(decreases_to!(*self => self->Path_1));
                            assert(decreases_to!(self->Path_1 => self->Path_1@));
                            assert(decreases_to!(self->Path_1@ => self->Path_1@[i as int]));
                            assert(decreases_to!(*self => inner@[i as int]));
                            lemma_tys_view(inner@);
                        }
                        let s = inner[i].subst(params, args);
                        out.push(s);
                        proof {
                            assert(iv[i as int] == inner@[i as int]@);
                        }
                        i = i + 1;
                    }
                    let r = Ty::Path(n.clone(), out);
                    proof {
                        lemma_path_view(r);
                        lemma_tys_view(out@);
                        lemma_tys_view(inner@);
                        lemma_tys_subst(iv, pv, av);
                        assert(tys_view(out@) =~= tys_subst(iv, pv, av));
                        assert(ty_subst(self@, pv, av) == TyModel::Path(n@, tys_subst(iv, pv, av)));
                    }
                    r
                }
            },
            Ty::Ptr(t) => Ty::Ptr(Box::new((**t).subst(params, args))),
        }
    }

    /// Appends this type's rendering to the output text.
    pub fn render(&self, out: &mut String)
        ensures
            final(out)@ =~= old(out)@ + ty_render(self@),
        decreases *self,
    {
        match self {
            Ty::Primitive(p) => {
                out.append(p.as_str());
            },
            Ty::Path(n, args) => {
                out.append(n.as_str());
                let len = args.len();
                let ghost av = tys_view(args@);
                proof {
                    lemma_path_view(*self);
                    assert(*args == self->Path_1);
                    lemma_tys_view(args@);
                }
                if len > 0 {
                    out.append("<");
                    proof {
                        assert(*args == self->Path_1);
                        assert(decreases_to!(*self => self->Path_1));
                        assert(decreases_to!(self->Path_1 => self->Path_1@));
                        assert(decreases_to!(self->Path_1@ => self->Path_1@[0]));
                        assert(decreases_to!(*self => args@[0]));
                    }
                    args[0].render(out);
                    let ghost base = out@;
                    let mut i: usize = 1;
                    while i < len
                        invariant
                            1 <= i <= len,
                            len == args@.len(),
                            av == tys_view(args@),
                            *self == Ty::Path(*n, *args),
                            out@ =~= base + tys_render_tail(av.skip(1).take(i - 1)),
                        decreases len - i,
                    {
                        out.append(", ");
                        proof {
                            assert(*args == self->Path_1);
                            assert(decreases_to!(*self => self->Path_1));
                            assert(decreases_to!(self->Path_1 => self->Path_1@));
                            assert(decreases_to!(self->Path_1@ => self->Path_1@[i as int]));
                            assert(decreases_to!(*self => args@[i as int]));
                        }
                        args[i].render(out);
                        proof {
                            lemma_tys_view(args@);
                            let tl = av.skip(1);
                            assert(tl.len() == len - 1);
                            assert(tl.take(i as int) =~= tl.take(i - 1).push(tl[i - 1]));
                            lemma_tys_render_tail_snoc(tl.take(i - 1), tl[i - 1]);
                            assert(tl[i - 1] == av[i as int]);
                            assert(tl[i - 1] == args@[i as int]@);
                            assert(out@ =~= base + tys_render_tail(tl.take(i as int)));
                        }
                        i = i + 1;
                    }
                    out.append(">");
                    proof {
                        let tl = av.skip(1);
                        assert(tl.take(len - 1) =~= tl);
                        assert(av.drop_first() =~= tl);
                        assert(tys_render(av) =~= ty_render(av[0]) + tys_render_tail(tl));
                        assert(av[0] == args@[0]@);
                        assert(out@ =~= old(out)@ + ty_render(self@));
                    }
                } else {
                    proof {
                        assert(av.len() == 0);
                        assert(out@ =~= old(out)@ + ty_render(self@));
                    }
                }
            },
            Ty::Ptr(t) => {
                (**t).render(out);
                out.append("*");
            },
        }
    }
}

/// The views of a sequence of names.
pub open spec fn names_view(ns: Seq<String>) -> Seq<Seq<char>> {
    Seq::new(ns.len(), |i: int| ns[i]@)
}

/// Whether a sequence of names is sorted strictly ascending.
pub open spec fn names_sorted(ns: Seq<Seq<char>>) -> bool {
    forall|i: int, j: int| 0 <= i < j < ns.len() ==> lex_lt(ns[i], ns[j])
}

} // verus!
