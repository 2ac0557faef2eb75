//! Pure helpers over the generic type model.
//!
//! These are container-independent: they only read [`crate::types`] values, so
//! every front-end (JVM signatures, DEX-inferred types) shares them.

use vstd::prelude::*;

use crate::types::signature;
use crate::types::signature::{CPart, CSig, GType, TParam};
use crate::types::{ClassSig, ClassSigPart, GenericType, TypeParam, WildcardBound};

verus! {

/// Internal name of a `ClassSig` (`java/util/List$Node`).
pub fn classsig_internal(cs: &ClassSig) -> (r: String)
    ensures
        r@ == cs.view().internal(),
{
    cs.internal_name()
}

/// Position of the first parameter with the given name, the length when none has it.
pub open spec fn param_index(params: Seq<TParam>, name: Seq<char>, k: nat) -> nat
    decreases params.len() - k,
{
    if k >= params.len() || params[k as int].name == name {
        k
    } else {
        param_index(params, name, (k + 1) as nat)
    }
}

/// Every type variable named by a parameter replaced by the argument in the
/// same position, where there is one.
pub open spec fn substituted(t: GType, params: Seq<TParam>, args: Seq<GType>) -> GType
    decreases t,
{
    match t {
        GType::TypeVar(n) => {
            let i = param_index(params, n, 0);
            if i < params.len() && i < args.len() {
                args[i as int]
            } else {
                t
            }
        },
        GType::Array(u) => GType::Array(Box::new(substituted(*u, params, args))),
        GType::Class(cs) => GType::Class(
            CSig {
                package: cs.package,
                parts: Seq::new(
                    cs.parts.len(),
                    |i: int|
                        CPart {
                            name: cs.parts[i].name,
                            args: Seq::new(
                                cs.parts[i].args.len(),
                                |j: int|
                                    if 0 <= i < cs.parts.len() && 0 <= j < cs.parts[i].args.len() {
                                        substituted(cs.parts[i].args[j], params, args)
                                    } else {
                                        arbitrary()
                                    },
                            ),
                        },
                ),
            },
        ),
        GType::Extends(u) => GType::Extends(Box::new(substituted(*u, params, args))),
        GType::Super(u) => GType::Super(Box::new(substituted(*u, params, args))),
        _ => t,
    }
}

fn subst_args(v: &Vec<GenericType>, params: &[TypeParam], args: &[GenericType]) -> (r: Vec<GenericType>)
    ensures
        r@.len() == v@.len(),
        forall|i: int|
            0 <= i < v@.len() ==> #[trigger] signature::generics(r@)[i] == substituted(
                v@[i].view(),
                signature::params_view(params@),
                signature::generics(args@),
            ),
    decreases v,
{
    let mut r: Vec<GenericType> = Vec::new();
    let mut i: usize = 0;
    while i < v.len()
        invariant
            i <= v@.len(),
            r@.len() == i,
            forall|k: int|
                0 <= k < i ==> (#[trigger] r@[k]).view() == substituted(
                    v@[k].view(),
                    signature::params_view(params@),
                    signature::generics(args@),
                ),
        decreases v@.len() - i,
    {
        assert(decreases_to!(v => v@));
        assert(decreases_to!(v@ => v@[i as int]));
        r.push(subst_typevars(&v[i], params, args));
        i += 1;
    }
    assert forall|i: int| 0 <= i < v@.len() implies #[trigger] signature::generics(r@)[i] == substituted(
        v@[i].view(),
        signature::params_view(params@),
        signature::generics(args@),
    ) by {
        assert(signature::generics(r@)[i] == r@[i].view());
    }
    r
}

fn subst_parts(v: &Vec<ClassSigPart>, params: &[TypeParam], args: &[GenericType]) -> (r: Vec<ClassSigPart>)
    ensures
        r@.len() == v@.len(),
        forall|i: int|
            0 <= i < v@.len() ==> (#[trigger] r@[i]).view().name == v@[i].view().name && r@[i].view().args.len()
                == v@[i].view().args.len(),
        forall|i: int, j: int|
            0 <= i < v@.len() && 0 <= j < v@[i].view().args.len() ==> #[trigger] r@[i].view().args[j] == substituted(
                v@[i].view().args[j],
                signature::params_view(params@),
                signature::generics(args@),
            ),
    decreases v,
{
    let mut r: Vec<ClassSigPart> = Vec::new();
    let mut i: usize = 0;
    while i < v.len()
        invariant
            i <= v@.len(),
            r@.len() == i,
            forall|i: int|
                0 <= i < r@.len() ==> (#[trigger] r@[i]).view().name == v@[i].view().name && r@[i].view().args.len()
                    == v@[i].view().args.len(),
            forall|i: int, j: int|
                0 <= i < r@.len() && 0 <= j < v@[i].view().args.len() ==> #[trigger] r@[i].view().args[j]
                    == substituted(
                    v@[i].view().args[j],
                    signature::params_view(params@),
                    signature::generics(args@),
                ),
        decreases v@.len() - i,
    {
        let p = &v[i];
        assert(decreases_to!(v => v@));
        assert(decreases_to!(v@ => v@[i as int]));
        let t = ClassSigPart { name: p.name.clone(), args: subst_args(&p.args, params, args) };
        proof {
            signature::lemma_part_view(t);
            signature::lemma_part_view(*p);
        }
        let ghost r0 = r@;
        r.push(t);
        assert forall|k: int, j: int|
            0 <= k < r@.len() && 0 <= j < v@[k].view().args.len() implies #[trigger] r@[k].view().args[j]
            == substituted(v@[k].view().args[j], signature::params_view(params@), signature::generics(args@)) by {
            if k < i {
                assert(r@[k] == r0[k]);
                assert(r0[k].view().args[j] == substituted(v@[k].view().args[j], signature::params_view(params@), signature::generics(args@)));
            } else {
                assert(p.view().args[j] == p.args@[j].view());
            }
        }
        i += 1;
    }
    r
}

pub fn subst_typevars(t: &GenericType, params: &[TypeParam], args: &[GenericType]) -> (r: GenericType)
    ensures
        r.view() == substituted(t.view(), signature::params_view(params@), signature::generics(args@)),
    decreases t,
{
    match t {
        GenericType::TypeVar(n) => {
            let ghost ps = signature::params_view(params@);
            let mut i: usize = 0;
            while i < params.len() && params[i].name != *n
                invariant
                    ps == signature::params_view(params@),
                    i <= params@.len(),
                    param_index(ps, n@, i as nat) == param_index(ps, n@, 0),
                decreases params@.len() - i,
            {
                assert(ps[i as int].name == params@[i as int].name@);
                i += 1;
            }
            if i < params.len() && i < args.len() {
                assert(ps[i as int].name == params@[i as int].name@);
                assert(signature::generics(args@)[i as int] == args@[i as int].view());
                args[i].copy()
            } else {
                GenericType::TypeVar(n.clone())
            }
        },
        GenericType::Array(u) => GenericType::Array(Box::new(subst_typevars(u, params, args))),
        GenericType::Class(cs) => {
            let c = ClassSig { package: cs.package.clone(), parts: subst_parts(&cs.parts, params, args) };
            proof {
                signature::lemma_sig_view(c);
                signature::lemma_sig_view(*cs);
                let ps = signature::params_view(params@);
                let gs = signature::generics(args@);
                let want = substituted(t.view(), ps, gs)->Class_0;
                assert(want.parts.len() == c.view().parts.len());
                assert forall|i: int| 0 <= i < want.parts.len() implies want.parts[i] == #[trigger] c.view().parts[i] by {
                    assert(c.view().parts[i] == c.parts@[i].view());
                    assert(cs.view().parts[i] == cs.parts@[i].view());
                    assert(want.parts[i].args =~= c.parts@[i].view().args) by {
                        assert forall|j: int| 0 <= j < want.parts[i].args.len() implies want.parts[i].args[j] == c.parts@[i].view().args[j] by {
                            assert(want.parts[i].args[j] == substituted(cs.parts@[i].view().args[j], ps, gs));
                        }
                    }
                }
                assert(want.parts =~= c.view().parts);
            }
            GenericType::Class(c)
        },
        GenericType::Wildcard(w) => match w {
            WildcardBound::Extends(u) => GenericType::Wildcard(
                WildcardBound::Extends(Box::new(subst_typevars(u, params, args))),
            ),
            WildcardBound::Super(u) => GenericType::Wildcard(
                WildcardBound::Super(Box::new(subst_typevars(u, params, args))),
            ),
            WildcardBound::Any => GenericType::Wildcard(WildcardBound::Any),
        },
        GenericType::Primitive(c) => GenericType::Primitive(*c),
    }
}

/// Some type variable that passes `f` occurs in `t`, its arguments and bounds included.
pub open spec fn has_var(t: GType, f: spec_fn(Seq<char>) -> bool) -> bool
    decreases t,
{
    match t {
        GType::TypeVar(n) => f(n),
        GType::Array(u) => has_var(*u, f),
        GType::Class(cs) => exists|i: int, j: int|
            0 <= i < cs.parts.len() && 0 <= j < cs.parts[i].args.len() && has_var(
                #[trigger] cs.parts[i].args[j],
                f,
            ),
        GType::Extends(u) => has_var(*u, f),
        GType::Super(u) => has_var(*u, f),
        _ => false,
    }
}

/// A wildcard occurs in `t`, its arguments and elements included.
pub open spec fn has_wildcard(t: GType) -> bool
    decreases t,
{
    match t {
        GType::Any => true,
        GType::Extends(u) => true,
        GType::Super(u) => true,
        GType::Array(u) => has_wildcard(*u),
        GType::Class(cs) => exists|i: int, j: int|
            0 <= i < cs.parts.len() && 0 <= j < cs.parts[i].args.len() && has_wildcard(
                #[trigger] cs.parts[i].args[j],
            ),
        _ => false,
    }
}

pub open spec fn any_name() -> spec_fn(Seq<char>) -> bool {
    |n: Seq<char>| true
}

pub open spec fn one_of(names: Seq<String>) -> spec_fn(Seq<char>) -> bool {
    |n: Seq<char>| exists|k: int| 0 <= k < names.len() && (#[trigger] names[k])@ == n
}

/// The names of the parameters.
pub open spec fn named(params: Seq<TParam>) -> spec_fn(Seq<char>) -> bool {
    |n: Seq<char>| exists|k: int| 0 <= k < params.len() && (#[trigger] params[k]).name == n
}

/// A type that mentions none of the parameters is its own substitution.
pub proof fn law_unmentioned_unchanged(t: GType, params: Seq<TParam>, args: Seq<GType>)
    requires
        !has_var(t, named(params)),
    ensures
        substituted(t, params, args) == t,
    decreases t,
{
    match t {
        GType::TypeVar(n) => {
            lemma_param_index(params, n, 0);
        },
        GType::Array(u) => {
            law_unmentioned_unchanged(*u, params, args);
        },
        GType::Class(cs) => {
            let out = substituted(t, params, args)->Class_0;
            assert forall|i: int| 0 <= i < cs.parts.len() implies out.parts[i] == cs.parts[i] by {
                assert forall|j: int| 0 <= j < cs.parts[i].args.len() implies out.parts[i].args[j]
                    == cs.parts[i].args[j] by {
                    assert(!has_var(cs.parts[i].args[j], named(params)));
                    law_unmentioned_unchanged(cs.parts[i].args[j], params, args);
                }
                assert(out.parts[i].args =~= cs.parts[i].args);
            }
            assert(out.parts =~= cs.parts);
        },
        GType::Extends(u) => {
            law_unmentioned_unchanged(*u, params, args);
        },
        GType::Super(u) => {
            law_unmentioned_unchanged(*u, params, args);
        },
        _ => {},
    }
}

proof fn lemma_param_index(params: Seq<TParam>, name: Seq<char>, k: nat)
    ensures
        param_index(params, name, k) < params.len() ==> params[param_index(params, name, k) as int].name == name,
    decreases params.len() - k,
{
    if k < params.len() && params[k as int].name != name {
        lemma_param_index(params, name, k + 1);
    }
}

// -- what substitution does ------------------------------------------------------

/// The variables of a type after substitution are those that the arguments
/// bring in: with an argument for every parameter, none of which mentions a
/// parameter, no parameter is mentioned any more.
pub proof fn law_parameters_gone(t: GType, params: Seq<TParam>, args: Seq<GType>)
    requires
        args.len() >= params.len(),
        forall|i: int| 0 <= i < params.len() ==> !has_var(#[trigger] args[i], named(params)),
    ensures
        !has_var(substituted(t, params, args), named(params)),
    decreases t,
{
    match t {
        GType::TypeVar(n) => {
            lemma_param_index(params, n, 0);
            lemma_param_first(params, n, 0);
        },
        GType::Array(u) => {
            law_parameters_gone(*u, params, args);
        },
        GType::Class(cs) => {
            let out = substituted(t, params, args)->Class_0;
            assert forall|i: int, j: int| 0 <= i < out.parts.len() && 0 <= j < out.parts[i].args.len() implies !has_var(
                #[trigger] out.parts[i].args[j],
                named(params),
            ) by {
                assert(out.parts[i].args[j] == substituted(cs.parts[i].args[j], params, args));
                law_parameters_gone(cs.parts[i].args[j], params, args);
            }
        },
        GType::Extends(u) => {
            law_parameters_gone(*u, params, args);
        },
        GType::Super(u) => {
            law_parameters_gone(*u, params, args);
        },
        _ => {},
    }
}

/// A type variable becomes the argument in the place of the first parameter of
/// its name.
pub proof fn law_variable(n: Seq<char>, params: Seq<TParam>, args: Seq<GType>, i: int)
    requires
        0 <= i < params.len(),
        i < args.len(),
        params[i].name == n,
        forall|j: int| 0 <= j < i ==> (#[trigger] params[j]).name != n,
    ensures
        substituted(GType::TypeVar(n), params, args) == args[i],
{
    lemma_param_index(params, n, 0);
    lemma_param_first(params, n, 0);
}

/// Replacing every parameter by itself changes nothing.
pub proof fn law_identity(t: GType, params: Seq<TParam>, args: Seq<GType>)
    requires
        forall|i: int| 0 <= i < params.len() && i < args.len() ==> #[trigger] args[i] == GType::TypeVar(params[i].name),
    ensures
        substituted(t, params, args) == t,
    decreases t,
{
    match t {
        GType::TypeVar(n) => {
            lemma_param_index(params, n, 0);
        },
        GType::Array(u) => {
            law_identity(*u, params, args);
        },
        GType::Class(cs) => {
            let out = substituted(t, params, args)->Class_0;
            assert forall|i: int| 0 <= i < cs.parts.len() implies out.parts[i] == cs.parts[i] by {
                assert forall|j: int| 0 <= j < cs.parts[i].args.len() implies out.parts[i].args[j]
                    == cs.parts[i].args[j] by {
                    law_identity(cs.parts[i].args[j], params, args);
                }
                assert(out.parts[i].args =~= cs.parts[i].args);
            }
            assert(out.parts =~= cs.parts);
        },
        GType::Extends(u) => {
            law_identity(*u, params, args);
        },
        GType::Super(u) => {
            law_identity(*u, params, args);
        },
        _ => {},
    }
}

/// A type that mentions a parameter is changed by any argument for it that is
/// no part of the type.
pub proof fn law_mentioned_changed(t: GType, p: TParam, x: GType)
    requires
        has_var(t, named(seq![p])),
        !components(t).contains(x),
    ensures
        substituted(t, seq![p], seq![x]) != t,
        components(substituted(t, seq![p], seq![x])).contains(x),
    decreases t,
{
    let ps = seq![p];
    let xs = seq![x];
    match t {
        GType::TypeVar(n) => {
            law_variable(n, ps, xs, 0);
            lemma_whole(x);
        },
        GType::Array(u) => {
            law_mentioned_changed(*u, p, x);
        },
        GType::Class(cs) => {
            let (i, j) = choose|i: int, j: int|
                0 <= i < cs.parts.len() && 0 <= j < cs.parts[i].args.len() && has_var(
                    #[trigger] cs.parts[i].args[j],
                    named(ps),
                );
            let a = cs.parts[i].args[j];
            let out = substituted(t, ps, xs)->Class_0;
            assert(!components(a).contains(x)) by {
                if components(a).contains(x) {
                    assert(components(cs.parts[i].args[j]).contains(x));
                }
            }
            law_mentioned_changed(a, p, x);
            assert(out.parts[i].args[j] == substituted(a, ps, xs));
            assert(components(out.parts[i].args[j]).contains(x));
        },
        GType::Extends(u) => {
            law_mentioned_changed(*u, p, x);
        },
        GType::Super(u) => {
            law_mentioned_changed(*u, p, x);
        },
        _ => {},
    }
}

/// Arguments without wildcards neither add nor take away a wildcard.
pub proof fn law_wildcards_kept(t: GType, params: Seq<TParam>, args: Seq<GType>)
    requires
        forall|i: int| 0 <= i < args.len() ==> !has_wildcard(#[trigger] args[i]),
    ensures
        has_wildcard(substituted(t, params, args)) == has_wildcard(t),
    decreases t,
{
    match t {
        GType::Array(u) => {
            law_wildcards_kept(*u, params, args);
        },
        GType::Class(cs) => {
            let out = substituted(t, params, args)->Class_0;
            assert forall|i: int, j: int| 0 <= i < cs.parts.len() && 0 <= j < cs.parts[i].args.len() implies has_wildcard(
                #[trigger] out.parts[i].args[j],
            ) == has_wildcard(cs.parts[i].args[j]) by {
                assert(out.parts[i].args[j] == substituted(cs.parts[i].args[j], params, args));
                law_wildcards_kept(cs.parts[i].args[j], params, args);
            }
            if has_wildcard(t) {
                let (i, j) = choose|i: int, j: int|
                    0 <= i < cs.parts.len() && 0 <= j < cs.parts[i].args.len() && has_wildcard(
                        #[trigger] cs.parts[i].args[j],
                    );
                assert(has_wildcard(out.parts[i].args[j]));
            }
            if has_wildcard(GType::Class(out)) {
                let (i, j) = choose|i: int, j: int|
                    0 <= i < out.parts.len() && 0 <= j < out.parts[i].args.len() && has_wildcard(
                        #[trigger] out.parts[i].args[j],
                    );
                assert(has_wildcard(cs.parts[i].args[j]));
            }
        },
        _ => {},
    }
}

proof fn lemma_param_first(params: Seq<TParam>, name: Seq<char>, k: nat)
    ensures
        k <= params.len() ==> k <= param_index(params, name, k) <= params.len(),
        forall|j: int| k <= j < param_index(params, name, k) && j < params.len() ==> (#[trigger] params[j]).name != name,
    decreases params.len() - k,
{
    if k < params.len() && params[k as int].name != name {
        lemma_param_first(params, name, k + 1);
    }
}

// -- what a type is made of --------------------------------------------------------

/// The type itself, its element, its arguments and its bound, and theirs.
pub open spec fn components(t: GType) -> Set<GType>
    decreases t,
{
    match t {
        GType::Array(u) => components(*u).insert(t),
        GType::Class(cs) => Set::new(
            |x: GType|
                x == t || exists|i: int, j: int|
                    0 <= i < cs.parts.len() && 0 <= j < cs.parts[i].args.len() && components(
                        #[trigger] cs.parts[i].args[j],
                    ).contains(x),
        ),
        GType::Extends(u) => components(*u).insert(t),
        GType::Super(u) => components(*u).insert(t),
        _ => Set::empty().insert(t),
    }
}

proof fn lemma_whole(t: GType)
    ensures
        components(t).contains(t),
{
}

/// A variable is mentioned where it is a component.
pub proof fn law_mentions(t: GType, f: spec_fn(Seq<char>) -> bool)
    ensures
        has_var(t, f) <==> exists|n: Seq<char>| f(n) && #[trigger] components(t).contains(GType::TypeVar(n)),
    decreases t,
{
    match t {
        GType::TypeVar(n) => {
            if f(n) {
                assert(components(t).contains(GType::TypeVar(n)));
            }
        },
        GType::Array(u) => {
            law_mentions(*u, f);
            lemma_vars_of_inner(t, *u, f);
        },
        GType::Class(cs) => {
            if has_var(t, f) {
                let (i, j) = choose|i: int, j: int|
                    0 <= i < cs.parts.len() && 0 <= j < cs.parts[i].args.len() && has_var(
                        #[trigger] cs.parts[i].args[j],
                        f,
                    );
                law_mentions(cs.parts[i].args[j], f);
                let n = choose|n: Seq<char>| f(n) && #[trigger] components(cs.parts[i].args[j]).contains(GType::TypeVar(n));
                assert(components(cs.parts[i].args[j]).contains(GType::TypeVar(n)));
                assert(components(t).contains(GType::TypeVar(n)));
            }
            if exists|n: Seq<char>| f(n) && #[trigger] components(t).contains(GType::TypeVar(n)) {
                let n = choose|n: Seq<char>| f(n) && #[trigger] components(t).contains(GType::TypeVar(n));
                let (i, j) = choose|i: int, j: int|
                    0 <= i < cs.parts.len() && 0 <= j < cs.parts[i].args.len() && components(
                        #[trigger] cs.parts[i].args[j],
                    ).contains(GType::TypeVar(n));
                law_mentions(cs.parts[i].args[j], f);
                assert(components(cs.parts[i].args[j]).contains(GType::TypeVar(n)));
                assert(has_var(cs.parts[i].args[j], f));
            }
        },
        GType::Extends(u) => {
            law_mentions(*u, f);
            lemma_vars_of_inner(t, *u, f);
        },
        GType::Super(u) => {
            law_mentions(*u, f);
            lemma_vars_of_inner(t, *u, f);
        },
        _ => {},
    }
}

proof fn lemma_vars_of_inner(t: GType, u: GType, f: spec_fn(Seq<char>) -> bool)
    requires
        components(t) == components(u).insert(t),
        !(t is TypeVar),
    ensures
        (exists|n: Seq<char>| f(n) && #[trigger] components(t).contains(GType::TypeVar(n))) == (exists|n: Seq<char>|
            f(n) && #[trigger] components(u).contains(GType::TypeVar(n))),
{
    if exists|n: Seq<char>| f(n) && #[trigger] components(t).contains(GType::TypeVar(n)) {
        let n = choose|n: Seq<char>| f(n) && #[trigger] components(t).contains(GType::TypeVar(n));
        assert(components(u).contains(GType::TypeVar(n)));
    }
    if exists|n: Seq<char>| f(n) && #[trigger] components(u).contains(GType::TypeVar(n)) {
        let n = choose|n: Seq<char>| f(n) && #[trigger] components(u).contains(GType::TypeVar(n));
        assert(components(t).contains(GType::TypeVar(n)));
    }
}

/// The type is a wildcard.
pub open spec fn is_wildcard(t: GType) -> bool {
    t is Any || t is Extends || t is Super
}

/// A type has a wildcard where one is a component.
pub proof fn law_wildcard_component(t: GType)
    ensures
        has_wildcard(t) <==> exists|x: GType| #[trigger] components(t).contains(x) && is_wildcard(x),
    decreases t,
{
    match t {
        GType::Array(u) => {
            law_wildcard_component(*u);
            if has_wildcard(*u) {
                let x = choose|x: GType| #[trigger] components(*u).contains(x) && is_wildcard(x);
                assert(components(t).contains(x));
            }
            if exists|x: GType| #[trigger] components(t).contains(x) && is_wildcard(x) {
                let x = choose|x: GType| #[trigger] components(t).contains(x) && is_wildcard(x);
                assert(components(*u).contains(x));
            }
        },
        GType::Class(cs) => {
            if has_wildcard(t) {
                let (i, j) = choose|i: int, j: int|
                    0 <= i < cs.parts.len() && 0 <= j < cs.parts[i].args.len() && has_wildcard(
                        #[trigger] cs.parts[i].args[j],
                    );
                law_wildcard_component(cs.parts[i].args[j]);
                let x = choose|x: GType| #[trigger] components(cs.parts[i].args[j]).contains(x) && is_wildcard(x);
                assert(components(cs.parts[i].args[j]).contains(x));
                assert(components(t).contains(x));
            }
            if exists|x: GType| #[trigger] components(t).contains(x) && is_wildcard(x) {
                let x = choose|x: GType| #[trigger] components(t).contains(x) && is_wildcard(x);
                let (i, j) = choose|i: int, j: int|
                    0 <= i < cs.parts.len() && 0 <= j < cs.parts[i].args.len() && components(
                        #[trigger] cs.parts[i].args[j],
                    ).contains(x);
                law_wildcard_component(cs.parts[i].args[j]);
                assert(components(cs.parts[i].args[j]).contains(x));
                assert(has_wildcard(cs.parts[i].args[j]));
            }
        },
        _ => {
            if is_wildcard(t) {
                lemma_whole(t);
            } else {
                assert(components(t) =~= Set::empty().insert(t));
            }
        },
    }
}

#[verifier::loop_isolation(false)]
fn typevar_in_class(cs: &ClassSig, names: Option<&[String]>) -> (r: bool)
    ensures
        r == has_var(GType::Class(cs.view()), wanted(names)),
    decreases cs,
{
    proof {
        signature::lemma_sig_view(*cs);
    }
    let ghost f = wanted(names);
    let mut i: usize = 0;
    while i < cs.parts.len()
        invariant
            cs.view().parts == signature::parts_view(cs.parts@),
            f == wanted(names),
            i <= cs.parts@.len(),
            forall|k: int, j: int|
                0 <= k < i && 0 <= j < cs.view().parts[k].args.len() ==> !has_var(
                    #[trigger] cs.view().parts[k].args[j],
                    f,
                ),
        decreases cs.parts@.len() - i,
    {
        let p = &cs.parts[i];
        proof {
            signature::lemma_part_view(*p);
            assert(cs.view().parts[i as int] == p.view());
        }
        let mut j: usize = 0;
        while j < p.args.len()
            invariant
                cs.view().parts == signature::parts_view(cs.parts@),
                f == wanted(names),
                i < cs.parts@.len(),
                *p == cs.parts@[i as int],
                cs.view().parts[i as int] == p.view(),
                p.view().args == signature::generics(p.args@),
                j <= p.args@.len(),
                forall|m: int| 0 <= m < j ==> !has_var(#[trigger] cs.view().parts[i as int].args[m], f),
            decreases p.args@.len() - j,
        {
            assert(p.view().args[j as int] == p.args@[j as int].view());
            assert(decreases_to!(cs => cs.parts));
            assert(decreases_to!(cs.parts => cs.parts@));
            assert(decreases_to!(cs.parts@ => cs.parts@[i as int]));
            assert(decreases_to!(*p => p.args));
            assert(decreases_to!(p.args => p.args@));
            assert(decreases_to!(p.args@ => p.args@[j as int]));
            if typevar_in(&p.args[j], names) {
                proof {
                    let v = cs.view();
                    reveal_with_fuel(has_var, 2);
                    assert(0 <= i < v.parts.len() && 0 <= j < v.parts[i as int].args.len());
                    assert(has_var(v.parts[i as int].args[j as int], f));
                    assert(has_var(GType::Class(v), f));
                }
                return true;
            }
            j += 1;
        }
        i += 1;
    }
    false
}

pub open spec fn wanted(names: Option<&[String]>) -> spec_fn(Seq<char>) -> bool {
    match names {
        Some(v) => one_of(v@),
        None => any_name(),
    }
}

#[verifier::loop_isolation(false)]
fn typevar_in(g: &GenericType, names: Option<&[String]>) -> (r: bool)
    ensures
        r == has_var(g.view(), wanted(names)),
    decreases g,
{
    match g {
        GenericType::TypeVar(n) => match names {
            None => true,
            Some(v) => {
                let mut k: usize = 0;
                while k < v.len()
                    invariant
                        k <= v@.len(),
                        forall|j: int| 0 <= j < k ==> (#[trigger] v@[j])@ != n@,
                    decreases v@.len() - k,
                {
                    if v[k] == *n {
                        assert(v@[k as int]@ == n@);
                        return true;
                    }
                    k += 1;
                }
                false
            },
        },
        GenericType::Array(t) => typevar_in(t, names),
        GenericType::Class(cs) => typevar_in_class(cs, names),
        GenericType::Wildcard(w) => match w {
            WildcardBound::Any => false,
            WildcardBound::Extends(t) => typevar_in(t, names),
            WildcardBound::Super(t) => typevar_in(t, names),
        },
        GenericType::Primitive(_) => false,
    }
}

pub fn g_has_typevar(g: &GenericType) -> (r: bool)
    ensures
        r == has_var(g.view(), any_name()),
{
    typevar_in(g, None)
}

#[verifier::loop_isolation(false)]
fn wildcard_in_class(cs: &ClassSig) -> (r: bool)
    ensures
        r == has_wildcard(GType::Class(cs.view())),
    decreases cs,
{
    proof {
        signature::lemma_sig_view(*cs);
    }
    let mut i: usize = 0;
    while i < cs.parts.len()
        invariant
            cs.view().parts == signature::parts_view(cs.parts@),
            i <= cs.parts@.len(),
            forall|k: int, j: int|
                0 <= k < i && 0 <= j < cs.view().parts[k].args.len() ==> !has_wildcard(
                    #[trigger] cs.view().parts[k].args[j],
                ),
        decreases cs.parts@.len() - i,
    {
        let p = &cs.parts[i];
        proof {
            signature::lemma_part_view(*p);
            assert(cs.view().parts[i as int] == p.view());
        }
        let mut j: usize = 0;
        while j < p.args.len()
            invariant
                cs.view().parts == signature::parts_view(cs.parts@),
                i < cs.parts@.len(),
                *p == cs.parts@[i as int],
                cs.view().parts[i as int] == p.view(),
                p.view().args == signature::generics(p.args@),
                j <= p.args@.len(),
                forall|m: int| 0 <= m < j ==> !has_wildcard(#[trigger] cs.view().parts[i as int].args[m]),
            decreases p.args@.len() - j,
        {
            assert(p.view().args[j as int] == p.args@[j as int].view());
            assert(decreases_to!(cs => cs.parts));
            assert(decreases_to!(cs.parts => cs.parts@));
            assert(decreases_to!(cs.parts@ => cs.parts@[i as int]));
            assert(decreases_to!(*p => p.args));
            assert(decreases_to!(p.args => p.args@));
            assert(decreases_to!(p.args@ => p.args@[j as int]));
            if g_has_wildcard(&p.args[j]) {
                proof {
                    let v = cs.view();
                    reveal_with_fuel(has_wildcard, 2);
                    assert(0 <= i < v.parts.len() && 0 <= j < v.parts[i as int].args.len());
                    assert(has_wildcard(v.parts[i as int].args[j as int]));
                    assert(has_wildcard(GType::Class(v)));
                }
                return true;
            }
            j += 1;
        }
        i += 1;
    }
    false
}

pub fn g_has_wildcard(g: &GenericType) -> (r: bool)
    ensures
        r == has_wildcard(g.view()),
    decreases g,
{
    match g {
        GenericType::Wildcard(_) => true,
        GenericType::Array(t) => g_has_wildcard(t),
        GenericType::Class(cs) => wildcard_in_class(cs),
        _ => false,
    }
}

pub fn g_mentions_any(g: &GenericType, names: &[String]) -> (r: bool)
    ensures
        r == has_var(g.view(), one_of(names@)),
{
    typevar_in(g, Some(names))
}

} // verus!
