//! What the Java text of a type says.

use vstd::prelude::*;

use crate::text;
use crate::types::descriptor;
use crate::types::descriptor::JType;
use crate::types::signature;
use crate::types::signature::{CPart, CSig, CSignature, GType, MSignature, TParam};

verus! {

/// The texts one behind the other, with `sep` between neighbours.
pub open spec fn between(v: Seq<Seq<char>>, sep: Seq<char>) -> Seq<char>
    decreases v.len(),
{
    if v.len() == 0 {
        Seq::empty()
    } else if v.len() == 1 {
        v[0]
    } else {
        v[0] + sep + between(v.skip(1), sep)
    }
}

/// The Java text of each type.
pub open spec fn java_texts(ts: Seq<GType>) -> Seq<Seq<char>> {
    Seq::new(ts.len(), |i: int| ts[i].java())
}

pub proof fn lemma_between_push(v: Seq<Seq<char>>, x: Seq<char>, sep: Seq<char>)
    ensures
        between(v.push(x), sep) == (if v.len() == 0 {
            x
        } else {
            between(v, sep) + sep + x
        }),
    decreases v.len(),
{
    let u = v.push(x);
    if v.len() == 0 {
    } else if v.len() == 1 {
        assert(u.skip(1) =~= seq![x]);
        assert(between(seq![x], sep) == x);
    } else {
        assert(u.skip(1) =~= v.skip(1).push(x));
        lemma_between_push(v.skip(1), x, sep);
        assert(u[0] + sep + (between(v.skip(1), sep) + sep + x) =~= (v[0] + sep + between(v.skip(1), sep)) + sep + x);
    }
}

// -- type parameters ---------------------------------------------------------------

/// The bounds that are printed: the class bound unless it is plain `Object`,
/// then the interface bounds.
pub open spec fn printed_bounds(p: TParam) -> Seq<GType> {
    match p.class_bound {
        Some(c) => if signature::is_object(c) {
            p.interface_bounds
        } else {
            seq![c] + p.interface_bounds
        },
        None => p.interface_bounds,
    }
}

/// A type parameter is its name; with bounds, `extends` and the bounds joined
/// by ampersands follow.
pub proof fn law_param_text(p: TParam)
    ensures
        signature::param_text(p, p.interface_bounds.len()) == (if printed_bounds(p).len() == 0 {
            p.name
        } else {
            p.name + " extends "@ + between(java_texts(printed_bounds(p)), seq![' ', '&', ' '])
        }),
{
    reveal_strlit(" & ");
    assert(" & "@ =~= seq![' ', '&', ' ']);
    lemma_param_upto(p, p.interface_bounds.len());
    assert(p.interface_bounds.take(p.interface_bounds.len() as int) =~= p.interface_bounds);
}

spec fn bounds_upto(p: TParam, k: nat) -> Seq<GType> {
    printed_bounds(TParam { interface_bounds: p.interface_bounds.take(k as int), ..p })
}

proof fn lemma_param_upto(p: TParam, k: nat)
    requires
        k <= p.interface_bounds.len(),
    ensures
        signature::param_text(p, k) == (if bounds_upto(p, k).len() == 0 {
            p.name
        } else {
            p.name + " extends "@ + between(java_texts(bounds_upto(p, k)), " & "@)
        }),
    decreases k,
{
    let b = bounds_upto(p, k);
    if k == 0 {
        assert(p.interface_bounds.take(0) =~= Seq::<GType>::empty());
        if b.len() > 0 {
            assert(b =~= seq![p.class_bound->0]);
            assert(java_texts(b) =~= seq![(p.class_bound->0).java()]);
            assert(p.name + (" extends "@ + (p.class_bound->0).java()) =~= p.name + " extends "@ + (p.class_bound->0).java());
        } else {
            assert(p.name + Seq::<char>::empty() =~= p.name);
        }
    } else {
        let j = (k - 1) as nat;
        let a = bounds_upto(p, j);
        let x = p.interface_bounds[k - 1];
        lemma_param_upto(p, j);
        assert(p.interface_bounds.take(k as int) =~= p.interface_bounds.take(j as int).push(x));
        assert(b =~= a.push(x));
        assert(java_texts(b) =~= java_texts(a).push(x.java()));
        lemma_between_push(java_texts(a), x.java(), " & "@);
        if a.len() > 0 {
            assert((p.name + " extends "@ + between(java_texts(a), " & "@)) + " & "@ + x.java() =~= p.name + " extends "@ + (
            between(java_texts(a), " & "@) + " & "@ + x.java()));
        }
    }
}

/// A class bound and one interface bound.
pub proof fn law_two_bounds(name: Seq<char>, c: GType, i: GType)
    requires
        !signature::is_object(c),
    ensures
        signature::param_text(TParam { name, class_bound: Some(c), interface_bounds: seq![i] }, 1) == name + " extends "@
            + c.java() + " & "@ + i.java(),
{
    let p = TParam { name, class_bound: Some(c), interface_bounds: seq![i] };
    reveal_strlit(" & ");
    law_param_text(p);
    let t = java_texts(printed_bounds(p));
    assert(t =~= seq![c.java(), i.java()]);
    assert(t.skip(1) =~= seq![i.java()]);
    assert(between(t.skip(1), seq![' ', '&', ' ']) == i.java());
    assert(" & "@ =~= seq![' ', '&', ' ']);
    assert(name + " extends "@ + (c.java() + " & "@ + i.java()) =~= name + " extends "@ + c.java() + " & "@ + i.java());
}

/// A class bound and two interface bounds.
pub proof fn law_three_bounds(name: Seq<char>, c: GType, i: GType, j: GType)
    requires
        !signature::is_object(c),
    ensures
        signature::param_text(TParam { name, class_bound: Some(c), interface_bounds: seq![i, j] }, 2) == name + " extends "@
            + c.java() + " & "@ + i.java() + " & "@ + j.java(),
{
    let p = TParam { name, class_bound: Some(c), interface_bounds: seq![i, j] };
    reveal_strlit(" & ");
    law_param_text(p);
    let t = java_texts(printed_bounds(p));
    let amp = seq![' ', '&', ' '];
    assert(t =~= seq![c.java(), i.java(), j.java()]);
    assert(t.skip(1) =~= seq![i.java(), j.java()]);
    assert(t.skip(1).skip(1) =~= seq![j.java()]);
    assert(between(t.skip(1).skip(1), amp) == j.java());
    assert(between(t.skip(1), amp) == i.java() + amp + j.java());
    assert(" & "@ =~= amp);
    assert(name + " extends "@ + (c.java() + amp + (i.java() + amp + j.java())) =~= name + " extends "@ + c.java() + amp
        + i.java() + amp + j.java());
}

/// The text of each parameter.
pub open spec fn param_texts(ps: Seq<TParam>) -> Seq<Seq<char>> {
    Seq::new(ps.len(), |i: int| signature::param_text(ps[i], ps[i].interface_bounds.len()))
}

/// The parameters stand in angle brackets, separated by commas; without
/// parameters nothing is printed.
pub proof fn law_params_text(ps: Seq<TParam>)
    ensures
        signature::type_params_text(ps) == (if ps.len() == 0 {
            Seq::empty()
        } else {
            seq!['<'] + between(param_texts(ps), seq![',', ' ']) + seq!['>']
        }),
{
    reveal_strlit(", ");
    assert(", "@ =~= seq![',', ' ']);
    lemma_params_upto(ps, ps.len());
    assert(ps.take(ps.len() as int) =~= ps);
}

proof fn lemma_params_upto(ps: Seq<TParam>, k: nat)
    requires
        k <= ps.len(),
    ensures
        signature::params_text(ps, k) == between(param_texts(ps.take(k as int)), ", "@),
    decreases k,
{
    if k > 0 {
        let j = (k - 1) as nat;
        lemma_params_upto(ps, j);
        let a = param_texts(ps.take(j as int));
        let x = signature::param_text(ps[k - 1], ps[k - 1].interface_bounds.len());
        assert(param_texts(ps.take(k as int)) =~= a.push(x));
        lemma_between_push(a, x, ", "@);
        if j == 0 {
            assert(signature::params_text(ps, j) + Seq::<char>::empty() + x =~= x);
        }
    }
}

// -- whole signatures ----------------------------------------------------------------

proof fn lemma_list_upto(ts: Seq<GType>, sep: Seq<char>, k: nat)
    requires
        k <= ts.len(),
    ensures
        signature::list_text(ts, sep, k) == between(java_texts(ts.take(k as int)), sep),
    decreases k,
{
    if k > 0 {
        let j = (k - 1) as nat;
        lemma_list_upto(ts, sep, j);
        let a = java_texts(ts.take(j as int));
        let x = ts[k - 1].java();
        assert(java_texts(ts.take(k as int)) =~= a.push(x));
        lemma_between_push(a, x, sep);
        if j == 0 {
            assert(signature::list_text(ts, sep, j) + Seq::<char>::empty() + x =~= x);
        }
    }
}

/// A method's text: its type parameters, the argument types in parentheses,
/// separated by commas, and the return type.
pub proof fn law_method_text(m: MSignature)
    ensures
        m.java() == signature::type_params_text(m.params) + seq!['('] + between(java_texts(m.args), seq![',', ' ']) + seq![')']
            + m.ret.java(),
{
    reveal_strlit(", ");
    assert(", "@ =~= seq![',', ' ']);
    lemma_list_upto(m.args, ", "@, m.args.len());
    assert(m.args.take(m.args.len() as int) =~= m.args);
}

/// A class's text: its type parameters, then the superclass and the
/// interfaces joined by plus signs.
pub proof fn law_class_text(c: CSignature)
    ensures
        c.java() == signature::type_params_text(c.params) + between(
            java_texts(seq![c.superclass] + c.interfaces),
            seq![' ', '+', ' '],
        ),
{
    reveal_strlit(" + ");
    assert(" + "@ =~= seq![' ', '+', ' ']);
    let n = c.interfaces.len();
    lemma_plus_upto(c.superclass, c.interfaces, n);
    assert(c.interfaces.take(n as int) =~= c.interfaces);
    assert(signature::type_params_text(c.params) + c.superclass.java() + signature::plus_text(c.interfaces, n)
        =~= signature::type_params_text(c.params) + (c.superclass.java() + signature::plus_text(c.interfaces, n)));
}

proof fn lemma_plus_upto(first: GType, ts: Seq<GType>, k: nat)
    requires
        k <= ts.len(),
    ensures
        first.java() + signature::plus_text(ts, k) == between(java_texts(seq![first] + ts.take(k as int)), " + "@),
    decreases k,
{
    if k == 0 {
        let v = java_texts(seq![first] + ts.take(0));
        assert(v =~= seq![first.java()]);
        assert(first.java() + signature::plus_text(ts, 0) =~= first.java());
    } else {
        let j = (k - 1) as nat;
        lemma_plus_upto(first, ts, j);
        let a = java_texts(seq![first] + ts.take(j as int));
        let x = ts[k - 1].java();
        assert(java_texts(seq![first] + ts.take(k as int)) =~= a.push(x));
        lemma_between_push(a, x, " + "@);
        assert(first.java() + (signature::plus_text(ts, j) + " + "@ + x) =~= (first.java() + signature::plus_text(ts, j))
            + " + "@ + x);
    }
}

// -- types -----------------------------------------------------------------------------

/// An array is its element and a pair of brackets; a wildcard is a question
/// mark, and its bound stands behind `extends` or `super`; a variable is its
/// name.
pub proof fn law_built_types(t: GType, n: Seq<char>)
    ensures
        GType::Array(Box::new(t)).java() == t.java() + seq!['[', ']'],
        GType::Any.java() == seq!['?'],
        GType::Extends(Box::new(t)).java() == GType::Any.java() + " extends "@ + t.java(),
        GType::Super(Box::new(t)).java() == GType::Any.java() + " super "@ + t.java(),
        GType::TypeVar(n).java() == n,
{
    reveal_strlit("[]");
    reveal_strlit("?");
    reveal_strlit("? extends ");
    reveal_strlit("? super ");
    reveal_strlit(" extends ");
    reveal_strlit(" super ");
    assert("[]"@ =~= seq!['[', ']']);
    assert("?"@ =~= seq!['?']);
    assert("? extends "@ =~= "?"@ + " extends "@);
    assert("? super "@ =~= "?"@ + " super "@);
}

/// A primitive reads the same in a signature as in a descriptor.
pub proof fn law_same_primitive(t: JType, q: bool)
    requires
        t.letter() is Some,
    ensures
        GType::Primitive(t.letter()->0).java() == t.java(q),
{
}

/// No two primitives, and no primitive and `void`, have the same Java name.
pub proof fn law_primitives_differ(t: JType, u: JType, q: bool)
    requires
        t.letter() is Some,
        u.letter() is Some,
        t.java(q) == u.java(q),
    ensures
        t == u,
{
    reveal_strlit("void");
    reveal_strlit("boolean");
    reveal_strlit("byte");
    reveal_strlit("char");
    reveal_strlit("short");
    reveal_strlit("int");
    reveal_strlit("float");
    reveal_strlit("long");
    reveal_strlit("double");
    assert("void"@[0] == 'v' && "boolean"@[1] == 'o' && "byte"@[1] == 'y' && "char"@[0] == 'c' && "short"@[0] == 's');
    assert("int"@[0] == 'i' && "float"@[0] == 'f' && "long"@[0] == 'l' && "double"@[0] == 'd' && "boolean"@[0] == 'b'
        && "byte"@[0] == 'b');
}

/// The arguments of a class type stand behind its name in angle brackets,
/// separated by commas.
pub proof fn law_args_text(p: CPart)
    ensures
        p.java_args(p.args.len()) == between(java_texts(p.args), seq![',', ' ']),
{
    reveal_strlit(", ");
    assert(", "@ =~= seq![',', ' ']);
    lemma_args_upto(p, p.args.len());
    assert(p.args.take(p.args.len() as int) =~= p.args);
}

proof fn lemma_args_upto(p: CPart, k: nat)
    requires
        k <= p.args.len(),
    ensures
        p.java_args(k) == between(java_texts(p.args.take(k as int)), ", "@),
    decreases k,
{
    if k > 0 {
        let j = (k - 1) as nat;
        lemma_args_upto(p, j);
        let a = java_texts(p.args.take(j as int));
        let x = p.args[k - 1].java();
        assert(java_texts(p.args.take(k as int)) =~= a.push(x));
        lemma_between_push(a, x, ", "@);
        assert(p.java_args(k) == (if k > 1 {
            p.java_args(j) + ", "@
        } else {
            Seq::empty()
        }) + p.args[k - 1].java());
        if j == 0 {
            assert(Seq::<char>::empty() + x =~= x);
        }
    }
}

/// The part is written out: neither a local class nor a literal dollar.
pub open spec fn written_out(p: CPart) -> bool {
    let segs = text::split(p.name, '$');
    !(segs.len() > 1 && descriptor::is_local(segs.last())) && !signature::literal_dollar(segs)
}

/// The name with dots for dollars, and the arguments if there are any.
pub open spec fn part_text(p: CPart) -> Seq<char> {
    text::replace(p.name, '$', '.') + (if p.args.len() > 0 {
        seq!['<'] + between(java_texts(p.args), seq![',', ' ']) + seq!['>']
    } else {
        Seq::empty()
    })
}

pub open spec fn part_texts(ps: Seq<CPart>) -> Seq<Seq<char>> {
    Seq::new(ps.len(), |i: int| part_text(ps[i]))
}

/// A class type is its package and its parts, all separated by dots.
pub proof fn law_class_type_text(c: CSig)
    requires
        c.parts.len() > 0,
        forall|i: int| 0 <= i < c.parts.len() ==> written_out(#[trigger] c.parts[i]),
    ensures
        GType::Class(c).java() == (if c.package.len() > 0 {
            text::replace(c.package, '/', '.') + seq!['.']
        } else {
            Seq::empty()
        }) + between(part_texts(c.parts), seq!['.']),
{
    lemma_class_upto(c, c.parts.len());
    assert(c.parts.take(c.parts.len() as int) =~= c.parts);
    assert(text::replace(c.package, '/', '.').push('.') =~= text::replace(c.package, '/', '.') + seq!['.']);
}

proof fn lemma_class_upto(c: CSig, k: nat)
    requires
        k <= c.parts.len(),
        forall|i: int| 0 <= i < c.parts.len() ==> written_out(#[trigger] c.parts[i]),
    ensures
        c.java_parts(k) == c.java_parts(0) + between(part_texts(c.parts.take(k as int)), seq!['.']),
    decreases k,
{
    if k == 0 {
        assert(c.java_parts(0) + between(part_texts(c.parts.take(0)), seq!['.']) =~= c.java_parts(0));
    } else {
        let j = (k - 1) as nat;
        lemma_class_upto(c, j);
        let p = c.parts[k - 1];
        let a = part_texts(c.parts.take(j as int));
        assert(part_texts(c.parts.take(k as int)) =~= a.push(part_text(p)));
        lemma_between_push(a, part_text(p), seq!['.']);
        law_args_text(p);
        assert(written_out(p));
        let base = c.java_parts(0);
        let mid = between(a, seq!['.']);
        if k > 1 {
            assert(c.java_parts(k) =~= c.java_parts(j).push('.') + part_text(p));
            assert((base + mid).push('.') + part_text(p) =~= base + (mid + seq!['.'] + part_text(p)));
        } else {
            assert(c.java_parts(k) =~= c.java_parts(j) + part_text(p));
            assert(base + mid =~= base);
        }
    }
}

/// A local class stands alone, without digits and without what encloses it.
pub proof fn law_local_class_text(c: CSig)
    requires
        c.parts.len() > 0,
        text::split(c.parts.last().name, '$').len() > 1,
        descriptor::is_local(text::split(c.parts.last().name, '$').last()),
    ensures
        GType::Class(c).java() == text::strip_digits(text::split(c.parts.last().name, '$').last()),
{
    let n = c.parts.len();
    assert(c.java_parts(n) == text::strip_digits(text::split(c.parts[n - 1].name, '$').last()));
}

/// The internal name: the package, a slash, and the names joined by dollars.
pub proof fn law_internal_name(c: CSig)
    ensures
        c.internal() == (if c.package.len() > 0 {
            c.package + seq!['/']
        } else {
            Seq::empty()
        }) + between(Seq::new(c.parts.len(), |i: int| c.parts[i].name), seq!['$']),
{
    lemma_internal_upto(c, c.parts.len());
    assert(c.parts.take(c.parts.len() as int) =~= c.parts);
    assert(c.package.push('/') =~= c.package + seq!['/']);
}

proof fn lemma_internal_upto(c: CSig, k: nat)
    requires
        k <= c.parts.len(),
    ensures
        c.internal_parts(k) == c.internal_parts(0) + between(Seq::new(k, |i: int| c.parts[i].name), seq!['$']),
    decreases k,
{
    let v = Seq::new(k, |i: int| c.parts[i].name);
    let base = c.internal_parts(0);
    if k == 0 {
        assert(base + between(v, seq!['$']) =~= base);
    } else {
        let j = (k - 1) as nat;
        lemma_internal_upto(c, j);
        let a = Seq::new(j, |i: int| c.parts[i].name);
        let x = c.parts[k - 1].name;
        assert(v =~= a.push(x));
        lemma_between_push(a, x, seq!['$']);
        let mid = between(a, seq!['$']);
        if k > 1 {
            assert((base + mid).push('$') + x =~= base + (mid + seq!['$'] + x));
        } else {
            assert(base + mid =~= base);
        }
    }
}

// -- names -------------------------------------------------------------------------------

/// The pieces hold no separator, and with separators between them they are
/// the text again.
pub proof fn law_split(s: Seq<char>, sep: char)
    ensures
        text::split(s, sep).len() > 0,
        between(text::split(s, sep), seq![sep]) == s,
        forall|k: int| 0 <= k < text::split(s, sep).len() ==> !(#[trigger] text::split(s, sep)[k]).contains(sep),
    decreases s.len(),
{
    let all = text::split(s, sep);
    if s.len() == 0 {
        assert(between(all, seq![sep]) =~= s);
    } else {
        let d = s.drop_last();
        law_split(d, sep);
        let p = text::split(d, sep);
        assert(s =~= d.push(s.last()));
        let front = p.drop_last();
        assert(p =~= front.push(p.last()));
        lemma_between_push(front, p.last(), seq![sep]);
        if s.last() == sep {
            lemma_between_push(p, Seq::empty(), seq![sep]);
            assert(d + seq![sep] + Seq::<char>::empty() =~= s);
        } else {
            let last = p.last().push(s.last());
            assert(all =~= front.push(last));
            lemma_between_push(front, last, seq![sep]);
            if front.len() == 0 {
                assert(d == p.last());
            } else {
                let mid = between(front, seq![sep]) + seq![sep];
                assert(mid + last =~= (mid + p.last()).push(s.last()));
            }
            assert forall|k: int| 0 <= k < all.len() implies !(#[trigger] all[k]).contains(sep) by {
                if k == all.len() - 1 {
                    assert(!p[p.len() - 1].contains(sep));
                    if last.contains(sep) {
                        let i = choose|i: int| 0 <= i < last.len() && last[i] == sep;
                        assert(p.last()[i] == sep);
                    }
                } else {
                    assert(all[k] == p[k]);
                }
            }
        }
    }
}

/// Only digits are stripped, all that lead.
pub proof fn law_strip_digits(s: Seq<char>)
    ensures
        ({
            let r = text::strip_digits(s);
            let n = s.len() - r.len();
            &&& 0 <= n
            &&& r == s.skip(n)
            &&& forall|i: int| 0 <= i < n ==> '0' <= #[trigger] s[i] <= '9'
            &&& r.len() > 0 ==> !('0' <= r[0] <= '9')
        }),
    decreases s.len(),
{
    let r = text::strip_digits(s);
    let n = s.len() - r.len();
    if s.len() > 0 && text::is_digit(s[0]) {
        let u = s.skip(1);
        law_strip_digits(u);
        assert(u.skip(n - 1) =~= s.skip(n));
        assert forall|i: int| 0 <= i < n implies '0' <= #[trigger] s[i] <= '9' by {
            if i > 0 {
                assert(u[i - 1] == s[i]);
            }
        }
    } else {
        assert(s.skip(0) =~= s);
    }
}

/// The last separator parts a text in two: neither it nor any other stands in
/// the second half.
pub proof fn law_last_separator(s: Seq<char>, sep: char)
    ensures
        !text::after_last(s, sep).contains(sep),
        s.contains(sep) ==> s == text::before_last(s, sep) + seq![sep] + text::after_last(s, sep),
        !s.contains(sep) ==> text::after_last(s, sep) == s && text::before_last(s, sep).len() == 0,
    decreases s.len(),
{
    if s.len() > 0 {
        let d = s.drop_last();
        law_last_separator(d, sep);
        assert(s =~= d.push(s.last()));
        if s.last() == sep {
            assert(s[s.len() - 1] == sep);
            assert(s =~= d + seq![sep] + Seq::<char>::empty());
        } else {
            let a = text::after_last(d, sep);
            assert(s.contains(sep) == d.contains(sep)) by {
                if s.contains(sep) {
                    let i = choose|i: int| 0 <= i < s.len() && s[i] == sep;
                    assert(d[i] == sep);
                }
                if d.contains(sep) {
                    let i = choose|i: int| 0 <= i < d.len() && d[i] == sep;
                    assert(s[i] == sep);
                }
            }
            assert(!a.push(s.last()).contains(sep)) by {
                if a.push(s.last()).contains(sep) {
                    let i = choose|i: int| 0 <= i < a.push(s.last()).len() && a.push(s.last())[i] == sep;
                    assert(a[i] == sep);
                }
            }
            if d.contains(sep) {
                assert((text::before_last(d, sep) + seq![sep] + a).push(s.last()) =~= text::before_last(d, sep) + seq![sep]
                    + a.push(s.last()));
            }
        }
    }
}

/// Dots for slashes and dollars.
pub open spec fn dots(s: Seq<char>) -> Seq<char> {
    Seq::new(
        s.len(),
        |i: int|
            if s[i] == '/' || s[i] == '$' {
                '.'
            } else {
                s[i]
            },
    )
}

/// Every segment behind a dollar in the last part of the name is an ordinary
/// name: not empty, and not that of a local class.
pub open spec fn ordinary(s: Seq<char>) -> bool {
    let segs = text::split(text::after_last(s, '/'), '$');
    forall|k: int| 1 <= k < segs.len() ==> (#[trigger] segs[k]).len() > 0 && !descriptor::is_local(segs[k])
}

proof fn lemma_not_forced(simple: Seq<char>, segs: Seq<Seq<char>>, k: nat)
    requires
        forall|j: int| k <= j < segs.len() ==> (#[trigger] segs[j]).len() > 0 && !descriptor::is_local(segs[j]),
    ensures
        descriptor::forced(simple, segs, k) is None,
    decreases segs.len() - k,
{
    if k < segs.len() {
        assert(segs[k as int].len() > 0);
        lemma_not_forced(simple, segs, k + 1);
    }
}

/// A qualified source name is the binary name with dots for its slashes and
/// dollars. The package of such a name holds no dollar.
pub proof fn law_qualified_name(s: Seq<char>)
    requires
        ordinary(s),
        !text::before_last(s, '/').contains('$'),
        s.contains('/') ==> text::before_last(s, '/').len() > 0,
    ensures
        descriptor::java_name(s, true) == dots(s),
{
    let pkg = text::before_last(s, '/');
    let simple = text::after_last(s, '/');
    lemma_not_forced(simple, text::split(simple, '$'), 1);
    law_last_separator(s, '/');
    let tail = text::replace(simple, '$', '.');
    assert forall|i: int| 0 <= i < simple.len() implies simple[i] != '/' by {
        if simple[i] == '/' {
            assert(simple.contains('/'));
        }
    }
    assert forall|i: int| 0 <= i < pkg.len() implies pkg[i] != '$' by {
        if pkg[i] == '$' {
            assert(pkg.contains('$'));
        }
    }
    if s.contains('/') {
        assert(text::replace(pkg, '/', '.').push('.') + tail =~= dots(s));
    } else {
        assert(Seq::<char>::empty() + tail =~= dots(s));
    }
}

/// An unqualified name is what follows the last slash; of a local class, what
/// follows the digits behind the last dollar.
pub proof fn law_flat_name(s: Seq<char>)
    ensures
        !descriptor::java_name(s, false).contains('/'),
        ({
            let seg = text::after_last(text::after_last(s, '/'), '$');
            descriptor::java_name(s, false) == (if seg.len() > 0 && '0' <= seg[0] <= '9' && text::strip_digits(seg).len() > 0 {
                text::strip_digits(seg)
            } else {
                text::after_last(s, '/')
            })
        }),
{
    let tail = text::after_last(s, '/');
    let seg = text::after_last(tail, '$');
    law_last_separator(s, '/');
    law_last_separator(tail, '$');
    law_strip_digits(seg);
    if descriptor::is_local(seg) {
        let r = text::strip_digits(seg);
        if r.contains('/') {
            let i = choose|i: int| 0 <= i < r.len() && r[i] == '/';
            let n = seg.len() - r.len();
            assert(seg[n + i] == '/');
            let m = tail.len() - seg.len();
            assert(tail[m + n + i] == '/');
            assert(tail.contains('/'));
        }
    }
}

// -- kinds of types ------------------------------------------------------------------------

/// Every type is void, a primitive or a reference, and one of these only. All
/// primitives but the boolean are numeric; all numeric ones but the two
/// floating-point types are whole. The wide ones are the long and the double.
pub proof fn law_kinds(t: JType)
    ensures
        t.primitive() <==> t.letter() is Some && t != JType::Void,
        t.reference() <==> t.letter() is None,
        !(t.primitive() && t.reference()),
        t.numeric() <==> t.primitive() && t != JType::Boolean,
        t.integral() <==> t.numeric() && t != JType::Float && t != JType::Double,
        t.wide() <==> t.letter() == Some('J') || t.letter() == Some('D'),
        t.wide() ==> t.numeric(),
{
}

/// A wide type takes two slots, void none, any other one. The slots of a list
/// add up, and no list of types takes fewer slots than it has values.
pub proof fn law_slots(t: JType, a: Seq<JType>, b: Seq<JType>)
    ensures
        t.slots() == 2 <==> t.wide(),
        t.slots() == 0 <==> t == JType::Void,
        t.slots() <= 2,
        descriptor::slot_sum(seq![t]) == t.slots(),
        descriptor::slot_sum(a + b) == descriptor::slot_sum(a) + descriptor::slot_sum(b),
    decreases b.len(),
{
    assert(seq![t].drop_last() =~= Seq::empty());
    assert(descriptor::slot_sum(seq![t].drop_last()) == 0);
    if b.len() == 0 {
        assert(a + b =~= a);
    } else {
        law_slots(t, a, b.drop_last());
        assert((a + b).drop_last() =~= a + b.drop_last());
        assert((a + b).last() == b.last());
    }
}

} // verus!
