//! Generic signature parsing (JVMS 4.7.9.1): class, method and field signatures.

use vstd::prelude::*;

use crate::text;
use crate::types::descriptor;

verus! {

/// A type appearing inside a generic signature.
#[derive(Debug, PartialEq)]
pub enum GenericType {
    /// Base (primitive) type.
    Primitive(char),
    /// Class type signature, possibly with type arguments and `.`-nesting.
    Class(ClassSig),
    Array(Box<GenericType>),
    /// Type variable reference `Tname;`.
    TypeVar(String),
    /// Type argument wildcard: `*`, `+T`, `-T`.
    Wildcard(WildcardBound),
}

#[derive(Debug, Clone, PartialEq)]
pub enum WildcardBound {
    Any,
    Extends(Box<GenericType>),
    Super(Box<GenericType>),
}

/// A class type signature: `Ljava/util/Map<K, V>.Entry<X>;` becomes parts
/// `[Map<K,V>, Entry<X>]` with package `java/util`.
#[derive(Debug, Clone, PartialEq)]
pub struct ClassSig {
    pub package: String,
    pub parts: Vec<ClassSigPart>,
}

#[derive(Debug, Clone, PartialEq)]
pub struct ClassSigPart {
    pub name: String,
    pub args: Vec<GenericType>,
}

#[derive(Debug, Clone, PartialEq)]
pub struct TypeParam {
    pub name: String,
    pub class_bound: Option<GenericType>,
    pub interface_bounds: Vec<GenericType>,
}

#[derive(Debug, Clone, PartialEq)]
pub struct ClassSignature {
    pub params: Vec<TypeParam>,
    pub superclass: GenericType,
    pub interfaces: Vec<GenericType>,
}

#[derive(Debug, Clone, PartialEq)]
pub struct MethodSignature {
    pub params: Vec<TypeParam>,
    pub args: Vec<GenericType>,
    pub ret: GenericType,
    pub throws: Vec<GenericType>,
}

// ---------------------------------------------------------------------------
// Model
// ---------------------------------------------------------------------------

/// What a generic type is, with names as character sequences.
#[verifier::ext_equal]
pub enum GType {
    Primitive(char),
    Class(CSig),
    Array(Box<GType>),
    TypeVar(Seq<char>),
    Any,
    Extends(Box<GType>),
    Super(Box<GType>),
}

#[verifier::ext_equal]
pub struct CSig {
    pub package: Seq<char>,
    pub parts: Seq<CPart>,
}

#[verifier::ext_equal]
pub struct CPart {
    pub name: Seq<char>,
    pub args: Seq<GType>,
}

#[verifier::ext_equal]
pub struct TParam {
    pub name: Seq<char>,
    pub class_bound: Option<GType>,
    pub interface_bounds: Seq<GType>,
}

#[verifier::ext_equal]
pub struct CSignature {
    pub params: Seq<TParam>,
    pub superclass: GType,
    pub interfaces: Seq<GType>,
}

#[verifier::ext_equal]
pub struct MSignature {
    pub params: Seq<TParam>,
    pub args: Seq<GType>,
    pub ret: GType,
    pub throws: Seq<GType>,
}

impl GenericType {
    pub open spec fn view(self) -> GType
        decreases self,
    {
        match self {
            GenericType::Primitive(c) => GType::Primitive(c),
            GenericType::Class(cs) => GType::Class(cs.view()),
            GenericType::Array(t) => GType::Array(Box::new(t.view())),
            GenericType::TypeVar(n) => GType::TypeVar(n@),
            GenericType::Wildcard(w) => match w {
                WildcardBound::Any => GType::Any,
                WildcardBound::Extends(t) => GType::Extends(Box::new(t.view())),
                WildcardBound::Super(t) => GType::Super(Box::new(t.view())),
            },
        }
    }
}

impl ClassSig {
    pub open spec fn view(self) -> CSig
        decreases self,
    {
        CSig {
            package: self.package@,
            parts: Seq::new(
                self.parts@.len(),
                |i: int|
                    if 0 <= i < self.parts@.len() {
                        self.parts@[i].view()
                    } else {
                        arbitrary()
                    },
            ),
        }
    }
}

impl ClassSigPart {
    pub open spec fn view(self) -> CPart
        decreases self,
    {
        CPart {
            name: self.name@,
            args: Seq::new(
                self.args@.len(),
                |i: int|
                    if 0 <= i < self.args@.len() {
                        self.args@[i].view()
                    } else {
                        arbitrary()
                    },
            ),
        }
    }
}

/// The model of a list of generic types.
pub open spec fn generics(v: Seq<GenericType>) -> Seq<GType> {
    Seq::new(
        v.len(),
        |i: int|
            if 0 <= i < v.len() {
                v[i].view()
            } else {
                arbitrary()
            },
    )
}

/// The model of a list of signature parts.
pub open spec fn parts_view(v: Seq<ClassSigPart>) -> Seq<CPart> {
    Seq::new(
        v.len(),
        |i: int|
            if 0 <= i < v.len() {
                v[i].view()
            } else {
                arbitrary()
            },
    )
}

pub proof fn lemma_part_view(p: ClassSigPart)
    ensures
        p.view() == (CPart { name: p.name@, args: generics(p.args@) }),
{
    assert(p.view().args =~= generics(p.args@));
}

pub proof fn lemma_sig_view(s: ClassSig)
    ensures
        s.view() == (CSig { package: s.package@, parts: parts_view(s.parts@) }),
{
    assert(s.view().parts =~= parts_view(s.parts@));
}

impl TypeParam {
    pub open spec fn view(self) -> TParam {
        TParam {
            name: self.name@,
            class_bound: match self.class_bound {
                Some(t) => Some(t.view()),
                None => None,
            },
            interface_bounds: generics(self.interface_bounds@),
        }
    }
}

pub open spec fn params_view(v: Seq<TypeParam>) -> Seq<TParam> {
    Seq::new(v.len(), |i: int| v[i].view())
}

impl ClassSignature {
    pub open spec fn view(self) -> CSignature {
        CSignature {
            params: params_view(self.params@),
            superclass: self.superclass.view(),
            interfaces: generics(self.interfaces@),
        }
    }
}

impl MethodSignature {
    pub open spec fn view(self) -> MSignature {
        MSignature {
            params: params_view(self.params@),
            args: generics(self.args@),
            ret: self.ret.view(),
            throws: generics(self.throws@),
        }
    }
}

// ---------------------------------------------------------------------------
// Rendering
// ---------------------------------------------------------------------------

pub open spec fn prim_text(c: char) -> Seq<char> {
    if c == 'V' {
        "void"@
    } else if c == 'Z' {
        "boolean"@
    } else if c == 'B' {
        "byte"@
    } else if c == 'C' {
        "char"@
    } else if c == 'S' {
        "short"@
    } else if c == 'I' {
        "int"@
    } else if c == 'F' {
        "float"@
    } else if c == 'J' {
        "long"@
    } else if c == 'D' {
        "double"@
    } else {
        "?"@
    }
}

impl GType {
    /// The type in Java source, with fully qualified class names.
    pub open spec fn java(self) -> Seq<char>
        decreases self, 0int,
    {
        match self {
            GType::Primitive(c) => prim_text(c),
            GType::Class(cs) => cs.java_parts(cs.parts.len()),
            GType::Array(t) => t.java() + "[]"@,
            GType::TypeVar(n) => n,
            GType::Any => "?"@,
            GType::Extends(t) => "? extends "@ + t.java(),
            GType::Super(t) => "? super "@ + t.java(),
        }
    }
}

/// The position of an empty segment behind the first.
pub open spec fn literal_dollar(segs: Seq<Seq<char>>) -> bool {
    exists|k: int| 1 <= k < segs.len() && (#[trigger] segs[k]).len() == 0
}

impl CSig {
    /// The first `k` parts in Java source. Nested-class references use the
    /// binary `$` separator, which becomes `.`; a local class (`Outer$1Name`)
    /// stands alone without its digits, and so does a literal-`$` name.
    pub open spec fn java_parts(self, k: nat) -> Seq<char>
        decreases self, k,
    {
        if k == 0 || k > self.parts.len() {
            if self.package.len() == 0 {
                Seq::empty()
            } else {
                text::replace(self.package, '/', '.').push('.')
            }
        } else {
            let before = self.java_parts((k - 1) as nat);
            let p = self.parts[k - 1];
            let segs = text::split(p.name, '$');
            if segs.len() > 1 && descriptor::is_local(segs.last()) {
                text::strip_digits(segs.last())
            } else if literal_dollar(segs) {
                p.name
            } else {
                (if k > 1 {
                    before.push('.')
                } else {
                    before
                }) + text::replace(p.name, '$', '.') + (if p.args.len() > 0 {
                    seq!['<'] + p.java_args(p.args.len()) + seq!['>']
                } else {
                    Seq::empty()
                })
            }
        }
    }

    pub open spec fn java(self) -> Seq<char> {
        self.java_parts(self.parts.len())
    }

    /// The names of the first `k` parts joined with `$`, behind the package.
    pub open spec fn internal_parts(self, k: nat) -> Seq<char>
        decreases k,
    {
        if k == 0 {
            if self.package.len() == 0 {
                Seq::empty()
            } else {
                self.package.push('/')
            }
        } else {
            (if k > 1 {
                self.internal_parts((k - 1) as nat).push('$')
            } else {
                self.internal_parts((k - 1) as nat)
            }) + self.parts[k - 1].name
        }
    }

    pub open spec fn internal(self) -> Seq<char> {
        self.internal_parts(self.parts.len())
    }
}

impl CPart {
    /// The first `k` arguments in Java source, separated by commas.
    pub open spec fn java_args(self, k: nat) -> Seq<char>
        decreases self, k,
    {
        if k == 0 || k > self.args.len() {
            Seq::empty()
        } else {
            (if k > 1 {
                self.java_args((k - 1) as nat) + ", "@
            } else {
                Seq::empty()
            }) + self.args[k - 1].java()
        }
    }
}

/// `java.lang.Object` without arguments.
pub open spec fn is_object(t: GType) -> bool {
    t matches GType::Class(cs) && cs.package == "java/lang"@ && cs.parts.len() == 1 && cs.parts[0].name
        == "Object"@ && cs.parts[0].args.len() == 0
}

/// A type parameter with its first `k` interface bounds.
pub open spec fn param_text(p: TParam, k: nat) -> Seq<char>
    decreases k,
{
    let bounded = p.class_bound is Some && !is_object(p.class_bound->0);
    if k == 0 {
        p.name + (if bounded {
            " extends "@ + (p.class_bound->0).java()
        } else {
            Seq::empty()
        })
    } else {
        param_text(p, (k - 1) as nat) + (if !bounded && k == 1 {
            " extends "@
        } else {
            " & "@
        }) + p.interface_bounds[k - 1].java()
    }
}

/// The first `k` type parameters, separated by commas.
pub open spec fn params_text(ps: Seq<TParam>, k: nat) -> Seq<char>
    decreases k,
{
    if k == 0 {
        Seq::empty()
    } else {
        params_text(ps, (k - 1) as nat) + (if k > 1 {
            ", "@
        } else {
            Seq::empty()
        }) + param_text(ps[k - 1], ps[k - 1].interface_bounds.len())
    }
}

/// The type parameter list in angle brackets; nothing when it is empty.
pub open spec fn type_params_text(ps: Seq<TParam>) -> Seq<char> {
    if ps.len() == 0 {
        Seq::empty()
    } else {
        seq!['<'] + params_text(ps, ps.len()) + seq!['>']
    }
}

/// The first `k` types, each but the first behind `sep`.
pub open spec fn list_text(ts: Seq<GType>, sep: Seq<char>, k: nat) -> Seq<char>
    decreases k,
{
    if k == 0 {
        Seq::empty()
    } else {
        list_text(ts, sep, (k - 1) as nat) + (if k > 1 {
            sep
        } else {
            Seq::empty()
        }) + ts[k - 1].java()
    }
}

/// The first `k` types, each behind a plus sign.
pub open spec fn plus_text(ts: Seq<GType>, k: nat) -> Seq<char>
    decreases k,
{
    if k == 0 {
        Seq::empty()
    } else {
        plus_text(ts, (k - 1) as nat) + " + "@ + ts[k - 1].java()
    }
}

impl CSignature {
    pub open spec fn java(self) -> Seq<char> {
        type_params_text(self.params) + self.superclass.java() + plus_text(self.interfaces, self.interfaces.len())
    }
}

impl MSignature {
    pub open spec fn java(self) -> Seq<char> {
        type_params_text(self.params) + seq!['('] + list_text(self.args, ", "@, self.args.len()) + seq![')']
            + self.ret.java()
    }
}

fn prim_name(c: char) -> (r: &'static str)
    ensures
        r@ == prim_text(c),
{
    if c == 'V' {
        "void"
    } else if c == 'Z' {
        "boolean"
    } else if c == 'B' {
        "byte"
    } else if c == 'C' {
        "char"
    } else if c == 'S' {
        "short"
    } else if c == 'I' {
        "int"
    } else if c == 'F' {
        "float"
    } else if c == 'J' {
        "long"
    } else if c == 'D' {
        "double"
    } else {
        "?"
    }
}

impl GenericType {
    fn java_onto(&self, out: &mut Vec<char>)
        ensures
            final(out)@ == old(out)@ + self.view().java(),
        decreases self, 0int,
    {
        let ghost o = out@;
        match self {
            GenericType::Primitive(c) => text::append_str(out, prim_name(*c)),
            GenericType::Class(cs) => {
                let v = cs.java_chars();
                text::append(out, &v);
            },
            GenericType::Array(t) => {
                t.java_onto(out);
                text::append_str(out, "[]");
                assert(o + t.view().java() + "[]"@ =~= o + (t.view().java() + "[]"@));
            },
            GenericType::TypeVar(n) => text::append_str(out, n.as_str()),
            GenericType::Wildcard(w) => match w {
                WildcardBound::Any => text::append_str(out, "?"),
                WildcardBound::Extends(t) => {
                    text::append_str(out, "? extends ");
                    t.java_onto(out);
                    assert(o + "? extends "@ + t.view().java() =~= o + ("? extends "@ + t.view().java()));
                },
                WildcardBound::Super(t) => {
                    text::append_str(out, "? super ");
                    t.java_onto(out);
                    assert(o + "? super "@ + t.view().java() =~= o + ("? super "@ + t.view().java()));
                },
            },
        }
    }

    /// Render as Java source (fully qualified class names).
    pub fn to_java(&self) -> (r: String)
        ensures
            r@ == self.view().java(),
    {
        let mut out: Vec<char> = Vec::new();
        self.java_onto(&mut out);
        assert(out@ =~= self.view().java());
        text::to_text(&out)
    }

    /// If this is a plain class reference (no type arguments), its internal name.
    pub fn as_internal_name(&self) -> (r: Option<String>)
        ensures
            r is Some <==> (self.view() matches GType::Class(cs) && forall|k: int|
                0 <= k < cs.parts.len() ==> (#[trigger] cs.parts[k]).args.len() == 0),
            r matches Some(s) ==> s@ == (self.view()->Class_0).internal(),
    {
        match self {
            GenericType::Class(cs) => {
                let mut k: usize = 0;
                proof {
                    lemma_sig_view(*cs);
                }
                while k < cs.parts.len()
                    invariant
                        self.view() == GType::Class(cs.view()),
                        cs.view().parts == parts_view(cs.parts@),
                        k <= cs.parts@.len(),
                        forall|j: int| 0 <= j < k ==> (#[trigger] cs.view().parts[j]).args.len() == 0,
                    decreases cs.parts@.len() - k,
                {
                    assert(cs.view().parts[k as int] == cs.parts@[k as int].view());
                    proof {
                        lemma_part_view(cs.parts@[k as int]);
                    }
                    if cs.parts[k].args.len() > 0 {
                        assert(self.view()->Class_0.parts[k as int].args.len() > 0);
                        return None;
                    }
                    k += 1;
                }
                Some(cs.internal_name())
            },
            _ => None,
        }
    }
}

impl ClassSigPart {
    fn args_onto(&self, out: &mut Vec<char>)
        ensures
            final(out)@ == old(out)@ + self.view().java_args(self.view().args.len()),
        decreases self, 0int,
    {
        let ghost o = out@;
        let ghost p = self.view();
        proof {
            lemma_part_view(*self);
        }
        let mut k: usize = 0;
        assert(o + p.java_args(0) =~= o);
        while k < self.args.len()
            invariant
                p == self.view(),
                p.args == generics(self.args@),
                k <= self.args@.len(),
                out@ == o + p.java_args(k as nat),
            decreases self.args@.len() - k,
        {
            if k > 0 {
                text::append_str(out, ", ");
            }
            assert(decreases_to!(self => self.args));
            assert(decreases_to!(self.args => self.args@));
            assert(decreases_to!(self.args@ => self.args@[k as int]));
            self.args[k].java_onto(out);
            proof {
                assert(p.args[k as int] == self.args@[k as int].view());
                assert(p.java_args((k + 1) as nat) == (if k + 1 > 1 {
                    p.java_args(k as nat) + ", "@
                } else {
                    Seq::empty()
                }) + p.args[k as int].java());
                assert(out@ =~= o + p.java_args((k + 1) as nat));
            }
            k += 1;
        }
    }
}

impl ClassSig {
    fn java_chars(&self) -> (r: Vec<char>)
        ensures
            r@ == self.view().java_parts(self.view().parts.len()),
        decreases self, 0int,
    {
        let ghost v = self.view();
        proof {
            lemma_sig_view(*self);
        }
        let mut s: Vec<char> = Vec::new();
        let package = text::chars_of(self.package.as_str());
        if package.len() > 0 {
            text::append_replaced(&mut s, &package, '/', '.');
            s.push('.');
        }
        assert(s@ =~= v.java_parts(0));
        let mut k: usize = 0;
        while k < self.parts.len()
            invariant
                v == self.view(),
                v.parts == parts_view(self.parts@),
                k <= self.parts@.len(),
                s@ == v.java_parts(k as nat),
            decreases self.parts@.len() - k,
        {
            let p = &self.parts[k];
            proof {
                lemma_part_view(*p);
                assert(v.parts[k as int] == p.view());
            }
            let name = text::chars_of(p.name.as_str());
            let segs = text::pieces(&name, '$');
            let ghost ss = text::texts(segs@);
            let last = segs.len() - 1;
            assert(ss.last() == segs@[last as int]@);
            let local = segs.len() > 1 && segs[last].len() > 0 && text::digit(segs[last][0]);
            let stripped = text::without_digits(&segs[last]);
            let mut dollar = false;
            let mut j: usize = 1;
            while j < segs.len()
                invariant
                    ss == text::texts(segs@),
                    1 <= j <= segs@.len(),
                    dollar == exists|m: int| 1 <= m < j && (#[trigger] ss[m]).len() == 0,
                decreases segs@.len() - j,
            {
                assert(ss[j as int] == segs@[j as int]@);
                if segs[j].len() == 0 {
                    dollar = true;
                }
                j += 1;
            }
            assert(dollar == literal_dollar(ss));
            if local && stripped.len() > 0 {
                s = stripped;
            } else if dollar {
                s = name;
            } else {
                if k > 0 {
                    s.push('.');
                }
                text::append_replaced(&mut s, &name, '$', '.');
                if p.args.len() > 0 {
                    s.push('<');
                    assert(decreases_to!(self => self.parts));
                    assert(decreases_to!(self.parts => self.parts@));
                    assert(decreases_to!(self.parts@ => self.parts@[k as int]));
                    p.args_onto(&mut s);
                    s.push('>');
                }
                assert(s@ =~= v.java_parts((k + 1) as nat));
            }
            k += 1;
        }
        s
    }

    pub fn to_java(&self) -> (r: String)
        ensures
            r@ == self.view().java(),
    {
        let v = self.java_chars();
        text::to_text(&v)
    }

    /// Internal name joining nested parts with `$`.
    pub fn internal_name(&self) -> (r: String)
        ensures
            r@ == self.view().internal(),
    {
        let ghost v = self.view();
        proof {
            lemma_sig_view(*self);
        }
        let mut s: Vec<char> = Vec::new();
        text::append_str(&mut s, self.package.as_str());
        if s.len() > 0 {
            s.push('/');
        }
        assert(s@ =~= v.internal_parts(0));
        let mut k: usize = 0;
        while k < self.parts.len()
            invariant
                v == self.view(),
                v.parts == parts_view(self.parts@),
                k <= self.parts@.len(),
                s@ == v.internal_parts(k as nat),
            decreases self.parts@.len() - k,
        {
            proof {
                lemma_part_view(self.parts@[k as int]);
                assert(v.parts[k as int] == self.parts@[k as int].view());
            }
            if k > 0 {
                s.push('$');
            }
            text::append_str(&mut s, self.parts[k].name.as_str());
            k += 1;
        }
        text::to_text(&s)
    }
}

fn is_java_lang_object(t: &GenericType) -> (r: bool)
    ensures
        r == is_object(t.view()),
{
    match t {
        GenericType::Class(cs) => {
            proof {
                lemma_sig_view(*cs);
                if cs.parts@.len() == 1 {
                    lemma_part_view(cs.parts@[0]);
                    assert(cs.view().parts[0] == cs.parts@[0].view());
                }
            }
            text::is_text(&cs.package, "java/lang") && cs.parts.len() == 1 && text::is_text(
                &cs.parts[0].name,
                "Object",
            ) && cs.parts[0].args.len() == 0
        },
        _ => false,
    }
}

fn param_onto(p: &TypeParam, out: &mut Vec<char>)
    ensures
        final(out)@ == old(out)@ + param_text(p.view(), p.view().interface_bounds.len()),
{
    let ghost o = out@;
    let ghost v = p.view();
    text::append_str(out, p.name.as_str());
    let mut bounded = false;
    if let Some(cb) = &p.class_bound {
        if !is_java_lang_object(cb) {
            text::append_str(out, " extends ");
            cb.java_onto(out);
            bounded = true;
        }
    }
    assert(bounded == (v.class_bound is Some && !is_object(v.class_bound->0)));
    assert(out@ =~= o + param_text(v, 0));
    let mut k: usize = 0;
    while k < p.interface_bounds.len()
        invariant
            v == p.view(),
            bounded == (v.class_bound is Some && !is_object(v.class_bound->0)),
            k <= p.interface_bounds@.len(),
            out@ == o + param_text(v, k as nat),
        decreases p.interface_bounds@.len() - k,
    {
        if !bounded && k == 0 {
            text::append_str(out, " extends ");
        } else {
            text::append_str(out, " & ");
        }
        p.interface_bounds[k].java_onto(out);
        assert(out@ =~= o + param_text(v, (k + 1) as nat));
        k += 1;
    }
}

fn params_onto(params: &[TypeParam], out: &mut Vec<char>)
    ensures
        final(out)@ == old(out)@ + type_params_text(params_view(params@)),
{
    let ghost o = out@;
    let ghost ps = params_view(params@);
    if params.len() == 0 {
        assert(o + type_params_text(ps) =~= o);
        return;
    }
    out.push('<');
    let ghost o1 = out@;
    let mut k: usize = 0;
    assert(out@ =~= o1 + params_text(ps, 0));
    while k < params.len()
        invariant
            ps == params_view(params@),
            k <= params@.len(),
            out@ == o1 + params_text(ps, k as nat),
        decreases params@.len() - k,
    {
        if k > 0 {
            text::append_str(out, ", ");
        }
        param_onto(&params[k], out);
        assert(ps[k as int] == params@[k as int].view());
        assert(out@ =~= o1 + params_text(ps, (k + 1) as nat));
        k += 1;
    }
    out.push('>');
    assert(out@ =~= o + type_params_text(ps));
}

/// Appends the type parameter list in Java source.
pub fn render_type_params(params: &[TypeParam], out: &mut String)
    ensures
        final(out)@ == old(out)@ + type_params_text(params_view(params@)),
{
    let mut v = text::chars_of(out.as_str());
    params_onto(params, &mut v);
    *out = text::to_text(&v);
}

impl ClassSignature {
    pub fn to_java(&self) -> (r: String)
        ensures
            r@ == self.view().java(),
    {
        let ghost v = self.view();
        let mut s: Vec<char> = Vec::new();
        params_onto(&self.params, &mut s);
        self.superclass.java_onto(&mut s);
        let ghost o = s@;
        let mut k: usize = 0;
        assert(s@ =~= o + plus_text(v.interfaces, 0));
        while k < self.interfaces.len()
            invariant
                v == self.view(),
                k <= self.interfaces@.len(),
                s@ == o + plus_text(v.interfaces, k as nat),
            decreases self.interfaces@.len() - k,
        {
            text::append_str(&mut s, " + ");
            self.interfaces[k].java_onto(&mut s);
            assert(v.interfaces[k as int] == self.interfaces@[k as int].view());
            assert(s@ =~= o + plus_text(v.interfaces, (k + 1) as nat));
            k += 1;
        }
        assert(s@ =~= v.java());
        text::to_text(&s)
    }
}

impl MethodSignature {
    pub fn to_java(&self) -> (r: String)
        ensures
            r@ == self.view().java(),
    {
        let ghost v = self.view();
        let mut s: Vec<char> = Vec::new();
        params_onto(&self.params, &mut s);
        s.push('(');
        let ghost o = s@;
        let mut k: usize = 0;
        assert(s@ =~= o + list_text(v.args, ", "@, 0));
        while k < self.args.len()
            invariant
                v == self.view(),
                k <= self.args@.len(),
                s@ == o + list_text(v.args, ", "@, k as nat),
            decreases self.args@.len() - k,
        {
            if k > 0 {
                text::append_str(&mut s, ", ");
            }
            self.args[k].java_onto(&mut s);
            assert(v.args[k as int] == self.args@[k as int].view());
            assert(s@ =~= o + list_text(v.args, ", "@, (k + 1) as nat));
            k += 1;
        }
        s.push(')');
        self.ret.java_onto(&mut s);
        assert(s@ =~= v.java());
        text::to_text(&s)
    }
}

// ---------------------------------------------------------------------------
// Grammar
// ---------------------------------------------------------------------------

/// The characters that end an identifier.
pub open spec fn is_meta(c: char) -> bool {
    c == '.' || c == ';' || c == ':' || c == '<' || c == '>' || c == '*' || c == '+' || c == '-' || c == '['
        || c == '^' || c == '(' || c == ')' || c == '|' || c == '/'
}

pub open spec fn peek(c: Seq<char>, i: int) -> Option<char> {
    if 0 <= i < c.len() {
        Some(c[i])
    } else {
        None
    }
}

/// The end of the identifier that starts at `i`.
pub open spec fn ident_end(c: Seq<char>, i: int) -> int
    decreases c.len() - i,
{
    if 0 <= i < c.len() && !is_meta(c[i]) {
        ident_end(c, i + 1)
    } else {
        i
    }
}

/// The identifier at `i`, which must not be empty.
pub open spec fn ident(c: Seq<char>, i: int) -> Option<(Seq<char>, int)> {
    let e = ident_end(c, i);
    if e == i {
        None
    } else {
        Some((c.subrange(i, e), e))
    }
}

/// How a character changes the nesting of angle brackets.
pub open spec fn nesting(c: char) -> int {
    if c == '<' {
        1
    } else if c == '>' {
        -1
    } else {
        0
    }
}

/// The position of the `;` outside angle brackets at or behind `i`, where
/// `depth` brackets are open at `i`.
pub open spec fn class_end(c: Seq<char>, i: int, depth: int) -> Option<int>
    decreases c.len() - i,
{
    if i < 0 || i >= c.len() {
        None
    } else if c[i] == ';' && depth == 0 {
        Some(i)
    } else {
        class_end(c, i + 1, depth + nesting(c[i]))
    }
}

/// The nesting at the end of `s`.
pub open spec fn depth_of(s: Seq<char>) -> int
    decreases s.len(),
{
    if s.len() == 0 {
        0
    } else {
        depth_of(s.drop_last()) + nesting(s.last())
    }
}

/// The pieces that the dots outside angle brackets separate.
pub open spec fn dot_pieces(s: Seq<char>) -> Seq<Seq<char>>
    decreases s.len(),
{
    if s.len() == 0 {
        seq![Seq::empty()]
    } else {
        let p = dot_pieces(s.drop_last());
        if s.last() == '.' && depth_of(s.drop_last()) == 0 {
            p.push(Seq::empty())
        } else {
            p.update(p.len() - 1, p.last().push(s.last()))
        }
    }
}

/// The position of the first `<`, the length when there is none.
pub open spec fn angle(s: Seq<char>, i: int) -> int
    decreases s.len() - i,
{
    if 0 <= i < s.len() && s[i] != '<' {
        angle(s, i + 1)
    } else {
        i
    }
}

/// The type that starts at `i` and is no primitive.
pub open spec fn field_type(c: Seq<char>, i: int) -> Option<(GType, int)>
    decreases c.len(), c.len() - i, 1int,
{
    match peek(c, i) {
        Some(x) => if x == 'L' {
            class_type(c, i)
        } else if x == '[' {
            match type_sig(c, i + 1) {
                Some((t, n)) => Some((GType::Array(Box::new(t)), n)),
                None => None,
            }
        } else if x == 'T' {
            match ident(c, i + 1) {
                Some((name, n)) => if peek(c, n) == Some(';') {
                    Some((GType::TypeVar(name), n + 1))
                } else {
                    None
                },
                None => None,
            }
        } else {
            None
        },
        None => None,
    }
}

/// A primitive or another type.
pub open spec fn type_sig(c: Seq<char>, i: int) -> Option<(GType, int)>
    decreases c.len(), c.len() - i, 2int,
{
    match peek(c, i) {
        Some(x) => if x == 'V' || x == 'Z' || x == 'B' || x == 'C' || x == 'S' || x == 'I' || x == 'F' || x
            == 'J' || x == 'D' {
            Some((GType::Primitive(x), i + 1))
        } else {
            field_type(c, i)
        },
        None => None,
    }
}

/// The class type that starts with the `L` at `i`.
pub open spec fn class_type(c: Seq<char>, i: int) -> Option<(GType, int)>
    decreases c.len(), c.len() - i, 0int,
{
    match class_end(c, i + 1, 0) {
        Some(e) => if 0 <= i < c.len() && i + 1 <= e < c.len() {
            match class_parts(c.subrange(i + 1, e), dot_pieces(c.subrange(i + 1, e)).len()) {
                Some(parts) => {
                    let head = parts[0].name;
                    let first = CPart { name: text::after_last(head, '/'), args: parts[0].args };
                    Some(
                        (
                            GType::Class(
                                CSig { package: text::before_last(head, '/'), parts: parts.update(0, first) },
                            ),
                            e + 1,
                        ),
                    )
                },
                None => None,
            }
        } else {
            None
        },
        None => None,
    }
}

/// The first `k` pieces of the class name `raw` as parts; the first still has
/// its package.
pub open spec fn class_parts(raw: Seq<char>, k: nat) -> Option<Seq<CPart>>
    decreases raw.len(), raw.len(), 10 + k,
{
    if k == 0 {
        Some(Seq::empty())
    } else {
        match class_parts(raw, (k - 1) as nat) {
            Some(ps) => {
                let piece = dot_pieces(raw)[k - 1];
                let lt = angle(piece, 0);
                if lt >= piece.len() {
                    Some(ps.push(CPart { name: piece, args: Seq::empty() }))
                } else if 0 <= lt && piece.len() <= raw.len() {
                    match type_args(piece, lt + 1) {
                        Some((args, n)) => if n == piece.len() {
                            Some(ps.push(CPart { name: piece.take(lt), args }))
                        } else {
                            None
                        },
                        None => None,
                    }
                } else {
                    None
                }
            },
            None => None,
        }
    }
}

/// The type arguments from `i` on, up to and with the closing `>`.
pub open spec fn type_args(c: Seq<char>, i: int) -> Option<(Seq<GType>, int)>
    decreases c.len(), c.len() - i, 4int,
{
    if peek(c, i) == Some('>') {
        Some((Seq::empty(), i + 1))
    } else {
        match type_arg(c, i) {
            Some((t, n)) => if 0 <= i < n <= c.len() {
                match type_args(c, n) {
                    Some((ts, e)) => Some((seq![t] + ts, e)),
                    None => None,
                }
            } else {
                None
            },
            None => None,
        }
    }
}

/// A type argument: a wildcard or a type.
pub open spec fn type_arg(c: Seq<char>, i: int) -> Option<(GType, int)>
    decreases c.len(), c.len() - i, 3int,
{
    match peek(c, i) {
        Some(x) => if x == '*' {
            Some((GType::Any, i + 1))
        } else if x == '+' {
            match field_type(c, i + 1) {
                Some((t, n)) => Some((GType::Extends(Box::new(t)), n)),
                None => None,
            }
        } else if x == '-' {
            match field_type(c, i + 1) {
                Some((t, n)) => Some((GType::Super(Box::new(t)), n)),
                None => None,
            }
        } else {
            field_type(c, i)
        },
        None => None,
    }
}

/// The types from `i` on, each behind a `mark`.
pub open spec fn marked_types(c: Seq<char>, i: int, mark: char) -> Option<(Seq<GType>, int)>
    decreases c.len() - i,
{
    if peek(c, i) == Some(mark) {
        match field_type(c, i + 1) {
            Some((t, n)) => if i < n <= c.len() {
                match marked_types(c, n, mark) {
                    Some((ts, e)) => Some((seq![t] + ts, e)),
                    None => None,
                }
            } else {
                None
            },
            None => None,
        }
    } else {
        Some((Seq::empty(), i))
    }
}

/// One type parameter: a name, a class bound that may be empty, and interface bounds.
pub open spec fn type_param(c: Seq<char>, i: int) -> Option<(TParam, int)> {
    match ident(c, i) {
        Some((name, n)) => if peek(c, n) == Some(':') {
            if peek(c, n + 1) == Some(':') || peek(c, n + 1) == Some('>') {
                match marked_types(c, n + 1, ':') {
                    Some((bounds, e)) => Some(
                        (TParam { name, class_bound: None, interface_bounds: bounds }, e),
                    ),
                    None => None,
                }
            } else {
                match field_type(c, n + 1) {
                    Some((t, m)) => match marked_types(c, m, ':') {
                        Some((bounds, e)) => Some(
                            (TParam { name, class_bound: Some(t), interface_bounds: bounds }, e),
                        ),
                        None => None,
                    },
                    None => None,
                }
            }
        } else {
            None
        },
        None => None,
    }
}

/// The type parameters from `i` on, up to and with the closing `>`.
pub open spec fn params_at(c: Seq<char>, i: int) -> Option<(Seq<TParam>, int)>
    decreases c.len() - i,
{
    if peek(c, i) == Some('>') {
        Some((Seq::empty(), i + 1))
    } else {
        match type_param(c, i) {
            Some((p, n)) => if i < n <= c.len() {
                match params_at(c, n) {
                    Some((ps, e)) => Some((seq![p] + ps, e)),
                    None => None,
                }
            } else {
                None
            },
            None => None,
        }
    }
}

/// The type parameter list at `i`; empty when there is none.
pub open spec fn type_params(c: Seq<char>, i: int) -> Option<(Seq<TParam>, int)> {
    if peek(c, i) == Some('<') {
        params_at(c, i + 1)
    } else {
        Some((Seq::empty(), i))
    }
}

/// The types from `i` to the end.
pub open spec fn types_to_end(c: Seq<char>, i: int) -> Option<Seq<GType>>
    decreases c.len() - i,
{
    if peek(c, i) is None {
        Some(Seq::empty())
    } else {
        match field_type(c, i) {
            Some((t, n)) => if i < n <= c.len() {
                match types_to_end(c, n) {
                    Some(ts) => Some(seq![t] + ts),
                    None => None,
                }
            } else {
                None
            },
            None => None,
        }
    }
}

/// The types from `i` up to the `)` behind them, and its position.
pub open spec fn sigs_at(c: Seq<char>, i: int) -> Option<(Seq<GType>, int)>
    decreases c.len() - i,
{
    if peek(c, i) == Some(')') {
        Some((Seq::empty(), i))
    } else {
        match type_sig(c, i) {
            Some((t, n)) => if i < n <= c.len() {
                match sigs_at(c, n) {
                    Some((ts, e)) => Some((seq![t] + ts, e)),
                    None => None,
                }
            } else {
                None
            },
            None => None,
        }
    }
}

/// The class signature that `c` spells.
pub open spec fn class_signature(c: Seq<char>) -> Option<CSignature> {
    match type_params(c, 0) {
        Some((params, i)) => match field_type(c, i) {
            Some((superclass, n)) => match types_to_end(c, n) {
                Some(interfaces) => Some(CSignature { params, superclass, interfaces }),
                None => None,
            },
            None => None,
        },
        None => None,
    }
}

/// The method signature that `c` spells.
pub open spec fn method_signature(c: Seq<char>) -> Option<MSignature> {
    match type_params(c, 0) {
        Some((params, i)) => if peek(c, i) == Some('(') {
            match sigs_at(c, i + 1) {
                Some((args, e)) => match type_sig(c, e + 1) {
                    Some((ret, n)) => match marked_types(c, n, '^') {
                        Some((throws, m)) => if m == c.len() {
                            Some(MSignature { params, args, ret, throws })
                        } else {
                            None
                        },
                        None => None,
                    },
                    None => None,
                },
                None => None,
            }
        } else {
            None
        },
        None => None,
    }
}

/// The field signature that `c` spells.
pub open spec fn field_signature(c: Seq<char>) -> Option<GType> {
    match field_type(c, 0) {
        Some((t, n)) => if n == c.len() {
            Some(t)
        } else {
            None
        },
        None => None,
    }
}

proof fn lemma_ident_end(c: Seq<char>, i: int)
    requires
        0 <= i <= c.len(),
    ensures
        i <= ident_end(c, i) <= c.len(),
    decreases c.len() - i,
{
    if i < c.len() && !is_meta(c[i]) {
        lemma_ident_end(c, i + 1);
    }
}

proof fn lemma_class_end(c: Seq<char>, i: int, depth: int)
    requires
        0 <= i,
    ensures
        class_end(c, i, depth) matches Some(e) ==> i <= e < c.len(),
    decreases c.len() - i,
{
    if i < c.len() {
        lemma_class_end(c, i + 1, depth + nesting(c[i]));
    }
}

pub(crate) proof fn lemma_dot_pieces(s: Seq<char>)
    ensures
        dot_pieces(s).len() > 0,
        forall|k: int| 0 <= k < dot_pieces(s).len() ==> (#[trigger] dot_pieces(s)[k]).len() <= s.len(),
    decreases s.len(),
{
    if s.len() > 0 {
        let u = s.drop_last();
        lemma_dot_pieces(u);
        let p = dot_pieces(u);
        assert forall|k: int| 0 <= k < dot_pieces(s).len() implies (#[trigger] dot_pieces(s)[k]).len() <= s.len() by {
            if k < p.len() {
                assert(p[k].len() <= u.len());
            }
        }
    }
}

proof fn lemma_field_advances(c: Seq<char>, i: int)
    requires
        0 <= i,
    ensures
        field_type(c, i) matches Some((t, n)) ==> i < n <= c.len(),
    decreases c.len() - i, 0int,
{
    if i < c.len() {
        if c[i] == 'L' {
            lemma_class_end(c, i + 1, 0);
        } else if c[i] == '[' {
            lemma_sig_advances(c, i + 1);
        } else if c[i] == 'T' {
            lemma_ident_end(c, i + 1);
        }
    }
}

proof fn lemma_sig_advances(c: Seq<char>, i: int)
    requires
        0 <= i,
    ensures
        type_sig(c, i) matches Some((t, n)) ==> i < n <= c.len(),
    decreases c.len() - i, 1int,
{
    lemma_field_advances(c, i);
}

proof fn lemma_arg_advances(c: Seq<char>, i: int)
    requires
        0 <= i,
    ensures
        type_arg(c, i) matches Some((t, n)) ==> i < n <= c.len(),
{
    lemma_field_advances(c, i);
    lemma_field_advances(c, i + 1);
}

// ---------------------------------------------------------------------------
// Parser
// ---------------------------------------------------------------------------

pub open spec fn type_result(r: Option<(GenericType, usize)>) -> Option<(GType, int)> {
    match r {
        Some((t, n)) => Some((t.view(), n as int)),
        None => None,
    }
}

pub open spec fn types_result(r: Option<(Vec<GenericType>, usize)>) -> Option<(Seq<GType>, int)> {
    match r {
        Some((t, n)) => Some((generics(t@), n as int)),
        None => None,
    }
}

fn at(c: &Vec<char>, i: usize, x: char) -> (r: bool)
    ensures
        r == (peek(c@, i as int) == Some(x)),
        r ==> i < usize::MAX,
{
    i < c.len() && c[i] == x
}

fn meta(c: char) -> (r: bool)
    ensures
        r == is_meta(c),
{
    c == '.' || c == ';' || c == ':' || c == '<' || c == '>' || c == '*' || c == '+' || c == '-' || c == '['
        || c == '^' || c == '(' || c == ')' || c == '|' || c == '/'
}

fn parse_ident(c: &Vec<char>, i: usize) -> (r: Option<(String, usize)>)
    requires
        i <= c@.len(),
    ensures
        (match r {
            Some((s, n)) => Some((s@, n as int)),
            None => None,
        }) == ident(c@, i as int),
        r matches Some((s, n)) ==> i < n <= c@.len(),
{
    let mut e: usize = i;
    while e < c.len() && !meta(c[e])
        invariant
            i <= e <= c@.len(),
            ident_end(c@, e as int) == ident_end(c@, i as int),
        decreases c@.len() - e,
    {
        e += 1;
    }
    if e == i {
        return None;
    }
    let v = text::part(c, i, e);
    Some((text::to_text(&v), e))
}

fn parse_field_type(c: &Vec<char>, i: usize) -> (r: Option<(GenericType, usize)>)
    ensures
        type_result(r) == field_type(c@, i as int),
        r matches Some((t, n)) ==> i < n <= c@.len(),
    decreases c@.len(), c@.len() - i, 1int,
{
    proof {
        lemma_field_advances(c@, i as int);
    }
    if i >= c.len() {
        return None;
    }
    let x = c[i];
    if x == 'L' {
        match parse_class_type(c, i) {
            Some((cs, n)) => Some((GenericType::Class(cs), n)),
            None => None,
        }
    } else if x == '[' {
        match parse_type_sig(c, i + 1) {
            Some((t, n)) => Some((GenericType::Array(Box::new(t)), n)),
            None => None,
        }
    } else if x == 'T' {
        match parse_ident(c, i + 1) {
            Some((name, n)) => if at(c, n, ';') {
                Some((GenericType::TypeVar(name), n + 1))
            } else {
                None
            },
            None => None,
        }
    } else {
        None
    }
}

fn parse_type_sig(c: &Vec<char>, i: usize) -> (r: Option<(GenericType, usize)>)
    ensures
        type_result(r) == type_sig(c@, i as int),
        r matches Some((t, n)) ==> i < n <= c@.len(),
    decreases c@.len(), c@.len() - i, 2int,
{
    if i >= c.len() {
        return None;
    }
    let x = c[i];
    if x == 'V' || x == 'Z' || x == 'B' || x == 'C' || x == 'S' || x == 'I' || x == 'F' || x == 'J' || x
        == 'D' {
        Some((GenericType::Primitive(x), i + 1))
    } else {
        parse_field_type(c, i)
    }
}

/// The pieces that the dots outside angle brackets separate.
fn split_dots(s: &Vec<char>) -> (r: Vec<Vec<char>>)
    ensures
        text::texts(r@) == dot_pieces(s@),
        r@.len() > 0,
{
    let mut r: Vec<Vec<char>> = Vec::new();
    let mut cur: Vec<char> = Vec::new();
    let mut depth: i128 = 0;
    let mut i: usize = 0;
    assert(text::texts(r@).push(cur@) =~= dot_pieces(s@.take(0))) by {
        assert(s@.take(0) =~= Seq::empty());
        assert(cur@ =~= Seq::empty());
    }
    assert(s@.take(0) =~= Seq::empty());
    while i < s.len()
        invariant
            i <= s@.len(),
            depth == depth_of(s@.take(i as int)),
            -i <= depth <= i,
            text::texts(r@).push(cur@) == dot_pieces(s@.take(i as int)),
        decreases s@.len() - i,
    {
        let c = s[i];
        let ghost t = s@.take(i + 1);
        let ghost before = text::texts(r@);
        let ghost cur0 = cur@;
        assert(t.drop_last() =~= s@.take(i as int));
        assert(t.last() == c);
        if c == '.' && depth == 0 {
            r.push(cur);
            cur = Vec::new();
            assert(text::texts(r@) =~= before.push(cur0));
            assert(cur@ =~= Seq::empty());
        } else {
            cur.push(c);
            assert(text::texts(r@).push(cur@) =~= before.push(cur0).update(before.len() as int, cur0.push(c)));
        }
        if c == '<' {
            depth = depth + 1;
        } else if c == '>' {
            depth = depth - 1;
        }
        i += 1;
    }
    let ghost before = text::texts(r@);
    let ghost last = cur@;
    r.push(cur);
    assert(text::texts(r@) =~= before.push(last));
    assert(s@.take(i as int) =~= s@);
    r
}

fn find_class_end(c: &Vec<char>, i: usize) -> (r: Option<usize>)
    ensures
        (match r {
            Some(e) => Some(e as int),
            None => None,
        }) == class_end(c@, i as int, 0),
        r matches Some(e) ==> i <= e < c@.len(),
{
    let mut depth: i128 = 0;
    let mut e: usize = i;
    while e < c.len()
        invariant
            i <= e,
            e <= c@.len() || e == i,
            -(e - i) <= depth <= e - i,
            class_end(c@, e as int, depth as int) == class_end(c@, i as int, 0),
        decreases c@.len() - e,
    {
        let x = c[e];
        if x == ';' && depth == 0 {
            return Some(e);
        }
        if x == '<' {
            depth = depth + 1;
        } else if x == '>' {
            depth = depth - 1;
        }
        e += 1;
    }
    None
}

proof fn lemma_class_parts_prefix(raw: Seq<char>, j: nat, k: nat)
    requires
        j <= k,
        class_parts(raw, j) is None,
    ensures
        class_parts(raw, k) is None,
    decreases k,
{
    if j < k {
        lemma_class_parts_prefix(raw, j, (k - 1) as nat);
    }
}

/// The class type that starts with the `L` at `i`.
fn parse_class_type(c: &Vec<char>, i: usize) -> (r: Option<(ClassSig, usize)>)
    requires
        i < c@.len(),
    ensures
        (match r {
            Some((cs, n)) => Some((GType::Class(cs.view()), n as int)),
            None => None,
        }) == class_type(c@, i as int),
        r matches Some((cs, n)) ==> i < n <= c@.len(),
    decreases c@.len(), c@.len() - i, 0int,
{
    let len: usize = c.len();
    let e = match find_class_end(c, i + 1) {
        Some(e) => e,
        None => {
            return None;
        },
    };
    let raw = text::part(c, i + 1, e);
    let pieces = split_dots(&raw);
    let ghost ps = dot_pieces(raw@);
    let ghost total = ps.len();
    let mut parts: Vec<ClassSigPart> = Vec::new();
    let mut package: String = String::new();
    let mut k: usize = 0;
    assert(parts_view(parts@) =~= Seq::empty());
    proof {
        lemma_dot_pieces(raw@);
    }
    while k < pieces.len()
        invariant
            i < c@.len(),
            i + 1 <= e < c@.len(),
            raw@ == c@.subrange(i + 1, e as int),
            class_end(c@, i + 1, 0) == Some(e as int),
            ps == dot_pieces(raw@),
            total == ps.len(),
            total > 0,
            text::texts(pieces@) == ps,
            k <= pieces@.len(),
            pieces@.len() == total,
            forall|m: int| 0 <= m < ps.len() ==> (#[trigger] ps[m]).len() <= raw@.len(),
            class_parts(raw@, k as nat) is Some,
            (class_parts(raw@, k as nat)->0).len() == k,
            k == 0 ==> parts@.len() == 0,
            k > 0 ==> ({
                let all = class_parts(raw@, k as nat)->0;
                let first = CPart { name: text::after_last(all[0].name, '/'), args: all[0].args };
                &&& package@ == text::before_last(all[0].name, '/')
                &&& parts_view(parts@) == all.update(0, first)
            }),
        decreases pieces@.len() - k,
    {
        let piece = &pieces[k];
        assert(ps[k as int] == piece@);
        assert(piece@.len() <= raw@.len());
        let ghost all = class_parts(raw@, k as nat)->0;
        let mut lt: usize = 0;
        while lt < piece.len() && piece[lt] != '<'
            invariant
                lt <= piece@.len(),
                angle(piece@, lt as int) == angle(piece@, 0),
            decreases piece@.len() - lt,
        {
            lt += 1;
        }
        let head = text::part(piece, 0, lt);
        let args: Vec<GenericType> = if lt < piece.len() {
            match parse_type_args(piece, lt + 1) {
                Some((args, n)) => {
                    if n != piece.len() {
                        proof {
                            assert(class_parts(raw@, (k + 1) as nat) is None);
                            lemma_class_parts_prefix(raw@, (k + 1) as nat, total);
                        }
                        return None;
                    }
                    args
                },
                None => {
                    proof {
                        assert(class_parts(raw@, (k + 1) as nat) is None);
                        lemma_class_parts_prefix(raw@, (k + 1) as nat, total);
                    }
                    return None;
                },
            }
        } else {
            let none: Vec<GenericType> = Vec::new();
            assert(generics(none@) =~= Seq::empty());
            none
        };
        let ghost pushed = CPart { name: head@, args: generics(args@) };
        proof {
            assert(head@ =~= piece@.take(lt as int));
            if lt == piece@.len() {
                assert(head@ =~= piece@);
            }
            assert(class_parts(raw@, (k + 1) as nat) == Some(all.push(pushed)));
        }
        let ghost before = parts_view(parts@);
        if k == 0 {
            let p = text::last_part(&head, '/');
            if p > 0 {
                let pkg = text::part(&head, 0, p - 1);
                assert(pkg@ =~= head@.take(p - 1));
                package = text::to_text(&pkg);
            } else {
                package = String::new();
                assert(package@ =~= text::before_last(head@, '/'));
            }
            let name = text::part(&head, p, head.len());
            assert(name@ =~= head@.skip(p as int));
            let part = ClassSigPart { name: text::to_text(&name), args };
            proof {
                lemma_part_view(part);
            }
            let ghost pv = part.view();
            parts.push(part);
            assert(parts_view(parts@) =~= all.push(pushed).update(0, pv));
        } else {
            let part = ClassSigPart { name: text::to_text(&head), args };
            proof {
                lemma_part_view(part);
            }
            let ghost pv = part.view();
            parts.push(part);
            assert(parts_view(parts@) =~= before.push(pv));
            assert(all.push(pushed)[0] == all[0]);
            let ghost first = CPart { name: text::after_last(all[0].name, '/'), args: all[0].args };
            assert(before.push(pv) =~= all.push(pushed).update(0, first));
        }
        k += 1;
    }
    let cs = ClassSig { package, parts };
    proof {
        lemma_sig_view(cs);
    }
    Some((cs, e + 1))
}

/// The type arguments from `i` on, up to and with the closing `>`.
fn parse_type_args(c: &Vec<char>, i: usize) -> (r: Option<(Vec<GenericType>, usize)>)
    requires
        i <= c@.len(),
    ensures
        types_result(r) == type_args(c@, i as int),
        r matches Some((t, n)) ==> i < n <= c@.len(),
    decreases c@.len(), c@.len() - i, 4int,
{
    let mut args: Vec<GenericType> = Vec::new();
    let mut j: usize = i;
    assert(generics(args@) =~= Seq::empty());
    proof {
        if let Some((ts, e)) = type_args(c@, i as int) {
            assert(generics(args@) + ts =~= ts);
        }
    }
    while !at(c, j, '>')
        invariant
            i <= j <= c@.len(),
            (match type_args(c@, j as int) {
                Some((ts, e)) => Some((generics(args@) + ts, e)),
                None => None,
            }) == type_args(c@, i as int),
        decreases c@.len() - j,
    {
        proof {
            lemma_arg_advances(c@, j as int);
        }
        let ghost before = generics(args@);
        match parse_type_arg(c, j) {
            Some((t, n)) => {
                let ghost tv = t.view();
                args.push(t);
                assert(generics(args@) =~= before.push(tv));
                proof {
                    if let Some((ts, e)) = type_args(c@, n as int) {
                        assert(before + (seq![tv] + ts) =~= before.push(tv) + ts);
                    }
                }
                j = n;
            },
            None => {
                return None;
            },
        }
    }
    assert(generics(args@) + Seq::<GType>::empty() =~= generics(args@));
    Some((args, j + 1))
}

fn parse_type_arg(c: &Vec<char>, i: usize) -> (r: Option<(GenericType, usize)>)
    ensures
        type_result(r) == type_arg(c@, i as int),
    decreases c@.len(), c@.len() - i, 3int,
{
    if i >= c.len() {
        return None;
    }
    let x = c[i];
    if x == '*' {
        Some((GenericType::Wildcard(WildcardBound::Any), i + 1))
    } else if x == '+' {
        match parse_field_type(c, i + 1) {
            Some((t, n)) => Some((GenericType::Wildcard(WildcardBound::Extends(Box::new(t))), n)),
            None => None,
        }
    } else if x == '-' {
        match parse_field_type(c, i + 1) {
            Some((t, n)) => Some((GenericType::Wildcard(WildcardBound::Super(Box::new(t))), n)),
            None => None,
        }
    } else {
        parse_field_type(c, i)
    }
}

/// The types from `i` on, each behind a `mark`.
fn parse_marked(c: &Vec<char>, i: usize, mark: char) -> (r: Option<(Vec<GenericType>, usize)>)
    requires
        i <= c@.len(),
    ensures
        types_result(r) == marked_types(c@, i as int, mark),
        r matches Some((t, n)) ==> i <= n <= c@.len(),
{
    let mut ts: Vec<GenericType> = Vec::new();
    let mut j: usize = i;
    assert(generics(ts@) =~= Seq::empty());
    proof {
        if let Some((rest, e)) = marked_types(c@, i as int, mark) {
            assert(generics(ts@) + rest =~= rest);
        }
    }
    while at(c, j, mark)
        invariant
            i <= j <= c@.len(),
            (match marked_types(c@, j as int, mark) {
                Some((rest, e)) => Some((generics(ts@) + rest, e)),
                None => None,
            }) == marked_types(c@, i as int, mark),
        decreases c@.len() - j,
    {
        let ghost before = generics(ts@);
        match parse_field_type(c, j + 1) {
            Some((t, n)) => {
                let ghost tv = t.view();
                ts.push(t);
                assert(generics(ts@) =~= before.push(tv));
                proof {
                    if let Some((rest, e)) = marked_types(c@, n as int, mark) {
                        assert(before + (seq![tv] + rest) =~= before.push(tv) + rest);
                    }
                }
                j = n;
            },
            None => {
                return None;
            },
        }
    }
    assert(generics(ts@) + Seq::<GType>::empty() =~= generics(ts@));
    Some((ts, j))
}

fn parse_type_param(c: &Vec<char>, i: usize) -> (r: Option<(TypeParam, usize)>)
    requires
        i <= c@.len(),
    ensures
        (match r {
            Some((p, n)) => Some((p.view(), n as int)),
            None => None,
        }) == type_param(c@, i as int),
        r matches Some((p, n)) ==> i < n <= c@.len(),
{
    let (name, n) = match parse_ident(c, i) {
        Some(x) => x,
        None => {
            return None;
        },
    };
    if !at(c, n, ':') {
        return None;
    }
    let mut m: usize = n + 1;
    let mut class_bound: Option<GenericType> = None;
    if !at(c, n + 1, ':') && !at(c, n + 1, '>') {
        match parse_field_type(c, n + 1) {
            Some((t, k)) => {
                class_bound = Some(t);
                m = k;
            },
            None => {
                return None;
            },
        }
    }
    match parse_marked(c, m, ':') {
        Some((interface_bounds, e)) => Some((TypeParam { name, class_bound, interface_bounds }, e)),
        None => None,
    }
}

fn parse_type_params(c: &Vec<char>, i: usize) -> (r: Option<(Vec<TypeParam>, usize)>)
    requires
        i <= c@.len(),
    ensures
        (match r {
            Some((ps, n)) => Some((params_view(ps@), n as int)),
            None => None,
        }) == type_params(c@, i as int),
        r matches Some((ps, n)) ==> n <= c@.len(),
{
    let mut ps: Vec<TypeParam> = Vec::new();
    assert(params_view(ps@) =~= Seq::empty());
    if !at(c, i, '<') {
        return Some((ps, i));
    }
    let mut j: usize = i + 1;
    proof {
        if let Some((rest, e)) = params_at(c@, i + 1) {
            assert(params_view(ps@) + rest =~= rest);
        }
    }
    while !at(c, j, '>')
        invariant
            i < j <= c@.len(),
            peek(c@, i as int) == Some('<'),
            (match params_at(c@, j as int) {
                Some((rest, e)) => Some((params_view(ps@) + rest, e)),
                None => None,
            }) == params_at(c@, i + 1),
        decreases c@.len() - j,
    {
        let ghost before = params_view(ps@);
        match parse_type_param(c, j) {
            Some((p, n)) => {
                let ghost pv = p.view();
                ps.push(p);
                assert(params_view(ps@) =~= before.push(pv));
                proof {
                    if let Some((rest, e)) = params_at(c@, n as int) {
                        assert(before + (seq![pv] + rest) =~= before.push(pv) + rest);
                    }
                }
                j = n;
            },
            None => {
                return None;
            },
        }
    }
    assert(params_view(ps@) + Seq::<TParam>::empty() =~= params_view(ps@));
    Some((ps, j + 1))
}

/// Parse a ClassSignature attribute value.
pub fn parse_class_signature(s: &str) -> (r: Option<ClassSignature>)
    ensures
        (match r {
            Some(x) => Some(x.view()),
            None => None,
        }) == class_signature(s@),
{
    let c = text::chars_of(s);
    let (params, i) = match parse_type_params(&c, 0) {
        Some(x) => x,
        None => {
            return None;
        },
    };
    let (superclass, n) = match parse_field_type(&c, i) {
        Some(x) => x,
        None => {
            return None;
        },
    };
    let mut interfaces: Vec<GenericType> = Vec::new();
    let mut j: usize = n;
    assert(generics(interfaces@) =~= Seq::empty());
    proof {
        if let Some(rest) = types_to_end(c@, n as int) {
            assert(generics(interfaces@) + rest =~= rest);
        }
    }
    while j < c.len()
        invariant
            c@ == s@,
            n <= j <= c@.len(),
            type_params(c@, 0) == Some((params_view(params@), i as int)),
            field_type(c@, i as int) == Some((superclass.view(), n as int)),
            (match types_to_end(c@, j as int) {
                Some(rest) => Some(generics(interfaces@) + rest),
                None => None,
            }) == types_to_end(c@, n as int),
        decreases c@.len() - j,
    {
        let ghost before = generics(interfaces@);
        match parse_field_type(&c, j) {
            Some((t, m)) => {
                let ghost tv = t.view();
                interfaces.push(t);
                assert(generics(interfaces@) =~= before.push(tv));
                proof {
                    if let Some(rest) = types_to_end(c@, m as int) {
                        assert(before + (seq![tv] + rest) =~= before.push(tv) + rest);
                    }
                }
                j = m;
            },
            None => {
                return None;
            },
        }
    }
    assert(generics(interfaces@) + Seq::<GType>::empty() =~= generics(interfaces@));
    Some(ClassSignature { params, superclass, interfaces })
}

/// Parse a MethodSignature attribute value.
pub fn parse_method_signature(s: &str) -> (r: Option<MethodSignature>)
    ensures
        (match r {
            Some(x) => Some(x.view()),
            None => None,
        }) == method_signature(s@),
{
    let c = text::chars_of(s);
    let (params, i) = match parse_type_params(&c, 0) {
        Some(x) => x,
        None => {
            return None;
        },
    };
    if !at(&c, i, '(') {
        return None;
    }
    let mut args: Vec<GenericType> = Vec::new();
    let mut j: usize = i + 1;
    assert(generics(args@) =~= Seq::empty());
    proof {
        if let Some((rest, e)) = sigs_at(c@, i + 1) {
            assert(generics(args@) + rest =~= rest);
        }
    }
    while !at(&c, j, ')')
        invariant
            c@ == s@,
            i < j <= c@.len(),
            type_params(c@, 0) == Some((params_view(params@), i as int)),
            peek(c@, i as int) == Some('('),
            (match sigs_at(c@, j as int) {
                Some((rest, e)) => Some((generics(args@) + rest, e)),
                None => None,
            }) == sigs_at(c@, i + 1),
        decreases c@.len() - j,
    {
        let ghost before = generics(args@);
        match parse_type_sig(&c, j) {
            Some((t, m)) => {
                let ghost tv = t.view();
                args.push(t);
                assert(generics(args@) =~= before.push(tv));
                proof {
                    if let Some((rest, e)) = sigs_at(c@, m as int) {
                        assert(before + (seq![tv] + rest) =~= before.push(tv) + rest);
                    }
                }
                j = m;
            },
            None => {
                return None;
            },
        }
    }
    assert(generics(args@) + Seq::<GType>::empty() =~= generics(args@));
    let (ret, n) = match parse_type_sig(&c, j + 1) {
        Some(x) => x,
        None => {
            return None;
        },
    };
    match parse_marked(&c, n, '^') {
        Some((throws, m)) => if m == c.len() {
            Some(MethodSignature { params, args, ret, throws })
        } else {
            None
        },
        None => None,
    }
}

/// Parse a field (FieldTypeSignature) attribute value.
pub fn parse_field_signature(s: &str) -> (r: Option<GenericType>)
    ensures
        (match r {
            Some(x) => Some(x.view()),
            None => None,
        }) == field_signature(s@),
{
    let c = text::chars_of(s);
    match parse_field_type(&c, 0) {
        Some((t, n)) => if n == c.len() {
            Some(t)
        } else {
            None
        },
        None => None,
    }
}

// ---------------------------------------------------------------------------
// Copies
// ---------------------------------------------------------------------------

/// A list with the same types.
pub fn copy_generics(v: &Vec<GenericType>) -> (r: Vec<GenericType>)
    ensures
        generics(r@) == generics(v@),
    decreases v,
{
    let mut r: Vec<GenericType> = Vec::new();
    let mut i: usize = 0;
    while i < v.len()
        invariant
            i <= v@.len(),
            generics(r@) == generics(v@).take(i as int),
        decreases v@.len() - i,
    {
        let ghost before = generics(r@);
        assert(decreases_to!(v => v@));
        assert(decreases_to!(v@ => v@[i as int]));
        let t = v[i].copy();
        let ghost tv = t.view();
        r.push(t);
        assert(generics(r@) =~= before.push(tv));
        assert(generics(v@).take(i + 1) =~= generics(v@).take(i as int).push(tv));
        i += 1;
    }
    assert(generics(v@).take(i as int) =~= generics(v@));
    r
}

fn copy_parts(v: &Vec<ClassSigPart>) -> (r: Vec<ClassSigPart>)
    ensures
        parts_view(r@) == parts_view(v@),
    decreases v,
{
    let mut r: Vec<ClassSigPart> = Vec::new();
    let mut i: usize = 0;
    while i < v.len()
        invariant
            i <= v@.len(),
            parts_view(r@) == parts_view(v@).take(i as int),
        decreases v@.len() - i,
    {
        let ghost before = parts_view(r@);
        let p = &v[i];
        assert(decreases_to!(v => v@));
        assert(decreases_to!(v@ => v@[i as int]));
        let t = ClassSigPart { name: p.name.clone(), args: copy_generics(&p.args) };
        proof {
            lemma_part_view(t);
            lemma_part_view(*p);
        }
        let ghost tv = t.view();
        r.push(t);
        assert(parts_view(r@) =~= before.push(tv));
        assert(parts_view(v@).take(i + 1) =~= parts_view(v@).take(i as int).push(tv));
        i += 1;
    }
    assert(parts_view(v@).take(i as int) =~= parts_view(v@));
    r
}

impl GenericType {
    /// The same type again.
    pub fn copy(&self) -> (r: GenericType)
        ensures
            r.view() == self.view(),
        decreases self,
    {
        match self {
            GenericType::Primitive(c) => GenericType::Primitive(*c),
            GenericType::Class(cs) => {
                let r = ClassSig { package: cs.package.clone(), parts: copy_parts(&cs.parts) };
                proof {
                    lemma_sig_view(r);
                    lemma_sig_view(*cs);
                }
                GenericType::Class(r)
            },
            GenericType::Array(t) => GenericType::Array(Box::new(t.copy())),
            GenericType::TypeVar(n) => GenericType::TypeVar(n.clone()),
            GenericType::Wildcard(w) => match w {
                WildcardBound::Any => GenericType::Wildcard(WildcardBound::Any),
                WildcardBound::Extends(t) => GenericType::Wildcard(
                    WildcardBound::Extends(Box::new(t.copy())),
                ),
                WildcardBound::Super(t) => GenericType::Wildcard(
                    WildcardBound::Super(Box::new(t.copy())),
                ),
            },
        }
    }
}

impl Clone for GenericType {
    fn clone(&self) -> (r: Self)
        ensures
            r.view() == self.view(),
    {
        self.copy()
    }
}

} // verus!
