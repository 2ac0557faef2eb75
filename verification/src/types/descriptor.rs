//! JVM field/method descriptor parsing (JVMS 4.3).

use vstd::prelude::*;
use vstd::utf8;

use crate::text;

verus! {

broadcast use vstd::string::group_string_axioms;

// The ASCII codes of the descriptor grammar.

pub const OPEN: u8 = 0x28;

pub const CLOSE: u8 = 0x29;

pub const SEMICOLON: u8 = 0x3b;

pub const BYTE: u8 = 0x42;

pub const CHAR: u8 = 0x43;

pub const DOUBLE: u8 = 0x44;

pub const FLOAT: u8 = 0x46;

pub const INT: u8 = 0x49;

pub const LONG: u8 = 0x4a;

pub const CLASS: u8 = 0x4c;

pub const SHORT: u8 = 0x53;

pub const VOID: u8 = 0x56;

pub const BOOLEAN: u8 = 0x5a;

pub const ARRAY: u8 = 0x5b;

/// A JVM type as it appears in descriptors (no generics; see `signature` for those).
#[derive(Debug, PartialEq, Eq, Hash)]
pub enum JavaType {
    Void,
    Boolean,
    Byte,
    Char,
    Short,
    Int,
    Float,
    Long,
    Double,
    /// Reference type, internal name (e.g. `java/lang/String`).
    Object(String),
    Array(Box<JavaType>),
}

/// A parsed method descriptor.
#[derive(Debug, Clone, PartialEq, Eq)]
pub struct MethodDescriptor {
    pub args: Vec<JavaType>,
    pub ret: JavaType,
}

/// What a JVM type is, with names as character sequences.
pub enum JType {
    Void,
    Boolean,
    Byte,
    Char,
    Short,
    Int,
    Float,
    Long,
    Double,
    Object(Seq<char>),
    Array(Box<JType>),
}

/// What a method descriptor says.
#[verifier::ext_equal]
pub struct MType {
    pub args: Seq<JType>,
    pub ret: JType,
}

impl JavaType {
    pub open spec fn view(self) -> JType
        decreases self,
    {
        match self {
            JavaType::Void => JType::Void,
            JavaType::Boolean => JType::Boolean,
            JavaType::Byte => JType::Byte,
            JavaType::Char => JType::Char,
            JavaType::Short => JType::Short,
            JavaType::Int => JType::Int,
            JavaType::Float => JType::Float,
            JavaType::Long => JType::Long,
            JavaType::Double => JType::Double,
            JavaType::Object(n) => JType::Object(n@),
            JavaType::Array(t) => JType::Array(Box::new(t.view())),
        }
    }
}

pub open spec fn types_view(v: Seq<JavaType>) -> Seq<JType> {
    Seq::new(v.len(), |i: int| v[i].view())
}

impl MethodDescriptor {
    pub open spec fn view(self) -> MType {
        MType { args: types_view(self.args@), ret: self.ret.view() }
    }
}

impl JType {
    /// Number of local variable / operand stack slots this type occupies.
    pub open spec fn slots(self) -> nat {
        match self {
            JType::Long => 2,
            JType::Double => 2,
            JType::Void => 0,
            _ => 1,
        }
    }

    /// A value of the type takes two slots.
    pub open spec fn wide(self) -> bool {
        self is Long || self is Double
    }

    /// A value that is no reference.
    pub open spec fn primitive(self) -> bool {
        !(self is Void || self is Object || self is Array)
    }

    /// A value that arithmetic works on.
    pub open spec fn numeric(self) -> bool {
        self is Byte || self is Char || self is Short || self is Int || self is Float || self is Long || self is Double
    }

    /// A whole number.
    pub open spec fn integral(self) -> bool {
        self is Byte || self is Char || self is Short || self is Int || self is Long
    }

    /// An object or an array.
    pub open spec fn reference(self) -> bool {
        self is Object || self is Array
    }

    /// The letter of a primitive type or `void` in a descriptor.
    pub open spec fn letter(self) -> Option<char> {
        match self {
            JType::Void => Some('V'),
            JType::Boolean => Some('Z'),
            JType::Byte => Some('B'),
            JType::Char => Some('C'),
            JType::Short => Some('S'),
            JType::Int => Some('I'),
            JType::Float => Some('F'),
            JType::Long => Some('J'),
            JType::Double => Some('D'),
            _ => None,
        }
    }

    /// The descriptor of the type.
    pub open spec fn descriptor(self) -> Seq<char>
        decreases self,
    {
        match self {
            JType::Array(t) => seq!['['] + t.descriptor(),
            JType::Object(n) => seq!['L'] + n + seq![';'],
            _ => seq![self.letter()->0],
        }
    }

    /// The type in Java source.
    pub open spec fn java(self, qualify: bool) -> Seq<char>
        decreases self,
    {
        match self {
            JType::Void => "void"@,
            JType::Boolean => "boolean"@,
            JType::Byte => "byte"@,
            JType::Char => "char"@,
            JType::Short => "short"@,
            JType::Int => "int"@,
            JType::Float => "float"@,
            JType::Long => "long"@,
            JType::Double => "double"@,
            JType::Object(n) => java_name(n, qualify),
            JType::Array(t) => t.java(qualify) + "[]"@,
        }
    }

    /// No name in the type holds the `;` that ends it.
    pub open spec fn named_ok(self) -> bool
        decreases self,
    {
        match self {
            JType::Array(t) => t.named_ok(),
            JType::Object(n) => !n.contains(';'),
            _ => true,
        }
    }
}

impl MType {
    /// The descriptor of the method type.
    pub open spec fn descriptor(self) -> Seq<char> {
        seq!['('] + joined(self.args) + seq![')'] + self.ret.descriptor()
    }
}

/// The descriptors of `ts` one after the other.
pub open spec fn joined(ts: Seq<JType>) -> Seq<char>
    decreases ts.len(),
{
    if ts.len() == 0 {
        Seq::empty()
    } else {
        joined(ts.drop_last()) + ts.last().descriptor()
    }
}

/// The total number of slots of `ts`.
pub open spec fn slot_sum(ts: Seq<JType>) -> nat
    decreases ts.len(),
{
    if ts.len() == 0 {
        0
    } else {
        slot_sum(ts.drop_last()) + ts.last().slots()
    }
}

// ---------------------------------------------------------------------------
// Source names
// ---------------------------------------------------------------------------

/// The last of the segments that `/` and `$` separate.
pub open spec fn last_segment(s: Seq<char>) -> Seq<char> {
    text::after_last(text::after_last(s, '/'), '$')
}

/// `s` starts with a digit and is more than digits: `s` without the digits is
/// the source name of a local class.
pub open spec fn is_local(s: Seq<char>) -> bool {
    s.len() > 0 && text::is_digit(s[0]) && text::strip_digits(s).len() > 0
}

/// Some segment behind a `$` is empty or ends in `/`: a `$` that separates nothing.
pub open spec fn has_gap(s: Seq<char>) -> bool {
    exists|k: int|
        1 <= k < text::split(s, '$').len() && text::after_last(#[trigger] text::split(s, '$')[k], '/').len() == 0
}

/// The source form without the package.
pub open spec fn simple_name(s: Seq<char>) -> Seq<char> {
    if is_local(last_segment(s)) {
        text::strip_digits(last_segment(s))
    } else if has_gap(s) {
        text::after_last(s, '/')
    } else {
        text::replace(text::after_last(s, '/'), '$', '.')
    }
}

/// The name without the package, the nesting left as it is spelled.
pub open spec fn flat_name(s: Seq<char>) -> Seq<char> {
    if is_local(last_segment(s)) {
        text::strip_digits(last_segment(s))
    } else {
        text::after_last(s, '/')
    }
}

/// The unqualified form that the first local-class or empty segment from
/// position `k` on forces; `None` when all segments are ordinary.
pub open spec fn forced(simple: Seq<char>, segs: Seq<Seq<char>>, k: nat) -> Option<Seq<char>>
    decreases segs.len() - k,
{
    if k >= segs.len() {
        None
    } else if is_local(segs[k as int]) {
        Some(text::strip_digits(segs[k as int]))
    } else if segs[k as int].len() == 0 {
        Some(simple)
    } else {
        forced(simple, segs, (k + 1) as nat)
    }
}

pub open spec fn dotted_name(s: Seq<char>) -> Seq<char> {
    let pkg = text::before_last(s, '/');
    let simple = text::after_last(s, '/');
    match forced(simple, text::split(simple, '$'), 1) {
        Some(t) => t,
        None => (if pkg.len() > 0 {
            text::replace(pkg, '/', '.').push('.')
        } else {
            Seq::empty()
        }) + text::replace(simple, '$', '.'),
    }
}

pub open spec fn java_name(s: Seq<char>, qualify: bool) -> Seq<char> {
    if qualify {
        dotted_name(s)
    } else {
        flat_name(s)
    }
}

/// Convert an internal binary name (`java/lang/String`, `a/b/C$D`) to Java
/// source form. With `qualify=false` only the last segment (after the final
/// `/`) is kept, with `$` preserved (the emitter resolves nesting later).
pub fn internal_name_to_java(internal: &str, qualify: bool) -> (r: String)
    ensures
        r@ == java_name(internal@, qualify),
{
    if qualify {
        dotted_source(internal)
    } else {
        flat_source(internal)
    }
}

fn flat_source(internal: &str) -> (r: String)
    ensures
        r@ == flat_name(internal@),
{
    let v = text::chars_of(internal);
    let tail = without_package(&v);
    match local_name(&tail) {
        Some(t) => text::to_text(&t),
        None => text::to_text(&tail),
    }
}

fn without_package(v: &Vec<char>) -> (r: Vec<char>)
    ensures
        r@ == text::after_last(v@, '/'),
{
    let p = text::last_part(v, '/');
    let r = text::part(v, p, v.len());
    assert(r@ =~= v@.skip(p as int));
    r
}

/// The source name of a local class, by its name without the package.
fn local_name(tail: &Vec<char>) -> (r: Option<Vec<char>>)
    ensures
        r is Some <==> is_local(text::after_last(tail@, '$')),
        r matches Some(t) ==> t@ == text::strip_digits(text::after_last(tail@, '$')),
{
    let q = text::last_part(tail, '$');
    let seg = text::part(tail, q, tail.len());
    assert(seg@ =~= tail@.skip(q as int));
    local_part(&seg)
}

fn leaves_gap(v: &Vec<char>) -> (r: bool)
    ensures
        r == has_gap(v@),
{
    let segs = text::pieces(v, '$');
    let ghost ss = text::texts(segs@);
    let mut k: usize = 1;
    while k < segs.len()
        invariant
            1 <= k <= segs@.len(),
            ss == text::texts(segs@),
            ss == text::split(v@, '$'),
            forall|j: int| 1 <= j < k ==> text::after_last(#[trigger] ss[j], '/').len() != 0,
        decreases segs@.len() - k,
    {
        assert(ss[k as int] == segs@[k as int]@);
        if without_package(&segs[k]).len() == 0 {
            return true;
        }
        k += 1;
    }
    false
}

fn local_part(v: &Vec<char>) -> (r: Option<Vec<char>>)
    ensures
        r is Some <==> is_local(v@),
        r matches Some(t) ==> t@ == text::strip_digits(v@),
{
    if v.len() > 0 && text::digit(v[0]) {
        let t = text::without_digits(v);
        if t.len() > 0 {
            return Some(t);
        }
    }
    None
}

/// Source form of a `$`-bearing binary name. `Outer$Inner` renders as
/// `Outer.Inner`, but desugared LOCAL classes (`Outer$1Name`) have no
/// qualified form - their source name is the digit-prefix-stripped simple
/// name, referenced without qualification - and a literal-`$` name
/// (`DolTest2$$dollah$$`) must keep its `$` (`A..b` does not parse).
pub fn binary_simple_name(internal: &str) -> (r: String)
    ensures
        r@ == simple_name(internal@),
{
    let v = text::chars_of(internal);
    let tail = without_package(&v);
    if let Some(t) = local_name(&tail) {
        return text::to_text(&t);
    }
    if leaves_gap(&v) {
        return text::to_text(&tail);
    }
    let mut out: Vec<char> = Vec::new();
    text::append_replaced(&mut out, &tail, '$', '.');
    assert(out@ =~= text::replace(tail@, '$', '.'));
    text::to_text(&out)
}

/// Fully qualified source form (`a.b.Outer.Inner`), applying the same
/// local-class / literal-`$` rules per segment.
pub fn dotted_source(internal: &str) -> (r: String)
    ensures
        r@ == dotted_name(internal@),
{
    let v = text::chars_of(internal);
    let p = text::last_part(&v, '/');
    let simple = text::part(&v, p, v.len());
    assert(simple@ =~= v@.skip(p as int));
    let segs = text::pieces(&simple, '$');
    let ghost ss = text::texts(segs@);
    let mut k: usize = 1;
    while k < segs.len()
        invariant
            1 <= k <= segs@.len(),
            ss == text::texts(segs@),
            forced(simple@, ss, 1) == forced(simple@, ss, k as nat),
            v@ == internal@,
            simple@ == text::after_last(v@, '/'),
            ss == text::split(simple@, '$'),
        decreases segs@.len() - k,
    {
        assert(ss[k as int] == segs@[k as int]@);
        if let Some(t) = local_part(&segs[k]) {
            return text::to_text(&t);
        }
        if segs[k].len() == 0 {
            return text::to_text(&simple);
        }
        k += 1;
    }
    let mut out: Vec<char> = Vec::new();
    if p > 1 {
        let pkg = text::part(&v, 0, p - 1);
        assert(pkg@ =~= v@.take(p - 1));
        text::append_replaced(&mut out, &pkg, '/', '.');
        out.push('.');
        assert(out@ =~= text::replace(pkg@, '/', '.').push('.'));
    } else {
        assert(text::before_last(v@, '/').len() == 0);
        assert(out@ =~= Seq::empty());
    }
    text::append_replaced(&mut out, &simple, '$', '.');
    text::to_text(&out)
}

impl JavaType {
    /// Number of local variable / operand stack slots this type occupies.
    pub fn slot_size(&self) -> (r: usize)
        ensures
            r == self@.slots(),
    {
        match self {
            JavaType::Long => 2,
            JavaType::Double => 2,
            JavaType::Void => 0,
            _ => 1,
        }
    }

    pub fn is_wide(&self) -> (r: bool)
        ensures
            r == self@.wide(),
            r == (self is Long || self is Double),
    {
        match self {
            JavaType::Long => true,
            JavaType::Double => true,
            _ => false,
        }
    }

    pub fn is_primitive(&self) -> (r: bool)
        ensures
            r == self@.primitive(),
            r == !(self is Void || self is Object || self is Array),
    {
        match self {
            JavaType::Void => false,
            JavaType::Object(_) => false,
            JavaType::Array(_) => false,
            _ => true,
        }
    }

    pub fn is_numeric(&self) -> (r: bool)
        ensures
            r == self@.numeric(),
            r == (self is Byte || self is Char || self is Short || self is Int || self is Float
                || self is Long || self is Double),
    {
        match self {
            JavaType::Boolean => false,
            _ => self.is_primitive(),
        }
    }

    pub fn is_integral(&self) -> (r: bool)
        ensures
            r == self@.integral(),
            r == (self is Byte || self is Char || self is Short || self is Int || self is Long),
    {
        match self {
            JavaType::Byte => true,
            JavaType::Char => true,
            JavaType::Short => true,
            JavaType::Int => true,
            JavaType::Long => true,
            _ => false,
        }
    }

    pub fn is_reference(&self) -> (r: bool)
        ensures
            r == self@.reference(),
            r == (self is Object || self is Array),
    {
        match self {
            JavaType::Object(_) => true,
            JavaType::Array(_) => true,
            _ => false,
        }
    }

    /// The JVM descriptor character for primitives; None otherwise.
    pub fn primitive_char(&self) -> (r: Option<char>)
        ensures
            r == self@.letter(),
    {
        match self {
            JavaType::Void => Some('V'),
            JavaType::Boolean => Some('Z'),
            JavaType::Byte => Some('B'),
            JavaType::Char => Some('C'),
            JavaType::Short => Some('S'),
            JavaType::Int => Some('I'),
            JavaType::Float => Some('F'),
            JavaType::Long => Some('J'),
            JavaType::Double => Some('D'),
            _ => None,
        }
    }

    fn descriptor_onto(&self, out: &mut Vec<char>)
        ensures
            final(out)@ == old(out)@ + self@.descriptor(),
        decreases self,
    {
        let ghost o = out@;
        match self {
            JavaType::Array(t) => {
                out.push('[');
                t.descriptor_onto(out);
                assert(o.push('[') + t@.descriptor() =~= o + (seq!['['] + t@.descriptor()));
            },
            JavaType::Object(n) => {
                out.push('L');
                text::append_str(out, n.as_str());
                out.push(';');
                assert((o.push('L') + n@).push(';') =~= o + (seq!['L'] + n@ + seq![';']));
            },
            _ => {
                let c = self.primitive_char().unwrap();
                out.push(c);
                assert(o.push(c) =~= o + seq![c]);
            },
        }
    }

    /// Re-render as a JVM descriptor string.
    pub fn to_descriptor(&self) -> (r: String)
        ensures
            r@ == self@.descriptor(),
    {
        let mut out: Vec<char> = Vec::new();
        self.descriptor_onto(&mut out);
        assert(out@ =~= self@.descriptor());
        text::to_text(&out)
    }

    fn java_onto(&self, qualify: bool, out: &mut Vec<char>)
        ensures
            final(out)@ == old(out)@ + self@.java(qualify),
        decreases self,
    {
        let ghost o = out@;
        match self {
            JavaType::Void => text::append_str(out, "void"),
            JavaType::Boolean => text::append_str(out, "boolean"),
            JavaType::Byte => text::append_str(out, "byte"),
            JavaType::Char => text::append_str(out, "char"),
            JavaType::Short => text::append_str(out, "short"),
            JavaType::Int => text::append_str(out, "int"),
            JavaType::Float => text::append_str(out, "float"),
            JavaType::Long => text::append_str(out, "long"),
            JavaType::Double => text::append_str(out, "double"),
            JavaType::Object(n) => {
                let s = internal_name_to_java(n.as_str(), qualify);
                text::append_str(out, s.as_str());
            },
            JavaType::Array(t) => {
                t.java_onto(qualify, out);
                text::append_str(out, "[]");
                assert(o + t@.java(qualify) + "[]"@ =~= o + (t@.java(qualify) + "[]"@));
            },
        }
    }

    /// Render as a Java source type name. `qualify` controls whether
    /// object types use fully qualified dotted names.
    pub fn to_java(&self, qualify: bool) -> (r: String)
        ensures
            r@ == self@.java(qualify),
    {
        let mut out: Vec<char> = Vec::new();
        self.java_onto(qualify, &mut out);
        assert(out@ =~= self@.java(qualify));
        text::to_text(&out)
    }

    /// The same type again.
    pub fn copy(&self) -> (r: JavaType)
        ensures
            r@ == self@,
        decreases self,
    {
        match self {
            JavaType::Void => JavaType::Void,
            JavaType::Boolean => JavaType::Boolean,
            JavaType::Byte => JavaType::Byte,
            JavaType::Char => JavaType::Char,
            JavaType::Short => JavaType::Short,
            JavaType::Int => JavaType::Int,
            JavaType::Float => JavaType::Float,
            JavaType::Long => JavaType::Long,
            JavaType::Double => JavaType::Double,
            JavaType::Object(n) => JavaType::Object(n.clone()),
            JavaType::Array(t) => JavaType::Array(Box::new(t.copy())),
        }
    }
}

impl Clone for JavaType {
    fn clone(&self) -> (r: Self)
        ensures
            r@ == self@,
    {
        self.copy()
    }
}

impl MethodDescriptor {
    /// Total argument slots (long/double count as two).
    pub fn arg_slots(&self) -> (r: usize)
        requires
            slot_sum(self@.args) <= usize::MAX,
        ensures
            r == slot_sum(self@.args),
    {
        let ghost ts = self@.args;
        let mut r: usize = 0;
        let mut i: usize = 0;
        while i < self.args.len()
            invariant
                ts == self@.args,
                slot_sum(ts) <= usize::MAX,
                i <= self.args@.len(),
                r == slot_sum(ts.take(i as int)),
            decreases self.args@.len() - i,
        {
            proof {
                assert(ts.take(i + 1).drop_last() =~= ts.take(i as int));
                assert(ts.take(i + 1).last() == ts[i as int]);
                lemma_slots_prefix(ts, i + 1);
            }
            r = r + self.args[i].slot_size();
            i += 1;
        }
        assert(ts.take(i as int) =~= ts);
        r
    }

    /// The descriptor `(args)ret`.
    pub fn to_descriptor(&self) -> (r: String)
        ensures
            r@ == self@.descriptor(),
    {
        let ghost ts = self@.args;
        let mut out: Vec<char> = Vec::new();
        out.push('(');
        let mut i: usize = 0;
        assert(out@ =~= seq!['('] + joined(ts.take(0)));
        while i < self.args.len()
            invariant
                ts == self@.args,
                i <= self.args@.len(),
                out@ == seq!['('] + joined(ts.take(i as int)),
            decreases self.args@.len() - i,
        {
            let ghost o = out@;
            self.args[i].descriptor_onto(&mut out);
            proof {
                assert(ts.take(i + 1).drop_last() =~= ts.take(i as int));
                assert(ts.take(i + 1).last() == ts[i as int]);
                assert(out@ =~= seq!['('] + joined(ts.take(i + 1)));
            }
            i += 1;
        }
        assert(ts.take(i as int) =~= ts);
        let ghost o = out@;
        out.push(')');
        self.ret.descriptor_onto(&mut out);
        assert(out@ =~= self@.descriptor());
        text::to_text(&out)
    }
}

proof fn lemma_slots_prefix(ts: Seq<JType>, k: int)
    requires
        0 <= k <= ts.len(),
    ensures
        slot_sum(ts.take(k)) <= slot_sum(ts),
    decreases ts.len(),
{
    if k < ts.len() {
        lemma_slots_prefix(ts.drop_last(), k);
        assert(ts.drop_last().take(k) =~= ts.take(k));
    } else {
        assert(ts.take(k) =~= ts);
    }
}

// ---------------------------------------------------------------------------
// Parsing
// ---------------------------------------------------------------------------

/// Position of the first `;` at or behind `i`.
pub open spec fn semicolon(b: Seq<u8>, i: int) -> Option<int>
    decreases b.len() - i,
{
    if i < 0 || i >= b.len() {
        None
    } else if b[i] == SEMICOLON {
        Some(i)
    } else {
        semicolon(b, i + 1)
    }
}

/// The type whose descriptor starts at `i`, and the position behind it.
pub open spec fn type_at(b: Seq<u8>, i: int) -> Option<(JType, int)>
    decreases b.len() - i,
{
    if i < 0 || i >= b.len() {
        None
    } else if b[i] == VOID {
        Some((JType::Void, i + 1))
    } else if b[i] == BOOLEAN {
        Some((JType::Boolean, i + 1))
    } else if b[i] == BYTE {
        Some((JType::Byte, i + 1))
    } else if b[i] == CHAR {
        Some((JType::Char, i + 1))
    } else if b[i] == SHORT {
        Some((JType::Short, i + 1))
    } else if b[i] == INT {
        Some((JType::Int, i + 1))
    } else if b[i] == FLOAT {
        Some((JType::Float, i + 1))
    } else if b[i] == LONG {
        Some((JType::Long, i + 1))
    } else if b[i] == DOUBLE {
        Some((JType::Double, i + 1))
    } else if b[i] == ARRAY {
        match type_at(b, i + 1) {
            Some((t, n)) => Some((JType::Array(Box::new(t)), n)),
            None => None,
        }
    } else if b[i] == CLASS {
        match semicolon(b, i + 1) {
            Some(e) => if utf8::valid_utf8(b.subrange(i + 1, e)) {
                Some((JType::Object(utf8::decode_utf8(b.subrange(i + 1, e))), e + 1))
            } else {
                None
            },
            None => None,
        }
    } else {
        None
    }
}

/// The one type that `b` spells.
pub open spec fn field_of(b: Seq<u8>) -> Option<JType> {
    match type_at(b, 0) {
        Some((t, n)) => if n == b.len() {
            Some(t)
        } else {
            None
        },
        None => None,
    }
}

/// The types from `i` up to the first `)` that follows a whole type, and the
/// position of that `)`.
pub open spec fn types_at(b: Seq<u8>, i: int) -> Option<(Seq<JType>, int)>
    decreases b.len() - i,
{
    if i < 0 || i >= b.len() {
        None
    } else if b[i] == CLOSE {
        Some((Seq::empty(), i))
    } else {
        match type_at(b, i) {
            Some((t, n)) => if i < n <= b.len() {
                match types_at(b, n) {
                    Some((ts, e)) => Some((seq![t] + ts, e)),
                    None => None,
                }
            } else {
                None
            },
            None => None,
        }
    }
}

/// The method type that `b` spells.
pub open spec fn method_of(b: Seq<u8>) -> Option<MType> {
    if b.len() == 0 || b[0] != OPEN {
        None
    } else {
        match types_at(b, 1) {
            Some((args, e)) => match type_at(b, e + 1) {
                Some((ret, n)) => if n == b.len() {
                    Some(MType { args, ret })
                } else {
                    None
                },
                None => None,
            },
            None => None,
        }
    }
}

/// The text that `b` encodes, when it is valid UTF-8. `std::str::from_utf8`
/// accepts exactly valid UTF-8, and the string it gives has the characters
/// that the bytes encode.
#[verifier::external_body]
fn utf8_text(b: &[u8]) -> (r: Option<String>)
    ensures
        r is Some <==> utf8::valid_utf8(b@),
        r matches Some(s) ==> s@ == utf8::decode_utf8(b@),
{
    std::str::from_utf8(b).ok().map(|s| s.to_string())
}

pub open spec fn type_result(r: Option<(JavaType, usize)>) -> Option<(JType, int)> {
    match r {
        Some((t, n)) => Some((t@, n as int)),
        None => None,
    }
}

pub proof fn lemma_semicolon(b: Seq<u8>, i: int)
    requires
        0 <= i,
    ensures
        semicolon(b, i) matches Some(e) ==> i <= e < b.len() && b[e] == SEMICOLON && forall|k: int| i <= k < e ==> b[k] != SEMICOLON,
        semicolon(b, i) is None ==> forall|k: int| i <= k < b.len() ==> b[k] != SEMICOLON,
    decreases b.len() - i,
{
    if i < b.len() && b[i] != SEMICOLON {
        lemma_semicolon(b, i + 1);
    }
}

pub proof fn lemma_type_at(b: Seq<u8>, i: int)
    ensures
        type_at(b, i) matches Some((t, n)) ==> 0 <= i < n <= b.len(),
    decreases b.len() - i,
{
    if 0 <= i < b.len() {
        if b[i] == ARRAY {
            lemma_type_at(b, i + 1);
        }
        lemma_semicolon(b, i + 1);
    }
}

/// Parse one type starting at `i`; returns (type, index after).
pub fn parse_type_at(b: &[u8], i: usize) -> (r: Option<(JavaType, usize)>)
    ensures
        type_result(r) == type_at(b@, i as int),
    decreases b@.len() - i,
{
    if i >= b.len() {
        return None;
    }
    let c = b[i];
    if c == VOID {
        Some((JavaType::Void, i + 1))
    } else if c == BOOLEAN {
        Some((JavaType::Boolean, i + 1))
    } else if c == BYTE {
        Some((JavaType::Byte, i + 1))
    } else if c == CHAR {
        Some((JavaType::Char, i + 1))
    } else if c == SHORT {
        Some((JavaType::Short, i + 1))
    } else if c == INT {
        Some((JavaType::Int, i + 1))
    } else if c == FLOAT {
        Some((JavaType::Float, i + 1))
    } else if c == LONG {
        Some((JavaType::Long, i + 1))
    } else if c == DOUBLE {
        Some((JavaType::Double, i + 1))
    } else if c == ARRAY {
        match parse_type_at(b, i + 1) {
            Some((t, n)) => Some((JavaType::Array(Box::new(t)), n)),
            None => None,
        }
    } else if c == CLASS {
        let mut e: usize = i + 1;
        while e < b.len() && b[e] != SEMICOLON
            invariant
                i < e <= b@.len(),
                semicolon(b@, e as int) == semicolon(b@, i + 1),
            decreases b@.len() - e,
        {
            e += 1;
        }
        if e >= b.len() {
            return None;
        }
        let name = vstd::slice::slice_subrange(b, i + 1, e);
        match utf8_text(name) {
            Some(s) => Some((JavaType::Object(s), e + 1)),
            None => None,
        }
    } else {
        None
    }
}

/// Parse a field descriptor (single type). Returns None on malformed input.
pub fn parse_field_descriptor(s: &str) -> (r: Option<JavaType>)
    ensures
        (match r {
            Some(t) => Some(t@),
            None => None,
        }) == field_of(utf8::encode_utf8(s@)),
{
    let b = s.as_bytes();
    match parse_type_at(b, 0) {
        Some((t, n)) => if n == b.len() {
            Some(t)
        } else {
            None
        },
        None => None,
    }
}

/// Parse a method descriptor `(args)ret`.
pub fn parse_method_descriptor(s: &str) -> (r: Option<MethodDescriptor>)
    ensures
        (match r {
            Some(d) => Some(d@),
            None => None,
        }) == method_of(utf8::encode_utf8(s@)),
{
    let b = s.as_bytes();
    if b.len() == 0 || b[0] != OPEN {
        return None;
    }
    let mut i: usize = 1;
    let mut args: Vec<JavaType> = Vec::new();
    assert(types_view(args@) =~= Seq::empty());
    while i < b.len() && b[i] != CLOSE
        invariant
            b@ == utf8::encode_utf8(s@),
            b@.len() > 0,
            b@[0] == OPEN,
            1 <= i <= b@.len(),
            (match types_at(b@, i as int) {
                Some((ts, e)) => Some((types_view(args@) + ts, e)),
                None => None,
            }) == types_at(b@, 1),
        decreases b@.len() - i,
    {
        proof {
            lemma_type_at(b@, i as int);
        }
        let ghost before = types_view(args@);
        match parse_type_at(b, i) {
            Some((t, n)) => {
                let ghost tv = t@;
                args.push(t);
                assert(types_view(args@) =~= before.push(tv));
                proof {
                    if let Some((ts, e)) = types_at(b@, n as int) {
                        assert(before + (seq![tv] + ts) =~= before.push(tv) + ts);
                    }
                }
                i = n;
            },
            None => {
                return None;
            },
        }
    }
    if i >= b.len() {
        return None;
    }
    assert(types_view(args@) + Seq::<JType>::empty() =~= types_view(args@));
    match parse_type_at(b, i + 1) {
        Some((ret, n)) => if n == b.len() {
            let d = MethodDescriptor { args, ret };
            Some(d)
        } else {
            None
        },
        None => None,
    }
}

// ---------------------------------------------------------------------------
// Round trips
// ---------------------------------------------------------------------------

proof fn lemma_encode_concat(a: Seq<char>, b: Seq<char>)
    ensures
        utf8::encode_utf8(a + b) == utf8::encode_utf8(a) + utf8::encode_utf8(b),
    decreases a.len(),
{
    if a.len() == 0 {
        assert(a + b =~= b);
        assert(utf8::encode_utf8(a) =~= Seq::empty());
        assert(utf8::encode_utf8(a) + utf8::encode_utf8(b) =~= utf8::encode_utf8(b));
    } else {
        let c = a + b;
        assert(c.drop_first() =~= a.drop_first() + b);
        assert(c[0] == a[0]);
        lemma_encode_concat(a.drop_first(), b);
        assert(utf8::encode_utf8(c) =~= utf8::encode_utf8(a) + utf8::encode_utf8(b));
    }
}

proof fn lemma_encode_ascii(c: char)
    requires
        (c as u32) < 128,
    ensures
        utf8::encode_utf8(seq![c]) == seq![c as u8],
{
    let s = seq![c];
    assert(utf8::is_ascii_chars(s)) by {
        assert(s[0] == c);
    }
    utf8::is_ascii_chars_encode_utf8(s);
    assert(utf8::encode_utf8(s) =~= seq![c as u8]);
}

/// A parsed type has the bytes it was parsed from as its descriptor.
pub proof fn law_type_roundtrip(b: Seq<u8>, i: int)
    requires
        type_at(b, i) is Some,
    ensures
        ({
            let (t, n) = type_at(b, i)->0;
            0 <= i < n <= b.len() && utf8::encode_utf8(t.descriptor()) == b.subrange(i, n)
        }),
    decreases b.len() - i,
{
    let (t, n) = type_at(b, i)->0;
    lemma_type_at(b, i);
    if b[i] == ARRAY {
        law_type_roundtrip(b, i + 1);
        let (u, m) = type_at(b, i + 1)->0;
        lemma_encode_concat(seq!['['], u.descriptor());
        lemma_encode_ascii('[');
        assert(b.subrange(i, n) =~= seq![ARRAY] + b.subrange(i + 1, n));
    } else if b[i] == CLASS {
        lemma_semicolon(b, i + 1);
        let e = semicolon(b, i + 1)->0;
        let name = b.subrange(i + 1, e);
        let d = utf8::decode_utf8(name);
        utf8::decode_utf8_encode_utf8(name);
        lemma_encode_concat(seq!['L'], d);
        lemma_encode_concat(seq!['L'] + d, seq![';']);
        lemma_encode_ascii('L');
        lemma_encode_ascii(';');
        assert(b.subrange(i, n) =~= seq![CLASS] + name + seq![SEMICOLON]);
    } else {
        lemma_encode_ascii(t.letter()->0);
        assert(b.subrange(i, n) =~= seq![b[i]]);
    }
}

proof fn lemma_types_roundtrip(b: Seq<u8>, i: int)
    requires
        types_at(b, i) is Some,
    ensures
        ({
            let (ts, e) = types_at(b, i)->0;
            0 <= i <= e < b.len() && b[e] == CLOSE && utf8::encode_utf8(joined(ts)) == b.subrange(i, e)
        }),
    decreases b.len() - i,
{
    if b[i] == CLOSE {
        assert(b.subrange(i, i) =~= Seq::empty());
        assert(utf8::encode_utf8(Seq::empty()) =~= Seq::empty());
    } else {
        let (t, n) = type_at(b, i)->0;
        law_type_roundtrip(b, i);
        lemma_types_roundtrip(b, n);
        let (ts, e) = types_at(b, n)->0;
        lemma_joined_front(t, ts);
        lemma_encode_concat(t.descriptor(), joined(ts));
        assert(b.subrange(i, e) =~= b.subrange(i, n) + b.subrange(n, e));
    }
}

proof fn lemma_joined_front(t: JType, ts: Seq<JType>)
    ensures
        joined(seq![t] + ts) == t.descriptor() + joined(ts),
    decreases ts.len(),
{
    let all = seq![t] + ts;
    if ts.len() == 0 {
        assert(all.drop_last() =~= Seq::empty());
        assert(joined(Seq::<JType>::empty()) =~= Seq::empty());
        assert(all.last() == t);
        assert(joined(all) =~= t.descriptor() + joined(ts));
    } else {
        assert(all.drop_last() =~= seq![t] + ts.drop_last());
        lemma_joined_front(t, ts.drop_last());
        assert(joined(all) =~= t.descriptor() + joined(ts));
    }
}

/// Rendering a parsed method descriptor gives the text that was parsed.
pub proof fn law_parse_then_render(s: Seq<char>)
    requires
        method_of(utf8::encode_utf8(s)) is Some,
    ensures
        (method_of(utf8::encode_utf8(s))->0).descriptor() == s,
{
    let b = utf8::encode_utf8(s);
    let m = method_of(b)->0;
    lemma_types_roundtrip(b, 1);
    let (args, e) = types_at(b, 1)->0;
    law_type_roundtrip(b, e + 1);
    lemma_encode_concat(seq!['('], joined(args));
    lemma_encode_concat(seq!['('] + joined(args), seq![')']);
    lemma_encode_concat(seq!['('] + joined(args) + seq![')'], m.ret.descriptor());
    lemma_encode_ascii('(');
    lemma_encode_ascii(')');
    assert(b =~= seq![OPEN] + b.subrange(1, e) + seq![CLOSE] + b.subrange(e + 1, b.len() as int));
    assert(utf8::encode_utf8(m.descriptor()) == b);
    utf8::encode_utf8_decode_utf8(s);
    utf8::encode_utf8_decode_utf8(m.descriptor());
}

/// Rendering a parsed field descriptor gives the text that was parsed.
pub proof fn law_parse_then_render_field(s: Seq<char>)
    requires
        field_of(utf8::encode_utf8(s)) is Some,
    ensures
        (field_of(utf8::encode_utf8(s))->0).descriptor() == s,
{
    let b = utf8::encode_utf8(s);
    law_type_roundtrip(b, 0);
    assert(b.subrange(0, b.len() as int) =~= b);
    let t = field_of(b)->0;
    utf8::encode_utf8_decode_utf8(s);
    utf8::encode_utf8_decode_utf8(t.descriptor());
}

/// No byte of the encoding of a text without `;` is that of `;`.
proof fn lemma_no_semicolon(s: Seq<char>)
    requires
        !s.contains(';'),
    ensures
        forall|k: int| 0 <= k < utf8::encode_utf8(s).len() ==> utf8::encode_utf8(s)[k] != SEMICOLON,
    decreases s.len(),
{
    if s.len() > 0 {
        let c = s[0];
        let rest = s.drop_first();
        assert(!rest.contains(';')) by {
            if rest.contains(';') {
                let k = choose|k: int| 0 <= k < rest.len() && rest[k] == ';';
                assert(s[k + 1] == ';');
            }
        }
        lemma_no_semicolon(rest);
        assert(s[0] != ';');
        assert(c as u32 != 0x3b) by {
            utf8::char_u32_cast(c, c as u32);
            assert(';' as u32 == 0x3b);
            utf8::char_u32_cast(';', ';' as u32);
        }
        lemma_scalar_bytes(c as u32);
        let head = utf8::encode_scalar(c as u32);
        assert(utf8::encode_utf8(s) == head + utf8::encode_utf8(rest));
        assert forall|k: int| 0 <= k < utf8::encode_utf8(s).len() implies utf8::encode_utf8(s)[k] != SEMICOLON by {
            if k < head.len() {
                assert(head[k] != SEMICOLON);
            } else {
                assert(utf8::encode_utf8(rest)[k - head.len()] != SEMICOLON);
            }
        }
    }
}

proof fn lemma_scalar_bytes(v: u32)
    requires
        v != 0x3b,
    ensures
        forall|k: int| 0 <= k < utf8::encode_scalar(v).len() ==> utf8::encode_scalar(v)[k] != SEMICOLON,
{
    assert(0x80u8 | ((v & 0x3f) as u8) != 0x3bu8) by (bit_vector);
    assert(0x80u8 | (((v >> 6) & 0x3f) as u8) != 0x3bu8) by (bit_vector);
    assert(0x80u8 | (((v >> 12) & 0x3f) as u8) != 0x3bu8) by (bit_vector);
    assert(0xc0u8 | (((v >> 6) & 0x1f) as u8) != 0x3bu8) by (bit_vector);
    assert(0xe0u8 | (((v >> 12) & 0x0f) as u8) != 0x3bu8) by (bit_vector);
    assert(0xf0u8 | (((v >> 18) & 0x07) as u8) != 0x3bu8) by (bit_vector);
    assert(v <= 0x7f && v != 0x3b ==> (v & 0x7f) as u8 != 0x3bu8) by (bit_vector);
}

proof fn lemma_semicolon_at(b: Seq<u8>, i: int, e: int)
    requires
        0 <= i <= e < b.len(),
        b[e] == SEMICOLON,
        forall|k: int| i <= k < e ==> b[k] != SEMICOLON,
    ensures
        semicolon(b, i) == Some(e),
    decreases e - i,
{
    if i < e {
        lemma_semicolon_at(b, i + 1, e);
    }
}

/// A rendered type parses back to itself wherever it stands.
pub proof fn law_render_then_parse(t: JType, before: Seq<u8>, after: Seq<u8>)
    requires
        t.named_ok(),
    ensures
        type_at(before + utf8::encode_utf8(t.descriptor()) + after, before.len() as int) == Some(
            (t, (before.len() + utf8::encode_utf8(t.descriptor()).len()) as int),
        ),
    decreases t,
{
    let d = utf8::encode_utf8(t.descriptor());
    let b = before + d + after;
    let i = before.len() as int;
    match t {
        JType::Array(u) => {
            lemma_encode_concat(seq!['['], u.descriptor());
            lemma_encode_ascii('[');
            let du = utf8::encode_utf8(u.descriptor());
            assert(d[0] == ARRAY);
            law_render_then_parse(*u, before.push(ARRAY), after);
            assert(before.push(ARRAY) + du + after =~= b);
        },
        JType::Object(n) => {
            lemma_encode_concat(seq!['L'], n);
            lemma_encode_concat(seq!['L'] + n, seq![';']);
            lemma_encode_ascii('L');
            lemma_encode_ascii(';');
            let dn = utf8::encode_utf8(n);
            assert(d =~= seq![CLASS] + dn + seq![SEMICOLON]);
            lemma_no_semicolon(n);
            let e = i + 1 + dn.len();
            assert(b[i] == CLASS);
            assert(b[e] == SEMICOLON);
            assert forall|k: int| i + 1 <= k < e implies b[k] != SEMICOLON by {
                assert(b[k] == dn[k - i - 1]);
            }
            lemma_semicolon_at(b, i + 1, e);
            assert(b.subrange(i + 1, e) =~= dn);
            utf8::encode_utf8_valid_utf8(n);
            utf8::encode_utf8_decode_utf8(n);
        },
        _ => {
            lemma_encode_ascii(t.letter()->0);
            assert(d =~= seq![t.letter()->0 as u8]);
            assert(b[i] == d[0]);
        },
    }
}

/// The first byte of a rendered type does not close an argument list.
proof fn lemma_first_byte(t: JType)
    ensures
        utf8::encode_utf8(t.descriptor()).len() > 0,
        utf8::encode_utf8(t.descriptor())[0] != CLOSE,
{
    let d = t.descriptor();
    let c = d[0];
    assert(d =~= seq![c] + d.skip(1));
    lemma_encode_concat(seq![c], d.skip(1));
    lemma_encode_ascii(c);
}

proof fn lemma_types_parse(ts: Seq<JType>, before: Seq<u8>, after: Seq<u8>)
    requires
        forall|k: int| 0 <= k < ts.len() ==> (#[trigger] ts[k]).named_ok(),
    ensures
        types_at(before + utf8::encode_utf8(joined(ts)) + seq![CLOSE] + after, before.len() as int) == Some(
            (ts, (before.len() + utf8::encode_utf8(joined(ts)).len()) as int),
        ),
    decreases ts.len(),
{
    let d = utf8::encode_utf8(joined(ts));
    let b = before + d + seq![CLOSE] + after;
    let i = before.len() as int;
    if ts.len() == 0 {
        assert(utf8::encode_utf8(Seq::<char>::empty()) =~= Seq::empty());
        assert(d =~= Seq::empty());
        assert(b[i] == CLOSE);
        assert(ts =~= Seq::empty());
    } else {
        let t = ts[0];
        let rest = ts.skip(1);
        assert(ts =~= seq![t] + rest);
        lemma_joined_front(t, rest);
        lemma_encode_concat(t.descriptor(), joined(rest));
        let dt = utf8::encode_utf8(t.descriptor());
        let dr = utf8::encode_utf8(joined(rest));
        assert forall|k: int| 0 <= k < rest.len() implies (#[trigger] rest[k]).named_ok() by {
            assert(ts[k + 1].named_ok());
        }
        lemma_types_parse(rest, before + dt, after);
        assert(before + dt + dr + seq![CLOSE] + after =~= b);
        law_render_then_parse(t, before, dr + seq![CLOSE] + after);
        assert(before + dt + (dr + seq![CLOSE] + after) =~= b);
        lemma_first_byte(t);
        assert(b[i] == dt[0]);
    }
}

/// A rendered method descriptor parses back to itself.
pub proof fn law_render_then_parse_method(m: MType)
    requires
        m.ret.named_ok(),
        forall|k: int| 0 <= k < m.args.len() ==> (#[trigger] m.args[k]).named_ok(),
    ensures
        method_of(utf8::encode_utf8(m.descriptor())) == Some(m),
{
    let a = utf8::encode_utf8(joined(m.args));
    let r = utf8::encode_utf8(m.ret.descriptor());
    lemma_encode_concat(seq!['('], joined(m.args));
    lemma_encode_concat(seq!['('] + joined(m.args), seq![')']);
    lemma_encode_concat(seq!['('] + joined(m.args) + seq![')'], m.ret.descriptor());
    lemma_encode_ascii('(');
    lemma_encode_ascii(')');
    let b = utf8::encode_utf8(m.descriptor());
    lemma_types_parse(m.args, seq![OPEN], r);
    assert(b =~= seq![OPEN] + a + seq![CLOSE] + r);
    law_render_then_parse(m.ret, seq![OPEN] + a + seq![CLOSE], Seq::empty());
    assert(seq![OPEN] + a + seq![CLOSE] + r + Seq::<u8>::empty() =~= b);
}

} // verus!
