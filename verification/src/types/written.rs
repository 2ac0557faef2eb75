//! Signatures written out: parsing the written form of a type gives the type.

use vstd::prelude::*;

use crate::text;
use crate::types::signature;
use crate::types::signature::{CPart, CSig, CSignature, GType, MSignature, TParam};

verus! {

// -- the written form -----------------------------------------------------------------

impl GType {
    /// The type as a signature spells it.
    pub open spec fn written(self) -> Seq<char>
        decreases self, 0int,
    {
        match self {
            GType::Primitive(c) => seq![c],
            GType::TypeVar(n) => seq!['T'] + n + seq![';'],
            GType::Array(t) => seq!['['] + t.written(),
            GType::Any => seq!['*'],
            GType::Extends(t) => seq!['+'] + t.written(),
            GType::Super(t) => seq!['-'] + t.written(),
            GType::Class(cs) => seq!['L'] + cs.written_parts(cs.parts.len()) + seq![';'],
        }
    }

    /// The type can stand for a field.
    pub open spec fn field_ok(self) -> bool
        decreases self, 0int,
    {
        match self {
            GType::TypeVar(n) => n.len() > 0 && forall|i: int| 0 <= i < n.len() ==> !signature::is_meta(#[trigger] n[i]),
            GType::Array(t) => t.letter_ok() || t.field_ok(),
            GType::Class(cs) => {
                &&& cs.parts.len() > 0
                &&& plain(cs.package)
                &&& !cs.parts[0].name.contains('/')
                &&& forall|i: int| 0 <= i < cs.parts.len() ==> plain((#[trigger] cs.parts[i]).name)
                &&& forall|i: int, j: int|
                    0 <= i < cs.parts.len() && 0 <= j < cs.parts[i].args.len() ==> (#[trigger] cs.parts[i].args[j]).arg_ok()
            },
            _ => false,
        }
    }

    /// The type can stand as a type argument.
    pub open spec fn arg_ok(self) -> bool
        decreases self, 1int,
    {
        match self {
            GType::Any => true,
            GType::Extends(t) => t.field_ok(),
            GType::Super(t) => t.field_ok(),
            _ => self.field_ok(),
        }
    }

    /// One of the primitive types or void.
    pub open spec fn letter_ok(self) -> bool {
        self matches GType::Primitive(x) && (x == 'V' || x == 'Z' || x == 'B' || x == 'C' || x == 'S' || x == 'I' || x == 'F' || x == 'J'
            || x == 'D')
    }
}

/// None of the characters that structure a class type.
pub open spec fn plain(s: Seq<char>) -> bool {
    forall|i: int| 0 <= i < s.len() ==> #[trigger] s[i] != ';' && s[i] != '.' && s[i] != '<' && s[i] != '>'
}

impl CSig {
    /// The first `k` parts, the package before the first, dots between them.
    pub open spec fn written_parts(self, k: nat) -> Seq<char>
        decreases self, k,
    {
        if k == 0 || k > self.parts.len() {
            Seq::empty()
        } else if k == 1 {
            self.package_text() + self.parts[0].written_part()
        } else {
            self.written_parts((k - 1) as nat) + seq!['.'] + self.parts[k - 1].written_part()
        }
    }

    pub open spec fn package_text(self) -> Seq<char> {
        if self.package.len() == 0 {
            Seq::empty()
        } else {
            self.package + seq!['/']
        }
    }

    /// What the part at `i` is written as, the package included.
    pub open spec fn piece(self, i: int) -> Seq<char> {
        if i == 0 {
            self.package_text() + self.parts[0].written_part()
        } else {
            self.parts[i].written_part()
        }
    }
}

impl CPart {
    /// The name, and the arguments in angle brackets if there are any.
    pub open spec fn written_part(self) -> Seq<char>
        decreases self, self.args.len() + 1,
    {
        if self.args.len() == 0 {
            self.name
        } else {
            self.name + seq!['<'] + self.written_args(0) + seq!['>']
        }
    }

    /// The arguments from `k` on.
    pub open spec fn written_args(self, k: nat) -> Seq<char>
        decreases self, self.args.len() - k,
    {
        if k >= self.args.len() {
            Seq::empty()
        } else {
            self.args[k as int].written() + self.written_args(k + 1)
        }
    }
}

// -- nesting ------------------------------------------------------------------------------

/// Brackets close, and none closes before it opens.
spec fn level(s: Seq<char>) -> bool {
    signature::depth_of(s) == 0 && forall|k: int| 0 <= k <= s.len() ==> signature::depth_of(#[trigger] s.take(k)) >= 0
}

/// The text is level, and `x` stands in it only inside brackets.
spec fn sealed(s: Seq<char>, x: char) -> bool {
    level(s) && forall|k: int| 0 <= k < s.len() && s[k] == x ==> signature::depth_of(#[trigger] s.take(k)) > 0
}

proof fn lemma_depth_add(a: Seq<char>, b: Seq<char>)
    ensures
        signature::depth_of(a + b) == signature::depth_of(a) + signature::depth_of(b),
    decreases b.len(),
{
    if b.len() == 0 {
        assert(a + b =~= a);
    } else {
        lemma_depth_add(a, b.drop_last());
        assert((a + b).drop_last() =~= a + b.drop_last());
        assert((a + b).last() == b.last());
    }
}

proof fn lemma_level_add(a: Seq<char>, b: Seq<char>)
    requires
        level(a),
        level(b),
    ensures
        level(a + b),
{
    lemma_depth_add(a, b);
    let s = a + b;
    assert forall|k: int| 0 <= k <= s.len() implies signature::depth_of(#[trigger] s.take(k)) >= 0 by {
        if k <= a.len() {
            assert(s.take(k) =~= a.take(k));
        } else {
            assert(s.take(k) =~= a + b.take(k - a.len()));
            lemma_depth_add(a, b.take(k - a.len()));
        }
    }
}

proof fn lemma_sealed_add(a: Seq<char>, b: Seq<char>, x: char)
    requires
        sealed(a, x),
        sealed(b, x),
    ensures
        sealed(a + b, x),
{
    lemma_level_add(a, b);
    let s = a + b;
    assert forall|k: int| 0 <= k < s.len() && s[k] == x implies signature::depth_of(#[trigger] s.take(k)) > 0 by {
        if k < a.len() {
            assert(s.take(k) =~= a.take(k));
            assert(a[k] == x);
        } else {
            assert(b[k - a.len()] == x);
            assert(s.take(k) =~= a + b.take(k - a.len()));
            lemma_depth_add(a, b.take(k - a.len()));
        }
    }
}

/// Text without brackets is level; where `x` is not in it, it is sealed.
proof fn lemma_bare(s: Seq<char>, x: char)
    requires
        forall|i: int| 0 <= i < s.len() ==> #[trigger] s[i] != '<' && s[i] != '>',
    ensures
        level(s),
        !s.contains(x) ==> sealed(s, x),
    decreases s.len(),
{
    lemma_bare_depth(s);
    assert forall|k: int| 0 <= k <= s.len() implies signature::depth_of(#[trigger] s.take(k)) >= 0 by {
        lemma_bare_depth(s.take(k));
    }
    if !s.contains(x) {
        assert forall|k: int| 0 <= k < s.len() && s[k] == x implies signature::depth_of(#[trigger] s.take(k)) > 0 by {
            assert(s.contains(s[k]));
        }
    }
}

proof fn lemma_bare_depth(s: Seq<char>)
    requires
        forall|i: int| 0 <= i < s.len() ==> #[trigger] s[i] != '<' && s[i] != '>',
    ensures
        signature::depth_of(s) == 0,
    decreases s.len(),
{
    if s.len() > 0 {
        lemma_bare_depth(s.drop_last());
        assert(s.last() == s[s.len() - 1]);
    }
}

/// Level text in brackets is sealed against every other character.
proof fn lemma_bracketed(s: Seq<char>, x: char)
    requires
        level(s),
        x != '<',
        x != '>',
    ensures
        sealed(seq!['<'] + s + seq!['>'], x),
{
    let a = seq!['<'];
    let b = seq!['>'];
    let t = a + s + b;
    assert(a.drop_last() =~= Seq::empty());
    assert(b.drop_last() =~= Seq::empty());
    assert(signature::depth_of(a.drop_last()) == 0);
    assert(signature::depth_of(a) == 1);
    assert(signature::depth_of(b) == -1);
    lemma_depth_add(a, s);
    lemma_depth_add(a + s, b);
    assert forall|k: int| 0 <= k <= t.len() implies signature::depth_of(#[trigger] t.take(k)) >= 0 && (0 < k < t.len()
        ==> signature::depth_of(t.take(k)) > 0) by {
        if k == 0 {
            assert(t.take(0) =~= Seq::empty());
        } else if k <= s.len() + 1 {
            assert(t.take(k) =~= a + s.take(k - 1));
            lemma_depth_add(a, s.take(k - 1));
        } else {
            assert(t.take(k) =~= t);
        }
    }
    assert forall|k: int| 0 <= k < t.len() && t[k] == x implies signature::depth_of(#[trigger] t.take(k)) > 0 by {
        assert(k > 0);
    }
}

proof fn lemma_field_is_arg(t: GType)
    ensures
        t.field_ok() ==> t.arg_ok(),
{
    match t {
        GType::Primitive(_) => {},
        GType::Class(_) => {},
        GType::Array(_) => {},
        GType::TypeVar(_) => {},
        _ => {},
    }
}

proof fn lemma_written_level(t: GType)
    requires
        t.arg_ok() || t.letter_ok(),
    ensures
        level(t.written()),
    decreases t, 0int,
{
    match t {
        GType::Primitive(c) => {
            lemma_bare(t.written(), c);
        },
        GType::TypeVar(n) => {
            let w = t.written();
            assert forall|i: int| 0 <= i < w.len() implies #[trigger] w[i] != '<' && w[i] != '>' by {
                if 0 < i && i <= n.len() {
                    assert(!signature::is_meta(n[i - 1]));
                }
            }
            lemma_bare(w, 'T');
        },
        GType::Array(u) => {
            lemma_field_is_arg(*u);
            lemma_written_level(*u);
            lemma_bare(seq!['['], 'T');
            lemma_level_add(seq!['['], u.written());
        },
        GType::Any => {
            lemma_bare(t.written(), 'T');
        },
        GType::Extends(u) => {
            lemma_field_is_arg(*u);
            lemma_written_level(*u);
            lemma_bare(seq!['+'], 'T');
            lemma_level_add(seq!['+'], u.written());
        },
        GType::Super(u) => {
            lemma_field_is_arg(*u);
            lemma_written_level(*u);
            lemma_bare(seq!['-'], 'T');
            lemma_level_add(seq!['-'], u.written());
        },
        GType::Class(cs) => {
            lemma_parts_sealed(cs, cs.parts.len(), ';');
            let w = cs.written_parts(cs.parts.len());
            lemma_bare(seq!['L'], 'T');
            lemma_bare(seq![';'], 'T');
            lemma_level_add(seq!['L'], w);
            lemma_level_add(seq!['L'] + w, seq![';']);
        },
    }
}

proof fn lemma_args_level(p: CPart, k: nat)
    requires
        forall|j: int| 0 <= j < p.args.len() ==> (#[trigger] p.args[j]).arg_ok(),
    ensures
        level(p.written_args(k)),
    decreases p, p.args.len() - k,
{
    if k >= p.args.len() {
        lemma_bare(p.written_args(k), 'T');
    } else {
        assert(p.args[k as int].arg_ok());
        lemma_written_level(p.args[k as int]);
        lemma_args_level(p, k + 1);
        lemma_level_add(p.args[k as int].written(), p.written_args(k + 1));
    }
}

proof fn lemma_part_sealed(p: CPart, x: char)
    requires
        plain(p.name),
        x == ';' || x == '.',
        forall|j: int| 0 <= j < p.args.len() ==> (#[trigger] p.args[j]).arg_ok(),
    ensures
        sealed(p.written_part(), x),
    decreases p, p.args.len() + 1,
{
    lemma_bare(p.name, x);
    assert(sealed(p.name, x)) by {
        if p.name.contains(x) {
            let i = choose|i: int| 0 <= i < p.name.len() && p.name[i] == x;
            assert(p.name[i] != x);
        }
    }
    if p.args.len() > 0 {
        lemma_args_level(p, 0);
        let a = p.written_args(0);
        lemma_bracketed(a, x);
        lemma_sealed_add(p.name, seq!['<'] + a + seq!['>'], x);
        assert(p.written_part() =~= p.name + (seq!['<'] + a + seq!['>']));
    }
}

proof fn lemma_piece_sealed(cs: CSig, i: int, x: char)
    requires
        GType::Class(cs).field_ok(),
        0 <= i < cs.parts.len(),
        x == ';' || x == '.',
    ensures
        sealed(cs.piece(i), x),
    decreases cs, 0int,
{
    let p = cs.parts[i];
    assert(plain(p.name));
    assert forall|j: int| 0 <= j < p.args.len() implies (#[trigger] p.args[j]).arg_ok() by {
        assert(cs.parts[i].args[j].arg_ok());
    }
    lemma_part_sealed(p, x);
    if i == 0 {
        let t = cs.package_text();
        assert forall|k: int| 0 <= k < t.len() implies #[trigger] t[k] != '<' && t[k] != '>' && t[k] != x by {
            if k < cs.package.len() {
                assert(t[k] == cs.package[k]);
            }
        }
        lemma_bare(t, x);
        assert(!t.contains(x));
        lemma_sealed_add(t, p.written_part(), x);
    }
}

proof fn lemma_parts_sealed(cs: CSig, k: nat, x: char)
    requires
        GType::Class(cs).field_ok(),
        k <= cs.parts.len(),
        x == ';',
    ensures
        sealed(cs.written_parts(k), x),
    decreases cs, k,
{
    if k == 0 {
        lemma_bare(cs.written_parts(0), x);
        assert(!cs.written_parts(0).contains(x));
    } else {
        lemma_piece_sealed(cs, k - 1, x);
        if k > 1 {
            lemma_parts_sealed(cs, (k - 1) as nat, x);
            let dot = seq!['.'];
            lemma_bare(dot, x);
            assert(!dot.contains(x));
            lemma_sealed_add(cs.written_parts((k - 1) as nat), dot, x);
            lemma_sealed_add(cs.written_parts((k - 1) as nat) + dot, cs.piece(k - 1), x);
        }
    }
}

// -- reading it back --------------------------------------------------------------------

/// `s` stands in `c` from `i` on.
pub open spec fn stands_at(c: Seq<char>, i: int, s: Seq<char>) -> bool {
    0 <= i && i + s.len() <= c.len() && c.subrange(i, i + s.len()) == s
}

proof fn lemma_stands_split(c: Seq<char>, i: int, a: Seq<char>, b: Seq<char>)
    ensures
        stands_at(c, i, a + b) ==> stands_at(c, i, a) && stands_at(c, i + a.len(), b),
{
    if stands_at(c, i, a + b) {
        let s = c.subrange(i, i + (a + b).len());
        assert(c.subrange(i, i + a.len()) =~= a) by {
            assert forall|k: int| 0 <= k < a.len() implies c[i + k] == a[k] by {
                assert(s[k] == (a + b)[k]);
            }
        }
        assert(c.subrange(i + a.len(), i + a.len() + b.len()) =~= b) by {
            assert forall|k: int| 0 <= k < b.len() implies c[i + a.len() + k] == b[k] by {
                assert(s[a.len() + k] == (a + b)[a.len() + k]);
            }
        }
    }
}

proof fn lemma_stands_char(c: Seq<char>, i: int, x: char)
    ensures
        stands_at(c, i, seq![x]) ==> 0 <= i < c.len() && c[i] == x,
{
    if stands_at(c, i, seq![x]) {
        assert(c.subrange(i, i + 1)[0] == x);
    }
}

/// The end of a class is looked for behind sealed text.
proof fn lemma_class_end_skips(c: Seq<char>, i: int, s: Seq<char>, k: int)
    requires
        stands_at(c, i, s),
        sealed(s, ';'),
        0 <= k <= s.len(),
    ensures
        signature::class_end(c, i + k, signature::depth_of(s.take(k))) == signature::class_end(c, i + s.len(), 0),
    decreases s.len() - k,
{
    if k == s.len() {
        assert(s.take(k) =~= s);
    } else {
        assert(c.subrange(i, i + s.len())[k] == s[k]);
        assert(s.take(k + 1).drop_last() =~= s.take(k));
        assert(s.take(k + 1).last() == s[k]);
        lemma_class_end_skips(c, i, s, k + 1);
        assert(!(s[k] == ';' && signature::depth_of(s.take(k)) == 0));
    }
}

/// Text in which dots stand only inside brackets stays one piece.
proof fn lemma_dots_extend(a: Seq<char>, b: Seq<char>)
    requires
        signature::depth_of(a) == 0,
        forall|k: int| 0 <= k < b.len() && b[k] == '.' ==> signature::depth_of(#[trigger] b.take(k)) > 0,
    ensures
        ({
            let p = signature::dot_pieces(a);
            p.len() > 0 && signature::dot_pieces(a + b) == p.update(p.len() - 1, p.last() + b)
        }),
    decreases b.len(),
{
    signature::lemma_dot_pieces(a);
    let p = signature::dot_pieces(a);
    if b.len() == 0 {
        assert(a + b =~= a);
        assert(p.last() + b =~= p.last());
        assert(p.update(p.len() - 1, p.last() + b) =~= p);
    } else {
        let d = b.drop_last();
        assert forall|k: int| 0 <= k < d.len() && d[k] == '.' implies signature::depth_of(#[trigger] d.take(k)) > 0 by {
            assert(b[k] == '.');
            assert(d.take(k) =~= b.take(k));
        }
        lemma_dots_extend(a, d);
        let s = a + b;
        assert(s.drop_last() =~= a + d);
        assert(s.last() == b.last());
        lemma_depth_add(a, d);
        assert(b.take(b.len() - 1) =~= d);
        let q = signature::dot_pieces(a + d);
        assert(q.last() == p.last() + d);
        assert((p.last() + d).push(b.last()) =~= p.last() + b);
        assert(signature::dot_pieces(s) == q.update(q.len() - 1, q.last().push(s.last())));
        assert(signature::dot_pieces(s) =~= p.update(p.len() - 1, p.last() + b));
    }
}

spec fn pieces_upto(cs: CSig, k: nat) -> Seq<Seq<char>> {
    Seq::new(k, |i: int| cs.piece(i))
}

/// The dots outside brackets part the written parts.
proof fn lemma_dots_part(cs: CSig, k: nat)
    requires
        GType::Class(cs).field_ok(),
        0 < k <= cs.parts.len(),
    ensures
        signature::dot_pieces(cs.written_parts(k)) == pieces_upto(cs, k),
    decreases k,
{
    lemma_piece_sealed(cs, k - 1, '.');
    let w = cs.written_parts(k);
    if k == 1 {
        let none = Seq::<char>::empty();
        lemma_dots_extend(none, cs.piece(0));
        assert(none + cs.piece(0) =~= cs.piece(0));
        assert(signature::dot_pieces(none) =~= seq![none]);
        assert(signature::dot_pieces(w) =~= pieces_upto(cs, 1));
    } else {
        let j = (k - 1) as nat;
        let a = cs.written_parts(j);
        lemma_dots_part(cs, j);
        lemma_parts_sealed(cs, j, ';');
        let ad = a + seq!['.'];
        assert(ad.drop_last() =~= a);
        assert(ad.last() == '.');
        lemma_depth_add(a, seq!['.']);
        assert(seq!['.'].drop_last() =~= Seq::empty());
        assert(signature::depth_of(seq!['.']) == 0);
        assert(signature::dot_pieces(ad) == pieces_upto(cs, j).push(Seq::empty()));
        lemma_dots_extend(ad, cs.piece(k - 1));
        assert(Seq::<char>::empty() + cs.piece(k - 1) =~= cs.piece(k - 1));
        assert(signature::dot_pieces(w) =~= pieces_upto(cs, k));
    }
}

proof fn lemma_angle(s: Seq<char>, i: int, e: int)
    requires
        0 <= i <= e <= s.len(),
        forall|k: int| i <= k < e ==> #[trigger] s[k] != '<',
        e < s.len() ==> s[e] == '<',
    ensures
        signature::angle(s, i) == e,
    decreases e - i,
{
    if i < e {
        lemma_angle(s, i + 1, e);
    }
}

proof fn lemma_ident(c: Seq<char>, i: int, n: Seq<char>, k: int)
    requires
        stands_at(c, i, n),
        0 <= k <= n.len(),
        forall|j: int| 0 <= j < n.len() ==> !signature::is_meta(#[trigger] n[j]),
        i + n.len() < c.len() ==> signature::is_meta(c[i + n.len()]),
    ensures
        signature::ident_end(c, i + k) == i + n.len(),
    decreases n.len() - k,
{
    if k < n.len() {
        assert(c.subrange(i, i + n.len())[k] == n[k]);
        lemma_ident(c, i, n, k + 1);
    }
}

/// A type that can stand for a field is read back from its written form,
/// wherever that stands.
pub proof fn law_field_read_back(c: Seq<char>, i: int, t: GType)
    requires
        t.field_ok(),
        stands_at(c, i, t.written()),
    ensures
        signature::field_type(c, i) == Some((t, i + t.written().len())),
    decreases t, 0int,
{
    match t {
        GType::TypeVar(n) => {
            lemma_stands_split(c, i, seq!['T'] + n, seq![';']);
            lemma_stands_split(c, i, seq!['T'], n);
            lemma_stands_char(c, i, 'T');
            lemma_stands_char(c, i + 1 + n.len(), ';');
            lemma_ident(c, i + 1, n, 0);
            assert(c.subrange(i + 1, i + 1 + n.len()) == n);
        },
        GType::Array(u) => {
            lemma_stands_split(c, i, seq!['['], u.written());
            lemma_stands_char(c, i, '[');
            law_type_read_back(c, i + 1, *u);
        },
        GType::Class(cs) => {
            let w = cs.written_parts(cs.parts.len());
            lemma_stands_split(c, i, seq!['L'] + w, seq![';']);
            lemma_stands_split(c, i, seq!['L'], w);
            lemma_stands_char(c, i, 'L');
            let e = i + 1 + w.len();
            lemma_stands_char(c, e, ';');
            lemma_parts_sealed(cs, cs.parts.len(), ';');
            lemma_class_end_skips(c, i + 1, w, 0);
            assert(w.take(0) =~= Seq::empty());
            assert(signature::class_end(c, i + 1, 0) == Some(e));
            let raw = c.subrange(i + 1, e);
            assert(raw == w);
            lemma_dots_part(cs, cs.parts.len());
            lemma_class_parts(cs, cs.parts.len());
            let parts = signature::class_parts(raw, cs.parts.len())->0;
            let head = parts[0].name;
            let name = cs.parts[0].name;
            assert(head == cs.package_text() + name);
            lemma_head(cs.package, name);
            let first = CPart { name: text::after_last(head, '/'), args: parts[0].args };
            assert(parts.update(0, first) =~= cs.parts);
        },
        _ => {},
    }
}

proof fn lemma_head(package: Seq<char>, name: Seq<char>)
    requires
        !name.contains('/'),
    ensures
        ({
            let head = (if package.len() == 0 {
                Seq::empty()
            } else {
                package + seq!['/']
            }) + name;
            text::before_last(head, '/') == package && text::after_last(head, '/') == name
        }),
    decreases name.len(),
{
    let pre = if package.len() == 0 {
        Seq::<char>::empty()
    } else {
        package + seq!['/']
    };
    let head = pre + name;
    if name.len() == 0 {
        assert(head =~= pre);
        if package.len() > 0 {
            assert(pre.last() == '/');
            assert(pre.drop_last() =~= package);
        }
        assert(text::after_last(head, '/') =~= name);
        assert(text::before_last(head, '/') =~= package);
    } else {
        let d = name.drop_last();
        assert(!d.contains('/')) by {
            if d.contains('/') {
                let k = choose|k: int| 0 <= k < d.len() && d[k] == '/';
                assert(name[k] == '/');
            }
        }
        lemma_head(package, d);
        assert(head.drop_last() =~= pre + d);
        assert(head.last() == name.last());
        assert(name[name.len() - 1] != '/') by {
            assert(name.contains(name[name.len() - 1]));
        }
        assert(name =~= d.push(name.last()));
    }
}

/// The part as it is read before the package is split off.
spec fn raw_part(cs: CSig, i: int) -> CPart {
    if i == 0 {
        CPart { name: cs.package_text() + cs.parts[0].name, args: cs.parts[0].args }
    } else {
        cs.parts[i]
    }
}

proof fn lemma_class_parts(cs: CSig, k: nat)
    requires
        GType::Class(cs).field_ok(),
        k <= cs.parts.len(),
    ensures
        signature::class_parts(cs.written_parts(cs.parts.len()), k) == Some(Seq::new(k, |i: int| raw_part(cs, i))),
    decreases cs, k,
{
    let raw = cs.written_parts(cs.parts.len());
    if k == 0 {
        assert(Seq::new(0, |i: int| raw_part(cs, i)) =~= Seq::<CPart>::empty());
    } else {
        lemma_class_parts(cs, (k - 1) as nat);
        lemma_dots_part(cs, cs.parts.len());
        signature::lemma_dot_pieces(raw);
        let p = cs.parts[k - 1];
        let piece = signature::dot_pieces(raw)[k - 1];
        assert(piece == cs.piece(k - 1));
        assert(plain(p.name));
        let name = raw_part(cs, k - 1).name;
        assert forall|j: int| 0 <= j < name.len() implies #[trigger] name[j] != '<' by {
            if k == 1 {
                let t = cs.package_text();
                if j < t.len() {
                    if j < cs.package.len() {
                        assert(name[j] == cs.package[j]);
                    } else {
                        assert(name[j] == '/');
                    }
                } else {
                    assert(name[j] == p.name[j - t.len()]);
                }
            }
        }
        let before = Seq::new((k - 1) as nat, |i: int| raw_part(cs, i));
        if p.args.len() == 0 {
            assert(piece =~= name);
            lemma_angle(piece, 0, piece.len() as int);
            assert(Seq::new(k, |i: int| raw_part(cs, i)) =~= before.push(CPart { name: piece, args: Seq::empty() })) by {
                assert(p.args =~= Seq::empty());
            }
        } else {
            let a = p.written_args(0);
            assert(piece =~= name + seq!['<'] + a + seq!['>']);
            lemma_angle(piece, 0, name.len() as int);
            let i: int = name.len() as int + 1;
            assert(piece.subrange(i, i + a.len()) =~= a);
            assert forall|j: int| 0 <= j < p.args.len() implies (#[trigger] p.args[j]).arg_ok() by {
                assert(cs.parts[k - 1].args[j].arg_ok());
            }
            assert(decreases_to!(cs => cs.parts));
            assert(decreases_to!(cs.parts => cs.parts[k - 1]));
            lemma_args_read_back(piece, i, p, 0);
            assert(piece.take(name.len() as int) =~= name);
            assert(p.args.skip(0) =~= p.args);
            assert(Seq::new(k, |i: int| raw_part(cs, i)) =~= before.push(CPart { name, args: p.args }));
        }
    }
}

proof fn lemma_first_char(t: GType)
    requires
        t.arg_ok(),
    ensures
        t.written().len() > 0,
        t.written()[0] != '>',
        t.field_ok() ==> t.written()[0] != '*' && t.written()[0] != '+' && t.written()[0] != '-' && t.written()[0] != ':' && t.written()[0]
            != ')' && t.written()[0] != '^' && t.written()[0] != '<' && t.written()[0] != '(',
{
}

proof fn lemma_args_read_back(c: Seq<char>, i: int, p: CPart, k: nat)
    requires
        k <= p.args.len(),
        forall|j: int| 0 <= j < p.args.len() ==> (#[trigger] p.args[j]).arg_ok(),
        stands_at(c, i, p.written_args(k)),
        i + p.written_args(k).len() < c.len(),
        c[i + p.written_args(k).len()] == '>',
    ensures
        signature::type_args(c, i) == Some((p.args.skip(k as int), i + p.written_args(k).len() + 1)),
    decreases p, p.args.len() - k,
{
    if k == p.args.len() {
        assert(p.args.skip(k as int) =~= Seq::empty());
    } else {
        let t = p.args[k as int];
        assert(t.arg_ok());
        lemma_first_char(t);
        lemma_stands_split(c, i, t.written(), p.written_args(k + 1));
        assert(c.subrange(i, i + t.written().len())[0] == t.written()[0]);
        law_arg_read_back(c, i, t);
        lemma_args_read_back(c, i + t.written().len(), p, k + 1);
        assert(p.args.skip(k as int) =~= seq![t] + p.args.skip((k + 1) as int));
    }
}

/// A type argument is read back from its written form.
pub proof fn law_arg_read_back(c: Seq<char>, i: int, t: GType)
    requires
        t.arg_ok(),
        stands_at(c, i, t.written()),
    ensures
        signature::type_arg(c, i) == Some((t, i + t.written().len())),
    decreases t, 1int,
{
    lemma_first_char(t);
    assert(c.subrange(i, i + t.written().len())[0] == t.written()[0]);
    match t {
        GType::Any => {
            lemma_stands_char(c, i, '*');
        },
        GType::Extends(u) => {
            lemma_stands_split(c, i, seq!['+'], u.written());
            lemma_stands_char(c, i, '+');
            law_field_read_back(c, i + 1, *u);
        },
        GType::Super(u) => {
            lemma_stands_split(c, i, seq!['-'], u.written());
            lemma_stands_char(c, i, '-');
            law_field_read_back(c, i + 1, *u);
        },
        _ => {
            law_field_read_back(c, i, t);
        },
    }
}

/// So is a type that may be primitive.
pub proof fn law_type_read_back(c: Seq<char>, i: int, t: GType)
    requires
        t.field_ok() || t.letter_ok(),
        stands_at(c, i, t.written()),
    ensures
        signature::type_sig(c, i) == Some((t, i + t.written().len())),
    decreases t, 1int,
{
    if t.letter_ok() {
        lemma_stands_char(c, i, t->Primitive_0);
    } else {
        lemma_field_is_arg(t);
        lemma_first_char(t);
        assert(c.subrange(i, i + t.written().len())[0] == t.written()[0]);
        law_field_read_back(c, i, t);
    }
}

/// A field signature is read back from its written form.
pub proof fn law_field_signature(t: GType)
    requires
        t.field_ok(),
    ensures
        signature::field_signature(t.written()) == Some(t),
{
    let c = t.written();
    assert(c.subrange(0, c.len() as int) =~= c);
    law_field_read_back(c, 0, t);
}

// -- whole signatures ---------------------------------------------------------------------

/// The types from `k` on, each behind `mark`.
pub open spec fn marked_text(ts: Seq<GType>, mark: char, k: nat) -> Seq<char>
    decreases ts.len() - k,
{
    if k >= ts.len() {
        Seq::empty()
    } else {
        seq![mark] + ts[k as int].written() + marked_text(ts, mark, k + 1)
    }
}

/// The types from `k` on.
pub open spec fn types_text(ts: Seq<GType>, k: nat) -> Seq<char>
    decreases ts.len() - k,
{
    if k >= ts.len() {
        Seq::empty()
    } else {
        ts[k as int].written() + types_text(ts, k + 1)
    }
}

impl TParam {
    /// The name, a colon, the class bound, and the interface bounds each
    /// behind a colon.
    pub open spec fn written(self) -> Seq<char> {
        self.name + seq![':'] + (match self.class_bound {
            Some(t) => t.written(),
            None => Seq::empty(),
        }) + marked_text(self.interface_bounds, ':', 0)
    }

    /// The parameter has a name and a bound, as the grammar asks.
    pub open spec fn ok(self) -> bool {
        &&& self.name.len() > 0
        &&& forall|i: int| 0 <= i < self.name.len() ==> !signature::is_meta(#[trigger] self.name[i])
        &&& self.class_bound matches Some(t) ==> t.field_ok()
        &&& fields_ok(self.interface_bounds)
        &&& self.class_bound is Some || self.interface_bounds.len() > 0
    }
}

pub open spec fn fields_ok(ts: Seq<GType>) -> bool {
    forall|i: int| 0 <= i < ts.len() ==> (#[trigger] ts[i]).field_ok()
}

pub open spec fn params_ok(ps: Seq<TParam>) -> bool {
    forall|i: int| 0 <= i < ps.len() ==> (#[trigger] ps[i]).ok()
}

/// The parameters from `k` on.
pub open spec fn params_from(ps: Seq<TParam>, k: nat) -> Seq<char>
    decreases ps.len() - k,
{
    if k >= ps.len() {
        Seq::empty()
    } else {
        ps[k as int].written() + params_from(ps, k + 1)
    }
}

/// The parameter list in angle brackets, nothing where there is none.
pub open spec fn params_written(ps: Seq<TParam>) -> Seq<char> {
    if ps.len() == 0 {
        Seq::empty()
    } else {
        seq!['<'] + params_from(ps, 0) + seq!['>']
    }
}

impl MSignature {
    pub open spec fn written(self) -> Seq<char> {
        params_written(self.params) + (seq!['('] + (types_text(self.args, 0) + (seq![')'] + (self.ret.written() + marked_text(
            self.throws,
            '^',
            0,
        )))))
    }

    pub open spec fn ok(self) -> bool {
        &&& params_ok(self.params)
        &&& forall|i: int| 0 <= i < self.args.len() ==> (#[trigger] self.args[i]).field_ok() || self.args[i].letter_ok()
        &&& self.ret.field_ok() || self.ret.letter_ok()
        &&& fields_ok(self.throws)
    }
}

impl CSignature {
    pub open spec fn written(self) -> Seq<char> {
        params_written(self.params) + (self.superclass.written() + types_text(self.interfaces, 0))
    }

    pub open spec fn ok(self) -> bool {
        params_ok(self.params) && self.superclass.field_ok() && fields_ok(self.interfaces)
    }
}

proof fn lemma_marked(c: Seq<char>, i: int, ts: Seq<GType>, mark: char, k: nat)
    requires
        k <= ts.len(),
        fields_ok(ts),
        stands_at(c, i, marked_text(ts, mark, k)),
        signature::peek(c, i + marked_text(ts, mark, k).len()) != Some(mark),
    ensures
        signature::marked_types(c, i, mark) == Some((ts.skip(k as int), i + marked_text(ts, mark, k).len())),
    decreases ts.len() - k,
{
    if k == ts.len() {
        assert(ts.skip(k as int) =~= Seq::empty());
    } else {
        let t = ts[k as int];
        let rest = marked_text(ts, mark, k + 1);
        lemma_stands_split(c, i, seq![mark] + t.written(), rest);
        lemma_stands_split(c, i, seq![mark], t.written());
        lemma_stands_char(c, i, mark);
        law_field_read_back(c, i + 1, t);
        lemma_field_is_arg(t);
        lemma_first_char(t);
        lemma_marked(c, i + 1 + t.written().len(), ts, mark, k + 1);
        assert(ts.skip(k as int) =~= seq![t] + ts.skip((k + 1) as int));
    }
}

proof fn lemma_param_read(c: Seq<char>, i: int, p: TParam)
    requires
        p.ok(),
        stands_at(c, i, p.written()),
        signature::peek(c, i + p.written().len()) != Some(':'),
    ensures
        signature::type_param(c, i) == Some((p, i + p.written().len())),
{
    let bound = match p.class_bound {
        Some(t) => t.written(),
        None => Seq::empty(),
    };
    let tail = marked_text(p.interface_bounds, ':', 0);
    let n = i + p.name.len();
    lemma_stands_split(c, i, p.name + seq![':'] + bound, tail);
    lemma_stands_split(c, i, p.name + seq![':'], bound);
    lemma_stands_split(c, i, p.name, seq![':']);
    lemma_stands_char(c, n, ':');
    lemma_ident(c, i, p.name, 0);
    assert(c.subrange(i, n) == p.name);
    lemma_marked(c, n + 1 + bound.len(), p.interface_bounds, ':', 0);
    assert(p.interface_bounds.skip(0) =~= p.interface_bounds);
    if p.class_bound is Some {
        let t = p.class_bound->0;
        lemma_field_is_arg(t);
        lemma_first_char(t);
        assert(c.subrange(n + 1, n + 1 + bound.len())[0] == bound[0]);
        law_field_read_back(c, n + 1, t);
    } else {
        let t = p.interface_bounds[0];
        assert(tail[0] == ':');
        assert(c.subrange(n + 1, n + 1 + tail.len())[0] == tail[0]);
    }
}

proof fn lemma_params_read(c: Seq<char>, i: int, ps: Seq<TParam>, k: nat)
    requires
        k <= ps.len(),
        params_ok(ps),
        stands_at(c, i, params_from(ps, k)),
        signature::peek(c, i + params_from(ps, k).len()) == Some('>'),
    ensures
        signature::params_at(c, i) == Some((ps.skip(k as int), i + params_from(ps, k).len() + 1)),
    decreases ps.len() - k,
{
    if k == ps.len() {
        assert(ps.skip(k as int) =~= Seq::empty());
    } else {
        let p = ps[k as int];
        let rest = params_from(ps, k + 1);
        let n = i + p.written().len();
        lemma_stands_split(c, i, p.written(), rest);
        assert(p.written()[0] == p.name[0]);
        assert(c.subrange(i, n)[0] == p.written()[0]);
        assert(signature::peek(c, n) != Some(':')) by {
            if k + 1 < ps.len() {
                let q = ps[k as int + 1];
                assert(rest[0] == q.name[0]);
                assert(c.subrange(n, n + rest.len())[0] == rest[0]);
                assert(!signature::is_meta(q.name[0]));
            }
        }
        lemma_param_read(c, i, p);
        lemma_params_read(c, n, ps, k + 1);
        assert(!signature::is_meta(p.name[0]));
        assert(ps.skip(k as int) =~= seq![p] + ps.skip((k + 1) as int));
    }
}

proof fn lemma_type_params_read(c: Seq<char>, ps: Seq<TParam>)
    requires
        params_ok(ps),
        stands_at(c, 0, params_written(ps)),
        ps.len() == 0 ==> signature::peek(c, 0) != Some('<'),
    ensures
        signature::type_params(c, 0) == Some((ps, params_written(ps).len() as int)),
{
    if ps.len() == 0 {
        assert(ps =~= Seq::empty());
    } else {
        let w = params_from(ps, 0);
        lemma_stands_split(c, 0, seq!['<'] + w, seq!['>']);
        lemma_stands_split(c, 0, seq!['<'], w);
        lemma_stands_char(c, 0, '<');
        lemma_stands_char(c, 1 + w.len() as int, '>');
        lemma_params_read(c, 1, ps, 0);
        assert(ps.skip(0) =~= ps);
    }
}

proof fn lemma_types_read(c: Seq<char>, i: int, ts: Seq<GType>, k: nat)
    requires
        k <= ts.len(),
        forall|j: int| 0 <= j < ts.len() ==> (#[trigger] ts[j]).field_ok() || ts[j].letter_ok(),
        stands_at(c, i, types_text(ts, k)),
        signature::peek(c, i + types_text(ts, k).len()) == Some(')'),
    ensures
        signature::sigs_at(c, i) == Some((ts.skip(k as int), i + types_text(ts, k).len())),
    decreases ts.len() - k,
{
    if k == ts.len() {
        assert(ts.skip(k as int) =~= Seq::empty());
    } else {
        let t = ts[k as int];
        lemma_stands_split(c, i, t.written(), types_text(ts, k + 1));
        lemma_field_is_arg(t);
        if t.field_ok() {
            lemma_first_char(t);
        }
        assert(c.subrange(i, i + t.written().len())[0] == t.written()[0]);
        law_type_read_back(c, i, t);
        lemma_types_read(c, i + t.written().len(), ts, k + 1);
        assert(ts.skip(k as int) =~= seq![t] + ts.skip((k + 1) as int));
    }
}

proof fn lemma_types_to_end(c: Seq<char>, i: int, ts: Seq<GType>, k: nat)
    requires
        k <= ts.len(),
        fields_ok(ts),
        stands_at(c, i, types_text(ts, k)),
        i + types_text(ts, k).len() == c.len(),
    ensures
        signature::types_to_end(c, i) == Some(ts.skip(k as int)),
    decreases ts.len() - k,
{
    if k == ts.len() {
        assert(ts.skip(k as int) =~= Seq::empty());
    } else {
        let t = ts[k as int];
        lemma_stands_split(c, i, t.written(), types_text(ts, k + 1));
        lemma_field_is_arg(t);
        lemma_first_char(t);
        law_field_read_back(c, i, t);
        lemma_types_to_end(c, i + t.written().len(), ts, k + 1);
        assert(ts.skip(k as int) =~= seq![t] + ts.skip((k + 1) as int));
    }
}

/// A method signature is read back from its written form.
pub proof fn law_method_signature(m: MSignature)
    requires
        m.ok(),
    ensures
        signature::method_signature(m.written()) == Some(m),
{
    let c = m.written();
    let a = params_written(m.params);
    let args = types_text(m.args, 0);
    let throws = marked_text(m.throws, '^', 0);
    let r4 = m.ret.written() + throws;
    let r3 = seq![')'] + r4;
    let r2 = args + r3;
    let r1 = seq!['('] + r2;
    assert(c.subrange(0, c.len() as int) =~= c);
    lemma_stands_split(c, 0, a, r1);
    let i = a.len() as int;
    lemma_stands_split(c, i, seq!['('], r2);
    lemma_stands_char(c, i, '(');
    lemma_stands_split(c, i + 1, args, r3);
    let e = i + 1 + args.len();
    lemma_stands_split(c, e, seq![')'], r4);
    lemma_stands_char(c, e, ')');
    lemma_stands_split(c, e + 1, m.ret.written(), throws);
    lemma_type_params_read(c, m.params);
    lemma_types_read(c, i + 1, m.args, 0);
    assert(m.args.skip(0) =~= m.args);
    law_type_read_back(c, e + 1, m.ret);
    lemma_marked(c, e + 1 + m.ret.written().len(), m.throws, '^', 0);
    assert(m.throws.skip(0) =~= m.throws);
}

/// A class signature is read back from its written form.
pub proof fn law_class_signature(s: CSignature)
    requires
        s.ok(),
    ensures
        signature::class_signature(s.written()) == Some(s),
{
    let c = s.written();
    let a = params_written(s.params);
    let sup = s.superclass.written();
    let rest = types_text(s.interfaces, 0);
    assert(c.subrange(0, c.len() as int) =~= c);
    lemma_stands_split(c, 0, a, sup + rest);
    lemma_stands_split(c, a.len() as int, sup, rest);
    lemma_field_is_arg(s.superclass);
    lemma_first_char(s.superclass);
    assert(c.subrange(a.len() as int, (a.len() + sup.len()) as int)[0] == sup[0]);
    lemma_type_params_read(c, s.params);
    law_field_read_back(c, a.len() as int, s.superclass);
    lemma_types_to_end(c, (a.len() + sup.len()) as int, s.interfaces, 0);
    assert(s.interfaces.skip(0) =~= s.interfaces);
}

} // verus!
