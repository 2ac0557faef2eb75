//! Text as sequences of characters.

use vstd::prelude::*;

verus! {

broadcast use vstd::string::group_string_axioms;

/// Appends a character. `String::push` puts `c` behind the characters that
/// are there.
#[verifier::external_body]
fn push_char(out: &mut String, c: char)
    ensures
        final(out)@ == old(out)@.push(c),
{
    out.push(c)
}

/// The characters of `s`.
pub fn chars_of(s: &str) -> (r: Vec<char>)
    ensures
        r@ == s@,
{
    let mut r: Vec<char> = Vec::new();
    for c in it: s.chars()
        invariant
            it.seq() == s@,
            r@ == s@.take(it.index()),
            it.index() == s@.len() ==> r@ == s@,
    {
        r.push(c);
        assert(s@.take(it.index() + 1) =~= s@.take(it.index()).push(c));
        assert(s@.take(s@.len() as int) =~= s@);
    }
    r
}

/// The string with the given characters.
pub fn to_text(v: &Vec<char>) -> (r: String)
    ensures
        r@ == v@,
{
    let mut r: String = String::new();
    let mut i: usize = 0;
    while i < v.len()
        invariant
            i <= v@.len(),
            r@ == v@.take(i as int),
        decreases v@.len() - i,
    {
        push_char(&mut r, v[i]);
        assert(v@.take(i + 1) =~= v@.take(i as int).push(v@[i as int]));
        i += 1;
    }
    assert(v@.take(i as int) =~= v@);
    r
}

/// Whether `a` spells `b`.
pub fn is_text(a: &String, b: &str) -> (r: bool)
    ensures
        r == (a@ == b@),
{
    *a == b.to_owned()
}

/// The characters of an optional string.
pub open spec fn opt_text(a: Option<String>) -> Option<Seq<char>> {
    match a {
        Some(s) => Some(s@),
        None => None,
    }
}

pub fn same_opt(a: &Option<String>, b: &Option<String>) -> (r: bool)
    ensures
        r == (opt_text(*a) == opt_text(*b)),
{
    match (a, b) {
        (Some(x), Some(y)) => *x == *y,
        (None, None) => true,
        _ => false,
    }
}

pub fn copy_opt(a: &Option<String>) -> (r: Option<String>)
    ensures
        opt_text(r) == opt_text(*a),
{
    match a {
        Some(x) => Some(x.clone()),
        None => None,
    }
}

pub open spec fn is_digit(c: char) -> bool {
    '0' <= c && c <= '9'
}

/// `s` without its leading decimal digits.
pub open spec fn strip_digits(s: Seq<char>) -> Seq<char>
    decreases s.len(),
{
    if s.len() > 0 && is_digit(s[0]) {
        strip_digits(s.skip(1))
    } else {
        s
    }
}

/// The pieces between the separators.
pub open spec fn split(s: Seq<char>, sep: char) -> Seq<Seq<char>>
    decreases s.len(),
{
    if s.len() == 0 {
        seq![Seq::empty()]
    } else {
        let p = split(s.drop_last(), sep);
        if s.last() == sep {
            p.push(Seq::empty())
        } else {
            p.update(p.len() - 1, p.last().push(s.last()))
        }
    }
}

/// Every `a` replaced by `b`.
pub open spec fn replace(s: Seq<char>, a: char, b: char) -> Seq<char> {
    s.map_values(
        |c: char|
            if c == a {
                b
            } else {
                c
            },
    )
}

/// What follows the last `sep`; all of `s` when there is none.
pub open spec fn after_last(s: Seq<char>, sep: char) -> Seq<char>
    decreases s.len(),
{
    if s.len() == 0 || s.last() == sep {
        Seq::empty()
    } else {
        after_last(s.drop_last(), sep).push(s.last())
    }
}

/// What comes before the last `sep`; nothing when there is none.
pub open spec fn before_last(s: Seq<char>, sep: char) -> Seq<char>
    decreases s.len(),
{
    if s.len() == 0 {
        Seq::empty()
    } else if s.last() == sep {
        s.drop_last()
    } else {
        before_last(s.drop_last(), sep)
    }
}

/// The position behind the last `sep`, 0 when there is none.
pub fn last_part(v: &Vec<char>, sep: char) -> (p: usize)
    ensures
        p <= v@.len(),
        v@.skip(p as int) == after_last(v@, sep),
        p > 0 ==> v@.take(p - 1) == before_last(v@, sep),
        p == 0 ==> before_last(v@, sep) == Seq::<char>::empty(),
        p > 0 ==> v@[p - 1] == sep,
        forall|k: int| p <= k < v@.len() ==> v@[k] != sep,
{
    let mut p: usize = v.len();
    while p > 0 && v[p - 1] != sep
        invariant
            p <= v@.len(),
            forall|k: int| p <= k < v@.len() ==> v@[k] != sep,
        decreases p,
    {
        p -= 1;
    }
    proof {
        lemma_last(v@, sep, p as int);
    }
    p
}

proof fn lemma_last(s: Seq<char>, sep: char, p: int)
    requires
        0 <= p <= s.len(),
        p > 0 ==> s[p - 1] == sep,
        forall|k: int| p <= k < s.len() ==> s[k] != sep,
    ensures
        s.skip(p) == after_last(s, sep),
        p > 0 ==> s.take(p - 1) == before_last(s, sep),
        p == 0 ==> before_last(s, sep) == Seq::<char>::empty(),
    decreases s.len(),
{
    if s.len() == 0 {
        assert(s.skip(p) =~= Seq::empty());
    } else if p == s.len() {
        assert(s.skip(p) =~= Seq::empty());
        assert(s.take(p - 1) =~= s.drop_last());
    } else {
        assert(s[s.len() - 1] != sep);
        let u = s.drop_last();
        lemma_last(u, sep, p);
        assert(s.skip(p) =~= u.skip(p).push(s.last()));
        if p > 0 {
            assert(s.take(p - 1) =~= u.take(p - 1));
        }
    }
}

/// The characters of `v` in `[from, to)`.
pub fn part(v: &Vec<char>, from: usize, to: usize) -> (r: Vec<char>)
    requires
        from <= to <= v@.len(),
    ensures
        r@ == v@.subrange(from as int, to as int),
{
    let mut r: Vec<char> = Vec::new();
    let mut i: usize = from;
    while i < to
        invariant
            from <= i <= to <= v@.len(),
            r@ == v@.subrange(from as int, i as int),
        decreases to - i,
    {
        r.push(v[i]);
        assert(v@.subrange(from as int, i + 1) =~= v@.subrange(from as int, i as int).push(v@[i as int]));
        i += 1;
    }
    r
}

pub fn digit(c: char) -> (r: bool)
    ensures
        r == is_digit(c),
{
    '0' <= c && c <= '9'
}

/// `v` without its leading decimal digits.
pub fn without_digits(v: &Vec<char>) -> (r: Vec<char>)
    ensures
        r@ == strip_digits(v@),
{
    let mut i: usize = 0;
    assert(v@.skip(0) =~= v@);
    while i < v.len() && digit(v[i])
        invariant
            i <= v@.len(),
            strip_digits(v@.skip(i as int)) == strip_digits(v@),
        decreases v@.len() - i,
    {
        assert(v@.skip(i as int).skip(1) =~= v@.skip(i + 1));
        i += 1;
    }
    let r = part(v, i, v.len());
    assert(r@ =~= v@.skip(i as int));
    r
}

pub open spec fn texts(v: Seq<Vec<char>>) -> Seq<Seq<char>> {
    Seq::new(v.len(), |i: int| v[i]@)
}

/// The pieces of `v` between the separators.
pub fn pieces(v: &Vec<char>, sep: char) -> (r: Vec<Vec<char>>)
    ensures
        texts(r@) == split(v@, sep),
        r@.len() > 0,
{
    let mut r: Vec<Vec<char>> = Vec::new();
    let mut cur: Vec<char> = Vec::new();
    let mut i: usize = 0;
    assert(texts(r@).push(cur@) =~= split(v@.take(0), sep)) by {
        assert(v@.take(0) =~= Seq::empty());
        assert(cur@ =~= Seq::empty());
    }
    while i < v.len()
        invariant
            i <= v@.len(),
            texts(r@).push(cur@) == split(v@.take(i as int), sep),
        decreases v@.len() - i,
    {
        let c = v[i];
        let ghost t = v@.take(i + 1);
        let ghost before = texts(r@);
        let ghost cur0 = cur@;
        assert(t.drop_last() =~= v@.take(i as int));
        assert(t.last() == c);
        if c == sep {
            r.push(cur);
            cur = Vec::new();
            assert(texts(r@) =~= before.push(cur0));
            assert(cur@ =~= Seq::empty());
        } else {
            cur.push(c);
            assert(texts(r@).push(cur@) =~= before.push(cur0).update(before.len() as int, cur0.push(c)));
        }
        i += 1;
    }
    let ghost before = texts(r@);
    let ghost last = cur@;
    r.push(cur);
    assert(texts(r@) =~= before.push(last));
    assert(v@.take(i as int) =~= v@);
    r
}

/// Appends `b` to `a`, with every `from` replaced by `to`.
pub fn append_replaced(a: &mut Vec<char>, b: &Vec<char>, from: char, to: char)
    ensures
        final(a)@ == old(a)@ + replace(b@, from, to),
{
    let ghost a0 = a@;
    let mut i: usize = 0;
    while i < b.len()
        invariant
            i <= b@.len(),
            a@ == a0 + replace(b@, from, to).take(i as int),
        decreases b@.len() - i,
    {
        let c = if b[i] == from {
            to
        } else {
            b[i]
        };
        a.push(c);
        assert(replace(b@, from, to).take(i + 1) =~= replace(b@, from, to).take(i as int).push(c));
        i += 1;
    }
    assert(replace(b@, from, to).take(i as int) =~= replace(b@, from, to));
}

/// Appends `b` to `a`.
pub fn append(a: &mut Vec<char>, b: &Vec<char>)
    ensures
        final(a)@ == old(a)@ + b@,
{
    let ghost a0 = a@;
    let mut i: usize = 0;
    while i < b.len()
        invariant
            i <= b@.len(),
            a@ == a0 + b@.take(i as int),
        decreases b@.len() - i,
    {
        a.push(b[i]);
        assert(b@.take(i + 1) =~= b@.take(i as int).push(b@[i as int]));
        i += 1;
    }
    assert(b@.take(i as int) =~= b@);
}

/// Appends the characters of `b` to `a`.
pub fn append_str(a: &mut Vec<char>, b: &str)
    ensures
        final(a)@ == old(a)@ + b@,
{
    let v = chars_of(b);
    append(a, &v);
}

} // verus!
