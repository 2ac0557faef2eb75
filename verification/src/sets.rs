//! Whole-set operations on sets of block ids.

use std::collections::HashSet;

use vstd::prelude::*;

verus! {

broadcast use vstd::std_specs::hash::group_hash_axioms;

pub(crate) proof fn lemma_take_unref<'a, A>(s: Seq<&'a A>, i: int)
    requires
        0 <= i < s.len(),
    ensures
        s.take(i + 1).unref().to_set() == s.take(i).unref().to_set().insert(*s[i]),
{
    let a = s.take(i + 1).unref();
    let b = s.take(i).unref();
    assert(a =~= b.push(*s[i]));
    assert forall|x: A| a.to_set().contains(x) == b.to_set().insert(*s[i]).contains(x) by {
        if b.to_set().contains(x) {
            let k = choose|k: int| 0 <= k < b.len() && b[k] == x;
            assert(a[k] == x);
        }
        if x == *s[i] {
            assert(a[i] == x);
        }
        if a.to_set().contains(x) && x != *s[i] {
            let k = choose|k: int| 0 <= k < a.len() && a[k] == x;
            assert(b[k] == x);
        }
    }
    assert(a.to_set() =~= b.to_set().insert(*s[i]));
}

/// Adds every member of `src` to `dst`.
pub fn extend_set(dst: &mut HashSet<usize>, src: &HashSet<usize>)
    ensures
        final(dst)@ == old(dst)@.union(src@),
{
    let ghost d0 = dst@;
    for x in it: src.iter()
        invariant
            dst@ =~= d0.union(it.seq().take(it.index()).unref().to_set()),
            it.seq().unref().to_set() == src@,
            it.index() == it.seq().len() ==> dst@ =~= d0.union(src@),
    {
        proof {
            lemma_take_unref(it.seq(), it.index());
        }
        dst.insert(*x);
        assert(dst@ =~= d0.union(it.seq().take(it.index() + 1).unref().to_set()));
        assert(it.seq().take(it.seq().len() as int) =~= it.seq());
    }
}

/// The members of `a` that are not in `b`.
pub fn minus(a: &HashSet<usize>, b: &HashSet<usize>) -> (r: HashSet<usize>)
    ensures
        r@ == a@.difference(b@),
{
    let mut r: HashSet<usize> = HashSet::new();
    for x in it: a.iter()
        invariant
            r@ =~= it.seq().take(it.index()).unref().to_set().difference(b@),
            it.seq().unref().to_set() == a@,
            it.index() == it.seq().len() ==> r@ =~= a@.difference(b@),
    {
        proof {
            lemma_take_unref(it.seq(), it.index());
        }
        if !b.contains(x) {
            r.insert(*x);
        }
        assert(r@ =~= it.seq().take(it.index() + 1).unref().to_set().difference(b@));
        assert(it.seq().take(it.seq().len() as int) =~= it.seq());
    }
    r
}

/// A set with the same members.
pub fn copy_set(s: &HashSet<usize>) -> (r: HashSet<usize>)
    ensures
        r@ == s@,
{
    let mut r: HashSet<usize> = HashSet::new();
    extend_set(&mut r, s);
    assert(r@ =~= s@);
    r
}

/// Adds every element of `src` to `dst`.
pub fn extend_seq(dst: &mut HashSet<usize>, src: &Vec<usize>)
    ensures
        final(dst)@ == old(dst)@.union(src@.to_set()),
{
    let ghost d0 = dst@;
    let mut i: usize = 0;
    proof {
        assert(src@.take(0).to_set() =~= Set::empty());
        assert(d0 =~= d0.union(Set::empty()));
    }
    while i < src.len()
        invariant
            i <= src.len(),
            dst@ == d0.union(src@.take(i as int).to_set()),
        decreases src.len() - i,
    {
        let ghost a = src@.take(i + 1);
        let ghost b = src@.take(i as int);
        dst.insert(src[i]);
        proof {
            assert(a =~= b.push(src@[i as int]));
            assert forall|x: usize| a.to_set().contains(x) == b.to_set().insert(src@[i as int]).contains(x) by {
                if b.to_set().contains(x) {
                    let k = choose|k: int| 0 <= k < b.len() && b[k] == x;
                    assert(a[k] == x);
                }
                assert(a[i as int] == src@[i as int]);
                if a.to_set().contains(x) && x != src@[i as int] {
                    let k = choose|k: int| 0 <= k < a.len() && a[k] == x;
                    assert(b[k] == x);
                }
            }
            assert(dst@ =~= d0.union(a.to_set()));
        }
        i += 1;
    }
    assert(src@.take(src.len() as int) =~= src@);
}

/// Index lookup in a list of ids.
pub fn list_has(v: &Vec<usize>, x: usize) -> (r: bool)
    ensures
        r == v@.contains(x),
{
    let mut i: usize = 0;
    while i < v.len()
        invariant
            i <= v.len(),
            forall|j: int| 0 <= j < i ==> v@[j] != x,
        decreases v.len() - i,
    {
        if v[i] == x {
            assert(v@[i as int] == x);
            return true;
        }
        i += 1;
    }
    false
}

/// A list with the same elements.
pub fn copy_list(v: &Vec<usize>) -> (r: Vec<usize>)
    ensures
        r@ == v@,
{
    let mut r: Vec<usize> = Vec::new();
    let mut i: usize = 0;
    while i < v.len()
        invariant
            i <= v.len(),
            r@ == v@.take(i as int),
        decreases v.len() - i,
    {
        r.push(v[i]);
        assert(v@.take(i + 1) =~= v@.take(i as int).push(v@[i as int]));
        i += 1;
    }
    assert(v@.take(v.len() as int) =~= v@);
    r
}

} // verus!
