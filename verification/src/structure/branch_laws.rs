//! What a branch region holds and where the walk goes on behind it.

use vstd::prelude::*;

use crate::ir::{Expr, Term};
use crate::structure::env::Env;
use crate::structure::model::{Branch, Cx, Frame, St, Ws};
use crate::structure::region::Tree;

verus! {

impl Env {
    /// The block only leaves the value `v` on the stack and goes on at the
    /// follow, and the region is that block, with or without the jump there.
    pub open spec fn value_at(self, r: Tree, follow: Option<usize>, x: usize, v: Expr) -> bool {
        &&& r == (Tree::Basic { block: x }) || (follow is Some && r == Tree::Sequence(
            seq![Tree::Basic { block: x }, Tree::Goto { target: follow->0 }],
        ))
        &&& x < self.n()
        &&& self.results[x as int].stmts@.len() == 0
        &&& self.results[x as int].out_stack@.len() == 1
        &&& *self.results[x as int].out_stack@[0] == v
        &&& self.term(x) is Fallthrough || (self.term(x) is Goto && follow is Some && self.succ(x) == seq![follow->0])
    }

    /// The region does nothing but leave the value.
    pub open spec fn leaves_value(self, r: Tree, follow: Option<usize>, v: Expr) -> bool {
        exists|x: usize| #[trigger] self.value_at(r, follow, x, v)
    }

    /// The walk takes a two-way branch that is no pure value.
    pub open spec fn branches(self, cx: Cx, f: Frame, w: Ws, cond: Expr) -> bool {
        &&& self.by_terminal(cx, f, w)
        &&& self.term(w.cur) matches Term::Cond { cond: c } && *c == cond
        &&& self.succ(w.cur).len() == 2
        &&& self.no_value(f, w)
    }

    proof fn lemma_branch_part(self, cx: Cx, f: Frame, w: Ws, cond: Expr) -> (br: Branch)
        requires
            self.branches(cx, f, w, cond),
        ensures
            br.cur == w.cur,
            br.taken == self.succ(w.cur)[1],
            br.fall == self.succ(w.cur)[0],
            ({
                let w1 = Ws { first: false, ..w.with(w.st.claim(w.cur)) };
                let (then_r, s1) = self.then_side(cx, w1.st, f, br);
                let (else_r, s2) = self.else_side(cx, s1, f, br);
                let values = self.value_sides(then_r, else_r, br.follow);
                let s3 = match values {
                    Some((a, b)) => s2.claim(a).claim(b),
                    None => s2,
                };
                let r = Tree::If {
                    block: w.cur,
                    cond,
                    then_r: Box::new(then_r),
                    else_r: Box::new(else_r),
                    follow: br.follow,
                    ternary: match values {
                        Some((a, b)) => Some((self.value_of(a), self.value_of(b))),
                        None => None,
                    },
                };
                &&& self.step(cx, f, w) == self.after_branch(cx, f, w1.with(s3).push(r), br.follow)
                &&& self.step(cx, f, w).parts.len() > w.parts.len()
                &&& self.step(cx, f, w).parts[w.parts.len() as int] == r
            }),
    {
        let w1 = Ws { first: false, ..w.with(w.st.claim(w.cur)) };
        let pre = self.at_claimed_entry(f, w);
        let fall = self.succ(w.cur)[0];
        let taken = self.succ(w.cur)[1];
        let pd = self.branch_merge(f, w.cur, taken, fall);
        let follow = self.branch_follow(f, w1, pd, pre);
        let fo = if follow is None {
            self.stub_follow(cx, f, w1, taken, fall)
        } else {
            follow
        };
        let br = Branch { cur: w.cur, taken, fall, follow: fo, bstop: self.with_follow(f.stop, fo) };
        assert(self.step(cx, f, w) == self.branch_step(cx, f, w1, cond, br));
        br
    }

    /// The sides of a branch region stand where its condition sends flow: the
    /// one for a true condition leads to the block's second successor, the
    /// other to its first.
    pub proof fn law_sides(self, cx: Cx, f: Frame, w: Ws, cond: Expr)
        requires
            self.branches(cx, f, w, cond),
        ensures
            self.step(cx, f, w).parts[w.parts.len() as int] matches Tree::If { then_r, else_r, follow, .. } && {
                &&& self.shows(self.succ(w.cur)[1]) ==> self.heads_to(*then_r, self.succ(w.cur)[1])
                &&& self.shows(self.succ(w.cur)[0]) && follow != Some(self.succ(w.cur)[1]) ==> self.heads_to(
                    *else_r,
                    self.succ(w.cur)[0],
                )
            },
    {
        let br = self.lemma_branch_part(cx, f, w, cond);
        let w1 = Ws { first: false, ..w.with(w.st.claim(w.cur)) };
        let s1 = self.then_side(cx, w1.st, f, br).1;
        self.law_branch_sides(cx, w1.st, f, br);
        self.law_branch_sides(cx, s1, f, br);
    }

    proof fn lemma_value_side(self, r: Tree, follow: Option<usize>)
        ensures
            self.value_side(r, follow) matches Some(x) ==> self.value_at(r, follow, x, self.value_of(x)),
            forall|x: usize, v: Expr| #[trigger]
                self.value_at(r, follow, x, v) ==> self.value_side(r, follow) == Some(x) && v == self.value_of(x),
    {
        match r {
            Tree::Basic { block } => {
                if self.pure_value(block, follow) && self.term(block) is Goto {
                    assert(self.succ(block) =~= seq![follow->0]);
                }
            },
            Tree::Sequence(v) => {
                if self.value_side(r, follow) is Some {
                    let x = self.value_side(r, follow)->0;
                    assert(v =~= seq![Tree::Basic { block: x }, Tree::Goto { target: follow->0 }]);
                    if self.term(x) is Goto {
                        assert(self.succ(x) =~= seq![follow->0]);
                    }
                }
            },
            _ => {},
        }
    }

    /// A branch region is a conditional expression exactly if both its sides do
    /// nothing but leave a value for the follow; its values are theirs, that of
    /// the side for a true condition first.
    pub proof fn law_conditional_value(self, cx: Cx, f: Frame, w: Ws, cond: Expr, a: Expr, b: Expr)
        requires
            self.branches(cx, f, w, cond),
        ensures
            self.step(cx, f, w).parts[w.parts.len() as int] matches Tree::If { then_r, else_r, follow, ternary, .. } && {
                ternary == Some((a, b)) <==> follow is Some && self.leaves_value(*then_r, follow, a) && self.leaves_value(
                    *else_r,
                    follow,
                    b,
                )
            },
    {
        let br = self.lemma_branch_part(cx, f, w, cond);
        let w1 = Ws { first: false, ..w.with(w.st.claim(w.cur)) };
        let (then_r, s1) = self.then_side(cx, w1.st, f, br);
        let (else_r, s2) = self.else_side(cx, s1, f, br);
        self.lemma_value_side(then_r, br.follow);
        self.lemma_value_side(else_r, br.follow);
    }

    /// Behind a branch region the walk goes on at the follow where it can enter
    /// it; with no follow it is over.
    pub proof fn law_behind_branch(self, cx: Cx, f: Frame, w: Ws, cond: Expr)
        requires
            self.branches(cx, f, w, cond),
            !w.done,
        ensures
            ({
                let e = self.step(cx, f, w);
                e.parts[w.parts.len() as int] matches Tree::If { follow, .. } && {
                    &&& follow is None ==> e.done && e.parts.len() == w.parts.len() + 1
                    &&& follow matches Some(x) ==> f.universe.contains(x) && !f.stop.contains(x) && !e.st.claimed.contains(x)
                        ==> !e.done && e.cur == x && e.parts.len() == w.parts.len() + 1
                }
            }),
    {
        let br = self.lemma_branch_part(cx, f, w, cond);
    }

    /// Behind a switch region the walk goes on at the follow where it can enter it.
    pub proof fn law_behind_switch(self, cx: Cx, f: Frame, w: Ws, selector: Expr)
        requires
            self.by_terminal(cx, f, w),
            self.term(w.cur) matches Term::Switch { selector: s, .. } && *s == selector,
            !w.done,
        ensures
            ({
                let e = self.step(cx, f, w);
                e.parts[w.parts.len() as int] matches Tree::Switch { follow, .. } && (follow matches Some(x)
                    ==> f.universe.contains(x) && !f.stop.contains(x) && !e.st.claimed.contains(x) ==> !e.done && e.cur == x
                    && e.parts.len() == w.parts.len() + 1)
            }),
    {
        let w1 = Ws { first: false, ..w.with(w.st.claim(w.cur)) };
        assert(self.step(cx, f, w) == self.switch_step(cx, f, w1, selector));
        let follow = self.cases_follow(f, w.cur);
        let (r, s) = self.bound_switch(cx, f, w1, selector, follow);
        assert(self.step(cx, f, w).parts[w.parts.len() as int] == r);
    }

    /// Behind a try region the walk goes on at the first block behind the
    /// group's span where it may.
    pub proof fn law_behind_try(self, cx: Cx, f: Frame, w: Ws, gi: usize, x: usize)
        requires
            self.takes(f, w),
            self.opened(cx, f, w) == Some(gi),
            !w.done,
            self.n() <= usize::MAX,
        ensures
            ({
                let e = self.step(cx, f, w);
                let own = self.handler_flow(gi, cx.loops);
                &&& !e.done ==> self.may_go_on(self.groups[gi as int].end, f, e.st.claimed, own, e.cur)
                &&& self.may_go_on(self.groups[gi as int].end, f, e.st.claimed, own, x) ==> !e.done && e.cur <= x
            }),
    {
        let w1 = Ws { first: false, ..w };
        assert(self.step(cx, f, w) == self.try_step(cx, f, w1, gi));
        let s = self.try_region(cx, w1.st, gi, f.universe, f.stop).1;
        self.law_next_block(self.groups[gi as int].end, f, s.claimed, self.handler_flow(gi, cx.loops), 0, x);
    }

    // -- pure values --------------------------------------------------------------

    /// The block does nothing, may be passed, and goes on in the set or at the merge.
    pub open spec fn passes_to(self, x: usize, merge: usize, universe: Set<usize>, stop: Set<usize>, claimed: Set<usize>, s: Set<usize>) -> bool {
        &&& universe.contains(x) && !stop.contains(x) && !claimed.contains(x)
        &&& self.cfg.len(x) == 0 || self.quiet(x)
        &&& self.succ(x).len() > 0
        &&& s.contains(self.succ(x)[0]) || self.succ(x)[0] == merge
        &&& self.cfg.len(x) != 0 ==> forall|k: int|
            0 <= k < self.succ(x).len() ==> s.contains(#[trigger] self.succ(x)[k]) || self.succ(x)[k] == merge
    }

    /// Blocks counted as passed between a branch and its merge do nothing, and
    /// every way from them stays among them until it comes to the merge.
    pub proof fn law_diamond(
        self,
        b: usize,
        merge: usize,
        universe: Set<usize>,
        stop: Set<usize>,
        claimed: Set<usize>,
        seen: Set<usize>,
        depth: nat,
        fuel: nat,
    )
        requires
            self.diamond(b, merge, universe, stop, claimed, seen, depth, fuel).0,
        ensures
            ({
                let s = self.diamond(b, merge, universe, stop, claimed, seen, depth, fuel).1;
                &&& seen.subset_of(s)
                &&& b == merge || s.contains(b)
                &&& forall|x: usize| #[trigger]
                    s.contains(x) && !seen.contains(x) ==> self.passes_to(x, merge, universe, stop, claimed, s)
            }),
        decreases 33 - depth, fuel,
    {
        let s = self.diamond(b, merge, universe, stop, claimed, seen, depth, fuel).1;
        if b == merge {
        } else if self.cfg.len(b) == 0 || self.term(b).plain() {
            self.law_diamond(self.succ(b)[0], merge, universe, stop, claimed, seen.insert(b), depth, (fuel - 1) as nat);
            assert(s.contains(b));
            assert forall|x: usize| #[trigger] s.contains(x) && !seen.contains(x) implies self.passes_to(
                x,
                merge,
                universe,
                stop,
                claimed,
                s,
            ) by {
                if x != b {
                    assert(!seen.insert(b).contains(x));
                }
            }
        } else {
            let s0 = self.diamond(self.succ(b)[0], merge, universe, stop, claimed, Set::empty(), depth + 1, 10_000).1;
            let s1 = self.diamond(self.succ(b)[1], merge, universe, stop, claimed, s0, depth + 1, 10_000).1;
            self.law_diamond(self.succ(b)[0], merge, universe, stop, claimed, Set::empty(), depth + 1, 10_000);
            self.law_diamond(self.succ(b)[1], merge, universe, stop, claimed, s0, depth + 1, 10_000);
            assert(s == seen.insert(b).union(s1));
            assert forall|x: usize| #[trigger] s.contains(x) && !seen.contains(x) implies self.passes_to(
                x,
                merge,
                universe,
                stop,
                claimed,
                s,
            ) by {
                if s0.contains(x) {
                    assert(self.passes_to(x, merge, universe, stop, claimed, s0));
                } else if s1.contains(x) {
                    assert(self.passes_to(x, merge, universe, stop, claimed, s1));
                }
            }
        }
    }

    // -- switches -----------------------------------------------------------------

    proof fn lemma_case_binds(self, r: Tree, f: usize, k: nat, i: int)
        requires
            r matches Tree::Switch { cases, .. } && 0 <= i < k <= cases.len(),
            self.cases_bind(r, f, k),
        ensures
            r matches Tree::Switch { cases, .. } && (cases[i].1 is Empty || self.binds(cases[i].1, f)),
        decreases k,
    {
        if i < k - 1 {
            self.lemma_case_binds(r, f, (k - 1) as nat, i);
        }
    }

    /// A region that binds to `f` jumps nowhere else at its ends.
    pub proof fn law_binds(self, r: Tree, f: usize, t: usize)
        requires
            self.binds(r, f),
        ensures
            r.tail_targets().contains(t) ==> t == f,
        decreases r,
    {
        match r {
            Tree::Sequence(v) => {
                self.law_binds(v[v.len() - 1], f, t);
            },
            Tree::If { then_r, else_r, .. } => {
                self.law_binds(*then_r, f, t);
                self.law_binds(*else_r, f, t);
                if r.tail_targets().contains(t) {
                    let u = then_r.tail_targets();
                    let i = choose|i: int| 0 <= i < r.tail_targets().len() && r.tail_targets()[i] == t;
                    if i < u.len() {
                        assert(u[i] == t);
                    } else {
                        assert(else_r.tail_targets()[i - u.len()] == t);
                    }
                }
            },
            _ => {},
        }
    }

    /// A switch that can take `f` as its follow has a default arm, and no arm
    /// jumps anywhere else at its ends.
    pub proof fn law_bindable(self, r: Tree, f: usize, t: usize)
        requires
            self.bindable(r, f),
        ensures
            r matches Tree::Switch { cases, default, .. } && {
                &&& default matches Some(d) && (d.tail_targets().contains(t) ==> t == f)
                &&& forall|i: int| 0 <= i < cases.len() && (#[trigger] cases[i]).1.tail_targets().contains(t) ==> t == f
            },
    {
        match r {
            Tree::Switch { cases, default, .. } => {
                self.law_binds(*default->0, f, t);
                assert forall|i: int| 0 <= i < cases.len() && (#[trigger] cases[i]).1.tail_targets().contains(t) implies t == f by {
                    self.lemma_case_binds(r, f, cases.len(), i);
                    if !(cases[i].1 is Empty) {
                        self.law_binds(cases[i].1, f, t);
                    }
                }
            },
            _ => {},
        }
    }

    /// The follow of a switch with one live case is the possible follow that
    /// starts first; there is none only where no block can follow.
    pub proof fn law_first_follow(self, cur: usize, d: Set<usize>, k: nat, x: usize)
        requires
            k <= usize::MAX,
        ensures
            self.first_follow(cur, d, k) matches Some(c) ==> c < k && self.can_follow(cur, d, c),
            x < k && self.can_follow(cur, d, x) ==> {
                let r = self.first_follow(cur, d, k);
                r is Some && self.start(r->0) <= self.start(x)
            },
        decreases k,
    {
        if k > 0 {
            self.law_first_follow(cur, d, (k - 1) as nat, x);
        }
    }

    // -- filled arms --------------------------------------------------------------

    /// Filling the empty sides and inner jumps of an arm keeps every block in it.
    pub proof fn law_filled_keeps(
        self,
        cx: Cx,
        st: St,
        r: Tree,
        copy: Tree,
        taken: usize,
        scope: Set<usize>,
        stop: Set<usize>,
        active: Seq<usize>,
        b: usize,
    )
        requires
            r.mentions(b),
        ensures
            self.skip_fill(cx, st, r, copy, taken, scope, stop, active).0.mentions(b),
        decreases r, 1nat, 0nat,
    {
        let out = self.skip_fill(cx, st, r, copy, taken, scope, stop, active).0;
        r.lemma_mentions_step(b);
        out.lemma_mentions_step(b);
        let w = r.inner();
        let o = out.inner();
        match r {
            Tree::Sequence(v) => {
                let i = choose|i: int| 0 <= i < w.len() && (#[trigger] w[i]).mentions(b);
                self.lemma_parts_keep(cx, st, r, copy, taken, scope, stop, active, v.len(), i, b);
                assert(o[i].mentions(b));
            },
            Tree::If { block, then_r, else_r, .. } => {
                if block < self.n() && self.succ(block).len() == 2 {
                    let s1 = if *then_r is Empty {
                        self.skip_empty(cx, st, self.succ(block)[1], copy, taken, scope, stop, active).1
                    } else {
                        self.skip_fill(cx, st, *then_r, copy, taken, scope, stop, active).1
                    };
                    if then_r.mentions(b) {
                        self.law_filled_keeps(cx, st, *then_r, copy, taken, scope, stop, active, b);
                        assert(o[0].mentions(b));
                    } else {
                        self.law_filled_keeps(cx, s1, *else_r, copy, taken, scope, stop, active, b);
                        assert(o[1].mentions(b));
                    }
                }
            },
            Tree::Try { body, catches, .. } => {
                let s1 = self.skip_fill(cx, st, *body, copy, taken, scope, stop, active).1;
                let i = choose|i: int| 0 <= i < w.len() && (#[trigger] w[i]).mentions(b);
                if i == 0 {
                    assert(w[0] == *body);
                    self.law_filled_keeps(cx, st, *body, copy, taken, scope, stop, active, b);
                    assert(o[0].mentions(b));
                } else {
                    assert(w[i] == catches[i - 1].2);
                    self.lemma_catches_keep(cx, s1, r, copy, taken, scope, stop, active, catches.len(), i - 1, b);
                    assert(o[i].mentions(b));
                }
            },
            _ => {},
        }
    }

    proof fn lemma_parts_keep(
        self,
        cx: Cx,
        st: St,
        r: Tree,
        copy: Tree,
        taken: usize,
        scope: Set<usize>,
        stop: Set<usize>,
        active: Seq<usize>,
        k: nat,
        i: int,
        b: usize,
    )
        requires
            r matches Tree::Sequence(v) && k <= v.len() && (0 <= i < k ==> v[i].mentions(b)),
        ensures
            ({
                let u = self.skip_parts(cx, st, r, copy, taken, scope, stop, active, k).0;
                u.len() == k && (0 <= i < k ==> u[i].mentions(b))
            }),
        decreases r, 0nat, k,
    {
        if k > 0 {
            let v = r->Sequence_0;
            self.lemma_parts_keep(cx, st, r, copy, taken, scope, stop, active, (k - 1) as nat, i, b);
            let s = self.skip_parts(cx, st, r, copy, taken, scope, stop, active, (k - 1) as nat).1;
            if i == k - 1 {
                assert(decreases_to!(v => v[k - 1]));
                self.law_filled_keeps(cx, s, v[k - 1], copy, taken, scope, stop, active, b);
            }
        }
    }

    proof fn lemma_catches_keep(
        self,
        cx: Cx,
        st: St,
        r: Tree,
        copy: Tree,
        taken: usize,
        scope: Set<usize>,
        stop: Set<usize>,
        active: Seq<usize>,
        k: nat,
        i: int,
        b: usize,
    )
        requires
            r matches Tree::Try { catches, .. } && k <= catches.len() && (0 <= i < k ==> catches[i].2.mentions(b)),
        ensures
            ({
                let u = self.skip_catches(cx, st, r, copy, taken, scope, stop, active, k).0;
                u.len() == k && (0 <= i < k ==> u[i].2.mentions(b))
            }),
        decreases r, 0nat, k,
    {
        if k > 0 {
            let v = r->Try_catches;
            self.lemma_catches_keep(cx, st, r, copy, taken, scope, stop, active, (k - 1) as nat, i, b);
            let s = self.skip_catches(cx, st, r, copy, taken, scope, stop, active, (k - 1) as nat).1;
            if i == k - 1 {
                assert(decreases_to!(v => v[k - 1]));
                assert(decreases_to!(v[k - 1] => v[k - 1].2));
                self.law_filled_keeps(cx, s, v[k - 1].2, copy, taken, scope, stop, active, b);
            }
        }
    }
}

} // verus!
