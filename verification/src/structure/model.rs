//! What the structuring walk computes: the region tree of a scope, and what
//! it leaves claimed, copied and spent.

use vstd::prelude::*;

use crate::ir::Term;
use crate::structure::dominators;
use crate::structure::env::Env;
use crate::structure::region;
use crate::structure::region::Tree;

verus! {

/// Where a walk stands: nesting depth, loops around it, case arms around it.
#[verifier::ext_equal]
pub struct Cx {
    pub depth: nat,
    pub loops: Seq<usize>,
    pub in_switch: bool,
    pub arms: Seq<(usize, Option<usize>, bool)>,
    pub copies: nat,
}

/// What a walk changes: claimed blocks, copied tails, the remaining tickets
/// and visits, the groups being structured, and how often dominators were asked for.
#[verifier::ext_equal]
pub struct St {
    pub claimed: Set<usize>,
    pub tails: Set<usize>,
    pub budget: u32,
    pub visits: u64,
    pub structuring: Seq<usize>,
    pub doms: u64,
}

/// What stays fixed during one walk.
pub struct Frame {
    pub entry: usize,
    pub universe: Set<usize>,
    pub stop: Set<usize>,
    pub active: Seq<usize>,
    pub allow: bool,
    /// The entry was claimed beforehand.
    pub pre: bool,
    pub idom: Seq<usize>,
}

/// The state of one walk between two blocks.
#[verifier::ext_equal]
pub struct Ws {
    pub parts: Seq<Tree>,
    pub cur: usize,
    pub done: bool,
    pub first: bool,
    pub structured: Set<usize>,
    pub st: St,
}

/// A two-way branch being structured.
pub struct Branch {
    pub cur: usize,
    pub taken: usize,
    pub fall: usize,
    pub follow: Option<usize>,
    pub bstop: Set<usize>,
}

impl Cx {
    pub open spec fn deeper(self) -> Cx {
        Cx { depth: self.depth + 1, ..self }
    }

    pub open spec fn in_loop(self, h: usize) -> Cx {
        Cx { loops: self.loops.push(h), ..self }
    }

    pub open spec fn switching(self) -> Cx {
        Cx { in_switch: true, ..self }
    }

    pub open spec fn in_arm(self, head: usize, follow: Option<usize>, pattern: bool) -> Cx {
        Cx { arms: self.arms.push((head, follow, pattern)), ..self }
    }

    pub open spec fn copying(self) -> Cx {
        Cx { copies: self.copies + 1, ..self }
    }

    /// The innermost loop, if any, is not headed by `b`.
    pub open spec fn in_other_loop(self, b: usize) -> bool {
        self.loops.len() > 0 && self.loops.last() != b
    }

    /// The follows of the case arms around the walk.
    pub open spec fn arm_follows(self) -> Set<usize> {
        Set::new(|f: usize| exists|i: int| 0 <= i < self.arms.len() && (#[trigger] self.arms[i]).1 == Some(f))
    }
}

impl St {
    pub open spec fn spent(self) -> St {
        St { budget: (self.budget - 1) as u32, ..self }
    }

    pub open spec fn visited(self) -> St {
        St { visits: (self.visits - 1) as u64, ..self }
    }

    pub open spec fn counted(self) -> St {
        St { doms: self.doms.wrapping_add(1), ..self }
    }

    pub open spec fn claim(self, b: usize) -> St {
        St { claimed: self.claimed.insert(b), ..self }
    }

    pub open spec fn with_claimed(self, s: Set<usize>) -> St {
        St { claimed: s, ..self }
    }

    pub open spec fn with_tail(self, b: usize) -> St {
        St { tails: self.tails.insert(b), ..self }
    }
}

impl Ws {
    pub open spec fn push(self, r: Tree) -> Ws {
        Ws { parts: self.parts.push(r), ..self }
    }

    pub open spec fn end(self) -> Ws {
        Ws { done: true, ..self }
    }

    pub open spec fn go(self, b: usize) -> Ws {
        Ws { cur: b, ..self }
    }

    pub open spec fn with(self, st: St) -> Ws {
        Ws { st, ..self }
    }

    /// The block is new, in the walk's scope, and no boundary.
    pub open spec fn can_enter(self, f: Frame, b: usize) -> bool {
        f.universe.contains(b) && !f.stop.contains(b) && !self.st.claimed.contains(b)
    }
}

/// The jump to a block.
pub open spec fn jump(b: usize) -> Tree {
    Tree::Goto { target: b }
}

/// The active groups that were not structured yet.
pub open spec fn unstructured(active: Seq<usize>, structured: Set<usize>) -> Seq<usize> {
    active.filter(|g: usize| !structured.contains(g))
}

/// The list without `x`.
pub open spec fn all_but(v: Seq<usize>, x: usize) -> Seq<usize> {
    v.filter(differs(x))
}

pub open spec fn differs(x: usize) -> spec_fn(usize) -> bool {
    |y: usize| y != x
}

/// The part of a copied sequence from the part that stands at `target` on.
pub open spec fn suffix_at(copy: Tree, target: usize, k: nat) -> Option<Tree>
    decreases (match copy {
        Tree::Sequence(v) => v.len(),
        _ => 0,
    }) - k,
{
    match copy {
        Tree::Sequence(v) => if k >= v.len() {
            None
        } else if v[k as int].head() == target {
            Some(if v.len() - k == 1 {
                v[k as int]
            } else {
                Tree::Sequence(v.skip(k as int))
            })
        } else {
            suffix_at(copy, target, k + 1)
        },
        _ => if copy.head() == target {
            Some(copy)
        } else {
            None
        },
    }
}

/// A part of a copy names no block that the copy does not.
pub(crate) proof fn lemma_suffix(copy: Tree, target: usize, k: nat, n: nat, g: nat)
    requires
        copy.within(n, g),
    ensures
        suffix_at(copy, target, k) matches Some(x) ==> x.within(n, g),
    decreases (match copy {
        Tree::Sequence(v) => v.len(),
        _ => 0,
    }) - k,
{
    if let Tree::Sequence(v) = copy {
        if k < v.len() {
            assert(v[k as int].within(n, g));
            assert forall|i: int| 0 <= i < v.skip(k as int).len() implies (#[trigger] v.skip(k as int)[i]).within(n, g) by {
                assert(v[k + i].within(n, g));
            }
            lemma_suffix(copy, target, k + 1, n, g);
        }
    }
}

/// A completed fill: something, of simple parts, that never falls out at its end.
#[verifier::opaque]
pub open spec fn completes(e: Env, r: Tree) -> bool {
    !(r is Empty) && r.simple() && r.terminates(e.results, Seq::empty())
}

impl Env {
    // -- copies ----------------------------------------------------------------------

    /// Flow from `t` comes to `guard` or to a loop around the walk.
    pub open spec fn comes_back(self, cx: Cx, t: usize, guard: usize) -> bool {
        self.reaches(t, guard, 4096) || exists|i: int|
            0 <= i < cx.loops.len() && (#[trigger] cx.loops[i] == t || self.reaches(t, cx.loops[i], 4096))
    }

    /// Blocks that a copy from `t` must not enter.
    pub open spec fn copy_bars(self, cx: Cx, t: usize, stop: Set<usize>, guard: usize) -> Set<usize> {
        let bars = stop.union(cx.loops.to_set()).insert(guard);
        if self.is_terminator(t) {
            bars
        } else {
            bars.union(
                self.reach_within(t, bars).filter(
                    |x: usize|
                        x != t && self.shared_tail(x) && (!self.allow || !(self.term(x) is Switch || self.small_closure(
                            x,
                            bars,
                        ))),
                ),
            )
        }
    }

    /// The scope and the active groups of a copy, with the groups from `k` on that start in it.
    pub open spec fn copy_scope(self, tu: Set<usize>, active: Seq<usize>, k: nat) -> (Set<usize>, Seq<usize>)
        decreases self.groups.len() - k,
    {
        if k >= self.groups.len() {
            (tu, active)
        } else {
            let gi = k as usize;
            if active.contains(gi) || !self.holds_start(gi, tu) {
                self.copy_scope(tu, active, k + 1)
            } else {
                self.copy_scope(
                    tu.union(Set::new(|b: usize| self.handles(b, gi))),
                    active.push(gi),
                    k + 1,
                )
            }
        }
    }

    /// The region of a second walk from `t`, if a copy is affordable and ends.
    pub open spec fn copy_walk(self, cx: Cx, st: St, t: usize, stop: Set<usize>, active: Seq<usize>, guard: usize) -> (Option<Tree>, St)
        decreases 256 - cx.depth, 1nat, 0nat, 0nat, Tree::Empty, 0nat, 0nat,
    {
        if cx.copies >= 4 || st.budget == 0 {
            (None, st)
        } else if self.comes_back(cx, t, guard) || self.copy_bars(cx, t, stop, guard).contains(t) {
            (None, st.spent())
        } else {
            let tu = self.reach_within(t, self.copy_bars(cx, t, stop, guard));
            let (scope, groups) = self.copy_scope(tu, active, 0);
            let (r, s) = self.walk(cx.copying(), st.spent().with_claimed(Set::empty()), t, scope, stop, groups, true);
            (Some(r), s.with_claimed(st.claimed).with_tail(t))
        }
    }

    /// The copy, or the jump where none is made.
    pub open spec fn copy_or_jump(self, cx: Cx, st: St, t: usize, stop: Set<usize>, active: Seq<usize>, guard: usize) -> (Tree, St)
        decreases 256 - cx.depth, 2nat, 0nat, 0nat, Tree::Empty, 0nat, 0nat,
    {
        let (r, s) = self.copy_walk(cx, st, t, stop, active, guard);
        (match r {
            Some(x) => x,
            None => jump(t),
        }, s)
    }

    /// A branch to a boundary block: a copy where it only ends the method.
    pub open spec fn boundary_branch(self, cx: Cx, st: St, t: usize, bstop: Set<usize>, active: Seq<usize>, cur: usize) -> (Tree, St)
        decreases 256 - cx.depth, 3nat, 0nat, 0nat, Tree::Empty, 0nat, 0nat,
    {
        if !cx.loops.contains(t) && self.stop_chain(t, st.claimed, cx.loops, 8) {
            self.copy_or_jump(cx, st, t, bstop.remove(t), active, cur)
        } else {
            (jump(t), st)
        }
    }

    /// A throwaway walk for one copy ticket; claims are not kept.
    pub open spec fn ticket_walk(self, cx: Cx, st: St, t: usize, scope: Set<usize>, stop: Set<usize>, active: Seq<usize>) -> (Tree, St)
        decreases 256 - cx.depth, 1nat, 0nat, 0nat, Tree::Empty, 0nat, 0nat,
    {
        if st.budget == 0 {
            (Tree::Empty, st)
        } else {
            let (r, s) = self.walk(cx, st.spent(), t, scope, stop, active, false);
            (r, s.with_claimed(st.claimed))
        }
    }

    // -- one walk ------------------------------------------------------------------------

    /// The region of the scope from `entry`. Past the depth limit, or with no
    /// visits left, it is a jump.
    pub open spec fn walk(
        self,
        cx: Cx,
        st: St,
        entry: usize,
        universe: Set<usize>,
        stop: Set<usize>,
        active: Seq<usize>,
        allow: bool,
    ) -> (Tree, St)
        decreases 256 - cx.depth, 0nat, 0nat, 0nat, Tree::Empty, 0nat, 0nat,
    {
        if cx.depth >= 256 || st.visits == 0 {
            (jump(entry), st)
        } else {
            self.walk_inner(cx.deeper(), st.visited(), entry, universe, stop, active, allow)
        }
    }

    pub open spec fn walk_inner(
        self,
        cx: Cx,
        st: St,
        entry: usize,
        universe: Set<usize>,
        stop: Set<usize>,
        active: Seq<usize>,
        allow: bool,
    ) -> (Tree, St)
        decreases 256 - cx.depth, 9nat, 0nat, 0nat, Tree::Empty, 0nat, 0nat,
    {
        if !universe.contains(entry) {
            (Tree::Empty, st)
        } else {
            let f = Frame {
                entry,
                universe,
                stop,
                active,
                allow,
                pre: st.claimed.contains(entry),
                idom: dominators::dom_of(self.cfg, universe, entry),
            };
            let w = self.run(cx, f, self.at_start(f, st.counted()), 100_000);
            (region::joined(w.parts), w.st)
        }
    }

    pub open spec fn at_start(self, f: Frame, st: St) -> Ws {
        Ws { parts: Seq::empty(), cur: f.entry, done: false, first: true, structured: Set::empty(), st }
    }

    /// Steps until the walk ends, leaves its scope, or has taken `fuel` steps.
    pub open spec fn run(self, cx: Cx, f: Frame, w: Ws, fuel: nat) -> Ws
        decreases 256 - cx.depth, 8nat, fuel, 0nat, Tree::Empty, 0nat, 0nat,
    {
        if fuel == 0 || w.done || f.stop.contains(w.cur) || !f.universe.contains(w.cur) {
            w
        } else {
            self.run(cx, f, self.step(cx, f, w), (fuel - 1) as nat)
        }
    }

    /// The walk stands at its claimed entry and has made nothing.
    pub open spec fn at_claimed_entry(self, f: Frame, w: Ws) -> bool {
        f.pre && w.cur == f.entry && w.parts.len() == 0
    }

    /// One block.
    pub open spec fn step(self, cx: Cx, f: Frame, w: Ws) -> Ws
        decreases 256 - cx.depth, 7nat, 0nat, 0nat, Tree::Empty, 0nat, 0nat,
    {
        if w.st.claimed.contains(w.cur) && !(w.first && f.allow) {
            self.arrive(cx, f, w).end()
        } else if !w.first && self.is_handler(w.cur) && f.active.len() == 0 {
            w.end()
        } else {
            self.block_step(cx, f, Ws { first: false, ..w })
        }
    }

    pub open spec fn block_step(self, cx: Cx, f: Frame, w: Ws) -> Ws
        decreases 256 - cx.depth, 6nat, 2nat, 0nat, Tree::Empty, 0nat, 0nat,
    {
        if self.cfg.len(w.cur) == 0 {
            if self.succ(w.cur).len() == 0 {
                w.end()
            } else {
                w.go(self.succ(w.cur)[0])
            }
        } else {
            match self.group_here(w.cur, f.universe, f.active, w.st.structuring, f.pre, f.idom, f.entry, cx.loops) {
                Some(gi) => self.try_step(cx, f, w, gi),
                None => if !self.at_claimed_entry(f, w) && (self.is_loop_header(
                    w.cur,
                    f.universe,
                    f.idom,
                    f.entry,
                    cx.loops,
                ) || self.retry.contains(w.cur)) {
                    self.loop_step(cx, f, w)
                } else if self.roots.dom().contains(w.cur) && self.folds.dom().contains(self.roots[w.cur]) {
                    self.fold_step(w)
                } else {
                    self.term_step(cx, f, w)
                },
            }
        }
    }

    /// The block's own terminal.
    pub open spec fn term_step(self, cx: Cx, f: Frame, w: Ws) -> Ws
        decreases 256 - cx.depth, 6nat, 1nat, 0nat, Tree::Empty, 0nat, 0nat,
    {
        let pre = self.at_claimed_entry(f, w);
        let w1 = w.with(w.st.claim(w.cur));
        match self.term(w.cur) {
            Term::Cond { cond } => self.cond_step(cx, f, w1, *cond, pre),
            Term::Switch { selector, .. } => self.switch_step(cx, f, w1, *selector),
            Term::Goto => self.goto_step(cx, f, w1),
            Term::Fallthrough => self.fall_step(cx, f, w1),
            _ => w1.push(Tree::Basic { block: w.cur }).end(),
        }
    }

    // -- arriving at a claimed block --------------------------------------------------------

    /// Flow from the block comes back to a loop or to the entry.
    pub open spec fn loops_back(self, cx: Cx, b: usize, entry: usize) -> bool {
        exists|k: int|
            0 <= k < self.succ(b).len() && (cx.loops.contains(#[trigger] self.succ(b)[k]) || self.headers.contains(
                self.succ(b)[k],
            ) || self.reaches(self.succ(b)[k], entry, 4096))
    }

    pub open spec fn arrive(self, cx: Cx, f: Frame, w: Ws) -> Ws
        decreases 256 - cx.depth, 3nat, 0nat, 0nat, Tree::Empty, 0nat, 0nat,
    {
        if w.parts.len() == 0 {
            if cx.loops.contains(w.cur) || self.headers.contains(w.cur) {
                w.push(jump(w.cur))
            } else {
                w
            }
        } else if self.is_terminator(w.cur) {
            w.push(Tree::CopyStmts { block: w.cur })
        } else if cx.loops.contains(w.cur) {
            w.push(jump(w.cur))
        } else {
            let (r, s) = self.copy_walk(cx, w.st, w.cur, f.stop, f.active, f.entry);
            w.with(s).push(
                match r {
                    Some(x) => x,
                    None => if !self.quiet(w.cur) && self.loops_back(cx, w.cur, f.entry) {
                        Tree::Sequence(seq![Tree::CopyStmts { block: w.cur }, jump(w.cur)])
                    } else {
                        jump(w.cur)
                    },
                },
            )
        }
    }

    // -- a try group ------------------------------------------------------------------------

    /// From `k` on: the first block behind `pc` that the walk may go on at.
    pub open spec fn next_block(self, pc: u32, f: Frame, claimed: Set<usize>, own: Set<usize>, k: nat) -> Option<usize>
        decreases self.n() - k,
    {
        if k >= self.n() {
            None
        } else {
            let b = k as usize;
            if self.start(b) >= pc && f.universe.contains(b) && !f.stop.contains(b) && !claimed.contains(b)
                && !self.is_handler(b) && !own.contains(b) {
                Some(b)
            } else {
                self.next_block(pc, f, claimed, own, k + 1)
            }
        }
    }

    pub open spec fn try_step(self, cx: Cx, f: Frame, w: Ws, gi: usize) -> Ws
        decreases 256 - cx.depth, 6nat, 0nat, 0nat, Tree::Empty, 0nat, 0nat,
    {
        let (r, s) = self.try_region(cx, w.st, gi, f.universe, f.stop);
        let w1 = Ws { structured: w.structured.insert(gi), ..w.with(s).push(r) };
        match self.next_block(self.groups[gi as int].end, f, s.claimed, self.handler_flow(gi, cx.loops), 0) {
            Some(b) => w1.go(b),
            None => w1.end(),
        }
    }

    /// The body of the try, the jump behind it stripped; and whether flow goes on behind the group.
    pub open spec fn try_body_region(self, cx: Cx, st: St, gi: usize, universe: Set<usize>, stop: Set<usize>) -> (Tree, bool, St)
        decreases 256 - cx.depth, 1nat, 0nat, 0nat, Tree::Empty, 0nat, 0nat,
    {
        let body = self.try_body(gi, universe, cx.loops);
        match self.cfg.at(self.groups[gi as int].start) {
            Some(entry) => if body.contains(entry) {
                let (r, s) = self.walk(
                    cx,
                    st,
                    entry,
                    body,
                    Set::empty(),
                    self.nested(gi),
                    st.claimed.contains(entry),
                );
                match self.next_after(self.groups[gi as int].end, universe, s.claimed, stop, 0) {
                    Some(c) => if self.handler_flow(gi, cx.loops).contains(c) || body.contains(c) {
                        (r, false, s)
                    } else {
                        (self.stripped(r, c, Set::empty()).0, true, s)
                    },
                    None => (r, false, s),
                }
            } else {
                (Tree::Empty, false, st)
            },
            None => (Tree::Empty, false, st),
        }
    }

    /// One handler.
    pub open spec fn catch_region(self, cx: Cx, st: St, gi: usize, hb: usize, universe: Set<usize>, goes_on: bool) -> (Tree, St)
        decreases 256 - cx.depth, 1nat, 0nat, 0nat, Tree::Empty, 0nat, 0nat,
    {
        let hu = self.handler_scope(gi, hb, universe, st.claimed, goes_on, cx.loops);
        let (r, s) = self.walk(
            cx,
            st,
            hb,
            hu,
            Set::empty(),
            self.handler_active(gi, hu, self.groups.len()),
            false,
        );
        (self.unjumped(r, self.groups[gi as int].end), s)
    }

    /// The first `k` handlers.
    pub open spec fn catches(self, cx: Cx, st: St, gi: usize, universe: Set<usize>, goes_on: bool, k: nat) -> (
        Seq<(Seq<Seq<char>>, usize, Tree)>,
        St,
    )
        decreases 256 - cx.depth, 2nat, k, 0nat, Tree::Empty, 0nat, 0nat,
    {
        if k == 0 {
            (Seq::empty(), st)
        } else {
            let (v, s) = self.catches(cx, st, gi, universe, goes_on, (k - 1) as nat);
            let h = self.merged_handlers(gi)[k - 1];
            let (r, s2) = self.catch_region(cx, s, gi, h.1, universe, goes_on);
            (v.push((h.0, h.1, r)), s2)
        }
    }

    pub open spec fn try_region(self, cx: Cx, st: St, gi: usize, universe: Set<usize>, stop: Set<usize>) -> (Tree, St)
        decreases 256 - cx.depth, 3nat, 0nat, 0nat, Tree::Empty, 0nat, 0nat,
    {
        let st1 = St { structuring: st.structuring.push(gi), ..st };
        let (body, goes_on, st2) = self.try_body_region(cx, st1, gi, universe, stop);
        let (cs, st3) = self.catches(cx, st2, gi, universe, goes_on, self.merged_handlers(gi).len());
        (
            Tree::Try { group_idx: gi, body: Box::new(body), catches: cs },
            St { structuring: all_but(st3.structuring, gi), ..st3 },
        )
    }

    // -- a loop -------------------------------------------------------------------------------

    /// The loop at `header`: its body is walked with the header claimed and
    /// the exits barred. An exit that has content stays a jump out of the
    /// body; its content is not moved into the loop.
    pub open spec fn loop_region(self, cx: Cx, st: St, f: Frame, header: usize) -> (Tree, St)
        decreases 256 - cx.depth, 1nat, 0nat, 0nat, Tree::Empty, 0nat, 0nat,
    {
        let members = self.loop_members(header, f.universe, f.stop, f.idom, cx.loops);
        let exits = self.ordered(self.exit_set(members));
        let inner_stop = f.stop.intersect(members).union(self.exit_set(members));
        let (body, s) = self.walk(
            cx.in_loop(header),
            st.counted().claim(header),
            header,
            members,
            inner_stop,
            f.active,
            true,
        );
        (
            Tree::Loop { header, body: Box::new(body), members, exits },
            s.with_claimed(s.claimed.union(members)),
        )
    }

    /// The body never falls out of the loop at its end.
    pub open spec fn body_done(self, r: Tree) -> bool {
        match r {
            Tree::Loop { body, exits, .. } => body.terminates(
                self.results,
                exits.filter(|x: usize| self.is_handler(x)),
            ) && !self.ends_at_exit(*body, exits),
            _ => false,
        }
    }

    /// The first exit, from `k` on, that ends the method and is no boundary.
    pub open spec fn ending_exit(self, exits: Seq<usize>, stop: Set<usize>, k: nat) -> Option<usize>
        decreases exits.len() - k,
    {
        if k >= exits.len() {
            None
        } else if !stop.contains(exits[k as int]) && self.is_terminator(exits[k as int]) {
            Some(exits[k as int])
        } else {
            self.ending_exit(exits, stop, k + 1)
        }
    }

    /// The first exit, from `k` on, to a boundary of the scope that heads no loop around.
    pub open spec fn boundary_exit(self, exits: Seq<usize>, f: Frame, loops: Seq<usize>, k: nat) -> Option<usize>
        decreases exits.len() - k,
    {
        if k >= exits.len() {
            None
        } else if f.stop.contains(exits[k as int]) && !loops.contains(exits[k as int]) && f.universe.contains(
            exits[k as int],
        ) {
            Some(exits[k as int])
        } else {
            self.boundary_exit(exits, f, loops, k + 1)
        }
    }

    /// The block before the loop is its real top: flow leaves the loop back to it.
    pub open spec fn rotates(self, w: Ws, r: Tree, st: St, n: usize) -> bool {
        &&& st.claimed.contains(n)
        &&& self.start(n) < self.start(w.cur)
        &&& !self.is_handler(n)
        &&& !r.mentions(n)
        &&& w.parts.len() > 0
        &&& w.parts.last() == (Tree::Basic { block: n })
    }

    /// The loop and the block before it as the body of one loop.
    pub open spec fn rotated(self, w: Ws, r: Tree, n: usize) -> Tree {
        Tree::Loop {
            header: n,
            body: Box::new(Tree::Sequence(seq![w.parts.last(), r])),
            members: r->Loop_members.insert(n),
            exits: Seq::empty(),
        }
    }

    pub open spec fn loop_step(self, cx: Cx, f: Frame, w: Ws) -> Ws
        decreases 256 - cx.depth, 6nat, 0nat, 0nat, Tree::Empty, 0nat, 0nat,
    {
        let (r, s) = self.loop_region(cx, w.st, f, w.cur);
        let next = if self.body_done(r) {
            None
        } else {
            self.next_after_loop(r, f.universe, f.stop, cx.loops)
        };
        match next {
            Some(n) => if self.rotates(w, r, s, n) {
                Ws { parts: w.parts.drop_last().push(self.rotated(w, r, n)), ..w.with(s) }.end()
            } else {
                w.with(s).push(r).go(n)
            },
            None => self.leave_loop(cx, f, w.with(s).push(r), r).end(),
        }
    }

    /// What follows a loop that flow goes on behind nowhere in the scope.
    pub open spec fn leave_loop(self, cx: Cx, f: Frame, w: Ws, r: Tree) -> Ws {
        if self.body_done(r) {
            w
        } else {
            let exits = r->Loop_exits;
            let w1 = match self.ending_exit(exits, f.stop, 0) {
                Some(x) => w.push(Tree::CopyStmts { block: x }),
                None => w,
            };
            match self.boundary_exit(exits, f, cx.loops, 0) {
                Some(x) => w1.push(jump(x)),
                None => w1,
            }
        }
    }

    // -- a folded diamond -----------------------------------------------------------------------

    /// The block's statements, unless it has none.
    pub open spec fn with_stmts(self, w: Ws) -> Ws {
        if self.quiet(w.cur) {
            w
        } else {
            w.push(Tree::Basic { block: w.cur })
        }
    }

    pub open spec fn fold_step(self, w: Ws) -> Ws {
        let m = self.roots[w.cur];
        self.with_stmts(w).with(
            w.st.with_claimed(w.st.claimed.union(self.folds[m].1).insert(w.cur).remove(m)),
        ).go(m)
    }

    // -- a jump or fall-through -------------------------------------------------------------------

    pub open spec fn goto_step(self, cx: Cx, f: Frame, w0: Ws) -> Ws
        decreases 256 - cx.depth, 6nat, 0nat, 0nat, Tree::Empty, 0nat, 0nat,
    {
        let w = w0.push(Tree::Basic { block: w0.cur });
        if self.succ(w.cur).len() == 0 {
            w.end()
        } else {
            let t = self.succ(w.cur)[0];
            if w.can_enter(f, t) && !(self.is_handler(t) && f.active.len() == 0) {
                w.go(t)
            } else if f.universe.contains(t) && !f.stop.contains(t) && w.st.claimed.contains(t) && dominators::is_above(
                f.idom,
                t,
                w.cur,
            ) {
                self.jump_back(cx, f, w, t).end()
            } else {
                self.jump_out(cx, f, w, t).end()
            }
        }
    }

    /// A jump to a claimed block that dominates the jump.
    pub open spec fn jump_back(self, cx: Cx, f: Frame, w: Ws, t: usize) -> Ws
        decreases 256 - cx.depth, 3nat, 0nat, 0nat, Tree::Empty, 0nat, 0nat,
    {
        if cx.loops.contains(t) || self.retry_head(t) {
            w.push(jump(t))
        } else if self.is_terminator(t) {
            w.push(Tree::CopyStmts { block: t })
        } else {
            let (r, s) = self.copy_or_jump(cx, w.st, t, f.stop, f.active, w.cur);
            w.with(s).push(r)
        }
    }

    /// The outermost walk jumps to a tail that was copied before and always ends.
    pub open spec fn recopies(self, cx: Cx, f: Frame, w: Ws, t: usize) -> bool {
        cx.depth == 1 && w.st.claimed.contains(t) && w.st.tails.contains(t) && self.all_end(seq![t], Set::empty(), 0)
            && !f.stop.contains(t) && !self.retry_head(t) && !self.writes_final(t)
    }

    /// A jump out of the scope is replaced by a copy.
    pub open spec fn copies_out(self, cx: Cx, f: Frame, w: Ws, t: usize) -> bool {
        !f.stop.contains(t) && !cx.loops.contains(t) && !self.retry_head(t) && !self.shared_tail(t) && !self.active_cont(
            w.cur,
            t,
            w.st.claimed,
            unstructured(f.active, w.structured),
        )
    }

    pub open spec fn jump_out(self, cx: Cx, f: Frame, w: Ws, t: usize) -> Ws
        decreases 256 - cx.depth, 3nat, 0nat, 0nat, Tree::Empty, 0nat, 0nat,
    {
        if self.is_terminator(t) && !f.stop.contains(t) && !self.retry_head(t) && !self.writes_final(t) {
            w.push(Tree::CopyStmts { block: t })
        } else if self.recopies(cx, f, w, t) || self.copies_out(cx, f, w, t) {
            let (r, s) = self.copy_or_jump(cx, w.st, t, f.stop, f.active, w.cur);
            w.with(s).push(r)
        } else {
            w.push(jump(t))
        }
    }

    /// A claimed successor is copied behind a fall-through.
    pub open spec fn copies_after(self, cx: Cx, f: Frame, w: Ws, t: usize) -> bool {
        w.st.claimed.contains(t) && !self.owned_cont(
            t,
            f.stop,
            w.st.claimed,
            unstructured(f.active, w.structured),
            w.st.structuring,
        ) && !f.stop.contains(t) && !cx.loops.contains(t) && !self.is_handler(t) && !self.writes_final(t)
    }

    pub open spec fn fall_step(self, cx: Cx, f: Frame, w0: Ws) -> Ws
        decreases 256 - cx.depth, 6nat, 0nat, 0nat, Tree::Empty, 0nat, 0nat,
    {
        let w = w0.push(Tree::Basic { block: w0.cur });
        if self.succ(w.cur).len() == 0 {
            w.end()
        } else {
            let t = self.succ(w.cur)[0];
            if self.is_handler(t) && f.active.len() == 0 {
                w.end()
            } else if f.universe.contains(t) && !f.stop.contains(t) {
                w.go(t)
            } else if !self.copies_after(cx, f, w, t) {
                w.push(jump(t)).end()
            } else if self.is_terminator(t) {
                w.push(Tree::CopyStmts { block: t }).end()
            } else {
                let (r, s) = self.copy_or_jump(cx, w.st, t, f.stop, f.active, w.cur);
                w.with(s).push(r).end()
            }
        }
    }
}

} // verus!
