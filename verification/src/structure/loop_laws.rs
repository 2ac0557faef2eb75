//! What a loop region holds.

use vstd::prelude::*;

use crate::structure::dominators;
use crate::structure::env::Env;
use crate::structure::graph;
use crate::structure::model::{Cx, Frame, St};
use crate::structure::region::Tree;

verus! {

impl Env {
    /// A successor of a member is a member or an exit, and an exit is no
    /// member but follows one. The exits are listed once each, by where they
    /// start.
    pub open spec fn left_by(self, members: Set<usize>, exits: Seq<usize>) -> bool {
        &&& forall|m: usize, s: usize|
            m < self.n() && s < self.n() && members.contains(m) && #[trigger] self.succ(m).contains(s) ==> members.contains(s)
                || exits.contains(s)
        &&& forall|i: int| 0 <= i < exits.len() ==> self.follows_member(members, #[trigger] exits[i])
        &&& exits.no_duplicates()
        &&& forall|i: int, j: int|
            0 <= i < j < exits.len() ==> self.start(#[trigger] exits[i]) <= self.start(#[trigger] exits[j])
    }

    /// The block is no member, and the successor of one.
    pub open spec fn follows_member(self, members: Set<usize>, x: usize) -> bool {
        !members.contains(x) && exists|m: usize| m < self.n() && members.contains(m) && #[trigger] self.succ(m).contains(x)
    }

    /// Flow leaves a loop only by its exits.
    pub proof fn law_loop_exits(self, cx: Cx, st: St, f: Frame, header: usize)
        requires
            self.n() <= usize::MAX,
        ensures
            self.loop_region(cx, st, f, header).0 matches Tree::Loop { members, exits, .. } && self.left_by(members, exits),
    {
        let members = self.loop_members(header, f.universe, f.stop, f.idom, cx.loops);
        let out = self.exit_set(members);
        self.law_ordered(out);
        let exits = self.ordered(out);
        assert forall|m: usize, s: usize|
            m < self.n() && s < self.n() && members.contains(m) && #[trigger] self.succ(m).contains(s) implies members.contains(s)
            || exits.contains(s) by {
            if !members.contains(s) {
                assert(out.contains(s));
            }
        }
        assert forall|i: int| 0 <= i < exits.len() implies self.follows_member(members, #[trigger] exits[i]) by {
            assert(exits.contains(exits[i]));
            assert(out.contains(exits[i]));
        }
        assert(self.left_by(members, exits));
    }

    /// The block belongs to the loop: it is in the scope and no boundary, the
    /// header dominates it, it heads no loop around, and flow from it comes
    /// back to the header.
    pub open spec fn comes_round(self, header: usize, s: usize, universe: Set<usize>, stop: Set<usize>, idom: Seq<usize>, loops: Seq<usize>) -> bool {
        &&& s < self.n()
        &&& universe.contains(s)
        &&& !stop.contains(s)
        &&& dominators::is_above(idom, header, s)
        &&& s != header
        &&& !loops.contains(s)
        &&& self.reaches_exc(s, header, loops.to_set().insert(header))
    }

    /// Every block that follows a member and comes round is a member.
    pub proof fn law_members_closed(
        self,
        header: usize,
        universe: Set<usize>,
        stop: Set<usize>,
        idom: Seq<usize>,
        loops: Seq<usize>,
        m: usize,
        s: usize,
    )
        requires
            self.n() <= usize::MAX,
            self.loop_members(header, universe, stop, idom, loops).contains(m),
            self.succ(m).contains(s),
            self.comes_round(header, s, universe, stop, idom, loops),
        ensures
            self.loop_members(header, universe, stop, idom, loops).contains(s),
    {
        let start = Set::<usize>::empty().insert(header);
        assert(seq![header][0] == header);
        assert(seq![header].contains(header));
        self.lemma_gathers_all(header, seq![header], start, universe, stop, idom, loops);
    }

    /// Members outside the queue have all that comes round behind them.
    spec fn settled(
        self,
        header: usize,
        q: Seq<usize>,
        members: Set<usize>,
        universe: Set<usize>,
        stop: Set<usize>,
        idom: Seq<usize>,
        loops: Seq<usize>,
    ) -> bool {
        forall|m: usize, s: usize|
            members.contains(m) && !q.contains(m) && #[trigger] self.succ(m).contains(s) && self.comes_round(
                header,
                s,
                universe,
                stop,
                idom,
                loops,
            ) ==> members.contains(s)
    }

    proof fn lemma_joined_all(
        self,
        header: usize,
        list: Seq<usize>,
        k: nat,
        q: Seq<usize>,
        members: Set<usize>,
        universe: Set<usize>,
        stop: Set<usize>,
        idom: Seq<usize>,
        loops: Seq<usize>,
    )
        ensures
            ({
                let (q2, m2) = self.join_from(header, list, k, q, members, universe, stop, idom, loops);
                &&& members.subset_of(m2)
                &&& forall|x: usize| #[trigger] q.contains(x) ==> q2.contains(x)
                &&& forall|x: usize| #[trigger] m2.contains(x) && !members.contains(x) ==> q2.contains(x)
                &&& forall|j: int|
                    k <= j < list.len() && self.comes_round(header, #[trigger] list[j], universe, stop, idom, loops) ==> m2.contains(
                        list[j],
                    )
            }),
        decreases list.len() - k,
    {
        if k < list.len() {
            let s = list[k as int];
            assert(self.comes_round(header, s, universe, stop, idom, loops) ==> self.joins(
                header,
                s,
                members,
                universe,
                stop,
                idom,
                loops,
            )) by {
                if loops.to_set().contains(s) {
                    assert(loops.contains(s));
                }
            }
            if s < self.n() && !members.contains(s) && self.joins(header, s, members, universe, stop, idom, loops) {
                let q1 = q.push(s);
                let m1 = members.insert(s);
                self.lemma_joined_all(header, list, k + 1, q1, m1, universe, stop, idom, loops);
                let (q2, m2) = self.join_from(header, list, k + 1, q1, m1, universe, stop, idom, loops);
                assert forall|x: usize| #[trigger] q.contains(x) implies q2.contains(x) by {
                    let i = choose|i: int| 0 <= i < q.len() && q[i] == x;
                    assert(q1[i] == x);
                    assert(q1.contains(x));
                }
                assert(q1[q.len() as int] == s);
                assert(q1.contains(s));
                assert(m1.contains(s));
            } else {
                self.lemma_joined_all(header, list, k + 1, q, members, universe, stop, idom, loops);
            }
        }
    }

    proof fn lemma_gathers_all(
        self,
        header: usize,
        q: Seq<usize>,
        members: Set<usize>,
        universe: Set<usize>,
        stop: Set<usize>,
        idom: Seq<usize>,
        loops: Seq<usize>,
    )
        requires
            self.n() <= usize::MAX,
            self.settled(header, q, members, universe, stop, idom, loops),
        ensures
            self.settled(
                header,
                Seq::empty(),
                self.gathered(header, q, members, universe, stop, idom, loops),
                universe,
                stop,
                idom,
                loops,
            ),
        decreases graph::unseen(self.n(), members), q.len(),
    {
        if q.len() == 0 {
            assert(q =~= Seq::empty());
        } else {
            let list = self.succ(q[0]);
            let rest = q.skip(1);
            let (q2, m2) = self.join_from(header, list, 0, rest, members, universe, stop, idom, loops);
            self.lemma_join_from(header, list, 0, rest, members, universe, stop, idom, loops);
            self.lemma_joined_all(header, list, 0, rest, members, universe, stop, idom, loops);
            assert forall|m: usize, s: usize|
                m2.contains(m) && !q2.contains(m) && #[trigger] self.succ(m).contains(s) && self.comes_round(
                    header,
                    s,
                    universe,
                    stop,
                    idom,
                    loops,
                ) implies m2.contains(s) by {
                if m == q[0] {
                    let j = choose|j: int| 0 <= j < list.len() && list[j] == s;
                    assert(self.comes_round(header, list[j], universe, stop, idom, loops));
                } else {
                    assert(members.contains(m));
                    assert(!q.contains(m)) by {
                        if q.contains(m) {
                            let i = choose|i: int| 0 <= i < q.len() && q[i] == m;
                            assert(rest[i - 1] == m);
                            assert(rest.contains(m));
                        }
                    }
                    assert(members.contains(s));
                }
            }
            self.lemma_gathers_all(header, q2, m2, universe, stop, idom, loops);
        }
    }

    /// A block heads a loop only where an edge comes back to it: from itself,
    /// or from a block of the scope that it dominates or that only exceptions
    /// reach.
    pub proof fn law_loop_header(self, cur: usize, universe: Set<usize>, idom: Seq<usize>, entry: usize, loops: Seq<usize>)
        ensures
            self.pred(cur).contains(cur) ==> self.is_loop_header(cur, universe, idom, entry, loops),
            forall|p: usize|
                #[trigger] self.pred(cur).contains(p) && universe.contains(p) && dominators::is_above(idom, cur, p) && self.succ(
                    cur,
                ).len() != 1 ==> self.is_loop_header(cur, universe, idom, entry, loops),
            self.is_loop_header(cur, universe, idom, entry, loops) ==> exists|p: usize|
                #[trigger] self.pred(cur).contains(p) && (p == cur || (universe.contains(p) && (dominators::is_above(idom, cur, p) || (
                idom[p as int] == p && p != entry && self.reaches_exc(cur, p, Set::empty()))))),
    {
        if self.pred(cur).contains(cur) {
            let k = choose|k: int| 0 <= k < self.pred(cur).len() && self.pred(cur)[k] == cur;
            assert(self.loops_from(cur, self.pred(cur)[k], universe, idom, entry, loops));
        }
        assert forall|p: usize|
            #[trigger] self.pred(cur).contains(p) && universe.contains(p) && dominators::is_above(idom, cur, p) && self.succ(cur).len()
                != 1 implies self.is_loop_header(cur, universe, idom, entry, loops) by {
            let k = choose|k: int| 0 <= k < self.pred(cur).len() && self.pred(cur)[k] == p;
            assert(self.loops_from(cur, self.pred(cur)[k], universe, idom, entry, loops));
        }
        if self.is_loop_header(cur, universe, idom, entry, loops) {
            let k = choose|k: int|
                0 <= k < self.pred(cur).len() && self.loops_from(cur, #[trigger] self.pred(cur)[k], universe, idom, entry, loops);
            assert(self.pred(cur).contains(self.pred(cur)[k]));
        }
    }

    /// Of the exits that the walk may go on at, it takes one that starts first.
    pub proof fn law_first_exit(self, exits: Seq<usize>, universe: Set<usize>, stop: Set<usize>, loops: Seq<usize>, k: nat, i: int)
        requires
            k <= exits.len(),
            0 <= i < k,
            universe.contains(exits[i]),
            !stop.contains(exits[i]),
            self.live_exit(exits[i], self.exits_in(exits, universe, stop), loops),
        ensures
            self.first_exit(exits, universe, stop, loops, k) matches Some(x) && self.start(x) <= self.start(exits[i]),
        decreases k,
    {
        if i < k - 1 {
            self.law_first_exit(exits, universe, stop, loops, (k - 1) as nat, i);
        }
    }
}

} // verus!
