//! What the queries on a region say of the regions inside it.

use vstd::prelude::*;

use crate::ir::BlockResult;
use crate::structure::region::{abrupt_block, Tree};

verus! {

impl Tree {
    /// The regions directly inside: parts, branches, loop body, try body and
    /// handlers, case arms and default arm.
    pub open spec fn inner(self) -> Seq<Tree> {
        match self {
            Tree::Sequence(v) => v,
            Tree::If { then_r, else_r, .. } => seq![*then_r, *else_r],
            Tree::Loop { body, .. } => seq![*body],
            Tree::Try { body, catches, .. } => seq![*body] + Seq::new(catches.len(), |i: int| catches[i].2),
            Tree::Switch { cases, default, .. } => Seq::new(cases.len(), |i: int| cases[i].1) + (match default {
                Some(d) => seq![*d],
                None => Seq::empty(),
            }),
            _ => Seq::empty(),
        }
    }

    /// The region that the route leads to, each step into one of the regions
    /// directly inside.
    pub open spec fn at(self, route: Seq<int>) -> Option<Tree>
        decreases route.len(),
    {
        if route.len() == 0 {
            Some(self)
        } else if 0 <= route[0] < self.inner().len() {
            self.inner()[route[0]].at(route.skip(1))
        } else {
            None
        }
    }

    /// Flow that ends the region ends the `i`-th region inside: it is the last
    /// part, a branch, the try body or a handler.
    pub open spec fn last_inside(self, i: int) -> bool {
        &&& 0 <= i < self.inner().len()
        &&& match self {
            Tree::Sequence(v) => i == v.len() - 1,
            Tree::If { .. } => true,
            Tree::Try { .. } => true,
            _ => false,
        }
    }

    /// The route leads to an end of the region.
    pub open spec fn to_end(self, route: Seq<int>) -> bool
        decreases route.len(),
    {
        if route.len() == 0 {
            forall|i: int| !#[trigger] self.last_inside(i)
        } else {
            self.last_inside(route[0]) && self.inner()[route[0]].to_end(route.skip(1))
        }
    }

    /// The statements of block `b` are the region.
    pub open spec fn is_block(self, b: usize) -> bool {
        self == (Tree::Basic { block: b }) || self == (Tree::CopyStmts { block: b })
    }

    pub open spec fn block_on(self, route: Seq<int>, b: usize) -> bool {
        self.at(route) matches Some(t) && t.is_block(b)
    }

    /// Flow does not go on behind the region.
    pub open spec fn stops(self, results: Seq<BlockResult>, exits: Seq<usize>) -> bool {
        match self {
            Tree::Basic { block } => abrupt_block(results, block),
            Tree::CopyStmts { block } => abrupt_block(results, block),
            Tree::Goto { target } => exits.contains(target) || abrupt_block(results, target),
            _ => false,
        }
    }

    pub open spec fn stops_on(self, route: Seq<int>, results: Seq<BlockResult>, exits: Seq<usize>) -> bool {
        self.at(route) matches Some(t) && t.stops(results, exits)
    }

    /// The route leads to an end that jumps to `target`.
    pub open spec fn jump_on(self, route: Seq<int>, target: usize) -> bool {
        self.to_end(route) && self.at(route) == Some(Tree::Goto { target })
    }

    /// A loop headed by or left to `b`, or a switch that goes on at `b`.
    pub open spec fn jumped_to(self, b: usize) -> bool {
        match self {
            Tree::Loop { header, exits, .. } => header == b || exits.contains(b),
            Tree::Switch { follow, .. } => follow == Some(b),
            _ => false,
        }
    }

    pub open spec fn target_on(self, route: Seq<int>, b: usize) -> bool {
        self.at(route) matches Some(t) && t.jumped_to(b)
    }

    pub open spec fn nested_on(self, route: Seq<int>) -> bool {
        self.at(route) matches Some(t) && (t is Loop || t is Switch || t is Try)
    }

    proof fn lemma_inner_smaller(self, i: int)
        requires
            0 <= i < self.inner().len(),
        ensures
            decreases_to!(self => self.inner()[i]),
    {
        match self {
            Tree::Sequence(v) => {
                assert(decreases_to!(v => v[i]));
            },
            Tree::If { then_r, else_r, .. } => {
                assert(decreases_to!(self => *then_r));
                assert(decreases_to!(self => *else_r));
            },
            Tree::Loop { body, .. } => {
                assert(decreases_to!(self => *body));
            },
            Tree::Try { body, catches, .. } => {
                assert(decreases_to!(self => *body));
                if i > 0 {
                    assert(decreases_to!(catches => catches[i - 1]));
                    assert(decreases_to!(catches[i - 1] => catches[i - 1].2));
                }
            },
            Tree::Switch { cases, default, .. } => {
                if i < cases.len() {
                    assert(decreases_to!(cases => cases[i]));
                    assert(decreases_to!(cases[i] => cases[i].1));
                } else {
                    assert(decreases_to!(self => default));
                    assert(decreases_to!(default => default->0));
                }
            },
            _ => {},
        }
    }

    // -- statements of a block --------------------------------------------

    proof fn lemma_list_mentions(self, b: usize, k: nat)
        requires
            match self {
                Tree::Sequence(v) => k <= v.len(),
                Tree::Switch { cases, .. } => k <= cases.len(),
                Tree::Try { catches, .. } => k <= catches.len(),
                _ => false,
            },
        ensures
            match self {
                Tree::Sequence(v) => self.list_mentions(b, k) <==> exists|i: int| 0 <= i < k && (#[trigger] v[i]).mentions(b),
                Tree::Switch { cases, .. } => self.list_mentions(b, k) <==> exists|i: int|
                    0 <= i < k && (#[trigger] cases[i]).1.mentions(b),
                Tree::Try { catches, .. } => self.list_mentions(b, k) <==> exists|i: int|
                    0 <= i < k && (#[trigger] catches[i]).2.mentions(b),
                _ => true,
            },
        decreases k,
    {
        if k > 0 {
            self.lemma_list_mentions(b, (k - 1) as nat);
        }
    }

    pub(crate) proof fn lemma_mentions_step(self, b: usize)
        ensures
            self.mentions(b) <==> self.is_block(b) || exists|i: int|
                0 <= i < self.inner().len() && (#[trigger] self.inner()[i]).mentions(b),
    {
        let w = self.inner();
        match self {
            Tree::Sequence(v) => {
                self.lemma_list_mentions(b, v.len());
            },
            Tree::If { then_r, else_r, .. } => {
                assert(w[0] == *then_r && w[1] == *else_r);
            },
            Tree::Loop { body, .. } => {
                assert(w[0] == *body);
            },
            Tree::Try { body, catches, .. } => {
                self.lemma_list_mentions(b, catches.len());
                assert(w[0] == *body);
                assert forall|i: int| 0 <= i < catches.len() implies w[i + 1] == (#[trigger] catches[i]).2 by {}
                assert forall|i: int| 0 < i < w.len() implies #[trigger] w[i] == catches[i - 1].2 by {}
            },
            Tree::Switch { cases, default, .. } => {
                self.lemma_list_mentions(b, cases.len());
                assert forall|i: int| 0 <= i < cases.len() implies w[i] == (#[trigger] cases[i]).1 by {}
                if default is Some {
                    assert(w[cases.len() as int] == *default->0);
                }
            },
            _ => {},
        }
    }

    /// A region mentions a block exactly if some region inside, however deep
    /// and in whatever construct, is the block's statements.
    pub proof fn law_mentions(self, b: usize)
        ensures
            self.mentions(b) <==> exists|route: Seq<int>| #[trigger] self.block_on(route, b),
        decreases self,
    {
        self.lemma_mentions_step(b);
        let w = self.inner();
        if self.mentions(b) {
            if self.is_block(b) {
                assert(self.block_on(Seq::empty(), b));
            } else {
                let i = choose|i: int| 0 <= i < w.len() && (#[trigger] w[i]).mentions(b);
                self.lemma_inner_smaller(i);
                w[i].law_mentions(b);
                let r = choose|r: Seq<int>| #[trigger] w[i].block_on(r, b);
                let route = seq![i] + r;
                assert(route.skip(1) =~= r);
                assert(self.block_on(route, b));
            }
        }
        assert forall|route: Seq<int>| #[trigger] self.block_on(route, b) implies self.mentions(b) by {
            if route.len() > 0 {
                let i = route[0];
                self.lemma_inner_smaller(i);
                w[i].law_mentions(b);
                assert(w[i].block_on(route.skip(1), b));
            }
        }
    }

    // -- targets of jumps inside --------------------------------------------

    proof fn lemma_list_targets(self, b: usize, k: nat)
        requires
            match self {
                Tree::Sequence(v) => k <= v.len(),
                Tree::Switch { cases, .. } => k <= cases.len(),
                Tree::Try { catches, .. } => k <= catches.len(),
                _ => false,
            },
        ensures
            match self {
                Tree::Sequence(v) => self.list_targets(k).contains(b) <==> exists|i: int|
                    0 <= i < k && (#[trigger] v[i]).jump_targets().contains(b),
                Tree::Switch { cases, .. } => self.list_targets(k).contains(b) <==> exists|i: int|
                    0 <= i < k && (#[trigger] cases[i]).1.jump_targets().contains(b),
                Tree::Try { catches, .. } => self.list_targets(k).contains(b) <==> exists|i: int|
                    0 <= i < k && (#[trigger] catches[i]).2.jump_targets().contains(b),
                _ => true,
            },
        decreases k,
    {
        if k > 0 {
            self.lemma_list_targets(b, (k - 1) as nat);
        }
    }

    proof fn lemma_targets_step(self, b: usize)
        ensures
            self.jump_targets().contains(b) <==> self.jumped_to(b) || exists|i: int|
                0 <= i < self.inner().len() && (#[trigger] self.inner()[i]).jump_targets().contains(b),
    {
        let w = self.inner();
        match self {
            Tree::Sequence(v) => {
                self.lemma_list_targets(b, v.len());
            },
            Tree::If { then_r, else_r, .. } => {
                assert(w[0] == *then_r && w[1] == *else_r);
            },
            Tree::Loop { body, exits, .. } => {
                assert(w[0] == *body);
                assert(exits.to_set().contains(b) == exits.contains(b));
            },
            Tree::Try { body, catches, .. } => {
                self.lemma_list_targets(b, catches.len());
                assert(w[0] == *body);
                assert forall|i: int| 0 <= i < catches.len() implies w[i + 1] == (#[trigger] catches[i]).2 by {}
                assert forall|i: int| 0 < i < w.len() implies #[trigger] w[i] == catches[i - 1].2 by {}
            },
            Tree::Switch { cases, default, .. } => {
                self.lemma_list_targets(b, cases.len());
                assert forall|i: int| 0 <= i < cases.len() implies w[i] == (#[trigger] cases[i]).1 by {}
                if default is Some {
                    assert(w[cases.len() as int] == *default->0);
                }
            },
            _ => {},
        }
    }

    /// The jump targets of a region are the headers and exits of the loops and
    /// the follows of the switches inside, however deep.
    pub proof fn law_jump_targets(self, b: usize)
        ensures
            self.jump_targets().contains(b) <==> exists|route: Seq<int>| #[trigger] self.target_on(route, b),
        decreases self,
    {
        self.lemma_targets_step(b);
        let w = self.inner();
        if self.jump_targets().contains(b) {
            if self.jumped_to(b) {
                assert(self.target_on(Seq::empty(), b));
            } else {
                let i = choose|i: int| 0 <= i < w.len() && (#[trigger] w[i]).jump_targets().contains(b);
                self.lemma_inner_smaller(i);
                w[i].law_jump_targets(b);
                let r = choose|r: Seq<int>| #[trigger] w[i].target_on(r, b);
                let route = seq![i] + r;
                assert(route.skip(1) =~= r);
                assert(self.target_on(route, b));
            }
        }
        assert forall|route: Seq<int>| #[trigger] self.target_on(route, b) implies self.jump_targets().contains(b) by {
            if route.len() > 0 {
                let i = route[0];
                self.lemma_inner_smaller(i);
                w[i].law_jump_targets(b);
                assert(w[i].target_on(route.skip(1), b));
            }
        }
    }

    // -- plain regions --------------------------------------------------------

    proof fn lemma_parts_simple(self, k: nat)
        requires
            self matches Tree::Sequence(v) && k <= v.len(),
        ensures
            self matches Tree::Sequence(v) && (self.parts_simple(k) <==> forall|i: int| 0 <= i < k ==> (#[trigger] v[i]).simple()),
        decreases k,
    {
        if k > 0 {
            self.lemma_parts_simple((k - 1) as nat);
        }
    }

    /// A region is simple exactly if no loop, switch or try is inside it.
    pub proof fn law_simple(self)
        ensures
            self.simple() <==> forall|route: Seq<int>| !#[trigger] self.nested_on(route),
        decreases self,
    {
        let w = self.inner();
        assert(self.simple() <==> !(self is Loop || self is Switch || self is Try) && forall|i: int|
            0 <= i < w.len() ==> (#[trigger] w[i]).simple()) by {
            match self {
                Tree::Sequence(v) => {
                    self.lemma_parts_simple(v.len());
                },
                Tree::If { then_r, else_r, .. } => {
                    assert(w[0] == *then_r && w[1] == *else_r);
                },
                _ => {},
            }
        }
        assert forall|route: Seq<int>| self.simple() implies !#[trigger] self.nested_on(route) by {
            if route.len() > 0 && 0 <= route[0] < w.len() {
                let i = route[0];
                self.lemma_inner_smaller(i);
                w[i].law_simple();
                assert(!w[i].nested_on(route.skip(1)));
            }
        }
        if !self.simple() {
            if self is Loop || self is Switch || self is Try {
                assert(self.nested_on(Seq::empty()));
            } else {
                let i = choose|i: int| 0 <= i < w.len() && !(#[trigger] w[i]).simple();
                self.lemma_inner_smaller(i);
                w[i].law_simple();
                let r = choose|r: Seq<int>| #[trigger] w[i].nested_on(r);
                let route = seq![i] + r;
                assert(route.skip(1) =~= r);
                assert(self.nested_on(route));
            }
        }
    }

    // -- ends -----------------------------------------------------------------

    proof fn lemma_handlers_terminate(self, results: Seq<BlockResult>, exits: Seq<usize>, k: nat)
        requires
            self matches Tree::Try { catches, .. } && k <= catches.len(),
        ensures
            self matches Tree::Try { catches, .. } && (self.handlers_terminate(results, exits, k) <==> forall|i: int|
                0 <= i < k ==> (#[trigger] catches[i]).2.terminates(results, exits)),
        decreases k,
    {
        if k > 0 {
            self.lemma_handlers_terminate(results, exits, (k - 1) as nat);
        }
    }

    proof fn lemma_terminates_step(self, results: Seq<BlockResult>, exits: Seq<usize>)
        ensures
            (forall|i: int| !#[trigger] self.last_inside(i)) ==> self.terminates(results, exits) == self.stops(results, exits),
            (exists|i: int| #[trigger] self.last_inside(i)) ==> (self.terminates(results, exits) <==> forall|i: int| #[trigger]
                self.last_inside(i) ==> self.inner()[i].terminates(results, exits)),
    {
        let w = self.inner();
        match self {
            Tree::Sequence(v) => {
                assert(v.len() > 0 ==> self.last_inside(v.len() - 1));
            },
            Tree::If { then_r, else_r, .. } => {
                assert(w[0] == *then_r && w[1] == *else_r);
                assert(self.last_inside(0) && self.last_inside(1));
            },
            Tree::Try { body, catches, .. } => {
                self.lemma_handlers_terminate(results, exits, catches.len());
                assert(w[0] == *body && self.last_inside(0));
                assert forall|i: int| 0 <= i < catches.len() implies w[i + 1] == (#[trigger] catches[i]).2 && self.last_inside(i + 1) by {}
                assert forall|i: int| 0 < i < w.len() implies #[trigger] w[i] == catches[i - 1].2 by {}
            },
            _ => {},
        }
    }

    /// A region terminates exactly if each of its ends does: flow does not go
    /// on behind it on any way.
    pub proof fn law_terminates(self, results: Seq<BlockResult>, exits: Seq<usize>)
        ensures
            self.terminates(results, exits) <==> forall|route: Seq<int>| #[trigger]
                self.to_end(route) ==> self.stops_on(route, results, exits),
        decreases self,
    {
        self.lemma_terminates_step(results, exits);
        let w = self.inner();
        if self.terminates(results, exits) {
            assert forall|route: Seq<int>| #[trigger] self.to_end(route) implies self.stops_on(route, results, exits) by {
                if route.len() > 0 {
                    let i = route[0];
                    assert(self.last_inside(i));
                    self.lemma_inner_smaller(i);
                    w[i].law_terminates(results, exits);
                    assert(w[i].to_end(route.skip(1)));
                }
            }
        } else if forall|i: int| !#[trigger] self.last_inside(i) {
            assert(self.to_end(Seq::empty()));
            assert(!self.stops_on(Seq::empty(), results, exits));
        } else {
            let i = choose|i: int| #[trigger] self.last_inside(i) && !w[i].terminates(results, exits);
            self.lemma_inner_smaller(i);
            w[i].law_terminates(results, exits);
            let r = choose|r: Seq<int>| #[trigger] w[i].to_end(r) && !w[i].stops_on(r, results, exits);
            let route = seq![i] + r;
            assert(route.skip(1) =~= r);
            assert(self.to_end(route));
            assert(!self.stops_on(route, results, exits));
        }
    }

    proof fn lemma_handler_targets(self, t: usize, k: nat)
        requires
            self matches Tree::Try { catches, .. } && k <= catches.len(),
        ensures
            self matches Tree::Try { catches, .. } && (self.handler_targets(k).contains(t) <==> exists|i: int|
                0 <= i < k && (#[trigger] catches[i]).2.tail_targets().contains(t)),
        decreases k,
    {
        if k > 0 {
            self.lemma_handler_targets(t, (k - 1) as nat);
            lemma_add_contains(self.handler_targets((k - 1) as nat), self->catches[k - 1].2.tail_targets(), t);
        }
    }

    proof fn lemma_tails_step(self, t: usize)
        ensures
            self.tail_targets().contains(t) <==> self == (Tree::Goto { target: t }) || exists|i: int| #[trigger]
                self.last_inside(i) && self.inner()[i].tail_targets().contains(t),
    {
        let w = self.inner();
        match self {
            Tree::Goto { target } => {
                assert(seq![target][0] == target);
                assert(forall|i: int| !#[trigger] self.last_inside(i));
            },
            Tree::Sequence(v) => {
                assert(v.len() > 0 ==> self.last_inside(v.len() - 1));
            },
            Tree::If { then_r, else_r, .. } => {
                assert(w[0] == *then_r && w[1] == *else_r);
                assert(self.last_inside(0) && self.last_inside(1));
                lemma_add_contains(then_r.tail_targets(), else_r.tail_targets(), t);
            },
            Tree::Try { body, catches, .. } => {
                self.lemma_handler_targets(t, catches.len());
                lemma_add_contains(body.tail_targets(), self.handler_targets(catches.len()), t);
                assert(w[0] == *body && self.last_inside(0));
                assert forall|i: int| 0 <= i < catches.len() implies w[i + 1] == (#[trigger] catches[i]).2 && self.last_inside(i + 1) by {}
                assert forall|i: int| 0 < i < w.len() implies #[trigger] w[i] == catches[i - 1].2 by {}
            },
            _ => {},
        }
    }

    /// The tail targets of a region are the blocks that one of its ends jumps to.
    pub proof fn law_tail_targets(self, t: usize)
        ensures
            self.tail_targets().contains(t) <==> exists|route: Seq<int>| #[trigger] self.jump_on(route, t),
        decreases self,
    {
        self.lemma_tails_step(t);
        let w = self.inner();
        if self.tail_targets().contains(t) {
            if self == (Tree::Goto { target: t }) {
                assert(self.jump_on(Seq::empty(), t));
            } else {
                let i = choose|i: int| #[trigger] self.last_inside(i) && w[i].tail_targets().contains(t);
                self.lemma_inner_smaller(i);
                w[i].law_tail_targets(t);
                let r = choose|r: Seq<int>| #[trigger] w[i].jump_on(r, t);
                let route = seq![i] + r;
                assert(route.skip(1) =~= r);
                assert(self.jump_on(route, t));
            }
        }
        assert forall|route: Seq<int>| #[trigger] self.jump_on(route, t) implies self.tail_targets().contains(t) by {
            if route.len() > 0 {
                let i = route[0];
                self.lemma_inner_smaller(i);
                w[i].law_tail_targets(t);
                assert(w[i].jump_on(route.skip(1), t));
            }
        }
    }

    proof fn lemma_handlers_bypass(self, taken: usize, exempt: Set<usize>, k: nat)
        requires
            self matches Tree::Try { catches, .. } && k <= catches.len(),
        ensures
            self matches Tree::Try { catches, .. } && (self.handlers_bypass(taken, exempt, k) <==> exists|i: int|
                0 <= i < k && (#[trigger] catches[i]).2.bypasses_exempt(taken, exempt)),
        decreases k,
    {
        if k > 0 {
            self.lemma_handlers_bypass(taken, exempt, (k - 1) as nat);
        }
    }

    /// A region bypasses the block `taken` exactly if one of its ends jumps
    /// elsewhere, to a block that is not exempt.
    pub proof fn law_bypasses(self, taken: usize, exempt: Set<usize>)
        ensures
            self.bypasses_exempt(taken, exempt) <==> exists|t: usize| #[trigger]
                self.tail_targets().contains(t) && t != taken && !exempt.contains(t),
        decreases self,
    {
        match self {
            Tree::Goto { target } => {
                assert(self.tail_targets() == seq![target]);
                assert(seq![target][0] == target);
                assert(self.tail_targets().contains(target));
                assert forall|t: usize| #[trigger] self.tail_targets().contains(t) implies t == target by {}
            },
            Tree::Sequence(v) => {
                if v.len() > 0 {
                    v[v.len() - 1].law_bypasses(taken, exempt);
                    assert(self.tail_targets() == v[v.len() - 1].tail_targets());
                } else {
                    assert(self.tail_targets() == Seq::<usize>::empty());
                }
            },
            Tree::If { then_r, else_r, .. } => {
                then_r.law_bypasses(taken, exempt);
                else_r.law_bypasses(taken, exempt);
                assert forall|t: usize| self.tail_targets().contains(t) == (then_r.tail_targets().contains(t)
                    || else_r.tail_targets().contains(t)) by {
                    lemma_add_contains(then_r.tail_targets(), else_r.tail_targets(), t);
                }
            },
            Tree::Try { body, catches, .. } => {
                body.law_bypasses(taken, exempt);
                self.lemma_handlers_bypass(taken, exempt, catches.len());
                assert forall|t: usize| self.tail_targets().contains(t) == (body.tail_targets().contains(t) || exists|i: int|
                    0 <= i < catches.len() && (#[trigger] catches[i]).2.tail_targets().contains(t)) by {
                    self.lemma_handler_targets(t, catches.len());
                    lemma_add_contains(body.tail_targets(), self.handler_targets(catches.len()), t);
                }
                if self.bypasses_exempt(taken, exempt) {
                    if body.bypasses_exempt(taken, exempt) {
                        let t = choose|t: usize| #[trigger] body.tail_targets().contains(t) && t != taken && !exempt.contains(t);
                        assert(self.tail_targets().contains(t));
                    } else {
                        let i = choose|i: int| 0 <= i < catches.len() && (#[trigger] catches[i]).2.bypasses_exempt(taken, exempt);
                        catches[i].2.law_bypasses(taken, exempt);
                        let t = choose|t: usize| #[trigger]
                            catches[i].2.tail_targets().contains(t) && t != taken && !exempt.contains(t);
                        assert(self.tail_targets().contains(t));
                    }
                }
                assert forall|t: usize| #[trigger]
                    self.tail_targets().contains(t) && t != taken && !exempt.contains(t) implies self.bypasses_exempt(
                    taken,
                    exempt,
                ) by {
                    if !body.tail_targets().contains(t) {
                        let i = choose|i: int| 0 <= i < catches.len() && (#[trigger] catches[i]).2.tail_targets().contains(t);
                        catches[i].2.law_bypasses(taken, exempt);
                    }
                }
            },
            _ => {
                assert(self.tail_targets() == Seq::<usize>::empty());
            },
        }
    }

    /// A region that ends in a jump has no other end.
    pub proof fn law_last_goto(self, t: usize)
        requires
            self.last_goto() == Some(t),
        ensures
            self.tail_targets() == seq![t],
            self.breaks_out(t),
            forall|x: usize| x != t ==> !#[trigger] self.breaks_out(x),
        decreases self,
    {
        match self {
            Tree::Sequence(v) => {
                v[v.len() - 1].law_last_goto(t);
                assert forall|x: usize| x != t implies !#[trigger] self.breaks_out(x) by {
                    assert(!v[v.len() - 1].breaks_out(x));
                }
            },
            _ => {},
        }
    }

    /// A switch cannot complete normally exactly if it has a default arm and
    /// every arm ends everywhere without leaving for `follow`.
    pub proof fn law_switch_completes(self, follow: usize, results: Seq<BlockResult>)
        requires
            self is Switch,
        ensures
            !self.switch_completes(follow, results) <==> self->default is Some && forall|i: int|
                0 <= i < self.inner().len() ==> !(#[trigger] self.inner()[i]).breaks_out(follow) && self.inner()[i].terminates(
                    results,
                    Seq::empty(),
                ),
    {
        let w = self.inner();
        let cases = self->cases;
        assert forall|i: int| 0 <= i < cases.len() implies w[i] == (#[trigger] cases[i]).1 by {}
        if self->default is Some {
            assert(w[cases.len() as int] == *self->default->0);
        }
    }
}

proof fn lemma_add_contains(a: Seq<usize>, b: Seq<usize>, t: usize)
    ensures
        (a + b).contains(t) <==> a.contains(t) || b.contains(t),
{
    if a.contains(t) {
        let i = choose|i: int| 0 <= i < a.len() && a[i] == t;
        assert((a + b)[i] == t);
    }
    if b.contains(t) {
        let i = choose|i: int| 0 <= i < b.len() && b[i] == t;
        assert((a + b)[a.len() + i] == t);
    }
}

} // verus!
