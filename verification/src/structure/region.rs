//! The region tree: nested constructs over basic blocks.

use std::collections::HashSet;
use std::sync::Arc;

use vstd::prelude::*;

use crate::ir;
use crate::ir::{BlockResult, Expr};
use crate::sets::{copy_list, copy_set, list_has};

verus! {

broadcast use vstd::std_specs::hash::group_hash_axioms;

#[derive(Debug)]
pub enum Region {
    /// Statements of one basic block; terminal handled by the enclosing region.
    Basic { block: usize },
    Sequence(Vec<Region>),
    If {
        /// block carrying the conditional terminal
        block: usize,
        cond: Arc<Expr>,
        /// taken (true) branch
        then_r: Box<Region>,
        /// fallthrough (false) branch
        else_r: Box<Region>,
        follow: Option<usize>,
        /// Folded value-diamond: (then value, else value); both branches
        /// are pure expression pushes that merge on the operand stack.
        ternary: Option<(Arc<Expr>, Arc<Expr>)>,
    },
    Loop { header: usize, body: Box<Region>, members: HashSet<usize>, exits: Vec<usize> },
    Switch {
        block: usize,
        selector: Arc<Expr>,
        cases: Vec<(Vec<i64>, Region)>,
        default: Option<Box<Region>>,
        follow: Option<usize>,
    },
    Try {
        group_idx: usize,
        body: Box<Region>,
        /// (catch types [multi-catch merged], handler block, region) in table order
        catches: Vec<(Vec<String>, usize, Box<Region>)>,
    },
    /// Jump to a block outside the current region (resolved later).
    Goto { target: usize },
    /// Duplicate of an already-claimed pure block's statements (shared
    /// value block reached from multiple branches).
    CopyStmts { block: usize },
    Empty,
}

/// What a region is: the tree with sequences and sets for its lists and sets.
#[verifier::ext_equal]
pub enum Tree {
    Basic { block: usize },
    Sequence(Seq<Tree>),
    If {
        block: usize,
        cond: Expr,
        then_r: Box<Tree>,
        else_r: Box<Tree>,
        follow: Option<usize>,
        ternary: Option<(Expr, Expr)>,
    },
    Loop { header: usize, body: Box<Tree>, members: Set<usize>, exits: Seq<usize> },
    Switch {
        block: usize,
        selector: Expr,
        cases: Seq<(Seq<i64>, Tree)>,
        default: Option<Box<Tree>>,
        follow: Option<usize>,
    },
    Try { group_idx: usize, body: Box<Tree>, catches: Seq<(Seq<Seq<char>>, usize, Tree)> },
    Goto { target: usize },
    CopyStmts { block: usize },
    Empty,
}

/// The characters of each string.
pub open spec fn names(v: Seq<String>) -> Seq<Seq<char>> {
    Seq::new(v.len(), |i: int| v[i]@)
}

pub open spec fn pair_view(t: Option<(Arc<Expr>, Arc<Expr>)>) -> Option<(Expr, Expr)> {
    match t {
        Some((a, b)) => Some((*a, *b)),
        None => None,
    }
}

impl Region {
    pub open spec fn view(self) -> Tree
        decreases self,
    {
        match self {
            Region::Basic { block } => Tree::Basic { block },
            Region::Sequence(v) => Tree::Sequence(
                Seq::new(
                    v@.len(),
                    |i: int|
                        if 0 <= i < v@.len() {
                            v@[i].view()
                        } else {
                            Tree::Empty
                        },
                ),
            ),
            Region::If { block, cond, then_r, else_r, follow, ternary } => Tree::If {
                block,
                cond: *cond,
                then_r: Box::new(then_r.view()),
                else_r: Box::new(else_r.view()),
                follow,
                ternary: pair_view(ternary),
            },
            Region::Loop { header, body, members, exits } => Tree::Loop {
                header,
                body: Box::new(body.view()),
                members: members@,
                exits: exits@,
            },
            Region::Switch { block, selector, cases, default, follow } => Tree::Switch {
                block,
                selector: *selector,
                cases: Seq::new(
                    cases@.len(),
                    |i: int|
                        if 0 <= i < cases@.len() {
                            (cases@[i].0@, cases@[i].1.view())
                        } else {
                            arbitrary()
                        },
                ),
                default: match default {
                    Some(d) => Some(Box::new(d.view())),
                    None => None,
                },
                follow,
            },
            Region::Try { group_idx, body, catches } => Tree::Try {
                group_idx,
                body: Box::new(body.view()),
                catches: Seq::new(
                    catches@.len(),
                    |i: int|
                        if 0 <= i < catches@.len() {
                            (names(catches@[i].0@), catches@[i].1, catches@[i].2.view())
                        } else {
                            arbitrary()
                        },
                ),
            },
            Region::Goto { target } => Tree::Goto { target },
            Region::CopyStmts { block } => Tree::CopyStmts { block },
            Region::Empty => Tree::Empty,
        }
    }
}

/// The trees of a list of regions.
pub open spec fn trees(v: Seq<Region>) -> Seq<Tree> {
    Seq::new(v.len(), |i: int| v[i].view())
}

pub open spec fn cases_view(v: Seq<(Vec<i64>, Region)>) -> Seq<(Seq<i64>, Tree)> {
    Seq::new(v.len(), |i: int| (v[i].0@, v[i].1.view()))
}

pub open spec fn catches_view(v: Seq<(Vec<String>, usize, Box<Region>)>) -> Seq<(Seq<Seq<char>>, usize, Tree)> {
    Seq::new(v.len(), |i: int| (names(v[i].0@), v[i].1, v[i].2.view()))
}

pub open spec fn opt_view(d: Option<Box<Region>>) -> Option<Box<Tree>> {
    match d {
        Some(r) => Some(Box::new(r.view())),
        None => None,
    }
}

pub proof fn lemma_sequence_view(v: Vec<Region>)
    ensures
        Region::Sequence(v).view() == Tree::Sequence(trees(v@)),
{
    let t = Region::Sequence(v).view();
    assert(t->Sequence_0 =~= trees(v@));
}

pub proof fn lemma_switch_view(r: Region)
    requires
        r is Switch,
    ensures
        r.view() is Switch,
        r.view()->Switch_cases == cases_view(r->Switch_cases@),
        r.view()->Switch_default == opt_view(r->Switch_default),
        r.view()->Switch_block == r->Switch_block,
        r.view()->Switch_follow == r->Switch_follow,
        r.view()->Switch_selector == *r->Switch_selector,
{
    assert(r.view()->Switch_cases =~= cases_view(r->Switch_cases@));
}

pub proof fn lemma_try_view(r: Region)
    requires
        r is Try,
    ensures
        r.view() is Try,
        r.view()->Try_catches == catches_view(r->Try_catches@),
        *r.view()->Try_body == r->Try_body.view(),
        r.view()->Try_group_idx == r->Try_group_idx,
{
    assert(r.view()->Try_catches =~= catches_view(r->Try_catches@));
}

// ---------------------------------------------------------------------------
// Copies
// ---------------------------------------------------------------------------

pub fn copy_regions(v: &Vec<Region>, from: usize) -> (r: Vec<Region>)
    requires
        from <= v@.len(),
    ensures
        trees(r@) == trees(v@).skip(from as int),
    decreases v,
{
    let mut r: Vec<Region> = Vec::new();
    let mut i: usize = from;
    while i < v.len()
        invariant
            from <= i <= v@.len(),
            trees(r@) == trees(v@).subrange(from as int, i as int),
        decreases v@.len() - i,
    {
        let ghost before = trees(r@);
        assert(decreases_to!(v => v@));
        assert(decreases_to!(v@ => v@[i as int]));
        let x = v[i].copy();
        let ghost xv = x.view();
        r.push(x);
        assert(trees(r@) =~= before.push(xv));
        assert(trees(v@).subrange(from as int, i + 1) =~= before.push(xv));
        i += 1;
    }
    assert(trees(v@).subrange(from as int, i as int) =~= trees(v@).skip(from as int));
    r
}

fn copy_longs(v: &Vec<i64>) -> (r: Vec<i64>)
    ensures
        r@ == v@,
{
    let mut r: Vec<i64> = Vec::new();
    let mut i: usize = 0;
    while i < v.len()
        invariant
            i <= v@.len(),
            r@ == v@.take(i as int),
        decreases v@.len() - i,
    {
        r.push(v[i]);
        assert(v@.take(i + 1) =~= v@.take(i as int).push(v@[i as int]));
        i += 1;
    }
    assert(v@.take(i as int) =~= v@);
    r
}

pub fn copy_names(v: &Vec<String>) -> (r: Vec<String>)
    ensures
        names(r@) == names(v@),
{
    let mut r: Vec<String> = Vec::new();
    let mut i: usize = 0;
    while i < v.len()
        invariant
            i <= v@.len(),
            names(r@) == names(v@).take(i as int),
        decreases v@.len() - i,
    {
        let ghost before = names(r@);
        let x = v[i].clone();
        let ghost xv = x@;
        r.push(x);
        assert(names(r@) =~= before.push(xv));
        assert(names(v@).take(i + 1) =~= before.push(xv));
        i += 1;
    }
    assert(names(v@).take(i as int) =~= names(v@));
    r
}

fn copy_cases(v: &Vec<(Vec<i64>, Region)>) -> (r: Vec<(Vec<i64>, Region)>)
    ensures
        cases_view(r@) == cases_view(v@),
    decreases v,
{
    let mut r: Vec<(Vec<i64>, Region)> = Vec::new();
    let mut i: usize = 0;
    while i < v.len()
        invariant
            i <= v@.len(),
            cases_view(r@) == cases_view(v@).take(i as int),
        decreases v@.len() - i,
    {
        let ghost before = cases_view(r@);
        assert(decreases_to!(v => v@));
        assert(decreases_to!(v@ => v@[i as int]));
        assert(decreases_to!(v@[i as int] => v@[i as int].1));
        let x = v[i].1.copy();
        let vals = copy_longs(&v[i].0);
        let ghost xv = (vals@, x.view());
        r.push((vals, x));
        assert(cases_view(r@) =~= before.push(xv));
        assert(cases_view(v@).take(i + 1) =~= before.push(xv));
        i += 1;
    }
    assert(cases_view(v@).take(i as int) =~= cases_view(v@));
    r
}

fn copy_catches(v: &Vec<(Vec<String>, usize, Box<Region>)>) -> (r: Vec<(Vec<String>, usize, Box<Region>)>)
    ensures
        catches_view(r@) == catches_view(v@),
    decreases v,
{
    let mut r: Vec<(Vec<String>, usize, Box<Region>)> = Vec::new();
    let mut i: usize = 0;
    while i < v.len()
        invariant
            i <= v@.len(),
            catches_view(r@) == catches_view(v@).take(i as int),
        decreases v@.len() - i,
    {
        let ghost before = catches_view(r@);
        assert(decreases_to!(v => v@));
        assert(decreases_to!(v@ => v@[i as int]));
        assert(decreases_to!(v@[i as int] => v@[i as int].2));
        let x = v[i].2.copy();
        let types = copy_names(&v[i].0);
        let ghost xv = (names(types@), v@[i as int].1, x.view());
        r.push((types, v[i].1, Box::new(x)));
        assert(catches_view(r@) =~= before.push(xv));
        assert(catches_view(v@).take(i + 1) =~= before.push(xv));
        i += 1;
    }
    assert(catches_view(v@).take(i as int) =~= catches_view(v@));
    r
}

impl Region {
    /// The same region again.
    pub fn copy(&self) -> (r: Region)
        ensures
            r.view() == self.view(),
        decreases self,
    {
        match self {
            Region::Basic { block } => Region::Basic { block: *block },
            Region::Sequence(v) => {
                let w = copy_regions(v, 0);
                proof {
                    lemma_sequence_view(w);
                    lemma_sequence_view(*v);
                    assert(trees(v@).skip(0) =~= trees(v@));
                }
                Region::Sequence(w)
            },
            Region::If { block, cond, then_r, else_r, follow, ternary } => Region::If {
                block: *block,
                cond: ir::share(cond),
                then_r: Box::new(then_r.copy()),
                else_r: Box::new(else_r.copy()),
                follow: *follow,
                ternary: match ternary {
                    Some((a, b)) => Some((ir::share(a), ir::share(b))),
                    None => None,
                },
            },
            Region::Loop { header, body, members, exits } => Region::Loop {
                header: *header,
                body: Box::new(body.copy()),
                members: copy_set(members),
                exits: copy_list(exits),
            },
            Region::Switch { block, selector, cases, default, follow } => {
                let r = Region::Switch {
                    block: *block,
                    selector: ir::share(selector),
                    cases: copy_cases(cases),
                    default: match default {
                        Some(d) => Some(Box::new(d.copy())),
                        None => None,
                    },
                    follow: *follow,
                };
                proof {
                    lemma_switch_view(r);
                    lemma_switch_view(*self);
                }
                r
            },
            Region::Try { group_idx, body, catches } => {
                let r = Region::Try {
                    group_idx: *group_idx,
                    body: Box::new(body.copy()),
                    catches: copy_catches(catches),
                };
                proof {
                    lemma_try_view(r);
                    lemma_try_view(*self);
                }
                r
            },
            Region::Goto { target } => Region::Goto { target: *target },
            Region::CopyStmts { block } => Region::CopyStmts { block: *block },
            Region::Empty => Region::Empty,
        }
    }
}

impl Clone for Region {
    fn clone(&self) -> (r: Self)
        ensures
            r.view() == self.view(),
    {
        self.copy()
    }
}

// ---------------------------------------------------------------------------
// Queries
// ---------------------------------------------------------------------------

/// The block ends in a return or throw.
pub open spec fn abrupt_block(results: Seq<BlockResult>, b: usize) -> bool {
    b < results.len() && results[b as int].term.abrupt()
}

pub fn is_abrupt_block(results: &Vec<BlockResult>, b: usize) -> (r: bool)
    ensures
        r == abrupt_block(results@, b),
{
    b < results.len() && results[b].term.is_abrupt()
}

impl Tree {
    /// Every block that the region names is one of `n` blocks, every try group one of `g`.
    pub open spec fn within(self, n: nat, g: nat) -> bool
        decreases self,
    {
        match self {
            Tree::Basic { block } => block < n,
            Tree::Sequence(v) => forall|i: int| 0 <= i < v.len() ==> (#[trigger] v[i]).within(n, g),
            Tree::If { block, then_r, else_r, follow, .. } => {
                &&& block < n
                &&& then_r.within(n, g)
                &&& else_r.within(n, g)
                &&& follow matches Some(f) ==> f < n
            },
            Tree::Loop { header, body, members, exits } => {
                &&& header < n
                &&& body.within(n, g)
                &&& forall|x: usize| #[trigger] members.contains(x) ==> x < n
                &&& forall|i: int| 0 <= i < exits.len() ==> #[trigger] exits[i] < n
            },
            Tree::Switch { block, cases, default, follow, .. } => {
                &&& block < n
                &&& forall|i: int| 0 <= i < cases.len() ==> (#[trigger] cases[i]).1.within(n, g)
                &&& default matches Some(d) ==> d.within(n, g)
                &&& follow matches Some(f) ==> f < n
            },
            Tree::Try { group_idx, body, catches } => {
                &&& group_idx < g
                &&& body.within(n, g)
                &&& forall|i: int|
                    0 <= i < catches.len() ==> (#[trigger] catches[i]).1 < n && catches[i].2.within(n, g)
            },
            Tree::Goto { target } => target < n,
            Tree::CopyStmts { block } => block < n,
            Tree::Empty => true,
        }
    }
}

pub(crate) proof fn lemma_pair(a: Tree, b: Tree, n: nat, g: nat)
    requires
        a.within(n, g),
        b.within(n, g),
    ensures
        Tree::Sequence(seq![a, b]).within(n, g),
{
    let v = seq![a, b];
    assert forall|i: int| 0 <= i < v.len() implies (#[trigger] v[i]).within(n, g) by {}
}

/// Cutting a trailing jump adds no block.
pub(crate) proof fn lemma_without_fallthrough(r: Tree, heads: Set<usize>, n: nat, g: nat)
    requires
        r.within(n, g),
    ensures
        r.without_fallthrough(heads).within(n, g),
{
    if let Tree::Sequence(v) = r {
        if v.len() > 0 {
            assert forall|i: int| 0 <= i < v.drop_last().len() implies (#[trigger] v.drop_last()[i]).within(n, g) by {
                assert(v[i].within(n, g));
            }
            assert(v[0].within(n, g));
        }
    }
}

impl Tree {
    /// Top-level parts of this region (the sequence's elements, or the region
    /// itself as a single part).
    pub open spec fn parts(self) -> Seq<Tree> {
        match self {
            Tree::Sequence(v) => v,
            _ => seq![self],
        }
    }

    /// Some flow path leaves via a jump to a target that is neither `taken`
    /// nor exempt: the path BYPASSES the parked follow block `taken`. Regions
    /// ending without a jump leave by natural fallthrough INTO the parked chain.
    pub open spec fn bypasses_exempt(self, taken: usize, exempt: Set<usize>) -> bool
        decreases self, 1nat,
    {
        match self {
            Tree::Goto { target } => target != taken && !exempt.contains(target),
            Tree::Sequence(v) => v.len() > 0 && v[v.len() - 1].bypasses_exempt(taken, exempt),
            Tree::If { then_r, else_r, .. } => then_r.bypasses_exempt(taken, exempt)
                || else_r.bypasses_exempt(taken, exempt),
            Tree::Try { body, catches, .. } => body.bypasses_exempt(taken, exempt)
                || self.handlers_bypass(taken, exempt, catches.len()),
            _ => false,
        }
    }

    /// So does one of the first `k` handlers.
    pub open spec fn handlers_bypass(self, taken: usize, exempt: Set<usize>, k: nat) -> bool
        decreases self, 0nat, k,
    {
        match self {
            Tree::Try { catches, .. } => 0 < k <= catches.len() && (self.handlers_bypass(
                taken,
                exempt,
                (k - 1) as nat,
            ) || catches[k - 1].2.bypasses_exempt(taken, exempt)),
            _ => false,
        }
    }

    /// Loop headers, loop exits and switch follows inside the region: jumps
    /// to them become continue or break.
    pub open spec fn jump_targets(self) -> Set<usize>
        decreases self, 1nat,
    {
        match self {
            Tree::Loop { header, body, exits, .. } => body.jump_targets().insert(header).union(
                exits.to_set(),
            ),
            Tree::Switch { cases, default, follow, .. } => {
                let c = self.list_targets(cases.len());
                let d = match default {
                    Some(d) => c.union(d.jump_targets()),
                    None => c,
                };
                match follow {
                    Some(f) => d.insert(f),
                    None => d,
                }
            },
            Tree::Sequence(v) => self.list_targets(v.len()),
            Tree::If { then_r, else_r, .. } => then_r.jump_targets().union(else_r.jump_targets()),
            Tree::Try { body, catches, .. } => body.jump_targets().union(
                self.list_targets(catches.len()),
            ),
            _ => Set::empty(),
        }
    }

    /// Those of the first `k` parts, cases or handlers.
    pub open spec fn list_targets(self, k: nat) -> Set<usize>
        decreases self, 0nat, k,
    {
        match self {
            Tree::Sequence(v) => if 0 < k <= v.len() {
                self.list_targets((k - 1) as nat).union(v[k - 1].jump_targets())
            } else {
                Set::empty()
            },
            Tree::Switch { cases, .. } => if 0 < k <= cases.len() {
                self.list_targets((k - 1) as nat).union(cases[k - 1].1.jump_targets())
            } else {
                Set::empty()
            },
            Tree::Try { catches, .. } => if 0 < k <= catches.len() {
                self.list_targets((k - 1) as nat).union(catches[k - 1].2.jump_targets())
            } else {
                Set::empty()
            },
            _ => Set::empty(),
        }
    }

    /// The target of the jump that the region ends with.
    pub open spec fn last_goto(self) -> Option<usize>
        decreases self,
    {
        match self {
            Tree::Goto { target } => Some(target),
            Tree::Sequence(v) => if v.len() > 0 {
                v[v.len() - 1].last_goto()
            } else {
                None
            },
            _ => None,
        }
    }

    /// The statements of block `b` occur in the region.
    pub open spec fn mentions(self, b: usize) -> bool
        decreases self, 1nat,
    {
        match self {
            Tree::Basic { block } => block == b,
            Tree::CopyStmts { block } => block == b,
            Tree::Sequence(v) => self.list_mentions(b, v.len()),
            Tree::Loop { body, .. } => body.mentions(b),
            Tree::If { then_r, else_r, .. } => then_r.mentions(b) || else_r.mentions(b),
            Tree::Try { body, catches, .. } => body.mentions(b) || self.list_mentions(b, catches.len()),
            Tree::Switch { cases, default, .. } => self.list_mentions(b, cases.len()) || (
            default matches Some(d) && d.mentions(b)),
            _ => false,
        }
    }

    pub open spec fn list_mentions(self, b: usize, k: nat) -> bool
        decreases self, 0nat, k,
    {
        match self {
            Tree::Sequence(v) => 0 < k <= v.len() && (self.list_mentions(b, (k - 1) as nat) || v[k
                - 1].mentions(b)),
            Tree::Switch { cases, .. } => 0 < k <= cases.len() && (self.list_mentions(b, (k - 1) as nat)
                || cases[k - 1].1.mentions(b)),
            Tree::Try { catches, .. } => 0 < k <= catches.len() && (self.list_mentions(b, (k - 1) as nat)
                || catches[k - 1].2.mentions(b)),
            _ => false,
        }
    }

    /// Every flow path out of the region ends in a terminator (return, throw,
    /// or a jump to one or into `exits`): the region cannot complete normally.
    pub open spec fn terminates(self, results: Seq<BlockResult>, exits: Seq<usize>) -> bool
        decreases self, 1nat,
    {
        match self {
            Tree::CopyStmts { block } => abrupt_block(results, block),
            Tree::Basic { block } => abrupt_block(results, block),
            Tree::Goto { target } => exits.contains(target) || abrupt_block(results, target),
            Tree::Sequence(v) => v.len() > 0 && v[v.len() - 1].terminates(results, exits),
            Tree::If { then_r, else_r, .. } => then_r.terminates(results, exits) && else_r.terminates(
                results,
                exits,
            ),
            Tree::Try { body, catches, .. } => body.terminates(results, exits)
                && self.handlers_terminate(results, exits, catches.len()),
            _ => false,
        }
    }

    pub open spec fn handlers_terminate(self, results: Seq<BlockResult>, exits: Seq<usize>, k: nat) -> bool
        decreases self, 0nat, k,
    {
        match self {
            Tree::Try { catches, .. } => k == 0 || k > catches.len() || (self.handlers_terminate(
                results,
                exits,
                (k - 1) as nat,
            ) && catches[k - 1].2.terminates(results, exits)),
            _ => true,
        }
    }

    /// The arm leaves the switch at `follow`.
    pub open spec fn breaks_out(self, follow: usize) -> bool
        decreases self,
    {
        match self {
            Tree::Goto { target } => target == follow,
            Tree::Sequence(v) => v.len() > 0 && v[v.len() - 1].breaks_out(follow),
            Tree::Empty => true,
            _ => false,
        }
    }

    pub open spec fn arm_abrupt(self, follow: usize, results: Seq<BlockResult>) -> bool {
        !self.breaks_out(follow) && self.terminates(results, Seq::empty())
    }

    /// A rendered switch can complete normally: it has no default arm, or an
    /// arm that does not complete abruptly.
    pub open spec fn switch_completes(self, follow: usize, results: Seq<BlockResult>) -> bool {
        match self {
            Tree::Switch { cases, default, .. } => {
                ||| default is None
                ||| !default->0.arm_abrupt(follow, results)
                ||| exists|k: int| 0 <= k < cases.len() && !(#[trigger] cases[k]).1.arm_abrupt(follow, results)
            },
            _ => !self.terminates(results, Seq::empty()),
        }
    }

    /// The block the region starts at.
    pub open spec fn head(self) -> usize
        decreases self,
    {
        match self {
            Tree::Basic { block } => block,
            Tree::Sequence(v) => if v.len() > 0 {
                v[0].head()
            } else {
                usize::MAX
            },
            Tree::If { block, .. } => block,
            Tree::Loop { header, .. } => header,
            Tree::Switch { block, .. } => block,
            _ => usize::MAX,
        }
    }

    /// The region without a trailing jump to a sibling case head.
    pub open spec fn without_fallthrough(self, heads: Set<usize>) -> Tree {
        match self {
            Tree::Goto { target } => if heads.contains(target) {
                Tree::Empty
            } else {
                self
            },
            Tree::Sequence(v) => {
                let w = if v.len() > 0 && (v[v.len() - 1] matches Tree::Goto { target } && heads.contains(target)) {
                    v.drop_last()
                } else {
                    v
                };
                joined(w)
            },
            _ => self,
        }
    }

    /// The region is made of blocks, jumps and branches only.
    pub open spec fn simple(self) -> bool
        decreases self, 1nat,
    {
        match self {
            Tree::Basic { .. } => true,
            Tree::CopyStmts { .. } => true,
            Tree::Empty => true,
            Tree::Goto { .. } => true,
            Tree::Sequence(v) => self.parts_simple(v.len()),
            Tree::If { then_r, else_r, .. } => then_r.simple() && else_r.simple(),
            _ => false,
        }
    }

    pub open spec fn parts_simple(self, k: nat) -> bool
        decreases self, 0nat, k,
    {
        match self {
            Tree::Sequence(v) => k == 0 || k > v.len() || (self.parts_simple((k - 1) as nat) && v[k
                - 1].simple()),
            _ => true,
        }
    }

    /// The targets of the jumps that end some path.
    pub open spec fn tail_targets(self) -> Seq<usize>
        decreases self, 1nat,
    {
        match self {
            Tree::Goto { target } => seq![target],
            Tree::Sequence(v) => if v.len() > 0 {
                v[v.len() - 1].tail_targets()
            } else {
                Seq::empty()
            },
            Tree::If { then_r, else_r, .. } => then_r.tail_targets() + else_r.tail_targets(),
            Tree::Try { body, catches, .. } => body.tail_targets() + self.handler_targets(catches.len()),
            _ => Seq::empty(),
        }
    }

    pub open spec fn handler_targets(self, k: nat) -> Seq<usize>
        decreases self, 0nat, k,
    {
        match self {
            Tree::Try { catches, .. } => if 0 < k <= catches.len() {
                self.handler_targets((k - 1) as nat) + catches[k - 1].2.tail_targets()
            } else {
                Seq::empty()
            },
            _ => Seq::empty(),
        }
    }

    /// An empty region occurs below the top-level tail.
    pub open spec fn deep_empty(self, top: bool) -> bool
        decreases self, 1nat,
    {
        match self {
            Tree::Empty => !top,
            Tree::Sequence(v) => self.list_empty(top, v.len()),
            Tree::If { then_r, else_r, .. } => then_r.deep_empty(false) || else_r.deep_empty(false),
            Tree::Try { body, catches, .. } => body.deep_empty(false) || self.list_empty(false, catches.len()),
            _ => false,
        }
    }

    pub open spec fn list_empty(self, top: bool, k: nat) -> bool
        decreases self, 0nat, k,
    {
        match self {
            Tree::Sequence(v) => 0 < k <= v.len() && (self.list_empty(top, (k - 1) as nat) || v[k
                - 1].deep_empty(top && k == v.len())),
            Tree::Try { catches, .. } => 0 < k <= catches.len() && (self.list_empty(top, (k - 1) as nat)
                || catches[k - 1].2.deep_empty(false)),
            _ => false,
        }
    }

    /// Nothing falls out of the construct at the end of a switch arm.
    pub open spec fn all_abrupt(self, results: Seq<BlockResult>) -> bool
        decreases self,
    {
        match self {
            Tree::Switch { cases, default, .. } => match default {
                Some(d) => d.all_abrupt(results),
                None => cases.len() > 0 && cases[cases.len() - 1].1.all_abrupt(results),
            },
            Tree::Sequence(v) => v.len() > 0 && v[v.len() - 1].all_abrupt(results),
            Tree::If { then_r, else_r, .. } => then_r.all_abrupt(results) && else_r.all_abrupt(results),
            Tree::Loop { .. } => true,
            Tree::Goto { .. } => true,
            Tree::Basic { block } => abrupt_block(results, block),
            _ => false,
        }
    }

    pub open spec fn abrupt_switch_at_end(self, results: Seq<BlockResult>) -> bool {
        match self {
            Tree::Sequence(v) => v.len() > 0 && v[v.len() - 1] is Switch && v[v.len() - 1].all_abrupt(results),
            Tree::Switch { .. } => self.all_abrupt(results),
            _ => false,
        }
    }
}

/// The list `v` starts with the parts of `u`.
pub open spec fn extends(v: Seq<Tree>, u: Seq<Tree>) -> bool {
    v.len() >= u.len() && forall|i: int| 0 <= i < u.len() ==> #[trigger] v[i] == u[i]
}

/// The list `v` starts with the parts of `u`, and its next part is `r`.
pub open spec fn goes_on_with(v: Seq<Tree>, u: Seq<Tree>, r: Tree) -> bool {
    v.len() > u.len() && extends(v, u) && v[u.len() as int] == r
}

/// Some region of the list starts at `b`.
pub open spec fn any_at(v: Seq<Tree>, b: usize) -> bool {
    exists|i: int| 0 <= i < v.len() && (#[trigger] v[i]).head() == b
}

/// A list of parts as one region.
pub open spec fn joined(v: Seq<Tree>) -> Tree {
    if v.len() == 0 {
        Tree::Empty
    } else if v.len() == 1 {
        v[0]
    } else {
        Tree::Sequence(v)
    }
}

pub fn join_parts(v: Vec<Region>) -> (r: Region)
    ensures
        r.view() == joined(trees(v@)),
{
    let mut v = v;
    let ghost t = trees(v@);
    if v.len() == 0 {
        Region::Empty
    } else if v.len() == 1 {
        let x = v.remove(0);
        assert(t[0] == x.view());
        x
    } else {
        proof {
            lemma_sequence_view(v);
        }
        Region::Sequence(v)
    }
}

/// The two regions one after the other.
pub fn pair(a: Region, b: Region) -> (r: Region)
    ensures
        r.view() == Tree::Sequence(seq![a.view(), b.view()]),
{
    let ghost t = seq![a.view(), b.view()];
    let mut v: Vec<Region> = Vec::new();
    v.push(a);
    v.push(b);
    proof {
        lemma_sequence_view(v);
        assert(trees(v@) =~= t);
    }
    Region::Sequence(v)
}

impl Region {
    #[verifier::loop_isolation(false)]
    pub(crate) fn bypasses_exempt(&self, taken: usize, exempt: &HashSet<usize>) -> (r: bool)
        ensures
            r == self.view().bypasses_exempt(taken, exempt@),
        decreases self,
    {
        match self {
            Region::Goto { target } => *target != taken && !exempt.contains(target),
            Region::Sequence(v) => {
                proof {
                    lemma_sequence_view(*v);
                }
                if v.len() == 0 {
                    return false;
                }
                let last = v.len() - 1;
                assert(trees(v@)[last as int] == v@[last as int].view());
                assert(decreases_to!(v => v@));
                assert(decreases_to!(v@ => v@[last as int]));
                v[last].bypasses_exempt(taken, exempt)
            },
            Region::If { then_r, else_r, .. } => then_r.bypasses_exempt(taken, exempt)
                || else_r.bypasses_exempt(taken, exempt),
            Region::Try { body, catches, .. } => {
                let ghost t = self.view();
                proof {
                    lemma_try_view(*self);
                }
                if body.bypasses_exempt(taken, exempt) {
                    return true;
                }
                let mut acc = false;
                let mut k: usize = 0;
                while k < catches.len()
                    invariant
                        k <= catches@.len(),
                        acc == t.handlers_bypass(taken, exempt@, k as nat),
                    decreases catches@.len() - k,
                {
                    assert(decreases_to!(catches => catches@));
                    assert(decreases_to!(catches@ => catches@[k as int]));
                    assert(decreases_to!(catches@[k as int] => catches@[k as int].2));
                    assert(t->Try_catches[k as int].2 == catches@[k as int].2.view());
                    let hit = catches[k].2.bypasses_exempt(taken, exempt);
                    acc = acc || hit;
                    k += 1;
                }
                acc
            },
            _ => false,
        }
    }

    /// The target of the jump that the region ends with.
    pub(crate) fn is_empty_region(&self) -> (r: bool)
        ensures
            r == (self.view() is Empty),
    {
        match self {
            Region::Empty => true,
            _ => false,
        }
    }

    pub(crate) fn last_goto(&self) -> (r: Option<usize>)
        ensures
            r == self.view().last_goto(),
        decreases self,
    {
        match self {
            Region::Goto { target } => Some(*target),
            Region::Sequence(v) => {
                proof {
                    lemma_sequence_view(*v);
                }
                if v.len() == 0 {
                    return None;
                }
                let last = v.len() - 1;
                assert(trees(v@)[last as int] == v@[last as int].view());
                assert(decreases_to!(v => v@));
                assert(decreases_to!(v@ => v@[last as int]));
                v[last].last_goto()
            },
            _ => None,
        }
    }

    #[verifier::loop_isolation(false)]
    pub(crate) fn mentions(&self, b: usize) -> (r: bool)
        ensures
            r == self.view().mentions(b),
        decreases self,
    {
        let ghost t = self.view();
        match self {
            Region::Basic { block } => *block == b,
            Region::CopyStmts { block } => *block == b,
            Region::Sequence(v) => {
                proof {
                    lemma_sequence_view(*v);
                }
                let mut acc = false;
                let mut k: usize = 0;
                while k < v.len()
                    invariant
                        k <= v@.len(),
                        acc == t.list_mentions(b, k as nat),
                    decreases v@.len() - k,
                {
                    assert(decreases_to!(v => v@));
                    assert(decreases_to!(v@ => v@[k as int]));
                    
                    assert(t->Sequence_0[k as int] == v@[k as int].view());
                    let hit = v[k].mentions(b);
                    acc = acc || hit;
                    k += 1;
                }
                acc
            },
            Region::Loop { body, .. } => body.mentions(b),
            Region::If { then_r, else_r, .. } => then_r.mentions(b) || else_r.mentions(b),
            Region::Try { body, catches, .. } => {
                proof {
                    lemma_try_view(*self);
                }
                if body.mentions(b) {
                    return true;
                }
                let mut acc = false;
                let mut k: usize = 0;
                while k < catches.len()
                    invariant
                        k <= catches@.len(),
                        acc == t.list_mentions(b, k as nat),
                    decreases catches@.len() - k,
                {
                    assert(decreases_to!(catches => catches@));
                    assert(decreases_to!(catches@ => catches@[k as int]));
                    assert(decreases_to!(catches@[k as int] => catches@[k as int].2));
                    assert(t->Try_catches[k as int].2 == catches@[k as int].2.view());
                    let hit = catches[k].2.mentions(b);
                    acc = acc || hit;
                    k += 1;
                }
                acc
            },
            Region::Switch { cases, default, .. } => {
                proof {
                    lemma_switch_view(*self);
                }
                let mut acc = false;
                let mut k: usize = 0;
                while k < cases.len()
                    invariant
                        k <= cases@.len(),
                        acc == t.list_mentions(b, k as nat),
                    decreases cases@.len() - k,
                {
                    assert(decreases_to!(cases => cases@));
                    assert(decreases_to!(cases@ => cases@[k as int]));
                    assert(decreases_to!(cases@[k as int] => cases@[k as int].1));
                    assert(t->Switch_cases[k as int].1 == cases@[k as int].1.view());
                    let hit = cases[k].1.mentions(b);
                    acc = acc || hit;
                    k += 1;
                }
                match default {
                    Some(d) => acc || d.mentions(b),
                    None => acc,
                }
            },
            _ => false,
        }
    }

    #[verifier::loop_isolation(false)]
    pub(crate) fn terminates(&self, results: &Vec<BlockResult>, exits: &Vec<usize>) -> (r: bool)
        ensures
            r == self.view().terminates(results@, exits@),
        decreases self,
    {
        let ghost t = self.view();
        match self {
            Region::CopyStmts { block } => is_abrupt_block(results, *block),
            Region::Basic { block } => is_abrupt_block(results, *block),
            Region::Goto { target } => list_has(exits, *target) || is_abrupt_block(results, *target),
            Region::Sequence(v) => {
                proof {
                    lemma_sequence_view(*v);
                }
                if v.len() == 0 {
                    return false;
                }
                let last = v.len() - 1;
                assert(trees(v@)[last as int] == v@[last as int].view());
                assert(decreases_to!(v => v@));
                assert(decreases_to!(v@ => v@[last as int]));
                v[last].terminates(results, exits)
            },
            Region::If { then_r, else_r, .. } => then_r.terminates(results, exits) && else_r.terminates(
                results,
                exits,
            ),
            Region::Try { body, catches, .. } => {
                proof {
                    lemma_try_view(*self);
                }
                if !body.terminates(results, exits) {
                    return false;
                }
                let mut acc = true;
                let mut k: usize = 0;
                while k < catches.len()
                    invariant
                        k <= catches@.len(),
                        acc == t.handlers_terminate(results@, exits@, k as nat),
                    decreases catches@.len() - k,
                {
                    assert(decreases_to!(catches => catches@));
                    assert(decreases_to!(catches@ => catches@[k as int]));
                    assert(decreases_to!(catches@[k as int] => catches@[k as int].2));
                    assert(t->Try_catches[k as int].2 == catches@[k as int].2.view());
                    let hit = catches[k].2.terminates(results, exits);
                    acc = acc && hit;
                    k += 1;
                }
                acc
            },
            _ => false,
        }
    }

    fn breaks_out(&self, follow: usize) -> (r: bool)
        ensures
            r == self.view().breaks_out(follow),
        decreases self,
    {
        match self {
            Region::Goto { target } => *target == follow,
            Region::Sequence(v) => {
                proof {
                    lemma_sequence_view(*v);
                }
                if v.len() == 0 {
                    return false;
                }
                let last = v.len() - 1;
                assert(trees(v@)[last as int] == v@[last as int].view());
                assert(decreases_to!(v => v@));
                assert(decreases_to!(v@ => v@[last as int]));
                v[last].breaks_out(follow)
            },
            Region::Empty => true,
            _ => false,
        }
    }

    fn arm_abrupt(&self, follow: usize, results: &Vec<BlockResult>) -> (r: bool)
        ensures
            r == self.view().arm_abrupt(follow, results@),
    {
        let none: Vec<usize> = Vec::new();
        assert(none@ =~= Seq::empty());
        !self.breaks_out(follow) && self.terminates(results, &none)
    }

    /// Can a rendered Switch region complete normally (flow out of its
    /// follow)?
    #[verifier::loop_isolation(false)]
    pub(crate) fn switch_completes(&self, follow: usize, results: &Vec<BlockResult>) -> (r: bool)
        ensures
            r == self.view().switch_completes(follow, results@),
    {
        match self {
            Region::Switch { cases, default, .. } => {
                let ghost t = self.view();
                proof {
                    lemma_switch_view(*self);
                }
                match default {
                    None => {
                        return true;
                    },
                    Some(d) => {
                        if !d.arm_abrupt(follow, results) {
                            return true;
                        }
                    },
                }
                let mut k: usize = 0;
                while k < cases.len()
                    invariant
                        k <= cases@.len(),
                        forall|j: int| 0 <= j < k ==> (#[trigger] t->Switch_cases[j]).1.arm_abrupt(follow, results@),
                    decreases cases@.len() - k,
                {
                    assert(t->Switch_cases[k as int].1 == cases@[k as int].1.view());
                    if !cases[k].1.arm_abrupt(follow, results) {
                        return true;
                    }
                    k += 1;
                }
                false
            },
            _ => {
                let none: Vec<usize> = Vec::new();
                assert(none@ =~= Seq::empty());
                !self.terminates(results, &none)
            },
        }
    }

    /// The block the region starts at (`usize::MAX` if none).
    pub(crate) fn head(&self) -> (r: usize)
        ensures
            r == self.view().head(),
        decreases self,
    {
        match self {
            Region::Basic { block } => *block,
            Region::Sequence(v) => {
                proof {
                    lemma_sequence_view(*v);
                }
                if v.len() == 0 {
                    return usize::MAX;
                }
                assert(trees(v@)[0] == v@[0].view());
                assert(decreases_to!(v => v@));
                assert(decreases_to!(v@ => v@[0]));
                v[0].head()
            },
            Region::If { block, .. } => *block,
            Region::Loop { header, .. } => *header,
            Region::Switch { block, .. } => *block,
            _ => usize::MAX,
        }
    }

    /// Some top-level part starts at `b`.
    #[verifier::loop_isolation(false)]
    pub(crate) fn has_part_at(&self, b: usize) -> (r: bool)
        ensures
            r == any_at(self.view().parts(), b),
    {
        match self {
            Region::Sequence(v) => {
                proof {
                    lemma_sequence_view(*v);
                }
                parts_at(v, b)
            },
            _ => {
                assert(self.view().parts()[0] == self.view());
                self.head() == b
            },
        }
    }

    /// Remove a trailing jump to a sibling case head (Java fallthrough).
    pub(crate) fn without_fallthrough(self, heads: &HashSet<usize>) -> (r: Region)
        ensures
            r.view() == self.view().without_fallthrough(heads@),
    {
        match self {
            Region::Goto { target } => if heads.contains(&target) {
                Region::Empty
            } else {
                Region::Goto { target }
            },
            Region::Sequence(v) => {
                proof {
                    lemma_sequence_view(v);
                }
                let ghost t = trees(v@);
                let mut v = v;
                if v.len() > 0 {
                    let last = v.len() - 1;
                    assert(t[last as int] == v@[last as int].view());
                    let mut drop = false;
                    if let Region::Goto { target } = &v[last] {
                        if heads.contains(target) {
                            drop = true;
                        }
                    }
                    if drop {
                        v.pop();
                        assert(trees(v@) =~= t.drop_last());
                    }
                }
                join_parts(v)
            },
            other => other,
        }
    }

    #[verifier::loop_isolation(false)]
    pub(crate) fn simple(&self) -> (r: bool)
        ensures
            r == self.view().simple(),
        decreases self,
    {
        let ghost t = self.view();
        match self {
            Region::Basic { .. } => true,
            Region::CopyStmts { .. } => true,
            Region::Empty => true,
            Region::Goto { .. } => true,
            Region::Sequence(v) => {
                proof {
                    lemma_sequence_view(*v);
                }
                let mut acc = true;
                let mut k: usize = 0;
                while k < v.len()
                    invariant
                        k <= v@.len(),
                        acc == t.parts_simple(k as nat),
                    decreases v@.len() - k,
                {
                    assert(decreases_to!(v => v@));
                    assert(decreases_to!(v@ => v@[k as int]));
                    
                    assert(t->Sequence_0[k as int] == v@[k as int].view());
                    let hit = v[k].simple();
                    acc = acc && hit;
                    k += 1;
                }
                acc
            },
            Region::If { then_r, else_r, .. } => then_r.simple() && else_r.simple(),
            _ => false,
        }
    }

    #[verifier::loop_isolation(false)]
    pub(crate) fn deep_empty(&self, top: bool) -> (r: bool)
        ensures
            r == self.view().deep_empty(top),
        decreases self,
    {
        let ghost t = self.view();
        match self {
            Region::Empty => !top,
            Region::Sequence(v) => {
                proof {
                    lemma_sequence_view(*v);
                }
                let mut acc = false;
                let mut k: usize = 0;
                while k < v.len()
                    invariant
                        k <= v@.len(),
                        acc == t.list_empty(top, k as nat),
                    decreases v@.len() - k,
                {
                    assert(decreases_to!(v => v@));
                    assert(decreases_to!(v@ => v@[k as int]));
                    
                    assert(t->Sequence_0[k as int] == v@[k as int].view());
                    let hit = v[k].deep_empty(top && k + 1 == v.len());
                    acc = acc || hit;
                    k += 1;
                }
                acc
            },
            Region::If { then_r, else_r, .. } => then_r.deep_empty(false) || else_r.deep_empty(false),
            Region::Try { body, catches, .. } => {
                proof {
                    lemma_try_view(*self);
                }
                if body.deep_empty(false) {
                    return true;
                }
                let mut acc = false;
                let mut k: usize = 0;
                while k < catches.len()
                    invariant
                        k <= catches@.len(),
                        acc == t.list_empty(false, k as nat),
                    decreases catches@.len() - k,
                {
                    assert(decreases_to!(catches => catches@));
                    assert(decreases_to!(catches@ => catches@[k as int]));
                    assert(decreases_to!(catches@[k as int] => catches@[k as int].2));
                    assert(t->Try_catches[k as int].2 == catches@[k as int].2.view());
                    let hit = catches[k].2.deep_empty(false);
                    acc = acc || hit;
                    k += 1;
                }
                acc
            },
            _ => false,
        }
    }

    fn all_abrupt(&self, results: &Vec<BlockResult>) -> (r: bool)
        ensures
            r == self.view().all_abrupt(results@),
        decreases self,
    {
        let ghost t = self.view();
        match self {
            Region::Switch { cases, default, .. } => {
                proof {
                    lemma_switch_view(*self);
                }
                match default {
                    Some(d) => d.all_abrupt(results),
                    None => {
                        if cases.len() == 0 {
                            return false;
                        }
                        let last = cases.len() - 1;
                        assert(t->Switch_cases[last as int].1 == cases@[last as int].1.view());
                        assert(decreases_to!(cases => cases@));
                        assert(decreases_to!(cases@ => cases@[last as int]));
                        assert(decreases_to!(cases@[last as int] => cases@[last as int].1));
                        cases[last].1.all_abrupt(results)
                    },
                }
            },
            Region::Sequence(v) => {
                proof {
                    lemma_sequence_view(*v);
                }
                if v.len() == 0 {
                    return false;
                }
                let last = v.len() - 1;
                assert(trees(v@)[last as int] == v@[last as int].view());
                assert(decreases_to!(v => v@));
                assert(decreases_to!(v@ => v@[last as int]));
                v[last].all_abrupt(results)
            },
            Region::If { then_r, else_r, .. } => then_r.all_abrupt(results) && else_r.all_abrupt(results),
            Region::Loop { .. } => true,
            Region::Goto { .. } => true,
            Region::Basic { block } => is_abrupt_block(results, *block),
            _ => false,
        }
    }

    pub(crate) fn abrupt_switch_at_end(&self, results: &Vec<BlockResult>) -> (r: bool)
        ensures
            r == self.view().abrupt_switch_at_end(results@),
    {
        match self {
            Region::Sequence(v) => {
                proof {
                    lemma_sequence_view(*v);
                }
                if v.len() == 0 {
                    return false;
                }
                let last = v.len() - 1;
                assert(trees(v@)[last as int] == v@[last as int].view());
                let sw = match &v[last] {
                    Region::Switch { .. } => true,
                    _ => false,
                };
                sw && v[last].all_abrupt(results)
            },
            Region::Switch { .. } => self.all_abrupt(results),
            _ => false,
        }
    }

    /// Adds the loop headers, loop exits and switch follows inside the region.
    #[verifier::loop_isolation(false)]
    pub(crate) fn jump_targets(&self, out: &mut HashSet<usize>)
        ensures
            final(out)@ == old(out)@.union(self.view().jump_targets()),
        decreases self,
    {
        let ghost t = self.view();
        let ghost o = out@;
        match self {
            Region::Loop { header, body, exits, .. } => {
                body.jump_targets(out);
                out.insert(*header);
                crate::sets::extend_seq(out, exits);
                assert(out@ =~= o.union(t.jump_targets()));
            },
            Region::Switch { cases, default, follow, .. } => {
                proof {
                    lemma_switch_view(*self);
                }
                let mut k: usize = 0;
                assert(o.union(t.list_targets(0)) =~= o);
                while k < cases.len()
                    invariant
                        k <= cases@.len(),
                        out@ == o.union(t.list_targets(k as nat)),
                    decreases cases@.len() - k,
                {
                    assert(decreases_to!(cases => cases@));
                    assert(decreases_to!(cases@ => cases@[k as int]));
                    assert(decreases_to!(cases@[k as int] => cases@[k as int].1));
                    assert(t->Switch_cases[k as int].1 == cases@[k as int].1.view());
                    cases[k].1.jump_targets(out);
                    assert(out@ =~= o.union(t.list_targets((k + 1) as nat)));
                    k += 1;
                }
                if let Some(d) = default {
                    d.jump_targets(out);
                }
                if let Some(f) = follow {
                    out.insert(*f);
                }
                assert(out@ =~= o.union(t.jump_targets()));
            },
            Region::Sequence(v) => {
                proof {
                    lemma_sequence_view(*v);
                }
                let mut k: usize = 0;
                assert(o.union(t.list_targets(0)) =~= o);
                while k < v.len()
                    invariant
                        k <= v@.len(),
                        out@ == o.union(t.list_targets(k as nat)),
                    decreases v@.len() - k,
                {
                    assert(decreases_to!(v => v@));
                    assert(decreases_to!(v@ => v@[k as int]));
                    assert(t->Sequence_0[k as int] == v@[k as int].view());
                    v[k].jump_targets(out);
                    assert(out@ =~= o.union(t.list_targets((k + 1) as nat)));
                    k += 1;
                }
            },
            Region::If { then_r, else_r, .. } => {
                then_r.jump_targets(out);
                else_r.jump_targets(out);
                assert(out@ =~= o.union(t.jump_targets()));
            },
            Region::Try { body, catches, .. } => {
                proof {
                    lemma_try_view(*self);
                }
                body.jump_targets(out);
                let ghost o1 = out@;
                let mut k: usize = 0;
                assert(o1.union(t.list_targets(0)) =~= o1);
                while k < catches.len()
                    invariant
                        k <= catches@.len(),
                        out@ == o1.union(t.list_targets(k as nat)),
                    decreases catches@.len() - k,
                {
                    assert(decreases_to!(catches => catches@));
                    assert(decreases_to!(catches@ => catches@[k as int]));
                    assert(decreases_to!(catches@[k as int] => catches@[k as int].2));
                    assert(t->Try_catches[k as int].2 == catches@[k as int].2.view());
                    catches[k].2.jump_targets(out);
                    assert(out@ =~= o1.union(t.list_targets((k + 1) as nat)));
                    k += 1;
                }
                assert(out@ =~= o.union(t.jump_targets()));
            },
            _ => {
                assert(out@ =~= o.union(t.jump_targets()));
            },
        }
    }

    /// Adds the targets of the jumps that end some path.
    #[verifier::loop_isolation(false)]
    pub(crate) fn tail_targets(&self, out: &mut Vec<usize>)
        ensures
            final(out)@ == old(out)@ + self.view().tail_targets(),
        decreases self,
    {
        let ghost t = self.view();
        let ghost o = out@;
        match self {
            Region::Goto { target } => {
                out.push(*target);
                assert(out@ =~= o + t.tail_targets());
            },
            Region::Sequence(v) => {
                proof {
                    lemma_sequence_view(*v);
                }
                if v.len() > 0 {
                    let last = v.len() - 1;
                    assert(trees(v@)[last as int] == v@[last as int].view());
                    assert(decreases_to!(v => v@));
                    assert(decreases_to!(v@ => v@[last as int]));
                    v[last].tail_targets(out);
                } else {
                    assert(out@ =~= o + t.tail_targets());
                }
            },
            Region::If { then_r, else_r, .. } => {
                then_r.tail_targets(out);
                else_r.tail_targets(out);
                assert(out@ =~= o + t.tail_targets());
            },
            Region::Try { body, catches, .. } => {
                proof {
                    lemma_try_view(*self);
                }
                body.tail_targets(out);
                let ghost o1 = out@;
                let mut k: usize = 0;
                assert(o1 + t.handler_targets(0) =~= o1);
                while k < catches.len()
                    invariant
                        k <= catches@.len(),
                        out@ == o1 + t.handler_targets(k as nat),
                    decreases catches@.len() - k,
                {
                    assert(decreases_to!(catches => catches@));
                    assert(decreases_to!(catches@ => catches@[k as int]));
                    assert(decreases_to!(catches@[k as int] => catches@[k as int].2));
                    assert(t->Try_catches[k as int].2 == catches@[k as int].2.view());
                    catches[k].2.tail_targets(out);
                    assert(out@ =~= o1 + t.handler_targets((k + 1) as nat));
                    k += 1;
                }
                assert(out@ =~= o + t.tail_targets());
            },
            _ => {
                assert(out@ =~= o + t.tail_targets());
            },
        }
    }
}

/// Some region of the list starts at `b`.
pub(crate) fn parts_at(v: &Vec<Region>, b: usize) -> (r: bool)
    ensures
        r == any_at(trees(v@), b),
{
    let mut i: usize = 0;
    while i < v.len()
        invariant
            i <= v@.len(),
            forall|j: int| 0 <= j < i ==> (#[trigger] trees(v@)[j]).head() != b,
        decreases v@.len() - i,
    {
        if v[i].head() == b {
            assert(trees(v@)[i as int].head() == b);
            return true;
        }
        i += 1;
    }
    false
}

} // verus!
