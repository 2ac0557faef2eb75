//! The structurer: a method's facts, and the exec side of the questions that
//! the walk asks of them.

use std::collections::{HashMap, HashSet};

use vstd::prelude::*;

use crate::cfg::Cfg;
use crate::ir::BlockResult;
use crate::sets::lemma_take_unref;
use crate::structure::env;
use crate::structure::env::Env;
use crate::structure::guards::WalkGuards;
use crate::structure::region;
use crate::structure::try_group;
use crate::structure::try_group::{group_exceptions_with, GroupView, TryGroup};

verus! {

broadcast use vstd::std_specs::hash::group_hash_axioms;

pub struct Structurer<'a> {
    pub cfg: &'a Cfg,
    pub results: &'a Vec<BlockResult>,
    /// Blocks whose operand stack was folded from a pure value diamond.
    pub diamond_merges: HashSet<usize>,
    /// Folded diamond regions: merge block -> (root header, absorbed blocks).
    /// When the walk reaches a root header, the whole region collapses: the
    /// absorbed blocks are claimed and the walk continues at the merge.
    pub fold_regions: HashMap<usize, (usize, HashSet<usize>)>,
    /// Reverse index: root header -> merge block.
    pub fold_root_to_merge: HashMap<usize, usize>,
    /// Heads of shared-tail regions that were copy-walked into a scope
    /// (a jump targeting one is natural fallthrough at conversion).
    pub copied_tails: HashSet<usize>,
    /// Headers of loops currently being structured (nesting barriers).
    pub loops_stack: Vec<usize>,
    /// Nesting depth of switch case walks: >0 while walking inside another
    /// switch's case regions.
    pub switch_depth: usize,
    /// Innermost switch case-arm walk context: (case head block, that
    /// switch's region follow, selector is a pattern switch).
    pub case_arm_ctx: Vec<(usize, Option<usize>, bool)>,
    /// Loop headers known beforehand (including exception-edge back edges
    /// from retry handlers without normal predecessors).
    pub sese_loop_headers: HashSet<usize>,
    /// The headers discovered via EXCEPTION-mediated back edges. The walk's
    /// loop branch trusts only this subset.
    pub sese_exc_retry_headers: HashSet<usize>,
    pub groups: Vec<TryGroup>,
    /// Innermost group index owning each body block.
    pub body_group: HashMap<usize, usize>,
    /// Group index owning each handler head block.
    pub handler_group: HashMap<usize, usize>,
    /// Final fields of the emitting class: a shared terminator block that
    /// assigns one must not be duplicated.
    pub final_fields: Vec<String>,
    /// Limits and counters.
    pub guards: WalkGuards,
    /// Remaining tickets for copy-producing mechanisms.
    pub copy_budget: u32,
    /// Remaining walk visits (u64::MAX = off).
    pub visits_left: u64,
    /// Groups being structured.
    pub structuring_groups: Vec<usize>,
    /// How many walks over the method the deadline cut short.
    pub cuts: Ghost<nat>,
}

pub open spec fn folds_view(m: Map<usize, (usize, HashSet<usize>)>) -> Map<usize, (usize, Set<usize>)> {
    m.map_values(|p: (usize, HashSet<usize>)| (p.0, p.1@))
}

// ---------------------------------------------------------------------------
// Derived indexes
// ---------------------------------------------------------------------------

/// The last of the first `k` groups whose span holds the block.
pub open spec fn last_group(cfg: Cfg, gs: Seq<GroupView>, b: usize, k: nat) -> Option<usize>
    decreases k,
{
    if k == 0 {
        None
    } else if cfg.start(b) >= gs[k - 1].start && (cfg.end(b) <= gs[k - 1].end || cfg.end(b) <= gs[k - 1].start + 1) {
        Some((k - 1) as usize)
    } else {
        last_group(cfg, gs, b, (k - 1) as nat)
    }
}

/// Each block with code in some span, with its innermost group.
pub open spec fn body_index(cfg: Cfg, gs: Seq<GroupView>) -> Map<usize, usize> {
    Map::new(
        |b: usize| b < cfg.n() && cfg.len(b) != 0 && last_group(cfg, gs, b, gs.len()) is Some,
        |b: usize| last_group(cfg, gs, b, gs.len())->0,
    )
}

/// `m` with the blocks of the first `j` handlers of group `gi` added where new.
pub open spec fn heads_of(cfg: Cfg, gs: Seq<GroupView>, gi: nat, j: nat) -> Map<usize, usize>
    decreases gi, j,
{
    if j == 0 || gi >= gs.len() {
        if gi == 0 {
            Map::empty()
        } else {
            heads_of(
                cfg,
                gs,
                (gi - 1) as nat,
                if gi - 1 < gs.len() {
                    gs[gi - 1].handlers.len()
                } else {
                    0
                },
            )
        }
    } else {
        let m = heads_of(cfg, gs, gi, (j - 1) as nat);
        match cfg.at(gs[gi as int].handlers[j - 1].0) {
            Some(hb) => if m.dom().contains(hb) {
                m
            } else {
                m.insert(hb, gi as usize)
            },
            None => m,
        }
    }
}

/// Each handler head block, with the first group it handles.
pub open spec fn handler_index(cfg: Cfg, gs: Seq<GroupView>) -> Map<usize, usize> {
    heads_of(cfg, gs, gs.len(), 0)
}

/// The merge `m` is among `ms`, and its fold has the root `r`.
pub open spec fn folds_into(folds: Map<usize, (usize, Set<usize>)>, ms: Set<usize>, r: usize, m: usize) -> bool {
    ms.contains(m) && folds[m].0 == r
}

/// The merge `m` is the last among `ms` whose fold has the root `r`.
pub open spec fn last_fold(folds: Map<usize, (usize, Set<usize>)>, ms: Set<usize>, r: usize, m: usize) -> bool {
    &&& folds_into(folds, ms, r, m)
    &&& forall|x: usize| #[trigger] folds_into(folds, ms, r, x) ==> x <= m
}

/// Each root of a fold, with the last merge that it has.
pub open spec fn root_index(folds: Map<usize, (usize, Set<usize>)>) -> Map<usize, usize> {
    Map::new(
        |r: usize| exists|m: usize| #[trigger] folds_into(folds, folds.dom(), r, m),
        |r: usize| choose|m: usize| last_fold(folds, folds.dom(), r, m),
    )
}

fn index_bodies(cfg: &Cfg, gs: &Vec<TryGroup>) -> (r: HashMap<usize, usize>)
    ensures
        r@ == body_index(*cfg, try_group::groups_view(gs@)),
        forall|b: usize| #[trigger] r@.dom().contains(b) ==> b < cfg.n() && r@[b] < gs@.len(),
{
    let ghost gv = try_group::groups_view(gs@);
    let ghost want = body_index(*cfg, gv);
    let mut r: HashMap<usize, usize> = HashMap::new();
    let mut b: usize = 0;
    while b < cfg.blocks.len()
        invariant
            b <= cfg.n(),
            gv == try_group::groups_view(gs@),
            want == body_index(*cfg, gv),
            forall|x: usize| #[trigger] r@.dom().contains(x) <==> x < b && want.dom().contains(x),
            forall|x: usize| #[trigger] r@.dom().contains(x) ==> r@[x] == want[x] && r@[x] < gs@.len(),
        decreases cfg.n() - b,
    {
        let blk = &cfg.blocks[b];
        if blk.ins_len != 0 {
            let mut k: usize = gs.len();
            while k > 0 && !(blk.start >= gs[k - 1].start && (blk.end <= gs[k - 1].end || blk.end as u64
                <= gs[k - 1].start as u64 + 1))
                invariant
                    k <= gs@.len(),
                    gv == try_group::groups_view(gs@),
                    b < cfg.n(),
                    *blk == cfg.blocks@[b as int],
                    last_group(*cfg, gv, b, k as nat) == last_group(*cfg, gv, b, gv.len()),
                decreases k,
            {
                assert(gv[k - 1] == gs@[k - 1]@);
                k -= 1;
            }
            if k > 0 {
                assert(gv[k - 1] == gs@[k - 1]@);
                r.insert(b, k - 1);
            }
        }
        b += 1;
    }
    assert(r@ =~= want);
    r
}

fn index_handlers(cfg: &Cfg, gs: &Vec<TryGroup>) -> (r: HashMap<usize, usize>)
    ensures
        r@ == handler_index(*cfg, try_group::groups_view(gs@)),
        forall|b: usize| #[trigger] r@.dom().contains(b) ==> b < cfg.n() && r@[b] < gs@.len(),
{
    let ghost gv = try_group::groups_view(gs@);
    let mut r: HashMap<usize, usize> = HashMap::new();
    let mut gi: usize = 0;
    assert(r@ =~= heads_of(*cfg, gv, 0, 0));
    while gi < gs.len()
        invariant
            gi <= gs@.len(),
            gv == try_group::groups_view(gs@),
            r@ == heads_of(*cfg, gv, gi as nat, 0),
            forall|b: usize| #[trigger] r@.dom().contains(b) ==> b < cfg.n() && r@[b] < gs@.len(),
        decreases gs@.len() - gi,
    {
        let g = &gs[gi];
        let mut j: usize = 0;
        while j < g.handlers.len()
            invariant
                gi < gs@.len(),
                *g == gs@[gi as int],
                gv == try_group::groups_view(gs@),
                j <= g.handlers@.len(),
                r@ == heads_of(*cfg, gv, gi as nat, j as nat),
                forall|b: usize| #[trigger] r@.dom().contains(b) ==> b < cfg.n() && r@[b] < gs@.len(),
            decreases g.handlers@.len() - j,
        {
            assert(gv[gi as int].handlers[j as int].0 == g.handlers@[j as int].0);
            if let Some(hb) = cfg.block_at(g.handlers[j].0) {
                if !r.contains_key(&hb) {
                    r.insert(hb, gi);
                }
            }
            j += 1;
        }
        assert(gv[gi as int].handlers.len() == g.handlers@.len());
        assert(heads_of(*cfg, gv, (gi + 1) as nat, 0) == heads_of(*cfg, gv, gi as nat, gv[gi as int].handlers.len()));
        gi += 1;
    }
    r
}

/// The map holds each root of a fold whose merge is among `ms`, with the last
/// of those merges.
spec fn indexes(r: Map<usize, usize>, folds: Map<usize, (usize, Set<usize>)>, ms: Set<usize>) -> bool {
    &&& forall|x: usize, m: usize| #[trigger] folds_into(folds, ms, x, m) ==> r.dom().contains(x)
    &&& forall|x: usize| #[trigger] r.dom().contains(x) ==> last_fold(folds, ms, x, r[x])
}

proof fn lemma_indexed(r: Map<usize, usize>, folds: Map<usize, (usize, Set<usize>)>)
    requires
        indexes(r, folds, folds.dom()),
    ensures
        r == root_index(folds),
{
    let want = root_index(folds);
    assert forall|x: usize| #[trigger] r.dom().contains(x) implies want.dom().contains(x) && want[x] == r[x] by {
        assert(last_fold(folds, folds.dom(), x, r[x]));
        assert(folds_into(folds, folds.dom(), x, r[x]));
        assert(last_fold(folds, folds.dom(), x, want[x]));
        assert(folds_into(folds, folds.dom(), x, want[x]));
    }
    assert(r =~= want);
}

proof fn lemma_one_more(r: Map<usize, usize>, folds: Map<usize, (usize, Set<usize>)>, ms: Set<usize>, m: usize)
    requires
        indexes(r, folds, ms),
    ensures
        ({
            let x = folds[m].0;
            let later = !r.dom().contains(x) || r[x] < m;
            indexes(if later { r.insert(x, m) } else { r }, folds, ms.insert(m))
        }),
{
    let more = ms.insert(m);
    let root = folds[m].0;
    let later = !r.dom().contains(root) || r[root] < m;
    let r1 = if later { r.insert(root, m) } else { r };
    assert forall|x: usize, y: usize| #[trigger] folds_into(folds, more, x, y) implies r1.dom().contains(x) by {
        assert(y != m ==> folds_into(folds, ms, x, y));
    }
    assert forall|x: usize| #[trigger] r1.dom().contains(x) implies last_fold(folds, more, x, r1[x]) by {
        if r.dom().contains(x) {
            assert(last_fold(folds, ms, x, r[x]));
            assert(folds_into(folds, ms, x, r[x]));
        }
        assert(folds_into(folds, more, x, r1[x]));
        assert forall|y: usize| #[trigger] folds_into(folds, more, x, y) implies y <= r1[x] by {
            assert(y != m ==> folds_into(folds, ms, x, y));
        }
    }
}

fn index_roots(folds: &HashMap<usize, (usize, HashSet<usize>)>) -> (r: HashMap<usize, usize>)
    ensures
        r@ == root_index(folds_view(folds@)),
{
    let ghost fv = folds_view(folds@);
    let mut r: HashMap<usize, usize> = HashMap::new();
    for m in it: folds.keys()
        invariant
            fv == folds_view(folds@),
            it.seq().unref().to_set() == folds@.dom(),
            indexes(r@, fv, it.seq().take(it.index()).unref().to_set()),
            it.index() == it.seq().len() ==> indexes(r@, fv, fv.dom()),
    {
        let ghost seen = it.seq().take(it.index()).unref().to_set();
        proof {
            lemma_take_unref(it.seq(), it.index());
            assert(it.seq().unref()[it.index()] == *m);
            assert(folds@.dom().contains(*m));
            lemma_one_more(r@, fv, seen, *m);
        }
        if let Some(p) = folds.get(m) {
            let later = match r.get(&p.0) {
                Some(x) => *x < *m,
                None => true,
            };
            if later {
                r.insert(p.0, *m);
            }
        }
        assert(indexes(r@, fv, seen.insert(*m)));
        assert(it.seq().take(it.seq().len() as int) =~= it.seq());
        assert(fv.dom() =~= folds@.dom());
    }
    proof {
        lemma_indexed(r@, fv);
    }
    r
}

fn copy_groups(gs: &[TryGroup]) -> (r: Vec<TryGroup>)
    ensures
        try_group::groups_view(r@) == try_group::groups_view(gs@),
{
    let mut r: Vec<TryGroup> = Vec::new();
    let mut i: usize = 0;
    while i < gs.len()
        invariant
            i <= gs@.len(),
            try_group::groups_view(r@) == try_group::groups_view(gs@).take(i as int),
        decreases gs@.len() - i,
    {
        let ghost before = try_group::groups_view(r@);
        let g = gs[i].copy();
        let ghost gv = g@;
        r.push(g);
        assert(try_group::groups_view(r@) =~= before.push(gv));
        assert(try_group::groups_view(gs@).take(i + 1) =~= before.push(gv));
        i += 1;
    }
    assert(try_group::groups_view(gs@).take(i as int) =~= try_group::groups_view(gs@));
    r
}

impl<'a> Structurer<'a> {
    /// The fixed facts.
    pub open spec fn env(self) -> Env {
        Env {
            cfg: *self.cfg,
            results: self.results@,
            groups: try_group::groups_view(self.groups@),
            body: self.body_group@,
            handler: self.handler_group@,
            diamonds: self.diamond_merges@,
            folds: folds_view(self.fold_regions@),
            roots: self.fold_root_to_merge@,
            headers: self.sese_loop_headers@,
            retry: self.sese_exc_retry_headers@,
            finals: region::names(self.final_fields@),
            allow: self.guards.allow_confluence,
        }
    }

    pub open spec fn wf(self) -> bool {
        self.env().wf()
    }

    /// A fresh structurer: indexes derived from the groups and folds, limits
    /// from the guards, nothing structured yet.
    pub open spec fn is_fresh(
        self,
        cfg: Cfg,
        results: Seq<BlockResult>,
        groups: Seq<GroupView>,
        diamonds: Set<usize>,
        folds: Map<usize, (usize, Set<usize>)>,
        guards: WalkGuards,
    ) -> bool {
        &&& self.env() == (Env {
            cfg,
            results,
            groups,
            body: body_index(cfg, groups),
            handler: handler_index(cfg, groups),
            diamonds,
            folds,
            roots: root_index(folds),
            headers: Set::empty(),
            retry: Set::empty(),
            finals: Seq::empty(),
            allow: guards.allow_confluence,
        })
        &&& self.copied_tails@ == Set::<usize>::empty()
        &&& self.loops_stack@ == Seq::<usize>::empty()
        &&& self.switch_depth == 0
        &&& self.case_arm_ctx@ == Seq::<(usize, Option<usize>, bool)>::empty()
        &&& self.guards == guards
        &&& self.copy_budget == (match guards.budget_override {
            Some(b) => b,
            None => 512u32,
        })
        &&& self.visits_left == (match guards.visit_budget {
            Some(b) => b,
            None => u64::MAX,
        })
        &&& self.structuring_groups@ == Seq::<usize>::empty()
        &&& self.cuts@ == 0
    }

    pub fn new(cfg: &'a Cfg, results: &'a Vec<BlockResult>, guards: &WalkGuards) -> (r: Structurer<'a>)
        requires
            cfg.wf(),
            cfg.n() < usize::MAX - 2,
            results@.len() >= cfg.n(),
            env::tables_fit(results@),
        ensures
            r.wf(),
            r.is_fresh(
                *cfg,
                results@,
                try_group::groups_of(*cfg, Some(results@)),
                Set::empty(),
                Map::empty(),
                *guards,
            ),
    {
        let diamonds: HashSet<usize> = HashSet::new();
        let folds: HashMap<usize, (usize, HashSet<usize>)> = HashMap::new();
        proof {
            assert(diamonds@ =~= Set::empty());
            assert(folds_view(folds@) =~= Map::empty());
        }
        Self::with_diamonds(cfg, results, diamonds, folds, guards)
    }

    pub fn with_diamonds(
        cfg: &'a Cfg,
        results: &'a Vec<BlockResult>,
        diamond_merges: HashSet<usize>,
        fold_regions: HashMap<usize, (usize, HashSet<usize>)>,
        guards: &WalkGuards,
    ) -> (r: Structurer<'a>)
        requires
            cfg.wf(),
            cfg.n() < usize::MAX - 2,
            results@.len() >= cfg.n(),
            env::tables_fit(results@),
        ensures
            r.wf(),
            r.is_fresh(
                *cfg,
                results@,
                try_group::groups_of(*cfg, Some(results@)),
                diamond_merges@,
                folds_view(fold_regions@),
                *guards,
            ),
    {
        let groups = group_exceptions_with(cfg, Some(results));
        Self::from_parts(cfg, results, groups, diamond_merges, fold_regions, guards)
    }

    /// Constructor for callers that already computed the exception groups.
    pub fn with_precomputed_groups(
        cfg: &'a Cfg,
        results: &'a Vec<BlockResult>,
        groups: Vec<TryGroup>,
        diamond_merges: HashSet<usize>,
        fold_regions: HashMap<usize, (usize, HashSet<usize>)>,
        guards: &WalkGuards,
    ) -> (r: Structurer<'a>)
        requires
            cfg.wf(),
            cfg.n() < usize::MAX - 2,
            results@.len() >= cfg.n(),
            env::tables_fit(results@),
        ensures
            r.wf(),
            r.is_fresh(
                *cfg,
                results@,
                try_group::groups_view(groups@),
                diamond_merges@,
                folds_view(fold_regions@),
                *guards,
            ),
    {
        Self::from_parts(cfg, results, groups, diamond_merges, fold_regions, guards)
    }

    /// `with_precomputed_groups` on a group slice that stays with the caller.
    pub fn with_shared_groups(
        cfg: &'a Cfg,
        results: &'a Vec<BlockResult>,
        groups: &[TryGroup],
        diamond_merges: HashSet<usize>,
        fold_regions: HashMap<usize, (usize, HashSet<usize>)>,
        guards: &WalkGuards,
    ) -> (r: Structurer<'a>)
        requires
            cfg.wf(),
            cfg.n() < usize::MAX - 2,
            results@.len() >= cfg.n(),
            env::tables_fit(results@),
        ensures
            r.wf(),
            r.is_fresh(
                *cfg,
                results@,
                try_group::groups_view(groups@),
                diamond_merges@,
                folds_view(fold_regions@),
                *guards,
            ),
    {
        Self::from_parts(cfg, results, copy_groups(groups), diamond_merges, fold_regions, guards)
    }

    fn from_parts(
        cfg: &'a Cfg,
        results: &'a Vec<BlockResult>,
        groups: Vec<TryGroup>,
        diamond_merges: HashSet<usize>,
        fold_regions: HashMap<usize, (usize, HashSet<usize>)>,
        guards: &WalkGuards,
    ) -> (r: Structurer<'a>)
        requires
            cfg.wf(),
            cfg.n() < usize::MAX - 2,
            results@.len() >= cfg.n(),
            env::tables_fit(results@),
        ensures
            r.wf(),
            r.is_fresh(
                *cfg,
                results@,
                try_group::groups_view(groups@),
                diamond_merges@,
                folds_view(fold_regions@),
                *guards,
            ),
    {
        let body_group = index_bodies(cfg, &groups);
        let handler_group = index_handlers(cfg, &groups);
        let fold_root_to_merge = index_roots(&fold_regions);
        let r = Structurer {
            cfg,
            results,
            diamond_merges,
            fold_regions,
            fold_root_to_merge,
            copied_tails: HashSet::new(),
            loops_stack: Vec::new(),
            switch_depth: 0,
            case_arm_ctx: Vec::new(),
            sese_loop_headers: HashSet::new(),
            sese_exc_retry_headers: HashSet::new(),
            groups,
            body_group,
            handler_group,
            final_fields: Vec::new(),
            guards: *guards,
            copy_budget: match guards.budget_override {
                Some(b) => b,
                None => 512,
            },
            visits_left: match guards.visit_budget {
                Some(b) => b,
                None => u64::MAX,
            },
            structuring_groups: Vec::new(),
            cuts: Ghost(0),
        };
        proof {
            assert(r.env().headers =~= Set::empty());
            assert(r.env().retry =~= Set::empty());
            assert(r.env().finals =~= Seq::empty());
            assert(r.copied_tails@ =~= Set::empty());
        }
        r
    }
}

} // verus!
