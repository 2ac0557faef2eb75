//! Exception-table rows grouped into source-level try regions.

use vstd::prelude::*;

use crate::cfg::{Cfg, ExcRange};
use crate::ir::BlockResult;
use crate::sets::copy_list;
use crate::structure::postdom;
use crate::structure::suppressed;
use crate::text;

verus! {

#[derive(Debug)]
pub struct TryGroup {
    pub start: u32,
    pub end: u32,
    /// (handler pc, catch type) in exception-table order.
    pub handlers: Vec<(u32, Option<String>)>,
    pub ranges: Vec<usize>,
}

/// What a try group says: its span, its handlers, and the exception-table
/// rows it was made from.
#[verifier::ext_equal]
pub struct GroupView {
    pub start: u32,
    pub end: u32,
    pub handlers: Seq<(u32, Option<Seq<char>>)>,
    pub ranges: Seq<usize>,
}

pub open spec fn handlers_view(v: Seq<(u32, Option<String>)>) -> Seq<(u32, Option<Seq<char>>)> {
    Seq::new(v.len(), |i: int| (v[i].0, text::opt_text(v[i].1)))
}

impl View for TryGroup {
    type V = GroupView;

    open spec fn view(&self) -> GroupView {
        GroupView {
            start: self.start,
            end: self.end,
            handlers: handlers_view(self.handlers@),
            ranges: self.ranges@,
        }
    }
}

pub open spec fn groups_view(v: Seq<TryGroup>) -> Seq<GroupView> {
    Seq::new(v.len(), |i: int| v[i]@)
}

impl GroupView {
    /// Some handler of the group starts at `pc`.
    pub open spec fn handles_at(self, pc: u32) -> bool {
        exists|k: int| 0 <= k < self.handlers.len() && (#[trigger] self.handlers[k]).0 == pc
    }

    /// Groups come in order of start, the widest first.
    pub open spec fn before(self, o: GroupView) -> bool {
        self.start < o.start || (self.start == o.start && self.end > o.end)
    }

    /// At least one handler, and only rows of the table.
    pub open spec fn wf(self, rows: nat) -> bool {
        &&& self.handlers.len() > 0
        &&& forall|k: int| 0 <= k < self.ranges.len() ==> #[trigger] self.ranges[k] < rows
    }
}

// ---------------------------------------------------------------------------
// Rows of one span
// ---------------------------------------------------------------------------

pub open spec fn row_handler(r: ExcRange) -> (u32, Option<Seq<char>>) {
    (r.handler, text::opt_text(r.catch_type))
}

/// Position of the first group with the given span, `gs.len()` if none has it.
pub open spec fn span_index(gs: Seq<GroupView>, start: u32, end: u32) -> nat
    decreases gs.len(),
{
    if gs.len() == 0 {
        0
    } else if gs[0].start == start && gs[0].end == end {
        0
    } else {
        1 + span_index(gs.skip(1), start, end)
    }
}

/// The first `k` rows, one group per span in order of first appearance.
pub open spec fn by_span(rows: Seq<ExcRange>, k: nat) -> Seq<GroupView>
    decreases k,
{
    if k == 0 {
        Seq::empty()
    } else {
        let gs = by_span(rows, (k - 1) as nat);
        let r = rows[k - 1];
        let i = span_index(gs, r.start, r.end) as int;
        if i < gs.len() {
            gs.update(
                i,
                GroupView {
                    handlers: gs[i].handlers.push(row_handler(r)),
                    ranges: gs[i].ranges.push((k - 1) as usize),
                    ..gs[i]
                },
            )
        } else {
            gs.push(
                GroupView {
                    start: r.start,
                    end: r.end,
                    handlers: seq![row_handler(r)],
                    ranges: seq![(k - 1) as usize],
                },
            )
        }
    }
}

// ---------------------------------------------------------------------------
// Order
// ---------------------------------------------------------------------------

/// `g` put behind everything that does not come after it.
pub open spec fn placed(s: Seq<GroupView>, g: GroupView) -> Seq<GroupView>
    decreases s.len(),
{
    if s.len() == 0 || !g.before(s.last()) {
        s.push(g)
    } else {
        placed(s.drop_last(), g).push(s.last())
    }
}

pub open spec fn sorted_onto(acc: Seq<GroupView>, s: Seq<GroupView>) -> Seq<GroupView>
    decreases s.len(),
{
    if s.len() == 0 {
        acc
    } else {
        sorted_onto(placed(acc, s[0]), s.skip(1))
    }
}

/// `s` in group order; groups of the same span keep their order.
pub open spec fn sorted(s: Seq<GroupView>) -> Seq<GroupView> {
    sorted_onto(Seq::empty(), s)
}

pub open spec fn ordered(s: Seq<GroupView>) -> bool {
    forall|i: int, j: int| 0 <= i < j < s.len() ==> !(#[trigger] s[j]).before(#[trigger] s[i])
}

proof fn lemma_placed_insert(s: Seq<GroupView>, g: GroupView, p: int)
    requires
        0 <= p <= s.len(),
        p > 0 ==> !g.before(s[p - 1]),
        forall|k: int| p <= k < s.len() ==> g.before(#[trigger] s[k]),
    ensures
        placed(s, g) == s.insert(p, g),
    decreases s.len(),
{
    if p == s.len() {
        assert(placed(s, g) =~= s.insert(p, g));
    } else {
        assert(g.before(s[s.len() - 1]));
        lemma_placed_insert(s.drop_last(), g, p);
        assert(placed(s, g) =~= s.insert(p, g));
    }
}

proof fn lemma_placed(s: Seq<GroupView>, g: GroupView)
    requires
        ordered(s),
    ensures
        ordered(placed(s, g)),
        forall|x: GroupView| #[trigger] placed(s, g).contains(x) <==> s.contains(x) || x == g,
        placed(s, g).len() == s.len() + 1,
    decreases s.len(),
{
    if s.len() == 0 || !g.before(s.last()) {
        let r = s.push(g);
        assert forall|i: int, j: int| 0 <= i < j < r.len() implies !(#[trigger] r[j]).before(#[trigger] r[i]) by {
            if j == s.len() && i < s.len() - 1 {
                assert(!s[s.len() - 1].before(s[i]));
            }
        }
        assert forall|x: GroupView| #[trigger] r.contains(x) <==> s.contains(x) || x == g by {
            if s.contains(x) {
                let i = choose|i: int| 0 <= i < s.len() && s[i] == x;
                assert(r[i] == x);
            }
            assert(r[s.len() as int] == g);
            if r.contains(x) && x != g {
                let i = choose|i: int| 0 <= i < r.len() && r[i] == x;
                assert(s[i] == x);
            }
        }
    } else {
        let u = s.drop_last();
        lemma_placed(u, g);
        let q = placed(u, g);
        let r = q.push(s.last());
        assert forall|i: int, j: int| 0 <= i < j < r.len() implies !(#[trigger] r[j]).before(#[trigger] r[i]) by {
            if j == q.len() {
                assert(q.contains(q[i]));
                if q[i] != g {
                    let k = choose|k: int| 0 <= k < u.len() && u[k] == q[i];
                    assert(!s[s.len() - 1].before(s[k]));
                }
            } else {
                assert(!q[j].before(q[i]));
            }
        }
        assert forall|x: GroupView| #[trigger] r.contains(x) <==> s.contains(x) || x == g by {
            if s.contains(x) {
                let i = choose|i: int| 0 <= i < s.len() && s[i] == x;
                if i < u.len() {
                    assert(u[i] == x);
                    assert(q.contains(x));
                    let k = choose|k: int| 0 <= k < q.len() && q[k] == x;
                    assert(r[k] == x);
                } else {
                    assert(r[q.len() as int] == x);
                }
            }
            if x == g {
                assert(q.contains(g));
                let k = choose|k: int| 0 <= k < q.len() && q[k] == g;
                assert(r[k] == g);
            }
            if r.contains(x) {
                let k = choose|k: int| 0 <= k < r.len() && r[k] == x;
                if k < q.len() {
                    assert(q.contains(x));
                    if x != g {
                        let i = choose|i: int| 0 <= i < u.len() && u[i] == x;
                        assert(s[i] == x);
                    }
                } else {
                    assert(s[s.len() - 1] == x);
                }
            }
        }
    }
}

fn sort_groups(v: Vec<TryGroup>, Ghost(rows): Ghost<nat>) -> (r: Vec<TryGroup>)
    requires
        all_wf(groups_view(v@), rows),
    ensures
        groups_view(r@) == sorted(groups_view(v@)),
        ordered(groups_view(r@)),
        all_wf(groups_view(r@), rows),
{
    let ghost v0 = groups_view(v@);
    let mut v = v;
    let mut r: Vec<TryGroup> = Vec::new();
    assert(groups_view(r@) =~= Seq::empty());
    while v.len() > 0
        invariant
            sorted_onto(groups_view(r@), groups_view(v@)) == sorted(v0),
            ordered(groups_view(r@)),
            all_wf(groups_view(v@), rows),
            all_wf(groups_view(r@), rows),
        decreases v.len(),
    {
        let ghost w = groups_view(v@);
        let ghost u = groups_view(r@);
        let g = v.remove(0);
        assert(groups_view(v@) =~= w.skip(1));
        assert(w[0] == g@);
        let mut p: usize = r.len();
        while p > 0 && (g.start < r[p - 1].start || (g.start == r[p - 1].start && g.end > r[p - 1].end))
            invariant
                p <= r@.len(),
                u == groups_view(r@),
                forall|k: int| p <= k < u.len() ==> g@.before(#[trigger] u[k]),
            decreases p,
        {
            assert(g@.before(u[p - 1]));
            p -= 1;
        }
        proof {
            lemma_placed_insert(u, g@, p as int);
            lemma_placed(u, g@);
            assert forall|k: int| 0 <= k < placed(u, g@).len() implies (#[trigger] placed(u, g@)[k]).wf(rows) by {
                let x = placed(u, g@)[k];
                assert(placed(u, g@).contains(x));
                if x != g@ {
                    let i = choose|i: int| 0 <= i < u.len() && u[i] == x;
                    assert(u[i].wf(rows));
                } else {
                    assert(w[0].wf(rows));
                }
            }
            assert forall|k: int| 0 <= k < w.skip(1).len() implies (#[trigger] w.skip(1)[k]).wf(rows) by {
                assert(w[k + 1].wf(rows));
            }
        }
        let ghost gv = g@;
        r.insert(p, g);
        assert(groups_view(r@) =~= u.insert(p as int, gv));
    }
    assert(groups_view(v@) =~= Seq::empty());
    r
}

// ---------------------------------------------------------------------------
// Merging
// ---------------------------------------------------------------------------

/// The blocks that start in `[lo, hi)` and hold code are terminators without
/// close scaffolding that end by `hi`.
pub open spec fn gap_pure(cfg: Cfg, results: Option<Seq<BlockResult>>, lo: u32, hi: u32) -> bool {
    forall|k: int|
        0 <= k < cfg.n() && lo <= (#[trigger] cfg.blocks@[k]).start < hi && cfg.blocks@[k].ins_len != 0 ==> {
            &&& cfg.blocks@[k].succ@.len() == 0
            &&& (results matches Some(rs) ==> !suppressed::suppresses(rs[cfg.blocks@[k].id as int].stmts@))
            &&& cfg.blocks@[k].end <= hi
        }
}

/// No handler of a row lies in `(a.end, b.start]` but those of `a`.
pub open spec fn seam_clear(cfg: Cfg, a: GroupView, b: GroupView) -> bool {
    forall|k: int|
        0 <= k < cfg.exc_ranges@.len() && a.end < (#[trigger] cfg.exc_ranges@[k]).handler <= b.start
            ==> a.handles_at(cfg.exc_ranges@[k].handler)
}

/// `a`, which does not start after `b`, and `b` are spans of one try: they
/// have the same handlers, only the inline copies of a handler's code lie
/// between them, and `b` is not the protection of a handler of `a`.
pub open spec fn mergeable(cfg: Cfg, results: Option<Seq<BlockResult>>, a: GroupView, b: GroupView) -> bool {
    &&& a.handlers.to_set() == b.handlers.to_set()
    &&& b.start > a.end + 4 ==> seam_clear(cfg, a, b) && gap_pure(cfg, results, a.end, b.start)
    &&& !a.handles_at(b.start)
}

/// The earlier and the later of two positions by group start.
pub open spec fn by_start(gs: Seq<GroupView>, i: int, j: int) -> (int, int) {
    if gs[i].start <= gs[j].start {
        (i, j)
    } else {
        (j, i)
    }
}

pub open spec fn can_merge(cfg: Cfg, results: Option<Seq<BlockResult>>, gs: Seq<GroupView>, i: int, j: int) -> bool {
    let (a, b) = by_start(gs, i, j);
    0 <= i < j < gs.len() && mergeable(cfg, results, gs[a], gs[b])
}

/// Position pairs in lexicographic order.
pub open spec fn lex(i: int, j: int, k: int, l: int) -> bool {
    i < k || (i == k && j < l)
}

pub open spec fn first_merge(cfg: Cfg, results: Option<Seq<BlockResult>>, gs: Seq<GroupView>, i: int, j: int) -> bool {
    &&& can_merge(cfg, results, gs, i, j)
    &&& forall|k: int, l: int| lex(k, l, i, j) ==> !#[trigger] can_merge(cfg, results, gs, k, l)
}

pub open spec fn merged(a: GroupView, b: GroupView) -> GroupView {
    GroupView {
        start: a.start,
        end: if a.end < b.end {
            b.end
        } else {
            a.end
        },
        handlers: a.handlers,
        ranges: a.ranges + b.ranges,
    }
}

pub open spec fn merge_at(gs: Seq<GroupView>, i: int, j: int) -> Seq<GroupView> {
    let (a, b) = by_start(gs, i, j);
    gs.update(a, merged(gs[a], gs[b])).remove(b)
}

/// The first mergeable pair merged, again and again until none is left.
pub open spec fn merge_all(cfg: Cfg, results: Option<Seq<BlockResult>>, gs: Seq<GroupView>) -> Seq<GroupView>
    decreases gs.len(),
{
    if exists|i: int, j: int| first_merge(cfg, results, gs, i, j) {
        let (i, j) = choose|i: int, j: int| first_merge(cfg, results, gs, i, j);
        merge_all(cfg, results, merge_at(gs, i, j))
    } else {
        gs
    }
}

// ---------------------------------------------------------------------------
// Handler-protection nesting
// ---------------------------------------------------------------------------

/// A row within `[x.start, y.end]` whose handler neither group has.
pub open spec fn foreign(r: ExcRange, x: GroupView, y: GroupView) -> bool {
    !x.handles_at(r.handler) && !y.handles_at(r.handler) && r.start >= x.start && r.end <= y.end
}

/// `y` protects handler code of `x` by a part of `x`'s own handlers, all of
/// them typed: the handlers of `y` are those of an outer try.
pub open spec fn nestable(cfg: Cfg, x: GroupView, y: GroupView) -> bool {
    &&& x.handles_at(y.start)
    &&& x.end <= y.start <= x.end + 8
    &&& y.end > x.end
    &&& y.handlers.len() > 0
    &&& forall|k: int| 0 <= k < y.handlers.len() ==> x.handlers.contains(#[trigger] y.handlers[k])
    &&& forall|k: int| 0 <= k < y.handlers.len() ==> (#[trigger] y.handlers[k]).1 is Some
    &&& exists|k: int| 0 <= k < x.handlers.len() && !y.handlers.contains(#[trigger] x.handlers[k])
    &&& forall|k: int| 0 <= k < cfg.exc_ranges@.len() ==> !foreign(#[trigger] cfg.exc_ranges@[k], x, y)
}

pub open spec fn can_nest(cfg: Cfg, gs: Seq<GroupView>, i: int, j: int) -> bool {
    0 <= i < gs.len() && 0 <= j < gs.len() && i != j && nestable(cfg, gs[i], gs[j])
}

pub open spec fn first_nest(cfg: Cfg, gs: Seq<GroupView>, i: int, j: int) -> bool {
    &&& can_nest(cfg, gs, i, j)
    &&& forall|k: int, l: int| lex(k, l, i, j) ==> !#[trigger] can_nest(cfg, gs, k, l)
}

/// The row's handler is one of `y`'s.
pub open spec fn row_of(cfg: Cfg, y: GroupView) -> spec_fn(usize) -> bool {
    |ri: usize| y.handlers.contains(row_handler(cfg.exc_ranges@[ri as int]))
}

pub open spec fn outer_of(cfg: Cfg, x: GroupView, y: GroupView) -> GroupView {
    GroupView {
        start: x.start,
        end: y.end,
        handlers: y.handlers,
        ranges: y.ranges + x.ranges.filter(row_of(cfg, y)),
    }
}

pub open spec fn inner_of(cfg: Cfg, x: GroupView, y: GroupView) -> GroupView {
    GroupView {
        start: x.start,
        end: x.end,
        handlers: x.handlers.filter(|h: (u32, Option<Seq<char>>)| !y.handlers.contains(h)),
        ranges: x.ranges.filter(|ri: usize| !row_of(cfg, y)(ri)),
    }
}

pub open spec fn nest_at(cfg: Cfg, gs: Seq<GroupView>, i: int, j: int) -> Seq<GroupView> {
    let lo = if i < j { i } else { j };
    let hi = if i < j { j } else { i };
    gs.remove(hi).remove(lo).push(outer_of(cfg, gs[i], gs[j])).push(inner_of(cfg, gs[i], gs[j]))
}

/// Number of handlers over all groups.
pub open spec fn total(gs: Seq<GroupView>) -> nat
    decreases gs.len(),
{
    if gs.len() == 0 {
        0
    } else {
        total(gs.drop_last()) + gs.last().handlers.len()
    }
}

/// The first nestable pair rebuilt as outer and inner try, again and again
/// until none is left.
pub open spec fn nest_all(cfg: Cfg, gs: Seq<GroupView>) -> Seq<GroupView>
    decreases total(gs),
{
    if exists|i: int, j: int| first_nest(cfg, gs, i, j) {
        let (i, j) = choose|i: int, j: int| first_nest(cfg, gs, i, j);
        proof {
            lemma_nest_smaller(cfg, gs, i, j);
        }
        nest_all(cfg, nest_at(cfg, gs, i, j))
    } else {
        gs
    }
}

proof fn lemma_total_remove(gs: Seq<GroupView>, i: int)
    requires
        0 <= i < gs.len(),
    ensures
        total(gs.remove(i)) + gs[i].handlers.len() == total(gs),
    decreases gs.len(),
{
    if i == gs.len() - 1 {
        assert(gs.remove(i) =~= gs.drop_last());
    } else {
        lemma_total_remove(gs.drop_last(), i);
        assert(gs.remove(i).drop_last() =~= gs.drop_last().remove(i));
    }
}

proof fn lemma_filter_shrinks<A>(s: Seq<A>, f: spec_fn(A) -> bool)
    ensures
        s.filter(f).len() <= s.len(),
        (exists|k: int| 0 <= k < s.len() && !f(#[trigger] s[k])) ==> s.filter(f).len() < s.len(),
        (exists|k: int| 0 <= k < s.len() && f(#[trigger] s[k])) ==> s.filter(f).len() > 0,
    decreases s.len(),
{
    reveal(Seq::filter);
    if s.len() > 0 {
        let u = s.drop_last();
        lemma_filter_shrinks(u, f);
        if exists|k: int| 0 <= k < s.len() && !f(#[trigger] s[k]) {
            let k = choose|k: int| 0 <= k < s.len() && !f(#[trigger] s[k]);
            if k < u.len() {
                assert(!f(u[k]));
            }
        }
        if exists|k: int| 0 <= k < s.len() && f(#[trigger] s[k]) {
            let k = choose|k: int| 0 <= k < s.len() && f(#[trigger] s[k]);
            if k < u.len() {
                assert(f(u[k]));
            }
        }
    }
}

pub proof fn lemma_nest_smaller(cfg: Cfg, gs: Seq<GroupView>, i: int, j: int)
    requires
        can_nest(cfg, gs, i, j),
    ensures
        total(nest_at(cfg, gs, i, j)) < total(gs),
{
    let lo = if i < j { i } else { j };
    let hi = if i < j { j } else { i };
    let x = gs[i];
    let y = gs[j];
    lemma_total_remove(gs, hi);
    assert(gs.remove(hi)[lo] == gs[lo]);
    lemma_total_remove(gs.remove(hi), lo);
    let r = gs.remove(hi).remove(lo);
    let a = r.push(outer_of(cfg, x, y));
    let b = a.push(inner_of(cfg, x, y));
    assert(b.drop_last() =~= a);
    assert(a.drop_last() =~= r);
    assert(total(b) == total(a) + inner_of(cfg, x, y).handlers.len());
    assert(total(a) == total(r) + outer_of(cfg, x, y).handlers.len());
    let f = |h: (u32, Option<Seq<char>>)| !y.handlers.contains(h);
    assert(x.handlers.contains(y.handlers[0]));
    let k = choose|k: int| 0 <= k < x.handlers.len() && x.handlers[k] == y.handlers[0];
    assert(y.handlers.contains(y.handlers[0]));
    assert(!f(x.handlers[k]));
    lemma_filter_shrinks(x.handlers, f);
}

/// The try groups of a method: rows of one span, spans of one try, and
/// protected handler code, in group order.
pub open spec fn groups_of(cfg: Cfg, results: Option<Seq<BlockResult>>) -> Seq<GroupView> {
    sorted(
        nest_all(
            cfg,
            merge_all(cfg, results, sorted(by_span(cfg.exc_ranges@, cfg.exc_ranges@.len()))),
        ),
    )
}

// ---------------------------------------------------------------------------
// No row is lost
// ---------------------------------------------------------------------------

/// The group spans the row, lists it, and catches with its handler.
pub open spec fn holds_row(g: GroupView, rows: Seq<ExcRange>, r: usize) -> bool {
    &&& g.start <= rows[r as int].start
    &&& rows[r as int].end <= g.end
    &&& g.ranges.contains(r)
    &&& g.handlers.contains(row_handler(rows[r as int]))
}

pub open spec fn row_kept(gs: Seq<GroupView>, rows: Seq<ExcRange>, r: usize) -> bool {
    exists|k: int| 0 <= k < gs.len() && holds_row(#[trigger] gs[k], rows, r)
}

/// No span ends before it starts.
pub open spec fn spans_ok(gs: Seq<GroupView>) -> bool {
    forall|k: int| 0 <= k < gs.len() ==> (#[trigger] gs[k]).start <= gs[k].end
}

proof fn lemma_span_found(gs: Seq<GroupView>, start: u32, end: u32)
    ensures
        span_index(gs, start, end) < gs.len() ==> gs[span_index(gs, start, end) as int].start == start
            && gs[span_index(gs, start, end) as int].end == end,
    decreases gs.len(),
{
    if gs.len() > 0 && !(gs[0].start == start && gs[0].end == end) {
        lemma_span_found(gs.skip(1), start, end);
    }
}

proof fn lemma_by_span_keeps(rows: Seq<ExcRange>, k: nat, r: usize)
    requires
        k <= rows.len() <= usize::MAX,
        forall|i: int| 0 <= i < rows.len() ==> (#[trigger] rows[i]).start <= rows[i].end,
    ensures
        spans_ok(by_span(rows, k)),
        r < k ==> row_kept(by_span(rows, k), rows, r),
    decreases k,
{
    if k > 0 {
        lemma_by_span_keeps(rows, (k - 1) as nat, r);
        let gs = by_span(rows, (k - 1) as nat);
        let row = rows[k - 1];
        let i = span_index(gs, row.start, row.end) as int;
        let out = by_span(rows, k);
        lemma_span_found(gs, row.start, row.end);
        let p = if i < gs.len() {
            i
        } else {
            gs.len() as int
        };
        let g = out[p];
        assert(g.ranges[g.ranges.len() - 1] == (k - 1) as usize);
        assert(g.handlers[g.handlers.len() - 1] == row_handler(row));
        if r < k - 1 {
            let q = choose|q: int| 0 <= q < gs.len() && holds_row(#[trigger] gs[q], rows, r);
            if q == i {
                let a = choose|a: int| 0 <= a < gs[q].ranges.len() && gs[q].ranges[a] == r;
                let b = choose|b: int| 0 <= b < gs[q].handlers.len() && gs[q].handlers[b] == row_handler(rows[r as int]);
                assert(out[q].ranges[a] == r);
                assert(out[q].handlers[b] == row_handler(rows[r as int]));
            }
            assert(holds_row(out[q], rows, r));
        } else if r == k - 1 {
            assert(holds_row(out[p], rows, r));
        }
    }
}

proof fn lemma_placed_members(s: Seq<GroupView>, g: GroupView)
    ensures
        forall|x: GroupView| #[trigger] placed(s, g).contains(x) <==> s.contains(x) || x == g,
    decreases s.len(),
{
    let out = placed(s, g);
    if s.len() == 0 || !g.before(s.last()) {
        assert forall|x: GroupView| #[trigger] out.contains(x) <==> s.contains(x) || x == g by {
            if s.contains(x) {
                let k = choose|k: int| 0 <= k < s.len() && s[k] == x;
                assert(out[k] == x);
            }
            assert(out[s.len() as int] == g);
        }
    } else {
        let d = s.drop_last();
        lemma_placed_members(d, g);
        let u = placed(d, g);
        assert forall|x: GroupView| #[trigger] out.contains(x) <==> s.contains(x) || x == g by {
            if out.contains(x) {
                let k = choose|k: int| 0 <= k < out.len() && out[k] == x;
                if k < u.len() {
                    assert(u[k] == x);
                    assert(u.contains(x));
                    if d.contains(x) {
                        let i = choose|i: int| 0 <= i < d.len() && d[i] == x;
                        assert(s[i] == x);
                    }
                } else {
                    assert(s[s.len() - 1] == x);
                }
            }
            if s.contains(x) {
                let k = choose|k: int| 0 <= k < s.len() && s[k] == x;
                if k < s.len() - 1 {
                    assert(d[k] == x);
                    assert(d.contains(x) && u.contains(x));
                    let i = choose|i: int| 0 <= i < u.len() && u[i] == x;
                    assert(out[i] == x);
                } else {
                    assert(out[u.len() as int] == x);
                }
            }
            if x == g {
                assert(u.contains(g));
                let i = choose|i: int| 0 <= i < u.len() && u[i] == x;
                assert(out[i] == x);
            }
        }
    }
}

proof fn lemma_sorted_members(acc: Seq<GroupView>, s: Seq<GroupView>)
    ensures
        forall|x: GroupView| #[trigger] sorted_onto(acc, s).contains(x) <==> acc.contains(x) || s.contains(x),
    decreases s.len(),
{
    if s.len() > 0 {
        let t = s.skip(1);
        lemma_placed_members(acc, s[0]);
        lemma_sorted_members(placed(acc, s[0]), t);
        let out = sorted_onto(placed(acc, s[0]), t);
        assert(sorted_onto(acc, s) == out);
        assert forall|x: GroupView| #[trigger] sorted_onto(acc, s).contains(x) <==> acc.contains(x) || s.contains(x) by {
            assert(out.contains(x) <==> placed(acc, s[0]).contains(x) || t.contains(x));
            if s.contains(x) {
                let k = choose|k: int| 0 <= k < s.len() && s[k] == x;
                if k > 0 {
                    assert(t[k - 1] == x);
                }
            }
            if t.contains(x) {
                let k = choose|k: int| 0 <= k < t.len() && t[k] == x;
                assert(s[k + 1] == x);
            }
        }
    }
}

proof fn lemma_sorted_keeps(s: Seq<GroupView>, rows: Seq<ExcRange>, r: usize)
    requires
        spans_ok(s),
        row_kept(s, rows, r),
    ensures
        spans_ok(sorted(s)),
        row_kept(sorted(s), rows, r),
{
    lemma_sorted_members(Seq::empty(), s);
    let out = sorted(s);
    let k = choose|k: int| 0 <= k < s.len() && holds_row(#[trigger] s[k], rows, r);
    assert(s.contains(s[k]));
    assert(out.contains(s[k]));
    let p = choose|p: int| 0 <= p < out.len() && out[p] == s[k];
    assert(holds_row(out[p], rows, r));
    assert forall|i: int| 0 <= i < out.len() implies (#[trigger] out[i]).start <= out[i].end by {
        assert(out.contains(out[i]));
        assert(s.contains(out[i]));
    }
}

proof fn lemma_merge_keeps(cfg: Cfg, results: Option<Seq<BlockResult>>, gs: Seq<GroupView>, i: int, j: int, r: usize)
    requires
        can_merge(cfg, results, gs, i, j),
        spans_ok(gs),
        row_kept(gs, cfg.exc_ranges@, r),
    ensures
        spans_ok(merge_at(gs, i, j)),
        row_kept(merge_at(gs, i, j), cfg.exc_ranges@, r),
{
    let rows = cfg.exc_ranges@;
    let (a, b) = by_start(gs, i, j);
    let m = merged(gs[a], gs[b]);
    let out = merge_at(gs, i, j);
    let at = |p: int|
        if p < b {
            p
        } else {
            p - 1
        };
    assert(out[at(a)] == m);
    let k = choose|k: int| 0 <= k < gs.len() && holds_row(#[trigger] gs[k], rows, r);
    if k == a || k == b {
        let h = row_handler(rows[r as int]);
        assert(gs[a].handlers.contains(h)) by {
            assert(gs[a].handlers.to_set().contains(h) == gs[b].handlers.to_set().contains(h));
        }
        assert(m.ranges.contains(r)) by {
            let c = choose|c: int| 0 <= c < gs[k].ranges.len() && gs[k].ranges[c] == r;
            if k == a {
                assert(m.ranges[c] == r);
            } else {
                assert(m.ranges[gs[a].ranges.len() + c] == r);
            }
        }
        assert(holds_row(out[at(a)], rows, r));
    } else {
        assert(out[at(k)] == gs[k]);
        assert(holds_row(out[at(k)], rows, r));
    }
}

proof fn lemma_merge_all_keeps(cfg: Cfg, results: Option<Seq<BlockResult>>, gs: Seq<GroupView>, r: usize)
    requires
        spans_ok(gs),
        row_kept(gs, cfg.exc_ranges@, r),
    ensures
        spans_ok(merge_all(cfg, results, gs)),
        row_kept(merge_all(cfg, results, gs), cfg.exc_ranges@, r),
    decreases gs.len(),
{
    if exists|i: int, j: int| first_merge(cfg, results, gs, i, j) {
        let (i, j) = choose|i: int, j: int| first_merge(cfg, results, gs, i, j);
        lemma_merge_keeps(cfg, results, gs, i, j, r);
        lemma_merge_all_keeps(cfg, results, merge_at(gs, i, j), r);
    }
}

proof fn lemma_nest_keeps(cfg: Cfg, gs: Seq<GroupView>, i: int, j: int, r: usize)
    requires
        can_nest(cfg, gs, i, j),
        spans_ok(gs),
        row_kept(gs, cfg.exc_ranges@, r),
    ensures
        spans_ok(nest_at(cfg, gs, i, j)),
        row_kept(nest_at(cfg, gs, i, j), cfg.exc_ranges@, r),
{
    let rows = cfg.exc_ranges@;
    let x = gs[i];
    let y = gs[j];
    let lo = if i < j {
        i
    } else {
        j
    };
    let hi = if i < j {
        j
    } else {
        i
    };
    let rest = gs.remove(hi).remove(lo);
    let outer = outer_of(cfg, x, y);
    let inner = inner_of(cfg, x, y);
    let out = nest_at(cfg, gs, i, j);
    assert(out[rest.len() as int] == outer);
    assert(out[rest.len() as int + 1] == inner);
    assert(x.start <= x.end && y.start <= y.end);
    let k = choose|k: int| 0 <= k < gs.len() && holds_row(#[trigger] gs[k], rows, r);
    let h = row_handler(rows[r as int]);
    if k == j {
        assert(outer.ranges.contains(r)) by {
            let c = choose|c: int| 0 <= c < y.ranges.len() && y.ranges[c] == r;
            assert(outer.ranges[c] == r);
        }
        assert(holds_row(out[rest.len() as int], rows, r));
    } else if k == i && y.handlers.contains(h) {
        let f = row_of(cfg, y);
        postdom::lemma_filter_members(x.ranges, f);
        assert(x.ranges.filter(f).contains(r));
        assert(outer.ranges.contains(r)) by {
            let v = x.ranges.filter(f);
            let c = choose|c: int| 0 <= c < v.len() && v[c] == r;
            assert(outer.ranges[y.ranges.len() + c] == r);
        }
        assert(holds_row(out[rest.len() as int], rows, r));
    } else if k == i {
        let f = |ri: usize| !row_of(cfg, y)(ri);
        let g = |t: (u32, Option<Seq<char>>)| !y.handlers.contains(t);
        postdom::lemma_filter_members(x.ranges, f);
        postdom::lemma_filter_members(x.handlers, g);
        assert(inner.ranges.contains(r));
        assert(inner.handlers.contains(h));
        assert(holds_row(out[rest.len() as int + 1], rows, r));
    } else {
        let p = if k < lo {
            k
        } else if k < hi {
            k - 1
        } else {
            k - 2
        };
        assert(out[p] == gs[k]);
        assert(holds_row(out[p], rows, r));
    }
    assert forall|p: int| 0 <= p < out.len() implies (#[trigger] out[p]).start <= out[p].end by {
        if p < rest.len() {
            let q = if p < lo {
                p
            } else if p + 1 < hi {
                p + 1
            } else {
                p + 2
            };
            assert(out[p] == gs[q]);
        }
    }
}

proof fn lemma_nest_all_keeps(cfg: Cfg, gs: Seq<GroupView>, r: usize)
    requires
        spans_ok(gs),
        row_kept(gs, cfg.exc_ranges@, r),
    ensures
        spans_ok(nest_all(cfg, gs)),
        row_kept(nest_all(cfg, gs), cfg.exc_ranges@, r),
    decreases total(gs),
{
    if exists|i: int, j: int| first_nest(cfg, gs, i, j) {
        let (i, j) = choose|i: int, j: int| first_nest(cfg, gs, i, j);
        lemma_nest_smaller(cfg, gs, i, j);
        lemma_nest_keeps(cfg, gs, i, j, r);
        lemma_nest_all_keeps(cfg, nest_at(cfg, gs, i, j), r);
    }
}

/// Grouping loses no exception row: for each there is a try group that spans
/// it, lists it, and catches with its handler.
pub proof fn law_rows_kept(cfg: Cfg, results: Option<Seq<BlockResult>>, r: usize)
    requires
        r < cfg.exc_ranges@.len(),
        forall|i: int| 0 <= i < cfg.exc_ranges@.len() ==> (#[trigger] cfg.exc_ranges@[i]).start <= cfg.exc_ranges@[i].end,
    ensures
        row_kept(groups_of(cfg, results), cfg.exc_ranges@, r),
{
    let rows = cfg.exc_ranges@;
    assert(rows.len() == cfg.exc_ranges.len());
    let spans = by_span(rows, rows.len());
    lemma_by_span_keeps(rows, rows.len(), r);
    lemma_sorted_keeps(spans, rows, r);
    lemma_merge_all_keeps(cfg, results, sorted(spans), r);
    let merged_gs = merge_all(cfg, results, sorted(spans));
    lemma_nest_all_keeps(cfg, merged_gs, r);
    lemma_sorted_keeps(nest_all(cfg, merged_gs), rows, r);
}

// ---------------------------------------------------------------------------
// Which rows are one try
// ---------------------------------------------------------------------------

/// Every code block that starts in `[lo, hi)` ends the method, ends by `hi`,
/// and closes no resource.
pub open spec fn only_ends_between(cfg: Cfg, results: Option<Seq<BlockResult>>, lo: u32, hi: u32) -> bool {
    forall|k: int|
        0 <= k < cfg.n() && lo <= (#[trigger] cfg.blocks@[k]).start < hi && cfg.blocks@[k].ins_len > 0 ==> {
            &&& cfg.blocks@[k].succ@.len() == 0
            &&& cfg.blocks@[k].end <= hi
            &&& (results matches Some(rs) ==> !suppressed::suppresses(rs[cfg.blocks@[k].id as int].stmts@))
        }
}

/// Any row whose handler lies behind `a` and up to the start of `b` has a
/// handler of `a`.
pub open spec fn no_foreign_between(cfg: Cfg, a: GroupView, b: GroupView) -> bool {
    forall|k: int|
        0 <= k < cfg.exc_ranges@.len() && a.end < (#[trigger] cfg.exc_ranges@[k]).handler <= b.start ==> exists|m: int|
            0 <= m < a.handlers.len() && (#[trigger] a.handlers[m]).0 == cfg.exc_ranges@[k].handler
}

/// `a` and `b`, `a` first, are parts of one try: they catch alike, `b` does
/// not protect a handler of `a`, and they adjoin or only ends of the method
/// lie between them.
pub open spec fn one_try(cfg: Cfg, results: Option<Seq<BlockResult>>, a: GroupView, b: GroupView) -> bool {
    &&& a.start <= b.start
    &&& forall|h: (u32, Option<Seq<char>>)| #[trigger] a.handlers.contains(h) <==> b.handlers.contains(h)
    &&& forall|m: int| 0 <= m < a.handlers.len() ==> (#[trigger] a.handlers[m]).0 != b.start
    &&& b.start <= a.end + 4 || (only_ends_between(cfg, results, a.end, b.start) && no_foreign_between(cfg, a, b))
}

/// The group covers no code that goes on but that of its rows: a block with a
/// successor that starts in the span starts in one of its rows, or within
/// four units behind it.
pub open spec fn covers_rows_only(cfg: Cfg, g: GroupView) -> bool {
    forall|k: int|
        0 <= k < cfg.n() && g.start <= (#[trigger] cfg.blocks@[k]).start < g.end && cfg.blocks@[k].ins_len > 0
            && cfg.blocks@[k].succ@.len() > 0 ==> exists|m: int| near_row(cfg, g, m, cfg.blocks@[k].start)
}

pub open spec fn near_row(cfg: Cfg, g: GroupView, m: int, pc: u32) -> bool {
    0 <= m < g.ranges.len() && cfg.exc_ranges@[g.ranges[m] as int].start <= pc < cfg.exc_ranges@[g.ranges[m] as int].end + 4
}

/// The group starts with a row, ends with a row, and each of its handlers is
/// that of one of its rows.
pub open spec fn made_of_rows(cfg: Cfg, g: GroupView) -> bool {
    &&& g.start <= g.end
    &&& exists|m: int| 0 <= m < g.ranges.len() && cfg.exc_ranges@[#[trigger] g.ranges[m] as int].start == g.start
    &&& exists|m: int| 0 <= m < g.ranges.len() && cfg.exc_ranges@[#[trigger] g.ranges[m] as int].end == g.end
    &&& forall|m: int| 0 <= m < g.ranges.len() ==> (#[trigger] g.ranges[m]) < cfg.exc_ranges@.len()
    &&& 0 < g.handlers.len() <= g.ranges.len()
    &&& forall|m: int| 0 <= m < g.handlers.len() ==> #[trigger] g.handlers[m] == row_handler(cfg.exc_ranges@[g.ranges[m] as int])
}

/// No row protects a handler.
pub open spec fn handlers_bare(cfg: Cfg) -> bool {
    forall|i: int, j: int|
        0 <= i < cfg.exc_ranges@.len() && 0 <= j < cfg.exc_ranges@.len() ==> (#[trigger] cfg.exc_ranges@[i]).start != (
        #[trigger] cfg.exc_ranges@[j]).handler
}

/// Parts of one try never stand apart, and a group spans nothing that goes on
/// but its rows. Its span and its handlers are those of its rows. This holds
/// of every method in which no row protects a handler.
pub proof fn law_one_try_one_group(cfg: Cfg, results: Option<Seq<BlockResult>>, a: GroupView, b: GroupView)
    requires
        handlers_bare(cfg),
        forall|i: int| 0 <= i < cfg.exc_ranges@.len() ==> (#[trigger] cfg.exc_ranges@[i]).start <= cfg.exc_ranges@[i].end,
        groups_of(cfg, results).contains(a),
    ensures
        groups_of(cfg, results).contains(b) && a != b ==> !one_try(cfg, results, a, b),
        covers_rows_only(cfg, a),
        made_of_rows(cfg, a),
{
    let rows = cfg.exc_ranges@;
    assert(rows.len() == cfg.exc_ranges.len());
    let spans = by_span(rows, rows.len());
    let gs = sorted(spans);
    lemma_by_span_made(cfg, rows.len());
    lemma_sorted_members(Seq::empty(), spans);
    assert forall|i: int| 0 <= i < gs.len() implies made_of_rows(cfg, #[trigger] gs[i]) && covers_rows_only(cfg, gs[i]) by {
        assert(gs.contains(gs[i]));
        let j = choose|j: int| 0 <= j < spans.len() && spans[j] == gs[i];
        assert(made_of_rows(cfg, spans[j]));
    }
    lemma_merge_all_made(cfg, results, gs);
    let ms = merge_all(cfg, results, gs);
    lemma_bare_unnested(cfg, ms);
    assert(nest_all(cfg, ms) == ms);
    lemma_sorted_members(Seq::empty(), ms);
    assert(ms.contains(a));
    let i = choose|i: int| 0 <= i < ms.len() && ms[i] == a;
    assert(made_of_rows(cfg, ms[i]));
    if groups_of(cfg, results).contains(b) && a != b && one_try(cfg, results, a, b) {
        assert(ms.contains(b));
        let j = choose|j: int| 0 <= j < ms.len() && ms[j] == b;
        lemma_one_try_merges(cfg, results, a, b);
        if i < j {
            if ms[i].start <= ms[j].start {
                assert(can_merge(cfg, results, ms, i, j));
            }
            assert(!can_merge(cfg, results, ms, i, j));
        } else {
            if b.start == a.start {
                lemma_one_try_turned(cfg, results, a, b);
            }
            assert(can_merge(cfg, results, ms, j, i));
            assert(!can_merge(cfg, results, ms, j, i));
        }
    }
}

/// Merging stops only where no two groups are parts of one try, whatever the
/// groups were.
pub proof fn law_merged_apart(cfg: Cfg, results: Option<Seq<BlockResult>>, gs: Seq<GroupView>, i: int, j: int)
    requires
        0 <= i < merge_all(cfg, results, gs).len(),
        0 <= j < merge_all(cfg, results, gs).len(),
        i < j || merge_all(cfg, results, gs)[i].start < merge_all(cfg, results, gs)[j].start,
        i != j,
    ensures
        !one_try(cfg, results, merge_all(cfg, results, gs)[i], merge_all(cfg, results, gs)[j]),
{
    let ms = merge_all(cfg, results, gs);
    lemma_merge_ends(cfg, results, gs);
    if one_try(cfg, results, ms[i], ms[j]) {
        lemma_one_try_merges(cfg, results, ms[i], ms[j]);
        if i < j {
            assert(can_merge(cfg, results, ms, i, j));
        } else {
            assert(can_merge(cfg, results, ms, j, i));
        }
    }
}

proof fn lemma_one_try_merges(cfg: Cfg, results: Option<Seq<BlockResult>>, a: GroupView, b: GroupView)
    requires
        one_try(cfg, results, a, b),
    ensures
        mergeable(cfg, results, a, b),
{
    assert(a.handlers.to_set() =~= b.handlers.to_set()) by {
        assert forall|h: (u32, Option<Seq<char>>)| a.handlers.to_set().contains(h) == b.handlers.to_set().contains(h) by {
            assert(a.handlers.contains(h) <==> b.handlers.contains(h));
        }
    }
    if b.start > a.end + 4 {
        assert(gap_pure(cfg, results, a.end, b.start));
        assert forall|k: int|
            0 <= k < cfg.exc_ranges@.len() && a.end < (#[trigger] cfg.exc_ranges@[k]).handler <= b.start implies a.handles_at(
            cfg.exc_ranges@[k].handler,
        ) by {
            let m = choose|m: int| 0 <= m < a.handlers.len() && (#[trigger] a.handlers[m]).0 == cfg.exc_ranges@[k].handler;
            assert(a.handlers[m].0 == cfg.exc_ranges@[k].handler);
        }
    }
}

proof fn lemma_one_try_turned(cfg: Cfg, results: Option<Seq<BlockResult>>, a: GroupView, b: GroupView)
    requires
        one_try(cfg, results, a, b),
        a.start == b.start,
        b.start <= b.end,
    ensures
        mergeable(cfg, results, b, a),
{
    lemma_one_try_merges(cfg, results, a, b);
    assert forall|m: int| 0 <= m < b.handlers.len() implies (#[trigger] b.handlers[m]).0 != a.start by {
        let h = b.handlers[m];
        assert(b.handlers.contains(h));
        assert(a.handlers.contains(h));
        let k = choose|k: int| 0 <= k < a.handlers.len() && a.handlers[k] == h;
        assert(a.handlers[k].0 != b.start);
    }
}

proof fn lemma_least_merge(cfg: Cfg, results: Option<Seq<BlockResult>>, gs: Seq<GroupView>, i: int, j: int)
    requires
        can_merge(cfg, results, gs, i, j),
    ensures
        exists|k: int, l: int| first_merge(cfg, results, gs, k, l),
    decreases i, j,
{
    if exists|k: int, l: int| lex(k, l, i, j) && #[trigger] can_merge(cfg, results, gs, k, l) {
        let (k, l) = choose|k: int, l: int| lex(k, l, i, j) && #[trigger] can_merge(cfg, results, gs, k, l);
        lemma_least_merge(cfg, results, gs, k, l);
    } else {
        assert(first_merge(cfg, results, gs, i, j));
    }
}

proof fn lemma_merge_ends(cfg: Cfg, results: Option<Seq<BlockResult>>, gs: Seq<GroupView>)
    ensures
        forall|i: int, j: int| !#[trigger] can_merge(cfg, results, merge_all(cfg, results, gs), i, j),
    decreases gs.len(),
{
    if exists|i: int, j: int| first_merge(cfg, results, gs, i, j) {
        let (i, j) = choose|i: int, j: int| first_merge(cfg, results, gs, i, j);
        lemma_merge_ends(cfg, results, merge_at(gs, i, j));
        assert(merge_all(cfg, results, gs) == merge_all(cfg, results, merge_at(gs, i, j)));
    } else {
        assert(merge_all(cfg, results, gs) == gs);
        assert forall|i: int, j: int| !#[trigger] can_merge(cfg, results, gs, i, j) by {
            if can_merge(cfg, results, gs, i, j) {
                lemma_least_merge(cfg, results, gs, i, j);
            }
        }
    }
}

proof fn lemma_merged_made(cfg: Cfg, results: Option<Seq<BlockResult>>, a: GroupView, b: GroupView)
    requires
        mergeable(cfg, results, a, b),
        a.start <= b.start,
        made_of_rows(cfg, a),
        made_of_rows(cfg, b),
        covers_rows_only(cfg, a),
        covers_rows_only(cfg, b),
        forall|i: int| 0 <= i < cfg.exc_ranges@.len() ==> (#[trigger] cfg.exc_ranges@[i]).start <= cfg.exc_ranges@[i].end,
    ensures
        made_of_rows(cfg, merged(a, b)),
        covers_rows_only(cfg, merged(a, b)),
{
    let g = merged(a, b);
    let rows = cfg.exc_ranges@;
    let sa = choose|m: int| 0 <= m < a.ranges.len() && rows[#[trigger] a.ranges[m] as int].start == a.start;
    let ea = choose|m: int| 0 <= m < a.ranges.len() && rows[#[trigger] a.ranges[m] as int].end == a.end;
    let eb = choose|m: int| 0 <= m < b.ranges.len() && rows[#[trigger] b.ranges[m] as int].end == b.end;
    assert(g.ranges[sa] == a.ranges[sa]);
    assert(g.ranges[ea] == a.ranges[ea]);
    assert(g.ranges[a.ranges.len() + eb] == b.ranges[eb]);
    assert forall|m: int| 0 <= m < g.ranges.len() implies (#[trigger] g.ranges[m]) < rows.len() by {
        if m < a.ranges.len() {
            assert(a.ranges[m] < rows.len());
        } else {
            assert(b.ranges[m - a.ranges.len()] < rows.len());
        }
    }
    assert forall|m: int| 0 <= m < g.handlers.len() implies #[trigger] g.handlers[m] == row_handler(rows[g.ranges[m] as int]) by {
        assert(a.handlers[m] == row_handler(rows[a.ranges[m] as int]));
    }
    assert forall|k: int|
        0 <= k < cfg.n() && g.start <= (#[trigger] cfg.blocks@[k]).start < g.end && cfg.blocks@[k].ins_len > 0
            && cfg.blocks@[k].succ@.len() > 0 implies exists|m: int| near_row(cfg, g, m, cfg.blocks@[k].start) by {
        let pc = cfg.blocks@[k].start;
        if pc < a.end {
            let m = choose|m: int| near_row(cfg, a, m, pc);
            assert(near_row(cfg, g, m, pc));
        } else if b.start <= pc && pc < b.end {
            let m = choose|m: int| near_row(cfg, b, m, pc);
            assert(near_row(cfg, g, a.ranges.len() + m, pc));
        } else {
            assert(a.end <= pc < b.start);
            if b.start > a.end + 4 {
                assert(gap_pure(cfg, results, a.end, b.start));
                assert(false);
            }
            assert(a.ranges[ea] < rows.len());
            assert(rows[a.ranges[ea] as int].start <= rows[a.ranges[ea] as int].end);
            assert(near_row(cfg, g, ea, pc));
        }
    }
}

proof fn lemma_merge_all_made(cfg: Cfg, results: Option<Seq<BlockResult>>, gs: Seq<GroupView>)
    requires
        forall|i: int| 0 <= i < cfg.exc_ranges@.len() ==> (#[trigger] cfg.exc_ranges@[i]).start <= cfg.exc_ranges@[i].end,
        forall|i: int| 0 <= i < gs.len() ==> made_of_rows(cfg, #[trigger] gs[i]) && covers_rows_only(cfg, gs[i]),
    ensures
        ({
            let ms = merge_all(cfg, results, gs);
            &&& forall|i: int| 0 <= i < ms.len() ==> made_of_rows(cfg, #[trigger] ms[i]) && covers_rows_only(cfg, ms[i])
            &&& forall|i: int, j: int| !#[trigger] can_merge(cfg, results, ms, i, j)
        }),
    decreases gs.len(),
{
    lemma_merge_ends(cfg, results, gs);
    if exists|i: int, j: int| first_merge(cfg, results, gs, i, j) {
        let (i, j) = choose|i: int, j: int| first_merge(cfg, results, gs, i, j);
        let (a, b) = by_start(gs, i, j);
        lemma_merged_made(cfg, results, gs[a], gs[b]);
        let next = merge_at(gs, i, j);
        assert forall|k: int| 0 <= k < next.len() implies made_of_rows(cfg, #[trigger] next[k]) && covers_rows_only(cfg, next[k]) by {
            let o = if k < b {
                k
            } else {
                k + 1
            };
            if o != a {
                assert(next[k] == gs[o]);
            } else {
                assert(next[k] == merged(gs[a], gs[b]));
            }
        }
        lemma_merge_all_made(cfg, results, next);
        assert(merge_all(cfg, results, gs) == merge_all(cfg, results, next));
    } else {
        assert(merge_all(cfg, results, gs) == gs);
    }
}

proof fn lemma_by_span_made(cfg: Cfg, k: nat)
    requires
        k <= cfg.exc_ranges@.len() <= usize::MAX,
        forall|i: int| 0 <= i < cfg.exc_ranges@.len() ==> (#[trigger] cfg.exc_ranges@[i]).start <= cfg.exc_ranges@[i].end,
    ensures
        forall|i: int|
            0 <= i < by_span(cfg.exc_ranges@, k).len() ==> made_of_rows(cfg, #[trigger] by_span(cfg.exc_ranges@, k)[i])
                && covers_rows_only(cfg, by_span(cfg.exc_ranges@, k)[i]),
    decreases k,
{
    let rows = cfg.exc_ranges@;
    let out = by_span(rows, k);
    if k > 0 {
        let gs = by_span(rows, (k - 1) as nat);
        lemma_by_span_made(cfg, (k - 1) as nat);
        let r = rows[k - 1];
        lemma_span_found(gs, r.start, r.end);
        let p = span_index(gs, r.start, r.end) as int;
        let ri = (k - 1) as usize;
        assert forall|i: int| 0 <= i < out.len() implies made_of_rows(cfg, #[trigger] out[i]) && covers_rows_only(cfg, out[i]) by {
            let g = out[i];
            if p < gs.len() && i == p {
                let n = gs[p].ranges.len() as int;
                assert(made_of_rows(cfg, gs[p]));
                assert(g.ranges[n] == ri);
                assert(rows[g.ranges[n] as int].start == g.start && rows[g.ranges[n] as int].end == g.end);
                lemma_span_aligned(rows, (k - 1) as nat, p);
                assert forall|m: int| 0 <= m < g.handlers.len() implies #[trigger] g.handlers[m] == row_handler(
                    rows[g.ranges[m] as int],
                ) by {
                    if m < gs[p].handlers.len() {
                        assert(gs[p].handlers[m] == row_handler(rows[gs[p].ranges[m] as int]));
                    }
                }
                assert forall|m: int| 0 <= m < g.ranges.len() implies (#[trigger] g.ranges[m]) < rows.len() by {
                    if m < n {
                        assert(gs[p].ranges[m] < rows.len());
                    }
                }
                assert forall|b: int|
                    0 <= b < cfg.n() && g.start <= (#[trigger] cfg.blocks@[b]).start < g.end && cfg.blocks@[b].ins_len > 0
                        && cfg.blocks@[b].succ@.len() > 0 implies exists|m: int| near_row(cfg, g, m, cfg.blocks@[b].start) by {
                    assert(near_row(cfg, g, n, cfg.blocks@[b].start));
                }
            } else if i == gs.len() {
                assert(g.ranges[0] == ri);
                assert forall|b: int|
                    0 <= b < cfg.n() && g.start <= (#[trigger] cfg.blocks@[b]).start < g.end && cfg.blocks@[b].ins_len > 0
                        && cfg.blocks@[b].succ@.len() > 0 implies exists|m: int| near_row(cfg, g, m, cfg.blocks@[b].start) by {
                    assert(near_row(cfg, g, 0, cfg.blocks@[b].start));
                }
            } else {
                assert(g == gs[i]);
            }
        }
    }
}

proof fn lemma_span_aligned(rows: Seq<ExcRange>, k: nat, p: int)
    requires
        0 <= p < by_span(rows, k).len(),
    ensures
        by_span(rows, k)[p].handlers.len() == by_span(rows, k)[p].ranges.len(),
    decreases k,
{
    if k > 0 {
        let gs = by_span(rows, (k - 1) as nat);
        if p < gs.len() {
            lemma_span_aligned(rows, (k - 1) as nat, p);
        }
    }
}

proof fn lemma_bare_unnested(cfg: Cfg, gs: Seq<GroupView>)
    requires
        handlers_bare(cfg),
        forall|i: int| 0 <= i < gs.len() ==> made_of_rows(cfg, #[trigger] gs[i]),
    ensures
        forall|i: int, j: int| !#[trigger] can_nest(cfg, gs, i, j),
        nest_all(cfg, gs) == gs,
{
    let rows = cfg.exc_ranges@;
    assert forall|i: int, j: int| !#[trigger] can_nest(cfg, gs, i, j) by {
        if can_nest(cfg, gs, i, j) {
            let x = gs[i];
            let y = gs[j];
            let k = choose|k: int| 0 <= k < x.handlers.len() && (#[trigger] x.handlers[k]).0 == y.start;
            let m = choose|m: int| 0 <= m < y.ranges.len() && rows[#[trigger] y.ranges[m] as int].start == y.start;
            assert(made_of_rows(cfg, x) && made_of_rows(cfg, y));
            assert(x.handlers[k] == row_handler(rows[x.ranges[k] as int]));
            assert(x.ranges[k] < rows.len() && y.ranges[m] < rows.len());
            assert(rows[y.ranges[m] as int].start != rows[x.ranges[k] as int].handler);
        }
    }
}

/// Groups come in order of their starts; of those that start together, the
/// widest comes first.
pub proof fn law_group_order(cfg: Cfg, results: Option<Seq<BlockResult>>, i: int, j: int)
    requires
        0 <= i < j < groups_of(cfg, results).len(),
    ensures
        groups_of(cfg, results)[i].start <= groups_of(cfg, results)[j].start,
        groups_of(cfg, results)[i].start == groups_of(cfg, results)[j].start ==> groups_of(cfg, results)[i].end >= groups_of(
            cfg,
            results,
        )[j].end,
{
    let ms = nest_all(cfg, merge_all(cfg, results, sorted(by_span(cfg.exc_ranges@, cfg.exc_ranges@.len()))));
    lemma_sorted_ordered(Seq::empty(), ms);
    assert(!groups_of(cfg, results)[j].before(groups_of(cfg, results)[i]));
}

proof fn lemma_sorted_ordered(acc: Seq<GroupView>, s: Seq<GroupView>)
    requires
        ordered(acc),
    ensures
        ordered(sorted_onto(acc, s)),
    decreases s.len(),
{
    if s.len() > 0 {
        lemma_placed(acc, s[0]);
        lemma_sorted_ordered(placed(acc, s[0]), s.skip(1));
    }
}

pub open spec fn all_wf(gs: Seq<GroupView>, rows: nat) -> bool {
    forall|i: int| 0 <= i < gs.len() ==> (#[trigger] gs[i]).wf(rows)
}

pub open spec fn results_view(results: Option<&Vec<BlockResult>>) -> Option<Seq<BlockResult>> {
    match results {
        Some(rs) => Some(rs@),
        None => None,
    }
}

fn has_pc(g: &TryGroup, pc: u32) -> (r: bool)
    ensures
        r == g@.handles_at(pc),
{
    let mut i: usize = 0;
    while i < g.handlers.len()
        invariant
            i <= g.handlers@.len(),
            forall|k: int| 0 <= k < i ==> (#[trigger] g.handlers@[k]).0 != pc,
        decreases g.handlers@.len() - i,
    {
        if g.handlers[i].0 == pc {
            assert(g@.handlers[i as int].0 == pc);
            return true;
        }
        i += 1;
    }
    assert forall|k: int| 0 <= k < g@.handlers.len() implies (#[trigger] g@.handlers[k]).0 != pc by {
        assert(g.handlers@[k].0 != pc);
    }
    false
}

fn has_handler(v: &Vec<(u32, Option<String>)>, pc: u32, ty: &Option<String>) -> (r: bool)
    ensures
        r == handlers_view(v@).contains((pc, text::opt_text(*ty))),
{
    let mut i: usize = 0;
    while i < v.len()
        invariant
            i <= v@.len(),
            forall|k: int| 0 <= k < i ==> handlers_view(v@)[k] != (pc, text::opt_text(*ty)),
        decreases v@.len() - i,
    {
        if v[i].0 == pc && text::same_opt(&v[i].1, ty) {
            assert(handlers_view(v@)[i as int] == (pc, text::opt_text(*ty)));
            return true;
        }
        i += 1;
    }
    false
}

fn covers(a: &Vec<(u32, Option<String>)>, b: &Vec<(u32, Option<String>)>) -> (r: bool)
    ensures
        r == (forall|k: int|
            0 <= k < handlers_view(b@).len() ==> handlers_view(a@).contains(#[trigger] handlers_view(b@)[k])),
{
    let mut i: usize = 0;
    while i < b.len()
        invariant
            i <= b@.len(),
            forall|k: int| 0 <= k < i ==> handlers_view(a@).contains(#[trigger] handlers_view(b@)[k]),
        decreases b@.len() - i,
    {
        if !has_handler(a, b[i].0, &b[i].1) {
            assert(!handlers_view(a@).contains(handlers_view(b@)[i as int]));
            return false;
        }
        i += 1;
    }
    true
}

fn same_handlers(a: &TryGroup, b: &TryGroup) -> (r: bool)
    ensures
        r == (a@.handlers.to_set() == b@.handlers.to_set()),
{
    let p = covers(&a.handlers, &b.handlers);
    let q = covers(&b.handlers, &a.handlers);
    proof {
        let x = a@.handlers;
        let y = b@.handlers;
        if p && q {
            assert forall|h: (u32, Option<Seq<char>>)| x.to_set().contains(h) == y.to_set().contains(h) by {
                if x.contains(h) {
                    let k = choose|k: int| 0 <= k < x.len() && x[k] == h;
                    assert(y.contains(x[k]));
                }
                if y.contains(h) {
                    let k = choose|k: int| 0 <= k < y.len() && y[k] == h;
                    assert(x.contains(y[k]));
                }
            }
            assert(x.to_set() =~= y.to_set());
        }
        if x.to_set() == y.to_set() {
            assert forall|k: int| 0 <= k < y.len() implies x.contains(#[trigger] y[k]) by {
                assert(y.to_set().contains(y[k]));
                assert(x.to_set().contains(y[k]));
            }
            assert forall|k: int| 0 <= k < x.len() implies y.contains(#[trigger] x[k]) by {
                assert(x.to_set().contains(x[k]));
                assert(y.to_set().contains(x[k]));
            }
        }
    }
    p && q
}

fn seam_is_clear(cfg: &Cfg, a: &TryGroup, b: &TryGroup) -> (r: bool)
    ensures
        r == seam_clear(*cfg, a@, b@),
{
    let mut k: usize = 0;
    while k < cfg.exc_ranges.len()
        invariant
            k <= cfg.exc_ranges@.len(),
            forall|l: int|
                0 <= l < k && a@.end < (#[trigger] cfg.exc_ranges@[l]).handler <= b@.start ==> a@.handles_at(
                    cfg.exc_ranges@[l].handler,
                ),
        decreases cfg.exc_ranges@.len() - k,
    {
        let h = cfg.exc_ranges[k].handler;
        if a.end < h && h <= b.start && !has_pc(a, h) {
            return false;
        }
        k += 1;
    }
    true
}

fn gap_is_pure(cfg: &Cfg, results: Option<&Vec<BlockResult>>, lo: u32, hi: u32) -> (r: bool)
    requires
        cfg.wf(),
        results matches Some(rs) ==> rs@.len() >= cfg.n(),
    ensures
        r == gap_pure(*cfg, results_view(results), lo, hi),
{
    let mut k: usize = 0;
    while k < cfg.blocks.len()
        invariant
            cfg.wf(),
            results matches Some(rs) ==> rs@.len() >= cfg.n(),
            k <= cfg.n(),
            forall|l: int|
                0 <= l < k && lo <= (#[trigger] cfg.blocks@[l]).start < hi && cfg.blocks@[l].ins_len != 0 ==> {
                    &&& cfg.blocks@[l].succ@.len() == 0
                    &&& (results_view(results) matches Some(rs) ==> !suppressed::suppresses(
                        rs[cfg.blocks@[l].id as int].stmts@,
                    ))
                    &&& cfg.blocks@[l].end <= hi
                },
        decreases cfg.n() - k,
    {
        let b = &cfg.blocks[k];
        if lo <= b.start && b.start < hi && b.ins_len != 0 {
            if b.succ.len() != 0 || b.end > hi {
                return false;
            }
            if let Some(rs) = results {
                assert(cfg.blocks@[k as int].id == k);
                if suppressed::stmts_mention_addsuppressed(&rs[b.id].stmts) {
                    return false;
                }
            }
        }
        k += 1;
    }
    true
}

fn is_mergeable(cfg: &Cfg, results: Option<&Vec<BlockResult>>, a: &TryGroup, b: &TryGroup) -> (r: bool)
    requires
        cfg.wf(),
        results matches Some(rs) ==> rs@.len() >= cfg.n(),
    ensures
        r == mergeable(*cfg, results_view(results), a@, b@),
{
    if !same_handlers(a, b) {
        return false;
    }
    if b.start > a.end && b.start - a.end > 4 {
        if !seam_is_clear(cfg, a, b) || !gap_is_pure(cfg, results, a.end, b.start) {
            return false;
        }
    }
    !has_pc(a, b.start)
}

fn find_merge(cfg: &Cfg, results: Option<&Vec<BlockResult>>, gs: &Vec<TryGroup>) -> (r: Option<(usize, usize)>)
    requires
        cfg.wf(),
        results matches Some(rs) ==> rs@.len() >= cfg.n(),
    ensures
        match r {
            Some(p) => first_merge(*cfg, results_view(results), groups_view(gs@), p.0 as int, p.1 as int),
            None => forall|i: int, j: int| !#[trigger] can_merge(*cfg, results_view(results), groups_view(gs@), i, j),
        },
{
    let ghost v = groups_view(gs@);
    let ghost rs = results_view(results);
    let mut i: usize = 0;
    while i < gs.len()
        invariant
            cfg.wf(),
            results matches Some(rs) ==> rs@.len() >= cfg.n(),
            v == groups_view(gs@),
            rs == results_view(results),
            i <= gs@.len(),
            forall|k: int, l: int| k < i ==> !#[trigger] can_merge(*cfg, rs, v, k, l),
        decreases gs@.len() - i,
    {
        let mut j: usize = i + 1;
        while j < gs.len()
            invariant
                cfg.wf(),
                results matches Some(rs) ==> rs@.len() >= cfg.n(),
                v == groups_view(gs@),
                rs == results_view(results),
                i < j <= gs@.len(),
                forall|k: int, l: int| lex(k, l, i as int, j as int) ==> !#[trigger] can_merge(*cfg, rs, v, k, l),
            decreases gs@.len() - j,
        {
            let ok = if gs[i].start <= gs[j].start {
                is_mergeable(cfg, results, &gs[i], &gs[j])
            } else {
                is_mergeable(cfg, results, &gs[j], &gs[i])
            };
            if ok {
                assert(can_merge(*cfg, rs, v, i as int, j as int));
                return Some((i, j));
            }
            assert(!can_merge(*cfg, rs, v, i as int, j as int));
            j += 1;
        }
        i += 1;
    }
    None
}

fn copy_handlers(v: &Vec<(u32, Option<String>)>) -> (r: Vec<(u32, Option<String>)>)
    ensures
        handlers_view(r@) == handlers_view(v@),
{
    let mut r: Vec<(u32, Option<String>)> = Vec::new();
    let mut i: usize = 0;
    while i < v.len()
        invariant
            i <= v@.len(),
            r@.len() == i,
            forall|k: int| 0 <= k < i ==> handlers_view(r@)[k] == handlers_view(v@)[k],
        decreases v@.len() - i,
    {
        let ghost r0 = r@;
        r.push((v[i].0, text::copy_opt(&v[i].1)));
        assert forall|k: int| 0 <= k < i + 1 implies handlers_view(r@)[k] == handlers_view(v@)[k] by {
            if k < i {
                assert(handlers_view(r0)[k] == handlers_view(v@)[k]);
                assert(r@[k] == r0[k]);
            }
        }
        i += 1;
    }
    assert(handlers_view(r@) =~= handlers_view(v@));
    r
}

impl TryGroup {
    /// A group that says the same.
    pub fn copy(&self) -> (r: TryGroup)
        ensures
            r@ == self@,
    {
        TryGroup {
            start: self.start,
            end: self.end,
            handlers: copy_handlers(&self.handlers),
            ranges: copy_list(&self.ranges),
        }
    }
}

impl Clone for TryGroup {
    fn clone(&self) -> (r: Self)
        ensures
            r@ == self@,
    {
        self.copy()
    }
}

proof fn lemma_first_merge_unique(cfg: Cfg, rs: Option<Seq<BlockResult>>, gs: Seq<GroupView>, i: int, j: int)
    requires
        first_merge(cfg, rs, gs, i, j),
    ensures
        merge_all(cfg, rs, gs) == merge_all(cfg, rs, merge_at(gs, i, j)),
{
    let (k, l) = choose|k: int, l: int| first_merge(cfg, rs, gs, k, l);
    if lex(i, j, k, l) {
        assert(!can_merge(cfg, rs, gs, i, j));
    }
    if lex(k, l, i, j) {
        assert(!can_merge(cfg, rs, gs, k, l));
    }
}

proof fn lemma_first_nest_unique(cfg: Cfg, gs: Seq<GroupView>, i: int, j: int)
    requires
        first_nest(cfg, gs, i, j),
    ensures
        nest_all(cfg, gs) == nest_all(cfg, nest_at(cfg, gs, i, j)),
{
    let (k, l) = choose|k: int, l: int| first_nest(cfg, gs, k, l);
    if lex(i, j, k, l) {
        assert(!can_nest(cfg, gs, i, j));
    }
    if lex(k, l, i, j) {
        assert(!can_nest(cfg, gs, k, l));
    }
}

#[verifier::rlimit(50)]
#[verifier::spinoff_prover]
fn merge_groups(cfg: &Cfg, results: Option<&Vec<BlockResult>>, groups: Vec<TryGroup>) -> (r: Vec<TryGroup>)
    requires
        cfg.wf(),
        results matches Some(rs) ==> rs@.len() >= cfg.n(),
        all_wf(groups_view(groups@), cfg.exc_ranges@.len()),
    ensures
        groups_view(r@) == merge_all(*cfg, results_view(results), groups_view(groups@)),
        all_wf(groups_view(r@), cfg.exc_ranges@.len()),
{
    let ghost g0 = groups_view(groups@);
    let ghost rs = results_view(results);
    let ghost rows = cfg.exc_ranges@.len();
    let mut gs = groups;
    loop
        invariant
            g0 == groups_view(groups@),
            cfg.wf(),
            rs == results_view(results),
            rows == cfg.exc_ranges@.len(),
            results matches Some(rs) ==> rs@.len() >= cfg.n(),
            all_wf(groups_view(gs@), rows),
            merge_all(*cfg, rs, groups_view(gs@)) == merge_all(*cfg, rs, g0),
        decreases gs@.len(),
    {
        let ghost v = groups_view(gs@);
        match find_merge(cfg, results, &gs) {
            None => {
                assert(merge_all(*cfg, rs, v) == v);
                return gs;
            },
            Some((i, j)) => {
                proof {
                    lemma_first_merge_unique(*cfg, rs, v, i as int, j as int);
                }
                let (a, b) = if gs[i].start <= gs[j].start {
                    (i, j)
                } else {
                    (j, i)
                };
                let y = gs.remove(b);
                let at: usize = if a < b {
                    a
                } else {
                    a - 1
                };
                let x = gs.remove(at);
                let ghost xv = x@;
                let ghost yv = y@;
                assert(xv == v[a as int] && yv == v[b as int]);
                let mut ranges = x.ranges;
                let mut k: usize = 0;
                let ghost xr = xv.ranges;
                while k < y.ranges.len()
                    invariant
                        k <= y.ranges@.len(),
                        ranges@ == xr + y.ranges@.take(k as int),
                    decreases y.ranges@.len() - k,
                {
                    ranges.push(y.ranges[k]);
                    assert(xr + y.ranges@.take(k + 1) =~= (xr + y.ranges@.take(k as int)).push(y.ranges@[k as int]));
                    k += 1;
                }
                assert(y.ranges@.take(k as int) =~= y.ranges@);
                let end: u32 = if x.end < y.end {
                    y.end
                } else {
                    x.end
                };
                let m = TryGroup { start: x.start, end, handlers: x.handlers, ranges };
                let ghost mv = m@;
                assert(mv == merged(xv, yv));
                gs.insert(at, m);
                proof {
                    let w = v.update(a as int, mv).remove(b as int);
                    assert(groups_view(gs@) =~= w);
                    assert(mv.wf(rows)) by {
                        assert(v[a as int].wf(rows) && v[b as int].wf(rows));
                        assert forall|k: int| 0 <= k < mv.ranges.len() implies #[trigger] mv.ranges[k] < rows by {
                            if k < xv.ranges.len() {
                                assert(xv.ranges[k] < rows);
                            } else {
                                assert(yv.ranges[k - xv.ranges.len()] < rows);
                            }
                        }
                    }
                    assert forall|k: int| 0 <= k < w.len() implies (#[trigger] w[k]).wf(rows) by {
                        let o = if k < b { k } else { k + 1 };
                        if o != a {
                            assert(w[k] == v[o]);
                            assert(v[o].wf(rows));
                        }
                    }
                }
            },
        }
    }
}

fn is_nestable(cfg: &Cfg, x: &TryGroup, y: &TryGroup) -> (r: bool)
    ensures
        r == nestable(*cfg, x@, y@),
{
    if !has_pc(x, y.start) || y.start < x.end || y.start - x.end > 8 || y.end <= x.end
        || y.handlers.len() == 0 || !covers(&x.handlers, &y.handlers) {
        return false;
    }
    let mut k: usize = 0;
    while k < y.handlers.len()
        invariant
            k <= y.handlers@.len(),
            forall|l: int| 0 <= l < k ==> (#[trigger] y@.handlers[l]).1 is Some,
        decreases y.handlers@.len() - k,
    {
        if y.handlers[k].1.is_none() {
            assert(!(y@.handlers[k as int].1 is Some));
            return false;
        }
        k += 1;
    }
    if covers(&y.handlers, &x.handlers) {
        return false;
    }
    k = 0;
    while k < cfg.exc_ranges.len()
        invariant
            k <= cfg.exc_ranges@.len(),
            forall|l: int| 0 <= l < k ==> !foreign(#[trigger] cfg.exc_ranges@[l], x@, y@),
        decreases cfg.exc_ranges@.len() - k,
    {
        let r = &cfg.exc_ranges[k];
        if !has_pc(x, r.handler) && !has_pc(y, r.handler) && r.start >= x.start && r.end <= y.end {
            assert(foreign(cfg.exc_ranges@[k as int], x@, y@));
            return false;
        }
        k += 1;
    }
    true
}

fn find_nest(cfg: &Cfg, gs: &Vec<TryGroup>) -> (r: Option<(usize, usize)>)
    ensures
        match r {
            Some(p) => first_nest(*cfg, groups_view(gs@), p.0 as int, p.1 as int),
            None => forall|i: int, j: int| !#[trigger] can_nest(*cfg, groups_view(gs@), i, j),
        },
{
    let ghost v = groups_view(gs@);
    let mut i: usize = 0;
    while i < gs.len()
        invariant
            v == groups_view(gs@),
            i <= gs@.len(),
            forall|k: int, l: int| k < i ==> !#[trigger] can_nest(*cfg, v, k, l),
        decreases gs@.len() - i,
    {
        let mut j: usize = 0;
        while j < gs.len()
            invariant
                v == groups_view(gs@),
                i < gs@.len(),
                j <= gs@.len(),
                forall|k: int, l: int| lex(k, l, i as int, j as int) ==> !#[trigger] can_nest(*cfg, v, k, l),
            decreases gs@.len() - j,
        {
            if i != j && is_nestable(cfg, &gs[i], &gs[j]) {
                assert(can_nest(*cfg, v, i as int, j as int));
                return Some((i, j));
            }
            assert(!can_nest(*cfg, v, i as int, j as int));
            j += 1;
        }
        i += 1;
    }
    None
}

/// The rows of `rows` whose handler `y` has, and the others.
fn split_rows(cfg: &Cfg, rows: &Vec<usize>, y: &TryGroup) -> (r: (Vec<usize>, Vec<usize>))
    requires
        forall|k: int| 0 <= k < rows@.len() ==> #[trigger] rows@[k] < cfg.exc_ranges@.len(),
    ensures
        r.0@ == rows@.filter(row_of(*cfg, y@)),
        r.1@ == rows@.filter(|ri: usize| !row_of(*cfg, y@)(ri)),
        forall|k: int| 0 <= k < r.0@.len() ==> #[trigger] r.0@[k] < cfg.exc_ranges@.len(),
        forall|k: int| 0 <= k < r.1@.len() ==> #[trigger] r.1@[k] < cfg.exc_ranges@.len(),
{
    let ghost f = row_of(*cfg, y@);
    let ghost h = |ri: usize| !row_of(*cfg, y@)(ri);
    let mut p: Vec<usize> = Vec::new();
    let mut q: Vec<usize> = Vec::new();
    let mut k: usize = 0;
    proof {
        reveal(Seq::filter);
        assert(rows@.take(0) =~= Seq::empty());
    }
    while k < rows.len()
        invariant
            k <= rows@.len(),
            f == row_of(*cfg, y@),
            h == (|ri: usize| !row_of(*cfg, y@)(ri)),
            forall|k: int| 0 <= k < rows@.len() ==> #[trigger] rows@[k] < cfg.exc_ranges@.len(),
            p@ == rows@.take(k as int).filter(f),
            q@ == rows@.take(k as int).filter(h),
            forall|k: int| 0 <= k < p@.len() ==> #[trigger] p@[k] < cfg.exc_ranges@.len(),
            forall|k: int| 0 <= k < q@.len() ==> #[trigger] q@[k] < cfg.exc_ranges@.len(),
        decreases rows@.len() - k,
    {
        let ri = rows[k];
        assert(rows@.take(k + 1).drop_last() =~= rows@.take(k as int));
        assert(rows@.take(k + 1).last() == ri);
        proof {
            reveal(Seq::filter);
        }
        if has_handler(&y.handlers, cfg.exc_ranges[ri].handler, &cfg.exc_ranges[ri].catch_type) {
            assert(f(ri) && !h(ri));
            p.push(ri);
        } else {
            assert(!f(ri) && h(ri));
            q.push(ri);
        }
        k += 1;
    }
    assert(rows@.take(k as int) =~= rows@);
    (p, q)
}

/// The handlers of `x` that `y` lacks.
fn own_handlers(x: &TryGroup, y: &TryGroup) -> (r: Vec<(u32, Option<String>)>)
    ensures
        handlers_view(r@) == x@.handlers.filter(|h: (u32, Option<Seq<char>>)| !y@.handlers.contains(h)),
{
    let ghost f = |h: (u32, Option<Seq<char>>)| !y@.handlers.contains(h);
    let mut r: Vec<(u32, Option<String>)> = Vec::new();
    let mut k: usize = 0;
    proof {
        reveal(Seq::filter);
        assert(x@.handlers.take(0) =~= Seq::empty());
        assert(handlers_view(r@) =~= Seq::empty());
    }
    while k < x.handlers.len()
        invariant
            k <= x.handlers@.len(),
            f == (|h: (u32, Option<Seq<char>>)| !y@.handlers.contains(h)),
            handlers_view(r@) == x@.handlers.take(k as int).filter(f),
        decreases x.handlers@.len() - k,
    {
        let ghost t = x@.handlers.take(k + 1);
        let ghost r0 = r@;
        assert(t.drop_last() =~= x@.handlers.take(k as int));
        assert(t.last() == x@.handlers[k as int]);
        proof {
            reveal(Seq::filter);
        }
        if !has_handler(&y.handlers, x.handlers[k].0, &x.handlers[k].1) {
            r.push((x.handlers[k].0, text::copy_opt(&x.handlers[k].1)));
            assert(handlers_view(r@) =~= handlers_view(r0).push(t.last()));
        }
        k += 1;
    }
    assert(x@.handlers.take(k as int) =~= x@.handlers);
    r
}

fn nest_groups(cfg: &Cfg, groups: Vec<TryGroup>) -> (r: Vec<TryGroup>)
    requires
        all_wf(groups_view(groups@), cfg.exc_ranges@.len()),
    ensures
        groups_view(r@) == nest_all(*cfg, groups_view(groups@)),
        all_wf(groups_view(r@), cfg.exc_ranges@.len()),
{
    let ghost g0 = groups_view(groups@);
    let ghost rows = cfg.exc_ranges@.len();
    let mut gs = groups;
    loop
        invariant
            g0 == groups_view(groups@),
            rows == cfg.exc_ranges@.len(),
            all_wf(groups_view(gs@), rows),
            nest_all(*cfg, groups_view(gs@)) == nest_all(*cfg, g0),
        decreases total(groups_view(gs@)),
    {
        let ghost v = groups_view(gs@);
        match find_nest(cfg, &gs) {
            None => {
                assert(nest_all(*cfg, v) == v);
                return gs;
            },
            Some((i, j)) => {
                proof {
                    lemma_first_nest_unique(*cfg, v, i as int, j as int);
                    lemma_nest_smaller(*cfg, v, i as int, j as int);
                    assert(v[i as int].wf(rows) && v[j as int].wf(rows));
                }
                let x = &gs[i];
                let y = &gs[j];
                assert(x@ == v[i as int] && y@ == v[j as int]);
                let (mine, rest) = split_rows(cfg, &x.ranges, y);
                let ghost mine0 = mine@;
                let mut ranges = copy_list(&y.ranges);
                let mut mine = mine;
                let ghost yr = y@.ranges;
                ranges.append(&mut mine);
                assert(ranges@ =~= yr + mine0);
                let inner_handlers = own_handlers(x, y);
                let outer = TryGroup { start: x.start, end: y.end, handlers: copy_handlers(&y.handlers), ranges };
                let inner = TryGroup { start: x.start, end: x.end, handlers: inner_handlers, ranges: rest };
                let ghost ov = outer@;
                let ghost iv = inner@;
                assert(ov == outer_of(*cfg, v[i as int], v[j as int]));
                assert(iv == inner_of(*cfg, v[i as int], v[j as int]));
                let lo: usize = if i < j {
                    i
                } else {
                    j
                };
                let hi: usize = if i < j {
                    j
                } else {
                    i
                };
                gs.remove(hi);
                gs.remove(lo);
                gs.push(outer);
                gs.push(inner);
                proof {
                    let w = nest_at(*cfg, v, i as int, j as int);
                    assert(groups_view(gs@) =~= w);
                    assert(ov.wf(rows)) by {
                        assert forall|k: int| 0 <= k < ov.ranges.len() implies #[trigger] ov.ranges[k] < rows by {
                            if k < yr.len() {
                                assert(yr[k] < rows);
                            } else {
                                assert(mine0[k - yr.len()] < rows);
                            }
                        }
                    }
                    assert(iv.wf(rows)) by {
                        let f = |h: (u32, Option<Seq<char>>)| !v[j as int].handlers.contains(h);
                        let k = choose|k: int| 0 <= k < v[i as int].handlers.len() && !v[j as int].handlers.contains(#[trigger] v[i as int].handlers[k]);
                        assert(f(v[i as int].handlers[k]));
                        lemma_filter_shrinks(v[i as int].handlers, f);
                    }
                    assert forall|k: int| 0 <= k < w.len() implies (#[trigger] w[k]).wf(rows) by {
                        if k < lo {
                            assert(w[k] == v[k]);
                            assert(v[k].wf(rows));
                        } else if k < hi - 1 {
                            assert(w[k] == v[k + 1]);
                            assert(v[k + 1].wf(rows));
                        } else if k < w.len() - 2 {
                            assert(w[k] == v[k + 2]);
                            assert(v[k + 2].wf(rows));
                        }
                    }
                }
            },
        }
    }
}

proof fn lemma_span_index(gs: Seq<GroupView>, start: u32, end: u32, p: nat)
    requires
        p <= gs.len(),
        forall|k: int| 0 <= k < p ==> !((#[trigger] gs[k]).start == start && gs[k].end == end),
        p < gs.len() ==> gs[p as int].start == start && gs[p as int].end == end,
    ensures
        span_index(gs, start, end) == p,
    decreases gs.len(),
{
    if gs.len() > 0 && p > 0 {
        assert(!(gs[0].start == start && gs[0].end == end));
        assert forall|k: int| 0 <= k < p - 1 implies !((#[trigger] gs.skip(1)[k]).start == start && gs.skip(1)[k].end == end) by {
            assert(gs[k + 1] == gs.skip(1)[k]);
        }
        lemma_span_index(gs.skip(1), start, end, (p - 1) as nat);
    }
}

fn group_spans(cfg: &Cfg) -> (r: Vec<TryGroup>)
    ensures
        groups_view(r@) == by_span(cfg.exc_ranges@, cfg.exc_ranges@.len()),
        all_wf(groups_view(r@), cfg.exc_ranges@.len()),
{
    let ghost rows = cfg.exc_ranges@.len();
    let mut gs: Vec<TryGroup> = Vec::new();
    let mut ri: usize = 0;
    assert(groups_view(gs@) =~= Seq::empty());
    while ri < cfg.exc_ranges.len()
        invariant
            rows == cfg.exc_ranges@.len(),
            ri <= rows,
            groups_view(gs@) == by_span(cfg.exc_ranges@, ri as nat),
            all_wf(groups_view(gs@), rows),
        decreases rows - ri,
    {
        let ghost v = groups_view(gs@);
        let r = &cfg.exc_ranges[ri];
        let mut p: usize = 0;
        while p < gs.len() && !(gs[p].start == r.start && gs[p].end == r.end)
            invariant
                v == groups_view(gs@),
                p <= gs@.len(),
                forall|k: int| 0 <= k < p ==> !((#[trigger] v[k]).start == r.start && v[k].end == r.end),
            decreases gs@.len() - p,
        {
            p += 1;
        }
        proof {
            lemma_span_index(v, r.start, r.end, p as nat);
        }
        if p < gs.len() {
            let g = gs.remove(p);
            let ghost gv = g@;
            assert(gv == v[p as int]);
            let mut handlers = g.handlers;
            let mut ranges = g.ranges;
            let ghost h0 = handlers@;
            handlers.push((r.handler, text::copy_opt(&r.catch_type)));
            ranges.push(ri);
            assert(handlers_view(handlers@) =~= handlers_view(h0).push(row_handler(*r)));
            let m = TryGroup { start: g.start, end: g.end, handlers, ranges };
            let ghost mv = m@;
            gs.insert(p, m);
            proof {
                assert(groups_view(gs@) =~= v.update(p as int, mv));
                assert(v[p as int].wf(rows));
                assert(mv.wf(rows)) by {
                    assert forall|k: int| 0 <= k < mv.ranges.len() implies #[trigger] mv.ranges[k] < rows by {
                        if k < gv.ranges.len() {
                            assert(gv.ranges[k] < rows);
                        }
                    }
                }
            }
        } else {
            let mut handlers: Vec<(u32, Option<String>)> = Vec::new();
            handlers.push((r.handler, text::copy_opt(&r.catch_type)));
            let mut ranges: Vec<usize> = Vec::new();
            ranges.push(ri);
            let m = TryGroup { start: r.start, end: r.end, handlers, ranges };
            let ghost mv = m@;
            assert(mv.handlers =~= seq![row_handler(*r)]);
            assert(mv.ranges =~= seq![ri]);
            gs.push(m);
            assert(groups_view(gs@) =~= v.push(mv));
        }
        ri += 1;
    }
    gs
}

/// The try groups of `cfg`, not knowing any statements.
pub fn group_exceptions(cfg: &Cfg) -> (r: Vec<TryGroup>)
    requires
        cfg.wf(),
    ensures
        groups_view(r@) == groups_of(*cfg, None),
        ordered(groups_view(r@)),
        all_wf(groups_view(r@), cfg.exc_ranges@.len()),
{
    group_exceptions_with(cfg, None)
}

/// The try groups of `cfg`; with `results`, spans around close scaffolding
/// stay apart.
pub fn group_exceptions_with(cfg: &Cfg, results: Option<&Vec<BlockResult>>) -> (r: Vec<TryGroup>)
    requires
        cfg.wf(),
        results matches Some(rs) ==> rs@.len() >= cfg.n(),
    ensures
        groups_view(r@) == groups_of(*cfg, results_view(results)),
        ordered(groups_view(r@)),
        all_wf(groups_view(r@), cfg.exc_ranges@.len()),
{
    let ghost rows = cfg.exc_ranges@.len();
    let spans = sort_groups(group_spans(cfg), Ghost(rows));
    let merged = merge_groups(cfg, results, spans);
    let nested = nest_groups(cfg, merged);
    sort_groups(nested, Ghost(rows))
}

// ---------------------------------------------------------------------------
// Tries around tries
// ---------------------------------------------------------------------------

/// The span of `y` starts at a handler of `x`, close behind the span of `x`,
/// and catches by some of the typed handlers of `x` but not by all; each row
/// from the start of `x` to the end of `y` leads to a handler of `x`. So `x`
/// is two tries in one: the handlers of `y` belong to a try around both.
pub open spec fn two_in_one(cfg: Cfg, x: GroupView, y: GroupView) -> bool {
    &&& exists|h: (u32, Option<Seq<char>>)| #[trigger] x.handlers.contains(h) && h.0 == y.start
    &&& x.end <= y.start && y.start - x.end <= 8
    &&& x.end < y.end
    &&& exists|h: (u32, Option<Seq<char>>)| #[trigger] y.handlers.contains(h)
    &&& exists|h: (u32, Option<Seq<char>>)| #[trigger] x.handlers.contains(h) && !y.handlers.contains(h)
    &&& forall|h: (u32, Option<Seq<char>>)| #[trigger] y.handlers.contains(h) ==> x.handlers.contains(h) && h.1 is Some
    &&& forall|r: int|
        0 <= r < cfg.exc_ranges@.len() && x.start <= (#[trigger] cfg.exc_ranges@[r]).start && cfg.exc_ranges@[r].end <= y.end
            ==> x.handles_at(cfg.exc_ranges@[r].handler)
}

proof fn lemma_least_nest(cfg: Cfg, gs: Seq<GroupView>, i: int, j: int)
    requires
        can_nest(cfg, gs, i, j),
    ensures
        exists|k: int, l: int| first_nest(cfg, gs, k, l),
    decreases i, j,
{
    if exists|k: int, l: int| lex(k, l, i, j) && #[trigger] can_nest(cfg, gs, k, l) {
        let (k, l) = choose|k: int, l: int| lex(k, l, i, j) && #[trigger] can_nest(cfg, gs, k, l);
        lemma_least_nest(cfg, gs, k, l);
    } else {
        assert(first_nest(cfg, gs, i, j));
    }
}

proof fn lemma_nest_ends(cfg: Cfg, gs: Seq<GroupView>)
    ensures
        forall|i: int, j: int| !#[trigger] can_nest(cfg, nest_all(cfg, gs), i, j),
    decreases total(gs),
{
    if exists|i: int, j: int| first_nest(cfg, gs, i, j) {
        let (i, j) = choose|i: int, j: int| first_nest(cfg, gs, i, j);
        lemma_nest_smaller(cfg, gs, i, j);
        lemma_nest_ends(cfg, nest_at(cfg, gs, i, j));
        assert(nest_all(cfg, gs) == nest_all(cfg, nest_at(cfg, gs, i, j)));
    } else {
        assert(nest_all(cfg, gs) == gs);
        assert forall|i: int, j: int| !#[trigger] can_nest(cfg, gs, i, j) by {
            if can_nest(cfg, gs, i, j) {
                lemma_least_nest(cfg, gs, i, j);
            }
        }
    }
}

/// No group of a method is two tries in one.
pub proof fn law_tries_told_apart(cfg: Cfg, results: Option<Seq<BlockResult>>, x: GroupView, y: GroupView)
    requires
        groups_of(cfg, results).contains(x),
        groups_of(cfg, results).contains(y),
        x != y,
    ensures
        !two_in_one(cfg, x, y),
{
    let ms = merge_all(cfg, results, sorted(by_span(cfg.exc_ranges@, cfg.exc_ranges@.len())));
    let ns = nest_all(cfg, ms);
    lemma_nest_ends(cfg, ms);
    lemma_sorted_members(Seq::empty(), ns);
    assert(ns.contains(x) && ns.contains(y));
    let i = choose|i: int| 0 <= i < ns.len() && ns[i] == x;
    let j = choose|j: int| 0 <= j < ns.len() && ns[j] == y;
    if two_in_one(cfg, x, y) {
        let h = choose|h: (u32, Option<Seq<char>>)| #[trigger] x.handlers.contains(h) && h.0 == y.start;
        let k = choose|k: int| 0 <= k < x.handlers.len() && x.handlers[k] == h;
        assert(x.handlers[k].0 == y.start);
        let rest = choose|h: (u32, Option<Seq<char>>)| #[trigger] x.handlers.contains(h) && !y.handlers.contains(h);
        let l = choose|l: int| 0 <= l < x.handlers.len() && x.handlers[l] == rest;
        assert(!y.handlers.contains(x.handlers[l]));
        assert forall|k: int| 0 <= k < y.handlers.len() implies x.handlers.contains(#[trigger] y.handlers[k]) && y.handlers[k].1 is Some by {
            assert(y.handlers.contains(y.handlers[k]));
        }
        assert(nestable(cfg, x, y));
        assert(can_nest(cfg, ns, i, j));
    }
}

proof fn lemma_filter_is<A>(s: Seq<A>, f: spec_fn(A) -> bool, x: A)
    ensures
        s.filter(f).contains(x) <==> s.contains(x) && f(x),
    decreases s.len(),
{
    reveal(Seq::filter);
    if s.len() > 0 {
        let u = s.drop_last();
        lemma_filter_is(u, f, x);
        if u.contains(x) {
            let i = choose|i: int| 0 <= i < u.len() && u[i] == x;
            assert(s[i] == x);
        }
        if u.filter(f).contains(x) {
            let i = choose|i: int| 0 <= i < u.filter(f).len() && u.filter(f)[i] == x;
            assert(s.filter(f)[i] == x);
        }
        if s.contains(x) && !u.contains(x) {
            let i = choose|i: int| 0 <= i < s.len() && s[i] == x;
            assert(i == s.len() - 1) by {
                if i < s.len() - 1 {
                    assert(u[i] == x);
                }
            }
            if f(x) {
                assert(s.filter(f)[u.filter(f).len() as int] == x);
            }
        }
        if s.filter(f).contains(x) && !u.filter(f).contains(x) {
            let i = choose|i: int| 0 <= i < s.filter(f).len() && s.filter(f)[i] == x;
            if i < u.filter(f).len() {
                assert(u.filter(f)[i] == x);
            }
            assert(s[s.len() - 1] == x);
        }
    }
}

/// Two tries in one come apart into an outer try, which spans both and catches
/// by the shared handlers, and an inner one, which spans the first alone and
/// catches by the rest. Of the rows of the first, each goes where its handler
/// goes; the rows of the second stay with the outer.
pub proof fn law_taken_apart(cfg: Cfg, x: GroupView, y: GroupView, h: (u32, Option<Seq<char>>), r: usize)
    requires
        nestable(cfg, x, y),
    ensures
        ({
            let outer = outer_of(cfg, x, y);
            let inner = inner_of(cfg, x, y);
            let shared = y.handlers.contains(row_handler(cfg.exc_ranges@[r as int]));
            &&& outer.start == x.start == inner.start
            &&& inner.end == x.end < outer.end == y.end
            &&& x.handlers.contains(h) <==> outer.handlers.contains(h) || inner.handlers.contains(h)
            &&& !(outer.handlers.contains(h) && inner.handlers.contains(h))
            &&& outer.handlers.contains(h) ==> y.handlers.contains(h)
            &&& inner.handlers.len() > 0 && outer.handlers.len() > 0
            &&& x.ranges.contains(r) || y.ranges.contains(r) <==> outer.ranges.contains(r) || inner.ranges.contains(r)
            &&& x.ranges.contains(r) && shared ==> outer.ranges.contains(r) && !inner.ranges.contains(r)
            &&& x.ranges.contains(r) && !shared ==> inner.ranges.contains(r)
            &&& y.ranges.contains(r) ==> outer.ranges.contains(r)
        }),
{
    let outer = outer_of(cfg, x, y);
    let inner = inner_of(cfg, x, y);
    let mine = |h: (u32, Option<Seq<char>>)| !y.handlers.contains(h);
    let other = |ri: usize| !row_of(cfg, y)(ri);
    let moved = x.ranges.filter(row_of(cfg, y));
    lemma_filter_is(x.handlers, mine, h);
    lemma_filter_is(x.ranges, row_of(cfg, y), r);
    lemma_filter_is(x.ranges, other, r);
    lemma_filter_shrinks(x.handlers, mine);
    if y.handlers.contains(h) {
        let k = choose|k: int| 0 <= k < y.handlers.len() && y.handlers[k] == h;
        assert(x.handlers.contains(y.handlers[k]));
    }
    let k = choose|k: int| 0 <= k < x.handlers.len() && !y.handlers.contains(#[trigger] x.handlers[k]);
    assert(mine(x.handlers[k]));
    if y.ranges.contains(r) {
        let k = choose|k: int| 0 <= k < y.ranges.len() && y.ranges[k] == r;
        assert(outer.ranges[k] == r);
    }
    if moved.contains(r) {
        let k = choose|k: int| 0 <= k < moved.len() && moved[k] == r;
        assert(outer.ranges[y.ranges.len() + k] == r);
    }
    if outer.ranges.contains(r) {
        let k = choose|k: int| 0 <= k < outer.ranges.len() && outer.ranges[k] == r;
        if k < y.ranges.len() {
            assert(y.ranges[k] == r);
        } else {
            assert(moved[k - y.ranges.len()] == r);
        }
    }
}

} // verus!
