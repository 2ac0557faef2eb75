//! Variable table: what the front-end knows about a method's locals.
//!
//! The *data* is machine-neutral (a name and a type per variable); how it is
//! filled is not. A JVM front-end derives it from `LocalVariableTable`s; a DEX
//! front-end synthesizes it from register live ranges (release APKs usually
//! carry no local names at all).

use std::collections::HashSet;

use vstd::prelude::*;

use crate::ir::TypeRef;
use crate::sets;
use crate::text;
use crate::types::descriptor;
use crate::types::signature;
use crate::types::{parse_field_signature, ClassSig, ClassSigPart, GenericType, JavaType};

verus! {

broadcast use vstd::std_specs::hash::group_hash_axioms;

#[derive(Debug)]
pub struct VarInfo {
    pub id: u32,
    pub slot: u16,
    pub name: String,
    pub ty: TypeRef,
    pub is_param: bool,
    /// pc range where this variable is live (from LVT; method end when open).
    pub range_start: u16,
    pub range_end: u16,
    /// Set when the name was synthesized (no LVT entry).
    pub synthetic_name: bool,
}

#[derive(Debug)]
pub struct VarTable {
    pub vars: Vec<VarInfo>,
    /// Per slot: (range_start, range_end, var_id), sorted by range_start.
    pub by_slot: Vec<Vec<(u16, u16, u32)>>,
    pub has_lvt: bool,
    /// Synthetic stack-merge variables (need declaration hoisting).
    pub stack_vars: Vec<u32>,
    /// Merge variables whose branches disagreed on type (or carried a
    /// generic/plain-Object value); they must stay Object so every branch
    /// assignment type-checks. Evidence inference may not narrow them.
    pub wide_stack_vars: HashSet<u32>,
    /// Exception-table handler start pcs: an LVT range beginning at one
    /// (or at its astore + 1/2) is a catch parameter binding. Such
    /// ranges never receive forward store attribution: a store just
    /// BEFORE a handler initializes the try-body variable, not the
    /// catch param.
    pub handler_starts: Vec<u16>,
}

// ---------------------------------------------------------------------------
// Model
// ---------------------------------------------------------------------------

/// What a type reference says.
pub enum RefType {
    J(descriptor::JType),
    G(signature::GType),
}

impl TypeRef {
    pub open spec fn view(self) -> RefType {
        match self {
            TypeRef::J(t) => RefType::J(t@),
            TypeRef::G(g) => RefType::G(g.view()),
        }
    }

    /// The same reference again.
    pub fn copy(&self) -> (r: TypeRef)
        ensures
            r@ == self@,
    {
        match self {
            TypeRef::J(t) => TypeRef::J(t.copy()),
            TypeRef::G(g) => TypeRef::G(g.copy()),
        }
    }
}

/// What is known of a variable.
pub struct VarView {
    pub id: u32,
    pub slot: u16,
    pub name: Seq<char>,
    pub ty: RefType,
    pub is_param: bool,
    pub range_start: u16,
    pub range_end: u16,
    pub synthetic_name: bool,
}

impl VarInfo {
    pub open spec fn view(self) -> VarView {
        VarView {
            id: self.id,
            slot: self.slot,
            name: self.name@,
            ty: self.ty@,
            is_param: self.is_param,
            range_start: self.range_start,
            range_end: self.range_end,
            synthetic_name: self.synthetic_name,
        }
    }
}

/// The variables, and the ranges of each slot.
#[verifier::ext_equal]
pub struct TableView {
    pub vars: Seq<VarView>,
    pub by_slot: Seq<Seq<(u16, u16, u32)>>,
    pub has_lvt: bool,
    pub stack_vars: Seq<u32>,
    pub wide_stack_vars: Set<u32>,
    pub handler_starts: Seq<u16>,
}

pub open spec fn vars_view(v: Seq<VarInfo>) -> Seq<VarView> {
    Seq::new(v.len(), |i: int| v[i]@)
}

pub open spec fn slots_view(v: Seq<Vec<(u16, u16, u32)>>) -> Seq<Seq<(u16, u16, u32)>> {
    Seq::new(v.len(), |i: int| v[i]@)
}

impl VarTable {
    pub open spec fn view(self) -> TableView {
        TableView {
            vars: vars_view(self.vars@),
            by_slot: slots_view(self.by_slot@),
            has_lvt: self.has_lvt,
            stack_vars: self.stack_vars@,
            wide_stack_vars: self.wide_stack_vars@,
            handler_starts: self.handler_starts@,
        }
    }
}

/// `by` with slots up to `slot`, new ones without ranges.
pub open spec fn padded(by: Seq<Seq<(u16, u16, u32)>>, slot: u16) -> Seq<Seq<(u16, u16, u32)>> {
    if by.len() > slot {
        by
    } else {
        by + Seq::new((slot + 1 - by.len()) as nat, |i: int| Seq::<(u16, u16, u32)>::empty())
    }
}

/// A synthesized variable, open over the whole method.
pub open spec fn fresh(id: u32, slot: u16, name: Seq<char>, ty: RefType) -> VarView {
    VarView {
        id,
        slot,
        name,
        ty,
        is_param: false,
        range_start: 0,
        range_end: u16::MAX,
        synthetic_name: true,
    }
}

impl TableView {
    /// The id of the next variable.
    pub open spec fn next_id(self) -> u32 {
        self.vars.len() as u32
    }

    /// The table with a synthesized variable, found by slot too.
    pub open spec fn with_var(self, slot: u16, name: Seq<char>, ty: RefType) -> TableView {
        let by = padded(self.by_slot, slot);
        TableView {
            vars: self.vars.push(fresh(self.next_id(), slot, name, ty)),
            by_slot: by.update(slot as int, by[slot as int].push((0, u16::MAX, self.next_id()))),
            ..self
        }
    }

    /// The ranges of a slot.
    pub open spec fn on_slot(self, slot: u16) -> Seq<(u16, u16, u32)> {
        if slot < self.by_slot.len() {
            self.by_slot[slot as int]
        } else {
            Seq::empty()
        }
    }

    /// The range starts at a handler, or at its store one or two further on.
    pub open spec fn binds_catch(self, start: u16) -> bool {
        exists|k: int|
            0 <= k < self.handler_starts.len() && (start == #[trigger] self.handler_starts[k] || start
                == self.handler_starts[k] + 1 || start == self.handler_starts[k] + 2)
    }

    /// The range starts at most 8 behind `pc` and binds no catch parameter.
    pub open spec fn just_ahead(self, start: u16, pc: u16) -> bool {
        pc < start <= pc + 8 && !self.binds_catch(start)
    }

    /// The variable at `pc`: that of the first range that covers it, else of
    /// the first range just ahead, else of the last range that starts by then,
    /// else of the first range.
    pub open spec fn live_at(self, segs: Seq<(u16, u16, u32)>, pc: u16) -> Option<u32> {
        let a = first_seg(segs, |s: (u16, u16, u32)| s.0 <= pc < s.1, 0);
        let b = first_seg(segs, |s: (u16, u16, u32)| self.just_ahead(s.0, pc), 0);
        let c = last_seg(segs, |s: (u16, u16, u32)| s.0 <= pc, segs.len());
        if a < segs.len() {
            Some(segs[a as int].2)
        } else if b < segs.len() {
            Some(segs[b as int].2)
        } else if c > 0 {
            Some(segs[c - 1].2)
        } else if segs.len() > 0 {
            Some(segs[0].2)
        } else {
            None
        }
    }
}

/// Position of the first range from `k` on that passes `f`, the length when none does.
pub open spec fn first_seg(segs: Seq<(u16, u16, u32)>, f: spec_fn((u16, u16, u32)) -> bool, k: nat) -> nat
    decreases segs.len() - k,
{
    if k >= segs.len() || f(segs[k as int]) {
        k
    } else {
        first_seg(segs, f, (k + 1) as nat)
    }
}

/// One more than the position of the last of the first `k` ranges that passes
/// `f`, 0 when none does.
pub open spec fn last_seg(segs: Seq<(u16, u16, u32)>, f: spec_fn((u16, u16, u32)) -> bool, k: nat) -> nat
    decreases k,
{
    if k == 0 || f(segs[k - 1]) {
        k
    } else {
        last_seg(segs, f, (k - 1) as nat)
    }
}

/// The decimal digits of `n`.
pub open spec fn decimal(n: nat) -> Seq<char>
    decreases n,
{
    let d = (('0' as u32) + n % 10) as char;
    if n < 10 {
        seq![d]
    } else {
        decimal(n / 10).push(d)
    }
}

/// What stands for a variable that the table does not have.
pub open spec fn placeholder(id: u32) -> VarView {
    VarView {
        id,
        slot: u16::MAX,
        name: "var"@ + decimal(id as nat),
        ty: RefType::J(descriptor::JType::Int),
        is_param: false,
        range_start: 0,
        range_end: 0,
        synthetic_name: true,
    }
}

fn digit_char(d: u32) -> (r: char)
    requires
        d < 10,
    ensures
        r == (('0' as u32) + d) as char,
{
    if d == 0 {
        '0'
    } else if d == 1 {
        '1'
    } else if d == 2 {
        '2'
    } else if d == 3 {
        '3'
    } else if d == 4 {
        '4'
    } else if d == 5 {
        '5'
    } else if d == 6 {
        '6'
    } else if d == 7 {
        '7'
    } else if d == 8 {
        '8'
    } else {
        '9'
    }
}

fn push_decimal(n: u32, out: &mut Vec<char>)
    ensures
        final(out)@ == old(out)@ + decimal(n as nat),
    decreases n,
{
    let ghost o = out@;
    if n >= 10 {
        push_decimal(n / 10, out);
    }
    let d = digit_char(n % 10);
    out.push(d);
    assert(out@ =~= o + decimal(n as nat));
}

impl Default for VarTable {
    fn default() -> (r: Self)
        ensures
            r@ == (TableView {
                vars: Seq::empty(),
                by_slot: Seq::empty(),
                has_lvt: false,
                stack_vars: Seq::empty(),
                wide_stack_vars: Set::empty(),
                handler_starts: Seq::empty(),
            }),
    {
        let r = VarTable {
            vars: Vec::new(),
            by_slot: Vec::new(),
            has_lvt: false,
            stack_vars: Vec::new(),
            wide_stack_vars: HashSet::new(),
            handler_starts: Vec::new(),
        };
        assert(r@.vars =~= Seq::empty());
        assert(r@.by_slot =~= Seq::empty());
        assert(r@.wide_stack_vars =~= Set::empty());
        r
    }
}

impl VarTable {
    pub fn add_stack_var(&mut self, slot: u16, name: String, ty: TypeRef) -> (id: u32)
        ensures
            id == old(self)@.next_id(),
            final(self)@ == (TableView {
                stack_vars: old(self)@.stack_vars.push(id),
                ..old(self)@.with_var(slot, name@, ty@)
            }),
    {
        let id = self.add_var(slot, name, ty);
        self.stack_vars.push(id);
        id
    }

    /// Add a new variable identity for slot-reuse splitting (post-build;
    /// not registered in pc-range lookups).
    pub fn add_split(&mut self, slot: u16, name: String, ty: TypeRef) -> (id: u32)
        ensures
            id == old(self)@.next_id(),
            final(self)@ == (TableView {
                vars: old(self)@.vars.push(fresh(id, slot, name@, ty@)),
                ..old(self)@
            }),
    {
        let ghost before = self@;
        let id: u32 = #[verifier::truncate] (self.vars.len() as u32);
        let v = VarInfo {
            id,
            slot,
            name,
            ty,
            is_param: false,
            range_start: 0,
            range_end: u16::MAX,
            synthetic_name: true,
        };
        let ghost vv = v@;
        self.vars.push(v);
        assert(self@.vars =~= before.vars.push(vv));
        id
    }

    /// Allocate a synthetic variable that is NOT a stack-merge temp (e.g. a
    /// catch parameter); it must not be hoisted by the stack-var pass.
    pub fn add_catch_var(&mut self, slot: u16, name: String, ty: TypeRef) -> (id: u32)
        ensures
            id == old(self)@.next_id(),
            final(self)@ == old(self)@.with_var(slot, name@, ty@),
    {
        self.add_var(slot, name, ty)
    }

    fn add_var(&mut self, slot: u16, name: String, ty: TypeRef) -> (id: u32)
        ensures
            id == old(self)@.next_id(),
            final(self)@ == old(self)@.with_var(slot, name@, ty@),
    {
        let ghost before = self@;
        let ghost nv = name@;
        let ghost tv = ty@;
        let id = self.add_split(slot, name, ty);
        let ghost vars = self@.vars;
        while self.by_slot.len() <= slot as usize
            invariant
                self@.vars == vars,
                self@.has_lvt == before.has_lvt,
                self@.stack_vars == before.stack_vars,
                self@.wide_stack_vars == before.wide_stack_vars,
                self@.handler_starts == before.handler_starts,
                before.by_slot.len() <= self.by_slot@.len(),
                self.by_slot@.len() <= slot + 1 || self.by_slot@.len() == before.by_slot.len(),
                forall|k: int| 0 <= k < before.by_slot.len() ==> #[trigger] self@.by_slot[k] == before.by_slot[k],
                forall|k: int|
                    before.by_slot.len() <= k < self.by_slot@.len() ==> #[trigger] self@.by_slot[k] == Seq::<(u16, u16, u32)>::empty(),
            decreases slot + 1 - self.by_slot@.len(),
        {
            let ghost t0 = self@;
            self.by_slot.push(Vec::new());
            assert forall|k: int| 0 <= k < t0.by_slot.len() implies #[trigger] self@.by_slot[k] == t0.by_slot[k] by {}
        }
        let ghost by = padded(before.by_slot, slot);
        assert(self@.by_slot =~= by);
        let mut segs: Vec<(u16, u16, u32)> = Vec::new();
        std::mem::swap(&mut segs, &mut self.by_slot[slot as usize]);
        assert(segs@ == by[slot as int]);
        segs.push((0, u16::MAX, id));
        let ghost sv = segs@;
        self.by_slot[slot as usize] = segs;
        assert(self@.by_slot =~= by.update(slot as int, sv));
        assert(self@ =~= before.with_var(slot, nv, tv));
        id
    }

    fn binds_catch(&self, start: u16) -> (r: bool)
        ensures
            r == self@.binds_catch(start),
    {
        let mut k: usize = 0;
        while k < self.handler_starts.len()
            invariant
                k <= self.handler_starts@.len(),
                forall|j: int|
                    0 <= j < k ==> !(start == #[trigger] self@.handler_starts[j] || start
                        == self@.handler_starts[j] + 1 || start == self@.handler_starts[j] + 2),
            decreases self.handler_starts@.len() - k,
        {
            let h = self.handler_starts[k] as u32;
            let s = start as u32;
            assert(self@.handler_starts[k as int] == h);
            if s == h || s == h + 1 || s == h + 2 {
                return true;
            }
            k += 1;
        }
        false
    }

    /// Resolve the variable live at (pc, slot). Falls back to the nearest
    /// preceding range, then to any var on the slot.
    pub fn at(&self, slot: u16, pc: u16) -> (r: Option<u32>)
        ensures
            r == self@.live_at(self@.on_slot(slot), pc),
    {
        if slot as usize >= self.by_slot.len() {
            return None;
        }
        let segs = &self.by_slot[slot as usize];
        let ghost sv = segs@;
        assert(sv == self@.on_slot(slot));
        let ghost fa = |s: (u16, u16, u32)| s.0 <= pc < s.1;
        let ghost fb = |s: (u16, u16, u32)| self@.just_ahead(s.0, pc);
        let ghost fc = |s: (u16, u16, u32)| s.0 <= pc;
        let mut a: usize = 0;
        while a < segs.len() && !(segs[a].0 <= pc && pc < segs[a].1)
            invariant
                sv == segs@,
                fa == (|s: (u16, u16, u32)| s.0 <= pc < s.1),
                a <= segs@.len(),
                first_seg(sv, fa, a as nat) == first_seg(sv, fa, 0),
            decreases segs@.len() - a,
        {
            a += 1;
        }
        if a < segs.len() {
            return Some(segs[a].2);
        }
        let mut b: usize = 0;
        while b < segs.len() && !(segs[b].0 > pc && segs[b].0 - pc <= 8 && !self.binds_catch(segs[b].0))
            invariant
                sv == segs@,
                fb == (|s: (u16, u16, u32)| self@.just_ahead(s.0, pc)),
                b <= segs@.len(),
                first_seg(sv, fb, b as nat) == first_seg(sv, fb, 0),
            decreases segs@.len() - b,
        {
            b += 1;
        }
        if b < segs.len() {
            return Some(segs[b].2);
        }
        let mut c: usize = segs.len();
        while c > 0 && segs[c - 1].0 > pc
            invariant
                sv == segs@,
                fc == (|s: (u16, u16, u32)| s.0 <= pc),
                c <= segs@.len(),
                last_seg(sv, fc, c as nat) == last_seg(sv, fc, sv.len()),
            decreases c,
        {
            c -= 1;
        }
        if c > 0 {
            Some(segs[c - 1].2)
        } else if segs.len() > 0 {
            Some(segs[0].2)
        } else {
            None
        }
    }

    /// The single variable covering a slot (when the slot is not reused).
    pub fn sole_on_slot(&self, slot: u16) -> (r: Option<u32>)
        ensures
            r == (if self@.on_slot(slot).len() == 1 {
                Some(self@.on_slot(slot)[0].2)
            } else {
                None
            }),
    {
        if slot as usize >= self.by_slot.len() {
            return None;
        }
        let segs = &self.by_slot[slot as usize];
        assert(segs@ == self@.on_slot(slot));
        if segs.len() == 1 {
            Some(segs[0].2)
        } else {
            None
        }
    }

    pub fn vars_on_slot(&self, slot: u16) -> (r: &[(u16, u16, u32)])
        ensures
            r@ == self@.on_slot(slot),
    {
        if slot as usize >= self.by_slot.len() {
            return &[];
        }
        assert(self.by_slot@[slot as int]@ == self@.on_slot(slot));
        self.by_slot[slot as usize].as_slice()
    }

    /// The variable with the given id; a placeholder for an id that the table
    /// does not have.
    pub fn var(&self, id: u32) -> (r: VarInfo)
        ensures
            r@ == (if id < self@.vars.len() {
                self@.vars[id as int]
            } else {
                placeholder(id)
            }),
    {
        if (id as usize) < self.vars.len() {
            let v = &self.vars[id as usize];
            assert(self@.vars[id as int] == v@);
            return v.copy();
        }
        let mut name: Vec<char> = Vec::new();
        text::append_str(&mut name, "var");
        push_decimal(id, &mut name);
        assert(name@ =~= "var"@ + decimal(id as nat));
        VarInfo {
            id,
            slot: u16::MAX,
            name: text::to_text(&name),
            ty: TypeRef::J(JavaType::Int),
            is_param: false,
            range_start: 0,
            range_end: 0,
            synthetic_name: true,
        }
    }

    pub fn var_mut(&mut self, id: u32) -> (r: &mut VarInfo)
        requires
            id < old(self).vars@.len(),
        ensures
            *r == old(self).vars@[id as int],
            final(self).vars@ == old(self).vars@.update(id as int, *final(r)),
            final(self).by_slot == old(self).by_slot,
            final(self).has_lvt == old(self).has_lvt,
            final(self).stack_vars == old(self).stack_vars,
            final(self).wide_stack_vars == old(self).wide_stack_vars,
            final(self).handler_starts == old(self).handler_starts,
    {
        &mut self.vars[id as usize]
    }
}

impl VarInfo {
    /// The same variable again.
    pub fn copy(&self) -> (r: VarInfo)
        ensures
            r@ == self@,
    {
        VarInfo {
            id: self.id,
            slot: self.slot,
            name: self.name.clone(),
            ty: self.ty.copy(),
            is_param: self.is_param,
            range_start: self.range_start,
            range_end: self.range_end,
            synthetic_name: self.synthetic_name,
        }
    }
}

impl Clone for VarInfo {
    fn clone(&self) -> (r: Self)
        ensures
            r@ == self@,
    {
        self.copy()
    }
}

impl Clone for TypeRef {
    fn clone(&self) -> (r: Self)
        ensures
            r@ == self@,
    {
        self.copy()
    }
}

fn copy_ids(s: &HashSet<u32>) -> (r: HashSet<u32>)
    ensures
        r@ == s@,
{
    let mut r: HashSet<u32> = HashSet::new();
    for x in it: s.iter()
        invariant
            r@ =~= it.seq().take(it.index()).unref().to_set(),
            it.seq().unref().to_set() == s@,
            it.index() == it.seq().len() ==> r@ =~= s@,
    {
        proof {
            sets::lemma_take_unref(it.seq(), it.index());
        }
        r.insert(*x);
        assert(it.seq().take(it.seq().len() as int) =~= it.seq());
    }
    r
}

impl VarTable {
    fn copy_vars(&self) -> (r: Vec<VarInfo>)
        ensures
            vars_view(r@) == vars_view(self.vars@),
    {
        let mut r: Vec<VarInfo> = Vec::new();
        let mut i: usize = 0;
        while i < self.vars.len()
            invariant
                i <= self.vars@.len(),
                r@.len() == i,
                forall|k: int| 0 <= k < i ==> (#[trigger] r@[k])@ == self.vars@[k]@,
            decreases self.vars@.len() - i,
        {
            r.push(self.vars[i].copy());
            i += 1;
        }
        assert(vars_view(r@) =~= vars_view(self.vars@));
        r
    }

    fn copy_slots(&self) -> (r: Vec<Vec<(u16, u16, u32)>>)
        ensures
            slots_view(r@) == slots_view(self.by_slot@),
    {
        let mut r: Vec<Vec<(u16, u16, u32)>> = Vec::new();
        let mut i: usize = 0;
        while i < self.by_slot.len()
            invariant
                i <= self.by_slot@.len(),
                r@.len() == i,
                forall|k: int| 0 <= k < i ==> (#[trigger] r@[k])@ == self.by_slot@[k]@,
            decreases self.by_slot@.len() - i,
        {
            let segs = &self.by_slot[i];
            let mut t: Vec<(u16, u16, u32)> = Vec::new();
            let mut j: usize = 0;
            while j < segs.len()
                invariant
                    j <= segs@.len(),
                    t@ == segs@.take(j as int),
                decreases segs@.len() - j,
            {
                t.push(segs[j]);
                j += 1;
                assert(segs@.take(j as int) =~= segs@.take(j - 1).push(segs@[j - 1]));
            }
            assert(segs@.take(j as int) =~= segs@);
            r.push(t);
            i += 1;
        }
        assert(slots_view(r@) =~= slots_view(self.by_slot@));
        r
    }
}

impl Clone for VarTable {
    fn clone(&self) -> (r: Self)
        ensures
            r@ == self@,
    {
        let r = VarTable {
            vars: self.copy_vars(),
            by_slot: self.copy_slots(),
            has_lvt: self.has_lvt,
            stack_vars: self.stack_vars.clone(),
            wide_stack_vars: copy_ids(&self.wide_stack_vars),
            handler_starts: self.handler_starts.clone(),
        };
        assert(r.stack_vars@ =~= self.stack_vars@);
        assert(r.handler_starts@ =~= self.handler_starts@);
        r
    }
}

/// A range just added to an unused slot is found there at every pc before the
/// last one.
pub proof fn law_added_var_found(t: TableView, slot: u16, name: Seq<char>, ty: RefType, pc: u16)
    requires
        t.on_slot(slot).len() == 0,
        pc < u16::MAX,
    ensures
        t.with_var(slot, name, ty).live_at(t.with_var(slot, name, ty).on_slot(slot), pc) == Some(t.next_id()),
{
    let segs = t.with_var(slot, name, ty).on_slot(slot);
    assert(segs =~= seq![(0u16, u16::MAX, t.next_id())]);
    let f = |s: (u16, u16, u32)| s.0 <= pc < s.1;
    assert(f(segs[0]));
    assert(first_seg(segs, f, 0) == 0);
}

/// The first row for the given start and slot, the length when there is none.
pub open spec fn row_index(lvtt: Seq<(u16, u16, String, u16)>, start: u16, slot: u16, k: nat) -> nat
    decreases lvtt.len() - k,
{
    if k >= lvtt.len() || (lvtt[k as int].0 == start && lvtt[k as int].3 == slot) {
        k
    } else {
        row_index(lvtt, start, slot, (k + 1) as nat)
    }
}

/// A generic type can describe a descriptor type.
pub open spec fn describes(t: RefType, base: descriptor::JType) -> bool {
    match t {
        RefType::J(_) => true,
        RefType::G(g) => match g {
            signature::GType::TypeVar(_) => base is Object,
            signature::GType::Class(cs) => base matches descriptor::JType::Object(n) && n == cs.internal(),
            signature::GType::Primitive(c) => base.letter() == Some(c),
            signature::GType::Array(_) => base is Array,
            _ => false,
        },
    }
}

// ---------------------------------------------------------------------------
// What the table promises
// ---------------------------------------------------------------------------

/// The range holds `pc`.
pub open spec fn holds(s: (u16, u16, u32), pc: u16) -> bool {
    s.0 <= pc && pc < s.1
}

/// The range starts within 8 units behind `pc`, and not at a handler nor one
/// or two units behind one.
pub open spec fn soon(t: TableView, s: (u16, u16, u32), pc: u16) -> bool {
    &&& 0 < s.0 - pc <= 8
    &&& forall|k: int| 0 <= k < t.handler_starts.len() ==> !(0 <= s.0 - #[trigger] t.handler_starts[k] <= 2)
}

/// The range at `i` is the first that holds `pc`.
pub open spec fn first_holds(segs: Seq<(u16, u16, u32)>, pc: u16, i: int) -> bool {
    &&& 0 <= i < segs.len()
    &&& holds(segs[i], pc)
    &&& forall|j: int| 0 <= j < i ==> !holds(#[trigger] segs[j], pc)
}

/// The range at `i` is the first that starts soon.
pub open spec fn first_soon(t: TableView, segs: Seq<(u16, u16, u32)>, pc: u16, i: int) -> bool {
    &&& 0 <= i < segs.len()
    &&& soon(t, segs[i], pc)
    &&& forall|j: int| 0 <= j < i ==> !soon(t, #[trigger] segs[j], pc)
}

/// The range at `i` is the last that started by `pc`.
pub open spec fn last_started(segs: Seq<(u16, u16, u32)>, pc: u16, i: int) -> bool {
    &&& 0 <= i < segs.len()
    &&& segs[i].0 <= pc
    &&& forall|j: int| i < j < segs.len() ==> pc < (#[trigger] segs[j]).0
}

/// The variable of a slot at `pc` is the one whose range holds `pc`. Where no
/// range does, it is the one whose range starts soon; else the one whose range
/// started last; else the first. Only a slot without ranges has none.
pub proof fn law_live_variable(t: TableView, segs: Seq<(u16, u16, u32)>, pc: u16, i: int)
    ensures
        first_holds(segs, pc, i) ==> t.live_at(segs, pc) == Some(segs[i].2),
        (forall|j: int| 0 <= j < segs.len() ==> !holds(#[trigger] segs[j], pc)) && first_soon(t, segs, pc, i)
            ==> t.live_at(segs, pc) == Some(segs[i].2),
        (forall|j: int| 0 <= j < segs.len() ==> !holds(#[trigger] segs[j], pc) && !soon(t, segs[j], pc)) && last_started(
            segs,
            pc,
            i,
        ) ==> t.live_at(segs, pc) == Some(segs[i].2),
        segs.len() > 0 && (forall|j: int| 0 <= j < segs.len() ==> !soon(t, segs[j], pc) && pc < (#[trigger] segs[j]).0)
            ==> t.live_at(segs, pc) == Some(segs[0].2),
        t.live_at(segs, pc) is None <==> segs.len() == 0,
{
    let fa = |s: (u16, u16, u32)| s.0 <= pc < s.1;
    let fb = |s: (u16, u16, u32)| t.just_ahead(s.0, pc);
    let fc = |s: (u16, u16, u32)| s.0 <= pc;
    lemma_first_seg(segs, fa, 0);
    lemma_first_seg(segs, fb, 0);
    lemma_last_seg(segs, fc, segs.len());
    assert forall|j: int| 0 <= j < segs.len() implies fa(#[trigger] segs[j]) == holds(segs[j], pc) by {}
    assert forall|j: int| 0 <= j < segs.len() implies fb(#[trigger] segs[j]) == soon(t, segs[j], pc) by {
        let s = segs[j];
        if t.binds_catch(s.0) {
            let k = choose|k: int|
                0 <= k < t.handler_starts.len() && (s.0 == #[trigger] t.handler_starts[k] || s.0 == t.handler_starts[k] + 1 || s.0
                    == t.handler_starts[k] + 2);
            assert(0 <= s.0 - t.handler_starts[k] <= 2);
        }
    }
    let a = first_seg(segs, fa, 0);
    let b = first_seg(segs, fb, 0);
    let c = last_seg(segs, fc, segs.len());
    if first_holds(segs, pc, i) {
        assert(fa(segs[i]));
        assert(a == i);
    }
    if first_soon(t, segs, pc, i) {
        assert(fb(segs[i]));
        assert(b == i);
    }
    if last_started(segs, pc, i) {
        assert(fc(segs[i]));
        assert(c == i + 1);
    }
}

proof fn lemma_first_seg(segs: Seq<(u16, u16, u32)>, f: spec_fn((u16, u16, u32)) -> bool, k: nat)
    requires
        k <= segs.len(),
    ensures
        k <= first_seg(segs, f, k) <= segs.len(),
        first_seg(segs, f, k) < segs.len() ==> f(segs[first_seg(segs, f, k) as int]),
        forall|j: int| k <= j < first_seg(segs, f, k) ==> !f(#[trigger] segs[j]),
    decreases segs.len() - k,
{
    if k < segs.len() && !f(segs[k as int]) {
        lemma_first_seg(segs, f, k + 1);
    }
}

proof fn lemma_last_seg(segs: Seq<(u16, u16, u32)>, f: spec_fn((u16, u16, u32)) -> bool, k: nat)
    requires
        k <= segs.len(),
    ensures
        last_seg(segs, f, k) <= k,
        last_seg(segs, f, k) > 0 ==> f(segs[last_seg(segs, f, k) - 1]),
        forall|j: int| last_seg(segs, f, k) <= j < k ==> !f(#[trigger] segs[j]),
    decreases k,
{
    if k > 0 && !f(segs[k - 1]) {
        lemma_last_seg(segs, f, (k - 1) as nat);
    }
}

/// A new variable changes no other one and no other slot. Its slot gains one
/// range, the last, which is the variable's and covers the whole method.
pub proof fn law_added_var(t: TableView, slot: u16, name: Seq<char>, ty: RefType, other: u16, id: int)
    requires
        t.vars.len() <= u32::MAX,
    ensures
        ({
            let u = t.with_var(slot, name, ty);
            &&& u.vars.len() == t.vars.len() + 1
            &&& 0 <= id < t.vars.len() ==> u.vars[id] == t.vars[id]
            &&& u.vars.last().id == t.vars.len()
            &&& u.vars.last().slot == slot && u.vars.last().name == name && u.vars.last().ty == ty
            &&& u.vars.last().synthetic_name && !u.vars.last().is_param
            &&& other != slot ==> u.on_slot(other) == t.on_slot(other)
            &&& u.on_slot(slot) == t.on_slot(slot).push((0, 0xffff, t.vars.len() as u32))
            &&& u.stack_vars == t.stack_vars
            &&& u.wide_stack_vars == t.wide_stack_vars
            &&& u.handler_starts == t.handler_starts
        }),
{
    let u = t.with_var(slot, name, ty);
    assert(u.on_slot(slot) =~= t.on_slot(slot).push((0, 0xffff, t.vars.len() as u32)));
    if other != slot {
        assert(u.on_slot(other) =~= t.on_slot(other));
    }
}

/// The value that the digits spell.
pub open spec fn spelled(s: Seq<char>) -> int
    decreases s.len(),
{
    if s.len() == 0 {
        0
    } else {
        10 * spelled(s.drop_last()) + (s.last() as int - '0' as int)
    }
}

/// The decimal digits of a number spell it.
pub proof fn law_decimal(n: nat)
    ensures
        spelled(decimal(n)) == n,
        forall|i: int| 0 <= i < decimal(n).len() ==> '0' <= #[trigger] decimal(n)[i] <= '9',
    decreases n,
{
    let d = (('0' as u32) + n % 10) as char;
    assert(d as int == '0' as int + n % 10);
    if n < 10 {
        assert(decimal(n).drop_last() =~= Seq::empty());
        assert(spelled(decimal(n).drop_last()) == 0);
    } else {
        law_decimal(n / 10);
        assert(decimal(n).drop_last() =~= decimal(n / 10));
        assert(decimal(n).last() == d);
        assert forall|i: int| 0 <= i < decimal(n).len() implies '0' <= #[trigger] decimal(n)[i] <= '9' by {
            if i < decimal(n / 10).len() {
                assert(decimal(n)[i] == decimal(n / 10)[i]);
            }
        }
    }
}

/// A signature describes a type only where the two agree: a class its own
/// name, a primitive its own letter, an array some array, a variable some
/// class. A wildcard describes none.
pub proof fn law_describes(g: signature::GType, base: descriptor::JType)
    ensures
        g is Class && describes(RefType::G(g), base) ==> base.descriptor() == seq!['L'] + (g->Class_0).internal() + seq![';'],
        g is Class && base == descriptor::JType::Object((g->Class_0).internal()) ==> describes(RefType::G(g), base),
        g is Primitive ==> (describes(RefType::G(g), base) <==> base.descriptor() == seq![g->Primitive_0] && base.letter() is Some),
        g is Array ==> (describes(RefType::G(g), base) <==> base is Array),
        g is TypeVar ==> (describes(RefType::G(g), base) <==> base is Object),
        g is Any || g is Extends || g is Super ==> !describes(RefType::G(g), base),
        describes(RefType::J(base), base),
{
    if g is Primitive {
        let c = g->Primitive_0;
        if base.letter() is Some {
            assert(base.descriptor()[0] == base.letter()->0);
            assert(seq![c][0] == c);
        }
    }
}

pub fn sig_type_at(lvtt: &[(u16, u16, String, u16)], start: u16, slot: u16, base: &JavaType) -> (r: Option<TypeRef>)
    ensures
        (match r {
            Some(t) => Some(t@),
            None => None,
        }) == ({
            let k = row_index(lvtt@, start, slot, 0);
            if k < lvtt@.len() {
                match signature::field_signature(lvtt@[k as int].2@) {
                    Some(g) => if describes(RefType::G(g), base@) {
                        Some(RefType::G(g))
                    } else {
                        None
                    },
                    None => None,
                }
            } else {
                None
            }
        }),
{
    let mut k: usize = 0;
    while k < lvtt.len() && !(lvtt[k].0 == start && lvtt[k].3 == slot)
        invariant
            k <= lvtt@.len(),
            row_index(lvtt@, start, slot, k as nat) == row_index(lvtt@, start, slot, 0),
        decreases lvtt@.len() - k,
    {
        k += 1;
    }
    if k >= lvtt.len() {
        return None;
    }
    match parse_field_signature(lvtt[k].2.as_str()) {
        Some(g) => {
            let t = TypeRef::G(g);
            if sig_matches_base(&t, base) {
                Some(t)
            } else {
                None
            }
        },
        None => None,
    }
}

pub fn sig_matches_base(tr: &TypeRef, base: &JavaType) -> (r: bool)
    ensures
        r == describes(tr@, base@),
{
    let g = match tr {
        TypeRef::J(_) => {
            return true;
        },
        TypeRef::G(g) => g,
    };
    match g {
        // A type variable erases to its bound (Object or a concrete
        // class), so any reference descriptor is compatible.
        GenericType::TypeVar(_) => match base {
            JavaType::Object(_) => true,
            _ => false,
        },
        GenericType::Class(cs) => match base {
            JavaType::Object(n) => *n == cs.internal_name(),
            _ => false,
        },
        GenericType::Primitive(c) => match base.primitive_char() {
            Some(d) => d == *c,
            None => false,
        },
        GenericType::Array(_) => match base {
            JavaType::Array(_) => true,
            _ => false,
        },
        GenericType::Wildcard(_) => false,
    }
}

/// Placeholder type used when the builder cannot infer a better one.
pub fn unknown_ref_type() -> (r: TypeRef)
    ensures
        r@ == RefType::G(
            signature::GType::Class(
                signature::CSig {
                    package: "java/lang"@,
                    parts: seq![signature::CPart { name: "Object"@, args: Seq::empty() }],
                },
            ),
        ),
{
    let args: Vec<GenericType> = Vec::new();
    assert(signature::generics(args@) =~= Seq::empty());
    let part = ClassSigPart { name: "Object".to_owned(), args };
    proof {
        signature::lemma_part_view(part);
    }
    let ghost pv = part.view();
    let mut parts: Vec<ClassSigPart> = Vec::new();
    parts.push(part);
    let cs = ClassSig { package: "java/lang".to_owned(), parts };
    proof {
        signature::lemma_sig_view(cs);
        assert(signature::parts_view(cs.parts@) =~= seq![pv]);
    }
    TypeRef::G(GenericType::Class(cs))
}

/// The row that gives the type at `start` in `slot` is the first with that
/// start and slot; none is found only where none has both.
pub proof fn law_first_row(lvtt: Seq<(u16, u16, String, u16)>, start: u16, slot: u16, k: nat, j: int)
    requires
        k <= j < lvtt.len(),
    ensures
        row_index(lvtt, start, slot, k) < lvtt.len() ==> lvtt[row_index(lvtt, start, slot, k) as int].0 == start && lvtt[row_index(
            lvtt,
            start,
            slot,
            k,
        ) as int].3 == slot,
        lvtt[j].0 == start && lvtt[j].3 == slot ==> row_index(lvtt, start, slot, k) <= j,
    decreases j - k,
{
    if k < j {
        law_first_row(lvtt, start, slot, k + 1, j);
    } else {
        lemma_row_found(lvtt, start, slot, k);
    }
}

proof fn lemma_row_found(lvtt: Seq<(u16, u16, String, u16)>, start: u16, slot: u16, k: nat)
    ensures
        row_index(lvtt, start, slot, k) < lvtt.len() ==> lvtt[row_index(lvtt, start, slot, k) as int].0 == start && lvtt[row_index(
            lvtt,
            start,
            slot,
            k,
        ) as int].3 == slot,
    decreases lvtt.len() - k,
{
    if k < lvtt.len() {
        lemma_row_found(lvtt, start, slot, k + 1);
    }
}

} // verus!
