//! Per-method limits and counters of the walk.

use std::time::Instant;

use vstd::prelude::*;

verus! {

/// `std::time::Instant`, a reading of the machine's clock, is carried through
/// unread: nothing is claimed of its value.
#[verifier::external_type_specification]
#[verifier::external_body]
pub struct ExInstant(std::time::Instant);

/// Limits that a front-end arms per method, and what the last walks consumed.
#[derive(Debug, Clone, Copy)]
pub struct WalkGuards {
    /// Copy-budget override (pathological copy explosion retry).
    pub budget_override: Option<u32>,
    /// Walk visit budget (None = off). Bounds CALL COUNT: the walk degrades
    /// to a Goto at the entry once the budget is spent.
    pub visit_budget: Option<u64>,
    /// Walk wall-clock deadline (None = off); degradation is a Goto too.
    pub deadline: Option<Instant>,
    /// Copies may cross the merges of shared tails.
    pub allow_confluence: bool,
    /// Dominator counters are kept.
    pub dom_on: bool,
    /// How often dominators were asked for: once per method, per scope walked
    /// and per loop.
    pub dom_calls: u64,
    /// Over how many blocks.
    pub dom_blocks: u64,
    /// Walk calls consumed since the last reset.
    pub visits_total: u64,
}

impl Default for WalkGuards {
    fn default() -> (r: Self)
        ensures
            r == (WalkGuards {
                budget_override: None,
                visit_budget: None,
                deadline: None,
                allow_confluence: false,
                dom_on: false,
                dom_calls: 0,
                dom_blocks: 0,
                visits_total: 0,
            }),
    {
        WalkGuards {
            budget_override: None,
            visit_budget: None,
            deadline: None,
            allow_confluence: false,
            dom_on: false,
            dom_calls: 0,
            dom_blocks: 0,
            visits_total: 0,
        }
    }
}

/// Enable dominator counters (diagnostics).
pub fn set_dom_counters(guards: &mut WalkGuards, on: bool)
    ensures
        *final(guards) == (WalkGuards { dom_on: on, ..*old(guards) }),
{
    guards.dom_on = on;
}

/// Install/clear the per-method copy-budget override.
pub fn set_budget_override(guards: &mut WalkGuards, v: Option<u32>)
    ensures
        *final(guards) == (WalkGuards { budget_override: v, ..*old(guards) }),
{
    guards.budget_override = v;
}

/// Install/clear the per-method walk visit budget.
pub fn set_walk_visit_budget(guards: &mut WalkGuards, v: Option<u64>)
    ensures
        *final(guards) == (WalkGuards { visit_budget: v, ..*old(guards) }),
{
    guards.visit_budget = v;
}

/// Install/clear the per-method walk deadline.
pub fn set_walk_deadline(guards: &mut WalkGuards, d: Option<Instant>)
    ensures
        *final(guards) == (WalkGuards { deadline: d, ..*old(guards) }),
{
    guards.deadline = d;
}

/// Walk calls consumed since the last reset.
pub fn walk_visits_consumed(guards: &WalkGuards) -> (r: u64)
    ensures
        r == guards.visits_total,
{
    guards.visits_total
}

pub fn reset_visit_stats(guards: &mut WalkGuards)
    ensures
        *final(guards) == (WalkGuards { visits_total: 0, ..*old(guards) }),
{
    guards.visits_total = 0;
}

/// The time. `Instant::now` reads the machine's clock, so nothing is claimed
/// of the answer.
#[verifier::external_body]
pub(crate) fn clock() -> Instant {
    Instant::now()
}

/// `now` is at or behind `deadline` in the order of `Instant`.
pub uninterp spec fn at_or_behind(now: Instant, deadline: Instant) -> bool;

/// Whether `now` has come to `deadline`: what `>=` answers for the two, which
/// depends on them alone.
#[verifier::external_body]
pub(crate) fn has_come(now: &Instant, deadline: &Instant) -> (r: bool)
    ensures
        r == at_or_behind(*now, *deadline),
{
    now >= deadline
}

} // verus!
