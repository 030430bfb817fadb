//! Faction identity: numbered teams plus the two neutral alignments.

use vstd::prelude::*;

verus! {

/// Discriminated faction value. Neutral-passive agents never act as flow
/// field goal seeds; neutral-hostile agents and numbered teams do.
#[derive(Debug, PartialEq, Eq, Structural, Hash, Clone, Copy)]
pub enum TeamValue {
    NeutralPassive,
    NeutralHostile,
    Team(usize),
}

/// Current and base alignment of an agent; only `alignment` matters to the
/// flow field engine (the base value records what a temporary conversion
/// should revert to).
#[derive(Debug, PartialEq, Eq, Structural, Clone, Copy)]
pub struct TeamAlignment {
    pub alignment: TeamValue,
    pub alignment_base: TeamValue,
}

/// Whether agents of this alignment seed enemy flow fields as goals.
pub open spec fn seeds_as_goal_spec(t: TeamValue) -> bool {
    t != TeamValue::NeutralPassive
}

/// Whether agents of this alignment seed enemy flow fields as goals:
/// neutral-passive agents are never treated as a target.
pub fn seeds_as_goal(t: TeamValue) -> (b: bool)
    ensures
        b == seeds_as_goal_spec(t),
{
    match t {
        TeamValue::NeutralPassive => false,
        _ => true,
    }
}

} // verus!
