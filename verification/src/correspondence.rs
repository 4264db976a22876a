//! Correspondence play: the verdict when one side has no movement left.
use vstd::prelude::*;
use crate::identity::Team;
use crate::life::WorldState;

verus! {

/// Who has triumphed when `stuck` has no movement left in `world`: the
/// opposition, where `stuck`'s figurehead is in critical endangerment;
/// nobody, where it is not.
pub fn the_triumphant(world: &WorldState, stuck: Team) -> (victor: Option<Team>)
    ensures
        victor == (if world.in_critical(stuck) {
            Some(stuck.spec_opposition())
        } else {
            None
        }),
{
    if world.in_critical_endangerment(stuck) {
        Some(stuck.opposition())
    } else {
        None
    }
}

} // verus!
