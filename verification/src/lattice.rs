//! The lookahead stays on the lattice: every premonition moves a figurine of
//! the team with the initiative between two locales of the lattice.
use vstd::prelude::*;
use crate::identity::{Agent, JobDescription, Team};
use crate::laws::law_careful_within_reckless;
use crate::life::{Commit, Patch, WorldState, forward, servant_home_rank};
use crate::lookahead::{ascensions_below, boost, slide_offsets, stun_directions};
use crate::motion::{hop_bits, hop_offsets};
use crate::space::{Locale, Pinfield, law_pinned_locales_are_held, pinned_locales};

verus! {

/// A patch of `team` between two locales of the lattice that, unless it is
/// a secret service, moves a figurine standing at its origin; a servant
/// moves one rank forward, or two from its home rank.
pub open spec fn grounded(world: WorldState, patch: Patch, team: Team) -> bool {
    &&& patch.star.team == team
    &&& patch.whence.on_board()
    &&& patch.whither.on_board()
    &&& !patch.spec_secret_service() ==> world.pinfield_of(patch.star).holds(patch.whence)
    &&& patch.star.job_description == JobDescription::Servant ==> (patch.rank_shift() == forward(
        team,
    ).0 || (patch.whence.rank == servant_home_rank(team) && patch.rank_shift() == boost(team).0))
}

pub open spec fn all_grounded(world: WorldState, patches: Seq<Patch>, team: Team) -> bool {
    forall|k: int| 0 <= k < patches.len() ==> grounded(world, #[trigger] patches[k], team)
}

proof fn lemma_grounded_concat(world: WorldState, a: Seq<Patch>, b: Seq<Patch>, team: Team)
    requires
        all_grounded(world, a, team),
        all_grounded(world, b, team),
    ensures
        all_grounded(world, a + b, team),
{
    assert forall|k: int| 0 <= k < (a + b).len() implies grounded(world, #[trigger] (a + b)[k], team) by {
        if k < a.len() {
            assert((a + b)[k] == a[k]);
        } else {
            assert((a + b)[k] == b[k - a.len()]);
        }
    }
}

/// The starts listed by `pinned_locales` lie on the lattice, and the field holds them.
proof fn lemma_starts(world: WorldState, agent: Agent, k: int)
    requires
        0 <= k < pinned_locales(world.pinfield_of(agent).0).len(),
    ensures
        pinned_locales(world.pinfield_of(agent).0)[k].on_board(),
        world.pinfield_of(agent).holds(pinned_locales(world.pinfield_of(agent).0)[k]),
{
    let bits = world.pinfield_of(agent).0;
    law_pinned_locales_are_held(bits, 64, k);
}

proof fn lemma_servant_at(world: WorldState, team: Team, start: Locale)
    requires
        start.on_board(),
        world.pinfield_of(Agent { team, job_description: JobDescription::Servant }).holds(start),
    ensures
        all_grounded(world, world.servant_patches_at(team, start), team),
{
    let step = world.step_patch(team, start);
    let double = world.double_patch(team, start);
    let left = world.stun_patch(team, start, stun_directions(team).0);
    let right = world.stun_patch(team, start, stun_directions(team).1);
    assert(all_grounded(world, step, team));
    if start.rank == servant_home_rank(team) {
        match team {
            Team::Orange => assert(start.spec_displace((2i8, 0i8)) is Some),
            Team::Blue => assert(start.spec_displace((-2i8, 0i8)) is Some),
        }
    }
    assert(all_grounded(world, double, team));
    assert(all_grounded(world, left, team));
    assert(all_grounded(world, right, team));
    lemma_grounded_concat(world, step, double, team);
    lemma_grounded_concat(world, step + double, left, team);
    lemma_grounded_concat(world, step + double + left, right, team);
}

proof fn lemma_servant_gather(world: WorldState, team: Team, starts: Seq<Locale>)
    requires
        forall|k: int|
            0 <= k < starts.len() ==> (#[trigger] starts[k]).on_board() && world.pinfield_of(
                Agent { team, job_description: JobDescription::Servant },
            ).holds(starts[k]),
    ensures
        all_grounded(world, world.servant_gather(team, starts), team),
    decreases starts.len(),
{
    if starts.len() > 0 {
        let shorter = starts.drop_last();
        assert forall|k: int| 0 <= k < shorter.len() implies (#[trigger] shorter[k]).on_board()
            && world.pinfield_of(Agent { team, job_description: JobDescription::Servant }).holds(
            shorter[k],
        ) by {
            assert(shorter[k] == starts[k]);
        }
        lemma_servant_gather(world, team, shorter);
        lemma_servant_at(world, team, starts.last());
        lemma_grounded_concat(
            world,
            world.servant_gather(team, shorter),
            world.servant_patches_at(team, starts.last()),
            team,
        );
    }
}

proof fn lemma_patches_to(world: WorldState, agent: Agent, start: Locale, destinations: Seq<Locale>)
    requires
        agent.job_description != JobDescription::Servant,
        start.on_board(),
        world.pinfield_of(agent).holds(start),
        forall|k: int| 0 <= k < destinations.len() ==> (#[trigger] destinations[k]).on_board(),
    ensures
        all_grounded(world, WorldState::patches_to(agent, start, destinations), agent.team),
    decreases destinations.len(),
{
    if destinations.len() > 0 {
        let shorter = destinations.drop_last();
        assert forall|k: int| 0 <= k < shorter.len() implies (#[trigger] shorter[k]).on_board() by {
            assert(shorter[k] == destinations[k]);
        }
        lemma_patches_to(world, agent, start, shorter);
        let earlier = WorldState::patches_to(agent, start, shorter);
        let all = WorldState::patches_to(agent, start, destinations);
        assert forall|k: int| 0 <= k < all.len() implies grounded(world, #[trigger] all[k], agent.team) by {
            if k < earlier.len() {
                assert(all[k] == earlier[k]);
            }
        }
    }
}

proof fn lemma_hop_gather(world: WorldState, agent: Agent, starts: Seq<Locale>)
    requires
        agent.job_description != JobDescription::Servant,
        forall|k: int|
            0 <= k < starts.len() ==> (#[trigger] starts[k]).on_board() && world.pinfield_of(
                agent,
            ).holds(starts[k]),
    ensures
        all_grounded(world, world.hop_gather(agent, starts), agent.team),
    decreases starts.len(),
{
    if starts.len() > 0 {
        let shorter = starts.drop_last();
        assert forall|k: int| 0 <= k < shorter.len() implies (#[trigger] shorter[k]).on_board()
            && world.pinfield_of(agent).holds(shorter[k]) by {
            assert(shorter[k] == starts[k]);
        }
        lemma_hop_gather(world, agent, shorter);
        let start = starts.last();
        let mask = !world.spec_occupied_by(agent.team) & hop_bits(
            start,
            hop_offsets(agent.job_description),
        );
        let destinations = pinned_locales(mask);
        assert forall|k: int| 0 <= k < destinations.len() implies (
        #[trigger] destinations[k]).on_board() by {
            law_pinned_locales_are_held(mask, 64, k);
        }
        lemma_patches_to(world, agent, start, destinations);
        lemma_grounded_concat(
            world,
            world.hop_gather(agent, shorter),
            world.hop_patches_at(agent, start),
            agent.team,
        );
    }
}

proof fn lemma_ray(world: WorldState, agent: Agent, start: Locale, offset: (i8, i8), venture: int)
    requires
        agent.job_description != JobDescription::Servant,
        start.on_board(),
        world.pinfield_of(agent).holds(start),
    ensures
        all_grounded(world, world.ray(agent, start, offset, venture), agent.team),
    decreases 9 - venture,
{
    if 1 <= venture <= 8 {
        match start.spec_multidisplace(offset, venture) {
            None => {},
            Some(destination) => {
                let here = if world.vacant(destination) || !Pinfield(
                    world.spec_occupied_by(agent.team),
                ).holds(destination) {
                    seq![Patch { star: agent, whence: start, whither: destination }]
                } else {
                    Seq::empty()
                };
                assert(all_grounded(world, here, agent.team));
                if world.vacant(destination) {
                    lemma_ray(world, agent, start, offset, venture + 1);
                    lemma_grounded_concat(
                        world,
                        here,
                        world.ray(agent, start, offset, venture + 1),
                        agent.team,
                    );
                }
            },
        }
    }
}

proof fn lemma_rays(world: WorldState, agent: Agent, start: Locale, offsets: Seq<(i8, i8)>)
    requires
        agent.job_description != JobDescription::Servant,
        start.on_board(),
        world.pinfield_of(agent).holds(start),
    ensures
        all_grounded(world, world.rays(agent, start, offsets), agent.team),
    decreases offsets.len(),
{
    if offsets.len() > 0 {
        lemma_rays(world, agent, start, offsets.drop_last());
        lemma_ray(world, agent, start, offsets.last(), 1);
        lemma_grounded_concat(
            world,
            world.rays(agent, start, offsets.drop_last()),
            world.ray(agent, start, offsets.last(), 1),
            agent.team,
        );
    }
}

proof fn lemma_slide_gather(world: WorldState, agent: Agent, starts: Seq<Locale>)
    requires
        agent.job_description != JobDescription::Servant,
        forall|k: int|
            0 <= k < starts.len() ==> (#[trigger] starts[k]).on_board() && world.pinfield_of(
                agent,
            ).holds(starts[k]),
    ensures
        all_grounded(world, world.slide_gather(agent, starts), agent.team),
    decreases starts.len(),
{
    if starts.len() > 0 {
        let shorter = starts.drop_last();
        assert forall|k: int| 0 <= k < shorter.len() implies (#[trigger] shorter[k]).on_board()
            && world.pinfield_of(agent).holds(shorter[k]) by {
            assert(shorter[k] == starts[k]);
        }
        lemma_slide_gather(world, agent, shorter);
        lemma_rays(world, agent, starts.last(), slide_offsets(agent.job_description));
        lemma_grounded_concat(
            world,
            world.slide_gather(agent, shorter),
            world.rays(agent, starts.last(), slide_offsets(agent.job_description)),
            agent.team,
        );
    }
}

pub proof fn lemma_all_patches(world: WorldState)
    ensures
        all_grounded(world, world.all_patches(), world.initiative),
{
    let team = world.initiative;
    let servant = Agent { team, job_description: JobDescription::Servant };
    let pony = Agent { team, job_description: JobDescription::Pony };
    let scholar = Agent { team, job_description: JobDescription::Scholar };
    let cop = Agent { team, job_description: JobDescription::Cop };
    let princess = Agent { team, job_description: JobDescription::Princess };
    let figurehead = Agent { team, job_description: JobDescription::Figurehead };
    assert forall|k: int| 0 <= k < pinned_locales(world.pinfield_of(servant).0).len() implies (
    #[trigger] pinned_locales(world.pinfield_of(servant).0)[k]).on_board()
        && world.pinfield_of(servant).holds(pinned_locales(world.pinfield_of(servant).0)[k]) by {
        lemma_starts(world, servant, k);
    }
    lemma_servant_gather(world, team, pinned_locales(world.pinfield_of(servant).0));
    assert forall|agent: Agent, k: int|
        0 <= k < pinned_locales(world.pinfield_of(agent).0).len() implies (
        #[trigger] pinned_locales(world.pinfield_of(agent).0)[k]).on_board()
            && world.pinfield_of(agent).holds(pinned_locales(world.pinfield_of(agent).0)[k]) by {
        lemma_starts(world, agent, k);
    }
    lemma_hop_gather(world, pony, pinned_locales(world.pinfield_of(pony).0));
    lemma_slide_gather(world, scholar, pinned_locales(world.pinfield_of(scholar).0));
    lemma_slide_gather(world, cop, pinned_locales(world.pinfield_of(cop).0));
    lemma_slide_gather(world, princess, pinned_locales(world.pinfield_of(princess).0));
    lemma_hop_gather(world, figurehead, pinned_locales(world.pinfield_of(figurehead).0));
    let a = world.servant_patches(team);
    let b = world.hop_patches(pony);
    let c = world.slide_patches(scholar);
    let d = world.slide_patches(cop);
    let e = world.slide_patches(princess);
    let f = world.hop_patches(figurehead);
    lemma_grounded_concat(world, a, b, team);
    lemma_grounded_concat(world, a + b, c, team);
    lemma_grounded_concat(world, a + b + c, d, team);
    lemma_grounded_concat(world, a + b + c + d, e, team);
    lemma_grounded_concat(world, a + b + c + d + e, f, team);
    let services = world.service_patches(team);
    assert(all_grounded(world, services, team));
    lemma_grounded_concat(world, world.move_patches(team), services, team);
}

pub proof fn lemma_ascensions_keep_patch(commit: Commit, n: nat, j: int)
    requires
        0 <= j < ascensions_below(commit, n).len(),
    ensures
        ascensions_below(commit, n)[j].patch == commit.patch,
    decreases n,
{
    if n > 0 {
        let earlier = ascensions_below(commit, (n - 1) as nat);
        if j < earlier.len() {
            lemma_ascensions_keep_patch(commit, (n - 1) as nat, j);
        }
    }
}

proof fn lemma_reckless_grounded(world: WorldState, patches: Seq<Patch>, k: int)
    requires
        all_grounded(world, patches, world.initiative),
        0 <= k < world.expand_reckless(patches).len(),
    ensures
        grounded(world, world.expand_reckless(patches)[k].patch, world.initiative),
    decreases patches.len(),
{
    reveal(WorldState::reckless_commits);
    if patches.len() > 0 {
        let shorter = patches.drop_last();
        let earlier = world.expand_reckless(shorter);
        assert(all_grounded(world, shorter, world.initiative)) by {
            assert forall|j: int| 0 <= j < shorter.len() implies grounded(
                world,
                #[trigger] shorter[j],
                world.initiative,
            ) by {
                assert(shorter[j] == patches[j]);
            }
        }
        if k < earlier.len() {
            lemma_reckless_grounded(world, shorter, k);
        } else {
            let commit = world.spec_apply(patches.last());
            let j = k - earlier.len();
            if commit.patch.spec_servant_ascension() {
                lemma_ascensions_keep_patch(commit, 6, j);
            }
            assert(grounded(world, patches[patches.len() - 1], world.initiative));
        }
    }
}

/// The lookahead stays on the lattice: every premonition, careful or
/// reckless, moves a figurine of the team with the initiative between two
/// locales of the lattice, and, unless it is a secret service, a figurine
/// that stands at the patch's origin.
pub proof fn law_premonitions_on_the_lattice(world: WorldState, k: int)
    ensures
        0 <= k < world.spec_reckless_lookahead().len() ==> grounded(
            world,
            world.spec_reckless_lookahead()[k].patch,
            world.initiative,
        ),
        0 <= k < world.spec_lookahead().len() ==> grounded(
            world,
            world.spec_lookahead()[k].patch,
            world.initiative,
        ),
{
    lemma_all_patches(world);
    if 0 <= k < world.spec_reckless_lookahead().len() {
        lemma_reckless_grounded(world, world.all_patches(), k);
    }
    if 0 <= k < world.spec_lookahead().len() {
        law_careful_within_reckless(world);
        let reckless = world.spec_reckless_lookahead();
        let careful = world.spec_lookahead();
        assert(reckless.contains(careful[k]));
        let j = choose|j: int| 0 <= j < reckless.len() && reckless[j] == careful[k];
        lemma_reckless_grounded(world, world.all_patches(), j);
    }
}

} // verus!
