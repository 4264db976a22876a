//! What the movements reach: every pony hop that the lattice and the
//! pony's own team allow is offered, a servant attacks the two locales
//! diagonally ahead of it, and a secret service never crosses an attacked
//! locale.
use vstd::prelude::*;
use crate::ascension::lemma_occupation_pins;
use crate::identity::{Agent, JobDescription, Team};
use crate::lattice::lemma_ascensions_keep_patch;
use crate::life::{Commit, Patch, WorldState, law_replace_subboard};
use crate::lookahead::{ascend, ascensions_below, lemma_locale_of_own_pin, stun_directions, subpredicted};
use crate::motion::{hop_bits, hop_offsets};
use crate::space::{
    Locale,
    Pinfield,
    law_alight,
    lemma_pin_intersection,
    lemma_pin_invert,
    lemma_pin_single,
    lemma_pin_union,
    locale_of_pin,
    pin_at,
    pins_below,
    pinned_locales,
};

verus! {

/// Every locale of the lattice held in `bits` below pin `n` is listed.
pub proof fn lemma_pinned_member(bits: u64, locale: Locale, n: nat)
    requires
        locale.on_board(),
        locale.index() < n <= 64,
        pin_at(bits, locale.index() as u64),
    ensures
        exists|i: int| 0 <= i < pins_below(bits, n).len() && pins_below(bits, n)[i] == locale,
    decreases n,
{
    let earlier = pins_below(bits, (n - 1) as nat);
    if locale.index() == n - 1 {
        lemma_locale_of_own_pin(locale);
        assert(pins_below(bits, n)[earlier.len() as int] == locale);
    } else {
        lemma_pinned_member(bits, locale, (n - 1) as nat);
        let i = choose|i: int| 0 <= i < earlier.len() && earlier[i] == locale;
        assert(pins_below(bits, n)[i] == locale);
    }
}

/// The commits that a commit stands for are at least one, all of its patch.
proof fn lemma_subpredicted_keeps_patch(commit: Commit)
    ensures
        subpredicted(commit).len() > 0,
        forall|j: int|
            0 <= j < subpredicted(commit).len() ==> (#[trigger] subpredicted(commit)[j]).patch
                == commit.patch,
{
    if commit.patch.spec_servant_ascension() {
        let personae = Agent::spec_personae(commit.patch.star.team);
        assert(personae[4].job_description == JobDescription::Princess);
        assert(personae[5].job_description == JobDescription::Figurehead);
        assert(ascensions_below(commit, 6) == ascensions_below(commit, 5));
        assert(ascensions_below(commit, 5) == ascensions_below(commit, 4).push(
            ascend(commit, personae[4]),
        ));
        assert forall|j: int| 0 <= j < subpredicted(commit).len() implies (
        #[trigger] subpredicted(commit)[j]).patch == commit.patch by {
            lemma_ascensions_keep_patch(commit, 6, j);
        }
    }
}

/// Every patch of `patches` is the patch of some reckless commit.
pub proof fn lemma_reckless_offers(world: WorldState, patches: Seq<Patch>, j: int)
    requires
        0 <= j < patches.len(),
    ensures
        exists|k: int|
            0 <= k < world.expand_reckless(patches).len() && (#[trigger] world.expand_reckless(
                patches,
            )[k]).patch == patches[j],
    decreases patches.len(),
{
    reveal(WorldState::reckless_commits);
    let shorter = patches.drop_last();
    let earlier = world.expand_reckless(shorter);
    let all = world.expand_reckless(patches);
    if j < shorter.len() {
        lemma_reckless_offers(world, shorter, j);
        let k = choose|k: int| 0 <= k < earlier.len() && (#[trigger] earlier[k]).patch == shorter[j];
        assert(all[k] == earlier[k]);
    } else {
        lemma_subpredicted_keeps_patch(world.spec_apply(patches.last()));
        let k = earlier.len() as int;
        assert(all[k] == subpredicted(world.spec_apply(patches.last()))[0]);
    }
}

proof fn lemma_servant_gather_offers(world: WorldState, team: Team, starts: Seq<Locale>, i: int, j: int)
    requires
        0 <= i < starts.len(),
        0 <= j < world.servant_patches_at(team, starts[i]).len(),
    ensures
        exists|m: int|
            0 <= m < world.servant_gather(team, starts).len() && world.servant_gather(team, starts)[m]
                == world.servant_patches_at(team, starts[i])[j],
    decreases starts.len(),
{
    let shorter = starts.drop_last();
    let earlier = world.servant_gather(team, shorter);
    let all = world.servant_gather(team, starts);
    if i < shorter.len() {
        assert(shorter[i] == starts[i]);
        lemma_servant_gather_offers(world, team, shorter, i, j);
        let m = choose|m: int|
            0 <= m < earlier.len() && earlier[m] == world.servant_patches_at(team, shorter[i])[j];
        assert(all[m] == earlier[m]);
    } else {
        assert(all[earlier.len() + j] == world.servant_patches_at(team, starts[i])[j]);
    }
}

proof fn lemma_hop_gather_offers(world: WorldState, agent: Agent, starts: Seq<Locale>, i: int, j: int)
    requires
        0 <= i < starts.len(),
        0 <= j < world.hop_patches_at(agent, starts[i]).len(),
    ensures
        exists|m: int|
            0 <= m < world.hop_gather(agent, starts).len() && world.hop_gather(agent, starts)[m]
                == world.hop_patches_at(agent, starts[i])[j],
    decreases starts.len(),
{
    let shorter = starts.drop_last();
    let earlier = world.hop_gather(agent, shorter);
    let all = world.hop_gather(agent, starts);
    if i < shorter.len() {
        assert(shorter[i] == starts[i]);
        lemma_hop_gather_offers(world, agent, shorter, i, j);
        let m = choose|m: int|
            0 <= m < earlier.len() && earlier[m] == world.hop_patches_at(agent, shorter[i])[j];
        assert(all[m] == earlier[m]);
    } else {
        assert(all[earlier.len() + j] == world.hop_patches_at(agent, starts[i])[j]);
    }
}

proof fn lemma_patches_to_member(agent: Agent, start: Locale, destinations: Seq<Locale>, i: int)
    requires
        0 <= i < destinations.len(),
    ensures
        WorldState::patches_to(agent, start, destinations).len() == destinations.len(),
        WorldState::patches_to(agent, start, destinations)[i] == (Patch {
            star: agent,
            whence: start,
            whither: destinations[i],
        }),
    decreases destinations.len(),
{
    let shorter = destinations.drop_last();
    lemma_patches_to_len(agent, start, shorter);
    if i < shorter.len() {
        lemma_patches_to_member(agent, start, shorter, i);
    }
}

proof fn lemma_patches_to_len(agent: Agent, start: Locale, destinations: Seq<Locale>)
    ensures
        WorldState::patches_to(agent, start, destinations).len() == destinations.len(),
    decreases destinations.len(),
{
    if destinations.len() > 0 {
        lemma_patches_to_len(agent, start, destinations.drop_last());
    }
}

/// The pin of every locale that one of `offsets` reaches from `start` is in
/// `hop_bits`.
proof fn lemma_hop_bits_has(start: Locale, offsets: Seq<(i8, i8)>, j: int, to: Locale)
    requires
        0 <= j < offsets.len(),
        start.spec_displace(offsets[j]) == Some(to),
    ensures
        pin_at(hop_bits(start, offsets), to.index() as u64),
    decreases offsets.len(),
{
    let shorter = offsets.drop_last();
    let i = to.index() as u64;
    let step = match start.spec_displace(offsets.last()) {
        Some(destination) => 1u64 << (destination.index() as u64),
        None => 0u64,
    };
    lemma_pin_union(hop_bits(start, shorter), step, i);
    if j < shorter.len() {
        assert(shorter[j] == offsets[j]);
        lemma_hop_bits_has(start, shorter, j, to);
    } else {
        lemma_pin_single(i, i);
    }
}

/// A hopping figurine (a pony or a figurehead) at `start` is offered the hop
/// to every locale that one of its offsets reaches and its team does not hold.
proof fn lemma_hop_listed(world: WorldState, agent: Agent, start: Locale, to: Locale, j: int)
    requires
        start.on_board(),
        to.on_board(),
        world.pinfield_of(agent).holds(start),
        forall|job: JobDescription|
            !(#[trigger] world.pinfield_of(Agent { team: agent.team, job_description: job })).holds(
                to,
            ),
        0 <= j < hop_offsets(agent.job_description).len(),
        start.spec_displace(hop_offsets(agent.job_description)[j]) == Some(to),
    ensures
        exists|m: int|
            0 <= m < world.hop_patches(agent).len() && #[trigger] world.hop_patches(agent)[m]
                == (Patch { star: agent, whence: start, whither: to }),
{
    let team = agent.team;
    let offsets = hop_offsets(agent.job_description);
    lemma_hop_bits_has(start, offsets, j, to);
    let i = to.index() as u64;
    let occupied = world.spec_occupied_by(team);
    let mask = !occupied & hop_bits(start, offsets);
    lemma_occupation_pins(world, team, i);
    assert(!world.pinfield_of(Agent { team, job_description: JobDescription::Servant }).holds(to));
    assert(!world.pinfield_of(Agent { team, job_description: JobDescription::Pony }).holds(to));
    assert(!world.pinfield_of(Agent { team, job_description: JobDescription::Scholar }).holds(to));
    assert(!world.pinfield_of(Agent { team, job_description: JobDescription::Cop }).holds(to));
    assert(!world.pinfield_of(Agent { team, job_description: JobDescription::Princess }).holds(to));
    assert(!world.pinfield_of(Agent { team, job_description: JobDescription::Figurehead }).holds(
        to,
    ));
    lemma_pin_intersection(!occupied, hop_bits(start, offsets), i);
    lemma_pin_invert(occupied, i);
    lemma_pinned_member(mask, to, 64);
    let destinations = pinned_locales(mask);
    let d = choose|d: int| 0 <= d < destinations.len() && destinations[d] == to;
    lemma_patches_to_member(agent, start, destinations, d);
    let starts = pinned_locales(world.pinfield_of(agent).0);
    lemma_pinned_member(world.pinfield_of(agent).0, start, 64);
    let s = choose|s: int| 0 <= s < starts.len() && starts[s] == start;
    lemma_hop_gather_offers(world, agent, starts, s, d);
    let patches = world.hop_patches(agent);
    let m = choose|m: int|
        0 <= m < patches.len() && patches[m] == world.hop_patches_at(agent, starts[s])[d];
    assert(patches[m] == (Patch { star: agent, whence: start, whither: to }));
}

/// A hopping figurine at `start` is offered, among the reckless premonitions
/// of its kind, the hop to every locale that one of its offsets reaches and
/// its team does not hold.
proof fn lemma_hop_offered(world: WorldState, agent: Agent, start: Locale, to: Locale, j: int)
    requires
        start.on_board(),
        to.on_board(),
        world.pinfield_of(agent).holds(start),
        forall|job: JobDescription|
            !(#[trigger] world.pinfield_of(Agent { team: agent.team, job_description: job })).holds(
                to,
            ),
        0 <= j < hop_offsets(agent.job_description).len(),
        start.spec_displace(hop_offsets(agent.job_description)[j]) == Some(to),
    ensures
        ({
            let premonitions = world.expand(world.hop_patches(agent), true);
            exists|k: int|
                0 <= k < premonitions.len() && (#[trigger] premonitions[k]).patch == (Patch {
                    star: agent,
                    whence: start,
                    whither: to,
                })
        }),
{
    lemma_hop_listed(world, agent, start, to, j);
    let patches = world.hop_patches(agent);
    let m = choose|m: int|
        0 <= m < patches.len() && #[trigger] patches[m] == (Patch {
            star: agent,
            whence: start,
            whither: to,
        });
    lemma_reckless_offers(world, patches, m);
    let premonitions = world.expand(patches, true);
    let k = choose|k: int|
        0 <= k < world.expand_reckless(patches).len() && (#[trigger] world.expand_reckless(
            patches,
        )[k]).patch == patches[m];
    assert(premonitions[k].patch == (Patch { star: agent, whence: start, whither: to }));
}

/// The offset of a pony's jump from `start` to `to`.
proof fn pony_offset_index(start: Locale, to: Locale) -> (j: int)
    requires
        start.on_board(),
        to.on_board(),
        ({
            let dr = to.rank - start.rank;
            let df = to.file - start.file;
            ((dr == 1 || dr == -1) && (df == 2 || df == -2)) || ((dr == 2 || dr == -2) && (df == 1
                || df == -1))
        }),
    ensures
        0 <= j < hop_offsets(JobDescription::Pony).len(),
        start.spec_displace(hop_offsets(JobDescription::Pony)[j]) == Some(to),
{
    let offsets = hop_offsets(JobDescription::Pony);
    let dr = to.rank - start.rank;
    let df = to.file - start.file;
    let j: int = if dr == 1 && df == 2 {
        0
    } else if dr == 2 && df == 1 {
        1
    } else if dr == 2 && df == -1 {
        2
    } else if dr == 1 && df == -2 {
        3
    } else if dr == -1 && df == -2 {
        4
    } else if dr == -2 && df == -1 {
        5
    } else if dr == -2 && df == 1 {
        6
    } else {
        7
    };
    assert(offsets[j].0 == dr && offsets[j].1 == df);
    j
}

/// The offset of a figurehead's step from `start` to `to`.
proof fn figurehead_offset_index(start: Locale, to: Locale) -> (j: int)
    requires
        start.on_board(),
        to.on_board(),
        -1 <= to.rank - start.rank <= 1,
        -1 <= to.file - start.file <= 1,
        to != start,
    ensures
        0 <= j < hop_offsets(JobDescription::Figurehead).len(),
        start.spec_displace(hop_offsets(JobDescription::Figurehead)[j]) == Some(to),
{
    let offsets = hop_offsets(JobDescription::Figurehead);
    let dr = to.rank - start.rank;
    let df = to.file - start.file;
    let j: int = if dr == -1 {
        df + 1
    } else if dr == 0 {
        if df == -1 {
            3
        } else {
            4
        }
    } else {
        df + 6
    };
    assert(offsets[j].0 == dr && offsets[j].1 == df);
    j
}

/// A pony hops to every locale of the lattice that lies one rank and two
/// files, or two ranks and one file, away from it and that its own team
/// does not hold: some reckless premonition of its team moves it there.
pub proof fn law_pony_hops_complete(world: WorldState, team: Team, start: Locale, to: Locale)
    requires
        start.on_board(),
        to.on_board(),
        world.pinfield_of(Agent { team, job_description: JobDescription::Pony }).holds(start),
        forall|job: JobDescription|
            !(#[trigger] world.pinfield_of(Agent { team, job_description: job })).holds(to),
        ({
            let dr = to.rank - start.rank;
            let df = to.file - start.file;
            ((dr == 1 || dr == -1) && (df == 2 || df == -2)) || ((dr == 2 || dr == -2) && (df == 1
                || df == -1))
        }),
    ensures
        ({
            let pony = Agent { team, job_description: JobDescription::Pony };
            let premonitions = world.expand(world.hop_patches(pony), true);
            exists|k: int|
                0 <= k < premonitions.len() && (#[trigger] premonitions[k]).patch == (Patch {
                    star: pony,
                    whence: start,
                    whither: to,
                })
        }),
{
    let pony = Agent { team, job_description: JobDescription::Pony };
    let j = pony_offset_index(start, to);
    lemma_hop_offered(world, pony, start, to, j);
}

/// A figurehead steps to every adjacent locale of the lattice, along a
/// rank, a file or a diagonal, that its own team does not hold: some
/// reckless premonition of its team moves it there.
pub proof fn law_figurehead_steps_complete(world: WorldState, team: Team, start: Locale, to: Locale)
    requires
        start.on_board(),
        to.on_board(),
        world.pinfield_of(Agent { team, job_description: JobDescription::Figurehead }).holds(start),
        forall|job: JobDescription|
            !(#[trigger] world.pinfield_of(Agent { team, job_description: job })).holds(to),
        -1 <= to.rank - start.rank <= 1,
        -1 <= to.file - start.file <= 1,
        to != start,
    ensures
        ({
            let figurehead = Agent { team, job_description: JobDescription::Figurehead };
            let premonitions = world.expand(world.hop_patches(figurehead), true);
            exists|k: int|
                0 <= k < premonitions.len() && (#[trigger] premonitions[k]).patch == (Patch {
                    star: figurehead,
                    whence: start,
                    whither: to,
                })
        }),
{
    let figurehead = Agent { team, job_description: JobDescription::Figurehead };
    let j = figurehead_offset_index(start, to);
    lemma_hop_offered(world, figurehead, start, to, j);
}

/// Every hop offered to a pony is a pony's jump, one rank and two files or
/// two ranks and one file, and every step offered to a figurehead reaches
/// an adjacent locale; and neither lands where its own team stands.
pub proof fn law_hops_sound(world: WorldState, agent: Agent, k: int)
    requires
        agent.job_description == JobDescription::Pony || agent.job_description
            == JobDescription::Figurehead,
        0 <= k < world.hop_patches(agent).len(),
    ensures
        ({
            let patch = world.hop_patches(agent)[k];
            let dr = patch.whither.rank - patch.whence.rank;
            let df = patch.whither.file - patch.whence.file;
            &&& patch.star == agent
            &&& patch.whither.on_board()
            &&& forall|job: JobDescription|
                !(#[trigger] world.pinfield_of(Agent { team: agent.team, job_description: job })).holds(
                    patch.whither,
                )
            &&& agent.job_description == JobDescription::Pony ==> (((dr == 1 || dr == -1) && (df == 2
                || df == -2)) || ((dr == 2 || dr == -2) && (df == 1 || df == -1)))
            &&& agent.job_description == JobDescription::Figurehead ==> (-1 <= dr <= 1 && -1 <= df
                <= 1 && (dr != 0 || df != 0))
        }),
{
    let starts = pinned_locales(world.pinfield_of(agent).0);
    assert forall|i: int| 0 <= i < starts.len() implies (#[trigger] starts[i]).on_board() by {
        crate::space::law_pinned_locales_are_held(world.pinfield_of(agent).0, 64, i);
    }
    lemma_hop_gather_member(world, agent, starts, k);
}

proof fn lemma_hop_gather_member(world: WorldState, agent: Agent, starts: Seq<Locale>, k: int)
    requires
        agent.job_description == JobDescription::Pony || agent.job_description
            == JobDescription::Figurehead,
        0 <= k < world.hop_gather(agent, starts).len(),
        forall|i: int| 0 <= i < starts.len() ==> (#[trigger] starts[i]).on_board(),
    ensures
        ({
            let patch = world.hop_gather(agent, starts)[k];
            let dr = patch.whither.rank - patch.whence.rank;
            let df = patch.whither.file - patch.whence.file;
            &&& patch.star == agent
            &&& patch.whither.on_board()
            &&& forall|job: JobDescription|
                !(#[trigger] world.pinfield_of(Agent { team: agent.team, job_description: job })).holds(
                    patch.whither,
                )
            &&& agent.job_description == JobDescription::Pony ==> (((dr == 1 || dr == -1) && (df == 2
                || df == -2)) || ((dr == 2 || dr == -2) && (df == 1 || df == -1)))
            &&& agent.job_description == JobDescription::Figurehead ==> (-1 <= dr <= 1 && -1 <= df
                <= 1 && (dr != 0 || df != 0))
        }),
    decreases starts.len(),
{
    let shorter = starts.drop_last();
    let earlier = world.hop_gather(agent, shorter);
    if k < earlier.len() {
        assert forall|i: int| 0 <= i < shorter.len() implies (#[trigger] shorter[i]).on_board() by {
            assert(shorter[i] == starts[i]);
        }
        lemma_hop_gather_member(world, agent, shorter, k);
    } else {
        let start = starts.last();
        let team = agent.team;
        let offsets = hop_offsets(agent.job_description);
        let occupied = world.spec_occupied_by(team);
        let mask = !occupied & hop_bits(start, offsets);
        let destinations = pinned_locales(mask);
        let d = k - earlier.len();
        lemma_patches_to_len(agent, start, destinations);
        lemma_patches_to_member(agent, start, destinations, d);
        let to = destinations[d];
        crate::space::law_pinned_locales_are_held(mask, 64, d);
        let i = to.index() as u64;
        lemma_pin_intersection(!occupied, hop_bits(start, offsets), i);
        lemma_pin_invert(occupied, i);
        crate::motion::lemma_hop_member(start, offsets, i);
        lemma_locale_of_own_pin(to);
        let j = choose|j: int|
            0 <= j < offsets.len() && start.spec_displace(#[trigger] offsets[j]) == Some(
                locale_of_pin(i as int),
            );
        assert(start.spec_displace(offsets[j]) == Some(to));
        lemma_occupation_pins(world, team, i);
        assert forall|job: JobDescription|
            !(#[trigger] world.pinfield_of(Agent { team, job_description: job })).holds(to) by {
            match job {
                JobDescription::Servant => {},
                JobDescription::Pony => {},
                JobDescription::Scholar => {},
                JobDescription::Cop => {},
                JobDescription::Princess => {},
                JobDescription::Figurehead => {},
            }
        }
        if agent.job_description == JobDescription::Pony {
            assert(offsets == crate::motion::pony_offsets());
        } else {
            assert(offsets == crate::motion::figurehead_offsets());
        }
        assert(0 <= j < 8);
        assert(j == 0 || j == 1 || j == 2 || j == 3 || j == 4 || j == 5 || j == 6 || j == 7);
    }
}

/// A servant attacks the two locales diagonally ahead of it: a figurehead
/// of the opposition placed on either could be stunned by it, so its team
/// leers at both.
pub proof fn law_servants_leer(world: WorldState, team: Team, post: Locale, at: Locale)
    requires
        post.on_board(),
        at.on_board(),
        world.pinfield_of(Agent { team, job_description: JobDescription::Servant }).holds(post),
        at.rank == post.rank + (if team == Team::Orange {
            1int
        } else {
            -1int
        }),
        at.file == post.file + 1 || at.file + 1 == post.file,
    ensures
        world.leered(at, team),
{
    let opp = team.spec_opposition();
    let servant = Agent { team, job_description: JobDescription::Servant };
    let target = Agent { team: opp, job_description: JobDescription::Figurehead };
    let base = world.with_pinfield(target, world.pinfield_of(target).spec_alight(at));
    let tree = WorldState { initiative: team, ..base };
    law_replace_subboard(world, target, world.pinfield_of(target).spec_alight(at), servant);
    law_replace_subboard(world, target, world.pinfield_of(target).spec_alight(at), target);
    assert(tree.pinfield_of(servant) == world.pinfield_of(servant));
    assert(tree.pinfield_of(target) == world.pinfield_of(target).spec_alight(at));
    law_alight(world.pinfield_of(target), at, at);
    lemma_occupation_pins(tree, opp, at.index() as u64);
    assert(Pinfield(tree.spec_occupied_by(opp)).holds(at));
    let west = at.file + 1 == post.file;
    let offset = if west {
        stun_directions(team).0
    } else {
        stun_directions(team).1
    };
    assert(post.spec_displace(offset) == Some(at));
    let patch = Patch { star: servant, whence: post, whither: at };
    let step = tree.step_patch(team, post);
    let double = tree.double_patch(team, post);
    let left = tree.stun_patch(team, post, stun_directions(team).0);
    let right = tree.stun_patch(team, post, stun_directions(team).1);
    let here = tree.servant_patches_at(team, post);
    let j: int = if west {
        assert(left == seq![patch]);
        (step.len() + double.len()) as int
    } else {
        assert(right == seq![patch]);
        (step.len() + double.len() + left.len()) as int
    };
    assert(here[j] == patch);
    let starts = pinned_locales(tree.pinfield_of(servant).0);
    lemma_pinned_member(tree.pinfield_of(servant).0, post, 64);
    let s = choose|s: int| 0 <= s < starts.len() && starts[s] == post;
    lemma_servant_gather_offers(tree, team, starts, s, j);
    let servants = tree.servant_patches(team);
    let m = choose|m: int| 0 <= m < servants.len() && servants[m] == here[j];
    let moves = tree.move_patches(team);
    assert(moves[m] == servants[m]);
    lemma_reckless_offers(tree, moves, m);
}

/// A secret service never starts on, crosses or ends on a locale that the
/// opposition leers at: every locale of its rank from the figurehead's
/// origin to its destination is unattacked.
pub proof fn law_service_never_through_attack(world: WorldState, team: Team, k: int, file: u8)
    requires
        0 <= k < world.service_patches(team).len(),
        ({
            let patch = world.service_patches(team)[k];
            (patch.whither.file <= file <= patch.whence.file) || (patch.whence.file <= file
                <= patch.whither.file)
        }),
    ensures
        ({
            let patch = world.service_patches(team)[k];
            &&& patch.whence.rank == patch.whither.rank
            &&& !world.leered(Locale { rank: patch.whither.rank, file }, team.spec_opposition())
        }),
{
}

/// The world in which `leered(at, team)` looks for movements of `team`.
proof fn lemma_leer_tree_keeps(world: WorldState, team: Team, at: Locale, agent: Agent)
    requires
        agent.team == team,
    ensures
        ({
            let target = Agent { team: team.spec_opposition(), job_description: JobDescription::Figurehead };
            let tree = WorldState {
                initiative: team,
                ..world.with_pinfield(target, world.pinfield_of(target).spec_alight(at))
            };
            tree.pinfield_of(agent) == world.pinfield_of(agent)
        }),
{
    let target = Agent { team: team.spec_opposition(), job_description: JobDescription::Figurehead };
    law_replace_subboard(world, target, world.pinfield_of(target).spec_alight(at), agent);
}

/// A pony attacks every locale a pony's jump away that its own team does
/// not hold, and a figurehead every adjacent one: its team leers at them.
pub proof fn law_hoppers_leer(world: WorldState, agent: Agent, post: Locale, at: Locale)
    requires
        agent.job_description == JobDescription::Pony || agent.job_description
            == JobDescription::Figurehead,
        post.on_board(),
        at.on_board(),
        world.pinfield_of(agent).holds(post),
        forall|job: JobDescription|
            !(#[trigger] world.pinfield_of(Agent { team: agent.team, job_description: job })).holds(at),
        ({
            let dr = at.rank - post.rank;
            let df = at.file - post.file;
            &&& agent.job_description == JobDescription::Pony ==> (((dr == 1 || dr == -1) && (df == 2
                || df == -2)) || ((dr == 2 || dr == -2) && (df == 1 || df == -1)))
            &&& agent.job_description == JobDescription::Figurehead ==> (-1 <= dr <= 1 && -1 <= df
                <= 1 && at != post)
        }),
    ensures
        world.leered(at, agent.team),
{
    let team = agent.team;
    let target = Agent { team: team.spec_opposition(), job_description: JobDescription::Figurehead };
    let tree = WorldState {
        initiative: team,
        ..world.with_pinfield(target, world.pinfield_of(target).spec_alight(at))
    };
    lemma_leer_tree_keeps(world, team, at, agent);
    assert forall|job: JobDescription|
        !(#[trigger] tree.pinfield_of(Agent { team, job_description: job })).holds(at) by {
        lemma_leer_tree_keeps(world, team, at, Agent { team, job_description: job });
    }
    let j = if agent.job_description == JobDescription::Pony {
        pony_offset_index(post, at)
    } else {
        figurehead_offset_index(post, at)
    };
    lemma_hop_listed(tree, agent, post, at, j);
    let hops = tree.hop_patches(agent);
    let m = choose|m: int|
        0 <= m < hops.len() && #[trigger] hops[m] == (Patch { star: agent, whence: post, whither: at });
    let a = tree.servant_patches(team);
    let b = tree.hop_patches(Agent { team, job_description: JobDescription::Pony });
    let c = tree.slide_patches(Agent { team, job_description: JobDescription::Scholar });
    let d = tree.slide_patches(Agent { team, job_description: JobDescription::Cop });
    let e = tree.slide_patches(Agent { team, job_description: JobDescription::Princess });
    let moves = tree.move_patches(team);
    let index = if agent.job_description == JobDescription::Pony {
        assert(agent == Agent { team, job_description: JobDescription::Pony });
        a.len() + m
    } else {
        assert(agent == Agent { team, job_description: JobDescription::Figurehead });
        a.len() + b.len() + c.len() + d.len() + e.len() + m
    };
    assert(moves[index] == hops[m]);
    lemma_reckless_offers(tree, moves, index);
}

/// The directions in which a figurine of `job` slides: diagonally for a
/// scholar, along ranks and files for a cop, either way for a princess.
pub open spec fn slides_along(job: JobDescription, direction: (i8, i8)) -> bool {
    let diagonal = (direction.0 == 1 || direction.0 == -1) && (direction.1 == 1 || direction.1
        == -1);
    let straight = (direction.0 == 0 && (direction.1 == 1 || direction.1 == -1)) || (direction.1
        == 0 && (direction.0 == 1 || direction.0 == -1));
    match job {
        JobDescription::Scholar => diagonal,
        JobDescription::Cop => straight,
        JobDescription::Princess => diagonal || straight,
        _ => false,
    }
}

proof fn lemma_ray_reaches(
    world: WorldState,
    agent: Agent,
    start: Locale,
    direction: (i8, i8),
    venture: int,
    n: int,
    to: Locale,
)
    requires
        1 <= venture <= n <= 8,
        start.spec_multidisplace(direction, n) == Some(to),
        forall|i: int|
            venture <= i < n ==> (#[trigger] start.spec_multidisplace(direction, i) matches Some(
                l,
            ) && world.vacant(l)),
        !Pinfield(world.spec_occupied_by(agent.team)).holds(to),
    ensures
        exists|m: int|
            0 <= m < world.ray(agent, start, direction, venture).len() && world.ray(
                agent,
                start,
                direction,
                venture,
            )[m] == (Patch { star: agent, whence: start, whither: to }),
    decreases n - venture,
{
    let ray = world.ray(agent, start, direction, venture);
    if venture == n {
        assert(ray[0] == (Patch { star: agent, whence: start, whither: to }));
    } else {
        lemma_ray_reaches(world, agent, start, direction, venture + 1, n, to);
        let rest = world.ray(agent, start, direction, venture + 1);
        let m = choose|m: int|
            0 <= m < rest.len() && rest[m] == (Patch { star: agent, whence: start, whither: to });
        assert(start.spec_multidisplace(direction, venture) is Some);
        assert(ray[m + 1] == rest[m]);
    }
}

proof fn lemma_rays_offers(
    world: WorldState,
    agent: Agent,
    start: Locale,
    offsets: Seq<(i8, i8)>,
    q: int,
    m: int,
)
    requires
        0 <= q < offsets.len(),
        0 <= m < world.ray(agent, start, offsets[q], 1).len(),
    ensures
        exists|r: int|
            0 <= r < world.rays(agent, start, offsets).len() && world.rays(agent, start, offsets)[r]
                == world.ray(agent, start, offsets[q], 1)[m],
    decreases offsets.len(),
{
    let shorter = offsets.drop_last();
    let earlier = world.rays(agent, start, shorter);
    let all = world.rays(agent, start, offsets);
    if q < shorter.len() {
        assert(shorter[q] == offsets[q]);
        lemma_rays_offers(world, agent, start, shorter, q, m);
        let r = choose|r: int|
            0 <= r < earlier.len() && earlier[r] == world.ray(agent, start, shorter[q], 1)[m];
        assert(all[r] == earlier[r]);
    } else {
        assert(all[earlier.len() + m] == world.ray(agent, start, offsets[q], 1)[m]);
    }
}

proof fn lemma_slide_gather_offers(
    world: WorldState,
    agent: Agent,
    starts: Seq<Locale>,
    i: int,
    r: int,
)
    requires
        0 <= i < starts.len(),
        0 <= r < world.rays(agent, starts[i], crate::lookahead::slide_offsets(
            agent.job_description,
        )).len(),
    ensures
        exists|m: int|
            0 <= m < world.slide_gather(agent, starts).len() && world.slide_gather(agent, starts)[m]
                == world.rays(agent, starts[i], crate::lookahead::slide_offsets(
                agent.job_description,
            ))[r],
    decreases starts.len(),
{
    let offsets = crate::lookahead::slide_offsets(agent.job_description);
    let shorter = starts.drop_last();
    let earlier = world.slide_gather(agent, shorter);
    let all = world.slide_gather(agent, starts);
    if i < shorter.len() {
        assert(shorter[i] == starts[i]);
        lemma_slide_gather_offers(world, agent, shorter, i, r);
        let m = choose|m: int|
            0 <= m < earlier.len() && earlier[m] == world.rays(agent, shorter[i], offsets)[r];
        assert(all[m] == earlier[m]);
    } else {
        assert(all[earlier.len() + r] == world.rays(agent, starts[i], offsets)[r]);
    }
}

/// A scholar, cop or princess slides in each of its directions to every
/// locale that it reaches through vacant locales and that its own team does
/// not hold: some reckless premonition of its kind moves it there.
pub proof fn law_slides_complete(
    world: WorldState,
    agent: Agent,
    start: Locale,
    direction: (i8, i8),
    n: int,
    to: Locale,
)
    requires
        slides_along(agent.job_description, direction),
        start.on_board(),
        world.pinfield_of(agent).holds(start),
        1 <= n <= 7,
        start.spec_multidisplace(direction, n) == Some(to),
        forall|i: int|
            1 <= i < n ==> (#[trigger] start.spec_multidisplace(direction, i) matches Some(l)
                && world.vacant(l)),
        forall|job: JobDescription|
            !(#[trigger] world.pinfield_of(Agent { team: agent.team, job_description: job })).holds(
                to,
            ),
    ensures
        ({
            let premonitions = world.expand(world.slide_patches(agent), true);
            exists|k: int|
                0 <= k < premonitions.len() && (#[trigger] premonitions[k]).patch == (Patch {
                    star: agent,
                    whence: start,
                    whither: to,
                })
        }),
{
    let team = agent.team;
    let offsets = crate::lookahead::slide_offsets(agent.job_description);
    let q: int = if agent.job_description == JobDescription::Scholar {
        if direction.0 == -1 {
            if direction.1 == -1 { 0 } else { 1 }
        } else {
            if direction.1 == -1 { 2 } else { 3 }
        }
    } else if agent.job_description == JobDescription::Cop {
        if direction.0 == -1 {
            0
        } else if direction.0 == 1 {
            1
        } else if direction.1 == -1 {
            2
        } else {
            3
        }
    } else {
        if direction.0 == -1 {
            direction.1 + 1
        } else if direction.0 == 0 {
            if direction.1 == -1 { 3 } else { 4 }
        } else {
            direction.1 + 6
        }
    };
    assert(offsets[q] == direction);
    let i = to.index() as u64;
    lemma_occupation_pins(world, team, i);
    assert(!world.pinfield_of(Agent { team, job_description: JobDescription::Servant }).holds(to));
    assert(!world.pinfield_of(Agent { team, job_description: JobDescription::Pony }).holds(to));
    assert(!world.pinfield_of(Agent { team, job_description: JobDescription::Scholar }).holds(to));
    assert(!world.pinfield_of(Agent { team, job_description: JobDescription::Cop }).holds(to));
    assert(!world.pinfield_of(Agent { team, job_description: JobDescription::Princess }).holds(to));
    assert(!world.pinfield_of(Agent { team, job_description: JobDescription::Figurehead }).holds(
        to,
    ));
    lemma_ray_reaches(world, agent, start, direction, 1, n, to);
    let ray = world.ray(agent, start, direction, 1);
    let m = choose|m: int|
        0 <= m < ray.len() && ray[m] == (Patch { star: agent, whence: start, whither: to });
    lemma_rays_offers(world, agent, start, offsets, q, m);
    let rays = world.rays(agent, start, offsets);
    let r = choose|r: int| 0 <= r < rays.len() && rays[r] == ray[m];
    let starts = pinned_locales(world.pinfield_of(agent).0);
    lemma_pinned_member(world.pinfield_of(agent).0, start, 64);
    let s = choose|s: int| 0 <= s < starts.len() && starts[s] == start;
    lemma_slide_gather_offers(world, agent, starts, s, r);
    let patches = world.slide_patches(agent);
    let g = choose|g: int| 0 <= g < patches.len() && patches[g] == world.rays(agent, starts[s], offsets)[r];
    assert(patches[g] == (Patch { star: agent, whence: start, whither: to }));
    lemma_reckless_offers(world, patches, g);
    let premonitions = world.expand(patches, true);
    let k = choose|k: int|
        0 <= k < world.expand_reckless(patches).len() && (#[trigger] world.expand_reckless(
            patches,
        )[k]).patch == patches[g];
    assert(premonitions[k].patch == (Patch { star: agent, whence: start, whither: to }));
}

proof fn lemma_vacant_not_held_by(world: WorldState, at: Locale, team: Team)
    requires
        at.pinnable(),
        world.vacant(at),
    ensures
        !Pinfield(world.spec_occupied_by(team)).holds(at),
{
    lemma_pin_union(world.spec_occupied_by(Team::Orange), world.spec_occupied_by(Team::Blue), at.index() as u64);
}

proof fn lemma_ray_sound(
    world: WorldState,
    agent: Agent,
    start: Locale,
    direction: (i8, i8),
    venture: int,
    m: int,
) -> (n: int)
    requires
        1 <= venture,
        0 <= m < world.ray(agent, start, direction, venture).len(),
    ensures
        venture <= n <= 8,
        world.ray(agent, start, direction, venture)[m].star == agent,
        world.ray(agent, start, direction, venture)[m].whence == start,
        start.spec_multidisplace(direction, n) == Some(
            world.ray(agent, start, direction, venture)[m].whither,
        ),
        forall|i: int|
            venture <= i < n ==> (#[trigger] start.spec_multidisplace(direction, i) matches Some(
                l,
            ) && world.vacant(l)),
        !Pinfield(world.spec_occupied_by(agent.team)).holds(
            world.ray(agent, start, direction, venture)[m].whither,
        ),
    decreases 9 - venture,
{
    let ray = world.ray(agent, start, direction, venture);
    let destination = start.spec_multidisplace(direction, venture).unwrap();
    let empty = world.vacant(destination);
    let friend = Pinfield(world.spec_occupied_by(agent.team)).holds(destination);
    let here = if empty || !friend {
        seq![Patch { star: agent, whence: start, whither: destination }]
    } else {
        Seq::empty()
    };
    if empty {
        lemma_vacant_not_held_by(world, destination, agent.team);
    }
    if m < here.len() {
        assert(ray[m] == here[m]);
        venture
    } else {
        let rest = world.ray(agent, start, direction, venture + 1);
        assert(ray[m] == rest[m - here.len()]);
        let n = lemma_ray_sound(world, agent, start, direction, venture + 1, m - here.len());
        n
    }
}

proof fn lemma_rays_member(world: WorldState, agent: Agent, start: Locale, offsets: Seq<(i8, i8)>, r: int) -> (found: (int, int))
    requires
        0 <= r < world.rays(agent, start, offsets).len(),
    ensures
        0 <= found.0 < offsets.len(),
        0 <= found.1 < world.ray(agent, start, offsets[found.0], 1).len(),
        world.rays(agent, start, offsets)[r] == world.ray(agent, start, offsets[found.0], 1)[found.1],
    decreases offsets.len(),
{
    let shorter = offsets.drop_last();
    let earlier = world.rays(agent, start, shorter);
    if r < earlier.len() {
        let found = lemma_rays_member(world, agent, start, shorter, r);
        assert(shorter[found.0] == offsets[found.0]);
        found
    } else {
        ((offsets.len() - 1) as int, r - earlier.len())
    }
}

proof fn lemma_slide_gather_member(world: WorldState, agent: Agent, starts: Seq<Locale>, k: int) -> (found: (int, int))
    requires
        0 <= k < world.slide_gather(agent, starts).len(),
    ensures
        0 <= found.0 < starts.len(),
        0 <= found.1 < world.rays(agent, starts[found.0], crate::lookahead::slide_offsets(agent.job_description)).len(),
        world.slide_gather(agent, starts)[k] == world.rays(agent, starts[found.0], crate::lookahead::slide_offsets(agent.job_description))[found.1],
    decreases starts.len(),
{
    let shorter = starts.drop_last();
    let earlier = world.slide_gather(agent, shorter);
    if k < earlier.len() {
        let found = lemma_slide_gather_member(world, agent, shorter, k);
        assert(shorter[found.0] == starts[found.0]);
        found
    } else {
        ((starts.len() - 1) as int, k - earlier.len())
    }
}

/// Every slide offered to a scholar, cop or princess goes in one of its
/// directions from a locale where it stands, through vacant locales only,
/// to a locale that its own team does not hold.
pub proof fn law_slides_sound(world: WorldState, agent: Agent, k: int)
    requires
        agent.job_description == JobDescription::Scholar || agent.job_description
            == JobDescription::Cop || agent.job_description == JobDescription::Princess,
        0 <= k < world.slide_patches(agent).len(),
    ensures
        ({
            let patch = world.slide_patches(agent)[k];
            &&& patch.star == agent
            &&& world.pinfield_of(agent).holds(patch.whence)
            &&& forall|job: JobDescription|
                !(#[trigger] world.pinfield_of(Agent { team: agent.team, job_description: job })).holds(
                    patch.whither,
                )
            &&& exists|direction: (i8, i8), n: int|
                #![trigger patch.whence.spec_multidisplace(direction, n)]
                slides_along(agent.job_description, direction) && 1 <= n <= 8
                    && patch.whence.spec_multidisplace(direction, n) == Some(patch.whither) && forall|i: int|
                    1 <= i < n ==> (#[trigger] patch.whence.spec_multidisplace(direction, i) matches Some(
                    l,
                ) && world.vacant(l))
        }),
{
    let offsets = crate::lookahead::slide_offsets(agent.job_description);
    let starts = pinned_locales(world.pinfield_of(agent).0);
    let (i, r) = lemma_slide_gather_member(world, agent, starts, k);
    let start = starts[i];
    crate::space::law_pinned_locales_are_held(world.pinfield_of(agent).0, 64, i);
    let (q, m) = lemma_rays_member(world, agent, start, offsets, r);
    let direction = offsets[q];
    let n = lemma_ray_sound(world, agent, start, direction, 1, m);
    let patch = world.slide_patches(agent)[k];
    assert(patch == world.ray(agent, start, direction, 1)[m]);
    assert(slides_along(agent.job_description, direction)) by {
        assert(q == 0 || q == 1 || q == 2 || q == 3 || q == 4 || q == 5 || q == 6 || q == 7);
    }
    let t = patch.whither;
    assert(t.pinnable()) by {
        assert(start.spec_multidisplace(direction, n) == Some(t));
    }
    lemma_occupation_pins(world, agent.team, t.index() as u64);
    assert forall|job: JobDescription|
        !(#[trigger] world.pinfield_of(Agent { team: agent.team, job_description: job })).holds(t) by {
        match job {
            JobDescription::Servant => {},
            JobDescription::Pony => {},
            JobDescription::Scholar => {},
            JobDescription::Cop => {},
            JobDescription::Princess => {},
            JobDescription::Figurehead => {},
        }
    }
}

/// The rank a servant of `team` advances by, and the rank it starts on.
pub open spec fn ahead(team: Team) -> int {
    if team == Team::Orange {
        1
    } else {
        -1
    }
}

pub open spec fn home_rank(team: Team) -> int {
    if team == Team::Orange {
        1
    } else {
        6
    }
}

/// The movements a servant of `team` at `post` may make to `to`: one
/// locale ahead onto a vacant locale; two ahead from its home rank, both
/// locales vacant; or one locale diagonally ahead onto a figurine of the
/// opposition or the passing-by locale.
pub open spec fn servant_may(world: WorldState, team: Team, post: Locale, to: Locale) -> bool {
    ||| (to.file == post.file && to.rank == post.rank + ahead(team) && world.vacant(to))
    ||| (to.file == post.file && post.rank == home_rank(team) && to.rank == post.rank + 2 * ahead(
        team,
    ) && world.vacant(to) && world.vacant(Locale { rank: (post.rank + ahead(team)) as u8, file: post.file }))
    ||| ((to.file == post.file + 1 || to.file + 1 == post.file) && to.rank == post.rank + ahead(team)
        && ((exists|job: JobDescription|
        #[trigger] world.pinfield_of(Agent { team: team.spec_opposition(), job_description: job }).holds(
            to,
        )) || world.passing_by_locale == Some(to)))
}

/// A servant is offered every movement that the rules allow it: some
/// reckless premonition of its team's servants makes it.
pub proof fn law_servants_move_complete(world: WorldState, team: Team, post: Locale, to: Locale)
    requires
        post.on_board(),
        to.on_board(),
        world.pinfield_of(Agent { team, job_description: JobDescription::Servant }).holds(post),
        servant_may(world, team, post, to),
    ensures
        ({
            let servant = Agent { team, job_description: JobDescription::Servant };
            let premonitions = world.expand(world.servant_patches(team), true);
            exists|k: int|
                0 <= k < premonitions.len() && (#[trigger] premonitions[k]).patch == (Patch {
                    star: servant,
                    whence: post,
                    whither: to,
                })
        }),
{
    let opp = team.spec_opposition();
    let servant = Agent { team, job_description: JobDescription::Servant };
    let patch = Patch { star: servant, whence: post, whither: to };
    let step = world.step_patch(team, post);
    let double = world.double_patch(team, post);
    let left = world.stun_patch(team, post, stun_directions(team).0);
    let right = world.stun_patch(team, post, stun_directions(team).1);
    let here = world.servant_patches_at(team, post);
    lemma_occupation_pins(world, opp, to.index() as u64);
    let j: int = if to.file == post.file && to.rank == post.rank + ahead(team) {
        assert(step == seq![patch]);
        0
    } else if to.file == post.file {
        assert(double == seq![patch]);
        step.len() as int
    } else if to.file + 1 == post.file {
        if world.passing_by_locale != Some(to) {
            let job = choose|job: JobDescription|
                #[trigger] world.pinfield_of(Agent { team: opp, job_description: job }).holds(to);
            match job {
                JobDescription::Servant => {},
                JobDescription::Pony => {},
                JobDescription::Scholar => {},
                JobDescription::Cop => {},
                JobDescription::Princess => {},
                JobDescription::Figurehead => {},
            }
        }
        assert(left == seq![patch]);
        (step.len() + double.len()) as int
    } else {
        if world.passing_by_locale != Some(to) {
            let job = choose|job: JobDescription|
                #[trigger] world.pinfield_of(Agent { team: opp, job_description: job }).holds(to);
            match job {
                JobDescription::Servant => {},
                JobDescription::Pony => {},
                JobDescription::Scholar => {},
                JobDescription::Cop => {},
                JobDescription::Princess => {},
                JobDescription::Figurehead => {},
            }
        }
        assert(right == seq![patch]);
        (step.len() + double.len() + left.len()) as int
    };
    assert(here[j] == patch);
    let starts = pinned_locales(world.pinfield_of(servant).0);
    lemma_pinned_member(world.pinfield_of(servant).0, post, 64);
    let s = choose|s: int| 0 <= s < starts.len() && starts[s] == post;
    lemma_servant_gather_offers(world, team, starts, s, j);
    let patches = world.servant_patches(team);
    let m = choose|m: int| 0 <= m < patches.len() && patches[m] == here[j];
    lemma_reckless_offers(world, patches, m);
    let premonitions = world.expand(patches, true);
    let k = choose|k: int|
        0 <= k < world.expand_reckless(patches).len() && (#[trigger] world.expand_reckless(
            patches,
        )[k]).patch == patches[m];
    assert(premonitions[k].patch == patch);
}

proof fn lemma_servant_gather_member(world: WorldState, team: Team, starts: Seq<Locale>, k: int) -> (found: (int, int))
    requires
        0 <= k < world.servant_gather(team, starts).len(),
    ensures
        0 <= found.0 < starts.len(),
        0 <= found.1 < world.servant_patches_at(team, starts[found.0]).len(),
        world.servant_gather(team, starts)[k] == world.servant_patches_at(team, starts[found.0])[found.1],
    decreases starts.len(),
{
    let shorter = starts.drop_last();
    let earlier = world.servant_gather(team, shorter);
    if k < earlier.len() {
        let found = lemma_servant_gather_member(world, team, shorter, k);
        assert(shorter[found.0] == starts[found.0]);
        found
    } else {
        ((starts.len() - 1) as int, k - earlier.len())
    }
}

/// Every movement offered to a servant is one that the rules allow it, from
/// a locale where it stands.
pub proof fn law_servants_move_sound(world: WorldState, team: Team, k: int)
    requires
        0 <= k < world.servant_patches(team).len(),
    ensures
        ({
            let patch = world.servant_patches(team)[k];
            &&& patch.star == (Agent { team, job_description: JobDescription::Servant })
            &&& patch.whence.on_board()
            &&& patch.whither.on_board()
            &&& world.pinfield_of(patch.star).holds(patch.whence)
            &&& servant_may(world, team, patch.whence, patch.whither)
        }),
{
    let opp = team.spec_opposition();
    let servant = Agent { team, job_description: JobDescription::Servant };
    let starts = pinned_locales(world.pinfield_of(servant).0);
    let (i, j) = lemma_servant_gather_member(world, team, starts, k);
    let post = starts[i];
    crate::space::law_pinned_locales_are_held(world.pinfield_of(servant).0, 64, i);
    let step = world.step_patch(team, post);
    let double = world.double_patch(team, post);
    let left = world.stun_patch(team, post, stun_directions(team).0);
    let right = world.stun_patch(team, post, stun_directions(team).1);
    let here = world.servant_patches_at(team, post);
    let patch = here[j];
    assert(patch == world.servant_patches(team)[k]);
    if j >= step.len() + double.len() {
        let to = patch.whither;
        if j < step.len() + double.len() + left.len() {
            assert(patch == left[j - step.len() - double.len()]);
        } else {
            assert(patch == right[j - step.len() - double.len() - left.len()]);
        }
        assert(to.on_board());
        lemma_occupation_pins(world, opp, to.index() as u64);
        if Pinfield(world.spec_occupied_by(opp)).holds(to) {
            if world.pinfield_of(Agent { team: opp, job_description: JobDescription::Servant }).holds(to) {
                assert(world.pinfield_of(Agent { team: opp, job_description: JobDescription::Servant }).holds(to));
            } else if world.pinfield_of(Agent { team: opp, job_description: JobDescription::Pony }).holds(to) {
                assert(world.pinfield_of(Agent { team: opp, job_description: JobDescription::Pony }).holds(to));
            } else if world.pinfield_of(Agent { team: opp, job_description: JobDescription::Scholar }).holds(to) {
                assert(world.pinfield_of(Agent { team: opp, job_description: JobDescription::Scholar }).holds(to));
            } else if world.pinfield_of(Agent { team: opp, job_description: JobDescription::Cop }).holds(to) {
                assert(world.pinfield_of(Agent { team: opp, job_description: JobDescription::Cop }).holds(to));
            } else if world.pinfield_of(Agent { team: opp, job_description: JobDescription::Princess }).holds(to) {
                assert(world.pinfield_of(Agent { team: opp, job_description: JobDescription::Princess }).holds(to));
            } else {
                assert(world.pinfield_of(Agent { team: opp, job_description: JobDescription::Figurehead }).holds(to));
            }
        }
    } else if j >= step.len() {
        assert(patch == double[j - step.len()]);
    } else {
        assert(patch == step[j]);
    }
}

/// A secret service is offered wherever the rules allow it: toward the east
/// where the team is still eligible, the two locales between figurehead and
/// cop are vacant, and none of the figurehead's origin, path and
/// destination is attacked; toward the west likewise over files 1 to 3.
pub proof fn law_service_offered(world: WorldState, team: Team, west: bool)
    requires
        world.eligible(team, west),
        ({
            let home = if team == Team::Orange { 0u8 } else { 7u8 };
            let opp = team.spec_opposition();
            &&& !world.leered(Locale { rank: home, file: 4 }, opp)
            &&& west ==> world.vacant(Locale { rank: home, file: 1 }) && world.vacant(
                Locale { rank: home, file: 2 },
            ) && world.vacant(Locale { rank: home, file: 3 }) && !world.leered(
                Locale { rank: home, file: 3 },
                opp,
            ) && !world.leered(Locale { rank: home, file: 2 }, opp) && !world.leered(
                Locale { rank: home, file: 1 },
                opp,
            )
            &&& !west ==> world.vacant(Locale { rank: home, file: 5 }) && world.vacant(
                Locale { rank: home, file: 6 },
            ) && !world.leered(Locale { rank: home, file: 5 }, opp) && !world.leered(
                Locale { rank: home, file: 6 },
                opp,
            )
        }),
    ensures
        ({
            let home = if team == Team::Orange { 0u8 } else { 7u8 };
            let services = world.service_patches(team);
            exists|k: int|
                0 <= k < services.len() && #[trigger] services[k] == (Patch {
                    star: Agent { team, job_description: JobDescription::Figurehead },
                    whence: Locale { rank: home, file: 4 },
                    whither: Locale { rank: home, file: if west { 2 } else { 6 } },
                })
        }),
{
    let services = world.service_patches(team);
    let home = if team == Team::Orange { 0u8 } else { 7u8 };
    let patch = Patch {
        star: Agent { team, job_description: JobDescription::Figurehead },
        whence: Locale { rank: home, file: 4 },
        whither: Locale { rank: home, file: if west { 2 } else { 6 } },
    };
    if west {
        assert(services[0] == patch);
    } else {
        let west_open = world.eligible(team, true) && world.vacant(Locale { rank: home, file: 1 })
            && world.vacant(Locale { rank: home, file: 2 }) && world.vacant(
            Locale { rank: home, file: 3 },
        );
        let opp = team.spec_opposition();
        let west_part = if west_open && !world.leered(Locale { rank: home, file: 1 }, opp)
            && !world.leered(Locale { rank: home, file: 2 }, opp) && !world.leered(
            Locale { rank: home, file: 3 },
            opp,
        ) {
            seq![
                Patch {
                    star: Agent { team, job_description: JobDescription::Figurehead },
                    whence: Locale { rank: home, file: 4 },
                    whither: Locale { rank: home, file: 2 },
                },
            ]
        } else {
            Seq::<Patch>::empty()
        };
        assert(services[west_part.len() as int] == patch);
    }
}

} // verus!
