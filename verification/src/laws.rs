//! Laws that relate the rules of movement across functions.
use vstd::prelude::*;
use crate::identity::{Agent, JobDescription, Team};
use crate::life::{Commit, Patch, WorldState, eligibility_bit, lemma_eligibility_bits, law_replace_subboard, service_cop_files, spent_eligibility};
use crate::lookahead::{ascend, ascensions_below, subpredicted};
use crate::space::{Locale, law_alight, law_quench};
use crate::fidelity::lemma_occupant_from;
use crate::ascension::{lemma_ascension_forms, law_ascension_keeps_endangerment, lemma_careful_safe};
use crate::lattice::{all_grounded, grounded, lemma_all_patches};

verus! {

/// Ascending keeps the world's turn.
proof fn lemma_ascensions_keep_turn(commit: Commit, k: nat, j: int)
    requires
        0 <= j < ascensions_below(commit, k).len(),
    ensures
        ascensions_below(commit, k)[j].tree.initiative == commit.tree.initiative,
    decreases k,
{
    if k > 0 {
        let earlier = ascensions_below(commit, (k - 1) as nat);
        if j < earlier.len() {
            lemma_ascensions_keep_turn(commit, (k - 1) as nat, j);
        }
    }
}

proof fn lemma_subpredicted(commit: Commit, j: int)
    requires
        0 <= j < subpredicted(commit).len(),
    ensures
        subpredicted(commit)[j].tree.initiative == commit.tree.initiative,
{
    if commit.patch.spec_servant_ascension() {
        lemma_ascensions_keep_turn(commit, 6, j);
    }
}

proof fn lemma_reckless_turns(world: WorldState, patches: Seq<Patch>, k: int)
    requires
        0 <= k < world.expand_reckless(patches).len(),
    ensures
        world.expand_reckless(patches)[k].tree.initiative == world.initiative.spec_opposition(),
    decreases patches.len(),
{
    reveal(WorldState::reckless_commits);
    if patches.len() > 0 {
        let earlier = world.expand_reckless(patches.drop_last());
        if k < earlier.len() {
            lemma_reckless_turns(world, patches.drop_last(), k);
        } else {
            lemma_subpredicted(world.spec_apply(patches.last()), k - earlier.len());
        }
    }
}

proof fn lemma_careful_commits(world: WorldState, patches: Seq<Patch>, k: int)
    requires
        0 <= k < world.expand_careful(patches).len(),
    ensures
        world.expand_careful(patches)[k].tree.initiative == world.initiative.spec_opposition(),
    decreases patches.len(),
{
    reveal(WorldState::careful_commits);
    if patches.len() > 0 {
        let earlier = world.expand_careful(patches.drop_last());
        if k < earlier.len() {
            lemma_careful_commits(world, patches.drop_last(), k);
        } else {
            lemma_subpredicted(world.spec_apply(patches.last()), k - earlier.len());
        }
    }
}

/// Turns alternate: after every patch the opposition has the initiative,
/// and so in every commit that either lookahead offers.
pub proof fn law_turns_alternate(world: WorldState, patch: Patch, k: int)
    ensures
        world.spec_apply(patch).tree.initiative == world.initiative.spec_opposition(),
        0 <= k < world.spec_lookahead().len() ==> world.spec_lookahead()[k].tree.initiative
            == world.initiative.spec_opposition(),
        0 <= k < world.spec_reckless_lookahead().len() ==> world.spec_reckless_lookahead()[k].tree.initiative
            == world.initiative.spec_opposition(),
{
    if 0 <= k < world.spec_lookahead().len() {
        lemma_careful_commits(world, world.all_patches(), k);
    }
    if 0 <= k < world.spec_reckless_lookahead().len() {
        lemma_reckless_turns(world, world.all_patches(), k);
    }
}

/// The careful lookahead never offers a commit that leaves the mover's own
/// figurehead in critical endangerment, ascensions included.
pub proof fn law_lookahead_is_careful(world: WorldState, k: int)
    requires
        0 <= k < world.spec_lookahead().len(),
    ensures
        !world.spec_lookahead()[k].tree.in_critical(world.initiative),
{
    lemma_all_patches(world);
    lemma_careful_safe(world, world.all_patches(), k);
}

/// A patch moves its figurine: afterwards the figurine stands at the
/// destination and no longer at its origin, and the figurine that it
/// stuns, if any, is gone from the lattice.
pub proof fn law_patch_moves_figurine(world: WorldState, patch: Patch)
    requires
        world.apply_defined(patch),
        patch.star.team == world.initiative,
        patch.whence.on_board(),
        patch.whither.on_board(),
        patch.whence != patch.whither,
    ensures
        world.spec_apply(patch).tree.pinfield_of(patch.star).holds(patch.whither),
        !world.spec_apply(patch).tree.pinfield_of(patch.star).holds(patch.whence),
        world.spec_apply(patch).hospitalization matches Some(stunned) ==> !world.spec_apply(
            patch,
        ).tree.pinfield_of(stunned).holds(world.ambulance_target(patch)),
{
    let star = patch.star;
    let star_field = world.pinfield_of(star).spec_transit(patch.whence, patch.whither);
    let first = world.with_pinfield(star, star_field);
    law_replace_subboard(world, star, star_field, star);
    let second = first.with_eligibility(
        spent_eligibility(first.service_eligibility, patch),
    );
    assert(second.pinfield_of(star) == star_field);
    let moved = world.moved(patch);
    if patch.spec_secret_service() {
        let cop = Agent { team: star.team, job_description: JobDescription::Cop };
        let (start_file, end_file) = service_cop_files(patch.whither.file);
        let cop_field = second.pinfield_of(cop).spec_transit(
            Locale { rank: patch.whither.rank, file: start_file },
            Locale { rank: patch.whither.rank, file: end_file },
        );
        law_replace_subboard(second, cop, cop_field, star);
    }
    assert(moved.pinfield_of(star) == star_field);
    let quenched = world.pinfield_of(star).spec_quench(patch.whence);
    law_alight(quenched, patch.whither, patch.whither);
    law_alight(quenched, patch.whither, patch.whence);
    law_quench(world.pinfield_of(star), patch.whence, patch.whence);
    let target = world.ambulance_target(patch);
    match world.spec_hospitalization(patch) {
        Some(stunned) => {
            lemma_occupant_from(world, target, world.initiative.spec_opposition(), 0);
            assert(stunned.team != star.team);
            let stunned_field = moved.pinfield_of(stunned).spec_quench(target);
            law_replace_subboard(moved, stunned, stunned_field, star);
            law_replace_subboard(moved, stunned, stunned_field, stunned);
            law_quench(moved.pinfield_of(stunned), target, target);
        },
        None => {},
    }
}

proof fn lemma_careful_within_reckless(world: WorldState, patches: Seq<Patch>)
    ensures
        forall|k: int|
            0 <= k < world.expand_careful(patches).len() ==> world.expand_reckless(
                patches,
            ).contains(#[trigger] world.expand_careful(patches)[k]),
    decreases patches.len(),
{
    reveal(WorldState::careful_commits);
    reveal(WorldState::reckless_commits);
    if patches.len() > 0 {
        let shorter = patches.drop_last();
        lemma_careful_within_reckless(world, shorter);
        let careful = world.expand_careful(patches);
        let reckless = world.expand_reckless(patches);
        let careful_before = world.expand_careful(shorter);
        let reckless_before = world.expand_reckless(shorter);
        assert forall|k: int| 0 <= k < careful.len() implies reckless.contains(
            #[trigger] careful[k],
        ) by {
            if k < careful_before.len() {
                let j = choose|j: int|
                    0 <= j < reckless_before.len() && reckless_before[j] == careful_before[k];
                assert(reckless[j] == careful[k]);
            } else {
                let j = k - careful_before.len();
                assert(reckless[reckless_before.len() + j] == careful[k]);
            }
        }
    }
}

proof fn lemma_safe_reckless_is_careful(world: WorldState, patches: Seq<Patch>)
    requires
        all_grounded(world, patches, world.initiative),
    ensures
        forall|k: int|
            0 <= k < world.expand_reckless(patches).len() && !(#[trigger] world.expand_reckless(
                patches,
            )[k]).tree.in_critical(world.initiative) ==> world.expand_careful(patches).contains(
                world.expand_reckless(patches)[k],
            ),
    decreases patches.len(),
{
    reveal(WorldState::careful_commits);
    reveal(WorldState::reckless_commits);
    if patches.len() > 0 {
        let shorter = patches.drop_last();
        let last = patches.last();
        assert(all_grounded(world, shorter, world.initiative)) by {
            assert forall|j: int| 0 <= j < shorter.len() implies grounded(
                world,
                #[trigger] shorter[j],
                world.initiative,
            ) by {
                assert(shorter[j] == patches[j]);
            }
        }
        assert(grounded(world, patches[patches.len() - 1], world.initiative));
        lemma_safe_reckless_is_careful(world, shorter);
        let careful = world.expand_careful(patches);
        let reckless = world.expand_reckless(patches);
        let careful_before = world.expand_careful(shorter);
        let reckless_before = world.expand_reckless(shorter);
        let commit = world.spec_apply(last);
        assert forall|k: int|
            0 <= k < reckless.len() && !(#[trigger] reckless[k]).tree.in_critical(
                world.initiative,
            ) implies careful.contains(reckless[k]) by {
            if k < reckless_before.len() {
                assert(reckless[k] == reckless_before[k]);
                let j = choose|j: int|
                    0 <= j < careful_before.len() && careful_before[j] == reckless_before[k];
                assert(careful[j] == reckless[k]);
            } else {
                let j = k - reckless_before.len();
                if last.spec_servant_ascension() {
                    lemma_ascension_forms(commit, 6, j);
                    let form = choose|form: Agent|
                        #![trigger ascend(commit, form)]
                        form.team == commit.patch.star.team && form.job_description
                            != JobDescription::Servant && form.job_description
                            != JobDescription::Figurehead && ascensions_below(commit, 6)[j]
                            == ascend(commit, form);
                    law_ascension_keeps_endangerment(world, last, form);
                } else {
                    assert(reckless[k] == commit);
                }
                assert(careful[careful_before.len() + j] == reckless[k]);
            }
        }
    }
}

/// The careful lookahead is the reckless one less the commits that leave
/// the mover's own figurehead in critical endangerment: every careful
/// commit is a reckless one, and every reckless commit that does not
/// endanger the mover is a careful one.
pub proof fn law_careful_within_reckless(world: WorldState)
    ensures
        forall|k: int|
            0 <= k < world.spec_lookahead().len() ==> world.spec_reckless_lookahead().contains(
                #[trigger] world.spec_lookahead()[k],
            ),
        forall|k: int|
            0 <= k < world.spec_reckless_lookahead().len() && !(
            #[trigger] world.spec_reckless_lookahead()[k]).tree.in_critical(world.initiative)
                ==> world.spec_lookahead().contains(world.spec_reckless_lookahead()[k]),
{
    lemma_careful_within_reckless(world, world.all_patches());
    lemma_all_patches(world);
    lemma_safe_reckless_is_careful(world, world.all_patches());
}

/// A figurehead that moves spends both of its team's secret services; a
/// cop that leaves the first or the last file spends the service on that
/// side. No other eligibility changes.
pub proof fn law_service_eligibility_spent(world: WorldState, patch: Patch, team: Team, west: bool)
    ensures
        ({
            let after = world.spec_apply(patch).tree;
            let star = patch.star;
            let spent = (star.job_description == JobDescription::Figurehead && team == star.team)
                || (star.job_description == JobDescription::Cop && team == star.team && ((west
                && patch.whence.file == 0) || (!west && patch.whence.file == 7)));
            after.eligible(team, west) == (!spent && world.eligible(team, west))
        }),
{
    let star = patch.star;
    let e = world.service_eligibility;
    match star.job_description {
        JobDescription::Figurehead => {
            let once = e & !eligibility_bit(star.team, false);
            lemma_eligibility_bits(e, star.team, false, team, west);
            lemma_eligibility_bits(once, star.team, true, team, west);
        },
        JobDescription::Cop => {
            if patch.whence.file == 0 {
                lemma_eligibility_bits(e, star.team, true, team, west);
            } else if patch.whence.file == 7 {
                lemma_eligibility_bits(e, star.team, false, team, west);
            }
        },
        _ => {},
    }
}

/// The pagan rune of a secret service names its side: exactly "O–O" where
/// the figurehead arrives on file 6, exactly "O–O–O" where it arrives on
/// file 2, so that the two always differ.
pub proof fn law_service_runes(east: Patch, west: Patch)
    requires
        east.star.job_description == JobDescription::Figurehead,
        east.whence.file == 4,
        east.whither.file == 6,
        west.star.job_description == JobDescription::Figurehead,
        west.whence.file == 4,
        west.whither.file == 2,
    ensures
        east.abbreviated_rune() == seq!['O', '–', 'O'],
        west.abbreviated_rune() == seq!['O', '–', 'O', '–', 'O'],
        east.abbreviated_rune() != west.abbreviated_rune(),
{
    assert(east.abbreviated_rune().len() != west.abbreviated_rune().len());
}

/// A secret service moves the cop too: toward the west (the figurehead
/// arriving on file 2) the cop of that rank leaves file 0 for file 3;
/// toward the east (file 6) it leaves file 7 for file 5.
pub proof fn law_service_moves_cop(world: WorldState, patch: Patch)
    requires
        patch.star == (Agent { team: world.initiative, job_description: JobDescription::Figurehead }),
        patch.whence.file == 4,
        patch.whither.file == 2 || patch.whither.file == 6,
        patch.whence.rank == patch.whither.rank,
        patch.whither.rank < 8,
    ensures
        ({
            let cop = Agent { team: world.initiative, job_description: JobDescription::Cop };
            let field = world.spec_apply(patch).tree.pinfield_of(cop);
            let rank = patch.whither.rank;
            &&& patch.whither.file == 2 ==> field.holds(Locale { rank, file: 3 }) && !field.holds(
                Locale { rank, file: 0 },
            )
            &&& patch.whither.file == 6 ==> field.holds(Locale { rank, file: 5 }) && !field.holds(
                Locale { rank, file: 7 },
            )
        }),
{
    let star = patch.star;
    let cop = Agent { team: world.initiative, job_description: JobDescription::Cop };
    let rank = patch.whither.rank;
    let star_field = world.pinfield_of(star).spec_transit(patch.whence, patch.whither);
    let first = world.with_pinfield(star, star_field);
    law_replace_subboard(world, star, star_field, cop);
    let second = first.with_eligibility(spent_eligibility(first.service_eligibility, patch));
    let (start_file, end_file) = service_cop_files(patch.whither.file);
    let start = Locale { rank, file: start_file };
    let end = Locale { rank, file: end_file };
    let cop_field = second.pinfield_of(cop).spec_transit(start, end);
    law_replace_subboard(second, cop, cop_field, cop);
    let moved = world.moved(patch);
    assert(moved.pinfield_of(cop) == cop_field);
    let quenched = second.pinfield_of(cop).spec_quench(start);
    law_alight(quenched, end, end);
    law_alight(quenched, end, start);
    law_quench(second.pinfield_of(cop), start, start);
    let target = world.ambulance_target(patch);
    match world.spec_hospitalization(patch) {
        Some(stunned) => {
            lemma_occupant_from(world, target, world.initiative.spec_opposition(), 0);
            let stunned_field = moved.pinfield_of(stunned).spec_quench(target);
            law_replace_subboard(moved, stunned, stunned_field, cop);
        },
        None => {},
    }
}

/// A servant's double step leaves the locale it passed over as the
/// passing-by locale, on the servant's file between its origin and its
/// destination; every other patch leaves none.
pub proof fn law_passing_by_after_double_step(world: WorldState, patch: Patch)
    requires
        patch.whence.on_board(),
        patch.whither.on_board(),
        patch.whence.file == patch.whither.file,
    ensures
        ({
            let passing = world.spec_apply(patch).tree.passing_by_locale;
            let shift = patch.whither.rank - patch.whence.rank;
            &&& patch.star.job_description == JobDescription::Servant && patch.star.team
                == Team::Orange && shift == 2 ==> passing == Some(
                Locale { rank: (patch.whence.rank + 1) as u8, file: patch.whence.file },
            )
            &&& patch.star.job_description == JobDescription::Servant && patch.star.team
                == Team::Blue && shift == -2 ==> passing == Some(
                Locale { rank: (patch.whence.rank - 1) as u8, file: patch.whence.file },
            )
            &&& (patch.star.job_description != JobDescription::Servant || (shift != 2 && shift
                != -2)) ==> passing is None
        }),
{
}

/// The pagan rune of a movement other than a secret service names the
/// destination after the figurine: nothing for a servant, else the Orange
/// preservation rune of the figurine's job, then the destination's
/// algebraic name; so it ends with that name.
pub proof fn law_rune_names_destination(patch: Patch)
    requires
        !patch.spec_secret_service(),
    ensures
        patch.star.job_description == JobDescription::Servant ==> patch.abbreviated_rune()
            == patch.whither.algebraic(),
        patch.star.job_description != JobDescription::Servant ==> patch.abbreviated_rune() == seq![
            Agent { team: Team::Orange, job_description: patch.star.job_description }.preservation_rune(),
        ] + patch.whither.algebraic(),
{
    if patch.star.job_description == JobDescription::Servant {
        assert(Seq::<char>::empty() + patch.whither.algebraic() =~= patch.whither.algebraic());
    }
}

} // verus!
