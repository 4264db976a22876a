//! An ascension turns the servant on the far rank into another figurine of
//! its team at the same locale; it changes nothing that the opposition's
//! movements depend on, and so it does not change whether the ascending
//! team's figurehead is in critical endangerment.
use vstd::prelude::*;
use crate::identity::{Agent, JobDescription, Team};
use crate::life::{Commit, Patch, WorldState, law_replace_subboard};
use crate::lookahead::{ascend, ascensions_below, stuns_figurehead, subpredicted};
use crate::space::{Locale, Pinfield, law_alight, law_quench, lemma_pin_intersection, lemma_pin_invert, lemma_pin_single, lemma_pin_union, lemma_pins_determine, pin_at};
use crate::lattice::{all_grounded, grounded, lemma_all_patches};

verus! {

/// Two worlds in which the movements of `team` are the same: its own
/// pinfields, the locales that the opposition occupies, and the
/// passing-by locale agree.
pub open spec fn agree(w1: WorldState, w2: WorldState, team: Team) -> bool {
    &&& forall|job: JobDescription|
        #[trigger] w1.pinfield_of(Agent { team, job_description: job }) == w2.pinfield_of(
            Agent { team, job_description: job },
        )
    &&& w1.spec_occupied_by(team.spec_opposition()) == w2.spec_occupied_by(team.spec_opposition())
    &&& w1.passing_by_locale == w2.passing_by_locale
}

proof fn lemma_agree_occupation(w1: WorldState, w2: WorldState, team: Team)
    requires
        agree(w1, w2, team),
    ensures
        w1.spec_occupied_by(team) == w2.spec_occupied_by(team),
        w1.spec_occupied() == w2.spec_occupied(),
{
    assert(w1.pinfield_of(Agent { team, job_description: JobDescription::Servant }) == w2.pinfield_of(
        Agent { team, job_description: JobDescription::Servant },
    ));
    assert(w1.pinfield_of(Agent { team, job_description: JobDescription::Pony }) == w2.pinfield_of(
        Agent { team, job_description: JobDescription::Pony },
    ));
    assert(w1.pinfield_of(Agent { team, job_description: JobDescription::Scholar }) == w2.pinfield_of(
        Agent { team, job_description: JobDescription::Scholar },
    ));
    assert(w1.pinfield_of(Agent { team, job_description: JobDescription::Cop }) == w2.pinfield_of(
        Agent { team, job_description: JobDescription::Cop },
    ));
    assert(w1.pinfield_of(Agent { team, job_description: JobDescription::Princess }) == w2.pinfield_of(
        Agent { team, job_description: JobDescription::Princess },
    ));
    assert(w1.pinfield_of(Agent { team, job_description: JobDescription::Figurehead })
        == w2.pinfield_of(Agent { team, job_description: JobDescription::Figurehead }));
}

proof fn lemma_servant_gather_agree(w1: WorldState, w2: WorldState, team: Team, starts: Seq<Locale>)
    requires
        agree(w1, w2, team),
    ensures
        w1.servant_gather(team, starts) == w2.servant_gather(team, starts),
    decreases starts.len(),
{
    lemma_agree_occupation(w1, w2, team);
    if starts.len() > 0 {
        lemma_servant_gather_agree(w1, w2, team, starts.drop_last());
        assert(w1.servant_patches_at(team, starts.last()) == w2.servant_patches_at(
            team,
            starts.last(),
        ));
    }
}

proof fn lemma_hop_gather_agree(w1: WorldState, w2: WorldState, agent: Agent, starts: Seq<Locale>)
    requires
        agree(w1, w2, agent.team),
    ensures
        w1.hop_gather(agent, starts) == w2.hop_gather(agent, starts),
    decreases starts.len(),
{
    lemma_agree_occupation(w1, w2, agent.team);
    if starts.len() > 0 {
        lemma_hop_gather_agree(w1, w2, agent, starts.drop_last());
    }
}

proof fn lemma_ray_agree(
    w1: WorldState,
    w2: WorldState,
    agent: Agent,
    start: Locale,
    offset: (i8, i8),
    venture: int,
)
    requires
        agree(w1, w2, agent.team),
    ensures
        w1.ray(agent, start, offset, venture) == w2.ray(agent, start, offset, venture),
    decreases 9 - venture,
{
    lemma_agree_occupation(w1, w2, agent.team);
    if 1 <= venture <= 8 {
        lemma_ray_agree(w1, w2, agent, start, offset, venture + 1);
    }
}

proof fn lemma_rays_agree(
    w1: WorldState,
    w2: WorldState,
    agent: Agent,
    start: Locale,
    offsets: Seq<(i8, i8)>,
)
    requires
        agree(w1, w2, agent.team),
    ensures
        w1.rays(agent, start, offsets) == w2.rays(agent, start, offsets),
    decreases offsets.len(),
{
    if offsets.len() > 0 {
        lemma_rays_agree(w1, w2, agent, start, offsets.drop_last());
        lemma_ray_agree(w1, w2, agent, start, offsets.last(), 1);
    }
}

proof fn lemma_slide_gather_agree(w1: WorldState, w2: WorldState, agent: Agent, starts: Seq<Locale>)
    requires
        agree(w1, w2, agent.team),
    ensures
        w1.slide_gather(agent, starts) == w2.slide_gather(agent, starts),
    decreases starts.len(),
{
    if starts.len() > 0 {
        lemma_slide_gather_agree(w1, w2, agent, starts.drop_last());
        lemma_rays_agree(
            w1,
            w2,
            agent,
            starts.last(),
            crate::lookahead::slide_offsets(agent.job_description),
        );
    }
}

/// Worlds that agree on what `team`'s movements depend on offer `team` the
/// same movements, the secret service aside.
pub proof fn lemma_move_patches_agree(w1: WorldState, w2: WorldState, team: Team)
    requires
        agree(w1, w2, team),
    ensures
        w1.move_patches(team) == w2.move_patches(team),
{
    let servant = Agent { team, job_description: JobDescription::Servant };
    let pony = Agent { team, job_description: JobDescription::Pony };
    let scholar = Agent { team, job_description: JobDescription::Scholar };
    let cop = Agent { team, job_description: JobDescription::Cop };
    let princess = Agent { team, job_description: JobDescription::Princess };
    let figurehead = Agent { team, job_description: JobDescription::Figurehead };
    lemma_servant_gather_agree(w1, w2, team, crate::space::pinned_locales(w1.pinfield_of(servant).0));
    assert(w1.pinfield_of(servant) == w2.pinfield_of(servant));
    assert(w1.pinfield_of(pony) == w2.pinfield_of(pony));
    assert(w1.pinfield_of(scholar) == w2.pinfield_of(scholar));
    assert(w1.pinfield_of(cop) == w2.pinfield_of(cop));
    assert(w1.pinfield_of(princess) == w2.pinfield_of(princess));
    assert(w1.pinfield_of(figurehead) == w2.pinfield_of(figurehead));
    lemma_hop_gather_agree(w1, w2, pony, crate::space::pinned_locales(w1.pinfield_of(pony).0));
    lemma_hop_gather_agree(w1, w2, figurehead, crate::space::pinned_locales(w1.pinfield_of(figurehead).0));
    lemma_slide_gather_agree(w1, w2, scholar, crate::space::pinned_locales(w1.pinfield_of(scholar).0));
    lemma_slide_gather_agree(w1, w2, cop, crate::space::pinned_locales(w1.pinfield_of(cop).0));
    lemma_slide_gather_agree(w1, w2, princess, crate::space::pinned_locales(w1.pinfield_of(princess).0));
}

proof fn lemma_pin_union6(a: u64, b: u64, c: u64, d: u64, e: u64, f: u64, i: u64)
    requires
        i < 64,
    ensures
        pin_at(a | b | c | d | e | f, i) == (pin_at(a, i) || pin_at(b, i) || pin_at(c, i)
            || pin_at(d, i) || pin_at(e, i) || pin_at(f, i)),
{
    lemma_pin_union(a, b, i);
    lemma_pin_union(a | b, c, i);
    lemma_pin_union(a | b | c, d, i);
    lemma_pin_union(a | b | c | d, e, i);
    lemma_pin_union(a | b | c | d | e, f, i);
}

/// The pins of a team's occupation are those of its six pinfields.
pub proof fn lemma_occupation_pins(world: WorldState, team: Team, i: u64)
    requires
        i < 64,
    ensures
        pin_at(world.spec_occupied_by(team), i) == (pin_at(
            world.pinfield_of(Agent { team, job_description: JobDescription::Servant }).0,
            i,
        ) || pin_at(world.pinfield_of(Agent { team, job_description: JobDescription::Pony }).0, i)
            || pin_at(
            world.pinfield_of(Agent { team, job_description: JobDescription::Scholar }).0,
            i,
        ) || pin_at(world.pinfield_of(Agent { team, job_description: JobDescription::Cop }).0, i)
            || pin_at(
            world.pinfield_of(Agent { team, job_description: JobDescription::Princess }).0,
            i,
        ) || pin_at(
            world.pinfield_of(Agent { team, job_description: JobDescription::Figurehead }).0,
            i,
        )),
{
    match team {
        Team::Orange => lemma_pin_union6(
            world.orange_servants.0,
            world.orange_ponies.0,
            world.orange_scholars.0,
            world.orange_cops.0,
            world.orange_princesses.0,
            world.orange_figurehead.0,
            i,
        ),
        Team::Blue => lemma_pin_union6(
            world.blue_servants.0,
            world.blue_ponies.0,
            world.blue_scholars.0,
            world.blue_cops.0,
            world.blue_princesses.0,
            world.blue_figurehead.0,
            i,
        ),
    }
}

/// Nobody stands at a vacant locale.
proof fn lemma_vacant_unoccupied(world: WorldState, at: Locale, team: Team)
    requires
        at.pinnable(),
        world.vacant(at),
    ensures
        world.occupant(at, team) is None,
{
    crate::fidelity::lemma_occupant_from(world, at, team, 0);
    if let Some(agent) = world.occupant(at, team) {
        let i = at.index() as u64;
        lemma_occupation_pins(world, team, i);
        lemma_pin_union(world.spec_occupied_by(Team::Orange), world.spec_occupied_by(Team::Blue), i);
        match agent.job_description {
            JobDescription::Servant => {},
            JobDescription::Pony => {},
            JobDescription::Scholar => {},
            JobDescription::Cop => {},
            JobDescription::Princess => {},
            JobDescription::Figurehead => {},
        }
        assert(false);
    }
}

/// Worlds whose pinfields of `team` agree at `at` give the same occupant there.
proof fn lemma_occupant_from_agree(w1: WorldState, w2: WorldState, at: Locale, team: Team, k: nat)
    requires
        forall|job: JobDescription|
            #[trigger] w1.pinfield_of(Agent { team, job_description: job }).holds(at)
                == w2.pinfield_of(Agent { team, job_description: job }).holds(at),
    ensures
        w1.occupant_from(at, team, k) == w2.occupant_from(at, team, k),
    decreases 6 - k,
{
    if k < 6 {
        lemma_occupant_from_agree(w1, w2, at, team, k + 1);
        let agent = Agent::spec_personae(team)[k as int];
        assert(agent == Agent { team, job_description: crate::identity::job_order()[k as int] });
        assert(w1.pinfield_of(agent).holds(at) == w2.pinfield_of(agent).holds(at));
    }
}

/// Where one of the first five agents of `team` from the `k`-th on stands
/// at `at`, the occupant there is no figurehead.
proof fn lemma_occupant_not_figurehead(world: WorldState, at: Locale, team: Team, k: nat, j: int)
    requires
        k <= j < 5,
        world.pinfield_of(Agent::spec_personae(team)[j]).holds(at),
    ensures
        world.occupant_from(at, team, k) matches Some(agent) && agent.job_description
            != JobDescription::Figurehead,
    decreases 6 - k,
{
    let agent = Agent::spec_personae(team)[k as int];
    assert(agent.job_description == crate::identity::job_order()[k as int]);
    if !world.pinfield_of(agent).holds(at) {
        lemma_occupant_not_figurehead(world, at, team, k + 1, j);
    }
}

/// Some commit of `commits` stuns a figurehead.
pub open spec fn any_stun(commits: Seq<Commit>) -> bool {
    exists|k: int| 0 <= k < commits.len() && stuns_figurehead(#[trigger] commits[k])
}

/// Some patch of `patches`, applied to `world`, stuns a figurehead.
pub open spec fn some_stun(world: WorldState, patches: Seq<Patch>) -> bool {
    exists|j: int| 0 <= j < patches.len() && stuns_figurehead(#[trigger] world.spec_apply(patches[j]))
}

proof fn lemma_any_stun_concat(a: Seq<Commit>, b: Seq<Commit>)
    ensures
        any_stun(a + b) == (any_stun(a) || any_stun(b)),
{
    if any_stun(a + b) {
        let k = choose|k: int| 0 <= k < (a + b).len() && stuns_figurehead(#[trigger] (a + b)[k]);
        if k < a.len() {
            assert(a[k] == (a + b)[k]);
        } else {
            assert(b[k - a.len()] == (a + b)[k]);
        }
    }
    if any_stun(a) {
        let k = choose|k: int| 0 <= k < a.len() && stuns_figurehead(#[trigger] a[k]);
        assert((a + b)[k] == a[k]);
    }
    if any_stun(b) {
        let k = choose|k: int| 0 <= k < b.len() && stuns_figurehead(#[trigger] b[k]);
        assert((a + b)[a.len() + k] == b[k]);
    }
}

proof fn lemma_some_stun_concat(world: WorldState, a: Seq<Patch>, b: Seq<Patch>)
    ensures
        some_stun(world, a + b) == (some_stun(world, a) || some_stun(world, b)),
{
    if some_stun(world, a + b) {
        let j = choose|j: int|
            0 <= j < (a + b).len() && stuns_figurehead(#[trigger] world.spec_apply((a + b)[j]));
        if j < a.len() {
            assert(a[j] == (a + b)[j]);
        } else {
            assert(b[j - a.len()] == (a + b)[j]);
        }
    }
    if some_stun(world, a) {
        let j = choose|j: int| 0 <= j < a.len() && stuns_figurehead(#[trigger] world.spec_apply(a[j]));
        assert((a + b)[j] == a[j]);
    }
    if some_stun(world, b) {
        let j = choose|j: int| 0 <= j < b.len() && stuns_figurehead(#[trigger] world.spec_apply(b[j]));
        assert((a + b)[a.len() + j] == b[j]);
    }
}

proof fn lemma_ascensions_keep_hospitalization(commit: Commit, n: nat, j: int)
    requires
        0 <= j < ascensions_below(commit, n).len(),
    ensures
        ascensions_below(commit, n)[j].hospitalization == commit.hospitalization,
    decreases n,
{
    if n > 0 {
        let earlier = ascensions_below(commit, (n - 1) as nat);
        if j < earlier.len() {
            lemma_ascensions_keep_hospitalization(commit, (n - 1) as nat, j);
        }
    }
}

/// The commits that a commit stands for stun a figurehead just where it does.
proof fn lemma_subpredicted_stuns(commit: Commit)
    ensures
        any_stun(subpredicted(commit)) == stuns_figurehead(commit),
{
    let commits = subpredicted(commit);
    if commit.patch.spec_servant_ascension() {
        let team = commit.patch.star.team;
        let personae = Agent::spec_personae(team);
        assert(personae[4].job_description == JobDescription::Princess);
        assert(personae[5].job_description == JobDescription::Figurehead);
        assert(ascensions_below(commit, 6) == ascensions_below(commit, 5));
        assert(ascensions_below(commit, 5) == ascensions_below(commit, 4).push(
            ascend(commit, personae[4]),
        ));
        let last = ascensions_below(commit, 4).len() as int;
        assert(commits[last] == ascend(commit, personae[4]));
        if any_stun(commits) {
            let k = choose|k: int| 0 <= k < commits.len() && stuns_figurehead(#[trigger] commits[k]);
            lemma_ascensions_keep_hospitalization(commit, 6, k);
        }
        if stuns_figurehead(commit) {
            assert(stuns_figurehead(commits[last]));
        }
    } else {
        if stuns_figurehead(commit) {
            assert(stuns_figurehead(commits[0]));
        }
    }
}

/// The reckless commits of `patches` stun a figurehead just where one of
/// the patches does.
proof fn lemma_stuns_expand(world: WorldState, patches: Seq<Patch>)
    ensures
        any_stun(world.expand_reckless(patches)) == some_stun(world, patches),
    decreases patches.len(),
{
    reveal(WorldState::reckless_commits);
    if patches.len() == 0 {
        assert(!any_stun(world.expand_reckless(patches)));
    } else {
        let shorter = patches.drop_last();
        lemma_stuns_expand(world, shorter);
        lemma_any_stun_concat(
            world.expand_reckless(shorter),
            world.reckless_commits(patches.last()),
        );
        lemma_subpredicted_stuns(world.spec_apply(patches.last()));
        assert(patches =~= shorter + seq![patches.last()]);
        lemma_some_stun_concat(world, shorter, seq![patches.last()]);
        if some_stun(world, seq![patches.last()]) {
            let j = choose|j: int|
                0 <= j < 1 && stuns_figurehead(#[trigger] world.spec_apply(seq![patches.last()][j]));
            assert(j == 0);
        }
        assert(some_stun(world, seq![patches.last()]) == stuns_figurehead(
            world.spec_apply(patches.last()),
        )) by {
            if stuns_figurehead(world.spec_apply(patches.last())) {
                assert(seq![patches.last()][0] == patches.last());
            }
        }
    }
}

/// A secret service stuns nobody: it arrives at a vacant locale.
proof fn lemma_service_stuns_nobody(world: WorldState, team: Team)
    requires
        world.initiative == team,
    ensures
        !some_stun(world, world.service_patches(team)),
{
    let services = world.service_patches(team);
    assert forall|j: int| 0 <= j < services.len() implies !stuns_figurehead(
        #[trigger] world.spec_apply(services[j]),
    ) by {
        let patch = services[j];
        assert(patch.star.job_description == JobDescription::Figurehead);
        assert(patch.whither.pinnable());
        assert(world.vacant(patch.whither));
        lemma_vacant_unoccupied(world, patch.whither, team.spec_opposition());
    }
}

/// Two worlds where the opposition of `us` is to move, without a passing-by
/// locale, in which `us` has a figurine other than its figurehead at `x` and
/// the same pinfields elsewhere: a patch of the opposition arriving at a
/// locale of the lattice stuns a figurehead in both or in neither.
proof fn lemma_patch_stun_agree(
    c1: WorldState,
    c2: WorldState,
    us: Team,
    x: Locale,
    first: Agent,
    second: Agent,
    patch: Patch,
)
    requires
        c1.initiative == us.spec_opposition(),
        c2.initiative == us.spec_opposition(),
        c1.passing_by_locale is None,
        c2.passing_by_locale is None,
        patch.whither.on_board(),
        x.on_board(),
        first.team == us,
        second.team == us,
        first.job_description != JobDescription::Figurehead,
        second.job_description != JobDescription::Figurehead,
        c1.pinfield_of(first).holds(x),
        c2.pinfield_of(second).holds(x),
        patch.whither != x ==> forall|job: JobDescription|
            #[trigger] c1.pinfield_of(Agent { team: us, job_description: job }).holds(patch.whither)
                == c2.pinfield_of(Agent { team: us, job_description: job }).holds(patch.whither),
    ensures
        stuns_figurehead(c1.spec_apply(patch)) == stuns_figurehead(c2.spec_apply(patch)),
{
    assert(us.spec_opposition().spec_opposition() == us);
    assert(c1.ambulance_target(patch) == patch.whither);
    assert(c2.ambulance_target(patch) == patch.whither);
    if patch.whither != x {
        lemma_occupant_from_agree(c1, c2, patch.whither, us, 0);
    } else {
        crate::fidelity::lemma_persona_index(first);
        crate::fidelity::lemma_persona_index(second);
        let j1 = choose|j: int| 0 <= j < 6 && Agent::spec_personae(first.team)[j] == first;
        let j2 = choose|j: int| 0 <= j < 6 && Agent::spec_personae(second.team)[j] == second;
        assert(Agent::spec_personae(us)[5].job_description == JobDescription::Figurehead);
        lemma_occupant_not_figurehead(c1, x, us, 0, j1);
        lemma_occupant_not_figurehead(c2, x, us, 0, j2);
    }
}

/// In the world of a servant's patch, the servant stands at its destination.
proof fn lemma_servant_arrives(world: WorldState, patch: Patch)
    requires
        patch.whither.on_board(),
        patch.star.team == world.initiative,
        patch.star.job_description == JobDescription::Servant,
    ensures
        world.spec_apply(patch).tree.pinfield_of(patch.star).holds(patch.whither),
{
    let star = patch.star;
    let star_field = world.pinfield_of(star).spec_transit(patch.whence, patch.whither);
    law_replace_subboard(world, star, star_field, star);
    let moved = world.moved(patch);
    assert(moved.pinfield_of(star) == star_field);
    law_alight(world.pinfield_of(star).spec_quench(patch.whence), patch.whither, patch.whither);
    let target = world.ambulance_target(patch);
    match world.spec_hospitalization(patch) {
        Some(stunned) => {
            crate::fidelity::lemma_occupant_from(world, target, world.initiative.spec_opposition(), 0);
            let stunned_field = moved.pinfield_of(stunned).spec_quench(target);
            law_replace_subboard(moved, stunned, stunned_field, star);
        },
        None => {},
    }
}

/// The pinfields after an ascension: the servant's field loses the
/// destination, the ascended form's field gains it, and no other changes.
proof fn lemma_ascended_fields(commit: Commit, form: Agent, agent: Agent)
    requires
        form != commit.patch.star,
    ensures
        ascend(commit, form).tree.pinfield_of(agent) == (if agent == form {
            commit.tree.pinfield_of(form).spec_alight(commit.patch.whither)
        } else if agent == commit.patch.star {
            commit.tree.pinfield_of(commit.patch.star).spec_quench(commit.patch.whither)
        } else {
            commit.tree.pinfield_of(agent)
        }),
        ascend(commit, form).tree.initiative == commit.tree.initiative,
        ascend(commit, form).tree.passing_by_locale == commit.tree.passing_by_locale,
{
    let star = commit.patch.star;
    let vessel = commit.tree.pinfield_of(star).spec_quench(commit.patch.whither);
    let raised = commit.tree.pinfield_of(form).spec_alight(commit.patch.whither);
    let mid = commit.tree.with_pinfield(star, vessel);
    law_replace_subboard(commit.tree, star, vessel, agent);
    law_replace_subboard(commit.tree, star, vessel, form);
    law_replace_subboard(mid, form, raised, agent);
}

/// How a world changes when the servant `star` at `x` ascends to `form`.
pub open spec fn ascended_from(t1: WorldState, t2: WorldState, star: Agent, form: Agent, x: Locale) -> bool {
    &&& t2.initiative == t1.initiative
    &&& t2.passing_by_locale == t1.passing_by_locale
    &&& forall|agent: Agent| #[trigger] t2.pinfield_of(agent) == (if agent == form {
        t1.pinfield_of(form).spec_alight(x)
    } else if agent == star {
        t1.pinfield_of(star).spec_quench(x)
    } else {
        t1.pinfield_of(agent)
    })
}

/// The premises shared by the steps below: `t2` is `t1` after the servant
/// `star` of `us` at `x` ascended to `form`, with the opposition to move and
/// no passing-by locale.
pub open spec fn ascension_setting(t1: WorldState, t2: WorldState, us: Team, star: Agent, form: Agent, x: Locale) -> bool {
    &&& ascended_from(t1, t2, star, form, x)
    &&& t1.initiative == us.spec_opposition()
    &&& t1.passing_by_locale is None
    &&& x.on_board()
    &&& star == (Agent { team: us, job_description: JobDescription::Servant })
    &&& form.team == us
    &&& form.job_description != JobDescription::Servant
    &&& form.job_description != JobDescription::Figurehead
    &&& t1.pinfield_of(star).holds(x)
}

proof fn lemma_ascension_agree(t1: WorldState, t2: WorldState, us: Team, star: Agent, form: Agent, x: Locale)
    requires
        ascension_setting(t1, t2, us, star, form, x),
    ensures
        agree(t1, t2, us.spec_opposition()),
{
    let opp = us.spec_opposition();
    let xi = x.index() as u64;
    assert forall|job: JobDescription|
        #[trigger] t1.pinfield_of(Agent { team: opp, job_description: job }) == t2.pinfield_of(
            Agent { team: opp, job_description: job },
        ) by {
        assert(t2.pinfield_of(Agent { team: opp, job_description: job }) == t1.pinfield_of(
            Agent { team: opp, job_description: job },
        ));
    }
    assert forall|i: u64| i < 64 implies pin_at(t1.spec_occupied_by(us), i) == pin_at(
        t2.spec_occupied_by(us),
        i,
    ) by {
        lemma_occupation_pins(t1, us, i);
        lemma_occupation_pins(t2, us, i);
        let single = 1u64 << xi;
        lemma_pin_intersection(t1.pinfield_of(star).0, !single, i);
        lemma_pin_invert(single, i);
        lemma_pin_single(xi, i);
        lemma_pin_union(t1.pinfield_of(form).0, single, i);
        let pony = Agent { team: us, job_description: JobDescription::Pony };
        let scholar = Agent { team: us, job_description: JobDescription::Scholar };
        let cop = Agent { team: us, job_description: JobDescription::Cop };
        let princess = Agent { team: us, job_description: JobDescription::Princess };
        let figurehead = Agent { team: us, job_description: JobDescription::Figurehead };
        assert(t2.pinfield_of(star) == t1.pinfield_of(star).spec_quench(x));
        assert(t2.pinfield_of(figurehead) == t1.pinfield_of(figurehead));
        assert(t2.pinfield_of(pony) == (if pony == form {
            t1.pinfield_of(form).spec_alight(x)
        } else {
            t1.pinfield_of(pony)
        }));
        assert(t2.pinfield_of(scholar) == (if scholar == form {
            t1.pinfield_of(form).spec_alight(x)
        } else {
            t1.pinfield_of(scholar)
        }));
        assert(t2.pinfield_of(cop) == (if cop == form {
            t1.pinfield_of(form).spec_alight(x)
        } else {
            t1.pinfield_of(cop)
        }));
        assert(t2.pinfield_of(princess) == (if princess == form {
            t1.pinfield_of(form).spec_alight(x)
        } else {
            t1.pinfield_of(princess)
        }));
    }
    lemma_pins_determine(t1.spec_occupied_by(us), t2.spec_occupied_by(us));
}

proof fn lemma_ascension_patch_stun(
    t1: WorldState,
    t2: WorldState,
    us: Team,
    star: Agent,
    form: Agent,
    x: Locale,
    p: Patch,
)
    requires
        ascension_setting(t1, t2, us, star, form, x),
        p.whither.on_board(),
    ensures
        stuns_figurehead(t1.spec_apply(p)) == stuns_figurehead(t2.spec_apply(p)),
{
    let t = p.whither;
    if t != x {
        assert forall|job: JobDescription|
            #[trigger] t1.pinfield_of(Agent { team: us, job_description: job }).holds(t)
                == t2.pinfield_of(Agent { team: us, job_description: job }).holds(t) by {
            let agent = Agent { team: us, job_description: job };
            law_quench(t1.pinfield_of(star), x, t);
            law_alight(t1.pinfield_of(form), x, t);
            assert(t2.pinfield_of(agent) == (if agent == form {
                t1.pinfield_of(form).spec_alight(x)
            } else if agent == star {
                t1.pinfield_of(star).spec_quench(x)
            } else {
                t1.pinfield_of(agent)
            }));
        }
    }
    assert(t2.pinfield_of(form) == t1.pinfield_of(form).spec_alight(x));
    law_alight(t1.pinfield_of(form), x, x);
    lemma_patch_stun_agree(t1, t2, us, x, star, form, p);
}

proof fn lemma_ascension_critical(t1: WorldState, t2: WorldState, us: Team, star: Agent, form: Agent, x: Locale)
    requires
        ascension_setting(t1, t2, us, star, form, x),
    ensures
        t2.in_critical(us) == t1.in_critical(us),
{
    let opp = us.spec_opposition();
    let c1 = WorldState { initiative: opp, ..t1 };
    let c2 = WorldState { initiative: opp, ..t2 };
    assert(c1 == t1);
    assert(c2 == t2);
    lemma_ascension_agree(t1, t2, us, star, form, x);
    lemma_move_patches_agree(t1, t2, opp);
    let moves = t1.move_patches(opp);
    lemma_all_patches(t1);
    assert forall|j: int| 0 <= j < moves.len() implies stuns_figurehead(
        #[trigger] t1.spec_apply(moves[j]),
    ) == stuns_figurehead(t2.spec_apply(moves[j])) by {
        assert(t1.all_patches()[j] == moves[j]);
        lemma_ascension_patch_stun(t1, t2, us, star, form, x, moves[j]);
    }
    lemma_stuns_expand(t1, t1.all_patches());
    lemma_stuns_expand(t2, t2.all_patches());
    lemma_some_stun_concat(t1, moves, t1.service_patches(opp));
    lemma_some_stun_concat(t2, moves, t2.service_patches(opp));
    lemma_service_stuns_nobody(t1, opp);
    lemma_service_stuns_nobody(t2, opp);
    if some_stun(t1, moves) {
        let j = choose|j: int|
            0 <= j < moves.len() && stuns_figurehead(#[trigger] t1.spec_apply(moves[j]));
        assert(stuns_figurehead(t2.spec_apply(moves[j])));
    }
    if some_stun(t2, moves) {
        let j = choose|j: int|
            0 <= j < moves.len() && stuns_figurehead(#[trigger] t2.spec_apply(moves[j]));
        assert(stuns_figurehead(t1.spec_apply(moves[j])));
    }
    assert(t1.in_critical(us) == any_stun(c1.spec_reckless_lookahead()));
    assert(t2.in_critical(us) == any_stun(c2.spec_reckless_lookahead()));
}

/// Ascending does not change whether the ascending team's figurehead is in
/// critical endangerment.
pub proof fn law_ascension_keeps_endangerment(world: WorldState, patch: Patch, form: Agent)
    requires
        grounded(world, patch, world.initiative),
        patch.spec_servant_ascension(),
        form.team == patch.star.team,
        form.job_description != JobDescription::Servant,
        form.job_description != JobDescription::Figurehead,
    ensures
        ascend(world.spec_apply(patch), form).tree.in_critical(world.initiative)
            == world.spec_apply(patch).tree.in_critical(world.initiative),
{
    let us = world.initiative;
    let commit = world.spec_apply(patch);
    let t1 = commit.tree;
    let t2 = ascend(commit, form).tree;
    lemma_servant_arrives(world, patch);
    assert forall|agent: Agent| #[trigger] t2.pinfield_of(agent) == (if agent == form {
        t1.pinfield_of(form).spec_alight(patch.whither)
    } else if agent == patch.star {
        t1.pinfield_of(patch.star).spec_quench(patch.whither)
    } else {
        t1.pinfield_of(agent)
    }) by {
        lemma_ascended_fields(commit, form, agent);
    }
    lemma_ascended_fields(commit, form, patch.star);
    assert(ascension_setting(t1, t2, us, patch.star, form, patch.whither));
    lemma_ascension_critical(t1, t2, us, patch.star, form, patch.whither);
}

/// Every ascension of a commit is an ascension to a form of the servant's
/// team other than a servant or a figurehead.
pub proof fn lemma_ascension_forms(commit: Commit, n: nat, j: int)
    requires
        0 <= j < ascensions_below(commit, n).len(),
        n <= 6,
    ensures
        exists|form: Agent|
            #![trigger ascend(commit, form)]
            form.team == commit.patch.star.team && form.job_description != JobDescription::Servant
                && form.job_description != JobDescription::Figurehead && ascensions_below(
                commit,
                n,
            )[j] == ascend(commit, form),
    decreases n,
{
    if n > 0 {
        let earlier = ascensions_below(commit, (n - 1) as nat);
        if j < earlier.len() {
            lemma_ascension_forms(commit, (n - 1) as nat, j);
        } else {
            let form = Agent::spec_personae(commit.patch.star.team)[n - 1];
            assert(form.team == commit.patch.star.team);
            assert(ascensions_below(commit, n)[j] == ascend(commit, form));
        }
    }
}

/// No careful commit of grounded patches leaves the mover's figurehead in
/// critical endangerment, ascensions included.
pub proof fn lemma_careful_safe(world: WorldState, patches: Seq<Patch>, k: int)
    requires
        all_grounded(world, patches, world.initiative),
        0 <= k < world.expand_careful(patches).len(),
    ensures
        !world.expand_careful(patches)[k].tree.in_critical(world.initiative),
    decreases patches.len(),
{
    reveal(WorldState::careful_commits);
    let shorter = patches.drop_last();
    let earlier = world.expand_careful(shorter);
    assert(all_grounded(world, shorter, world.initiative)) by {
        assert forall|j: int| 0 <= j < shorter.len() implies grounded(
            world,
            #[trigger] shorter[j],
            world.initiative,
        ) by {
            assert(shorter[j] == patches[j]);
        }
    }
    if k < earlier.len() {
        lemma_careful_safe(world, shorter, k);
    } else {
        let patch = patches.last();
        assert(grounded(world, patches[patches.len() - 1], world.initiative));
        let commit = world.spec_apply(patch);
        let j = k - earlier.len();
        if patch.spec_servant_ascension() {
            lemma_ascension_forms(commit, 6, j);
            let form = choose|form: Agent|
                #![trigger ascend(commit, form)]
                form.team == commit.patch.star.team && form.job_description
                    != JobDescription::Servant && form.job_description != JobDescription::Figurehead
                    && ascensions_below(commit, 6)[j] == ascend(commit, form);
            law_ascension_keeps_endangerment(world, patch, form);
        }
    }
}

} // verus!
