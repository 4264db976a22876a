//! Which movements each figurine may make, and what becomes of them.
use vstd::prelude::*;
use crate::identity::{Agent, JobDescription, Team};
use crate::life::{Commit, Patch, WorldState, forward, servant_home_rank};
use crate::motion::{hop_bits, hop_offsets, movement_range, lemma_hop_member, figurehead_offsets};
use crate::script::push_rune;
use vstd::string::*;
use crate::space::{Locale, Pinfield, pin_at, pinned_locales, locale_of_pin, lemma_pin_intersection, law_pinned_locales_are_held};

verus! {

/// A servant's two stunning offsets.
pub open spec fn stun_directions(team: Team) -> ((i8, i8), (i8, i8)) {
    match team {
        Team::Orange => ((1i8, -1i8), (1i8, 1i8)),
        Team::Blue => ((-1i8, -1i8), (-1i8, 1i8)),
    }
}

pub open spec fn boost(team: Team) -> (i8, i8) {
    match team {
        Team::Orange => (2i8, 0i8),
        Team::Blue => (-2i8, 0i8),
    }
}

/// The directions in which scholars, cops and princesses slide.
pub open spec fn slide_offsets(job: JobDescription) -> Seq<(i8, i8)> {
    if job == JobDescription::Scholar {
        seq![(-1i8, -1i8), (-1i8, 1i8), (1i8, -1i8), (1i8, 1i8)]
    } else if job == JobDescription::Cop {
        seq![(-1i8, 0i8), (1i8, 0i8), (0i8, -1i8), (0i8, 1i8)]
    } else {
        seq![(-1i8, -1i8), (-1i8, 0i8), (-1i8, 1i8), (0i8, -1i8), (0i8, 1i8), (1i8, -1i8), (1i8, 0i8), (1i8, 1i8)]
    }
}

/// A direction of one step along a rank, a file or a diagonal.
pub open spec fn unit_offset(offset: (i8, i8)) -> bool {
    &&& -1 <= offset.0 <= 1
    &&& -1 <= offset.1 <= 1
    &&& !(offset.0 == 0 && offset.1 == 0)
}

/// Whether a commit stuns a figurehead.
pub open spec fn stuns_figurehead(commit: Commit) -> bool {
    match commit.hospitalization {
        Some(patient) => patient.job_description == JobDescription::Figurehead,
        None => false,
    }
}

/// The commit of a servant ascending into `ascended` at the end of `commit`.
pub open spec fn ascend(commit: Commit, ascended: Agent) -> Commit {
    let vessel = commit.tree.pinfield_of(commit.patch.star).spec_quench(commit.patch.whither);
    let raised = commit.tree.pinfield_of(ascended).spec_alight(commit.patch.whither);
    Commit {
        ascension: Some(ascended),
        tree: commit.tree.with_pinfield(commit.patch.star, vessel).with_pinfield(ascended, raised),
        ..commit
    }
}

/// The ascensions among the first `k` agents of the team, servants and figureheads left out.
pub open spec fn ascensions_below(commit: Commit, k: nat) -> Seq<Commit>
    decreases k,
{
    if k == 0 {
        Seq::empty()
    } else {
        let ascended = Agent::spec_personae(commit.patch.star.team)[k - 1];
        let earlier = ascensions_below(commit, (k - 1) as nat);
        if ascended.job_description == JobDescription::Servant || ascended.job_description
            == JobDescription::Figurehead {
            earlier
        } else {
            earlier.push(ascend(commit, ascended))
        }
    }
}

/// The commits that a commit stands for: an ascending servant may become a
/// pony, a scholar, a cop or a princess; any other commit stands for itself.
pub open spec fn subpredicted(commit: Commit) -> Seq<Commit> {
    if commit.patch.spec_servant_ascension() {
        ascensions_below(commit, 6)
    } else {
        seq![commit]
    }
}

impl WorldState {
    // ---- candidate patches, piece by piece ----

    /// A servant's stunning patch along `offset`, if there is someone of the
    /// opposition there or it is the passing-by locale.
    pub open spec fn stun_patch(self, team: Team, start: Locale, offset: (i8, i8)) -> Seq<Patch> {
        match start.spec_displace(offset) {
            Some(destination) => if Pinfield(self.spec_occupied_by(team.spec_opposition())).holds(
                destination,
            ) || self.passing_by_locale == Some(destination) {
                seq![
                    Patch {
                        star: Agent { team, job_description: JobDescription::Servant },
                        whence: start,
                        whither: destination,
                    },
                ]
            } else {
                Seq::empty()
            },
            None => Seq::empty(),
        }
    }

    /// A servant's step one locale forward, if that locale is vacant.
    pub open spec fn step_patch(self, team: Team, start: Locale) -> Seq<Patch> {
        match start.spec_displace(forward(team)) {
            Some(destination) => if self.vacant(destination) {
                seq![
                    Patch {
                        star: Agent { team, job_description: JobDescription::Servant },
                        whence: start,
                        whither: destination,
                    },
                ]
            } else {
                Seq::empty()
            },
            None => Seq::empty(),
        }
    }

    /// A servant's step of two locales from its home rank, if both are vacant.
    pub open spec fn double_patch(self, team: Team, start: Locale) -> Seq<Patch> {
        if start.rank == servant_home_rank(team) {
            let far = start.spec_displace(boost(team)).unwrap();
            let near = start.spec_displace(forward(team)).unwrap();
            if self.vacant(far) && self.vacant(near) {
                seq![
                    Patch {
                        star: Agent { team, job_description: JobDescription::Servant },
                        whence: start,
                        whither: far,
                    },
                ]
            } else {
                Seq::empty()
            }
        } else {
            Seq::empty()
        }
    }

    /// The patches of a servant of `team` at `start`: one locale forward if it
    /// is vacant; two from the home rank if both are vacant; and the stuns.
    pub open spec fn servant_patches_at(self, team: Team, start: Locale) -> Seq<Patch> {
        self.step_patch(team, start) + self.double_patch(team, start) + self.stun_patch(
            team,
            start,
            stun_directions(team).0,
        ) + self.stun_patch(team, start, stun_directions(team).1)
    }

    pub open spec fn servant_gather(self, team: Team, starts: Seq<Locale>) -> Seq<Patch>
        decreases starts.len(),
    {
        if starts.len() == 0 {
            Seq::empty()
        } else {
            self.servant_gather(team, starts.drop_last()) + self.servant_patches_at(
                team,
                starts.last(),
            )
        }
    }

    pub open spec fn servant_patches(self, team: Team) -> Seq<Patch> {
        self.servant_gather(
            team,
            pinned_locales(
                self.pinfield_of(Agent { team, job_description: JobDescription::Servant }).0,
            ),
        )
    }

    /// Patches of `agent` from `start` to each of `destinations`.
    pub open spec fn patches_to(agent: Agent, start: Locale, destinations: Seq<Locale>) -> Seq<
        Patch,
    >
        decreases destinations.len(),
    {
        if destinations.len() == 0 {
            Seq::empty()
        } else {
            Self::patches_to(agent, start, destinations.drop_last()).push(
                Patch { star: agent, whence: start, whither: destinations.last() },
            )
        }
    }

    /// The hops of a pony or figurehead at `start` to locales not held by its own team.
    pub open spec fn hop_patches_at(self, agent: Agent, start: Locale) -> Seq<Patch> {
        Self::patches_to(
            agent,
            start,
            pinned_locales(
                !self.spec_occupied_by(agent.team) & hop_bits(
                    start,
                    hop_offsets(agent.job_description),
                ),
            ),
        )
    }

    pub open spec fn hop_gather(self, agent: Agent, starts: Seq<Locale>) -> Seq<Patch>
        decreases starts.len(),
    {
        if starts.len() == 0 {
            Seq::empty()
        } else {
            self.hop_gather(agent, starts.drop_last()) + self.hop_patches_at(agent, starts.last())
        }
    }

    pub open spec fn hop_patches(self, agent: Agent) -> Seq<Patch> {
        self.hop_gather(agent, pinned_locales(self.pinfield_of(agent).0))
    }

    /// The slide of `agent` from `start` along `offset`, from the
    /// `venture`-th locale on: through vacant locales, stopping at the first
    /// occupied one, which it may take if it is held by the opposition.
    pub open spec fn ray(self, agent: Agent, start: Locale, offset: (i8, i8), venture: int) -> Seq<
        Patch,
    >
        decreases 9 - venture,
    {
        if venture < 1 || venture > 8 {
            Seq::empty()
        } else {
            match start.spec_multidisplace(offset, venture) {
                None => Seq::empty(),
                Some(destination) => {
                    let empty = self.vacant(destination);
                    let friend = Pinfield(self.spec_occupied_by(agent.team)).holds(destination);
                    let here = if empty || !friend {
                        seq![Patch { star: agent, whence: start, whither: destination }]
                    } else {
                        Seq::empty()
                    };
                    if !empty {
                        here
                    } else {
                        here + self.ray(agent, start, offset, venture + 1)
                    }
                },
            }
        }
    }

    pub open spec fn rays(self, agent: Agent, start: Locale, offsets: Seq<(i8, i8)>) -> Seq<Patch>
        decreases offsets.len(),
    {
        if offsets.len() == 0 {
            Seq::empty()
        } else {
            self.rays(agent, start, offsets.drop_last()) + self.ray(
                agent,
                start,
                offsets.last(),
                1,
            )
        }
    }

    pub open spec fn slide_gather(self, agent: Agent, starts: Seq<Locale>) -> Seq<Patch>
        decreases starts.len(),
    {
        if starts.len() == 0 {
            Seq::empty()
        } else {
            self.slide_gather(agent, starts.drop_last()) + self.rays(
                agent,
                starts.last(),
                slide_offsets(agent.job_description),
            )
        }
    }

    pub open spec fn slide_patches(self, agent: Agent) -> Seq<Patch> {
        self.slide_gather(agent, pinned_locales(self.pinfield_of(agent).0))
    }

    /// Every movement of `team` but the secret service, figurine kind by
    /// figurine kind: servants, ponies, scholars, cops, princesses, figurehead.
    pub open spec fn move_patches(self, team: Team) -> Seq<Patch> {
        self.servant_patches(team) + self.hop_patches(
            Agent { team, job_description: JobDescription::Pony },
        ) + self.slide_patches(Agent { team, job_description: JobDescription::Scholar })
            + self.slide_patches(Agent { team, job_description: JobDescription::Cop })
            + self.slide_patches(Agent { team, job_description: JobDescription::Princess })
            + self.hop_patches(Agent { team, job_description: JobDescription::Figurehead })
    }

    // ---- what becomes of a patch ----

    #[verifier::opaque]
    pub open spec fn reckless_commits(self, patch: Patch) -> Seq<Commit> {
        subpredicted(self.spec_apply(patch))
    }

    pub open spec fn expand_reckless(self, patches: Seq<Patch>) -> Seq<Commit>
        decreases patches.len(),
    {
        if patches.len() == 0 {
            Seq::empty()
        } else {
            self.expand_reckless(patches.drop_last()) + self.reckless_commits(patches.last())
        }
    }

    /// Whether `team` attacks `at`: a figurehead of the opposition placed
    /// there could be stunned by some movement of `team`.
    pub open spec fn leered(self, at: Locale, team: Team) -> bool {
        let target = Agent { team: team.spec_opposition(), job_description: JobDescription::Figurehead };
        let tree = WorldState {
            initiative: team,
            ..self.with_pinfield(target, self.pinfield_of(target).spec_alight(at))
        };
        let premonitions = tree.expand_reckless(tree.move_patches(team));
        exists|k: int| 0 <= k < premonitions.len() && (#[trigger] premonitions[k]).patch.whither == at
    }

    /// The home rank of a team's figurehead.
    pub open spec fn figurehead_home_rank(team: Team) -> u8 {
        match team {
            Team::Orange => 0,
            Team::Blue => 7,
        }
    }

    /// The secret services of `team`: toward the west over the files 1 to 3,
    /// toward the east over 5 and 6, each where the team is still eligible and
    /// those locales are vacant; none at all where the figurehead's home is
    /// attacked, and none through or into an attacked locale.
    pub open spec fn service_patches(self, team: Team) -> Seq<Patch> {
        let home = Self::figurehead_home_rank(team);
        let opposition = team.spec_opposition();
        let figurehead = Agent { team, job_description: JobDescription::Figurehead };
        let west_open = self.eligible(team, true) && self.vacant(Locale { rank: home, file: 1 })
            && self.vacant(Locale { rank: home, file: 2 }) && self.vacant(
            Locale { rank: home, file: 3 },
        );
        let east_open = self.eligible(team, false) && self.vacant(Locale { rank: home, file: 5 })
            && self.vacant(Locale { rank: home, file: 6 });
        if (west_open || east_open) && self.leered(Locale { rank: home, file: 4 }, opposition) {
            Seq::empty()
        } else {
            let west = if west_open && !self.leered(Locale { rank: home, file: 1 }, opposition)
                && !self.leered(Locale { rank: home, file: 2 }, opposition) && !self.leered(
                Locale { rank: home, file: 3 },
                opposition,
            ) {
                seq![
                    Patch {
                        star: figurehead,
                        whence: Locale { rank: home, file: 4 },
                        whither: Locale { rank: home, file: 2 },
                    },
                ]
            } else {
                Seq::empty()
            };
            let east = if east_open && !self.leered(Locale { rank: home, file: 5 }, opposition)
                && !self.leered(Locale { rank: home, file: 6 }, opposition) {
                seq![
                    Patch {
                        star: figurehead,
                        whence: Locale { rank: home, file: 4 },
                        whither: Locale { rank: home, file: 6 },
                    },
                ]
            } else {
                Seq::empty()
            };
            west + east
        }
    }

    /// Every movement of the team with the initiative, secret services last.
    pub open spec fn all_patches(self) -> Seq<Patch> {
        self.move_patches(self.initiative) + self.service_patches(self.initiative)
    }

    /// What `reckless_lookahead` returns.
    pub open spec fn spec_reckless_lookahead(self) -> Seq<Commit> {
        self.expand_reckless(self.all_patches())
    }

    /// Whether `team` is in critical endangerment: were the opposition to
    /// move now, one of its movements would stun `team`'s figurehead.
    pub open spec fn in_critical(self, team: Team) -> bool {
        let contingency = WorldState { initiative: team.spec_opposition(), ..self };
        let premonitions = contingency.spec_reckless_lookahead();
        exists|k: int| 0 <= k < premonitions.len() && stuns_figurehead(#[trigger] premonitions[k])
    }

    /// The commits of a patch that does not leave the mover's own figurehead in
    /// critical endangerment; none for any other.
    #[verifier::opaque]
    pub open spec fn careful_commits(self, patch: Patch) -> Seq<Commit> {
        let commit = self.spec_apply(patch);
        if commit.tree.in_critical(self.initiative) {
            Seq::empty()
        } else {
            subpredicted(commit)
        }
    }

    pub open spec fn expand_careful(self, patches: Seq<Patch>) -> Seq<Commit>
        decreases patches.len(),
    {
        if patches.len() == 0 {
            Seq::empty()
        } else {
            self.expand_careful(patches.drop_last()) + self.careful_commits(patches.last())
        }
    }

    pub open spec fn commits_of(self, patch: Patch, nihilistically: bool) -> Seq<Commit> {
        if nihilistically {
            self.reckless_commits(patch)
        } else {
            self.careful_commits(patch)
        }
    }

    /// The commits of a list of patches, in order: all of them where
    /// `nihilistically`, else only those that keep the mover's figurehead safe.
    pub open spec fn expand(self, patches: Seq<Patch>, nihilistically: bool) -> Seq<Commit> {
        if nihilistically {
            self.expand_reckless(patches)
        } else {
            self.expand_careful(patches)
        }
    }

    /// What `lookahead` returns.
    pub open spec fn spec_lookahead(self) -> Seq<Commit> {
        self.expand_careful(self.all_patches())
    }
}

pub proof fn lemma_expand_push(world: WorldState, patches: Seq<Patch>, patch: Patch, nihilistically: bool)
    ensures
        world.expand(patches.push(patch), nihilistically) == world.expand(patches, nihilistically)
            + world.commits_of(patch, nihilistically),
{
    assert(patches.push(patch).drop_last() =~= patches);
}

pub proof fn lemma_expand_concat(world: WorldState, a: Seq<Patch>, b: Seq<Patch>, nihilistically: bool)
    ensures
        world.expand(a + b, nihilistically) == world.expand(a, nihilistically) + world.expand(
            b,
            nihilistically,
        ),
    decreases b.len(),
{
    if b.len() == 0 {
        assert(a + b =~= a);
        assert(world.expand(b, nihilistically) =~= Seq::<Commit>::empty());
        assert(world.expand(a, nihilistically) + Seq::<Commit>::empty() =~= world.expand(
            a,
            nihilistically,
        ));
    } else {
        lemma_expand_concat(world, a, b.drop_last(), nihilistically);
        assert((a + b).drop_last() =~= a + b.drop_last());
        assert((a + b).last() == b.last());
        assert(world.expand(a + b, nihilistically) == world.expand(a + b.drop_last(), nihilistically)
            + world.commits_of(b.last(), nihilistically));
        assert(world.expand(b, nihilistically) == world.expand(b.drop_last(), nihilistically)
            + world.commits_of(b.last(), nihilistically));
        assert(world.expand(a, nihilistically) + world.expand(b, nihilistically) =~= world.expand(
            a,
            nihilistically,
        ) + world.expand(b.drop_last(), nihilistically) + world.commits_of(b.last(), nihilistically));
    }
}

pub proof fn lemma_expand_concat4(
    world: WorldState,
    a: Seq<Patch>,
    b: Seq<Patch>,
    c: Seq<Patch>,
    d: Seq<Patch>,
    nihilistically: bool,
)
    ensures
        world.expand(a + b + c + d, nihilistically) == world.expand(a, nihilistically)
            + world.expand(b, nihilistically) + world.expand(c, nihilistically) + world.expand(
            d,
            nihilistically,
        ),
{
    lemma_expand_concat(world, a, b, nihilistically);
    lemma_expand_concat(world, a + b, c, nihilistically);
    lemma_expand_concat(world, a + b + c, d, nihilistically);
}

pub proof fn lemma_servant_parts(
    world: WorldState,
    team: Team,
    start: Locale,
    nihilistically: bool,
    p0: Seq<Commit>,
    p1: Seq<Commit>,
    p2: Seq<Commit>,
    p3: Seq<Commit>,
    p4: Seq<Commit>,
)
    requires
        p1 == p0 + world.expand(world.step_patch(team, start), nihilistically),
        p2 == p1 + world.expand(world.double_patch(team, start), nihilistically),
        p3 == p2 + world.expand(world.stun_patch(team, start, stun_directions(team).0), nihilistically),
        p4 == p3 + world.expand(world.stun_patch(team, start, stun_directions(team).1), nihilistically),
    ensures
        p4 == p0 + world.expand(world.servant_patches_at(team, start), nihilistically),
{
    lemma_expand_concat4(
        world,
        world.step_patch(team, start),
        world.double_patch(team, start),
        world.stun_patch(team, start, stun_directions(team).0),
        world.stun_patch(team, start, stun_directions(team).1),
        nihilistically,
    );
    assert(p4 =~= p0 + world.expand(world.servant_patches_at(team, start), nihilistically));
}

pub proof fn lemma_expand_single(world: WorldState, patch: Patch, nihilistically: bool)
    ensures
        world.expand(seq![patch], nihilistically) == world.commits_of(patch, nihilistically),
{
    lemma_expand_push(world, Seq::empty(), patch, nihilistically);
    assert(Seq::<Patch>::empty().push(patch) =~= seq![patch]);
    assert(world.expand(Seq::empty(), nihilistically) =~= Seq::<Commit>::empty());
    assert(Seq::<Commit>::empty() + world.commits_of(patch, nihilistically) =~= world.commits_of(
        patch,
        nihilistically,
    ));
}

pub proof fn lemma_expand_empty(world: WorldState, nihilistically: bool)
    ensures
        world.expand(Seq::empty(), nihilistically) == Seq::<Commit>::empty(),
{
}

/// The figurehead's offsets move at most one file.
pub proof fn lemma_figurehead_offsets_small(j: int)
    requires
        0 <= j < 8,
    ensures
        -1 <= figurehead_offsets()[j].1 <= 1,
{
    let offsets = figurehead_offsets();
    assert(offsets[0].1 == -1 && offsets[1].1 == 0 && offsets[2].1 == 1 && offsets[3].1 == -1);
    assert(offsets[4].1 == 1 && offsets[5].1 == -1 && offsets[6].1 == 0 && offsets[7].1 == 1);
}

/// The slide offsets are unit steps.
pub proof fn lemma_slide_offsets_unit(job: JobDescription, j: int)
    requires
        0 <= j < slide_offsets(job).len(),
    ensures
        unit_offset(slide_offsets(job)[j]),
{
    let offsets = slide_offsets(job);
    if job == JobDescription::Scholar || job == JobDescription::Cop {
        assert(unit_offset(offsets[0]) && unit_offset(offsets[1]) && unit_offset(offsets[2])
            && unit_offset(offsets[3]));
    } else {
        assert(unit_offset(offsets[0]) && unit_offset(offsets[1]) && unit_offset(offsets[2])
            && unit_offset(offsets[3]));
        assert(unit_offset(offsets[4]) && unit_offset(offsets[5]) && unit_offset(offsets[6])
            && unit_offset(offsets[7]));
    }
}

/// A slide from a locale on the lattice leaves it within eight steps.
pub proof fn lemma_slide_ends(start: Locale, offset: (i8, i8))
    requires
        start.on_board(),
        unit_offset(offset),
    ensures
        start.spec_multidisplace(offset, 8) is None,
{
    let r = crate::space::signed(start.rank) + 8 * offset.0;
    let f = crate::space::signed(start.file) + 8 * offset.1;
    assert(!(0 <= r < 8 && 0 <= f < 8));
}

/// The locale of the pin of a locale on the lattice is the locale itself.
pub proof fn lemma_locale_of_own_pin(locale: Locale)
    requires
        locale.on_board(),
    ensures
        locale_of_pin(locale.index()) == locale,
{
    assert((8 * locale.rank + locale.file) / 8 == locale.rank as int) by (nonlinear_arith)
        requires
            locale.file < 8,
    ;
    assert((8 * locale.rank + locale.file) % 8 == locale.file as int) by (nonlinear_arith)
        requires
            locale.file < 8,
    ;
}

/// `apply` takes a patch whose locales lie on the lattice, whose figurehead
/// moves at most one file or performs a secret service, and whose servant
/// moves forward, of the team with the initiative or in a well-formed world.
pub proof fn lemma_ordinary_patch_fits(world: WorldState, patch: Patch)
    requires
        patch.whence.on_board(),
        patch.whither.on_board(),
        patch.star.job_description == JobDescription::Figurehead ==> (-1 <= patch.file_shift() <= 1
            || patch.whither.file == 2 || patch.whither.file == 6),
        patch.star.job_description == JobDescription::Servant ==> {
            &&& patch.star.team == Team::Orange ==> patch.rank_shift() >= 1
            &&& patch.star.team == Team::Blue ==> patch.rank_shift() <= -1
            &&& world.passing_safe(patch.star.team)
        },
    ensures
        world.apply_defined(patch),
{
}

impl WorldState {
    fn subpredict(&self, premonitions: &mut Vec<Commit>, premonition: Commit)
        requires
            premonition.patch.whither.pinnable(),
        ensures
            final(premonitions)@ == old(premonitions)@ + subpredicted(premonition),
    {
        if premonition.patch.concerns_servant_ascension() {
            let personae = Agent::dramatis_personae(premonition.patch.star.team);
            let ghost start = premonitions@;
            let mut k: usize = 0;
            while k < 6
                invariant
                    k <= 6,
                    premonition.patch.whither.pinnable(),
                    personae@ == Agent::spec_personae(premonition.patch.star.team),
                    premonitions@ == start + ascensions_below(premonition, k as nat),
                decreases 6 - k,
            {
                let ascended = personae[k];
                if ascended.job_description == JobDescription::Servant
                    || ascended.job_description == JobDescription::Figurehead {
                    k += 1;
                    continue;
                }
                let mut ascendency = premonition;
                ascendency.ascension = Some(ascended);
                let vessel_pinfield = premonition.tree.agent_to_pinfield_ref(
                    premonition.patch.star,
                ).quench(premonition.patch.whither);
                let ascended_pinfield = premonition.tree.agent_to_pinfield_ref(ascended).alight(
                    premonition.patch.whither,
                );
                ascendency.tree = ascendency.tree.except_replaced_subboard(
                    premonition.patch.star,
                    vessel_pinfield,
                ).except_replaced_subboard(ascended, ascended_pinfield);
                assert(ascendency == ascend(premonition, ascended));
                premonitions.push(ascendency);
                assert(premonitions@ =~= start + ascensions_below(premonition, (k + 1) as nat));
                k += 1;
            }
        } else {
            premonitions.push(premonition);
        }
    }

    pub fn predict(&self, premonitions: &mut Vec<Commit>, patch: Patch, nihilistically: bool)
        requires
            self.apply_defined(patch),
        ensures
            final(premonitions)@ == old(premonitions)@ + self.commits_of(patch, nihilistically),
        decreases (if nihilistically {
            0int
        } else {
            1int
        }), 2int,
    {
        if nihilistically {
            let premonition = self.apply(patch);
            self.subpredict(premonitions, premonition);
            proof {
                reveal(WorldState::reckless_commits);
            }
        } else {
            let premonition_maybe = self.careful_apply(patch);
            if let Some(premonition) = premonition_maybe {
                self.subpredict(premonitions, premonition);
            } else {
                assert(old(premonitions)@ + Seq::<Commit>::empty() =~= old(premonitions)@);
            }
            proof {
                reveal(WorldState::careful_commits);
            }
        }
    }

    pub fn careful_apply(&self, patch: Patch) -> (commit: Option<Commit>)
        requires
            self.apply_defined(patch),
        ensures
            commit == (if self.spec_apply(patch).tree.in_critical(self.initiative) {
                None
            } else {
                Some(self.spec_apply(patch))
            }),
        decreases 1int, 1int,
    {
        let force_commit = self.apply(patch);
        if force_commit.tree.in_critical_endangerment(self.initiative) {
            None
        } else {
            Some(force_commit)
        }
    }

    pub fn in_critical_endangerment(&self, team: Team) -> (endangered: bool)
        ensures
            endangered == self.in_critical(team),
        decreases 1int, 0int,
    {
        let mut contingency = *self;
        contingency.initiative = team.opposition();
        let premonitions = contingency.reckless_lookahead();
        let mut k: usize = 0;
        while k < premonitions.len()
            invariant
                k <= premonitions@.len(),
                contingency == (WorldState { initiative: team.spec_opposition(), ..*self }),
                premonitions@ == contingency.spec_reckless_lookahead(),
                forall|j: int| 0 <= j < k ==> !stuns_figurehead(#[trigger] premonitions@[j]),
            decreases premonitions@.len() - k,
        {
            if let Some(patient) = premonitions[k].hospitalization {
                if patient.job_description == JobDescription::Figurehead {
                    assert(stuns_figurehead(premonitions@[k as int]));
                    return true;
                }
            }
            k += 1;
        }
        false
    }

    fn predict_stun(
        &self,
        premonitions: &mut Vec<Commit>,
        team: Team,
        start_locale: Locale,
        westward: bool,
        nihilistically: bool,
    )
        requires
            self.passing_safe(team),
            start_locale.on_board(),
        ensures
            final(premonitions)@ == old(premonitions)@ + self.expand(
                self.stun_patch(
                    team,
                    start_locale,
                    if westward {
                        stun_directions(team).0
                    } else {
                        stun_directions(team).1
                    },
                ),
                nihilistically,
            ),
        decreases (if nihilistically {
            0int
        } else {
            1int
        }), 3int,
    {
        let servant_agent = Agent::new(team, JobDescription::Servant);
        let ghost before = premonitions@;
        let stun_offset: (i8, i8) = match (team, westward) {
            (Team::Orange, true) => (1, -1),
            (Team::Orange, false) => (1, 1),
            (Team::Blue, true) => (-1, -1),
            (Team::Blue, false) => (-1, 1),
        };
        let stun_destination_maybe = start_locale.displace(stun_offset);
        if let Some(stun_destination) = stun_destination_maybe {
            let patch = Patch { star: servant_agent, whence: start_locale, whither: stun_destination };
            if self.occupied_by(team.opposition()).query(stun_destination) {
                proof {
                    lemma_ordinary_patch_fits(*self, patch);
                    lemma_expand_single(*self, patch, nihilistically);
                }
                self.predict(premonitions, patch, nihilistically);
                return ;
            } else if let Some(passing_by_target) = self.passing_by_locale {
                if passing_by_target == stun_destination {
                    proof {
                        lemma_ordinary_patch_fits(*self, patch);
                        lemma_expand_single(*self, patch, nihilistically);
                    }
                    self.predict(premonitions, patch, nihilistically);
                    return ;
                }
            }
        }
        proof {
            lemma_expand_empty(*self, nihilistically);
        }
        assert(before + Seq::<Commit>::empty() =~= before);
    }

    fn predict_step(&self, premonitions: &mut Vec<Commit>, team: Team, start_locale: Locale, nihilistically: bool)
        requires
            self.passing_safe(team),
            start_locale.on_board(),
        ensures
            final(premonitions)@ == old(premonitions)@ + self.expand(
                self.step_patch(team, start_locale),
                nihilistically,
            ),
        decreases (if nihilistically {
            0int
        } else {
            1int
        }), 3int,
    {
        let standard_offset: (i8, i8) = match team {
            Team::Orange => (1, 0),
            Team::Blue => (-1, 0),
        };
        let ghost before = premonitions@;
        // can move one locale if he's not blocked
        let std_destination_maybe = start_locale.displace(standard_offset);
        if let Some(destination_locale) = std_destination_maybe {
            if self.is_vacant(destination_locale) {
                let patch = Patch {
                    star: Agent::new(team, JobDescription::Servant),
                    whence: start_locale,
                    whither: destination_locale,
                };
                proof {
                    lemma_ordinary_patch_fits(*self, patch);
                    lemma_expand_single(*self, patch, nihilistically);
                }
                self.predict(premonitions, patch, nihilistically);
                return ;
            }
        }
        proof {
            lemma_expand_empty(*self, nihilistically);
        }
        assert(before + Seq::<Commit>::empty() =~= before);
    }

    fn predict_double(&self, premonitions: &mut Vec<Commit>, team: Team, start_locale: Locale, nihilistically: bool)
        requires
            self.passing_safe(team),
            start_locale.on_board(),
        ensures
            final(premonitions)@ == old(premonitions)@ + self.expand(
                self.double_patch(team, start_locale),
                nihilistically,
            ),
        decreases (if nihilistically {
            0int
        } else {
            1int
        }), 3int,
    {
        let (initial_rank, standard_offset, boost_offset): (u8, (i8, i8), (i8, i8)) = match team {
            Team::Orange => (1, (1, 0), (2, 0)),
            Team::Blue => (6, (-1, 0), (-2, 0)),
        };
        let ghost before = premonitions@;
        // can move two locales if he hasn't previously moved
        if start_locale.rank == initial_rank {
            let boost_destination = start_locale.displace(boost_offset).unwrap();
            let standard_destination = start_locale.displace(standard_offset).unwrap();
            if self.is_vacant(boost_destination) && self.is_vacant(standard_destination) {
                let patch = Patch {
                    star: Agent::new(team, JobDescription::Servant),
                    whence: start_locale,
                    whither: boost_destination,
                };
                proof {
                    lemma_ordinary_patch_fits(*self, patch);
                    lemma_expand_single(*self, patch, nihilistically);
                }
                self.predict(premonitions, patch, nihilistically);
                return ;
            }
        }
        proof {
            lemma_expand_empty(*self, nihilistically);
        }
        assert(before + Seq::<Commit>::empty() =~= before);
    }

    /// The servant's commits from one start locale.
    #[verifier::spinoff_prover]
    #[verifier::rlimit(30)]
    fn servant_lookahead_from(
        &self,
        premonitions: &mut Vec<Commit>,
        team: Team,
        start_locale: Locale,
        nihilistically: bool,
    )
        requires
            self.passing_safe(team),
            start_locale.on_board(),
        ensures
            final(premonitions)@ == old(premonitions)@ + self.expand(
                self.servant_patches_at(team, start_locale),
                nihilistically,
            ),
        decreases (if nihilistically {
            0int
        } else {
            1int
        }), 4int,
    {
        let ghost p0 = premonitions@;
        self.predict_step(premonitions, team, start_locale, nihilistically);
        let ghost p1 = premonitions@;
        self.predict_double(premonitions, team, start_locale, nihilistically);
        let ghost p2 = premonitions@;
        self.predict_stun(premonitions, team, start_locale, true, nihilistically);
        let ghost p3 = premonitions@;
        self.predict_stun(premonitions, team, start_locale, false, nihilistically);
        proof {
            lemma_servant_parts(*self, team, start_locale, nihilistically, p0, p1, p2, p3, premonitions@);
        }
    }

    pub fn servant_lookahead(&self, team: Team, nihilistically: bool) -> (premonitions: Vec<
        Commit,
    >)
        requires
            self.passing_safe(team),
        ensures
            premonitions@ == self.expand(self.servant_patches(team), nihilistically),
        decreases (if nihilistically {
            0int
        } else {
            1int
        }), 5int,
    {
        let servant_agent = Agent::new(team, JobDescription::Servant);
        let positional_chart: &Pinfield = self.agent_to_pinfield_ref(servant_agent);
        let mut premonitions = Vec::new();
        let starts = positional_chart.to_locales();
        let mut n: usize = 0;
        while n < starts.len()
            invariant
                self.passing_safe(team),
                n <= starts@.len(),
                starts@ == pinned_locales(self.pinfield_of(servant_agent).0),
                servant_agent == (Agent { team, job_description: JobDescription::Servant }),
                premonitions@ == self.expand(
                    self.servant_gather(team, starts@.take(n as int)),
                    nihilistically,
                ),
            decreases starts@.len() - n,
        {
            let start_locale = starts[n];
            proof {
                law_pinned_locales_are_held(self.pinfield_of(servant_agent).0, 64, n as int);
            }
            self.servant_lookahead_from(&mut premonitions, team, start_locale, nihilistically);
            proof {
                let earlier = self.servant_gather(team, starts@.take(n as int));
                let here = self.servant_patches_at(team, start_locale);
                assert(starts@.take(n + 1).drop_last() =~= starts@.take(n as int));
                assert(starts@.take(n + 1).last() == start_locale);
                assert(self.servant_gather(team, starts@.take(n + 1)) == earlier + here);
                lemma_expand_concat(*self, earlier, here, nihilistically);
            }
            n += 1;
        }
        assert(starts@.take(starts@.len() as int) =~= starts@);
        premonitions
    }
}

impl WorldState {
    fn ponylike_lookahead(&self, agent: Agent, nihilistically: bool) -> (premonitions: Vec<Commit>)
        requires
            agent.job_description == JobDescription::Pony || agent.job_description
                == JobDescription::Figurehead,
        ensures
            premonitions@ == self.expand(self.hop_patches(agent), nihilistically),
        decreases (if nihilistically {
            0int
        } else {
            1int
        }), 4int,
    {
        let mut premonitions = Vec::new();
        let positional_chart: &Pinfield = self.agent_to_pinfield_ref(agent);
        let starts = positional_chart.to_locales();
        let mut n: usize = 0;
        while n < starts.len()
            invariant
                n <= starts@.len(),
                agent.job_description == JobDescription::Pony || agent.job_description
                    == JobDescription::Figurehead,
                starts@ == pinned_locales(self.pinfield_of(agent).0),
                premonitions@ == self.expand(
                    self.hop_gather(agent, starts@.take(n as int)),
                    nihilistically,
                ),
            decreases starts@.len() - n,
        {
            let start_locale = starts[n];
            proof {
                law_pinned_locales_are_held(self.pinfield_of(agent).0, 64, n as int);
            }
            let range = movement_range(agent.job_description, start_locale);
            let bits = self.occupied_by(agent.team).invert().intersection(range);
            let destinations = bits.to_locales();
            let ghost before = premonitions@;
            let ghost targets = destinations@;
            let mut m: usize = 0;
            while m < destinations.len()
                invariant
                    m <= targets.len(),
                    destinations@ == targets,
                    start_locale.on_board(),
                    agent.job_description == JobDescription::Pony || agent.job_description
                        == JobDescription::Figurehead,
                    targets == pinned_locales(bits.0),
                    bits.0 == !self.spec_occupied_by(agent.team) & hop_bits(
                        start_locale,
                        hop_offsets(agent.job_description),
                    ),
                    premonitions@ == before + self.expand(
                        Self::patches_to(agent, start_locale, targets.take(m as int)),
                        nihilistically,
                    ),
                decreases targets.len() - m,
            {
                let destination = destinations[m];
                let patch = Patch { star: agent, whence: start_locale, whither: destination };
                proof {
                    law_pinned_locales_are_held(bits.0, 64, m as int);
                    if agent.job_description == JobDescription::Figurehead {
                        let i = destination.index() as u64;
                        lemma_pin_intersection(
                            !self.spec_occupied_by(agent.team),
                            hop_bits(start_locale, figurehead_offsets()),
                            i,
                        );
                        lemma_hop_member(start_locale, figurehead_offsets(), i);
                        let j = choose|j: int|
                            0 <= j < figurehead_offsets().len() && start_locale.spec_displace(
                                #[trigger] figurehead_offsets()[j],
                            ) == Some(locale_of_pin(i as int));
                        lemma_figurehead_offsets_small(j);
                        lemma_locale_of_own_pin(destination);
                    }
                    lemma_ordinary_patch_fits(*self, patch);
                    lemma_expand_push(
                        *self,
                        Self::patches_to(agent, start_locale, targets.take(m as int)),
                        patch,
                        nihilistically,
                    );
                    assert(targets.take(m + 1).drop_last() =~= targets.take(m as int));
                    assert(targets.take(m + 1).last() == destination);
                }
                self.predict(&mut premonitions, patch, nihilistically);
                m += 1;
            }
            proof {
                assert(targets.take(targets.len() as int) =~= targets);
                let earlier = self.hop_gather(agent, starts@.take(n as int));
                let here = self.hop_patches_at(agent, start_locale);
                assert(starts@.take(n + 1).drop_last() =~= starts@.take(n as int));
                assert(starts@.take(n + 1).last() == start_locale);
                assert(self.hop_gather(agent, starts@.take(n + 1)) == earlier + here);
                lemma_expand_concat(*self, earlier, here, nihilistically);
            }
            n += 1;
        }
        assert(starts@.take(starts@.len() as int) =~= starts@);
        premonitions
    }

    fn princesslike_lookahead(&self, agent: Agent, nihilistically: bool) -> (premonitions: Vec<
        Commit,
    >)
        requires
            agent.job_description == JobDescription::Scholar || agent.job_description
                == JobDescription::Cop || agent.job_description == JobDescription::Princess,
        ensures
            premonitions@ == self.expand(self.slide_patches(agent), nihilistically),
        decreases (if nihilistically {
            0int
        } else {
            1int
        }), 4int,
    {
        let positional_chart: &Pinfield = self.agent_to_pinfield_ref(agent);
        let mut premonitions = Vec::new();
        let offsets: Vec<(i8, i8)> = if agent.job_description == JobDescription::Scholar {
            vec![(-1, -1), (-1, 1), (1, -1), (1, 1)]
        } else if agent.job_description == JobDescription::Cop {
            vec![(-1, 0), (1, 0), (0, -1), (0, 1)]
        } else {
            vec![(-1, -1), (-1, 0), (-1, 1), (0, -1), (0, 1), (1, -1), (1, 0), (1, 1)]
        };
        assert(offsets@ =~= slide_offsets(agent.job_description));
        let starts = positional_chart.to_locales();
        let mut n: usize = 0;
        while n < starts.len()
            invariant
                n <= starts@.len(),
                agent.job_description == JobDescription::Scholar || agent.job_description
                    == JobDescription::Cop || agent.job_description == JobDescription::Princess,
                offsets@ == slide_offsets(agent.job_description),
                starts@ == pinned_locales(self.pinfield_of(agent).0),
                premonitions@ == self.expand(
                    self.slide_gather(agent, starts@.take(n as int)),
                    nihilistically,
                ),
            decreases starts@.len() - n,
        {
            let start_locale = starts[n];
            proof {
                law_pinned_locales_are_held(self.pinfield_of(agent).0, 64, n as int);
            }
            let ghost before = premonitions@;
            let mut o: usize = 0;
            while o < offsets.len()
                invariant
                    o <= offsets@.len(),
                    start_locale.on_board(),
                    agent.job_description == JobDescription::Scholar || agent.job_description
                        == JobDescription::Cop || agent.job_description == JobDescription::Princess,
                    offsets@ == slide_offsets(agent.job_description),
                    premonitions@ == before + self.expand(
                        self.rays(agent, start_locale, offsets@.take(o as int)),
                        nihilistically,
                    ),
                decreases offsets@.len() - o,
            {
                let offset = offsets[o];
                proof {
                    lemma_slide_offsets_unit(agent.job_description, o as int);
                }
                let ghost before_ray = premonitions@;
                let ghost target = before_ray + self.expand(
                    self.ray(agent, start_locale, offset, 1),
                    nihilistically,
                );
                let mut venture: i8 = 1;
                loop
                    invariant_except_break
                        1 <= venture <= 8,
                        agent.job_description == JobDescription::Scholar || agent.job_description
                            == JobDescription::Cop || agent.job_description
                            == JobDescription::Princess,
                        start_locale.on_board(),
                        unit_offset(offset),
                        premonitions@ + self.expand(
                            self.ray(agent, start_locale, offset, venture as int),
                            nihilistically,
                        ) == target,
                    ensures
                        premonitions@ == target,
                    decreases 8 - venture,
                {
                    assert(-8 <= venture * offset.0 <= 8 && -8 <= venture * offset.1 <= 8)
                        by (nonlinear_arith)
                        requires
                            1 <= venture <= 8,
                            -1 <= offset.0 <= 1,
                            -1 <= offset.1 <= 1,
                    ;
                    let destination_maybe = start_locale.multidisplace(offset, venture);
                    let ghost here_start = premonitions@;
                    match destination_maybe {
                        Some(destination) => {
                            let empty = self.is_vacant(destination);
                            let friend = self.occupied_by(agent.team).query(destination);
                            let patch = Patch {
                                star: agent,
                                whence: start_locale,
                                whither: destination,
                            };
                            let ghost here: Seq<Patch> = if empty || !friend {
                                seq![patch]
                            } else {
                                Seq::empty()
                            };
                            if empty || !friend {
                                proof {
                                    lemma_ordinary_patch_fits(*self, patch);
                                    lemma_expand_single(*self, patch, nihilistically);
                                }
                                self.predict(&mut premonitions, patch, nihilistically);
                            } else {
                                proof {
                                    lemma_expand_empty(*self, nihilistically);
                                }
                                assert(here_start + Seq::<Commit>::empty() =~= here_start);
                            }
                            assert(premonitions@ == here_start + self.expand(here, nihilistically));
                            if !empty {
                                assert(self.ray(agent, start_locale, offset, venture as int)
                                    == here);
                                break;
                            }
                            proof {
                                if venture == 8 {
                                    lemma_slide_ends(start_locale, offset);
                                }
                                let further = self.ray(
                                    agent,
                                    start_locale,
                                    offset,
                                    venture + 1,
                                );
                                assert(self.ray(agent, start_locale, offset, venture as int)
                                    == here + further);
                                lemma_expand_concat(*self, here, further, nihilistically);
                                assert(premonitions@ + self.expand(further, nihilistically)
                                    =~= here_start + self.expand(here + further, nihilistically));
                            }
                        },
                        None => {
                            proof {
                                lemma_expand_empty(*self, nihilistically);
                            }
                            assert(premonitions@ =~= premonitions@ + Seq::<Commit>::empty());
                            break;
                        },
                    }
                    venture += 1;
                }
                proof {
                    let earlier = self.rays(agent, start_locale, offsets@.take(o as int));
                    let ray = self.ray(agent, start_locale, offset, 1);
                    assert(offsets@.take(o + 1).drop_last() =~= offsets@.take(o as int));
                    assert(offsets@.take(o + 1).last() == offset);
                    assert(self.rays(agent, start_locale, offsets@.take(o + 1)) == earlier + ray);
                    lemma_expand_concat(*self, earlier, ray, nihilistically);
                }
                o += 1;
            }
            proof {
                assert(offsets@.take(offsets@.len() as int) =~= offsets@);
                let earlier = self.slide_gather(agent, starts@.take(n as int));
                let here = self.rays(agent, start_locale, slide_offsets(agent.job_description));
                assert(starts@.take(n + 1).drop_last() =~= starts@.take(n as int));
                assert(starts@.take(n + 1).last() == start_locale);
                assert(self.slide_gather(agent, starts@.take(n + 1)) == earlier + here);
                lemma_expand_concat(*self, earlier, here, nihilistically);
            }
            n += 1;
        }
        assert(starts@.take(starts@.len() as int) =~= starts@);
        premonitions
    }

    pub fn pony_lookahead(&self, team: Team, nihilistically: bool) -> (premonitions: Vec<Commit>)
        ensures
            premonitions@ == self.expand(
                self.hop_patches(Agent { team, job_description: JobDescription::Pony }),
                nihilistically,
            ),
        decreases (if nihilistically {
            0int
        } else {
            1int
        }), 5int,
    {
        self.ponylike_lookahead(Agent::new(team, JobDescription::Pony), nihilistically)
    }

    pub fn scholar_lookahead(&self, team: Team, nihilistically: bool) -> (premonitions: Vec<
        Commit,
    >)
        ensures
            premonitions@ == self.expand(
                self.slide_patches(Agent { team, job_description: JobDescription::Scholar }),
                nihilistically,
            ),
        decreases (if nihilistically {
            0int
        } else {
            1int
        }), 5int,
    {
        self.princesslike_lookahead(Agent::new(team, JobDescription::Scholar), nihilistically)
    }

    pub fn cop_lookahead(&self, team: Team, nihilistically: bool) -> (premonitions: Vec<Commit>)
        ensures
            premonitions@ == self.expand(
                self.slide_patches(Agent { team, job_description: JobDescription::Cop }),
                nihilistically,
            ),
        decreases (if nihilistically {
            0int
        } else {
            1int
        }), 5int,
    {
        self.princesslike_lookahead(Agent::new(team, JobDescription::Cop), nihilistically)
    }

    pub fn princess_lookahead(&self, team: Team, nihilistically: bool) -> (premonitions: Vec<
        Commit,
    >)
        ensures
            premonitions@ == self.expand(
                self.slide_patches(Agent { team, job_description: JobDescription::Princess }),
                nihilistically,
            ),
        decreases (if nihilistically {
            0int
        } else {
            1int
        }), 5int,
    {
        self.princesslike_lookahead(Agent::new(team, JobDescription::Princess), nihilistically)
    }

    pub fn figurehead_lookahead(&self, team: Team, nihilistically: bool) -> (premonitions: Vec<
        Commit,
    >)
        ensures
            premonitions@ == self.expand(
                self.hop_patches(Agent { team, job_description: JobDescription::Figurehead }),
                nihilistically,
            ),
        decreases (if nihilistically {
            0int
        } else {
            1int
        }), 5int,
    {
        self.ponylike_lookahead(Agent::new(team, JobDescription::Figurehead), nihilistically)
    }

    pub fn is_being_leered_at_by(&self, locale: Locale, team: Team) -> (leered: bool)
        requires
            locale.pinnable(),
        ensures
            leered == self.leered(locale, team),
        decreases 0int, 7int,
    {
        let agent = Agent::new(team.opposition(), JobDescription::Figurehead);
        let pinfield = self.agent_to_pinfield_ref(agent);
        let mut tree = self.except_replaced_subboard(agent, pinfield.alight(locale));
        tree.initiative = team;
        let prems = tree.lookahead_without_secret_service(true);
        assert(tree == (WorldState {
            initiative: team,
            ..self.with_pinfield(agent, self.pinfield_of(agent).spec_alight(locale))
        }));
        let mut k: usize = 0;
        while k < prems.len()
            invariant
                k <= prems@.len(),
                prems@ == tree.expand_reckless(tree.move_patches(team)),
                tree == (WorldState {
                    initiative: team,
                    ..self.with_pinfield(agent, self.pinfield_of(agent).spec_alight(locale))
                }),
                agent == (Agent { team: team.spec_opposition(), job_description: JobDescription::Figurehead }),
                forall|j: int| 0 <= j < k ==> (#[trigger] prems@[j]).patch.whither != locale,
            decreases prems@.len() - k,
        {
            if prems[k].patch.whither == locale {
                assert(prems@[k as int].patch.whither == locale);
                return true;
            }
            k += 1;
        }
        false
    }

    pub fn service_lookahead(&self, team: Team, nihilistically: bool) -> (premonitions: Vec<
        Commit,
    >)
        ensures
            premonitions@ == self.expand(self.service_patches(team), nihilistically),
        decreases (if nihilistically {
            0int
        } else {
            1int
        }), 8int,
    {
        let mut premonitions = Vec::<Commit>::new();
        let (east_service, west_service) = match team {
            Team::Orange => (
                self.orange_east_service_eligibility(),
                self.orange_west_service_eligibility(),
            ),
            Team::Blue => (
                self.blue_east_service_eligibility(),
                self.blue_west_service_eligibility(),
            ),
        };
        let agent = Agent::new(team, JobDescription::Figurehead);
        let home_rank: u8 = match team {
            Team::Orange => 0,
            Team::Blue => 7,
        };
        let opposition = team.opposition();
        let west_open = west_service && self.is_vacant(Locale::new(home_rank, 1))
            && self.is_vacant(Locale::new(home_rank, 2)) && self.is_vacant(
            Locale::new(home_rank, 3),
        );
        let east_open = east_service && self.is_vacant(Locale::new(home_rank, 5))
            && self.is_vacant(Locale::new(home_rank, 6));
        if west_open || east_open {
            if self.is_being_leered_at_by(Locale::new(home_rank, 4), opposition) {
                proof {
                    lemma_expand_empty(*self, nihilistically);
                }
                return premonitions;
            }
        }
        let ghost west_patches: Seq<Patch> = if west_open && !self.leered(
            Locale { rank: home_rank, file: 1 },
            opposition,
        ) && !self.leered(Locale { rank: home_rank, file: 2 }, opposition) && !self.leered(
            Locale { rank: home_rank, file: 3 },
            opposition,
        ) {
            seq![
                Patch {
                    star: agent,
                    whence: Locale { rank: home_rank, file: 4 },
                    whither: Locale { rank: home_rank, file: 2 },
                },
            ]
        } else {
            Seq::empty()
        };
        if west_open && !self.is_being_leered_at_by(Locale::new(home_rank, 1), opposition)
            && !self.is_being_leered_at_by(Locale::new(home_rank, 2), opposition)
            && !self.is_being_leered_at_by(Locale::new(home_rank, 3), opposition) {
            let patch = Patch {
                star: agent,
                whence: Locale::new(home_rank, 4),
                whither: Locale::new(home_rank, 2),
            };
            proof {
                lemma_ordinary_patch_fits(*self, patch);
                lemma_expand_single(*self, patch, nihilistically);
            }
            self.predict(&mut premonitions, patch, nihilistically);
        } else {
            proof {
                lemma_expand_empty(*self, nihilistically);
            }
        }
        assert(premonitions@ =~= self.expand(west_patches, nihilistically));
        let ghost after_west = premonitions@;
        let ghost east_patches: Seq<Patch> = if east_open && !self.leered(
            Locale { rank: home_rank, file: 5 },
            opposition,
        ) && !self.leered(Locale { rank: home_rank, file: 6 }, opposition) {
            seq![
                Patch {
                    star: agent,
                    whence: Locale { rank: home_rank, file: 4 },
                    whither: Locale { rank: home_rank, file: 6 },
                },
            ]
        } else {
            Seq::empty()
        };
        if east_open && !self.is_being_leered_at_by(Locale::new(home_rank, 5), opposition)
            && !self.is_being_leered_at_by(Locale::new(home_rank, 6), opposition) {
            let patch = Patch {
                star: agent,
                whence: Locale::new(home_rank, 4),
                whither: Locale::new(home_rank, 6),
            };
            proof {
                lemma_ordinary_patch_fits(*self, patch);
                lemma_expand_single(*self, patch, nihilistically);
            }
            self.predict(&mut premonitions, patch, nihilistically);
        } else {
            proof {
                lemma_expand_empty(*self, nihilistically);
            }
            assert(after_west + Seq::<Commit>::empty() =~= after_west);
        }
        proof {
            lemma_expand_concat(*self, west_patches, east_patches, nihilistically);
        }
        premonitions
    }

    fn lookahead_without_secret_service(&self, nihilistically: bool) -> (premonitions: Vec<
        Commit,
    >)
        ensures
            premonitions@ == self.expand(self.move_patches(self.initiative), nihilistically),
        decreases (if nihilistically {
            0int
        } else {
            1int
        }), 6int,
    {
        let mut premonitions = Vec::new();
        let moving_team = self.initiative;
        let mut servants = self.servant_lookahead(moving_team, nihilistically);
        premonitions.append(&mut servants);
        let mut ponies = self.pony_lookahead(moving_team, nihilistically);
        premonitions.append(&mut ponies);
        let mut scholars = self.scholar_lookahead(moving_team, nihilistically);
        premonitions.append(&mut scholars);
        let mut cops = self.cop_lookahead(moving_team, nihilistically);
        premonitions.append(&mut cops);
        let mut princesses = self.princess_lookahead(moving_team, nihilistically);
        premonitions.append(&mut princesses);
        let mut figureheads = self.figurehead_lookahead(moving_team, nihilistically);
        premonitions.append(&mut figureheads);
        proof {
            let team = moving_team;
            let a = self.servant_patches(team);
            let b = self.hop_patches(Agent { team, job_description: JobDescription::Pony });
            let c = self.slide_patches(Agent { team, job_description: JobDescription::Scholar });
            let d = self.slide_patches(Agent { team, job_description: JobDescription::Cop });
            let e = self.slide_patches(Agent { team, job_description: JobDescription::Princess });
            let f = self.hop_patches(Agent { team, job_description: JobDescription::Figurehead });
            lemma_expand_concat(*self, a, b, nihilistically);
            lemma_expand_concat(*self, a + b, c, nihilistically);
            lemma_expand_concat(*self, a + b + c, d, nihilistically);
            lemma_expand_concat(*self, a + b + c + d, e, nihilistically);
            lemma_expand_concat(*self, a + b + c + d + e, f, nihilistically);
            assert(Seq::<Commit>::empty() + self.expand(a, nihilistically) =~= self.expand(
                a,
                nihilistically,
            ));
        }
        premonitions
    }

    fn underlookahead(&self, nihilistically: bool) -> (premonitions: Vec<Commit>)
        ensures
            premonitions@ == self.expand(self.all_patches(), nihilistically),
        decreases (if nihilistically {
            0int
        } else {
            1int
        }), 9int,
    {
        let mut premonitions = self.lookahead_without_secret_service(nihilistically);
        let mut services = self.service_lookahead(self.initiative, nihilistically);
        premonitions.append(&mut services);
        proof {
            lemma_expand_concat(
                *self,
                self.move_patches(self.initiative),
                self.service_patches(self.initiative),
                nihilistically,
            );
        }
        premonitions
    }

    /// Every commit available to the team with the initiative that does
    /// not leave its own figurehead in critical endangerment.
    pub fn lookahead(&self) -> (premonitions: Vec<Commit>)
        ensures
            premonitions@ == self.spec_lookahead(),
        decreases 1int, 10int,
    {
        self.underlookahead(false)
    }

    /// Every commit available to the team with the initiative, endangering or not.
    pub fn reckless_lookahead(&self) -> (premonitions: Vec<Commit>)
        ensures
            premonitions@ == self.spec_reckless_lookahead(),
        decreases 0int, 10int,
    {
        self.underlookahead(true)
    }
}


impl Commit {
    /// The pagan movement rune of the commit: the movement (with an 'x' and
    /// the destination where someone is stunned), then '+' where the team to
    /// move next is in critical endangerment, then '=' and the ascended form.
    pub open spec fn movement_rune(self) -> Seq<char> {
        let movement = if self.hospitalization is Some {
            self.patch.star.pagan_prefix().push('x') + self.patch.whither.algebraic()
        } else {
            self.patch.abbreviated_rune()
        };
        let endangerment = if self.tree.in_critical(self.tree.initiative) {
            seq!['+']
        } else {
            Seq::empty()
        };
        let ascension = match self.ascension {
            Some(ascended) => seq!['='] + ascended.pagan_prefix(),
            None => Seq::empty(),
        };
        movement + endangerment + ascension
    }

    /// The inputs on which `pagan_movement_rune` neither panics nor overflows.
    pub open spec fn runeable(self) -> bool {
        &&& self.hospitalization is Some ==> (self.patch.whither.file < 8 && self.patch.whither.rank
            < 255)
        &&& self.hospitalization is None ==> self.patch.abbreviable()
    }

    pub fn pagan_movement_rune(&self) -> (rune: String)
        requires
            self.runeable(),
        ensures
            rune@ == self.movement_rune(),
    {
        let mut rune = self.movement_part();
        if self.tree.in_critical_endangerment(self.tree.initiative) {
            push_rune(&mut rune, '+');
        }
        match self.ascension {
            Some(ascended_form) => {
                push_rune(&mut rune, '=');
                let prefix = ascended_form.to_pagan_movement_rune_prefix();
                rune.append(prefix.as_str());
            },
            None => {},
        }
        assert(rune@ =~= self.movement_rune());
        rune
    }

    /// The words for an ascension into `job`.
    pub open spec fn ascension_phrase(job: JobDescription) -> Seq<char> {
        match job {
            JobDescription::Pony => ", transforming into "@,
            JobDescription::Cop => ", being brevetted to "@,
            _ => ", transitioning into "@,
        }
    }

    /// The account of the commit, given how its star, the figurine that it
    /// stuns and its ascended form are shown: ".." first for Blue, the
    /// movement rune, and in parentheses the star, the locales from and to
    /// which it moves, whom it stuns and what it becomes.
    pub open spec fn spec_account(
        self,
        star: Seq<char>,
        stunned: Seq<char>,
        ascended: Seq<char>,
    ) -> Seq<char> {
        let lead = match self.patch.star.team {
            Team::Orange => Seq::empty(),
            Team::Blue => ".."@,
        };
        let hospital = match self.hospitalization {
            Some(_) => ", stunning "@ + stunned,
            None => Seq::empty(),
        };
        let ascension = match self.ascension {
            Some(form) => Self::ascension_phrase(form.job_description) + ascended,
            None => Seq::empty(),
        };
        lead + self.movement_rune() + " ("@ + star + " from "@ + self.patch.whence.algebraic()
            + " to "@ + self.patch.whither.algebraic() + hospital + ascension + ")"@
    }

    /// The inputs on which the account can be given: the rune and both
    /// locales can be written, and no servant ascends to his own station or
    /// to the figurehead's.
    pub open spec fn accountable(self) -> bool {
        &&& self.runeable()
        &&& self.patch.whence.file < 8 && self.patch.whence.rank < 255
        &&& self.patch.whither.file < 8 && self.patch.whither.rank < 255
        &&& self.ascension matches Some(form) ==> (form.job_description != JobDescription::Servant
            && form.job_description != JobDescription::Figurehead)
    }

    /// Whether the account of the commit can be given.
    pub fn is_accountable(&self) -> (ok: bool)
        ensures
            ok == self.accountable(),
    {
        let runeable = match self.hospitalization {
            Some(_) => self.patch.whither.file < 8 && self.patch.whither.rank < 255,
            None => self.patch.is_abbreviable(),
        };
        let ascension_fits = match self.ascension {
            Some(form) => form.job_description != JobDescription::Servant && form.job_description
                != JobDescription::Figurehead,
            None => true,
        };
        runeable && self.patch.whence.file < 8 && self.patch.whence.rank < 255
            && self.patch.whither.file < 8 && self.patch.whither.rank < 255 && ascension_fits
    }

    /// The account of the commit, with `star`, `stunned` and `ascended`
    /// standing for its star, the figurine that it stuns and its ascended form.
    pub fn account(&self, star: &str, stunned: &str, ascended: &str) -> (account: String)
        requires
            self.accountable(),
        ensures
            account@ == self.spec_account(star@, stunned@, ascended@),
    {
        let mut account = String::new();
        match self.patch.star.team {
            Team::Orange => {},
            Team::Blue => account.append(".."),
        }
        let rune = self.pagan_movement_rune();
        account.append(rune.as_str());
        account.append(" (");
        account.append(star);
        account.append(" from ");
        let whence = self.patch.whence.to_algebraic();
        account.append(whence.as_str());
        account.append(" to ");
        let whither = self.patch.whither.to_algebraic();
        account.append(whither.as_str());
        match self.hospitalization {
            Some(_) => {
                account.append(", stunning ");
                account.append(stunned);
            },
            None => {},
        }
        match self.ascension {
            Some(form) => {
                match form.job_description {
                    JobDescription::Pony => account.append(", transforming into "),
                    JobDescription::Cop => account.append(", being brevetted to "),
                    _ => account.append(", transitioning into "),
                }
                account.append(ascended);
            },
            None => {},
        }
        account.append(")");
        account
    }

    /// The part of the rune that names the movement itself.
    fn movement_part(&self) -> (movement: String)
        requires
            self.runeable(),
        ensures
            movement@ == (if self.hospitalization is Some {
                self.patch.star.pagan_prefix().push('x') + self.patch.whither.algebraic()
            } else {
                self.patch.abbreviated_rune()
            }),
    {
        if self.hospitalization.is_some() {
            let mut movement = self.patch.star.to_pagan_movement_rune_prefix();
            push_rune(&mut movement, 'x');
            let destination = self.patch.whither.to_algebraic();
            movement.append(destination.as_str());
            movement
        } else {
            self.patch.abbreviated_pagan_movement_rune()
        }
    }
}

} // verus!
