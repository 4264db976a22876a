use leafline::identity::{Agent, JobDescription, Team};
use leafline::life::{Patch, WorldState};
use leafline::space::{Locale, Pinfield};

fn all_agents() -> Vec<Agent> {
    let mut agents = Vec::new();
    for team in Team::league() {
        for agent in Agent::dramatis_personae(team).iter() {
            agents.push(*agent);
        }
    }
    agents
}

#[test]
fn concerning_the_opposition_of_the_opposition() {
    for team in Team::league() {
        assert_eq!(team, team.opposition().opposition());
        assert_ne!(team, team.opposition());
    }
}

#[test]
fn concerning_reading_back_preservation_runes() {
    let agents = all_agents();
    assert_eq!(12, agents.len());
    for agent in agents.iter() {
        assert_eq!(Some(*agent), Agent::from_rune(agent.to_preservation_rune()));
        for other in agents.iter() {
            if agent != other {
                assert_ne!(agent.to_preservation_rune(), other.to_preservation_rune());
            }
        }
    }
    assert_eq!(None, Agent::from_rune('x'));
}

#[test]
fn concerning_reading_back_algebraic_names() {
    for rank in 0..8 {
        for file in 0..8 {
            let locale = Locale::new(rank, file);
            assert_eq!(locale, Locale::from_algebraic(&locale.to_algebraic()));
        }
    }
}

#[test]
fn concerning_what_alight_and_quench_leave_alone() {
    let field = Pinfield::new()
        .alight(Locale::new(3, 4))
        .alight(Locale::new(0, 0));
    let lit = field.alight(Locale::new(7, 7));
    let dark = field.quench(Locale::new(3, 4));
    assert!(lit.query(Locale::new(7, 7)));
    assert!(lit.query(Locale::new(3, 4)));
    assert!(lit.query(Locale::new(0, 0)));
    assert!(!dark.query(Locale::new(3, 4)));
    assert!(dark.query(Locale::new(0, 0)));
    assert!(!dark.query(Locale::new(7, 7)));
}

#[test]
fn concerning_one_eligibility_at_a_time() {
    let mut world = WorldState::new();
    world.clear_orange_west_service_eligibility();
    assert!(!world.orange_west_service_eligibility());
    assert!(world.orange_east_service_eligibility());
    assert!(world.blue_east_service_eligibility());
    assert!(world.blue_west_service_eligibility());
    world.clear_blue_east_service_eligibility();
    world.set_orange_west_service_eligibility();
    assert!(world.orange_west_service_eligibility());
    assert!(world.orange_east_service_eligibility());
    assert!(!world.blue_east_service_eligibility());
    assert!(world.blue_west_service_eligibility());
}

#[test]
fn concerning_replacing_one_subboard() {
    let world = WorldState::new();
    let cops = Agent::new(Team::Blue, JobDescription::Cop);
    let field = Pinfield::new().alight(Locale::new(4, 4));
    let changed = world.except_replaced_subboard(cops, field);
    assert_eq!(field, *changed.agent_to_pinfield_ref(cops));
    for agent in all_agents() {
        if agent != cops {
            assert_eq!(
                world.agent_to_pinfield_ref(agent),
                changed.agent_to_pinfield_ref(agent)
            );
        }
    }
    assert_eq!(world.initiative, changed.initiative);
}

#[test]
fn concerning_turns_alternating_in_every_premonition() {
    let mut world = WorldState::new();
    for _ in 0..4 {
        let team = world.initiative;
        let premonitions = world.lookahead();
        for commit in premonitions.iter() {
            assert_eq!(team.opposition(), commit.tree.initiative);
        }
        for commit in world.reckless_lookahead().iter() {
            assert_eq!(team.opposition(), commit.tree.initiative);
        }
        world = premonitions[premonitions.len() / 2].tree;
    }
}

#[test]
fn concerning_careful_premonitions() {
    // Orange's figurehead stands in the open; the careful lookahead never
    // leaves it where Blue could stun it next.
    let world = WorldState::reconstruct("4k3/8/8/8/8/8/3r4/4K3 w - -");
    let careful = world.lookahead();
    let reckless = world.reckless_lookahead();
    assert!(careful.len() < reckless.len());
    for commit in careful.iter() {
        assert!(!commit.tree.in_critical_endangerment(Team::Orange));
    }
    assert!(reckless
        .iter()
        .any(|commit| commit.tree.in_critical_endangerment(Team::Orange)));
}

#[test]
fn concerning_a_patch_moving_its_figurine() {
    let world = WorldState::reconstruct("4k3/8/8/3p4/4P3/8/8/4K3 w - -");
    let star = Agent::new(Team::Orange, JobDescription::Servant);
    let patch = Patch {
        star,
        whence: Locale::from_algebraic("e4"),
        whither: Locale::from_algebraic("d5"),
    };
    let commit = world.apply(patch);
    assert!(commit.tree.agent_to_pinfield_ref(star).query(patch.whither));
    assert!(!commit.tree.agent_to_pinfield_ref(star).query(patch.whence));
    let stunned = commit.hospitalization.unwrap();
    assert_eq!(Agent::new(Team::Blue, JobDescription::Servant), stunned);
    assert!(!commit.tree.agent_to_pinfield_ref(stunned).query(patch.whither));
    assert_eq!(0, commit.tree.agent_to_pinfield_ref(stunned).pincount());
}

#[test]
fn concerning_the_servant_stunned_in_passing_leaving_the_lattice() {
    let world = WorldState::reconstruct("4k3/8/8/3pP3/8/8/8/4K3 w - d6");
    let star = Agent::new(Team::Orange, JobDescription::Servant);
    let patch = Patch {
        star,
        whence: Locale::from_algebraic("e5"),
        whither: Locale::from_algebraic("d6"),
    };
    let commit = world.apply(patch);
    assert_eq!(Some(Agent::new(Team::Blue, JobDescription::Servant)), commit.hospitalization);
    assert!(commit.tree.agent_to_pinfield_ref(star).query(patch.whither));
    assert_eq!(None, commit.tree.occupying_agent(Locale::from_algebraic("d5")));
}

#[test]
fn concerning_preservation_round_trips() {
    let mut world = WorldState::new();
    for _ in 0..6 {
        let book = world.preserve();
        assert!(WorldState::is_reconstructable(&book));
        assert_eq!(world, WorldState::reconstruct(&book));
        let premonitions = world.lookahead();
        world = premonitions[premonitions.len() - 1].tree;
    }
}

#[test]
fn concerning_careful_premonitions_among_reckless_ones() {
    let world = WorldState::reconstruct("4k3/8/8/8/8/8/3r4/4K3 w - -");
    let careful = world.lookahead();
    let reckless = world.reckless_lookahead();
    for commit in careful.iter() {
        assert!(reckless.contains(commit));
    }
    for commit in reckless.iter() {
        if !commit.tree.in_critical_endangerment(Team::Orange) {
            assert!(careful.contains(commit));
        }
    }
}

#[test]
fn concerning_spent_secret_services() {
    let world = WorldState::reconstruct("r3k2r/8/8/8/8/8/8/R3K2R w KQkq -");
    let figurehead_steps = world.apply(Patch {
        star: Agent::new(Team::Orange, JobDescription::Figurehead),
        whence: Locale::from_algebraic("e1"),
        whither: Locale::from_algebraic("e2"),
    });
    assert!(!figurehead_steps.tree.orange_east_service_eligibility());
    assert!(!figurehead_steps.tree.orange_west_service_eligibility());
    assert!(figurehead_steps.tree.blue_east_service_eligibility());
    assert!(figurehead_steps.tree.blue_west_service_eligibility());

    let cop_steps = world.apply(Patch {
        star: Agent::new(Team::Orange, JobDescription::Cop),
        whence: Locale::from_algebraic("a1"),
        whither: Locale::from_algebraic("a5"),
    });
    assert!(cop_steps.tree.orange_east_service_eligibility());
    assert!(!cop_steps.tree.orange_west_service_eligibility());

    let other_cop_steps = world.apply(Patch {
        star: Agent::new(Team::Orange, JobDescription::Cop),
        whence: Locale::from_algebraic("h1"),
        whither: Locale::from_algebraic("h3"),
    });
    assert!(!other_cop_steps.tree.orange_east_service_eligibility());
    assert!(other_cop_steps.tree.orange_west_service_eligibility());
}

#[test]
fn concerning_premonitions_staying_on_the_lattice() {
    let worlds = vec![
        WorldState::new(),
        WorldState::reconstruct("r3k2r/pppq1ppp/2n5/3Pp3/8/2N5/PPP2PPP/R3K2R w KQkq e6"),
        WorldState::reconstruct("4k3/P7/8/8/8/8/7p/4K3 b - -"),
    ];
    for world in worlds.iter() {
        for commit in world.reckless_lookahead().iter().chain(world.lookahead().iter()) {
            let patch = commit.patch;
            assert_eq!(world.initiative, patch.star.team);
            assert!(patch.whence.is_legal());
            assert!(patch.whither.is_legal());
            if !patch.concerns_secret_service() {
                assert!(world.agent_to_pinfield_ref(patch.star).query(patch.whence));
            }
        }
    }
}

#[test]
fn concerning_ascension_and_endangerment() {
    // Orange's figurehead on h1 stands in the open; the servant on a7 ascends
    let worlds = vec![
        WorldState::reconstruct("r3k3/1P6/8/8/8/8/8/7K w - -"),
        WorldState::reconstruct("4k3/1P6/8/8/8/8/8/r6K w - -"),
    ];
    for world in worlds.iter() {
        let patch = Patch {
            star: Agent::new(Team::Orange, JobDescription::Servant),
            whence: Locale::from_algebraic("b7"),
            whither: Locale::from_algebraic("b8"),
        };
        let plain = world.apply(patch);
        let ascensions = world
            .reckless_lookahead()
            .into_iter()
            .filter(|c| c.patch == patch)
            .collect::<Vec<_>>();
        assert_eq!(4, ascensions.len());
        for ascension in ascensions.iter() {
            assert_eq!(
                plain.tree.in_critical_endangerment(Team::Orange),
                ascension.tree.in_critical_endangerment(Team::Orange)
            );
        }
    }
}
