use leafline::identity::{Agent, JobDescription, Team};
use leafline::life::{Commit, Patch, WorldState};
use leafline::space::Locale;

#[test]
fn basic_leering_test() {
    assert!(WorldState::new().is_being_leered_at_by(Locale::new(2, 5), Team::Orange))
}

#[test]
fn concerning_castling_legality() {
    assert_eq!(true, WorldState::new().orange_east_service_eligibility());
    assert_eq!(true, WorldState::new().blue_east_service_eligibility());
    assert_eq!(true, WorldState::new().orange_west_service_eligibility());
    assert_eq!(true, WorldState::new().blue_west_service_eligibility());
}

#[test]
fn concerning_castling_restrictions() {
    let ws = WorldState::reconstruct("rnbqkbnr/pppppppp/8/8/8/5N2/PPPPBPPP/RNBQK2R w KQkq -");
    let mut service_patch = Patch {
        star: Agent { team: Team::Orange, job_description: JobDescription::Figurehead },
        whence: Locale::new(0, 4),
        whither: Locale::new(0, 5),
    };

    assert_eq!(false, ws.apply(service_patch).tree.orange_east_service_eligibility());

    service_patch = Patch {
        star: Agent { team: Team::Orange, job_description: JobDescription::Cop },
        whence: Locale::new(0, 7),
        whither: Locale::new(0, 6),
    };
    assert_eq!(false, ws.apply(service_patch).tree.orange_east_service_eligibility());
}

#[test]
fn concerning_castling_availability() {
    let mut ws = WorldState::reconstruct("8/8/4k3/8/8/8/8/4K2R w K -");
    let mut prems = ws.service_lookahead(Team::Orange, false);
    assert_eq!(1, prems.len());

    ws = WorldState::reconstruct("8/8/4k3/8/8/8/8/R3K2R w KQ -");
    prems = ws.service_lookahead(Team::Orange, false);
    assert_eq!(2, prems.len());

    ws = WorldState::reconstruct("8/8/4k3/8/8/8/8/R3KN1R w Q -");
    prems = ws.service_lookahead(Team::Orange, false);
    assert_eq!(1, prems.len());

    ws = WorldState::reconstruct("8/8/4k3/8/8/4b3/8/R3KN1R w Q -");
    // can't move into endangerment
    prems = ws.service_lookahead(Team::Orange, false);
    assert_eq!(0, prems.len());

    ws = WorldState::reconstruct("8/8/4k3/8/b7/8/8/R3KN1R w Q - 0 1");
    // can't move through endangerment, either!
    prems = ws.service_lookahead(Team::Orange, false);
    assert_eq!(0, prems.len());
}

#[test]
fn concerning_castling_actually_working() {
    let ws = WorldState::reconstruct("8/8/4k3/8/8/8/8/4K2R w K -");
    assert!(ws.orange_east_service_eligibility());
    let prems = ws.service_lookahead(Team::Orange, false);
    assert_eq!(1, prems.len());
    assert_eq!(false, prems[0].tree.orange_east_service_eligibility());
    assert_eq!("8/8/4k3/8/8/8/8/5RK1 b - -", prems[0].tree.preserve());
}

#[test]
fn concerning_castling_out_of_check() {
    let ws = WorldState::reconstruct("8/8/4k3/8/4r3/8/8/4K2R w K -");
    assert!(ws.orange_east_service_eligibility());
    let prems = ws.service_lookahead(Team::Orange, false);
    assert_eq!(0, prems.len());
}

#[test]
fn concerning_servant_ascension() {
    let mut worldstate = WorldState::new_except_empty();
    let derived_subfield = worldstate.orange_servants.alight(Locale::from_algebraic("a7"));
    worldstate = worldstate.except_replaced_subboard(
        Agent::new(Team::Orange, JobDescription::Servant),
        derived_subfield,
    );
    let premonitions = worldstate.servant_lookahead(Team::Orange, true);
    assert!(premonitions.iter().all(|p| p.patch.whither == Locale::from_algebraic("a8")));
    for (&expected_ascension, commit) in [
        JobDescription::Pony,
        JobDescription::Scholar,
        JobDescription::Cop,
        JobDescription::Princess,
    ]
    .iter()
    .zip(premonitions.iter())
    {
        assert_eq!(
            expected_ascension,
            commit.ascension.expect("expected an ascension").job_description
        );
    }
}

#[test]
fn test_agent_to_pinfield_ref_on_new_gamestate() {
    let state = WorldState::new();
    let agent = Agent::new(Team::Blue, JobDescription::Princess);
    let blue_princess_realm = state.agent_to_pinfield_ref(agent);
    assert!(blue_princess_realm.query(Locale::new(7, 3)));
}

#[test]
fn test_orange_servants_to_locales_from_new_gamestate() {
    let state = WorldState::new();
    let mut expected = Vec::new();
    for file in 0..8 {
        expected.push(Locale::new(1, file));
    }
    assert_eq!(expected, state.orange_servants.to_locales());
}

#[test]
fn test_orange_servant_lookahead_from_original_position() {
    let state = WorldState::new();
    let premonitions = state.servant_lookahead(Team::Orange, false);
    assert_eq!(16, premonitions.len());
}

#[test]
fn test_orange_pony_lookahead_from_original_position() {
    let state = WorldState::new();
    let premonitions = state.pony_lookahead(Team::Orange, false);
    assert_eq!(4, premonitions.len());
    let collected = premonitions
        .iter()
        .map(|p| p.tree.orange_ponies.to_locales())
        .collect::<Vec<_>>();
    assert_eq!(
        vec![
            vec![Locale::new(0, 6), Locale::new(2, 0)],
            vec![Locale::new(0, 6), Locale::new(2, 2)],
            vec![Locale::new(0, 1), Locale::new(2, 5)],
            vec![Locale::new(0, 1), Locale::new(2, 7)]
        ],
        collected
    );
}

#[test]
fn concerning_scholar_lookahead() {
    let mut world = WorldState::new_except_empty();
    world.orange_scholars = world.orange_scholars.alight(Locale::from_algebraic("e1"));
    world.orange_princesses = world.orange_princesses.alight(Locale::from_algebraic("c3"));
    world.blue_princesses = world.blue_princesses.alight(Locale::from_algebraic("g3"));
    let premonitions = world.scholar_lookahead(Team::Orange, false);
    let expected = vec!["d2", "f2", "g3"]
        .iter()
        .map(|a| Locale::from_algebraic(a))
        .collect::<Vec<_>>();
    let actual = premonitions
        .iter()
        .map(|p| p.tree.orange_scholars.to_locales()[0])
        .collect::<Vec<_>>();
    assert_eq!(expected, actual);
}

#[test]
fn concerning_occupying_agents() {
    let state = WorldState::new();
    let b8 = Locale::new(7, 1);
    assert_eq!(
        Agent::new(Team::Blue, JobDescription::Pony),
        state.occupying_agent(b8).unwrap()
    );
    let c4 = Locale::new(3, 2);
    assert_eq!(None, state.occupying_agent(c4));
}

#[test]
fn concerning_taking_turns() {
    let state1 = WorldState::new();
    let state2 = state1.lookahead()[0].tree;
    let state3 = state2.lookahead()[0].tree;
    assert_eq!(state1.initiative, Team::Orange);
    assert_eq!(state2.initiative, Team::Blue);
    assert_eq!(state3.initiative, Team::Orange);
}

#[test]
fn concerning_peaceful_patch_application() {
    let state = WorldState::new();
    let e2 = Locale::new(4, 1);
    let e4 = Locale::new(4, 3);
    let patch = Patch {
        star: Agent { team: Team::Orange, job_description: JobDescription::Servant },
        whence: e2,
        whither: e4,
    };
    let new_state = state.apply(patch).tree;
    assert_eq!(
        Agent::new(Team::Orange, JobDescription::Servant),
        new_state.occupying_agent(e4).unwrap()
    );
    assert_eq!(None, new_state.occupying_agent(e2));
}

#[test]
fn concerning_stunning_in_natural_setting() {
    let state = WorldState::new();
    let orange_servant_agent = Agent { team: Team::Orange, job_description: JobDescription::Servant };
    let blue_servant_agent = Agent { team: Team::Blue, job_description: JobDescription::Servant };
    let orange_begins = Patch {
        star: orange_servant_agent,
        whence: Locale::from_algebraic("e2"),
        whither: Locale::from_algebraic("e4"),
    };
    let blue_replies = Patch {
        star: blue_servant_agent,
        whence: Locale::from_algebraic("d7"),
        whither: Locale::from_algebraic("d5"),
    };
    let orange_counterreplies = Patch {
        star: orange_servant_agent,
        whence: Locale::from_algebraic("e4"),
        whither: Locale::from_algebraic("d5"),
    };

    let first_commit = state.apply(orange_begins);
    assert_eq!(None, first_commit.hospitalization);
    let second_commit = first_commit.tree.apply(blue_replies);
    assert_eq!(None, second_commit.hospitalization);

    let precrucial_state = second_commit.tree;
    let available_stunnings = precrucial_state
        .servant_lookahead(Team::Orange, false)
        .into_iter()
        .filter(|p| p.hospitalization.is_some())
        .collect::<Vec<_>>();
    assert_eq!(1, available_stunnings.len());
    assert_eq!(blue_servant_agent, available_stunnings[0].hospitalization.unwrap());
    assert_eq!(Locale::from_algebraic("d5"), available_stunnings[0].patch.whither);

    let crucial_commit = precrucial_state.apply(orange_counterreplies);
    let new_state = crucial_commit.tree;
    assert_eq!(
        Agent::new(Team::Orange, JobDescription::Servant),
        new_state.occupying_agent(Locale::from_algebraic("d5")).unwrap()
    );
    let stunned = crucial_commit.hospitalization.unwrap();
    assert_eq!(Agent::new(Team::Blue, JobDescription::Servant), stunned);
}

fn prelude_to_the_death_of_a_fool() -> WorldState {
    let mut world = WorldState::new();
    let fools_patchset = vec![
        Patch {
            star: Agent::new(Team::Orange, JobDescription::Servant),
            whence: Locale::from_algebraic("f2"),
            whither: Locale::from_algebraic("f3"),
        },
        Patch {
            star: Agent::new(Team::Blue, JobDescription::Servant),
            whence: Locale::from_algebraic("e7"),
            whither: Locale::from_algebraic("e5"),
        },
        Patch {
            star: Agent::new(Team::Orange, JobDescription::Servant),
            whence: Locale::from_algebraic("g2"),
            whither: Locale::from_algebraic("g4"),
        },
    ];
    for patch in fools_patchset {
        world = world.careful_apply(patch).unwrap().tree;
    }
    world
}

fn death_of_a_fool() -> WorldState {
    let prelude = prelude_to_the_death_of_a_fool();
    prelude
        .apply(Patch {
            star: Agent { team: Team::Blue, job_description: JobDescription::Princess },
            whence: Locale::from_algebraic("d8"),
            whither: Locale::from_algebraic("h4"),
        })
        .tree
}

#[test]
fn concerning_critical_endangerment() {
    let eden = WorldState::new();
    assert!(!eden.in_critical_endangerment(Team::Orange));
    assert!(!eden.in_critical_endangerment(Team::Blue));
    let v_day = death_of_a_fool();
    assert!(v_day.in_critical_endangerment(Team::Orange));
    assert!(!v_day.in_critical_endangerment(Team::Blue));
}

#[test]
fn concerning_fools_assasination() {
    let world = death_of_a_fool();
    let post_critical_endangerment_lookahead = world.lookahead();
    // if the opposition has won, nothing to do
    assert_eq!(Vec::<Commit>::new(), post_critical_endangerment_lookahead);
}

#[test]
fn concerning_preservation_and_reconstruction_of_historical_worlds() {
    let eden = WorldState::new();
    let book_of_eden = "rnbqkbnr/pppppppp/8/8/8/8/PPPPPPPP/RNBQKBNR w KQkq -";
    assert_eq!(book_of_eden, eden.preserve());
    assert_eq!(eden, WorldState::reconstruct(book_of_eden));

    let patchset = vec![
        Patch {
            star: Agent::new(Team::Orange, JobDescription::Servant),
            whence: Locale::from_algebraic("e2"),
            whither: Locale::from_algebraic("e4"),
        },
        Patch {
            star: Agent::new(Team::Blue, JobDescription::Servant),
            whence: Locale::from_algebraic("c7"),
            whither: Locale::from_algebraic("c5"),
        },
        Patch {
            star: Agent::new(Team::Orange, JobDescription::Pony),
            whence: Locale::from_algebraic("g1"),
            whither: Locale::from_algebraic("f3"),
        },
    ];

    let book_of_patches = vec![
        "rnbqkbnr/pppppppp/8/8/4P3/8/PPPP1PPP/RNBQKBNR b KQkq e3",
        "rnbqkbnr/pp1ppppp/8/2p5/4P3/8/PPPP1PPP/RNBQKBNR w KQkq c6",
        "rnbqkbnr/pp1ppppp/8/2p5/4P3/5N2/PPPP1PPP/RNBQKB1R b KQkq -",
    ];

    let mut world = eden;
    for (patch, book) in patchset.into_iter().zip(book_of_patches.into_iter()) {
        world = world.careful_apply(patch).unwrap().tree;
        assert_eq!(book, world.preserve());
        assert_eq!(WorldState::reconstruct(book), world);
    }
}

#[test]
fn concerning_the_size_of_the_world() {
    println!("size of the world in bytes: {}", std::mem::size_of::<WorldState>());
}

#[test]
fn concerning_passing_by() {
    let mut world = WorldState::new();
    world = world
        .careful_apply(Patch {
            star: Agent::new(Team::Orange, JobDescription::Servant),
            whence: Locale::from_algebraic("e2"),
            whither: Locale::from_algebraic("e4"),
        })
        .unwrap()
        .tree;
    assert_eq!(Some(Locale::from_algebraic("e3")), world.passing_by_locale);
    world = world
        .careful_apply(Patch {
            star: Agent::new(Team::Blue, JobDescription::Servant),
            whence: Locale::from_algebraic("c7"),
            whither: Locale::from_algebraic("c6"),
        })
        .unwrap()
        .tree;
    assert_eq!(None, world.passing_by_locale);
}

#[test]
fn concerning_passing_by_in_action() {
    let world = WorldState::reconstruct(
        "rnbqkbnr/ppp2ppp/4p3/3pP3/8/8/PPPP1PPP/RNBQKBNR w KQkq d6 0 3",
    );
    let premonitions = world
        .servant_lookahead(Team::Orange, false)
        .into_iter()
        .filter(|p| p.patch.whence == Locale::from_algebraic("e5"))
        .collect::<Vec<_>>();
    assert_eq!(1, premonitions.len());
    let best = premonitions[0];
    assert_eq!(
        Patch {
            star: Agent::new(Team::Orange, JobDescription::Servant),
            whence: Locale::from_algebraic("e5"),
            whither: Locale::from_algebraic("d6")
        },
        best.patch
    );
    assert_eq!(Some(Agent::new(Team::Blue, JobDescription::Servant)), best.hospitalization);
    assert_eq!("rnbqkbnr/ppp2ppp/3Pp3/8/8/8/PPPP1PPP/RNBQKBNR b KQkq -", best.tree.preserve());
}
