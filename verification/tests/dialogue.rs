use leafline::correspondence::the_triumphant;
use leafline::identity::{Agent, JobDescription, Team};
use leafline::life::{Commit, Patch, WorldState};
use leafline::space::{Locale, Pinfield};
use leafline::uci::{bestmove, heed, Deed};

#[test]
fn concerning_the_daemon_introducing_itself() {
    let world = WorldState::new();
    assert_eq!(Some((world, Deed::Introduce)), heed(&world, "uci\n"));
    assert_eq!(Some((world, Deed::Affirm)), heed(&world, "isready\n"));
    assert_eq!(Some((world, Deed::Depart)), heed(&world, "quit\n"));
    let elsewhere = world.lookahead()[0].tree;
    assert_eq!(Some((world, Deed::Abide)), heed(&elsewhere, "ucinewgame\n"));
}

#[test]
fn concerning_the_daemon_following_the_driver() {
    let world = WorldState::new();
    let (next, deed) = heed(&world, "position startpos moves e2e4\n").unwrap();
    assert_eq!(Deed::Abide, deed);
    assert_eq!(
        "rnbqkbnr/pppppppp/8/8/4P3/8/PPPP1PPP/RNBQKBNR b KQkq e3",
        next.preserve()
    );
    // a movement that is not among the premonitions leaves the world alone
    let (unmoved, _) = heed(&world, "position startpos moves e2e5\n").unwrap();
    assert_eq!(world, unmoved);
    assert_eq!(None, heed(&world, "position\n"));
    assert_eq!(None, heed(&world, "position startpos moves e2\n"));
    assert_eq!(None, heed(&world, "position startpos moves E2e4\n"));
}

#[test]
fn concerning_the_daemon_going() {
    let world = WorldState::new();
    assert_eq!(Some((world, Deed::Deliberate(3))), heed(&world, "go depth 3\n"));
    assert_eq!(Some((world, Deed::Deliberate(44))), heed(&world, "go depth 300\n"));
    assert_eq!(
        Some((world, Deed::Ponder(2))),
        heed(&world, "go wtime 60000 btime 90000 movestogo 30\n")
    );
    assert_eq!(
        Some((world, Deed::Ponder(3))),
        heed(&world, "go wtime 60000 winc 1000 movestogo 30\n")
    );
    let blue_to_move = world.lookahead()[0].tree;
    assert_eq!(
        Some((blue_to_move, Deed::Ponder(3))),
        heed(&blue_to_move, "go wtime 60000 btime 90000 movestogo 30\n")
    );
    assert_eq!(
        Some((world, Deed::Deliberate(2))),
        heed(&world, "go depth 5 movestogo 1 depth 2\n")
    );
}

#[test]
fn concerning_what_the_daemon_cannot_heed() {
    let world = WorldState::new();
    assert_eq!(None, heed(&world, "\n"));
    assert_eq!(None, heed(&world, "stop\n"));
    assert_eq!(None, heed(&world, "go depth\n"));
    assert_eq!(None, heed(&world, "go depth three\n"));
    assert_eq!(None, heed(&world, "go wtime 100\n"));
    assert_eq!(None, heed(&world, "go movestogo 0 wtime 100\n"));
    assert_eq!(None, heed(&world, "go btime 100 movestogo 3\n"));
}

#[test]
fn concerning_naming_the_best_movement() {
    let world = WorldState::new();
    let patch = Patch {
        star: Agent::new(Team::Orange, JobDescription::Pony),
        whence: Locale::from_algebraic("g1"),
        whither: Locale::from_algebraic("f3"),
    };
    assert_eq!("bestmove g1f3", bestmove(&world.apply(patch)));
}

#[test]
fn concerning_correspondence_verdicts() {
    let mated = WorldState::reconstruct("R6k/6pp/8/8/8/8/8/8 b - -");
    assert_eq!(Vec::<Commit>::new(), mated.lookahead());
    assert_eq!(Some(Team::Orange), the_triumphant(&mated, Team::Blue));
    let stalemated = WorldState::reconstruct("7k/5Q2/6K1/8/8/8/8/8 b - -");
    assert_eq!(Vec::<Commit>::new(), stalemated.lookahead());
    assert_eq!(None, the_triumphant(&stalemated, Team::Blue));
}

#[test]
fn concerning_accounts_of_commits() {
    let world = WorldState::new();
    let patch = Patch {
        star: Agent::new(Team::Orange, JobDescription::Servant),
        whence: Locale::from_algebraic("e2"),
        whither: Locale::from_algebraic("e4"),
    };
    let commit = world.apply(patch);
    assert_eq!("e4 (S from e2 to e4)", commit.account("S", "", ""));

    let skirmish = WorldState::reconstruct("4k3/8/8/3p4/4P3/8/8/4K3 b - -");
    let stunning = skirmish.apply(Patch {
        star: Agent::new(Team::Blue, JobDescription::Servant),
        whence: Locale::from_algebraic("d5"),
        whither: Locale::from_algebraic("e4"),
    });
    assert_eq!("..xe4 (s from d5 to e4, stunning P)", stunning.account("s", "P", ""));

    let threshold = WorldState::reconstruct("4k3/P7/8/8/8/8/8/4K3 w - -");
    let ascensions = threshold
        .lookahead()
        .into_iter()
        .filter(|c| c.ascension.is_some())
        .collect::<Vec<_>>();
    assert_eq!(4, ascensions.len());
    let accounts = ascensions
        .iter()
        .map(|c| c.account("P", "", "A"))
        .collect::<Vec<_>>();
    assert_eq!("a8=N (P from a7 to a8, transforming into A)", accounts[0]);
    assert_eq!("a8=B (P from a7 to a8, transitioning into A)", accounts[1]);
    assert_eq!("a8+=R (P from a7 to a8, being brevetted to A)", accounts[2]);
    assert_eq!("a8+=Q (P from a7 to a8, transitioning into A)", accounts[3]);
}

#[test]
fn concerning_pinfield_diagrams() {
    let field = Pinfield::new().alight(Locale::new(0, 0)).alight(Locale::new(7, 7));
    let diagram = field.diagram();
    let rows = diagram.lines().collect::<Vec<_>>();
    assert_eq!(8, rows.len());
    assert_eq!("• _ _ _ _ _ _ _ ", rows[0]);
    assert_eq!("_ _ _ _ _ _ _ _ ", rows[3]);
    assert_eq!("_ _ _ _ _ _ _ • ", rows[7]);
    assert!(diagram.ends_with('\n'));
}

#[test]
fn concerning_the_default_world() {
    assert_eq!(WorldState::new(), WorldState::default());
    assert_eq!(32, WorldState::default().occupied().pincount());
}
