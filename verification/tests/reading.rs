use leafline::bound::{readable_depiction, LookaheadBound};
use leafline::identity::{Agent, JobDescription, Team};
use leafline::life::{Patch, WorldState};
use leafline::mind::{pagan_variation_format, Memory, Variation};
use leafline::space::Locale;
use leafline::substrate::{meminfo_figure, meminfo_labels};

#[test]
fn concerning_reading_a_meminfo_entry() {
    let entry = "MemFree:         3274928 kB";
    assert!(meminfo_labels(entry, "MemFree"));
    assert!(!meminfo_labels(entry, "MemTotal"));
    assert!(!meminfo_labels(entry, "MemFre"));
    assert_eq!(Some(3274928), meminfo_figure(entry, "MemFree"));
    assert_eq!(Some(0), meminfo_figure("MemFree:0 kB", "MemFree"));
    assert_eq!(Some(12), meminfo_figure("MemFree:MemFree:\t+12 kB", "MemFree"));
}

#[test]
fn concerning_unreadable_meminfo_entries() {
    assert_eq!(None, meminfo_figure("MemFree:", "MemFree"));
    assert_eq!(None, meminfo_figure("MemFree: kB", "MemFree"));
    assert_eq!(None, meminfo_figure("MemFree: 12x kB", "MemFree"));
    assert_eq!(None, meminfo_figure("MemFree: 99999999999999999999 kB", "MemFree"));
    assert_eq!(None, meminfo_figure("MemFree: 12 k\u{e9}", "MemFree"));
    assert_eq!(Some(18446744073709551615), meminfo_figure("MemFree: 18446744073709551615 kB", "MemFree"));
}

#[test]
fn concerning_readable_and_unreadable_scans() {
    assert!(WorldState::is_reconstructable(
        "rnbqkbnr/pppppppp/8/8/8/8/PPPPPPPP/RNBQKBNR w KQkq -"
    ));
    assert!(WorldState::is_reconstructable("8/8/8/8/8/8/8/8 b - e3"));
    assert!(WorldState::is_reconstructable("8/8/8/8/8/8/8/8XwXKXd6"));
    assert!(!WorldState::is_reconstructable("8/8/8/8/8/8/8/8 w -"));
    assert!(!WorldState::is_reconstructable("8/8/8/8/8/8/8/8 x - -"));
    assert!(!WorldState::is_reconstructable("8/8/8/8/8/8/8/8/8 w - -"));
    assert!(!WorldState::is_reconstructable("8/8/8/8/8/8/8/7Z w - -"));
    assert!(!WorldState::is_reconstructable("8/8/8/8/8/8/8/8 w Kx -"));
    assert!(!WorldState::is_reconstructable("8/8/8/8/8/8/8/8 w - 3"));
    assert!(!WorldState::is_reconstructable("8/8/8/8/8/8/8/88888888K w - -"));
}

#[test]
fn concerning_sequence_depictions() {
    assert!(readable_depiction("2,3,+4"));
    assert!(!readable_depiction("2,,4"));
    assert!(!readable_depiction("2,256"));
    assert!(!readable_depiction("two"));
    match LookaheadBound::new_from_sequence_depiction("2,3,+4") {
        LookaheadBound::DepthSequence(depths) => assert_eq!(vec![2, 3, 4], depths),
        _ => panic!("expected a depth sequence"),
    }
}

#[test]
fn concerning_choosing_a_bound() {
    match LookaheadBound::from_args(Some(3), Some(1), None, None) {
        Ok(Some(LookaheadBound::Depth(3, Some(1)))) => {}
        _ => panic!("expected a depth"),
    }
    match LookaheadBound::from_args(None, None, None, Some(20)) {
        Ok(Some(LookaheadBound::Seconds(20))) => {}
        _ => panic!("expected seconds"),
    }
    match LookaheadBound::from_args(None, None, None, None) {
        Ok(None) => {}
        _ => panic!("expected no bound"),
    }
    match LookaheadBound::from_args(Some(3), None, None, Some(20)) {
        Err(message) => assert_eq!(
            "more than one of `--depth`, `--depth-sequence`, or `--seconds` was passed",
            message
        ),
        _ => panic!("expected a complaint"),
    }
    assert!(LookaheadBound::from_args(None, None, Some("1,2".to_owned()), Some(2)).is_err());
    assert!(LookaheadBound::from_args(Some(1), None, Some("1,2".to_owned()), None).is_err());
}

#[test]
fn concerning_what_can_be_written_down() {
    let hop = Patch {
        star: Agent::new(Team::Orange, JobDescription::Pony),
        whence: Locale::new(0, 6),
        whither: Locale::new(2, 5),
    };
    let service = Patch {
        star: Agent::new(Team::Orange, JobDescription::Figurehead),
        whence: Locale::new(0, 4),
        whither: Locale::new(0, 2),
    };
    let astray = Patch {
        star: Agent::new(Team::Blue, JobDescription::Cop),
        whence: Locale::new(7, 0),
        whither: Locale::new(7, 8),
    };
    assert!(hop.is_abbreviable());
    assert!(service.is_abbreviable());
    assert!(!astray.is_abbreviable());
    assert_eq!("Nf3", hop.readable());
    assert_eq!("O–O–O", service.readable());
    let variation: Variation = vec![hop, service];
    assert!(variation.is_legible());
    assert_eq!("Nf3 O–O–O", pagan_variation_format(&variation));
    assert_eq!("Nf3 O–O–O", variation.readable());
    let strays: Variation = vec![hop, astray];
    assert!(!strays.is_legible());

    let mut memory = Variation::flash(hop);
    memory.recombine(vec![service]);
    assert_eq!(vec![hop, service], memory);
    assert_eq!(Vec::<Patch>::new(), Variation::blank());
    let mut latest = Patch::flash(hop);
    latest.recombine(service);
    assert_eq!(service, latest);
    assert_eq!(Locale::new(7, 7), Patch::blank().whither);
}

#[test]
fn concerning_what_can_be_preserved() {
    let mut world = WorldState::new();
    assert!(world.is_preservable());
    world.passing_by_locale = Some(Locale::new(2, 9));
    assert!(!world.is_preservable());
    let commit = WorldState::new().lookahead()[0];
    assert!(commit.is_accountable());
}
