use leafline::space::{Locale, Pinfield};

const ALGEBRAICS: [&str; 64] = [
    "a1", "b1", "c1", "d1", "e1", "f1", "g1", "h1",
    "a2", "b2", "c2", "d2", "e2", "f2", "g2", "h2",
    "a3", "b3", "c3", "d3", "e3", "f3", "g3", "h3",
    "a4", "b4", "c4", "d4", "e4", "f4", "g4", "h4",
    "a5", "b5", "c5", "d5", "e5", "f5", "g5", "h5",
    "a6", "b6", "c6", "d6", "e6", "f6", "g6", "h6",
    "a7", "b7", "c7", "d7", "e7", "f7", "g7", "h7",
    "a8", "b8", "c8", "d8", "e8", "f8", "g8", "h8",
];

fn all_locales() -> Vec<Locale> {
    let mut locales = Vec::new();
    for rank in 0..8u8 {
        for file in 0..8u8 {
            locales.push(Locale::new(rank, file));
        }
    }
    locales
}

#[test]
fn concerning_converting_to_algebraic() {
    let actual = all_locales().into_iter().map(|l| l.to_algebraic());
    for (expectation, actuality) in ALGEBRAICS.iter().zip(actual) {
        assert_eq!(expectation.to_string(), actuality);
    }
}

#[test]
fn concerning_converting_from_algebraic() {
    let expected = all_locales();
    for (expectation, actuality) in expected.into_iter().zip(ALGEBRAICS.iter()) {
        assert_eq!(expectation, Locale::from_algebraic(actuality));
    }
}

#[test]
fn test_locale() {
    let a1 = Locale::new(0, 0);
    assert_eq!(Pinfield(1u64), a1.pinpoint());

    let c4 = Locale::new(2, 3);
    assert_eq!(Pinfield(524288u64), c4.pinpoint());
}

#[test]
fn test_displace_locale() {
    assert_eq!(Some(Locale::new(3, 5)), Locale::new(4, 4).displace((-1, 1)));
    assert_eq!(None, Locale::new(0, 0).displace((-1, 1)))
}

#[test]
fn concerning_multidisplacement() {
    for i in 0..8 {
        assert_eq!(
            Some(Locale { rank: i as u8, file: i as u8 }),
            Locale::new(0, 0).multidisplace((1, 1), i)
        )
    }
    assert_eq!(None, Locale::new(0, 0).multidisplace((1, 1), 8));
}

#[test]
fn test_alight_and_quench() {
    let mut stage = Pinfield(0);
    let b5 = Locale::new(1, 4);
    stage = stage.alight(b5);
    assert!(stage.query(b5));
    stage = stage.quench(b5);
    assert!(!stage.query(b5));
}

#[test]
fn test_init_pinfield() {
    let starters = vec![Locale::new(1, 2), Locale::new(3, 4), Locale::new(5, 6)];
    let stage = Pinfield::init(&starters);
    for &starter in &starters {
        assert!(stage.query(starter));
    }
}

#[test]
fn concerning_pincount() {
    let starters = vec![Locale::new(1, 2), Locale::new(3, 4), Locale::new(5, 6)];
    let stage = Pinfield::init(&starters);
    assert_eq!(3, stage.pincount());
}

#[test]
fn concerning_the_algebraic_names_of_far_ranks() {
    // ranks past the lattice are still named, with every digit
    assert_eq!("c10", Locale::new(9, 2).to_algebraic());
    assert_eq!("a255", Locale::new(254, 0).to_algebraic());
    // only the first two runes are read back
    assert_eq!(Locale::new(0, 2), Locale::from_algebraic("c10"));
}

#[test]
fn concerning_transit_and_union() {
    let stage = Pinfield::new().alight(Locale::new(0, 0)).transit(Locale::new(0, 0), Locale::new(7, 7));
    assert_eq!(Pinfield(1u64 << 63), stage);
    assert_eq!(vec![Locale::new(7, 7)], stage.to_locales());
    let both = stage.union(Pinfield(1));
    assert_eq!(Pinfield((1u64 << 63) | 1), both);
    assert_eq!(Pinfield(1), both.intersection(Pinfield(3)));
    assert_eq!(Pinfield(!1u64), Pinfield(1).invert());
    assert_eq!(64, Pinfield(!0u64).pincount());
    assert_eq!(0, Pinfield::new().pincount());
}
