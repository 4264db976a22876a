use leafline::landmark::FILES;
use leafline::space::Pinfield;
use leafline::substrate::Bytes;

#[test]
fn concerning_maps_and_territories() {
    for (file, pins) in FILES.iter().enumerate() {
        let locales = Pinfield(*pins).to_locales();
        assert_eq!(8, locales.len());
        for locale in locales {
            assert_eq!(file as u8, locale.file);
        }
    }
}

#[test]
fn concerning_conversion_from_bytes() {
    assert_eq!(3, usize::from(Bytes(3)))
}
