//! Locales on the 8-by-8 lattice and pinfields (sets of locales held as the
//! bits of a `u64`).
use vstd::prelude::*;
use crate::script::{decimal, digit_rune, push_rune, push_decimal, rune_at, rune_byte, rune_count, rune_to_byte};

verus! {

/// Whether bit `i` of `bits` is set.
pub open spec fn pin_at(bits: u64, i: u64) -> bool {
    (bits >> i) & 1u64 == 1u64
}

/// The value of a byte read as a two's-complement `i8`.
pub open spec fn signed(x: u8) -> int {
    if x < 128 {
        x as int
    } else {
        x - 256
    }
}

pub proof fn lemma_pin_union(a: u64, b: u64, i: u64)
    requires
        i < 64,
    ensures
        pin_at(a | b, i) == (pin_at(a, i) || pin_at(b, i)),
{
    assert(((a | b) >> i) & 1u64 == 1u64 <==> ((a >> i) & 1u64 == 1u64 || (b >> i) & 1u64
        == 1u64)) by (bit_vector)
        requires
            i < 64,
    ;
}

pub proof fn lemma_pin_intersection(a: u64, b: u64, i: u64)
    requires
        i < 64,
    ensures
        pin_at(a & b, i) == (pin_at(a, i) && pin_at(b, i)),
{
    assert(((a & b) >> i) & 1u64 == 1u64 <==> ((a >> i) & 1u64 == 1u64 && (b >> i) & 1u64
        == 1u64)) by (bit_vector)
        requires
            i < 64,
    ;
}

pub proof fn lemma_pin_invert(a: u64, i: u64)
    requires
        i < 64,
    ensures
        pin_at(!a, i) == !pin_at(a, i),
{
    assert(((!a) >> i) & 1u64 == 1u64 <==> !((a >> i) & 1u64 == 1u64)) by (bit_vector)
        requires
            i < 64,
    ;
}

pub proof fn lemma_pin_single(j: u64, i: u64)
    requires
        i < 64,
        j < 64,
    ensures
        pin_at(1u64 << j, i) == (i == j),
{
    assert((((1u64 << j) >> i) & 1u64 == 1u64) <==> (i == j)) by (bit_vector)
        requires
            i < 64,
            j < 64,
    ;
}

pub proof fn lemma_pin_empty(i: u64)
    requires
        i < 64,
    ensures
        !pin_at(0u64, i),
{
    assert(!((0u64 >> i) & 1u64 == 1u64)) by (bit_vector);
}

/// Two bitsets that agree on every pin are equal.
pub proof fn lemma_pins_determine(a: u64, b: u64)
    requires
        forall|i: u64| i < 64 ==> pin_at(a, i) == pin_at(b, i),
    ensures
        a == b,
{
    assert(pin_at(a, 0) == pin_at(b, 0));
    assert(pin_at(a, 1) == pin_at(b, 1));
    assert(pin_at(a, 2) == pin_at(b, 2));
    assert(pin_at(a, 3) == pin_at(b, 3));
    assert(pin_at(a, 4) == pin_at(b, 4));
    assert(pin_at(a, 5) == pin_at(b, 5));
    assert(pin_at(a, 6) == pin_at(b, 6));
    assert(pin_at(a, 7) == pin_at(b, 7));
    assert(pin_at(a, 8) == pin_at(b, 8));
    assert(pin_at(a, 9) == pin_at(b, 9));
    assert(pin_at(a, 10) == pin_at(b, 10));
    assert(pin_at(a, 11) == pin_at(b, 11));
    assert(pin_at(a, 12) == pin_at(b, 12));
    assert(pin_at(a, 13) == pin_at(b, 13));
    assert(pin_at(a, 14) == pin_at(b, 14));
    assert(pin_at(a, 15) == pin_at(b, 15));
    assert(pin_at(a, 16) == pin_at(b, 16));
    assert(pin_at(a, 17) == pin_at(b, 17));
    assert(pin_at(a, 18) == pin_at(b, 18));
    assert(pin_at(a, 19) == pin_at(b, 19));
    assert(pin_at(a, 20) == pin_at(b, 20));
    assert(pin_at(a, 21) == pin_at(b, 21));
    assert(pin_at(a, 22) == pin_at(b, 22));
    assert(pin_at(a, 23) == pin_at(b, 23));
    assert(pin_at(a, 24) == pin_at(b, 24));
    assert(pin_at(a, 25) == pin_at(b, 25));
    assert(pin_at(a, 26) == pin_at(b, 26));
    assert(pin_at(a, 27) == pin_at(b, 27));
    assert(pin_at(a, 28) == pin_at(b, 28));
    assert(pin_at(a, 29) == pin_at(b, 29));
    assert(pin_at(a, 30) == pin_at(b, 30));
    assert(pin_at(a, 31) == pin_at(b, 31));
    assert(pin_at(a, 32) == pin_at(b, 32));
    assert(pin_at(a, 33) == pin_at(b, 33));
    assert(pin_at(a, 34) == pin_at(b, 34));
    assert(pin_at(a, 35) == pin_at(b, 35));
    assert(pin_at(a, 36) == pin_at(b, 36));
    assert(pin_at(a, 37) == pin_at(b, 37));
    assert(pin_at(a, 38) == pin_at(b, 38));
    assert(pin_at(a, 39) == pin_at(b, 39));
    assert(pin_at(a, 40) == pin_at(b, 40));
    assert(pin_at(a, 41) == pin_at(b, 41));
    assert(pin_at(a, 42) == pin_at(b, 42));
    assert(pin_at(a, 43) == pin_at(b, 43));
    assert(pin_at(a, 44) == pin_at(b, 44));
    assert(pin_at(a, 45) == pin_at(b, 45));
    assert(pin_at(a, 46) == pin_at(b, 46));
    assert(pin_at(a, 47) == pin_at(b, 47));
    assert(pin_at(a, 48) == pin_at(b, 48));
    assert(pin_at(a, 49) == pin_at(b, 49));
    assert(pin_at(a, 50) == pin_at(b, 50));
    assert(pin_at(a, 51) == pin_at(b, 51));
    assert(pin_at(a, 52) == pin_at(b, 52));
    assert(pin_at(a, 53) == pin_at(b, 53));
    assert(pin_at(a, 54) == pin_at(b, 54));
    assert(pin_at(a, 55) == pin_at(b, 55));
    assert(pin_at(a, 56) == pin_at(b, 56));
    assert(pin_at(a, 57) == pin_at(b, 57));
    assert(pin_at(a, 58) == pin_at(b, 58));
    assert(pin_at(a, 59) == pin_at(b, 59));
    assert(pin_at(a, 60) == pin_at(b, 60));
    assert(pin_at(a, 61) == pin_at(b, 61));
    assert(pin_at(a, 62) == pin_at(b, 62));
    assert(pin_at(a, 63) == pin_at(b, 63));
    lemma_bits_determine(a, b);
}

proof fn lemma_bits_determine(a: u64, b: u64)
    requires
        pin_at(a, 0) == pin_at(b, 0),
        pin_at(a, 1) == pin_at(b, 1),
        pin_at(a, 2) == pin_at(b, 2),
        pin_at(a, 3) == pin_at(b, 3),
        pin_at(a, 4) == pin_at(b, 4),
        pin_at(a, 5) == pin_at(b, 5),
        pin_at(a, 6) == pin_at(b, 6),
        pin_at(a, 7) == pin_at(b, 7),
        pin_at(a, 8) == pin_at(b, 8),
        pin_at(a, 9) == pin_at(b, 9),
        pin_at(a, 10) == pin_at(b, 10),
        pin_at(a, 11) == pin_at(b, 11),
        pin_at(a, 12) == pin_at(b, 12),
        pin_at(a, 13) == pin_at(b, 13),
        pin_at(a, 14) == pin_at(b, 14),
        pin_at(a, 15) == pin_at(b, 15),
        pin_at(a, 16) == pin_at(b, 16),
        pin_at(a, 17) == pin_at(b, 17),
        pin_at(a, 18) == pin_at(b, 18),
        pin_at(a, 19) == pin_at(b, 19),
        pin_at(a, 20) == pin_at(b, 20),
        pin_at(a, 21) == pin_at(b, 21),
        pin_at(a, 22) == pin_at(b, 22),
        pin_at(a, 23) == pin_at(b, 23),
        pin_at(a, 24) == pin_at(b, 24),
        pin_at(a, 25) == pin_at(b, 25),
        pin_at(a, 26) == pin_at(b, 26),
        pin_at(a, 27) == pin_at(b, 27),
        pin_at(a, 28) == pin_at(b, 28),
        pin_at(a, 29) == pin_at(b, 29),
        pin_at(a, 30) == pin_at(b, 30),
        pin_at(a, 31) == pin_at(b, 31),
        pin_at(a, 32) == pin_at(b, 32),
        pin_at(a, 33) == pin_at(b, 33),
        pin_at(a, 34) == pin_at(b, 34),
        pin_at(a, 35) == pin_at(b, 35),
        pin_at(a, 36) == pin_at(b, 36),
        pin_at(a, 37) == pin_at(b, 37),
        pin_at(a, 38) == pin_at(b, 38),
        pin_at(a, 39) == pin_at(b, 39),
        pin_at(a, 40) == pin_at(b, 40),
        pin_at(a, 41) == pin_at(b, 41),
        pin_at(a, 42) == pin_at(b, 42),
        pin_at(a, 43) == pin_at(b, 43),
        pin_at(a, 44) == pin_at(b, 44),
        pin_at(a, 45) == pin_at(b, 45),
        pin_at(a, 46) == pin_at(b, 46),
        pin_at(a, 47) == pin_at(b, 47),
        pin_at(a, 48) == pin_at(b, 48),
        pin_at(a, 49) == pin_at(b, 49),
        pin_at(a, 50) == pin_at(b, 50),
        pin_at(a, 51) == pin_at(b, 51),
        pin_at(a, 52) == pin_at(b, 52),
        pin_at(a, 53) == pin_at(b, 53),
        pin_at(a, 54) == pin_at(b, 54),
        pin_at(a, 55) == pin_at(b, 55),
        pin_at(a, 56) == pin_at(b, 56),
        pin_at(a, 57) == pin_at(b, 57),
        pin_at(a, 58) == pin_at(b, 58),
        pin_at(a, 59) == pin_at(b, 59),
        pin_at(a, 60) == pin_at(b, 60),
        pin_at(a, 61) == pin_at(b, 61),
        pin_at(a, 62) == pin_at(b, 62),
        pin_at(a, 63) == pin_at(b, 63),
    ensures
        a == b,
{
    assert(a ^ b == 0u64) by (bit_vector)
        requires
            ((a >> 0u64) & 1u64 == 1u64) == ((b >> 0u64) & 1u64 == 1u64),
            ((a >> 1u64) & 1u64 == 1u64) == ((b >> 1u64) & 1u64 == 1u64),
            ((a >> 2u64) & 1u64 == 1u64) == ((b >> 2u64) & 1u64 == 1u64),
            ((a >> 3u64) & 1u64 == 1u64) == ((b >> 3u64) & 1u64 == 1u64),
            ((a >> 4u64) & 1u64 == 1u64) == ((b >> 4u64) & 1u64 == 1u64),
            ((a >> 5u64) & 1u64 == 1u64) == ((b >> 5u64) & 1u64 == 1u64),
            ((a >> 6u64) & 1u64 == 1u64) == ((b >> 6u64) & 1u64 == 1u64),
            ((a >> 7u64) & 1u64 == 1u64) == ((b >> 7u64) & 1u64 == 1u64),
            ((a >> 8u64) & 1u64 == 1u64) == ((b >> 8u64) & 1u64 == 1u64),
            ((a >> 9u64) & 1u64 == 1u64) == ((b >> 9u64) & 1u64 == 1u64),
            ((a >> 10u64) & 1u64 == 1u64) == ((b >> 10u64) & 1u64 == 1u64),
            ((a >> 11u64) & 1u64 == 1u64) == ((b >> 11u64) & 1u64 == 1u64),
            ((a >> 12u64) & 1u64 == 1u64) == ((b >> 12u64) & 1u64 == 1u64),
            ((a >> 13u64) & 1u64 == 1u64) == ((b >> 13u64) & 1u64 == 1u64),
            ((a >> 14u64) & 1u64 == 1u64) == ((b >> 14u64) & 1u64 == 1u64),
            ((a >> 15u64) & 1u64 == 1u64) == ((b >> 15u64) & 1u64 == 1u64),
            ((a >> 16u64) & 1u64 == 1u64) == ((b >> 16u64) & 1u64 == 1u64),
            ((a >> 17u64) & 1u64 == 1u64) == ((b >> 17u64) & 1u64 == 1u64),
            ((a >> 18u64) & 1u64 == 1u64) == ((b >> 18u64) & 1u64 == 1u64),
            ((a >> 19u64) & 1u64 == 1u64) == ((b >> 19u64) & 1u64 == 1u64),
            ((a >> 20u64) & 1u64 == 1u64) == ((b >> 20u64) & 1u64 == 1u64),
            ((a >> 21u64) & 1u64 == 1u64) == ((b >> 21u64) & 1u64 == 1u64),
            ((a >> 22u64) & 1u64 == 1u64) == ((b >> 22u64) & 1u64 == 1u64),
            ((a >> 23u64) & 1u64 == 1u64) == ((b >> 23u64) & 1u64 == 1u64),
            ((a >> 24u64) & 1u64 == 1u64) == ((b >> 24u64) & 1u64 == 1u64),
            ((a >> 25u64) & 1u64 == 1u64) == ((b >> 25u64) & 1u64 == 1u64),
            ((a >> 26u64) & 1u64 == 1u64) == ((b >> 26u64) & 1u64 == 1u64),
            ((a >> 27u64) & 1u64 == 1u64) == ((b >> 27u64) & 1u64 == 1u64),
            ((a >> 28u64) & 1u64 == 1u64) == ((b >> 28u64) & 1u64 == 1u64),
            ((a >> 29u64) & 1u64 == 1u64) == ((b >> 29u64) & 1u64 == 1u64),
            ((a >> 30u64) & 1u64 == 1u64) == ((b >> 30u64) & 1u64 == 1u64),
            ((a >> 31u64) & 1u64 == 1u64) == ((b >> 31u64) & 1u64 == 1u64),
            ((a >> 32u64) & 1u64 == 1u64) == ((b >> 32u64) & 1u64 == 1u64),
            ((a >> 33u64) & 1u64 == 1u64) == ((b >> 33u64) & 1u64 == 1u64),
            ((a >> 34u64) & 1u64 == 1u64) == ((b >> 34u64) & 1u64 == 1u64),
            ((a >> 35u64) & 1u64 == 1u64) == ((b >> 35u64) & 1u64 == 1u64),
            ((a >> 36u64) & 1u64 == 1u64) == ((b >> 36u64) & 1u64 == 1u64),
            ((a >> 37u64) & 1u64 == 1u64) == ((b >> 37u64) & 1u64 == 1u64),
            ((a >> 38u64) & 1u64 == 1u64) == ((b >> 38u64) & 1u64 == 1u64),
            ((a >> 39u64) & 1u64 == 1u64) == ((b >> 39u64) & 1u64 == 1u64),
            ((a >> 40u64) & 1u64 == 1u64) == ((b >> 40u64) & 1u64 == 1u64),
            ((a >> 41u64) & 1u64 == 1u64) == ((b >> 41u64) & 1u64 == 1u64),
            ((a >> 42u64) & 1u64 == 1u64) == ((b >> 42u64) & 1u64 == 1u64),
            ((a >> 43u64) & 1u64 == 1u64) == ((b >> 43u64) & 1u64 == 1u64),
            ((a >> 44u64) & 1u64 == 1u64) == ((b >> 44u64) & 1u64 == 1u64),
            ((a >> 45u64) & 1u64 == 1u64) == ((b >> 45u64) & 1u64 == 1u64),
            ((a >> 46u64) & 1u64 == 1u64) == ((b >> 46u64) & 1u64 == 1u64),
            ((a >> 47u64) & 1u64 == 1u64) == ((b >> 47u64) & 1u64 == 1u64),
            ((a >> 48u64) & 1u64 == 1u64) == ((b >> 48u64) & 1u64 == 1u64),
            ((a >> 49u64) & 1u64 == 1u64) == ((b >> 49u64) & 1u64 == 1u64),
            ((a >> 50u64) & 1u64 == 1u64) == ((b >> 50u64) & 1u64 == 1u64),
            ((a >> 51u64) & 1u64 == 1u64) == ((b >> 51u64) & 1u64 == 1u64),
            ((a >> 52u64) & 1u64 == 1u64) == ((b >> 52u64) & 1u64 == 1u64),
            ((a >> 53u64) & 1u64 == 1u64) == ((b >> 53u64) & 1u64 == 1u64),
            ((a >> 54u64) & 1u64 == 1u64) == ((b >> 54u64) & 1u64 == 1u64),
            ((a >> 55u64) & 1u64 == 1u64) == ((b >> 55u64) & 1u64 == 1u64),
            ((a >> 56u64) & 1u64 == 1u64) == ((b >> 56u64) & 1u64 == 1u64),
            ((a >> 57u64) & 1u64 == 1u64) == ((b >> 57u64) & 1u64 == 1u64),
            ((a >> 58u64) & 1u64 == 1u64) == ((b >> 58u64) & 1u64 == 1u64),
            ((a >> 59u64) & 1u64 == 1u64) == ((b >> 59u64) & 1u64 == 1u64),
            ((a >> 60u64) & 1u64 == 1u64) == ((b >> 60u64) & 1u64 == 1u64),
            ((a >> 61u64) & 1u64 == 1u64) == ((b >> 61u64) & 1u64 == 1u64),
            ((a >> 62u64) & 1u64 == 1u64) == ((b >> 62u64) & 1u64 == 1u64),
            ((a >> 63u64) & 1u64 == 1u64) == ((b >> 63u64) & 1u64 == 1u64),
    ;
    assert(a == b) by (bit_vector)
        requires
            a ^ b == 0u64,
    ;
}


/// Byte-level truncation of an `i8` to `u8` keeps exactly the values in `0..8` below 8.
pub proof fn lemma_truncate_small(x: i8)
    ensures
        ((x as u8) < 8) == (0 <= x < 8),
        0 <= x ==> x as u8 == x,
{
    assert(((x as u8) < 8u8) == (0i8 <= x && x < 8i8)) by (bit_vector);
    assert(0i8 <= x ==> (x as u8) as int == x as int) by (bit_vector);
}

pub proof fn lemma_signed_cast(x: u8)
    ensures
        x as i8 == signed(x),
{
    assert((x as i8) as int == if x < 128u8 { x as int } else { x as int - 256 }) by (bit_vector);
}

/// A locale of the lattice: rank and file both count from zero.
#[derive(Clone, Copy, PartialEq, Eq, Debug, Hash, Structural)]
pub struct Locale {
    pub rank: u8,
    pub file: u8,
}

impl Locale {
    /// The number of the pin that stands for this locale.
    pub open spec fn index(self) -> int {
        8 * self.rank + self.file
    }

    /// Whether the locale lies on the 8-by-8 lattice.
    pub open spec fn on_board(self) -> bool {
        self.rank < 8 && self.file < 8
    }

    /// Whether the locale names one of the 64 pins of a pinfield.
    pub open spec fn pinnable(self) -> bool {
        self.index() < 64
    }

    /// The locale reached by moving `factor` times by `offset`, if it is on the lattice.
    pub open spec fn spec_multidisplace(self, offset: (i8, i8), factor: int) -> Option<Locale> {
        let r = signed(self.rank) + factor * offset.0;
        let f = signed(self.file) + factor * offset.1;
        if 0 <= r < 8 && 0 <= f < 8 {
            Some(Locale { rank: r as u8, file: f as u8 })
        } else {
            None
        }
    }

    /// The locale reached by moving once by `offset`, if it is on the lattice.
    pub open spec fn spec_displace(self, offset: (i8, i8)) -> Option<Locale> {
        self.spec_multidisplace(offset, 1)
    }

    /// The arithmetic of a displacement stays within `i8`.
    pub open spec fn displace_fits(self, offset: (i8, i8)) -> bool {
        &&& -128 <= signed(self.rank) + offset.0 <= 127
        &&& -128 <= signed(self.file) + offset.1 <= 127
    }

    /// The arithmetic of a multiple displacement stays within `i8`.
    pub open spec fn multidisplace_fits(self, offset: (i8, i8), factor: i8) -> bool {
        &&& -128 <= factor * offset.0 <= 127
        &&& -128 <= factor * offset.1 <= 127
        &&& -128 <= signed(self.rank) + factor * offset.0 <= 127
        &&& -128 <= signed(self.file) + factor * offset.1 <= 127
    }

    /// The algebraic name of the locale: a letter for the file, then the rank counted from one.
    pub open spec fn algebraic(self) -> Seq<char> {
        seq![file_rune(self.file as int)] + decimal((self.rank + 1) as nat)
    }

    pub fn new(rank: u8, file: u8) -> (locale: Self)
        ensures
            locale == (Locale { rank, file }),
    {
        Self { rank, file }
    }

    pub fn to_algebraic(&self) -> (name: String)
        requires
            self.file < 8,
            self.rank < 255,
        ensures
            name@ == self.algebraic(),
    {
        let mut name = String::new();
        push_rune(&mut name, ((97u8 + self.file) as char));
        push_decimal(&mut name, self.rank + 1);
        name
    }

    pub fn from_algebraic(notation: &str) -> (locale: Self)
        requires
            algebraic_readable(notation@),
        ensures
            locale == read_algebraic(notation@),
    {
        let file_note = rune_at(notation, 0);
        let rank_note = rune_at(notation, 1);
        Locale { rank: rune_to_byte(rank_note) - 49, file: rune_to_byte(file_note) - 97 }
    }

    pub fn pindex(&self) -> (index: u32)
        ensures
            index == self.index(),
    {
        (8u32 * (self.rank as u32)) + (self.file as u32)
    }

    pub fn pinpoint(&self) -> (pin: Pinfield)
        requires
            self.pinnable(),
        ensures
            pin.0 == 1u64 << (self.index() as u64),
    {
        let index = self.pindex() as u64;
        Pinfield(1u64 << index)
    }

    pub fn is_legal(&self) -> (legal: bool)
        ensures
            legal == self.on_board(),
    {
        self.rank < 8 && self.file < 8
    }

    pub fn displace(&self, offset: (i8, i8)) -> (destination: Option<Self>)
        requires
            self.displace_fits(offset),
        ensures
            destination == self.spec_displace(offset),
    {
        let (rank_offset, file_offset) = offset;
        proof {
            lemma_signed_cast(self.rank);
            lemma_signed_cast(self.file);
        }
        let rank_sum: i8 = self.rank as i8 + rank_offset;
        let file_sum: i8 = self.file as i8 + file_offset;
        proof {
            lemma_truncate_small(rank_sum);
            lemma_truncate_small(file_sum);
        }
        let potential_locale = Locale { rank: rank_sum as u8, file: file_sum as u8 };
        if potential_locale.is_legal() {
            Some(potential_locale)
        } else {
            None
        }
    }

    pub fn multidisplace(&self, offset: (i8, i8), factor: i8) -> (destination: Option<Self>)
        requires
            self.multidisplace_fits(offset, factor),
        ensures
            destination == self.spec_multidisplace(offset, factor as int),
    {
        let (rank_offset, file_offset) = offset;
        let real_rank: i8 = factor * rank_offset;
        let real_file: i8 = factor * file_offset;
        proof {
            lemma_signed_cast(self.rank);
            lemma_signed_cast(self.file);
        }
        let rank_sum: i8 = self.rank as i8 + real_rank;
        let file_sum: i8 = self.file as i8 + real_file;
        proof {
            lemma_truncate_small(rank_sum);
            lemma_truncate_small(file_sum);
        }
        let potential_locale = Locale { rank: rank_sum as u8, file: file_sum as u8 };
        if potential_locale.is_legal() {
            Some(potential_locale)
        } else {
            None
        }
    }
}

/// The letter of a file.
pub open spec fn file_rune(file: int) -> char {
    (97 + file) as char
}

/// Whether `Locale::from_algebraic` can read `notation`: it reads the first two
/// runes, and their bytes must not fall below 'a' and '1'.
pub open spec fn algebraic_readable(notation: Seq<char>) -> bool {
    &&& notation.len() >= 2
    &&& rune_byte(notation[0]) >= 97
    &&& rune_byte(notation[1]) >= 49
}

/// The locale that `Locale::from_algebraic` reads from `notation`.
pub open spec fn read_algebraic(notation: Seq<char>) -> Locale {
    Locale {
        rank: (rune_byte(notation[1]) - 49) as u8,
        file: (rune_byte(notation[0]) - 97) as u8,
    }
}

/// Reading back the algebraic name of a locale on the lattice gives the locale.
pub proof fn law_algebraic_round_trip(locale: Locale)
    requires
        locale.on_board(),
    ensures
        algebraic_readable(locale.algebraic()),
        read_algebraic(locale.algebraic()) == locale,
{
    let name = locale.algebraic();
    assert(decimal((locale.rank + 1) as nat) == seq![digit_rune((locale.rank + 1) as int)]);
    assert(name[0] == file_rune(locale.file as int));
    assert(name[1] == digit_rune((locale.rank + 1) as int));
}

/// The locale of pin `i`.
pub open spec fn locale_of_pin(i: int) -> Locale {
    Locale { rank: (i / 8) as u8, file: (i % 8) as u8 }
}

/// The locales of the pins below `n` that are set in `bits`, in the order of their pins.
pub open spec fn pins_below(bits: u64, n: nat) -> Seq<Locale>
    decreases n,
{
    if n == 0 {
        Seq::empty()
    } else {
        let earlier = pins_below(bits, (n - 1) as nat);
        if pin_at(bits, (n - 1) as u64) {
            earlier.push(locale_of_pin(n - 1))
        } else {
            earlier
        }
    }
}

/// The locales of all the pins set in `bits`, ordered by rank and then by file.
pub open spec fn pinned_locales(bits: u64) -> Seq<Locale> {
    pins_below(bits, 64)
}

/// A set of locales, one bit per locale.
#[derive(Clone, Copy, PartialEq, Eq, Debug, Hash, Default, Structural)]
pub struct Pinfield(pub u64);

impl Pinfield {
    /// Whether the pin of `station` is set.
    pub open spec fn holds(self, station: Locale) -> bool {
        pin_at(self.0, station.index() as u64)
    }

    pub open spec fn spec_alight(self, station: Locale) -> Pinfield {
        Pinfield(self.0 | (1u64 << (station.index() as u64)))
    }

    pub open spec fn spec_quench(self, station: Locale) -> Pinfield {
        Pinfield(self.0 & !(1u64 << (station.index() as u64)))
    }

    pub open spec fn spec_transit(self, departure: Locale, destination: Locale) -> Pinfield {
        self.spec_quench(departure).spec_alight(destination)
    }

    pub fn new() -> (field: Self)
        ensures
            field.0 == 0,
    {
        Pinfield(0)
    }

    pub fn union(&self, other: Pinfield) -> (field: Pinfield)
        ensures
            field.0 == self.0 | other.0,
    {
        let Pinfield(our_bits) = *self;
        let Pinfield(their_bits) = other;
        Pinfield(our_bits | their_bits)
    }

    pub fn intersection(&self, other: Pinfield) -> (field: Pinfield)
        ensures
            field.0 == self.0 & other.0,
    {
        let Pinfield(our_bits) = *self;
        let Pinfield(their_bits) = other;
        Pinfield(our_bits & their_bits)
    }

    pub fn invert(&self) -> (field: Pinfield)
        ensures
            field.0 == !self.0,
    {
        let Pinfield(our_bits) = *self;
        Pinfield(!our_bits)
    }

    pub fn alight(&self, station: Locale) -> (field: Pinfield)
        requires
            station.pinnable(),
        ensures
            field == self.spec_alight(station),
    {
        self.union(station.pinpoint())
    }

    pub fn quench(&self, station: Locale) -> (field: Pinfield)
        requires
            station.pinnable(),
        ensures
            field == self.spec_quench(station),
    {
        self.intersection(station.pinpoint().invert())
    }

    pub fn transit(&self, departure: Locale, destination: Locale) -> (field: Pinfield)
        requires
            departure.pinnable(),
            destination.pinnable(),
        ensures
            field == self.spec_transit(departure, destination),
    {
        self.quench(departure).alight(destination)
    }

    /// Makes a pinfield holding exactly the given locales.
    pub fn init(starters: &[Locale]) -> (board: Pinfield)
        requires
            forall|k: int| 0 <= k < starters@.len() ==> (#[trigger] starters@[k]).pinnable(),
        ensures
            forall|i: u64|
                i < 64 ==> (pin_at(board.0, i) <==> exists|k: int|
                    0 <= k < starters@.len() && (#[trigger] starters@[k]).index() == i),
    {
        let mut board = Pinfield::new();
        let mut n: usize = 0;
        proof {
            assert forall|i: u64| i < 64 implies !pin_at(board.0, i) by {
                lemma_pin_empty(i);
            }
        }
        while n < starters.len()
            invariant
                n <= starters@.len(),
                forall|k: int| 0 <= k < starters@.len() ==> (#[trigger] starters@[k]).pinnable(),
                forall|i: u64|
                    i < 64 ==> (pin_at(board.0, i) <==> exists|k: int|
                        0 <= k < n && (#[trigger] starters@[k]).index() == i),
            decreases starters@.len() - n,
        {
            let starter = starters[n];
            let ghost before = board.0;
            board = board.alight(starter);
            proof {
                assert forall|i: u64| i < 64 implies (pin_at(board.0, i) <==> exists|k: int|
                    0 <= k < n + 1 && (#[trigger] starters@[k]).index() == i) by {
                    lemma_pin_union(before, 1u64 << (starter.index() as u64), i);
                    lemma_pin_single(starter.index() as u64, i);
                    if pin_at(board.0, i) && !pin_at(before, i) {
                        assert(starters@[n as int].index() == i);
                    }
                }
            }
            n += 1;
        }
        board
    }

    pub fn query(&self, station: Locale) -> (held: bool)
        requires
            station.pinnable(),
        ensures
            held == self.holds(station),
    {
        let Pinfield(our_bits) = *self;
        let Pinfield(beacon_bits) = station.pinpoint();
        proof {
            let i = station.index() as u64;
            assert((our_bits & (1u64 << i) != 0u64) == ((our_bits >> i) & 1u64 == 1u64))
                by (bit_vector)
                requires
                    i < 64,
            ;
        }
        (our_bits & beacon_bits) != 0
    }

    /// The locales held, ordered by rank and then by file.
    pub fn to_locales(&self) -> (locales: Vec<Locale>)
        ensures
            locales@ == pinned_locales(self.0),
    {
        let mut locales = Vec::with_capacity(8);
        let Pinfield(bits) = *self;
        let mut bitfield = 1u64;
        let mut rank: u8 = 0;
        assert(1u64 == 1u64 << 0u64) by (bit_vector);
        while rank < 8
            invariant
                rank <= 8,
                bits == self.0,
                locales@ == pins_below(bits, (8 * rank) as nat),
                rank < 8 ==> bitfield == 1u64 << ((8 * rank) as u64),
            decreases 8 - rank,
        {
            let mut file: u8 = 0;
            while file < 8
                invariant
                    rank < 8,
                    file <= 8,
                    bits == self.0,
                    locales@ == pins_below(bits, (8 * rank + file) as nat),
                    8 * rank + file < 64 ==> bitfield == 1u64 << ((8 * rank + file) as u64),
                decreases 8 - file,
            {
                let ghost i = (8 * rank + file) as u64;
                proof {
                    assert((bitfield & bits != 0u64) == ((bits >> i) & 1u64 == 1u64))
                        by (bit_vector)
                        requires
                            i < 64,
                            bitfield == 1u64 << i,
                    ;
                    assert(locale_of_pin(i as int) == Locale { rank, file });
                }
                if bitfield & bits != 0 {
                    let locale = Locale::new(rank, file);
                    locales.push(locale);
                }
                proof {
                    if i < 63 {
                        assert((bitfield << 1u64) == 1u64 << ((i + 1) as u64)) by (bit_vector)
                            requires
                                i < 63,
                                bitfield == 1u64 << i,
                        ;
                    }
                }
                bitfield = bitfield << 1u64;
                file += 1;
            }
            rank += 1;
        }
        locales
    }

    /// The picture of one locale: "• " where it is held, "_ " where not.
    pub open spec fn cell_picture(self, station: Locale) -> Seq<char> {
        if self.holds(station) {
            seq!['•', ' ']
        } else {
            seq!['_', ' ']
        }
    }

    /// The pictures of the first `files` locales of rank `rank`.
    pub open spec fn row_picture(self, rank: u8, files: nat) -> Seq<char>
        decreases files,
    {
        if files == 0 {
            Seq::empty()
        } else {
            self.row_picture(rank, (files - 1) as nat) + self.cell_picture(
                Locale { rank, file: (files - 1) as u8 },
            )
        }
    }

    /// The first `ranks` ranks pictured, the lowest first, each on a line of its own.
    pub open spec fn picture(self, ranks: nat) -> Seq<char>
        decreases ranks,
    {
        if ranks == 0 {
            Seq::empty()
        } else {
            self.picture((ranks - 1) as nat) + self.row_picture((ranks - 1) as u8, 8).push('\n')
        }
    }

    /// The lattice pictured, rank by rank from the first: "• " for each locale
    /// held and "_ " for each not.
    pub fn diagram(&self) -> (picture: String)
        ensures
            picture@ == self.picture(8),
    {
        let mut picture = String::new();
        let mut rank: u8 = 0;
        while rank < 8
            invariant
                rank <= 8,
                picture@ == self.picture(rank as nat),
            decreases 8 - rank,
        {
            let mut file: u8 = 0;
            let ghost before = picture@;
            while file < 8
                invariant
                    rank < 8,
                    file <= 8,
                    picture@ == before + self.row_picture(rank, file as nat),
                decreases 8 - file,
            {
                if self.query(Locale::new(rank, file)) {
                    push_rune(&mut picture, '•');
                } else {
                    push_rune(&mut picture, '_');
                }
                push_rune(&mut picture, ' ');
                proof {
                    assert(self.row_picture(rank, (file + 1) as nat) == self.row_picture(
                        rank,
                        file as nat,
                    ) + self.cell_picture(Locale { rank, file }));
                    assert(picture@ =~= before + self.row_picture(rank, (file + 1) as nat));
                }
                file += 1;
            }
            push_rune(&mut picture, '\n');
            assert(picture@ =~= self.picture((rank + 1) as nat));
            rank += 1;
        }
        picture
    }

    /// The number of locales held.
    pub fn pincount(&self) -> (count: u8)
        ensures
            count == pinned_locales(self.0).len(),
    {
        let Pinfield(bits) = *self;
        let mut count: u8 = 0;
        let mut i: u64 = 0;
        while i < 64
            invariant
                i <= 64,
                bits == self.0,
                count == pins_below(bits, i as nat).len(),
                count <= i,
            decreases 64 - i,
        {
            if (bits >> i) & 1u64 == 1u64 {
                count += 1;
            }
            i += 1;
        }
        count
    }
}

/// What `alight` holds: the locale given, and whatever was held before.
pub proof fn law_alight(field: Pinfield, station: Locale, probe: Locale)
    requires
        station.pinnable(),
        probe.pinnable(),
    ensures
        Pinfield(field.0 | (1u64 << (station.index() as u64))).holds(probe) == (probe.index()
            == station.index() || field.holds(probe)),
{
    lemma_pin_union(field.0, 1u64 << (station.index() as u64), probe.index() as u64);
    lemma_pin_single(station.index() as u64, probe.index() as u64);
}

/// What `quench` holds: whatever was held before, except the locale given.
pub proof fn law_quench(field: Pinfield, station: Locale, probe: Locale)
    requires
        station.pinnable(),
        probe.pinnable(),
    ensures
        Pinfield(field.0 & !(1u64 << (station.index() as u64))).holds(probe) == (probe.index()
            != station.index() && field.holds(probe)),
{
    let single = 1u64 << (station.index() as u64);
    lemma_pin_intersection(field.0, !single, probe.index() as u64);
    lemma_pin_invert(single, probe.index() as u64);
    lemma_pin_single(station.index() as u64, probe.index() as u64);
}

/// Every locale listed by `to_locales` is on the lattice and held, and the
/// count of `pincount` is the length of that list.
pub proof fn law_pinned_locales_are_held(bits: u64, n: nat, k: int)
    requires
        n <= 64,
        0 <= k < pins_below(bits, n).len(),
    ensures
        pins_below(bits, n)[k].on_board(),
        pins_below(bits, n)[k].index() < n,
        pin_at(bits, pins_below(bits, n)[k].index() as u64),
    decreases n,
{
    if n > 0 {
        let earlier = pins_below(bits, (n - 1) as nat);
        if k < earlier.len() {
            law_pinned_locales_are_held(bits, (n - 1) as nat, k);
        } else {
            let i = n - 1;
            assert(locale_of_pin(i).index() == i);
        }
    }
}

} // verus!
