//! Regions of the lattice that the scoring of worlds looks at.
use vstd::prelude::*;

verus! {

/// The files of the lattice, from 'a' to 'h'.
pub const FILES: [u64; 8] = [
    0x0101_0101_0101_0101,
    0x0202_0202_0202_0202,
    0x0404_0404_0404_0404,
    0x0808_0808_0808_0808,
    0x1010_1010_1010_1010,
    0x2020_2020_2020_2020,
    0x4040_4040_4040_4040,
    0x8080_8080_8080_8080,
];

/// The four locales in the middle of the lattice: d4, e4, d5 and e5.
pub const CENTER_OF_THE_WORLD: u64 = 0x0000_0018_1800_0000;

/// The seventh rank, and the second, which is the seventh from Blue's side.
pub const HIGH_SEVENTH_HEAVEN: u64 = 0x00ff_0000_0000_0000;

pub const LOW_SEVENTH_HEAVEN: u64 = 0x0000_0000_0000_ff00;

/// The sixth rank, and the third, which is the sixth from Blue's side.
pub const HIGH_COLONELCY: u64 = 0x0000_ff00_0000_0000;

pub const LOW_COLONELCY: u64 = 0x0000_0000_00ff_0000;

} // verus!
