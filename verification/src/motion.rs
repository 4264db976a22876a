//! The locales that a pony or a figurine reaches in one hop.
use vstd::prelude::*;
use crate::identity::JobDescription;
use crate::space::{Locale, Pinfield, lemma_pin_union, lemma_pin_single, pin_at, locale_of_pin};

verus! {

/// A pony hops one locale in one direction and two in the orthogonal one.
pub open spec fn pony_offsets() -> Seq<(i8, i8)> {
    seq![(1i8, 2i8), (2i8, 1i8), (2i8, -1i8), (1i8, -2i8), (-1i8, -2i8), (-2i8, -1i8), (-2i8, 1i8), (-1i8, 2i8)]
}

/// A figurehead steps to any adjacent locale.
pub open spec fn figurehead_offsets() -> Seq<(i8, i8)> {
    seq![(-1i8, -1i8), (-1i8, 0i8), (-1i8, 1i8), (0i8, -1i8), (0i8, 1i8), (1i8, -1i8), (1i8, 0i8), (1i8, 1i8)]
}

pub open spec fn hop_offsets(job: JobDescription) -> Seq<(i8, i8)> {
    if job == JobDescription::Pony {
        pony_offsets()
    } else {
        figurehead_offsets()
    }
}

/// The pins of the locales on the lattice reached from `start` by one of `offsets`.
pub open spec fn hop_bits(start: Locale, offsets: Seq<(i8, i8)>) -> u64
    decreases offsets.len(),
{
    if offsets.len() == 0 {
        0
    } else {
        hop_bits(start, offsets.drop_last()) | match start.spec_displace(offsets.last()) {
            Some(destination) => 1u64 << (destination.index() as u64),
            None => 0u64,
        }
    }
}

/// Every pin of `hop_bits` is the locale of one of the offsets.
pub proof fn lemma_hop_member(start: Locale, offsets: Seq<(i8, i8)>, i: u64)
    requires
        i < 64,
        pin_at(hop_bits(start, offsets), i),
    ensures
        exists|j: int|
            0 <= j < offsets.len() && start.spec_displace(#[trigger] offsets[j]) == Some(
                locale_of_pin(i as int),
            ),
    decreases offsets.len(),
{
    if offsets.len() == 0 {
        crate::space::lemma_pin_empty(i);
    } else {
        let rest = offsets.drop_last();
        let single = match start.spec_displace(offsets.last()) {
            Some(destination) => 1u64 << (destination.index() as u64),
            None => 0u64,
        };
        lemma_pin_union(hop_bits(start, rest), single, i);
        if pin_at(hop_bits(start, rest), i) {
            lemma_hop_member(start, rest, i);
            let j = choose|j: int|
                0 <= j < rest.len() && start.spec_displace(#[trigger] rest[j]) == Some(
                    locale_of_pin(i as int),
                );
            assert(offsets[j] == rest[j]);
        } else {
            match start.spec_displace(offsets.last()) {
                Some(destination) => {
                    lemma_pin_single(destination.index() as u64, i);
                    assert(locale_of_pin(i as int) == destination);
                    assert(offsets[offsets.len() - 1] == offsets.last());
                },
                None => {
                    crate::space::lemma_pin_empty(i);
                },
            }
        }
    }
}

/// The locales that a pony (or a figurehead, for any other job) reaches from `start` in one hop.
pub fn movement_range(job: JobDescription, start: Locale) -> (range: Pinfield)
    requires
        start.on_board(),
    ensures
        range.0 == hop_bits(start, hop_offsets(job)),
{
    let offsets: [(i8, i8); 8] = if job == JobDescription::Pony {
        [(1, 2), (2, 1), (2, -1), (1, -2), (-1, -2), (-2, -1), (-2, 1), (-1, 2)]
    } else {
        [(-1, -1), (-1, 0), (-1, 1), (0, -1), (0, 1), (1, -1), (1, 0), (1, 1)]
    };
    assert(offsets@ =~= hop_offsets(job));
    let mut bits: u64 = 0;
    let mut k: usize = 0;
    while k < 8
        invariant
            k <= 8,
            start.on_board(),
            offsets@ == hop_offsets(job),
            bits == hop_bits(start, offsets@.take(k as int)),
        decreases 8 - k,
    {
        assert(offsets@.take(k + 1).drop_last() =~= offsets@.take(k as int));
        assert(offsets@.take(k + 1).last() == offsets@[k as int]);
        let offset = offsets[k];
        match start.displace(offset) {
            Some(destination) => {
                bits = bits | destination.pinpoint().0;
            },
            None => {
                assert(bits | 0u64 == bits) by (bit_vector);
            },
        }
        k += 1;
    }
    assert(offsets@.take(8) =~= offsets@);
    Pinfield(bits)
}

} // verus!
