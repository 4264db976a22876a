//! What the search remembers of the movements it weighs.
use vstd::prelude::*;
use vstd::string::*;
use crate::identity::{Agent, JobDescription, Team};
use crate::life::{Patch, WorldState};
use crate::script::push_rune;
use crate::space::Locale;

verus! {

/// A line of play: patches one after the other.
pub type Variation = Vec<Patch>;

/// The abbreviated runes of a variation's patches, separated by spaces.
pub open spec fn variation_runes(variation: Seq<Patch>) -> Seq<char>
    decreases variation.len(),
{
    if variation.len() == 0 {
        Seq::empty()
    } else if variation.len() == 1 {
        variation[0].abbreviated_rune()
    } else {
        variation_runes(variation.drop_last()).push(' ') + variation.last().abbreviated_rune()
    }
}

/// Every patch of the variation can be written down.
pub open spec fn legible_variation(variation: Seq<Patch>) -> bool {
    forall|k: int| 0 <= k < variation.len() ==> (#[trigger] variation[k]).abbreviable()
}

pub fn pagan_variation_format(variation: &Variation) -> (runes: String)
    requires
        legible_variation(variation@),
    ensures
        runes@ == variation_runes(variation@),
{
    let mut runes = String::new();
    let mut k: usize = 0;
    while k < variation.len()
        invariant
            k <= variation@.len(),
            legible_variation(variation@),
            runes@ == variation_runes(variation@.take(k as int)),
        decreases variation@.len() - k,
    {
        let ghost before = runes@;
        if k > 0 {
            push_rune(&mut runes, ' ');
        }
        let rune = variation[k].abbreviated_pagan_movement_rune();
        runes.append(rune.as_str());
        proof {
            let prefix = variation@.take(k + 1);
            assert(prefix.drop_last() =~= variation@.take(k as int));
            assert(prefix.last() == variation@[k as int]);
            if k == 0 {
                assert(prefix.len() == 1);
                assert(runes@ =~= variation_runes(prefix));
            } else {
                assert(runes@ =~= variation_runes(prefix));
            }
        }
        k += 1;
    }
    assert(variation@.take(variation@.len() as int) =~= variation@);
    runes
}

/// What the search keeps of the line of play below a movement.
pub trait Memory: Sized {
    /// Whether the memory can be written down.
    spec fn legible(&self) -> bool;

    fn recombine(&mut self, other: Self);

    fn flash(patch: Patch) -> Self;

    fn blank() -> Self;

    fn readable(&self) -> String
        requires
            self.legible(),
    ;

    /// Whether `readable` can write the memory down.
    fn is_legible(&self) -> (legible: bool)
        ensures
            legible == self.legible(),
    ;
}

impl Memory for Patch {
    open spec fn legible(&self) -> bool {
        self.abbreviable()
    }

    /// The later patch replaces this one.
    fn recombine(&mut self, other: Self)
        ensures
            *final(self) == other,
    {
        self.star = other.star;
        self.whence = other.whence;
        self.whither = other.whither;
    }

    fn flash(patch: Patch) -> (memory: Self)
        ensures
            memory == patch,
    {
        patch
    }

    /// A deliberately illegal hop of the Orange figurehead from a1 to h8.
    fn blank() -> (memory: Self)
        ensures
            memory == (Patch {
                star: Agent { team: Team::Orange, job_description: JobDescription::Figurehead },
                whence: Locale { rank: 0, file: 0 },
                whither: Locale { rank: 7, file: 7 },
            }),
    {
        Patch {
            star: Agent::new(Team::Orange, JobDescription::Figurehead),
            whence: Locale::new(0, 0),
            whither: Locale::new(7, 7),
        }
    }

    fn readable(&self) -> (runes: String)
        ensures
            runes@ == self.abbreviated_rune(),
    {
        self.abbreviated_pagan_movement_rune()
    }

    fn is_legible(&self) -> (legible: bool) {
        self.is_abbreviable()
    }
}

impl Memory for Variation {
    open spec fn legible(&self) -> bool {
        legible_variation(self@)
    }

    /// The later line is appended to this one.
    fn recombine(&mut self, other: Self)
        ensures
            final(self)@ == old(self)@ + other@,
    {
        let mut other = other;
        self.append(&mut other);
    }

    fn flash(patch: Patch) -> (memory: Self)
        ensures
            memory@ == seq![patch],
    {
        let memory = vec![patch];
        assert(memory@ =~= seq![patch]);
        memory
    }

    fn blank() -> (memory: Self)
        ensures
            memory@ == Seq::<Patch>::empty(),
    {
        Vec::new()
    }

    fn readable(&self) -> (runes: String)
        ensures
            runes@ == variation_runes(self@),
    {
        pagan_variation_format(self)
    }

    fn is_legible(&self) -> (legible: bool) {
        let mut k: usize = 0;
        while k < self.len()
            invariant
                k <= self@.len(),
                forall|j: int| 0 <= j < k ==> (#[trigger] self@[j]).abbreviable(),
            decreases self@.len() - k,
        {
            if !self[k].is_abbreviable() {
                return false;
            }
            k += 1;
        }
        true
    }
}

/// A world together with the depth at which the search met it.
#[derive(PartialEq, Eq, Hash)]
pub struct SpaceTime {
    world_state: WorldState,
    instant: i8,
}

impl SpaceTime {
    pub closed spec fn world(self) -> WorldState {
        self.world_state
    }

    pub closed spec fn depth(self) -> i8 {
        self.instant
    }

    pub fn new(world_state: WorldState, instant: i8) -> (space_time: Self)
        ensures
            space_time.world() == world_state,
            space_time.depth() == instant,
    {
        Self { world_state, instant }
    }
}

} // verus!
