//! The world of the game: where every figurine stands, whose turn it is, and
//! how a patch (the movement of one figurine) changes it.
use vstd::prelude::*;
use crate::identity::{Agent, JobDescription, Team};
use crate::space::{Locale, Pinfield, pin_at, lemma_pins_determine};
use crate::script::push_rune;
use vstd::string::*;

verus! {

/// The movement of a figurine.
#[derive(Clone, Copy, PartialEq, Eq, Debug, Hash, Structural)]
pub struct Patch {
    pub star: Agent,
    pub whence: Locale,
    pub whither: Locale,
}

/// The outcome of a team's turn: the patch, the world after it (`tree`),
/// the opposing agent stunned and sent to the hospital, if any, and the form
/// into which an ascending servant turned, if any.
#[derive(Clone, Copy, PartialEq, Eq, Debug, Hash, Structural)]
pub struct Commit {
    pub patch: Patch,
    pub tree: WorldState,
    pub hospitalization: Option<Agent>,
    pub ascension: Option<Agent>,
}

#[derive(Clone, Copy, PartialEq, Eq, Debug, Hash, Structural)]
pub struct WorldState {
    pub initiative: Team,
    pub orange_servants: Pinfield,
    pub orange_ponies: Pinfield,
    pub orange_scholars: Pinfield,
    pub orange_cops: Pinfield,
    pub orange_princesses: Pinfield,
    pub orange_figurehead: Pinfield,
    pub blue_servants: Pinfield,
    pub blue_ponies: Pinfield,
    pub blue_scholars: Pinfield,
    pub blue_cops: Pinfield,
    pub blue_princesses: Pinfield,
    pub blue_figurehead: Pinfield,
    pub service_eligibility: u8,
    pub passing_by_locale: Option<Locale>,
}

pub const ORANGE_WEST_ELIGIBILITY: u8 = 0b1;

pub const ORANGE_EAST_ELIGIBILITY: u8 = 0b10;

pub const BLUE_WEST_ELIGIBILITY: u8 = 0b100;

pub const BLUE_EAST_ELIGIBILITY: u8 = 0b1000;

/// The bit of the service eligibility of `team` toward the west or the east.
pub open spec fn eligibility_bit(team: Team, west: bool) -> u8 {
    match (team, west) {
        (Team::Orange, true) => ORANGE_WEST_ELIGIBILITY,
        (Team::Orange, false) => ORANGE_EAST_ELIGIBILITY,
        (Team::Blue, true) => BLUE_WEST_ELIGIBILITY,
        (Team::Blue, false) => BLUE_EAST_ELIGIBILITY,
    }
}

/// Whether the bit `bit` is set in the eligibility byte `eligibility`.
pub open spec fn eligibility_holds(eligibility: u8, bit: u8) -> bool {
    eligibility & bit > 0
}

/// What setting and clearing an eligibility bit does to each of the four bits.
pub proof fn lemma_eligibility_bits(e: u8, team: Team, west: bool, probe_team: Team, probe_west: bool)
    ensures
        eligibility_holds(e | eligibility_bit(team, west), eligibility_bit(probe_team, probe_west))
            == ((probe_team == team && probe_west == west) || eligibility_holds(
            e,
            eligibility_bit(probe_team, probe_west),
        )),
        eligibility_holds(e & !eligibility_bit(team, west), eligibility_bit(probe_team, probe_west))
            == (!(probe_team == team && probe_west == west) && eligibility_holds(
            e,
            eligibility_bit(probe_team, probe_west),
        )),
{
    let b = eligibility_bit(team, west);
    let p = eligibility_bit(probe_team, probe_west);
    assert(b == 1u8 || b == 2u8 || b == 4u8 || b == 8u8);
    assert(p == 1u8 || p == 2u8 || p == 4u8 || p == 8u8);
    assert((b == p) == (probe_team == team && probe_west == west));
    assert(((e | b) & p > 0u8) == (b == p || e & p > 0u8)) by (bit_vector)
        requires
            b == 1u8 || b == 2u8 || b == 4u8 || b == 8u8,
            p == 1u8 || p == 2u8 || p == 4u8 || p == 8u8,
    ;
    assert(((e & !b) & p > 0u8) == (b != p && e & p > 0u8)) by (bit_vector)
        requires
            b == 1u8 || b == 2u8 || b == 4u8 || b == 8u8,
            p == 1u8 || p == 2u8 || p == 4u8 || p == 8u8,
    ;
}

/// The rank on which a team's servants start, and the direction in which they move.
pub open spec fn servant_home_rank(team: Team) -> u8 {
    match team {
        Team::Orange => 1,
        Team::Blue => 6,
    }
}

pub open spec fn forward(team: Team) -> (i8, i8) {
    match team {
        Team::Orange => (1i8, 0i8),
        Team::Blue => (-1i8, 0i8),
    }
}

/// The rank that a servant of `team` must reach to ascend.
pub open spec fn admirality(team: Team) -> u8 {
    match team {
        Team::Orange => 7,
        Team::Blue => 0,
    }
}

impl Patch {
    /// The difference of the files of `whence` and `whither`, as `i8` arithmetic has it.
    pub open spec fn file_shift(self) -> int {
        crate::space::signed(self.whence.file) - crate::space::signed(self.whither.file)
    }

    pub open spec fn rank_shift(self) -> int {
        crate::space::signed(self.whither.rank) - crate::space::signed(self.whence.rank)
    }

    /// The `i8` arithmetic of the file difference neither overflows nor meets `abs(i8::MIN)`.
    pub open spec fn file_shift_fits(self) -> bool {
        -127 <= self.file_shift() <= 127
    }

    /// A figurehead moving two files: the secret service.
    pub open spec fn spec_secret_service(self) -> bool {
        self.star.job_description == JobDescription::Figurehead && (self.file_shift() == 2
            || self.file_shift() == -2)
    }

    /// A servant arriving on the far rank.
    pub open spec fn spec_servant_ascension(self) -> bool {
        self.star.job_description == JobDescription::Servant && self.whither.rank == admirality(
            self.star.team,
        )
    }

    pub fn concerns_secret_service(&self) -> (service: bool)
        requires
            self.star.job_description == JobDescription::Figurehead ==> self.file_shift_fits(),
        ensures
            service == self.spec_secret_service(),
    {
        if self.star.job_description == JobDescription::Figurehead {
            proof {
                crate::space::lemma_signed_cast(self.whence.file);
                crate::space::lemma_signed_cast(self.whither.file);
            }
            let shift: i8 = self.whence.file as i8 - self.whither.file as i8;
            shift == 2 || shift == -2
        } else {
            false
        }
    }

    /// The abbreviated pagan movement rune: "O–O" or "O–O–O" for a secret
    /// service toward file 6 or 2, else the agent's prefix and the destination.
    pub open spec fn abbreviated_rune(self) -> Seq<char> {
        if self.spec_secret_service() {
            if self.whither.file == 6 {
                seq!['O', '–', 'O']
            } else {
                seq!['O', '–', 'O', '–', 'O']
            }
        } else {
            self.star.pagan_prefix() + self.whither.algebraic()
        }
    }

    /// The inputs on which `abbreviated_pagan_movement_rune` neither panics
    /// nor overflows.
    pub open spec fn abbreviable(self) -> bool {
        &&& self.star.job_description == JobDescription::Figurehead ==> self.file_shift_fits()
        &&& self.spec_secret_service() ==> (self.whither.file == 6 || self.whither.file == 2)
        &&& !self.spec_secret_service() ==> (self.whither.file < 8 && self.whither.rank < 255)
    }

    /// Whether `abbreviated_pagan_movement_rune` can write the patch down.
    pub fn is_abbreviable(&self) -> (ok: bool)
        ensures
            ok == self.abbreviable(),
    {
        proof {
            crate::space::lemma_signed_cast(self.whence.file);
            crate::space::lemma_signed_cast(self.whither.file);
        }
        let shift: i16 = self.whence.file as i8 as i16 - self.whither.file as i8 as i16;
        let figurehead = self.star.job_description == JobDescription::Figurehead;
        if figurehead && (shift < -127 || shift > 127) {
            return false;
        }
        if figurehead && (shift == 2 || shift == -2) {
            self.whither.file == 6 || self.whither.file == 2
        } else {
            self.whither.file < 8 && self.whither.rank < 255
        }
    }

    pub fn abbreviated_pagan_movement_rune(&self) -> (rune: String)
        requires
            self.abbreviable(),
        ensures
            rune@ == self.abbreviated_rune(),
    {
        if self.concerns_secret_service() {
            let mut rune = String::new();
            push_rune(&mut rune, 'O');
            push_rune(&mut rune, '–');
            push_rune(&mut rune, 'O');
            if self.whither.file != 6 {
                push_rune(&mut rune, '–');
                push_rune(&mut rune, 'O');
            }
            assert(rune@ =~= self.abbreviated_rune());
            rune
        } else {
            let mut rune = self.star.to_pagan_movement_rune_prefix();
            let destination = self.whither.to_algebraic();
            rune.append(destination.as_str());
            rune
        }
    }

    pub fn concerns_servant_ascension(&self) -> (ascension: bool)
        ensures
            ascension == self.spec_servant_ascension(),
    {
        let admirality = match self.star.team {
            Team::Orange => 7,
            Team::Blue => 0,
        };
        self.star.job_description == JobDescription::Servant && self.whither.rank == admirality
    }
}

impl WorldState {
    /// The pinfield of an agent.
    pub open spec fn pinfield_of(self, agent: Agent) -> Pinfield {
        match (agent.team, agent.job_description) {
            (Team::Orange, JobDescription::Servant) => self.orange_servants,
            (Team::Orange, JobDescription::Pony) => self.orange_ponies,
            (Team::Orange, JobDescription::Scholar) => self.orange_scholars,
            (Team::Orange, JobDescription::Cop) => self.orange_cops,
            (Team::Orange, JobDescription::Princess) => self.orange_princesses,
            (Team::Orange, JobDescription::Figurehead) => self.orange_figurehead,
            (Team::Blue, JobDescription::Servant) => self.blue_servants,
            (Team::Blue, JobDescription::Pony) => self.blue_ponies,
            (Team::Blue, JobDescription::Scholar) => self.blue_scholars,
            (Team::Blue, JobDescription::Cop) => self.blue_cops,
            (Team::Blue, JobDescription::Princess) => self.blue_princesses,
            (Team::Blue, JobDescription::Figurehead) => self.blue_figurehead,
        }
    }

    /// The world with the pinfield of `agent` replaced by `field`.
    pub open spec fn with_pinfield(self, agent: Agent, field: Pinfield) -> WorldState {
        match (agent.team, agent.job_description) {
            (Team::Orange, JobDescription::Servant) => WorldState { orange_servants: field, ..self },
            (Team::Orange, JobDescription::Pony) => WorldState { orange_ponies: field, ..self },
            (Team::Orange, JobDescription::Scholar) => WorldState { orange_scholars: field, ..self },
            (Team::Orange, JobDescription::Cop) => WorldState { orange_cops: field, ..self },
            (Team::Orange, JobDescription::Princess) => WorldState {
                orange_princesses: field,
                ..self
            },
            (Team::Orange, JobDescription::Figurehead) => WorldState {
                orange_figurehead: field,
                ..self
            },
            (Team::Blue, JobDescription::Servant) => WorldState { blue_servants: field, ..self },
            (Team::Blue, JobDescription::Pony) => WorldState { blue_ponies: field, ..self },
            (Team::Blue, JobDescription::Scholar) => WorldState { blue_scholars: field, ..self },
            (Team::Blue, JobDescription::Cop) => WorldState { blue_cops: field, ..self },
            (Team::Blue, JobDescription::Princess) => WorldState { blue_princesses: field, ..self },
            (Team::Blue, JobDescription::Figurehead) => WorldState {
                blue_figurehead: field,
                ..self
            },
        }
    }

    /// Whether `team` may still use the secret service toward the west or the east.
    pub open spec fn eligible(self, team: Team, west: bool) -> bool {
        eligibility_holds(self.service_eligibility, eligibility_bit(team, west))
    }

    /// The world with its eligibility byte replaced.
    pub open spec fn with_eligibility(self, eligibility: u8) -> WorldState {
        WorldState { service_eligibility: eligibility, ..self }
    }

    /// A servant of `team` can stun in passing without the stunned servant's
    /// locale leaving the lattice: `team` has the initiative, or the
    /// passing-by locale, if any, is not on `team`'s far rank.
    pub open spec fn passing_safe(self, team: Team) -> bool {
        team == self.initiative || match self.passing_by_locale {
            None => true,
            Some(l) => l.rank != admirality(team),
        }
    }

    /// The bits of the locales occupied by a team.
    pub open spec fn spec_occupied_by(self, team: Team) -> u64 {
        match team {
            Team::Orange => self.orange_servants.0 | self.orange_ponies.0 | self.orange_scholars.0
                | self.orange_cops.0 | self.orange_princesses.0 | self.orange_figurehead.0,
            Team::Blue => self.blue_servants.0 | self.blue_ponies.0 | self.blue_scholars.0
                | self.blue_cops.0 | self.blue_princesses.0 | self.blue_figurehead.0,
        }
    }

    pub open spec fn spec_occupied(self) -> u64 {
        self.spec_occupied_by(Team::Orange) | self.spec_occupied_by(Team::Blue)
    }

    /// Whether nobody stands at `at`.
    pub open spec fn vacant(self, at: Locale) -> bool {
        !Pinfield(self.spec_occupied()).holds(at)
    }

    /// The first agent of `team`, in job order from the `k`-th on, whose
    /// pinfield holds `at`.
    pub open spec fn occupant_from(self, at: Locale, team: Team, k: nat) -> Option<Agent>
        decreases 6 - k,
    {
        if k >= 6 {
            None
        } else {
            let agent = Agent::spec_personae(team)[k as int];
            if self.pinfield_of(agent).holds(at) {
                Some(agent)
            } else {
                self.occupant_from(at, team, k + 1)
            }
        }
    }

    /// The agent of `team` standing at `at`, if any; the first in job order
    /// where several pinfields hold the locale.
    pub open spec fn occupant(self, at: Locale, team: Team) -> Option<Agent> {
        self.occupant_from(at, team, 0)
    }

    /// The agent standing at `at`, if any, Orange first.
    pub open spec fn any_occupant(self, at: Locale) -> Option<Agent> {
        match self.occupant(at, Team::Orange) {
            Some(agent) => Some(agent),
            None => self.occupant(at, Team::Blue),
        }
    }

    /// The world at the start of a game.
    pub open spec fn spec_new() -> WorldState {
        WorldState {
            initiative: Team::Orange,
            orange_servants: Pinfield(0xff00),
            orange_ponies: Pinfield(0x42),
            orange_scholars: Pinfield(0x24),
            orange_cops: Pinfield(0x81),
            orange_princesses: Pinfield(0x8),
            orange_figurehead: Pinfield(0x10),
            blue_servants: Pinfield(0x00ff_0000_0000_0000),
            blue_ponies: Pinfield(0x4200_0000_0000_0000),
            blue_scholars: Pinfield(0x2400_0000_0000_0000),
            blue_cops: Pinfield(0x8100_0000_0000_0000),
            blue_princesses: Pinfield(0x0800_0000_0000_0000),
            blue_figurehead: Pinfield(0x1000_0000_0000_0000),
            service_eligibility: 0b1111,
            passing_by_locale: None,
        }
    }

    /// The world without figurines, eligibilities or a passing-by locale,
    /// with Orange to move.
    pub open spec fn spec_empty() -> WorldState {
        WorldState {
            initiative: Team::Orange,
            orange_servants: Pinfield(0),
            orange_ponies: Pinfield(0),
            orange_scholars: Pinfield(0),
            orange_cops: Pinfield(0),
            orange_princesses: Pinfield(0),
            orange_figurehead: Pinfield(0),
            blue_servants: Pinfield(0),
            blue_ponies: Pinfield(0),
            blue_scholars: Pinfield(0),
            blue_cops: Pinfield(0),
            blue_princesses: Pinfield(0),
            blue_figurehead: Pinfield(0),
            service_eligibility: 0,
            passing_by_locale: None,
        }
    }

    /// The world at the start of a game: servants on the second and seventh
    /// ranks, the other figurines behind them, Orange to move, every secret
    /// service still possible.
    pub fn new() -> (world: Self)
        ensures
            world == Self::spec_new(),
    {
        Self::default()
    }

    pub fn new_except_empty() -> (world: Self)
        ensures
            world == Self::spec_empty(),
    {
        Self {
            initiative: Team::Orange,
            orange_servants: Pinfield::new(),
            orange_ponies: Pinfield::new(),
            orange_scholars: Pinfield::new(),
            orange_cops: Pinfield::new(),
            orange_princesses: Pinfield::new(),
            orange_figurehead: Pinfield::new(),
            blue_servants: Pinfield::new(),
            blue_ponies: Pinfield::new(),
            blue_scholars: Pinfield::new(),
            blue_cops: Pinfield::new(),
            blue_princesses: Pinfield::new(),
            blue_figurehead: Pinfield::new(),
            service_eligibility: 0,
            passing_by_locale: None,
        }
    }

    pub fn agent_to_pinfield_ref(&self, agent: Agent) -> (field: &Pinfield)
        ensures
            *field == self.pinfield_of(agent),
    {
        match (agent.team, agent.job_description) {
            (Team::Orange, JobDescription::Servant) => &self.orange_servants,
            (Team::Orange, JobDescription::Pony) => &self.orange_ponies,
            (Team::Orange, JobDescription::Scholar) => &self.orange_scholars,
            (Team::Orange, JobDescription::Cop) => &self.orange_cops,
            (Team::Orange, JobDescription::Princess) => &self.orange_princesses,
            (Team::Orange, JobDescription::Figurehead) => &self.orange_figurehead,
            (Team::Blue, JobDescription::Servant) => &self.blue_servants,
            (Team::Blue, JobDescription::Pony) => &self.blue_ponies,
            (Team::Blue, JobDescription::Scholar) => &self.blue_scholars,
            (Team::Blue, JobDescription::Cop) => &self.blue_cops,
            (Team::Blue, JobDescription::Princess) => &self.blue_princesses,
            (Team::Blue, JobDescription::Figurehead) => &self.blue_figurehead,
        }
    }

    pub fn agent_to_pinfield_mutref(&mut self, agent: Agent) -> (field: &mut Pinfield)
        ensures
            *field == old(self).pinfield_of(agent),
            *final(self) == old(self).with_pinfield(agent, *final(field)),
    {
        match (agent.team, agent.job_description) {
            (Team::Orange, JobDescription::Servant) => &mut self.orange_servants,
            (Team::Orange, JobDescription::Pony) => &mut self.orange_ponies,
            (Team::Orange, JobDescription::Scholar) => &mut self.orange_scholars,
            (Team::Orange, JobDescription::Cop) => &mut self.orange_cops,
            (Team::Orange, JobDescription::Princess) => &mut self.orange_princesses,
            (Team::Orange, JobDescription::Figurehead) => &mut self.orange_figurehead,
            (Team::Blue, JobDescription::Servant) => &mut self.blue_servants,
            (Team::Blue, JobDescription::Pony) => &mut self.blue_ponies,
            (Team::Blue, JobDescription::Scholar) => &mut self.blue_scholars,
            (Team::Blue, JobDescription::Cop) => &mut self.blue_cops,
            (Team::Blue, JobDescription::Princess) => &mut self.blue_princesses,
            (Team::Blue, JobDescription::Figurehead) => &mut self.blue_figurehead,
        }
    }

    pub fn except_replaced_subboard(&self, for_whom: Agent, subboard: Pinfield) -> (world: Self)
        ensures
            world == self.with_pinfield(for_whom, subboard),
    {
        let mut resultant_state = *self;
        resultant_state.agent_to_pinfield_mutref(for_whom).0 = subboard.0;
        resultant_state
    }

    pub fn orange_east_service_eligibility(&self) -> (eligible: bool)
        ensures
            eligible == self.eligible(Team::Orange, false),
    {
        self.service_eligibility & ORANGE_EAST_ELIGIBILITY > 0
    }

    pub fn orange_west_service_eligibility(&self) -> (eligible: bool)
        ensures
            eligible == self.eligible(Team::Orange, true),
    {
        self.service_eligibility & ORANGE_WEST_ELIGIBILITY > 0
    }

    pub fn blue_east_service_eligibility(&self) -> (eligible: bool)
        ensures
            eligible == self.eligible(Team::Blue, false),
    {
        self.service_eligibility & BLUE_EAST_ELIGIBILITY > 0
    }

    pub fn blue_west_service_eligibility(&self) -> (eligible: bool)
        ensures
            eligible == self.eligible(Team::Blue, true),
    {
        self.service_eligibility & BLUE_WEST_ELIGIBILITY > 0
    }

    fn service_eligibility_bit(&self, team: Team, west: bool) -> (bit: u8)
        ensures
            bit == eligibility_bit(team, west),
    {
        match (team, west) {
            (Team::Orange, true) => ORANGE_WEST_ELIGIBILITY,
            (Team::Orange, false) => ORANGE_EAST_ELIGIBILITY,
            (Team::Blue, true) => BLUE_WEST_ELIGIBILITY,
            (Team::Blue, false) => BLUE_EAST_ELIGIBILITY,
        }
    }

    fn clear_service_eligibility(&mut self, team: Team, west: bool)
        ensures
            *final(self) == old(self).with_eligibility(
                old(self).service_eligibility & !eligibility_bit(team, west),
            ),
    {
        let bit = self.service_eligibility_bit(team, west);
        self.service_eligibility = self.service_eligibility & !bit;
    }

    fn set_service_eligibility(&mut self, team: Team, west: bool)
        ensures
            *final(self) == old(self).with_eligibility(
                old(self).service_eligibility | eligibility_bit(team, west),
            ),
    {
        let bit = self.service_eligibility_bit(team, west);
        self.service_eligibility = self.service_eligibility | bit;
    }

    pub fn clear_orange_east_service_eligibility(&mut self)
        ensures
            *final(self) == old(self).with_eligibility(
                old(self).service_eligibility & !ORANGE_EAST_ELIGIBILITY,
            ),
    {
        self.clear_service_eligibility(Team::Orange, false);
    }

    pub fn clear_orange_west_service_eligibility(&mut self)
        ensures
            *final(self) == old(self).with_eligibility(
                old(self).service_eligibility & !ORANGE_WEST_ELIGIBILITY,
            ),
    {
        self.clear_service_eligibility(Team::Orange, true);
    }

    pub fn clear_blue_east_service_eligibility(&mut self)
        ensures
            *final(self) == old(self).with_eligibility(
                old(self).service_eligibility & !BLUE_EAST_ELIGIBILITY,
            ),
    {
        self.clear_service_eligibility(Team::Blue, false);
    }

    pub fn clear_blue_west_service_eligibility(&mut self)
        ensures
            *final(self) == old(self).with_eligibility(
                old(self).service_eligibility & !BLUE_WEST_ELIGIBILITY,
            ),
    {
        self.clear_service_eligibility(Team::Blue, true);
    }

    pub fn set_orange_east_service_eligibility(&mut self)
        ensures
            *final(self) == old(self).with_eligibility(
                old(self).service_eligibility | ORANGE_EAST_ELIGIBILITY,
            ),
    {
        self.set_service_eligibility(Team::Orange, false);
    }

    pub fn set_orange_west_service_eligibility(&mut self)
        ensures
            *final(self) == old(self).with_eligibility(
                old(self).service_eligibility | ORANGE_WEST_ELIGIBILITY,
            ),
    {
        self.set_service_eligibility(Team::Orange, true);
    }

    pub fn set_blue_east_service_eligibility(&mut self)
        ensures
            *final(self) == old(self).with_eligibility(
                old(self).service_eligibility | BLUE_EAST_ELIGIBILITY,
            ),
    {
        self.set_service_eligibility(Team::Blue, false);
    }

    pub fn set_blue_west_service_eligibility(&mut self)
        ensures
            *final(self) == old(self).with_eligibility(
                old(self).service_eligibility | BLUE_WEST_ELIGIBILITY,
            ),
    {
        self.set_service_eligibility(Team::Blue, true);
    }

    pub fn occupied_by(&self, team: Team) -> (field: Pinfield)
        ensures
            field.0 == self.spec_occupied_by(team),
    {
        match team {
            Team::Orange => {
                self.orange_servants.union(self.orange_ponies).union(self.orange_scholars).union(
                    self.orange_cops,
                ).union(self.orange_princesses).union(self.orange_figurehead)
            },
            Team::Blue => {
                self.blue_servants.union(self.blue_ponies).union(self.blue_scholars).union(
                    self.blue_cops,
                ).union(self.blue_princesses).union(self.blue_figurehead)
            },
        }
    }

    pub fn occupied(&self) -> (field: Pinfield)
        ensures
            field.0 == self.spec_occupied(),
    {
        self.occupied_by(Team::Orange).union(self.occupied_by(Team::Blue))
    }

    pub fn unoccupied(&self) -> (field: Pinfield)
        ensures
            field.0 == !self.spec_occupied(),
    {
        self.occupied().invert()
    }

    /// Whether `at` is vacant, as `unoccupied().query(at)` finds it.
    pub(crate) fn is_vacant(&self, at: Locale) -> (vacant: bool)
        requires
            at.pinnable(),
        ensures
            vacant == self.vacant(at),
    {
        proof {
            crate::space::lemma_pin_invert(self.spec_occupied(), at.index() as u64);
        }
        self.unoccupied().query(at)
    }

    pub fn occupying_affiliated_agent(&self, at: Locale, team: Team) -> (agent: Option<Agent>)
        requires
            at.pinnable(),
        ensures
            agent == self.occupant(at, team),
    {
        let personae = Agent::dramatis_personae(team);
        let mut k: usize = 0;
        while k < 6
            invariant
                k <= 6,
                at.pinnable(),
                personae@ == Agent::spec_personae(team),
                self.occupant_from(at, team, k as nat) == self.occupant(at, team),
            decreases 6 - k,
        {
            let agent = personae[k];
            if self.agent_to_pinfield_ref(agent).query(at) {
                return Some(agent);
            }
            k += 1;
        }
        None
    }

    pub fn occupying_agent(&self, at: Locale) -> (agent: Option<Agent>)
        requires
            at.pinnable(),
        ensures
            agent == self.any_occupant(at),
    {
        let league = Team::league();
        let mut k: usize = 0;
        while k < 2
            invariant
                k <= 2,
                at.pinnable(),
                league@ == seq![Team::Orange, Team::Blue],
                k >= 1 ==> self.occupant(at, Team::Orange) is None,
                k >= 2 ==> self.occupant(at, Team::Blue) is None,
            decreases 2 - k,
        {
            let agent_maybe = self.occupying_affiliated_agent(at, league[k]);
            if agent_maybe.is_some() {
                return agent_maybe;
            }
            k += 1;
        }
        None
    }
}

/// The eligibility byte after `patch`: a figurehead's movement spends both
/// of its team's eligibilities, a cop's movement from a corner file spends
/// the one on its side.
pub open spec fn spent_eligibility(e: u8, patch: Patch) -> u8 {
    let team = patch.star.team;
    match patch.star.job_description {
        JobDescription::Figurehead => (e & !eligibility_bit(team, false)) & !eligibility_bit(
            team,
            true,
        ),
        JobDescription::Cop => if patch.whence.file == 0 {
            e & !eligibility_bit(team, true)
        } else if patch.whence.file == 7 {
            e & !eligibility_bit(team, false)
        } else {
            e
        },
        _ => e,
    }
}

/// The files from which and to which the cop moves in a secret service
/// whose figurehead arrives on `whither_file`.
pub open spec fn service_cop_files(whither_file: u8) -> (u8, u8) {
    if whither_file == 6 {
        (7, 5)
    } else {
        (0, 3)
    }
}

impl WorldState {
    /// Whether `patch` is a servant stunning in passing: nobody of the
    /// opposition at its destination, which is the passing-by locale.
    pub open spec fn passing_capture(self, patch: Patch) -> bool {
        &&& self.occupant(patch.whither, self.initiative.spec_opposition()) is None
        &&& patch.star.job_description == JobDescription::Servant
        &&& self.passing_by_locale == Some(patch.whither)
    }

    /// The locale of the figurine stunned by `patch`, if any.
    pub open spec fn ambulance_target(self, patch: Patch) -> Locale {
        if self.passing_capture(patch) {
            self.passing_by_locale.unwrap().spec_displace(
                forward(self.initiative.spec_opposition()),
            ).unwrap()
        } else {
            patch.whither
        }
    }

    /// The agent stunned by `patch`, if any.
    pub open spec fn spec_hospitalization(self, patch: Patch) -> Option<Agent> {
        self.occupant(self.ambulance_target(patch), self.initiative.spec_opposition())
    }

    /// The inputs on which `apply` is defined: both locales name pins, a
    /// secret service ends on file 2 or 6, and the locale of a servant
    /// stunned in passing lies on the lattice.
    pub open spec fn apply_defined(self, patch: Patch) -> bool {
        &&& patch.whence.pinnable()
        &&& patch.whither.pinnable()
        &&& patch.spec_secret_service() ==> (patch.whither.file == 6 || patch.whither.file == 2)
        &&& self.passing_capture(patch) ==> {
            let passed = self.passing_by_locale.unwrap();
            let direction = forward(self.initiative.spec_opposition());
            passed.displace_fits(direction) && passed.spec_displace(direction) is Some
        }
    }

    /// The world right after the moving figurine's own pinfield and the
    /// eligibilities that it spends are updated, and the cop of a secret service has moved.
    pub open spec fn moved(self, patch: Patch) -> WorldState {
        let star_field = self.pinfield_of(patch.star).spec_transit(patch.whence, patch.whither);
        let first = self.with_pinfield(patch.star, star_field);
        let second = first.with_eligibility(spent_eligibility(first.service_eligibility, patch));
        if patch.spec_secret_service() {
            let cop = Agent { team: patch.star.team, job_description: JobDescription::Cop };
            let (start_file, end_file) = service_cop_files(patch.whither.file);
            second.with_pinfield(
                cop,
                second.pinfield_of(cop).spec_transit(
                    Locale { rank: patch.whither.rank, file: start_file },
                    Locale { rank: patch.whither.rank, file: end_file },
                ),
            )
        } else {
            second
        }
    }

    /// The commit that `apply` makes of `patch`.
    pub open spec fn spec_apply(self, patch: Patch) -> Commit {
        let opposition = self.initiative.spec_opposition();
        let hospitalization = self.spec_hospitalization(patch);
        let target = self.ambulance_target(patch);
        let moved = self.moved(patch);
        let treated = match hospitalization {
            Some(stunned) => moved.with_pinfield(
                stunned,
                moved.pinfield_of(stunned).spec_quench(target),
            ),
            None => moved,
        };
        let passing_by = if patch.star.job_description == JobDescription::Servant && (
        patch.rank_shift() == 2 || patch.rank_shift() == -2) {
            patch.whence.spec_displace(forward(patch.star.team))
        } else {
            None
        };
        Commit {
            patch,
            tree: WorldState { initiative: opposition, passing_by_locale: passing_by, ..treated },
            hospitalization,
            ascension: None,
        }
    }
}

/// Where the figurines of each kind start, pin by pin.
proof fn lemma_starting_pins(i: u64)
    by (bit_vector)
    requires
        i < 64,
    ensures
        pin_at(0xff00u64, i) == (8 <= i && i < 16),
        pin_at(0x00ff_0000_0000_0000u64, i) == (48 <= i && i < 56),
        pin_at(0x42u64, i) == (i == 1 || i == 6),
        pin_at(0x4200_0000_0000_0000u64, i) == (i == 57 || i == 62),
        pin_at(0x24u64, i) == (i == 2 || i == 5),
        pin_at(0x2400_0000_0000_0000u64, i) == (i == 58 || i == 61),
        pin_at(0x81u64, i) == (i == 0 || i == 7),
        pin_at(0x8100_0000_0000_0000u64, i) == (i == 56 || i == 63),
        pin_at(0x8u64, i) == (i == 3),
        pin_at(0x0800_0000_0000_0000u64, i) == (i == 59),
        pin_at(0x10u64, i) == (i == 4),
        pin_at(0x1000_0000_0000_0000u64, i) == (i == 60),
{
}

/// A board made from two starters holds the pins of `bits` where `bits`
/// holds exactly the pins of the two.
proof fn lemma_pair_board(board: Pinfield, starters: Seq<Locale>, bits: u64)
    requires
        starters.len() == 2,
        forall|i: u64|
            i < 64 ==> (pin_at(board.0, i) <==> exists|k: int|
                0 <= k < starters.len() && (#[trigger] starters[k]).index() == i),
        forall|i: u64|
            i < 64 ==> pin_at(bits, i) == (i == starters[0].index() || i == starters[1].index()),
    ensures
        board.0 == bits,
{
    assert forall|i: u64| i < 64 implies pin_at(board.0, i) == pin_at(bits, i) by {
        if pin_at(board.0, i) {
            let k = choose|k: int| 0 <= k < starters.len() && (#[trigger] starters[k]).index() == i;
            assert(k == 0 || k == 1);
        }
        if i == starters[0].index() {
            assert(starters[0].index() == i);
        }
        if i == starters[1].index() {
            assert(starters[1].index() == i);
        }
    }
    lemma_pins_determine(board.0, bits);
}

/// A board made from one starter holds the pins of `bits` where `bits`
/// holds exactly its pin.
proof fn lemma_single_board(board: Pinfield, starters: Seq<Locale>, bits: u64)
    requires
        starters.len() == 1,
        forall|i: u64|
            i < 64 ==> (pin_at(board.0, i) <==> exists|k: int|
                0 <= k < starters.len() && (#[trigger] starters[k]).index() == i),
        forall|i: u64| i < 64 ==> pin_at(bits, i) == (i == starters[0].index()),
    ensures
        board.0 == bits,
{
    assert forall|i: u64| i < 64 implies pin_at(board.0, i) == pin_at(bits, i) by {
        if i == starters[0].index() {
            assert(starters[0].index() == i);
        }
    }
    lemma_pins_determine(board.0, bits);
}

/// A board made from the eight locales of rank `rank` holds the pins of
/// `bits` where `bits` holds exactly that rank.
proof fn lemma_rank_board(board: Pinfield, starters: Seq<Locale>, rank: u8, bits: u64)
    requires
        rank < 8,
        starters.len() == 8,
        forall|k: int| 0 <= k < 8 ==> #[trigger] starters[k] == (Locale { rank, file: k as u8 }),
        forall|i: u64|
            i < 64 ==> (pin_at(board.0, i) <==> exists|k: int|
                0 <= k < starters.len() && (#[trigger] starters[k]).index() == i),
        forall|i: u64| i < 64 ==> pin_at(bits, i) == (8 * rank <= i && i < 8 * rank + 8),
    ensures
        board.0 == bits,
{
    assert forall|i: u64| i < 64 implies pin_at(board.0, i) == pin_at(bits, i) by {
        if 8 * rank <= i && i < 8 * rank + 8 {
            let k = i - 8 * rank;
            assert(starters[k as int].index() == i);
        }
        if pin_at(board.0, i) {
            let k = choose|k: int| 0 <= k < starters.len() && (#[trigger] starters[k]).index() == i;
            assert(starters[k] == (Locale { rank, file: k as u8 }));
        }
    }
    lemma_pins_determine(board.0, bits);
}

impl Default for WorldState {
    /// The world at the start of a game, built locale by locale.
    fn default() -> (world: Self)
        ensures
            world == WorldState::spec_new(),
    {
        let mut orange_servant_locales: Vec<Locale> = Vec::new();
        let mut blue_servant_locales: Vec<Locale> = Vec::new();
        let mut f: u8 = 0;
        while f < 8
            invariant
                f <= 8,
                orange_servant_locales@.len() == f,
                blue_servant_locales@.len() == f,
                forall|k: int|
                    0 <= k < f ==> #[trigger] orange_servant_locales@[k] == (Locale {
                        rank: 1,
                        file: k as u8,
                    }),
                forall|k: int|
                    0 <= k < f ==> #[trigger] blue_servant_locales@[k] == (Locale {
                        rank: 6,
                        file: k as u8,
                    }),
            decreases 8 - f,
        {
            orange_servant_locales.push(Locale::new(1, f));
            blue_servant_locales.push(Locale::new(6, f));
            f += 1;
        }
        let orange_ponies = [Locale::new(0, 1), Locale::new(0, 6)];
        let orange_scholars = [Locale::new(0, 2), Locale::new(0, 5)];
        let orange_cops = [Locale::new(0, 0), Locale::new(0, 7)];
        let orange_princesses = [Locale::new(0, 3)];
        let orange_figurehead = [Locale::new(0, 4)];
        let blue_ponies = [Locale::new(7, 1), Locale::new(7, 6)];
        let blue_scholars = [Locale::new(7, 2), Locale::new(7, 5)];
        let blue_cops = [Locale::new(7, 0), Locale::new(7, 7)];
        let blue_princesses = [Locale::new(7, 3)];
        let blue_figurehead = [Locale::new(7, 4)];
        let world = WorldState {
            initiative: Team::Orange,
            orange_servants: Pinfield::init(orange_servant_locales.as_slice()),
            orange_ponies: Pinfield::init(&orange_ponies),
            orange_scholars: Pinfield::init(&orange_scholars),
            orange_cops: Pinfield::init(&orange_cops),
            orange_princesses: Pinfield::init(&orange_princesses),
            orange_figurehead: Pinfield::init(&orange_figurehead),
            blue_servants: Pinfield::init(blue_servant_locales.as_slice()),
            blue_ponies: Pinfield::init(&blue_ponies),
            blue_scholars: Pinfield::init(&blue_scholars),
            blue_cops: Pinfield::init(&blue_cops),
            blue_princesses: Pinfield::init(&blue_princesses),
            blue_figurehead: Pinfield::init(&blue_figurehead),
            service_eligibility: 0b1111,
            passing_by_locale: None,
        };
        proof {
            assert forall|i: u64| i < 64 implies {
                &&& pin_at(0xff00u64, i) == (8 <= i && i < 16)
                &&& pin_at(0x00ff_0000_0000_0000u64, i) == (48 <= i && i < 56)
                &&& pin_at(0x42u64, i) == (i == 1 || i == 6)
                &&& pin_at(0x4200_0000_0000_0000u64, i) == (i == 57 || i == 62)
                &&& pin_at(0x24u64, i) == (i == 2 || i == 5)
                &&& pin_at(0x2400_0000_0000_0000u64, i) == (i == 58 || i == 61)
                &&& pin_at(0x81u64, i) == (i == 0 || i == 7)
                &&& pin_at(0x8100_0000_0000_0000u64, i) == (i == 56 || i == 63)
                &&& pin_at(0x8u64, i) == (i == 3)
                &&& pin_at(0x0800_0000_0000_0000u64, i) == (i == 59)
                &&& pin_at(0x10u64, i) == (i == 4)
                &&& pin_at(0x1000_0000_0000_0000u64, i) == (i == 60)
            } by {
                lemma_starting_pins(i);
            }
            lemma_rank_board(world.orange_servants, orange_servant_locales@, 1, 0xff00);
            lemma_rank_board(world.blue_servants, blue_servant_locales@, 6, 0x00ff_0000_0000_0000);
            lemma_pair_board(world.orange_ponies, orange_ponies@, 0x42);
            lemma_pair_board(world.orange_scholars, orange_scholars@, 0x24);
            lemma_pair_board(world.orange_cops, orange_cops@, 0x81);
            lemma_single_board(world.orange_princesses, orange_princesses@, 0x8);
            lemma_single_board(world.orange_figurehead, orange_figurehead@, 0x10);
            lemma_pair_board(world.blue_ponies, blue_ponies@, 0x4200_0000_0000_0000);
            lemma_pair_board(world.blue_scholars, blue_scholars@, 0x2400_0000_0000_0000);
            lemma_pair_board(world.blue_cops, blue_cops@, 0x8100_0000_0000_0000);
            lemma_single_board(world.blue_princesses, blue_princesses@, 0x0800_0000_0000_0000);
            lemma_single_board(world.blue_figurehead, blue_figurehead@, 0x1000_0000_0000_0000);
        }
        world
    }
}

impl WorldState {
    pub fn apply(&self, patch: Patch) -> (commit: Commit)
        requires
            self.apply_defined(patch),
        ensures
            commit == self.spec_apply(patch),
    {
        proof {
            crate::space::lemma_signed_cast(patch.whence.file);
            crate::space::lemma_signed_cast(patch.whither.file);
            crate::space::lemma_signed_cast(patch.whence.rank);
            crate::space::lemma_signed_cast(patch.whither.rank);
        }
        // subboard of moving figurine
        let backstory = self.agent_to_pinfield_ref(patch.star);
        // subboard of moving figurine after move
        let derived_subboard = backstory.transit(patch.whence, patch.whither);
        // insert subboard into post-patch world-model
        let mut tree = self.except_replaced_subboard(patch.star, derived_subboard);
        match patch.star.job_description {
            JobDescription::Figurehead => {
                match patch.star.team {
                    Team::Orange => {
                        tree.clear_orange_east_service_eligibility();
                        tree.clear_orange_west_service_eligibility();
                    },
                    Team::Blue => {
                        tree.clear_blue_east_service_eligibility();
                        tree.clear_blue_west_service_eligibility();
                    },
                }
            },
            JobDescription::Cop => {
                match (patch.whence.file, patch.star.team) {
                    (0, Team::Orange) => {
                        tree.clear_orange_west_service_eligibility();
                    },
                    (7, Team::Orange) => {
                        tree.clear_orange_east_service_eligibility();
                    },
                    (0, Team::Blue) => {
                        tree.clear_blue_west_service_eligibility();
                    },
                    (7, Team::Blue) => {
                        tree.clear_blue_east_service_eligibility();
                    },
                    _ => {},
                }
            },
            _ => {},
        }
        if patch.concerns_secret_service() {
            let cop_agent = Agent::new(patch.star.team, JobDescription::Cop);
            let (start_file, end_file) = if patch.whither.file == 6 {
                (7u8, 5u8)
            } else {
                (0u8, 3u8)
            };
            let secret_derived_subboard = tree.agent_to_pinfield_ref(cop_agent).transit(
                Locale::new(patch.whither.rank, start_file),
                Locale::new(patch.whither.rank, end_file),
            );
            tree = tree.except_replaced_subboard(cop_agent, secret_derived_subboard);
        }
        assert(tree == self.moved(patch));
        // was anyone stunned?
        let opposition = tree.initiative.opposition();
        let mut hospitalization = self.occupying_affiliated_agent(patch.whither, opposition);
        let mut ambulance_target = patch.whither;
        if hospitalization.is_none() && patch.star.job_description == JobDescription::Servant {
            if let Some(passed_by) = self.passing_by_locale {
                if passed_by == patch.whither {
                    let direction = match opposition {
                        Team::Orange => (1i8, 0i8),
                        Team::Blue => (-1i8, 0i8),
                    };
                    ambulance_target = passed_by.displace(direction).unwrap();
                    hospitalization = self.occupying_affiliated_agent(
                        ambulance_target,
                        opposition,
                    );
                }
            }
        }
        assert(ambulance_target == self.ambulance_target(patch));
        assert(hospitalization == self.spec_hospitalization(patch));
        if let Some(stunned) = hospitalization {
            // if someone was stunned, put her or him in the hospital
            let further_derived_subboard = tree.agent_to_pinfield_ref(stunned).quench(
                ambulance_target,
            );
            tree = tree.except_replaced_subboard(stunned, further_derived_subboard);
        }
        tree.initiative = opposition;
        let rank_shift: i8 = patch.whither.rank as i8 - patch.whence.rank as i8;
        if patch.star.job_description == JobDescription::Servant && (rank_shift == 2 || rank_shift
            == -2) {
            let direction = match patch.star.team {
                Team::Orange => (1i8, 0i8),
                Team::Blue => (-1i8, 0i8),
            };
            tree.passing_by_locale = patch.whence.displace(direction);
        } else {
            tree.passing_by_locale = None;
        }
        Commit { patch, tree, hospitalization, ascension: None }
    }
}

/// Setting or clearing one eligibility changes that one and no other.
pub proof fn law_eligibility(world: WorldState, team: Team, west: bool, probe_team: Team, probe_west: bool)
    ensures
        world.with_eligibility(world.service_eligibility | eligibility_bit(team, west)).eligible(
            probe_team,
            probe_west,
        ) == ((probe_team == team && probe_west == west) || world.eligible(probe_team, probe_west)),
        world.with_eligibility(world.service_eligibility & !eligibility_bit(team, west)).eligible(
            probe_team,
            probe_west,
        ) == (!(probe_team == team && probe_west == west) && world.eligible(probe_team, probe_west)),
{
    lemma_eligibility_bits(world.service_eligibility, team, west, probe_team, probe_west);
}

/// Replacing the pinfield of an agent: reading it back gives the new one,
/// and no other pinfield changes.
pub proof fn law_replace_subboard(world: WorldState, agent: Agent, field: Pinfield, other: Agent)
    ensures
        world.with_pinfield(agent, field).pinfield_of(agent) == field,
        other != agent ==> world.with_pinfield(agent, field).pinfield_of(other)
            == world.pinfield_of(other),
        world.with_pinfield(agent, field).initiative == world.initiative,
        world.with_pinfield(agent, field).service_eligibility == world.service_eligibility,
        world.with_pinfield(agent, field).passing_by_locale == world.passing_by_locale,
{
}

} // verus!
