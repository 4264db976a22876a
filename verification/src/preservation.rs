//! Preservation runes: writing a world down as a line of text and reading
//! it back.
use vstd::prelude::*;
use crate::identity::{Agent, Team, agent_of_rune};
use crate::life::{WorldState, ORANGE_EAST_ELIGIBILITY, ORANGE_WEST_ELIGIBILITY, BLUE_EAST_ELIGIBILITY, BLUE_WEST_ELIGIBILITY};
use crate::script::{digit_rune, digit_to_rune, push_rune, rune_at, rune_count, rune_to_byte};
use crate::space::{Locale, algebraic_readable, read_algebraic};

verus! {

/// The digit of a run of vacant locales, where there is one.
pub open spec fn run_runes(run: nat) -> Seq<char> {
    if run > 0 {
        seq![digit_rune(run as int)]
    } else {
        Seq::empty()
    }
}

/// The eligibility runes, in the order in which they are written.
pub open spec fn eligibility_runes(world: WorldState) -> Seq<char> {
    let runes = (if world.eligible(Team::Orange, false) {
        seq!['K']
    } else {
        Seq::empty()
    }) + (if world.eligible(Team::Orange, true) {
        seq!['Q']
    } else {
        Seq::empty()
    }) + (if world.eligible(Team::Blue, false) {
        seq!['k']
    } else {
        Seq::empty()
    }) + (if world.eligible(Team::Blue, true) {
        seq!['q']
    } else {
        Seq::empty()
    });
    if runes.len() == 0 {
        seq!['-']
    } else {
        runes
    }
}

impl WorldState {
    /// The runes of rank `rank` from file `file` on, `run` vacant locales
    /// having been passed over just before: each figurine's preservation
    /// rune, each run of vacant locales as its length.
    pub open spec fn rank_book(self, rank: u8, file: nat, run: nat) -> Seq<char>
        decreases 8 - file,
    {
        if file >= 8 {
            run_runes(run)
        } else {
            match self.any_occupant(Locale { rank, file: file as u8 }) {
                Some(agent) => run_runes(run).push(agent.preservation_rune()) + self.rank_book(
                    rank,
                    file + 1,
                    0,
                ),
                None => self.rank_book(rank, file + 1, run + 1),
            }
        }
    }

    /// The runes of the ranks from `rank` down to the first, separated by '/'.
    pub open spec fn board_book(self, rank: int) -> Seq<char>
        decreases rank + 1,
    {
        if rank < 0 {
            Seq::empty()
        } else if rank == 0 {
            self.rank_book(0, 0, 0)
        } else {
            self.rank_book(rank as u8, 0, 0).push('/') + self.board_book(rank - 1)
        }
    }

    /// The preservation runes of the world: the board from the eighth rank
    /// down, whose turn it is ('w' for Orange, 'b' for Blue), the secret
    /// services still possible ('-' for none) and the passing-by locale ('-' for none).
    pub open spec fn spec_preserve(self) -> Seq<char> {
        self.board_book(7) + seq![' ', if self.initiative == Team::Orange {
            'w'
        } else {
            'b'
        }, ' '] + eligibility_runes(self) + seq![' '] + match self.passing_by_locale {
            Some(locale) => locale.algebraic(),
            None => seq!['-'],
        }
    }

    /// `preserve` can name the passing-by locale.
    pub open spec fn preservable(self) -> bool {
        match self.passing_by_locale {
            Some(locale) => locale.file < 8 && locale.rank < 255,
            None => true,
        }
    }
}

fn push_run(book: &mut String, counter: &mut u8)
    requires
        *old(counter) <= 8,
    ensures
        final(book)@ == old(book)@ + run_runes(*old(counter) as nat),
        *final(counter) == 0,
{
    if *counter > 0 {
        push_rune(book, digit_to_rune(*counter));
    } else {
        assert(old(book)@ + Seq::<char>::empty() =~= old(book)@);
    }
    *counter = 0;
}

impl WorldState {
    fn preserve_rank(&self, book: &mut String, rank: u8)
        requires
            rank < 8,
        ensures
            final(book)@ == old(book)@ + self.rank_book(rank, 0, 0),
    {
        let ghost at_rank_start = book@;
        let mut void_run_length: u8 = 0;
        let mut file: u8 = 0;
        while file < 8
            invariant
                rank < 8,
                file <= 8,
                void_run_length <= file,
                book@ + self.rank_book(rank, file as nat, void_run_length as nat) == at_rank_start
                    + self.rank_book(rank, 0, 0),
            decreases 8 - file,
        {
            let agent_maybe = self.occupying_agent(Locale::new(rank, file));
            match agent_maybe {
                Some(agent) => {
                    let ghost before = book@;
                    let ghost run = void_run_length as nat;
                    push_run(book, &mut void_run_length);
                    push_rune(book, agent.to_preservation_rune());
                    assert(book@ + self.rank_book(rank, (file + 1) as nat, 0) =~= before
                        + self.rank_book(rank, file as nat, run));
                },
                None => {
                    void_run_length += 1;
                },
            }
            file += 1;
        }
        push_run(book, &mut void_run_length);
        assert(book@ =~= at_rank_start + self.rank_book(rank, 0, 0));
    }

    fn preserve_board(&self, book: &mut String)
        ensures
            final(book)@ == old(book)@ + self.board_book(7),
    {
        let ghost start = book@;
        let mut rank: u8 = 8;
        while rank > 0
            invariant
                rank <= 8,
                book@ + self.board_book(rank - 1) == start + self.board_book(7),
            decreases rank,
        {
            rank -= 1;
            let ghost at_rank_start = book@;
            self.preserve_rank(book, rank);
            if rank > 0 {
                push_rune(book, '/');
            }
            assert(book@ + self.board_book(rank - 1) =~= at_rank_start + self.board_book(
                rank as int,
            ));
        }
        assert(book@ =~= start + self.board_book(7));
    }

    fn preserve_eligibility(&self, book: &mut String)
        ensures
            final(book)@ == old(book)@ + eligibility_runes(*self),
    {
        let mut any_service = false;
        if self.orange_east_service_eligibility() {
            push_rune(book, 'K');
            if !any_service {
                any_service = true;
            }
        }
        if self.orange_west_service_eligibility() {
            push_rune(book, 'Q');
            if !any_service {
                any_service = true;
            }
        }
        if self.blue_east_service_eligibility() {
            push_rune(book, 'k');
            if !any_service {
                any_service = true;
            }
        }
        if self.blue_west_service_eligibility() {
            push_rune(book, 'q');
            if !any_service {
                any_service = true;
            }
        }
        if !any_service {
            push_rune(book, '-');
        }
        assert(book@ =~= old(book)@ + eligibility_runes(*self));
    }

    /// Whether `preserve` can write the world down.
    pub fn is_preservable(&self) -> (ok: bool)
        ensures
            ok == self.preservable(),
    {
        match self.passing_by_locale {
            Some(locale) => locale.file < 8 && locale.rank < 255,
            None => true,
        }
    }

    pub fn preserve(&self) -> (book: String)
        requires
            self.preservable(),
        ensures
            book@ == self.spec_preserve(),
    {
        let mut book = String::new();
        self.preserve_board(&mut book);
        let initiative_indication_rune = match self.initiative {
            Team::Orange => 'w',
            Team::Blue => 'b',
        };
        push_rune(&mut book, ' ');
        push_rune(&mut book, initiative_indication_rune);
        push_rune(&mut book, ' ');
        self.preserve_eligibility(&mut book);
        push_rune(&mut book, ' ');
        let ghost before_passing = book@;
        match self.passing_by_locale {
            Some(locale) => {
                let name = locale.to_algebraic();
                let count = rune_count(name.as_str());
                let mut k: usize = 0;
                while k < count
                    invariant
                        k <= count,
                        count == name@.len(),
                        book@ == before_passing + name@.take(k as int),
                    decreases count - k,
                {
                    push_rune(&mut book, rune_at(name.as_str(), k));
                    assert(name@.take(k + 1) =~= name@.take(k as int).push(name@[k as int]));
                    k += 1;
                }
                assert(name@.take(count as int) =~= name@);
            },
            None => {
                push_rune(&mut book, '-');
            },
        }
        assert(book@ =~= self.spec_preserve());
        book
    }
}


/// The separators of the volumes of preservation runes: ' ', and 'X', which is read as ' '.
pub open spec fn is_separator(rune: char) -> bool {
    rune == ' ' || rune == 'X'
}

/// The volumes of `runes`: the pieces between separators, empty ones included.
pub open spec fn volumes(runes: Seq<char>) -> Seq<Seq<char>>
    decreases runes.len(),
{
    if runes.len() == 0 {
        seq![Seq::empty()]
    } else {
        let earlier = volumes(runes.drop_last());
        if is_separator(runes.last()) {
            earlier.push(Seq::empty())
        } else {
            earlier.update(earlier.len() - 1, earlier.last().push(runes.last()))
        }
    }
}

pub proof fn lemma_volumes_nonempty(runes: Seq<char>)
    ensures
        volumes(runes).len() >= 1,
    decreases runes.len(),
{
    if runes.len() > 0 {
        lemma_volumes_nonempty(runes.drop_last());
    }
}

/// A rune that counts vacant locales: '0' to '8'.
pub open spec fn is_count_rune(rune: char) -> bool {
    48 <= rune as int <= 56
}

pub open spec fn count_value(rune: char) -> int {
    rune as int - 48
}

/// The world, rank and file after reading one rune of the board.
pub open spec fn place_step(state: (WorldState, int, int), rune: char) -> (WorldState, int, int) {
    let (world, rank, file) = state;
    if rune == '/' {
        (world, rank - 1, 0)
    } else if is_count_rune(rune) {
        (world, rank, file + count_value(rune))
    } else {
        let agent = agent_of_rune(rune).unwrap();
        (
            world.with_pinfield(
                agent,
                world.pinfield_of(agent).spec_alight(Locale { rank: rank as u8, file: file as u8 }),
            ),
            rank,
            file + 1,
        )
    }
}

/// Reading `rune` at `state` neither panics nor overflows: a '/' must leave
/// a rank below, a count must keep the file within a byte, and any other
/// rune must name an agent and a locale with a pin.
pub open spec fn step_ok(state: (WorldState, int, int), rune: char) -> bool {
    let (world, rank, file) = state;
    if rune == '/' {
        rank >= 1
    } else if is_count_rune(rune) {
        file + count_value(rune) <= 255
    } else {
        agent_of_rune(rune) is Some && 8 * rank + file < 64 && file + 1 <= 255
    }
}

/// The world, rank and file after reading the board runes `runes` from `state`.
pub open spec fn place_from(state: (WorldState, int, int), runes: Seq<char>) -> (WorldState, int, int)
    decreases runes.len(),
{
    if runes.len() == 0 {
        state
    } else {
        place_step(place_from(state, runes.drop_last()), runes.last())
    }
}

/// Reading the board runes `runes` from `state` neither panics nor overflows.
pub open spec fn placeable_from(state: (WorldState, int, int), runes: Seq<char>) -> bool
    decreases runes.len(),
{
    runes.len() == 0 || (placeable_from(state, runes.drop_last()) && step_ok(
        place_from(state, runes.drop_last()),
        runes.last(),
    ))
}

/// Reading starts from the empty world, on the eighth rank, at the first file.
pub open spec fn board_start() -> (WorldState, int, int) {
    (WorldState::spec_empty(), 7, 0)
}

/// The world, rank and file after reading the board runes `runes`.
pub open spec fn place_runes(runes: Seq<char>) -> (WorldState, int, int) {
    place_from(board_start(), runes)
}

pub open spec fn placeable(runes: Seq<char>) -> bool {
    placeable_from(board_start(), runes)
}

pub proof fn lemma_placeable_prefix(state: (WorldState, int, int), runes: Seq<char>, k: int)
    requires
        placeable_from(state, runes),
        0 <= k <= runes.len(),
    ensures
        placeable_from(state, runes.take(k)),
    decreases runes.len(),
{
    if k == runes.len() {
        assert(runes.take(k) =~= runes);
    } else {
        lemma_placeable_prefix(state, runes.drop_last(), k);
        assert(runes.drop_last().take(k) =~= runes.take(k));
    }
}

pub proof fn lemma_place_ranges(runes: Seq<char>)
    requires
        placeable(runes),
    ensures
        0 <= place_runes(runes).1 <= 7,
        0 <= place_runes(runes).2 <= 255,
        place_runes(runes).0.service_eligibility == 0,
        place_runes(runes).0.passing_by_locale is None,
        place_runes(runes).0.initiative == Team::Orange,
    decreases runes.len(),
{
    if runes.len() > 0 {
        lemma_place_ranges(runes.drop_last());
    }
}

/// The eligibility byte after reading the eligibility runes `runes` onto `e`:
/// 'K', 'Q', 'k', 'q' set the Orange east, Orange west, Blue east and Blue
/// west eligibilities; '-' ends the reading.
pub open spec fn eligibility_of(runes: Seq<char>, e: u8) -> u8
    decreases runes.len(),
{
    if runes.len() == 0 {
        e
    } else {
        let rest = runes.subrange(1, runes.len() as int);
        if runes[0] == 'K' {
            eligibility_of(rest, e | ORANGE_EAST_ELIGIBILITY)
        } else if runes[0] == 'Q' {
            eligibility_of(rest, e | ORANGE_WEST_ELIGIBILITY)
        } else if runes[0] == 'k' {
            eligibility_of(rest, e | BLUE_EAST_ELIGIBILITY)
        } else if runes[0] == 'q' {
            eligibility_of(rest, e | BLUE_WEST_ELIGIBILITY)
        } else {
            e
        }
    }
}

/// Every eligibility rune before the first '-' is one of 'K', 'Q', 'k', 'q'.
pub open spec fn eligibility_readable(runes: Seq<char>) -> bool
    decreases runes.len(),
{
    runes.len() == 0 || runes[0] == '-' || ((runes[0] == 'K' || runes[0] == 'Q' || runes[0] == 'k'
        || runes[0] == 'q') && eligibility_readable(runes.subrange(1, runes.len() as int)))
}

/// The preservation runes that `reconstruct` reads without panicking: at
/// least four volumes; a readable board; 'w' or 'b' first in the second
/// volume; readable eligibilities; and '-' or a readable locale.
pub open spec fn reconstructable(runes: Seq<char>) -> bool {
    let v = volumes(runes);
    &&& v.len() >= 4
    &&& placeable(v[0])
    &&& v[1].len() >= 1
    &&& (v[1][0] == 'w' || v[1][0] == 'b')
    &&& eligibility_readable(v[2])
    &&& (v[3] == seq!['-'] || algebraic_readable(v[3]))
}

/// The world that `reconstruct` reads from `runes`.
pub open spec fn spec_reconstruct(runes: Seq<char>) -> WorldState {
    let v = volumes(runes);
    let board = place_runes(v[0]).0;
    WorldState {
        initiative: if v[1][0] == 'w' {
            Team::Orange
        } else {
            Team::Blue
        },
        service_eligibility: eligibility_of(v[2], 0),
        passing_by_locale: if v[3] == seq!['-'] {
            None
        } else {
            Some(read_algebraic(v[3]))
        },
        ..board
    }
}

/// The volumes of `scan`.
fn split_volumes(scan: &str) -> (pieces: Vec<Vec<char>>)
    ensures
        pieces@.len() == volumes(scan@).len(),
        forall|k: int| 0 <= k < pieces@.len() ==> (#[trigger] pieces@[k])@ == volumes(scan@)[k],
{
    let count = rune_count(scan);
    let mut done: Vec<Vec<char>> = Vec::new();
    let mut current: Vec<char> = Vec::new();
    let mut i: usize = 0;
    while i < count
        invariant
            i <= count,
            count == scan@.len(),
            done@.len() + 1 == volumes(scan@.take(i as int)).len(),
            forall|k: int|
                0 <= k < done@.len() ==> (#[trigger] done@[k])@ == volumes(scan@.take(i as int))[k],
            current@ == volumes(scan@.take(i as int)).last(),
        decreases count - i,
    {
        let rune = rune_at(scan, i);
        proof {
            lemma_volumes_nonempty(scan@.take(i as int));
            assert(scan@.take(i + 1).drop_last() =~= scan@.take(i as int));
            assert(scan@.take(i + 1).last() == rune);
        }
        if rune == ' ' || rune == 'X' {
            let finished = current;
            done.push(finished);
            current = Vec::new();
            assert(current@ =~= Seq::<char>::empty());
        } else {
            current.push(rune);
        }
        i += 1;
    }
    assert(scan@.take(count as int) =~= scan@);
    done.push(current);
    done
}

/// Whether the board runes `runes` can be read: walks the ranks and files
/// as `reconstruct` does, without placing anyone.
fn board_readable(runes: &Vec<char>) -> (ok: bool)
    ensures
        ok == placeable(runes@),
{
    let mut rank: u8 = 7;
    let mut file: u8 = 0;
    let mut i: usize = 0;
    while i < runes.len()
        invariant
            i <= runes@.len(),
            placeable(runes@.take(i as int)),
            rank as int == place_runes(runes@.take(i as int)).1,
            file as int == place_runes(runes@.take(i as int)).2,
        decreases runes@.len() - i,
    {
        let rune = runes[i];
        let ghost before = runes@.take(i as int);
        let ghost rank_before = rank;
        let ghost file_before = file;
        proof {
            assert(runes@.take(i + 1).drop_last() =~= before);
            assert(runes@.take(i + 1).last() == rune);
            lemma_place_ranges(before);
        }
        if rune == '/' {
            if rank < 1 {
                proof {
                    assert(!placeable(runes@.take(i + 1)));
                    if placeable(runes@) {
                        lemma_placeable_prefix(board_start(), runes@, i + 1);
                    }
                }
                return false;
            }
            file = 0;
            rank -= 1;
        } else if '0' <= rune && rune <= '8' {
            let file_offset = rune_to_byte(rune) - 48;
            if file as u32 + file_offset as u32 > 255 {
                proof {
                    assert(!placeable(runes@.take(i + 1)));
                    if placeable(runes@) {
                        lemma_placeable_prefix(board_start(), runes@, i + 1);
                    }
                }
                return false;
            }
            file += file_offset;
        } else {
            let known = Agent::from_rune(rune).is_some();
            if !known || 8 * (rank as u32) + (file as u32) >= 64 || file == 255 {
                proof {
                    assert(!placeable(runes@.take(i + 1)));
                    if placeable(runes@) {
                        lemma_placeable_prefix(board_start(), runes@, i + 1);
                    }
                }
                return false;
            }
            file += 1;
        }
        proof {
            let after = runes@.take(i + 1);
            assert(place_runes(before).1 == rank_before && place_runes(before).2 == file_before);
            assert(step_ok(place_runes(before), rune));
        }
        i += 1;
    }
    assert(runes@.take(runes@.len() as int) =~= runes@);
    true
}

/// Whether the eligibility runes `runes` can be read.
fn eligibilities_readable(runes: &Vec<char>) -> (ok: bool)
    ensures
        ok == eligibility_readable(runes@),
{
    let mut i: usize = 0;
    assert(runes@.subrange(0, runes@.len() as int) =~= runes@);
    while i < runes.len()
        invariant
            i <= runes@.len(),
            eligibility_readable(runes@) == eligibility_readable(
                runes@.subrange(i as int, runes@.len() as int),
            ),
        decreases runes@.len() - i,
    {
        let rune = runes[i];
        let ghost rest = runes@.subrange(i as int, runes@.len() as int);
        assert(rest[0] == rune);
        assert(rest.subrange(1, rest.len() as int) =~= runes@.subrange(i + 1, runes@.len() as int));
        if rune == '-' {
            return true;
        }
        if !(rune == 'K' || rune == 'Q' || rune == 'k' || rune == 'q') {
            return false;
        }
        i += 1;
    }
    assert(runes@.subrange(i as int, runes@.len() as int).len() == 0);
    true
}

impl WorldState {
    /// Reads the board runes into the empty world.
    fn reconstruct_board(runes: &Vec<char>) -> (world: WorldState)
        requires
            placeable(runes@),
        ensures
            world == place_runes(runes@).0,
    {
        let mut rank: u8 = 7;
        let mut file: u8 = 0;
        let mut world = WorldState::new_except_empty();
        let mut i: usize = 0;
        while i < runes.len()
            invariant
                i <= runes@.len(),
                placeable(runes@),
                (world, rank as int, file as int) == place_runes(runes@.take(i as int)),
            decreases runes@.len() - i,
        {
            let rune = runes[i];
            proof {
                lemma_placeable_prefix(board_start(), runes@, i + 1);
                assert(runes@.take(i + 1).drop_last() =~= runes@.take(i as int));
                assert(runes@.take(i + 1).last() == rune);
                lemma_place_ranges(runes@.take(i + 1));
            }
            let code = rune as u32;
            if rune == '/' {
                file = 0;
                rank -= 1;
            } else if 48 <= code && code <= 56 {
                let file_offset = (code - 48) as u8;
                file += file_offset;
            } else {
                let agent = Agent::from_rune(rune).unwrap();
                let derived_pinfield = world.agent_to_pinfield_ref(agent).alight(
                    Locale::new(rank, file),
                );
                world = world.except_replaced_subboard(agent, derived_pinfield);
                file += 1;
            }
            i += 1;
        }
        assert(runes@.take(runes@.len() as int) =~= runes@);
        world
    }

    /// Whether `reconstruct` can read `scan`.
    pub fn is_reconstructable(scan: &str) -> (ok: bool)
        ensures
            ok == reconstructable(scan@),
    {
        let ghost v = volumes(scan@);
        let pieces = split_volumes(scan);
        if pieces.len() < 4 {
            return false;
        }
        assert(pieces@[0]@ == v[0] && pieces@[1]@ == v[1] && pieces@[2]@ == v[2] && pieces@[3]@ == v[3]);
        if !board_readable(&pieces[0]) {
            return false;
        }
        if pieces[1].len() < 1 || !(pieces[1][0] == 'w' || pieces[1][0] == 'b') {
            return false;
        }
        if !eligibilities_readable(&pieces[2]) {
            return false;
        }
        let passing_by_runes = &pieces[3];
        if passing_by_runes.len() == 1 && passing_by_runes[0] == '-' {
            assert(passing_by_runes@ =~= seq!['-']);
            return true;
        }
        assert(passing_by_runes@ != seq!['-']);
        passing_by_runes.len() >= 2 && rune_to_byte(passing_by_runes[0]) >= 97 && rune_to_byte(
            passing_by_runes[1],
        ) >= 49
    }

    pub fn reconstruct(scan: &str) -> (world: Self)
        requires
            reconstructable(scan@),
        ensures
            world == spec_reconstruct(scan@),
    {
        let ghost v = volumes(scan@);
        let pieces = split_volumes(scan);
        assert(pieces@[0]@ == v[0] && pieces@[1]@ == v[1] && pieces@[2]@ == v[2] && pieces@[3]@ == v[3]);
        let mut world = WorldState::reconstruct_board(&pieces[0]);
        let rune_of_those_with_initiative = pieces[1][0];
        world.initiative = if rune_of_those_with_initiative == 'w' {
            Team::Orange
        } else {
            Team::Blue
        };
        let secret_service_eligibilities = &pieces[2];
        proof {
            lemma_place_ranges(v[0]);
            assert(v[2].subrange(0, v[2].len() as int) =~= v[2]);
        }
        let mut i: usize = 0;
        while i < secret_service_eligibilities.len()
            invariant
                v == volumes(scan@),
                v.len() >= 4,
                i <= v[2].len(),
                secret_service_eligibilities@ == v[2],
                eligibility_readable(v[2].subrange(i as int, v[2].len() as int)),
                eligibility_of(v[2].subrange(i as int, v[2].len() as int), world.service_eligibility)
                    == eligibility_of(v[2], 0),
                world == (WorldState {
                    initiative: world.initiative,
                    service_eligibility: world.service_eligibility,
                    ..place_runes(v[0]).0
                }),
                world.initiative == (if v[1][0] == 'w' {
                    Team::Orange
                } else {
                    Team::Blue
                }),
            ensures
                world.initiative == (if v[1][0] == 'w' {
                    Team::Orange
                } else {
                    Team::Blue
                }),
                world.service_eligibility == eligibility_of(v[2], 0),
                world == (WorldState {
                    initiative: world.initiative,
                    service_eligibility: world.service_eligibility,
                    ..place_runes(v[0]).0
                }),
            decreases v[2].len() - i,
        {
            let eligibility = secret_service_eligibilities[i];
            let ghost rest = v[2].subrange(i as int, v[2].len() as int);
            assert(rest.subrange(1, rest.len() as int) =~= v[2].subrange(i + 1, v[2].len() as int));
            assert(rest[0] == eligibility);
            if eligibility == 'K' {
                world.set_orange_east_service_eligibility();
            } else if eligibility == 'Q' {
                world.set_orange_west_service_eligibility();
            } else if eligibility == 'k' {
                world.set_blue_east_service_eligibility();
            } else if eligibility == 'q' {
                world.set_blue_west_service_eligibility();
            } else {
                break;
            }
            i += 1;
        }
        proof {
            assert(v[2].subrange(0, v[2].len() as int) =~= v[2]);
        }
        let passing_by_runes = &pieces[3];
        if passing_by_runes.len() == 1 && passing_by_runes[0] == '-' {
            assert(passing_by_runes@ =~= seq!['-']);
            world.passing_by_locale = None;
        } else {
            assert(passing_by_runes@ != seq!['-']);
            let mut notation = String::new();
            let mut k: usize = 0;
            while k < passing_by_runes.len()
                invariant
                    k <= passing_by_runes@.len(),
                    notation@ == passing_by_runes@.take(k as int),
                decreases passing_by_runes@.len() - k,
            {
                push_rune(&mut notation, passing_by_runes[k]);
                assert(passing_by_runes@.take(k + 1) =~= passing_by_runes@.take(k as int).push(
                    passing_by_runes@[k as int],
                ));
                k += 1;
            }
            assert(passing_by_runes@.take(passing_by_runes@.len() as int) =~= passing_by_runes@);
            world.passing_by_locale = Some(Locale::from_algebraic(notation.as_str()));
        }
        world
    }
}

} // verus!
