//! Reading back the preservation runes of a world gives the world.
use vstd::prelude::*;
use crate::identity::{Agent, JobDescription, Team, agent_of_rune, law_rune_round_trip, job_order};
use crate::life::WorldState;
use crate::preservation::{place_from, placeable_from, place_step, step_ok, volumes, is_separator, run_runes, eligibility_runes, eligibility_of, reconstructable, spec_reconstruct, is_count_rune, count_value, placeable, place_runes, board_start};
use crate::script::digit_rune;
use crate::space::{Locale, pin_at, lemma_pin_union, lemma_pin_single, lemma_pin_empty, lemma_pins_determine};

verus! {

/// No locale is held by two agents.
pub open spec fn disjoint(world: WorldState) -> bool {
    forall|a: Agent, b: Agent, i: u64|
        #![trigger pin_at(world.pinfield_of(a).0, i), pin_at(world.pinfield_of(b).0, i)]
        a != b && i < 64 ==> !(pin_at(world.pinfield_of(a).0, i) && pin_at(
            world.pinfield_of(b).0,
            i,
        ))
}

/// Whether pin `i` lies on a rank above `rank`, or on `rank` before `file`.
pub open spec fn processed(i: int, rank: int, file: int) -> bool {
    i / 8 > rank || (i / 8 == rank && i % 8 < file)
}

/// `acc` holds exactly the figurines of `world` on the processed locales.
pub open spec fn partial(acc: WorldState, world: WorldState, rank: int, file: int) -> bool {
    forall|a: Agent, i: u64|
        i < 64 ==> (#[trigger] pin_at(acc.pinfield_of(a).0, i) == (pin_at(world.pinfield_of(a).0, i)
            && processed(i as int, rank, file)))
}

/// The parts of a world that reading the board leaves as in the empty world.
pub open spec fn blank_rest(acc: WorldState) -> bool {
    &&& acc.initiative == Team::Orange
    &&& acc.service_eligibility == 0
    &&& acc.passing_by_locale is None
}

pub proof fn lemma_place_concat(state: (WorldState, int, int), a: Seq<char>, b: Seq<char>)
    ensures
        place_from(state, a + b) == place_from(place_from(state, a), b),
        placeable_from(state, a + b) == (placeable_from(state, a) && placeable_from(
            place_from(state, a),
            b,
        )),
    decreases b.len(),
{
    if b.len() == 0 {
        assert(a + b =~= a);
    } else {
        lemma_place_concat(state, a, b.drop_last());
        assert((a + b).drop_last() =~= a + b.drop_last());
        assert((a + b).last() == b.last());
    }
}

pub proof fn lemma_occupant_from(world: WorldState, at: Locale, team: Team, k: nat)
    ensures
        world.occupant_from(at, team, k) matches Some(agent) ==> agent.team == team
            && world.pinfield_of(agent).holds(at),
        world.occupant_from(at, team, k) is None ==> forall|j: int|
            k <= j < 6 ==> !world.pinfield_of(#[trigger] Agent::spec_personae(team)[j]).holds(at),
    decreases 6 - k,
{
    if k < 6 {
        lemma_occupant_from(world, at, team, k + 1);
    }
}

/// Every agent of a team is among its personae.
pub proof fn lemma_persona_index(agent: Agent)
    ensures
        exists|j: int| 0 <= j < 6 && Agent::spec_personae(agent.team)[j] == agent,
{
    let personae = Agent::spec_personae(agent.team);
    assert(personae[0].job_description == JobDescription::Servant);
    assert(personae[1].job_description == JobDescription::Pony);
    assert(personae[2].job_description == JobDescription::Scholar);
    assert(personae[3].job_description == JobDescription::Cop);
    assert(personae[4].job_description == JobDescription::Princess);
    assert(personae[5].job_description == JobDescription::Figurehead);
    match agent.job_description {
        JobDescription::Servant => assert(personae[0] == agent),
        JobDescription::Pony => assert(personae[1] == agent),
        JobDescription::Scholar => assert(personae[2] == agent),
        JobDescription::Cop => assert(personae[3] == agent),
        JobDescription::Princess => assert(personae[4] == agent),
        JobDescription::Figurehead => assert(personae[5] == agent),
    }
}

/// The agent that `any_occupant` finds holds the locale; where it finds
/// none, no agent holds it.
pub proof fn lemma_any_occupant(world: WorldState, at: Locale)
    ensures
        world.any_occupant(at) matches Some(agent) ==> world.pinfield_of(agent).holds(at),
        world.any_occupant(at) is None ==> forall|agent: Agent|
            !(#[trigger] world.pinfield_of(agent)).holds(at),
{
    lemma_occupant_from(world, at, Team::Orange, 0);
    lemma_occupant_from(world, at, Team::Blue, 0);
    if world.any_occupant(at) is None {
        assert forall|agent: Agent| !(#[trigger] world.pinfield_of(agent)).holds(at) by {
            lemma_persona_index(agent);
            let j = choose|j: int| 0 <= j < 6 && Agent::spec_personae(agent.team)[j] == agent;
            assert(!world.pinfield_of(Agent::spec_personae(agent.team)[j]).holds(at));
        }
    }
}


proof fn lemma_processed_step(i: int, rank: int, file: int)
    requires
        0 <= i < 64,
        0 <= rank < 8,
        0 <= file < 8,
    ensures
        processed(i, rank, file + 1) == (processed(i, rank, file) || i == 8 * rank + file),
{
}

proof fn lemma_processed_next_rank(i: int, rank: int)
    requires
        0 <= i < 64,
        1 <= rank < 8,
    ensures
        processed(i, rank, 8) == processed(i, rank - 1, 0),
{
}

/// Placing the figurine of `agent` at the next locale extends the partial world by one file.
proof fn lemma_partial_place(acc: WorldState, world: WorldState, rank: int, file: int, agent: Agent)
    requires
        0 <= rank < 8,
        0 <= file < 8,
        disjoint(world),
        partial(acc, world, rank, file),
        world.pinfield_of(agent).holds(Locale { rank: rank as u8, file: file as u8 }),
    ensures
        partial(
            acc.with_pinfield(
                agent,
                acc.pinfield_of(agent).spec_alight(Locale { rank: rank as u8, file: file as u8 }),
            ),
            world,
            rank,
            file + 1,
        ),
{
    let here = Locale { rank: rank as u8, file: file as u8 };
    let idx = here.index() as u64;
    let next = acc.with_pinfield(agent, acc.pinfield_of(agent).spec_alight(here));
    assert forall|b: Agent, i: u64| i < 64 implies #[trigger] pin_at(next.pinfield_of(b).0, i) == (
    pin_at(world.pinfield_of(b).0, i) && processed(i as int, rank, file + 1)) by {
        lemma_processed_step(i as int, rank, file);
        assert(pin_at(acc.pinfield_of(b).0, i) == (pin_at(world.pinfield_of(b).0, i) && processed(
            i as int,
            rank,
            file,
        )));
        if b == agent {
            lemma_pin_union(acc.pinfield_of(agent).0, 1u64 << idx, i);
            lemma_pin_single(idx, i);
        } else {
            assert(next.pinfield_of(b) == acc.pinfield_of(b));
            if i == idx {
                assert(pin_at(world.pinfield_of(agent).0, i));
                assert(!pin_at(world.pinfield_of(b).0, i));
            }
        }
    }
}

/// Passing over a vacant locale extends the partial world by one file.
proof fn lemma_partial_skip(acc: WorldState, world: WorldState, rank: int, file: int)
    requires
        0 <= rank < 8,
        0 <= file < 8,
        partial(acc, world, rank, file),
        forall|agent: Agent|
            !(#[trigger] world.pinfield_of(agent)).holds(Locale { rank: rank as u8, file: file as u8 }),
    ensures
        partial(acc, world, rank, file + 1),
{
    let here = Locale { rank: rank as u8, file: file as u8 };
    assert forall|b: Agent, i: u64| i < 64 implies #[trigger] pin_at(acc.pinfield_of(b).0, i) == (
    pin_at(world.pinfield_of(b).0, i) && processed(i as int, rank, file + 1)) by {
        lemma_processed_step(i as int, rank, file);
        assert(!world.pinfield_of(b).holds(here));
    }
}

/// Reading the digit of a run of vacant locales moves the file past them.
proof fn lemma_run_parse(acc: WorldState, rank: int, file: int, run: nat)
    requires
        run <= 8,
        0 <= run <= file <= 8,
    ensures
        placeable_from((acc, rank, file - run), run_runes(run)),
        place_from((acc, rank, file - run), run_runes(run)) == (acc, rank, file),
{
    let st = (acc, rank, file - run);
    if run > 0 {
        let d = digit_rune(run as int);
        assert(d as int == 48 + run);
        assert(is_count_rune(d) && count_value(d) == run);
        assert(run_runes(run) == seq![d]);
        let text = seq![d];
        assert(text.drop_last() =~= Seq::<char>::empty());
        assert(place_from(st, text.drop_last()) == st);
        assert(placeable_from(st, text.drop_last()));
        assert(text.last() == d);
        assert(step_ok(st, d));
        assert(place_from(st, text) == place_step(st, d));
    } else {
        assert(run_runes(run) =~= Seq::<char>::empty());
    }
}

proof fn lemma_rank_parse(world: WorldState, acc: WorldState, rank: u8, file: nat, run: nat)
    requires
        disjoint(world),
        rank < 8,
        file <= 8,
        run <= file,
        partial(acc, world, rank as int, file as int),
        blank_rest(acc),
    ensures
        ({
            let st = (acc, rank as int, file - run);
            let text = world.rank_book(rank, file, run);
            let res = place_from(st, text);
            &&& placeable_from(st, text)
            &&& res.1 == rank
            &&& res.2 == 8
            &&& partial(res.0, world, rank as int, 8)
            &&& blank_rest(res.0)
        }),
    decreases 8 - file,
{
    let st = (acc, rank as int, file - run);
    if file >= 8 {
        lemma_run_parse(acc, rank as int, file as int, run);
    } else {
        let here = Locale { rank, file: file as u8 };
        lemma_any_occupant(world, here);
        match world.any_occupant(here) {
            Some(agent) => {
                let rune = agent.preservation_rune();
                let head = run_runes(run).push(rune);
                let tail = world.rank_book(rank, file + 1, 0);
                assert(world.rank_book(rank, file, run) == head + tail);
                lemma_place_concat(st, head, tail);
                lemma_run_parse(acc, rank as int, file as int, run);
                assert(head.drop_last() =~= run_runes(run));
                law_rune_round_trip(agent);
                assert(rune != '/');
                assert(!is_count_rune(rune));
                let acc2 = acc.with_pinfield(agent, acc.pinfield_of(agent).spec_alight(here));
                assert(place_from(st, head) == place_step((acc, rank as int, file as int), rune));
                assert(place_from(st, head) == (acc2, rank as int, (file + 1) as int));
                assert(step_ok((acc, rank as int, file as int), rune));
                lemma_partial_place(acc, world, rank as int, file as int, agent);
                lemma_rank_parse(world, acc2, rank, file + 1, 0);
            },
            None => {
                lemma_partial_skip(acc, world, rank as int, file as int);
                lemma_rank_parse(world, acc, rank, file + 1, run + 1);
            },
        }
    }
}


proof fn lemma_board_parse(world: WorldState, acc: WorldState, rank: int)
    requires
        disjoint(world),
        0 <= rank <= 7,
        partial(acc, world, rank, 0),
        blank_rest(acc),
    ensures
        ({
            let st = (acc, rank, 0int);
            let text = world.board_book(rank);
            let res = place_from(st, text);
            &&& placeable_from(st, text)
            &&& res.1 == 0
            &&& res.2 == 8
            &&& partial(res.0, world, 0, 8)
            &&& blank_rest(res.0)
        }),
    decreases rank,
{
    let st = (acc, rank, 0int);
    lemma_rank_parse(world, acc, rank as u8, 0, 0);
    if rank > 0 {
        let row = world.rank_book(rank as u8, 0, 0);
        let below = world.board_book(rank - 1);
        assert(world.board_book(rank) == row.push('/') + below);
        lemma_place_concat(st, row.push('/'), below);
        assert(row.push('/').drop_last() =~= row);
        let after_row = place_from(st, row);
        let acc1 = after_row.0;
        assert(place_from(st, row.push('/')) == place_step(after_row, '/'));
        assert(place_from(st, row.push('/')) == (acc1, rank - 1, 0int));
        assert forall|a: Agent, i: u64| i < 64 implies #[trigger] pin_at(acc1.pinfield_of(a).0, i)
            == (pin_at(world.pinfield_of(a).0, i) && processed(i as int, rank - 1, 0)) by {
            lemma_processed_next_rank(i as int, rank);
        }
        lemma_board_parse(world, acc1, rank - 1);
    }
}

/// Once every rank is read, the partial world holds every figurine.
proof fn lemma_board_complete(acc: WorldState, world: WorldState, agent: Agent)
    requires
        partial(acc, world, 0, 8),
    ensures
        acc.pinfield_of(agent) == world.pinfield_of(agent),
{
    assert forall|i: u64| i < 64 implies pin_at(acc.pinfield_of(agent).0, i) == pin_at(
        world.pinfield_of(agent).0,
        i,
    ) by {
        assert(processed(i as int, 0, 8));
    }
    lemma_pins_determine(acc.pinfield_of(agent).0, world.pinfield_of(agent).0);
}

/// Reading the board runes of a world whose figurines stand on distinct
/// locales gives its figurines back.
pub proof fn lemma_board_round_trip(world: WorldState)
    requires
        disjoint(world),
    ensures
        placeable(world.board_book(7)),
        forall|agent: Agent| #[trigger] place_runes(world.board_book(7)).0.pinfield_of(agent)
            == world.pinfield_of(agent),
        blank_rest(place_runes(world.board_book(7)).0),
{
    let acc = WorldState::spec_empty();
    assert forall|a: Agent, i: u64| i < 64 implies #[trigger] pin_at(acc.pinfield_of(a).0, i) == (
    pin_at(world.pinfield_of(a).0, i) && processed(i as int, 7, 0)) by {
        lemma_pin_empty(i);
    }
    lemma_board_parse(world, acc, 7);
    assert forall|agent: Agent| #[trigger] place_runes(world.board_book(7)).0.pinfield_of(agent)
        == world.pinfield_of(agent) by {
        lemma_board_complete(place_runes(world.board_book(7)).0, world, agent);
    }
}


/// No separator among the runes.
pub open spec fn plain(runes: Seq<char>) -> bool {
    forall|k: int| 0 <= k < runes.len() ==> !is_separator(#[trigger] runes[k])
}

proof fn lemma_plain_concat(a: Seq<char>, b: Seq<char>)
    requires
        plain(a),
        plain(b),
    ensures
        plain(a + b),
{
    assert forall|k: int| 0 <= k < (a + b).len() implies !is_separator(#[trigger] (a + b)[k]) by {
        if k < a.len() {
            assert((a + b)[k] == a[k]);
        } else {
            assert((a + b)[k] == b[k - a.len()]);
        }
    }
}

proof fn lemma_volumes_extend(s: Seq<char>, t: Seq<char>)
    requires
        plain(t),
    ensures
        volumes(s + t) == volumes(s).update(volumes(s).len() - 1, volumes(s).last() + t),
    decreases t.len(),
{
    crate::preservation::lemma_volumes_nonempty(s);
    if t.len() == 0 {
        assert(s + t =~= s);
        assert(volumes(s).last() + t =~= volumes(s).last());
        assert(volumes(s).update(volumes(s).len() - 1, volumes(s).last()) =~= volumes(s));
    } else {
        let shorter = t.drop_last();
        assert(plain(shorter)) by {
            assert forall|k: int| 0 <= k < shorter.len() implies !is_separator(#[trigger] shorter[k]) by {
                assert(shorter[k] == t[k]);
            }
        }
        lemma_volumes_extend(s, shorter);
        assert((s + t).drop_last() =~= s + shorter);
        assert((s + t).last() == t.last());
        assert(!is_separator(t[t.len() - 1]));
        let earlier = volumes(s + shorter);
        assert(earlier.last() == volumes(s).last() + shorter);
        assert(earlier.last().push(t.last()) =~= volumes(s).last() + t);
        assert(volumes(s + t) =~= volumes(s).update(volumes(s).len() - 1, volumes(s).last() + t));
    }
}

proof fn lemma_volumes_separate(s: Seq<char>)
    ensures
        volumes(s.push(' ')) == volumes(s).push(Seq::<char>::empty()),
{
    assert(s.push(' ').drop_last() =~= s);
}

proof fn lemma_rank_book_plain(world: WorldState, rank: u8, file: nat, run: nat)
    requires
        run <= 8,
        run <= file,
        file <= 8,
    ensures
        plain(world.rank_book(rank, file, run)),
    decreases 8 - file,
{
    let text = world.rank_book(rank, file, run);
    assert(plain(run_runes(run))) by {
        if run > 0 {
            assert(digit_rune(run as int) as int == 48 + run);
            assert(run_runes(run) =~= seq![digit_rune(run as int)]);
        } else {
            assert(run_runes(run) =~= Seq::<char>::empty());
        }
    }
    if file < 8 {
        match world.any_occupant(Locale { rank, file: file as u8 }) {
            Some(agent) => {
                law_rune_round_trip(agent);
                let rune = agent.preservation_rune();
                assert(agent_of_rune('X') is None && agent_of_rune(' ') is None);
                assert(plain(seq![rune]));
                lemma_plain_concat(run_runes(run), seq![rune]);
                assert(run_runes(run).push(rune) =~= run_runes(run) + seq![rune]);
                lemma_rank_book_plain(world, rank, file + 1, 0);
                lemma_plain_concat(run_runes(run).push(rune), world.rank_book(rank, file + 1, 0));
            },
            None => {
                lemma_rank_book_plain(world, rank, file + 1, run + 1);
            },
        }
    }
}

proof fn lemma_board_book_plain(world: WorldState, rank: int)
    ensures
        plain(world.board_book(rank)),
    decreases rank + 1,
{
    if rank == 0 {
        lemma_rank_book_plain(world, 0, 0, 0);
    } else if rank > 0 {
        lemma_rank_book_plain(world, rank as u8, 0, 0);
        lemma_board_book_plain(world, rank - 1);
        let row = world.rank_book(rank as u8, 0, 0);
        assert(plain(seq!['/']));
        lemma_plain_concat(row, seq!['/']);
        assert(row.push('/') =~= row + seq!['/']);
        lemma_plain_concat(row.push('/'), world.board_book(rank - 1));
    }
}

/// Reading the eligibility runes of a world gives its eligibility byte back.
proof fn lemma_eligibility_round_trip(world: WorldState)
    requires
        world.service_eligibility < 16,
    ensures
        eligibility_of(eligibility_runes(world), 0) == world.service_eligibility,
        crate::preservation::eligibility_readable(eligibility_runes(world)),
        plain(eligibility_runes(world)),
{
    let e = world.service_eligibility;
    let ok = world.eligible(Team::Orange, false);
    let ow = world.eligible(Team::Orange, true);
    let bk = world.eligible(Team::Blue, false);
    let bw = world.eligible(Team::Blue, true);
    let c1: Seq<char> = if ok { seq!['K'] } else { Seq::empty() };
    let c2: Seq<char> = if ow { seq!['Q'] } else { Seq::empty() };
    let c3: Seq<char> = if bk { seq!['k'] } else { Seq::empty() };
    let c4: Seq<char> = if bw { seq!['q'] } else { Seq::empty() };
    let e1: u8 = if ok { 0u8 | 2u8 } else { 0u8 };
    let e2: u8 = if ow { e1 | 1u8 } else { e1 };
    let e3: u8 = if bk { e2 | 8u8 } else { e2 };
    let e4: u8 = if bw { e3 | 4u8 } else { e3 };
    assert(e4 == e) by (bit_vector)
        requires
            e < 16u8,
            ok == (e & 2u8 > 0u8),
            ow == (e & 1u8 > 0u8),
            bk == (e & 8u8 > 0u8),
            bw == (e & 4u8 > 0u8),
            e1 == (if ok { 0u8 | 2u8 } else { 0u8 }),
            e2 == (if ow { e1 | 1u8 } else { e1 }),
            e3 == (if bk { e2 | 8u8 } else { e2 }),
            e4 == (if bw { e3 | 4u8 } else { e3 }),
    ;
    let r4 = c4;
    let r3 = c3 + c4;
    let r2 = c2 + c3 + c4;
    let r1 = c1 + c2 + c3 + c4;
    assert(eligibility_of(Seq::empty(), e4) == e4);
    assert(eligibility_of(r4, e3) == e4) by {
        if bw {
            assert(r4.subrange(1, 1) =~= Seq::<char>::empty());
        } else {
            assert(r4 =~= Seq::<char>::empty());
        }
    }
    assert(eligibility_of(r3, e2) == e4) by {
        if bk {
            assert(r3.subrange(1, r3.len() as int) =~= r4);
        } else {
            assert(r3 =~= r4);
        }
    }
    assert(eligibility_of(r2, e1) == e4) by {
        if ow {
            assert(r2.subrange(1, r2.len() as int) =~= r3);
        } else {
            assert(r2 =~= r3);
        }
    }
    assert(eligibility_of(r1, 0) == e4) by {
        if ok {
            assert(r1.subrange(1, r1.len() as int) =~= r2);
        } else {
            assert(r1 =~= r2);
        }
    }
    assert(crate::preservation::eligibility_readable(r4)) by {
        if bw {
            assert(r4.subrange(1, 1) =~= Seq::<char>::empty());
            assert(crate::preservation::eligibility_readable(r4.subrange(1, 1)));
            assert(r4[0] == 'q');
        } else {
            assert(r4.len() == 0);
        }
    }
    assert(crate::preservation::eligibility_readable(r3)) by {
        if bk {
            assert(r3.subrange(1, r3.len() as int) =~= r4);
        } else {
            assert(r3 =~= r4);
        }
    }
    assert(crate::preservation::eligibility_readable(r2)) by {
        if ow {
            assert(r2.subrange(1, r2.len() as int) =~= r3);
        } else {
            assert(r2 =~= r3);
        }
    }
    assert(crate::preservation::eligibility_readable(r1)) by {
        if ok {
            assert(r1.subrange(1, r1.len() as int) =~= r2);
        } else {
            assert(r1 =~= r2);
        }
    }
    assert(plain(r1)) by {
        assert forall|k: int| 0 <= k < r1.len() implies !is_separator(#[trigger] r1[k]) by {
            assert(r1[k] == 'K' || r1[k] == 'Q' || r1[k] == 'k' || r1[k] == 'q');
        }
    }
    assert(eligibility_runes(world) == (if r1.len() == 0 { seq!['-'] } else { r1 }));
    if r1.len() == 0 {
        assert(!ok && !ow && !bk && !bw);
        assert(e == 0u8) by (bit_vector)
            requires
                e < 16u8,
                !(e & 2u8 > 0u8),
                !(e & 1u8 > 0u8),
                !(e & 8u8 > 0u8),
                !(e & 4u8 > 0u8),
        ;
        assert(plain(seq!['-']));
    }
}


/// Writing a world down and reading it back gives the world, wherever no
/// locale is held by two agents, the eligibility byte uses only its four
/// bits, and the passing-by locale, if any, lies on the lattice.
pub proof fn law_preservation_round_trip(world: WorldState)
    requires
        disjoint(world),
        world.service_eligibility < 16,
        world.passing_by_locale matches Some(locale) ==> locale.on_board(),
    ensures
        world.preservable(),
        reconstructable(world.spec_preserve()),
        spec_reconstruct(world.spec_preserve()) == world,
{
    let board = world.board_book(7);
    let init = if world.initiative == Team::Orange {
        'w'
    } else {
        'b'
    };
    let elig = eligibility_runes(world);
    let passing = match world.passing_by_locale {
        Some(locale) => locale.algebraic(),
        None => seq!['-'],
    };
    lemma_board_book_plain(world, 7);
    lemma_eligibility_round_trip(world);
    assert(plain(seq![init]));
    assert(plain(passing) && (passing == seq!['-'] <==> world.passing_by_locale is None)) by {
        match world.passing_by_locale {
            Some(locale) => {
                crate::space::law_algebraic_round_trip(locale);
                assert(crate::script::decimal((locale.rank + 1) as nat) == seq![digit_rune((locale.rank + 1) as int)]);
                assert(passing =~= seq![crate::space::file_rune(locale.file as int), digit_rune((locale.rank + 1) as int)]);
                assert(passing.len() == 2);
            },
            None => {},
        }
    }
    let t1 = board.push(' ');
    let t2 = t1 + seq![init];
    let t3 = t2.push(' ');
    let t4 = t3 + elig;
    let t5 = t4.push(' ');
    let t6 = t5 + passing;
    assert(world.spec_preserve() =~= t6);
    lemma_volumes_extend(Seq::empty(), board);
    assert(Seq::<char>::empty() + board =~= board);
    assert(volumes(Seq::<char>::empty()) =~= seq![Seq::<char>::empty()]);
    assert(volumes(board) =~= seq![board]);
    lemma_volumes_separate(board);
    lemma_volumes_extend(t1, seq![init]);
    assert(volumes(t2) =~= seq![board, seq![init]]);
    lemma_volumes_separate(t2);
    lemma_volumes_extend(t3, elig);
    assert(volumes(t4) =~= seq![board, seq![init], elig]);
    lemma_volumes_separate(t4);
    lemma_volumes_extend(t5, passing);
    let v = volumes(t6);
    assert(v =~= seq![board, seq![init], elig, passing]);
    lemma_board_round_trip(world);
    let board_world = place_runes(board).0;
    let agent = Agent { team: Team::Orange, job_description: JobDescription::Servant };
    assert(board_world.pinfield_of(agent) == world.pinfield_of(agent));
    let agent = Agent { team: Team::Orange, job_description: JobDescription::Pony };
    assert(board_world.pinfield_of(agent) == world.pinfield_of(agent));
    let agent = Agent { team: Team::Orange, job_description: JobDescription::Scholar };
    assert(board_world.pinfield_of(agent) == world.pinfield_of(agent));
    let agent = Agent { team: Team::Orange, job_description: JobDescription::Cop };
    assert(board_world.pinfield_of(agent) == world.pinfield_of(agent));
    let agent = Agent { team: Team::Orange, job_description: JobDescription::Princess };
    assert(board_world.pinfield_of(agent) == world.pinfield_of(agent));
    let agent = Agent { team: Team::Orange, job_description: JobDescription::Figurehead };
    assert(board_world.pinfield_of(agent) == world.pinfield_of(agent));
    let agent = Agent { team: Team::Blue, job_description: JobDescription::Servant };
    assert(board_world.pinfield_of(agent) == world.pinfield_of(agent));
    let agent = Agent { team: Team::Blue, job_description: JobDescription::Pony };
    assert(board_world.pinfield_of(agent) == world.pinfield_of(agent));
    let agent = Agent { team: Team::Blue, job_description: JobDescription::Scholar };
    assert(board_world.pinfield_of(agent) == world.pinfield_of(agent));
    let agent = Agent { team: Team::Blue, job_description: JobDescription::Cop };
    assert(board_world.pinfield_of(agent) == world.pinfield_of(agent));
    let agent = Agent { team: Team::Blue, job_description: JobDescription::Princess };
    assert(board_world.pinfield_of(agent) == world.pinfield_of(agent));
    let agent = Agent { team: Team::Blue, job_description: JobDescription::Figurehead };
    assert(board_world.pinfield_of(agent) == world.pinfield_of(agent));
    match world.passing_by_locale {
        Some(locale) => {
            crate::space::law_algebraic_round_trip(locale);
        },
        None => {},
    }
    assert(spec_reconstruct(t6) == world);
}

} // verus!
