//! The Unlikely Command Integration dæmon: what it makes of each line that
//! an external driver sends, and what it answers. Reading the lines,
//! printing the answers and the search itself happen outside; here the
//! dæmon decides.
use vstd::prelude::*;
use crate::identity::Team;
use crate::life::{Commit, WorldState};
use crate::script::{rune_byte, rune_to_byte, runes_of};
use crate::space::Locale;
use crate::substrate::{is_whitespace, is_whitespace_rune, parse_u64, u64_numeral};

verus! {

/// What the dæmon does after heeding a line.
#[derive(Clone, Copy, PartialEq, Eq, Debug)]
pub enum Deed {
    /// Give its name and its author, and say that it is ready for commands.
    Introduce,
    /// Say that it is ready.
    Affirm,
    /// Nothing more.
    Abide,
    /// Stop.
    Depart,
    /// Search this many movements deep, then name the best movement.
    Deliberate(u8),
    /// Search for about this many seconds, then name the best movement.
    Ponder(usize),
}

/// The words of `runes`: its longest runs of runes that are not whitespace.
pub open spec fn words(runes: Seq<char>) -> Seq<Seq<char>>
    decreases runes.len(),
{
    if runes.len() == 0 {
        Seq::empty()
    } else {
        let earlier = words(runes.drop_last());
        let rune = runes.last();
        if is_whitespace(rune) {
            earlier
        } else if runes.len() >= 2 && !is_whitespace(runes[runes.len() - 2]) {
            earlier.update(earlier.len() - 1, earlier.last().push(rune))
        } else {
            earlier.push(seq![rune])
        }
    }
}

pub proof fn lemma_words_nonempty(runes: Seq<char>)
    requires
        runes.len() > 0,
        !is_whitespace(runes.last()),
    ensures
        words(runes).len() >= 1,
    decreases runes.len(),
{
    if runes.len() >= 2 && !is_whitespace(runes[runes.len() - 2]) {
        let shorter = runes.drop_last();
        assert(shorter.last() == runes[runes.len() - 2]);
        lemma_words_nonempty(shorter);
    }
}

/// What `str::parse::<usize>` makes of `runes`.
pub open spec fn usize_numeral(runes: Seq<char>) -> Option<usize> {
    match u64_numeral(runes) {
        Some(value) => if value <= usize::MAX {
            Some(value as usize)
        } else {
            None
        },
        None => None,
    }
}

/// The options of a "go" command, read as key and value pairs: every value
/// must be a number.
pub open spec fn options_readable(tokens: Seq<Seq<char>>) -> bool {
    &&& tokens.len() % 2 == 0
    &&& forall|k: int| 0 <= k < tokens.len() && k % 2 == 1 ==> (#[trigger] usize_numeral(
        tokens[k],
    )) is Some
}

/// The value of the last pair in `tokens` whose key is `key`, if any.
pub open spec fn option_value(tokens: Seq<Seq<char>>, key: Seq<char>) -> Option<usize>
    decreases tokens.len(),
{
    if tokens.len() < 2 {
        None
    } else {
        let n = tokens.len();
        if tokens[n - 2] == key {
            usize_numeral(tokens[n - 1])
        } else {
            option_value(tokens.take(n - 2), key)
        }
    }
}

/// The keys of the remaining time and of the increment of `team`.
pub open spec fn clock_keys(team: Team) -> (Seq<char>, Seq<char>) {
    match team {
        Team::Orange => ("wtime"@, "winc"@),
        Team::Blue => ("btime"@, "binc"@),
    }
}

/// A movement written as four runes, such as "e2e4": the first four are
/// ASCII, and each half can be read as an algebraic name.
pub open spec fn movement_readable(diff: Seq<char>) -> bool {
    &&& diff.len() >= 4
    &&& forall|k: int| 0 <= k < 4 ==> (#[trigger] diff[k]) as int <= 127
    &&& rune_byte(diff[0]) >= 97
    &&& rune_byte(diff[1]) >= 49
    &&& rune_byte(diff[2]) >= 97
    &&& rune_byte(diff[3]) >= 49
}

/// The locale named by the two runes of `diff` from `k` on.
pub open spec fn diff_locale(diff: Seq<char>, k: int) -> Locale {
    Locale { rank: (rune_byte(diff[k + 1]) - 49) as u8, file: (rune_byte(diff[k]) - 97) as u8 }
}

/// The world of the last of `premonitions` that moves from `whence` to
/// `whither`; `otherwise` where none does.
pub open spec fn last_match(
    premonitions: Seq<Commit>,
    whence: Locale,
    whither: Locale,
    otherwise: WorldState,
) -> WorldState
    decreases premonitions.len(),
{
    if premonitions.len() == 0 {
        otherwise
    } else if premonitions.last().patch.whence == whence && premonitions.last().patch.whither
        == whither {
        premonitions.last().tree
    } else {
        last_match(premonitions.drop_last(), whence, whither, otherwise)
    }
}

/// What the dæmon makes of a "go" command with options `options` in
/// `world`: a depth where one is given, else a time to think from the
/// clock of the team to move. `None` where the options cannot be read, the
/// clock is missing, no movements are left to go, or the sum overflows.
pub open spec fn spec_go(world: WorldState, options: Seq<Seq<char>>) -> Option<Deed> {
    if !options_readable(options) {
        None
    } else {
        match option_value(options, "depth"@) {
            Some(depth) => Some(Deed::Deliberate(depth as u8)),
            None => {
                let (time_key, increment_key) = clock_keys(world.initiative);
                match (option_value(options, "movestogo"@), option_value(options, time_key)) {
                    (Some(movements), Some(moments)) => {
                        let grace = match option_value(options, increment_key) {
                            Some(g) => g as int,
                            None => 0,
                        };
                        if movements == 0 || moments / movements + grace > usize::MAX {
                            None
                        } else {
                            Some(Deed::Ponder(((moments / movements + grace) / 1000) as usize))
                        }
                    },
                    _ => None,
                }
            },
        }
    }
}

/// What the dæmon makes of `line` in `world`: the world after it and the
/// deed to do. `None` where the line cannot be heeded.
pub open spec fn spec_heed(world: WorldState, line: Seq<char>) -> Option<(WorldState, Deed)> {
    if line == "uci\n"@ {
        Some((world, Deed::Introduce))
    } else if line == "isready\n"@ {
        Some((world, Deed::Affirm))
    } else if line == "ucinewgame\n"@ {
        Some((WorldState::spec_new(), Deed::Abide))
    } else if line == "quit\n"@ {
        Some((world, Deed::Depart))
    } else {
        let tokens = words(line);
        if tokens.len() == 0 {
            None
        } else if tokens[0] == "position"@ {
            let diff = tokens.last();
            if tokens.len() >= 2 && movement_readable(diff) {
                Some(
                    (
                        last_match(
                            world.spec_lookahead(),
                            diff_locale(diff, 0),
                            diff_locale(diff, 2),
                            world,
                        ),
                        Deed::Abide,
                    ),
                )
            } else {
                None
            }
        } else if tokens[0] == "go"@ {
            match spec_go(world, tokens.skip(1)) {
                Some(deed) => Some((world, deed)),
                None => None,
            }
        } else {
            None
        }
    }
}

/// Whether two runs of runes are the same.
fn same_runes(a: &Vec<char>, b: &Vec<char>) -> (same: bool)
    ensures
        same == (a@ == b@),
{
    if a.len() != b.len() {
        return false;
    }
    let mut k: usize = 0;
    while k < a.len()
        invariant
            k <= a@.len(),
            a@.len() == b@.len(),
            forall|j: int| 0 <= j < k ==> a@[j] == b@[j],
        decreases a@.len() - k,
    {
        if a[k] != b[k] {
            return false;
        }
        k += 1;
    }
    assert(a@ =~= b@);
    true
}

/// Whether the runes of `a` are those of `word`.
fn is_word(a: &Vec<char>, word: &str) -> (same: bool)
    ensures
        same == (a@ == word@),
{
    let runes = runes_of(word);
    same_runes(a, &runes)
}

/// The words of `runes`.
fn split_words(runes: &Vec<char>) -> (tokens: Vec<Vec<char>>)
    ensures
        tokens@.len() == words(runes@).len(),
        forall|k: int| 0 <= k < tokens@.len() ==> (#[trigger] tokens@[k])@ == words(runes@)[k],
{
    let mut tokens: Vec<Vec<char>> = Vec::new();
    let mut current: Vec<char> = Vec::new();
    let mut in_word = false;
    let mut i: usize = 0;
    while i < runes.len()
        invariant
            i <= runes@.len(),
            in_word == (i > 0 && !is_whitespace(runes@[i - 1])),
            in_word ==> tokens@.len() + 1 == words(runes@.take(i as int)).len() && current@
                == words(runes@.take(i as int)).last(),
            !in_word ==> tokens@.len() == words(runes@.take(i as int)).len() && current@.len()
                == 0,
            forall|k: int|
                0 <= k < tokens@.len() ==> (#[trigger] tokens@[k])@ == words(
                    runes@.take(i as int),
                )[k],
        decreases runes@.len() - i,
    {
        let rune = runes[i];
        let ghost before = runes@.take(i as int);
        let ghost after = runes@.take(i + 1);
        proof {
            assert(after.drop_last() =~= before);
            assert(after.last() == rune);
            if i > 0 {
                assert(after[after.len() - 2] == runes@[i - 1]);
                assert(before.last() == runes@[i - 1]);
            }
            if in_word {
                lemma_words_nonempty(before);
            }
        }
        if is_whitespace_rune(rune) {
            if in_word {
                let finished = current;
                tokens.push(finished);
                current = Vec::new();
            }
            in_word = false;
        } else {
            if !in_word {
                assert(current@.len() == 0);
            }
            current.push(rune);
            proof {
                if !in_word {
                    assert(current@ =~= seq![rune]);
                }
            }
            in_word = true;
        }
        i += 1;
    }
    assert(runes@.take(runes@.len() as int) =~= runes@);
    if in_word {
        tokens.push(current);
    }
    tokens
}

/// Reads a number that `str::parse::<usize>` would read.
fn parse_usize(piece: &Vec<char>) -> (value: Option<usize>)
    ensures
        value == usize_numeral(piece@),
{
    match parse_u64(piece) {
        Some(value) => if value <= usize::MAX as u64 {
            Some(value as usize)
        } else {
            None
        },
        None => None,
    }
}

/// The value of the last pair of `tokens` from `start` on whose key is `key`,
/// every value there being readable.
fn find_option(tokens: &Vec<Vec<char>>, start: usize, key: &str) -> (value: Option<usize>)
    requires
        start <= tokens@.len(),
        (tokens@.len() - start) % 2 == 0,
        forall|k: int|
            start <= k < tokens@.len() && (k - start) % 2 == 1 ==> (#[trigger] usize_numeral(
                tokens@[k]@,
            )) is Some,
    ensures
        value == option_value(tokens@.skip(start as int).map_values(|t: Vec<char>| t@), key@),
{
    let ghost options = tokens@.skip(start as int).map_values(|t: Vec<char>| t@);
    let mut value: Option<usize> = None;
    let mut i: usize = start;
    assert(options.take(0) =~= Seq::<Seq<char>>::empty());
    while i < tokens.len()
        invariant
            start <= i <= tokens@.len(),
            (i - start) % 2 == 0,
            (tokens@.len() - start) % 2 == 0,
            options == tokens@.skip(start as int).map_values(|t: Vec<char>| t@),
            forall|k: int|
                start <= k < tokens@.len() && (k - start) % 2 == 1 ==> (#[trigger] usize_numeral(
                    tokens@[k]@,
                )) is Some,
            value == option_value(options.take(i - start), key@),
        decreases tokens@.len() - i,
    {
        let ghost prefix = options.take(i + 2 - start);
        assert(prefix.take(i - start) =~= options.take(i - start));
        assert(prefix[i - start] == tokens@[i as int]@);
        assert(prefix[i + 1 - start] == tokens@[i + 1]@);
        if is_word(&tokens[i], key) {
            value = parse_usize(&tokens[i + 1]);
        }
        i += 2;
    }
    assert(options.take(i - start) =~= options);
    value
}

/// Whether every value of the options from `start` on can be read.
fn options_read(tokens: &Vec<Vec<char>>, start: usize) -> (ok: bool)
    requires
        start <= tokens@.len(),
    ensures
        ok == ((tokens@.len() - start) % 2 == 0 && forall|k: int|
            start <= k < tokens@.len() && (k - start) % 2 == 1 ==> (#[trigger] usize_numeral(
                tokens@[k]@,
            )) is Some),
{
    if (tokens.len() - start) % 2 != 0 {
        return false;
    }
    let n = tokens.len();
    let mut i: usize = start;
    while i < n
        invariant
            start <= i <= n,
            n == tokens@.len(),
            (i - start) % 2 == 0,
            (n - start) % 2 == 0,
            forall|k: int|
                start <= k < i && (k - start) % 2 == 1 ==> (#[trigger] usize_numeral(
                    tokens@[k]@,
                )) is Some,
        decreases n - i,
    {
        if parse_usize(&tokens[i + 1]).is_none() {
            return false;
        }
        i += 2;
    }
    true
}

/// What the dæmon makes of a "go" command whose options follow the first token.
fn go(world: &WorldState, tokens: &Vec<Vec<char>>) -> (deed: Option<Deed>)
    requires
        tokens@.len() >= 1,
    ensures
        deed == spec_go(*world, tokens@.skip(1).map_values(|t: Vec<char>| t@)),
{
    let ghost options = tokens@.skip(1).map_values(|t: Vec<char>| t@);
    let readable = options_read(tokens, 1);
    proof {
        if readable {
            assert forall|k: int| 0 <= k < options.len() && k % 2 == 1 implies (#[trigger] usize_numeral(
                options[k],
            )) is Some by {
                assert(options[k] == tokens@[k + 1]@);
            }
        } else if options.len() % 2 == 0 {
            let k = choose|k: int|
                1 <= k < tokens@.len() && (k - 1) % 2 == 1 && !(#[trigger] usize_numeral(
                    tokens@[k]@,
                ) is Some);
            assert(options[k - 1] == tokens@[k]@);
        }
    }
    if !readable {
        return None;
    }
    match find_option(tokens, 1, "depth") {
        Some(depth) => Some(Deed::Deliberate(depth as u8)),
        None => {
            let (time_key, increment_key) = match world.initiative {
                Team::Orange => ("wtime", "winc"),
                Team::Blue => ("btime", "binc"),
            };
            let movements = find_option(tokens, 1, "movestogo");
            let moments = find_option(tokens, 1, time_key);
            match (movements, moments) {
                (Some(movements), Some(moments)) => {
                    if movements == 0 {
                        return None;
                    }
                    let grace = match find_option(tokens, 1, increment_key) {
                        Some(g) => g,
                        None => 0,
                    };
                    let share = moments / movements;
                    if share > usize::MAX - grace {
                        return None;
                    }
                    Some(Deed::Ponder((share + grace) / 1000))
                },
                _ => None,
            }
        },
    }
}

/// The world after the driver's last movement from `whence` to `whither`.
fn after_movement(world: &WorldState, whence: Locale, whither: Locale) -> (next: WorldState)
    ensures
        next == last_match(world.spec_lookahead(), whence, whither, *world),
{
    let premonitions = world.lookahead();
    let mut next = *world;
    let mut k: usize = 0;
    while k < premonitions.len()
        invariant
            k <= premonitions@.len(),
            premonitions@ == world.spec_lookahead(),
            next == last_match(premonitions@.take(k as int), whence, whither, *world),
        decreases premonitions@.len() - k,
    {
        let premonition = premonitions[k];
        assert(premonitions@.take(k + 1).drop_last() =~= premonitions@.take(k as int));
        if premonition.patch.whence == whence && premonition.patch.whither == whither {
            next = premonition.tree;
        }
        k += 1;
    }
    assert(premonitions@.take(premonitions@.len() as int) =~= premonitions@);
    next
}

/// What the dæmon makes of `line` in `world`: the world after it and the
/// deed to do, or `None` where the line cannot be heeded.
pub fn heed(world: &WorldState, line: &str) -> (heeded: Option<(WorldState, Deed)>)
    ensures
        heeded == spec_heed(*world, line@),
{
    let runes = runes_of(line);
    if is_word(&runes, "uci\n") {
        return Some((*world, Deed::Introduce));
    }
    if is_word(&runes, "isready\n") {
        return Some((*world, Deed::Affirm));
    }
    if is_word(&runes, "ucinewgame\n") {
        return Some((WorldState::new(), Deed::Abide));
    }
    if is_word(&runes, "quit\n") {
        return Some((*world, Deed::Depart));
    }
    let tokens = split_words(&runes);
    let ghost spec_tokens = words(line@);
    if tokens.len() == 0 {
        return None;
    }
    if is_word(&tokens[0], "position") {
        if tokens.len() < 2 {
            return None;
        }
        let diff = &tokens[tokens.len() - 1];
        assert(diff@ == spec_tokens.last());
        if diff.len() < 4 || diff[0] > '\u{7f}' || diff[1] > '\u{7f}' || diff[2] > '\u{7f}' || diff[3]
            > '\u{7f}' {
            return None;
        }
        if rune_to_byte(diff[0]) < 97 || rune_to_byte(diff[1]) < 49 || rune_to_byte(diff[2]) < 97
            || rune_to_byte(diff[3]) < 49 {
            return None;
        }
        assert(movement_readable(diff@));
        let whence = Locale::new(rune_to_byte(diff[1]) - 49, rune_to_byte(diff[0]) - 97);
        let whither = Locale::new(rune_to_byte(diff[3]) - 49, rune_to_byte(diff[2]) - 97);
        let next = after_movement(world, whence, whither);
        return Some((next, Deed::Abide));
    }
    if is_word(&tokens[0], "go") {
        assert(tokens@.skip(1).map_values(|t: Vec<char>| t@) =~= spec_tokens.skip(1));
        return match go(world, &tokens) {
            Some(deed) => Some((*world, deed)),
            None => None,
        };
    }
    None
}

/// The answer that names the chosen movement, such as "bestmove e2e4".
pub fn bestmove(commit: &Commit) -> (answer: String)
    requires
        commit.patch.whence.file < 8,
        commit.patch.whence.rank < 255,
        commit.patch.whither.file < 8,
        commit.patch.whither.rank < 255,
    ensures
        answer@ == "bestmove "@ + commit.patch.whence.algebraic() + commit.patch.whither.algebraic(),
{
    let mut answer = String::new();
    answer.append("bestmove ");
    let whence = commit.patch.whence.to_algebraic();
    answer.append(whence.as_str());
    let whither = commit.patch.whither.to_algebraic();
    answer.append(whither.as_str());
    answer
}

/// The clock of a "go" command is that of the team to move: with Blue to
/// move, two readable sets of options without a depth that give the same
/// "movestogo", "btime" and "binc" give the same deed, whatever their
/// "wtime" and "winc"; with Orange to move, the same of "wtime" and "winc",
/// whatever "btime" and "binc".
pub proof fn law_go_reads_own_clock(world: WorldState, o1: Seq<Seq<char>>, o2: Seq<Seq<char>>)
    requires
        options_readable(o1),
        options_readable(o2),
        option_value(o1, "depth"@) is None,
        option_value(o2, "depth"@) is None,
        option_value(o1, "movestogo"@) == option_value(o2, "movestogo"@),
    ensures
        world.initiative == Team::Blue && option_value(o1, "btime"@) == option_value(o2, "btime"@)
            && option_value(o1, "binc"@) == option_value(o2, "binc"@) ==> spec_go(world, o1)
            == spec_go(world, o2),
        world.initiative == Team::Orange && option_value(o1, "wtime"@) == option_value(
            o2,
            "wtime"@,
        ) && option_value(o1, "winc"@) == option_value(o2, "winc"@) ==> spec_go(world, o1)
            == spec_go(world, o2),
{
}

/// The time that a "go" command grants the team to move is the share of
/// its own remaining time per movement to go, plus its own increment, in
/// seconds: it grows with the increment, by a second at least for every
/// thousand of it.
pub proof fn law_go_grows_with_increment(
    world: WorldState,
    o1: Seq<Seq<char>>,
    o2: Seq<Seq<char>>,
    movements: usize,
    moments: usize,
    g1: usize,
    g2: usize,
)
    requires
        options_readable(o1),
        options_readable(o2),
        option_value(o1, "depth"@) is None,
        option_value(o2, "depth"@) is None,
        option_value(o1, "movestogo"@) == Some(movements),
        option_value(o2, "movestogo"@) == Some(movements),
        movements > 0,
        option_value(o1, if world.initiative == Team::Blue { "btime"@ } else { "wtime"@ }) == Some(
            moments,
        ),
        option_value(o2, if world.initiative == Team::Blue { "btime"@ } else { "wtime"@ }) == Some(
            moments,
        ),
        option_value(o1, if world.initiative == Team::Blue { "binc"@ } else { "winc"@ }) == Some(g1),
        option_value(o2, if world.initiative == Team::Blue { "binc"@ } else { "winc"@ }) == Some(g2),
        g1 <= g2,
        moments / movements + g2 <= usize::MAX,
    ensures
        match (spec_go(world, o1), spec_go(world, o2)) {
            (Some(Deed::Ponder(p1)), Some(Deed::Ponder(p2))) => p1 <= p2 && (g1 + 1000 <= g2
                ==> p1 < p2) && p2 == (moments / movements + g2) / 1000,
            _ => false,
        },
{
}

/// A "go" command with a depth searches that deep, truncated to a byte,
/// whatever the clocks say.
pub proof fn law_go_depth_first(world: WorldState, options: Seq<Seq<char>>, depth: usize)
    requires
        options_readable(options),
        option_value(options, "depth"@) == Some(depth),
    ensures
        spec_go(world, options) == Some(Deed::Deliberate(depth as u8)),
{
}

/// After a movement named by the driver the world is that of the last
/// premonition making it, or, where none does, the world as it was.
pub proof fn law_position_follows_last_match(
    premonitions: Seq<Commit>,
    whence: Locale,
    whither: Locale,
    otherwise: WorldState,
)
    ensures
        (forall|k: int|
            0 <= k < premonitions.len() ==> !((#[trigger] premonitions[k]).patch.whence == whence
                && premonitions[k].patch.whither == whither)) ==> last_match(
            premonitions,
            whence,
            whither,
            otherwise,
        ) == otherwise,
        (exists|k: int|
            0 <= k < premonitions.len() && (#[trigger] premonitions[k]).patch.whence == whence
                && premonitions[k].patch.whither == whither) ==> exists|k: int|
            0 <= k < premonitions.len() && (#[trigger] premonitions[k]).patch.whence == whence
                && premonitions[k].patch.whither == whither && last_match(
                premonitions,
                whence,
                whither,
                otherwise,
            ) == premonitions[k].tree && forall|j: int|
                k < j < premonitions.len() ==> !((#[trigger] premonitions[j]).patch.whence
                    == whence && premonitions[j].patch.whither == whither),
    decreases premonitions.len(),
{
    if premonitions.len() > 0 {
        let shorter = premonitions.drop_last();
        law_position_follows_last_match(shorter, whence, whither, otherwise);
        let n = premonitions.len() - 1;
        let last = premonitions[n];
        if !(last.patch.whence == whence && last.patch.whither == whither) {
            assert forall|k: int| 0 <= k < shorter.len() implies shorter[k] == premonitions[k] by {}
            if exists|k: int|
                0 <= k < premonitions.len() && (#[trigger] premonitions[k]).patch.whence == whence
                    && premonitions[k].patch.whither == whither {
                let k0 = choose|k: int|
                    0 <= k < premonitions.len() && (#[trigger] premonitions[k]).patch.whence
                        == whence && premonitions[k].patch.whither == whither;
                assert(shorter[k0] == premonitions[k0]);
                let k = choose|k: int|
                    0 <= k < shorter.len() && (#[trigger] shorter[k]).patch.whence == whence
                        && shorter[k].patch.whither == whither && last_match(
                        shorter,
                        whence,
                        whither,
                        otherwise,
                    ) == shorter[k].tree && forall|j: int|
                        k < j < shorter.len() ==> !((#[trigger] shorter[j]).patch.whence == whence
                            && shorter[j].patch.whither == whither);
                assert(premonitions[k] == shorter[k]);
                assert forall|j: int| k < j < premonitions.len() implies !((
                #[trigger] premonitions[j]).patch.whence == whence && premonitions[j].patch.whither
                    == whither) by {
                    if j < n {
                        assert(premonitions[j] == shorter[j]);
                    }
                }
            } else {
                assert forall|k: int| 0 <= k < shorter.len() implies !((
                #[trigger] shorter[k]).patch.whence == whence && shorter[k].patch.whither
                    == whither) by {
                    assert(shorter[k] == premonitions[k]);
                }
            }
        }
    }
}

} // verus!
