//! How far ahead the engine looks: a depth, a sequence of depths, or a
//! number of seconds, as chosen on the command line.
use vstd::prelude::*;
use crate::script::{rune_at, rune_count};

verus! {

#[derive(Debug, Clone)]
pub enum LookaheadBound {
    Depth(u8, Option<u8>),
    DepthSequence(Vec<u8>),
    Seconds(u8),
}

/// The value of a string of decimal digits.
pub open spec fn digits_value(digits: Seq<char>) -> int
    decreases digits.len(),
{
    if digits.len() == 0 {
        0
    } else {
        digits_value(digits.drop_last()) * 10 + (digits.last() as int - 48)
    }
}

pub open spec fn is_digit(rune: char) -> bool {
    48 <= rune as int <= 57
}

/// What `str::parse::<u8>` makes of `runes`: an optional '+' followed by
/// at least one decimal digit, of value at most 255.
pub open spec fn u8_numeral(runes: Seq<char>) -> Option<u8> {
    let digits = numeral_digits(runes);
    if digits.len() > 0 && (forall|k: int| 0 <= k < digits.len() ==> is_digit(#[trigger] digits[k]))
        && digits_value(digits) <= 255 {
        Some(digits_value(digits) as u8)
    } else {
        None
    }
}

/// The digits of a numeral: the runes after an optional leading '+'.
pub open spec fn numeral_digits(runes: Seq<char>) -> Seq<char> {
    if runes.len() > 0 && runes[0] == '+' {
        runes.subrange(1, runes.len() as int)
    } else {
        runes
    }
}

/// The pieces of `runes` between commas, empty ones included.
pub open spec fn comma_pieces(runes: Seq<char>) -> Seq<Seq<char>>
    decreases runes.len(),
{
    if runes.len() == 0 {
        seq![Seq::empty()]
    } else {
        let earlier = comma_pieces(runes.drop_last());
        if runes.last() == ',' {
            earlier.push(Seq::empty())
        } else {
            earlier.update(earlier.len() - 1, earlier.last().push(runes.last()))
        }
    }
}

pub proof fn lemma_comma_pieces_nonempty(runes: Seq<char>)
    ensures
        comma_pieces(runes).len() >= 1,
    decreases runes.len(),
{
    if runes.len() > 0 {
        lemma_comma_pieces_nonempty(runes.drop_last());
    }
}

/// Every comma-separated piece of the depiction is a depth.
pub open spec fn depiction_readable(depiction: Seq<char>) -> bool {
    forall|k: int|
        0 <= k < comma_pieces(depiction).len() ==> (#[trigger] u8_numeral(
            comma_pieces(depiction)[k],
        )) is Some
}

/// The depths of a readable depiction.
pub open spec fn depiction_depths(depiction: Seq<char>) -> Seq<u8> {
    comma_pieces(depiction).map_values(|piece: Seq<char>| u8_numeral(piece).unwrap())
}

/// Reads a depth written as an optional '+' and decimal digits.
fn parse_depth(piece: &Vec<char>) -> (depth: Option<u8>)
    ensures
        depth == u8_numeral(piece@),
{
    let mut k: usize = 0;
    if piece.len() > 0 && piece[0] == '+' {
        k = 1;
    }
    let ghost digits = numeral_digits(piece@);
    assert(digits =~= piece@.subrange(k as int, piece@.len() as int));
    let start = k;
    if k >= piece.len() {
        return None;
    }
    let mut value: u32 = 0;
    while k < piece.len()
        invariant
            start <= k <= piece@.len(),
            start == 0 || start == 1,
            digits == piece@.subrange(start as int, piece@.len() as int),
            digits == numeral_digits(piece@),
            forall|j: int| 0 <= j < k - start ==> is_digit(#[trigger] digits[j]),
            value == digits_value(digits.take(k - start)),
            value <= 255,
        decreases piece@.len() - k,
    {
        let rune = piece[k];
        assert(digits[k - start] == rune);
        if rune < '0' || rune > '9' {
            assert(!is_digit(digits[k - start]));
            assert(u8_numeral(piece@) is None);
            return None;
        }
        assert(digits.take(k - start + 1).drop_last() =~= digits.take(k - start));
        let code = (rune as u32) - 48;
        assert(code == rune as int - 48);
        let next = value * 10 + code;
        if next > 255 {
            proof {
                if forall|j: int| 0 <= j < digits.len() ==> is_digit(#[trigger] digits[j]) {
                    lemma_digits_grow(digits, (k - start + 1) as int);
                }
                assert(u8_numeral(piece@) is None);
            }
            return None;
        }
        value = next;
        k += 1;
    }
    assert(digits.take(k - start) =~= digits);
    Some(value as u8)
}

/// Once a prefix of digits is worth more than 255, so is every longer one.
pub proof fn lemma_digits_grow(digits: Seq<char>, n: int)
    requires
        0 <= n <= digits.len(),
        forall|j: int| 0 <= j < digits.len() ==> is_digit(#[trigger] digits[j]),
    ensures
        digits_value(digits) >= digits_value(digits.take(n)),
    decreases digits.len() - n,
{
    if n < digits.len() {
        lemma_digits_grow(digits, n + 1);
        assert(digits.take(n + 1).drop_last() =~= digits.take(n));
        lemma_digits_nonneg(digits.take(n));
    } else {
        assert(digits.take(n) =~= digits);
    }
}

pub proof fn lemma_digits_nonneg(digits: Seq<char>)
    requires
        forall|j: int| 0 <= j < digits.len() ==> is_digit(#[trigger] digits[j]),
    ensures
        digits_value(digits) >= 0,
    decreases digits.len(),
{
    if digits.len() > 0 {
        lemma_digits_nonneg(digits.drop_last());
    }
}

/// The comma-separated pieces of `depiction`.
fn split_commas(depiction: &str) -> (pieces: Vec<Vec<char>>)
    ensures
        pieces@.len() == comma_pieces(depiction@).len(),
        forall|k: int| 0 <= k < pieces@.len() ==> (#[trigger] pieces@[k])@ == comma_pieces(depiction@)[k],
{
    let count = rune_count(depiction);
    let mut done: Vec<Vec<char>> = Vec::new();
    let mut current: Vec<char> = Vec::new();
    let mut i: usize = 0;
    while i < count
        invariant
            i <= count,
            count == depiction@.len(),
            done@.len() + 1 == comma_pieces(depiction@.take(i as int)).len(),
            forall|k: int|
                0 <= k < done@.len() ==> (#[trigger] done@[k])@ == comma_pieces(depiction@.take(i as int))[k],
            current@ == comma_pieces(depiction@.take(i as int)).last(),
        decreases count - i,
    {
        let rune = rune_at(depiction, i);
        proof {
            lemma_comma_pieces_nonempty(depiction@.take(i as int));
            assert(depiction@.take(i + 1).drop_last() =~= depiction@.take(i as int));
            assert(depiction@.take(i + 1).last() == rune);
        }
        if rune == ',' {
            let finished = current;
            done.push(finished);
            current = Vec::new();
            assert(current@ =~= Seq::<char>::empty());
        } else {
            current.push(rune);
        }
        i += 1;
    }
    assert(depiction@.take(count as int) =~= depiction@);
    done.push(current);
    done
}

/// Whether every comma-separated piece of `depiction` is a depth.
pub fn readable_depiction(depiction: &str) -> (ok: bool)
    ensures
        ok == depiction_readable(depiction@),
{
    let pieces = split_commas(depiction);
    let mut k: usize = 0;
    while k < pieces.len()
        invariant
            k <= pieces@.len(),
            pieces@.len() == comma_pieces(depiction@).len(),
            forall|j: int| 0 <= j < pieces@.len() ==> (#[trigger] pieces@[j])@ == comma_pieces(depiction@)[j],
            forall|j: int| 0 <= j < k ==> (#[trigger] u8_numeral(comma_pieces(depiction@)[j])) is Some,
        decreases pieces@.len() - k,
    {
        if parse_depth(&pieces[k]).is_none() {
            assert(u8_numeral(comma_pieces(depiction@)[k as int]) is None);
            return false;
        }
        k += 1;
    }
    true
}

impl LookaheadBound {
    pub fn new_from_sequence_depiction(depiction: &str) -> (bound: Self)
        requires
            depiction_readable(depiction@),
        ensures
            bound matches LookaheadBound::DepthSequence(depths) && depths@ == depiction_depths(
                depiction@,
            ),
    {
        let pieces = split_commas(depiction);
        let mut depth_sequence: Vec<u8> = Vec::new();
        let mut k: usize = 0;
        while k < pieces.len()
            invariant
                k <= pieces@.len(),
                pieces@.len() == comma_pieces(depiction@).len(),
                forall|j: int| 0 <= j < pieces@.len() ==> (#[trigger] pieces@[j])@ == comma_pieces(depiction@)[j],
                depiction_readable(depiction@),
                depth_sequence@ == depiction_depths(depiction@).take(k as int),
            decreases pieces@.len() - k,
        {
            let depth = parse_depth(&pieces[k]);
            assert(u8_numeral(comma_pieces(depiction@)[k as int]) is Some);
            depth_sequence.push(depth.unwrap());
            assert(depth_sequence@ =~= depiction_depths(depiction@).take(k + 1));
            k += 1;
        }
        assert(depth_sequence@ =~= depiction_depths(depiction@));
        LookaheadBound::DepthSequence(depth_sequence)
    }

    pub fn from_args(
        lookahead_depth: Option<u8>,
        lookahead_extension: Option<u8>,
        lookahead_depth_sequence: Option<String>,
        lookahead_seconds: Option<u8>,
    ) -> (bound: Result<Option<Self>, String>)
        requires
            lookahead_depth is None ==> (lookahead_depth_sequence matches Some(depiction)
                ==> depiction_readable(depiction@)),
        ensures
            bound is Err <==> ((lookahead_depth is Some && lookahead_depth_sequence is Some) || (
            lookahead_depth is Some && lookahead_seconds is Some) || (lookahead_depth_sequence is Some
                && lookahead_seconds is Some)),
            bound matches Err(message) ==> message@ == too_many_bounds(),
            bound matches Ok(chosen) ==> match chosen {
                None => lookahead_depth is None && lookahead_depth_sequence is None
                    && lookahead_seconds is None,
                Some(LookaheadBound::Depth(depth, extension)) => lookahead_depth == Some(depth)
                    && lookahead_extension == extension,
                Some(LookaheadBound::DepthSequence(depths)) => lookahead_depth_sequence matches Some(
                    depiction,
                ) && depths@ == depiction_depths(depiction@),
                Some(LookaheadBound::Seconds(seconds)) => lookahead_seconds == Some(seconds)
                    && lookahead_depth is None && lookahead_depth_sequence is None,
            },
    {
        let mut bound: Option<LookaheadBound> = None;
        if let Some(depth) = lookahead_depth {
            bound = Some(LookaheadBound::Depth(depth, lookahead_extension));
        }
        if let Some(sequence_depiction) = lookahead_depth_sequence {
            if bound.is_some() {
                return Err(too_many_bounds_message());
            }
            bound = Some(LookaheadBound::new_from_sequence_depiction(sequence_depiction.as_str()));
        }
        if let Some(seconds) = lookahead_seconds {
            if bound.is_some() {
                return Err(too_many_bounds_message());
            }
            bound = Some(LookaheadBound::Seconds(seconds));
        }
        Ok(bound)
    }
}

/// The complaint about more than one bound.
pub open spec fn too_many_bounds() -> Seq<char> {
    "more than one of `--depth`, `--depth-sequence`, or `--seconds` was passed"@
}

fn too_many_bounds_message() -> (message: String)
    ensures
        message@ == too_many_bounds(),
{
    "more than one of `--depth`, `--depth-sequence`, or `--seconds` was passed".to_owned()
}

} // verus!
