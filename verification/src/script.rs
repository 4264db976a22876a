//! Runes: building and reading the strings of the game's notations.
use vstd::prelude::*;
use vstd::string::*;

verus! {

/// Appends `rune` to `book`.
///
/// Calls `String::push`, which std documents as appending the given char to
/// the end of the string; the contract says so of the string's characters.
#[verifier::external_body]
pub(crate) fn push_rune(book: &mut String, rune: char)
    ensures
        final(book)@ == old(book)@.push(rune),
{
    book.push(rune);
}

/// The rune of a decimal digit.
pub open spec fn digit_rune(d: int) -> char {
    (48 + d) as char
}

/// The decimal numeral of `n`, without leading zeros.
pub open spec fn decimal(n: nat) -> Seq<char>
    decreases n,
{
    if n < 10 {
        seq![digit_rune(n as int)]
    } else {
        decimal(n / 10).push(digit_rune((n % 10) as int))
    }
}

/// The byte that `as u8` makes of a rune: the low eight bits of its code point.
pub open spec fn rune_byte(rune: char) -> int {
    (rune as int) % 256
}

pub fn digit_to_rune(d: u8) -> (rune: char)
    requires
        d < 10,
    ensures
        rune == digit_rune(d as int),
{
    (48u8 + d) as char
}

pub fn rune_to_byte(rune: char) -> (byte: u8)
    ensures
        byte == rune_byte(rune),
{
    ((rune as u32) % 256) as u8
}

/// Appends the decimal numeral of `n`.
pub fn push_decimal(book: &mut String, n: u8)
    ensures
        final(book)@ == old(book)@ + decimal(n as nat),
{
    if n >= 100 {
        push_rune(book, digit_to_rune(n / 100));
        push_rune(book, digit_to_rune((n / 10) % 10));
        push_rune(book, digit_to_rune(n % 10));
        proof {
            let q = (n / 10) as nat;
            assert(q / 10 == n / 100);
            assert(decimal(q / 10) == seq![digit_rune((n / 100) as int)]);
            assert(decimal(q) == decimal(q / 10).push(digit_rune((q % 10) as int)));
            assert(decimal(n as nat) == decimal(q).push(digit_rune((n % 10) as int)));
            assert(decimal(n as nat) =~= seq![digit_rune((n / 100) as int), digit_rune(((n / 10) % 10) as int), digit_rune((n % 10) as int)]);
        }
    } else if n >= 10 {
        push_rune(book, digit_to_rune(n / 10));
        push_rune(book, digit_to_rune(n % 10));
        proof {
            let q = (n / 10) as nat;
            assert(decimal(q) == seq![digit_rune(q as int)]);
            assert(decimal(n as nat) == decimal(q).push(digit_rune((n % 10) as int)));
            assert(decimal(n as nat) =~= seq![digit_rune((n / 10) as int), digit_rune((n % 10) as int)]);
        }
    } else {
        push_rune(book, digit_to_rune(n));
        assert(decimal(n as nat) =~= seq![digit_rune(n as int)]);
    }
}

/// The rune at position `i` of `s`.
pub fn rune_at(s: &str, i: usize) -> (rune: char)
    requires
        i < s@.len(),
    ensures
        rune == s@[i as int],
{
    s.get_char(i)
}

/// The number of runes of `s`.
pub fn rune_count(s: &str) -> (n: usize)
    ensures
        n == s@.len(),
{
    s.unicode_len()
}

/// The runes of `s`, one by one.
pub fn runes_of(s: &str) -> (runes: Vec<char>)
    ensures
        runes@ == s@,
{
    let count = rune_count(s);
    let mut runes: Vec<char> = Vec::new();
    let mut i: usize = 0;
    while i < count
        invariant
            i <= count,
            count == s@.len(),
            runes@ == s@.take(i as int),
        decreases count - i,
    {
        runes.push(rune_at(s, i));
        assert(s@.take(i + 1) =~= s@.take(i as int).push(s@[i as int]));
        i += 1;
    }
    assert(s@.take(count as int) =~= s@);
    runes
}

} // verus!
