//! Amounts of memory, and reading them from a meminfo entry such as
//! "MemFree:  3274928 kB".
use vstd::prelude::*;
use crate::bound::{digits_value, is_digit, numeral_digits, lemma_digits_grow};
use crate::script::runes_of;

verus! {

/// A number of bytes.
#[derive(Debug, Copy, Clone)]
pub struct Bytes(pub u64);

impl From<Bytes> for usize {
    fn from(bytes: Bytes) -> (size: Self) {
        bytes.0 as usize
    }
}

impl vstd::std_specs::convert::FromSpecImpl<Bytes> for usize {
    open spec fn obeys_from_spec() -> bool {
        true
    }

    open spec fn from_spec(bytes: Bytes) -> usize {
        bytes.0 as usize
    }
}

/// The runes that `char::is_whitespace` accepts: those with the Unicode
/// White_Space property.
pub open spec fn is_whitespace(rune: char) -> bool {
    let c = rune as int;
    ||| 0x9 <= c <= 0xd
    ||| c == 0x20
    ||| c == 0x85
    ||| c == 0xa0
    ||| c == 0x1680
    ||| 0x2000 <= c <= 0x200a
    ||| c == 0x2028
    ||| c == 0x2029
    ||| c == 0x202f
    ||| c == 0x205f
    ||| c == 0x3000
}

/// The number of bytes of `rune` in UTF-8.
pub open spec fn utf8_width(rune: char) -> int {
    let c = rune as int;
    if c < 0x80 {
        1
    } else if c < 0x800 {
        2
    } else if c < 0x10000 {
        3
    } else {
        4
    }
}

/// The label of the entry for `field`: its name and a colon.
pub open spec fn meminfo_label(field: Seq<char>) -> Seq<char> {
    field.push(':')
}

/// `runes` with every leading occurrence of `label` taken off.
pub open spec fn strip_label(runes: Seq<char>, label: Seq<char>) -> Seq<char>
    decreases runes.len(),
{
    if label.len() > 0 && label.is_prefix_of(runes) {
        strip_label(runes.skip(label.len() as int), label)
    } else {
        runes
    }
}

/// `runes` with its leading whitespace taken off.
pub open spec fn trim_start(runes: Seq<char>) -> Seq<char>
    decreases runes.len(),
{
    if runes.len() > 0 && is_whitespace(runes[0]) {
        trim_start(runes.skip(1))
    } else {
        runes
    }
}

/// `runes` less its last `bytes` bytes, where that cut falls between two
/// runes; `None` where it does not, or where `runes` is shorter.
pub open spec fn chop_bytes(runes: Seq<char>, bytes: int) -> Option<Seq<char>>
    decreases runes.len(),
{
    if bytes == 0 {
        Some(runes)
    } else if bytes < 0 || runes.len() == 0 {
        None
    } else {
        chop_bytes(runes.drop_last(), bytes - utf8_width(runes.last()))
    }
}

/// What `str::parse::<u64>` makes of `runes`: an optional '+' followed by
/// at least one decimal digit, of value at most `u64::MAX`.
pub open spec fn u64_numeral(runes: Seq<char>) -> Option<u64> {
    let digits = numeral_digits(runes);
    if digits.len() > 0 && (forall|k: int| 0 <= k < digits.len() ==> is_digit(#[trigger] digits[k]))
        && digits_value(digits) <= u64::MAX {
        Some(digits_value(digits) as u64)
    } else {
        None
    }
}

/// The number of kibibytes that the entry `entry` gives for `field`: the
/// label taken off, then the leading whitespace, then the three bytes of
/// the unit, and what is left read as a number. `None` where that cannot
/// be done.
pub open spec fn meminfo_figure_of(entry: Seq<char>, field: Seq<char>) -> Option<u64> {
    match chop_bytes(trim_start(strip_label(entry, meminfo_label(field))), 3) {
        Some(figure) => u64_numeral(figure),
        None => None,
    }
}

/// Whether `entry` is the entry for `field`: whether it begins with the label.
pub fn meminfo_labels(entry: &str, field: &str) -> (labels: bool)
    ensures
        labels == meminfo_label(field@).is_prefix_of(entry@),
{
    let runes = runes_of(entry);
    let label = label_runes(field);
    prefix_at(&runes, 0, &label)
}

/// The number of kibibytes that a meminfo entry gives for `field`.
pub fn meminfo_figure(entry: &str, field: &str) -> (figure: Option<u64>)
    ensures
        figure == meminfo_figure_of(entry@, field@),
{
    let runes = runes_of(entry);
    let label = label_runes(field);
    let ghost label_seq = meminfo_label(field@);
    let n = runes.len();
    let mut p: usize = 0;
    assert(runes@.skip(0) =~= runes@);
    while prefix_at(&runes, p, &label)
        invariant
            n == runes@.len(),
            p <= runes@.len(),
            label@ == label_seq,
            label_seq.len() > 0,
            strip_label(runes@, label_seq) == strip_label(runes@.skip(p as int), label_seq),
        decreases runes@.len() - p,
    {
        let ghost rest = runes@.skip(p as int);
        assert(label@.len() <= rest.len());
        assert(rest.skip(label_seq.len() as int) =~= runes@.skip(p + label_seq.len()));
        p = p + label.len();
    }
    assert(strip_label(runes@, label_seq) == runes@.skip(p as int));
    while p < runes.len() && is_whitespace_rune(runes[p])
        invariant
            p <= runes@.len(),
            trim_start(strip_label(runes@, label_seq)) == trim_start(runes@.skip(p as int)),
        decreases runes@.len() - p,
    {
        assert(runes@.skip(p as int).skip(1) =~= runes@.skip(p + 1));
        p += 1;
    }
    assert(trim_start(runes@.skip(p as int)) == runes@.skip(p as int));
    let mut q: usize = runes.len();
    let mut remaining: i32 = 3;
    assert(runes@.subrange(p as int, q as int) =~= runes@.skip(p as int));
    while remaining > 0 && q > p
        invariant
            p <= q <= runes@.len(),
            -3 <= remaining <= 3,
            chop_bytes(runes@.skip(p as int), 3) == chop_bytes(
                runes@.subrange(p as int, q as int),
                remaining as int,
            ),
        decreases q,
    {
        let ghost part = runes@.subrange(p as int, q as int);
        assert(part.drop_last() =~= runes@.subrange(p as int, q - 1));
        remaining = remaining - utf8_width_of(runes[q - 1]);
        q -= 1;
    }
    if remaining != 0 {
        return None;
    }
    let mut figure: Vec<char> = Vec::new();
    let mut k: usize = p;
    while k < q
        invariant
            p <= k <= q <= runes@.len(),
            figure@ == runes@.subrange(p as int, k as int),
        decreases q - k,
    {
        figure.push(runes[k]);
        assert(runes@.subrange(p as int, k + 1) =~= runes@.subrange(p as int, k as int).push(
            runes@[k as int],
        ));
        k += 1;
    }
    parse_u64(&figure)
}

/// The runes of the label for `field`.
fn label_runes(field: &str) -> (label: Vec<char>)
    ensures
        label@ == meminfo_label(field@),
{
    let mut label = runes_of(field);
    label.push(':');
    label
}

/// Whether `label` occurs in `runes` at position `p`.
fn prefix_at(runes: &Vec<char>, p: usize, label: &Vec<char>) -> (found: bool)
    requires
        p <= runes@.len(),
    ensures
        found == label@.is_prefix_of(runes@.skip(p as int)),
{
    let n = runes.len();
    if label.len() > n - p {
        return false;
    }
    let mut j: usize = 0;
    while j < label.len()
        invariant
            n == runes@.len(),
            j <= label@.len(),
            p <= runes@.len(),
            p + label@.len() <= runes@.len(),
            forall|m: int| 0 <= m < j ==> label@[m] == runes@[p + m],
        decreases label@.len() - j,
    {
        if label[j] != runes[p + j] {
            assert(label@[j as int] != runes@.skip(p as int)[j as int]);
            return false;
        }
        j += 1;
    }
    assert(label@ =~= runes@.skip(p as int).subrange(0, label@.len() as int));
    true
}

pub(crate) fn is_whitespace_rune(rune: char) -> (white: bool)
    ensures
        white == is_whitespace(rune),
{
    ('\u{9}' <= rune && rune <= '\u{d}') || rune == ' ' || rune == '\u{85}' || rune == '\u{a0}'
        || rune == '\u{1680}' || ('\u{2000}' <= rune && rune <= '\u{200a}') || rune == '\u{2028}'
        || rune == '\u{2029}' || rune == '\u{202f}' || rune == '\u{205f}' || rune == '\u{3000}'
}

fn utf8_width_of(rune: char) -> (width: i32)
    ensures
        width == utf8_width(rune),
{
    if '\u{80}' > rune {
        1
    } else if '\u{800}' > rune {
        2
    } else if '\u{10000}' > rune {
        3
    } else {
        4
    }
}

/// Reads a number written as an optional '+' and decimal digits.
pub(crate) fn parse_u64(piece: &Vec<char>) -> (value: Option<u64>)
    ensures
        value == u64_numeral(piece@),
{
    let mut k: usize = 0;
    if piece.len() > 0 && piece[0] == '+' {
        k = 1;
    }
    let ghost digits = numeral_digits(piece@);
    assert(digits =~= piece@.subrange(k as int, piece@.len() as int));
    let start = k;
    if k >= piece.len() {
        return None;
    }
    let mut value: u64 = 0;
    while k < piece.len()
        invariant
            start <= k <= piece@.len(),
            start == 0 || start == 1,
            digits == piece@.subrange(start as int, piece@.len() as int),
            digits == numeral_digits(piece@),
            forall|j: int| 0 <= j < k - start ==> is_digit(#[trigger] digits[j]),
            value == digits_value(digits.take(k - start)),
        decreases piece@.len() - k,
    {
        let rune = piece[k];
        assert(digits[k - start] == rune);
        if rune < '0' || rune > '9' {
            assert(!is_digit(digits[k - start]));
            assert(u64_numeral(piece@) is None);
            return None;
        }
        assert(digits.take(k - start + 1).drop_last() =~= digits.take(k - start));
        let code = (rune as u32) - 48;
        assert(code == rune as int - 48);
        let next: u128 = value as u128 * 10 + code as u128;
        if next > u64::MAX as u128 {
            proof {
                if forall|j: int| 0 <= j < digits.len() ==> is_digit(#[trigger] digits[j]) {
                    lemma_digits_grow(digits, (k - start + 1) as int);
                }
                assert(u64_numeral(piece@) is None);
            }
            return None;
        }
        value = next as u64;
        k += 1;
    }
    assert(digits.take(k - start) =~= digits);
    Some(value)
}

} // verus!
