//! Text: splitting at spaces and reading a decimal number, character by
//! character; prefixes and searching, byte by byte.

use vstd::prelude::*;
use vstd::string::*;

verus! {

broadcast use vstd::string::group_string_axioms;

/// The index of the first space at or behind `from`, or the length of the
/// text where there is none.
pub open spec fn next_space(s: Seq<char>, from: int) -> int
    decreases s.len() - from,
{
    if from >= s.len() {
        s.len() as int
    } else if s[from] == ' ' {
        from
    } else {
        next_space(s, from + 1)
    }
}

/// The number of fields that lie at or behind `from`, where a field starts
/// at `from`: one more than the spaces there.
pub open spec fn count_from(s: Seq<char>, from: int) -> nat
    decreases s.len() - from,
{
    let end = next_space(s, from);
    if from <= end < s.len() {
        1 + count_from(s, end + 1)
    } else {
        1
    }
}

/// The number of fields that a text falls into when it is split at every
/// space: a text with `n` spaces has `n + 1` fields, empty ones among them.
pub open spec fn field_count(s: Seq<char>) -> nat {
    count_from(s, 0)
}

/// Where field `k` starts: the first at 0, each later one behind the space
/// that ends the one before.
pub open spec fn field_start(s: Seq<char>, k: nat) -> int
    decreases k,
{
    if k == 0 {
        0
    } else {
        next_space(s, field_start(s, (k - 1) as nat)) + 1
    }
}

/// Where field `k` ends: at the next space, or at the end of the text.
pub open spec fn field_end(s: Seq<char>, k: nat) -> int {
    next_space(s, field_start(s, k))
}

/// Field `k` of a text, for `k` below `field_count`.
pub open spec fn field(s: Seq<char>, k: nat) -> Seq<char> {
    s.subrange(field_start(s, k), field_end(s, k))
}

/// Whether `text` begins with `prefix`.
pub open spec fn starts_with<T>(text: Seq<T>, prefix: Seq<T>) -> bool {
    prefix.len() <= text.len() && text.subrange(0, prefix.len() as int) == prefix
}

/// Whether `needle` stands in `text` at `at`.
pub open spec fn occurs_at<T>(text: Seq<T>, needle: Seq<T>, at: int) -> bool {
    0 <= at && at + needle.len() <= text.len() && text.subrange(at, at + needle.len()) == needle
}

/// Whether `at` is the first place where `needle` stands in `text`.
pub open spec fn first_occurrence<T>(text: Seq<T>, needle: Seq<T>, at: int) -> bool {
    occurs_at(text, needle, at) && forall|j: int| 0 <= j < at ==> !occurs_at(text, needle, j)
}

/// Whether `needle` stands nowhere in `text`.
pub open spec fn absent<T>(text: Seq<T>, needle: Seq<T>) -> bool {
    forall|j: int| !occurs_at(text, needle, j)
}

/// Whether a character is a decimal digit.
pub open spec fn is_digit(c: char) -> bool {
    '0' <= c <= '9'
}

/// The number that a run of decimal digits writes.
pub open spec fn digits_value(digits: Seq<char>) -> nat
    decreases digits.len(),
{
    if digits.len() == 0 {
        0
    } else {
        digits_value(digits.drop_last()) * 10 + (digits.last() as nat - '0' as nat) as nat
    }
}

/// The digits of a number's text: what follows one leading `+`, or all of it.
pub open spec fn digits_of(s: Seq<char>) -> Seq<char> {
    if s.len() > 0 && s[0] == '+' {
        s.subrange(1, s.len() as int)
    } else {
        s
    }
}

/// The number below 256 that a text writes in decimal: one or more digits,
/// a `+` before them allowed, nothing else.
pub open spec fn decimal_u8(s: Seq<char>) -> Option<u8> {
    let digits = digits_of(s);
    if digits.len() > 0 && (forall|i: int| 0 <= i < digits.len() ==> is_digit(#[trigger] digits[i]))
        && digits_value(digits) <= 255 {
        Some(digits_value(digits) as u8)
    } else {
        None
    }
}

/// The space that `next_space` finds is a space, and nothing before it is.
pub proof fn lemma_next_space(s: Seq<char>, from: int)
    requires
        0 <= from <= s.len(),
    ensures
        from <= next_space(s, from) <= s.len(),
        next_space(s, from) < s.len() ==> s[next_space(s, from)] == ' ',
        forall|j: int| from <= j < next_space(s, from) ==> s[j] != ' ',
    decreases s.len() - from,
{
    if from < s.len() && s[from] != ' ' {
        lemma_next_space(s, from + 1);
    }
}

/// Finds the first space at or behind `from`.
pub fn find_space(chars: &Vec<char>, from: usize) -> (end: usize)
    requires
        from <= chars@.len(),
    ensures
        end == next_space(chars@, from as int),
        from <= end <= chars@.len(),
{
    let mut i: usize = from;
    while i < chars.len() && chars[i] != ' '
        invariant
            from <= i <= chars@.len(),
            next_space(chars@, from as int) == next_space(chars@, i as int),
        decreases chars@.len() - i,
    {
        i = i + 1;
    }
    i
}

/// Splits a text at every space and returns where each field starts and
/// ends.
pub fn field_bounds(chars: &Vec<char>) -> (bounds: Vec<(usize, usize)>)
    ensures
        bounds@.len() == field_count(chars@),
        forall|k: int|
            0 <= k < bounds@.len() ==> {
                &&& (#[trigger] bounds@[k]).0 == field_start(chars@, k as nat)
                &&& bounds@[k].1 == field_end(chars@, k as nat)
                &&& bounds@[k].0 <= bounds@[k].1 <= chars@.len()
            },
{
    let mut bounds: Vec<(usize, usize)> = Vec::new();
    let mut start: usize = 0;
    loop
        invariant_except_break
            start <= chars@.len(),
            start == field_start(chars@, bounds@.len()),
            field_count(chars@) == bounds@.len() + count_from(chars@, start as int),
        invariant
            forall|k: int|
                0 <= k < bounds@.len() ==> {
                    &&& (#[trigger] bounds@[k]).0 == field_start(chars@, k as nat)
                    &&& bounds@[k].1 == field_end(chars@, k as nat)
                    &&& bounds@[k].0 <= bounds@[k].1 <= chars@.len()
                },
        ensures
            bounds@.len() == field_count(chars@),
        decreases chars@.len() - start,
    {
        let end: usize = find_space(chars, start);
        bounds.push((start, end));
        if end >= chars.len() {
            break ;
        }
        start = end + 1;
    }
    bounds
}

/// Tells whether the bytes of a text begin with those of a prefix.
pub fn has_prefix(bytes: &[u8], prefix: &[u8]) -> (r: bool)
    ensures
        r == starts_with(bytes@, prefix@),
{
    if prefix.len() > bytes.len() {
        return false;
    }
    let mut i: usize = 0;
    while i < prefix.len()
        invariant
            i <= prefix@.len() <= bytes@.len(),
            bytes@.subrange(0, i as int) == prefix@.subrange(0, i as int),
        decreases prefix@.len() - i,
    {
        if bytes[i] != prefix[i] {
            assert(bytes@.subrange(0, prefix@.len() as int)[i as int] != prefix@[i as int]);
            return false;
        }
        assert(bytes@.subrange(0, i + 1) =~= bytes@.subrange(0, i as int).push(bytes@[i as int]));
        assert(prefix@.subrange(0, i + 1) =~= prefix@.subrange(0, i as int).push(prefix@[i as int]));
        i = i + 1;
    }
    assert(prefix@.subrange(0, prefix@.len() as int) =~= prefix@);
    true
}

/// Tells whether the bytes of a needle stand in those of a text at a place.
pub fn stands_at(bytes: &[u8], needle: &[u8], at: usize) -> (r: bool)
    ensures
        r == occurs_at(bytes@, needle@, at as int),
{
    if needle.len() > bytes.len() || at > bytes.len() - needle.len() {
        return false;
    }
    let mut i: usize = 0;
    while i < needle.len()
        invariant
            i <= needle@.len(),
            at + needle@.len() <= bytes@.len() <= usize::MAX,
            bytes@.subrange(at as int, at + i) == needle@.subrange(0, i as int),
        decreases needle@.len() - i,
    {
        if bytes[at + i] != needle[i] {
            assert(bytes@.subrange(at as int, at + needle@.len())[i as int] != needle@[i as int]);
            return false;
        }
        assert(bytes@.subrange(at as int, at + i + 1) =~= bytes@.subrange(at as int, at + i).push(
            bytes@[at + i],
        ));
        assert(needle@.subrange(0, i + 1) =~= needle@.subrange(0, i as int).push(needle@[i as int]));
        i = i + 1;
    }
    assert(needle@.subrange(0, needle@.len() as int) =~= needle@);
    true
}

/// Finds the first place where the bytes of a needle stand in those of a
/// text.
pub fn find_first(bytes: &[u8], needle: &[u8]) -> (r: Option<usize>)
    ensures
        match r {
            Some(at) => first_occurrence(bytes@, needle@, at as int),
            None => absent(bytes@, needle@),
        },
{
    if needle.len() > bytes.len() {
        return None;
    }
    let last: usize = bytes.len() - needle.len();
    let mut at: usize = 0;
    loop
        invariant
            at <= last,
            last == bytes@.len() - needle@.len(),
            forall|j: int| 0 <= j < at ==> !occurs_at(bytes@, needle@, j),
        decreases last - at,
    {
        if stands_at(bytes, needle, at) {
            return Some(at);
        }
        if at == last {
            return None;
        }
        at = at + 1;
    }
}

/// Reads the decimal number below 256 that the stretch from `from` to `to`
/// writes.
pub fn parse_decimal_u8(chars: &Vec<char>, from: usize, to: usize) -> (r: Option<u8>)
    requires
        from <= to <= chars@.len(),
    ensures
        r == decimal_u8(chars@.subrange(from as int, to as int)),
{
    let ghost s = chars@.subrange(from as int, to as int);
    let first: usize = if from < to && chars[from] == '+' {
        from + 1
    } else {
        from
    };
    let ghost digits = digits_of(s);
    assert(digits =~= chars@.subrange(first as int, to as int));
    if first == to {
        return None;
    }
    let mut value: u16 = 0;
    let mut i: usize = first;
    while i < to
        invariant
            first <= i <= to <= chars@.len(),
            first < to,
            digits == chars@.subrange(first as int, to as int),
            digits == digits_of(chars@.subrange(from as int, to as int)),
            forall|j: int| 0 <= j < i - first ==> is_digit(#[trigger] digits[j]),
            value == digits_value(digits.take(i - first)),
            value <= 255,
        decreases to - i,
    {
        let c: char = chars[i];
        assert(digits[i - first] == c);
        if !('0' <= c && c <= '9') {
            return None;
        }
        let d: u16 = (c as u32 - '0' as u32) as u16;
        assert(digits.take(i - first + 1).drop_last() =~= digits.take(i - first));
        assert(digits.take(i - first + 1).last() == c);
        value = value * 10 + d;
        if value > 255 {
            proof {
                lemma_digits_value_grows(digits, i - first + 1);
            }
            return None;
        }
        i = i + 1;
    }
    assert(digits.take(to - first) =~= digits);
    Some(value as u8)
}

/// A run of digits writes no smaller a number than any of its beginnings.
pub proof fn lemma_digits_value_grows(digits: Seq<char>, n: int)
    requires
        0 <= n <= digits.len(),
    ensures
        digits_value(digits.take(n)) <= digits_value(digits),
    decreases digits.len() - n,
{
    if n < digits.len() {
        lemma_digits_value_grows(digits, n + 1);
        assert(digits.take(n + 1).drop_last() =~= digits.take(n));
    } else {
        assert(digits.take(n) =~= digits);
    }
}

/// The characters of a text.
pub fn chars_of(s: &str) -> (chars: Vec<char>)
    ensures
        chars@ == s@,
{
    let mut chars: Vec<char> = Vec::new();
    for c in it: s.chars()
        invariant
            it.seq() == s@,
            chars@ == s@.take(it.index() as int),
    {
        chars.push(c);
        assert(chars@ =~= s@.take(it.index() + 1));
    }
    assert(s@.take(s@.len() as int) =~= s@);
    chars
}

} // verus!
