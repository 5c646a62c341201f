//! The pieces of text that the configuration is made of: a text cut at a
//! separator, and a decimal number.

use vstd::prelude::*;

verus! {

/// The place of the first `sep` in `s` at or after `from`; the length of
/// `s` if there is none.
pub open spec fn find_from(s: Seq<char>, sep: char, from: int) -> int
    decreases s.len() - from,
{
    if from >= s.len() {
        s.len() as int
    } else if s[from] == sep {
        from
    } else {
        find_from(s, sep, from + 1)
    }
}

/// The part of `s` before the first `sep`: all of `s` if it holds none.
pub open spec fn head(s: Seq<char>, sep: char) -> Seq<char> {
    s.take(find_from(s, sep, 0))
}

/// The part of `s` after the first `sep`, if it holds one.
pub open spec fn tail(s: Seq<char>, sep: char) -> Option<Seq<char>> {
    if find_from(s, sep, 0) < s.len() {
        Some(s.skip(find_from(s, sep, 0) + 1))
    } else {
        None
    }
}

pub proof fn lemma_find_from_bounds(s: Seq<char>, sep: char, from: int)
    requires
        0 <= from <= s.len(),
    ensures
        from <= find_from(s, sep, from) <= s.len(),
        find_from(s, sep, from) < s.len() ==> s[find_from(s, sep, from)] == sep,
        forall|i: int| from <= i < find_from(s, sep, from) ==> s[i] != sep,
    decreases s.len() - from,
{
    if from < s.len() && s[from] != sep {
        lemma_find_from_bounds(s, sep, from + 1);
    }
}

/// Whether `c` is one of the ten digits.
pub open spec fn is_digit(c: char) -> bool {
    '0' <= c <= '9'
}

/// The number that the digits of `s` write in base ten.
pub open spec fn digits_value(s: Seq<char>) -> nat
    decreases s.len(),
{
    if s.len() == 0 {
        0
    } else {
        (digits_value(s.drop_last()) * 10 + (s.last() as u32 - '0' as u32)) as nat
    }
}

/// Every character of `s` is a digit.
pub open spec fn all_digits(s: Seq<char>) -> bool {
    forall|i: int| 0 <= i < s.len() ==> is_digit(#[trigger] s[i])
}

/// `s` without the `+` that it may begin with.
pub open spec fn unsigned_part(s: Seq<char>) -> Seq<char> {
    if s.len() > 0 && s[0] == '+' {
        s.skip(1)
    } else {
        s
    }
}

/// The number that `s` writes, if it is at most `max`: an optional `+`,
/// then one digit or more and nothing else.
pub open spec fn parse_number(s: Seq<char>, max: nat) -> Option<nat> {
    let digits = unsigned_part(s);
    if digits.len() > 0 && all_digits(digits) && digits_value(digits) <= max {
        Some(digits_value(digits))
    } else {
        None
    }
}

proof fn lemma_digits_value_grows(s: Seq<char>, i: int)
    requires
        0 <= i <= s.len(),
        all_digits(s),
    ensures
        digits_value(s.take(i)) <= digits_value(s),
    decreases s.len() - i,
{
    if i < s.len() {
        let next = s.take(i + 1);
        assert(next.drop_last() =~= s.take(i));
        assert(next.last() == s[i]);
        assert(is_digit(s[i]));
        lemma_digits_value_grows(s, i + 1);
    } else {
        assert(s.take(i) =~= s);
    }
}

/// The characters of `s`.
pub fn chars_of(s: &str) -> (v: Vec<char>)
    ensures
        v@ == s@,
{
    let mut v: Vec<char> = Vec::new();
    for c in it: s.chars()
        invariant
            it.seq() == s@,
            v@ == it.seq().take(it.index() as int),
    {
        v.push(c);
    }
    v
}

/// Cuts `text` at the first `sep`: the part before it and, if there is a
/// `sep`, the part after it.
pub fn split_once(text: &Vec<char>, sep: char) -> (r: (Vec<char>, Option<Vec<char>>))
    ensures
        r.0@ == head(text@, sep),
        match r.1 {
            Some(rest) => tail(text@, sep) == Some(rest@),
            None => tail(text@, sep) is None,
        },
{
    let mut first: Vec<char> = Vec::new();
    let mut i: usize = 0;
    while i < text.len() && text[i] != sep
        invariant
            i <= text@.len(),
            first@ == text@.take(i as int),
            find_from(text@, sep, 0) == find_from(text@, sep, i as int),
        decreases text@.len() - i,
    {
        first.push(text[i]);
        proof {
            assert(text@.take(i + 1) =~= text@.take(i as int).push(text@[i as int]));
        }
        i = i + 1;
    }
    if i >= text.len() {
        return (first, None);
    }
    let ghost cut = i as int;
    let mut rest: Vec<char> = Vec::new();
    i = i + 1;
    while i < text.len()
        invariant
            0 <= cut,
            cut + 1 <= i <= text@.len(),
            rest@ == text@.subrange(cut + 1, i as int),
        decreases text@.len() - i,
    {
        rest.push(text[i]);
        proof {
            assert(text@.subrange(cut + 1, i + 1) =~= text@.subrange(cut + 1, i as int).push(
                text@[i as int],
            ));
        }
        i = i + 1;
    }
    proof {
        assert(text@.subrange(cut + 1, text@.len() as int) =~= text@.skip(cut + 1));
    }
    (first, Some(rest))
}

/// Reads `text` as a number of at most `max`.
pub fn parse_bounded(text: &Vec<char>, max: u32) -> (r: Option<u32>)
    requires
        max <= 100_000_000,
    ensures
        match r {
            Some(n) => parse_number(text@, max as nat) == Some(n as nat),
            None => parse_number(text@, max as nat) is None,
        },
{
    let start: usize = if text.len() > 0 && text[0] == '+' {
        1
    } else {
        0
    };
    let ghost digits = text@.skip(start as int);
    proof {
        assert(text@.skip(0) =~= text@);
        assert(digits == unsigned_part(text@));
    }
    if start >= text.len() {
        return None;
    }
    let mut total: u32 = 0;
    let mut i: usize = start;
    while i < text.len()
        invariant
            start <= i <= text@.len(),
            digits == text@.skip(start as int),
            digits == unsigned_part(text@),
            max <= 100_000_000,
            total <= max,
            all_digits(digits.take(i - start)),
            total == digits_value(digits.take(i - start)),
        decreases text@.len() - i,
    {
        let c = text[i];
        proof {
            let next = digits.take(i - start + 1);
            assert(next.drop_last() =~= digits.take(i - start));
            assert(next.last() == c);
            assert(digits[i - start] == c);
        }
        if !(c >= '0' && c <= '9') {
            proof {
                assert(!is_digit(digits[i - start]));
                assert(0 <= i - start < digits.len());
                assert(!all_digits(digits));
            }
            return None;
        }
        proof {
            let next = digits.take(i - start + 1);
            assert forall|j: int| 0 <= j < next.len() implies is_digit(#[trigger] next[j]) by {
                if j < i - start {
                    assert(digits.take(i - start)[j] == next[j]);
                }
            }
        }
        let d: u32 = c as u32 - '0' as u32;
        let next: u32 = total * 10 + d;
        if next > max {
            proof {
                assert(digits_value(digits.take(i - start + 1)) == next);
                if all_digits(digits) {
                    lemma_digits_value_grows(digits, i - start + 1);
                }
            }
            return None;
        }
        total = next;
        i = i + 1;
    }
    proof {
        assert(digits.take(i - start) =~= digits);
    }
    Some(total)
}

} // verus!
