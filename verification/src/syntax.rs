//! The lexical layer: character classes and the two numeric tokens.
//!
//! An *integer* is an optional `-` followed by one or more digits. A *number*
//! is an integer, optionally followed by `.` and one or more digits. Both are
//! matched greedily: as many digits as there are.

use vstd::prelude::*;

verus! {

/// The ten digits.
pub open spec fn is_digit(c: char) -> bool {
    '0' <= c && c <= '9'
}

/// Blanks separate the parts of a command.
pub open spec fn is_blank(c: char) -> bool {
    c == ' ' || c == '\t'
}

/// Line breaks separate the commands of a list.
pub open spec fn is_line_break(c: char) -> bool {
    c == '\n' || c == '\r'
}

/// The end of the longest run of digits that starts at `at`.
pub open spec fn digits_end(s: Seq<char>, at: int) -> int
    decreases s.len() - at,
{
    if 0 <= at < s.len() && is_digit(s[at]) {
        digits_end(s, at + 1)
    } else {
        at
    }
}

/// The end of the longest run of blanks that starts at `at`.
pub open spec fn blanks_end(s: Seq<char>, at: int) -> int
    decreases s.len() - at,
{
    if 0 <= at < s.len() && is_blank(s[at]) {
        blanks_end(s, at + 1)
    } else {
        at
    }
}

/// Where the digits of a numeric token at `at` begin: behind the sign, if
/// there is one.
pub open spec fn sign_end(s: Seq<char>, at: int) -> int {
    if 0 <= at < s.len() && s[at] == '-' {
        at + 1
    } else {
        at
    }
}

/// The end of the integer that starts at `at`, if one starts there.
pub open spec fn integer_end(s: Seq<char>, at: int) -> Option<int> {
    let first = sign_end(s, at);
    let end = digits_end(s, first);
    if end > first {
        Some(end)
    } else {
        None
    }
}

/// Whether a fraction (`.` and at least one digit) starts at `at`.
pub open spec fn fraction_at(s: Seq<char>, at: int) -> bool {
    0 <= at < s.len() && s[at] == '.' && digits_end(s, at + 1) > at + 1
}

/// The end of the number that starts at `at`, if one starts there.
pub open spec fn number_end(s: Seq<char>, at: int) -> Option<int> {
    match integer_end(s, at) {
        None => None,
        Some(end) => if fraction_at(s, end) {
            Some(digits_end(s, end + 1))
        } else {
            Some(end)
        },
    }
}

/// `t` is, as a whole, one number.
pub open spec fn is_number(t: Seq<char>) -> bool {
    number_end(t, 0) == Some(t.len() as int)
}

/// A run of digits holds digits only, and no digit stands behind it.
pub proof fn lemma_digits_end(s: Seq<char>, at: int)
    requires
        0 <= at <= s.len(),
    ensures
        at <= digits_end(s, at) <= s.len(),
        forall|i: int| at <= i < digits_end(s, at) ==> is_digit(#[trigger] s[i]),
        digits_end(s, at) < s.len() ==> !is_digit(s[digits_end(s, at)]),
    decreases s.len() - at,
{
    if at < s.len() && is_digit(s[at]) {
        lemma_digits_end(s, at + 1);
    }
}

/// A run of digits that stops at `end` is the longest one.
pub proof fn lemma_digits_end_is(s: Seq<char>, at: int, end: int)
    requires
        0 <= at <= end <= s.len(),
        forall|i: int| at <= i < end ==> is_digit(#[trigger] s[i]),
        end < s.len() ==> !is_digit(s[end]),
    ensures
        digits_end(s, at) == end,
    decreases end - at,
{
    if at < end {
        lemma_digits_end_is(s, at + 1, end);
    }
}

/// A run of blanks holds blanks only, and no blank stands behind it.
pub proof fn lemma_blanks_end(s: Seq<char>, at: int)
    requires
        0 <= at <= s.len(),
    ensures
        at <= blanks_end(s, at) <= s.len(),
        forall|i: int| at <= i < blanks_end(s, at) ==> is_blank(#[trigger] s[i]),
        blanks_end(s, at) < s.len() ==> !is_blank(s[blanks_end(s, at)]),
    decreases s.len() - at,
{
    if at < s.len() && is_blank(s[at]) {
        lemma_blanks_end(s, at + 1);
    }
}

/// A run of blanks that stops at `end` is the longest one.
pub proof fn lemma_blanks_end_is(s: Seq<char>, at: int, end: int)
    requires
        0 <= at <= end <= s.len(),
        forall|i: int| at <= i < end ==> is_blank(#[trigger] s[i]),
        end < s.len() ==> !is_blank(s[end]),
    ensures
        blanks_end(s, at) == end,
    decreases end - at,
{
    if at < end {
        lemma_blanks_end_is(s, at + 1, end);
    }
}

/// A numeric token is not empty and ends within the text; a number starts
/// where an integer does.
pub proof fn lemma_number_end(s: Seq<char>, at: int)
    requires
        0 <= at <= s.len(),
    ensures
        integer_end(s, at) matches Some(end) ==> at < end <= s.len(),
        number_end(s, at) matches Some(end) ==> at < end <= s.len(),
        number_end(s, at) is Some <==> integer_end(s, at) is Some,
{
    let first = sign_end(s, at);
    lemma_digits_end(s, first);
    let end = digits_end(s, first);
    if end > first && fraction_at(s, end) {
        lemma_digits_end(s, end + 1);
    }
}

/// Whether `c` is a digit.
pub fn is_digit_char(c: char) -> (b: bool)
    ensures
        b == is_digit(c),
{
    '0' <= c && c <= '9'
}

/// Whether `c` is a blank.
pub fn is_blank_char(c: char) -> (b: bool)
    ensures
        b == is_blank(c),
{
    c == ' ' || c == '\t'
}

/// Whether `c` is a line break.
pub fn is_line_break_char(c: char) -> (b: bool)
    ensures
        b == is_line_break(c),
{
    c == '\n' || c == '\r'
}

/// Skips the digits at `at`.
pub fn scan_digits(chars: &[char], at: usize) -> (end: usize)
    ensures
        end == digits_end(chars@, at as int),
        at <= end,
        at <= chars.len() ==> end <= chars.len(),
{
    let mut i: usize = at;
    while i < chars.len() && is_digit_char(chars[i])
        invariant
            at <= i,
            at <= chars.len() ==> i <= chars.len(),
            at > chars.len() ==> i == at,
            forall|k: int| at <= k < i ==> is_digit(#[trigger] chars@[k]),
        decreases chars.len() - i,
    {
        i += 1;
    }
    proof {
        if at <= chars.len() {
            lemma_digits_end_is(chars@, at as int, i as int);
        }
    }
    i
}

/// Skips the blanks at `at`.
pub fn scan_blanks(chars: &[char], at: usize) -> (end: usize)
    ensures
        end == blanks_end(chars@, at as int),
        at <= end,
        at <= chars.len() ==> end <= chars.len(),
{
    let mut i: usize = at;
    while i < chars.len() && is_blank_char(chars[i])
        invariant
            at <= i,
            at <= chars.len() ==> i <= chars.len(),
            at > chars.len() ==> i == at,
            forall|k: int| at <= k < i ==> is_blank(#[trigger] chars@[k]),
        decreases chars.len() - i,
    {
        i += 1;
    }
    proof {
        if at <= chars.len() {
            lemma_blanks_end_is(chars@, at as int, i as int);
        }
    }
    i
}

/// Matches an integer at `at`.
pub fn scan_integer(chars: &[char], at: usize) -> (end: Option<usize>)
    ensures
        end is Some <==> integer_end(chars@, at as int) is Some,
        end matches Some(e) ==> integer_end(chars@, at as int) == Some(e as int) && at < e
            <= chars.len(),
{
    let first: usize = if at < chars.len() && chars[at] == '-' {
        at + 1
    } else {
        at
    };
    let e = scan_digits(chars, first);
    if e > first {
        Some(e)
    } else {
        None
    }
}

/// Matches a number at `at`.
pub fn scan_number(chars: &[char], at: usize) -> (end: Option<usize>)
    ensures
        end is Some <==> number_end(chars@, at as int) is Some,
        end matches Some(e) ==> number_end(chars@, at as int) == Some(e as int) && at < e
            <= chars.len(),
{
    match scan_integer(chars, at) {
        None => None,
        Some(e) => {
            if e < chars.len() && chars[e] == '.' {
                let f = scan_digits(chars, e + 1);
                if f > e + 1 {
                    return Some(f);
                }
            }
            Some(e)
        },
    }
}

} // verus!
