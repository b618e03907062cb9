//! Splitting a text at a separator and reading the two sides as values.

use vstd::prelude::*;
use std::str::FromStr;
use num::Complex;

verus! {

/// `num::Complex`, a complex number as a pair of public fields: the real
/// part `re` and the imaginary part `im`.
#[verifier::external_type_specification]
#[verifier::reject_recursive_types(T)]
pub struct ExComplex<T>(Complex<T>);

/// `pattern` stands in `text` at position `at`.
pub open spec fn occurs_at(text: Seq<char>, pattern: Seq<char>, at: int) -> bool {
    &&& 0 <= at
    &&& at + pattern.len() <= text.len()
    &&& text.subrange(at, at + pattern.len()) =~= pattern
}

/// `pattern` stands in `text` at position `at` and at no earlier position.
pub open spec fn is_first_occurrence(text: Seq<char>, pattern: Seq<char>, at: int) -> bool {
    &&& occurs_at(text, pattern, at)
    &&& forall|earlier: int| 0 <= earlier < at ==> !occurs_at(text, pattern, earlier)
}

/// The position of the first occurrence of `pattern` in `text`, if there is one.
pub open spec fn first_occurrence(text: Seq<char>, pattern: Seq<char>) -> Option<int> {
    if exists|at: int| is_first_occurrence(text, pattern, at) {
        Some(choose|at: int| is_first_occurrence(text, pattern, at))
    } else {
        None
    }
}

/// The two sides of `text` around the first occurrence of `separator`.
///
/// The left side ends where the occurrence starts and the right side starts
/// where it ends: no character of the separator is on either side. There are
/// no sides when the separator does not occur. An empty separator occurs at
/// the start of every text, with nothing on its left and the whole text on
/// its right.
pub open spec fn split_once(text: Seq<char>, separator: Seq<char>) -> Option<
    (Seq<char>, Seq<char>),
> {
    match first_occurrence(text, separator) {
        Some(at) => Some((text.take(at), text.skip(at + separator.len()))),
        None => None,
    }
}

/// The pair of two values that are both present.
pub open spec fn both<T>(left: Option<T>, right: Option<T>) -> Option<(T, T)> {
    match (left, right) {
        (Some(l), Some(r)) => Some((l, r)),
        _ => None,
    }
}

/// A text has at most one first occurrence of a pattern.
pub proof fn lemma_first_occurrence_unique(text: Seq<char>, pattern: Seq<char>, a: int, b: int)
    requires
        is_first_occurrence(text, pattern, a),
        is_first_occurrence(text, pattern, b),
    ensures
        a == b,
{
    if a < b {
        assert(!occurs_at(text, pattern, a));
    } else if b < a {
        assert(!occurs_at(text, pattern, b));
    }
}

/// A first occurrence that has been found is the one `first_occurrence` names.
pub proof fn lemma_first_occurrence_found(text: Seq<char>, pattern: Seq<char>, at: int)
    requires
        is_first_occurrence(text, pattern, at),
    ensures
        first_occurrence(text, pattern) == Some(at),
{
    let chosen = choose|k: int| is_first_occurrence(text, pattern, k);
    lemma_first_occurrence_unique(text, pattern, at, chosen);
}

/// The characters of a string, in order.
fn chars_of(s: &str) -> (chars: Vec<char>)
    ensures
        chars@ == s@,
{
    broadcast use vstd::string::group_string_axioms;

    let mut chars: Vec<char> = Vec::new();
    for c in it: s.chars()
        invariant
            it.seq() == s@,
            chars@.len() == it.index(),
            forall|j: int| 0 <= j < chars@.len() ==> chars@[j] == it.seq()[j],
    {
        chars.push(c);
    }
    assert(chars@ =~= s@);
    chars
}

/// Whether `pattern` stands in `text` at position `at`.
fn matches_at(text: &Vec<char>, pattern: &Vec<char>, at: usize) -> (found: bool)
    requires
        at + pattern@.len() <= text@.len(),
    ensures
        found == occurs_at(text@, pattern@, at as int),
{
    let length: usize = text.len();
    let mut i: usize = 0;
    while i < pattern.len()
        invariant
            length == text@.len(),
            at + pattern@.len() <= text@.len(),
            i <= pattern@.len(),
            forall|j: int| 0 <= j < i ==> text@[at + j] == pattern@[j],
        decreases pattern@.len() - i,
    {
        if text[at + i] != pattern[i] {
            proof {
                let window = text@.subrange(at as int, at + pattern@.len());
                assert(window[i as int] == text@[at + i]);
            }
            return false;
        }
        i += 1;
    }
    true
}

/// The position of the first occurrence of `pattern` in `text`.
fn find_first(text: &Vec<char>, pattern: &Vec<char>) -> (result: Option<usize>)
    ensures
        match result {
            Some(at) => is_first_occurrence(text@, pattern@, at as int),
            None => forall|at: int| !occurs_at(text@, pattern@, at),
        },
{
    if pattern.len() > text.len() {
        return None;
    }
    let last: usize = text.len() - pattern.len();
    let mut at: usize = 0;
    while at < last
        invariant
            last == text@.len() - pattern@.len(),
            at <= last,
            forall|earlier: int| 0 <= earlier < at ==> !occurs_at(text@, pattern@, earlier),
        decreases last - at,
    {
        if matches_at(text, pattern, at) {
            return Some(at);
        }
        at += 1;
    }
    if matches_at(text, pattern, last) {
        Some(last)
    } else {
        None
    }
}

/// Splits `s` at the first occurrence of `separator`.
pub fn split_pair<'a>(s: &'a str, separator: &str) -> (result: Option<(&'a str, &'a str)>)
    ensures
        match result {
            Some((left, right)) => split_once(s@, separator@) == Some((left@, right@)),
            None => split_once(s@, separator@) is None,
        },
{
    let text = chars_of(s);
    let pattern = chars_of(separator);
    match find_first(&text, &pattern) {
        None => None,
        Some(at) => {
            proof {
                lemma_first_occurrence_found(s@, separator@, at as int);
            }
            let length: usize = text.len();
            let left = s.substring_char(0, at);
            let right = s.substring_char(at + pattern.len(), length);
            Some((left, right))
        },
    }
}

/// The pair of two values that are both present.
pub fn pair_of<T>(left: Option<T>, right: Option<T>) -> (result: Option<(T, T)>)
    ensures
        result == both(left, right),
{
    match (left, right) {
        (Some(l), Some(r)) => Some((l, r)),
        _ => None,
    }
}

/// Calls `T::from_str` of `std::str::FromStr` on `text` and keeps the value
/// of a success. Nothing is claimed of the outcome: each type reads a text
/// in its own way, and a `from_str` that panics does so here as well.
#[verifier::external_body]
fn parse_text<T: FromStr>(text: &str) -> (parsed: Option<T>) {
    match T::from_str(text) {
        Ok(value) => Some(value),
        Err(_) => None,
    }
}

/// Reads `s` as two values of type `T` around `separator`, such as
/// `"1.25x0.42"` around `"x"`.
///
/// The two sides are those of [`split_once`], and each is read by `T`'s own
/// `from_str`. The result is `None` when there are no two sides; otherwise it
/// is [`pair_of`] what the two readings gave.
pub fn parse_pair<T: FromStr>(s: &str, separator: &str) -> (result: Option<(T, T)>)
    ensures
        split_once(s@, separator@) is None ==> result is None,
{
    match split_pair(s, separator) {
        None => None,
        Some((left, right)) => {
            let l = parse_text::<T>(left);
            let r = parse_text::<T>(right);
            pair_of(l, r)
        },
    }
}

/// The complex number made of a pair's two values, real part first.
pub fn complex_of<T>(pair: Option<(T, T)>) -> (result: Option<Complex<T>>)
    ensures
        result == match pair {
            Some((re, im)) => Some(Complex { re, im }),
            None => None,
        },
{
    match pair {
        Some((re, im)) => Some(Complex { re, im }),
        None => None,
    }
}

/// Reads `s` as a complex number whose parts are separated by a comma, such
/// as `"1.25,-0.42"`.
pub fn parse_complex<T: FromStr>(s: &str) -> (result: Option<Complex<T>>)
    ensures
        split_once(s@, seq![',']) is None ==> result is None,
{
    proof {
        reveal_strlit(",");
        assert(","@ =~= seq![',']);
    }
    complex_of(parse_pair::<T>(s, ","))
}

} // verus!
