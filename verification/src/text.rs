//! Searching and rewriting strings, character by character.
use vstd::prelude::*;

use crate::splitting::{has_text, is_first_at, lemma_replaced_step, occurs_at, replaced};

verus! {

/// Specifies [`String::push`]: the character is appended to the string.
pub assume_specification[ String::push ](text: &mut String, c: char)
    ensures
        final(text)@ == old(text)@.push(c),
;

/// The characters of `text`.
pub(crate) fn chars_of(text: &str) -> (chars: Vec<char>)
    ensures
        chars@ == text@,
{
    let mut chars: Vec<char> = Vec::new();
    for c in it: text.chars()
        invariant
            chars@ == text@.take(it.index() as int),
            it.seq() == text@,
    {
        chars.push(c);
    }
    chars
}

/// Appends the characters from `start` up to `end`.
pub(crate) fn push_chars(out: &mut String, chars: &Vec<char>, start: usize, end: usize)
    requires
        start <= end <= chars.len(),
    ensures
        final(out)@ == old(out)@ + chars@.subrange(start as int, end as int),
{
    let mut i: usize = start;
    while i < end
        invariant
            start <= i <= end <= chars.len(),
            out@ == old(out)@ + chars@.subrange(start as int, i as int),
        decreases end - i,
    {
        out.push(chars[i]);
        i = i + 1;
    }
}

/// True when `pattern` stands in `chars` at position `i`.
pub(crate) fn stands_at(chars: &Vec<char>, pattern: &Vec<char>, i: usize) -> (found: bool)
    requires
        i <= chars.len(),
    ensures
        found == occurs_at(chars@, pattern@, i as int),
{
    if chars.len() - i < pattern.len() {
        return false;
    }
    let mut k: usize = 0;
    while k < pattern.len()
        invariant
            k <= pattern.len(),
            i + pattern.len() <= chars.len(),
            forall|j: int| 0 <= j < k ==> #[trigger] pattern@[j] == chars@[i + j],
        decreases pattern.len() - k,
    {
        if chars[i + k] != pattern[k] {
            proof {
                if occurs_at(chars@, pattern@, i as int) {
                    let here = chars@.subrange(i as int, i + pattern.len());
                    assert(here[k as int] == pattern@[k as int]);
                }
            }
            return false;
        }
        k = k + 1;
    }
    assert(chars@.subrange(i as int, i + pattern.len()) =~= pattern@);
    true
}

/// The leftmost position at or after `start` at which `pattern` stands in `chars`.
fn find_from(chars: &Vec<char>, pattern: &Vec<char>, start: usize) -> (found: Option<usize>)
    requires
        start <= chars.len(),
    ensures
        match found {
            Some(i) => start <= i && is_first_at(
                chars@.skip(start as int),
                pattern@,
                i - start,
            ),
            None => !has_text(chars@.skip(start as int), pattern@),
        },
{
    let ghost rest = chars@.skip(start as int);
    let mut i: usize = start;
    while chars.len() - i >= pattern.len()
        invariant
            start <= i <= chars.len(),
            rest == chars@.skip(start as int),
            forall|j: int| j < i - start ==> !occurs_at(rest, pattern@, j),
        decreases chars.len() - i,
    {
        assert(i + pattern.len() <= chars.len());
        assert(rest.subrange(i - start, i - start + pattern.len()) =~= chars@.subrange(
            i as int,
            i + pattern.len(),
        ));
        if stands_at(chars, pattern, i) {
            return Some(i);
        }
        if i == chars.len() {
            return None;
        }
        i = i + 1;
    }
    None
}

/// True when `pattern` stands somewhere in `text`.
pub(crate) fn contains_text(text: &str, pattern: &str) -> (found: bool)
    ensures
        found == has_text(text@, pattern@),
{
    let chars = chars_of(text);
    let wanted = chars_of(pattern);
    assert(chars@.skip(0) =~= chars@);
    find_from(&chars, &wanted, 0).is_some()
}

/// Replaces every occurrence of `from`, taken from the left, by `to`.
pub(crate) fn replace_text(text: &str, from: &str, to: &str) -> (out: String)
    requires
        from@.len() > 0,
    ensures
        out@ == replaced(text@, from@, to@),
{
    let chars = chars_of(text);
    let wanted = chars_of(from);
    let mut out = String::new();
    let mut start: usize = 0;
    assert(chars@.skip(0) =~= chars@);
    loop
        invariant_except_break
            start <= chars.len(),
            wanted@ == from@,
            from@.len() > 0,
            replaced(chars@, from@, to@) == out@ + replaced(chars@.skip(start as int), from@, to@),
        ensures
            out@ == replaced(chars@, from@, to@),
        decreases chars.len() - start,
    {
        let ghost rest = chars@.skip(start as int);
        match find_from(&chars, &wanted, start) {
            Some(i) => {
                proof {
                    lemma_replaced_step(rest, from@, to@, i - start);
                    assert(rest.take(i - start) =~= chars@.subrange(start as int, i as int));
                    assert(rest.skip(i - start + from@.len()) =~= chars@.skip(i + from@.len()));
                }
                push_chars(&mut out, &chars, start, i);
                out.append(to);
                start = i + wanted.len();
            },
            None => {
                push_chars(&mut out, &chars, start, chars.len());
                assert(rest =~= chars@.subrange(start as int, chars@.len() as int));
                break;
            },
        }
    }
    out
}

} // verus!
