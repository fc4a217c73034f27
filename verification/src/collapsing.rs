//! Finding the home in a text.
//!
//! A path in a text is the home, or lies below it, only where the name of the last component of
//! the home ends: `/Users/alice-backup` holds the characters of `/Users/alice` and is another
//! directory. A name goes on with
//!
//! - a letter or a digit,
//! - `.`, `-` or `_`, where behind all of these comes a letter, a digit or a `/`:
//!   `/Users/alice.bak` and `/Users/alice-old` are other directories; in a sentence that ends in
//!   `/Users/alice.` or before an arrow `->` the home is meant.
//!
//! Everything else ends it: a slash, a quote, white space, a backslash (which starts an escape in
//! JSON), other punctuation, and the end of the text. What stands before the home is not looked
//! at. In JSON a line break is written as a backslash and a letter, and in a compiler flag a path
//! follows a letter, so that a letter before the home says nothing.
use vstd::prelude::*;

use crate::splitting::{
    has_text, join, lemma_early_occurrence, lemma_join_step, lemma_separable_rest, occurs_at,
    separable,
};
use crate::text::{chars_of, push_chars, stands_at};

verus! {

/// The letters and digits of Unicode.
pub uninterp spec fn alphanumeric(c: char) -> bool;

/// Specifies [`char::is_alphanumeric`]: the result depends on the character alone. It is named,
/// since it is what the tables of Unicode say.
pub assume_specification[ char::is_alphanumeric ](c: char) -> (found: bool)
    ensures
        found == alphanumeric(c),
;

/// A letter or a digit.
pub open spec fn is_word_char(c: char) -> bool {
    if (c as u32) < 0x80 {
        ||| 'a' <= c <= 'z'
        ||| 'A' <= c <= 'Z'
        ||| '0' <= c <= '9'
    } else {
        alphanumeric(c)
    }
}

/// A character that stands inside names as well as behind them.
pub open spec fn is_joiner(c: char) -> bool {
    c == '.' || c == '-' || c == '_'
}

/// `text` without the joiners at its start.
pub open spec fn without_start_joiners(text: Seq<char>) -> Seq<char>
    decreases text.len(),
{
    if text.len() > 0 && is_joiner(text[0]) {
        without_start_joiners(text.drop_first())
    } else {
        text
    }
}

/// A name that stands before `rest` goes on in it.
pub open spec fn name_goes_on(rest: Seq<char>) -> bool {
    let tail = without_start_joiners(rest);
    tail.len() > 0 && (is_word_char(tail[0]) || (tail[0] == '/' && tail.len() < rest.len()))
}

/// The home, and not a longer name, stands in `text` at position `i`.
pub open spec fn stands_as_home(text: Seq<char>, home: Seq<char>, i: int) -> bool {
    &&& occurs_at(text, home, i)
    &&& !name_goes_on(text.skip(i + home.len()))
}

/// The home stands somewhere in `text`.
pub open spec fn has_home(text: Seq<char>, home: Seq<char>) -> bool {
    exists|i: int| stands_as_home(text, home, i)
}

/// `i` is the leftmost position at which the home stands in `text`.
pub open spec fn is_first_home_at(text: Seq<char>, home: Seq<char>, i: int) -> bool {
    &&& stands_as_home(text, home, i)
    &&& forall|j: int| j < i ==> !stands_as_home(text, home, j)
}

/// The leftmost position at which the home stands in `text`, where there is one.
pub open spec fn first_home_at(text: Seq<char>, home: Seq<char>) -> int {
    choose|i: int| is_first_home_at(text, home, i)
}

/// The pieces of `text` around the home, which is looked for from the left.
pub open spec fn home_pieces(text: Seq<char>, home: Seq<char>) -> Seq<Seq<char>>
    decreases text.len(),
{
    if home.len() == 0 || !has_home(text, home) {
        seq![text]
    } else {
        proof {
            lemma_first_home_at(text, home);
        }
        let i = first_home_at(text, home);
        seq![text.take(i)] + home_pieces(text.skip(i + home.len()), home)
    }
}

/// `text` with the home replaced by `to`.
pub open spec fn rehomed(text: Seq<char>, home: Seq<char>, to: Seq<char>) -> Seq<char> {
    join(home_pieces(text, home), to)
}

/// Pieces that are joined with the home are found again by looking for the home.
pub open spec fn found_again(pieces: Seq<Seq<char>>, home: Seq<char>) -> bool {
    home_pieces(join(pieces, home), home) == pieces
}

/// Behind each piece but the last, what follows the joined home does not go on with its name.
pub open spec fn ends_names(pieces: Seq<Seq<char>>, home: Seq<char>) -> bool {
    forall|k: int| 0 < k < pieces.len() ==> !name_goes_on(join(#[trigger] pieces.skip(k), home))
}

pub proof fn lemma_first_home_at(text: Seq<char>, home: Seq<char>)
    requires
        has_home(text, home),
    ensures
        is_first_home_at(text, home, first_home_at(text, home)),
{
    let i = choose|i: int| stands_as_home(text, home, i);
    lemma_some_first_home(text, home, i);
}

proof fn lemma_some_first_home(text: Seq<char>, home: Seq<char>, i: int)
    requires
        stands_as_home(text, home, i),
    ensures
        exists|j: int| is_first_home_at(text, home, j),
    decreases i,
{
    if exists|j: int| j < i && stands_as_home(text, home, j) {
        let j = choose|j: int| j < i && stands_as_home(text, home, j);
        lemma_some_first_home(text, home, j);
    } else {
        assert(is_first_home_at(text, home, i));
    }
}

/// What one step of `home_pieces` does, for the leftmost home `i`.
pub proof fn lemma_home_pieces_step(text: Seq<char>, home: Seq<char>, i: int)
    requires
        home.len() > 0,
        is_first_home_at(text, home, i),
    ensures
        home_pieces(text, home) == seq![text.take(i)] + home_pieces(
            text.skip(i + home.len()),
            home,
        ),
{
    lemma_first_home_at(text, home);
    assert(first_home_at(text, home) == i);
}

pub proof fn lemma_home_pieces_not_empty(text: Seq<char>, home: Seq<char>)
    ensures
        home_pieces(text, home).len() > 0,
{
}

/// One step of replacing the home, for the leftmost home `i`.
pub proof fn lemma_rehomed_step(text: Seq<char>, home: Seq<char>, to: Seq<char>, i: int)
    requires
        home.len() > 0,
        is_first_home_at(text, home, i),
    ensures
        rehomed(text, home, to) == text.take(i) + to + rehomed(
            text.skip(i + home.len()),
            home,
            to,
        ),
{
    lemma_home_pieces_step(text, home, i);
    let rest = text.skip(i + home.len());
    lemma_home_pieces_not_empty(rest, home);
    lemma_join_step(text.take(i), home_pieces(rest, home), to);
}

/// Whether the home stands at a position depends only on what stands there and behind it.
proof fn lemma_stands_behind(text: Seq<char>, home: Seq<char>, n: int, i: int)
    requires
        0 <= n <= text.len(),
        0 <= i,
    ensures
        stands_as_home(text.skip(n), home, i) == stands_as_home(text, home, n + i),
{
    let rest = text.skip(n);
    if i + home.len() <= rest.len() {
        assert(rest.subrange(i, i + home.len()) =~= text.subrange(n + i, n + i + home.len()));
        assert(rest.skip(i + home.len()) =~= text.skip(n + i + home.len()));
    }
}

/// Replacing the home reads the text from the left: where the home stands next it writes `to` and
/// goes on behind the home, and it copies one character otherwise.
pub proof fn law_rehomed_reads_from_the_left(text: Seq<char>, home: Seq<char>, to: Seq<char>)
    requires
        home.len() > 0,
    ensures
        text.len() == 0 ==> rehomed(text, home, to) == text,
        stands_as_home(text, home, 0) ==> rehomed(text, home, to) == to + rehomed(
            text.skip(home.len() as int),
            home,
            to,
        ),
        text.len() > 0 && !stands_as_home(text, home, 0) ==> rehomed(text, home, to)
            == seq![text[0]] + rehomed(text.drop_first(), home, to),
{
    if stands_as_home(text, home, 0) {
        assert(is_first_home_at(text, home, 0));
        lemma_rehomed_step(text, home, to, 0);
        assert(text.take(0) + to =~= to);
    } else if text.len() > 0 {
        let rest = text.drop_first();
        assert(rest =~= text.skip(1));
        assert forall|i: int| stands_as_home(rest, home, i) <==> 0 <= i && stands_as_home(
            text,
            home,
            i + 1,
        ) by {
            if 0 <= i {
                lemma_stands_behind(text, home, 1, i);
            }
        }
        if has_home(text, home) {
            lemma_first_home_at(text, home);
            let i = first_home_at(text, home);
            assert(stands_as_home(rest, home, i - 1));
            assert(is_first_home_at(rest, home, i - 1));
            lemma_rehomed_step(text, home, to, i);
            lemma_rehomed_step(rest, home, to, i - 1);
            assert(text.take(i) =~= seq![text[0]] + rest.take(i - 1));
            assert(text.skip(i + home.len()) =~= rest.skip(i - 1 + home.len()));
            assert(rehomed(text, home, to) =~= seq![text[0]] + rehomed(rest, home, to));
        } else {
            if has_home(rest, home) {
                let i = choose|i: int| stands_as_home(rest, home, i);
                assert(stands_as_home(text, home, i + 1));
            }
            assert(text =~= seq![text[0]] + rest);
        }
    } else {
        assert(!has_home(text, home));
    }
}

/// Joining the pieces with the home gives back the whole.
pub proof fn lemma_join_home_pieces(text: Seq<char>, home: Seq<char>)
    ensures
        rehomed(text, home, home) == text,
    decreases text.len(),
{
    if home.len() > 0 && has_home(text, home) {
        lemma_first_home_at(text, home);
        let i = first_home_at(text, home);
        let rest = text.skip(i + home.len());
        lemma_rehomed_step(text, home, home, i);
        lemma_join_home_pieces(rest, home);
        assert(text.take(i) + home + rest =~= text);
    }
}

/// What stands in a piece stands in the whole, and where it is the home, a longer name stands
/// there.
pub proof fn lemma_home_piece(
    text: Seq<char>,
    home: Seq<char>,
    pattern: Seq<char>,
    k: int,
)
    requires
        home.len() > 0,
        pattern.len() > 0,
        0 <= k < home_pieces(text, home).len(),
        has_text(home_pieces(text, home)[k], pattern),
    ensures
        exists|j: int| #[trigger]
            occurs_at(text, pattern, j) && (pattern == home ==> !stands_as_home(text, home, j)),
    decreases text.len(),
{
    if has_home(text, home) {
        lemma_first_home_at(text, home);
        let i = first_home_at(text, home);
        let next = i + home.len();
        let n = pattern.len() as int;
        lemma_home_pieces_step(text, home, i);
        if k == 0 {
            let head = text.take(i);
            let j = choose|j: int| occurs_at(head, pattern, j);
            assert(text.subrange(j, j + n) =~= head.subrange(j, j + n));
            assert(occurs_at(text, pattern, j));
        } else {
            let rest = text.skip(next);
            lemma_home_piece(rest, home, pattern, k - 1);
            let j = choose|j: int| #[trigger]
                occurs_at(rest, pattern, j) && (pattern == home ==> !stands_as_home(rest, home, j));
            lemma_stands_behind(text, home, next, j);
            assert(text.subrange(next + j, next + j + n) =~= rest.subrange(j, j + n));
            assert(occurs_at(text, pattern, next + j));
        }
    } else {
        let j = choose|j: int| occurs_at(text, pattern, j);
        assert(occurs_at(text, pattern, j));
    }
}

/// Behind the pieces of a text, the names of its homes end.
pub proof fn lemma_home_pieces_end_names(text: Seq<char>, home: Seq<char>)
    requires
        home.len() > 0,
    ensures
        ends_names(home_pieces(text, home), home),
    decreases text.len(),
{
    let pieces = home_pieces(text, home);
    if has_home(text, home) {
        lemma_first_home_at(text, home);
        let i = first_home_at(text, home);
        let rest = text.skip(i + home.len());
        lemma_home_pieces_step(text, home, i);
        lemma_home_pieces_end_names(rest, home);
        lemma_join_home_pieces(rest, home);
        let tail = home_pieces(rest, home);
        assert forall|k: int| 0 < k < pieces.len() implies !name_goes_on(
            join(#[trigger] pieces.skip(k), home),
        ) by {
            assert(pieces.skip(k) =~= tail.skip(k - 1));
            if k == 1 {
                assert(tail.skip(0) =~= tail);
            }
        }
    }
}

/// Separable pieces behind which names end are found again.
pub proof fn lemma_found_again(pieces: Seq<Seq<char>>, home: Seq<char>)
    requires
        home.len() > 0,
        separable(pieces, home),
        ends_names(pieces, home),
    ensures
        found_again(pieces, home),
    decreases pieces.len(),
{
    let whole = join(pieces, home);
    if pieces.len() == 1 {
        assert(pieces =~= seq![pieces[0]]);
        assert forall|i: int| !stands_as_home(whole, home, i) by {
            if occurs_at(whole, home, i) {
                assert(has_text(pieces.last(), home));
            }
        }
    } else {
        let rest = pieces.drop_first();
        lemma_separable_rest(pieces, home);
        assert(rest =~= pieces.skip(1));
        assert forall|k: int| 0 < k < rest.len() implies !name_goes_on(
            join(#[trigger] rest.skip(k), home),
        ) by {
            assert(rest.skip(k) =~= pieces.skip(k + 1));
        }
        lemma_found_again(rest, home);
        let i = pieces[0].len() as int;
        assert(whole.subrange(i, i + home.len()) =~= home);
        assert(whole.skip(i + home.len()) =~= join(rest, home));
        assert(!name_goes_on(join(pieces.skip(1), home)));
        assert(stands_as_home(whole, home, i));
        assert forall|j: int| j < i implies !stands_as_home(whole, home, j) by {
            if occurs_at(whole, home, j) {
                lemma_early_occurrence(pieces, home, j);
            }
        }
        lemma_home_pieces_step(whole, home, i);
        assert(whole.take(i) =~= pieces[0]);
        assert(seq![pieces[0]] + rest =~= pieces);
    }
}

/// Names that end before one home end before another, where both start with a slash.
pub proof fn lemma_ends_names_before(pieces: Seq<Seq<char>>, home: Seq<char>, other: Seq<char>)
    requires
        home.len() > 0 && home[0] == '/',
        other.len() > 0 && other[0] == '/',
        ends_names(pieces, home),
    ensures
        ends_names(pieces, other),
{
    assert forall|k: int| 0 < k < pieces.len() implies !name_goes_on(
        join(#[trigger] pieces.skip(k), other),
    ) by {
        let tail = pieces.skip(k);
        if tail.len() > 1 {
            let rest = tail.drop_first();
            lemma_name_before_slash(tail[0], home + join(rest, home), other + join(rest, other));
            assert(tail[0] + home + join(rest, home) =~= tail[0] + (home + join(rest, home)));
            assert(tail[0] + other + join(rest, other) =~= tail[0] + (other + join(rest, other)));
        }
    }
}

proof fn lemma_name_before_slash(start: Seq<char>, a: Seq<char>, b: Seq<char>)
    requires
        a.len() > 0 && a[0] == '/',
        b.len() > 0 && b[0] == '/',
    ensures
        name_goes_on(start + a) == name_goes_on(start + b),
{
    lemma_joiners_before_slash(start, a);
    lemma_joiners_before_slash(start, b);
    lemma_joiners_shorten(start);
}

/// The joiners at the start of a text that a slash follows are those of the text.
proof fn lemma_joiners_before_slash(start: Seq<char>, a: Seq<char>)
    requires
        a.len() > 0 && a[0] == '/',
    ensures
        without_start_joiners(start + a) == without_start_joiners(start) + a,
    decreases start.len(),
{
    if start.len() == 0 {
        assert(start + a =~= a);
    } else if is_joiner(start[0]) {
        assert((start + a).drop_first() =~= start.drop_first() + a);
        lemma_joiners_before_slash(start.drop_first(), a);
    }
}

proof fn lemma_joiners_shorten(text: Seq<char>)
    ensures
        without_start_joiners(text).len() <= text.len(),
    decreases text.len(),
{
    if text.len() > 0 && is_joiner(text[0]) {
        lemma_joiners_shorten(text.drop_first());
    }
}

/// True when `c` is a letter or a digit.
fn word_char(c: char) -> (found: bool)
    ensures
        found == is_word_char(c),
{
    if c <= '\x7f' {
        ('a' <= c && c <= 'z') || ('A' <= c && c <= 'Z') || ('0' <= c && c <= '9')
    } else {
        c.is_alphanumeric()
    }
}

/// True when a name that ends before position `start` goes on there.
fn goes_on_at(chars: &Vec<char>, start: usize) -> (found: bool)
    requires
        start <= chars.len(),
    ensures
        found == name_goes_on(chars@.skip(start as int)),
{
    let ghost rest = chars@.skip(start as int);
    let mut i: usize = start;
    while i < chars.len() && (chars[i] == '.' || chars[i] == '-' || chars[i] == '_')
        invariant
            start <= i <= chars.len(),
            rest == chars@.skip(start as int),
            without_start_joiners(rest) == without_start_joiners(chars@.skip(i as int)),
        decreases chars.len() - i,
    {
        assert(chars@.skip(i as int).drop_first() =~= chars@.skip(i + 1));
        i = i + 1;
    }
    i < chars.len() && (word_char(chars[i]) || (chars[i] == '/' && i > start))
}

/// The leftmost position at or after `start` at which the home stands in `chars`.
fn find_home(chars: &Vec<char>, home: &Vec<char>, start: usize) -> (found: Option<usize>)
    requires
        start <= chars.len(),
    ensures
        match found {
            Some(i) => start <= i && is_first_home_at(chars@.skip(start as int), home@, i - start),
            None => !has_home(chars@.skip(start as int), home@),
        },
{
    let ghost rest = chars@.skip(start as int);
    let mut i: usize = start;
    while chars.len() - i >= home.len()
        invariant
            start <= i <= chars.len(),
            rest == chars@.skip(start as int),
            forall|j: int| j < i - start ==> !stands_as_home(rest, home@, j),
        decreases chars.len() - i,
    {
        assert(i + home.len() <= chars.len());
        proof {
            lemma_stands_behind(chars@, home@, start as int, i - start);
        }
        if stands_at(chars, home, i) && !goes_on_at(chars, i + home.len()) {
            return Some(i);
        }
        if i == chars.len() {
            return None;
        }
        i = i + 1;
    }
    None
}

/// Replaces the home by `to` wherever it stands.
pub(crate) fn replace_home(text: &str, home: &str, to: &str) -> (out: String)
    requires
        home@.len() > 0,
    ensures
        out@ == rehomed(text@, home@, to@),
{
    let chars = chars_of(text);
    let wanted = chars_of(home);
    let mut out = String::new();
    let mut start: usize = 0;
    assert(chars@.skip(0) =~= chars@);
    loop
        invariant_except_break
            start <= chars.len(),
            wanted@ == home@,
            home@.len() > 0,
            rehomed(chars@, home@, to@) == out@ + rehomed(chars@.skip(start as int), home@, to@),
        ensures
            out@ == rehomed(chars@, home@, to@),
        decreases chars.len() - start,
    {
        let ghost rest = chars@.skip(start as int);
        match find_home(&chars, &wanted, start) {
            Some(i) => {
                proof {
                    lemma_rehomed_step(rest, home@, to@, i - start);
                    assert(rest.take(i - start) =~= chars@.subrange(start as int, i as int));
                    assert(rest.skip(i - start + home@.len()) =~= chars@.skip(i + home@.len()));
                }
                push_chars(&mut out, &chars, start, i);
                out.append(to);
                start = i + wanted.len();
            },
            None => {
                push_chars(&mut out, &chars, start, chars.len());
                assert(rest =~= chars@.subrange(start as int, chars@.len() as int));
                break;
            },
        }
    }
    out
}

} // verus!
