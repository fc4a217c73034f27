//! Cutting a text at the occurrences of a separator, and joining the pieces again.
//!
//! Replacing one text by another is cutting at the first and joining with the second, so what
//! replacements undo and what they leave behind is settled here, over sequences of characters.
use vstd::prelude::*;

verus! {

/// `pattern` stands in `text` at position `i`.
pub open spec fn occurs_at(text: Seq<char>, pattern: Seq<char>, i: int) -> bool {
    &&& 0 <= i
    &&& i + pattern.len() <= text.len()
    &&& text.subrange(i, i + pattern.len()) == pattern
}

/// `pattern` stands somewhere in `text`.
pub open spec fn has_text(text: Seq<char>, pattern: Seq<char>) -> bool {
    exists|i: int| occurs_at(text, pattern, i)
}

/// `i` is the leftmost position at which `pattern` stands in `text`.
pub open spec fn is_first_at(text: Seq<char>, pattern: Seq<char>, i: int) -> bool {
    &&& occurs_at(text, pattern, i)
    &&& forall|j: int| j < i ==> !occurs_at(text, pattern, j)
}

/// The leftmost position at which `pattern` stands in `text`, where there is one.
pub open spec fn first_at(text: Seq<char>, pattern: Seq<char>) -> int {
    choose|i: int| is_first_at(text, pattern, i)
}

/// The pieces of `text` around the occurrences of `separator`, which are taken from the left and
/// do not overlap. There is always one piece more than there are occurrences.
pub open spec fn split(text: Seq<char>, separator: Seq<char>) -> Seq<Seq<char>>
    decreases text.len(),
{
    if separator.len() == 0 || !has_text(text, separator) {
        seq![text]
    } else {
        proof {
            lemma_first_at(text, separator);
        }
        let i = first_at(text, separator);
        seq![text.take(i)] + split(text.skip(i + separator.len()), separator)
    }
}

/// The pieces in order, with `separator` between each two.
pub open spec fn join(pieces: Seq<Seq<char>>, separator: Seq<char>) -> Seq<char>
    decreases pieces.len(),
{
    if pieces.len() == 0 {
        seq![]
    } else if pieces.len() == 1 {
        pieces[0]
    } else {
        pieces[0] + separator + join(pieces.drop_first(), separator)
    }
}

/// `text` with every occurrence of `from`, taken from the left, replaced by `to`.
pub open spec fn replaced(text: Seq<char>, from: Seq<char>, to: Seq<char>) -> Seq<char> {
    join(split(text, from), to)
}

/// No occurrence of `separator` can be found in the joined pieces before the one that was put
/// there: neither inside a piece, nor across the end of a piece and the separator behind it.
pub open spec fn separable(pieces: Seq<Seq<char>>, separator: Seq<char>) -> bool {
    &&& pieces.len() > 0
    &&& forall|k: int, i: int|
        0 <= k < pieces.len() - 1 && i < pieces[k].len() ==> !#[trigger] occurs_at(
            pieces[k] + separator,
            separator,
            i,
        )
    &&& !has_text(pieces.last(), separator)
}

/// No proper part at the start of `pattern` is also its end, so two occurrences never overlap.
pub open spec fn unbordered(pattern: Seq<char>) -> bool {
    forall|n: int|
        0 < n < pattern.len() ==> #[trigger] pattern.take(n) != pattern.skip(pattern.len() - n)
}

/// `a` and `b` can be laid over each other so that they share a position and agree on all shared
/// positions: one stands in the other, or the end of one is the start of the other.
pub open spec fn entangled(a: Seq<char>, b: Seq<char>) -> bool {
    exists|d: int| #[trigger] agree_at(a, b, d)
}

/// `a` laid over `b` with its start at position `d` of `b` shares a position with it and agrees on
/// all shared positions.
pub open spec fn agree_at(a: Seq<char>, b: Seq<char>, d: int) -> bool {
    &&& -a.len() < d < b.len()
    &&& forall|k: int| 0 <= k < a.len() && 0 <= k + d < b.len() ==> #[trigger] a[k] == b[k + d]
}

/// The position of the `k`th separator among the joined pieces.
pub open spec fn joint_at(pieces: Seq<Seq<char>>, separator: Seq<char>, k: int) -> int
    decreases k,
{
    if k <= 0 {
        pieces[0].len() as int
    } else {
        pieces[0].len() + separator.len() + joint_at(pieces.drop_first(), separator, k - 1)
    }
}

/// Something `n` characters long that stands at position `i` of the joined pieces shares a
/// character with a separator.
pub open spec fn touches_joint(
    pieces: Seq<Seq<char>>,
    separator: Seq<char>,
    i: int,
    n: int,
) -> bool {
    exists|k: int|
        0 <= k < pieces.len() - 1 && #[trigger] joint_at(pieces, separator, k) - n < i < joint_at(
            pieces,
            separator,
            k,
        ) + separator.len()
}

pub proof fn lemma_first_at(text: Seq<char>, pattern: Seq<char>)
    requires
        has_text(text, pattern),
    ensures
        is_first_at(text, pattern, first_at(text, pattern)),
{
    let i = choose|i: int| occurs_at(text, pattern, i);
    lemma_some_first(text, pattern, i);
}

proof fn lemma_some_first(text: Seq<char>, pattern: Seq<char>, i: int)
    requires
        occurs_at(text, pattern, i),
    ensures
        exists|j: int| is_first_at(text, pattern, j),
    decreases i,
{
    if exists|j: int| j < i && occurs_at(text, pattern, j) {
        let j = choose|j: int| j < i && occurs_at(text, pattern, j);
        lemma_some_first(text, pattern, j);
    } else {
        assert(is_first_at(text, pattern, i));
    }
}

/// What one step of `split` does, for the leftmost occurrence `i`.
pub proof fn lemma_split_step(text: Seq<char>, separator: Seq<char>, i: int)
    requires
        separator.len() > 0,
        is_first_at(text, separator, i),
    ensures
        split(text, separator) == seq![text.take(i)] + split(
            text.skip(i + separator.len()),
            separator,
        ),
{
    lemma_first_at(text, separator);
    assert(first_at(text, separator) == i);
}

pub proof fn lemma_split_not_empty(text: Seq<char>, separator: Seq<char>)
    ensures
        split(text, separator).len() > 0,
{
}

pub proof fn lemma_join_step(first: Seq<char>, rest: Seq<Seq<char>>, separator: Seq<char>)
    requires
        rest.len() > 0,
    ensures
        join(seq![first] + rest, separator) == first + separator + join(rest, separator),
{
    assert((seq![first] + rest).drop_first() =~= rest);
}

/// One step of a replacement, for the leftmost occurrence `i`.
pub proof fn lemma_replaced_step(text: Seq<char>, from: Seq<char>, to: Seq<char>, i: int)
    requires
        from.len() > 0,
        is_first_at(text, from, i),
    ensures
        replaced(text, from, to) == text.take(i) + to + replaced(
            text.skip(i + from.len()),
            from,
            to,
        ),
{
    lemma_split_step(text, from, i);
    let rest = text.skip(i + from.len());
    lemma_split_not_empty(rest, from);
    lemma_join_step(text.take(i), split(rest, from), to);
}

/// A replacement reads the text from the left: where `from` stands next it writes `to` and goes on
/// behind it, and it copies one character otherwise.
pub proof fn law_replaced_reads_from_the_left(text: Seq<char>, from: Seq<char>, to: Seq<char>)
    requires
        from.len() > 0,
    ensures
        text.len() == 0 ==> replaced(text, from, to) == text,
        occurs_at(text, from, 0) ==> replaced(text, from, to) == to + replaced(
            text.skip(from.len() as int),
            from,
            to,
        ),
        text.len() > 0 && !occurs_at(text, from, 0) ==> replaced(text, from, to) == seq![text[0]]
            + replaced(text.drop_first(), from, to),
{
    if occurs_at(text, from, 0) {
        assert(is_first_at(text, from, 0));
        lemma_replaced_step(text, from, to, 0);
        assert(text.take(0) + to =~= to);
    } else if text.len() > 0 {
        let rest = text.drop_first();
        assert forall|i: int| occurs_at(rest, from, i) <==> 0 <= i && occurs_at(
            text,
            from,
            i + 1,
        ) by {
            if 0 <= i && i + 1 + from.len() <= text.len() {
                assert(rest.subrange(i, i + from.len()) =~= text.subrange(
                    i + 1,
                    i + 1 + from.len(),
                ));
            }
        }
        if has_text(text, from) {
            lemma_first_at(text, from);
            let i = first_at(text, from);
            assert(is_first_at(rest, from, i - 1));
            lemma_replaced_step(text, from, to, i);
            lemma_replaced_step(rest, from, to, i - 1);
            assert(text.take(i) =~= seq![text[0]] + rest.take(i - 1));
            assert(text.skip(i + from.len()) =~= rest.skip(i - 1 + from.len()));
            assert(replaced(text, from, to) =~= seq![text[0]] + replaced(rest, from, to));
        } else {
            assert(!has_text(rest, from));
            assert(text =~= seq![text[0]] + rest);
        }
    } else {
        assert(!has_text(text, from));
    }
}

/// Joining the pieces with the text at which they were cut gives back the whole.
pub proof fn lemma_join_split(text: Seq<char>, separator: Seq<char>)
    ensures
        replaced(text, separator, separator) == text,
    decreases text.len(),
{
    if separator.len() > 0 && has_text(text, separator) {
        lemma_first_at(text, separator);
        let i = first_at(text, separator);
        let rest = text.skip(i + separator.len());
        lemma_replaced_step(text, separator, separator, i);
        lemma_join_split(rest, separator);
        assert(text.take(i) + separator + rest =~= text);
    }
}

proof fn lemma_separable_step(first: Seq<char>, rest: Seq<Seq<char>>, separator: Seq<char>)
    requires
        separable(rest, separator),
        forall|i: int| i < first.len() ==> !#[trigger] occurs_at(first + separator, separator, i),
    ensures
        separable(seq![first] + rest, separator),
{
    let pieces = seq![first] + rest;
    assert forall|k: int, i: int|
        0 <= k < pieces.len() - 1 && i < pieces[k].len() implies !#[trigger] occurs_at(
        pieces[k] + separator,
        separator,
        i,
    ) by {
        if k > 0 {
            assert(pieces[k] == rest[k - 1]);
        }
    }
    assert(pieces.last() == rest.last());
}

/// Nothing is found in the first piece and the separator behind it before that separator.
proof fn lemma_first_piece_clear(text: Seq<char>, separator: Seq<char>, i: int, j: int)
    requires
        is_first_at(text, separator, i),
        j < i,
    ensures
        !occurs_at(text.take(i) + separator, separator, j),
{
    let head = text.take(i) + separator;
    if occurs_at(head, separator, j) {
        let n = separator.len() as int;
        assert forall|k: int| 0 <= k < n implies text.subrange(j, j + n)[k] == separator[k] by {
            assert(head.subrange(j, j + n)[k] == separator[k]);
            if j + k >= i {
                assert(text.subrange(i, i + n)[j + k - i] == separator[j + k - i]);
            }
        }
        assert(text.subrange(j, j + n) =~= separator);
        assert(occurs_at(text, separator, j));
    }
}

/// The pieces of a cut text are separable.
pub proof fn lemma_split_separable(text: Seq<char>, separator: Seq<char>)
    requires
        separator.len() > 0,
    ensures
        separable(split(text, separator), separator),
    decreases text.len(),
{
    if has_text(text, separator) {
        lemma_first_at(text, separator);
        let i = first_at(text, separator);
        let rest = text.skip(i + separator.len());
        lemma_split_separable(rest, separator);
        assert forall|j: int| j < text.take(i).len() implies !#[trigger] occurs_at(
            text.take(i) + separator,
            separator,
            j,
        ) by {
            lemma_first_piece_clear(text, separator, i, j);
        }
        lemma_separable_step(text.take(i), split(rest, separator), separator);
        lemma_split_step(text, separator, i);
    } else {
        assert(split(text, separator).last() == text);
    }
}

/// An occurrence of `separator` in the joined pieces that starts inside the first piece lies
/// within the first piece and the separator behind it.
pub proof fn lemma_early_occurrence(pieces: Seq<Seq<char>>, glue: Seq<char>, i: int)
    requires
        pieces.len() > 1,
        i < pieces[0].len(),
        occurs_at(join(pieces, glue), glue, i),
    ensures
        occurs_at(pieces[0] + glue, glue, i),
{
    let whole = join(pieces, glue);
    assert(whole.subrange(i, i + glue.len()) =~= (pieces[0] + glue).subrange(i, i + glue.len()));
}

/// Separable pieces are found again by cutting what they were joined to.
pub proof fn lemma_split_join(pieces: Seq<Seq<char>>, separator: Seq<char>)
    requires
        separator.len() > 0,
        separable(pieces, separator),
    ensures
        split(join(pieces, separator), separator) == pieces,
    decreases pieces.len(),
{
    let whole = join(pieces, separator);
    if pieces.len() == 1 {
        assert(pieces =~= seq![pieces[0]]);
    } else {
        let rest = pieces.drop_first();
        lemma_separable_rest(pieces, separator);
        lemma_split_join(rest, separator);
        let i = pieces[0].len() as int;
        assert(whole.subrange(i, i + separator.len()) =~= separator);
        assert forall|j: int| j < i implies !occurs_at(whole, separator, j) by {
            if occurs_at(whole, separator, j) {
                lemma_early_occurrence(pieces, separator, j);
            }
        }
        lemma_split_step(whole, separator, i);
        assert(whole.take(i) =~= pieces[0]);
        assert(whole.skip(i + separator.len()) =~= join(rest, separator));
        assert(seq![pieces[0]] + rest =~= pieces);
    }
}

pub proof fn lemma_separable_rest(pieces: Seq<Seq<char>>, separator: Seq<char>)
    requires
        pieces.len() > 1,
        separable(pieces, separator),
    ensures
        separable(pieces.drop_first(), separator),
{
    let rest = pieces.drop_first();
    assert forall|k: int, i: int|
        0 <= k < rest.len() - 1 && i < rest[k].len() implies !#[trigger] occurs_at(
        rest[k] + separator,
        separator,
        i,
    ) by {
        assert(rest[k] == pieces[k + 1]);
    }
    assert(rest.last() == pieces.last());
}

/// For a separator whose occurrences never overlap, pieces are separable exactly where none of
/// them holds it.
pub proof fn lemma_unbordered_separable(pieces: Seq<Seq<char>>, separator: Seq<char>)
    requires
        pieces.len() > 0,
        separator.len() > 0,
        unbordered(separator),
    ensures
        separable(pieces, separator) <==> (forall|k: int|
            0 <= k < pieces.len() ==> !has_text(#[trigger] pieces[k], separator)),
{
    if separable(pieces, separator) {
        assert forall|k: int| 0 <= k < pieces.len() implies !has_text(
            #[trigger] pieces[k],
            separator,
        ) by {
            if k < pieces.len() - 1 && has_text(pieces[k], separator) {
                let i = choose|i: int| occurs_at(pieces[k], separator, i);
                assert((pieces[k] + separator).subrange(i, i + separator.len()) =~= separator);
                assert(occurs_at(pieces[k] + separator, separator, i));
            }
        }
    }
    if forall|k: int| 0 <= k < pieces.len() ==> !has_text(#[trigger] pieces[k], separator) {
        assert forall|k: int, i: int|
            0 <= k < pieces.len() - 1 && i < pieces[k].len() implies !#[trigger] occurs_at(
            pieces[k] + separator,
            separator,
            i,
        ) by {
            if occurs_at(pieces[k] + separator, separator, i) {
                lemma_unbordered_inside(pieces[k], separator, i);
                assert(pieces[k].subrange(i, i + separator.len()) =~= separator);
                assert(occurs_at(pieces[k], separator, i));
            }
        }
    }
}

/// Where occurrences never overlap, one that starts before the separator also ends before it.
proof fn lemma_unbordered_inside(piece: Seq<char>, separator: Seq<char>, i: int)
    requires
        unbordered(separator),
        i < piece.len(),
        occurs_at(piece + separator, separator, i),
    ensures
        i + separator.len() <= piece.len(),
        piece.subrange(i, i + separator.len()) == separator,
{
    let whole = piece + separator;
    let n = i + separator.len() - piece.len();
    if n > 0 {
        let d = separator.len() - n;
        assert forall|k: int| 0 <= k < n implies separator.take(n)[k] == separator.skip(d)[k] by {
            assert(whole.subrange(i, i + separator.len())[k + d] == separator[k + d]);
        }
        assert(separator.take(n) =~= separator.skip(d));
        assert(false);
    }
    assert(piece.subrange(i, i + separator.len()) =~= whole.subrange(i, i + separator.len()));
}

/// A replacement shortens, keeps or lengthens a text that holds `from` as `to` is shorter than,
/// as long as or longer than `from`.
proof fn lemma_replaced_len(text: Seq<char>, from: Seq<char>, to: Seq<char>)
    requires
        from.len() > 0,
    ensures
        to.len() == from.len() ==> replaced(text, from, to).len() == text.len(),
        to.len() > from.len() ==> replaced(text, from, to).len() >= text.len(),
        to.len() < from.len() ==> replaced(text, from, to).len() <= text.len(),
        has_text(text, from) && to.len() > from.len() ==> replaced(text, from, to).len()
            > text.len(),
        has_text(text, from) && to.len() < from.len() ==> replaced(text, from, to).len()
            < text.len(),
    decreases text.len(),
{
    if has_text(text, from) {
        lemma_first_at(text, from);
        let i = first_at(text, from);
        lemma_replaced_step(text, from, to, i);
        lemma_replaced_len(text.skip(i + from.len()), from, to);
    }
}

/// A replacement leaves a text as it is exactly where there is nothing to replace, or where it
/// replaces a text by itself.
pub proof fn lemma_replaced_unchanged(text: Seq<char>, from: Seq<char>, to: Seq<char>)
    requires
        from.len() > 0,
    ensures
        replaced(text, from, to) == text <==> !has_text(text, from) || from == to,
{
    if from == to {
        lemma_join_split(text, from);
    } else if has_text(text, from) {
        lemma_replaced_len(text, from, to);
        lemma_first_at(text, from);
        let i = first_at(text, from);
        lemma_replaced_step(text, from, to, i);
        if replaced(text, from, to) == text {
            assert(text.subrange(i, i + from.len()) =~= to);
            assert(false);
        }
    }
}

proof fn lemma_join_len(pieces: Seq<Seq<char>>, a: Seq<char>, b: Seq<char>)
    requires
        pieces.len() > 0,
    ensures
        join(pieces, b).len() - join(pieces, a).len() == (pieces.len() - 1) * (b.len() - a.len()),
    decreases pieces.len(),
{
    if pieces.len() > 1 {
        lemma_join_len(pieces.drop_first(), a, b);
        let n = pieces.len() as int;
        let d = b.len() - a.len();
        assert((n - 2) * d + d == (n - 1) * d) by (nonlinear_arith);
    } else {
        assert(0 * (b.len() - a.len()) == 0) by (nonlinear_arith);
    }
}

/// Cutting joined pieces at a separator whose occurrences never overlap cuts them further where
/// they hold it, and nowhere else.
proof fn lemma_cut_further(pieces: Seq<Seq<char>>, a: Seq<char>, b: Seq<char>)
    requires
        a.len() > 0,
        unbordered(a),
        pieces.len() > 0,
    ensures
        split(join(pieces, a), a).len() >= pieces.len(),
        split(join(pieces, a), a).len() == pieces.len() ==> split(join(pieces, a), a) == pieces,
        a.len() == b.len() && join(split(join(pieces, a), a), b) == join(pieces, b) ==> a == b
            || split(join(pieces, a), a) == pieces,
    decreases join(pieces, a).len(),
{
    let whole = join(pieces, a);
    let cut = split(whole, a);
    if !has_text(whole, a) {
        if pieces.len() > 1 {
            let i = pieces[0].len() as int;
            assert(whole.subrange(i, i + a.len()) =~= a);
            assert(occurs_at(whole, a, i));
            assert(false);
        }
        assert(pieces =~= seq![pieces[0]]);
    } else {
        lemma_first_at(whole, a);
        let i = first_at(whole, a);
        let n = pieces[0].len() as int;
        lemma_split_step(whole, a, i);
        let after = whole.skip(i + a.len());
        lemma_split_not_empty(after, a);
        lemma_join_step(whole.take(i), split(after, a), b);
        if pieces.len() > 1 {
            assert(whole.subrange(n, n + a.len()) =~= a);
            assert(occurs_at(whole, a, n));
        }
        if i < n {
            if pieces.len() > 1 {
                lemma_early_occurrence(pieces, a, i);
                lemma_unbordered_inside(pieces[0], a, i);
            }
            let head = pieces[0].skip(i + a.len());
            let tail = pieces.drop_first();
            let smaller = seq![head] + tail;
            if pieces.len() > 1 {
                lemma_join_step(head, tail, a);
            } else {
                assert(smaller =~= seq![head]);
            }
            assert(join(smaller, a) =~= after);
            lemma_cut_further(smaller, a, b);
            if a.len() == b.len() && join(cut, b) == join(pieces, b) {
                assert(join(cut, b).subrange(i, i + b.len()) =~= b);
                assert(join(pieces, b).subrange(i, i + b.len()) =~= pieces[0].subrange(
                    i,
                    i + a.len(),
                ));
                assert(pieces[0].subrange(i, i + a.len()) =~= whole.subrange(i, i + a.len()));
            }
        } else {
            assert(pieces.len() > 1);
            assert(i == n);
            let tail = pieces.drop_first();
            assert(after =~= join(tail, a));
            assert(whole.take(i) =~= pieces[0]);
            lemma_cut_further(tail, a, b);
            assert(pieces =~= seq![pieces[0]] + tail);
            if join(cut, b) == join(pieces, b) {
                assert(join(split(after, a), b) =~= join(cut, b).skip(n + b.len()));
                assert(join(tail, b) =~= join(pieces, b).skip(n + b.len()));
            }
        }
    }
}

/// Pieces that were joined with `a`, cut at `a` and joined with `b` are those joined with `b`,
/// exactly where they are separable by `a`, or where `a` is `b`.
pub proof fn lemma_join_through(pieces: Seq<Seq<char>>, a: Seq<char>, b: Seq<char>)
    requires
        pieces.len() > 0,
        a.len() > 0,
        unbordered(a),
    ensures
        replaced(join(pieces, a), a, b) == join(pieces, b) <==> a == b || separable(pieces, a),
{
    let whole = join(pieces, a);
    let cut = split(whole, a);
    lemma_split_not_empty(whole, a);
    lemma_join_split(whole, a);
    if separable(pieces, a) {
        lemma_split_join(pieces, a);
    }
    if join(cut, b) == join(pieces, b) && a != b {
        lemma_join_len(pieces, a, b);
        lemma_join_len(cut, a, b);
        lemma_cut_further(pieces, a, b);
        let m = cut.len() - 1;
        let n = pieces.len() - 1;
        let d = b.len() - a.len();
        assert(m == n || d == 0) by (nonlinear_arith)
            requires
                m * d == n * d,
        ;
        lemma_split_separable(whole, a);
    }
}

/// Joining two or more pieces with another separator gives another text.
pub proof fn lemma_join_differs(pieces: Seq<Seq<char>>, a: Seq<char>, b: Seq<char>)
    requires
        pieces.len() > 1,
        join(pieces, a) == join(pieces, b),
    ensures
        a == b,
{
    lemma_join_len(pieces, a, b);
    let n = pieces.len() - 1;
    let d = b.len() - a.len();
    assert(d == 0) by (nonlinear_arith)
        requires
            n * d == 0,
            n > 0,
    ;
    let i = pieces[0].len() as int;
    assert(a =~= join(pieces, a).subrange(i, i + a.len()));
    assert(b =~= join(pieces, b).subrange(i, i + b.len()));
}

/// What stands in the joined pieces and in none of them touches a separator.
pub proof fn lemma_join_occurrence(
    pieces: Seq<Seq<char>>,
    separator: Seq<char>,
    pattern: Seq<char>,
    i: int,
)
    requires
        pieces.len() > 0,
        separator.len() > 0,
        forall|k: int| 0 <= k < pieces.len() ==> !has_text(#[trigger] pieces[k], pattern),
        occurs_at(join(pieces, separator), pattern, i),
    ensures
        touches_joint(pieces, separator, i, pattern.len() as int),
    decreases pieces.len(),
{
    let whole = join(pieces, separator);
    let n = pattern.len() as int;
    let first = pieces[0];
    if i + n <= first.len() {
        assert(first.subrange(i, i + n) =~= whole.subrange(i, i + n));
        assert(occurs_at(first, pattern, i));
        assert(has_text(pieces[0], pattern));
    } else if i < first.len() + separator.len() {
        assert(joint_at(pieces, separator, 0) == first.len());
    } else {
        let rest = pieces.drop_first();
        let d = first.len() + separator.len();
        assert(join(rest, separator).subrange(i - d, i - d + n) =~= whole.subrange(i, i + n));
        assert forall|k: int| 0 <= k < rest.len() implies !has_text(
            #[trigger] rest[k],
            pattern,
        ) by {
            assert(rest[k] == pieces[k + 1]);
        }
        lemma_join_occurrence(rest, separator, pattern, i - d);
        let k = choose|k: int|
            0 <= k < rest.len() - 1 && #[trigger] joint_at(rest, separator, k) - n < i - d
                < joint_at(rest, separator, k) + separator.len();
        assert(joint_at(pieces, separator, k + 1) == d + joint_at(rest, separator, k));
    }
}

/// Where `from` still stands after a replacement, it touches an inserted `to`.
pub proof fn lemma_replaced_occurrence(text: Seq<char>, from: Seq<char>, to: Seq<char>, i: int)
    requires
        from.len() > 0,
        to.len() > 0,
        occurs_at(replaced(text, from, to), from, i),
    ensures
        touches_joint(split(text, from), to, i, from.len() as int),
{
    let pieces = split(text, from);
    lemma_split_not_empty(text, from);
    lemma_split_separable(text, from);
    assert forall|k: int| 0 <= k < pieces.len() implies !has_text(#[trigger] pieces[k], from) by {
        if k < pieces.len() - 1 && has_text(pieces[k], from) {
            let j = choose|j: int| occurs_at(pieces[k], from, j);
            assert((pieces[k] + from).subrange(j, j + from.len()) =~= from);
            assert(occurs_at(pieces[k] + from, from, j));
        }
    }
    lemma_join_occurrence(pieces, to, from, i);
}

/// A separator stands at each joint.
proof fn lemma_joint(pieces: Seq<Seq<char>>, separator: Seq<char>, k: int)
    requires
        0 <= k < pieces.len() - 1,
    ensures
        occurs_at(join(pieces, separator), separator, joint_at(pieces, separator, k)),
    decreases k,
{
    let whole = join(pieces, separator);
    let n = separator.len() as int;
    let i = joint_at(pieces, separator, k);
    if k > 0 {
        let rest = pieces.drop_first();
        let d = pieces[0].len() + n;
        lemma_joint(rest, separator, k - 1);
        assert(whole.subrange(i, i + n) =~= join(rest, separator).subrange(i - d, i - d + n));
    } else {
        assert(whole.subrange(i, i + n) =~= separator);
    }
}

/// What stands in the joined pieces and touches a separator can be laid over it.
pub proof fn lemma_touching_is_entangled(
    pieces: Seq<Seq<char>>,
    separator: Seq<char>,
    pattern: Seq<char>,
    i: int,
)
    requires
        occurs_at(join(pieces, separator), pattern, i),
        touches_joint(pieces, separator, i, pattern.len() as int),
    ensures
        entangled(pattern, separator),
{
    let whole = join(pieces, separator);
    let n = pattern.len() as int;
    let k = choose|k: int|
        0 <= k < pieces.len() - 1 && #[trigger] joint_at(pieces, separator, k) - n < i < joint_at(
            pieces,
            separator,
            k,
        ) + separator.len();
    lemma_joint(pieces, separator, k);
    let p = joint_at(pieces, separator, k);
    let d = i - p;
    assert forall|j: int| 0 <= j < n && 0 <= j + d < separator.len() implies #[trigger] pattern[j]
        == separator[j + d] by {
        assert(whole.subrange(i, i + n)[j] == pattern[j]);
        assert(whole.subrange(p, p + separator.len())[j + d] == separator[j + d]);
    }
    assert(agree_at(pattern, separator, d));
}

} // verus!
