//! The home directory inside session and artifact content.
use vstd::prelude::*;

use crate::collapsing::{
    first_home_at, found_again, has_home, home_pieces, lemma_ends_names_before, lemma_first_home_at,
    lemma_found_again, lemma_home_piece, lemma_home_pieces_end_names, lemma_home_pieces_not_empty,
    lemma_home_pieces_step, lemma_join_home_pieces, lemma_rehomed_step, rehomed, replace_home,
    stands_as_home,
};
use crate::home::{home_prefix, home_prefix_of, law_home_prefix_is_canonical, text_of};
use crate::laws::law_where_a_text_stands;
use crate::splitting::{
    agree_at, entangled, has_text, join, lemma_join_differs, lemma_join_occurrence,
    lemma_join_split, lemma_join_through, lemma_replaced_occurrence, lemma_replaced_unchanged,
    lemma_split_join, lemma_split_not_empty, lemma_touching_is_entangled,
    lemma_unbordered_separable, occurs_at, replaced, separable, split, touches_joint, unbordered,
};
use crate::text::{contains_text, replace_text};

verus! {

/// Placeholder for the home directory inside session and artifact content.
pub const HOME_TOKEN: &'static str = "{{CLAUDE_SYNC_HOME}}";

/// `content` with the home prefix of its paths replaced by the placeholder. A directory whose name
/// only starts like that of the home is left as it is.
pub open spec fn portable_content(content: Seq<char>, home: Option<Seq<char>>) -> Seq<char> {
    match home_prefix_of(home) {
        Some(prefix) => rehomed(content, prefix, HOME_TOKEN@),
        None => content,
    }
}

/// `content` with the placeholder expanded to the home.
pub open spec fn expanded_content(content: Seq<char>, home: Option<Seq<char>>) -> Seq<char> {
    match home_prefix_of(home) {
        Some(prefix) => replaced(content, HOME_TOKEN@, prefix),
        None => content,
    }
}

/// A placeholder stands in what is left of `content` around the home, so that it cannot be told
/// from one that was put in place of the home.
pub open spec fn keeps_token(content: Seq<char>, home: Option<Seq<char>>) -> bool {
    match home_prefix_of(home) {
        Some(prefix) => exists|k: int|
            0 <= k < home_pieces(content, prefix).len() && has_text(
                #[trigger] home_pieces(content, prefix)[k],
                HOME_TOKEN@,
            ),
        None => false,
    }
}

/// Replaces the local home prefix by [`HOME_TOKEN`]. Does nothing when the home is unknown.
///
/// Only paths that are the home or lie below it are touched: see [`crate::collapsing`] for where
/// the name of the home ends.
pub fn to_portable(content: &str, home: Option<&str>) -> (portable: String)
    ensures
        portable@ == portable_content(content@, text_of(home)),
        home matches Some(dir) ==> portable@ == portable_content(content@, Some(dir@)),
        home is None ==> portable@ == content@,
{
    match home_prefix(home) {
        Some(prefix) => replace_home(content, prefix.as_str(), HOME_TOKEN),
        None => content.to_owned(),
    }
}

/// Expands [`HOME_TOKEN`] to the local home. Does nothing when the home is unknown.
pub fn from_portable(content: &str, home: Option<&str>) -> (expanded: String)
    ensures
        expanded@ == expanded_content(content@, text_of(home)),
        home matches Some(dir) ==> expanded@ == expanded_content(content@, Some(dir@)),
        home is None ==> expanded@ == content@,
{
    proof {
        lemma_token();
    }
    match home_prefix(home) {
        Some(prefix) => replace_text(content, HOME_TOKEN, prefix.as_str()),
        None => content.to_owned(),
    }
}

/// True when the content carries a placeholder that needs expanding.
pub fn has_token(content: &str) -> (found: bool)
    ensures
        found == has_text(content@, HOME_TOKEN@),
        found <==> exists|i: int|
            0 <= i && i + 20 <= content@.len() && #[trigger] content@.subrange(i, i + 20)
                == "{{CLAUDE_SYNC_HOME}}"@,
{
    proof {
        lemma_token();
        law_where_a_text_stands(content@, HOME_TOKEN@);
    }
    contains_text(content, HOME_TOKEN)
}

/// Only the home is touched: around it, collapsed content is the content.
pub proof fn law_only_the_home_is_touched(content: Seq<char>, home: Option<Seq<char>>)
    requires
        home_prefix_of(home) is Some,
    ensures
        content == join(home_pieces(content, home_prefix_of(home)->0), home_prefix_of(home)->0),
        portable_content(content, home) == join(
            home_pieces(content, home_prefix_of(home)->0),
            HOME_TOKEN@,
        ),
{
    lemma_join_home_pieces(content, home_prefix_of(home)->0);
}

/// Collapsing changes content exactly where the home stands in it, unless the home is unknown or
/// is the placeholder itself. A longer name that starts like the home is no home.
pub proof fn law_content_outside_home_is_untouched(content: Seq<char>, home: Option<Seq<char>>)
    ensures
        portable_content(content, home) == content <==> (home_prefix_of(home) matches Some(prefix)
            ==> !has_home(content, prefix) || prefix == HOME_TOKEN@),
{
    if let Some(prefix) = home_prefix_of(home) {
        law_home_prefix_is_canonical(home);
        lemma_join_home_pieces(content, prefix);
        if has_home(content, prefix) {
            lemma_first_home_at(content, prefix);
            let i = first_home_at(content, prefix);
            lemma_home_pieces_step(content, prefix, i);
            lemma_home_pieces_not_empty(content.skip(i + prefix.len()), prefix);
            if portable_content(content, home) == content {
                lemma_join_differs(home_pieces(content, prefix), prefix, HOME_TOKEN@);
            }
        }
    }
}

/// Expanding on the machine that collapsed the home gives back the content, exactly where no
/// placeholder stood in it around the home, or where the home is the placeholder itself.
pub proof fn law_content_round_trip(content: Seq<char>, home: Option<Seq<char>>)
    ensures
        expanded_content(portable_content(content, home), home) == content <==> !keeps_token(
            content,
            home,
        ) || home_prefix_of(home) == Some(HOME_TOKEN@),
{
    if let Some(prefix) = home_prefix_of(home) {
        lemma_join_home_pieces(content, prefix);
        law_content_moves_between_homes(content, home, home);
    }
}

/// Content that holds no placeholder survives the way into the repository and back.
pub proof fn law_content_without_token_round_trip(content: Seq<char>, home: Option<Seq<char>>)
    requires
        !has_text(content, HOME_TOKEN@),
    ensures
        !keeps_token(content, home),
        expanded_content(portable_content(content, home), home) == content,
{
    law_content_round_trip(content, home);
    if let Some(prefix) = home_prefix_of(home) {
        lemma_token();
        law_home_prefix_is_canonical(home);
        assert forall|k: int| 0 <= k < home_pieces(content, prefix).len() implies !has_text(
            #[trigger] home_pieces(content, prefix)[k],
            HOME_TOKEN@,
        ) by {
            if has_text(home_pieces(content, prefix)[k], HOME_TOKEN@) {
                lemma_home_piece(content, prefix, HOME_TOKEN@, k);
            }
        }
    }
}

/// Content collapsed on one machine and expanded on another names the second home wherever it
/// named the first, exactly where no placeholder stood in it around the first home, or where the
/// second home is the placeholder itself.
pub proof fn law_content_moves_between_homes(
    content: Seq<char>,
    home: Option<Seq<char>>,
    other_home: Option<Seq<char>>,
)
    requires
        home_prefix_of(home) is Some,
        home_prefix_of(other_home) is Some,
    ensures
        expanded_content(portable_content(content, home), other_home) == rehomed(
            content,
            home_prefix_of(home)->0,
            home_prefix_of(other_home)->0,
        ) <==> !keeps_token(content, home) || home_prefix_of(other_home) == Some(HOME_TOKEN@),
{
    let pieces = home_pieces(content, home_prefix_of(home)->0);
    lemma_token();
    lemma_home_pieces_not_empty(content, home_prefix_of(home)->0);
    lemma_join_through(pieces, HOME_TOKEN@, home_prefix_of(other_home)->0);
    lemma_unbordered_separable(pieces, HOME_TOKEN@);
}

/// Stored content that was expanded and not touched is stored as it was, exactly where the home
/// is found again in it, or where the home is the placeholder itself.
pub proof fn law_stored_content_is_stable(stored: Seq<char>, home: Option<Seq<char>>)
    ensures
        portable_content(expanded_content(stored, home), home) == stored <==> (home_prefix_of(
            home,
        ) matches Some(prefix) ==> found_again(split(stored, HOME_TOKEN@), prefix) || prefix
            == HOME_TOKEN@),
{
    if let Some(prefix) = home_prefix_of(home) {
        let pieces = split(stored, HOME_TOKEN@);
        let local = expanded_content(stored, home);
        let found = home_pieces(local, prefix);
        lemma_token();
        lemma_join_split(stored, HOME_TOKEN@);
        lemma_join_home_pieces(local, prefix);
        lemma_home_pieces_not_empty(local, prefix);
        if join(found, HOME_TOKEN@) == stored && prefix != HOME_TOKEN@ {
            lemma_join_through(found, HOME_TOKEN@, prefix);
            lemma_split_join(found, HOME_TOKEN@);
        }
    }
}

/// Content collapsed on one machine, expanded on another and not touched there is stored as it
/// was, exactly where the second home is found again in place of the first, or where it is the
/// placeholder itself.
pub proof fn law_pushing_back_changes_nothing(
    content: Seq<char>,
    home: Option<Seq<char>>,
    other_home: Option<Seq<char>>,
)
    requires
        home_prefix_of(home) is Some,
        home_prefix_of(other_home) is Some,
        !keeps_token(content, home),
    ensures
        ({
            let stored = portable_content(content, home);
            portable_content(expanded_content(stored, other_home), other_home) == stored
                <==> found_again(
                home_pieces(content, home_prefix_of(home)->0),
                home_prefix_of(other_home)->0,
            ) || home_prefix_of(other_home) == Some(HOME_TOKEN@)
        }),
{
    let pieces = home_pieces(content, home_prefix_of(home)->0);
    lemma_token();
    lemma_home_pieces_not_empty(content, home_prefix_of(home)->0);
    lemma_unbordered_separable(pieces, HOME_TOKEN@);
    lemma_split_join(pieces, HOME_TOKEN@);
    law_stored_content_is_stable(portable_content(content, home), other_home);
}

/// With absolute homes, pushing back changes nothing where the second home stood neither in the
/// content nor across the start of the first.
pub proof fn law_pushing_back_between_absolute_homes(
    content: Seq<char>,
    home: Option<Seq<char>>,
    other_home: Option<Seq<char>>,
)
    requires
        home_prefix_of(home) matches Some(prefix) && prefix[0] == '/',
        home_prefix_of(other_home) matches Some(other) && other[0] == '/' && separable(
            home_pieces(content, home_prefix_of(home)->0),
            other,
        ),
        !keeps_token(content, home),
    ensures
        ({
            let stored = portable_content(content, home);
            portable_content(expanded_content(stored, other_home), other_home) == stored
        }),
{
    let prefix = home_prefix_of(home)->0;
    let other = home_prefix_of(other_home)->0;
    law_home_prefix_is_canonical(home);
    law_home_prefix_is_canonical(other_home);
    lemma_home_pieces_end_names(content, prefix);
    lemma_ends_names_before(home_pieces(content, prefix), prefix, other);
    lemma_found_again(home_pieces(content, prefix), other);
    law_pushing_back_changes_nothing(content, home, other_home);
}

/// Expanding changes content exactly where it holds a placeholder, unless the home is unknown or
/// is the placeholder itself.
pub proof fn law_expanding_without_token(content: Seq<char>, home: Option<Seq<char>>)
    ensures
        expanded_content(content, home) == content <==> !has_text(content, HOME_TOKEN@)
            || home_prefix_of(home) is None || home_prefix_of(home) == Some(HOME_TOKEN@),
{
    if let Some(prefix) = home_prefix_of(home) {
        lemma_token();
        lemma_replaced_unchanged(content, HOME_TOKEN@, prefix);
    }
}

/// Collapsed content holds a placeholder exactly where the home stood in the content or it held a
/// placeholder before.
pub proof fn law_collapsed_home_leaves_token(content: Seq<char>, home: Option<Seq<char>>)
    requires
        home_prefix_of(home) is Some,
    ensures
        has_text(portable_content(content, home), HOME_TOKEN@) <==> has_home(
            content,
            home_prefix_of(home)->0,
        ) || has_text(content, HOME_TOKEN@),
{
    let prefix = home_prefix_of(home)->0;
    law_home_prefix_is_canonical(home);
    if has_home(content, prefix) {
        lemma_first_home_at(content, prefix);
        let i = first_home_at(content, prefix);
        lemma_rehomed_step(content, prefix, HOME_TOKEN@, i);
        let portable = portable_content(content, home);
        assert(portable.subrange(i, i + HOME_TOKEN@.len()) =~= HOME_TOKEN@);
        assert(occurs_at(portable, HOME_TOKEN@, i));
    }
}

/// Where the characters of the home stand in collapsed content, they share one with a placeholder
/// that was put in place of the home, or they stood in the content as part of a longer name.
pub proof fn law_home_stands_only_in_names_or_across_tokens(
    content: Seq<char>,
    home: Option<Seq<char>>,
    i: int,
)
    requires
        home_prefix_of(home) is Some,
        occurs_at(portable_content(content, home), home_prefix_of(home)->0, i),
    ensures
        touches_joint(
            home_pieces(content, home_prefix_of(home)->0),
            HOME_TOKEN@,
            i,
            home_prefix_of(home)->0.len() as int,
        ) || exists|j: int| #[trigger]
            occurs_at(content, home_prefix_of(home)->0, j) && !stands_as_home(
                content,
                home_prefix_of(home)->0,
                j,
            ),
{
    let prefix = home_prefix_of(home)->0;
    let pieces = home_pieces(content, prefix);
    lemma_token();
    law_home_prefix_is_canonical(home);
    lemma_home_pieces_not_empty(content, prefix);
    if exists|k: int| 0 <= k < pieces.len() && has_text(#[trigger] pieces[k], prefix) {
        let k = choose|k: int| 0 <= k < pieces.len() && has_text(#[trigger] pieces[k], prefix);
        lemma_home_piece(content, prefix, prefix, k);
    } else {
        lemma_join_occurrence(pieces, HOME_TOKEN@, prefix, i);
    }
}

/// Where expanded content still holds a placeholder, it shares a character with a home that was
/// put in place of a placeholder.
pub proof fn law_token_stands_only_across_homes(
    content: Seq<char>,
    home: Option<Seq<char>>,
    i: int,
)
    requires
        home_prefix_of(home) is Some,
        occurs_at(expanded_content(content, home), HOME_TOKEN@, i),
    ensures
        touches_joint(
            split(content, HOME_TOKEN@),
            home_prefix_of(home)->0,
            i,
            HOME_TOKEN@.len() as int,
        ),
{
    lemma_token();
    law_home_prefix_is_canonical(home);
    lemma_replaced_occurrence(content, HOME_TOKEN@, home_prefix_of(home)->0, i);
}

/// Collapsed content does not hold the characters of the home any more, where every time they
/// stood in the content they were the home and no longer name, and where the home and the
/// placeholder cannot be laid over each other.
pub proof fn law_home_does_not_leak(content: Seq<char>, home: Option<Seq<char>>)
    requires
        home_prefix_of(home) matches Some(prefix) && (!entangled(prefix, HOME_TOKEN@) || !has_home(
            content,
            prefix,
        )),
        forall|j: int| #[trigger]
            occurs_at(content, home_prefix_of(home)->0, j) ==> stands_as_home(
                content,
                home_prefix_of(home)->0,
                j,
            ),
    ensures
        !has_text(portable_content(content, home), home_prefix_of(home)->0),
{
    let prefix = home_prefix_of(home)->0;
    let portable = portable_content(content, home);
    if has_text(portable, prefix) {
        let i = choose|i: int| occurs_at(portable, prefix, i);
        law_home_stands_only_in_names_or_across_tokens(content, home, i);
        lemma_touching_is_entangled(home_pieces(content, prefix), HOME_TOKEN@, prefix, i);
        assert(home_pieces(content, prefix).len() > 1);
    }
}

/// Expanded content holds no placeholder any more. This can fail only where the home and the
/// placeholder can be laid over each other.
pub proof fn law_no_token_is_left(content: Seq<char>, home: Option<Seq<char>>)
    requires
        home_prefix_of(home) matches Some(prefix) && (!entangled(HOME_TOKEN@, prefix) || !has_text(
            content,
            HOME_TOKEN@,
        )),
    ensures
        !has_text(expanded_content(content, home), HOME_TOKEN@),
{
    let expanded = expanded_content(content, home);
    if has_text(expanded, HOME_TOKEN@) {
        let prefix = home_prefix_of(home)->0;
        let pieces = split(content, HOME_TOKEN@);
        let i = choose|i: int| occurs_at(expanded, HOME_TOKEN@, i);
        law_token_stands_only_across_homes(content, home, i);
        lemma_touching_is_entangled(pieces, prefix, HOME_TOKEN@, i);
        assert(pieces.len() > 1);
    }
}

/// A home that holds no opening brace cannot be laid over the placeholder, where it starts with a
/// slash, or holds a separator and no closing brace.
pub proof fn law_path_is_not_entangled(home: Seq<char>)
    requires
        !home.contains('{'),
        (home.len() > 0 && home[0] == '/') || (!home.contains('}') && (home.contains('/')
            || home.contains('\\'))),
    ensures
        !entangled(home, HOME_TOKEN@),
        !entangled(HOME_TOKEN@, home),
{
    lemma_token();
    let n = HOME_TOKEN@.len() as int;
    let s = if home.len() > 0 && home[0] == '/' {
        0
    } else {
        choose|s: int| 0 <= s < home.len() && (home[s] == '/' || home[s] == '\\')
    };
    assert(0 <= s < home.len() && (home[s] == '/' || home[s] == '\\'));
    assert forall|d: int| !agree_at(home, HOME_TOKEN@, d) by {
        if agree_at(home, HOME_TOKEN@, d) {
            if d <= 0 {
                assert(home[-d] == HOME_TOKEN@[-d + d]);
                assert(home.contains(home[-d]));
            } else if s + d < n {
                assert(home[s] == HOME_TOKEN@[s + d]);
            } else {
                assert(home[n - 1 - d] == HOME_TOKEN@[n - 1 - d + d]);
                assert(home.contains(home[n - 1 - d]));
            }
        }
    }
    assert forall|d: int| !agree_at(HOME_TOKEN@, home, d) by {
        if agree_at(HOME_TOKEN@, home, d) {
            if d >= 0 {
                assert(HOME_TOKEN@[0] == home[0 + d]);
                assert(home.contains(home[d]));
            } else if s - d < n {
                assert(HOME_TOKEN@[s - d] == home[s - d + d]);
            } else {
                assert(HOME_TOKEN@[n - 1] == home[n - 1 + d]);
                assert(home.contains(home[n - 1 + d]));
            }
        }
    }
}

/// What the placeholder is like: its occurrences never overlap, it starts and ends with a brace
/// and holds no separator.
pub proof fn lemma_token()
    ensures
        HOME_TOKEN@.len() == 20,
        unbordered(HOME_TOKEN@),
        HOME_TOKEN@[0] == '{',
        HOME_TOKEN@[19] == '}',
        forall|i: int| 0 <= i < 20 ==> HOME_TOKEN@[i] != '/' && HOME_TOKEN@[i] != '\\',
{
    reveal_strlit("{{CLAUDE_SYNC_HOME}}");
    let token = HOME_TOKEN@;
    assert forall|n: int| 0 < n < token.len() implies #[trigger] token.take(n) != token.skip(
        token.len() - n,
    ) by {
        if n == 19 {
            assert(token.take(n)[1] != token.skip(1)[1]);
        } else {
            assert(token.take(n)[n - 1] != token.skip(token.len() - n)[n - 1]);
        }
    }
}

} // verus!
