//! What the operations do, said of their inputs and results alone.
//!
//! Each law here speaks of sequences of characters and bytes, of characters by themselves, and of
//! how the results of two calls relate. Together the laws of one operation leave it no choice:
//! they give its result for the empty text and say how a longer text follows from a shorter one,
//! or they give it for every shape of its input.
use vstd::prelude::*;
use vstd::utf8::{decode_utf8, encode_utf8, valid_utf8};

use crate::collapsing::{
    alphanumeric, first_home_at, has_home, is_joiner, law_rehomed_reads_from_the_left,
    lemma_first_home_at, lemma_rehomed_step, name_goes_on, rehomed, stands_as_home,
    without_start_joiners,
};
use crate::content::{
    expanded_content, law_path_is_not_entangled, lemma_token, portable_content, HOME_TOKEN,
};
use crate::home::{encoded_home_of, home_prefix_of, without_end_slashes};
use crate::paths::{
    extended_bytes, lossy, parts_of, plain_part, separates, slashed_bytes, text_of_bytes,
};
use crate::project::{decoded_dir, encoded_dir, with_prefix, HOME_DIR_TOKEN};
use crate::relative::{mapped_bytes, mapped_parts, rebuilt_bytes, Direction};
use crate::splitting::{agree_at, has_text, law_replaced_reads_from_the_left, occurs_at};

verus! {

/// A name goes on in what follows it exactly where, behind any number of `.`, `-` and `_`, comes a
/// letter or a digit, or, if there was any of these, a slash.
pub proof fn law_where_a_name_goes_on(rest: Seq<char>)
    ensures
        name_goes_on(rest) <==> exists|n: int|
            0 <= n < rest.len() && (forall|k: int|
                0 <= k < n ==> (#[trigger] rest[k] == '.' || rest[k] == '-' || rest[k] == '_')) && (
            'a' <= #[trigger] rest[n] <= 'z' || 'A' <= rest[n] <= 'Z' || '0' <= rest[n] <= '9' || (
            rest[n] as u32 >= 0x80 && alphanumeric(rest[n])) || (n > 0 && rest[n] == '/')),
{
    let n = rest.len() - without_start_joiners(rest).len();
    lemma_joiners(rest);
    if name_goes_on(rest) {
        assert(without_start_joiners(rest)[0] == rest[n]);
    }
    if exists|m: int|
        0 <= m < rest.len() && (forall|k: int|
            0 <= k < m ==> (#[trigger] rest[k] == '.' || rest[k] == '-' || rest[k] == '_')) && (
        'a' <= #[trigger] rest[m] <= 'z' || 'A' <= rest[m] <= 'Z' || '0' <= rest[m] <= '9' || (
        rest[m] as u32 >= 0x80 && alphanumeric(rest[m])) || (m > 0 && rest[m] == '/')) {
        let m = choose|m: int|
            0 <= m < rest.len() && (forall|k: int|
                0 <= k < m ==> (#[trigger] rest[k] == '.' || rest[k] == '-' || rest[k] == '_')) && (
            'a' <= #[trigger] rest[m] <= 'z' || 'A' <= rest[m] <= 'Z' || '0' <= rest[m] <= '9' || (
            rest[m] as u32 >= 0x80 && alphanumeric(rest[m])) || (m > 0 && rest[m] == '/'));
        assert(!is_joiner(rest[m]));
        if m < n {
            assert(is_joiner(rest[m]));
        }
        if n < m {
            assert(is_joiner(rest[n]));
        }
        assert(without_start_joiners(rest)[0] == rest[n]);
    }
}

proof fn lemma_joiners(rest: Seq<char>)
    ensures
        without_start_joiners(rest).len() <= rest.len(),
        without_start_joiners(rest) == rest.skip(rest.len() - without_start_joiners(rest).len()),
        forall|k: int|
            0 <= k < rest.len() - without_start_joiners(rest).len() ==> is_joiner(
                #[trigger] rest[k],
            ),
        without_start_joiners(rest).len() > 0 ==> !is_joiner(without_start_joiners(rest)[0]),
    decreases rest.len(),
{
    if rest.len() > 0 && is_joiner(rest[0]) {
        let tail = rest.drop_first();
        lemma_joiners(tail);
        let out = without_start_joiners(rest);
        assert(out =~= rest.skip(rest.len() - out.len()));
        assert forall|k: int| 0 <= k < rest.len() - out.len() implies is_joiner(
            #[trigger] rest[k],
        ) by {
            if k > 0 {
                assert(rest[k] == tail[k - 1]);
            }
        }
    } else {
        assert(rest.skip(0) =~= rest);
    }
}

/// A name ends where it is followed by nothing, or by a character that is no letter, no digit and
/// none of `.`, `-` and `_`: by a quote, a comma, a slash, a backslash or white space, whatever
/// comes behind that character.
pub proof fn law_where_a_name_ends(rest: Seq<char>)
    requires
        rest.len() > 0 ==> {
            let c = rest[0];
            &&& !('a' <= c <= 'z' || 'A' <= c <= 'Z' || '0' <= c <= '9')
            &&& c as u32 >= 0x80 ==> !alphanumeric(c)
            &&& c != '.' && c != '-' && c != '_'
        },
    ensures
        !name_goes_on(rest),
{
    law_where_a_name_goes_on(rest);
}

/// No content is collapsed to no content, and none is expanded to none.
pub proof fn law_empty_content_stays_empty(home: Option<Seq<char>>)
    ensures
        portable_content(seq![], home) == Seq::<char>::empty(),
        expanded_content(seq![], home) == Seq::<char>::empty(),
{
    lemma_token();
    if let Some(prefix) = home_prefix_of(home) {
        lemma_prefix_shape(home->0);
        law_rehomed_reads_from_the_left(seq![], prefix, HOME_TOKEN@);
        law_replaced_reads_from_the_left(seq![], HOME_TOKEN@, prefix);
    }
}

/// Where content starts with the home and the name of the home ends there, the collapsed content
/// starts with the placeholder, and what follows is what the rest is collapsed to.
pub proof fn law_home_is_collapsed(home: Seq<char>, rest: Seq<char>)
    requires
        home.len() > 0,
        home.last() != '/',
        forall|n: int|
            0 <= n < rest.len() && (forall|k: int|
                0 <= k < n ==> (#[trigger] rest[k] == '.' || rest[k] == '-' || rest[k] == '_'))
                ==> {
                let c = #[trigger] rest[n];
                &&& !('a' <= c <= 'z' || 'A' <= c <= 'Z' || '0' <= c <= '9')
                &&& c as u32 >= 0x80 ==> !alphanumeric(c)
                &&& n > 0 ==> c != '/'
            },
    ensures
        portable_content(home + rest, Some(home)) == "{{CLAUDE_SYNC_HOME}}"@ + portable_content(
            rest,
            Some(home),
        ),
{
    law_where_a_name_goes_on(rest);
    if name_goes_on(rest) {
        let n = choose|n: int|
            0 <= n < rest.len() && (forall|k: int|
                0 <= k < n ==> (#[trigger] rest[k] == '.' || rest[k] == '-' || rest[k] == '_')) && (
            'a' <= #[trigger] rest[n] <= 'z' || 'A' <= rest[n] <= 'Z' || '0' <= rest[n] <= '9' || (
            rest[n] as u32 >= 0x80 && alphanumeric(rest[n])) || (n > 0 && rest[n] == '/'));
        assert(rest[n] == rest[n]);
    }
    lemma_home_is_collapsed(home, rest);
}

proof fn lemma_home_is_collapsed(home: Seq<char>, rest: Seq<char>)
    requires
        home.len() > 0,
        home.last() != '/',
        !name_goes_on(rest),
    ensures
        portable_content(home + rest, Some(home)) == HOME_TOKEN@ + portable_content(
            rest,
            Some(home),
        ),
{
    let content = home + rest;
    assert(content.subrange(0, home.len() as int) =~= home);
    assert(content.skip(home.len() as int) =~= rest);
    assert(stands_as_home(content, home, 0));
    law_rehomed_reads_from_the_left(content, home, HOME_TOKEN@);
}

/// The home is collapsed wherever it is followed by nothing, or by a character that is no letter,
/// no digit and none of `.`, `-` and `_`: at the closing quote of a JSON string, before a comma, a
/// slash, an escape or white space, whatever comes behind that character.
pub proof fn law_closed_home_is_collapsed(home: Seq<char>, rest: Seq<char>)
    requires
        home.len() > 0,
        home.last() != '/',
        rest.len() > 0 ==> {
            let c = rest[0];
            &&& !('a' <= c <= 'z' || 'A' <= c <= 'Z' || '0' <= c <= '9')
            &&& c as u32 >= 0x80 ==> !alphanumeric(c)
            &&& c != '.' && c != '-' && c != '_'
        },
    ensures
        portable_content(home + rest, Some(home)) == "{{CLAUDE_SYNC_HOME}}"@ + portable_content(
            rest,
            Some(home),
        ),
{
    law_where_a_name_ends(rest);
    lemma_home_is_collapsed(home, rest);
}

/// Where content starts with the home, and behind any number of `.`, `-` and `_` follows a letter
/// or a digit, or a slash behind at least one of these, it starts with a longer name. Its first
/// character is kept, and what follows is what the content without it is collapsed to.
pub proof fn law_longer_name_is_kept(home: Seq<char>, rest: Seq<char>, n: int)
    requires
        home.len() > 0,
        home.last() != '/',
        0 <= n < rest.len(),
        forall|k: int|
            0 <= k < n ==> (#[trigger] rest[k] == '.' || rest[k] == '-' || rest[k] == '_'),
        'a' <= rest[n] <= 'z' || 'A' <= rest[n] <= 'Z' || '0' <= rest[n] <= '9' || (rest[n] as u32
            >= 0x80 && alphanumeric(rest[n])) || (n > 0 && rest[n] == '/'),
    ensures
        portable_content(home + rest, Some(home)) == seq![home[0]] + portable_content(
            (home + rest).skip(1),
            Some(home),
        ),
{
    let content = home + rest;
    law_where_a_name_goes_on(rest);
    assert(content.skip(home.len() as int) =~= rest);
    assert(content.skip(1) =~= content.drop_first());
    law_rehomed_reads_from_the_left(content, home, HOME_TOKEN@);
}

/// Where content does not start with the home, its first character is kept, and what follows is
/// what the content without it is collapsed to.
pub proof fn law_other_content_is_kept(home: Seq<char>, content: Seq<char>)
    requires
        home.len() > 0,
        home.last() != '/',
        content.len() > 0,
        !(home.len() <= content.len() && content.take(home.len() as int) == home),
    ensures
        portable_content(content, Some(home)) == seq![content[0]] + portable_content(
            content.skip(1),
            Some(home),
        ),
{
    assert(content.skip(1) =~= content.drop_first());
    if occurs_at(content, home, 0) {
        assert(content.take(home.len() as int) =~= content.subrange(0, home.len() as int));
    }
    law_rehomed_reads_from_the_left(content, home, HOME_TOKEN@);
}

/// Collapsed content holds no absolute home that is followed by nothing, or by a character that is
/// no letter, no digit and none of `.`, `-` and `_`.
pub proof fn law_no_closed_home_is_left(home: Seq<char>, content: Seq<char>, i: int)
    requires
        home.len() > 0,
        home.last() != '/',
        home[0] == '/',
        !home.contains('{'),
        0 <= i,
        i + home.len() <= portable_content(content, Some(home)).len(),
        i + home.len() < portable_content(content, Some(home)).len() ==> {
            let c = portable_content(content, Some(home))[i + home.len()];
            &&& !('a' <= c <= 'z' || 'A' <= c <= 'Z' || '0' <= c <= '9')
            &&& c as u32 >= 0x80 ==> !alphanumeric(c)
            &&& c != '.' && c != '-' && c != '_'
        },
    ensures
        portable_content(content, Some(home)).subrange(i, i + home.len()) != home,
    decreases content.len(),
{
    let out = portable_content(content, Some(home));
    let n = home.len() as int;
    assert(out == rehomed(content, home, HOME_TOKEN@));
    if out.subrange(i, i + n) == home {
        if has_home(content, home) {
            lemma_token();
            law_path_is_not_entangled(home);
            lemma_first_home_at(content, home);
            let f = first_home_at(content, home);
            let rest = content.skip(f + n);
            lemma_rehomed_step(content, home, HOME_TOKEN@, f);
            let tail = portable_content(rest, Some(home));
            assert(out == content.take(f) + HOME_TOKEN@ + tail);
            if i + n <= f {
                assert(content.subrange(i, i + n) =~= home);
                assert(!stands_as_home(content, home, i));
                let after = content.skip(i + n);
                if i + n < f {
                    assert(after[0] == out[i + n]);
                } else {
                    assert(content.subrange(f, f + n)[0] == home[0]);
                    assert(after[0] == '/');
                }
                law_where_a_name_ends(after);
            } else if i >= f + HOME_TOKEN@.len() {
                let j = i - f - HOME_TOKEN@.len();
                assert(tail.subrange(j, j + n) =~= home);
                law_no_closed_home_is_left(home, rest, j);
            } else {
                let d = i - f;
                assert forall|k: int|
                    0 <= k < n && 0 <= k + d < HOME_TOKEN@.len() implies #[trigger] home[k]
                    == HOME_TOKEN@[k + d] by {
                    assert(out.subrange(i, i + n)[k] == home[k]);
                }
                assert(agree_at(home, HOME_TOKEN@, d));
            }
        } else {
            assert(occurs_at(content, home, i));
            assert(!stands_as_home(content, home, i));
            let after = content.skip(i + n);
            if after.len() > 0 {
                assert(after[0] == out[i + n]);
            }
            law_where_a_name_ends(after);
        }
    }
}

/// Where content starts with the placeholder, the expanded content starts with the home, character
/// for character, and what follows is what the rest is expanded to.
pub proof fn law_token_is_expanded(home: Seq<char>, rest: Seq<char>)
    requires
        home.len() > 0,
        home.last() != '/',
    ensures
        expanded_content("{{CLAUDE_SYNC_HOME}}"@ + rest, Some(home)) == home + expanded_content(
            rest,
            Some(home),
        ),
{
    lemma_token();
    let content = HOME_TOKEN@ + rest;
    assert(content.subrange(0, 20) =~= HOME_TOKEN@);
    assert(content.skip(20) =~= rest);
    law_replaced_reads_from_the_left(content, HOME_TOKEN@, home);
}

/// Where content does not start with the placeholder, its first character is kept, and what follows
/// is what the content without it is expanded to.
pub proof fn law_content_without_token_is_kept(home: Option<Seq<char>>, content: Seq<char>)
    requires
        content.len() > 0,
        !(content.len() >= 20 && content.take(20) == "{{CLAUDE_SYNC_HOME}}"@),
    ensures
        expanded_content(content, home) == seq![content[0]] + expanded_content(
            content.skip(1),
            home,
        ),
{
    lemma_token();
    assert(content.skip(1) =~= content.drop_first());
    if let Some(prefix) = home_prefix_of(home) {
        if occurs_at(content, HOME_TOKEN@, 0) {
            assert(content.take(20) =~= content.subrange(0, 20));
        }
        law_replaced_reads_from_the_left(content, HOME_TOKEN@, prefix);
    } else {
        assert(content =~= seq![content[0]] + content.skip(1));
    }
}

/// A text stands in another exactly where that one is something, the text, and something more.
pub proof fn law_where_a_text_stands(text: Seq<char>, pattern: Seq<char>)
    ensures
        has_text(text, pattern) <==> exists|i: int|
            0 <= i && i + pattern.len() <= text.len() && #[trigger] text.subrange(
                i,
                i + pattern.len(),
            ) == pattern,
{
    if exists|i: int|
        0 <= i && i + pattern.len() <= text.len() && #[trigger] text.subrange(
            i,
            i + pattern.len(),
        ) == pattern {
        let i = choose|i: int|
            0 <= i && i + pattern.len() <= text.len() && #[trigger] text.subrange(
                i,
                i + pattern.len(),
            ) == pattern;
        assert(occurs_at(text, pattern, i));
    }
}

/// The home that is looked for starts the text of the home, is not empty and does not end in a
/// slash, and every character of the text behind it is a slash. There is none exactly where the
/// text is missing or holds nothing but slashes.
pub proof fn law_home_prefix_drops_only_slashes(text: Seq<char>)
    ensures
        home_prefix_of(Some(text)) matches Some(prefix) ==> {
            &&& 0 < prefix.len() <= text.len()
            &&& prefix == text.take(prefix.len() as int)
            &&& prefix.last() != '/'
            &&& forall|i: int| prefix.len() <= i < text.len() ==> #[trigger] text[i] == '/'
        },
        home_prefix_of(Some(text)) is None <==> (forall|i: int|
            0 <= i < text.len() ==> #[trigger] text[i] == '/'),
        home_prefix_of(None) is None,
{
    lemma_prefix_shape(text);
}

/// A home that is not empty and does not end in a slash is looked for as it is.
pub proof fn law_home_without_end_slash_is_kept(home: Seq<char>)
    requires
        home.len() > 0,
        home.last() != '/',
    ensures
        home_prefix_of(Some(home)) == Some(home),
{
}

proof fn lemma_prefix_shape(text: Seq<char>)
    ensures
        without_end_slashes(text).len() <= text.len(),
        without_end_slashes(text) == text.take(without_end_slashes(text).len() as int),
        without_end_slashes(text).len() > 0 ==> without_end_slashes(text).last() != '/',
        forall|i: int| without_end_slashes(text).len() <= i < text.len() ==> #[trigger] text[i]
            == '/',
        home_prefix_of(Some(text)) is None <==> (forall|i: int|
            0 <= i < text.len() ==> #[trigger] text[i] == '/'),
    decreases text.len(),
{
    if text.len() > 0 && text.last() == '/' {
        let shorter = text.drop_last();
        lemma_prefix_shape(shorter);
        let n = without_end_slashes(text).len() as int;
        assert(text.take(n) =~= shorter.take(n));
        assert forall|i: int| n <= i < text.len() implies #[trigger] text[i] == '/' by {
            if i < shorter.len() {
                assert(text[i] == shorter[i]);
            }
        }
        if n > 0 {
            assert(text[n - 1] == without_end_slashes(text)[n - 1]);
        }
    } else {
        assert(text.take(text.len() as int) =~= text);
        if text.len() > 0 {
            assert(text[text.len() - 1] != '/');
        }
    }
}

/// No operation tells a home from the same home with a slash behind it.
pub proof fn law_end_slash_changes_nothing(home: Seq<char>, text: Seq<char>)
    ensures
        portable_content(text, Some(home.push('/'))) == portable_content(text, Some(home)),
        expanded_content(text, Some(home.push('/'))) == expanded_content(text, Some(home)),
        encoded_dir(text, Some(home.push('/'))) == encoded_dir(text, Some(home)),
        decoded_dir(text, Some(home.push('/'))) == decoded_dir(text, Some(home)),
        encoded_home_of(Some(home.push('/'))) == encoded_home_of(Some(home)),
{
    assert(home.push('/').drop_last() =~= home);
}

/// No operation changes anything where the home is missing or holds nothing but slashes.
pub proof fn law_unknown_home_changes_nothing(home: Option<Seq<char>>, text: Seq<char>)
    requires
        home matches Some(dir) ==> forall|i: int| 0 <= i < dir.len() ==> #[trigger] dir[i] == '/',
    ensures
        portable_content(text, home) == text,
        expanded_content(text, home) == text,
        encoded_dir(text, home) == text,
        decoded_dir(text, home) == text,
        encoded_home_of(home) is None,
{
    if let Some(dir) = home {
        lemma_prefix_shape(dir);
    }
}

/// The written home is as long as the home that is looked for. It has `-` where that has a slash or
/// a backslash, and its character everywhere else. There is none exactly where there is no home.
pub proof fn law_written_home_keeps_characters(home: Option<Seq<char>>)
    ensures
        encoded_home_of(home) is Some <==> home_prefix_of(home) is Some,
        home_prefix_of(home) matches Some(prefix) ==> (encoded_home_of(home) matches Some(written)
            && {
            &&& written.len() == prefix.len()
            &&& forall|i: int|
                0 <= i < prefix.len() && (prefix[i] == '/' || prefix[i] == '\\')
                    ==> #[trigger] written[i] == '-'
            &&& forall|i: int|
                0 <= i < prefix.len() && prefix[i] != '/' && prefix[i] != '\\'
                    ==> #[trigger] written[i] == prefix[i]
        }),
{
}

/// A text with `-` for each separator of the home, and its characters everywhere else, is the
/// written home.
proof fn lemma_written(home: Seq<char>, written: Seq<char>)
    requires
        home.len() > 0,
        home.last() != '/',
        written.len() == home.len(),
        forall|i: int|
            0 <= i < home.len() ==> #[trigger] written[i] == (if home[i] == '/' || home[i] == '\\' {
                '-'
            } else {
                home[i]
            }),
    ensures
        encoded_home_of(Some(home)) == Some(written),
{
    assert(encoded_home_of(Some(home))->0 =~= written);
}

/// A project that is named by the written home, or by it and something that starts with `-`, is
/// stored with `HOME` in its place and the rest as it is; and such a stored name is decoded with
/// the written home in place of `HOME` and the rest as it is.
pub proof fn law_project_under_home(home: Seq<char>, written: Seq<char>, rest: Seq<char>)
    requires
        home.len() > 0,
        home.last() != '/',
        written.len() == home.len(),
        forall|i: int|
            0 <= i < home.len() ==> #[trigger] written[i] == (if home[i] == '/' || home[i] == '\\' {
                '-'
            } else {
                home[i]
            }),
        rest.len() > 0 ==> rest[0] == '-',
    ensures
        encoded_dir(written + rest, Some(home)) == "HOME"@ + rest,
        decoded_dir("HOME"@ + rest, Some(home)) == written + rest,
{
    lemma_written(home, written);
    law_prefix_is_replaced(written, HOME_DIR_TOKEN@, rest);
    law_prefix_is_replaced(HOME_DIR_TOKEN@, written, rest);
}

/// A project is stored under its own name where that does not start with the written home, or goes
/// on behind it with anything but `-`.
pub proof fn law_project_outside_home(home: Seq<char>, written: Seq<char>, name: Seq<char>)
    requires
        home.len() > 0,
        home.last() != '/',
        written.len() == home.len(),
        forall|i: int|
            0 <= i < home.len() ==> #[trigger] written[i] == (if home[i] == '/' || home[i] == '\\' {
                '-'
            } else {
                home[i]
            }),
        name.len() < written.len() || name.take(written.len() as int) != written || (name.len()
            > written.len() && name[written.len() as int] != '-'),
    ensures
        encoded_dir(name, Some(home)) == name,
{
    lemma_written(home, written);
    law_other_prefix_is_kept(name, written, HOME_DIR_TOKEN@);
}

/// A project is stored under its own name where that is shorter than the written home, differs from
/// it somewhere, or goes on behind it with anything but `-`.
pub proof fn law_project_beside_home(name: Seq<char>, home: Option<Seq<char>>, i: int)
    requires
        encoded_home_of(home) is Some,
        ({
            let written = encoded_home_of(home)->0;
            ||| name.len() < written.len()
            ||| 0 <= i < written.len() && name[i] != written[i]
            ||| name.len() > written.len() && name[written.len() as int] != '-'
        }),
    ensures
        encoded_dir(name, home) == name,
{
    let written = encoded_home_of(home)->0;
    if written.len() <= name.len() && name.take(written.len() as int) == written {
        assert(0 <= i < written.len() ==> name.take(written.len() as int)[i] == name[i]);
    }
    law_other_prefix_is_kept(name, written, HOME_DIR_TOKEN@);
}

/// A stored name is decoded to itself where it does not start with `HOME`, or goes on behind it
/// with anything but `-`.
pub proof fn law_stored_name_without_placeholder(home: Option<Seq<char>>, name: Seq<char>)
    requires
        name.len() < 4 || name.take(4) != "HOME"@ || (name.len() > 4 && name[4] != '-'),
    ensures
        decoded_dir(name, home) == name,
{
    reveal_strlit("HOME");
    if let Some(written) = encoded_home_of(home) {
        law_other_prefix_is_kept(name, HOME_DIR_TOKEN@, written);
    }
}

/// A prefix is replaced where the name ends behind it or goes on with `-`, and the rest is kept.
pub proof fn law_prefix_is_replaced(prefix: Seq<char>, replacement: Seq<char>, rest: Seq<char>)
    requires
        rest.len() > 0 ==> rest[0] == '-',
    ensures
        with_prefix(prefix + rest, prefix, replacement) == Some(replacement + rest),
{
    let name = prefix + rest;
    assert(name.take(prefix.len() as int) =~= prefix);
    assert(name.skip(prefix.len() as int) =~= rest);
}

/// No prefix is replaced where the name does not start with it, or goes on behind it with anything
/// but `-`.
pub proof fn law_other_prefix_is_kept(name: Seq<char>, prefix: Seq<char>, replacement: Seq<char>)
    requires
        name.len() < prefix.len() || name.take(prefix.len() as int) != prefix || (name.len()
            > prefix.len() && name[prefix.len() as int] != '-'),
    ensures
        with_prefix(name, prefix, replacement) is None,
{
    if prefix.is_prefix_of(name) {
        assert(name.take(prefix.len() as int) =~= prefix);
    }
}

/// The first component of a path, where it is text, is encoded as the name of a project directory,
/// and the same for decoding. All others are kept, and a path that does not start with text is kept
/// whole.
pub proof fn law_components_on_the_other_side(parts: Seq<Seq<u8>>, home: Option<Seq<char>>)
    ensures
        parts.len() > 0 && valid_utf8(parts[0]) ==> mapped_parts(Direction::Encode, parts, home)
            == seq![encode_utf8(encoded_dir(decode_utf8(parts[0]), home))] + parts.skip(1),
        parts.len() > 0 && valid_utf8(parts[0]) ==> mapped_parts(Direction::Decode, parts, home)
            == seq![encode_utf8(decoded_dir(decode_utf8(parts[0]), home))] + parts.skip(1),
        parts.len() == 0 || !valid_utf8(parts[0]) ==> mapped_parts(Direction::Encode, parts, home)
            == parts && mapped_parts(Direction::Decode, parts, home) == parts,
{
}

/// A path that starts with text becomes the encoded name of its first component with all others
/// pushed onto it, and the same for decoding. A path that does not is kept byte for byte.
pub proof fn law_bytes_on_the_other_side(bytes: Seq<u8>, home: Option<Seq<char>>)
    ensures
        ({
            let parts = parts_of(bytes);
            let stored = encode_utf8(encoded_dir(decode_utf8(parts[0]), home));
            let local = encode_utf8(decoded_dir(decode_utf8(parts[0]), home));
            &&& parts.len() > 0 && valid_utf8(parts[0]) ==> {
                &&& rebuilt_bytes(Direction::Encode, bytes, home) == extended_bytes(
                    stored,
                    parts.skip(1),
                )
                &&& rebuilt_bytes(Direction::Decode, bytes, home) == extended_bytes(
                    local,
                    parts.skip(1),
                )
                &&& mapped_bytes(Direction::Encode, bytes, home) == slashed_bytes(
                    stored,
                    parts.skip(1),
                )
                &&& mapped_bytes(Direction::Decode, bytes, home) == slashed_bytes(
                    local,
                    parts.skip(1),
                )
            }
            &&& parts.len() == 0 || !valid_utf8(parts[0]) ==> {
                &&& rebuilt_bytes(Direction::Encode, bytes, home) == bytes
                &&& rebuilt_bytes(Direction::Decode, bytes, home) == bytes
                &&& mapped_bytes(Direction::Encode, bytes, home) == bytes
                &&& mapped_bytes(Direction::Decode, bytes, home) == bytes
            }
        }),
{
    let parts = parts_of(bytes);
    if parts.len() > 0 {
        assert(parts.skip(1) =~= parts.drop_first());
    }
}

/// A component that is put behind others comes behind all of them, after a slash unless they are
/// empty or end in one. No component changes nothing.
pub proof fn law_last_component_comes_last(start: Seq<u8>, rest: Seq<Seq<u8>>, last: Seq<u8>)
    ensures
        slashed_bytes(start, seq![]) == start,
        ({
            let before = slashed_bytes(start, rest);
            slashed_bytes(start, rest.push(last)) == if before.len() == 0 || before.last() == 0x2f {
                before + last
            } else {
                before + seq![0x2fu8] + last
            }
        }),
    decreases rest.len(),
{
    let all = rest.push(last);
    if rest.len() == 0 {
        assert(all.drop_first() =~= seq![]);
        assert(all[0] == last);
        assert(slashed_bytes(start + last, seq![]) == start + last);
        assert(slashed_bytes(start + seq![0x2fu8] + last, seq![]) == start + seq![0x2fu8] + last);
    } else {
        assert(all.drop_first() =~= rest.drop_first().push(last));
        assert(all[0] == rest[0]);
        let next = if start.len() == 0 || start.last() == 0x2f {
            start + rest[0]
        } else {
            start + seq![0x2fu8] + rest[0]
        };
        law_last_component_comes_last(next, rest.drop_first(), last);
    }
}

/// A component is one name where it is not empty and holds no slash, and, where a backslash
/// separates components, no backslash either, nor a colon as its second byte.
pub proof fn law_what_a_plain_component_is(part: Seq<u8>)
    ensures
        !separates('\\') ==> (plain_part(part) <==> part.len() > 0 && !part.contains(0x2f)),
        separates('\\') ==> (plain_part(part) <==> part.len() > 0 && !part.contains(0x2f)
            && !part.contains(0x5c) && !(part.len() > 1 && part[1] == 0x3a)),
{
    assert(part.contains(0x2f) <==> exists|i: int| 0 <= i < part.len() && part[i] == 0x2f);
    assert(part.contains(0x5c) <==> exists|i: int| 0 <= i < part.len() && part[i] == 0x5c);
}

/// The text of a path is what its bytes encode, and what `lossy` names where they are not UTF-8.
pub proof fn law_text_of_path_bytes(bytes: Seq<u8>)
    ensures
        valid_utf8(bytes) ==> text_of_bytes(bytes) == decode_utf8(bytes),
        !valid_utf8(bytes) ==> text_of_bytes(bytes) == lossy(bytes),
{
}

} // verus!
