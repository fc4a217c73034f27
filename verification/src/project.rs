//! The home directory in the names of project directories.
use vstd::prelude::*;

use crate::home::{
    dashed, encoded_home_of, encoded_local_home, home_prefix_of, owned_text_of, text_of,
};
use crate::splitting::occurs_at;
use crate::text::{chars_of, stands_at};

verus! {

/// Placeholder for the home directory in encoded project directory names.
///
/// Encoded paths always start with `-` (the leading `/` of an absolute path), so a name
/// starting with `HOME` cannot collide with a real encoded path.
pub const HOME_DIR_TOKEN: &'static str = "HOME";

/// `name` is the directory written `prefix`, or lies below it.
pub open spec fn is_under(name: Seq<char>, prefix: Seq<char>) -> bool {
    &&& prefix.is_prefix_of(name)
    &&& name.len() > prefix.len() ==> name[prefix.len() as int] == '-'
}

/// `name` with `replacement` in place of `prefix`, where it is under `prefix`.
pub open spec fn with_prefix(
    name: Seq<char>,
    prefix: Seq<char>,
    replacement: Seq<char>,
) -> Option<Seq<char>> {
    if is_under(name, prefix) {
        Some(replacement + name.skip(prefix.len() as int))
    } else {
        None
    }
}

/// The name under which a project directory is stored.
pub open spec fn encoded_dir(name: Seq<char>, home: Option<Seq<char>>) -> Seq<char> {
    match encoded_home_of(home) {
        Some(encoded) => match with_prefix(name, encoded, HOME_DIR_TOKEN@) {
            Some(stored) => stored,
            None => name,
        },
        None => name,
    }
}

/// The local name of a stored project directory.
pub open spec fn decoded_dir(name: Seq<char>, home: Option<Seq<char>>) -> Seq<char> {
    match encoded_home_of(home) {
        Some(encoded) => match with_prefix(name, HOME_DIR_TOKEN@, encoded) {
            Some(local) => local,
            None => name,
        },
        None => name,
    }
}

/// Puts `replacement` in place of `prefix`, where `name` is the prefix itself or goes on with `-`
/// behind it.
pub fn replace_prefix(name: &str, prefix: &str, replacement: &str) -> (replaced: Option<String>)
    ensures
        owned_text_of(replaced) == with_prefix(name@, prefix@, replacement@),
        replaced is Some <==> {
            &&& prefix@.len() <= name@.len()
            &&& name@.take(prefix@.len() as int) == prefix@
            &&& name@.len() > prefix@.len() ==> name@[prefix@.len() as int] == '-'
        },
        replaced matches Some(text) ==> text@ == replacement@ + name@.skip(prefix@.len() as int),
{
    let chars = chars_of(name);
    let start = chars_of(prefix);
    assert(occurs_at(name@, prefix@, 0) <==> prefix@.is_prefix_of(name@)) by {
        if prefix@.is_prefix_of(name@) {
            assert(name@.subrange(0, prefix@.len() as int) =~= prefix@);
        }
    }
    if !stands_at(&chars, &start, 0) {
        return None;
    }
    if chars.len() > start.len() && chars[start.len()] != '-' {
        return None;
    }
    let mut replaced = replacement.to_owned();
    replaced.append(name.substring_char(start.len(), chars.len()));
    assert(name@.skip(prefix@.len() as int) =~= name@.subrange(
        prefix@.len() as int,
        name@.len() as int,
    ));
    Some(replaced)
}

/// `-Users-alice-work` becomes `HOME-work`. Names outside the home are left untouched.
pub fn encode_project_dir(name: &str, home: Option<&str>) -> (stored: String)
    ensures
        stored@ == encoded_dir(name@, text_of(home)),
        home matches Some(dir) ==> stored@ == encoded_dir(name@, Some(dir@)),
        home is None ==> stored@ == name@,
{
    let replaced = match encoded_local_home(home) {
        Some(encoded) => replace_prefix(name, encoded.as_str(), HOME_DIR_TOKEN),
        None => None,
    };
    match replaced {
        Some(stored) => stored,
        None => name.to_owned(),
    }
}

/// `HOME-work` becomes `-Users-alice-work`. Names without the placeholder are left untouched.
pub fn decode_project_dir(name: &str, home: Option<&str>) -> (local: String)
    ensures
        local@ == decoded_dir(name@, text_of(home)),
        home matches Some(dir) ==> local@ == decoded_dir(name@, Some(dir@)),
        home is None ==> local@ == name@,
{
    let replaced = match encoded_local_home(home) {
        Some(encoded) => replace_prefix(name, HOME_DIR_TOKEN, encoded.as_str()),
        None => None,
    };
    match replaced {
        Some(local) => local,
        None => name.to_owned(),
    }
}

/// Decoding gives back the name that was encoded, exactly where no name outside the home is
/// mistaken for the placeholder.
pub proof fn law_project_dir_round_trip(name: Seq<char>, home: Option<Seq<char>>)
    ensures
        decoded_dir(encoded_dir(name, home), home) == name <==> (encoded_home_of(home) matches Some(
            encoded,
        ) ==> is_under(name, HOME_DIR_TOKEN@) ==> is_under(name, encoded)),
{
    if let Some(encoded) = encoded_home_of(home) {
        lemma_prefix_round_trip(name, encoded, HOME_DIR_TOKEN@);
    }
}

/// Encoding gives back the stored name that was decoded, exactly where a stored name under the
/// home is one with the placeholder.
pub proof fn law_stored_dir_is_stable(stored: Seq<char>, home: Option<Seq<char>>)
    ensures
        encoded_dir(decoded_dir(stored, home), home) == stored <==> (encoded_home_of(
            home,
        ) matches Some(encoded) ==> is_under(stored, encoded) ==> is_under(
            stored,
            HOME_DIR_TOKEN@,
        )),
{
    if let Some(encoded) = encoded_home_of(home) {
        lemma_prefix_round_trip(stored, HOME_DIR_TOKEN@, encoded);
    }
}

/// An encoded absolute path, which starts with `-`, is never mistaken for the placeholder, and so
/// is given back by decoding.
pub proof fn law_encoded_path_round_trip(name: Seq<char>, home: Option<Seq<char>>)
    requires
        name.len() > 0,
        name[0] == '-',
    ensures
        !is_under(name, HOME_DIR_TOKEN@),
        decoded_dir(name, home) == name,
        decoded_dir(encoded_dir(name, home), home) == name,
{
    lemma_dir_token();
    assert(is_under(name, HOME_DIR_TOKEN@) ==> name[0] == HOME_DIR_TOKEN@[0]);
    law_project_dir_round_trip(name, home);
}

/// A project below one home comes out below the other home, with all that follows the home, and
/// is stored again under the same name.
pub proof fn law_project_moves_between_homes(
    name: Seq<char>,
    home: Option<Seq<char>>,
    other_home: Option<Seq<char>>,
)
    requires
        encoded_home_of(home) matches Some(encoded) && is_under(name, encoded),
    ensures
        encoded_dir(name, home) == HOME_DIR_TOKEN@ + name.skip(
            encoded_home_of(home)->0.len() as int,
        ),
        encoded_home_of(other_home) matches Some(other) ==> decoded_dir(
            encoded_dir(name, home),
            other_home,
        ) == other + name.skip(encoded_home_of(home)->0.len() as int),
        encoded_dir(decoded_dir(encoded_dir(name, home), other_home), other_home) == encoded_dir(
            name,
            home,
        ),
{
    let encoded = encoded_home_of(home)->0;
    let stored = encoded_dir(name, home);
    lemma_replaced_is_under(name, encoded, HOME_DIR_TOKEN@);
    law_stored_dir_is_stable(stored, other_home);
}

/// Encoding leaves a name untouched exactly where it is outside the home, unless the home is
/// unknown or is written like the placeholder.
pub proof fn law_dir_outside_home_is_untouched(name: Seq<char>, home: Option<Seq<char>>)
    ensures
        encoded_dir(name, home) == name <==> (encoded_home_of(home) matches Some(encoded)
            ==> !is_under(name, encoded) || encoded == HOME_DIR_TOKEN@),
        decoded_dir(name, home) == name <==> (encoded_home_of(home) matches Some(encoded)
            ==> !is_under(name, HOME_DIR_TOKEN@) || encoded == HOME_DIR_TOKEN@),
{
    if let Some(encoded) = encoded_home_of(home) {
        if is_under(name, encoded) {
            lemma_prefix_unchanged(name, encoded, HOME_DIR_TOKEN@);
        }
        if is_under(name, HOME_DIR_TOKEN@) {
            lemma_prefix_unchanged(name, HOME_DIR_TOKEN@, encoded);
        }
    }
}

/// Two projects are stored under one name exactly where they are the same, or where one outside
/// the home has the very name under which the other is stored.
pub proof fn law_projects_stay_distinct(a: Seq<char>, b: Seq<char>, home: Option<Seq<char>>)
    ensures
        encoded_dir(a, home) == encoded_dir(b, home) <==> a == b || (encoded_dir(a, home) == b
            && encoded_dir(b, home) == b) || (encoded_dir(b, home) == a && encoded_dir(a, home)
            == a),
{
    if let Some(encoded) = encoded_home_of(home) {
        if is_under(a, encoded) && is_under(b, encoded) && encoded_dir(a, home) == encoded_dir(
            b,
            home,
        ) {
            lemma_undo_prefix(a, encoded, HOME_DIR_TOKEN@);
            lemma_undo_prefix(b, encoded, HOME_DIR_TOKEN@);
        }
    }
}

/// Two encoded absolute paths, which start with `-`, are never stored under one name.
pub proof fn law_encoded_paths_stay_distinct(a: Seq<char>, b: Seq<char>, home: Option<Seq<char>>)
    requires
        a.len() > 0 && a[0] == '-',
        b.len() > 0 && b[0] == '-',
        encoded_dir(a, home) == encoded_dir(b, home),
    ensures
        a == b,
{
    law_encoded_path_round_trip(a, home);
    law_encoded_path_round_trip(b, home);
}

/// The project at `path`, which is the home or lies below it, is stored as the placeholder and
/// what follows the home. On another machine it is the project at the same place below that home.
pub proof fn law_project_below_home(
    path: Seq<char>,
    home: Option<Seq<char>>,
    other_home: Option<Seq<char>>,
)
    requires
        home_prefix_of(home) matches Some(prefix) && prefix.is_prefix_of(path) && (path.len()
            > prefix.len() ==> path[prefix.len() as int] == '/'),
        home_prefix_of(other_home) is Some,
    ensures
        encoded_dir(dashed(path), home) == HOME_DIR_TOKEN@ + dashed(
            path.skip(home_prefix_of(home)->0.len() as int),
        ),
        decoded_dir(encoded_dir(dashed(path), home), other_home) == dashed(
            home_prefix_of(other_home)->0 + path.skip(home_prefix_of(home)->0.len() as int),
        ),
{
    let prefix = home_prefix_of(home)->0;
    let other = home_prefix_of(other_home)->0;
    let n = prefix.len() as int;
    let name = dashed(path);
    assert(name.take(n) =~= dashed(prefix)) by {
        assert(path.take(n) =~= prefix);
        assert forall|i: int| 0 <= i < n implies name.take(n)[i] == dashed(prefix)[i] by {
            assert(path.take(n)[i] == prefix[i]);
        }
    }
    assert(is_under(name, dashed(prefix)));
    law_project_moves_between_homes(name, home, other_home);
    assert(name.skip(n) =~= dashed(path.skip(n)));
    assert(dashed(other) + dashed(path.skip(n)) =~= dashed(other + path.skip(n)));
}

pub proof fn lemma_dir_token()
    ensures
        HOME_DIR_TOKEN@ == seq!['H', 'O', 'M', 'E'],
{
    reveal_strlit("HOME");
    assert(HOME_DIR_TOKEN@ =~= seq!['H', 'O', 'M', 'E']);
}

/// A name whose prefix was replaced is under the replacement, with the same rest.
proof fn lemma_replaced_is_under(name: Seq<char>, prefix: Seq<char>, replacement: Seq<char>)
    requires
        is_under(name, prefix),
    ensures
        is_under(replacement + name.skip(prefix.len() as int), replacement),
        (replacement + name.skip(prefix.len() as int)).skip(replacement.len() as int) == name.skip(
            prefix.len() as int,
        ),
{
    let rest = name.skip(prefix.len() as int);
    let out = replacement + rest;
    assert(out.skip(replacement.len() as int) =~= rest);
    assert(out.take(replacement.len() as int) =~= replacement);
}

/// Putting the prefix back gives back the name.
proof fn lemma_undo_prefix(name: Seq<char>, prefix: Seq<char>, replacement: Seq<char>)
    requires
        is_under(name, prefix),
    ensures
        with_prefix(replacement + name.skip(prefix.len() as int), replacement, prefix) == Some(
            name,
        ),
{
    lemma_replaced_is_under(name, prefix, replacement);
    assert(prefix + name.skip(prefix.len() as int) =~= name);
}

/// Replacing the prefix of a name leaves it untouched exactly where the replacement is the prefix.
proof fn lemma_prefix_unchanged(name: Seq<char>, prefix: Seq<char>, replacement: Seq<char>)
    requires
        is_under(name, prefix),
    ensures
        replacement + name.skip(prefix.len() as int) == name <==> replacement == prefix,
{
    let n = prefix.len() as int;
    let out = replacement + name.skip(n);
    assert(prefix + name.skip(n) =~= name);
    if out == name {
        assert(out.len() == name.len());
        assert(replacement =~= out.take(n));
        assert(prefix =~= name.take(n));
    }
}

proof fn lemma_prefix_round_trip(name: Seq<char>, prefix: Seq<char>, replacement: Seq<char>)
    ensures
        ({
            let there = match with_prefix(name, prefix, replacement) {
                Some(out) => out,
                None => name,
            };
            let back = match with_prefix(there, replacement, prefix) {
                Some(out) => out,
                None => there,
            };
            back == name <==> (is_under(name, replacement) ==> is_under(name, prefix))
        }),
{
    if is_under(name, prefix) {
        lemma_undo_prefix(name, prefix, replacement);
    } else if is_under(name, replacement) {
        lemma_prefix_unchanged(name, replacement, prefix);
    }
}

} // verus!
