//! The home directory in the paths of stored sessions.
use std::path::{Path, PathBuf};

use vstd::prelude::*;
use vstd::utf8::{
    decode_utf8, decode_utf8_encode_utf8, encode_scalar, encode_utf8, encode_utf8_decode_utf8,
    encode_utf8_valid_utf8, valid_utf8,
};

use crate::home::{encoded_home_of, law_encoded_home_is_one_name, text_of};
use crate::laws::{law_bytes_on_the_other_side, law_components_on_the_other_side};
use crate::paths::{
    buf_bytes, buf_parts, component_text, extended_bytes, next_component, parts_of, path_bytes,
    path_from, path_parts, plain_part, plain_parts, push_components, root_part, separates,
    slashed_bytes, text_of_bytes,
};
use crate::project::{
    decode_project_dir, decoded_dir, encode_project_dir, encoded_dir, is_under,
    law_encoded_path_round_trip, law_project_dir_round_trip, law_stored_dir_is_stable,
    lemma_dir_token, HOME_DIR_TOKEN,
};

verus! {

/// The way of a path between the local machine and the repository.
#[derive(Clone, Copy)]
pub enum Direction {
    /// Into the repository.
    Encode,
    /// Out of the repository.
    Decode,
}

/// The name of a project directory on the other side.
pub open spec fn mapped_dir(
    direction: Direction,
    name: Seq<char>,
    home: Option<Seq<char>>,
) -> Seq<char> {
    match direction {
        Direction::Encode => encoded_dir(name, home),
        Direction::Decode => decoded_dir(name, home),
    }
}

/// The components of a path on the other side: the first is mapped as the name of a project
/// directory where it is text, and all others stay.
pub open spec fn mapped_parts(
    direction: Direction,
    parts: Seq<Seq<u8>>,
    home: Option<Seq<char>>,
) -> Seq<Seq<u8>> {
    if starts_with_text(parts) {
        parts.update(0, encode_utf8(mapped_dir(direction, decode_utf8(parts[0]), home)))
    } else {
        parts
    }
}

/// There is a first component, and it is text.
pub open spec fn starts_with_text(parts: Seq<Seq<u8>>) -> bool {
    parts.len() > 0 && valid_utf8(parts[0])
}

/// The bytes of a path on the other side: the mapped name with all components but the first pushed
/// onto it. A path that does not start with text stays as it is.
pub open spec fn rebuilt_bytes(
    direction: Direction,
    bytes: Seq<u8>,
    home: Option<Seq<char>>,
) -> Seq<u8> {
    let parts = parts_of(bytes);
    if starts_with_text(parts) {
        extended_bytes(
            encode_utf8(mapped_dir(direction, decode_utf8(parts[0]), home)),
            parts.drop_first(),
        )
    } else {
        bytes
    }
}

/// The bytes of a path on the other side where only a slash separates components: the mapped name
/// and all components but the first, with a slash between each two.
pub open spec fn mapped_bytes(
    direction: Direction,
    bytes: Seq<u8>,
    home: Option<Seq<char>>,
) -> Seq<u8> {
    let parts = parts_of(bytes);
    if starts_with_text(parts) {
        slashed_bytes(
            encode_utf8(mapped_dir(direction, decode_utf8(parts[0]), home)),
            parts.drop_first(),
        )
    } else {
        bytes
    }
}

/// Maps the first component of `relative` as the name of a project directory. A path without
/// components, or whose first component is not text, stays as it is.
///
/// Where a backslash separates components too, how the path is put together again is up to the
/// platform for names that look like drives or hold a separator. Everywhere else its components
/// are the mapped ones.
fn map_first_component(relative: &Path, direction: Direction, home: Option<&str>) -> (mapped:
    PathBuf)
    ensures
        buf_bytes(mapped) == rebuilt_bytes(direction, path_bytes(relative), text_of(home)),
        !separates('\\') ==> buf_bytes(mapped) == mapped_bytes(
            direction,
            path_bytes(relative),
            text_of(home),
        ),
        !separates('\\') || plain_parts(
            mapped_parts(direction, path_parts(relative), text_of(home)),
        ) ==> buf_parts(mapped) == mapped_parts(direction, path_parts(relative), text_of(home)),
{
    let mut components = relative.components();
    let first = match next_component(&mut components) {
        Some(first) => first,
        None => return relative.to_path_buf(),
    };
    let first_str = match component_text(&first) {
        Some(text) => text,
        None => return relative.to_path_buf(),
    };
    let name = match direction {
        Direction::Encode => encode_project_dir(first_str, home),
        Direction::Decode => decode_project_dir(first_str, home),
    };
    proof {
        encode_utf8_valid_utf8(first_str@);
        encode_utf8_decode_utf8(first_str@);
        let parts = path_parts(relative);
        let all = mapped_parts(direction, parts, text_of(home));
        assert(all =~= seq![encode_utf8(name@)] + parts.drop_first());
        assert(all[0] == encode_utf8(name@));
        if !separates('\\') {
            assert forall|k: int| 0 <= k < parts.drop_first().len() implies plain_part(
                #[trigger] parts.drop_first()[k],
            ) by {
                assert(parts.drop_first()[k] == parts[k + 1]);
            }
            law_mapped_path_is_plain(direction, parts, text_of(home));
        }
        if plain_parts(all) {
            assert(seq![encode_utf8(name@)][0] == all[0]);
        }
    }
    let mut out = path_from(name);
    push_components(&mut out, components);
    out
}

/// Applies [`encode_project_dir`] to the first component of a repo-relative session path.
pub fn encode_relative_path(relative: &Path, home: Option<&str>) -> (stored: PathBuf)
    ensures
        buf_bytes(stored) == rebuilt_bytes(Direction::Encode, path_bytes(relative), text_of(home)),
        !separates('\\') ==> buf_bytes(stored) == mapped_bytes(
            Direction::Encode,
            path_bytes(relative),
            text_of(home),
        ),
        !separates('\\') || plain_parts(
            mapped_parts(Direction::Encode, path_parts(relative), text_of(home)),
        ) ==> buf_parts(stored) == mapped_parts(
            Direction::Encode,
            path_parts(relative),
            text_of(home),
        ),
        ({
            let text = match home {
                Some(dir) => Some(dir@),
                None => None,
            };
            let parts = parts_of(path_bytes(relative));
            let name = encode_utf8(encoded_dir(decode_utf8(parts[0]), text));
            let rest = parts.skip(1);
            if parts.len() > 0 && valid_utf8(parts[0]) {
                &&& buf_bytes(stored) == extended_bytes(name, rest)
                &&& !separates('\\') ==> buf_bytes(stored) == slashed_bytes(name, rest)
                &&& !separates('\\') ==> parts_of(buf_bytes(stored)) == seq![name] + rest
            } else {
                buf_bytes(stored) == path_bytes(relative)
            }
        }),
{
    proof {
        law_components_on_the_other_side(path_parts(relative), text_of(home));
        law_bytes_on_the_other_side(path_bytes(relative), text_of(home));
    }
    map_first_component(relative, Direction::Encode, home)
}

/// Applies [`decode_project_dir`] to the first component of a repo-relative session path.
pub fn decode_relative_path(relative: &Path, home: Option<&str>) -> (local: PathBuf)
    ensures
        buf_bytes(local) == rebuilt_bytes(Direction::Decode, path_bytes(relative), text_of(home)),
        !separates('\\') ==> buf_bytes(local) == mapped_bytes(
            Direction::Decode,
            path_bytes(relative),
            text_of(home),
        ),
        !separates('\\') || plain_parts(
            mapped_parts(Direction::Decode, path_parts(relative), text_of(home)),
        ) ==> buf_parts(local) == mapped_parts(
            Direction::Decode,
            path_parts(relative),
            text_of(home),
        ),
        ({
            let text = match home {
                Some(dir) => Some(dir@),
                None => None,
            };
            let parts = parts_of(path_bytes(relative));
            let name = encode_utf8(decoded_dir(decode_utf8(parts[0]), text));
            let rest = parts.skip(1);
            if parts.len() > 0 && valid_utf8(parts[0]) {
                &&& buf_bytes(local) == extended_bytes(name, rest)
                &&& !separates('\\') ==> buf_bytes(local) == slashed_bytes(name, rest)
                &&& !separates('\\') ==> parts_of(buf_bytes(local)) == seq![name] + rest
            } else {
                buf_bytes(local) == path_bytes(relative)
            }
        }),
{
    proof {
        law_components_on_the_other_side(path_parts(relative), text_of(home));
        law_bytes_on_the_other_side(path_bytes(relative), text_of(home));
    }
    map_first_component(relative, Direction::Decode, home)
}

/// Text that is one name of a component.
pub open spec fn plain_text(name: Seq<char>) -> bool {
    &&& name.len() > 0
    &&& !name.contains('/')
    &&& separates('\\') ==> !name.contains('\\') && (name.len() > 1 && (name[0] as u32) < 0x80
        ==> name[1] != ':')
}

/// Only the first component of a path changes.
pub proof fn law_only_first_component_changes(
    direction: Direction,
    parts: Seq<Seq<u8>>,
    home: Option<Seq<char>>,
)
    ensures
        mapped_parts(direction, parts, home).len() == parts.len(),
        forall|k: int|
            0 < k < parts.len() ==> #[trigger] mapped_parts(direction, parts, home)[k] == parts[k],
{
}

/// Decoding gives back the path that was encoded, exactly where its first component is not text,
/// is under the home, or is not the placeholder.
pub proof fn law_relative_path_round_trip(parts: Seq<Seq<u8>>, home: Option<Seq<char>>)
    ensures
        mapped_parts(
            Direction::Decode,
            mapped_parts(Direction::Encode, parts, home),
            home,
        ) == parts <==> (encoded_home_of(home) matches Some(encoded) ==> starts_with_text(parts)
            ==> is_under(decode_utf8(parts[0]), HOME_DIR_TOKEN@) ==> is_under(
            decode_utf8(parts[0]),
            encoded,
        )),
{
    lemma_there_and_back(Direction::Encode, Direction::Decode, parts, home);
    if starts_with_text(parts) {
        law_project_dir_round_trip(decode_utf8(parts[0]), home);
    }
}

/// Encoding gives back the stored path that was decoded, exactly where its first component is not
/// text, is the placeholder, or is not under the home.
pub proof fn law_stored_path_is_stable(parts: Seq<Seq<u8>>, home: Option<Seq<char>>)
    ensures
        mapped_parts(
            Direction::Encode,
            mapped_parts(Direction::Decode, parts, home),
            home,
        ) == parts <==> (encoded_home_of(home) matches Some(encoded) ==> starts_with_text(parts)
            ==> is_under(decode_utf8(parts[0]), encoded) ==> is_under(
            decode_utf8(parts[0]),
            HOME_DIR_TOKEN@,
        )),
{
    lemma_there_and_back(Direction::Decode, Direction::Encode, parts, home);
    if starts_with_text(parts) {
        law_stored_dir_is_stable(decode_utf8(parts[0]), home);
    }
}

/// Two paths below encoded absolute paths, which start with `-`, are never stored at one place.
pub proof fn law_session_paths_stay_distinct(
    a: Seq<Seq<u8>>,
    b: Seq<Seq<u8>>,
    home: Option<Seq<char>>,
)
    requires
        a.len() > 0 && a[0].len() > 0 && a[0][0] == 0x2d,
        b.len() > 0 && b[0].len() > 0 && b[0][0] == 0x2d,
        mapped_parts(Direction::Encode, a, home) == mapped_parts(Direction::Encode, b, home),
    ensures
        a == b,
{
    law_session_path_round_trip(a, home);
    law_session_path_round_trip(b, home);
}

/// A path below an encoded absolute path, which starts with `-`, is given back by decoding.
pub proof fn law_session_path_round_trip(parts: Seq<Seq<u8>>, home: Option<Seq<char>>)
    requires
        parts.len() > 0,
        parts[0].len() > 0,
        parts[0][0] == 0x2d,
    ensures
        mapped_parts(
            Direction::Decode,
            mapped_parts(Direction::Encode, parts, home),
            home,
        ) == parts,
{
    law_relative_path_round_trip(parts, home);
    if starts_with_text(parts) {
        let name = decode_utf8(parts[0]);
        decode_utf8_encode_utf8(parts[0]);
        assert(name.len() > 0);
        lemma_scalar_bytes(name[0]);
        assert(parts[0][0] == encode_scalar(name[0] as u32)[0]);
        assert(name[0] == '-');
        law_encoded_path_round_trip(name, home);
    }
}

/// A path stored on one machine and brought to another has the name of its project moved between
/// the homes, and all components below it unchanged.
pub proof fn law_relative_path_moves_between_homes(
    parts: Seq<Seq<u8>>,
    home: Option<Seq<char>>,
    other_home: Option<Seq<char>>,
)
    requires
        starts_with_text(parts),
    ensures
        mapped_parts(
            Direction::Decode,
            mapped_parts(Direction::Encode, parts, home),
            other_home,
        ) == parts.update(
            0,
            encode_utf8(decoded_dir(encoded_dir(decode_utf8(parts[0]), home), other_home)),
        ),
{
    let stored = encoded_dir(decode_utf8(parts[0]), home);
    encode_utf8_valid_utf8(stored);
    encode_utf8_decode_utf8(stored);
    assert(mapped_parts(
        Direction::Decode,
        mapped_parts(Direction::Encode, parts, home),
        other_home,
    ) =~= parts.update(0, encode_utf8(decoded_dir(stored, other_home))));
}

proof fn lemma_there_and_back(
    there: Direction,
    back: Direction,
    parts: Seq<Seq<u8>>,
    home: Option<Seq<char>>,
)
    ensures
        mapped_parts(back, mapped_parts(there, parts, home), home) == parts <==> (starts_with_text(
            parts,
        ) ==> mapped_dir(back, mapped_dir(there, decode_utf8(parts[0]), home), home)
            == decode_utf8(parts[0])),
{
    if starts_with_text(parts) {
        let name = decode_utf8(parts[0]);
        let middle = mapped_dir(there, name, home);
        let end = mapped_dir(back, middle, home);
        decode_utf8_encode_utf8(parts[0]);
        encode_utf8_valid_utf8(middle);
        encode_utf8_decode_utf8(middle);
        encode_utf8_decode_utf8(end);
        let out = mapped_parts(back, mapped_parts(there, parts, home), home);
        assert(out[0] == encode_utf8(end));
        if end == name {
            assert(out =~= parts);
        }
    }
}

/// `start` with the components of `rest` behind it, and a slash before each of them unless the
/// text is empty or ends in one.
pub open spec fn slashed_text(start: Seq<char>, rest: Seq<Seq<char>>) -> Seq<char>
    decreases rest.len(),
{
    if rest.len() == 0 {
        start
    } else if start.len() == 0 || start.last() == '/' {
        slashed_text(start + rest[0], rest.drop_first())
    } else {
        slashed_text(start + seq!['/'] + rest[0], rest.drop_first())
    }
}

/// The text of a path that is put together from components that are text is their texts with
/// slashes between them.
pub proof fn law_text_of_slashed_path(start: Seq<char>, rest: Seq<Seq<char>>)
    ensures
        text_of_bytes(
            slashed_bytes(encode_utf8(start), rest.map_values(|part: Seq<char>| encode_utf8(part))),
        ) == slashed_text(start, rest),
{
    lemma_slashed_text(start, rest);
    encode_utf8_valid_utf8(slashed_text(start, rest));
    encode_utf8_decode_utf8(slashed_text(start, rest));
}

proof fn lemma_slashed_text(start: Seq<char>, rest: Seq<Seq<char>>)
    ensures
        slashed_bytes(encode_utf8(start), rest.map_values(|part: Seq<char>| encode_utf8(part)))
            == encode_utf8(slashed_text(start, rest)),
    decreases rest.len(),
{
    let parts = rest.map_values(|part: Seq<char>| encode_utf8(part));
    let bytes = encode_utf8(start);
    if rest.len() > 0 {
        let next = rest.drop_first();
        assert(parts.drop_first() =~= next.map_values(|part: Seq<char>| encode_utf8(part)));
        lemma_last_byte(start);
        lemma_encode_concat(start, rest[0]);
        lemma_encode_concat(start, seq!['/']);
        lemma_encode_concat(start + seq!['/'], rest[0]);
        lemma_scalar_bytes('/');
        assert(seq!['/'].drop_first() =~= seq![]);
        assert(encode_utf8(seq!['/'].drop_first()) =~= seq![]);
        assert(encode_utf8(seq!['/']) =~= seq![0x2fu8]);
        if start.len() == 0 || start.last() == '/' {
            lemma_slashed_text(start + rest[0], next);
        } else {
            lemma_slashed_text(start + seq!['/'] + rest[0], next);
        }
    }
}

proof fn lemma_encode_concat(a: Seq<char>, b: Seq<char>)
    ensures
        encode_utf8(a + b) == encode_utf8(a) + encode_utf8(b),
    decreases a.len(),
{
    if a.len() == 0 {
        assert(a + b =~= b);
        assert(encode_utf8(a) + encode_utf8(b) =~= encode_utf8(b));
    } else {
        assert((a + b).drop_first() =~= a.drop_first() + b);
        lemma_encode_concat(a.drop_first(), b);
        assert(encode_utf8(a + b) =~= encode_utf8(a) + encode_utf8(b));
    }
}

/// The bytes of a text end in a slash exactly where the text does.
proof fn lemma_last_byte(text: Seq<char>)
    ensures
        text.len() == 0 <==> encode_utf8(text).len() == 0,
        text.len() > 0 ==> (encode_utf8(text).last() == 0x2f <==> text.last() == '/'),
{
    if text.len() > 0 {
        let c = text.last();
        let end = seq![c];
        lemma_scalar_bytes(text[0]);
        lemma_scalar_bytes(c);
        lemma_encode_concat(text.drop_last(), end);
        assert(text.drop_last() + end =~= text);
        assert(end.drop_first() =~= seq![]);
        assert(encode_utf8(end.drop_first()) =~= seq![]);
        assert(encode_utf8(end) =~= encode_scalar(c as u32));
        let bytes = encode_scalar(c as u32);
        assert(encode_utf8(text).last() == bytes[bytes.len() - 1]);
    }
}

/// A path of names stays a path of names, unless it gets a home that starts like a drive where a
/// backslash separates components.
pub proof fn law_mapped_path_is_plain(
    direction: Direction,
    parts: Seq<Seq<u8>>,
    home: Option<Seq<char>>,
)
    requires
        plain_parts(parts),
        separates('\\') && direction is Decode ==> (encoded_home_of(home) matches Some(encoded)
            ==> starts_with_text(parts) ==> is_under(decode_utf8(parts[0]), HOME_DIR_TOKEN@)
            ==> plain_text(encoded)),
    ensures
        plain_parts(mapped_parts(direction, parts, home)),
{
    if starts_with_text(parts) {
        let name = decode_utf8(parts[0]);
        decode_utf8_encode_utf8(parts[0]);
        law_encoded_home_is_one_name(home);
        lemma_dir_token();
        if root_part(parts[0]) {
            lemma_root_stays(direction, parts, home);
        } else {
            lemma_plain_bytes(name);
            if let Some(encoded) = encoded_home_of(home) {
                if direction is Encode && is_under(name, encoded) {
                    lemma_plain_join(name, encoded, HOME_DIR_TOKEN@);
                }
                if direction is Decode && is_under(name, HOME_DIR_TOKEN@) {
                    lemma_plain_join(name, HOME_DIR_TOKEN@, encoded);
                }
            }
            lemma_plain_bytes(mapped_dir(direction, name, home));
            lemma_plain_update(parts, encode_utf8(mapped_dir(direction, name, home)));
        }
    }
}

/// An absolute path stays as it is.
proof fn lemma_root_stays(direction: Direction, parts: Seq<Seq<u8>>, home: Option<Seq<char>>)
    requires
        starts_with_text(parts),
        parts[0] == seq![0x2fu8],
    ensures
        mapped_parts(direction, parts, home) == parts,
{
    let name = decode_utf8(parts[0]);
    decode_utf8_encode_utf8(parts[0]);
    law_encoded_home_is_one_name(home);
    lemma_dir_token();
    assert(name.len() > 0);
    lemma_scalar_bytes(name[0]);
    assert(parts[0][0] == encode_scalar(name[0] as u32)[0]);
    assert(name[0] == '/');
    if let Some(encoded) = encoded_home_of(home) {
        if is_under(name, encoded) {
            assert(encoded[0] == name[0]);
        }
        if is_under(name, HOME_DIR_TOKEN@) {
            assert(HOME_DIR_TOKEN@[0] == name[0]);
        }
    }
    assert(mapped_parts(direction, parts, home) =~= parts);
}

proof fn lemma_plain_update(parts: Seq<Seq<u8>>, first: Seq<u8>)
    requires
        parts.len() > 0,
        plain_parts(parts),
        plain_part(first),
    ensures
        plain_parts(parts.update(0, first)),
{
    let out = parts.update(0, first);
    assert forall|k: int| 0 < k < out.len() implies plain_part(#[trigger] out[k]) && out[k]
        != seq![0x2eu8] by {
        assert(out[k] == parts[k]);
    }
}

/// A plain name stays plain when its prefix is replaced by plain text.
proof fn lemma_plain_join(name: Seq<char>, prefix: Seq<char>, replacement: Seq<char>)
    requires
        plain_text(name),
        plain_text(replacement),
        is_under(name, prefix),
    ensures
        plain_text(replacement + name.skip(prefix.len() as int)),
{
    let rest = name.skip(prefix.len() as int);
    let out = replacement + rest;
    assert forall|k: int| 0 <= k < out.len() implies out[k] != '/' && (separates('\\') ==> out[k]
        != '\\') by {
        if k < replacement.len() {
            assert(out[k] == replacement[k]);
            assert(replacement.contains(replacement[k]));
        } else {
            let j = prefix.len() + k - replacement.len();
            assert(out[k] == name[j]);
            assert(name.contains(name[j]));
        }
    }
}

/// The bytes of a text are those of a plain component exactly where the text is plain.
proof fn lemma_plain_bytes(name: Seq<char>)
    ensures
        plain_part(encode_utf8(name)) <==> plain_text(name),
{
    let bytes = encode_utf8(name);
    if name.len() > 0 {
        lemma_scalar_bytes(name[0]);
        assert(bytes.len() > 0);
        lemma_ascii_bytes(name, '/');
        lemma_ascii_bytes(name, '\\');
        assert('/' as u8 == 0x2f && '\\' as u8 == 0x5c);
        assert(name.contains('/') <==> exists|i: int| 0 <= i < bytes.len() && bytes[i] == 0x2f);
        assert(name.contains('\\') <==> exists|i: int| 0 <= i < bytes.len() && bytes[i] == 0x5c);
        let rest = name.drop_first();
        let head = encode_scalar(name[0] as u32);
        if (name[0] as u32) >= 0x80 {
            assert(bytes[1] == head[1]);
        } else {
            assert(bytes == head + encode_utf8(rest));
            assert(head.len() == 1);
            if rest.len() > 0 {
                let second = encode_scalar(rest[0] as u32);
                lemma_scalar_bytes(rest[0]);
                assert(rest[0] == name[1]);
                assert(bytes[1] == second[0]);
                if (rest[0] as u32) < 0x80 {
                    assert(second[0] == rest[0] as u8);
                }
                assert(bytes[1] == 0x3a <==> name[1] == ':');
            } else {
                assert(bytes.len() == 1);
            }
        }
        assert(bytes.len() > 1 && bytes[1] == 0x3a <==> name.len() > 1 && (name[0] as u32) < 0x80
            && name[1] == ':');
    }
}

/// An ASCII character stands in a text exactly where its byte stands in the bytes of the text.
proof fn lemma_ascii_bytes(name: Seq<char>, c: char)
    requires
        (c as u32) < 0x80,
    ensures
        name.contains(c) <==> encode_utf8(name).contains(c as u8),
    decreases name.len(),
{
    if name.len() > 0 {
        let rest = name.drop_first();
        let head = encode_scalar(name[0] as u32);
        let tail = encode_utf8(rest);
        lemma_scalar_bytes(name[0]);
        lemma_ascii_bytes(rest, c);
        assert(encode_utf8(name) == head + tail);
        if name.contains(c) {
            let k = choose|k: int| 0 <= k < name.len() && name[k] == c;
            if k == 0 {
                assert((head + tail)[0] == c as u8);
            } else {
                assert(rest[k - 1] == c);
                let i = choose|i: int| 0 <= i < tail.len() && tail[i] == c as u8;
                assert((head + tail)[head.len() + i] == c as u8);
            }
        }
        if (head + tail).contains(c as u8) {
            let i = choose|i: int| 0 <= i < (head + tail).len() && (head + tail)[i] == c as u8;
            if i < head.len() {
                assert(head[i] == c as u8);
                lemma_ascii_byte(c);
                assert(head == seq![name[0] as u8]);
                assert(name[0] == c);
            } else {
                assert(tail[i - head.len()] == c as u8);
                let k = choose|k: int| 0 <= k < rest.len() && rest[k] == c;
                assert(name[k + 1] == c);
            }
        }
    }
}

proof fn lemma_ascii_byte(c: char)
    requires
        (c as u32) < 0x80,
    ensures
        (c as u8) as int == c as int,
        (c as u8) < 0x80,
{
}

/// An ASCII character is one byte, and all bytes of any other character are above ASCII.
proof fn lemma_scalar_bytes(c: char)
    ensures
        encode_scalar(c as u32).len() > 0,
        (c as u32) < 0x80 ==> encode_scalar(c as u32) == seq![c as u8] && (c as u8) as int == c
            as int,
        (c as u32) >= 0x80 ==> encode_scalar(c as u32).len() > 1 && forall|i: int|
            0 <= i < encode_scalar(c as u32).len() ==> #[trigger] encode_scalar(c as u32)[i]
            >= 0x80,
{
    let v = c as u32;
    assert(v < 0x80 ==> (v & 0x7F) as u8 == v as u8) by (bit_vector);
    assert((0xC0 | ((v >> 6) & 0x1F) as u8) >= 0x80u8) by (bit_vector);
    assert((0xE0 | ((v >> 12) & 0x0F) as u8) >= 0x80u8) by (bit_vector);
    assert((0xF0 | ((v >> 18) & 0x7) as u8) >= 0x80u8) by (bit_vector);
    assert((0x80 | (v & 0x3F) as u8) >= 0x80u8) by (bit_vector);
    assert((0x80 | ((v >> 6) & 0x3F) as u8) >= 0x80u8) by (bit_vector);
    assert((0x80 | ((v >> 12) & 0x3F) as u8) >= 0x80u8) by (bit_vector);
}

} // verus!
