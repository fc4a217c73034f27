//! What this crate takes from [`std::path`] and from `dirs`.
//!
//! A path is seen as the bytes in which it is kept, as `OsStr::as_encoded_bytes` gives them: UTF-8
//! where the path is valid Unicode. How they are cut into components is the rule of the platform
//! that the crate is built for. Two paths are equal to `==` where their components are.
use std::path::{Component, Components, Path, PathBuf};

use vstd::prelude::*;
use vstd::utf8::{decode_utf8, encode_utf8, valid_utf8};

verus! {

#[verifier::external_type_specification]
#[verifier::external_body]
pub struct ExPath(Path);

#[verifier::external_type_specification]
#[verifier::external_body]
pub struct ExPathBuf(PathBuf);

#[verifier::external_type_specification]
#[verifier::external_body]
pub struct ExComponents<'a>(Components<'a>);

#[verifier::external_type_specification]
#[verifier::external_body]
pub struct ExComponent<'a>(Component<'a>);

/// The bytes of a borrowed path.
pub uninterp spec fn path_bytes(path: &Path) -> Seq<u8>;

/// The bytes of an owned path.
pub uninterp spec fn buf_bytes(path: PathBuf) -> Seq<u8>;

/// The components that an iterator has still to give.
pub uninterp spec fn rest_parts(components: Components<'_>) -> Seq<Seq<u8>>;

/// The bytes of one component.
pub uninterp spec fn component_bytes(component: Component<'_>) -> Seq<u8>;

/// The components into which the platform cuts a path with these bytes.
pub uninterp spec fn parts_of(bytes: Seq<u8>) -> Seq<Seq<u8>>;

/// The bytes of a path with the bytes `start` onto which `rest` was pushed, one component after the
/// other.
pub uninterp spec fn extended_bytes(start: Seq<u8>, rest: Seq<Seq<u8>>) -> Seq<u8>;

/// The text of a path whose bytes are not UTF-8, with what is not Unicode replaced by U+FFFD.
pub uninterp spec fn lossy(bytes: Seq<u8>) -> Seq<char>;

/// The platform takes `c` for a separator of components.
pub uninterp spec fn separates(c: char) -> bool;

/// The text of a path with these bytes.
pub open spec fn text_of_bytes(bytes: Seq<u8>) -> Seq<char> {
    if valid_utf8(bytes) {
        decode_utf8(bytes)
    } else {
        lossy(bytes)
    }
}

/// The components of a borrowed path.
pub open spec fn path_parts(path: &Path) -> Seq<Seq<u8>> {
    parts_of(path_bytes(path))
}

/// The components of an owned path.
pub open spec fn buf_parts(path: PathBuf) -> Seq<Seq<u8>> {
    parts_of(buf_bytes(path))
}

/// The text of an owned path.
pub open spec fn buf_text(path: PathBuf) -> Seq<char> {
    text_of_bytes(buf_bytes(path))
}

/// `start` with the components of `rest` behind it, and a slash before each of them unless the
/// path is empty or ends in one.
pub open spec fn slashed_bytes(start: Seq<u8>, rest: Seq<Seq<u8>>) -> Seq<u8>
    decreases rest.len(),
{
    if rest.len() == 0 {
        start
    } else if start.len() == 0 || start.last() == 0x2f {
        slashed_bytes(start + rest[0], rest.drop_first())
    } else {
        slashed_bytes(start + seq![0x2fu8] + rest[0], rest.drop_first())
    }
}

/// A component that is one name: it holds no slash, and where a backslash separates components, as
/// on Windows, it holds none of these either and does not start like a drive (`C:`).
pub open spec fn plain_part(part: Seq<u8>) -> bool {
    &&& part.len() > 0
    &&& forall|i: int| 0 <= i < part.len() ==> part[i] != 0x2f
    &&& separates('\\') ==> (forall|i: int| 0 <= i < part.len() ==> part[i] != 0x5c) && (part.len()
        > 1 ==> part[1] != 0x3a)
}

/// The root, where only a slash separates components.
pub open spec fn root_part(part: Seq<u8>) -> bool {
    part == seq![0x2fu8] && !separates('\\')
}

/// Names, of which none but the first is `.`; in place of the first may stand the root.
pub open spec fn plain_parts(parts: Seq<Seq<u8>>) -> bool {
    &&& parts.len() > 0 ==> plain_part(parts[0]) || root_part(parts[0])
    &&& forall|k: int|
        0 < k < parts.len() ==> plain_part(#[trigger] parts[k]) && parts[k] != seq![0x2eu8]
}

/// Specifies [`std::path::is_separator`]: the result depends on the character and on the platform
/// that the crate is built for.
pub assume_specification[ std::path::is_separator ](c: char) -> (found: bool)
    ensures
        found == separates(c),
;

/// Specifies `dirs::home_dir`, which asks the environment and the system for the home directory of
/// the current user. Nothing is claimed of what it returns.
pub assume_specification[ dirs::home_dir ]() -> Option<PathBuf>
;

/// Specifies [`Path::to_path_buf`]: the owned path has the bytes of the borrowed one.
pub assume_specification[ Path::to_path_buf ](path: &Path) -> (owned: PathBuf)
    ensures
        buf_bytes(owned) == path_bytes(path),
;

/// Specifies [`PathBuf::as_path`]: the borrowed path has the bytes of the owned one.
pub assume_specification[ PathBuf::as_path ](path: &PathBuf) -> (view: &Path)
    ensures
        path_bytes(view) == buf_bytes(*path),
;

/// Specifies [`Path::components`]: the iterator starts with all components of the path, which its
/// bytes determine. Where only a slash separates components, each is one name, but for the root at
/// the start; and a `.` is given at the start only.
pub assume_specification[ Path::components ](path: &Path) -> (components: Components<'_>)
    ensures
        rest_parts(components) == parts_of(path_bytes(path)),
        !separates('\\') ==> plain_parts(rest_parts(components)),
;

/// Calls `next` on [`Components`]: it takes the first of the components that are left, and gives
/// nothing where none is left.
#[verifier::external_body]
pub(crate) fn next_component<'a>(components: &mut Components<'a>) -> (next: Option<Component<'a>>)
    ensures
        match next {
            Some(component) => {
                &&& rest_parts(*old(components)).len() > 0
                &&& component_bytes(component) == rest_parts(*old(components))[0]
                &&& rest_parts(*final(components)) == rest_parts(*old(components)).drop_first()
            },
            None => {
                &&& rest_parts(*old(components)).len() == 0
                &&& rest_parts(*final(components)).len() == 0
            },
        },
{
    components.next()
}

/// Calls `OsStr::to_str` on a component: its text where its bytes are UTF-8, and nothing where
/// they are not.
#[verifier::external_body]
pub(crate) fn component_text<'a>(component: &Component<'a>) -> (text: Option<&'a str>)
    ensures
        match text {
            Some(text) => encode_utf8(text@) == component_bytes(*component),
            None => !valid_utf8(component_bytes(*component)),
        },
{
    component.as_os_str().to_str()
}

/// Calls `PathBuf::from` on a string: the bytes of the path are those of the string. A string that
/// is one name, or the root, is one component.
#[verifier::external_body]
pub(crate) fn path_from(text: String) -> (path: PathBuf)
    ensures
        buf_bytes(path) == encode_utf8(text@),
        plain_parts(seq![encode_utf8(text@)]) ==> parts_of(buf_bytes(path)) == seq![
            encode_utf8(text@),
        ],
{
    PathBuf::from(text)
}

/// Calls `extend` on a [`PathBuf`], which pushes each component. The outcome depends on the bytes
/// of the path and on the components. What a root or a drive does when it is pushed is the rule of
/// the platform that the crate is built for, so the outcome has a name here. Names come behind the
/// components of the path, and are put there with slashes where only a slash separates components.
#[verifier::external_body]
pub(crate) fn push_components(path: &mut PathBuf, rest: Components<'_>)
    ensures
        buf_bytes(*final(path)) == extended_bytes(buf_bytes(*old(path)), rest_parts(rest)),
        plain_parts(parts_of(buf_bytes(*old(path))) + rest_parts(rest)) ==> parts_of(
            buf_bytes(*final(path)),
        ) == parts_of(buf_bytes(*old(path))) + rest_parts(rest),
        !separates('\\') && (forall|k: int|
            0 <= k < rest_parts(rest).len() ==> plain_part(#[trigger] rest_parts(rest)[k]))
            ==> buf_bytes(*final(path)) == slashed_bytes(buf_bytes(*old(path)), rest_parts(rest)),
{
    path.extend(rest)
}

/// Calls [`Path::to_string_lossy`]: the text of the path, which where it is not Unicode has a name.
#[verifier::external_body]
pub(crate) fn lossy_text(path: &Path) -> (text: String)
    ensures
        valid_utf8(path_bytes(path)) ==> text@ == decode_utf8(path_bytes(path)),
        !valid_utf8(path_bytes(path)) ==> text@ == lossy(path_bytes(path)),
{
    path.to_string_lossy().into_owned()
}

/// True where only a slash separates the components of a path. What is stated of names that hold a
/// backslash or a colon depends on it.
pub fn only_slash_separates() -> (found: bool)
    ensures
        found == !separates('\\'),
{
    !std::path::is_separator('\\')
}

} // verus!
