//! The local home directory.
use std::path::PathBuf;

use vstd::prelude::*;
use vstd::utf8::{
    decode_utf8, encode_utf8, encode_utf8_decode_utf8, encode_utf8_valid_utf8, valid_utf8,
};

use crate::laws::law_home_prefix_drops_only_slashes;
use crate::paths::{buf_bytes, buf_text, lossy, lossy_text, path_from};
use crate::text::chars_of;

verus! {

/// Name of the environment variable that overrides the home directory when it is not empty.
pub const HOME_OVERRIDE: &'static str = "CLAUDE_CODE_SYNC_HOME";

/// The text of a home that may be unknown.
pub open spec fn text_of(home: Option<&str>) -> Option<Seq<char>> {
    match home {
        Some(home) => Some(home@),
        None => None,
    }
}

/// The text of an owned string that may be missing.
pub open spec fn owned_text_of(text: Option<String>) -> Option<Seq<char>> {
    match text {
        Some(text) => Some(text@),
        None => None,
    }
}

/// The text of the path of a home that may be unknown.
pub open spec fn path_text_of(home: Option<PathBuf>) -> Option<Seq<char>> {
    match home {
        Some(path) => Some(buf_text(path)),
        None => None,
    }
}

/// `text` without the slashes at its end.
pub open spec fn without_end_slashes(text: Seq<char>) -> Seq<char>
    decreases text.len(),
{
    if text.len() > 0 && text.last() == '/' {
        without_end_slashes(text.drop_last())
    } else {
        text
    }
}

/// The home as it is looked for in texts: without slashes at its end, and unknown where nothing
/// is left of it.
pub open spec fn home_prefix_of(home: Option<Seq<char>>) -> Option<Seq<char>> {
    match home {
        Some(text) => if without_end_slashes(text).len() == 0 {
            None
        } else {
            Some(without_end_slashes(text))
        },
        None => None,
    }
}

/// The character that stands for `c` in the name of a project directory.
pub open spec fn dashed_char(c: char) -> char {
    if c == '/' || c == '\\' {
        '-'
    } else {
        c
    }
}

/// A path as it is written in the name of a project directory.
pub open spec fn dashed(path: Seq<char>) -> Seq<char> {
    Seq::new(path.len(), |i: int| dashed_char(path[i]))
}

/// The home as it is written in the names of project directories.
pub open spec fn encoded_home_of(home: Option<Seq<char>>) -> Option<Seq<char>> {
    match home_prefix_of(home) {
        Some(prefix) => Some(dashed(prefix)),
        None => None,
    }
}

/// Chooses between the override, which wins unless it is empty, and the home of the account.
pub fn choose_home(override_dir: Option<&str>, account_home: Option<PathBuf>) -> (home: Option<
    PathBuf,
>)
    ensures
        match override_dir {
            Some(dir) => if dir@.len() > 0 {
                home matches Some(path) && buf_bytes(path) == encode_utf8(dir@) && buf_text(path)
                    == dir@
            } else {
                home == account_home
            },
            None => home == account_home,
        },
{
    if let Some(dir) = override_dir {
        if !dir.is_empty() {
            proof {
                encode_utf8_valid_utf8(dir@);
                encode_utf8_decode_utf8(dir@);
            }
            return Some(path_from(dir.to_owned()));
        }
    }
    account_home
}

/// Local home directory: `override_dir`, the value of [`HOME_OVERRIDE`], where it is set and not
/// empty, and the home of the account otherwise.
pub fn local_home(override_dir: Option<&str>) -> (home: Option<PathBuf>)
    ensures
        override_dir matches Some(dir) && dir@.len() > 0 ==> (home matches Some(path) && buf_bytes(
            path,
        ) == encode_utf8(override_dir->0@) && buf_text(path) == override_dir->0@),
{
    let overridden = match override_dir {
        Some(dir) => !dir.is_empty(),
        None => false,
    };
    let account_home = if overridden {
        None
    } else {
        dirs::home_dir()
    };
    choose_home(override_dir, account_home)
}

/// Drops the slashes at the end of a home. Nothing is left of an empty home or of the root.
pub fn home_prefix(home: Option<&str>) -> (prefix: Option<String>)
    ensures
        owned_text_of(prefix) == home_prefix_of(text_of(home)),
        prefix matches Some(prefix) ==> (home matches Some(home) && {
            &&& 0 < prefix@.len() <= home@.len()
            &&& prefix@ == home@.take(prefix@.len() as int)
            &&& prefix@.last() != '/'
            &&& forall|i: int| prefix@.len() <= i < home@.len() ==> #[trigger] home@[i] == '/'
        }),
        prefix is None ==> (home matches Some(home) ==> forall|i: int|
            0 <= i < home@.len() ==> #[trigger] home@[i] == '/'),
{
    proof {
        if let Some(home) = home {
            law_home_prefix_drops_only_slashes(home@);
        }
    }
    let home = match home {
        Some(home) => home,
        None => return None,
    };
    let chars = chars_of(home);
    let mut end: usize = chars.len();
    assert(chars@.take(end as int) =~= chars@);
    while end > 0 && chars[end - 1] == '/'
        invariant
            end <= chars.len(),
            without_end_slashes(chars@) == without_end_slashes(chars@.take(end as int)),
        decreases end,
    {
        assert(chars@.take(end as int).drop_last() =~= chars@.take(end - 1));
        end = end - 1;
    }
    if end == 0 {
        None
    } else {
        Some(home.substring_char(0, end).to_owned())
    }
}

/// The text of the local home, as it is looked for in texts.
pub fn local_home_str(home: Option<PathBuf>) -> (prefix: Option<String>)
    ensures
        owned_text_of(prefix) == home_prefix_of(path_text_of(home)),
        home matches Some(path) ==> ({
            let bytes = buf_bytes(path);
            let text = if valid_utf8(bytes) {
                decode_utf8(bytes)
            } else {
                lossy(bytes)
            };
            match prefix {
                Some(prefix) => home_prefix_of(Some(text)) == Some(prefix@),
                None => home_prefix_of(Some(text)) is None,
            }
        }),
        home is None ==> prefix is None,
{
    match home {
        Some(path) => {
            let text = lossy_text(path.as_path());
            home_prefix(Some(text.as_str()))
        },
        None => None,
    }
}

/// The home as it is written in the names of project directories: `/Users/alice` becomes
/// `-Users-alice`.
pub fn encoded_local_home(home: Option<&str>) -> (encoded: Option<String>)
    ensures
        owned_text_of(encoded) == encoded_home_of(text_of(home)),
        match encoded {
            Some(encoded) => home matches Some(home) && encoded_home_of(Some(home@)) == Some(
                encoded@,
            ),
            None => home matches Some(home) ==> encoded_home_of(Some(home@)) is None,
        },
{
    let prefix = match home_prefix(home) {
        Some(prefix) => prefix,
        None => return None,
    };
    let chars = chars_of(prefix.as_str());
    let mut encoded = String::new();
    let mut i: usize = 0;
    while i < chars.len()
        invariant
            i <= chars.len(),
            encoded@ == dashed(chars@.take(i as int)),
        decreases chars.len() - i,
    {
        let c = chars[i];
        if c == '/' || c == '\\' {
            encoded.push('-');
        } else {
            encoded.push(c);
        }
        i = i + 1;
        assert(dashed(chars@.take(i as int)) =~= dashed(chars@.take(i - 1)).push(dashed_char(c)));
    }
    assert(chars@.take(i as int) =~= chars@);
    Some(encoded)
}

/// A known home is not empty and does not end in a slash.
pub proof fn law_home_prefix_is_canonical(home: Option<Seq<char>>)
    ensures
        home_prefix_of(home) matches Some(prefix) ==> prefix.len() > 0 && prefix.last() != '/'
            && home_prefix_of(Some(prefix)) == Some(prefix),
{
    if let Some(text) = home {
        lemma_no_end_slash(text);
    }
}

/// A slash at the end of a home makes no difference.
pub proof fn law_end_slash_is_ignored(home: Seq<char>)
    ensures
        home_prefix_of(Some(home.push('/'))) == home_prefix_of(Some(home)),
{
    assert(home.push('/').drop_last() =~= home);
}

/// The written home holds no separator and is as long as the home. That of an absolute path starts
/// with `-`.
pub proof fn law_encoded_home_is_one_name(home: Option<Seq<char>>)
    ensures
        encoded_home_of(home) is Some <==> home_prefix_of(home) is Some,
        encoded_home_of(home) matches Some(encoded) ==> encoded.len() == home_prefix_of(
            home,
        )->0.len() && encoded.len() > 0 && (forall|i: int|
            0 <= i < encoded.len() ==> encoded[i] != '/' && encoded[i] != '\\') && (home_prefix_of(
            home,
        )->0[0] == '/' ==> encoded[0] == '-'),
{
    law_home_prefix_is_canonical(home);
}

proof fn lemma_no_end_slash(text: Seq<char>)
    ensures
        without_end_slashes(text).len() > 0 ==> without_end_slashes(text).last() != '/',
    decreases text.len(),
{
    if text.len() > 0 && text.last() == '/' {
        lemma_no_end_slash(text.drop_last());
    }
}

} // verus!
