use std::path::{Path, PathBuf};

use portable_home::content::{from_portable, has_token, to_portable, HOME_TOKEN};
use portable_home::home::{
    choose_home, encoded_local_home, home_prefix, local_home, local_home_str, HOME_OVERRIDE,
};
use portable_home::paths::only_slash_separates;
use portable_home::project::{
    decode_project_dir, encode_project_dir, replace_prefix, HOME_DIR_TOKEN,
};
use portable_home::relative::{decode_relative_path, encode_relative_path};

const ALICE: Option<&str> = Some("/Users/alice");

#[test]
fn constants_have_their_spelling() {
    assert_eq!(HOME_TOKEN, "{{CLAUDE_SYNC_HOME}}");
    assert_eq!(HOME_DIR_TOKEN, "HOME");
    assert_eq!(HOME_OVERRIDE, "CLAUDE_CODE_SYNC_HOME");
}

#[test]
fn override_wins_unless_it_is_empty() {
    assert_eq!(local_home(ALICE), Some(PathBuf::from("/Users/alice")));
    assert_eq!(local_home(None), dirs::home_dir());
    assert_eq!(local_home(Some("")), dirs::home_dir());
}

#[test]
fn account_home_is_used_without_an_override() {
    let account = Some(PathBuf::from("/home/bob"));
    assert_eq!(choose_home(None, account.clone()), account);
    assert_eq!(choose_home(Some(""), account.clone()), account);
    assert_eq!(choose_home(ALICE, account), Some(PathBuf::from("/Users/alice")));
    assert_eq!(choose_home(None, None), None);
}

#[test]
fn slashes_at_the_end_of_the_home_are_dropped() {
    assert_eq!(home_prefix(Some("/Users/alice//")), Some("/Users/alice".to_string()));
    assert_eq!(home_prefix(Some("/")), None);
    assert_eq!(home_prefix(Some("")), None);
    assert_eq!(home_prefix(None), None);
    assert_eq!(
        local_home_str(Some(PathBuf::from("/Users/alice/"))),
        Some("/Users/alice".to_string())
    );
    assert_eq!(local_home_str(Some(PathBuf::from("/"))), None);
    assert_eq!(local_home_str(None), None);
}

#[test]
fn home_is_written_with_dashes() {
    assert_eq!(encoded_local_home(ALICE), Some("-Users-alice".to_string()));
    assert_eq!(encoded_local_home(Some("C:\\Users\\al")), Some("C:-Users-al".to_string()));
    assert_eq!(encoded_local_home(Some("/")), None);
    assert_eq!(encoded_local_home(None), None);
}

#[test]
fn unknown_home_changes_nothing() {
    for home in [None, Some(""), Some("///")] {
        assert_eq!(to_portable("/Users/alice", home), "/Users/alice");
        assert_eq!(from_portable(HOME_TOKEN, home), HOME_TOKEN);
        assert_eq!(encode_project_dir("-Users-alice", home), "-Users-alice");
        assert_eq!(decode_project_dir("HOME-work", home), "HOME-work");
        assert_eq!(encode_relative_path(Path::new("-a/b"), home), Path::new("-a/b"));
        assert_eq!(decode_relative_path(Path::new("HOME/b"), home), Path::new("HOME/b"));
    }
}

#[test]
fn occurrences_are_taken_from_the_left() {
    assert_eq!(
        to_portable("/a/a/a/a/a", Some("/a/a")),
        "{{CLAUDE_SYNC_HOME}}{{CLAUDE_SYNC_HOME}}/a"
    );
    assert_eq!(to_portable("aaa", Some("aa")), "a{{CLAUDE_SYNC_HOME}}");
    assert_eq!(to_portable("", ALICE), "");
    assert_eq!(to_portable("/Users/alic", ALICE), "/Users/alic");
    assert_eq!(
        to_portable("\u{e9}/h\u{f6}me\u{1f600}/h\u{f6}me", Some("/h\u{f6}me")),
        "\u{e9}{{CLAUDE_SYNC_HOME}}\u{1f600}{{CLAUDE_SYNC_HOME}}"
    );
}

#[test]
fn longer_names_are_not_the_home() {
    for text in [
        "/Users/alicexbackup/f.rs",
        "/Users/alice2",
        "/Users/alice-backup/f.rs",
        "/Users/alice_old",
        "/Users/alice.bak",
        "/Users/alice..x",
        "/Users/alice./x",
        "/Users/alice-/x",
        "/Users/alice--x",
        "/Users/alice_.-9",
        "/Users/alice\u{e9}/x",
        "/Users/alice\u{540d}",
    ] {
        assert_eq!(to_portable(text, ALICE), text);
    }
    assert_eq!(
        to_portable("/Users/alicex and /Users/alice/x", ALICE),
        "/Users/alicex and {{CLAUDE_SYNC_HOME}}/x"
    );
}

#[test]
fn the_home_ends_where_its_name_ends() {
    for end in [
        "", "/", "/x", "/.config", "\"", "\\n", " ", "\n", ",", ";", ":", ")", "}", "'", "`", ".", "...",
        ". Then", ".\\n", "-", "->/root", "_", "_ ", "--", "-.-", "\u{201d}", "\u{2026}",
    ] {
        assert_eq!(
            to_portable(&format!("in /Users/alice{end}"), ALICE),
            format!("in {{{{CLAUDE_SYNC_HOME}}}}{end}")
        );
    }
    // A letter before the home is an escape or a flag.
    assert_eq!(
        to_portable("\\n/Users/alice/x -I/Users/alice/include", ALICE),
        "\\n{{CLAUDE_SYNC_HOME}}/x -I{{CLAUDE_SYNC_HOME}}/include"
    );
}

#[test]
fn expanding_agrees_with_replace() {
    let texts = ["", "a", "/a", "/a/a/a", "x/a/ay/a", "{{CLAUDE_SYNC_HOME}}/a", "{{{CLAUDE_SYNC_HOME}}}"];
    for text in texts {
        for home in ["/a", "/a/a", "a", "{", "HOME"] {
            assert_eq!(from_portable(text, Some(home)), text.replace(HOME_TOKEN, home));
            assert_eq!(has_token(text), text.contains(HOME_TOKEN));
        }
    }
}

#[test]
fn content_comes_back_unless_a_token_was_kept() {
    let plain = "{/Users/alice}{{/Users/alice/x/Users/alice";
    assert_eq!(from_portable(&to_portable(plain, ALICE), ALICE), plain);
    let marked = "{{CLAUDE_SYNC_HOME}} at /Users/alice";
    assert_eq!(from_portable(&to_portable(marked, ALICE), ALICE), "/Users/alice at /Users/alice");
    // A placeholder that the home cuts through is not kept.
    let home = Some("HOME");
    assert_eq!(from_portable(&to_portable(HOME_TOKEN, home), home), HOME_TOKEN);
    let named = "/Users/alice/x /Users/alicex";
    assert_eq!(from_portable(&to_portable(named, ALICE), ALICE), named);
    assert_eq!(
        from_portable(&to_portable(named, ALICE), Some("/root")),
        "/root/x /Users/alicex"
    );
}

#[test]
fn stored_content_is_stored_again_as_it_was() {
    let stored = "a {{CLAUDE_SYNC_HOME}}/b {{CLAUDE_SYNC_HOME}}";
    assert_eq!(to_portable(&from_portable(stored, ALICE), ALICE), stored);
    // A home that can overlap itself is found too early.
    let home = Some("/a/a");
    assert_eq!(
        to_portable(&from_portable("/a{{CLAUDE_SYNC_HOME}}", home), home),
        "{{CLAUDE_SYNC_HOME}}/a"
    );
    // A placeholder that a name follows is not what a home was collapsed to.
    assert_eq!(
        to_portable(&from_portable("{{CLAUDE_SYNC_HOME}}x", ALICE), ALICE),
        "/Users/alicex"
    );
}

#[test]
fn home_leaks_only_where_it_overlaps_the_token() {
    assert!(!to_portable("/Users/alice/Users/alice", ALICE).contains("/Users/alice"));
    assert!(to_portable("/Users/alicex", ALICE).contains("/Users/alice"));
    assert!(to_portable("SYNC", Some("SYNC")).contains("SYNC"));
    assert!(!to_portable("/a}/x {{/a}", Some("/a}")).contains("/a}"));
    assert!(!to_portable("C:\\al\\x", Some("C:\\al")).contains("C:\\al"));
    assert!(!has_token(&from_portable("{{CLAUDE_SYNC_HOME}}}", ALICE)));
    assert!(has_token(&from_portable(HOME_TOKEN, Some("x{{CLAUDE_SYNC_HOME}}"))));
}

#[test]
fn collapsed_home_leaves_a_token() {
    assert!(has_token(&to_portable("at /Users/alice", ALICE)));
    assert!(!has_token(&to_portable("at /Users/bob", ALICE)));
    assert!(!has_token("{{CLAUDE_SYNC_HOME}"));
    assert!(has_token("x{{CLAUDE_SYNC_HOME}}"));
}

#[test]
fn prefix_is_replaced_only_before_a_dash() {
    assert_eq!(replace_prefix("ab", "ab", "x"), Some("x".to_string()));
    assert_eq!(replace_prefix("ab-c", "ab", "x"), Some("x-c".to_string()));
    assert_eq!(replace_prefix("abc", "ab", "x"), None);
    assert_eq!(replace_prefix("a", "ab", "x"), None);
    assert_eq!(replace_prefix("-c", "", "x"), Some("x-c".to_string()));
    assert_eq!(replace_prefix("", "", "x"), Some("x".to_string()));
    assert_eq!(replace_prefix("c", "", "x"), None);
}

#[test]
fn dir_names_come_back_unless_taken_for_the_placeholder() {
    for name in ["-Users-alice", "-Users-alice-work", "-srv", "-Users-alicex", "HOMER"] {
        assert_eq!(decode_project_dir(&encode_project_dir(name, ALICE), ALICE), name);
    }
    assert_eq!(
        decode_project_dir(&encode_project_dir("HOME-x", ALICE), ALICE),
        "-Users-alice-x"
    );
    assert_eq!(encode_project_dir(&decode_project_dir("HOME-x", ALICE), ALICE), "HOME-x");
    assert_eq!(
        encode_project_dir(&decode_project_dir("-Users-alice-x", ALICE), ALICE),
        "HOME-x"
    );
}

#[test]
fn distinct_projects_are_stored_apart() {
    let a = encode_project_dir("-Users-alice-code-wt-a", ALICE);
    let b = encode_project_dir("-Users-alice-code-wt-b", ALICE);
    let c = encode_project_dir("-srv-code-wt-a", ALICE);
    assert_ne!(a, b);
    assert_ne!(a, c);
    assert_eq!(encode_project_dir("HOME-x", ALICE), encode_project_dir("-Users-alice-x", ALICE));
}

#[test]
fn components_behind_the_first_stay() {
    assert_eq!(
        encode_relative_path(Path::new("-Users-alice//sub/./-Users-alice/"), ALICE).to_string_lossy(),
        "HOME/sub/-Users-alice"
    );
    assert_eq!(
        decode_relative_path(Path::new("HOME-w/../HOME/x.jsonl"), ALICE).to_string_lossy(),
        "-Users-alice-w/../HOME/x.jsonl"
    );
    assert_eq!(encode_relative_path(Path::new("-srv//x/"), ALICE).to_string_lossy(), "-srv/x");
    assert_eq!(decode_relative_path(Path::new("/a//b"), None).to_string_lossy(), "/a/b");
    assert_eq!(encode_relative_path(Path::new(""), ALICE), Path::new(""));
    assert_eq!(
        encode_relative_path(Path::new("./-Users-alice/x"), ALICE).to_string_lossy(),
        "./-Users-alice/x"
    );
    assert_eq!(encode_relative_path(Path::new("-Users-alice"), ALICE), Path::new("HOME"));
}

#[test]
fn names_may_hold_what_separates_nothing() {
    assert!(only_slash_separates());
    let path = Path::new("-Users-alice-w/a:b/c\\d/x.jsonl");
    let stored = encode_relative_path(path, ALICE);
    assert_eq!(stored.to_string_lossy(), "HOME-w/a:b/c\\d/x.jsonl");
    assert_eq!(decode_relative_path(&stored, ALICE), path);
    assert_eq!(
        encode_relative_path(Path::new("/a:b/-Users-alice"), ALICE),
        Path::new("/a:b/-Users-alice")
    );
    assert_ne!(stored, encode_relative_path(Path::new("-Users-alice-w/a:b/c/d/x.jsonl"), ALICE));
}

#[test]
fn paths_come_back_by_their_components() {
    let path = Path::new("-Users-alice-work/sub/s.jsonl");
    let stored = encode_relative_path(path, ALICE);
    assert_eq!(stored, Path::new("HOME-work/sub/s.jsonl"));
    assert_eq!(decode_relative_path(&stored, ALICE), path);
    let local = decode_relative_path(&stored, Some("/root"));
    assert_eq!(local, Path::new("-root-work/sub/s.jsonl"));
    assert_eq!(encode_relative_path(&local, Some("/root")), stored);
}
