use std::path::{Path, PathBuf};

use portable_home::content::{from_portable, has_token, to_portable, HOME_TOKEN};
use portable_home::home::{local_home, local_home_str};
use portable_home::project::{decode_project_dir, encode_project_dir};
use portable_home::relative::{decode_relative_path, encode_relative_path};

const SESSION_ID: &str = "3f1c9a2e-0000-4000-8000-000000000001";

/// The local home on a machine where the override is set to `home`.
fn with_home(home: &str) -> Option<String> {
    local_home_str(local_home(Some(home)))
}

/// The path and the content of a session whose project lives at `<home>/portalhero/wt-feature`.
fn seed_session(home: &str) -> (PathBuf, String) {
    let cwd = format!("{home}/portalhero/wt-feature");
    let encoded = cwd.replace('/', "-");
    let content = format!(
        r#"{{"type":"user","sessionId":"{SESSION_ID}","uuid":"u-1","timestamp":"2025-01-01T00:00:00Z","cwd":"{cwd}","message":{{"text":"open {cwd}/src/main.rs"}}}}"#
    );
    (PathBuf::from(format!("{encoded}/{SESSION_ID}.jsonl")), content)
}

#[test]
fn encodes_and_decodes_project_dir_round_trip() {
    let home = with_home("/Users/alice");
    assert_eq!(encode_project_dir("-Users-alice-work", home.as_deref()), "HOME-work");
    assert_eq!(decode_project_dir("HOME-work", home.as_deref()), "-Users-alice-work");
}

#[test]
fn round_trip_is_stable_across_different_homes() {
    let encoded = {
        let home = with_home("/Users/alice");
        encode_project_dir("-Users-alice-code-proj-wt-feature", home.as_deref())
    };
    assert_eq!(encoded, "HOME-code-proj-wt-feature");

    let home = with_home("/root");
    assert_eq!(decode_project_dir(&encoded, home.as_deref()), "-root-code-proj-wt-feature");
}

#[test]
fn leaves_paths_outside_home_untouched() {
    let home = with_home("/Users/alice");
    assert_eq!(encode_project_dir("-srv-shared-proj", home.as_deref()), "-srv-shared-proj");
    assert_eq!(decode_project_dir("-srv-shared-proj", home.as_deref()), "-srv-shared-proj");
}

#[test]
fn does_not_split_a_longer_sibling_name() {
    // /Users/alice-backup must not be mistaken for a path under /Users/alice.
    let home = with_home("/Users/alice");
    assert_eq!(
        encode_project_dir("-Users-alice-backup-proj", home.as_deref()),
        "HOME-backup-proj"
    );
    assert_eq!(
        encode_project_dir("-Users-alicexbackup", home.as_deref()),
        "-Users-alicexbackup"
    );
}

#[test]
fn encodes_the_home_root_itself() {
    let home = with_home("/Users/alice");
    assert_eq!(encode_project_dir("-Users-alice", home.as_deref()), "HOME");
    assert_eq!(decode_project_dir("HOME", home.as_deref()), "-Users-alice");
}

#[test]
fn content_round_trips_between_machines() {
    let portable = {
        let home = with_home("/Users/alice");
        to_portable(
            r#"{"cwd":"/Users/alice/work","x":"/Users/alice/work/f.rs"}"#,
            home.as_deref(),
        )
    };
    assert!(has_token(&portable));
    assert!(!portable.contains("/Users/alice"));

    let home = with_home("/root");
    assert_eq!(
        from_portable(&portable, home.as_deref()),
        r#"{"cwd":"/root/work","x":"/root/work/f.rs"}"#
    );
}

#[test]
fn expanding_content_without_a_token_is_a_no_op() {
    let home = with_home("/Users/alice");
    let plain = r#"{"cwd":"/Users/alice/work"}"#;
    assert_eq!(from_portable(plain, home.as_deref()), plain);
}

#[test]
fn maps_only_the_first_path_component() {
    let home = with_home("/Users/alice");
    let encoded =
        encode_relative_path(Path::new("-Users-alice-work/session.jsonl"), home.as_deref());
    assert_eq!(encoded, Path::new("HOME-work/session.jsonl"));
    let decoded = decode_relative_path(&encoded, home.as_deref());
    assert_eq!(decoded, Path::new("-Users-alice-work/session.jsonl"));
}

#[test]
fn repo_stores_the_home_as_a_placeholder() {
    let home = with_home("/Users/alice");
    let (path, content) = seed_session("/Users/alice");

    assert_eq!(
        encode_relative_path(&path, home.as_deref()).to_string_lossy(),
        "HOME-portalhero-wt-feature/3f1c9a2e-0000-4000-8000-000000000001.jsonl"
    );

    let stored = to_portable(&content, home.as_deref());
    assert!(
        !stored.contains("/Users/alice"),
        "the pusher's home leaked into the repo: {stored}"
    );
    assert!(stored.contains(HOME_TOKEN));
    // Everything below the home survives, so sibling worktrees stay distinct.
    assert!(stored.contains("/portalhero/wt-feature/src/main.rs"));
}

#[test]
fn a_second_machine_pulls_it_under_its_own_home() {
    let (stored_path, stored) = {
        let home = with_home("/Users/alice");
        let (path, content) = seed_session("/Users/alice");
        (
            encode_relative_path(&path, home.as_deref()),
            to_portable(&content, home.as_deref()),
        )
    };

    let home = with_home("/root");
    assert_eq!(
        decode_relative_path(&stored_path, home.as_deref()),
        Path::new("-root-portalhero-wt-feature/3f1c9a2e-0000-4000-8000-000000000001.jsonl")
    );

    let landed = from_portable(&stored, home.as_deref());
    assert!(landed.contains(r#""cwd":"/root/portalhero/wt-feature""#));
    assert!(landed.contains("/root/portalhero/wt-feature/src/main.rs"));
    assert!(!landed.contains("/Users/alice"));
    assert!(!landed.contains(HOME_TOKEN));
}

#[test]
fn pushing_back_from_the_second_machine_reports_no_changes() {
    let first_home = with_home("/Users/alice");
    let (path, content) = seed_session("/Users/alice");
    let stored_path = encode_relative_path(&path, first_home.as_deref());
    let stored = to_portable(&content, first_home.as_deref());

    let home = with_home("/root");
    let (path, content) = seed_session("/root");
    assert_eq!(decode_relative_path(&stored_path, home.as_deref()), path);
    assert_eq!(from_portable(&stored, home.as_deref()), content);
    assert_eq!(encode_relative_path(&path, home.as_deref()), stored_path);
    assert_eq!(to_portable(&content, home.as_deref()), stored);
}

#[test]
fn reading_a_stored_session_expands_the_placeholder() {
    let home = with_home("/root");
    let line = format!(
        r#"{{"type":"user","sessionId":"{SESSION_ID}","uuid":"u-1","cwd":"{}/work"}}"#,
        HOME_TOKEN
    );
    let session = from_portable(&line, home.as_deref());
    assert!(session.contains(r#""cwd":"/root/work""#));
}
