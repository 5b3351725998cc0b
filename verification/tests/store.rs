use gitalong::store::refs::publication_unchanged;
use gitalong::store::jsonbin::expand_env;
use gitalong::store::{records_for, replace_own, store_kind, StoreKind};
use gitalong::{Commit, Context, Error};

fn ctx() -> Context {
    Context {
        host: "host-1".into(),
        user: "alice".into(),
        clone: "/work/repo".into(),
    }
}

fn record(clone: &str, remote: &str, path: &str) -> Commit {
    Commit {
        clone: Some(clone.into()),
        remote: Some(remote.into()),
        changes: vec![path.into()],
        ..Commit::default()
    }
}

#[test]
fn replace_own_keeps_other_clones_and_other_remotes() {
    let existing = vec![
        record("/work/repo", "r", "stale.txt"),
        record("/elsewhere", "r", "theirs.txt"),
        record("/work/repo", "other-remote", "elsewhere.txt"),
    ];
    let ours = vec![record("/work/repo", "r", "fresh.txt")];
    let next = replace_own(existing, &ours, &ctx(), "r");
    let paths: Vec<&str> = next.iter().map(|c| c.changes[0].as_str()).collect();
    assert_eq!(paths, vec!["theirs.txt", "elsewhere.txt", "fresh.txt"]);
}

#[test]
fn replace_own_twice_is_replace_own_once() {
    let existing = vec![
        record("/work/repo", "r", "stale.txt"),
        record("/elsewhere", "r", "theirs.txt"),
    ];
    let ours = vec![record("/work/repo", "r", "fresh.txt")];
    let once = replace_own(existing, &ours, &ctx(), "r");
    let twice = replace_own(once.clone(), &ours, &ctx(), "r");
    assert_eq!(once, twice);
}

#[test]
fn replace_own_with_nothing_clears_own_records() {
    let existing = vec![
        record("/work/repo", "r", "stale.txt"),
        record("/elsewhere", "r", "theirs.txt"),
    ];
    let next = replace_own(existing, &vec![], &ctx(), "r");
    assert_eq!(next, vec![record("/elsewhere", "r", "theirs.txt")]);
}

#[test]
fn store_url_selects_the_backend() {
    assert_eq!(store_kind("https://api.jsonbin.io/v3/b/abc"), Ok(StoreKind::Jsonbin));
    assert_eq!(store_kind("git@example.com:team/store.git"), Ok(StoreKind::Git));
    assert_eq!(store_kind("file:///srv/store"), Ok(StoreKind::Git));
    assert_eq!(store_kind(""), Ok(StoreKind::Refs));
    assert_eq!(store_kind("http://127.0.0.1:8080/v3/b/bin"), Ok(StoreKind::Jsonbin));
    assert_eq!(store_kind("https://bins.example.com/b/1"), Ok(StoreKind::Jsonbin));
    assert_eq!(store_kind("https://example.com/team/store.git"), Ok(StoreKind::Git));
    assert_eq!(
        store_kind("ftp://nope/somewhere"),
        Err(Error::InvalidConfig(
            "store_url `ftp://nope/somewhere` is neither a git repository URL nor an HTTP URL".into()
        ))
    );
}

fn env(pairs: &[(&str, &str)]) -> Vec<(String, String)> {
    pairs.iter().map(|(k, v)| (k.to_string(), v.to_string())).collect()
}

#[test]
fn expand_env_substitutes_known_variables() {
    let vars = env(&[("GITALONG_TEST_VAR", "secret")]);
    assert_eq!(expand_env("Bearer $GITALONG_TEST_VAR", &vars), "Bearer secret");
    assert_eq!(expand_env("Bearer ${GITALONG_TEST_VAR}", &vars), "Bearer secret");
}

#[test]
fn expand_env_leaves_unknown_variables_literal() {
    let vars = env(&[]);
    assert_eq!(
        expand_env("Bearer $GITALONG_DOES_NOT_EXIST_XYZ", &vars),
        "Bearer $GITALONG_DOES_NOT_EXIST_XYZ"
    );
    assert_eq!(
        expand_env("Bearer ${GITALONG_DOES_NOT_EXIST_XYZ}", &vars),
        "Bearer ${GITALONG_DOES_NOT_EXIST_XYZ}"
    );
}

#[test]
fn expand_env_passes_strings_without_dollars_through() {
    assert_eq!(expand_env("plain text", &env(&[])), "plain text");
}

#[test]
fn expand_env_edge_cases() {
    let vars = env(&[("A", "1"), ("A_B", "2"), ("A", "shadowed")]);
    assert_eq!(expand_env("$A-$A_B", &vars), "1-2");
    assert_eq!(expand_env("${A}B", &vars), "1B");
    assert_eq!(expand_env("cost: $", &vars), "cost: $");
    assert_eq!(expand_env("$ A", &vars), "$ A");
    assert_eq!(expand_env("${A", &vars), "${A");
    assert_eq!(expand_env("${}", &vars), "${}");
    assert_eq!(expand_env("$$A", &vars), "$1");
}

#[test]
fn shared_stores_read_back_only_records_of_the_remote() {
    let records = vec![
        record("/work/repo", "git@example.com:team/a.git", "a.txt"),
        record("/work/other", "https://example.com/team/a.git", "b.txt"),
        record("/work/third", "git@example.com:team/a.git", "c.txt"),
    ];
    for kind in [StoreKind::Git, StoreKind::Jsonbin] {
        let back = records_for(kind, records.clone(), "git@example.com:team/a.git");
        assert_eq!(back.len(), 2);
        assert_eq!(back[0].changes, vec!["a.txt".to_string()]);
        assert_eq!(back[1].changes, vec!["c.txt".to_string()]);
    }
}

#[test]
fn refs_store_reads_back_every_record() {
    let records = vec![
        record("/work/repo", "git@example.com:team/a.git", "a.txt"),
        record("/work/other", "https://example.com/team/a.git", "b.txt"),
    ];
    let back = records_for(StoreKind::Refs, records.clone(), "git@example.com:team/a.git");
    assert_eq!(back, records);
}

#[test]
fn expand_env_keeps_non_ascii_text() {
    let vars = env(&[("USER_NAME", "zoë")]);
    assert_eq!(expand_env("café", &vars), "café");
    assert_eq!(expand_env("héllo $USER_NAME ✓", &vars), "héllo zoë ✓");
    assert_eq!(expand_env("${naïve}", &vars), "${naïve}");
    assert_eq!(expand_env("$é", &vars), "$é");
}

#[test]
fn publication_is_skipped_only_for_the_same_message() {
    assert!(publication_unchanged(Some("[]"), "[]"));
    assert!(!publication_unchanged(Some("[]"), "[{}]"));
    assert!(!publication_unchanged(None, "[]"));
}
