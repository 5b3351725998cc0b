use gitalong::operations::status::{
    csv_or_dash, file_statuses, format_status, pending_paths, status_record, walk_start, walk_step,
    FileStatus, StoreIndex,
};
use gitalong::{Branches, Commit, Context};

fn record(date: &str, sha: Option<&str>, remote: &str, changes: &[&str]) -> Commit {
    Commit {
        sha: sha.map(str::to_string),
        date: Some(date.to_string()),
        remote: Some(remote.to_string()),
        changes: changes.iter().map(|s| s.to_string()).collect(),
        ..Commit::default()
    }
}

fn ctx() -> Context {
    Context {
        host: "h".into(),
        user: "u".into(),
        clone: "/".into(),
    }
}

#[test]
fn store_index_picks_latest_record_per_path() {
    let commits = vec![
        record(
            "2026-01-01 00:00:00+00:00",
            Some("old"),
            "r",
            &["a.txt", "b.txt"],
        ),
        record("2026-01-02 00:00:00+00:00", Some("new"), "r", &["a.txt"]),
    ];
    let index = StoreIndex::new(&commits, true);
    assert_eq!(
        index.latest("a.txt").and_then(|c| c.sha.as_deref()),
        Some("new")
    );
    assert_eq!(
        index.latest("b.txt").and_then(|c| c.sha.as_deref()),
        Some("old")
    );
    assert!(index.latest("c.txt").is_none());
}

#[test]
fn store_index_skips_uncommitted_records_when_untracked() {
    let commits = vec![
        record("2026-01-02 00:00:00+00:00", None, "r", &["a.txt"]),
        record(
            "2026-01-01 00:00:00+00:00",
            Some("committed"),
            "r",
            &["a.txt"],
        ),
    ];
    let with_uncommitted = StoreIndex::new(&commits, true);
    assert!(with_uncommitted.latest("a.txt").unwrap().sha.is_none());
    let untracked = StoreIndex::new(&commits, false);
    assert_eq!(
        untracked.latest("a.txt").and_then(|c| c.sha.as_deref()),
        Some("committed")
    );
}

#[test]
fn store_index_prefers_the_last_of_equally_new_records() {
    let commits = vec![
        record("2026-01-02 00:00:00+00:00", Some("first"), "r", &["a.txt"]),
        record("2026-01-02 00:00:00+00:00", Some("second"), "r", &["a.txt"]),
        record("2026-01-01 00:00:00+00:00", Some("older"), "r", &["a.txt"]),
    ];
    let index = StoreIndex::new(&commits, true);
    assert_eq!(
        index.latest("a.txt").and_then(|c| c.sha.as_deref()),
        Some("second")
    );
}

#[test]
fn store_index_ranks_dateless_records_oldest() {
    let mut undated = record("x", Some("undated"), "r", &["a.txt"]);
    undated.date = None;
    let commits = vec![
        record("2020-01-01 00:00:00+00:00", Some("dated"), "r", &["a.txt"]),
        undated,
    ];
    let index = StoreIndex::new(&commits, true);
    assert_eq!(
        index.latest("a.txt").and_then(|c| c.sha.as_deref()),
        Some("dated")
    );
}

#[test]
fn format_status_renders_dashes_for_empty_commit() {
    let s = FileStatus {
        filename: "x.txt".to_string(),
        commit: Commit::default(),
    };
    let line = format_status(&s, Some("main"), &ctx());
    assert_eq!(line, "-------- x.txt - - - - -");
}

#[test]
fn format_status_renders_every_field() {
    let s = FileStatus {
        filename: "a.txt".to_string(),
        commit: Commit {
            sha: Some("abc".into()),
            author: Some("Alice".into()),
            host: Some("host-1".into()),
            branches: Branches {
                local: vec!["main".into(), "feature".into()],
                remote: vec!["main".into()],
            },
            ..Commit::default()
        },
    };
    let line = format_status(&s, Some("main"), &ctx());
    assert_eq!(line, "-+-+---- a.txt abc main,feature main host-1 Alice");
}

#[test]
fn format_status_falls_back_to_the_user_for_the_author() {
    let mut commit = Commit::default();
    commit.stamp_context(&Context {
        host: "host-2".into(),
        user: "bob".into(),
        clone: "/elsewhere".into(),
    });
    commit.changes = vec!["draft.txt".into()];
    let s = FileStatus {
        filename: "draft.txt".to_string(),
        commit,
    };
    assert_eq!(
        format_status(&s, Some("main"), &ctx()),
        "-------+ draft.txt - - - host-2 bob"
    );
}

#[test]
fn csv_or_dash_joins_or_dashes() {
    assert_eq!(csv_or_dash(&vec![]), "-");
    assert_eq!(csv_or_dash(&vec!["a".to_string()]), "a");
    assert_eq!(csv_or_dash(&vec!["a".to_string(), "b".to_string()]), "a,b");
}

#[test]
fn status_record_omits_blank_commit() {
    let s = FileStatus {
        filename: "x.txt".to_string(),
        commit: Commit::default(),
    };
    let r = status_record(&s, Some("main"), &ctx());
    assert_eq!(r.filename, "x.txt");
    assert_eq!(r.spread, "--------");
    assert!(r.flags.is_empty());
    assert!(r.commit.is_none());
    assert!(r.blocked.is_none());
}

#[test]
fn status_record_carries_commit_and_flags() {
    let s = FileStatus {
        filename: "a.txt".to_string(),
        commit: Commit {
            sha: Some("abc".into()),
            branches: Branches {
                local: vec!["main".into()],
                remote: vec!["main".into()],
            },
            ..Commit::default()
        },
    };
    let r = status_record(&s, Some("main"), &ctx());
    assert_eq!(r.spread, "-+-+----");
    assert_eq!(r.flags, vec!["MINE_ACTIVE_BRANCH", "REMOTE_MATCHING_BRANCH"]);
    assert_eq!(r.commit.and_then(|c| c.sha.as_deref()), Some("abc"));
}

#[test]
fn git_is_asked_only_for_followed_paths_the_store_does_not_know() {
    let commits = vec![record("2026-01-01 00:00:00+00:00", Some("s"), "r", &["known.txt"])];
    let index = StoreIndex::new(&commits, true);
    let rels: Vec<String> = ["known.txt", "new.txt", "ignored.txt", "other.txt"]
        .iter()
        .map(|s| s.to_string())
        .collect();
    let watched = vec![true, true, false, true];
    assert_eq!(
        pending_paths(&rels, &watched, &index),
        vec!["new.txt".to_string(), "other.txt".to_string()]
    );
}

fn owned(items: &[&str]) -> Vec<String> {
    items.iter().map(|s| s.to_string()).collect()
}

#[test]
fn walk_starts_from_each_path_once_in_order() {
    assert_eq!(walk_start(owned(&["b.txt", "a.txt", "b.txt"])), owned(&["a.txt", "b.txt"]));
    assert!(walk_start(Vec::new()).is_empty());
}

#[test]
fn walk_step_finds_changed_paths_and_keeps_the_rest_pending() {
    let (found, rest) = walk_step(owned(&["a", "b", "c"]), &vec![true, false, true], "abc123");
    assert_eq!(
        found,
        vec![("a".to_string(), "abc123".to_string()), ("c".to_string(), "abc123".to_string())]
    );
    assert_eq!(rest, owned(&["b"]));
    let (found, rest) = walk_step(rest, &vec![false], "def456");
    assert!(found.is_empty());
    assert_eq!(rest, owned(&["b"]));
}

#[test]
fn file_statuses_pair_files_with_commits_in_order() {
    let commits = vec![record("2026-01-01 00:00:00+00:00", Some("x"), "r", &["a"]), Commit::default()];
    let statuses = file_statuses(&owned(&["a", "missing.txt"]), &commits);
    assert_eq!(statuses.len(), 2);
    assert_eq!(statuses[0].filename, "a");
    assert_eq!(statuses[0].commit.sha.as_deref(), Some("x"));
    assert_eq!(statuses[1].filename, "missing.txt");
    assert_eq!(statuses[1].commit, Commit::default());
}
