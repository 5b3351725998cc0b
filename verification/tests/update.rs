use gitalong::date::{format_git_time, format_utc};
use gitalong::operations::update::{
    commit_from_git, git_commit_record, local_view, merge_claims, sort_newest_first,
    uncommitted_changes_commit, uncommitted_record, unpushed_commit,
};
use gitalong::text::{changed_paths, sort_strings};
use gitalong::{Commit, Context};

fn ctx() -> Context {
    Context {
        host: "host-1".into(),
        user: "alice".into(),
        clone: "/work/repo".into(),
    }
}

fn dated(sha: &str, date: Option<&str>) -> Commit {
    Commit {
        sha: Some(sha.into()),
        date: date.map(str::to_string),
        ..Commit::default()
    }
}

fn strings(items: &[&str]) -> Vec<String> {
    items.iter().map(|s| s.to_string()).collect()
}

#[test]
fn claim_paths_are_added_to_uncommitted_record() {
    let c = uncommitted_record(vec![], &strings(&["claimed.txt"]), &ctx(), "r", "2026-01-01 00:00:00+00:00".into())
        .expect("a claim alone makes a record");
    assert!(c.is_uncommitted_changes());
    assert!(c.changes.iter().any(|p| p == "claimed.txt"));
    assert_eq!(c.user.as_deref(), Some("alice"));
    assert_eq!(c.remote.as_deref(), Some("r"));
}

#[test]
fn nothing_dirty_and_nothing_claimed_makes_no_record() {
    assert!(uncommitted_record(vec![], &vec![], &ctx(), "r", "d".into()).is_none());
}

#[test]
fn uncommitted_record_merges_and_sorts_paths() {
    let c = uncommitted_record(
        strings(&["b.txt", "a.txt"]),
        &strings(&["a.txt", "c.txt", "c.txt"]),
        &ctx(),
        "r",
        "d".into(),
    )
    .unwrap();
    assert_eq!(c.changes, strings(&["a.txt", "b.txt", "c.txt"]));
    assert_eq!(c.date.as_deref(), Some("d"));
    assert_eq!(c.host.as_deref(), Some("host-1"));
    assert_eq!(c.clone.as_deref(), Some("/work/repo"));
}

#[test]
fn merge_claims_keeps_dirty_order_and_appends_new_claims() {
    assert_eq!(
        merge_claims(strings(&["z", "a"]), &strings(&["a", "m", "m"])),
        strings(&["z", "a", "m"])
    );
}

#[test]
fn local_view_sorts_newest_first_and_stably() {
    let real = vec![
        dated("old", Some("2026-01-01 00:00:00+00:00")),
        dated("new", Some("2026-01-03 00:00:00+00:00")),
        dated("tie-1", Some("2026-01-02 00:00:00+00:00")),
        dated("tie-2", Some("2026-01-02 00:00:00+00:00")),
    ];
    let uc = Commit {
        date: Some("2026-01-02 00:00:00+00:00".into()),
        ..Commit::default()
    };
    let view = local_view(real, Some(uc));
    let order: Vec<Option<&str>> = view.iter().map(|c| c.sha.as_deref()).collect();
    assert_eq!(
        order,
        vec![Some("new"), None, Some("tie-1"), Some("tie-2"), Some("old")]
    );
}

#[test]
fn sort_newest_first_puts_undated_records_last() {
    let sorted = sort_newest_first(vec![dated("x", None), dated("y", Some("2026"))]);
    assert_eq!(sorted[0].sha.as_deref(), Some("y"));
    assert_eq!(sorted[1].sha.as_deref(), Some("x"));
}

#[test]
fn sort_strings_orders_by_code_point() {
    assert_eq!(
        sort_strings(strings(&["b", "B", "a", "ab", "a"])),
        strings(&["B", "a", "a", "ab", "b"])
    );
}

#[test]
fn changed_paths_are_sorted_unique_and_forward_slashed() {
    assert_eq!(
        changed_paths(strings(&["dir\\b.txt", "a.txt", "dir/b.txt", "a.txt"])),
        strings(&["a.txt", "dir/b.txt"])
    );
}

#[test]
fn git_commit_record_carries_clone_but_no_user() {
    let c = git_commit_record(
        "abc".into(),
        None,
        "d".into(),
        strings(&["x.txt"]),
        strings(&["main"]),
        &ctx(),
        "r",
    );
    assert_eq!(c.sha.as_deref(), Some("abc"));
    assert_eq!(c.author.as_deref(), Some(""));
    assert!(c.user.is_none());
    assert_eq!(c.host.as_deref(), Some("host-1"));
    assert_eq!(c.clone.as_deref(), Some("/work/repo"));
    assert_eq!(c.branches.local, strings(&["main"]));
    assert!(c.branches.remote.is_empty());
}

#[test]
fn git_time_is_written_at_its_offset() {
    assert_eq!(format_git_time(0, 0).unwrap(), "1970-01-01 00:00:00+00:00");
    assert_eq!(
        format_git_time(1_778_241_600, 120).unwrap(),
        "2026-05-08 14:00:00+02:00"
    );
    assert_eq!(
        format_git_time(1_778_241_600, -330).unwrap(),
        "2026-05-08 06:30:00-05:30"
    );
}

#[test]
fn unsupported_git_offset_is_read_as_utc() {
    assert_eq!(format_git_time(0, 2000).unwrap(), "1970-01-01 00:00:00+00:00");
}

#[test]
fn first_and_last_representable_instants_format() {
    assert_eq!(format_utc(253_402_300_799).unwrap(), "9999-12-31 23:59:59+00:00");
    assert_eq!(format_utc(-377_705_116_800).unwrap(), "-9999-01-01 00:00:00+00:00");
    assert_eq!(
        format_git_time(253_402_300_799 - 3600, 60).unwrap(),
        "9999-12-31 23:59:59+01:00"
    );
}

#[test]
fn out_of_range_timestamp_is_an_error() {
    assert!(format_git_time(i64::MAX, 0).is_err());
    assert!(format_utc(i64::MIN).is_err());
}

#[test]
fn commit_from_git_formats_the_date() {
    let c = commit_from_git(
        "abc".into(),
        Some("Alice".into()),
        0,
        60,
        strings(&["x.txt"]),
        vec![],
        &ctx(),
        "r",
    )
    .unwrap();
    assert_eq!(c.date.as_deref(), Some("1970-01-01 01:00:00+01:00"));
    assert_eq!(c.author.as_deref(), Some("Alice"));
}

#[test]
fn uncommitted_changes_commit_is_dated_in_utc() {
    let c = uncommitted_changes_commit(vec!["a".into()], &vec![], &ctx(), "r", 86_400)
        .unwrap()
        .unwrap();
    assert_eq!(c.date.as_deref(), Some("1970-01-02 00:00:00+00:00"));
    assert!(c.sha.is_none());
    assert!(c.author.is_none());
    assert!(c.branches.local.is_empty());
    assert!(c.branches.remote.is_empty());
    assert_eq!(c.user.as_deref(), Some("alice"));
}

#[test]
fn unpushed_commit_carries_the_full_context() {
    let c = unpushed_commit(
        "abc".into(),
        Some("Alice".into()),
        0,
        60,
        strings(&["dir\\local.txt"]),
        strings(&["main"]),
        &ctx(),
        "git@example.com:team/repo.git",
    )
    .unwrap();
    assert_eq!(c.sha.as_deref(), Some("abc"));
    assert_eq!(c.author.as_deref(), Some("Alice"));
    assert_eq!(c.date.as_deref(), Some("1970-01-01 01:00:00+01:00"));
    assert_eq!(c.user.as_deref(), Some("alice"));
    assert_eq!(c.host.as_deref(), Some("host-1"));
    assert_eq!(c.clone.as_deref(), Some("/work/repo"));
    assert_eq!(c.remote.as_deref(), Some("git@example.com:team/repo.git"));
    assert_eq!(c.changes, strings(&["dir/local.txt"]));
    assert_eq!(c.branches.local, strings(&["main"]));
    assert!(c.branches.remote.is_empty());
}
