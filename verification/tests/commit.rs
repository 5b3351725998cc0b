use gitalong::{Branches, Commit, CommitSpread, Context};

fn ctx() -> Context {
    Context {
        host: "host-1".into(),
        user: "alice".into(),
        clone: "/work/repo".into(),
    }
}

fn their_ctx() -> Context {
    Context {
        host: "host-2".into(),
        user: "bob".into(),
        clone: "/elsewhere".into(),
    }
}

fn stored_real_commit(issuer: &Context, local: &[&str]) -> Commit {
    let mut c = Commit {
        sha: Some("abc".into()),
        author: Some("Someone".into()),
        branches: Branches {
            local: local.iter().map(|s| s.to_string()).collect(),
            remote: Vec::new(),
        },
        ..Commit::default()
    };
    c.stamp_context(issuer);
    c
}

#[test]
fn is_uncommitted_changes_keys_off_missing_sha() {
    let mut real = Commit {
        sha: Some("abc".into()),
        author: Some("A".into()),
        ..Commit::default()
    };
    real.stamp_context(&ctx());
    let mut uncommitted = Commit::default();
    uncommitted.stamp_context(&ctx());
    assert!(!real.is_uncommitted_changes());
    assert!(uncommitted.is_uncommitted_changes());
}

#[test]
fn is_issued_by_matches_full_context() {
    let mut c = Commit::default();
    c.stamp_context(&ctx());
    assert!(c.is_issued_by(&ctx()));
}

#[test]
fn is_issued_by_rejects_other_clone() {
    let mut c = Commit::default();
    c.stamp_context(&ctx());
    let other = Context {
        host: "host-2".into(),
        ..ctx()
    };
    assert!(!c.is_issued_by(&other));
}

#[test]
fn is_ours_matches_on_clone_path_only() {
    let mut c = Commit::default();
    c.clone = Some("/work/repo".into());
    assert!(c.is_ours(&ctx()));
    assert!(!c.is_issued_by(&ctx()));
    assert!(!c.is_ours(&their_ctx()));
    assert!(!Commit::default().is_ours(&ctx()));
}

#[test]
fn stamp_context_sets_identity_and_keeps_the_rest() {
    let mut c = Commit {
        sha: Some("abc".into()),
        changes: vec!["a.txt".into()],
        ..Commit::default()
    };
    c.stamp_context(&ctx());
    assert_eq!(c.host.as_deref(), Some("host-1"));
    assert_eq!(c.user.as_deref(), Some("alice"));
    assert_eq!(c.clone.as_deref(), Some("/work/repo"));
    assert_eq!(c.sha.as_deref(), Some("abc"));
    assert_eq!(c.changes, vec!["a.txt".to_string()]);
}

#[test]
fn branches_is_empty_only_without_branches() {
    assert!(Branches::default().is_empty());
    let b = Branches {
        local: vec![],
        remote: vec!["origin/main".into()],
    };
    assert!(!b.is_empty());
}

#[test]
fn spread_for_my_uncommitted() {
    let mut c = Commit::default();
    c.stamp_context(&ctx());
    assert_eq!(c.spread(Some("main"), &ctx()), CommitSpread::mine_uncommitted());
}

#[test]
fn spread_for_their_uncommitted() {
    let mut c = Commit::default();
    c.stamp_context(&their_ctx());
    assert_eq!(c.spread(Some("main"), &ctx()), CommitSpread::their_uncommitted());
}

#[test]
fn spread_for_my_unpushed_commit_on_active_branch() {
    let c = stored_real_commit(&ctx(), &["main"]);
    assert_eq!(c.spread(Some("main"), &ctx()), CommitSpread::mine_active_branch());
}

#[test]
fn spread_for_my_unpushed_commit_on_other_branch() {
    let c = stored_real_commit(&ctx(), &["feature"]);
    assert_eq!(c.spread(Some("main"), &ctx()), CommitSpread::mine_other_branch());
}

#[test]
fn spread_for_their_unpushed_commit_on_matching_branch() {
    let c = stored_real_commit(&their_ctx(), &["main"]);
    assert_eq!(
        c.spread(Some("main"), &ctx()),
        CommitSpread::their_matching_branch()
    );
}

#[test]
fn spread_for_their_unpushed_commit_on_other_branch() {
    let c = stored_real_commit(&their_ctx(), &["feature"]);
    assert_eq!(c.spread(Some("main"), &ctx()), CommitSpread::their_other_branch());
}

#[test]
fn spread_for_real_commit_on_active_local_and_remote() {
    let c = Commit {
        sha: Some("abc".into()),
        branches: Branches {
            local: vec!["main".into()],
            remote: vec!["origin/main".into(), "main".into()],
        },
        ..Commit::default()
    };
    let spread = c.spread(Some("main"), &ctx());
    assert!(spread.contains(CommitSpread::mine_active_branch()));
    assert!(spread.contains(CommitSpread::remote_matching_branch()));
    assert!(spread.contains(CommitSpread::remote_other_branch()));
}

#[test]
fn spread_for_real_commit_only_on_remote_other() {
    let c = Commit {
        sha: Some("abc".into()),
        branches: Branches {
            local: vec![],
            remote: vec!["origin/feature".into()],
        },
        ..Commit::default()
    };
    let spread = c.spread(Some("main"), &ctx());
    assert_eq!(spread, CommitSpread::remote_other_branch());
}

#[test]
fn spread_without_active_branch_sees_only_remote_other() {
    let c = Commit {
        sha: Some("abc".into()),
        branches: Branches {
            local: vec!["main".into()],
            remote: vec!["main".into()],
        },
        ..Commit::default()
    };
    assert_eq!(c.spread(None, &ctx()), CommitSpread::remote_other_branch());
    assert_eq!(Commit::default().spread(None, &ctx()), CommitSpread::empty());
}

#[test]
fn spread_of_remote_commit_only_on_the_active_name_is_matching() {
    let c = Commit {
        sha: Some("abc".into()),
        branches: Branches {
            local: vec![],
            remote: vec!["main".into(), "main".into()],
        },
        ..Commit::default()
    };
    assert_eq!(c.spread(Some("main"), &ctx()), CommitSpread::remote_matching_branch());
}
