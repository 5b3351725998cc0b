use gitalong::operations::claim::{claim_allowed, claims_of, decide_claims};
use gitalong::operations::update::unpushed_commit;
use gitalong::operations::permissions::{wants_writable, write_bit_update};
use gitalong::operations::status::FileStatus;
use gitalong::{Branches, Commit, Context};

fn ctx() -> Context {
    Context {
        host: "host-1".into(),
        user: "alice".into(),
        clone: "/work/repo".into(),
    }
}

fn their_ctx() -> Context {
    Context {
        host: "host-2".into(),
        user: "bob".into(),
        clone: "/elsewhere".into(),
    }
}

fn status(name: &str, commit: Commit) -> FileStatus {
    FileStatus {
        filename: name.into(),
        commit,
    }
}

fn uncommitted(issuer: &Context) -> Commit {
    let mut c = Commit::default();
    c.changes = vec!["shared.txt".into()];
    c.stamp_context(issuer);
    c
}

fn pushed() -> Commit {
    Commit {
        sha: Some("abc".into()),
        branches: Branches {
            local: vec!["main".into()],
            remote: vec!["main".into()],
        },
        ..Commit::default()
    }
}

#[test]
fn clean_and_own_files_are_claimable() {
    assert!(claim_allowed(&status("new.txt", Commit::default()), Some("main"), &ctx()));
    assert!(claim_allowed(&status("shared.txt", uncommitted(&ctx())), Some("main"), &ctx()));
    assert!(claim_allowed(&status("shared.txt", pushed()), Some("main"), &ctx()));
}

#[test]
fn other_clones_work_blocks_a_claim() {
    assert!(!claim_allowed(&status("shared.txt", uncommitted(&their_ctx())), Some("main"), &ctx()));
    let mut theirs = pushed();
    theirs.branches.remote = vec![];
    theirs.stamp_context(&their_ctx());
    assert!(!claim_allowed(&status("shared.txt", theirs), Some("main"), &ctx()));
}

#[test]
fn remote_only_commit_blocks_a_claim() {
    let c = Commit {
        sha: Some("abc".into()),
        branches: Branches {
            local: vec![],
            remote: vec!["feature".into()],
        },
        ..Commit::default()
    };
    assert!(!claim_allowed(&status("a.txt", c), Some("main"), &ctx()));
}

#[test]
fn decide_claims_reports_blockers_in_order() {
    let blocker = uncommitted(&their_ctx());
    let (outcomes, allowed) = decide_claims(
        vec![
            status("free.txt", Commit::default()),
            status("shared.txt", blocker.clone()),
            status("mine.txt", uncommitted(&ctx())),
        ],
        Some("main"),
        &ctx(),
    );
    assert_eq!(outcomes.len(), 3);
    assert_eq!(outcomes[0].filename, "free.txt");
    assert_eq!(outcomes[0].blocker, Commit::default());
    assert_eq!(outcomes[1].blocker, blocker);
    assert_eq!(outcomes[2].blocker, Commit::default());
    assert_eq!(allowed, vec![0, 2]);
}

#[test]
fn only_own_work_is_writable() {
    let mut own = pushed();
    own.branches.remote = vec![];
    own.stamp_context(&ctx());
    assert!(wants_writable(true, Some(&own), Some("main"), &ctx()));
    assert!(wants_writable(true, Some(&uncommitted(&ctx())), Some("main"), &ctx()));
    assert!(!wants_writable(false, Some(&own), Some("main"), &ctx()));
    assert!(!wants_writable(true, None, Some("main"), &ctx()));
    assert!(!wants_writable(true, Some(&pushed()), Some("main"), &ctx()));
    assert!(!wants_writable(true, Some(&uncommitted(&their_ctx())), Some("main"), &ctx()));
}

#[test]
fn write_bit_toggles_only_the_user_write_bit() {
    assert_eq!(write_bit_update(0o444, true), Some(0o644));
    assert_eq!(write_bit_update(0o644, false), Some(0o444));
    assert_eq!(write_bit_update(0o644, true), None);
    assert_eq!(write_bit_update(0o444, false), None);
    assert_eq!(write_bit_update(0o100755, false), Some(0o100555));
}

#[test]
fn another_clones_unpushed_commit_blocks_a_claim() {
    let alices = unpushed_commit(
        "abc".into(),
        Some("Alice".into()),
        0,
        0,
        vec!["local.txt".into()],
        vec!["main".into()],
        &ctx(),
        "origin",
    )
    .unwrap();
    let s = status("local.txt", alices);
    assert_eq!(s.commit.spread(Some("main"), &their_ctx()).to_status_string(), "------+-");
    assert!(!claim_allowed(&s, Some("main"), &their_ctx()));
    assert_eq!(s.commit.spread(Some("main"), &ctx()).to_status_string(), "-+------");
    assert!(claim_allowed(&s, Some("main"), &ctx()));
    assert_eq!(s.commit.spread(Some("topic"), &ctx()).to_status_string(), "--+-----");
    assert!(!claim_allowed(&s, Some("topic"), &ctx()));
}

#[test]
fn claims_record_the_allowed_paths_in_order() {
    let rels = vec!["a.txt".to_string(), "b.txt".to_string(), "c.txt".to_string()];
    assert_eq!(claims_of(&rels, &vec![0, 2]), vec!["a.txt".to_string(), "c.txt".to_string()]);
    assert!(claims_of(&rels, &Vec::new()).is_empty());
}
