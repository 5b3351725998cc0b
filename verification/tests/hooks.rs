use gitalong::hooks::{hooks, patch_gitignore, text_contains, GITIGNORE_PATCH};

#[test]
fn hooks_call_update_not_sync() {
    for hook in hooks() {
        assert!(!hook.body.contains("gitalong sync"));
        assert!(hook.body.contains("gitalong update"));
    }
}

#[test]
fn gitignore_patch_has_expected_directives() {
    assert!(GITIGNORE_PATCH.contains("/.gitalong/"));
    assert!(GITIGNORE_PATCH.contains("!/.gitalong.cfg"));
}

#[test]
fn hooks_are_the_four_post_hooks() {
    let names: Vec<&str> = hooks().iter().map(|h| h.name).collect();
    assert_eq!(
        names,
        vec!["post-applypatch", "post-checkout", "post-commit", "post-rewrite"]
    );
}

#[test]
fn gitignore_patch_appends_after_existing_content() {
    let patched = patch_gitignore("build/\n").unwrap();
    assert!(patched.starts_with("build/\n"));
    assert!(patched.contains("/.gitalong/"));
    assert_eq!(patched, format!("build/\n{GITIGNORE_PATCH}"));
}

#[test]
fn gitignore_patch_adds_missing_line_break() {
    assert_eq!(
        patch_gitignore("build/").unwrap(),
        format!("build/\n{GITIGNORE_PATCH}")
    );
    assert_eq!(patch_gitignore("").unwrap(), GITIGNORE_PATCH);
}

#[test]
fn gitignore_patch_is_idempotent() {
    let once = patch_gitignore("build/\n").unwrap();
    assert!(patch_gitignore(&once).is_none());
}

#[test]
fn text_contains_finds_substrings() {
    assert!(text_contains("abcabd", "abd"));
    assert!(text_contains("abc", ""));
    assert!(!text_contains("abc", "abcd"));
    assert!(!text_contains("abcabc", "cab d"));
}
