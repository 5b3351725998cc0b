use gitalong::repository::{
    absolute_path, extension_of, is_tracked, looks_binary, relative_path, repo_relative,
    split_components,
};
use gitalong::Config;

#[test]
fn relative_path_strips_working_dir() {
    let rel = relative_path("/tmp/.tmpA1b2/", "/tmp/.tmpA1b2/subdir/file.txt", None);
    assert_eq!(rel, "subdir/file.txt");
}

#[test]
fn relative_path_passes_through_relative_input() {
    let rel = relative_path("/tmp/.tmpA1b2", "already/relative.txt", None);
    assert_eq!(rel, "already/relative.txt");
}

#[test]
fn absolute_path_joins_relative_with_working_dir() {
    let abs = absolute_path("/tmp/.tmpA1b2", "foo.txt");
    assert_eq!(abs, "/tmp/.tmpA1b2/foo.txt");
}

#[test]
fn absolute_path_passes_through_absolute_input() {
    let already = "/absolute/foo.txt";
    assert_eq!(absolute_path("/tmp/.tmpA1b2", already), already);
}

#[test]
fn relative_path_matches_components_not_text() {
    assert_eq!(
        relative_path("/work/repo", "/work/repository/x.txt", None),
        "/work/repository/x.txt"
    );
    assert_eq!(relative_path("/work/repo", "/work//repo/./a/b", None), "a/b");
    assert_eq!(relative_path("/work/repo", "/work/repo", None), "");
}

#[test]
fn relative_path_keeps_the_text_after_the_working_tree() {
    assert_eq!(relative_path("/w", "/w/a//b", None), "a//b");
    assert_eq!(relative_path("/w", "/w/a/./b/", None), "a/./b");
    assert_eq!(relative_path("/w/", "/w//./a", None), "a");
}

#[test]
fn relative_path_falls_back_to_the_canonical_form() {
    assert_eq!(
        relative_path("/private/tmp/x", "/tmp/x/new.txt", Some("/private/tmp/x/new.txt")),
        "new.txt"
    );
    assert_eq!(
        relative_path("/private/tmp/x", "/tmp/y/new.txt", Some("/private/tmp/y/new.txt")),
        "/tmp/y/new.txt"
    );
}

#[test]
fn repo_relative_handles_both_forms() {
    assert_eq!(repo_relative("/work/repo", "a\\b.txt", None), "a/b.txt");
    assert_eq!(repo_relative("/work/repo", "/work/repo/c/d.txt", None), "c/d.txt");
}

#[test]
fn components_skip_empty_and_dot_pieces() {
    assert_eq!(split_components("/a//b/./c/"), vec!["a", "b", "c"]);
    assert_eq!(split_components("x/.hidden/.."), vec!["x", ".hidden", ".."]);
    assert!(split_components("/").is_empty());
}

#[test]
fn extension_follows_the_last_dot_of_the_base_name() {
    assert_eq!(extension_of("art/hero.png"), ".png");
    assert_eq!(extension_of("a.tar.gz"), ".gz");
    assert_eq!(extension_of(".bashrc"), "");
    assert_eq!(extension_of("..hidden.txt"), ".txt");
    assert_eq!(extension_of("dir.d/readme"), "");
    assert_eq!(extension_of("name."), ".");
    assert_eq!(extension_of(""), "");
}

#[test]
fn files_in_head_or_with_tracked_extensions_are_tracked() {
    let config = Config {
        tracked_extensions: vec![".png".into(), ".jpg".into()],
        ..Config::default()
    };
    assert!(is_tracked(true, "README", &config, false));
    assert!(is_tracked(false, "art/new.png", &config, false));
    assert!(!is_tracked(false, "notes.txt", &config, false));
    assert!(!is_tracked(false, "blob.bin", &config, true));
    let binaries = Config {
        track_binaries: true,
        ..Config::default()
    };
    assert!(is_tracked(false, "blob.bin", &binaries, true));
    assert!(!is_tracked(false, "notes.txt", &binaries, false));
}

#[test]
fn zero_byte_makes_a_file_binary() {
    assert!(looks_binary(&vec![0x89, b'P', b'N', b'G', 0, 1]));
    assert!(!looks_binary(&b"plain text\n".to_vec()));
    assert!(!looks_binary(&Vec::new()));
}

#[test]
fn relative_path_of_absolute_path_is_the_path() {
    for wd in ["/work/repo", "/work/repo/", "/"] {
        for p in ["a.txt", "dir/sub/b.png"] {
            assert_eq!(relative_path(wd, &absolute_path(wd, p), None), p);
        }
    }
}
