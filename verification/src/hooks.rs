//! The git hooks `setup --update-hooks` installs, and the `.gitignore`
//! patch `setup --update-gitignore` appends.
use vstd::prelude::*;

use crate::text::{chars_of, push_str};

verus! {

/// Body of every installed hook: refresh this clone's records.
pub const HOOK_BODY: &'static str = "#!/bin/sh\n# Refresh this clone's records in the gitalong store.\ngitalong update\n";

/// Snippet appended to `.gitignore`: ignore the store clone and cache.
pub const GITIGNORE_PATCH: &'static str = "/.gitalong/\n!/.gitalong.cfg\n";

/// One installable hook: its file name and shell-script body.
pub struct Hook {
    pub name: &'static str,
    pub body: &'static str,
}

/// The file name of the `index`-th hook.
pub open spec fn hook_name(index: int) -> Seq<char> {
    if index == 0 {
        "post-applypatch"@
    } else if index == 1 {
        "post-checkout"@
    } else if index == 2 {
        "post-commit"@
    } else {
        "post-rewrite"@
    }
}

/// The hooks installed by `gitalong setup --update-hooks`: post-applypatch,
/// post-checkout, post-commit and post-rewrite, each running
/// `gitalong update`.
pub fn hooks() -> (v: Vec<Hook>)
    ensures
        v@.len() == 4,
        forall|i: int| 0 <= i < 4 ==> (#[trigger] v@[i]).name@ == hook_name(i) && v@[i].body@ == HOOK_BODY@,
{
    let mut v: Vec<Hook> = Vec::new();
    v.push(Hook { name: "post-applypatch", body: HOOK_BODY });
    v.push(Hook { name: "post-checkout", body: HOOK_BODY });
    v.push(Hook { name: "post-commit", body: HOOK_BODY });
    v.push(Hook { name: "post-rewrite", body: HOOK_BODY });
    v
}

/// `true` when `needle` occurs in `hay` at `at`.
pub open spec fn occurs_at(hay: Seq<char>, needle: Seq<char>, at: int) -> bool {
    0 <= at && at + needle.len() <= hay.len() && hay.subrange(at, at + needle.len()) == needle
}

/// `true` when `needle` occurs somewhere in `hay`.
pub open spec fn contains_text(hay: Seq<char>, needle: Seq<char>) -> bool {
    exists|at: int| occurs_at(hay, needle, at)
}

/// `true` when `needle` occurs in `hay`.
pub fn text_contains(hay: &str, needle: &str) -> (r: bool)
    ensures
        r == contains_text(hay@, needle@),
{
    let h = chars_of(hay);
    let n = chars_of(needle);
    if n.len() > h.len() {
        return false;
    }
    let hl = h.len();
    let last = hl - n.len();
    let mut at: usize = 0;
    while at <= last
        invariant
            h@ == hay@,
            n@ == needle@,
            hl == h@.len(),
            last + n@.len() == hl,
            forall|a: int| 0 <= a < at ==> !occurs_at(hay@, needle@, a),
        ensures
            forall|a: int| 0 <= a <= last ==> !occurs_at(hay@, needle@, a),
        decreases last + 1 - at,
    {
        let mut k: usize = 0;
        let mut same = true;
        while k < n.len()
            invariant
                h@ == hay@,
                n@ == needle@,
                at <= last,
                hl == h@.len(),
                last + n@.len() == hl,
                k <= n@.len(),
                same == forall|j: int| 0 <= j < k ==> h@[at + j] == n@[j],
            decreases n.len() - k,
        {
            if h[at + k] != n[k] {
                same = false;
            }
            k = k + 1;
        }
        if same {
            assert(h@.subrange(at as int, at + n@.len()) =~= n@);
            assert(occurs_at(hay@, needle@, at as int));
            return true;
        }
        proof {
            let j = choose|j: int| 0 <= j < n@.len() && h@[at + j] != n@[j];
            assert(h@.subrange(at as int, at + n@.len())[j] != n@[j]);
        }
        assert(!occurs_at(hay@, needle@, at as int));
        if at == last {
            break;
        }
        at = at + 1;
    }
    proof {
        assert forall|a: int| !occurs_at(hay@, needle@, a) by {
            if 0 <= a && a + needle@.len() <= hay@.len() {
                assert(a <= last);
            }
        }
    }
    false
}

/// The `.gitignore` text after patching `existing`, or `None` when
/// `existing` already holds the patch: the patch is appended, after a line
/// break when `existing` does not end in one.
pub open spec fn patched_gitignore(existing: Seq<char>) -> Option<Seq<char>> {
    if contains_text(existing, GITIGNORE_PATCH@) {
        None
    } else if existing.len() > 0 && existing.last() != '\n' {
        Some(existing + seq!['\n'] + GITIGNORE_PATCH@)
    } else {
        Some(existing + GITIGNORE_PATCH@)
    }
}

/// The patched `.gitignore` text (see [`patched_gitignore`]).
pub fn patch_gitignore(existing: &str) -> (r: Option<String>)
    ensures
        opt_chars_of(r) == patched_gitignore(existing@),
{
    if text_contains(existing, GITIGNORE_PATCH) {
        return None;
    }
    let cs = chars_of(existing);
    let mut next = existing.to_owned();
    if cs.len() > 0 && cs[cs.len() - 1] != '\n' {
        next.push('\n');
    }
    push_str(&mut next, GITIGNORE_PATCH);
    Some(next)
}

/// The view of an optional string.
pub open spec fn opt_chars_of(o: Option<String>) -> Option<Seq<char>> {
    match o {
        Some(s) => Some(s@),
        None => None,
    }
}

/// Patching is idempotent and keeps what was there: a patched
/// `.gitignore` starts with the text it had and holds the patch, so
/// patching it again changes nothing.
pub proof fn law_gitignore_patch_idempotent(existing: Seq<char>)
    ensures
        patched_gitignore(existing) matches Some(once) ==> once.subrange(0, existing.len() as int) == existing,
        patched_gitignore(existing) matches Some(once) ==> contains_text(once, GITIGNORE_PATCH@),
        patched_gitignore(existing) matches Some(once) ==> patched_gitignore(once) is None,
{
    if let Some(once) = patched_gitignore(existing) {
        let p = GITIGNORE_PATCH@;
        let at = once.len() - p.len();
        assert(once.subrange(at, at + p.len()) =~= p);
        assert(occurs_at(once, p, at));
        assert(once.subrange(0, existing.len() as int) =~= existing);
    }
}

} // verus!
