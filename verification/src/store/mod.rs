//! Which store a repository uses, and what a clone publishes to it.
//!
//! Three backends exist: per-clone refs on the repository's own remote (no
//! store URL), a git repository cloned into `<repo>/.gitalong/`, and a
//! JSONBin.io bin. Every backend replaces the records a clone issued for a
//! remote with the clone's fresh view, leaving other clones' records alone.
pub mod jsonbin;
pub mod refs;

use vstd::prelude::*;

use crate::commit::{commit_views, Commit, CommitView};
use crate::error::Error;
use crate::repository::Context;
use crate::text::{chars_of, push_str};

verus! {

/// The store backends.
#[derive(Debug, Clone, Copy, PartialEq, Eq, Structural)]
pub enum StoreKind {
    /// Per-clone refs under `refs/gitalong/v1/` on the repository's remote.
    Refs,
    /// A git repository holding `commits.json`.
    Git,
    /// A JSONBin.io bin, or any endpoint that answers like one.
    Jsonbin,
}

/// `true` when `p` is a prefix of `s`.
pub open spec fn has_prefix(s: Seq<char>, p: Seq<char>) -> bool {
    p.len() <= s.len() && s.subrange(0, p.len() as int) == p
}

/// `true` when `p` is a suffix of `s`.
pub open spec fn has_suffix(s: Seq<char>, p: Seq<char>) -> bool {
    p.len() <= s.len() && s.subrange(s.len() - p.len(), s.len() as int) == p
}

/// The backend a store URL selects: a `https://api.jsonbin.io` prefix
/// selects JSONBin, a `.git` suffix or a `file://` prefix a git store, any
/// other `http://` or `https://` URL an endpoint that answers like JSONBin,
/// no URL at all the refs store; anything else is no store.
pub open spec fn store_kind_of(url: Seq<char>) -> Option<StoreKind> {
    if has_prefix(url, "https://api.jsonbin.io"@) {
        Some(StoreKind::Jsonbin)
    } else if has_suffix(url, ".git"@) || has_prefix(url, "file://"@) {
        Some(StoreKind::Git)
    } else if has_prefix(url, "http://"@) || has_prefix(url, "https://"@) {
        Some(StoreKind::Jsonbin)
    } else if url.len() == 0 {
        Some(StoreKind::Refs)
    } else {
        None
    }
}

/// The message of an unrecognised store URL.
pub open spec fn bad_store_url_message(url: Seq<char>) -> Seq<char> {
    "store_url `"@ + url + "` is neither a git repository URL nor an HTTP URL"@
}

/// `true` when `s` starts with `prefix`.
pub fn starts_with(s: &str, prefix: &str) -> (r: bool)
    ensures
        r == has_prefix(s@, prefix@),
{
    let cs = chars_of(s);
    let cp = chars_of(prefix);
    if cp.len() > cs.len() {
        return false;
    }
    let mut i: usize = 0;
    while i < cp.len()
        invariant
            cs@ == s@,
            cp@ == prefix@,
            cp@.len() <= cs@.len(),
            i <= cp@.len(),
            forall|j: int| 0 <= j < i ==> cs@[j] == cp@[j],
        decreases cp.len() - i,
    {
        if cs[i] != cp[i] {
            assert(cs@.subrange(0, cp@.len() as int)[i as int] != cp@[i as int]);
            assert(cs@.subrange(0, cp@.len() as int) != cp@);
            return false;
        }
        i = i + 1;
    }
    assert(cs@.subrange(0, cp@.len() as int) =~= cp@);
    true
}

/// `true` when `s` ends with `suffix`.
pub fn ends_with(s: &str, suffix: &str) -> (r: bool)
    ensures
        r == has_suffix(s@, suffix@),
{
    let cs = chars_of(s);
    let cp = chars_of(suffix);
    if cp.len() > cs.len() {
        return false;
    }
    let n = cs.len();
    let off = n - cp.len();
    let mut i: usize = 0;
    while i < cp.len()
        invariant
            cs@ == s@,
            cp@ == suffix@,
            cp@.len() <= cs@.len(),
            n == cs@.len(),
            off + cp@.len() == n,
            i <= cp@.len(),
            forall|j: int| 0 <= j < i ==> cs@[off + j] == cp@[j],
        decreases cp.len() - i,
    {
        if cs[off + i] != cp[i] {
            assert(cs@.subrange(off as int, cs@.len() as int)[i as int] != cp@[i as int]);
            assert(cs@.subrange(off as int, cs@.len() as int) != cp@);
            return false;
        }
        i = i + 1;
    }
    assert(cs@.subrange(off as int, cs@.len() as int) =~= cp@);
    true
}

/// The backend a store URL selects (see [`store_kind_of`]), or
/// [`Error::InvalidConfig`] naming the URL when it selects none.
pub fn store_kind(url: &str) -> (r: Result<StoreKind, Error>)
    ensures
        match store_kind_of(url@) {
            Some(k) => r == Ok::<StoreKind, Error>(k),
            None => r matches Err(Error::InvalidConfig(m)) && m@ == bad_store_url_message(url@),
        },
{
    if starts_with(url, "https://api.jsonbin.io") {
        Ok(StoreKind::Jsonbin)
    } else if ends_with(url, ".git") || starts_with(url, "file://") {
        Ok(StoreKind::Git)
    } else if starts_with(url, "http://") || starts_with(url, "https://") {
        Ok(StoreKind::Jsonbin)
    } else if url.is_empty() {
        Ok(StoreKind::Refs)
    } else {
        let mut m = String::new();
        push_str(&mut m, "store_url `");
        push_str(&mut m, url);
        push_str(&mut m, "` is neither a git repository URL nor an HTTP URL");
        assert(m@ =~= bad_store_url_message(url@));
        Err(Error::InvalidConfig(m))
    }
}

/// `true` when a record stays in the store when the clone `clone` publishes
/// for the remote `remote`: it belongs to another remote or another clone.
pub open spec fn kept_on_publish(c: CommitView, clone: Seq<char>, remote: Seq<char>) -> bool {
    !(c.remote == Some(remote) && c.clone == Some(clone))
}

/// The store after the clone `context` publishes `ours` for `remote_url`:
/// the records of other clones and other remotes, in their order, followed
/// by `ours`.
pub open spec fn published(existing: Seq<CommitView>, ours: Seq<CommitView>, clone: Seq<char>, remote: Seq<char>) -> Seq<CommitView> {
    existing.filter(|c: CommitView| kept_on_publish(c, clone, remote)) + ours
}

/// Drop the records this clone issued for `remote_url` and append `ours`.
pub fn replace_own(existing: Vec<Commit>, ours: &Vec<Commit>, context: &Context, remote_url: &str) -> (next: Vec<Commit>)
    ensures
        commit_views(next@) == published(commit_views(existing@), commit_views(ours@), context.clone@, remote_url@),
{
    let remote = remote_url.to_owned();
    let ghost pred = |c: CommitView| kept_on_publish(c, context.clone@, remote_url@);
    let mut next: Vec<Commit> = Vec::new();
    let mut i: usize = 0;
    while i < existing.len()
        invariant
            remote@ == remote_url@,
            i <= existing@.len(),
            pred == (|c: CommitView| kept_on_publish(c, context.clone@, remote_url@)),
            commit_views(next@) == commit_views(existing@.subrange(0, i as int)).filter(pred),
        decreases existing.len() - i,
    {
        let c = &existing[i];
        let mine = crate::text::opt_eq(&c.remote, &remote) && c.is_ours(context);
        let ghost before = next@;
        if !mine {
            next.push(c.duplicate());
        }
        proof {
            reveal_with_fuel(Seq::filter, 1);
            let now = commit_views(existing@.subrange(0, i + 1));
            assert(now.drop_last() =~= commit_views(existing@.subrange(0, i as int)));
            assert(now.last() == existing@[i as int]@);
            assert(pred(existing@[i as int]@) == !mine);
            if !mine {
                assert(commit_views(next@) =~= commit_views(before).push(existing@[i as int]@));
            } else {
                assert(commit_views(next@) =~= commit_views(before));
            }
        }
        i = i + 1;
    }
    assert(existing@.subrange(0, existing@.len() as int) =~= existing@);
    let ghost kept = next@;
    let mut j: usize = 0;
    while j < ours.len()
        invariant
            j <= ours@.len(),
            commit_views(next@) == commit_views(kept) + commit_views(ours@.subrange(0, j as int)),
        decreases ours.len() - j,
    {
        let ghost before = next@;
        next.push(ours[j].duplicate());
        j = j + 1;
        assert(commit_views(ours@.subrange(0, j as int)) =~= commit_views(ours@.subrange(0, j - 1)).push(ours@[j - 1]@));
        assert(commit_views(next@) =~= commit_views(before).push(ours@[j - 1]@));
        assert(commit_views(next@) =~= commit_views(kept) + commit_views(ours@.subrange(0, j as int)));
    }
    assert(ours@.subrange(0, ours@.len() as int) =~= ours@);
    next
}

/// `true` when `c` is a record of the clone `clone` for the remote `remote`.
pub open spec fn issued_for(c: CommitView, clone: Seq<char>, remote: Seq<char>) -> bool {
    !kept_on_publish(c, clone, remote)
}

/// Publishing replaces a clone's records instead of adding to them: when
/// every published record is the clone's own for the remote, the store
/// afterwards holds exactly those as the clone's records for the remote,
/// and every record of other clones and other remotes as it was.
pub proof fn law_publish_replaces_own(existing: Seq<CommitView>, ours: Seq<CommitView>, clone: Seq<char>, remote: Seq<char>)
    requires
        forall|i: int| 0 <= i < ours.len() ==> issued_for(#[trigger] ours[i], clone, remote),
    ensures
        published(existing, ours, clone, remote).filter(|c: CommitView| issued_for(c, clone, remote)) == ours,
        published(existing, ours, clone, remote).filter(|c: CommitView| kept_on_publish(c, clone, remote))
            == existing.filter(|c: CommitView| kept_on_publish(c, clone, remote)),
{
    let keep = |c: CommitView| kept_on_publish(c, clone, remote);
    let mine = |c: CommitView| issued_for(c, clone, remote);
    let kept = existing.filter(keep);
    Seq::filter_distributes_over_add(kept, ours, mine);
    Seq::filter_distributes_over_add(kept, ours, keep);
    lemma_filter_all(ours, mine);
    lemma_filter_none(ours, keep);
    lemma_filter_none(kept, mine);
    lemma_filter_all(kept, keep);
    assert(kept.filter(mine) + ours =~= ours);
    assert(kept + ours.filter(keep) =~= kept);
}

/// Publishing the same records twice leaves the store as publishing them
/// once, when every published record is the clone's own for the remote.
pub proof fn law_publish_idempotent(existing: Seq<CommitView>, ours: Seq<CommitView>, clone: Seq<char>, remote: Seq<char>)
    requires
        forall|i: int| 0 <= i < ours.len() ==> issued_for(#[trigger] ours[i], clone, remote),
    ensures
        published(published(existing, ours, clone, remote), ours, clone, remote) == published(existing, ours, clone, remote),
{
    law_publish_replaces_own(existing, ours, clone, remote);
}

/// Withdrawing a clone's records (publishing none) leaves the store with
/// no record of that clone for the remote, and every other record as it
/// was, in its order.
pub proof fn law_clear_withdraws_own(existing: Seq<CommitView>, clone: Seq<char>, remote: Seq<char>)
    ensures
        published(existing, Seq::empty(), clone, remote).filter(|c: CommitView| issued_for(c, clone, remote))
            == Seq::<CommitView>::empty(),
        published(existing, Seq::empty(), clone, remote) == existing.filter(
            |c: CommitView| kept_on_publish(c, clone, remote),
        ),
{
    law_publish_replaces_own(existing, Seq::empty(), clone, remote);
    assert(existing.filter(|c: CommitView| kept_on_publish(c, clone, remote)) + Seq::<CommitView>::empty()
        =~= existing.filter(|c: CommitView| kept_on_publish(c, clone, remote)));
}

/// `true` when `c` is tagged with exactly the remote `remote`.
pub open spec fn tagged_for(c: CommitView, remote: Seq<char>) -> bool {
    c.remote == Some(remote)
}

/// The records a clone of `remote` reads back from a store of kind `kind`:
/// from a store that can serve several repositories (git, JSONBin) those
/// tagged with exactly that remote, in their order; from the refs store,
/// whose namespace belongs to one repository, every record.
pub open spec fn read_back(kind: StoreKind, records: Seq<CommitView>, remote: Seq<char>) -> Seq<CommitView> {
    if kind == StoreKind::Refs {
        records
    } else {
        records.filter(|c: CommitView| tagged_for(c, remote))
    }
}

/// The records of `records` a clone of `remote_url` reads back (see
/// [`read_back`]).
pub fn records_for(kind: StoreKind, records: Vec<Commit>, remote_url: &str) -> (out: Vec<Commit>)
    ensures
        commit_views(out@) == read_back(kind, commit_views(records@), remote_url@),
{
    if kind == StoreKind::Refs {
        return records;
    }
    let remote = remote_url.to_owned();
    let ghost pred = |c: CommitView| tagged_for(c, remote_url@);
    let mut out: Vec<Commit> = Vec::new();
    let mut i: usize = 0;
    while i < records.len()
        invariant
            remote@ == remote_url@,
            i <= records@.len(),
            pred == (|c: CommitView| tagged_for(c, remote_url@)),
            commit_views(out@) == commit_views(records@.subrange(0, i as int)).filter(pred),
        decreases records.len() - i,
    {
        let c = &records[i];
        let keep = crate::text::opt_eq(&c.remote, &remote);
        let ghost before = out@;
        if keep {
            out.push(c.duplicate());
        }
        proof {
            reveal_with_fuel(Seq::filter, 1);
            let now = commit_views(records@.subrange(0, i + 1));
            assert(now.drop_last() =~= commit_views(records@.subrange(0, i as int)));
            assert(now.last() == records@[i as int]@);
            assert(pred(records@[i as int]@) == keep);
            if keep {
                assert(commit_views(out@) =~= commit_views(before).push(records@[i as int]@));
            } else {
                assert(commit_views(out@) =~= commit_views(before));
            }
        }
        i = i + 1;
    }
    assert(records@.subrange(0, records@.len() as int) =~= records@);
    out
}

/// A store that serves several repositories gives each clone back exactly
/// the records of its own remote: every record read back is tagged with
/// that remote, and every record so tagged is read back.
pub proof fn law_shared_store_reads_back_exact_remote(kind: StoreKind, records: Seq<CommitView>, remote: Seq<char>)
    requires
        kind != StoreKind::Refs,
    ensures
        forall|i: int| 0 <= i < read_back(kind, records, remote).len()
            ==> (#[trigger] read_back(kind, records, remote)[i]).remote == Some(remote),
        forall|i: int| 0 <= i < records.len() && (#[trigger] records[i]).remote == Some(remote)
            ==> read_back(kind, records, remote).contains(records[i]),
{
    let pred = |c: CommitView| tagged_for(c, remote);
    assert forall|i: int| 0 <= i < read_back(kind, records, remote).len() implies (#[trigger] read_back(
        kind,
        records,
        remote,
    )[i]).remote == Some(remote) by {
        records.lemma_filter_pred(pred, i);
    }
    assert forall|i: int| 0 <= i < records.len() && (#[trigger] records[i]).remote == Some(remote) implies read_back(
        kind,
        records,
        remote,
    ).contains(records[i]) by {
        records.lemma_filter_contains(pred, i);
    }
}

/// The refs store's namespace belongs to one repository: every record in it
/// is read back, however the clones spell their remote.
pub proof fn law_refs_store_reads_back_everything(records: Seq<CommitView>, remote: Seq<char>)
    ensures
        read_back(StoreKind::Refs, records, remote) == records,
{
}

proof fn lemma_filter_all(s: Seq<CommitView>, pred: spec_fn(CommitView) -> bool)
    requires
        forall|i: int| 0 <= i < s.len() ==> pred(#[trigger] s[i]),
    ensures
        s.filter(pred) == s,
    decreases s.len(),
{
    reveal_with_fuel(Seq::filter, 1);
    if s.len() > 0 {
        lemma_filter_all(s.drop_last(), pred);
        assert(s.drop_last().push(s.last()) =~= s);
    }
}

proof fn lemma_filter_none(s: Seq<CommitView>, pred: spec_fn(CommitView) -> bool)
    requires
        forall|i: int| 0 <= i < s.len() ==> !pred(#[trigger] s[i]),
    ensures
        s.filter(pred) == Seq::<CommitView>::empty(),
    decreases s.len(),
{
    reveal_with_fuel(Seq::filter, 1);
    if s.len() > 0 {
        lemma_filter_none(s.drop_last(), pred);
    }
    assert(s.filter(pred) =~= Seq::<CommitView>::empty());
}

} // verus!
