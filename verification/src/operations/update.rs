//! `gitalong update`: the local view a clone publishes to the store.
//!
//! The local view is every commit reachable from a local branch but from no
//! remote branch, plus, when uncommitted changes are tracked, one
//! uncommitted-changes record holding the dirty and claimed paths. It is
//! sorted newest first so that the stored JSON is stable across runs.
use vstd::prelude::*;

use crate::commit::{commit_views, Branches, Commit, CommitView};
use crate::store::{issued_for, law_publish_replaces_own, published};
use crate::error::Error;
use crate::repository::Context;
use crate::date::{
    date_format, first_instant, format_git_time, format_utc, formattable, last_instant, timestamp_text,
    written_offset,
};
use crate::text::{
    changed_paths, chars_sorted, contains_str, opt_is, opt_le, opt_le_exec,
    slashed, sort_strings, views,
};

verus! {

/// `true` when `a` is strictly newer than `b`.
pub open spec fn newer(a: CommitView, b: CommitView) -> bool {
    !opt_le(a.date, b.date)
}

/// `x` inserted into `s` before the first record it is strictly newer than.
pub open spec fn insert_by_date(s: Seq<CommitView>, x: CommitView) -> Seq<CommitView>
    decreases s.len(),
{
    if s.len() == 0 {
        seq![x]
    } else if newer(x, s[0]) {
        seq![x] + s
    } else {
        seq![s[0]] + insert_by_date(s.drop_first(), x)
    }
}

/// `s` stably sorted newest first: records of equal date keep their order.
pub open spec fn sorted_by_date(s: Seq<CommitView>) -> Seq<CommitView>
    decreases s.len(),
{
    if s.len() == 0 {
        s
    } else {
        insert_by_date(sorted_by_date(s.drop_last()), s.last())
    }
}

/// The index at which `x` goes into `s`: the first record it is strictly
/// newer than, or the end.
pub open spec fn insertion_point(s: Seq<CommitView>, x: CommitView) -> int
    decreases s.len(),
{
    if s.len() == 0 {
        0
    } else if newer(x, s[0]) {
        0
    } else {
        1 + insertion_point(s.drop_first(), x)
    }
}

proof fn lemma_insert_at_point(s: Seq<CommitView>, x: CommitView)
    ensures
        0 <= insertion_point(s, x) <= s.len(),
        insert_by_date(s, x) == s.insert(insertion_point(s, x), x),
        forall|j: int| 0 <= j < insertion_point(s, x) ==> !newer(x, #[trigger] s[j]),
        insertion_point(s, x) < s.len() ==> newer(x, s[insertion_point(s, x)]),
    decreases s.len(),
{
    if s.len() > 0 && !newer(x, s[0]) {
        lemma_insert_at_point(s.drop_first(), x);
        let k = insertion_point(s.drop_first(), x);
        assert(seq![s[0]] + s.drop_first().insert(k, x) =~= s.insert(k + 1, x));
        assert forall|j: int| 0 <= j < k + 1 implies !newer(x, #[trigger] s[j]) by {
            if j > 0 {
                assert(s[j] == s.drop_first()[j - 1]);
            }
        }
    } else if s.len() > 0 {
        assert(seq![x] + s =~= s.insert(0, x));
    } else {
        assert(seq![x] =~= s.insert(0, x));
    }
}

/// `true` when no record is strictly newer than one before it.
pub open spec fn newest_first(s: Seq<CommitView>) -> bool {
    forall|i: int, j: int| 0 <= i < j < s.len() ==> !newer(#[trigger] s[j], #[trigger] s[i])
}

proof fn lemma_insert_keeps_order(s: Seq<CommitView>, x: CommitView)
    requires
        newest_first(s),
    ensures
        newest_first(insert_by_date(s, x)),
        insert_by_date(s, x).to_multiset() =~= s.to_multiset().insert(x),
{
    lemma_insert_at_point(s, x);
    let k = insertion_point(s, x);
    let t = s.insert(k, x);
    assert forall|i: int, j: int| 0 <= i < j < t.len() implies !newer(#[trigger] t[j], #[trigger] t[i]) by {
        if j == k {
            assert(t[i] == s[i]);
            assert(!newer(x, s[i]));
        } else if i == k {
            assert(t[j] == s[j - 1]);
            assert(newer(x, s[k]));
            crate::text::lemma_opt_le_total_preorder(x.date, s[k].date, x.date);
            if j - 1 > k {
                assert(!newer(s[j - 1], s[k]));
                crate::text::lemma_opt_le_total_preorder(s[j - 1].date, s[k].date, x.date);
            }
        } else {
            let a = if i < k { i } else { i - 1 };
            let b = if j < k { j } else { j - 1 };
            assert(t[i] == s[a]);
            assert(t[j] == s[b]);
        }
    }
    let left = s.subrange(0, k);
    let right = s.subrange(k, s.len() as int);
    assert(s =~= left + right);
    assert(t =~= left + (seq![x] + right));
    vstd::seq_lib::lemma_multiset_commutative(left, seq![x] + right);
    vstd::seq_lib::lemma_multiset_commutative(seq![x], right);
    vstd::seq_lib::lemma_multiset_commutative(left, right);
    broadcast use vstd::seq_lib::group_to_multiset_ensures;
    assert(seq![x] =~= Seq::<CommitView>::empty().push(x));
}

/// The local view is ordered newest first and holds exactly the records it
/// was built from: sorting neither drops, duplicates nor invents a record.
pub proof fn law_sorted_by_date_orders_and_permutes(s: Seq<CommitView>)
    ensures
        newest_first(sorted_by_date(s)),
        sorted_by_date(s).to_multiset() == s.to_multiset(),
    decreases s.len(),
{
    if s.len() > 0 {
        law_sorted_by_date_orders_and_permutes(s.drop_last());
        lemma_insert_keeps_order(sorted_by_date(s.drop_last()), s.last());
        broadcast use vstd::seq_lib::group_to_multiset_ensures;
        assert(s.drop_last().push(s.last()) =~= s);
    }
}

/// `true` when `c` carries the full context of the clone `ctx` and is
/// tagged with the remote `remote`: the mark of a record a clone publishes
/// as its own unpushed or uncommitted work.
pub open spec fn stamped(c: CommitView, ctx: Context, remote: Seq<char>) -> bool {
    &&& c.user == Some(ctx.user@)
    &&& c.host == Some(ctx.host@)
    &&& c.clone == Some(ctx.clone@)
    &&& c.remote == Some(remote)
}

/// Every record of a clone's local view carries that clone's context and
/// remote when the records it is built from do (as the records of
/// [`unpushed_commit`] and [`uncommitted_record`] do), so other clones read
/// each as that clone's work.
pub proof fn law_local_view_is_stamped(s: Seq<CommitView>, ctx: Context, remote: Seq<char>)
    requires
        forall|i: int| 0 <= i < s.len() ==> stamped(#[trigger] s[i], ctx, remote),
    ensures
        forall|i: int| 0 <= i < sorted_by_date(s).len() ==> stamped(#[trigger] sorted_by_date(s)[i], ctx, remote),
{
    law_sorted_by_date_orders_and_permutes(s);
    broadcast use vstd::seq_lib::group_to_multiset_ensures;
    assert forall|i: int| 0 <= i < sorted_by_date(s).len() implies stamped(#[trigger] sorted_by_date(s)[i], ctx, remote) by {
        let x = sorted_by_date(s)[i];
        assert(sorted_by_date(s).contains(x));
        assert(sorted_by_date(s).to_multiset().count(x) > 0);
        assert(s.to_multiset().count(x) > 0);
        assert(s.contains(x));
    }
}

/// A rerun of `update` replaces the clone's previous local view instead of
/// adding to it: publishing the local view built from `second` over a store
/// that already holds the one built from `first` leaves the store as
/// publishing the second alone, when both are built from records stamped
/// with the clone's context and remote.
pub proof fn law_update_rerun_replaces_local_view(
    existing: Seq<CommitView>,
    first: Seq<CommitView>,
    second: Seq<CommitView>,
    ctx: Context,
    remote: Seq<char>,
)
    requires
        forall|i: int| 0 <= i < first.len() ==> stamped(#[trigger] first[i], ctx, remote),
        forall|i: int| 0 <= i < second.len() ==> stamped(#[trigger] second[i], ctx, remote),
    ensures
        published(published(existing, sorted_by_date(first), ctx.clone@, remote), sorted_by_date(second), ctx.clone@, remote)
            == published(existing, sorted_by_date(second), ctx.clone@, remote),
{
    law_local_view_is_stamped(first, ctx, remote);
    let one = sorted_by_date(first);
    assert forall|i: int| 0 <= i < one.len() implies issued_for(#[trigger] one[i], ctx.clone@, remote) by {
        assert(stamped(one[i], ctx, remote));
    }
    law_publish_replaces_own(existing, one, ctx.clone@, remote);
}

/// Sort records newest first, keeping the order of records of equal date.
pub fn sort_newest_first(commits: Vec<Commit>) -> (out: Vec<Commit>)
    ensures
        commit_views(out@) == sorted_by_date(commit_views(commits@)),
{
    let mut out: Vec<Commit> = Vec::new();
    let mut i: usize = 0;
    while i < commits.len()
        invariant
            i <= commits@.len(),
            commit_views(out@) == sorted_by_date(commit_views(commits@.subrange(0, i as int))),
        decreases commits.len() - i,
    {
        let x = &commits[i];
        let ghost sv = commit_views(out@);
        proof {
            lemma_insert_at_point(sv, x@);
        }
        let mut k: usize = 0;
        while k < out.len()
            invariant
                sv == commit_views(out@),
                k <= out@.len(),
                k <= insertion_point(sv, x@),
                insertion_point(sv, x@) <= sv.len(),
                forall|j: int| 0 <= j < insertion_point(sv, x@) ==> !newer(x@, #[trigger] sv[j]),
                insertion_point(sv, x@) < sv.len() ==> newer(x@, sv[insertion_point(sv, x@)]),
            ensures
                k <= out@.len(),
                k == out@.len() || newer(x@, sv[k as int]),
                k <= insertion_point(sv, x@),
            decreases out.len() - k,
        {
            if !opt_le_exec(&x.date, &out[k].date) {
                assert(newer(x@, sv[k as int]));
                break;
            }
            assert(!newer(x@, sv[k as int]));
            k = k + 1;
        }
        proof {
            if k < insertion_point(sv, x@) {
                assert(!newer(x@, sv[k as int]));
            }
        }
        assert(k == insertion_point(sv, x@));
        out.insert(k, x.duplicate());
        proof {
            let now = commit_views(commits@.subrange(0, i + 1));
            assert(now.drop_last() =~= commit_views(commits@.subrange(0, i as int)));
            assert(now.last() == commits@[i as int]@);
            assert(commit_views(out@) =~= sv.insert(k as int, x@));
        }
        i = i + 1;
    }
    assert(commits@.subrange(0, commits@.len() as int) =~= commits@);
    out
}

/// The local view a clone publishes: the uncommitted-changes record, when
/// there is one, ahead of the real local-only commits, then everything
/// stably sorted newest first.
pub fn local_view(committed: Vec<Commit>, uncommitted: Option<Commit>) -> (out: Vec<Commit>)
    ensures
        commit_views(out@) == sorted_by_date(
            match uncommitted {
                Some(u) => seq![u@] + commit_views(committed@),
                None => commit_views(committed@),
            },
        ),
{
    let mut all = committed;
    let ghost real_views = commit_views(all@);
    match uncommitted {
        Some(u) => {
            all.insert(0, u);
            assert(commit_views(all@) =~= seq![u@] + real_views);
        },
        None => {},
    }
    sort_newest_first(all)
}

/// `paths` followed by every claim not already among the paths before it,
/// in claim order.
pub open spec fn add_claims(paths: Seq<Seq<char>>, claims: Seq<Seq<char>>) -> Seq<Seq<char>>
    decreases claims.len(),
{
    if claims.len() == 0 {
        paths
    } else {
        let prior = add_claims(paths, claims.drop_last());
        if prior.contains(claims.last()) {
            prior
        } else {
            prior.push(claims.last())
        }
    }
}

/// Claimed paths are recorded: the paths of an uncommitted-changes record
/// (see [`uncommitted_record`]) hold every dirty path and every claimed
/// path, and nothing else.
pub proof fn law_claims_are_recorded(paths: Seq<Seq<char>>, claims: Seq<Seq<char>>)
    ensures
        forall|i: int| 0 <= i < paths.len() ==> add_claims(paths, claims).contains(#[trigger] paths[i]),
        forall|i: int| 0 <= i < claims.len() ==> add_claims(paths, claims).contains(#[trigger] claims[i]),
        forall|p: Seq<char>| #[trigger] add_claims(paths, claims).contains(p) ==> paths.contains(p) || claims.contains(p),
    decreases claims.len(),
{
    if claims.len() > 0 {
        let rest = claims.drop_last();
        law_claims_are_recorded(paths, rest);
        let prior = add_claims(paths, rest);
        let now = add_claims(paths, claims);
        assert forall|i: int| 0 <= i < paths.len() implies now.contains(#[trigger] paths[i]) by {
            assert(prior.contains(paths[i]));
            let j = choose|j: int| 0 <= j < prior.len() && prior[j] == paths[i];
            if !prior.contains(claims.last()) {
                assert(now[j] == prior[j]);
            }
        }
        assert forall|i: int| 0 <= i < claims.len() implies now.contains(#[trigger] claims[i]) by {
            if i < claims.len() - 1 {
                assert(rest[i] == claims[i]);
                assert(prior.contains(rest[i]));
                let j = choose|j: int| 0 <= j < prior.len() && prior[j] == claims[i];
                if !prior.contains(claims.last()) {
                    assert(now[j] == prior[j]);
                }
            } else if !prior.contains(claims.last()) {
                assert(now[prior.len() as int] == claims.last());
            }
        }
        assert forall|p: Seq<char>| #[trigger] now.contains(p) implies paths.contains(p) || claims.contains(p) by {
            let j = choose|j: int| 0 <= j < now.len() && now[j] == p;
            if j < prior.len() {
                assert(prior[j] == p);
                assert(prior.contains(p));
                if rest.contains(p) {
                    let k = choose|k: int| 0 <= k < rest.len() && rest[k] == p;
                    assert(claims[k] == p);
                }
            } else {
                assert(p == claims.last());
                assert(claims[claims.len() - 1] == p);
            }
        }
    }
}

/// The dirty paths, then every claim not already among them.
pub fn merge_claims(dirty: Vec<String>, claims: &Vec<String>) -> (paths: Vec<String>)
    ensures
        views(paths@) == add_claims(views(dirty@), views(claims@)),
{
    let mut paths = dirty;
    let ghost start = views(paths@);
    let mut i: usize = 0;
    while i < claims.len()
        invariant
            i <= claims@.len(),
            views(paths@) == add_claims(start, views(claims@.subrange(0, i as int))),
        decreases claims.len() - i,
    {
        let claim = &claims[i];
        let ghost before = views(paths@);
        let present = contains_str(&paths, claim.as_str());
        proof {
            assert(present == before.contains(claim@)) by {
                if present {
                    let j = choose|j: int| 0 <= j < paths@.len() && #[trigger] paths@[j]@ == claim@;
                    assert(before[j] == claim@);
                }
                if before.contains(claim@) {
                    let j = choose|j: int| 0 <= j < before.len() && before[j] == claim@;
                    assert(paths@[j]@ == claim@);
                }
            }
        }
        if !present {
            paths.push(claim.clone());
            assert(views(paths@) =~= before.push(claim@));
        }
        i = i + 1;
        assert(views(claims@.subrange(0, i as int)).drop_last() =~= views(claims@.subrange(0, i - 1)));
    }
    assert(claims@.subrange(0, claims@.len() as int) =~= claims@);
    paths
}

/// The uncommitted-changes record of a clone: the dirty paths plus the
/// claimed ones, each once and sorted, stamped with the clone's context,
/// the remote and `date`. There is none when there is nothing dirty and
/// nothing claimed.
pub fn uncommitted_record(dirty: Vec<String>, claims: &Vec<String>, context: &Context, remote_url: &str, date: String) -> (r: Option<Commit>)
    ensures
        r is None <==> add_claims(views(dirty@), views(claims@)).len() == 0,
        r matches Some(c) ==> {
            &&& c.sha is None
            &&& c.author is None
            &&& c.branches.local@.len() == 0
            &&& c.branches.remote@.len() == 0
            &&& opt_is(c.date, date@)
            &&& opt_is(c.remote, remote_url@)
            &&& opt_is(c.host, context.host@)
            &&& opt_is(c.user, context.user@)
            &&& opt_is(c.clone, context.clone@)
            &&& chars_sorted(views(c.changes@))
            &&& views(c.changes@).to_multiset() == add_claims(views(dirty@), views(claims@)).to_multiset()
        },
{
    let paths = merge_claims(dirty, claims);
    if paths.len() == 0 {
        return None;
    }
    let sorted = sort_strings(paths);
    let mut c = Commit {
        sha: None,
        user: None,
        host: None,
        clone: None,
        remote: Some(remote_url.to_owned()),
        date: Some(date),
        author: None,
        changes: sorted,
        branches: Branches::default(),
    };
    c.stamp_context(context);
    Some(c)
}

/// The uncommitted-changes record of a clone dated `now_seconds` after the
/// Unix epoch, in UTC (see [`uncommitted_record`]). Fails with
/// [`Error::InvalidConfig`] when the date cannot be formatted.
pub fn uncommitted_changes_commit(dirty: Vec<String>, claims: &Vec<String>, context: &Context, remote_url: &str, now_seconds: i64) -> (r: Result<Option<Commit>, Error>)
    ensures
        r matches Ok(o) ==> (o is None <==> add_claims(views(dirty@), views(claims@)).len() == 0),
        r matches Ok(Some(c)) ==> {
            &&& c.sha is None
            &&& c.author is None
            &&& c.branches.local@.len() == 0
            &&& c.branches.remote@.len() == 0
            &&& opt_is(c.date, timestamp_text(now_seconds as int, 0, date_format()))
            &&& opt_is(c.remote, remote_url@)
            &&& opt_is(c.host, context.host@)
            &&& opt_is(c.user, context.user@)
            &&& opt_is(c.clone, context.clone@)
            &&& chars_sorted(views(c.changes@))
            &&& views(c.changes@).to_multiset() == add_claims(views(dirty@), views(claims@)).to_multiset()
        },
        first_instant() <= now_seconds <= last_instant() ==> r is Ok,
        r matches Err(e) ==> e matches Error::InvalidConfig(_),
{
    let date = format_utc(now_seconds)?;
    Ok(uncommitted_record(dirty, claims, context, remote_url, date))
}

/// The store record of a real commit read from the git log: its sha, its
/// author (empty when git has no name for it), `date`, the remote, the
/// clone's host and working-tree path (no user: it is not the clone's
/// uncommitted work), the changed paths (see [`changed_paths`]) and the
/// local branches containing it.
pub fn git_commit_record(sha: String, author: Option<String>, date: String, raw_changes: Vec<String>, local: Vec<String>, context: &Context, remote_url: &str) -> (c: Commit)
    ensures
        opt_is(c.sha, sha@),
        opt_is(c.author, match author { Some(a) => a@, None => Seq::empty() }),
        opt_is(c.date, date@),
        opt_is(c.remote, remote_url@),
        opt_is(c.clone, context.clone@),
        opt_is(c.host, context.host@),
        c.user is None,
        crate::text::chars_strictly_sorted(views(c.changes@)),
        forall|p: Seq<char>| #![trigger views(c.changes@).contains(p)]
            views(c.changes@).contains(p) <==> exists|i: int|
                0 <= i < raw_changes@.len() && slashed(#[trigger] raw_changes@[i]@) == p,
        c.branches.local@ == local@,
        c.branches.remote@.len() == 0,
{
    let author = match author {
        Some(a) => a,
        None => String::new(),
    };
    Commit {
        sha: Some(sha),
        author: Some(author),
        date: Some(date),
        remote: Some(remote_url.to_owned()),
        clone: Some(context.clone.clone()),
        host: Some(context.host.clone()),
        user: None,
        changes: changed_paths(raw_changes),
        branches: Branches { local, remote: Vec::new() },
    }
}

/// [`git_commit_record`] dated `seconds` after the Unix epoch at the git
/// offset `offset_minutes` (see [`format_git_time`]).
pub fn commit_from_git(sha: String, author: Option<String>, seconds: i64, offset_minutes: i32, raw_changes: Vec<String>, local: Vec<String>, context: &Context, remote_url: &str) -> (r: Result<Commit, Error>)
    requires
        i32::MIN <= offset_minutes * 60 <= i32::MAX,
    ensures
        r matches Ok(c) ==> {
            &&& opt_is(c.sha, sha@)
            &&& opt_is(c.date, timestamp_text(seconds as int, written_offset(offset_minutes as int), date_format()))
            &&& opt_is(c.author, match author { Some(a) => a@, None => Seq::empty() })
            &&& opt_is(c.remote, remote_url@)
            &&& opt_is(c.clone, context.clone@)
            &&& opt_is(c.host, context.host@)
            &&& c.user is None
            &&& crate::text::chars_strictly_sorted(views(c.changes@))
            &&& forall|p: Seq<char>| #![trigger views(c.changes@).contains(p)]
                views(c.changes@).contains(p) <==> exists|i: int|
                    0 <= i < raw_changes@.len() && slashed(#[trigger] raw_changes@[i]@) == p
            &&& c.branches.local@ == local@
            &&& c.branches.remote@.len() == 0
        },
        formattable(seconds as int, written_offset(offset_minutes as int)) ==> r is Ok,
        r matches Err(e) ==> e matches Error::InvalidConfig(_),
{
    let date = format_git_time(seconds, offset_minutes)?;
    Ok(git_commit_record(sha, author, date, raw_changes, local, context, remote_url))
}

/// The store record of a commit only this clone has (reachable from one of
/// its branches, from no remote branch): its record from the git log (see
/// [`commit_from_git`]) stamped with the clone's full context, so that
/// other clones read it as this clone's unpushed work.
pub fn unpushed_commit(sha: String, author: Option<String>, seconds: i64, offset_minutes: i32, raw_changes: Vec<String>, local: Vec<String>, context: &Context, remote_url: &str) -> (r: Result<Commit, Error>)
    requires
        i32::MIN <= offset_minutes * 60 <= i32::MAX,
    ensures
        r matches Ok(c) ==> {
            &&& opt_is(c.sha, sha@)
            &&& opt_is(c.date, timestamp_text(seconds as int, written_offset(offset_minutes as int), date_format()))
            &&& opt_is(c.author, match author { Some(a) => a@, None => Seq::empty() })
            &&& opt_is(c.remote, remote_url@)
            &&& opt_is(c.clone, context.clone@)
            &&& opt_is(c.host, context.host@)
            &&& opt_is(c.user, context.user@)
            &&& crate::text::chars_strictly_sorted(views(c.changes@))
            &&& forall|p: Seq<char>| #![trigger views(c.changes@).contains(p)]
                views(c.changes@).contains(p) <==> exists|i: int|
                    0 <= i < raw_changes@.len() && slashed(#[trigger] raw_changes@[i]@) == p
            &&& c.branches.local@ == local@
            &&& c.branches.remote@.len() == 0
        },
        formattable(seconds as int, written_offset(offset_minutes as int)) ==> r is Ok,
        r matches Err(e) ==> e matches Error::InvalidConfig(_),
{
    let mut c = commit_from_git(sha, author, seconds, offset_minutes, raw_changes, local, context, remote_url)?;
    c.stamp_context(context);
    Ok(c)
}

} // verus!
