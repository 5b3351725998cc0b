//! `gitalong status`: the latest tracked commit of a file, and its status line.
use vstd::prelude::*;

use crate::commit::{spread_bits, Branches, Commit, CommitView};
use crate::repository::Context;
use crate::spread::{flag_names_upto, status_chars};
use crate::text::{
    chars_strictly_sorted, sorted_unique, join, joined, opt_le, opt_le_exec, opt_string_view, opt_view, push_str, seq_has,
    views,
};

verus! {

/// A file as the caller named it, with the latest commit affecting it (a
/// blank `Commit` when nothing applies).
#[derive(Debug, Clone)]
pub struct FileStatus {
    /// Filename as supplied by the caller, so that output matches input.
    pub filename: String,
    /// Latest commit touching the file, or a blank record when none.
    pub commit: Commit,
}

/// `s`, or `-` when absent.
pub open spec fn or_dash(o: Option<Seq<char>>) -> Seq<char> {
    match o {
        Some(s) => s,
        None => seq!['-'],
    }
}

/// `items` joined by commas, or `-` when there are none.
pub open spec fn csv_or_dash_chars(items: Seq<String>) -> Seq<char> {
    if items.len() == 0 {
        seq!['-']
    } else {
        joined(views(items), seq![','])
    }
}

/// The author of a commit, falling back to the issuing user.
pub open spec fn author_or_user(c: Commit) -> Option<Seq<char>> {
    if c.author is Some {
        opt_string_view(c.author)
    } else {
        opt_string_view(c.user)
    }
}

/// The status line of a file:
/// `<spread> <filename> <sha> <local-branches> <remote-branches> <host> <author>`,
/// with `-` for every absent field and comma-separated branch lists.
pub open spec fn status_line(status: FileStatus, active: Option<Seq<char>>, ctx: Context) -> Seq<
    char,
> {
    let c = status.commit;
    status_chars(spread_bits(c, active, ctx)) + seq![' '] + status.filename@ + seq![' ']
        + or_dash(opt_string_view(c.sha)) + seq![' '] + csv_or_dash_chars(c.branches.local@)
        + seq![' '] + csv_or_dash_chars(c.branches.remote@) + seq![' '] + or_dash(
        opt_string_view(c.host),
    ) + seq![' '] + or_dash(author_or_user(c))
}

/// `items` joined by commas, or `-` when there are none.
pub fn csv_or_dash(items: &Vec<String>) -> (out: String)
    ensures
        out@ == csv_or_dash_chars(items@),
{
    if items.len() == 0 {
        crate::text::single('-')
    } else {
        let sep = crate::text::single(',');
        join(items, sep.as_str())
    }
}

fn push_or_dash(out: &mut String, o: &Option<String>)
    ensures
        final(out)@ == old(out)@ + or_dash(opt_string_view(*o)),
{
    match o {
        Some(s) => push_str(out, s.as_str()),
        None => out.push('-'),
    }
}

/// Format a [`FileStatus`] as its status line (see [`status_line`]). A
/// blank commit yields `-------- <filename> - - - - -`.
pub fn format_status(status: &FileStatus, active_branch: Option<&str>, ctx: &Context) -> (line:
    String)
    ensures
        line@ == status_line(*status, opt_view(active_branch), *ctx),
{
    let c = &status.commit;
    let mut out = c.spread(active_branch, ctx).to_status_string();
    out.push(' ');
    push_str(&mut out, status.filename.as_str());
    out.push(' ');
    push_or_dash(&mut out, &c.sha);
    out.push(' ');
    let local = csv_or_dash(&c.branches.local);
    push_str(&mut out, local.as_str());
    out.push(' ');
    let remote = csv_or_dash(&c.branches.remote);
    push_str(&mut out, remote.as_str());
    out.push(' ');
    push_or_dash(&mut out, &c.host);
    out.push(' ');
    if c.author.is_some() {
        push_or_dash(&mut out, &c.author);
    } else {
        push_or_dash(&mut out, &c.user);
    }
    out
}

/// Machine-readable form of a [`FileStatus`].
///
/// `commit` is the record itself, absent when nothing applies (the text
/// form renders that as all dashes).
pub struct StatusRecord<'a> {
    pub filename: &'a str,
    pub spread: String,
    pub flags: Vec<&'static str>,
    pub commit: Option<&'a Commit>,
    /// Whether a claim was refused; set by `claim` only.
    pub blocked: Option<bool>,
}

/// Build the machine-readable record of a file status: the spread string,
/// the names of the set flags, and the commit unless it is blank.
pub fn status_record<'a>(status: &'a FileStatus, active_branch: Option<&str>, ctx: &Context) -> (r:
    StatusRecord<'a>)
    ensures
        r.filename@ == status.filename@,
        r.spread@ == status_chars(spread_bits(status.commit, opt_view(active_branch), *ctx)),
        r.flags@.map_values(|n: &'static str| n@) == flag_names_upto(
            spread_bits(status.commit, opt_view(active_branch), *ctx),
            8,
        ),
        r.commit is Some <==> !status.commit.is_blank(),
        r.commit is Some ==> *r.commit->0 == status.commit,
        r.blocked is None,
{
    let spread = status.commit.spread(active_branch, ctx);
    let commit = if status.commit.is_blank_exec() {
        None
    } else {
        Some(&status.commit)
    };
    StatusRecord {
        filename: status.filename.as_str(),
        spread: spread.to_status_string(),
        flags: spread.flag_names(),
        commit,
        blocked: None,
    }
}

/// `true` when the store record `c` takes part in the index: uncommitted
/// records count only when uncommitted changes are tracked.
pub open spec fn indexed(c: Commit, track_uncommitted: bool) -> bool {
    track_uncommitted || c.sha is Some
}

/// `true` when record `k` of `commits` takes part in the index and mentions `path`.
pub open spec fn mentions(commits: Seq<Commit>, track_uncommitted: bool, path: Seq<char>, k: int) -> bool {
    0 <= k < commits.len() && indexed(commits[k], track_uncommitted) && seq_has(
        commits[k].changes@,
        path,
    )
}

/// The date of record `k`.
pub open spec fn date_of(commits: Seq<Commit>, k: int) -> Option<Seq<char>> {
    opt_string_view(commits[k].date)
}

/// The record the index holds for `path` after reading the first `n`
/// records: a record replaces the one held so far when its date is not
/// older, so the result is the last of the newest records mentioning `path`.
pub open spec fn latest_upto(commits: Seq<Commit>, track_uncommitted: bool, path: Seq<char>, n: nat) -> Option<int>
    decreases n,
{
    if n == 0 {
        None
    } else {
        let prev = latest_upto(commits, track_uncommitted, path, (n - 1) as nat);
        if mentions(commits, track_uncommitted, path, n - 1) && (prev is None || opt_le(
            date_of(commits, prev->0),
            date_of(commits, n - 1),
        )) {
            Some(n - 1)
        } else {
            prev
        }
    }
}

/// The most recent store record per path, optionally skipping uncommitted
/// records when they are not tracked. The store has already narrowed the
/// records to this repository.
pub struct StoreIndex<'a> {
    commits: &'a Vec<Commit>,
    track_uncommitted: bool,
}

impl<'a> StoreIndex<'a> {
    /// The records the index reads.
    pub closed spec fn records(&self) -> Seq<Commit> {
        self.commits@
    }

    /// Whether uncommitted records take part.
    pub closed spec fn tracks_uncommitted(&self) -> bool {
        self.track_uncommitted
    }

    /// Index `commits`.
    pub fn new(commits: &'a Vec<Commit>, track_uncommitted: bool) -> (index: Self)
        ensures
            index.records() == commits@,
            index.tracks_uncommitted() == track_uncommitted,
    {
        StoreIndex { commits, track_uncommitted }
    }

    /// The latest record mentioning `rel_path` (see [`latest_upto`]), or
    /// `None` when no indexed record mentions it.
    pub fn latest(&self, rel_path: &str) -> (r: Option<&'a Commit>)
        ensures
            match latest_upto(self.records(), self.tracks_uncommitted(), rel_path@, self.records().len()) {
                Some(k) => r is Some && *r->0 == self.records()[k],
                None => r is None,
            },
    {
        let commits = self.commits;
        let mut found: Option<usize> = None;
        let mut i: usize = 0;
        while i < commits.len()
            invariant
                i <= commits@.len(),
                found == match latest_upto(commits@, self.track_uncommitted, rel_path@, i as nat) {
                    Some(k) => Some(k as usize),
                    None => None::<usize>,
                },
                forall|k: int| latest_upto(commits@, self.track_uncommitted, rel_path@, i as nat) == Some(k) ==> 0 <= k < i,
            decreases commits.len() - i,
        {
            let c = &commits[i];
            if self.track_uncommitted || c.sha.is_some() {
                if crate::text::contains_str(&c.changes, rel_path) {
                    let newer = match found {
                        None => true,
                        Some(k) => opt_le_exec(&commits[k].date, &c.date),
                    };
                    if newer {
                        found = Some(i);
                    }
                }
            }
            i = i + 1;
        }
        match found {
            Some(k) => Some(&commits[k]),
            None => None,
        }
    }
}

/// The store index answers, for every path, the newest record mentioning
/// it: there is an answer exactly when some indexed record mentions the
/// path; the answer mentions the path; no indexed record mentioning the path
/// is newer; and of several equally new records, the last one wins.
pub proof fn law_latest_is_newest(commits: Seq<Commit>, track_uncommitted: bool, path: Seq<char>, n: nat)
    requires
        n <= commits.len(),
    ensures
        latest_upto(commits, track_uncommitted, path, n) is Some <==> exists|j: int|
            0 <= j < n && #[trigger] mentions(commits, track_uncommitted, path, j),
        latest_upto(commits, track_uncommitted, path, n) matches Some(k) ==> {
            &&& 0 <= k < n
            &&& mentions(commits, track_uncommitted, path, k)
            &&& forall|j: int|
                0 <= j < n && #[trigger] mentions(commits, track_uncommitted, path, j) ==> opt_le(
                    date_of(commits, j),
                    date_of(commits, k),
                )
            &&& forall|j: int|
                k < j < n && #[trigger] mentions(commits, track_uncommitted, path, j) ==> !opt_le(
                    date_of(commits, k),
                    date_of(commits, j),
                )
        },
    decreases n,
{
    if n > 0 {
        let m = (n - 1) as nat;
        law_latest_is_newest(commits, track_uncommitted, path, m);
        let prev = latest_upto(commits, track_uncommitted, path, m);
        let last = n - 1;
        if mentions(commits, track_uncommitted, path, last) {
            crate::text::lemma_opt_le_total_preorder(
                date_of(commits, last),
                date_of(commits, last),
                date_of(commits, last),
            );
            if let Some(k) = prev {
                crate::text::lemma_opt_le_total_preorder(
                    date_of(commits, k),
                    date_of(commits, last),
                    date_of(commits, last),
                );
                if opt_le(date_of(commits, k), date_of(commits, last)) {
                    assert forall|j: int|
                        0 <= j < n && #[trigger] mentions(
                            commits,
                            track_uncommitted,
                            path,
                            j,
                        ) implies opt_le(date_of(commits, j), date_of(commits, last)) by {
                        if j < last {
                            crate::text::lemma_opt_le_total_preorder(
                                date_of(commits, j),
                                date_of(commits, k),
                                date_of(commits, last),
                            );
                        }
                    }
                }
            }
        }
    }
}

/// The paths whose latest commit git is asked for: of the repo-relative
/// paths `rels`, those whose status is followed (`watched`) and that no
/// indexed store record mentions, in order.
pub open spec fn pending_of(rels: Seq<String>, watched: Seq<bool>, records: Seq<Commit>, track_uncommitted: bool) -> Seq<Seq<char>>
    decreases rels.len(),
{
    if rels.len() == 0 {
        Seq::empty()
    } else {
        let prior = pending_of(rels.drop_last(), watched, records, track_uncommitted);
        let k = rels.len() - 1;
        if watched[k] && latest_upto(records, track_uncommitted, rels.last()@, records.len()) is None {
            prior.push(rels.last()@)
        } else {
            prior
        }
    }
}

/// The paths whose latest commit git is asked for (see [`pending_of`]).
pub fn pending_paths(rels: &Vec<String>, watched: &Vec<bool>, index: &StoreIndex) -> (out: Vec<String>)
    requires
        watched@.len() == rels@.len(),
    ensures
        views(out@) == pending_of(rels@, watched@, index.records(), index.tracks_uncommitted()),
{
    let mut out: Vec<String> = Vec::new();
    let mut i: usize = 0;
    while i < rels.len()
        invariant
            watched@.len() == rels@.len(),
            i <= rels@.len(),
            views(out@) == pending_of(rels@.subrange(0, i as int), watched@, index.records(), index.tracks_uncommitted()),
        decreases rels.len() - i,
    {
        let ghost before = views(out@);
        let missing = index.latest(rels[i].as_str()).is_none();
        proof {
            let now = rels@.subrange(0, i + 1);
            assert(now.drop_last() =~= rels@.subrange(0, i as int));
            assert(now.last() == rels@[i as int]);
        }
        if watched[i] && missing {
            out.push(rels[i].clone());
            assert(views(out@) =~= before.push(rels@[i as int]@));
        }
        i = i + 1;
    }
    assert(rels@.subrange(0, rels@.len() as int) =~= rels@);
    out
}

/// The paths git is asked about, as the walk over the git log starts with
/// them: each once, in [`crate::text::chars_le`] order.
pub fn walk_start(paths: Vec<String>) -> (p: Vec<String>)
    ensures
        chars_strictly_sorted(views(p@)),
        forall|x: Seq<char>| views(p@).contains(x) <==> views(paths@).contains(x),
{
    let ghost before = views(paths@);
    let out = sorted_unique(paths);
    proof {
        assert forall|x: Seq<char>| views(out@).contains(x) <==> before.contains(x) by {
            if views(out@).contains(x) {
                assert(exists|i: int| 0 <= i < paths@.len() && #[trigger] paths@[i]@ == x);
                let i = choose|i: int| 0 <= i < paths@.len() && #[trigger] paths@[i]@ == x;
                assert(before[i] == x);
            }
            if before.contains(x) {
                let i = choose|i: int| 0 <= i < before.len() && before[i] == x;
                assert(paths@[i]@ == x);
            }
        }
    }
    out
}

/// One commit of the walk: of the `pending` paths, those the commit changed
/// (`changed[i]` for `pending[i]`) and those still pending, each in order.
pub open spec fn step_split(pending: Seq<Seq<char>>, changed: Seq<bool>) -> (Seq<Seq<char>>, Seq<Seq<char>>)
    decreases pending.len(),
{
    if pending.len() == 0 {
        (Seq::empty(), Seq::empty())
    } else {
        let prior = step_split(pending.drop_last(), changed);
        if changed[pending.len() - 1] {
            (prior.0.push(pending.last()), prior.1)
        } else {
            (prior.0, prior.1.push(pending.last()))
        }
    }
}

/// One commit of the walk over the git log (see [`step_split`]): the
/// paths the commit `sha` changed, each paired with `sha`, and the paths
/// still pending.
pub fn walk_step(pending: Vec<String>, changed: &Vec<bool>, sha: &str) -> (r: (Vec<(String, String)>, Vec<String>))
    requires
        changed@.len() == pending@.len(),
    ensures
        r.0@.len() == step_split(views(pending@), changed@).0.len(),
        forall|k: int| 0 <= k < r.0@.len() ==> {
            &&& (#[trigger] r.0@[k]).0@ == step_split(views(pending@), changed@).0[k]
            &&& r.0@[k].1@ == sha@
        },
        views(r.1@) == step_split(views(pending@), changed@).1,
{
    let mut found: Vec<(String, String)> = Vec::new();
    let mut rest: Vec<String> = Vec::new();
    let mut i: usize = 0;
    while i < pending.len()
        invariant
            changed@.len() == pending@.len(),
            i <= pending@.len(),
            found@.len() == step_split(views(pending@.subrange(0, i as int)), changed@).0.len(),
            forall|k: int| 0 <= k < found@.len() ==> {
                &&& (#[trigger] found@[k]).0@ == step_split(views(pending@.subrange(0, i as int)), changed@).0[k]
                &&& found@[k].1@ == sha@
            },
            views(rest@) == step_split(views(pending@.subrange(0, i as int)), changed@).1,
        decreases pending.len() - i,
    {
        let ghost pre = views(pending@.subrange(0, i as int));
        let ghost next = views(pending@.subrange(0, i + 1));
        assert(next.drop_last() =~= pre);
        assert(next.last() == pending@[i as int]@);
        assert(next.len() - 1 == i);
        let ghost before_rest = views(rest@);
        if changed[i] {
            found.push((pending[i].clone(), sha.to_owned()));
        } else {
            rest.push(pending[i].clone());
            assert(views(rest@) =~= before_rest.push(pending@[i as int]@));
        }
        i = i + 1;
    }
    assert(pending@.subrange(0, pending@.len() as int) =~= pending@);
    (found, rest)
}

/// A step's split is the filter by the set of paths the commit changed,
/// when its flags tell that set.
pub proof fn lemma_step_is_filter(pending: Seq<Seq<char>>, changed: Seq<bool>, set: Set<Seq<char>>)
    requires
        changed.len() >= pending.len(),
        forall|i: int| 0 <= i < pending.len() ==> changed[i] == set.contains(#[trigger] pending[i]),
    ensures
        step_split(pending, changed).0 == pending.filter(|p: Seq<char>| set.contains(p)),
        step_split(pending, changed).1 == pending.filter(|p: Seq<char>| !set.contains(p)),
    decreases pending.len(),
{
    reveal_with_fuel(Seq::filter, 1);
    if pending.len() > 0 {
        lemma_step_is_filter(pending.drop_last(), changed, set);
        assert(changed[pending.len() - 1] == set.contains(pending[pending.len() - 1]));
    }
}

/// The walk over the git log, newest commit first: `changes[k]` is the set
/// of paths the `k`-th commit changed. Each commit from `k` on finds the
/// pending paths it changed, which are paired with the commit's position
/// and no longer pending.
pub open spec fn walk_from(pending: Seq<Seq<char>>, changes: Seq<Set<Seq<char>>>, k: nat) -> Seq<(Seq<char>, int)>
    decreases changes.len() - k,
{
    if k >= changes.len() || pending.len() == 0 {
        Seq::empty()
    } else {
        pending.filter(|p: Seq<char>| changes[k as int].contains(p)).map_values(|p: Seq<char>| (p, k as int))
            + walk_from(pending.filter(|p: Seq<char>| !changes[k as int].contains(p)), changes, k + 1)
    }
}

proof fn lemma_filter_has(s: Seq<Seq<char>>, pred: spec_fn(Seq<char>) -> bool, x: Seq<char>)
    ensures
        s.filter(pred).contains(x) <==> s.contains(x) && pred(x),
{
    if s.filter(pred).contains(x) {
        s.lemma_filter_contains_rev(pred, x);
        let i = choose|i: int| 0 <= i < s.filter(pred).len() && s.filter(pred)[i] == x;
        s.lemma_filter_pred(pred, i);
    }
    if s.contains(x) && pred(x) {
        let i = choose|i: int| 0 <= i < s.len() && s[i] == x;
        s.lemma_filter_contains(pred, i);
    }
}

proof fn lemma_filter_no_dup(s: Seq<Seq<char>>, pred: spec_fn(Seq<char>) -> bool)
    requires
        s.no_duplicates(),
    ensures
        s.filter(pred).no_duplicates(),
    decreases s.len(),
{
    reveal_with_fuel(Seq::filter, 1);
    if s.len() > 0 {
        let d = s.drop_last();
        assert(d.no_duplicates());
        lemma_filter_no_dup(d, pred);
        if pred(s.last()) {
            let f = d.filter(pred);
            assert forall|a: int, b: int| 0 <= a < b < f.push(s.last()).len() implies f.push(s.last())[a] != f.push(s.last())[b] by {
                if b == f.len() {
                    lemma_filter_has(d, pred, f[a]);
                    assert(f.contains(f[a]));
                    if f[a] == s.last() {
                        let i = choose|i: int| 0 <= i < d.len() && d[i] == s.last();
                        assert(s[i] == s[s.len() - 1]);
                    }
                }
            }
        }
    }
}

/// The walk over the git log finds each path at the first commit that
/// changed it, and nowhere else: `(p, j)` is found exactly when `p` was
/// pending and commit `j` is the first from `k` on to change `p`; and when
/// no path is pending twice, no path is found twice.
pub proof fn law_walk_finds_first_change(pending: Seq<Seq<char>>, changes: Seq<Set<Seq<char>>>, k: nat)
    ensures
        forall|p: Seq<char>, j: int| #[trigger] walk_from(pending, changes, k).contains((p, j)) <==> {
            &&& pending.contains(p)
            &&& k <= j < changes.len()
            &&& changes[j].contains(p)
            &&& forall|i: int| k <= i < j ==> !(#[trigger] changes[i]).contains(p)
        },
        pending.no_duplicates() ==> forall|a: int, b: int|
            0 <= a < b < walk_from(pending, changes, k).len() ==> (#[trigger] walk_from(pending, changes, k)[a]).0
                != (#[trigger] walk_from(pending, changes, k)[b]).0,
    decreases changes.len() - k,
{
    if k >= changes.len() || pending.len() == 0 {
        assert forall|p: Seq<char>, j: int| #[trigger] walk_from(pending, changes, k).contains((p, j)) <==> {
            &&& pending.contains(p)
            &&& k <= j < changes.len()
            &&& changes[j].contains(p)
            &&& forall|i: int| k <= i < j ==> !(#[trigger] changes[i]).contains(p)
        } by {}
    } else {
        let now = changes[k as int];
        let hit = |p: Seq<char>| now.contains(p);
        let miss = |p: Seq<char>| !now.contains(p);
        let hits = pending.filter(hit);
        let rest = pending.filter(miss);
        let front = hits.map_values(|p: Seq<char>| (p, k as int));
        let back = walk_from(rest, changes, k + 1);
        law_walk_finds_first_change(rest, changes, k + 1);
        assert(walk_from(pending, changes, k) == front + back);
        assert forall|p: Seq<char>, j: int| #[trigger] walk_from(pending, changes, k).contains((p, j)) <==> {
            &&& pending.contains(p)
            &&& k <= j < changes.len()
            &&& changes[j].contains(p)
            &&& forall|i: int| k <= i < j ==> !(#[trigger] changes[i]).contains(p)
        } by {
            lemma_filter_has(pending, hit, p);
            lemma_filter_has(pending, miss, p);
            let w = front + back;
            if w.contains((p, j)) {
                let t = choose|t: int| 0 <= t < w.len() && w[t] == (p, j);
                if t < front.len() {
                    assert(front[t] == (hits[t], k as int));
                    assert(hits.contains(hits[t]));
                } else {
                    assert(back[t - front.len()] == (p, j));
                    assert(back.contains((p, j)));
                }
            }
            if pending.contains(p) && k <= j < changes.len() && changes[j].contains(p)
                && forall|i: int| k <= i < j ==> !(#[trigger] changes[i]).contains(p) {
                if j == k {
                    let t = choose|t: int| 0 <= t < hits.len() && hits[t] == p;
                    assert(front[t] == (p, j));
                    assert(w[t] == (p, j));
                } else {
                    assert(!changes[k as int].contains(p));
                    assert(rest.contains(p));
                    assert(back.contains((p, j)));
                    let t = choose|t: int| 0 <= t < back.len() && back[t] == (p, j);
                    assert(w[front.len() + t] == (p, j));
                }
            }
        }
        if pending.no_duplicates() {
            lemma_filter_no_dup(pending, hit);
            lemma_filter_no_dup(pending, miss);
            let w = front + back;
            assert forall|a: int, b: int| 0 <= a < b < w.len() implies (#[trigger] w[a]).0 != (#[trigger] w[b]).0 by {
                if b < front.len() {
                    assert(w[a] == front[a] && front[a] == (hits[a], k as int));
                    assert(w[b] == front[b] && front[b] == (hits[b], k as int));
                    assert(hits[a] != hits[b]);
                } else if a < front.len() {
                    assert(w[a] == front[a] && front[a] == (hits[a], k as int));
                    lemma_filter_has(pending, hit, hits[a]);
                    assert(hits.contains(hits[a]));
                    assert(now.contains(hits[a]));
                    let e = back[b - front.len()];
                    assert(w[b] == e);
                    assert(back.contains(e));
                    assert(e == (e.0, e.1));
                    assert(walk_from(rest, changes, k + 1).contains((e.0, e.1)));
                    assert(rest.contains(e.0));
                    lemma_filter_has(pending, miss, e.0);
                    assert(!now.contains(e.0));
                } else {
                    assert(w[a] == back[a - front.len()] && w[b] == back[b - front.len()]);
                    assert(back[a - front.len()].0 != back[b - front.len()].0);
                }
            }
        }
    }
}

/// A step of the walk is a step of [`walk_from`]: when the flags of a
/// commit tell which pending paths it changed, the paths [`walk_step`]
/// finds at position `k`, followed by the walk of the paths it leaves
/// pending from `k + 1` on, are the walk from `k`.
pub proof fn law_walk_step_advances(pending: Seq<Seq<char>>, changed: Seq<bool>, changes: Seq<Set<Seq<char>>>, k: nat)
    requires
        k < changes.len(),
        pending.len() > 0,
        changed.len() == pending.len(),
        forall|i: int| 0 <= i < pending.len() ==> changed[i] == changes[k as int].contains(#[trigger] pending[i]),
    ensures
        walk_from(pending, changes, k) == step_split(pending, changed).0.map_values(|p: Seq<char>| (p, k as int))
            + walk_from(step_split(pending, changed).1, changes, k + 1),
{
    lemma_step_is_filter(pending, changed, changes[k as int]);
}

/// The status of each file asked about, one per file and in the order
/// asked: `files[i]` with `commits[i]`.
pub fn file_statuses(files: &Vec<String>, commits: &Vec<Commit>) -> (out: Vec<FileStatus>)
    requires
        commits@.len() == files@.len(),
    ensures
        out@.len() == files@.len(),
        forall|i: int| 0 <= i < files@.len() ==> {
            &&& (#[trigger] out@[i]).filename@ == files@[i]@
            &&& out@[i].commit@ == commits@[i]@
        },
{
    let mut out: Vec<FileStatus> = Vec::new();
    let mut i: usize = 0;
    while i < files.len()
        invariant
            commits@.len() == files@.len(),
            i <= files@.len(),
            out@.len() == i,
            forall|j: int| 0 <= j < i ==> {
                &&& (#[trigger] out@[j]).filename@ == files@[j]@
                &&& out@[j].commit@ == commits@[j]@
            },
        decreases files.len() - i,
    {
        out.push(FileStatus { filename: files[i].clone(), commit: commits[i].duplicate() });
        i = i + 1;
    }
    out
}

/// A commit after filling in its branches from this clone: `here_local`
/// and `here_remote` are the local and remote branches of this clone that
/// contain its sha. Uncommitted records stay as they are. A published
/// record whose commit has since reached a remote branch here reads as a
/// plain remote commit: its issuer and stored branches are dropped. Branch
/// lists the record does not carry are filled in from this clone.
pub open spec fn enriched(c: CommitView, here_local: Seq<Seq<char>>, here_remote: Seq<Seq<char>>) -> CommitView {
    if c.sha is None {
        c
    } else {
        let demoted = c.user is Some && here_remote.len() > 0;
        let base = if demoted {
            CommitView {
                host: None,
                user: None,
                clone: None,
                local: Seq::empty(),
                remote_branches: Seq::empty(),
                ..c
            }
        } else {
            c
        };
        CommitView {
            local: if base.local.len() == 0 { here_local } else { base.local },
            remote_branches: if base.remote_branches.len() == 0 { here_remote } else { base.remote_branches },
            ..base
        }
    }
}

/// Fill in a commit's branches from this clone (see [`enriched`]).
pub fn enrich_branches(commit: Commit, here: &Branches) -> (out: Commit)
    ensures
        out@ == enriched(commit@, views(here.local@), views(here.remote@)),
{
    let mut commit = commit;
    if commit.sha.is_none() {
        return commit;
    }
    if commit.user.is_some() && here.remote.len() > 0 {
        commit.host = None;
        commit.user = None;
        commit.clone = None;
        commit.branches = Branches::default();
    }
    if commit.branches.local.len() == 0 {
        commit.branches.local = crate::text::copy_strings(&here.local);
    }
    if commit.branches.remote.len() == 0 {
        commit.branches.remote = crate::text::copy_strings(&here.remote);
    }
    commit
}

/// The commit a file's status reports: nothing for a file whose status is
/// not tracked (`watched`; see [`crate::repository::tracked_file`]), otherwise the
/// store's latest record for it, or else the latest commit of the git log
/// touching it, or else nothing.
pub fn status_commit(watched: bool, from_store: Option<&Commit>, from_git: Option<&Commit>) -> (c: Commit)
    ensures
        !watched ==> c.is_blank(),
        watched && from_store is Some ==> c@ == from_store->0@,
        watched && from_store is None && from_git is Some ==> c@ == from_git->0@,
        watched && from_store is None && from_git is None ==> c.is_blank(),
{
    if !watched {
        return Commit::default();
    }
    match from_store {
        Some(c) => c.duplicate(),
        None => match from_git {
            Some(c) => c.duplicate(),
            None => Commit::default(),
        },
    }
}

/// A published record whose commit this clone's remote branches hold reads
/// as a plain public commit: its issuer (user, host, clone) is dropped and
/// its branches are this clone's; a commit with a sha never reads as
/// someone's unpushed work once a remote branch here holds it. A record no remote branch here holds keeps its issuer,
/// and a record without a sha is left as it is.
pub proof fn law_pushed_record_reads_as_public(c: CommitView, here_local: Seq<Seq<char>>, here_remote: Seq<Seq<char>>)
    ensures
        c.sha is Some && here_remote.len() > 0 ==> {
            let e = enriched(c, here_local, here_remote);
            &&& e.user is None
            &&& (c.user is Some ==> e.host is None && e.clone is None)
            &&& (c.user is Some ==> e.local == here_local && e.remote_branches == here_remote)
            &&& e.sha == c.sha
            &&& e.changes == c.changes
        },
        c.sha is Some && here_remote.len() == 0 ==> {
            let e = enriched(c, here_local, here_remote);
            &&& e.user == c.user
            &&& e.host == c.host
            &&& e.clone == c.clone
        },
        c.sha is None ==> enriched(c, here_local, here_remote) == c,
{
}

} // verus!
