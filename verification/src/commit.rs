//! Tracked commit records.
//!
//! A [`Commit`] is either a real commit (it carries a `sha` and an `author`)
//! or an uncommitted-changes record (no `sha`, only the issuing clone's
//! context and the dirty paths). Records written to the store carry the
//! issuing clone's `host`, `user` and `clone`, so readers can tell whose
//! unpushed work they are.
use vstd::prelude::*;

use crate::repository::Context;
use crate::spread::{flag_bit, CommitSpread};
use crate::text::{
    contains_str, copy_opt, copy_strings, opt_eq, opt_is, opt_string_view, opt_view, seq_has, views,
};

verus! {

/// Local and remote branch lists a commit belongs to.
#[derive(Debug, Clone, PartialEq, Eq)]
pub struct Branches {
    pub local: Vec<String>,
    pub remote: Vec<String>,
}

/// A single tracked commit (real or uncommitted-changes record).
#[derive(Debug, Clone, PartialEq, Eq)]
pub struct Commit {
    /// Real commit SHA. Absent for uncommitted-changes records.
    pub sha: Option<String>,
    /// OS username of the issuing clone; present on every record published
    /// by a clone, absent on commits read straight from the git log.
    pub user: Option<String>,
    /// Host name of the issuing clone.
    pub host: Option<String>,
    /// Canonical working-tree path of the issuing clone.
    pub clone: Option<String>,
    /// Remote URL of the managed repository.
    pub remote: Option<String>,
    /// Commit date, `YYYY-MM-DD HH:MM:SS+HH:MM`.
    pub date: Option<String>,
    /// Author name (real commits only).
    pub author: Option<String>,
    /// Files this commit modified, as repo-relative paths.
    pub changes: Vec<String>,
    /// Branch membership of this commit.
    pub branches: Branches,
}

/// The mathematical value of a [`Commit`]: its fields as character
/// sequences.
pub struct CommitView {
    pub sha: Option<Seq<char>>,
    pub user: Option<Seq<char>>,
    pub host: Option<Seq<char>>,
    pub clone: Option<Seq<char>>,
    pub remote: Option<Seq<char>>,
    pub date: Option<Seq<char>>,
    pub author: Option<Seq<char>>,
    pub changes: Seq<Seq<char>>,
    pub local: Seq<Seq<char>>,
    pub remote_branches: Seq<Seq<char>>,
}

impl View for Commit {
    type V = CommitView;

    open spec fn view(&self) -> CommitView {
        CommitView {
            sha: opt_string_view(self.sha),
            user: opt_string_view(self.user),
            host: opt_string_view(self.host),
            clone: opt_string_view(self.clone),
            remote: opt_string_view(self.remote),
            date: opt_string_view(self.date),
            author: opt_string_view(self.author),
            changes: views(self.changes@),
            local: views(self.branches.local@),
            remote_branches: views(self.branches.remote@),
        }
    }
}

/// The views of a sequence of records.
pub open spec fn commit_views(s: Seq<Commit>) -> Seq<CommitView> {
    s.map_values(|c: Commit| c@)
}

impl Default for Branches {
    fn default() -> (b: Self)
        ensures
            b.local@.len() == 0,
            b.remote@.len() == 0,
    {
        Branches { local: Vec::new(), remote: Vec::new() }
    }
}

impl Default for Commit {
    fn default() -> (c: Self)
        ensures
            c.is_blank(),
    {
        Commit {
            sha: None,
            user: None,
            host: None,
            clone: None,
            remote: None,
            date: None,
            author: None,
            changes: Vec::new(),
            branches: Branches::default(),
        }
    }
}

impl Branches {
    /// `true` when the commit is on no local and no remote branch.
    pub fn is_empty(&self) -> (b: bool)
        ensures
            b == (self.local@.len() == 0 && self.remote@.len() == 0),
    {
        self.local.len() == 0 && self.remote.len() == 0
    }

    /// A copy of these branch lists.
    pub fn duplicate(&self) -> (b: Self)
        ensures
            b.local@ == self.local@,
            b.remote@ == self.remote@,
    {
        Branches { local: copy_strings(&self.local), remote: copy_strings(&self.remote) }
    }
}

/// `true` when `c` was issued by the clone `ctx` according to its full
/// host/user/clone context.
pub open spec fn issued_by(c: Commit, ctx: Context) -> bool {
    &&& opt_is(c.host, ctx.host@)
    &&& opt_is(c.user, ctx.user@)
    &&& opt_is(c.clone, ctx.clone@)
}

/// The flags of `c` relative to the active branch and the clone `ctx`.
///
/// Records with a `user` are someone's unpushed work: an uncommitted record
/// is this clone's or another clone's uncommitted changes; a real one is on
/// the issuer's active (matching) branch when the issuer's local branches
/// include the active branch, and on another branch otherwise. Commits read
/// from the git log (no `user`) are public: they light the remote flags of
/// their remote branches, plus this clone's active branch when that branch
/// contains them.
pub open spec fn spread_bits(c: Commit, active: Option<Seq<char>>, ctx: Context) -> u8 {
    if c.user is Some {
        let issued = issued_by(c, ctx);
        if c.sha is Some {
            let on_active = active is Some && seq_has(c.branches.local@, active->0);
            if on_active {
                if issued { flag_bit(1) } else { flag_bit(6) }
            } else {
                if issued { flag_bit(2) } else { flag_bit(5) }
            }
        } else {
            if issued { flag_bit(0) } else { flag_bit(7) }
        }
    } else {
        let matching = active is Some && seq_has(c.branches.remote@, active->0);
        let on_active = active is Some && seq_has(c.branches.local@, active->0);
        let other = if active is Some {
            exists|i: int|
                0 <= i < c.branches.remote@.len() && #[trigger] c.branches.remote@[i]@ != active->0
        } else {
            c.branches.remote@.len() > 0
        };
        (if matching { flag_bit(3) } else { 0u8 }) | (if on_active { flag_bit(1) } else { 0u8 }) | (
        if other { flag_bit(4) } else { 0u8 })
    }
}

impl Commit {
    /// `true` when every field is absent or empty, as in `Commit::default()`.
    pub open spec fn is_blank(self) -> bool {
        &&& self.sha is None
        &&& self.user is None
        &&& self.host is None
        &&& self.clone is None
        &&& self.remote is None
        &&& self.date is None
        &&& self.author is None
        &&& self.changes@.len() == 0
        &&& self.branches.local@.len() == 0
        &&& self.branches.remote@.len() == 0
    }

    /// A copy of this record.
    pub fn duplicate(&self) -> (c: Self)
        ensures
            c@ == self@,
            c.sha == self.sha,
            c.user == self.user,
            c.host == self.host,
            c.clone == self.clone,
            c.remote == self.remote,
            c.date == self.date,
            c.author == self.author,
            c.changes@ == self.changes@,
            c.branches.local@ == self.branches.local@,
            c.branches.remote@ == self.branches.remote@,
    {
        Commit {
            sha: copy_opt(&self.sha),
            user: copy_opt(&self.user),
            host: copy_opt(&self.host),
            clone: copy_opt(&self.clone),
            remote: copy_opt(&self.remote),
            date: copy_opt(&self.date),
            author: copy_opt(&self.author),
            changes: copy_strings(&self.changes),
            branches: self.branches.duplicate(),
        }
    }

    /// `true` when this record represents uncommitted changes rather than a
    /// real commit.
    pub fn is_uncommitted_changes(&self) -> (b: bool)
        ensures
            b == (self.sha is None),
    {
        self.sha.is_none()
    }

    /// `true` when every field is absent or empty.
    pub fn is_blank_exec(&self) -> (b: bool)
        ensures
            b == self.is_blank(),
    {
        self.sha.is_none() && self.user.is_none() && self.host.is_none() && self.clone.is_none()
            && self.remote.is_none() && self.date.is_none() && self.author.is_none()
            && self.changes.len() == 0 && self.branches.is_empty()
    }

    /// `true` when this record was contributed by the clone `ctx`, identified
    /// by the canonical working-tree path stored in `clone`.
    pub fn is_ours(&self, ctx: &Context) -> (b: bool)
        ensures
            b == opt_is(self.clone, ctx.clone@),
    {
        opt_eq(&self.clone, &ctx.clone)
    }

    /// `true` when this record carries the full host/user/clone context of
    /// the clone `ctx`.
    pub fn is_issued_by(&self, ctx: &Context) -> (b: bool)
        ensures
            b == issued_by(*self, *ctx),
    {
        opt_eq(&self.host, &ctx.host) && opt_eq(&self.user, &ctx.user) && opt_eq(
            &self.clone,
            &ctx.clone,
        )
    }

    /// Stamp this record with the identity context `ctx`; every other field
    /// is left as it was.
    pub fn stamp_context(&mut self, ctx: &Context)
        ensures
            opt_is(final(self).host, ctx.host@),
            opt_is(final(self).user, ctx.user@),
            opt_is(final(self).clone, ctx.clone@),
            final(self).sha == old(self).sha,
            final(self).remote == old(self).remote,
            final(self).date == old(self).date,
            final(self).author == old(self).author,
            final(self).changes == old(self).changes,
            final(self).branches == old(self).branches,
    {
        self.host = Some(ctx.host.clone());
        self.user = Some(ctx.user.clone());
        self.clone = Some(ctx.clone.clone());
    }

    /// The [`CommitSpread`] of this record relative to the active branch and
    /// the clone `ctx` (see [`spread_bits`]).
    pub fn spread(&self, active_branch: Option<&str>, ctx: &Context) -> (s: CommitSpread)
        ensures
            s.spec_bits() == spread_bits(*self, opt_view(active_branch), *ctx),
    {
        if self.user.is_some() {
            let issued = self.is_issued_by(ctx);
            if self.sha.is_some() {
                let on_active = match active_branch {
                    Some(ab) => contains_str(&self.branches.local, ab),
                    None => false,
                };
                if on_active {
                    if issued {
                        CommitSpread::mine_active_branch()
                    } else {
                        CommitSpread::their_matching_branch()
                    }
                } else if issued {
                    CommitSpread::mine_other_branch()
                } else {
                    CommitSpread::their_other_branch()
                }
            } else if issued {
                CommitSpread::mine_uncommitted()
            } else {
                CommitSpread::their_uncommitted()
            }
        } else {
            let remote = &self.branches.remote;
            let mut matching = false;
            let mut on_active = false;
            let mut other = false;
            match active_branch {
                Some(active) => {
                    matching = contains_str(remote, active);
                    on_active = contains_str(&self.branches.local, active);
                    let active_chars = crate::text::chars_of(active);
                    let mut i: usize = 0;
                    while i < remote.len()
                        invariant
                            active_chars@ == active@,
                            i <= remote@.len(),
                            other == exists|j: int|
                                0 <= j < i && #[trigger] remote@[j]@ != active@,
                        decreases remote.len() - i,
                    {
                        let here = crate::text::chars_of(remote[i].as_str());
                        if !crate::text::chars_eq(&here, &active_chars) {
                            other = true;
                        }
                        i = i + 1;
                    }
                },
                None => {
                    other = remote.len() > 0;
                },
            }
            let mb: u8 = if matching { 8 } else { 0 };
            let lb: u8 = if on_active { 2 } else { 0 };
            let ob: u8 = if other { 16 } else { 0 };
            CommitSpread::from_bits(mb | lb | ob)
        }
    }
}

/// A record some clone published (it carries a `user`) lives in exactly
/// one scope: its spread is a single flag among this clone's or another
/// clone's uncommitted changes, active or matching branch, or other branch.
pub proof fn law_published_record_has_one_scope(c: Commit, active: Option<Seq<char>>, ctx: Context)
    requires
        c.user is Some,
    ensures
        ({
            let b = spread_bits(c, active, ctx);
            b == flag_bit(0) || b == flag_bit(1) || b == flag_bit(2) || b == flag_bit(5) || b
                == flag_bit(6) || b == flag_bit(7)
        }),
{
}

/// A commit read from the git log (no `user`) is public: it never lights an
/// uncommitted flag, this clone's other branches, or another clone's
/// branches.
pub proof fn law_public_commit_lights_no_clone_scope(c: Commit, active: Option<Seq<char>>, ctx: Context)
    requires
        c.user is None,
    ensures
        spread_bits(c, active, ctx) & 0b1110_0101u8 == 0,
{
    let m: u8 = if active is Some && seq_has(c.branches.remote@, active->0) { 8u8 } else { 0u8 };
    let l: u8 = if active is Some && seq_has(c.branches.local@, active->0) { 2u8 } else { 0u8 };
    assert((m == 8u8 || m == 0u8) && (l == 2u8 || l == 0u8) ==> ((m | l | 16u8) & 0b1110_0101u8 == 0 && (m | l | 0u8) & 0b1110_0101u8 == 0)) by (bit_vector);
}

/// A record is this clone's only when it carries this clone's host, user
/// and working-tree path: another clone of the same user on the same
/// machine is another clone.
pub proof fn law_issued_needs_full_context(c: Commit, ctx: Context)
    ensures
        issued_by(c, ctx) ==> opt_is(c.clone, ctx.clone@) && opt_is(c.host, ctx.host@) && opt_is(
            c.user,
            ctx.user@,
        ),
{
}

/// A published record from another working tree never reads as this
/// clone's: it lights one of the other clones' flags (their other branch,
/// their matching branch or their uncommitted changes), whatever its host
/// and user.
pub proof fn law_other_clone_records_are_theirs(c: Commit, active: Option<Seq<char>>, ctx: Context)
    requires
        c.user is Some,
        !opt_is(c.clone, ctx.clone@),
    ensures
        spread_bits(c, active, ctx) == 32u8 || spread_bits(c, active, ctx) == 64u8 || spread_bits(c, active, ctx)
            == 128u8,
{
}

} // verus!
