//! `gitalong claim`: which files this clone may claim.
//!
//! A file is unblocked when nothing holds it (an empty spread) or when what
//! holds it is already this clone's: its active branch or its uncommitted
//! changes. Any other spread means another clone or branch holds the file
//! and the claim is blocked by the record that holds it.
use vstd::prelude::*;

use crate::commit::{issued_by, spread_bits, Commit};
use crate::operations::status::FileStatus;
use crate::repository::Context;
use crate::spread::flag_bit;
use crate::text::{opt_view, seq_has};

verus! {

/// Per-file result of a claim attempt.
pub struct ClaimOutcome {
    /// File the user asked about, verbatim.
    pub filename: String,
    /// The record blocking the claim; a blank record when the claim is
    /// allowed (printed as all dashes).
    pub blocker: Commit,
}

/// `true` when a claim on a file whose latest record has the spread `bits`
/// goes through.
pub open spec fn unblocked(bits: u8) -> bool {
    bits & flag_bit(1) != 0 || bits & flag_bit(0) != 0 || bits == 0
}

/// Whether a claim on a file with this status goes through.
pub fn claim_allowed(status: &FileStatus, active_branch: Option<&str>, ctx: &Context) -> (ok: bool)
    ensures
        ok == unblocked(spread_bits(status.commit, opt_view(active_branch), *ctx)),
{
    let spread = status.commit.spread(active_branch, ctx);
    spread.intersects(crate::spread::CommitSpread::mine_active_branch()) || spread.intersects(
        crate::spread::CommitSpread::mine_uncommitted(),
    ) || spread.is_empty()
}

/// Decide every claim: one outcome per status, in order, and the statuses
/// whose claims go through (their indices, in order).
pub fn decide_claims(statuses: Vec<FileStatus>, active_branch: Option<&str>, ctx: &Context) -> (r: (Vec<ClaimOutcome>, Vec<usize>))
    ensures
        r.0@.len() == statuses@.len(),
        forall|i: int| 0 <= i < statuses@.len() ==> {
            &&& (#[trigger] r.0@[i]).filename == statuses@[i].filename
            &&& if unblocked(spread_bits(statuses@[i].commit, opt_view(active_branch), *ctx)) {
                r.0@[i].blocker.is_blank()
            } else {
                r.0@[i].blocker == statuses@[i].commit
            }
        },
        forall|k: int| 0 <= k < r.1@.len() ==> (#[trigger] r.1@[k]) < statuses@.len(),
        forall|k: int, l: int| 0 <= k < l < r.1@.len() ==> #[trigger] r.1@[k] < #[trigger] r.1@[l],
        forall|i: int| 0 <= i < statuses@.len() ==> (r.1@.contains(i as usize) <==> unblocked(
            spread_bits(#[trigger] statuses@[i].commit, opt_view(active_branch), *ctx),
        )),
{
    let mut outcomes: Vec<ClaimOutcome> = Vec::new();
    let mut allowed: Vec<usize> = Vec::new();
    let mut statuses = statuses;
    let ghost all = statuses@;
    let n = statuses.len();
    let mut rest: Vec<FileStatus> = Vec::new();
    while statuses.len() > 0
        invariant
            statuses@.len() + rest@.len() == n,
            n == all.len(),
            statuses@ == all.subrange(0, statuses@.len() as int),
            forall|j: int| 0 <= j < rest@.len() ==> #[trigger] rest@[j] == all[n - 1 - j],
        decreases statuses.len(),
    {
        let ghost before = statuses@;
        let s = statuses.pop().unwrap();
        assert(s == all[statuses@.len() as int]);
        assert(statuses@ =~= all.subrange(0, statuses@.len() as int));
        rest.push(s);
    }
    let mut i: usize = 0;
    while i < n
        invariant
            n == all.len(),
            rest@.len() == n - i,
            forall|j: int| 0 <= j < rest@.len() ==> #[trigger] rest@[j] == all[n - 1 - j],
            i <= n,
            outcomes@.len() == i,
            forall|j: int| 0 <= j < i ==> {
                &&& (#[trigger] outcomes@[j]).filename == all[j].filename
                &&& if unblocked(spread_bits(all[j].commit, opt_view(active_branch), *ctx)) {
                    outcomes@[j].blocker.is_blank()
                } else {
                    outcomes@[j].blocker == all[j].commit
                }
            },
            forall|k: int| 0 <= k < allowed@.len() ==> (#[trigger] allowed@[k]) < i,
            forall|k: int, l: int| 0 <= k < l < allowed@.len() ==> #[trigger] allowed@[k] < #[trigger] allowed@[l],
            forall|j: int| 0 <= j < i ==> (allowed@.contains(j as usize) <==> unblocked(
                spread_bits(#[trigger] all[j].commit, opt_view(active_branch), *ctx),
            )),
        decreases n - i,
    {
        assert(rest@.len() > 0);
        let ghost prev_rest = rest@;
        let s = rest.pop().unwrap();
        assert(s == all[i as int]);
        assert(prev_rest[n - i - 1] == all[i as int]);
        proof {
            assert forall|j: int| 0 <= j < rest@.len() implies #[trigger] rest@[j] == all[n - 1 - j] by {
                assert(rest@[j] == prev_rest[j]);
            }
        }
        let ok = claim_allowed(&s, active_branch, ctx);
        let ghost prev_allowed = allowed@;
        if ok {
            allowed.push(i);
            outcomes.push(ClaimOutcome { filename: s.filename, blocker: Commit::default() });
        } else {
            outcomes.push(ClaimOutcome { filename: s.filename, blocker: s.commit });
        }
        proof {
            assert forall|j: int| 0 <= j < i + 1 implies (allowed@.contains(j as usize) <==> unblocked(
                spread_bits(#[trigger] all[j].commit, opt_view(active_branch), *ctx),
            )) by {
                if j < i {
                    if ok {
                        assert(allowed@ == prev_allowed.push(i));
                        if allowed@.contains(j as usize) {
                            let t = choose|t: int| 0 <= t < allowed@.len() && allowed@[t] == j as usize;
                            if t < prev_allowed.len() {
                                assert(prev_allowed[t] == j as usize);
                            }
                        }
                        if prev_allowed.contains(j as usize) {
                            let t = choose|t: int| 0 <= t < prev_allowed.len() && prev_allowed[t] == j as usize;
                            assert(allowed@[t] == j as usize);
                        }
                    }
                } else {
                    if ok {
                        assert(allowed@[allowed@.len() - 1] == i);
                    } else {
                        if allowed@.contains(j as usize) {
                            let t = choose|t: int| 0 <= t < allowed@.len() && allowed@[t] == j as usize;
                            assert(allowed@[t] < i);
                        }
                    }
                }
            }
        }
        i = i + 1;
    }
    (outcomes, allowed)
}

/// The paths a claim records: of the repo-relative paths `rels` of the
/// files asked about, those at the `allowed` positions (as
/// [`decide_claims`] gives them), in that order.
pub fn claims_of(rels: &Vec<String>, allowed: &Vec<usize>) -> (out: Vec<String>)
    requires
        forall|k: int| 0 <= k < allowed@.len() ==> (#[trigger] allowed@[k]) < rels@.len(),
    ensures
        out@.len() == allowed@.len(),
        forall|k: int| 0 <= k < allowed@.len() ==> (#[trigger] out@[k])@ == rels@[allowed@[k] as int]@,
{
    let mut out: Vec<String> = Vec::new();
    let mut k: usize = 0;
    while k < allowed.len()
        invariant
            k <= allowed@.len(),
            forall|j: int| 0 <= j < allowed@.len() ==> (#[trigger] allowed@[j]) < rels@.len(),
            out@.len() == k,
            forall|j: int| 0 <= j < k ==> (#[trigger] out@[j])@ == rels@[allowed@[j] as int]@,
        decreases allowed.len() - k,
    {
        let i = allowed[k];
        out.push(rels[i].clone());
        k = k + 1;
    }
    out
}

/// Claims and write permissions agree: a file gitalong makes writable is
/// one this clone may claim, and a file nothing holds is claimable.
pub proof fn law_writable_files_are_claimable(c: Commit, active: Option<Seq<char>>, ctx: Context)
    ensures
        crate::operations::permissions::writable_for(true, Some(c), active, ctx) ==> unblocked(
            spread_bits(c, active, ctx),
        ),
        unblocked(0),
{
    assert(1u8 & 1u8 != 0 && 2u8 & 2u8 != 0) by (bit_vector);
}

/// A record another clone published blocks this clone's claim: it reads as
/// that clone's uncommitted changes, or as its unpushed work on a branch
/// named like this clone's active branch or on another one.
pub proof fn law_others_records_block_claims(c: Commit, active: Option<Seq<char>>, ctx: Context)
    requires
        c.user is Some,
        !issued_by(c, ctx),
    ensures
        spread_bits(c, active, ctx) == flag_bit(5) || spread_bits(c, active, ctx) == flag_bit(6)
            || spread_bits(c, active, ctx) == flag_bit(7),
        !unblocked(spread_bits(c, active, ctx)),
{
    assert(32u8 & 2u8 == 0 && 32u8 & 1u8 == 0 && 64u8 & 2u8 == 0 && 64u8 & 1u8 == 0 && 128u8 & 2u8 == 0
        && 128u8 & 1u8 == 0) by (bit_vector);
}

/// A record this clone published blocks none of its own claims but one: an
/// unpushed commit on another of its branches. Its uncommitted changes and
/// its work on the active branch are already its own.
pub proof fn law_own_records_do_not_block_claims(c: Commit, active: Option<Seq<char>>, ctx: Context)
    requires
        c.user is Some,
        issued_by(c, ctx),
    ensures
        spread_bits(c, active, ctx) == flag_bit(0) || spread_bits(c, active, ctx) == flag_bit(1)
            || spread_bits(c, active, ctx) == flag_bit(2),
        unblocked(spread_bits(c, active, ctx)) <==> spread_bits(c, active, ctx) != flag_bit(2),
{
    assert(1u8 & 1u8 != 0 && 2u8 & 2u8 != 0 && 4u8 & 2u8 == 0 && 4u8 & 1u8 == 0) by (bit_vector);
}

/// A claim goes through only when nothing holds the file or this clone
/// already does: its spread is empty, or lights this clone's active branch
/// (bit 2) or its uncommitted changes (bit 1). Any other holder blocks it.
pub proof fn law_claim_needs_nothing_or_own(bits: u8)
    ensures
        unblocked(bits) ==> bits == 0u8 || bits & 2u8 != 0u8 || bits & 1u8 != 0u8,
        (bits == 0u8 || bits & 2u8 != 0u8 || bits & 1u8 != 0u8) ==> unblocked(bits),
{
}

/// A commit a teammate pushed that this clone has not pulled blocks a
/// claim: a public commit (no issuer) on a remote branch but on none of
/// this clone's branches named like the active one lights only remote
/// flags, and those do not let a claim through.
pub proof fn law_unpulled_push_blocks_claim(c: Commit, active: Seq<char>, ctx: Context)
    requires
        c.user is None,
        c.branches.remote@.len() > 0,
        !seq_has(c.branches.local@, active),
    ensures
        spread_bits(c, Some(active), ctx) & 3u8 == 0u8,
        spread_bits(c, Some(active), ctx) != 0u8,
        !unblocked(spread_bits(c, Some(active), ctx)),
{
    let b = spread_bits(c, Some(active), ctx);
    let matching = seq_has(c.branches.remote@, active);
    let other = exists|i: int| 0 <= i < c.branches.remote@.len() && #[trigger] c.branches.remote@[i]@ != active;
    assert(matching || other) by {
        if !other {
            assert(c.branches.remote@[0]@ == active);
        }
    }
    let m: u8 = if matching { 8u8 } else { 0u8 };
    let o: u8 = if other { 16u8 } else { 0u8 };
    assert(b == m | 0u8 | o);
    assert((m == 8u8 || m == 0u8) && (o == 16u8 || o == 0u8) && (m != 0u8 || o != 0u8) ==> (m | 0u8 | o) & 3u8 == 0u8
        && (m | 0u8 | o) != 0u8) by (bit_vector);
    assert(b & 3u8 == 0u8 ==> b & 2u8 == 0u8 && b & 1u8 == 0u8) by (bit_vector);
}

} // verus!
