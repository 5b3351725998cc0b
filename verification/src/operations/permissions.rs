//! Filesystem enforcement of claims through the user-write bit.
//!
//! With `modify_permissions` on, a tracked file is writable exactly when its
//! latest store record is purely this clone's responsibility: an
//! uncommitted edit or claim of this clone, or an unpushed commit on the
//! active branch, and nothing else. Every other file, including files with
//! no record, is read-only; pushed work has to be claimed before editing.
use vstd::prelude::*;

use crate::commit::{spread_bits, Commit};
use crate::repository::Context;
use crate::spread::flag_bit;
use crate::text::opt_view;

verus! {

/// The user-write permission bit.
pub open spec fn user_write() -> u32 {
    0o200u32
}

/// `true` when a file should be writable: its status is tracked (`watched`,
/// see [`crate::repository::tracked_file`]) and its latest
/// record's spread is exactly this clone's uncommitted changes or exactly
/// this clone's active branch.
pub open spec fn writable_for(watched: bool, latest: Option<Commit>, active: Option<Seq<char>>, ctx: Context) -> bool {
    watched && match latest {
        Some(c) => spread_bits(c, active, ctx) == flag_bit(0) || spread_bits(c, active, ctx) == flag_bit(1),
        None => false,
    }
}

/// Whether a file should be writable (see [`writable_for`]).
pub fn wants_writable(watched: bool, latest: Option<&Commit>, active_branch: Option<&str>, ctx: &Context) -> (w: bool)
    ensures
        w == writable_for(watched, match latest { Some(c) => Some(*c), None => None }, opt_view(active_branch), *ctx),
{
    if !watched {
        return false;
    }
    match latest {
        Some(c) => {
            let bits = c.spread(active_branch, ctx).bits();
            bits == 1 || bits == 2
        },
        None => false,
    }
}

/// The mode after setting (`writable`) or clearing the user-write bit of
/// `mode`, or `None` when that changes nothing.
pub fn write_bit_update(mode: u32, writable: bool) -> (r: Option<u32>)
    ensures
        r matches Some(next) ==> next != mode && next == if writable { mode | user_write() } else { mode & !user_write() },
        r is None <==> (if writable { mode | user_write() } else { mode & !user_write() }) == mode,
        r matches Some(next) ==> (next & user_write() != 0) == writable,
        r matches Some(next) ==> next & !user_write() == mode & !user_write(),
        r is None ==> (mode & user_write() != 0) == writable,
{
    let next = if writable {
        mode | 0o200
    } else {
        mode & !0o200u32
    };
    if next == mode {
        proof {
            if writable {
                assert((mode | 0o200u32) == mode ==> mode & 0o200u32 != 0) by (bit_vector);
            } else {
                assert((mode & !0o200u32) == mode ==> mode & 0o200u32 == 0) by (bit_vector);
            }
        }
        None
    } else {
        proof {
            if writable {
                assert((mode | 0o200u32) & 0o200u32 != 0) by (bit_vector);
                assert((mode | 0o200u32) & !0o200u32 == mode & !0o200u32) by (bit_vector);
            } else {
                assert((mode & !0o200u32) & 0o200u32 == 0) by (bit_vector);
                assert((mode & !0o200u32) & !0o200u32 == mode & !0o200u32) by (bit_vector);
            }
        }
        Some(next)
    }
}

} // verus!
