//! [`CommitSpread`]: where a tracked commit lives across branches and clones.
//!
//! Each of the eight bits stands for one scope (this clone or another one,
//! the active branch or another one, committed or uncommitted). The status
//! line renders the bits as an eight-character `+`/`-` string in the order
//! of the flags below; that order is part of the output format.
use vstd::prelude::*;

verus! {

/// The bit of the `index`-th flag, counting from `MINE_UNCOMMITTED` (0) to
/// `THEIR_UNCOMMITTED` (7).
pub open spec fn flag_bit(index: int) -> u8 {
    if index == 0 {
        1u8
    } else if index == 1 {
        2u8
    } else if index == 2 {
        4u8
    } else if index == 3 {
        8u8
    } else if index == 4 {
        16u8
    } else if index == 5 {
        32u8
    } else if index == 6 {
        64u8
    } else {
        128u8
    }
}

/// `true` when every bit of `mask` is set in `bits`.
pub open spec fn has_bits(bits: u8, mask: u8) -> bool {
    bits & mask == mask
}

/// The status character of one flag: `+` when set, `-` otherwise.
pub open spec fn flag_char(bits: u8, index: int) -> char {
    if has_bits(bits, flag_bit(index)) {
        '+'
    } else {
        '-'
    }
}

/// The eight-character status string of `bits`.
pub open spec fn status_chars(bits: u8) -> Seq<char> {
    Seq::new(8, |i: int| flag_char(bits, i))
}

/// The name of the `index`-th flag.
pub open spec fn flag_name(index: int) -> Seq<char> {
    if index == 0 {
        "MINE_UNCOMMITTED"@
    } else if index == 1 {
        "MINE_ACTIVE_BRANCH"@
    } else if index == 2 {
        "MINE_OTHER_BRANCH"@
    } else if index == 3 {
        "REMOTE_MATCHING_BRANCH"@
    } else if index == 4 {
        "REMOTE_OTHER_BRANCH"@
    } else if index == 5 {
        "THEIR_OTHER_BRANCH"@
    } else if index == 6 {
        "THEIR_MATCHING_BRANCH"@
    } else {
        "THEIR_UNCOMMITTED"@
    }
}

/// The names of the flags set in `bits` among the first `n`, in flag order.
pub open spec fn flag_names_upto(bits: u8, n: nat) -> Seq<Seq<char>>
    decreases n,
{
    if n == 0 {
        Seq::empty()
    } else {
        flag_names_upto(bits, (n - 1) as nat) + if has_bits(bits, flag_bit(n - 1)) {
            seq![flag_name(n - 1)]
        } else {
            Seq::empty()
        }
    }
}

/// Where a commit appears across branches and clones, as a set of eight flags.
#[derive(Debug, Clone, Copy, PartialEq, Eq, Structural)]
pub struct CommitSpread {
    pub bits: u8,
}

fn flag_bit_exec(index: usize) -> (b: u8)
    requires
        index < 8,
    ensures
        b == flag_bit(index as int),
{
    if index == 0 {
        1
    } else if index == 1 {
        2
    } else if index == 2 {
        4
    } else if index == 3 {
        8
    } else if index == 4 {
        16
    } else if index == 5 {
        32
    } else if index == 6 {
        64
    } else {
        128
    }
}

fn flag_name_exec(index: usize) -> (name: &'static str)
    requires
        index < 8,
    ensures
        name@ == flag_name(index as int),
{
    if index == 0 {
        "MINE_UNCOMMITTED"
    } else if index == 1 {
        "MINE_ACTIVE_BRANCH"
    } else if index == 2 {
        "MINE_OTHER_BRANCH"
    } else if index == 3 {
        "REMOTE_MATCHING_BRANCH"
    } else if index == 4 {
        "REMOTE_OTHER_BRANCH"
    } else if index == 5 {
        "THEIR_OTHER_BRANCH"
    } else if index == 6 {
        "THEIR_MATCHING_BRANCH"
    } else {
        "THEIR_UNCOMMITTED"
    }
}

impl CommitSpread {
    /// The flags as a byte, `MINE_UNCOMMITTED` in the lowest bit.
    pub open spec fn spec_bits(self) -> u8 {
        self.bits
    }

    /// The flags as a byte, `MINE_UNCOMMITTED` in the lowest bit.
    pub fn bits(&self) -> (b: u8)
        ensures
            b == self.spec_bits(),
    {
        self.bits
    }

    /// The spread with exactly the given bits set.
    pub fn from_bits(bits: u8) -> (s: Self)
        ensures
            s.spec_bits() == bits,
    {
        CommitSpread { bits }
    }

    /// No flag set.
    pub fn empty() -> (s: Self)
        ensures
            s.spec_bits() == 0,
    {
        CommitSpread { bits: 0 }
    }

    /// Every flag set.
    pub fn all() -> (s: Self)
        ensures
            s.spec_bits() == 255,
    {
        CommitSpread { bits: 255 }
    }

    /// This clone's uncommitted changes.
    pub fn mine_uncommitted() -> (s: Self)
        ensures
            s.spec_bits() == flag_bit(0),
    {
        CommitSpread { bits: 1 }
    }

    /// This clone's currently checked-out branch.
    pub fn mine_active_branch() -> (s: Self)
        ensures
            s.spec_bits() == flag_bit(1),
    {
        CommitSpread { bits: 2 }
    }

    /// One of this clone's other local branches.
    pub fn mine_other_branch() -> (s: Self)
        ensures
            s.spec_bits() == flag_bit(2),
    {
        CommitSpread { bits: 4 }
    }

    /// The remote branch matching this clone's active branch name.
    pub fn remote_matching_branch() -> (s: Self)
        ensures
            s.spec_bits() == flag_bit(3),
    {
        CommitSpread { bits: 8 }
    }

    /// A different remote branch.
    pub fn remote_other_branch() -> (s: Self)
        ensures
            s.spec_bits() == flag_bit(4),
    {
        CommitSpread { bits: 16 }
    }

    /// Another clone's non-matching branch.
    pub fn their_other_branch() -> (s: Self)
        ensures
            s.spec_bits() == flag_bit(5),
    {
        CommitSpread { bits: 32 }
    }

    /// Another clone's branch named like this clone's active branch.
    pub fn their_matching_branch() -> (s: Self)
        ensures
            s.spec_bits() == flag_bit(6),
    {
        CommitSpread { bits: 64 }
    }

    /// Another clone's uncommitted changes.
    pub fn their_uncommitted() -> (s: Self)
        ensures
            s.spec_bits() == flag_bit(7),
    {
        CommitSpread { bits: 128 }
    }

    /// The flags set in either spread.
    pub fn union(self, other: Self) -> (s: Self)
        ensures
            s.spec_bits() == self.spec_bits() | other.spec_bits(),
    {
        CommitSpread { bits: self.bits | other.bits }
    }

    /// `true` when every flag of `other` is set in `self`.
    pub fn contains(&self, other: Self) -> (b: bool)
        ensures
            b == has_bits(self.spec_bits(), other.spec_bits()),
    {
        self.bits & other.bits == other.bits
    }

    /// `true` when `self` and `other` share at least one flag.
    pub fn intersects(&self, other: Self) -> (b: bool)
        ensures
            b == (self.spec_bits() & other.spec_bits() != 0),
    {
        self.bits & other.bits != 0
    }

    /// `true` when no flag is set.
    pub fn is_empty(&self) -> (b: bool)
        ensures
            b == (self.spec_bits() == 0),
    {
        self.bits == 0
    }

    /// Render the spread as the eight-character `+`/`-` string of the status
    /// line: character `i` is `+` exactly when flag `i` is set, in the order
    /// `MINE_UNCOMMITTED` … `THEIR_UNCOMMITTED`.
    pub fn to_status_string(self) -> (s: String)
        ensures
            s@ == status_chars(self.spec_bits()),
    {
        let mut out = String::new();
        let mut i: usize = 0;
        while i < 8
            invariant
                i <= 8,
                out@ == status_chars(self.bits).subrange(0, i as int),
            decreases 8 - i,
        {
            let mask = flag_bit_exec(i);
            if self.bits & mask == mask {
                out.push('+');
            } else {
                out.push('-');
            }
            i = i + 1;
            assert(out@ =~= status_chars(self.bits).subrange(0, i as int));
        }
        assert(out@ =~= status_chars(self.bits));
        out
    }

    /// The names of the set flags, in flag order.
    pub fn flag_names(&self) -> (names: Vec<&'static str>)
        ensures
            names@.map_values(|n: &'static str| n@) == flag_names_upto(self.spec_bits(), 8),
    {
        let mut names: Vec<&'static str> = Vec::new();
        let mut i: usize = 0;
        while i < 8
            invariant
                i <= 8,
                names@.map_values(|n: &'static str| n@) == flag_names_upto(self.bits, i as nat),
            decreases 8 - i,
        {
            let mask = flag_bit_exec(i);
            let ghost before = names@;
            if self.bits & mask == mask {
                names.push(flag_name_exec(i));
                assert(names@.map_values(|n: &'static str| n@) =~= before.map_values(
                    |n: &'static str| n@,
                ) + seq![flag_name(i as int)]);
            } else {
                assert(names@.map_values(|n: &'static str| n@) =~= before.map_values(
                    |n: &'static str| n@,
                ) + Seq::<Seq<char>>::empty());
            }
            i = i + 1;
        }
        names
    }
}

} // verus!
