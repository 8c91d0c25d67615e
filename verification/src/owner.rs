//! Cell ownership: each cell belongs to one player or to nobody.

use vstd::prelude::*;

verus! {

/// Who controls a cell (or a unit standing on it).
#[derive(Copy, Clone, Debug, PartialEq, Eq, Structural)]
pub enum Owner {
    Me,
    Opponent,
    Neutral,
}

impl Owner {
    /// The numeric owner code used by the turn input: `1` = me, `0` = opponent,
    /// `-1` = neutral. Any other code is malformed input and is excluded here;
    /// callers reject it before calling.
    pub fn from_num(num: i32) -> (r: Self)
        requires
            num == -1 || num == 0 || num == 1,
        ensures
            r == Owner::spec_from_num(num as int),
    {
        match num {
            -1 => Owner::Neutral,
            0 => Owner::Opponent,
            _ => Owner::Me,
        }
    }

    pub open spec fn spec_from_num(num: int) -> Owner {
        if num == -1 {
            Owner::Neutral
        } else if num == 0 {
            Owner::Opponent
        } else {
            Owner::Me
        }
    }
}

impl Default for Owner {
    fn default() -> (r: Self)
        ensures
            r == Owner::Neutral,
    {
        Owner::Neutral
    }
}

} // verus!
