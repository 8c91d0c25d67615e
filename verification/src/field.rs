//! One cell of the board: scrap, ownership, unit occupancy and the
//! recycler-related flags.

use vstd::prelude::*;

use crate::owner::Owner;
use crate::parse::{int_token_val, is_int_token, parse_int};

verus! {

/// A token holding a non-negative decimal that a 32-bit signed parse accepts.
pub open spec fn u32_token(t: Seq<char>) -> bool {
    is_int_token(t) && 0 <= int_token_val(t) < 0x8000_0000
}

/// A token holding one of the three owner codes.
pub open spec fn owner_token(t: Seq<char>) -> bool {
    is_int_token(t) && (int_token_val(t) == -1 || int_token_val(t) == 0 || int_token_val(t) == 1)
}

/// A well-formed per-cell input line, split into whitespace-separated tokens:
/// scrap amount, owner code, unit count, then the four flag fields, each a
/// plain integer. Counts are non-negative; the owner code is `1`, `0` or
/// `-1`; flags use `1` for true.
pub open spec fn line_tokens_ok(tokens: Seq<Seq<char>>) -> bool {
    &&& tokens.len() >= 7
    &&& u32_token(tokens[0])
    &&& owner_token(tokens[1])
    &&& u32_token(tokens[2])
    &&& u32_token(tokens[3])
    &&& u32_token(tokens[4])
    &&& u32_token(tokens[5])
    &&& u32_token(tokens[6])
}

/// The token views of a borrowed token slice.
pub open spec fn token_views(input_line: Seq<&str>) -> Seq<Seq<char>> {
    input_line.map_values(|t: &str| t@)
}

/// One board cell. `scrap_amount == 0` means the cell is grass (impassable).
#[derive(Copy, Clone, Debug, PartialEq, Eq, Structural)]
pub struct Field {
    pub x: u32,
    pub y: u32,
    pub scrap_amount: u32,
    pub owner: Owner,
    pub num_units: u32,
    pub has_recycler: bool,
    pub can_build: bool,
    pub can_spawn: bool,
    pub in_recycler_range: bool,
}

impl Field {
    /// Grass: no scrap left, nothing can stand here or cross.
    pub open spec fn spec_is_grass(self) -> bool {
        self.scrap_amount == 0
    }

    pub fn is_grass(&self) -> (r: bool)
        ensures
            r == self.spec_is_grass(),
    {
        self.scrap_amount == 0
    }

    /// A cell can be traversed if it is not grass now and will not turn to
    /// grass at the next harvest tick: a cell down to its last scrap while a
    /// recycler covers it is about to vanish, so one-step lookahead must
    /// treat it as blocked.
    pub open spec fn spec_is_traversible(self) -> bool {
        self.scrap_amount > 1 || (self.scrap_amount == 1 && !self.in_recycler_range)
    }

    pub fn is_traversible(&self) -> (r: bool)
        ensures
            r == self.spec_is_traversible(),
    {
        self.scrap_amount > 1 || (self.scrap_amount == 1 && !self.in_recycler_range)
    }

    /// Whether a tokenised input line is well-formed, so a caller can reject
    /// malformed input before building a cell from it.
    pub fn line_ok(input_line: &[&str]) -> (r: bool)
        ensures
            r == line_tokens_ok(token_views(input_line@)),
    {
        if input_line.len() < 7 {
            return false;
        }
        let ghost toks = token_views(input_line@);
        let owner_val = match parse_int(input_line[1]) {
            Some(v) => v,
            None => {
                return false;
            },
        };
        if !(owner_val == -1 || owner_val == 0 || owner_val == 1) {
            return false;
        }
        let mut i: usize = 0;
        while i < 7
            invariant
                input_line@.len() >= 7,
                toks == token_views(input_line@),
                i <= 7,
                owner_token(toks[1]),
                forall|j: int| 0 <= j < i && j != 1 ==> u32_token(#[trigger] toks[j]),
            decreases 7 - i,
        {
            if i != 1 {
                match parse_int(input_line[i]) {
                    Some(v) => {
                        if v < 0 {
                            return false;
                        }
                    },
                    None => {
                        return false;
                    },
                }
            }
            i += 1;
        }
        true
    }

    /// Build a cell at `(x, y)` from a well-formed tokenised input line.
    pub fn from_input_line(input_line: &[&str], x: u32, y: u32) -> (r: Self)
        requires
            line_tokens_ok(token_views(input_line@)),
        ensures
            r == (Field {
                x,
                y,
                scrap_amount: int_token_val(token_views(input_line@)[0]) as u32,
                owner: Owner::spec_from_num(int_token_val(token_views(input_line@)[1])),
                num_units: int_token_val(token_views(input_line@)[2]) as u32,
                has_recycler: int_token_val(token_views(input_line@)[3]) == 1,
                can_build: int_token_val(token_views(input_line@)[4]) == 1,
                can_spawn: int_token_val(token_views(input_line@)[5]) == 1,
                in_recycler_range: int_token_val(token_views(input_line@)[6]) == 1,
            }),
    {
        let scrap_amount = parse_int(input_line[0]).unwrap();
        let owner = parse_int(input_line[1]).unwrap();
        let units = parse_int(input_line[2]).unwrap();
        let recycler = parse_int(input_line[3]).unwrap();
        let can_build = parse_int(input_line[4]).unwrap();
        let can_spawn = parse_int(input_line[5]).unwrap();
        let in_range_of_recycler = parse_int(input_line[6]).unwrap();
        Field {
            x,
            y,
            scrap_amount: scrap_amount as u32,
            owner: Owner::from_num(owner as i32),
            num_units: units as u32,
            has_recycler: recycler == 1,
            can_build: can_build == 1,
            can_spawn: can_spawn == 1,
            in_recycler_range: in_range_of_recycler == 1,
        }
    }
}

} // verus!
