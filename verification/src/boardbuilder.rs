//! Staged construction of a board: the grid size is fixed for a whole match,
//! while the matter pools and cells arrive fresh each turn. The type state
//! keeps a half-filled builder from being built.

use vstd::prelude::*;

use core::marker::PhantomData;

use crate::board::Board;
use crate::field::Field;

verus! {

/// Builder stage: only the grid size is known.
pub struct SizeKnown;

/// Builder stage: the turn's matter and cells are in place.
pub struct Complete;

/// The builder's stages.
pub trait BoardBuilderState {

}

impl BoardBuilderState for SizeKnown {

}

impl BoardBuilderState for Complete {

}

/// A board under construction.
pub struct BoardBuilder<S: BoardBuilderState> {
    pub width: u32,
    pub height: u32,
    pub my_matter: u32,
    pub opponent_matter: u32,
    pub fields: Vec<Field>,
    pub _marker: PhantomData<S>,
}

impl BoardBuilder<SizeKnown> {
    /// Start a builder for a match with the given grid size.
    pub fn new(width: u32, height: u32) -> (r: Self)
        ensures
            r.width == width,
            r.height == height,
            r.my_matter == 0,
            r.opponent_matter == 0,
            r.fields@.len() == 0,
    {
        BoardBuilder {
            width,
            height,
            my_matter: 0,
            opponent_matter: 0,
            fields: Vec::new(),
            _marker: PhantomData,
        }
    }

    /// Complete the builder with one turn's matter pools and cells, already
    /// parsed from the input.
    pub fn with_fields(self, my_matter: u32, opponent_matter: u32, fields: Vec<Field>) -> (r:
        BoardBuilder<Complete>)
        ensures
            r.width == self.width,
            r.height == self.height,
            r.my_matter == my_matter,
            r.opponent_matter == opponent_matter,
            r.fields == fields,
    {
        BoardBuilder {
            width: self.width,
            height: self.height,
            my_matter,
            opponent_matter,
            fields,
            _marker: PhantomData,
        }
    }
}

impl BoardBuilder<Complete> {
    /// The finished board.
    pub fn build(self) -> (r: Board)
        ensures
            r.width == self.width,
            r.height == self.height,
            r.my_matter == self.my_matter,
            r.opponent_matter == self.opponent_matter,
            r.fields == self.fields,
    {
        Board {
            width: self.width,
            height: self.height,
            my_matter: self.my_matter,
            opponent_matter: self.opponent_matter,
            fields: self.fields,
        }
    }
}

} // verus!
