//! The data of a human-operated strategy. The terminal front-end that asks
//! a person for coordinates lives outside the verified crate; this type
//! carries the symbol the person plays, and the rules-engine helpers
//! (`get_legal_moves`, `contains_coord`) validate what they type.

use vstd::prelude::*;

use crate::defs::Cell;

verus! {

/// A human player's configuration: the symbol they play.
#[derive(Clone, Copy)]
pub struct HumanPlayer {
    symbol: Cell,
}

impl HumanPlayer {
    /// The symbol this player plays.
    pub closed spec fn spec_symbol(self) -> Cell {
        self.symbol
    }

    /// Create a human player for the given symbol.
    pub fn new(symbol: Cell) -> (r: Self)
        ensures
            r.spec_symbol() == symbol,
    {
        Self { symbol }
    }

    /// The symbol this player plays.
    pub fn symbol(&self) -> (r: Cell)
        ensures
            r == self.spec_symbol(),
    {
        self.symbol
    }
}

} // verus!
