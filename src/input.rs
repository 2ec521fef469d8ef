//! Checked entry point for placements that arrive from outside the engine.
use vstd::prelude::*;
use crate::topology::{Cell, valid_cell, cell_index};
use crate::board::{Sudoku, has_candidate};
use crate::search::{solvable, lemma_same_state};

verus! {

/// Why a placement request was refused before reaching the engine.
#[derive(Debug, Clone, Copy, PartialEq, Eq, Structural)]
pub enum InputError {
    /// A coordinate lies outside `0..9`.
    InvalidCoordinate,
    /// The value lies outside `1..=9`.
    InvalidValue,
}

impl Sudoku {
    /// Places `v` at `c` on behalf of a user: out-of-range input is refused;
    /// an assigned cell is left alone (`Ok(false)`); otherwise `v` is
    /// committed exactly when the feasibility probe accepts it, and
    /// `Ok(true)` reports that it was.
    pub fn place(&mut self, c: Cell, v: u8) -> (r: Result<bool, InputError>)
        requires
            old(self).wf(),
        ensures
            final(self).wf(),
            old(self).domains_exact() ==> final(self).domains_exact(),
            !valid_cell(c) ==> r == Err::<bool, InputError>(InputError::InvalidCoordinate),
            valid_cell(c) && !(1 <= v <= 9) ==> r == Err::<bool, InputError>(InputError::InvalidValue),
            valid_cell(c) && 1 <= v <= 9 ==> r is Ok,
            valid_cell(c) && 1 <= v <= 9 && old(self).value(c) is Some ==> r == Ok::<bool, InputError>(
                false,
            ),
            r == Ok::<bool, InputError>(true) ==> final(self).values() == old(self).values().update(
                cell_index(c),
                Some(v),
            ) && !old(self).peer_holds(c, v),
            r == Ok::<bool, InputError>(true) ==> exists|t: Seq<Cell>|
                Sudoku::collapsed(*old(self), *final(self), c, v, t),
            r != Ok::<bool, InputError>(true) ==> final(self).values() == old(self).values()
                && final(self).masks() == old(self).masks(),
            valid_cell(c) && 1 <= v <= 9 && old(self).value(c) is None && old(self).consistent() ==> (r
                == Ok::<bool, InputError>(true) <==> solvable(
                old(self).values().update(cell_index(c), Some(v)),
            )),
    {
        if c.0 >= 9 || c.1 >= 9 {
            return Err(InputError::InvalidCoordinate);
        }
        if v < 1 || v > 9 {
            return Err(InputError::InvalidValue);
        }
        if self.get(c).is_some() {
            return Ok(false);
        }
        if self.feasible(c, v) {
            proof {
                lemma_same_state(*self, *old(self));
            }
            let ghost mid = *self;
            let token = self.collapse(c, v);
            assert(Sudoku::collapsed(*old(self), *self, c, v, token@)) by {
                assert forall|d: Cell| true implies #[trigger] mid.mask(d) == old(self).mask(d) by {}
                assert((|d: Cell| has_candidate(mid.mask(d), v)) =~= (|d: Cell|
                    has_candidate(old(self).mask(d), v)));
            }
            Ok(true)
        } else {
            proof {
                lemma_same_state(*self, *old(self));
            }
            Ok(false)
        }
    }
}

} // verus!
