use vstd::prelude::*;
use crate::game::Board;

verus! {

/// A player that does not learn, used as a fixed yardstick: it ignores the
/// board and always prefers the rightmost column that is still open.
#[derive(Clone, Copy, PartialEq, Eq, Debug, Structural)]
pub struct RandomPlayer {}

impl RandomPlayer {
    pub fn new() -> (r: RandomPlayer)
        ensures
            r == (RandomPlayer {}),
    {
        RandomPlayer {}
    }

    /// The fixed reference preferences, whatever the board: column `i` is
    /// worth `i`.
    pub fn get_move(&self, _board: &Board) -> (r: Vec<u8>)
        ensures
            r@.len() == 7,
            forall|i: int| 0 <= i < 7 ==> #[trigger] r@[i] == i,
    {
        let mut r: Vec<u8> = Vec::new();
        let mut i: u8 = 0;
        while i < 7
            invariant
                i <= 7,
                r@.len() == i,
                forall|j: int| 0 <= j < i ==> #[trigger] r@[j] == j,
            decreases 7 - i,
        {
            r.push(i);
            i = i + 1;
        }
        r
    }
}

} // verus!
