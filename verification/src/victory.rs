//! Victory evaluator: derive match-over and the winner from canonical
//! state.

use vstd::prelude::*;
use crate::board::NUM_SHIPS;
use crate::state::{State, shits, state_shape};

verus! {

/// Player `p` has no undamaged ship segment left.
pub open spec fn defeated(s: State, p: int) -> bool {
    forall|j: int| 0 <= j < NUM_SHIPS ==> #[trigger] shits(s, p)[j] == 0
}

/// The winner, if the match is over: if player index 0 is defeated player 2
/// wins, if player index 1 is defeated player 1 wins, else the match goes
/// on.
pub open spec fn spec_winner(s: State) -> Option<u16> {
    if defeated(s, 0) {
        Some(2u16)
    } else if defeated(s, 1) {
        Some(1u16)
    } else {
        None
    }
}

/// Whether some player's entire fleet is destroyed, and who then wins.
/// Never mutates state.
#[verifier::loop_isolation(false)]
pub fn winner(s: &State) -> (r: Option<u16>)
    requires
        state_shape(*s),
    ensures
        r == spec_winner(*s),
{
    let mut p: usize = 0;
    while p < 2
        invariant
            p <= 2,
            forall|q: int| 0 <= q < p ==> !defeated(*s, q),
        decreases 2 - p,
    {
        let mut no_ships = true;
        let mut j: usize = 0;
        while j < NUM_SHIPS
            invariant
                j <= NUM_SHIPS,
                p < 2,
                no_ships <==> forall|i: int| 0 <= i < j ==> #[trigger] shits(*s, p as int)[i] == 0,
            decreases NUM_SHIPS - j,
        {
            if s.hits_left[p][j] > 0 {
                no_ships = false;
            }
            j = j + 1;
        }
        if no_ships {
            proof {
                assert(defeated(*s, p as int));
            }
            if p == 0 {
                return Some(2);
            } else {
                return Some(1);
            }
        }
        p = p + 1;
    }
    None
}

/// Victory soundness: a winner is declared exactly when some player's
/// entire `hits_left` table is exhausted, and the winner is the other
/// player.
pub proof fn lemma_victory_sound(s: State)
    ensures
        (spec_winner(s) != None::<u16>) <==> (defeated(s, 0) || defeated(s, 1)),
        defeated(s, 0) ==> spec_winner(s) == Some(2u16),
        !defeated(s, 0) && defeated(s, 1) ==> spec_winner(s) == Some(1u16),
        spec_winner(s) == Some(2u16) ==> defeated(s, 0),
        spec_winner(s) == Some(1u16) ==> defeated(s, 1) && !defeated(s, 0),
        !defeated(s, 0) && !defeated(s, 1) ==> spec_winner(s) == None::<u16>,
{
}

} // verus!
