use vstd::prelude::*;

verus! {

/// The outcome of a finished match, seen from the local player.
#[derive(Clone, Copy, Debug, PartialEq, Eq, Structural)]
pub struct GameResult {
    pub won: bool,
}

} // verus!
