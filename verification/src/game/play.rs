use crate::game::combo::Combo;
use vstd::prelude::*;

verus! {

/// One player's contribution to the current trick.
#[derive(Debug, Copy, Clone)]
pub struct Play {
    pub player_uid: u8,
    pub combo: Combo,
}

} // verus!
