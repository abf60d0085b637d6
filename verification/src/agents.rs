use arrayvec::ArrayVec;
use crate::constants::MAX_LEGAL_ACTIONS;
use crate::game::arrays::combo_items;
use crate::game::combo::Combo;
use crate::game::view::GameView;
use vstd::prelude::*;

pub mod random_agent;

verus! {

/// A decision maker for one seat: given what its player may see and the
/// player's legal actions, it names the index of the action to play. The
/// table refuses an index past the end of the actions.
pub trait Agent {
    /// Whether this agent always names one of the actions it is offered. An
    /// agent that claims it must prove it in its `choose_action`; by default
    /// no agent claims it.
    open spec fn answers_in_range(&self) -> bool {
        false
    }

    fn choose_action(&self, view: GameView, valid_actions: &ArrayVec<Combo, MAX_LEGAL_ACTIONS>) -> (index: usize)
        requires
            combo_items(*valid_actions).len() > 0,
        ensures
            self.answers_in_range() ==> index < combo_items(*valid_actions).len(),
    ;
}

} // verus!
