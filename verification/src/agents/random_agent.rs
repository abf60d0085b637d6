use arrayvec::ArrayVec;
use crate::agents::Agent;
use crate::constants::MAX_LEGAL_ACTIONS;
use crate::game::arrays::{combo_items, combos_len};
use crate::game::combo::Combo;
use crate::game::view::GameView;
use crate::random;
use rand::rngs::StdRng;
use std::cell::RefCell;
use vstd::prelude::*;

verus! {

/// An agent that picks one of the legal actions at random.
#[derive(Debug)]
pub struct RandomAgent {
    rng: RefCell<StdRng>,
}

impl RandomAgent {
    /// An agent whose choices follow a generator seeded with `seed`, or
    /// seeded from the operating system when there is none. Nothing is stated
    /// of the generator: it is an outside type that no name can stand for, and
    /// the agent draws from it through a shared reference to a cell whose
    /// contents Verus does not see.
    pub fn new(seed: Option<u64>) -> Self {
        let rng = match seed {
            Some(seed) => random::seeded_rng(seed),
            None => random::fresh_rng(),
        };
        Self { rng: random::rng_cell(rng) }
    }
}

impl Agent for RandomAgent {
    /// A random agent always picks one of the actions.
    open spec fn answers_in_range(&self) -> bool {
        true
    }

    /// Any index of the actions, at random.
    fn choose_action(&self, view: GameView, valid_actions: &ArrayVec<Combo, MAX_LEGAL_ACTIONS>) -> (index: usize)
        ensures
            index < combo_items(*valid_actions).len(),
    {
        random::random_below(&self.rng, combos_len(valid_actions))
    }
}

} // verus!
