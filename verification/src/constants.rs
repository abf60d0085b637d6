use vstd::prelude::*;

verus! {

/// Number of distinct card ranks; ranks run from 1 to `MAX_RANK`.
pub const MAX_RANK: usize = 6;

/// Copies of each rank in the deck.
pub const MAX_COUNT_PER_RANK: usize = 10;

/// Cards in a full deck.
pub const DECK_SIZE: usize = 60;

pub const MIN_PLAYERS: usize = 3;

pub const MAX_PLAYERS: usize = 6;

/// Opponents that one player can see.
pub const MAX_OPPONENTS: usize = 5;

pub const HAND_SIZE_3_4_PLAYERS: usize = 14;

pub const HAND_SIZE_5_PLAYERS: usize = 11;

pub const HAND_SIZE_6_PLAYERS: usize = 9;

/// Largest point value a trick can award (a pair of the top rank).
pub const MAX_POINTS_VALUE: usize = 12;

/// The game ends at the end of a trick once this many hands are empty.
pub const EMPTY_HANDS_TO_END_GAME: u8 = 2;

/// Upper bound on the number of legal actions of one hand.
pub const MAX_LEGAL_ACTIONS: usize = 75;

/// A rank names one of the `MAX_RANK` card values.
pub open spec fn valid_rank(rank: u8) -> bool {
    1 <= rank <= MAX_RANK
}

/// A card count that a single operation may move.
pub open spec fn valid_count(count: u8) -> bool {
    1 <= count <= MAX_COUNT_PER_RANK
}

/// Number of cards in the run from `start` to `end`, both included.
pub fn run_length(start: u8, end: u8) -> (len: i16)
    ensures
        len == end - start + 1,
{
    (end as i16) - (start as i16) + 1
}

} // verus!
