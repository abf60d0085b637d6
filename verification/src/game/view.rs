use arrayvec::ArrayVec;
use crate::constants::{MAX_OPPONENTS, MAX_PLAYERS};
use crate::game::maps::RankMap;
use crate::game::play::Play;
use crate::game::player::{hand_total, PlayerModel};
use crate::game::trick_type::TrickType;
use vstd::prelude::*;

verus! {

/// What one player may know of the game: the public table and its own hand,
/// but only the sizes of the other hands.
#[derive(Debug)]
pub struct GameView {
    pub available_points: ArrayVec<u8, MAX_PLAYERS>,
    pub current_trick: ArrayVec<Play, MAX_PLAYERS>,
    pub current_trick_type: TrickType,
    pub current_player_index: u8,
    pub active_player_count: u8,
    pub my_uid: u8,
    pub my_hand: RankMap,
    pub my_points: u8,
    pub opponents: ArrayVec<OpponentView, MAX_OPPONENTS>,
}

/// What a player sees of an opponent.
#[derive(Debug)]
pub struct OpponentView {
    pub uid: u8,
    pub hand_size: u8,
    pub points: u8,
}

/// What the others see of a player.
pub open spec fn opponent_view_of(p: PlayerModel) -> OpponentView {
    OpponentView { uid: p.uid, hand_size: hand_total(p.hand) as u8, points: p.points }
}

/// The summaries of every player but `uid`, in seat order.
pub open spec fn opponents_of(players: Seq<PlayerModel>, uid: u8) -> Seq<OpponentView>
    decreases players.len(),
{
    if players.len() == 0 {
        Seq::empty()
    } else {
        let rest = opponents_of(players.drop_last(), uid);
        if players.last().uid != uid {
            rest.push(opponent_view_of(players.last()))
        } else {
            rest
        }
    }
}

} // verus!
