//! The bounded vectors of the `arrayvec` crate that the game state and the
//! player's view are made of. Each element type in use gets a name for the
//! values a vector holds and one trusted wrapper per method that the game
//! calls; the wrappers state what the crate's source does to those values.
use arrayvec::ArrayVec;
use crate::constants::{MAX_LEGAL_ACTIONS, MAX_OPPONENTS, MAX_PLAYERS};
use crate::game::combo::Combo;
use crate::game::play::Play;
use crate::game::player::Player;
use crate::game::view::OpponentView;
use vstd::prelude::*;

verus! {

#[verifier::external_type_specification]
#[verifier::external_body]
#[verifier::reject_recursive_types(T)]
pub struct ExArrayVec<T, const CAP: usize>(ArrayVec<T, CAP>);

// ---------------------------------------------------------------------------
// Point values: `ArrayVec<u8, MAX_PLAYERS>`.
/// The values held by a vector of point values, in order.
pub uninterp spec fn point_items(v: ArrayVec<u8, MAX_PLAYERS>) -> Seq<u8>;

/// `ArrayVec::new`: an empty vector.
#[verifier::external_body]
pub(crate) fn points_new() -> (r: ArrayVec<u8, MAX_PLAYERS>)
    ensures
        point_items(r) == Seq::<u8>::empty(),
{
    ArrayVec::new()
}

/// `ArrayVec::push`: appends a value; it panics on a full vector, so room is
/// required.
#[verifier::external_body]
pub(crate) fn points_push(v: &mut ArrayVec<u8, MAX_PLAYERS>, x: u8)
    requires
        point_items(*old(v)).len() < MAX_PLAYERS,
    ensures
        point_items(*final(v)) == point_items(*old(v)).push(x),
{
    v.push(x)
}

/// `ArrayVec::len`: the number of values, which never exceeds the capacity.
#[verifier::external_body]
pub(crate) fn points_len(v: &ArrayVec<u8, MAX_PLAYERS>) -> (r: usize)
    ensures
        r == point_items(*v).len(),
        r <= MAX_PLAYERS,
{
    v.len()
}

/// Indexing through the slice that the vector dereferences to.
#[verifier::external_body]
pub(crate) fn points_get(v: &ArrayVec<u8, MAX_PLAYERS>, i: usize) -> (r: u8)
    requires
        i < point_items(*v).len(),
    ensures
        r == point_items(*v)[i as int],
{
    v[i]
}

/// Assignment through the mutable slice that the vector dereferences to.
#[verifier::external_body]
pub(crate) fn points_set(v: &mut ArrayVec<u8, MAX_PLAYERS>, i: usize, x: u8)
    requires
        i < point_items(*old(v)).len(),
    ensures
        point_items(*final(v)) == point_items(*old(v)).update(i as int, x),
{
    v[i] = x;
}

/// `ArrayVec::clear`: removes every value.
#[verifier::external_body]
pub(crate) fn points_clear(v: &mut ArrayVec<u8, MAX_PLAYERS>)
    ensures
        point_items(*final(v)) == Seq::<u8>::empty(),
{
    v.clear()
}

/// `ArrayVec::clone`: a vector holding the same values.
#[verifier::external_body]
pub(crate) fn points_clone(v: &ArrayVec<u8, MAX_PLAYERS>) -> (r: ArrayVec<u8, MAX_PLAYERS>)
    ensures
        point_items(r) == point_items(*v),
{
    v.clone()
}

// ---------------------------------------------------------------------------
// Players: `ArrayVec<Player, MAX_PLAYERS>`.
/// The players held by a vector of players, in seating order.
pub uninterp spec fn player_items(v: ArrayVec<Player, MAX_PLAYERS>) -> Seq<Player>;

/// `ArrayVec::new`: an empty vector.
#[verifier::external_body]
pub(crate) fn players_new() -> (r: ArrayVec<Player, MAX_PLAYERS>)
    ensures
        player_items(r) == Seq::<Player>::empty(),
{
    ArrayVec::new()
}

/// `ArrayVec::push`: appends a player; room is required.
#[verifier::external_body]
pub(crate) fn players_push(v: &mut ArrayVec<Player, MAX_PLAYERS>, x: Player)
    requires
        player_items(*old(v)).len() < MAX_PLAYERS,
    ensures
        player_items(*final(v)) == player_items(*old(v)).push(x),
{
    v.push(x)
}

/// `ArrayVec::len`.
#[verifier::external_body]
pub(crate) fn players_len(v: &ArrayVec<Player, MAX_PLAYERS>) -> (r: usize)
    ensures
        r == player_items(*v).len(),
        r <= MAX_PLAYERS,
{
    v.len()
}

/// Indexing through the slice that the vector dereferences to.
#[verifier::external_body]
pub(crate) fn players_get(v: &ArrayVec<Player, MAX_PLAYERS>, i: usize) -> (r: &Player)
    requires
        i < player_items(*v).len(),
    ensures
        *r == player_items(*v)[i as int],
{
    &v[i]
}

/// Puts `x` in slot `i` of the mutable slice and hands back the player that
/// was there.
#[verifier::external_body]
pub(crate) fn players_replace(v: &mut ArrayVec<Player, MAX_PLAYERS>, i: usize, x: Player) -> (r: Player)
    requires
        i < player_items(*old(v)).len(),
    ensures
        r == player_items(*old(v))[i as int],
        player_items(*final(v)) == player_items(*old(v)).update(i as int, x),
{
    core::mem::replace(&mut v[i], x)
}

// ---------------------------------------------------------------------------
// Plays of a trick: `ArrayVec<Play, MAX_PLAYERS>`.
/// The plays held by a vector of plays, in order.
pub uninterp spec fn play_items(v: ArrayVec<Play, MAX_PLAYERS>) -> Seq<Play>;

/// `ArrayVec::new`: an empty vector.
#[verifier::external_body]
pub(crate) fn plays_new() -> (r: ArrayVec<Play, MAX_PLAYERS>)
    ensures
        play_items(r) == Seq::<Play>::empty(),
{
    ArrayVec::new()
}

/// `ArrayVec::push`: appends a play; room is required.
#[verifier::external_body]
pub(crate) fn plays_push(v: &mut ArrayVec<Play, MAX_PLAYERS>, x: Play)
    requires
        play_items(*old(v)).len() < MAX_PLAYERS,
    ensures
        play_items(*final(v)) == play_items(*old(v)).push(x),
{
    v.push(x)
}

/// `ArrayVec::len`.
#[verifier::external_body]
pub(crate) fn plays_len(v: &ArrayVec<Play, MAX_PLAYERS>) -> (r: usize)
    ensures
        r == play_items(*v).len(),
        r <= MAX_PLAYERS,
{
    v.len()
}

/// Indexing through the slice that the vector dereferences to.
#[verifier::external_body]
pub(crate) fn plays_get(v: &ArrayVec<Play, MAX_PLAYERS>, i: usize) -> (r: &Play)
    requires
        i < play_items(*v).len(),
    ensures
        *r == play_items(*v)[i as int],
{
    &v[i]
}

/// Assignment through the mutable slice that the vector dereferences to.
#[verifier::external_body]
pub(crate) fn plays_set(v: &mut ArrayVec<Play, MAX_PLAYERS>, i: usize, x: Play)
    requires
        i < play_items(*old(v)).len(),
    ensures
        play_items(*final(v)) == play_items(*old(v)).update(i as int, x),
{
    v[i] = x;
}

/// `ArrayVec::clear`: removes every play.
#[verifier::external_body]
pub(crate) fn plays_clear(v: &mut ArrayVec<Play, MAX_PLAYERS>)
    ensures
        play_items(*final(v)) == Seq::<Play>::empty(),
{
    v.clear()
}

/// `ArrayVec::clone`: a vector holding copies of the same plays (`Play` is
/// `Copy`, so each copy is the same value).
#[verifier::external_body]
pub(crate) fn plays_clone(v: &ArrayVec<Play, MAX_PLAYERS>) -> (r: ArrayVec<Play, MAX_PLAYERS>)
    ensures
        play_items(r) == play_items(*v),
{
    v.clone()
}

// ---------------------------------------------------------------------------
// Legal actions: `ArrayVec<Combo, MAX_LEGAL_ACTIONS>`.
/// The combos held by a vector of actions, in order.
pub uninterp spec fn combo_items(v: ArrayVec<Combo, MAX_LEGAL_ACTIONS>) -> Seq<Combo>;

/// `ArrayVec::new`: an empty vector.
#[verifier::external_body]
pub(crate) fn combos_new() -> (r: ArrayVec<Combo, MAX_LEGAL_ACTIONS>)
    ensures
        combo_items(r) == Seq::<Combo>::empty(),
{
    ArrayVec::new()
}

/// `ArrayVec::push`: appends a combo; room is required.
#[verifier::external_body]
pub(crate) fn combos_push(v: &mut ArrayVec<Combo, MAX_LEGAL_ACTIONS>, x: Combo)
    requires
        combo_items(*old(v)).len() < MAX_LEGAL_ACTIONS,
    ensures
        combo_items(*final(v)) == combo_items(*old(v)).push(x),
{
    v.push(x)
}

/// `ArrayVec::len`.
#[verifier::external_body]
pub(crate) fn combos_len(v: &ArrayVec<Combo, MAX_LEGAL_ACTIONS>) -> (r: usize)
    ensures
        r == combo_items(*v).len(),
        r <= MAX_LEGAL_ACTIONS,
{
    v.len()
}

/// Indexing through the slice that the vector dereferences to.
#[verifier::external_body]
pub(crate) fn combos_get(v: &ArrayVec<Combo, MAX_LEGAL_ACTIONS>, i: usize) -> (r: Combo)
    requires
        i < combo_items(*v).len(),
    ensures
        r == combo_items(*v)[i as int],
{
    v[i]
}

// ---------------------------------------------------------------------------
// Opponents seen by one player: `ArrayVec<OpponentView, MAX_OPPONENTS>`.
/// The opponent summaries held by a vector, in order.
pub uninterp spec fn opponent_items(v: ArrayVec<OpponentView, MAX_OPPONENTS>) -> Seq<OpponentView>;

/// `ArrayVec::new`: an empty vector.
#[verifier::external_body]
pub(crate) fn opponents_new() -> (r: ArrayVec<OpponentView, MAX_OPPONENTS>)
    ensures
        opponent_items(r) == Seq::<OpponentView>::empty(),
{
    ArrayVec::new()
}

/// `ArrayVec::push`: appends a summary; room is required.
#[verifier::external_body]
pub(crate) fn opponents_push(v: &mut ArrayVec<OpponentView, MAX_OPPONENTS>, x: OpponentView)
    requires
        opponent_items(*old(v)).len() < MAX_OPPONENTS,
    ensures
        opponent_items(*final(v)) == opponent_items(*old(v)).push(x),
{
    v.push(x)
}

} // verus!
