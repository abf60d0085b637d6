//! The rules of the game as functions on values: which combos a hand may play,
//! what a play does to the table, how a finished trick is ranked and paid, and
//! the invariant that every reachable table keeps.
use crate::constants::{
    EMPTY_HANDS_TO_END_GAME, MAX_COUNT_PER_RANK, MAX_PLAYERS, MAX_POINTS_VALUE, MAX_RANK,
    MIN_PLAYERS,
};
use crate::game::combo::{kind_valid, strength, ComboKind};
use crate::game::play::Play;
use crate::game::player::{hand_total, hand_within_limits, PlayerModel};
use crate::game::trick_type::TrickType;
use vstd::prelude::*;

verus! {

/// The whole table, as a value.
pub struct GameModel {
    pub available_points: Seq<u8>,
    pub players: Seq<PlayerModel>,
    pub current_trick: Seq<Play>,
    pub current_trick_type: TrickType,
    pub current_player_index: u8,
    pub active_player_count: u8,
    pub is_game_over: bool,
}

// ---------------------------------------------------------------------------
// Cards of a combo.

/// How many cards of each rank a combo uses (entry `i` is rank `i + 1`).
pub open spec fn combo_cards(k: ComboKind) -> Seq<u8> {
    Seq::new(
        MAX_RANK as nat,
        |i: int|
            match k {
                ComboKind::Single { rank } => if rank == i + 1 { 1u8 } else { 0u8 },
                ComboKind::Group { rank, count } => if rank == i + 1 { count } else { 0u8 },
                ComboKind::Run { start, end } => if start <= i + 1 <= end { 1u8 } else { 0u8 },
            },
    )
}

/// The hand holds every card the combo uses.
pub open spec fn playable(hand: Seq<u8>, k: ComboKind) -> bool {
    forall|i: int| 0 <= i < MAX_RANK ==> #[trigger] combo_cards(k)[i] <= hand[i]
}

/// The hand once the combo's cards are taken out of it.
pub open spec fn remove_combo(hand: Seq<u8>, k: ComboKind) -> Seq<u8> {
    Seq::new(MAX_RANK as nat, |i: int| (hand[i] - combo_cards(k)[i]) as u8)
}

/// A set may not join a run trick, and a run may not join a set trick.
pub open spec fn compatible(tt: TrickType, k: ComboKind) -> bool {
    &&& tt == TrickType::Run ==> !(k is Group)
    &&& tt == TrickType::Group ==> !(k is Run)
}

/// A set or a run fixes the type of the trick; a single leaves it alone.
pub open spec fn trick_type_after(tt: TrickType, k: ComboKind) -> TrickType {
    match k {
        ComboKind::Single { .. } => tt,
        ComboKind::Group { .. } => TrickType::Group,
        ComboKind::Run { .. } => TrickType::Run,
    }
}

// ---------------------------------------------------------------------------
// Legal actions.

/// How many consecutive ranks, starting at `rank`, the hand holds at least one
/// card of.
pub open spec fn run_reach(hand: Seq<u8>, rank: int) -> nat
    decreases MAX_RANK + 1 - rank,
{
    if rank < 1 || rank > MAX_RANK || hand[rank - 1] < 1 {
        0
    } else {
        1 + run_reach(hand, rank + 1)
    }
}

/// The actions that start at `rank`, in the order they are offered: the
/// single, then sets of two or more, then runs by increasing top rank.
pub open spec fn rank_actions(hand: Seq<u8>, tt: TrickType, rank: int) -> Seq<ComboKind> {
    let count = hand[rank - 1];
    if count == 0 {
        Seq::empty()
    } else {
        seq![ComboKind::Single { rank: rank as u8 }] + (if tt != TrickType::Run {
            Seq::new(
                (count - 1) as nat,
                |k: int| ComboKind::Group { rank: rank as u8, count: (k + 2) as u8 },
            )
        } else {
            Seq::empty()
        }) + (if tt != TrickType::Group {
            Seq::new(
                run_reach(hand, rank + 1),
                |k: int| ComboKind::Run { start: rank as u8, end: (rank + 1 + k) as u8 },
            )
        } else {
            Seq::empty()
        })
    }
}

/// The actions that start at rank `rank` or below, lowest rank first.
pub open spec fn actions_upto(hand: Seq<u8>, tt: TrickType, rank: int) -> Seq<ComboKind>
    decreases rank,
{
    if rank < 1 {
        Seq::empty()
    } else {
        actions_upto(hand, tt, rank - 1) + rank_actions(hand, tt, rank)
    }
}

/// Every action a hand may take in a trick of the given type, rank by rank.
pub open spec fn legal_kinds(hand: Seq<u8>, tt: TrickType) -> Seq<ComboKind> {
    actions_upto(hand, tt, MAX_RANK as int)
}

/// A bound on the number of actions that start at rank `rank` or below.
pub open spec fn actions_cap(rank: int) -> int
    decreases rank,
{
    if rank < 1 {
        0
    } else {
        actions_cap(rank - 1) + 16 - rank
    }
}

// ---------------------------------------------------------------------------
// Turn order.

pub open spec fn has_cards(p: PlayerModel) -> bool {
    hand_total(p.hand) != 0
}

/// From seat `idx`, move on one seat at a time, at most `steps` times, and stop
/// at the first seat whose hand is not empty.
pub open spec fn next_turn(players: Seq<PlayerModel>, idx: int, steps: nat) -> int
    decreases steps,
{
    if steps == 0 {
        idx
    } else {
        let j = (idx + 1) % (players.len() as int);
        if has_cards(players[j]) {
            j
        } else {
            next_turn(players, j, (steps - 1) as nat)
        }
    }
}

/// From seat `idx` itself, the first of `steps` seats whose hand is not empty;
/// `idx` when there is none.
pub open spec fn first_with_cards(players: Seq<PlayerModel>, idx: int, steps: nat) -> int
    decreases steps,
{
    if steps == 0 {
        idx
    } else if has_cards(players[idx]) {
        idx
    } else {
        first_with_cards(players, (idx + 1) % (players.len() as int), (steps - 1) as nat)
    }
}

pub open spec fn has_uid(players: Seq<PlayerModel>, uid: u8) -> bool {
    exists|i: int| 0 <= i < players.len() && #[trigger] players[i].uid == uid
}

/// The seat of the player with `uid`.
pub open spec fn uid_index(players: Seq<PlayerModel>, uid: u8) -> int {
    choose|i: int| 0 <= i < players.len() && #[trigger] players[i].uid == uid
}

pub open spec fn uids_unique(players: Seq<PlayerModel>) -> bool {
    forall|i: int, j: int|
        0 <= i < players.len() && 0 <= j < players.len() && #[trigger] players[i].uid
            == #[trigger] players[j].uid ==> i == j
}

/// Number of players among the first `k` whose hand is not empty.
pub open spec fn count_with_cards(players: Seq<PlayerModel>, k: int) -> int
    decreases k,
{
    if k <= 0 {
        0
    } else {
        count_with_cards(players, k - 1) + if has_cards(players[k - 1]) { 1int } else { 0int }
    }
}

// ---------------------------------------------------------------------------
// Ranking a finished trick.

/// Puts `x` into a trick ranked strongest first, behind every play at least
/// as strong, so that equal plays keep the order in which they were made.
pub open spec fn insert_play(ranked: Seq<Play>, x: Play) -> Seq<Play>
    decreases ranked.len(),
{
    if ranked.len() == 0 {
        seq![x]
    } else if strength(ranked.last().combo@) >= strength(x.combo@) {
        ranked.push(x)
    } else {
        insert_play(ranked.drop_last(), x).push(ranked.last())
    }
}

/// The trick ranked strongest first; equal plays stay in the order played.
pub open spec fn rank_plays(trick: Seq<Play>) -> Seq<Play>
    decreases trick.len(),
{
    if trick.len() == 0 {
        trick
    } else {
        insert_play(rank_plays(trick.drop_last()), trick.last())
    }
}

/// No set and run in the same trick, so that every two plays compare.
pub open spec fn consistent_trick(trick: Seq<Play>) -> bool {
    forall|i: int, j: int|
        0 <= i < trick.len() && 0 <= j < trick.len() ==> !(#[trigger] trick[i].combo@ is Group
            && #[trigger] trick[j].combo@ is Run)
}

// ---------------------------------------------------------------------------
// Points.

/// Pays `pts[i]` to the player of `ranked[i]`, for every point value.
pub open spec fn award(players: Seq<PlayerModel>, ranked: Seq<Play>, pts: Seq<u8>) -> Seq<
    PlayerModel,
>
    decreases pts.len(),
{
    if pts.len() == 0 {
        players
    } else {
        let prev = award(players, ranked, pts.drop_last());
        let i = pts.len() - 1;
        let who = uid_index(prev, ranked[i].player_uid);
        prev.update(who, PlayerModel { points: (prev[who].points + pts[i]) as u8, ..prev[who] })
    }
}

/// Cards of each rank in a trick (entry `i` is rank `i + 1`).
pub open spec fn trick_counts(trick: Seq<Play>) -> Seq<int>
    decreases trick.len(),
{
    if trick.len() == 0 {
        Seq::new(MAX_RANK as nat, |i: int| 0int)
    } else {
        let prev = trick_counts(trick.drop_last());
        let cards = combo_cards(trick.last().combo@);
        Seq::new(MAX_RANK as nat, |i: int| prev[i] + cards[i])
    }
}

/// How many point values of `value` a trick with these rank counts yields:
/// each pair of a rank is worth twice the rank, a leftover card its rank.
pub open spec fn point_candidates(counts: Seq<int>, value: int) -> int {
    (if 1 <= value <= MAX_RANK {
        counts[value - 1] % 2
    } else {
        0
    }) + (if value % 2 == 0 && 1 <= value / 2 <= MAX_RANK {
        counts[value / 2 - 1] / 2
    } else {
        0
    })
}

/// The largest candidate values, at most `room` of them, largest first,
/// taken from `value` down to 1.
pub open spec fn take_points(counts: Seq<int>, value: int, room: int) -> Seq<u8>
    decreases value,
{
    if value < 1 {
        Seq::empty()
    } else {
        let c = point_candidates(counts, value);
        let k = if c < room { c } else { room };
        let k = if k < 0 { 0 } else { k };
        Seq::new(k as nat, |i: int| value as u8) + take_points(counts, value - 1, room - k)
    }
}

/// The point values on offer for the next trick.
pub open spec fn next_points(trick: Seq<Play>, room: int) -> Seq<u8> {
    take_points(trick_counts(trick), MAX_POINTS_VALUE as int, room)
}

// ---------------------------------------------------------------------------
// One action.

/// The current player plays `c`: the cards leave the hand, the play joins the
/// trick, the trick type follows the play, and the turn passes to the next
/// player who still holds cards.
pub open spec fn after_play(m: GameModel, c: crate::game::combo::Combo) -> GameModel {
    let cur = m.current_player_index as int;
    let p = m.players[cur];
    let players = m.players.update(cur, PlayerModel { hand: remove_combo(p.hand, c@), ..p });
    GameModel {
        players,
        current_trick: m.current_trick.push(Play { player_uid: p.uid, combo: c }),
        current_trick_type: trick_type_after(m.current_trick_type, c@),
        current_player_index: next_turn(players, cur, players.len()) as u8,
        ..m
    }
}

/// Settles a full trick: the trick is ranked, the strongest play leads the next
/// trick (or the first player after it who holds cards), the i-th best play
/// wins the i-th largest point value, and either the game ends or the next
/// trick opens with fresh point values.
pub open spec fn resolve_trick(m: GameModel) -> GameModel {
    let ranked = rank_plays(m.current_trick);
    let n = m.players.len();
    let winner = uid_index(m.players, ranked[0].player_uid);
    let lead = first_with_cards(m.players, winner, n);
    let players = award(m.players, ranked, m.available_points);
    let active = count_with_cards(m.players, n as int);
    if active <= n - EMPTY_HANDS_TO_END_GAME {
        GameModel {
            players,
            current_trick: ranked,
            current_player_index: lead as u8,
            is_game_over: true,
            ..m
        }
    } else {
        GameModel {
            available_points: next_points(ranked, active),
            players,
            current_trick: Seq::empty(),
            current_trick_type: TrickType::Open,
            current_player_index: lead as u8,
            active_player_count: active as u8,
            is_game_over: false,
        }
    }
}

/// What the current player playing `c` does to the table.
pub open spec fn apply_combo(m: GameModel, c: crate::game::combo::Combo) -> GameModel {
    let played = after_play(m, c);
    if played.current_trick.len() == m.active_player_count {
        resolve_trick(played)
    } else {
        played
    }
}

// ---------------------------------------------------------------------------
// The invariant.

/// Rank-weighted value of a hand: each card is worth its rank.
pub open spec fn hand_value(h: Seq<u8>) -> int {
    h[0] + 2 * h[1] + 3 * h[2] + 4 * h[3] + 5 * h[4] + 6 * h[5]
}

/// Rank-weighted value of per-rank counts.
pub open spec fn counts_value(c: Seq<int>) -> int {
    c[0] + 2 * c[1] + 3 * c[2] + 4 * c[3] + 5 * c[4] + 6 * c[5]
}

pub open spec fn points_sum(s: Seq<u8>) -> int
    decreases s.len(),
{
    if s.len() == 0 {
        0
    } else {
        points_sum(s.drop_last()) + s.last()
    }
}

pub open spec fn score_sum(players: Seq<PlayerModel>) -> int
    decreases players.len(),
{
    if players.len() == 0 {
        0
    } else {
        score_sum(players.drop_last()) + players.last().points
    }
}

pub open spec fn hands_value(players: Seq<PlayerModel>) -> int
    decreases players.len(),
{
    if players.len() == 0 {
        0
    } else {
        hands_value(players.drop_last()) + hand_value(players.last().hand)
    }
}

/// Everything on the table that is or can become points: scores, the point
/// values on offer (while the game runs), the cards in hands and in the trick.
pub open spec fn table_value(m: GameModel) -> int {
    score_sum(m.players) + (if m.is_game_over {
        0
    } else {
        points_sum(m.available_points)
    }) + hands_value(m.players) + counts_value(trick_counts(m.current_trick))
}

/// The value of a full deck: ten cards of each rank 1 to 6.
pub open spec fn deck_value() -> int {
    (MAX_COUNT_PER_RANK * (1 + 2 + 3 + 4 + 5 + 6)) as int
}

/// What holds of every table that the game can reach: it is sound, the
/// scores together with everything that can still become points never exceed
/// the value of a full deck, and the point values on offer are largest first.
pub open spec fn model_wf(m: GameModel) -> bool {
    &&& model_sound(m)
    &&& table_value(m) <= deck_value()
    &&& turn_ready(m)
    &&& crate::game::deal::sorted_desc(m.available_points)
}

/// While the game runs, the players who still hold cards, together with the
/// plays already in the trick, cover every active player, and the player to
/// move holds cards.
pub open spec fn turn_ready(m: GameModel) -> bool {
    !m.is_game_over ==> {
        &&& count_with_cards(m.players, m.players.len() as int) + m.current_trick.len()
            >= m.active_player_count
        &&& has_cards(m.players[m.current_player_index as int])
    }
}

/// Paying out the point values on offer keeps every score within `u8`.
pub open spec fn payout_fits(m: GameModel) -> bool {
    !m.is_game_over ==> score_sum(m.players) + points_sum(m.available_points) <= u8::MAX
}

/// The shape of a table: seats, seat limits, the turn, the trick and its
/// type agree with each other.
pub open spec fn model_sound(m: GameModel) -> bool {
    let n = m.players.len();
    &&& MIN_PLAYERS <= n <= MAX_PLAYERS
    &&& uids_unique(m.players)
    &&& forall|i: int| 0 <= i < n ==> hand_within_limits(#[trigger] m.players[i].hand)
    &&& m.current_player_index < n
    &&& m.active_player_count <= n
    &&& m.available_points.len() <= m.active_player_count
    &&& m.current_trick.len() <= MAX_PLAYERS
    &&& !m.is_game_over ==> m.current_trick.len() < m.active_player_count
    &&& m.is_game_over ==> m.current_trick.len() >= m.active_player_count
    &&& forall|i: int|
        0 <= i < m.current_trick.len() ==> kind_valid(#[trigger] m.current_trick[i].combo@)
            && has_uid(m.players, m.current_trick[i].player_uid)
    &&& forall|i: int|
        0 <= i < m.current_trick.len() ==> (#[trigger] m.current_trick[i].combo@ is Group
            ==> m.current_trick_type == TrickType::Group) && (m.current_trick[i].combo@ is Run
            ==> m.current_trick_type == TrickType::Run)
}

// ---------------------------------------------------------------------------
// Facts about the sums.

/// A valid combo uses at most `MAX_COUNT_PER_RANK` cards of any rank.
pub proof fn lemma_combo_cards_bounds(k: ComboKind)
    requires
        kind_valid(k),
    ensures
        combo_cards(k).len() == MAX_RANK,
        forall|i: int| 0 <= i < MAX_RANK ==> #[trigger] combo_cards(k)[i] <= MAX_COUNT_PER_RANK,
{
}

/// Each rank count of a trick of valid combos is at most ten per play.
pub proof fn lemma_trick_counts_bounds(trick: Seq<Play>)
    requires
        forall|i: int| 0 <= i < trick.len() ==> kind_valid(#[trigger] trick[i].combo@),
    ensures
        trick_counts(trick).len() == MAX_RANK,
        forall|r: int|
            0 <= r < MAX_RANK ==> 0 <= #[trigger] trick_counts(trick)[r] <= MAX_COUNT_PER_RANK
                * trick.len(),
    decreases trick.len(),
{
    if trick.len() > 0 {
        let t0 = trick.drop_last();
        assert forall|i: int| 0 <= i < t0.len() implies kind_valid(#[trigger] t0[i].combo@) by {
            assert(t0[i] == trick[i]);
        }
        lemma_trick_counts_bounds(t0);
        lemma_combo_cards_bounds(trick.last().combo@);
    }
}

pub proof fn lemma_points_sum_nonneg(s: Seq<u8>)
    ensures
        points_sum(s) >= 0,
    decreases s.len(),
{
    if s.len() > 0 {
        lemma_points_sum_nonneg(s.drop_last());
    }
}

pub proof fn lemma_score_sum_nonneg(players: Seq<PlayerModel>)
    ensures
        score_sum(players) >= 0,
    decreases players.len(),
{
    if players.len() > 0 {
        lemma_score_sum_nonneg(players.drop_last());
    }
}

pub proof fn lemma_score_sum_zero(players: Seq<PlayerModel>)
    requires
        forall|i: int| 0 <= i < players.len() ==> #[trigger] players[i].points == 0,
    ensures
        score_sum(players) == 0,
    decreases players.len(),
{
    if players.len() > 0 {
        let p0 = players.drop_last();
        assert forall|i: int| 0 <= i < p0.len() implies #[trigger] p0[i].points == 0 by {
            assert(p0[i] == players[i]);
        }
        lemma_score_sum_zero(p0);
        assert(players[players.len() - 1].points == 0);
    }
}

/// Changing one player changes the sums by the difference.
pub proof fn lemma_sums_update(players: Seq<PlayerModel>, k: int, q: PlayerModel)
    requires
        0 <= k < players.len(),
    ensures
        score_sum(players.update(k, q)) == score_sum(players) - players[k].points + q.points,
        hands_value(players.update(k, q)) == hands_value(players) - hand_value(players[k].hand)
            + hand_value(q.hand),
    decreases players.len(),
{
    let u = players.update(k, q);
    if k == players.len() - 1 {
        assert(u.drop_last() =~= players.drop_last());
    } else {
        assert(u.drop_last() =~= players.drop_last().update(k, q));
        lemma_sums_update(players.drop_last(), k, q);
    }
}

/// One player's score is part of the total score.
pub proof fn lemma_score_le_sum(players: Seq<PlayerModel>, k: int)
    requires
        0 <= k < players.len(),
    ensures
        players[k].points <= score_sum(players),
    decreases players.len(),
{
    lemma_score_sum_nonneg(players.drop_last());
    if k < players.len() - 1 {
        lemma_score_le_sum(players.drop_last(), k);
    }
}

/// Paying out point values changes nothing but scores, and raises the total
/// score by the sum of the values paid, as long as no score leaves `u8`.
pub proof fn lemma_award(players: Seq<PlayerModel>, ranked: Seq<Play>, pts: Seq<u8>)
    requires
        uids_unique(players),
        pts.len() <= ranked.len(),
        forall|i: int| 0 <= i < pts.len() ==> has_uid(players, #[trigger] ranked[i].player_uid),
        score_sum(players) + points_sum(pts) <= u8::MAX,
    ensures
        award(players, ranked, pts).len() == players.len(),
        forall|j: int|
            0 <= j < players.len() ==> (#[trigger] award(players, ranked, pts)[j]).uid
                == players[j].uid && award(players, ranked, pts)[j].hand == players[j].hand,
        score_sum(award(players, ranked, pts)) == score_sum(players) + points_sum(pts),
        hands_value(award(players, ranked, pts)) == hands_value(players),
        uids_unique(award(players, ranked, pts)),
    decreases pts.len(),
{
    if pts.len() > 0 {
        let p0 = pts.drop_last();
        lemma_points_sum_nonneg(p0);
        lemma_award(players, ranked, p0);
        let prev = award(players, ranked, p0);
        let i = pts.len() - 1;
        let uid = ranked[i].player_uid;
        assert(has_uid(players, uid));
        let j0 = choose|j: int| 0 <= j < players.len() && #[trigger] players[j].uid == uid;
        assert(prev[j0].uid == uid);
        assert(has_uid(prev, uid));
        let who = uid_index(prev, uid);
        lemma_score_le_sum(prev, who);
        let q = PlayerModel { points: (prev[who].points + pts[i]) as u8, ..prev[who] };
        lemma_sums_update(prev, who, q);
        let res = award(players, ranked, pts);
        assert(res == prev.update(who, q));
        assert forall|a: int, b: int|
            0 <= a < res.len() && 0 <= b < res.len() && #[trigger] res[a].uid == #[trigger] res[b].uid
            implies a == b by {
            assert(prev[a].uid == res[a].uid);
            assert(prev[b].uid == res[b].uid);
        }
    }
}

// ---------------------------------------------------------------------------
// Facts about turn order and counting.

pub proof fn lemma_next_turn_bounds(players: Seq<PlayerModel>, idx: int, steps: nat)
    requires
        players.len() > 0,
        0 <= idx < players.len(),
    ensures
        0 <= next_turn(players, idx, steps) < players.len(),
    decreases steps,
{
    if steps > 0 {
        let j = (idx + 1) % (players.len() as int);
        lemma_next_turn_bounds(players, j, (steps - 1) as nat);
    }
}

pub proof fn lemma_first_with_cards_bounds(players: Seq<PlayerModel>, idx: int, steps: nat)
    requires
        players.len() > 0,
        0 <= idx < players.len(),
    ensures
        0 <= first_with_cards(players, idx, steps) < players.len(),
    decreases steps,
{
    if steps > 0 && !has_cards(players[idx]) {
        lemma_first_with_cards_bounds(players, (idx + 1) % (players.len() as int), (steps - 1) as nat);
    }
}

pub proof fn lemma_count_with_cards_bounds(players: Seq<PlayerModel>, k: int)
    ensures
        k >= 0 ==> 0 <= count_with_cards(players, k) <= k,
    decreases k,
{
    if k > 0 {
        lemma_count_with_cards_bounds(players, k - 1);
    }
}

/// Some seat holds cards when the count of such seats is positive.
pub proof fn lemma_count_with_cards_witness(players: Seq<PlayerModel>, k: int)
    requires
        0 <= k <= players.len(),
        count_with_cards(players, k) > 0,
    ensures
        exists|j: int| 0 <= j < k && has_cards(#[trigger] players[j]),
    decreases k,
{
    if k > 0 {
        if !has_cards(players[k - 1]) {
            lemma_count_with_cards_witness(players, k - 1);
            let j = choose|j: int| 0 <= j < k - 1 && has_cards(#[trigger] players[j]);
            assert(has_cards(players[j]));
        } else {
            assert(has_cards(players[k - 1]));
        }
    }
}

/// Every seat holds cards: the count is the number of seats.
pub proof fn lemma_count_with_cards_all(players: Seq<PlayerModel>, k: int)
    requires
        0 <= k <= players.len(),
        forall|j: int| 0 <= j < k ==> has_cards(#[trigger] players[j]),
    ensures
        count_with_cards(players, k) == k,
    decreases k,
{
    if k > 0 {
        lemma_count_with_cards_all(players, k - 1);
        assert(has_cards(players[k - 1]));
    }
}

/// Changing one seat changes the count by at most one.
pub proof fn lemma_count_with_cards_update(players: Seq<PlayerModel>, i: int, q: PlayerModel, k: int)
    requires
        0 <= i < players.len(),
        0 <= k <= players.len(),
    ensures
        count_with_cards(players.update(i, q), k) >= count_with_cards(players, k) - 1,
        has_cards(q) == has_cards(players[i]) ==> count_with_cards(players.update(i, q), k)
            == count_with_cards(players, k),
    decreases k,
{
    if k > 0 {
        lemma_count_with_cards_update(players, i, q, k - 1);
        if k - 1 != i {
            assert(players.update(i, q)[k - 1] == players[k - 1]);
        }
        if k - 1 > i {
            assert(count_with_cards(players.update(i, q), k - 1) >= count_with_cards(players, k - 1) - 1);
        } else if k - 1 == i {
            lemma_count_unchanged_below(players, i, q, k - 1);
        }
    }
}

/// Seats at or past `i` do not count among the first `k <= i`.
pub proof fn lemma_count_unchanged_below(players: Seq<PlayerModel>, i: int, q: PlayerModel, k: int)
    requires
        0 <= i < players.len(),
        0 <= k <= i,
    ensures
        count_with_cards(players.update(i, q), k) == count_with_cards(players, k),
    decreases k,
{
    if k > 0 {
        lemma_count_unchanged_below(players, i, q, k - 1);
        assert(players.update(i, q)[k - 1] == players[k - 1]);
    }
}

/// Moving on from `idx` finds a seat with cards whenever one of the seats
/// passed over holds cards.
pub proof fn lemma_next_turn_finds(players: Seq<PlayerModel>, idx: int, steps: nat, d: int)
    requires
        players.len() > 0,
        0 <= idx < players.len(),
        1 <= d <= steps,
        has_cards(players[(idx + d) % (players.len() as int)]),
    ensures
        has_cards(players[next_turn(players, idx, steps)]),
    decreases steps,
{
    let n = players.len() as int;
    let j = (idx + 1) % n;
    if !has_cards(players[j]) {
        assert(d > 1);
        assert((j + (d - 1)) % n == (idx + d) % n) by {
            if idx + 1 == n {
                vstd::arithmetic::div_mod::lemma_mod_self_0(n);
                assert(j == 0);
                vstd::arithmetic::div_mod::lemma_mod_add_multiples_vanish(d - 1, n);
            } else {
                vstd::arithmetic::div_mod::lemma_small_mod((idx + 1) as nat, n as nat);
            }
        }
        lemma_next_turn_finds(players, j, (steps - 1) as nat, d - 1);
    }
}

/// Starting at `idx` finds a seat with cards whenever one of the seats looked
/// at holds cards.
pub proof fn lemma_first_with_cards_finds(players: Seq<PlayerModel>, idx: int, steps: nat, d: int)
    requires
        players.len() > 0,
        0 <= idx < players.len(),
        0 <= d < steps,
        has_cards(players[(idx + d) % (players.len() as int)]),
    ensures
        has_cards(players[first_with_cards(players, idx, steps)]),
    decreases steps,
{
    let n = players.len() as int;
    if !has_cards(players[idx]) {
        assert(d > 0) by {
            vstd::arithmetic::div_mod::lemma_small_mod(idx as nat, n as nat);
        }
        let j = (idx + 1) % n;
        assert((j + (d - 1)) % n == (idx + d) % n) by {
            if idx + 1 == n {
                vstd::arithmetic::div_mod::lemma_mod_self_0(n);
                assert(j == 0);
                vstd::arithmetic::div_mod::lemma_mod_add_multiples_vanish(d - 1, n);
            } else {
                vstd::arithmetic::div_mod::lemma_small_mod((idx + 1) as nat, n as nat);
            }
        }
        lemma_first_with_cards_finds(players, j, (steps - 1) as nat, d - 1);
    }
}

/// Counting non-empty hands looks at hands only.
pub proof fn lemma_count_with_cards_same_hands(a: Seq<PlayerModel>, b: Seq<PlayerModel>, k: int)
    requires
        0 <= k <= a.len(),
        a.len() == b.len(),
        forall|i: int| 0 <= i < a.len() ==> (#[trigger] a[i]).hand == b[i].hand,
    ensures
        count_with_cards(a, k) == count_with_cards(b, k),
    decreases k,
{
    if k > 0 {
        lemma_count_with_cards_same_hands(a, b, k - 1);
        assert(a[k - 1].hand == b[k - 1].hand);
    }
}

pub proof fn lemma_points_sum_concat(a: Seq<u8>, b: Seq<u8>)
    ensures
        points_sum(a + b) == points_sum(a) + points_sum(b),
    decreases b.len(),
{
    if b.len() == 0 {
        assert(a + b =~= a);
    } else {
        lemma_points_sum_concat(a, b.drop_last());
        assert((a + b).drop_last() =~= a + b.drop_last());
    }
}

pub proof fn lemma_hands_value_nonneg(players: Seq<PlayerModel>)
    requires
        forall|i: int| 0 <= i < players.len() ==> hand_within_limits(#[trigger] players[i].hand),
    ensures
        hands_value(players) >= 0,
    decreases players.len(),
{
    if players.len() > 0 {
        let p0 = players.drop_last();
        assert forall|i: int| 0 <= i < p0.len() implies hand_within_limits(#[trigger] p0[i].hand) by {
            assert(p0[i] == players[i]);
        }
        lemma_hands_value_nonneg(p0);
        assert(hand_within_limits(players[players.len() - 1].hand));
    }
}

/// Taking a combo out of a hand lowers the hand's value by the combo's value.
pub proof fn lemma_remove_combo(hand: Seq<u8>, k: ComboKind)
    requires
        hand_within_limits(hand),
        playable(hand, k),
    ensures
        hand_within_limits(remove_combo(hand, k)),
        hand_value(remove_combo(hand, k)) == hand_value(hand) - hand_value(combo_cards(k)),
{
    let h = remove_combo(hand, k);
    let c = combo_cards(k);
    assert(c[0] <= hand[0] && c[1] <= hand[1] && c[2] <= hand[2]);
    assert(c[3] <= hand[3] && c[4] <= hand[4] && c[5] <= hand[5]);
    assert(h[0] == hand[0] - c[0] && h[1] == hand[1] - c[1] && h[2] == hand[2] - c[2]);
    assert(h[3] == hand[3] - c[3] && h[4] == hand[4] - c[4] && h[5] == hand[5] - c[5]);
}

/// Adding a play to a trick raises the trick's value by the play's value.
pub proof fn lemma_trick_counts_push(t: Seq<Play>, p: Play)
    ensures
        counts_value(trick_counts(t.push(p))) == counts_value(trick_counts(t)) + hand_value(
            combo_cards(p.combo@),
        ),
{
    assert(t.push(p).drop_last() =~= t);
    let prev = trick_counts(t);
    let c = combo_cards(p.combo@);
    let now = trick_counts(t.push(p));
    assert(now[0] == prev[0] + c[0] && now[1] == prev[1] + c[1] && now[2] == prev[2] + c[2]);
    assert(now[3] == prev[3] + c[3] && now[4] == prev[4] + c[4] && now[5] == prev[5] + c[5]);
}

/// Ranking a trick moves its plays around but keeps its cards.
pub proof fn lemma_trick_counts_insert(r: Seq<Play>, x: Play)
    ensures
        trick_counts(insert_play(r, x)) =~= Seq::new(
            MAX_RANK as nat,
            |i: int| trick_counts(r)[i] + combo_cards(x.combo@)[i],
        ),
    decreases r.len(),
{
    let cx = combo_cards(x.combo@);
    if r.len() == 0 {
        assert(seq![x].drop_last() =~= Seq::<Play>::empty());
        assert(seq![x].last() == x);
        let z = trick_counts(Seq::<Play>::empty());
        assert(trick_counts(seq![x]) == Seq::new(MAX_RANK as nat, |i: int| z[i] + cx[i]));
    } else if strength(r.last().combo@) >= strength(x.combo@) {
        assert(r.push(x).drop_last() =~= r);
    } else {
        let r0 = r.drop_last();
        let last = r.last();
        let cl = combo_cards(last.combo@);
        lemma_trick_counts_insert(r0, x);
        let t = insert_play(r0, x);
        assert(t.push(last).drop_last() =~= t);
        assert(insert_play(r, x) == t.push(last));
        let ct = trick_counts(t);
        let c0 = trick_counts(r0);
        assert(trick_counts(t.push(last)) == Seq::new(MAX_RANK as nat, |i: int| ct[i] + cl[i]));
        assert(trick_counts(r) == Seq::new(MAX_RANK as nat, |i: int| c0[i] + cl[i]));
        assert forall|i: int| 0 <= i < MAX_RANK implies #[trigger] trick_counts(insert_play(r, x))[i]
            == trick_counts(r)[i] + cx[i] by {
            assert(ct[i] == c0[i] + cx[i]);
        }
    }
}

pub proof fn lemma_trick_counts_rank(s: Seq<Play>)
    ensures
        trick_counts(rank_plays(s)) =~= trick_counts(s),
    decreases s.len(),
{
    if s.len() > 0 {
        lemma_trick_counts_rank(s.drop_last());
        lemma_trick_counts_insert(rank_plays(s.drop_last()), s.last());
    }
}

/// Total value of the candidate point values from 1 up to `value`.
pub open spec fn candidates_value(counts: Seq<int>, value: int) -> int
    decreases value,
{
    if value < 1 {
        0
    } else {
        candidates_value(counts, value - 1) + value * point_candidates(counts, value)
    }
}

pub proof fn lemma_points_sum_repeat(k: nat, v: u8)
    ensures
        points_sum(Seq::new(k, |i: int| v)) == k * v,
    decreases k,
{
    let s = Seq::new(k, |i: int| v);
    if k > 0 {
        lemma_points_sum_repeat((k - 1) as nat, v);
        assert(s.drop_last() =~= Seq::new((k - 1) as nat, |i: int| v));
        assert(s.last() == v);
        assert(points_sum(s) == points_sum(s.drop_last()) + s.last());
        assert((k - 1) * v + v == k * v) by (nonlinear_arith);
    } else {
        assert(s.len() == 0);
    }
}

/// The point values taken never exceed the room, and never exceed in total
/// the value of the candidates.
pub proof fn lemma_take_points(counts: Seq<int>, value: int, room: int)
    requires
        counts.len() == MAX_RANK,
        forall|r: int| 0 <= r < MAX_RANK ==> 0 <= #[trigger] counts[r],
        room >= 0,
        value <= MAX_POINTS_VALUE,
    ensures
        take_points(counts, value, room).len() <= room,
        points_sum(take_points(counts, value, room)) <= candidates_value(counts, value),
    decreases value,
{
    if value >= 1 {
        let c = point_candidates(counts, value);
        assert(c >= 0);
        let k = if c < room { c } else { room };
        let rep = Seq::new(k as nat, |i: int| value as u8);
        lemma_take_points(counts, value - 1, room - k);
        lemma_points_sum_concat(rep, take_points(counts, value - 1, room - k));
        lemma_points_sum_repeat(k as nat, value as u8);
        assert(k * value <= c * value) by (nonlinear_arith)
            requires
                0 <= k <= c,
                value >= 0,
        ;
    }
}

/// Pairs and leftovers together are worth exactly the cards they come from.
pub proof fn lemma_candidates_value(counts: Seq<int>)
    requires
        counts.len() == MAX_RANK,
        forall|r: int| 0 <= r < MAX_RANK ==> 0 <= #[trigger] counts[r],
    ensures
        candidates_value(counts, MAX_POINTS_VALUE as int) == counts_value(counts),
{
    reveal_with_fuel(candidates_value, 13);
    assert(point_candidates(counts, 1) == counts[0] % 2);
    assert(point_candidates(counts, 2) == counts[1] % 2 + counts[0] / 2);
    assert(point_candidates(counts, 3) == counts[2] % 2);
    assert(point_candidates(counts, 4) == counts[3] % 2 + counts[1] / 2);
    assert(point_candidates(counts, 5) == counts[4] % 2);
    assert(point_candidates(counts, 6) == counts[5] % 2 + counts[2] / 2);
    assert(point_candidates(counts, 7) == 0);
    assert(point_candidates(counts, 8) == counts[3] / 2);
    assert(point_candidates(counts, 9) == 0);
    assert(point_candidates(counts, 10) == counts[4] / 2);
    assert(point_candidates(counts, 11) == 0);
    assert(point_candidates(counts, 12) == counts[5] / 2);
}

// ---------------------------------------------------------------------------
// What one play keeps.

/// What an action may ask of the table: the current player holds the cards,
/// and the combo fits the trick.
pub open spec fn action_allowed(m: GameModel, c: crate::game::combo::Combo) -> bool {
    &&& playable(m.players[m.current_player_index as int].hand, c@)
    &&& compatible(m.current_trick_type, c@)
    &&& m.is_game_over ==> m.current_trick.len() < MAX_PLAYERS
}

/// A full trick that can be settled.
pub open spec fn ready_to_resolve(m: GameModel) -> bool {
    let n = m.players.len();
    &&& MIN_PLAYERS <= n <= MAX_PLAYERS
    &&& uids_unique(m.players)
    &&& forall|i: int| 0 <= i < n ==> hand_within_limits(#[trigger] m.players[i].hand)
    &&& 1 <= m.current_trick.len() <= MAX_PLAYERS
    &&& m.available_points.len() <= m.current_trick.len()
    &&& consistent_trick(m.current_trick)
    &&& forall|i: int|
        0 <= i < m.current_trick.len() ==> kind_valid(#[trigger] m.current_trick[i].combo@)
            && has_uid(m.players, m.current_trick[i].player_uid)
    &&& score_sum(m.players) + points_sum(m.available_points) <= u8::MAX
}

pub proof fn lemma_after_play(m: GameModel, c: crate::game::combo::Combo)
    requires
        model_sound(m),
        kind_valid(c@),
        action_allowed(m, c),
    ensures
        ({
            let p = after_play(m, c);
            let n = m.players.len();
            &&& p.players.len() == n
            &&& forall|i: int| 0 <= i < n ==> (#[trigger] p.players[i]).uid == m.players[i].uid
            &&& uids_unique(p.players)
            &&& forall|i: int| 0 <= i < n ==> hand_within_limits(#[trigger] p.players[i].hand)
            &&& p.current_player_index < n
            &&& p.current_trick.len() == m.current_trick.len() + 1
            &&& forall|i: int|
                0 <= i < p.current_trick.len() ==> kind_valid(#[trigger] p.current_trick[i].combo@)
                    && has_uid(p.players, p.current_trick[i].player_uid)
            &&& forall|i: int|
                0 <= i < p.current_trick.len() ==> (#[trigger] p.current_trick[i].combo@ is Group
                    ==> p.current_trick_type == TrickType::Group) && (p.current_trick[i].combo@ is Run
                    ==> p.current_trick_type == TrickType::Run)
            &&& consistent_trick(p.current_trick)
            &&& score_sum(p.players) == score_sum(m.players)
            &&& table_value(p) == table_value(m)
        }),
{
    let p = after_play(m, c);
    let n = m.players.len();
    let cur = m.current_player_index as int;
    let pm = m.players[cur];
    let q = PlayerModel { hand: remove_combo(pm.hand, c@), ..pm };
    lemma_remove_combo(pm.hand, c@);
    lemma_sums_update(m.players, cur, q);
    lemma_next_turn_bounds(p.players, cur, n);
    lemma_trick_counts_push(m.current_trick, Play { player_uid: pm.uid, combo: c });
    assert forall|i: int| 0 <= i < n implies (#[trigger] p.players[i]).uid == m.players[i].uid by {}
    assert forall|i: int| 0 <= i < p.current_trick.len() implies kind_valid(
        #[trigger] p.current_trick[i].combo@,
    ) && has_uid(p.players, p.current_trick[i].player_uid) by {
        if i < m.current_trick.len() {
            assert(p.current_trick[i] == m.current_trick[i]);
            assert(kind_valid(m.current_trick[i].combo@));
            assert(has_uid(m.players, m.current_trick[i].player_uid));
            let j = choose|j: int|
                0 <= j < m.players.len() && #[trigger] m.players[j].uid
                    == m.current_trick[i].player_uid;
            assert(p.players[j].uid == m.players[j].uid);
        } else {
            assert(p.players[cur].uid == pm.uid);
        }
    }
    assert forall|i: int| 0 <= i < p.current_trick.len() implies (
    #[trigger] p.current_trick[i].combo@ is Group ==> p.current_trick_type == TrickType::Group) && (
    p.current_trick[i].combo@ is Run ==> p.current_trick_type == TrickType::Run) by {
        if i < m.current_trick.len() {
            assert(p.current_trick[i] == m.current_trick[i]);
        }
    }
}

pub proof fn lemma_counts_value_nonneg(trick: Seq<Play>)
    requires
        forall|i: int| 0 <= i < trick.len() ==> kind_valid(#[trigger] trick[i].combo@),
    ensures
        counts_value(trick_counts(trick)) >= 0,
{
    lemma_trick_counts_bounds(trick);
    assert(trick_counts(trick)[0] >= 0 && trick_counts(trick)[1] >= 0);
    assert(trick_counts(trick)[2] >= 0 && trick_counts(trick)[3] >= 0);
    assert(trick_counts(trick)[4] >= 0 && trick_counts(trick)[5] >= 0);
}

/// Settling a full trick keeps the table sound and never raises its value.
pub proof fn lemma_resolve_keeps_sound(p: GameModel)
    requires
        ready_to_resolve(p),
        !p.is_game_over,
        p.current_trick.len() == p.active_player_count,
        p.active_player_count <= p.players.len(),
        forall|i: int|
            0 <= i < p.current_trick.len() ==> (#[trigger] p.current_trick[i].combo@ is Group
                ==> p.current_trick_type == TrickType::Group) && (p.current_trick[i].combo@ is Run
                ==> p.current_trick_type == TrickType::Run),
    ensures
        model_sound(resolve_trick(p)),
        table_value(resolve_trick(p)) <= table_value(p),
{
    let n = p.players.len();
    let trick = p.current_trick;
    let ranked = rank_plays(trick);
    crate::game::ranking::lemma_rank_plays_permutation(trick);
    assert forall|i: int|
        #![trigger ranked[i]]
        0 <= i < ranked.len() implies kind_valid(ranked[i].combo@)
        && has_uid(p.players, ranked[i].player_uid) && (ranked[i].combo@ is Group
        ==> p.current_trick_type == TrickType::Group) && (ranked[i].combo@ is Run
        ==> p.current_trick_type == TrickType::Run) by {
        crate::game::ranking::lemma_rank_plays_member(trick, i);
        let k = choose|k: int| 0 <= k < trick.len() && trick[k] == ranked[i];
        assert(kind_valid(trick[k].combo@));
    }
    assert(has_uid(p.players, ranked[0].player_uid));
    assert forall|i: int| 0 <= i < p.available_points.len() implies has_uid(
        p.players,
        #[trigger] ranked[i].player_uid,
    ) by {
        assert(has_uid(p.players, ranked[i].player_uid));
    }
    let winner = uid_index(p.players, ranked[0].player_uid);
    lemma_first_with_cards_bounds(p.players, winner, n);
    lemma_award(p.players, ranked, p.available_points);
    let players = award(p.players, ranked, p.available_points);
    lemma_count_with_cards_bounds(p.players, n as int);
    let active = count_with_cards(p.players, n as int);
    lemma_trick_counts_rank(trick);
    lemma_hands_value_nonneg(p.players);
    lemma_points_sum_nonneg(p.available_points);
    let r = resolve_trick(p);
    assert forall|i: int| 0 <= i < ranked.len() implies has_uid(
        players,
        #[trigger] ranked[i].player_uid,
    ) by {
        assert(has_uid(p.players, ranked[i].player_uid));
        let j = choose|j: int|
            0 <= j < p.players.len() && #[trigger] p.players[j].uid == ranked[i].player_uid;
        assert(players[j].uid == p.players[j].uid);
    }
    assert forall|i: int| 0 <= i < n implies hand_within_limits(#[trigger] players[i].hand) by {
        assert(players[i].hand == p.players[i].hand);
    }
    if active <= n - EMPTY_HANDS_TO_END_GAME {
        assert(r.current_trick == ranked);
        assert(table_value(r) == table_value(p));
    } else {
        let counts = trick_counts(ranked);
        lemma_trick_counts_bounds(ranked);
        lemma_take_points(counts, MAX_POINTS_VALUE as int, active);
        lemma_candidates_value(counts);
        assert(trick_counts(Seq::<Play>::empty()) =~= Seq::new(MAX_RANK as nat, |i: int| 0int));
        assert(table_value(r) <= table_value(p));
    }
}

/// Every action the rules allow, whose payout fits, keeps the table sound and
/// never raises its value.
pub proof fn lemma_apply_keeps_sound(m: GameModel, c: crate::game::combo::Combo)
    requires
        model_sound(m),
        kind_valid(c@),
        action_allowed(m, c),
        payout_fits(m),
    ensures
        model_sound(apply_combo(m, c)),
        table_value(apply_combo(m, c)) <= table_value(m),
{
    let p = after_play(m, c);
    lemma_after_play(m, c);
    if p.current_trick.len() == m.active_player_count {
        assert(!m.is_game_over);
        assert(ready_to_resolve(p));
        lemma_resolve_keeps_sound(p);
    } else {
        assert(apply_combo(m, c) == p);
        assert(p.current_trick.len() <= MAX_PLAYERS);
        assert(!p.is_game_over ==> p.current_trick.len() < p.active_player_count);
        assert(MIN_PLAYERS <= p.players.len() <= MAX_PLAYERS);
        assert(p.current_player_index < p.players.len());
        assert(p.active_player_count <= p.players.len());
        assert(p.available_points.len() <= p.active_player_count);
        assert(p.is_game_over ==> p.current_trick.len() >= p.active_player_count);
        assert(model_sound(p));
    }
}

/// Every action the rules allow keeps the invariant: a table that the game
/// can reach stays one after any allowed play.
pub proof fn lemma_apply_keeps_wf(m: GameModel, c: crate::game::combo::Combo)
    requires
        model_wf(m),
        kind_valid(c@),
        action_allowed(m, c),
    ensures
        model_wf(apply_combo(m, c)),
{
    lemma_wf_payout_fits(m);
    lemma_apply_keeps_sound(m, c);
    lemma_apply_turn_ready(m, c);
    let p = after_play(m, c);
    if p.current_trick.len() == m.active_player_count {
        let ranked = rank_plays(p.current_trick);
        let active = count_with_cards(p.players, p.players.len() as int);
        lemma_take_points_sorted(trick_counts(ranked), MAX_POINTS_VALUE as int, active);
    }
}

/// The point values offered for the next trick are largest first, each
/// between 1 and the value the count starts from.
pub proof fn lemma_take_points_sorted(counts: Seq<int>, value: int, room: int)
    requires
        value <= u8::MAX,
    ensures
        crate::game::deal::sorted_desc(take_points(counts, value, room)),
        forall|i: int|
            0 <= i < take_points(counts, value, room).len() ==> 1 <= #[trigger] take_points(
                counts,
                value,
                room,
            )[i] <= value,
    decreases value,
{
    if value >= 1 {
        let c = point_candidates(counts, value);
        let k = if c < room { c } else { room };
        let k = if k < 0 { 0 } else { k };
        lemma_take_points_sorted(counts, value - 1, room - k);
        let a = Seq::new(k as nat, |i: int| value as u8);
        let b = take_points(counts, value - 1, room - k);
        let r = take_points(counts, value, room);
        assert(r == a + b);
        assert forall|i: int| 0 <= i < r.len() implies 1 <= #[trigger] r[i] <= value by {
            if i >= a.len() {
                assert(r[i] == b[i - a.len()]);
            }
        }
        assert forall|i: int, j: int| 0 <= i < j < r.len() implies #[trigger] r[i] >= #[trigger] r[j] by {
            if j < a.len() {
            } else if i < a.len() {
                assert(r[j] == b[j - a.len()]);
            } else {
                assert(r[i] == b[i - a.len()]);
                assert(r[j] == b[j - a.len()]);
            }
        }
    }
}

/// A seat `j` is `d` steps after seat `i`, for some `d` from 1 to `n`.
pub proof fn lemma_seat_after(i: int, j: int, n: int) -> (d: int)
    requires
        0 <= i < n,
        0 <= j < n,
    ensures
        1 <= d <= n,
        (i + d) % n == j,
{
    if j > i {
        vstd::arithmetic::div_mod::lemma_small_mod(j as nat, n as nat);
        j - i
    } else if j < i {
        vstd::arithmetic::div_mod::lemma_mod_add_multiples_vanish(j, n);
        vstd::arithmetic::div_mod::lemma_small_mod(j as nat, n as nat);
        assert(i + (j + n - i) == n + j);
        j + n - i
    } else {
        vstd::arithmetic::div_mod::lemma_mod_add_multiples_vanish(i, n);
        vstd::arithmetic::div_mod::lemma_small_mod(i as nat, n as nat);
        assert(i + n == n + i);
        n
    }
}

/// A seat `j` is `d` steps from seat `i`, for some `d` from 0 to `n - 1`.
pub proof fn lemma_seat_from(i: int, j: int, n: int) -> (d: int)
    requires
        0 <= i < n,
        0 <= j < n,
    ensures
        0 <= d < n,
        (i + d) % n == j,
{
    if j >= i {
        vstd::arithmetic::div_mod::lemma_small_mod(j as nat, n as nat);
        j - i
    } else {
        vstd::arithmetic::div_mod::lemma_mod_add_multiples_vanish(j, n);
        vstd::arithmetic::div_mod::lemma_small_mod(j as nat, n as nat);
        assert(i + (j + n - i) == n + j);
        j + n - i
    }
}

/// Every allowed action on a reachable table leaves a player to move who
/// holds cards, as long as the game runs.
pub proof fn lemma_apply_turn_ready(m: GameModel, c: crate::game::combo::Combo)
    requires
        model_wf(m),
        kind_valid(c@),
        action_allowed(m, c),
    ensures
        turn_ready(apply_combo(m, c)),
{
    let p = after_play(m, c);
    lemma_after_play(m, c);
    let n = m.players.len() as int;
    let cur = m.current_player_index as int;
    if !m.is_game_over {
        let pm = m.players[cur];
        let q = PlayerModel { hand: remove_combo(pm.hand, c@), ..pm };
        lemma_count_with_cards_update(m.players, cur, q, n);
        assert(p.players == m.players.update(cur, q));
        if p.current_trick.len() == m.active_player_count {
            let r = resolve_trick(p);
            let ranked = rank_plays(p.current_trick);
            let active = count_with_cards(p.players, n);
            lemma_count_with_cards_bounds(p.players, n);
            if active > n - EMPTY_HANDS_TO_END_GAME {
                crate::game::ranking::lemma_rank_plays_permutation(p.current_trick);
                lemma_wf_payout_fits(m);
                assert(ready_to_resolve(p));
                assert forall|i: int| 0 <= i < p.available_points.len() implies has_uid(
                    p.players,
                    #[trigger] ranked[i].player_uid,
                ) by {
                    crate::game::ranking::lemma_rank_plays_member(p.current_trick, i);
                    let k = choose|k: int| 0 <= k < p.current_trick.len() && p.current_trick[k] == ranked[i];
                    assert(kind_valid(p.current_trick[k].combo@));
                    assert(has_uid(p.players, p.current_trick[k].player_uid));
                }
                crate::game::ranking::lemma_rank_plays_member(p.current_trick, 0);
                let k0 = choose|k: int| 0 <= k < p.current_trick.len() && p.current_trick[k] == ranked[0];
                assert(kind_valid(p.current_trick[k0].combo@));
                assert(has_uid(p.players, p.current_trick[k0].player_uid));
                lemma_points_sum_nonneg(p.available_points);
                lemma_award(p.players, ranked, p.available_points);
                lemma_count_with_cards_same_hands(r.players, p.players, n);
                let winner = uid_index(p.players, ranked[0].player_uid);
                lemma_count_with_cards_witness(p.players, n);
                let j = choose|j: int| 0 <= j < n && has_cards(#[trigger] p.players[j]);
                let d = lemma_seat_from(winner, j, n);
                lemma_first_with_cards_finds(p.players, winner, n as nat, d);
                lemma_first_with_cards_bounds(p.players, winner, n as nat);
                let lead = first_with_cards(p.players, winner, n as nat);
                assert(r.players[lead].hand == p.players[lead].hand);
                assert(apply_combo(m, c) == r);
                assert(r.current_player_index == lead);
                assert(has_cards(r.players[r.current_player_index as int]));
                assert(r.current_trick.len() == 0);
                assert(r.active_player_count == active);
                assert(r.players.len() == n);
                assert(count_with_cards(r.players, n) == active);
                assert(turn_ready(r));
            } else {
                assert(apply_combo(m, c) == r);
                assert(r.is_game_over);
            }
        } else {
            assert(count_with_cards(p.players, n) >= 1);
            lemma_count_with_cards_witness(p.players, n);
            let j = choose|j: int| 0 <= j < n && has_cards(#[trigger] p.players[j]);
            let d = lemma_seat_after(cur, j, n);
            lemma_next_turn_finds(p.players, cur, n as nat, d);
            lemma_next_turn_bounds(p.players, cur, n as nat);
            assert(apply_combo(m, c) == p);
            assert(count_with_cards(p.players, n) + p.current_trick.len() >= p.active_player_count);
            assert(has_cards(p.players[p.current_player_index as int]));
            assert(turn_ready(p));
        }
    } else {
        assert(p.current_trick.len() != m.active_player_count);
        assert(apply_combo(m, c) == p);
    }
}

/// On a reachable table the payout always fits.
pub proof fn lemma_wf_payout_fits(m: GameModel)
    requires
        model_wf(m),
    ensures
        payout_fits(m),
{
    lemma_hands_value_nonneg(m.players);
    lemma_counts_value_nonneg(m.current_trick);
}

} // verus!
