//! Properties of the rules that hold across inputs and across calls.
use crate::constants::{valid_count, valid_rank, MAX_RANK};
use crate::game::combo::{kind_valid, ComboKind};
use crate::game::player::hand_within_limits;
use crate::game::player::{hand_total, PlayerModel};
use crate::game::rules::{
    actions_upto, compatible, legal_kinds, playable, rank_actions, run_reach, combo_cards,
    action_allowed, after_play, apply_combo, award, deck_value, has_cards, model_wf,
    rank_plays, remove_combo, resolve_trick, score_sum, GameModel,
};
use crate::game::trick_type::TrickType;
use crate::game::play::Play;
use vstd::prelude::*;

verus! {

/// The lowest rank a combo uses.
pub open spec fn start_rank(k: ComboKind) -> int {
    match k {
        ComboKind::Single { rank } => rank as int,
        ComboKind::Group { rank, .. } => rank as int,
        ComboKind::Run { start, .. } => start as int,
    }
}

proof fn lemma_concat_contains<A>(a: Seq<A>, b: Seq<A>, x: A)
    ensures
        (a + b).contains(x) <==> a.contains(x) || b.contains(x),
{
    if a.contains(x) {
        let i = choose|i: int| 0 <= i < a.len() && a[i] == x;
        assert((a + b)[i] == x);
    }
    if b.contains(x) {
        let i = choose|i: int| 0 <= i < b.len() && b[i] == x;
        assert((a + b)[a.len() + i] == x);
    }
    if (a + b).contains(x) {
        let i = choose|i: int| 0 <= i < (a + b).len() && (a + b)[i] == x;
        if i < a.len() {
            assert(a[i] == x);
        } else {
            assert(b[i - a.len()] == x);
        }
    }
}

/// A run can reach `q` ranks beyond `rank` exactly when the hand holds every
/// rank from `rank` to `rank + q`.
proof fn lemma_run_reach(hand: Seq<u8>, rank: int, q: int)
    requires
        hand.len() == MAX_RANK,
        1 <= rank,
        0 <= q,
    ensures
        q < run_reach(hand, rank) <==> (rank + q <= MAX_RANK && forall|t: int|
            rank <= t <= rank + q ==> #[trigger] hand[t - 1] >= 1),
    decreases MAX_RANK + 1 - rank,
{
    if rank > MAX_RANK || hand[rank - 1] < 1 {
    } else if q == 0 {
        assert forall|t: int| rank <= t <= rank + q implies #[trigger] hand[t - 1] >= 1 by {
            assert(t == rank);
        }
    } else {
        lemma_run_reach(hand, rank + 1, q - 1);
        if rank + q <= MAX_RANK && forall|t: int| rank <= t <= rank + q ==> #[trigger] hand[t - 1] >= 1 {
            assert forall|t: int| rank + 1 <= t <= rank + 1 + (q - 1) implies #[trigger] hand[t - 1] >= 1 by {
            }
        }
    }
}

proof fn lemma_rank_actions_contains(hand: Seq<u8>, tt: TrickType, rank: int, k: ComboKind)
    requires
        hand_within_limits(hand),
        1 <= rank <= MAX_RANK,
    ensures
        rank_actions(hand, tt, rank).contains(k) <==> (kind_valid(k) && playable(hand, k)
            && compatible(tt, k) && start_rank(k) == rank),
{
    let count = hand[rank - 1];
    assert(count <= 10);
    let single = seq![ComboKind::Single { rank: rank as u8 }];
    let sets = if tt != TrickType::Run {
        Seq::new(
            (count - 1) as nat,
            |q: int| ComboKind::Group { rank: rank as u8, count: (q + 2) as u8 },
        )
    } else {
        Seq::empty()
    };
    let runs = if tt != TrickType::Group {
        Seq::new(
            run_reach(hand, rank + 1),
            |q: int| ComboKind::Run { start: rank as u8, end: (rank + 1 + q) as u8 },
        )
    } else {
        Seq::empty()
    };
    let cards = combo_cards(k);
    if count == 0 {
        if kind_valid(k) && playable(hand, k) && start_rank(k) == rank {
            assert(cards[rank - 1] >= 1);
        }
    } else {
        assert(rank_actions(hand, tt, rank) == single + sets + runs);
        lemma_concat_contains(single + sets, runs, k);
        lemma_concat_contains(single, sets, k);
        match k {
            ComboKind::Single { rank: r } => {
                if r == rank {
                    assert(single[0] == k);
                }
                if single.contains(k) {
                    assert(cards[rank - 1] == 1);
                }
                assert(!sets.contains(k));
                assert(!runs.contains(k));
            },
            ComboKind::Group { rank: r, count: c } => {
                assert(!single.contains(k));
                assert(!runs.contains(k));
                if sets.contains(k) {
                    let q = choose|q: int| 0 <= q < sets.len() && sets[q] == k;
                    assert(cards[rank - 1] == c);
                    assert forall|i: int| 0 <= i < MAX_RANK implies #[trigger] cards[i] <= hand[i] by {}
                }
                if kind_valid(k) && playable(hand, k) && compatible(tt, k) && start_rank(k) == rank {
                    assert(cards[rank - 1] == c);
                    assert(tt != TrickType::Run);
                    assert(sets[c - 2] == k);
                }
            },
            ComboKind::Run { start: s, end: e } => {
                assert(!single.contains(k));
                assert(!sets.contains(k));
                if runs.contains(k) {
                    let q = choose|q: int| 0 <= q < runs.len() && runs[q] == k;
                    lemma_run_reach(hand, rank + 1, q);
                    assert forall|i: int| 0 <= i < MAX_RANK implies #[trigger] cards[i] <= hand[i] by {
                        if s <= i + 1 <= e {
                            if i + 1 > rank {
                                assert(hand[(i + 1) - 1] >= 1);
                            }
                        }
                    }
                }
                if kind_valid(k) && playable(hand, k) && compatible(tt, k) && start_rank(k) == rank {
                    let q = e - rank - 1;
                    assert forall|t: int| rank + 1 <= t <= rank + 1 + q implies #[trigger] hand[t - 1]
                        >= 1 by {
                        assert(cards[t - 1] == 1);
                    }
                    lemma_run_reach(hand, rank + 1, q);
                    assert(runs[q] == k);
                }
            },
        }
    }
}

proof fn lemma_actions_upto_contains(hand: Seq<u8>, tt: TrickType, rank: int, k: ComboKind)
    requires
        hand_within_limits(hand),
        0 <= rank <= MAX_RANK,
    ensures
        actions_upto(hand, tt, rank).contains(k) <==> (kind_valid(k) && playable(hand, k)
            && compatible(tt, k) && start_rank(k) <= rank),
    decreases rank,
{
    if rank == 0 {
        if kind_valid(k) {
            assert(start_rank(k) >= 1);
        }
    } else {
        lemma_actions_upto_contains(hand, tt, rank - 1, k);
        lemma_rank_actions_contains(hand, tt, rank, k);
        lemma_concat_contains(actions_upto(hand, tt, rank - 1), rank_actions(hand, tt, rank), k);
    }
}

/// The legal actions of a hand are exactly the well-formed combos whose cards
/// the hand holds and that fit the trick: a set is never offered in a run
/// trick, nor a run in a set trick.
pub proof fn lemma_legal_actions_exact(hand: Seq<u8>, tt: TrickType, k: ComboKind)
    requires
        hand_within_limits(hand),
    ensures
        legal_kinds(hand, tt).contains(k) <==> (kind_valid(k) && playable(hand, k) && compatible(
            tt,
            k,
        )),
{
    lemma_actions_upto_contains(hand, tt, MAX_RANK as int, k);
    if kind_valid(k) {
        assert(start_rank(k) <= MAX_RANK);
    }
}

/// Cards in one hand, rank by rank.
pub open spec fn hand_cards(h: Seq<u8>) -> int {
    h[0] + h[1] + h[2] + h[3] + h[4] + h[5]
}

/// Cards in all hands.
pub open spec fn cards_in_hands(players: Seq<PlayerModel>) -> int
    decreases players.len(),
{
    if players.len() == 0 {
        0
    } else {
        cards_in_hands(players.drop_last()) + hand_cards(players.last().hand)
    }
}

/// No hand holds a negative number of cards.
pub proof fn lemma_cards_in_hands_nonneg(players: Seq<PlayerModel>)
    ensures
        cards_in_hands(players) >= 0,
    decreases players.len(),
{
    if players.len() > 0 {
        lemma_cards_in_hands_nonneg(players.drop_last());
    }
}

proof fn lemma_cards_in_hands_update(players: Seq<PlayerModel>, k: int, q: PlayerModel)
    requires
        0 <= k < players.len(),
    ensures
        cards_in_hands(players.update(k, q)) == cards_in_hands(players) - hand_cards(players[k].hand)
            + hand_cards(q.hand),
    decreases players.len(),
{
    let u = players.update(k, q);
    if k == players.len() - 1 {
        assert(u.drop_last() =~= players.drop_last());
    } else {
        assert(u.drop_last() =~= players.drop_last().update(k, q));
        lemma_cards_in_hands_update(players.drop_last(), k, q);
    }
}

proof fn lemma_cards_in_hands_same_hands(a: Seq<PlayerModel>, b: Seq<PlayerModel>)
    requires
        a.len() == b.len(),
        forall|i: int| 0 <= i < a.len() ==> (#[trigger] a[i]).hand == b[i].hand,
    ensures
        cards_in_hands(a) == cards_in_hands(b),
    decreases a.len(),
{
    if a.len() > 0 {
        let a0 = a.drop_last();
        let b0 = b.drop_last();
        assert forall|i: int| 0 <= i < a0.len() implies (#[trigger] a0[i]).hand == b0[i].hand by {
            assert(a0[i] == a[i]);
            assert(b0[i] == b[i]);
        }
        lemma_cards_in_hands_same_hands(a0, b0);
        assert(a[a.len() - 1].hand == b[b.len() - 1].hand);
    }
}

/// Every allowed action on a reachable table takes at least one card out of
/// the hands, and no card ever goes back into a hand; since a full deck has
/// sixty cards, a game lasts at most sixty actions.
pub proof fn lemma_action_spends_cards(m: GameModel, c: crate::game::combo::Combo)
    requires
        model_wf(m),
        kind_valid(c@),
        action_allowed(m, c),
    ensures
        cards_in_hands(apply_combo(m, c).players) < cards_in_hands(m.players),
{
    let p = after_play(m, c);
    crate::game::rules::lemma_after_play(m, c);
    let cur = m.current_player_index as int;
    let pm = m.players[cur];
    let q = PlayerModel { hand: remove_combo(pm.hand, c@), ..pm };
    lemma_cards_in_hands_update(m.players, cur, q);
    let cards = combo_cards(c@);
    assert(hand_cards(cards) >= 1) by {
        match c@ {
            ComboKind::Single { rank } => {
                assert(cards[rank - 1] == 1);
            },
            ComboKind::Group { rank, count } => {
                assert(cards[rank - 1] == count);
            },
            ComboKind::Run { start, end } => {
                assert(cards[start - 1] == 1);
            },
        }
    }
    assert(hand_cards(q.hand) == hand_cards(pm.hand) - hand_cards(cards)) by {
        assert(cards[0] <= pm.hand[0] && cards[1] <= pm.hand[1] && cards[2] <= pm.hand[2]);
        assert(cards[3] <= pm.hand[3] && cards[4] <= pm.hand[4] && cards[5] <= pm.hand[5]);
    }
    if p.current_trick.len() == m.active_player_count {
        let ranked = rank_plays(p.current_trick);
        crate::game::ranking::lemma_rank_plays_permutation(p.current_trick);
        crate::game::rules::lemma_wf_payout_fits(m);
        assert forall|i: int| 0 <= i < p.available_points.len() implies crate::game::rules::has_uid(
            p.players,
            #[trigger] ranked[i].player_uid,
        ) by {
            crate::game::ranking::lemma_rank_plays_member(p.current_trick, i);
            let k = choose|k: int| 0 <= k < p.current_trick.len() && p.current_trick[k] == ranked[i];
            assert(kind_valid(p.current_trick[k].combo@));
        }
        crate::game::rules::lemma_points_sum_nonneg(p.available_points);
        crate::game::rules::lemma_award(p.players, ranked, p.available_points);
        lemma_cards_in_hands_same_hands(
            award(p.players, ranked, p.available_points),
            p.players,
        );
        assert(resolve_trick(p).players == award(p.players, ranked, p.available_points));
    }
}

/// No action moves, adds or removes a seat: after any allowed action on a
/// reachable table the same players sit in the same order.
pub proof fn lemma_action_keeps_seats(m: GameModel, c: crate::game::combo::Combo)
    requires
        model_wf(m),
        kind_valid(c@),
        action_allowed(m, c),
    ensures
        apply_combo(m, c).players.len() == m.players.len(),
        forall|i: int|
            0 <= i < m.players.len() ==> (#[trigger] apply_combo(m, c).players[i]).uid
                == m.players[i].uid,
{
    let p = after_play(m, c);
    crate::game::rules::lemma_after_play(m, c);
    if p.current_trick.len() == m.active_player_count {
        let ranked = rank_plays(p.current_trick);
        crate::game::ranking::lemma_rank_plays_permutation(p.current_trick);
        crate::game::rules::lemma_wf_payout_fits(m);
        assert forall|i: int| 0 <= i < p.available_points.len() implies crate::game::rules::has_uid(
            p.players,
            #[trigger] ranked[i].player_uid,
        ) by {
            crate::game::ranking::lemma_rank_plays_member(p.current_trick, i);
            let k = choose|k: int| 0 <= k < p.current_trick.len() && p.current_trick[k] == ranked[i];
            assert(kind_valid(p.current_trick[k].combo@));
        }
        crate::game::rules::lemma_points_sum_nonneg(p.available_points);
        crate::game::rules::lemma_award(p.players, ranked, p.available_points);
        assert(resolve_trick(p).players == award(p.players, ranked, p.available_points));
    }
}

/// On a reachable table that is not over, the player to move has at least one
/// legal action.
pub proof fn lemma_player_to_move_can_act(m: GameModel)
    requires
        model_wf(m),
        !m.is_game_over,
    ensures
        legal_kinds(m.players[m.current_player_index as int].hand, m.current_trick_type).len() > 0,
{
    let hand = m.players[m.current_player_index as int].hand;
    assert(hand_within_limits(hand));
    crate::game::player::lemma_hand_total_zero(hand, MAX_RANK as int);
    let r = choose|r: int| 0 <= r < MAX_RANK && hand[r] != 0;
    let k = ComboKind::Single { rank: (r + 1) as u8 };
    assert(combo_cards(k)[r] == 1);
    assert(playable(hand, k));
    lemma_legal_actions_exact(hand, m.current_trick_type, k);
}

/// On a reachable table the scores add up to at most the value of a full
/// deck, so no score ever leaves `u8`.
pub proof fn lemma_scores_bounded(m: GameModel)
    requires
        model_wf(m),
    ensures
        score_sum(m.players) <= deck_value(),
        forall|i: int| 0 <= i < m.players.len() ==> #[trigger] m.players[i].points <= deck_value(),
{
    crate::game::rules::lemma_hands_value_nonneg(m.players);
    crate::game::rules::lemma_counts_value_nonneg(m.current_trick);
    crate::game::rules::lemma_points_sum_nonneg(m.available_points);
    assert forall|i: int| 0 <= i < m.players.len() implies #[trigger] m.players[i].points
        <= deck_value() by {
        crate::game::rules::lemma_score_le_sum(m.players, i);
    }
}

// ---------------------------------------------------------------------------
// Settling a trick.

/// The play that the current player makes with `c`.
pub open spec fn closing_play(m: GameModel, c: crate::game::combo::Combo) -> Play {
    Play { player_uid: m.players[m.current_player_index as int].uid, combo: c }
}

/// Playing `c` fills the trick: every active player has then played.
pub open spec fn closes_trick(m: GameModel, c: crate::game::combo::Combo) -> bool {
    m.current_trick.len() + 1 == m.active_player_count
}

/// The points that the player `uid` wins when the values `pts` are paid to a
/// ranked trick: the i-th value goes to the player of the i-th play.
pub open spec fn points_won(ranked: Seq<Play>, pts: Seq<u8>, uid: u8) -> int
    decreases pts.len(),
{
    if pts.len() == 0 {
        0
    } else {
        points_won(ranked, pts.drop_last(), uid) + if ranked[pts.len() - 1].player_uid == uid {
            pts.last() as int
        } else {
            0int
        }
    }
}

proof fn lemma_award_gain(players: Seq<PlayerModel>, ranked: Seq<Play>, pts: Seq<u8>)
    requires
        crate::game::rules::uids_unique(players),
        pts.len() <= ranked.len(),
        forall|i: int|
            0 <= i < pts.len() ==> crate::game::rules::has_uid(players, #[trigger] ranked[i].player_uid),
        score_sum(players) + crate::game::rules::points_sum(pts) <= u8::MAX,
    ensures
        forall|j: int|
            0 <= j < players.len() ==> (#[trigger] award(players, ranked, pts)[j]).points
                == players[j].points + points_won(ranked, pts, players[j].uid),
    decreases pts.len(),
{
    if pts.len() > 0 {
        let p0 = pts.drop_last();
        let i = pts.len() - 1;
        assert(crate::game::rules::points_sum(pts) == crate::game::rules::points_sum(p0) + pts[i]);
        crate::game::rules::lemma_points_sum_nonneg(p0);
        crate::game::rules::lemma_award(players, ranked, p0);
        lemma_award_gain(players, ranked, p0);
        let prev = award(players, ranked, p0);
        let uid = ranked[i].player_uid;
        assert(crate::game::rules::has_uid(players, uid));
        let j0 = choose|j: int| 0 <= j < players.len() && #[trigger] players[j].uid == uid;
        assert(prev[j0].uid == uid);
        let who = crate::game::rules::uid_index(prev, uid);
        assert(0 <= who < prev.len() && prev[who].uid == uid);
        crate::game::rules::lemma_score_le_sum(prev, who);
        let res = award(players, ranked, pts);
        assert forall|j: int| 0 <= j < players.len() implies (#[trigger] res[j]).points
            == players[j].points + points_won(ranked, pts, players[j].uid) by {
            assert(prev[j].uid == players[j].uid);
            if j != who {
                assert(prev[j].uid != uid);
            }
        }
    }
}

/// Closing a trick pays its point values by rank, whether or not the game ends
/// with it: the player of the i-th strongest play gains the i-th value on
/// offer, and every player's score rises by exactly what it won.
pub proof fn lemma_trick_payout(m: GameModel, c: crate::game::combo::Combo)
    requires
        model_wf(m),
        kind_valid(c@),
        action_allowed(m, c),
        closes_trick(m, c),
    ensures
        apply_combo(m, c).players.len() == m.players.len(),
        forall|j: int|
            0 <= j < m.players.len() ==> (#[trigger] apply_combo(m, c).players[j]).points
                == m.players[j].points + points_won(
                rank_plays(m.current_trick.push(closing_play(m, c))),
                m.available_points,
                m.players[j].uid,
            ),
{
    let p = after_play(m, c);
    crate::game::rules::lemma_after_play(m, c);
    assert(p.current_trick == m.current_trick.push(closing_play(m, c)));
    let ranked = rank_plays(p.current_trick);
    crate::game::ranking::lemma_rank_plays_permutation(p.current_trick);
    crate::game::rules::lemma_wf_payout_fits(m);
    assert forall|i: int| 0 <= i < p.available_points.len() implies crate::game::rules::has_uid(
        p.players,
        #[trigger] ranked[i].player_uid,
    ) by {
        crate::game::ranking::lemma_rank_plays_member(p.current_trick, i);
        let k = choose|k: int| 0 <= k < p.current_trick.len() && p.current_trick[k] == ranked[i];
        assert(kind_valid(p.current_trick[k].combo@));
    }
    crate::game::rules::lemma_points_sum_nonneg(p.available_points);
    crate::game::rules::lemma_award(p.players, ranked, p.available_points);
    lemma_award_gain(p.players, ranked, p.available_points);
    assert(resolve_trick(p).players == award(p.players, ranked, p.available_points));
    assert forall|j: int| 0 <= j < m.players.len() implies (#[trigger] apply_combo(m, c).players[j]).points
        == m.players[j].points + points_won(ranked, m.available_points, m.players[j].uid) by {
        assert(p.players[j].points == m.players[j].points);
        assert(p.players[j].uid == m.players[j].uid);
    }
}

/// How many point values the cards of a trick yield: for each rank, one value
/// per pair of cards and one for a leftover card.
pub open spec fn candidate_count(counts: Seq<int>) -> int {
    counts[0] / 2 + counts[0] % 2 + counts[1] / 2 + counts[1] % 2 + counts[2] / 2 + counts[2] % 2
        + counts[3] / 2 + counts[3] % 2 + counts[4] / 2 + counts[4] % 2 + counts[5] / 2
        + counts[5] % 2
}

spec fn candidates_upto(counts: Seq<int>, value: int) -> int
    decreases value,
{
    if value < 1 {
        0
    } else {
        candidates_upto(counts, value - 1) + crate::game::rules::point_candidates(counts, value)
    }
}

proof fn lemma_candidates_upto_nonneg(counts: Seq<int>, value: int)
    requires
        counts.len() == MAX_RANK,
        forall|r: int| 0 <= r < MAX_RANK ==> 0 <= #[trigger] counts[r],
    ensures
        candidates_upto(counts, value) >= 0,
    decreases value,
{
    if value >= 1 {
        lemma_candidates_upto_nonneg(counts, value - 1);
    }
}

proof fn lemma_take_points_len(counts: Seq<int>, value: int, room: int)
    requires
        counts.len() == MAX_RANK,
        forall|r: int| 0 <= r < MAX_RANK ==> 0 <= #[trigger] counts[r],
        room >= 0,
    ensures
        crate::game::rules::take_points(counts, value, room).len() == if room
            < candidates_upto(counts, value) {
            room
        } else {
            candidates_upto(counts, value)
        },
    decreases value,
{
    if value >= 1 {
        let c = crate::game::rules::point_candidates(counts, value);
        assert(c >= 0);
        let k = if c < room { c } else { room };
        lemma_take_points_len(counts, value - 1, room - k);
        lemma_candidates_upto_nonneg(counts, value - 1);
    }
}

proof fn lemma_candidates_upto_count(counts: Seq<int>)
    requires
        counts.len() == MAX_RANK,
    ensures
        candidates_upto(counts, crate::constants::MAX_POINTS_VALUE as int) == candidate_count(counts),
{
    reveal_with_fuel(candidates_upto, 13);
}

/// When a closed trick does not end the game, the next trick offers one point
/// value per player still holding cards, or every value that the closed
/// trick's cards yield when they yield fewer; the active count becomes the
/// number of players holding cards, and the new trick is empty and open.
pub proof fn lemma_next_offer_count(m: GameModel, c: crate::game::combo::Combo)
    requires
        model_wf(m),
        kind_valid(c@),
        action_allowed(m, c),
        closes_trick(m, c),
        !apply_combo(m, c).is_game_over,
    ensures
        ({
            let r = apply_combo(m, c);
            let yielded = candidate_count(
                crate::game::rules::trick_counts(m.current_trick.push(closing_play(m, c))),
            );
            &&& r.active_player_count == crate::game::rules::count_with_cards(
                r.players,
                r.players.len() as int,
            )
            &&& r.available_points.len() == if r.active_player_count < yielded {
                r.active_player_count as int
            } else {
                yielded
            }
            &&& r.current_trick.len() == 0
            &&& r.current_trick_type == TrickType::Open
        }),
{
    let p = after_play(m, c);
    crate::game::rules::lemma_after_play(m, c);
    let ranked = rank_plays(p.current_trick);
    crate::game::ranking::lemma_rank_plays_permutation(p.current_trick);
    crate::game::rules::lemma_wf_payout_fits(m);
    assert forall|i: int| 0 <= i < p.available_points.len() implies crate::game::rules::has_uid(
        p.players,
        #[trigger] ranked[i].player_uid,
    ) by {
        crate::game::ranking::lemma_rank_plays_member(p.current_trick, i);
        let k = choose|k: int| 0 <= k < p.current_trick.len() && p.current_trick[k] == ranked[i];
        assert(kind_valid(p.current_trick[k].combo@));
    }
    crate::game::rules::lemma_points_sum_nonneg(p.available_points);
    crate::game::rules::lemma_award(p.players, ranked, p.available_points);
    let n = p.players.len() as int;
    let awarded = award(p.players, ranked, p.available_points);
    crate::game::rules::lemma_count_with_cards_same_hands(awarded, p.players, n);
    crate::game::rules::lemma_count_with_cards_bounds(p.players, n);
    let active = crate::game::rules::count_with_cards(p.players, n);
    let r = apply_combo(m, c);
    assert(r == resolve_trick(p));
    assert(r.active_player_count == active);
    crate::game::rules::lemma_trick_counts_rank(p.current_trick);
    let counts = crate::game::rules::trick_counts(p.current_trick);
    crate::game::rules::lemma_trick_counts_bounds(p.current_trick);
    assert(crate::game::rules::trick_counts(ranked) == counts);
    lemma_take_points_len(counts, crate::constants::MAX_POINTS_VALUE as int, active);
    lemma_candidates_upto_count(counts);
    assert(p.current_trick == m.current_trick.push(closing_play(m, c)));
}

/// Seat `s` is the first seat holding cards when counting forward from seat
/// `w`, seat `w` itself included.
pub open spec fn first_holder_from(players: Seq<PlayerModel>, w: int, s: int) -> bool {
    exists|d: int|
        #![trigger players[(w + d) % (players.len() as int)]]
        0 <= d < players.len() && s == (w + d) % (players.len() as int) && has_cards(
            players[(w + d) % (players.len() as int)],
        ) && forall|e: int|
            0 <= e < d ==> !has_cards(#[trigger] players[(w + e) % (players.len() as int)])
}

proof fn lemma_step_mod(idx: int, n: int, x: int)
    requires
        0 <= idx < n,
        x >= 0,
    ensures
        ((idx + 1) % n + x) % n == (idx + 1 + x) % n,
{
    if idx + 1 == n {
        vstd::arithmetic::div_mod::lemma_mod_self_0(n);
        vstd::arithmetic::div_mod::lemma_mod_add_multiples_vanish(x, n);
        assert(idx + 1 + x == n + x);
    } else {
        vstd::arithmetic::div_mod::lemma_small_mod((idx + 1) as nat, n as nat);
    }
}

proof fn lemma_first_with_cards_first(players: Seq<PlayerModel>, idx: int, steps: nat, d0: int) -> (d: int)
    requires
        players.len() > 0,
        0 <= idx < players.len(),
        0 <= d0 < steps,
        has_cards(players[(idx + d0) % (players.len() as int)]),
    ensures
        0 <= d <= d0,
        crate::game::rules::first_with_cards(players, idx, steps) == (idx + d) % (
        players.len() as int),
        has_cards(players[(idx + d) % (players.len() as int)]),
        forall|e: int|
            0 <= e < d ==> !has_cards(#[trigger] players[(idx + e) % (players.len() as int)]),
    decreases steps,
{
    let n = players.len() as int;
    vstd::arithmetic::div_mod::lemma_small_mod(idx as nat, n as nat);
    assert((idx + 0) % n == idx);
    if has_cards(players[idx]) {
        0
    } else {
        assert(d0 > 0);
        let j = (idx + 1) % n;
        vstd::arithmetic::div_mod::lemma_mod_bound(idx + 1, n);
        lemma_step_mod(idx, n, d0 - 1);
        assert(idx + 1 + (d0 - 1) == idx + d0);
        let d1 = lemma_first_with_cards_first(players, j, (steps - 1) as nat, d0 - 1);
        lemma_step_mod(idx, n, d1);
        assert(idx + 1 + d1 == idx + (d1 + 1));
        assert forall|e: int| 0 <= e < d1 + 1 implies !has_cards(
            #[trigger] players[(idx + e) % n],
        ) by {
            if e > 0 {
                lemma_step_mod(idx, n, e - 1);
                assert(idx + 1 + (e - 1) == idx + e);
                assert(!has_cards(players[(j + (e - 1)) % n]));
            }
        }
        d1 + 1
    }
}

/// When a closed trick does not end the game, the next trick is led by the
/// player of the strongest play, or, when that hand is empty, by the first
/// seat after it that holds cards.
pub proof fn lemma_next_lead(m: GameModel, c: crate::game::combo::Combo)
    requires
        model_wf(m),
        kind_valid(c@),
        action_allowed(m, c),
        closes_trick(m, c),
        !apply_combo(m, c).is_game_over,
    ensures
        forall|w: int|
            0 <= w < m.players.len() && #[trigger] m.players[w].uid == rank_plays(
                m.current_trick.push(closing_play(m, c)),
            )[0].player_uid ==> first_holder_from(
                apply_combo(m, c).players,
                w,
                apply_combo(m, c).current_player_index as int,
            ),
{
    let p = after_play(m, c);
    crate::game::rules::lemma_after_play(m, c);
    assert(p.current_trick == m.current_trick.push(closing_play(m, c)));
    let ranked = rank_plays(p.current_trick);
    crate::game::ranking::lemma_rank_plays_permutation(p.current_trick);
    crate::game::rules::lemma_wf_payout_fits(m);
    assert forall|i: int| 0 <= i < p.available_points.len() implies crate::game::rules::has_uid(
        p.players,
        #[trigger] ranked[i].player_uid,
    ) by {
        crate::game::ranking::lemma_rank_plays_member(p.current_trick, i);
        let k = choose|k: int| 0 <= k < p.current_trick.len() && p.current_trick[k] == ranked[i];
        assert(kind_valid(p.current_trick[k].combo@));
    }
    crate::game::rules::lemma_points_sum_nonneg(p.available_points);
    crate::game::rules::lemma_award(p.players, ranked, p.available_points);
    let n = p.players.len() as int;
    let awarded = award(p.players, ranked, p.available_points);
    let r = apply_combo(m, c);
    assert(r == resolve_trick(p));
    assert(r.players == awarded);
    assert forall|w: int|
        0 <= w < m.players.len() && #[trigger] m.players[w].uid == ranked[0].player_uid implies first_holder_from(
        r.players,
        w,
        r.current_player_index as int,
    ) by {
        assert(p.players[w].uid == m.players[w].uid);
        crate::game::ranking::lemma_rank_plays_member(p.current_trick, 0);
        let k = choose|k: int| 0 <= k < p.current_trick.len() && p.current_trick[k] == ranked[0];
        assert(crate::game::rules::has_uid(p.players, p.current_trick[k].player_uid));
        let winner = crate::game::rules::uid_index(p.players, ranked[0].player_uid);
        assert(p.players[winner].uid == ranked[0].player_uid);
        assert(winner == w);
        crate::game::rules::lemma_count_with_cards_bounds(p.players, n);
        assert(crate::game::rules::count_with_cards(p.players, n) > 0);
        crate::game::rules::lemma_count_with_cards_witness(p.players, n);
        let j = choose|j: int| 0 <= j < n && has_cards(#[trigger] p.players[j]);
        let d0 = crate::game::rules::lemma_seat_from(w, j, n);
        let d = lemma_first_with_cards_first(p.players, w, n as nat, d0);
        crate::game::rules::lemma_first_with_cards_bounds(p.players, w, n as nat);
        let lead = crate::game::rules::first_with_cards(p.players, w, n as nat);
        assert(r.current_player_index == lead);
        assert forall|e: int| 0 <= e < d implies !has_cards(#[trigger] r.players[(w + e) % n]) by {
            vstd::arithmetic::div_mod::lemma_mod_bound(w + e, n);
            assert(r.players[(w + e) % n].hand == p.players[(w + e) % n].hand);
            assert(!has_cards(p.players[(w + e) % n]));
        }
        assert(r.players[lead].hand == p.players[lead].hand);
        assert(has_cards(r.players[(w + d) % n]));
    }
}

/// How many point values equal to `v` the cards of a trick yield: one for a
/// leftover (odd) card of rank `v`, and one for each pair of rank `v / 2`.
pub open spec fn yielded(counts: Seq<int>, v: int) -> int {
    (if 1 <= v <= MAX_RANK {
        counts[v - 1] % 2
    } else {
        0
    }) + (if v % 2 == 0 && 1 <= v / 2 <= MAX_RANK {
        counts[v / 2 - 1] / 2
    } else {
        0
    })
}

proof fn lemma_count_in_absent(s: Seq<u8>, v: u8)
    requires
        forall|i: int| 0 <= i < s.len() ==> s[i] != v,
    ensures
        crate::game::deal::count_in(s, v) == 0,
    decreases s.len(),
{
    if s.len() > 0 {
        lemma_count_in_absent(s.drop_last(), v);
    }
}

proof fn lemma_count_in_repeat(k: nat, x: u8, v: u8)
    ensures
        crate::game::deal::count_in(Seq::new(k, |i: int| x), v) == if v == x {
            k as int
        } else {
            0
        },
    decreases k,
{
    if k > 0 {
        lemma_count_in_repeat((k - 1) as nat, x, v);
        assert(Seq::new(k, |i: int| x).drop_last() =~= Seq::new((k - 1) as nat, |i: int| x));
    }
}

proof fn lemma_take_points_counts(counts: Seq<int>, value: int, room: int)
    requires
        counts.len() == MAX_RANK,
        forall|r: int| 0 <= r < MAX_RANK ==> 0 <= #[trigger] counts[r],
        room >= 0,
        value <= crate::constants::MAX_POINTS_VALUE,
    ensures
        forall|v: u8|
            #![trigger crate::game::deal::count_in(crate::game::rules::take_points(counts, value, room), v)]
            crate::game::deal::count_in(crate::game::rules::take_points(counts, value, room), v)
                == 0 || (1 <= v <= value && crate::game::deal::count_in(
                crate::game::rules::take_points(counts, value, room),
                v,
            ) <= yielded(counts, v as int)),
        forall|v: u8, w: u8|
            #![trigger crate::game::deal::count_in(crate::game::rules::take_points(counts, value, room), v), crate::game::deal::count_in(crate::game::rules::take_points(counts, value, room), w)]
            1 <= w < v <= value && crate::game::deal::count_in(
                crate::game::rules::take_points(counts, value, room),
                w,
            ) > 0 ==> crate::game::deal::count_in(
                crate::game::rules::take_points(counts, value, room),
                v,
            ) == yielded(counts, v as int),
    decreases value,
{
    let tp = crate::game::rules::take_points(counts, value, room);
    if value < 1 {
        assert forall|v: u8| #[trigger] crate::game::deal::count_in(tp, v) == 0 by {
            lemma_count_in_absent(tp, v);
        }
    } else {
        let c = crate::game::rules::point_candidates(counts, value);
        assert(c == yielded(counts, value));
        assert(c >= 0);
        let k = if c < room { c } else { room };
        let a = Seq::new(k as nat, |i: int| value as u8);
        let rest = crate::game::rules::take_points(counts, value - 1, room - k);
        assert(tp == a + rest);
        lemma_take_points_counts(counts, value - 1, room - k);
        crate::game::rules::lemma_take_points_sorted(counts, value - 1, room - k);
        lemma_take_points_len(counts, value - 1, room - k);
        lemma_candidates_upto_nonneg(counts, value - 1);
        assert forall|v: u8| #[trigger] crate::game::deal::count_in(tp, v) == crate::game::deal::count_in(a, v)
            + crate::game::deal::count_in(rest, v) by {
            crate::game::deal::lemma_count_in_concat(a, rest, v);
        }
        assert forall|v: u8| #[trigger] crate::game::deal::count_in(a, v) == if v == value as u8 {
            k as int
        } else {
            0
        } by {
            lemma_count_in_repeat(k as nat, value as u8, v);
        }
        assert forall|v: u8| v as int >= value implies #[trigger] crate::game::deal::count_in(rest, v) == 0 by {
            lemma_count_in_absent(rest, v);
        }
        assert forall|v: u8|
            #![trigger crate::game::deal::count_in(tp, v)]
            crate::game::deal::count_in(tp, v) == 0 || (1 <= v <= value
                && crate::game::deal::count_in(tp, v) <= yielded(counts, v as int)) by {
            if v as int == value {
                assert(crate::game::deal::count_in(rest, v) == 0);
            } else if v as int > value {
                assert(crate::game::deal::count_in(rest, v) == 0);
            } else {
                assert(crate::game::deal::count_in(a, v) == 0);
                assert(crate::game::deal::count_in(rest, v) == 0 || (1 <= v <= value - 1
                    && crate::game::deal::count_in(rest, v) <= yielded(counts, v as int)));
            }
        }
        assert forall|v: u8, w: u8|
            #![trigger crate::game::deal::count_in(tp, v), crate::game::deal::count_in(tp, w)]
            1 <= w < v <= value && crate::game::deal::count_in(tp, w) > 0 implies
            crate::game::deal::count_in(tp, v) == yielded(counts, v as int) by {
            assert(crate::game::deal::count_in(a, w) == 0);
            assert(crate::game::deal::count_in(rest, w) > 0);
            if v as int == value {
                if !(c < room) {
                    assert(rest.len() == 0);
                    lemma_count_in_absent(rest, w);
                }
                assert(crate::game::deal::count_in(rest, v) == 0);
            } else {
                assert(crate::game::deal::count_in(a, v) == 0);
                assert(crate::game::deal::count_in(rest, v) == yielded(counts, v as int));
            }
        }
    }
}

/// When a closed trick does not end the game, the values on offer for the
/// next trick are taken greedily from the largest values that the closed
/// trick's cards yield: no value is offered more often than the cards yield
/// it, every value lies between 1 and twice the top rank, and a smaller value
/// is offered only once every larger value has been offered as often as the
/// cards yield it.
pub proof fn lemma_next_offer_values(m: GameModel, c: crate::game::combo::Combo)
    requires
        model_wf(m),
        kind_valid(c@),
        action_allowed(m, c),
        closes_trick(m, c),
        !apply_combo(m, c).is_game_over,
    ensures
        ({
            let offered = apply_combo(m, c).available_points;
            let counts = crate::game::rules::trick_counts(m.current_trick.push(closing_play(m, c)));
            &&& forall|v: u8|
                #![trigger crate::game::deal::count_in(offered, v)]
                crate::game::deal::count_in(offered, v) == 0 || (1 <= v
                    <= crate::constants::MAX_POINTS_VALUE && crate::game::deal::count_in(offered, v)
                    <= yielded(counts, v as int))
            &&& forall|v: u8, w: u8|
                #![trigger crate::game::deal::count_in(offered, v), crate::game::deal::count_in(offered, w)]
                1 <= w < v <= crate::constants::MAX_POINTS_VALUE && crate::game::deal::count_in(
                    offered,
                    w,
                ) > 0 ==> crate::game::deal::count_in(offered, v) == yielded(counts, v as int)
        }),
{
    let p = after_play(m, c);
    crate::game::rules::lemma_after_play(m, c);
    assert(p.current_trick == m.current_trick.push(closing_play(m, c)));
    let ranked = rank_plays(p.current_trick);
    let r = apply_combo(m, c);
    assert(r == resolve_trick(p));
    let n = p.players.len() as int;
    crate::game::rules::lemma_count_with_cards_bounds(p.players, n);
    let active = crate::game::rules::count_with_cards(p.players, n);
    crate::game::rules::lemma_trick_counts_rank(p.current_trick);
    let counts = crate::game::rules::trick_counts(p.current_trick);
    crate::game::rules::lemma_trick_counts_bounds(p.current_trick);
    assert(crate::game::rules::trick_counts(ranked) == counts);
    assert(r.available_points == crate::game::rules::take_points(
        counts,
        crate::constants::MAX_POINTS_VALUE as int,
        active,
    ));
    lemma_take_points_counts(counts, crate::constants::MAX_POINTS_VALUE as int, active);
}

proof fn lemma_next_turn_first(players: Seq<PlayerModel>, idx: int, steps: nat, d0: int) -> (d: int)
    requires
        players.len() > 0,
        0 <= idx < players.len(),
        1 <= d0 <= steps,
        has_cards(players[(idx + d0) % (players.len() as int)]),
    ensures
        1 <= d <= d0,
        crate::game::rules::next_turn(players, idx, steps) == (idx + d) % (players.len() as int),
        has_cards(players[(idx + d) % (players.len() as int)]),
        forall|e: int|
            1 <= e < d ==> !has_cards(#[trigger] players[(idx + e) % (players.len() as int)]),
    decreases steps,
{
    let n = players.len() as int;
    let j = (idx + 1) % n;
    vstd::arithmetic::div_mod::lemma_mod_bound(idx + 1, n);
    if has_cards(players[j]) {
        1
    } else {
        assert(d0 > 1);
        lemma_step_mod(idx, n, d0 - 1);
        assert(idx + 1 + (d0 - 1) == idx + d0);
        let d1 = lemma_next_turn_first(players, j, (steps - 1) as nat, d0 - 1);
        lemma_step_mod(idx, n, d1);
        assert(idx + 1 + d1 == idx + (d1 + 1));
        assert forall|e: int| 1 <= e < d1 + 1 implies !has_cards(
            #[trigger] players[(idx + e) % n],
        ) by {
            lemma_step_mod(idx, n, e - 1);
            assert(idx + 1 + (e - 1) == idx + e);
            if e > 1 {
                assert(!has_cards(players[(j + (e - 1)) % n]));
            }
        }
        d1 + 1
    }
}

/// When an action does not close the trick, the turn passes to the first seat
/// after the current player's that holds cards.
pub proof fn lemma_turn_passes(m: GameModel, c: crate::game::combo::Combo)
    requires
        model_wf(m),
        kind_valid(c@),
        action_allowed(m, c),
        !closes_trick(m, c),
        !m.is_game_over,
    ensures
        first_holder_from(
            apply_combo(m, c).players,
            (m.current_player_index + 1) % (m.players.len() as int),
            apply_combo(m, c).current_player_index as int,
        ),
{
    let p = after_play(m, c);
    crate::game::rules::lemma_after_play(m, c);
    crate::game::rules::lemma_apply_turn_ready(m, c);
    let r = apply_combo(m, c);
    assert(r == p);
    let n = p.players.len() as int;
    let cur = m.current_player_index as int;
    let j = r.current_player_index as int;
    assert(has_cards(p.players[j]));
    let d0 = crate::game::rules::lemma_seat_after(cur, j, n);
    let d = lemma_next_turn_first(p.players, cur, n as nat, d0);
    assert(r.current_player_index as int == crate::game::rules::next_turn(p.players, cur, n as nat));
    let w = (cur + 1) % n;
    vstd::arithmetic::div_mod::lemma_mod_bound(cur + 1, n);
    lemma_step_mod(cur, n, d - 1);
    assert(cur + 1 + (d - 1) == cur + d);
    assert forall|e: int| 0 <= e < d - 1 implies !has_cards(#[trigger] p.players[(w + e) % n]) by {
        lemma_step_mod(cur, n, e);
        assert(cur + 1 + e == cur + (e + 1));
        assert(!has_cards(p.players[(cur + (e + 1)) % n]));
    }
    assert(has_cards(p.players[(w + (d - 1)) % n]));
}

/// An action that leaves the trick open pays nothing: every score and the
/// values on offer stay as they were, and the play joins the trick.
pub proof fn lemma_open_trick_pays_nothing(m: GameModel, c: crate::game::combo::Combo)
    requires
        model_wf(m),
        kind_valid(c@),
        action_allowed(m, c),
        !closes_trick(m, c),
        !m.is_game_over,
    ensures
        apply_combo(m, c).players.len() == m.players.len(),
        forall|j: int|
            0 <= j < m.players.len() ==> (#[trigger] apply_combo(m, c).players[j]).points
                == m.players[j].points,
        apply_combo(m, c).available_points == m.available_points,
        apply_combo(m, c).current_trick == m.current_trick.push(closing_play(m, c)),
{
    crate::game::rules::lemma_after_play(m, c);
    assert(apply_combo(m, c) == after_play(m, c));
}

} // verus!
