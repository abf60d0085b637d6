use arrayvec::ArrayVec;
use crate::constants::{
    valid_rank, DECK_SIZE, EMPTY_HANDS_TO_END_GAME, HAND_SIZE_3_4_PLAYERS, HAND_SIZE_5_PLAYERS,
    HAND_SIZE_6_PLAYERS, MAX_COUNT_PER_RANK, MAX_LEGAL_ACTIONS, MAX_PLAYERS, MAX_POINTS_VALUE,
    MAX_RANK, MIN_PLAYERS,
};
use crate::game::deal;
use crate::random;
use crate::game::arrays::{self, combo_items, opponent_items, play_items, player_items, point_items};
use crate::game::view::{opponents_of, GameView, OpponentView};
use crate::game::combo::{kind_valid, Combo, ComboKind};
use crate::game::maps::{PointMap, RankMap};
use crate::game::play::Play;
use crate::game::player::{empty_hand, hand_total, Player, PlayerModel};
use crate::game::ranking;
use crate::game::rules::{self, GameModel};
use crate::game::trick_type::TrickType;
use vstd::prelude::*;

verus! {

/// Players with empty hands hold no value.
proof fn lemma_hands_value_empty(players: Seq<PlayerModel>)
    requires
        forall|i: int| 0 <= i < players.len() ==> #[trigger] players[i].hand == empty_hand(),
    ensures
        rules::hands_value(players) == 0,
    decreases players.len(),
{
    if players.len() > 0 {
        let p0 = players.drop_last();
        assert forall|i: int| 0 <= i < p0.len() implies #[trigger] p0[i].hand == empty_hand() by {
            assert(p0[i] == players[i]);
        }
        lemma_hands_value_empty(p0);
        assert(players[players.len() - 1].hand == empty_hand());
    }
}

/// The hands and the point values fit in the deck.
proof fn lemma_deal_sizes(n: int)
    requires
        MIN_PLAYERS <= n <= MAX_PLAYERS,
    ensures
        n * deal::hand_size_for(n) + n <= DECK_SIZE,
        deal::hand_size_for(n) >= 0,
{
    let h = deal::hand_size_for(n);
    if n == 3 {
        assert(n * h == 42) by (nonlinear_arith) requires n == 3, h == 14;
    } else if n == 4 {
        assert(n * h == 56) by (nonlinear_arith) requires n == 4, h == 14;
    } else if n == 5 {
        assert(n * h == 55) by (nonlinear_arith) requires n == 5, h == 11;
    } else {
        assert(n * h == 54) by (nonlinear_arith) requires n == 6, h == 9;
    }
}

/// Cards of rank at least 1 are worth at least one point each.
proof fn lemma_cards_value_positive(s: Seq<u8>)
    requires
        s.len() > 0,
        forall|k: int| 0 <= k < s.len() ==> crate::constants::valid_rank(#[trigger] s[k]),
    ensures
        deal::cards_value(s) >= 1,
{
    rules::lemma_points_sum_nonneg(s.drop_last());
    assert(crate::constants::valid_rank(s[s.len() - 1]));
}

/// A dealt hand holds no more copies of a rank than the deck.
proof fn lemma_dealt_count_bound(deck: Seq<u8>, n: int, k: int, r: u8)
    requires
        deal::is_full_deck(deck),
        MIN_PLAYERS <= n <= MAX_PLAYERS,
        0 <= k < n,
        crate::constants::valid_rank(r),
    ensures
        deal::count_in(deal::dealt_cards(deck, n, k), r) <= MAX_COUNT_PER_RANK,
{
    let h = deal::hand_size_for(n);
    lemma_deal_sizes(n);
    assert((k + 1) * h <= n * h) by (nonlinear_arith)
        requires
            k < n,
            h >= 0,
    ;
    assert(k * h >= 0) by (nonlinear_arith)
        requires
            k >= 0,
            h >= 0,
    ;
    let a = deck.len() - (k + 1) * h;
    let b = deck.len() - k * h;
    assert((k + 1) * h == k * h + h) by (nonlinear_arith);
    assert(0 <= a <= b <= deck.len());
    assert(deck =~= deck.take(a) + (deck.subrange(a, b) + deck.skip(b)));
    deal::lemma_count_in_concat(deck.take(a), deck.subrange(a, b) + deck.skip(b), r);
    deal::lemma_count_in_concat(deck.subrange(a, b), deck.skip(b), r);
    deal::lemma_count_in_nonneg(deck.take(a), r);
    deal::lemma_count_in_nonneg(deck.skip(b), r);
}

/// The sum of a prefix grows by the next value.
proof fn lemma_points_prefix(s: Seq<u8>, i: int)
    requires
        0 < i <= s.len(),
    ensures
        rules::points_sum(s.take(i)) == rules::points_sum(s.take(i - 1)) + s[i - 1],
        rules::points_sum(s.take(i)) <= rules::points_sum(s),
    decreases s.len() - i,
{
    assert(s.take(i).drop_last() =~= s.take(i - 1));
    if i < s.len() {
        lemma_points_prefix(s, i + 1);
        assert(rules::points_sum(s.take(i + 1)) == rules::points_sum(s.take(i)) + s[i]);
    } else {
        assert(s.take(i) =~= s);
    }
}

/// The table: who sits where, their hands and scores, the trick in progress
/// and the point values it will pay out.
#[derive(Debug)]
pub struct GameState {
    available_points: ArrayVec<u8, MAX_PLAYERS>,
    players: ArrayVec<Player, MAX_PLAYERS>,
    current_trick: ArrayVec<Play, MAX_PLAYERS>,
    current_trick_type: TrickType,
    current_player_index: u8,
    active_player_count: u8,
    is_game_over: bool,
}

impl View for GameState {
    type V = GameModel;

    closed spec fn view(&self) -> GameModel {
        GameModel {
            available_points: point_items(self.available_points),
            players: player_items(self.players).map_values(|p: Player| p@),
            current_trick: play_items(self.current_trick),
            current_trick_type: self.current_trick_type,
            current_player_index: self.current_player_index,
            active_player_count: self.active_player_count,
            is_game_over: self.is_game_over,
        }
    }
}

impl GameState {
    /// The table keeps every invariant of a game in progress.
    pub open spec fn wf(&self) -> bool {
        rules::model_wf(self@)
    }

    /// The table has a consistent shape (the invariant without the bound on
    /// the points still in play).
    pub open spec fn sound(&self) -> bool {
        rules::model_sound(self@)
    }

    /// The uid of the player whose turn it is.
    pub fn current_player_uid(&self) -> (uid: u8)
        requires
            self.sound(),
        ensures
            uid == self@.players[self@.current_player_index as int].uid,
    {
        arrays::players_get(&self.players, self.current_player_index as usize).uid()
    }

    /// Seat that follows `from` in turn order: the next seat (cyclically) whose
    /// hand is not empty, or `from` itself when every hand is empty.
    fn next_turn_index(&self, from: u8) -> (idx: u8)
        requires
            3 <= self@.players.len() <= MAX_PLAYERS,
            forall|i: int| 0 <= i < self@.players.len() ==> crate::game::player::hand_within_limits(
                #[trigger] self@.players[i].hand,
            ),
            from < self@.players.len(),
        ensures
            idx == rules::next_turn(self@.players, from as int, self@.players.len()),
            idx < self@.players.len(),
    {
        let n = arrays::players_len(&self.players) as u8;
        let ghost players = self@.players;
        let mut idx = from;
        let mut steps: u8 = 0;
        loop
            invariant_except_break
                rules::next_turn(players, idx as int, (n - steps) as nat) == rules::next_turn(
                    players,
                    from as int,
                    n as nat,
                ),
            invariant
                n == players.len(),
                players == self@.players,
                forall|i: int| 0 <= i < players.len() ==> crate::game::player::hand_within_limits(
                    #[trigger] players[i].hand,
                ),
                3 <= n <= MAX_PLAYERS,
                idx < n,
                steps <= n,
            ensures
                idx == rules::next_turn(players, from as int, n as nat),
                idx < n,
            decreases n - steps,
        {
            if steps >= n {
                break;
            }
            let ghost prev = idx;
            idx = (idx + 1) % n;
            proof {
                assert(player_items(self.players).map_values(|p: Player| p@)[idx as int]
                    == player_items(self.players)[idx as int]@);
                crate::game::player::lemma_hand_total_within_limits(
                    player_items(self.players)[idx as int]@.hand,
                );
            }
            if !arrays::players_get(&self.players, idx as usize).is_empty() {
                assert(rules::next_turn(players, prev as int, (n - steps) as nat) == idx);
                break;
            }
            steps = steps + 1;
        }
        idx
    }

    /// Starting at seat `from` itself, the first seat whose hand is not empty,
    /// or `from` when every hand is empty.
    fn first_with_cards_index(&self, from: u8) -> (idx: u8)
        requires
            3 <= self@.players.len() <= MAX_PLAYERS,
            forall|i: int| 0 <= i < self@.players.len() ==> crate::game::player::hand_within_limits(
                #[trigger] self@.players[i].hand,
            ),
            from < self@.players.len(),
        ensures
            idx == rules::first_with_cards(self@.players, from as int, self@.players.len()),
            idx < self@.players.len(),
    {
        let n = arrays::players_len(&self.players) as u8;
        let ghost players = self@.players;
        let mut idx = from;
        let mut steps: u8 = 0;
        loop
            invariant
                n == players.len(),
                players == self@.players,
                forall|i: int| 0 <= i < players.len() ==> crate::game::player::hand_within_limits(
                    #[trigger] players[i].hand,
                ),
                3 <= n <= MAX_PLAYERS,
                idx < n,
                steps <= n,
                rules::first_with_cards(players, idx as int, (n - steps) as nat)
                    == rules::first_with_cards(players, from as int, n as nat),
            ensures
                idx == rules::first_with_cards(players, from as int, n as nat),
                idx < n,
            decreases n - steps,
        {
            if steps >= n {
                break;
            }
            proof {
                assert(player_items(self.players).map_values(|p: Player| p@)[idx as int]
                    == player_items(self.players)[idx as int]@);
                crate::game::player::lemma_hand_total_within_limits(
                    player_items(self.players)[idx as int]@.hand,
                );
            }
            if !arrays::players_get(&self.players, idx as usize).is_empty() {
                break;
            }
            idx = (idx + 1) % n;
            steps = steps + 1;
        }
        idx
    }

    /// The current player plays `combo`: its cards leave the hand, the play
    /// joins the trick, the trick type follows the play, and the turn moves on.
    fn play_combo(&mut self, combo: Combo)
        requires
            rules::model_sound(old(self)@),
            rules::playable(
                old(self)@.players[old(self)@.current_player_index as int].hand,
                combo@,
            ),
            old(self)@.current_trick.len() < MAX_PLAYERS,
        ensures
            final(self)@ == rules::after_play(old(self)@, combo),
    {
        let ghost m = self@;
        let idx = self.current_player_index as usize;
        let current_player_uid = self.current_player_uid();
        proof {
            assert(m.players[idx as int] == player_items(self.players)[idx as int]@);
        }
        let mut player = arrays::players_replace(&mut self.players, idx, Player::new(0));
        let ghost p0 = player@;
        assert(p0.hand.len() == MAX_RANK);
        match combo.kind() {
            ComboKind::Single { rank } => {
                assert(rules::combo_cards(combo@)[rank - 1] == 1);
                player.remove_cards(rank, 1);
            },
            ComboKind::Group { rank, count } => {
                assert(rules::combo_cards(combo@)[rank - 1] == count);
                player.remove_cards(rank, count);
                self.current_trick_type = TrickType::Group;
            },
            ComboKind::Run { start, end } => {
                let mut r = start;
                while r <= end
                    invariant
                        start <= r <= end + 1,
                        valid_rank(start),
                        valid_rank(end),
                        combo@ == (ComboKind::Run { start, end }),
                        rules::playable(p0.hand, combo@),
                        p0.hand.len() == MAX_RANK,
                        player@.uid == p0.uid,
                        player@.points == p0.points,
                        player@.hand.len() == MAX_RANK,
                        forall|i: int|
                            0 <= i < MAX_RANK ==> #[trigger] player@.hand[i] == if start <= i + 1
                                < r {
                                (p0.hand[i] - 1) as u8
                            } else {
                                p0.hand[i]
                            },
                    decreases end + 1 - r,
                {
                    assert(rules::combo_cards(combo@)[r - 1] == 1);
                    player.remove_cards(r, 1);
                    r = r + 1;
                }
                self.current_trick_type = TrickType::Run;
            },
        }
        assert(player@.hand =~= rules::remove_combo(p0.hand, combo@));
        arrays::players_replace(&mut self.players, idx, player);
        arrays::plays_push(&mut self.current_trick, Play { player_uid: current_player_uid, combo });
        assert(self@.players =~= m.players.update(
            idx as int,
            PlayerModel { hand: rules::remove_combo(p0.hand, combo@), ..p0 },
        ));
        self.current_player_index = self.next_turn_index(self.current_player_index);
        assert(self@ == rules::after_play(m, combo));
    }

    /// The seat of the player with `uid`.
    fn index_of_uid(&self, uid: u8) -> (idx: usize)
        requires
            rules::uids_unique(self@.players),
            rules::has_uid(self@.players, uid),
        ensures
            idx == rules::uid_index(self@.players, uid),
            idx < self@.players.len(),
    {
        let n = arrays::players_len(&self.players);
        let ghost players = self@.players;
        let mut k: usize = 0;
        while k < n
            invariant
                n == players.len(),
                players == self@.players,
                rules::uids_unique(players),
                rules::has_uid(players, uid),
                0 <= k <= n,
                forall|j: int| 0 <= j < k ==> #[trigger] players[j].uid != uid,
            decreases n - k,
        {
            proof {
                assert(players[k as int] == player_items(self.players)[k as int]@);
            }
            if arrays::players_get(&self.players, k).uid() == uid {
                return k;
            }
            k = k + 1;
        }
        proof {
            let j = choose|j: int| 0 <= j < players.len() && #[trigger] players[j].uid == uid;
            assert(players[j].uid != uid);
        }
        0
    }

    /// Pays the i-th point value on offer to the player of the i-th play of
    /// the trick, for every value on offer.
    fn award_points(&mut self)
        requires
            rules::uids_unique(old(self)@.players),
            old(self)@.available_points.len() <= old(self)@.current_trick.len(),
            forall|i: int|
                0 <= i < old(self)@.available_points.len() ==> rules::has_uid(
                    old(self)@.players,
                    #[trigger] old(self)@.current_trick[i].player_uid,
                ),
            rules::score_sum(old(self)@.players) + rules::points_sum(old(self)@.available_points)
                <= u8::MAX,
        ensures
            final(self)@ == (GameModel {
                players: rules::award(
                    old(self)@.players,
                    old(self)@.current_trick,
                    old(self)@.available_points,
                ),
                ..old(self)@
            }),
    {
        let ghost m = self@;
        let npts = arrays::points_len(&self.available_points);
        let mut i: usize = 0;
        while i < npts
            invariant
                npts == m.available_points.len(),
                0 <= i <= npts,
                rules::uids_unique(m.players),
                m.available_points.len() <= m.current_trick.len(),
                forall|j: int|
                    0 <= j < m.available_points.len() ==> rules::has_uid(
                        m.players,
                        #[trigger] m.current_trick[j].player_uid,
                    ),
                rules::score_sum(m.players) + rules::points_sum(m.available_points) <= u8::MAX,
                self@ == (GameModel {
                    players: rules::award(
                        m.players,
                        m.current_trick,
                        m.available_points.take(i as int),
                    ),
                    ..m
                }),
            decreases npts - i,
        {
            let ghost pts = m.available_points.take(i + 1);
            proof {
                assert(pts.drop_last() =~= m.available_points.take(i as int));
                lemma_points_prefix(m.available_points, i + 1);
                rules::lemma_points_sum_nonneg(m.available_points.take(i as int));
                rules::lemma_award(m.players, m.current_trick, pts);
                rules::lemma_award(m.players, m.current_trick, pts.drop_last());
            }
            let play = *arrays::plays_get(&self.current_trick, i);
            let points = arrays::points_get(&self.available_points, i);
            proof {
                let prev = rules::award(m.players, m.current_trick, pts.drop_last());
                let j0 = choose|j: int| 0 <= j < m.players.len() && #[trigger] m.players[j].uid == play.player_uid;
                assert(prev[j0].uid == play.player_uid);
            }
            let k = self.index_of_uid(play.player_uid);
            proof {
                assert(self@.players[k as int] == player_items(self.players)[k as int]@);
                rules::lemma_score_le_sum(self@.players, k as int);
            }
            let mut player = arrays::players_replace(&mut self.players, k, Player::new(0));
            player.add_points(points);
            arrays::players_replace(&mut self.players, k, player);
            proof {
                assert(self@.players =~= rules::award(m.players, m.current_trick, pts));
            }
            i = i + 1;
        }
        proof {
            assert(m.available_points.take(npts as int) =~= m.available_points);
        }
    }

    /// Number of players whose hand is not empty.
    fn count_active(&self) -> (count: u8)
        requires
            self@.players.len() <= MAX_PLAYERS,
            forall|i: int| 0 <= i < self@.players.len() ==> crate::game::player::hand_within_limits(
                #[trigger] self@.players[i].hand,
            ),
        ensures
            count == rules::count_with_cards(self@.players, self@.players.len() as int),
    {
        let n = arrays::players_len(&self.players);
        let ghost players = self@.players;
        let mut count: u8 = 0;
        let mut k: usize = 0;
        while k < n
            invariant
                n == players.len(),
                players == self@.players,
                forall|i: int| 0 <= i < players.len() ==> crate::game::player::hand_within_limits(
                    #[trigger] players[i].hand,
                ),
                n <= MAX_PLAYERS,
                0 <= k <= n,
                count == rules::count_with_cards(players, k as int),
                count <= k,
            decreases n - k,
        {
            proof {
                assert(players[k as int] == player_items(self.players)[k as int]@);
                crate::game::player::lemma_hand_total_within_limits(players[k as int].hand);
            }
            if !arrays::players_get(&self.players, k).is_empty() {
                count = count + 1;
            }
            k = k + 1;
        }
        count
    }

    /// Replaces the point values on offer with those the cards of the trick
    /// yield: the largest candidates first, at most `active` of them.
    fn refill_points(&mut self, active: u8)
        requires
            old(self)@.current_trick.len() <= MAX_PLAYERS,
            forall|i: int|
                0 <= i < old(self)@.current_trick.len() ==> kind_valid(
                    #[trigger] old(self)@.current_trick[i].combo@,
                ),
            active <= MAX_PLAYERS,
        ensures
            final(self)@ == (GameModel {
                available_points: rules::next_points(old(self)@.current_trick, active as int),
                ..old(self)@
            }),
    {
        let ghost m = self@;
        let ghost trick = m.current_trick;
        // cards of each rank in the trick
        let mut total = RankMap::new();
        let n = arrays::plays_len(&self.current_trick);
        let mut i: usize = 0;
        while i < n
            invariant
                n == trick.len(),
                n <= MAX_PLAYERS,
                trick == self@.current_trick,
                forall|j: int| 0 <= j < trick.len() ==> kind_valid(#[trigger] trick[j].combo@),
                0 <= i <= n,
                total@.len() == MAX_RANK,
                forall|r: int|
                    0 <= r < MAX_RANK ==> #[trigger] total@[r] == rules::trick_counts(
                        trick.take(i as int),
                    )[r],
            decreases n - i,
        {
            let ghost before = trick.take(i as int);
            proof {
                assert(trick.take(i + 1).drop_last() =~= before);
                assert(trick.take(i + 1).last() == trick[i as int]);
                assert forall|j: int| 0 <= j < before.len() implies kind_valid(
                    #[trigger] before[j].combo@,
                ) by {
                    assert(before[j] == trick[j]);
                }
                rules::lemma_trick_counts_bounds(before);
                rules::lemma_combo_cards_bounds(trick[i as int].combo@);
            }
            let play = *arrays::plays_get(&self.current_trick, i);
            let ghost cards = rules::combo_cards(play.combo@);
            match play.combo.kind() {
                ComboKind::Single { rank } => {
                    let c = total.get(rank);
                    total.set(rank, c + 1);
                },
                ComboKind::Group { rank, count } => {
                    let c = total.get(rank);
                    total.set(rank, c + count);
                },
                ComboKind::Run { start, end } => {
                    let mut r = start;
                    while r <= end
                        invariant
                            valid_rank(start),
                            valid_rank(end),
                            start <= r <= end + 1,
                            play.combo@ == (ComboKind::Run { start, end }),
                            cards == rules::combo_cards(play.combo@),
                            total@.len() == MAX_RANK,
                            n <= MAX_PLAYERS,
                            i < n,
                            forall|q: int|
                                0 <= q < MAX_RANK ==> 0 <= #[trigger] rules::trick_counts(before)[q] <= 10 * i,
                            forall|q: int|
                                0 <= q < MAX_RANK ==> #[trigger] total@[q] == rules::trick_counts(
                                    before,
                                )[q] + if start <= q + 1 < r {
                                    1int
                                } else {
                                    0int
                                },
                        decreases end + 1 - r,
                    {
                        let c = total.get(r);
                        total.set(r, c + 1);
                        r = r + 1;
                    }
                },
            }
            proof {
                assert forall|r: int| 0 <= r < MAX_RANK implies #[trigger] total@[r]
                    == rules::trick_counts(trick.take(i + 1))[r] by {}
            }
            i = i + 1;
        }
        proof {
            assert(trick.take(n as int) =~= trick);
            rules::lemma_trick_counts_bounds(trick);
        }
        let ghost counts = rules::trick_counts(trick);
        // candidate point values: a pair of a rank is worth twice the rank, a
        // leftover card its rank
        let mut candidates = PointMap::new();
        let mut rank: u8 = 1;
        while rank <= MAX_RANK as u8
            invariant
                1 <= rank <= MAX_RANK + 1,
                total@.len() == MAX_RANK,
                counts.len() == MAX_RANK,
                forall|r: int| 0 <= r < MAX_RANK ==> #[trigger] total@[r] == counts[r],
                forall|r: int| 0 <= r < MAX_RANK ==> 0 <= #[trigger] counts[r] <= 60,
                candidates@.len() == MAX_POINTS_VALUE,
                forall|v: int|
                    1 <= v <= MAX_POINTS_VALUE ==> #[trigger] candidates@[v - 1] == (if 1 <= v
                        < rank {
                        counts[v - 1] % 2
                    } else {
                        0
                    }) + (if v % 2 == 0 && 1 <= v / 2 < rank {
                        counts[v / 2 - 1] / 2
                    } else {
                        0
                    }),
            decreases MAX_RANK + 1 - rank,
        {
            let t = total.get(rank);
            let pairs = t / 2;
            let singles = t % 2;
            let c2 = candidates.get(rank * 2);
            candidates.set(rank * 2, c2 + pairs);
            let c1 = candidates.get(rank);
            candidates.set(rank, c1 + singles);
            rank = rank + 1;
        }
        proof {
            assert forall|v: int| 1 <= v <= MAX_POINTS_VALUE implies #[trigger] candidates@[v - 1]
                == rules::point_candidates(counts, v) by {}
        }
        // the largest candidates first, while there is room
        arrays::points_clear(&mut self.available_points);
        let mut value: u8 = MAX_POINTS_VALUE as u8;
        while value > 0
            invariant
                0 <= value <= MAX_POINTS_VALUE,
                active <= MAX_PLAYERS,
                counts.len() == MAX_RANK,
                forall|r: int| 0 <= r < MAX_RANK ==> 0 <= #[trigger] counts[r] <= 60,
                candidates@.len() == MAX_POINTS_VALUE,
                forall|v: int|
                    1 <= v <= value ==> #[trigger] candidates@[v - 1] == rules::point_candidates(
                        counts,
                        v,
                    ),
                point_items(self.available_points).len() <= active,
                point_items(self.available_points) + rules::take_points(
                    counts,
                    value as int,
                    active - point_items(self.available_points).len(),
                ) == rules::take_points(counts, MAX_POINTS_VALUE as int, active as int),
                self@ == (GameModel { available_points: point_items(self.available_points), ..m }),
            decreases value,
        {
            let ghost base = point_items(self.available_points);
            let ghost room = active - base.len();
            let ghost c = rules::point_candidates(counts, value as int);
            let ghost k = if c < room { c } else { room };
            let mut pushed: u8 = 0;
            loop
                invariant
                    0 <= pushed <= k,
                    active <= MAX_PLAYERS,
                    0 <= c,
                    c <= 255,
                    candidates@.len() == MAX_POINTS_VALUE,
                    1 <= value <= MAX_POINTS_VALUE,
                    candidates@[value - 1] == c - pushed,
                    forall|v: int|
                        1 <= v < value ==> #[trigger] candidates@[v - 1] == rules::point_candidates(
                            counts,
                            v,
                        ),
                    point_items(self.available_points) == base + Seq::new(
                        pushed as nat,
                        |j: int| value,
                    ),
                    base.len() + k <= active,
                    k == (if c < room { c } else { room }),
                    room == active - base.len(),
                    self@ == (GameModel { available_points: point_items(self.available_points), ..m }),
                ensures
                    pushed == k,
                    candidates@.len() == MAX_POINTS_VALUE,
                    forall|v: int|
                        1 <= v < value ==> #[trigger] candidates@[v - 1] == rules::point_candidates(
                            counts,
                            v,
                        ),
                    point_items(self.available_points) == base + Seq::new(
                        pushed as nat,
                        |j: int| value,
                    ),
                    self@ == (GameModel { available_points: point_items(self.available_points), ..m }),
                decreases k - pushed,
            {
                let left = candidates.get(value);
                let len = arrays::points_len(&self.available_points);
                if !(left > 0 && len < active as usize) {
                    break;
                }
                arrays::points_push(&mut self.available_points, value);
                candidates.set(value, left - 1);
                pushed = pushed + 1;
                proof {
                    assert(point_items(self.available_points) =~= base + Seq::new(
                        pushed as nat,
                        |j: int| value,
                    ));
                }
            }
            proof {
                let rep = Seq::new(k as nat, |j: int| value);
                assert(rules::take_points(counts, value as int, room) == rep + rules::take_points(
                    counts,
                    value - 1,
                    room - k,
                ));
                assert(point_items(self.available_points) + rules::take_points(
                    counts,
                    value - 1,
                    room - k,
                ) =~= base + rules::take_points(counts, value as int, room));
            }
            value = value - 1;
        }
    }

    /// Settles a full trick: ranks it, hands the lead to the winner (or the
    /// next player with cards), pays out the point values, and either ends the
    /// game or opens the next trick with fresh point values.
    fn settle_trick(&mut self)
        requires
            rules::ready_to_resolve(old(self)@),
            !old(self)@.is_game_over,
        ensures
            final(self)@ == rules::resolve_trick(old(self)@),
    {
        let ghost m = self@;
        let ghost ranked = rules::rank_plays(m.current_trick);
        ranking::rank_trick(&mut self.current_trick);
        proof {
            ranking::lemma_rank_plays_permutation(m.current_trick);
            assert forall|i: int|
                #![trigger ranked[i]]
                0 <= i < ranked.len() implies kind_valid(ranked[i].combo@) && rules::has_uid(
                    m.players,
                    ranked[i].player_uid,
                ) by {
                ranking::lemma_rank_plays_member(m.current_trick, i);
                let k = choose|k: int|
                    0 <= k < m.current_trick.len() && m.current_trick[k] == ranked[i];
                assert(kind_valid(m.current_trick[k].combo@));
            }
            assert(rules::has_uid(m.players, ranked[0].player_uid));
        }
        let winner_uid = arrays::plays_get(&self.current_trick, 0).player_uid;
        let winner = self.index_of_uid(winner_uid);
        self.current_player_index = self.first_with_cards_index(winner as u8);
        proof {
            assert forall|i: int| 0 <= i < m.available_points.len() implies rules::has_uid(
                m.players,
                #[trigger] ranked[i].player_uid,
            ) by {
                assert(rules::has_uid(m.players, ranked[i].player_uid));
            }
        }
        self.award_points();
        proof {
            rules::lemma_award(m.players, ranked, m.available_points);
            rules::lemma_count_with_cards_same_hands(
                self@.players,
                m.players,
                m.players.len() as int,
            );
        }
        let active = self.count_active();
        proof {
            rules::lemma_count_with_cards_bounds(self@.players, self@.players.len() as int);
        }
        let n = arrays::players_len(&self.players) as u8;
        if active <= n - EMPTY_HANDS_TO_END_GAME {
            self.is_game_over = true;
            assert(self@ == rules::resolve_trick(m));
            return;
        }
        self.active_player_count = active;
        self.refill_points(active);
        self.current_trick_type = TrickType::Open;
        arrays::plays_clear(&mut self.current_trick);
        proof {
            let r = rules::resolve_trick(m);
            assert(self@.current_trick =~= r.current_trick);
            assert(self@.available_points == r.available_points);
            assert(self@.players == r.players);
            assert(self@.current_player_index == r.current_player_index);
            assert(self@.active_player_count == r.active_player_count);
            assert(self@.is_game_over == r.is_game_over);
            assert(self@.current_trick_type == r.current_trick_type);
        }
    }

    /// The current player plays `combo`. The hand must hold its cards, a set
    /// may not join a run trick nor a run a set trick, once the game is over
    /// the trick must still have room, and the scores must have room for the
    /// points on offer.
    pub fn apply_action(&mut self, combo: Combo)
        requires
            old(self).sound(),
            rules::action_allowed(old(self)@, combo),
            rules::payout_fits(old(self)@),
        ensures
            final(self).sound(),
            old(self).wf() ==> final(self).wf(),
            final(self)@ == rules::apply_combo(old(self)@, combo),
    {
        let ghost m = self@;
        let k = combo.kind();
        proof {
            rules::lemma_after_play(m, combo);
            rules::lemma_apply_keeps_sound(m, combo);
            if rules::model_wf(m) {
                rules::lemma_apply_keeps_wf(m, combo);
            }
        }
        self.play_combo(combo);
        let ghost p = self@;
        if arrays::plays_len(&self.current_trick) == self.active_player_count as usize {
            proof {
                assert(!m.is_game_over);
                rules::lemma_hands_value_nonneg(p.players);
                rules::lemma_counts_value_nonneg(p.current_trick);
            }
            self.settle_trick();
        }
    }

    /// The actions that the player with `player_uid` may take in the current
    /// trick, rank by rank: for each rank held, the single, then (unless the
    /// trick is a run trick) every set of it, then (unless the trick is a set
    /// trick) every run that starts at it.
    pub fn legal_actions(&self, player_uid: u8) -> (actions: ArrayVec<Combo, MAX_LEGAL_ACTIONS>)
        requires
            self.sound(),
            rules::has_uid(self@.players, player_uid),
        ensures
            combo_items(actions).map_values(|c: Combo| c@) == rules::legal_kinds(
                self@.players[rules::uid_index(self@.players, player_uid)].hand,
                self@.current_trick_type,
            ),
    {
        let mut combos = arrays::combos_new();
        let k = self.index_of_uid(player_uid);
        let player = arrays::players_get(&self.players, k);
        let ghost hand = player@.hand;
        let tt = self.current_trick_type;
        proof {
            assert(self@.players[k as int] == player@);
            reveal_with_fuel(rules::actions_cap, 7);
            assert(combo_items(combos).map_values(|c: Combo| c@) =~= Seq::<ComboKind>::empty());
        }
        let mut i: u8 = 1;
        while i <= MAX_RANK as u8
            invariant
                1 <= i <= MAX_RANK + 1,
                hand == player@.hand,
                crate::game::player::hand_within_limits(hand),
                tt == self@.current_trick_type,
                combo_items(combos).map_values(|c: Combo| c@) == rules::actions_upto(
                    hand,
                    tt,
                    i - 1,
                ),
                combo_items(combos).len() <= rules::actions_cap(i - 1),
                rules::actions_cap(0) == 0,
                rules::actions_cap(1) == 15,
                rules::actions_cap(2) == 29,
                rules::actions_cap(3) == 42,
                rules::actions_cap(4) == 54,
                rules::actions_cap(5) == 65,
                rules::actions_cap(6) == 75,
            decreases MAX_RANK + 1 - i,
        {
            let ghost base = combo_items(combos);
            let ghost base_kinds = rules::actions_upto(hand, tt, i - 1);
            let count = player.rank_count(i);
            if count > 0 {
                arrays::combos_push(&mut combos, Combo::new_single(i));
                proof {
                    assert(combo_items(combos).map_values(|c: Combo| c@) =~= base_kinds + seq![
                        ComboKind::Single { rank: i },
                    ]);
                }
                let ghost after_single = combo_items(combos).map_values(|c: Combo| c@);
                if tt != TrickType::Run {
                    let mut j: u8 = 2;
                    while j <= count
                        invariant
                            2 <= j <= count + 1,
                            1 <= i <= MAX_RANK,
                            count <= 10,
                            hand.len() == MAX_RANK,
                            count == hand[i - 1],
                            combo_items(combos).map_values(|c: Combo| c@) == after_single
                                + Seq::new(
                                (j - 2) as nat,
                                |q: int| ComboKind::Group { rank: i, count: (q + 2) as u8 },
                            ),
                            combo_items(combos).len() == base.len() + 1 + (j - 2),
                            base.len() <= rules::actions_cap(i - 1),
                            rules::actions_cap(i as int) == rules::actions_cap(i - 1) + 16 - i,
                            rules::actions_cap(i as int) <= MAX_LEGAL_ACTIONS,
                        decreases count + 1 - j,
                    {
                        let ghost before = combo_items(combos);
                        let set = Combo::new_set(i, j);
                        arrays::combos_push(&mut combos, set);
                        proof {
                            assert(combo_items(combos).map_values(|c: Combo| c@) =~= before.map_values(
                                |c: Combo| c@,
                            ).push(set@));
                            assert(combo_items(combos).map_values(|c: Combo| c@) =~= after_single
                                + Seq::new(
                                (j + 1 - 2) as nat,
                                |q: int| ComboKind::Group { rank: i, count: (q + 2) as u8 },
                            ));
                        }
                        j = j + 1;
                    }
                }
                let ghost sets = if tt != TrickType::Run {
                    Seq::new(
                        (count - 1) as nat,
                        |q: int| ComboKind::Group { rank: i, count: (q + 2) as u8 },
                    )
                } else {
                    Seq::empty()
                };
                assert(combo_items(combos).map_values(|c: Combo| c@) =~= after_single + sets);
                let ghost after_sets = combo_items(combos).map_values(|c: Combo| c@);
                if tt != TrickType::Group {
                    let mut j: u8 = i + 1;
                    loop
                        invariant_except_break
                            rules::run_reach(hand, i + 1) == (j - i - 1) + rules::run_reach(
                                hand,
                                j as int,
                            ),
                        invariant
                            1 <= i <= MAX_RANK,
                            i + 1 <= j <= MAX_RANK + 1,
                            hand == player@.hand,
                            hand.len() == MAX_RANK,
                            combo_items(combos).map_values(|c: Combo| c@) == after_sets + Seq::new(
                                (j - i - 1) as nat,
                                |q: int| ComboKind::Run { start: i, end: (i + 1 + q) as u8 },
                            ),
                            combo_items(combos).len() <= base.len() + 10 + (j - i - 1),
                            base.len() <= rules::actions_cap(i - 1),
                            rules::actions_cap(i as int) == rules::actions_cap(i - 1) + 16 - i,
                            rules::actions_cap(i as int) <= MAX_LEGAL_ACTIONS,
                        ensures
                            combo_items(combos).map_values(|c: Combo| c@) == after_sets + Seq::new(
                                rules::run_reach(hand, i + 1),
                                |q: int| ComboKind::Run { start: i, end: (i + 1 + q) as u8 },
                            ),
                            combo_items(combos).len() <= base.len() + 16 - i,
                        decreases MAX_RANK + 1 - j,
                    {
                        if j > MAX_RANK as u8 {
                            break;
                        }
                        if player.rank_count(j) < 1 {
                            break;
                        }
                        let ghost before = combo_items(combos);
                        let run = Combo::new_run(i, j);
                        arrays::combos_push(&mut combos, run);
                        proof {
                            assert(combo_items(combos).map_values(|c: Combo| c@) =~= before.map_values(
                                |c: Combo| c@,
                            ).push(run@));
                            assert(combo_items(combos).map_values(|c: Combo| c@) =~= after_sets
                                + Seq::new(
                                (j + 1 - i - 1) as nat,
                                |q: int| ComboKind::Run { start: i, end: (i + 1 + q) as u8 },
                            ));
                        }
                        j = j + 1;
                    }
                }
                proof {
                    let runs = if tt != TrickType::Group {
                        Seq::new(
                            rules::run_reach(hand, i + 1),
                            |q: int| ComboKind::Run { start: i, end: (i + 1 + q) as u8 },
                        )
                    } else {
                        Seq::empty()
                    };
                    assert(combo_items(combos).map_values(|c: Combo| c@) =~= after_sets + runs);
                    assert(rules::rank_actions(hand, tt, i as int) =~= seq![
                        ComboKind::Single { rank: i },
                    ] + sets + runs);
                    assert(combo_items(combos).map_values(|c: Combo| c@) =~= rules::actions_upto(
                        hand,
                        tt,
                        i as int,
                    ));
                }
            } else {
                proof {
                    assert(rules::rank_actions(hand, tt, i as int) =~= Seq::<ComboKind>::empty());
                    assert(rules::actions_upto(hand, tt, i as int) =~= base_kinds);
                }
            }
            i = i + 1;
        }
        combos
    }

    /// A fresh table for the players `player_uids` (three to six distinct
    /// uids), dealt from a full deck shuffled by a generator seeded with
    /// `seed`, or seeded from the operating system when there is none. The
    /// table is the one `from_deck` deals from some arrangement of the full
    /// deck; with a seed, that arrangement is the one the seeded shuffle gives
    /// the unshuffled deck, so the same players and seed always get the same
    /// table.
    pub fn new(player_uids: Vec<u8>, seed: Option<u64>) -> (g: Self)
        requires
            MIN_PLAYERS <= player_uids.len() <= MAX_PLAYERS,
            deal::all_distinct(player_uids@),
        ensures
            g.wf(),
            exists|deck: Seq<u8>|
                deal::is_full_deck(deck) && g@ == deal::fresh_table(player_uids@, deck),
            deal::sorted_desc(g@.available_points),
            g@.current_trick == Seq::<Play>::empty(),
            g@.current_trick_type == TrickType::Open,
            g@.current_player_index == 0,
            g@.active_player_count == player_uids.len(),
            !g@.is_game_over,
            seed matches Some(s) ==> g@ == deal::fresh_table(
                player_uids@,
                random::seeded_shuffle(deal::ordered_deck(), s),
            ),
    {
        let mut deck = deal::ordered_cards();
        let ghost ordered = deck@;
        match seed {
            Some(seed) => random::shuffle_seeded(&mut deck, seed),
            None => {
                let mut rng = random::fresh_rng();
                random::shuffle_cards(&mut deck, &mut rng);
            },
        }
        proof {
            deal::lemma_full_deck_permutation(ordered, deck@);
        }
        let ghost shuffled = deck@;
        let ghost uids = player_uids@;
        let g = Self::from_deck(player_uids, deck);
        assert(deal::is_full_deck(shuffled) && g@ == deal::fresh_table(uids, shuffled));
        g
    }

    /// A fresh table for the players `player_uids`, in that seating order,
    /// dealt from `deck`: each player in turn takes the next hand-sized block
    /// from the end of the deck (14 cards for three or four players, 11 for
    /// five, 9 for six), then one card per player becomes a point value; the
    /// values are offered largest first. The first player leads.
    pub fn from_deck(player_uids: Vec<u8>, deck: Vec<u8>) -> (g: Self)
        requires
            MIN_PLAYERS <= player_uids.len() <= MAX_PLAYERS,
            deal::all_distinct(player_uids@),
            deal::is_full_deck(deck@),
        ensures
            g.wf(),
            g@.players == deal::dealt_players(player_uids@, deck@),
            deal::sorted_desc(g@.available_points),
            g@.available_points.to_multiset() == deal::dealt_points(
                deck@,
                player_uids.len() as int,
            ).to_multiset(),
            g@ == deal::fresh_table(player_uids@, deck@),
            g@.current_trick == Seq::<Play>::empty(),
            g@.current_trick_type == TrickType::Open,
            g@.current_player_index == 0,
            g@.active_player_count == player_uids.len(),
            !g@.is_game_over,
    {
        let n = player_uids.len();
        let ghost uids = player_uids@;
        let ghost orig = deck@;
        let mut players = arrays::players_new();
        let mut i: usize = 0;
        while i < n
            invariant
                n == uids.len(),
                uids == player_uids@,
                n <= MAX_PLAYERS,
                0 <= i <= n,
                player_items(players).len() == i,
                player_items(players).map_values(|p: Player| p@) == Seq::new(
                    i as nat,
                    |k: int| PlayerModel { uid: uids[k], hand: empty_hand(), points: 0 },
                ),
            decreases n - i,
        {
            let ghost before = player_items(players);
            let p = Player::new(player_uids[i]);
            arrays::players_push(&mut players, p);
            proof {
                assert(player_items(players) == before.push(p));
                assert(before.push(p).map_values(|p: Player| p@) =~= before.map_values(
                    |p: Player| p@,
                ).push(p@));
                assert(player_items(players).map_values(|p: Player| p@) =~= Seq::new(
                    (i + 1) as nat,
                    |k: int| PlayerModel { uid: uids[k], hand: empty_hand(), points: 0 },
                ));
            }
            i = i + 1;
        }
        let initial_hand_size: usize = if n <= 4 {
            HAND_SIZE_3_4_PLAYERS
        } else if n == 5 {
            HAND_SIZE_5_PLAYERS
        } else {
            HAND_SIZE_6_PLAYERS
        };
        let ghost h = initial_hand_size as int;
        assert(h == deal::hand_size_for(n as int));
        proof {
            lemma_deal_sizes(n as int);
            assert forall|k: int| 0 <= k < n implies #[trigger] player_items(players)[k]@ == (if k
                < 0 {
                deal::dealt_players(uids, orig)[k]
            } else {
                PlayerModel { uid: uids[k], hand: empty_hand(), points: 0 }
            }) by {
                assert(player_items(players).map_values(|p: Player| p@)[k] == player_items(
                    players,
                )[k]@);
            }
            deal::lemma_full_deck_value(orig);
            rules::lemma_hands_value_nonneg(player_items(players).map_values(|p: Player| p@));
            assert(rules::hands_value(player_items(players).map_values(|p: Player| p@)) == 0) by {
                lemma_hands_value_empty(player_items(players).map_values(|p: Player| p@));
            }
        }
        let mut deck = deck;
        let mut i: usize = 0;
        while i < n
            invariant
                n == uids.len(),
                uids == player_uids@,
                MIN_PLAYERS <= n <= MAX_PLAYERS,
                h == initial_hand_size,
                h == deal::hand_size_for(n as int),
                n * h + n <= DECK_SIZE,
                deal::is_full_deck(orig),
                0 <= i <= n,
                i * h <= n * h,
                deck@ == orig.take(DECK_SIZE - i * h),
                player_items(players).len() == n,
                forall|k: int|
                    0 <= k < n ==> #[trigger] player_items(players)[k]@ == (if k < i {
                        deal::dealt_players(uids, orig)[k]
                    } else {
                        PlayerModel { uid: uids[k], hand: empty_hand(), points: 0 }
                    }),
                rules::hands_value(player_items(players).map_values(|p: Player| p@))
                    + deal::cards_value(deck@) == deal::cards_value(orig),
                forall|k: int| 0 <= k < i ==> rules::has_cards(#[trigger] player_items(players)[k]@),
            decreases n - i,
        {
            assert((i + 1) * h <= n * h) by (nonlinear_arith)
                requires
                    i < n,
                    h >= 0,
            ;
            assert((i + 1) * h == i * h + h) by (nonlinear_arith);
            let ghost deck_before = deck@;
            let hand_vec = deck.split_off(deck.len() - initial_hand_size);
            let ghost cards = hand_vec@;
            proof {
                assert(cards =~= deal::dealt_cards(orig, n as int, i as int));
                assert(deck_before =~= deck@ + cards);
                deal::lemma_cards_value_concat(deck@, cards);
                assert(deck@ =~= orig.take(DECK_SIZE - (i + 1) * h));
                assert(orig =~= deck_before + orig.skip(DECK_SIZE - i * h));
            }
            let ghost players_before = player_items(players).map_values(|p: Player| p@);
            let mut player = arrays::players_replace(&mut players, i, Player::new(0));
            assert(player@ == PlayerModel { uid: uids[i as int], hand: empty_hand(), points: 0 });
            proof {
                assert forall|r: u8| crate::constants::valid_rank(r) implies #[trigger] deal::count_in(
                    cards,
                    r,
                ) <= MAX_COUNT_PER_RANK by {
                    lemma_dealt_count_bound(orig, n as int, i as int, r);
                }
                assert(cards.take(0) =~= Seq::<u8>::empty());
                assert forall|r: u8| crate::constants::valid_rank(r) implies #[trigger] deal::count_in(
                    cards.take(0),
                    r,
                ) <= deal::count_in(cards, r) by {
                    deal::lemma_count_in_nonneg(cards, r);
                }
                assert forall|k: int| 0 <= k < cards.len() implies crate::constants::valid_rank(
                    #[trigger] cards[k],
                ) by {
                    assert(cards[k] == orig[DECK_SIZE - (i + 1) * h + k]);
                }
                assert(empty_hand() =~= deal::counts_of(cards.take(0)));
            }
            let mut j: usize = 0;
            while j < initial_hand_size
                invariant
                    0 <= j <= h,
                    h == initial_hand_size,
                    cards == hand_vec@,
                    cards.len() == h,
                    deal::is_full_deck(orig),
                    forall|r: u8|
                        crate::constants::valid_rank(r) ==> #[trigger] deal::count_in(cards, r)
                            <= MAX_COUNT_PER_RANK,
                    forall|k: int| 0 <= k < cards.len() ==> crate::constants::valid_rank(#[trigger] cards[k]),
                    player@.uid == uids[i as int],
                    player@.points == 0,
                    player@.hand =~= deal::counts_of(cards.take(j as int)),
                    forall|r: u8|
                        crate::constants::valid_rank(r) ==> #[trigger] deal::count_in(
                            cards.take(j as int),
                            r,
                        ) <= deal::count_in(cards, r),
                    rules::hand_value(player@.hand) == deal::cards_value(cards.take(j as int)),
                decreases h - j,
            {
                let card = hand_vec[j];
                proof {
                    assert(cards.take(j + 1).drop_last() =~= cards.take(j as int));
                    assert(cards =~= cards.take(j + 1) + cards.skip(j + 1));
                    deal::lemma_count_in_concat(cards.take(j + 1), cards.skip(j + 1), card);
                    deal::lemma_count_in_nonneg(cards.skip(j + 1), card);
                    assert forall|r: u8| crate::constants::valid_rank(r) implies #[trigger] deal::count_in(
                        cards.take(j + 1),
                        r,
                    ) <= deal::count_in(cards, r) by {
                        deal::lemma_count_in_concat(cards.take(j + 1), cards.skip(j + 1), r);
                        deal::lemma_count_in_nonneg(cards.skip(j + 1), r);
                    }
                }
                proof {
                    assert(crate::constants::valid_rank(card));
                    assert(deal::count_in(cards.take(j + 1), card) <= deal::count_in(cards, card));
                    assert(deal::count_in(cards, card) <= MAX_COUNT_PER_RANK);
                    assert(deal::count_in(cards.take(j + 1), card) == deal::count_in(
                        cards.take(j as int),
                        card,
                    ) + 1);
                    deal::lemma_count_in_nonneg(cards.take(j as int), card);
                    assert(player@.hand[card - 1] == deal::counts_of(cards.take(j as int))[card - 1]);
                }
                player.add_cards(card, 1);
                proof {
                    assert forall|r: int| 0 <= r < MAX_RANK implies #[trigger] player@.hand[r]
                        == deal::counts_of(cards.take(j + 1))[r] by {
                        assert(deal::count_in(cards.take(j + 1), (r + 1) as u8) == deal::count_in(
                            cards.take(j as int),
                            (r + 1) as u8,
                        ) + if card == r + 1 {
                            1int
                        } else {
                            0int
                        });
                        deal::lemma_count_in_nonneg(cards.take(j as int), (r + 1) as u8);
                        assert(deal::count_in(cards.take(j + 1), (r + 1) as u8) <= deal::count_in(
                            cards,
                            (r + 1) as u8,
                        ));
                        if card != r + 1 {
                            assert(deal::count_in(cards.take(j as int), (r + 1) as u8) <= deal::count_in(
                                cards,
                                (r + 1) as u8,
                            ));
                        }
                    }
                    assert(player@.hand =~= deal::counts_of(cards.take(j + 1)));
                }
                j = j + 1;
            }
            proof {
                assert(cards.take(h) =~= cards);
            }
            arrays::players_replace(&mut players, i, player);
            proof {
                let now = player_items(players).map_values(|p: Player| p@);
                assert(now =~= players_before.update(i as int, player@));
                rules::lemma_sums_update(players_before, i as int, player@);
                assert(players_before[i as int].hand == empty_hand());
                assert(rules::hand_value(empty_hand()) == 0);
                assert(player@ == deal::dealt_players(uids, orig)[i as int]);
                lemma_cards_value_positive(cards);
                assert(rules::has_cards(player@)) by {
                    crate::game::player::lemma_hand_total_zero(player@.hand, MAX_RANK as int);
                    if crate::game::player::hand_total(player@.hand) == 0 {
                        assert(player@.hand[0] == 0 && player@.hand[1] == 0 && player@.hand[2] == 0);
                        assert(player@.hand[3] == 0 && player@.hand[4] == 0 && player@.hand[5] == 0);
                    }
                }
                assert forall|k: int| 0 <= k < i + 1 implies rules::has_cards(
                    #[trigger] player_items(players)[k]@,
                ) by {
                    if k < i {
                        assert(player_items(players)[k] == player_items(players)[k]);
                    }
                }
            }
            i = i + 1;
        }
        proof {
            assert(i * h == n * h);
        }
        let ghost dealt_deck = deck@;
        let ghost len = dealt_deck.len();
        let mut available_points = arrays::points_new();
        let mut i: usize = 0;
        while i < n
            invariant
                n <= MAX_PLAYERS,
                0 <= i <= n,
                len == dealt_deck.len(),
                len >= n,
                deck@ == dealt_deck.take(len - i),
                point_items(available_points) == Seq::new(
                    i as nat,
                    |k: int| dealt_deck[len - 1 - k],
                ),
                rules::points_sum(point_items(available_points)) + deal::cards_value(deck@)
                    == deal::cards_value(dealt_deck),
            decreases n - i,
        {
            let ghost before = deck@;
            let value = deck.pop().unwrap();
            proof {
                assert(deck@ =~= dealt_deck.take(len - i - 1));
                assert(before.drop_last() == deck@);
            }
            arrays::points_push(&mut available_points, value);
            proof {
                assert(point_items(available_points) =~= Seq::new(
                    (i + 1) as nat,
                    |k: int| dealt_deck[len - 1 - k],
                ));
                assert(point_items(available_points).drop_last() =~= Seq::new(
                    i as nat,
                    |k: int| dealt_deck[len - 1 - k],
                ));
            }
            i = i + 1;
        }
        let ghost unsorted = point_items(available_points);
        proof {
            assert(unsorted =~= deal::dealt_points(orig, n as int).reverse());
            deal::dealt_points(orig, n as int).lemma_reverse_to_multiset();
        }
        deal::sort_points_desc(&mut available_points);
        let g = Self {
            available_points,
            players,
            current_trick: arrays::plays_new(),
            current_trick_type: TrickType::Open,
            current_player_index: 0,
            active_player_count: n as u8,
            is_game_over: false,
        };
        proof {
            let m = g@;
            assert(m.players =~= deal::dealt_players(uids, orig));
            assert(deal::cards_value(deck@) >= 0) by {
                deal::lemma_cards_value_nonneg(deck@);
            }
            assert forall|a: int, b: int|
                0 <= a < m.players.len() && 0 <= b < m.players.len() && #[trigger] m.players[a].uid
                    == #[trigger] m.players[b].uid implies a == b by {
                assert(m.players[a].uid == uids[a]);
                assert(m.players[b].uid == uids[b]);
            }
            assert forall|k: int| 0 <= k < n implies crate::game::player::hand_within_limits(
                #[trigger] m.players[k].hand,
            ) by {
                let c = deal::dealt_cards(orig, n as int, k);
                assert forall|r: int| 0 <= r < MAX_RANK implies #[trigger] m.players[k].hand[r]
                    <= MAX_COUNT_PER_RANK by {
                    lemma_dealt_count_bound(orig, n as int, k, (r + 1) as u8);
                    deal::lemma_count_in_nonneg(c, (r + 1) as u8);
                }
            }
            assert(rules::trick_counts(Seq::<Play>::empty()) =~= Seq::new(
                MAX_RANK as nat,
                |i: int| 0int,
            ));
            rules::lemma_score_sum_zero(m.players);
            assert forall|k: int| 0 <= k < n implies rules::has_cards(#[trigger] m.players[k]) by {
                assert(m.players[k] == player_items(players)[k]@);
            }
            rules::lemma_count_with_cards_all(m.players, n as int);
            assert(rules::turn_ready(m));
            unsorted.to_multiset_ensures();
            m.available_points.to_multiset_ensures();
            assert(m.available_points.len() == n);
            assert(rules::uids_unique(m.players));
            assert(m.current_player_index < m.players.len());
            assert(m.current_trick.len() < m.active_player_count);
            assert(rules::model_sound(m));
            assert(rules::table_value(m) <= rules::deck_value());
            deal::lemma_sorted_points(deal::dealt_points(orig, n as int), m.available_points);
            assert(m == deal::fresh_table(uids, orig));
        }
        g
    }

    /// What the player with `player_uid` may see: the public table, its own
    /// hand and score, and for every other player (in seat order) only the
    /// uid, the number of cards held and the score.
    pub fn scrub_state(&self, player_uid: u8) -> (view: GameView)
        requires
            self.sound(),
            rules::has_uid(self@.players, player_uid),
        ensures
            point_items(view.available_points) == self@.available_points,
            play_items(view.current_trick) == self@.current_trick,
            view.current_trick_type == self@.current_trick_type,
            view.current_player_index == self@.current_player_index,
            view.active_player_count == self@.active_player_count,
            view.my_uid == player_uid,
            view.my_hand@ == self@.players[rules::uid_index(self@.players, player_uid)].hand,
            view.my_points == self@.players[rules::uid_index(self@.players, player_uid)].points,
            opponent_items(view.opponents) == opponents_of(self@.players, player_uid),
    {
        let k = self.index_of_uid(player_uid);
        let player = arrays::players_get(&self.players, k);
        proof {
            assert(self@.players[k as int] == player@);
        }
        let ghost players = self@.players;
        let n = arrays::players_len(&self.players);
        let mut opponents = arrays::opponents_new();
        let mut i: usize = 0;
        while i < n
            invariant
                n == players.len(),
                players == self@.players,
                forall|i: int| 0 <= i < players.len() ==> crate::game::player::hand_within_limits(
                    #[trigger] players[i].hand,
                ),
                n <= MAX_PLAYERS,
                0 <= i <= n,
                k < n,
                players[k as int].uid == player_uid,
                rules::uids_unique(players),
                opponent_items(opponents) == opponents_of(players.take(i as int), player_uid),
                opponent_items(opponents).len() == i - if k < i {
                    1int
                } else {
                    0int
                },
            decreases n - i,
        {
            let p = arrays::players_get(&self.players, i);
            proof {
                assert(players[i as int] == p@);
                assert(players.take(i + 1).drop_last() =~= players.take(i as int));
                assert(players.take(i + 1).last() == p@);
                if p@.uid == player_uid {
                    assert(i == k);
                }
                crate::game::player::lemma_hand_total_within_limits(p@.hand);
            }
            if p.uid() != player_uid {
                let ghost before = opponent_items(opponents);
                arrays::opponents_push(
                    &mut opponents,
                    OpponentView { uid: p.uid(), hand_size: p.hand_size(), points: p.points() },
                );
                proof {
                    assert(opponent_items(opponents) =~= opponents_of(players.take(i + 1), player_uid));
                }
            } else {
                proof {
                    assert(opponents_of(players.take(i + 1), player_uid) =~= opponents_of(
                        players.take(i as int),
                        player_uid,
                    ));
                }
            }
            i = i + 1;
        }
        proof {
            assert(players.take(n as int) =~= players);
        }
        GameView {
            available_points: arrays::points_clone(&self.available_points),
            current_trick: arrays::plays_clone(&self.current_trick),
            current_trick_type: self.current_trick_type,
            current_player_index: self.current_player_index,
            active_player_count: self.active_player_count,
            my_uid: player_uid,
            my_hand: player.hand(),
            my_points: player.points(),
            opponents,
        }
    }

    /// The point values on offer, largest first.
    pub fn available_points(&self) -> (points: &ArrayVec<u8, MAX_PLAYERS>)
        ensures
            point_items(*points) == self@.available_points,
    {
        &self.available_points
    }

    /// The players in seat order.
    pub fn players(&self) -> (players: &ArrayVec<Player, MAX_PLAYERS>)
        ensures
            player_items(*players).map_values(|p: Player| p@) == self@.players,
    {
        &self.players
    }

    /// The player in seat `index`.
    pub fn player(&self, index: usize) -> (player: &Player)
        requires
            index < self@.players.len(),
        ensures
            player@ == self@.players[index as int],
    {
        arrays::players_get(&self.players, index)
    }

    /// The plays of the trick in progress, in the order they were made.
    pub fn current_trick(&self) -> (trick: &ArrayVec<Play, MAX_PLAYERS>)
        ensures
            play_items(*trick) == self@.current_trick,
    {
        &self.current_trick
    }

    pub fn current_trick_type(&self) -> (tt: TrickType)
        ensures
            tt == self@.current_trick_type,
    {
        self.current_trick_type
    }

    /// The seat of the player to move.
    pub fn current_player_index(&self) -> (idx: u8)
        ensures
            idx == self@.current_player_index,
    {
        self.current_player_index
    }

    /// The number of players who held cards when the trick opened.
    pub fn active_player_count(&self) -> (count: u8)
        ensures
            count == self@.active_player_count,
    {
        self.active_player_count
    }

    /// Replaces the hand of the player in seat `index`, to set up a position.
    /// A table only holds hands that the deck could deal, so no count may
    /// exceed the copies of a rank in the deck; every operation on the table
    /// relies on that bound.
    pub fn set_player_hand(&mut self, index: usize, hand: [u8; MAX_RANK])
        requires
            old(self).sound(),
            index < old(self)@.players.len(),
            forall|i: int| 0 <= i < MAX_RANK ==> #[trigger] hand@[i] <= MAX_COUNT_PER_RANK,
        ensures
            final(self).sound(),
            final(self)@ == (GameModel {
                players: old(self)@.players.update(
                    index as int,
                    PlayerModel { hand: hand@, ..old(self)@.players[index as int] },
                ),
                ..old(self)@
            }),
    {
        let ghost m = self@;
        proof {
            assert(m.players[index as int] == player_items(self.players)[index as int]@);
        }
        let mut player = arrays::players_replace(&mut self.players, index, Player::new(0));
        player.set_hand(hand);
        arrays::players_replace(&mut self.players, index, player);
        proof {
            let q = PlayerModel { hand: hand@, ..m.players[index as int] };
            assert(self@.players =~= m.players.update(index as int, q));
            assert forall|a: int, b: int|
                0 <= a < self@.players.len() && 0 <= b < self@.players.len()
                    && #[trigger] self@.players[a].uid == #[trigger] self@.players[b].uid implies a
                == b by {
                assert(self@.players[a].uid == m.players[a].uid);
                assert(self@.players[b].uid == m.players[b].uid);
            }
            assert forall|i: int| 0 <= i < m.current_trick.len() implies rules::has_uid(
                self@.players,
                #[trigger] m.current_trick[i].player_uid,
            ) by {
                assert(kind_valid(m.current_trick[i].combo@));
                let j = choose|j: int|
                    0 <= j < m.players.len() && #[trigger] m.players[j].uid
                        == m.current_trick[i].player_uid;
                assert(self@.players[j].uid == m.players[j].uid);
            }
        }
    }

    /// Replaces the trick type, to set up a position; the plays already in
    /// the trick must fit the new type.
    pub fn set_trick_type(&mut self, tt: TrickType)
        requires
            old(self).sound(),
            forall|i: int|
                0 <= i < old(self)@.current_trick.len() ==> (
                #[trigger] old(self)@.current_trick[i].combo@ is Group ==> tt == TrickType::Group)
                    && (old(self)@.current_trick[i].combo@ is Run ==> tt == TrickType::Run),
        ensures
            final(self).sound(),
            final(self)@ == (GameModel { current_trick_type: tt, ..old(self)@ }),
    {
        self.current_trick_type = tt;
    }

    /// Adds `points` to the score of the player in seat `index`.
    pub fn add_player_points(&mut self, index: usize, points: u8)
        requires
            old(self).sound(),
            index < old(self)@.players.len(),
            old(self)@.players[index as int].points + points <= u8::MAX,
        ensures
            final(self).sound(),
            final(self)@ == (GameModel {
                players: old(self)@.players.update(
                    index as int,
                    PlayerModel {
                        points: (old(self)@.players[index as int].points + points) as u8,
                        ..old(self)@.players[index as int]
                    },
                ),
                ..old(self)@
            }),
    {
        let ghost m = self@;
        proof {
            assert(m.players[index as int] == player_items(self.players)[index as int]@);
        }
        let mut player = arrays::players_replace(&mut self.players, index, Player::new(0));
        player.add_points(points);
        arrays::players_replace(&mut self.players, index, player);
        proof {
            let q = PlayerModel {
                points: (m.players[index as int].points + points) as u8,
                ..m.players[index as int]
            };
            assert(self@.players =~= m.players.update(index as int, q));
            assert forall|a: int, b: int|
                0 <= a < self@.players.len() && 0 <= b < self@.players.len()
                    && #[trigger] self@.players[a].uid == #[trigger] self@.players[b].uid implies a
                == b by {
                assert(self@.players[a].uid == m.players[a].uid);
                assert(self@.players[b].uid == m.players[b].uid);
            }
            assert forall|i: int| 0 <= i < m.current_trick.len() implies rules::has_uid(
                self@.players,
                #[trigger] m.current_trick[i].player_uid,
            ) by {
                assert(kind_valid(m.current_trick[i].combo@));
                let j = choose|j: int|
                    0 <= j < m.players.len() && #[trigger] m.players[j].uid
                        == m.current_trick[i].player_uid;
                assert(self@.players[j].uid == m.players[j].uid);
            }
        }
    }

    /// Whether the game has ended.
    pub fn is_game_over(&self) -> (over: bool)
        ensures
            over == self@.is_game_over,
    {
        self.is_game_over
    }
}

} // verus!
