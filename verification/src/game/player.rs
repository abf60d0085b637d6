use crate::constants::{valid_count, valid_rank, MAX_COUNT_PER_RANK, MAX_RANK};
use crate::game::maps::RankMap;
use vstd::prelude::*;

verus! {

/// A seat at the table: an identifier, a hand of cards counted per rank, and
/// the points won so far.
#[derive(Debug)]
pub struct Player {
    uid: u8,
    hand: RankMap,
    points: u8,
}

/// What a player is, as a value.
pub struct PlayerModel {
    pub uid: u8,
    /// Entry `i` holds the number of cards of rank `i + 1`.
    pub hand: Seq<u8>,
    pub points: u8,
}

/// Sum of the first `k` entries of a hand.
pub open spec fn hand_prefix_total(hand: Seq<u8>, k: int) -> int
    decreases k,
{
    if k <= 0 {
        0
    } else {
        hand_prefix_total(hand, k - 1) + hand[k - 1]
    }
}

/// Number of cards in a hand.
pub open spec fn hand_total(hand: Seq<u8>) -> int {
    hand_prefix_total(hand, hand.len() as int)
}

/// A hand has one entry per rank and never more copies of a rank than the
/// deck holds.
pub open spec fn hand_within_limits(hand: Seq<u8>) -> bool {
    &&& hand.len() == MAX_RANK
    &&& forall|i: int| 0 <= i < hand.len() ==> #[trigger] hand[i] <= MAX_COUNT_PER_RANK
}

/// The empty hand.
pub open spec fn empty_hand() -> Seq<u8> {
    Seq::new(MAX_RANK as nat, |i: int| 0u8)
}

/// Sums of bounded entries stay bounded.
pub proof fn lemma_hand_prefix_total_bounds(hand: Seq<u8>, k: int)
    requires
        0 <= k <= hand.len(),
        forall|i: int| 0 <= i < hand.len() ==> #[trigger] hand[i] <= MAX_COUNT_PER_RANK,
    ensures
        0 <= hand_prefix_total(hand, k) <= k * MAX_COUNT_PER_RANK,
    decreases k,
{
    if k > 0 {
        lemma_hand_prefix_total_bounds(hand, k - 1);
    }
}

/// A prefix of a hand holds no more cards than a longer prefix.
pub proof fn lemma_hand_prefix_total_le(hand: Seq<u8>, j: int, k: int)
    requires
        0 <= j <= k,
    ensures
        hand_prefix_total(hand, j) <= hand_prefix_total(hand, k),
    decreases k,
{
    if j < k {
        lemma_hand_prefix_total_le(hand, j, k - 1);
    }
}

/// A hand within the limits holds at most `MAX_RANK * MAX_COUNT_PER_RANK`
/// cards.
pub proof fn lemma_hand_total_within_limits(hand: Seq<u8>)
    requires
        hand_within_limits(hand),
    ensures
        0 <= hand_total(hand) <= MAX_RANK * MAX_COUNT_PER_RANK,
{
    lemma_hand_prefix_total_bounds(hand, MAX_RANK as int);
}

/// A hand holds no card exactly when every count is zero.
pub proof fn lemma_hand_total_zero(hand: Seq<u8>, k: int)
    requires
        0 <= k <= hand.len(),
    ensures
        hand_prefix_total(hand, k) == 0 <==> forall|i: int| 0 <= i < k ==> #[trigger] hand[i] == 0,
    decreases k,
{
    if k > 0 {
        lemma_hand_total_zero(hand, k - 1);
        assert(hand_prefix_total(hand, k - 1) >= 0) by {
            lemma_hand_prefix_total_nonneg(hand, k - 1);
        }
    }
}

/// Sums of counts are never negative.
pub proof fn lemma_hand_prefix_total_nonneg(hand: Seq<u8>, k: int)
    ensures
        hand_prefix_total(hand, k) >= 0,
    decreases k,
{
    if k > 0 {
        lemma_hand_prefix_total_nonneg(hand, k - 1);
    }
}

impl View for Player {
    type V = PlayerModel;

    closed spec fn view(&self) -> PlayerModel {
        PlayerModel { uid: self.uid, hand: self.hand@, points: self.points }
    }
}

impl Player {
    /// A player with an empty hand and no points.
    pub fn new(uid: u8) -> (p: Self)
        ensures
            p@ == (PlayerModel { uid, hand: empty_hand(), points: 0 }),
    {
        Self { uid, hand: RankMap::new(), points: 0 }
    }

    pub fn uid(&self) -> (uid: u8)
        ensures
            uid == self@.uid,
    {
        self.uid
    }

    pub fn points(&self) -> (points: u8)
        ensures
            points == self@.points,
    {
        self.points
    }

    /// Adds `points` to the score; the score must stay within `u8`.
    pub fn add_points(&mut self, points: u8)
        requires
            old(self)@.points + points <= u8::MAX,
        ensures
            final(self)@ == (PlayerModel { points: (old(self)@.points + points) as u8, ..old(self)@ }),
    {
        self.points = self.points + points;
    }

    /// A copy of the hand.
    pub fn hand(&self) -> (hand: RankMap)
        ensures
            hand@ == self@.hand,
    {
        self.hand
    }

    /// The number of cards of `rank` in the hand.
    pub fn rank_count(&self, rank: u8) -> (count: u8)
        requires
            valid_rank(rank),
        ensures
            count == self@.hand[rank - 1],
    {
        self.hand.get(rank)
    }

    /// Adds `count` cards of `rank`; the hand may not exceed the copies that
    /// the deck holds of one rank.
    pub fn add_cards(&mut self, rank: u8, count: u8)
        requires
            valid_rank(rank),
            valid_count(count),
            count + old(self)@.hand[rank - 1] <= MAX_COUNT_PER_RANK,
        ensures
            final(self)@ == (PlayerModel {
                hand: old(self)@.hand.update(rank - 1, (old(self)@.hand[rank - 1] + count) as u8),
                ..old(self)@
            }),
    {
        let mut hand = self.hand;
        let current = hand.get(rank);
        hand.set(rank, current + count);
        self.hand = hand;
    }

    /// Removes `count` cards of `rank`; the hand must hold them.
    pub fn remove_cards(&mut self, rank: u8, count: u8)
        requires
            valid_rank(rank),
            valid_count(count),
            count <= old(self)@.hand[rank - 1],
        ensures
            final(self)@ == (PlayerModel {
                hand: old(self)@.hand.update(rank - 1, (old(self)@.hand[rank - 1] - count) as u8),
                ..old(self)@
            }),
    {
        let mut hand = self.hand;
        let current = hand.get(rank);
        hand.set(rank, current - count);
        self.hand = hand;
    }

    /// The number of cards in the hand; the count must fit in `u8`.
    pub fn hand_size(&self) -> (size: u8)
        requires
            hand_total(self@.hand) <= u8::MAX,
        ensures
            size == hand_total(self@.hand),
    {
        proof {
            self.hand.lemma_len();
        }
        let mut total: u8 = 0;
        let mut rank: u8 = 1;
        while rank <= MAX_RANK as u8
            invariant
                1 <= rank <= MAX_RANK + 1,
                self.hand@.len() == MAX_RANK,
                hand_total(self.hand@) <= u8::MAX,
                total == hand_prefix_total(self.hand@, rank - 1),
            decreases MAX_RANK + 1 - rank,
        {
            proof {
                lemma_hand_prefix_total_le(self.hand@, rank as int, MAX_RANK as int);
            }
            total = total + self.hand.get(rank);
            rank = rank + 1;
        }
        total
    }

    /// Whether the hand holds no card; the count must fit in `u8`.
    pub fn is_empty(&self) -> (empty: bool)
        requires
            hand_total(self@.hand) <= u8::MAX,
        ensures
            empty == (hand_total(self@.hand) == 0),
    {
        self.hand_size() == 0
    }

    /// Replaces the whole hand with the given counts, rank 1 first.
    pub fn set_hand(&mut self, hand: [u8; MAX_RANK])
        ensures
            final(self)@ == (PlayerModel { hand: hand@, ..old(self)@ }),
    {
        self.hand = RankMap::from_counts(hand);
    }
}

} // verus!
