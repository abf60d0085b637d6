//! Dealing: the full deck, how a shuffled deck is split into hands and point
//! values, and the counting facts that dealing relies on.
use crate::constants::{
    valid_rank, DECK_SIZE, HAND_SIZE_3_4_PLAYERS, HAND_SIZE_5_PLAYERS, HAND_SIZE_6_PLAYERS,
    MAX_COUNT_PER_RANK, MAX_RANK,
};
use arrayvec::ArrayVec;
use crate::constants::MAX_PLAYERS;
use crate::game::arrays::{point_items, points_get, points_len, points_set};
use crate::game::player::PlayerModel;
use crate::game::rules::{hand_value, points_sum, GameModel};
use crate::game::trick_type::TrickType;
use vstd::prelude::*;

verus! {

broadcast use vstd::seq_lib::group_to_multiset_ensures;

/// Number of cards equal to `x`.
pub open spec fn count_in(s: Seq<u8>, x: u8) -> int
    decreases s.len(),
{
    if s.len() == 0 {
        0
    } else {
        count_in(s.drop_last(), x) + if s.last() == x { 1int } else { 0int }
    }
}

/// A full deck: `DECK_SIZE` cards, `MAX_COUNT_PER_RANK` of each rank, in any
/// order.
pub open spec fn is_full_deck(deck: Seq<u8>) -> bool {
    &&& deck.len() == DECK_SIZE
    &&& forall|i: int| 0 <= i < deck.len() ==> valid_rank(#[trigger] deck[i])
    &&& forall|r: u8| valid_rank(r) ==> #[trigger] count_in(deck, r) == MAX_COUNT_PER_RANK
}

/// Cards dealt to each player for a table of `n` players.
pub open spec fn hand_size_for(n: int) -> int {
    if n <= 4 {
        HAND_SIZE_3_4_PLAYERS as int
    } else if n == 5 {
        HAND_SIZE_5_PLAYERS as int
    } else {
        HAND_SIZE_6_PLAYERS as int
    }
}

/// Per-rank counts of some cards (entry `i` is rank `i + 1`).
pub open spec fn counts_of(cards: Seq<u8>) -> Seq<u8> {
    Seq::new(MAX_RANK as nat, |i: int| count_in(cards, (i + 1) as u8) as u8)
}

/// The cards the `i`-th player is dealt: the `i`-th block of hand-sized cards
/// taken from the end of the deck.
pub open spec fn dealt_cards(deck: Seq<u8>, n: int, i: int) -> Seq<u8> {
    let h = hand_size_for(n);
    deck.subrange(deck.len() - (i + 1) * h, deck.len() - i * h)
}

/// The cards turned into point values: the `n` cards below the hands.
pub open spec fn dealt_points(deck: Seq<u8>, n: int) -> Seq<u8> {
    let h = hand_size_for(n);
    deck.subrange(deck.len() - n * h - n, deck.len() - n * h)
}

/// The players of a fresh table.
pub open spec fn dealt_players(uids: Seq<u8>, deck: Seq<u8>) -> Seq<PlayerModel> {
    Seq::new(
        uids.len(),
        |i: int|
            PlayerModel {
                uid: uids[i],
                hand: counts_of(dealt_cards(deck, uids.len() as int, i)),
                points: 0,
            },
    )
}

/// No value occurs twice.
pub open spec fn all_distinct(s: Seq<u8>) -> bool {
    forall|i: int, j: int| 0 <= i < j < s.len() ==> s[i] != s[j]
}

/// Largest value first.
pub open spec fn sorted_desc(s: Seq<u8>) -> bool {
    forall|i: int, j: int| 0 <= i < j < s.len() ==> #[trigger] s[i] >= #[trigger] s[j]
}

/// The ranks of some cards added up.
pub open spec fn cards_value(s: Seq<u8>) -> int {
    points_sum(s)
}

/// The deck in the order it is built before shuffling: ranks 1 to 6, ten
/// times over.
pub open spec fn ordered_deck() -> Seq<u8> {
    Seq::new(DECK_SIZE as nat, |i: int| (i % (MAX_RANK as int) + 1) as u8)
}

/// The values of `s` arranged largest first.
pub open spec fn sorted_points(s: Seq<u8>) -> Seq<u8> {
    choose|p: Seq<u8>| sorted_desc(p) && p.to_multiset() == s.to_multiset()
}

/// A fresh table for the players `uids`, dealt from `deck`: each player in
/// seat order takes the next hand-sized block from the end of the deck, the
/// next card for each player becomes a point value, the values are offered
/// largest first, and the first player leads an open trick.
pub open spec fn fresh_table(uids: Seq<u8>, deck: Seq<u8>) -> GameModel {
    GameModel {
        available_points: sorted_points(dealt_points(deck, uids.len() as int)),
        players: dealt_players(uids, deck),
        current_trick: Seq::empty(),
        current_trick_type: TrickType::Open,
        current_player_index: 0,
        active_player_count: uids.len() as u8,
        is_game_over: false,
    }
}

/// Two arrangements of the same values that are both largest first are the
/// same sequence.
pub proof fn lemma_sorted_arrangement_unique(a: Seq<u8>, b: Seq<u8>)
    requires
        sorted_desc(a),
        sorted_desc(b),
        a.to_multiset() == b.to_multiset(),
    ensures
        a == b,
    decreases a.len(),
{
    a.to_multiset_ensures();
    b.to_multiset_ensures();
    if a.len() > 0 {
        assert(b.contains(b[0]));
        assert(a.contains(a[0]));
        assert(b.to_multiset().count(b[0]) > 0);
        assert(a.to_multiset().count(b[0]) > 0);
        assert(a.contains(b[0]));
        assert(a.to_multiset().count(a[0]) > 0);
        assert(b.to_multiset().count(a[0]) > 0);
        assert(b.contains(a[0]));
        let i = choose|i: int| 0 <= i < a.len() && a[i] == b[0];
        let j = choose|j: int| 0 <= j < b.len() && b[j] == a[0];
        if i > 0 {
            assert(a[0] >= a[i]);
        }
        if j > 0 {
            assert(b[0] >= b[j]);
        }
        assert(a[0] == b[0]);
        let a1 = a.remove(0);
        let b1 = b.remove(0);
        assert(a1.to_multiset() =~= a.to_multiset().remove(a[0]));
        assert(b1.to_multiset() =~= b.to_multiset().remove(b[0]));
        assert forall|x: int, y: int| 0 <= x < y < a1.len() implies #[trigger] a1[x] >= #[trigger] a1[y] by {
            assert(a1[x] == a[x + 1] && a1[y] == a[y + 1]);
        }
        assert forall|x: int, y: int| 0 <= x < y < b1.len() implies #[trigger] b1[x] >= #[trigger] b1[y] by {
            assert(b1[x] == b[x + 1] && b1[y] == b[y + 1]);
        }
        lemma_sorted_arrangement_unique(a1, b1);
        assert forall|k: int| 0 <= k < a.len() implies a[k] == b[k] by {
            if k > 0 {
                assert(a[k] == a1[k - 1] && b[k] == b1[k - 1]);
            }
        }
        assert(a =~= b);
    }
}

/// Any largest-first arrangement of the values of `s` is `sorted_points(s)`.
pub proof fn lemma_sorted_points(s: Seq<u8>, p: Seq<u8>)
    requires
        sorted_desc(p),
        p.to_multiset() == s.to_multiset(),
    ensures
        sorted_points(s) == p,
{
    let q = sorted_points(s);
    assert(sorted_desc(q) && q.to_multiset() == s.to_multiset());
    lemma_sorted_arrangement_unique(q, p);
}

pub proof fn lemma_count_in_concat(a: Seq<u8>, b: Seq<u8>, x: u8)
    ensures
        count_in(a + b, x) == count_in(a, x) + count_in(b, x),
    decreases b.len(),
{
    if b.len() == 0 {
        assert(a + b =~= a);
    } else {
        lemma_count_in_concat(a, b.drop_last(), x);
        assert((a + b).drop_last() =~= a + b.drop_last());
    }
}

pub proof fn lemma_count_in_nonneg(s: Seq<u8>, x: u8)
    ensures
        0 <= count_in(s, x) <= s.len(),
    decreases s.len(),
{
    if s.len() > 0 {
        lemma_count_in_nonneg(s.drop_last(), x);
    }
}

/// Counting agrees with the multiset of the cards.
pub proof fn lemma_count_in_multiset(s: Seq<u8>, x: u8)
    ensures
        count_in(s, x) == s.to_multiset().count(x),
    decreases s.len(),
{
    if s.len() > 0 {
        lemma_count_in_multiset(s.drop_last(), x);
        assert(s =~= s.drop_last().push(s.last()));
        assert(s.to_multiset() == s.drop_last().to_multiset().insert(s.last()));
    }
}

/// A rearranged full deck is a full deck.
pub proof fn lemma_full_deck_permutation(a: Seq<u8>, b: Seq<u8>)
    requires
        is_full_deck(a),
        b.to_multiset() == a.to_multiset(),
    ensures
        is_full_deck(b),
{
    a.to_multiset_ensures();
    b.to_multiset_ensures();
    assert(b.len() == a.len());
    assert forall|i: int| 0 <= i < b.len() implies valid_rank(#[trigger] b[i]) by {
        assert(b.to_multiset().count(b[i]) > 0);
        assert(a.contains(b[i]));
        let j = choose|j: int| 0 <= j < a.len() && a[j] == b[i];
        assert(valid_rank(a[j]));
    }
    assert forall|r: u8| valid_rank(r) implies #[trigger] count_in(b, r) == MAX_COUNT_PER_RANK by {
        lemma_count_in_multiset(a, r);
        lemma_count_in_multiset(b, r);
        assert(count_in(a, r) == MAX_COUNT_PER_RANK);
    }
}

/// The value of cards of ranks 1 to 6 is the rank-weighted value of their
/// counts.
pub proof fn lemma_cards_value_counts(s: Seq<u8>)
    requires
        forall|i: int| 0 <= i < s.len() ==> valid_rank(#[trigger] s[i]),
    ensures
        cards_value(s) == count_in(s, 1) + 2 * count_in(s, 2) + 3 * count_in(s, 3) + 4 * count_in(
            s,
            4,
        ) + 5 * count_in(s, 5) + 6 * count_in(s, 6),
    decreases s.len(),
{
    if s.len() > 0 {
        let s0 = s.drop_last();
        assert forall|i: int| 0 <= i < s0.len() implies valid_rank(#[trigger] s0[i]) by {
            assert(s0[i] == s[i]);
        }
        lemma_cards_value_counts(s0);
        assert(valid_rank(s[s.len() - 1]));
    }
}

/// A full deck is worth ten times 1 + 2 + ... + 6.
pub proof fn lemma_full_deck_value(deck: Seq<u8>)
    requires
        is_full_deck(deck),
    ensures
        cards_value(deck) == MAX_COUNT_PER_RANK * 21,
{
    lemma_cards_value_counts(deck);
    assert(count_in(deck, 1) == 10 && count_in(deck, 2) == 10 && count_in(deck, 3) == 10);
    assert(count_in(deck, 4) == 10 && count_in(deck, 5) == 10 && count_in(deck, 6) == 10);
}

pub proof fn lemma_cards_value_concat(a: Seq<u8>, b: Seq<u8>)
    ensures
        cards_value(a + b) == cards_value(a) + cards_value(b),
{
    crate::game::rules::lemma_points_sum_concat(a, b);
}

pub proof fn lemma_cards_value_nonneg(s: Seq<u8>)
    ensures
        cards_value(s) >= 0,
{
    crate::game::rules::lemma_points_sum_nonneg(s);
}

/// The full deck in its unshuffled order: ranks 1 to 6, ten times over.
pub(crate) fn ordered_cards() -> (deck: Vec<u8>)
    ensures
        is_full_deck(deck@),
        deck@ == ordered_deck(),
{
    let mut deck: Vec<u8> = Vec::new();
    let mut copy: usize = 0;
    while copy < MAX_COUNT_PER_RANK
        invariant
            0 <= copy <= MAX_COUNT_PER_RANK,
            deck@.len() == MAX_RANK * copy,
            deck@ == Seq::new(deck@.len(), |i: int| (i % (MAX_RANK as int) + 1) as u8),
            forall|i: int| 0 <= i < deck@.len() ==> valid_rank(#[trigger] deck@[i]),
            forall|r: u8| valid_rank(r) ==> #[trigger] count_in(deck@, r) == copy,
        decreases MAX_COUNT_PER_RANK - copy,
    {
        let mut rank: u8 = 1;
        while rank <= MAX_RANK as u8
            invariant
                1 <= rank <= MAX_RANK + 1,
                0 <= copy < MAX_COUNT_PER_RANK,
                deck@.len() == MAX_RANK * copy + rank - 1,
                deck@ == Seq::new(deck@.len(), |i: int| (i % (MAX_RANK as int) + 1) as u8),
                forall|i: int| 0 <= i < deck@.len() ==> valid_rank(#[trigger] deck@[i]),
                forall|r: u8|
                    valid_rank(r) ==> #[trigger] count_in(deck@, r) == copy + if r < rank {
                        1int
                    } else {
                        0int
                    },
            decreases MAX_RANK + 1 - rank,
        {
            let ghost before = deck@;
            deck.push(rank);
            proof {
                vstd::arithmetic::div_mod::lemma_mod_multiples_vanish(
                    copy as int,
                    rank - 1,
                    MAX_RANK as int,
                );
                vstd::arithmetic::div_mod::lemma_small_mod((rank - 1) as nat, MAX_RANK as nat);
                assert((MAX_RANK * copy + rank - 1) % (MAX_RANK as int) == rank - 1);
                assert(deck@ =~= Seq::new(deck@.len(), |i: int| (i % (MAX_RANK as int) + 1) as u8));
                assert(deck@.drop_last() =~= before);
                assert forall|r: u8| valid_rank(r) implies #[trigger] count_in(deck@, r) == copy
                    + if r < rank + 1 {
                    1int
                } else {
                    0int
                } by {
                    assert(count_in(deck@, r) == count_in(before, r) + if rank == r {
                        1int
                    } else {
                        0int
                    });
                }
            }
            rank = rank + 1;
        }
        copy = copy + 1;
    }
    deck
}

/// Changing one value changes the sum by the difference.
pub proof fn lemma_points_sum_update(s: Seq<u8>, i: int, x: u8)
    requires
        0 <= i < s.len(),
    ensures
        points_sum(s.update(i, x)) == points_sum(s) - s[i] + x,
    decreases s.len(),
{
    if i == s.len() - 1 {
        assert(s.update(i, x).drop_last() =~= s.drop_last());
    } else {
        lemma_points_sum_update(s.drop_last(), i, x);
        assert(s.update(i, x).drop_last() =~= s.drop_last().update(i, x));
    }
}

/// Swapping two values keeps the values and their sum.
pub proof fn lemma_swap(s: Seq<u8>, a: int, b: int)
    requires
        0 <= a < s.len(),
        0 <= b < s.len(),
    ensures
        s.update(a, s[b]).update(b, s[a]).to_multiset() == s.to_multiset(),
        points_sum(s.update(a, s[b]).update(b, s[a])) == points_sum(s),
{
    let t = s.update(a, s[b]);
    lemma_points_sum_update(s, a, s[b]);
    lemma_points_sum_update(t, b, s[a]);
    vstd::seq_lib::to_multiset_update(s, a, s[b]);
    vstd::seq_lib::to_multiset_update(t, b, s[a]);
    if a != b {
        assert(t[b] == s[b]);
    }
    assert(t.update(b, s[a]).to_multiset() =~= s.to_multiset());
}

/// Sorts the point values in place, largest first.
pub(crate) fn sort_points_desc(v: &mut ArrayVec<u8, MAX_PLAYERS>)
    ensures
        sorted_desc(point_items(*final(v))),
        point_items(*final(v)).to_multiset() == point_items(*old(v)).to_multiset(),
        points_sum(point_items(*final(v))) == points_sum(point_items(*old(v))),
{
    let ghost orig = point_items(*v);
    let n = points_len(v);
    let mut i: usize = 0;
    while i < n
        invariant
            n == point_items(*v).len(),
            0 <= i <= n,
            forall|a: int, b: int| 0 <= a < b < i ==> #[trigger] point_items(*v)[a] >= #[trigger] point_items(*v)[b],
            point_items(*v).to_multiset() == orig.to_multiset(),
            points_sum(point_items(*v)) == points_sum(orig),
        decreases n - i,
    {
        let mut j: usize = i;
        loop
            invariant
                n == point_items(*v).len(),
                0 <= j <= i < n,
                forall|a: int, b: int|
                    0 <= a < b <= i && a != j && b != j ==> #[trigger] point_items(*v)[a]
                        >= #[trigger] point_items(*v)[b],
                forall|b: int| j < b <= i ==> point_items(*v)[j as int] > #[trigger] point_items(*v)[b],
                point_items(*v).to_multiset() == orig.to_multiset(),
                points_sum(point_items(*v)) == points_sum(orig),
            ensures
                n == point_items(*v).len(),
                forall|a: int, b: int| 0 <= a < b <= i ==> #[trigger] point_items(*v)[a] >= #[trigger] point_items(*v)[b],
                point_items(*v).to_multiset() == orig.to_multiset(),
                points_sum(point_items(*v)) == points_sum(orig),
            decreases j,
        {
            if j == 0 {
                break;
            }
            let x = points_get(v, j);
            let y = points_get(v, j - 1);
            if y >= x {
                proof {
                    let s = point_items(*v);
                    assert forall|a: int, b: int| 0 <= a < b <= i implies #[trigger] s[a] >= #[trigger] s[b] by {
                        if b == j {
                            if a < j - 1 {
                                assert(s[a] >= s[j - 1]);
                            }
                        } else if a == j {
                            assert(s[j as int] > s[b]);
                        }
                    }
                }
                break;
            }
            let ghost before = point_items(*v);
            points_set(v, j - 1, x);
            points_set(v, j, y);
            proof {
                lemma_swap(before, j - 1, j as int);
                assert(point_items(*v) == before.update(j - 1, before[j as int]).update(j as int, before[j - 1]));
                let s = point_items(*v);
                assert forall|a: int, b: int|
                    0 <= a < b <= i && a != j - 1 && b != j - 1 implies #[trigger] s[a] >= #[trigger] s[b] by {
                    if b == j {
                        assert(before[a] >= before[j - 1]);
                    } else if a == j {
                        assert(before[j - 1] >= before[b]);
                    } else {
                        assert(before[a] >= before[b]);
                    }
                }
                assert forall|b: int| j - 1 < b <= i implies s[j - 1] > #[trigger] s[b] by {
                    if b > j {
                        assert(before[j as int] > before[b]);
                    }
                }
            }
            j = j - 1;
        }
        i = i + 1;
    }
}

} // verus!
