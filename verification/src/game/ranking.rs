//! Ranking a finished trick, strongest play first.
use arrayvec::ArrayVec;
use crate::constants::MAX_PLAYERS;
use crate::game::arrays::{play_items, plays_get, plays_len, plays_set};
use crate::game::combo::strength;
use crate::game::play::Play;
use crate::game::rules::{consistent_trick, insert_play, rank_plays};
use vstd::prelude::*;

verus! {

broadcast use vstd::seq_lib::group_to_multiset_ensures;

/// Plays are ordered by the strength of their combos, strongest first.
pub open spec fn ranked_desc(s: Seq<Play>) -> bool {
    forall|i: int, j: int|
        0 <= i < j < s.len() ==> strength(#[trigger] s[i].combo@) >= strength(
            #[trigger] s[j].combo@,
        )
}

/// Inserting a play adds exactly that play.
pub proof fn lemma_insert_play_multiset(r: Seq<Play>, x: Play)
    ensures
        insert_play(r, x).to_multiset() == r.to_multiset().insert(x),
        insert_play(r, x).len() == r.len() + 1,
    decreases r.len(),
{
    if r.len() == 0 {
        assert(seq![x] =~= Seq::<Play>::empty().push(x));
    } else if strength(r.last().combo@) >= strength(x.combo@) {
    } else {
        lemma_insert_play_multiset(r.drop_last(), x);
        assert(r =~= r.drop_last().push(r.last()));
        assert(insert_play(r, x).to_multiset() =~= r.to_multiset().insert(x));
    }
}

/// Ranking a trick rearranges its plays and neither adds nor drops any.
pub proof fn lemma_rank_plays_permutation(s: Seq<Play>)
    ensures
        rank_plays(s).to_multiset() == s.to_multiset(),
        rank_plays(s).len() == s.len(),
    decreases s.len(),
{
    if s.len() > 0 {
        lemma_rank_plays_permutation(s.drop_last());
        lemma_insert_play_multiset(rank_plays(s.drop_last()), s.last());
        assert(s =~= s.drop_last().push(s.last()));
    }
}

/// Every play of a ranked trick was played in the trick.
pub proof fn lemma_rank_plays_member(s: Seq<Play>, k: int)
    requires
        0 <= k < s.len(),
    ensures
        rank_plays(s).len() == s.len(),
        s.contains(rank_plays(s)[k]),
{
    lemma_rank_plays_permutation(s);
    assert(rank_plays(s).to_multiset().count(rank_plays(s)[k]) > 0);
}

/// Inserting into a ranked trick keeps it ranked.
pub proof fn lemma_insert_play_ranked(r: Seq<Play>, x: Play)
    requires
        ranked_desc(r),
    ensures
        ranked_desc(insert_play(r, x)),
        insert_play(r, x).len() == r.len() + 1,
        insert_play(r, x)[0] == (if r.len() == 0 || strength(x.combo@) > strength(r[0].combo@) {
            x
        } else {
            r[0]
        }),
    decreases r.len(),
{
    lemma_insert_play_multiset(r, x);
    if r.len() == 0 {
    } else if strength(r.last().combo@) >= strength(x.combo@) {
    } else {
        let r0 = r.drop_last();
        assert(ranked_desc(r0));
        lemma_insert_play_ranked(r0, x);
        lemma_insert_play_multiset(r0, x);
        let t = insert_play(r0, x);
        // every play of `t` is `x` or a play of `r0`, and all of them are at
        // least as strong as the last play of `r`
        assert forall|i: int| 0 <= i < t.len() implies strength(#[trigger] t[i].combo@) >= strength(
            r.last().combo@,
        ) by {
            assert(t.to_multiset().count(t[i]) > 0);
            if t[i] != x {
                assert(r0.to_multiset().count(t[i]) > 0);
                let k = choose|k: int| 0 <= k < r0.len() && r0[k] == t[i];
                assert(r[k] == r0[k]);
            }
        }
        assert(ranked_desc(t.push(r.last())));
        if r0.len() == 0 {
            assert(t =~= seq![x]);
        } else {
            assert(r0[0] == r[0]);
        }
    }
}

/// Ranking a trick orders it strongest first.
pub proof fn lemma_rank_plays_ranked(s: Seq<Play>)
    ensures
        ranked_desc(rank_plays(s)),
    decreases s.len(),
{
    if s.len() > 0 {
        lemma_rank_plays_ranked(s.drop_last());
        lemma_insert_play_ranked(rank_plays(s.drop_last()), s.last());
    }
}

/// The play that leads a ranked trick is the strongest play of the trick, and
/// among equally strong plays the one played first.
pub proof fn lemma_rank_plays_winner(s: Seq<Play>)
    requires
        s.len() > 0,
    ensures
        exists|w: int|
            #![trigger s[w]]
            0 <= w < s.len() && rank_plays(s)[0] == s[w] && (forall|k: int|
                0 <= k < s.len() ==> strength(#[trigger] s[k].combo@) <= strength(s[w].combo@))
                && (forall|k: int| 0 <= k < w ==> strength(#[trigger] s[k].combo@) < strength(
                s[w].combo@,
            )),
    decreases s.len(),
{
    let s0 = s.drop_last();
    let x = s.last();
    lemma_rank_plays_ranked(s0);
    lemma_insert_play_ranked(rank_plays(s0), x);
    if s0.len() == 0 {
        assert(rank_plays(s0) =~= s0);
        assert(rank_plays(s)[0] == s[0]);
    } else {
        lemma_rank_plays_winner(s0);
        lemma_rank_plays_permutation(s0);
        let w0 = choose|w: int|
            #![trigger s0[w]]
            0 <= w < s0.len() && rank_plays(s0)[0] == s0[w] && (forall|k: int|
                0 <= k < s0.len() ==> strength(#[trigger] s0[k].combo@) <= strength(
                    s0[w].combo@,
                )) && (forall|k: int| 0 <= k < w ==> strength(#[trigger] s0[k].combo@) < strength(
                s0[w].combo@,
            ));
        if strength(x.combo@) > strength(rank_plays(s0)[0].combo@) {
            let w = s.len() - 1;
            assert(rank_plays(s)[0] == s[w]);
            assert forall|k: int| 0 <= k < w implies strength(#[trigger] s[k].combo@) < strength(
                s[w].combo@,
            ) by {
                assert(s[k] == s0[k]);
            }
        } else {
            assert(s[w0] == s0[w0]);
            assert(rank_plays(s)[0] == s[w0]);
            assert forall|k: int| 0 <= k < s.len() implies strength(#[trigger] s[k].combo@)
                <= strength(s[w0].combo@) by {
                if k < s0.len() {
                    assert(s[k] == s0[k]);
                }
            }
            assert forall|k: int| 0 <= k < w0 implies strength(#[trigger] s[k].combo@) < strength(
                s[w0].combo@,
            ) by {
                assert(s[k] == s0[k]);
            }
        }
    }
}

/// Ranks the plays of a trick in place, strongest first; equally strong plays
/// keep the order in which they were played.
pub(crate) fn rank_trick(trick: &mut ArrayVec<Play, MAX_PLAYERS>)
    requires
        consistent_trick(play_items(*old(trick))),
    ensures
        play_items(*final(trick)) == rank_plays(play_items(*old(trick))),
{
    let ghost orig = play_items(*trick);
    let n = plays_len(trick);
    let mut i: usize = 0;
    while i < n
        invariant
            n == orig.len(),
            play_items(*trick).len() == n,
            0 <= i <= n,
            play_items(*trick).take(i as int) == rank_plays(orig.take(i as int)),
            play_items(*trick).skip(i as int) == orig.skip(i as int),
            consistent_trick(orig),
        decreases n - i,
    {
        let x = *plays_get(trick, i);
        let ghost sorted = play_items(*trick).take(i as int);
        assert(x == orig[i as int]) by {
            assert(play_items(*trick).skip(i as int)[0] == orig.skip(i as int)[0]);
        }
        proof {
            lemma_rank_plays_permutation(orig.take(i as int));
            assert(play_items(*trick).skip(i + 1) =~= play_items(*trick).skip(i as int).skip(1));
            assert(orig.skip(i + 1) =~= orig.skip(i as int).skip(1));
            assert(sorted.take(i as int) =~= sorted);
            assert(sorted.subrange(i as int, i as int) =~= Seq::<Play>::empty());
            assert(insert_play(sorted, x) + Seq::<Play>::empty() =~= insert_play(sorted, x));
            assert(play_items(*trick).subrange(i + 1, i + 1) =~= Seq::<Play>::empty());
        }
        let mut j: usize = i;
        loop
            invariant
                0 <= j <= i < n,
                n == orig.len(),
                x == orig[i as int],
                consistent_trick(orig),
                sorted == rank_plays(orig.take(i as int)),
                sorted.len() == i,
                sorted.to_multiset() == orig.take(i as int).to_multiset(),
                play_items(*trick).len() == n,
                play_items(*trick).take(j as int) == sorted.take(j as int),
                play_items(*trick).subrange(j + 1, i + 1) == sorted.subrange(j as int, i as int),
                play_items(*trick).skip(i + 1) == orig.skip(i + 1),
                insert_play(sorted, x) == insert_play(sorted.take(j as int), x) + sorted.subrange(
                    j as int,
                    i as int,
                ),
            ensures
                0 <= j <= i,
                play_items(*trick).len() == n,
                play_items(*trick).take(j as int) == sorted.take(j as int),
                play_items(*trick).subrange(j + 1, i + 1) == sorted.subrange(j as int, i as int),
                play_items(*trick).skip(i + 1) == orig.skip(i + 1),
                insert_play(sorted, x) == sorted.take(j as int).push(x) + sorted.subrange(
                    j as int,
                    i as int,
                ),
            decreases j,
        {
            if j == 0 {
                assert(sorted.take(0) =~= Seq::<Play>::empty());
                assert(insert_play(Seq::<Play>::empty(), x) =~= Seq::<Play>::empty().push(x));
                break;
            }
            let y = *plays_get(trick, j - 1);
            assert(y == sorted[j - 1]) by {
                assert(play_items(*trick).take(j as int)[j - 1] == sorted.take(j as int)[j - 1]);
            }
            let beats = x.combo.outranks(&y.combo);
            proof {
                // `y` was played earlier in the trick, so it compares with `x`
                assert(sorted.to_multiset().count(y) > 0);
                assert(orig.take(i as int).contains(y));
                let k = choose|k: int| 0 <= k < i && orig.take(i as int)[k] == y;
                assert(orig[k] == y);
                assert(!(orig[k].combo@ is Group && orig[i as int].combo@ is Run));
                assert(!(orig[i as int].combo@ is Group && orig[k].combo@ is Run));
                assert(beats == (strength(y.combo@) < strength(x.combo@)));
                assert(sorted.take(j as int).last() == y);
                assert(sorted.take(j as int).drop_last() =~= sorted.take(j - 1));
            }
            if !beats {
                break;
            }
            plays_set(trick, j, y);
            proof {
                assert(sorted.subrange(j - 1, i as int) =~= seq![y] + sorted.subrange(
                    j as int,
                    i as int,
                ));
                assert(insert_play(sorted.take(j as int), x) == insert_play(sorted.take(j - 1), x).push(y));
                assert(play_items(*trick).take(j - 1) =~= sorted.take(j - 1));
                assert(play_items(*trick).subrange(j as int, i + 1) =~= sorted.subrange(
                    j - 1,
                    i as int,
                ));
                assert(play_items(*trick).skip(i + 1) =~= orig.skip(i + 1));
            }
            j = j - 1;
        }
        plays_set(trick, j, x);
        proof {
            assert(orig.take(i + 1).drop_last() =~= orig.take(i as int));
            assert(orig.take(i + 1).last() == x);
            assert(rank_plays(orig.take(i + 1)) == insert_play(sorted, x));
            assert(play_items(*trick).take(i + 1) =~= sorted.take(j as int).push(x) + sorted.subrange(
                j as int,
                i as int,
            ));
            assert(play_items(*trick).skip(i + 1) =~= orig.skip(i + 1));
        }
        i = i + 1;
    }
    proof {
        assert(orig.take(n as int) =~= orig);
        assert(play_items(*trick) =~= play_items(*trick).take(n as int));
    }
}

} // verus!
