use crate::constants::{valid_rank, MAX_POINTS_VALUE, MAX_RANK};
use vstd::prelude::*;

verus! {

/// A count for each rank, indexed by rank (1 to `MAX_RANK`).
#[derive(Debug, Clone, Copy)]
pub struct RankMap([u8; MAX_RANK]);

impl View for RankMap {
    type V = Seq<u8>;

    /// Entry `i` holds the count of rank `i + 1`.
    closed spec fn view(&self) -> Seq<u8> {
        self.0@
    }
}

/// A point value is a rank, or twice a rank for a pair.
pub open spec fn valid_point_value(value: u8) -> bool {
    1 <= value <= MAX_POINTS_VALUE
}

impl RankMap {
    /// All counts zero.
    pub fn new() -> (m: Self)
        ensures
            m@ == Seq::new(MAX_RANK as nat, |i: int| 0u8),
    {
        let m = RankMap([0; MAX_RANK]);
        assert(m@ =~= Seq::new(MAX_RANK as nat, |i: int| 0u8));
        m
    }

    /// The map always has one entry per rank.
    pub proof fn lemma_len(&self)
        ensures
            self@.len() == MAX_RANK,
    {
    }

    /// The count of `rank`.
    pub fn get(&self, rank: u8) -> (count: u8)
        requires
            valid_rank(rank),
        ensures
            count == self@[rank - 1],
    {
        self.0[(rank - 1) as usize]
    }

    /// Replaces the count of `rank`.
    pub fn set(&mut self, rank: u8, count: u8)
        requires
            valid_rank(rank),
        ensures
            final(self)@ == old(self)@.update(rank - 1, count),
    {
        self.0[(rank - 1) as usize] = count;
    }

    /// A map holding the given counts, rank 1 first.
    pub fn from_counts(counts: [u8; MAX_RANK]) -> (m: Self)
        ensures
            m@ == counts@,
    {
        RankMap(counts)
    }
}

impl PartialEq for RankMap {
    fn eq(&self, other: &Self) -> (same: bool) {
        let mut i: usize = 0;
        while i < MAX_RANK
            invariant
                0 <= i <= MAX_RANK,
                self@.len() == MAX_RANK,
                other@.len() == MAX_RANK,
                forall|j: int| 0 <= j < i ==> self@[j] == other@[j],
            decreases MAX_RANK - i,
        {
            if self.0[i] != other.0[i] {
                return false;
            }
            i = i + 1;
        }
        assert(self@ =~= other@);
        true
    }
}

impl vstd::std_specs::cmp::PartialEqSpecImpl for RankMap {
    open spec fn obeys_eq_spec() -> bool {
        true
    }

    open spec fn eq_spec(&self, other: &Self) -> bool {
        self@ == other@
    }
}

impl Default for RankMap {
    fn default() -> (m: Self)
        ensures
            m@ == Seq::new(MAX_RANK as nat, |i: int| 0u8),
    {
        Self::new()
    }
}

/// A count for each point value, indexed by value (1 to `MAX_POINTS_VALUE`).
pub struct PointMap([u8; MAX_POINTS_VALUE]);

impl View for PointMap {
    type V = Seq<u8>;

    /// Entry `i` holds the count of value `i + 1`.
    closed spec fn view(&self) -> Seq<u8> {
        self.0@
    }
}

impl PointMap {
    /// All counts zero.
    pub fn new() -> (m: Self)
        ensures
            m@ == Seq::new(MAX_POINTS_VALUE as nat, |i: int| 0u8),
    {
        let m = PointMap([0; MAX_POINTS_VALUE]);
        assert(m@ =~= Seq::new(MAX_POINTS_VALUE as nat, |i: int| 0u8));
        m
    }

    /// The count of `value`.
    pub fn get(&self, value: u8) -> (count: u8)
        requires
            valid_point_value(value),
        ensures
            count == self@[value - 1],
    {
        self.0[(value - 1) as usize]
    }

    /// Replaces the count of `value`.
    pub fn set(&mut self, value: u8, count: u8)
        requires
            valid_point_value(value),
        ensures
            final(self)@ == old(self)@.update(value - 1, count),
    {
        self.0[(value - 1) as usize] = count;
    }
}

} // verus!
