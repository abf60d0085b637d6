use crate::constants::{run_length, valid_count, valid_rank};
use std::cmp::Ordering;
use vstd::prelude::*;

verus! {

/// The shape of a play: one card, several cards of one rank, or a run of
/// consecutive ranks.
#[derive(Debug, Copy, Clone, PartialEq, Eq, Structural)]
pub enum ComboKind {
    Single { rank: u8 },
    Group { rank: u8, count: u8 },
    Run { start: u8, end: u8 },
}

/// A play that the rules allow to exist: ranks in range, sets of at least two
/// cards, runs of at least two consecutive ranks.
#[derive(Debug, Copy, Clone, PartialEq, Eq, Structural)]
pub struct Combo(ComboKind);

/// Whether a kind describes a well-formed play.
pub open spec fn kind_valid(k: ComboKind) -> bool {
    match k {
        ComboKind::Single { rank } => valid_rank(rank),
        ComboKind::Group { rank, count } => valid_rank(rank) && valid_count(count) && count >= 2,
        ComboKind::Run { start, end } => valid_rank(start) && valid_rank(end) && start < end,
    }
}

/// Sets and runs are never compared with each other; every other pair is.
pub open spec fn comparable(a: ComboKind, b: ComboKind) -> bool {
    !(a is Group && b is Run) && !(a is Run && b is Group)
}

/// The family of a kind: singles rank below sets and runs.
pub open spec fn family(k: ComboKind) -> int {
    match k {
        ComboKind::Single { .. } => 0,
        _ => 1,
    }
}

/// First key inside a family: the rank of a single, the size of a set, the
/// length of a run.
pub open spec fn major_key(k: ComboKind) -> int {
    match k {
        ComboKind::Single { rank } => rank as int,
        ComboKind::Group { count, .. } => count as int,
        ComboKind::Run { start, end } => end - start + 1,
    }
}

/// Tie-breaking key: the rank of a set, the top rank of a run.
pub open spec fn minor_key(k: ComboKind) -> int {
    match k {
        ComboKind::Single { .. } => 0,
        ComboKind::Group { rank, .. } => rank as int,
        ComboKind::Run { end, .. } => end as int,
    }
}

/// The lexicographic order (family, major key, minor key) folded into one
/// integer; the keys are small enough that the folding keeps the order.
pub open spec fn strength(k: ComboKind) -> int {
    family(k) * 1_000_000 + major_key(k) * 1000 + minor_key(k)
}

/// How `partial_cmp` orders two kinds.
pub open spec fn kind_order(a: ComboKind, b: ComboKind) -> Option<Ordering> {
    if !comparable(a, b) {
        None
    } else if strength(a) < strength(b) {
        Some(Ordering::Less)
    } else if strength(a) == strength(b) {
        Some(Ordering::Equal)
    } else {
        Some(Ordering::Greater)
    }
}

fn order_by_keys(a_major: i16, a_minor: u8, b_major: i16, b_minor: u8) -> (r: Ordering)
    ensures
        r == (if a_major < b_major || (a_major == b_major && a_minor < b_minor) {
            Ordering::Less
        } else if a_major == b_major && a_minor == b_minor {
            Ordering::Equal
        } else {
            Ordering::Greater
        }),
{
    if a_major < b_major {
        Ordering::Less
    } else if a_major > b_major {
        Ordering::Greater
    } else if a_minor < b_minor {
        Ordering::Less
    } else if a_minor > b_minor {
        Ordering::Greater
    } else {
        Ordering::Equal
    }
}

fn order_by_small_keys(a_major: u8, a_minor: u8, b_major: u8, b_minor: u8) -> (r: Ordering)
    ensures
        r == (if a_major < b_major || (a_major == b_major && a_minor < b_minor) {
            Ordering::Less
        } else if a_major == b_major && a_minor == b_minor {
            Ordering::Equal
        } else {
            Ordering::Greater
        }),
{
    if a_major < b_major {
        Ordering::Less
    } else if a_major > b_major {
        Ordering::Greater
    } else if a_minor < b_minor {
        Ordering::Less
    } else if a_minor > b_minor {
        Ordering::Greater
    } else {
        Ordering::Equal
    }
}

impl PartialOrd for ComboKind {
    fn partial_cmp(&self, other: &Self) -> (r: Option<Ordering>) {
        match (self, other) {
            (ComboKind::Single { .. }, ComboKind::Group { .. }) => Some(Ordering::Less),
            (ComboKind::Single { .. }, ComboKind::Run { .. }) => Some(Ordering::Less),
            (ComboKind::Group { .. }, ComboKind::Single { .. }) => Some(Ordering::Greater),
            (ComboKind::Run { .. }, ComboKind::Single { .. }) => Some(Ordering::Greater),
            (ComboKind::Single { rank: x }, ComboKind::Single { rank: y }) => {
                Some(order_by_small_keys(*x, 0, *y, 0))
            },
            (ComboKind::Group { rank: x, count: x_count }, ComboKind::Group { rank: y, count: y_count }) => {
                Some(order_by_small_keys(*x_count, *x, *y_count, *y))
            },
            (ComboKind::Run { start: x_start, end: x_end }, ComboKind::Run { start: y_start, end: y_end }) => {
                let x_len = run_length(*x_start, *x_end);
                let y_len = run_length(*y_start, *y_end);
                Some(order_by_keys(x_len, *x_end, y_len, *y_end))
            },
            _ => None,
        }
    }
}

impl vstd::std_specs::cmp::PartialOrdSpecImpl for ComboKind {
    open spec fn obeys_partial_cmp_spec() -> bool {
        true
    }

    open spec fn partial_cmp_spec(&self, other: &Self) -> Option<Ordering> {
        kind_order(*self, *other)
    }
}

impl View for Combo {
    type V = ComboKind;

    closed spec fn view(&self) -> ComboKind {
        self.0
    }
}

impl Combo {
    #[verifier::type_invariant]
    spec fn well_formed(self) -> bool {
        kind_valid(self.0)
    }

    /// One card of `rank`.
    pub fn new_single(rank: u8) -> (c: Self)
        requires
            valid_rank(rank),
        ensures
            c@ == (ComboKind::Single { rank }),
    {
        Self(ComboKind::Single { rank })
    }

    /// `count` cards of `rank`; a set holds at least two cards.
    pub fn new_set(rank: u8, count: u8) -> (c: Self)
        requires
            valid_rank(rank),
            valid_count(count),
            count >= 2,
        ensures
            c@ == (ComboKind::Group { rank, count }),
    {
        Self(ComboKind::Group { rank, count })
    }

    /// One card of each rank from `start` to `end`, both included.
    pub fn new_run(start: u8, end: u8) -> (c: Self)
        requires
            valid_rank(start),
            valid_rank(end),
            start < end,
        ensures
            c@ == (ComboKind::Run { start, end }),
    {
        Self(ComboKind::Run { start, end })
    }

    /// The shape of this play.
    pub fn kind(&self) -> (k: ComboKind)
        ensures
            k == self@,
            kind_valid(k),
    {
        proof {
            use_type_invariant(self);
        }
        self.0
    }
}

impl Combo {
    /// Whether this combo compares as greater than `other` (what ranking a
    /// trick asks of each pair).
    pub fn outranks(&self, other: &Combo) -> (r: bool)
        ensures
            r == (comparable(self@, other@) && strength(other@) < strength(self@)),
    {
        match self.partial_cmp(other) {
            Some(Ordering::Greater) => true,
            _ => false,
        }
    }
}

impl PartialOrd for Combo {
    fn partial_cmp(&self, other: &Self) -> (r: Option<Ordering>) {
        self.0.partial_cmp(&other.0)
    }
}

impl vstd::std_specs::cmp::PartialOrdSpecImpl for Combo {
    open spec fn obeys_partial_cmp_spec() -> bool {
        true
    }

    open spec fn partial_cmp_spec(&self, other: &Self) -> Option<Ordering> {
        kind_order(self@, other@)
    }
}

/// Comparing two kinds in the other order gives the opposite answer: `a < b`
/// exactly when `b > a`, equal kinds are identical, and incomparable pairs stay
/// incomparable.
pub proof fn lemma_order_antisymmetric(a: ComboKind, b: ComboKind)
    ensures
        kind_order(a, b) == Some(Ordering::Less) <==> kind_order(b, a) == Some(Ordering::Greater),
        kind_order(a, b) == Some(Ordering::Equal) <==> a == b,
        kind_order(a, b) is None <==> kind_order(b, a) is None,
{
    if kind_order(a, b) == Some(Ordering::Equal) {
        assert(a == b);
    }
}

/// The order is transitive wherever both steps are defined: `a <= b` and
/// `b <= c` give `a <= c`, strictly when either step is strict.
pub proof fn lemma_order_transitive(a: ComboKind, b: ComboKind, c: ComboKind)
    requires
        kind_order(a, b) is Some,
        kind_order(b, c) is Some,
    ensures
        kind_order(a, b) == Some(Ordering::Less) && kind_order(b, c) != Some(Ordering::Greater)
            ==> kind_order(a, c) == Some(Ordering::Less),
        kind_order(a, b) != Some(Ordering::Greater) && kind_order(b, c) == Some(Ordering::Less)
            ==> kind_order(a, c) == Some(Ordering::Less),
        kind_order(a, b) == Some(Ordering::Greater) && kind_order(b, c) != Some(Ordering::Less)
            ==> kind_order(a, c) == Some(Ordering::Greater),
        kind_order(a, b) != Some(Ordering::Less) && kind_order(b, c) == Some(Ordering::Greater)
            ==> kind_order(a, c) == Some(Ordering::Greater),
        kind_order(a, b) == Some(Ordering::Equal) && kind_order(b, c) == Some(Ordering::Equal)
            ==> kind_order(a, c) == Some(Ordering::Equal),
{
}

/// Every single ranks below every set and every run.
pub proof fn lemma_single_lowest(a: ComboKind, b: ComboKind)
    requires
        a is Single,
        !(b is Single),
    ensures
        kind_order(a, b) == Some(Ordering::Less),
        kind_order(b, a) == Some(Ordering::Greater),
{
}

} // verus!
