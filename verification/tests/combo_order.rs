use rainbow::game::combo::{Combo, ComboKind};
use std::cmp::Ordering;

/// Every kind the rules can produce: singles of ranks 1 to 6, sets of one
/// to ten cards of a rank, runs from `start` to a higher `end`.
fn all_kinds() -> Vec<ComboKind> {
    let mut kinds = Vec::new();
    for rank in 1..=6u8 {
        kinds.push(ComboKind::Single { rank });
    }
    for rank in 1..=6u8 {
        for count in 1..=10u8 {
            kinds.push(ComboKind::Group { rank, count });
        }
    }
    for start in 1..=5u8 {
        for end in start + 1..=6u8 {
            kinds.push(ComboKind::Run { start, end });
        }
    }
    kinds
}

#[test]
fn test_partial_ord_symmetry() {
    let kinds = all_kinds();
    for a in &kinds {
        for b in &kinds {
            match a.partial_cmp(b) {
                Some(Ordering::Greater) => assert!(b < a),
                Some(Ordering::Less) => assert!(b > a),
                Some(Ordering::Equal) => assert!(b == a),
                None => assert!(b.partial_cmp(a).is_none()),
            }
        }
    }
}

#[test]
fn test_partial_ord_transitivity() {
    let kinds = all_kinds();
    for a in &kinds {
        for b in &kinds {
            let ab = match a.partial_cmp(b) {
                Some(o) => o,
                None => continue,
            };
            for c in &kinds {
                let bc = match b.partial_cmp(c) {
                    Some(o) => o,
                    None => continue,
                };
                match (ab, bc) {
                    (Ordering::Less, Ordering::Less)
                    | (Ordering::Less, Ordering::Equal)
                    | (Ordering::Equal, Ordering::Less) => {
                        assert_eq!(a.partial_cmp(c), Some(Ordering::Less));
                    }
                    (Ordering::Greater, Ordering::Greater)
                    | (Ordering::Greater, Ordering::Equal)
                    | (Ordering::Equal, Ordering::Greater) => {
                        assert_eq!(a.partial_cmp(c), Some(Ordering::Greater));
                    }
                    (Ordering::Equal, Ordering::Equal) => {
                        assert_eq!(a.partial_cmp(c), Some(Ordering::Equal));
                    }
                    _ => {}
                }
            }
        }
    }
}

#[test]
fn test_single_comparisons() {
    for rank1 in 1..=6u8 {
        for rank2 in 1..=6u8 {
            let combo1 = ComboKind::Single { rank: rank1 };
            let combo2 = ComboKind::Single { rank: rank2 };
            if rank1 < rank2 {
                assert!(combo1 < combo2);
            } else if rank2 < rank1 {
                assert!(combo2 < combo1);
            } else {
                assert_eq!(combo1, combo2);
            }
        }
    }
}

#[test]
fn test_set_comparisons() {
    for rank1 in 1..=6u8 {
        for count1 in 1..=10u8 {
            for rank2 in 1..=6u8 {
                for count2 in 1..=10u8 {
                    let combo1 = ComboKind::Group { rank: rank1, count: count1 };
                    let combo2 = ComboKind::Group { rank: rank2, count: count2 };
                    if count1 < count2 {
                        assert!(combo1 < combo2);
                    } else if count2 < count1 {
                        assert!(combo2 < combo1);
                    } else if rank1 < rank2 {
                        assert!(combo1 < combo2);
                    } else if rank2 < rank1 {
                        assert!(combo2 < combo1);
                    } else {
                        assert_eq!(combo1, combo2);
                    }
                }
            }
        }
    }
}

#[test]
fn test_run_comparisons() {
    for start1 in 1..=5u8 {
        for end1 in start1 + 1..=6u8 {
            for start2 in 1..=5u8 {
                for end2 in start2 + 1..=6u8 {
                    let combo1 = ComboKind::Run { start: start1, end: end1 };
                    let combo2 = ComboKind::Run { start: start2, end: end2 };
                    let combo1_len = end1 - start1 + 1;
                    let combo2_len = end2 - start2 + 1;
                    if combo1_len < combo2_len {
                        assert!(combo1 < combo2);
                    } else if combo2_len < combo1_len {
                        assert!(combo2 < combo1);
                    } else if end1 < end2 {
                        assert!(combo1 < combo2);
                    } else if end2 < end1 {
                        assert!(combo2 < combo1);
                    } else {
                        assert_eq!(combo1, combo2);
                    }
                }
            }
        }
    }
}

#[test]
fn test_single_vs_set_comparisons() {
    for set_rank in 1..=6u8 {
        for set_count in 1..=10u8 {
            for single_rank in 1..=6u8 {
                let single = ComboKind::Single { rank: single_rank };
                let set = ComboKind::Group { rank: set_rank, count: set_count };
                assert!(single < set);
                assert!(set > single);
            }
        }
    }
}

#[test]
fn test_single_vs_run_comparisons() {
    for run_start in 1..=5u8 {
        for run_end in run_start + 1..=6u8 {
            for single_rank in 1..=6u8 {
                let single = ComboKind::Single { rank: single_rank };
                let run = ComboKind::Run { start: run_start, end: run_end };
                assert!(single < run);
                assert!(run > single);
            }
        }
    }
}

#[test]
fn test_set_vs_run_comparisons() {
    for set_rank in 1..=6u8 {
        for set_count in 1..=10u8 {
            for run_start in 1..=5u8 {
                for run_end in run_start + 1..=6u8 {
                    let set = ComboKind::Group { rank: set_rank, count: set_count };
                    let run = ComboKind::Run { start: run_start, end: run_end };
                    assert_eq!(set.partial_cmp(&run), None);
                    assert_eq!(run.partial_cmp(&set), None);
                }
            }
        }
    }
}

#[test]
fn combo_order_follows_kind_order() {
    // A set of more cards wins, whatever the ranks.
    assert!(Combo::new_set(5, 2) < Combo::new_set(1, 3));
    // Among runs of the same length the higher top card wins.
    assert!(Combo::new_run(1, 3) < Combo::new_run(4, 6));
    // A longer run beats a shorter one with a higher top.
    assert!(Combo::new_run(4, 6) < Combo::new_run(1, 4));
    // Any single is below any set or run.
    assert!(Combo::new_single(6) < Combo::new_set(1, 2));
    assert!(Combo::new_single(6) < Combo::new_run(1, 2));
    assert_eq!(Combo::new_set(2, 3).partial_cmp(&Combo::new_run(1, 2)), None);
}

#[test]
fn outranks_is_strictly_greater() {
    let low = Combo::new_single(2);
    let high = Combo::new_single(5);
    assert!(high.outranks(&low));
    assert!(!low.outranks(&high));
    assert!(!low.outranks(&low));
    // Incomparable pairs never outrank each other.
    let set = Combo::new_set(3, 2);
    let run = Combo::new_run(2, 4);
    assert!(!set.outranks(&run));
    assert!(!run.outranks(&set));
}

#[test]
fn kind_gives_back_constructor_arguments() {
    assert_eq!(Combo::new_single(4).kind(), ComboKind::Single { rank: 4 });
    assert_eq!(Combo::new_set(3, 7).kind(), ComboKind::Group { rank: 3, count: 7 });
    assert_eq!(Combo::new_run(2, 6).kind(), ComboKind::Run { start: 2, end: 6 });
}
