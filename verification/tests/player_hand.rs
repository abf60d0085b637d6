use rainbow::game::maps::{PointMap, RankMap};
use rainbow::game::player::Player;

#[test]
fn new_player_is_empty() {
    let p = Player::new(7);
    assert_eq!(p.uid(), 7);
    assert_eq!(p.points(), 0);
    assert_eq!(p.hand_size(), 0);
    assert!(p.is_empty());
    assert!(p.hand() == RankMap::new());
}

#[test]
fn add_and_remove_cards() {
    let mut p = Player::new(1);
    p.add_cards(3, 4);
    p.add_cards(6, 10);
    p.add_cards(3, 2);
    assert_eq!(p.rank_count(3), 6);
    assert_eq!(p.rank_count(6), 10);
    assert_eq!(p.rank_count(1), 0);
    assert_eq!(p.hand_size(), 16);
    assert!(!p.is_empty());

    p.remove_cards(3, 6);
    assert_eq!(p.rank_count(3), 0);
    assert_eq!(p.hand_size(), 10);
    p.remove_cards(6, 10);
    assert!(p.is_empty());
}

#[test]
fn add_points_accumulates() {
    let mut p = Player::new(2);
    p.add_points(12);
    p.add_points(5);
    assert_eq!(p.points(), 17);
}

#[test]
fn set_hand_replaces_the_whole_hand() {
    let mut p = Player::new(4);
    p.add_cards(1, 9);
    p.set_hand([0, 1, 2, 3, 4, 5]);
    assert_eq!(p.rank_count(1), 0);
    assert_eq!(p.rank_count(2), 1);
    assert_eq!(p.rank_count(6), 5);
    assert_eq!(p.hand_size(), 15);
    assert!(p.hand() == RankMap::from_counts([0, 1, 2, 3, 4, 5]));
}

#[test]
fn rank_map_get_set() {
    let mut m = RankMap::new();
    for rank in 1..=6u8 {
        assert_eq!(m.get(rank), 0);
    }
    m.set(1, 4);
    m.set(6, 9);
    assert_eq!(m.get(1), 4);
    assert_eq!(m.get(6), 9);
    assert_eq!(m.get(3), 0);
    assert!(m == RankMap::from_counts([4, 0, 0, 0, 0, 9]));
    assert!(m != RankMap::default());
    assert!(RankMap::default() == RankMap::new());
}

#[test]
fn point_map_get_set() {
    let mut m = PointMap::new();
    for value in 1..=12u8 {
        assert_eq!(m.get(value), 0);
    }
    m.set(12, 2);
    m.set(1, 1);
    assert_eq!(m.get(12), 2);
    assert_eq!(m.get(1), 1);
    assert_eq!(m.get(7), 0);
}

#[test]
fn set_hand_takes_any_counts() {
    let mut p = Player::new(9);
    p.add_points(3);
    p.set_hand([11, 0, 40, 0, 0, 200]);
    assert_eq!(p.rank_count(1), 11);
    assert_eq!(p.rank_count(3), 40);
    assert_eq!(p.rank_count(6), 200);
    assert_eq!(p.hand_size(), 251);
    assert_eq!(p.uid(), 9);
    assert_eq!(p.points(), 3);
}
