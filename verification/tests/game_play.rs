use arrayvec::ArrayVec;
use rainbow::agents::random_agent::RandomAgent;
use rainbow::agents::Agent;
use rainbow::constants::MAX_LEGAL_ACTIONS;
use rainbow::game::combo::Combo;
use rainbow::game::game_runner::{GameRunner, InvalidActionIndex};
use rainbow::game::game_state::GameState;
use rainbow::game::trick_type::TrickType;
use rainbow::game::view::GameView;
use rand::rngs::StdRng;
use rand::seq::SliceRandom;
use rand::SeedableRng;

/// The full deck with ranks 1 to 6 repeated ten times, in that order.
fn ordered_deck() -> Vec<u8> {
    let mut deck = Vec::new();
    for _ in 0..10 {
        for rank in 1..=6u8 {
            deck.push(rank);
        }
    }
    deck
}

fn hand_of(game: &GameState, index: usize) -> [u8; 6] {
    let p = game.player(index);
    [
        p.rank_count(1),
        p.rank_count(2),
        p.rank_count(3),
        p.rank_count(4),
        p.rank_count(5),
        p.rank_count(6),
    ]
}

fn cards_in_hands(game: &GameState) -> u32 {
    game.players().iter().map(|p| p.hand_size() as u32).sum()
}

fn score_total(game: &GameState) -> u32 {
    game.players().iter().map(|p| p.points() as u32).sum()
}

#[test]
fn from_deck_deals_hands_from_the_end_of_the_deck() {
    let game = GameState::from_deck(vec![1, 2, 3], ordered_deck());
    // Fourteen cards each, the first player taking the last fourteen.
    assert_eq!(hand_of(&game, 0), [2, 2, 2, 2, 3, 3]);
    assert_eq!(hand_of(&game, 1), [2, 2, 3, 3, 2, 2]);
    assert_eq!(hand_of(&game, 2), [3, 3, 2, 2, 2, 2]);
    // The three cards below the hands are the point values, largest first.
    assert_eq!(game.available_points().as_slice(), &[6, 5, 4]);
    assert_eq!(game.player(0).uid(), 1);
    assert_eq!(game.player(2).uid(), 3);
    assert_eq!(game.current_player_index(), 0);
    assert_eq!(game.active_player_count(), 3);
    assert_eq!(game.current_trick_type(), TrickType::Open);
    assert!(game.current_trick().is_empty());
    assert!(!game.is_game_over());
}

#[test]
fn from_deck_hand_sizes_follow_the_table_size() {
    for (n, size) in [(3u8, 14u8), (4, 14), (5, 11), (6, 9)] {
        let uids: Vec<u8> = (1..=n).collect();
        let game = GameState::from_deck(uids, ordered_deck());
        for i in 0..n as usize {
            assert_eq!(game.player(i).hand_size(), size);
            assert_eq!(game.player(i).points(), 0);
        }
        assert_eq!(game.available_points().len(), n as usize);
        let pts = game.available_points();
        for i in 1..pts.len() {
            assert!(pts[i - 1] >= pts[i]);
        }
    }
}

#[test]
fn new_deals_a_full_deck_in_some_order() {
    for seed in [0u64, 1, 42, 12345] {
        let game = GameState::new(vec![10, 20, 30, 40, 50], Some(seed));
        let mut counts = [0u32; 6];
        for p in game.players().iter() {
            for rank in 1..=6u8 {
                counts[(rank - 1) as usize] += p.rank_count(rank) as u32;
            }
        }
        for v in game.available_points().iter() {
            counts[(*v - 1) as usize] += 1;
        }
        // Five hands of eleven and five point values: sixty cards less the
        // undealt ones, never more than ten of a rank.
        assert_eq!(counts.iter().sum::<u32>(), 60);
        for c in counts {
            assert!(c <= 10);
        }
    }
}

#[test]
fn new_with_a_seed_deals_the_seeded_shuffle_of_the_deck() {
    for seed in [0u64, 5, 42, 777] {
        let mut deck = ordered_deck();
        deck.shuffle(&mut StdRng::seed_from_u64(seed));
        assert_ne!(deck, ordered_deck());
        let uids = vec![4, 8, 15, 16];
        let a = GameState::new(uids.clone(), Some(seed));
        let b = GameState::from_deck(uids, deck);
        for i in 0..4 {
            assert_eq!(hand_of(&a, i), hand_of(&b, i));
        }
        assert_eq!(a.available_points().as_slice(), b.available_points().as_slice());
    }
}

#[test]
fn new_with_the_same_seed_deals_the_same_table() {
    let a = GameState::new(vec![1, 2, 3, 4], Some(7));
    let b = GameState::new(vec![1, 2, 3, 4], Some(7));
    for i in 0..4 {
        assert_eq!(hand_of(&a, i), hand_of(&b, i));
    }
    assert_eq!(a.available_points().as_slice(), b.available_points().as_slice());
}

/// An agent that always names an index past the end of the actions.
struct OutOfRangeAgent;

impl Agent for OutOfRangeAgent {
    fn choose_action(&self, _view: GameView, _valid_actions: &ArrayVec<Combo, MAX_LEGAL_ACTIONS>) -> usize {
        1000
    }
}

/// An agent that always plays the first legal action.
struct FirstActionAgent;

impl Agent for FirstActionAgent {
    fn choose_action(&self, _view: GameView, _valid_actions: &ArrayVec<Combo, MAX_LEGAL_ACTIONS>) -> usize {
        0
    }
}

#[test]
fn test_game_termination() {
    let agent_seeds: [u64; 7] = [3, 1, 4, 1, 5, 9, 2];
    for deck_seed in [0u64, 42, 9001, u64::MAX] {
        for num_players in 3..=6u8 {
            let mut participants: Vec<(u8, Box<dyn Agent>)> = Vec::new();
            for i in 1..=num_players {
                participants.push((i, Box::new(RandomAgent::new(Some(agent_seeds[i as usize])))));
            }
            let mut runner = GameRunner::new(participants, Some(deck_seed));
            let final_state = runner.run_game().unwrap();
            assert!(final_state.is_game_over());
            assert!(score_total(final_state) <= 210);
        }
    }
}

#[test]
fn run_game_reports_an_index_out_of_range() {
    let participants: Vec<(u8, Box<dyn Agent>)> = vec![
        (5, Box::new(OutOfRangeAgent)),
        (6, Box::new(FirstActionAgent)),
        (7, Box::new(FirstActionAgent)),
    ];
    let mut runner = GameRunner::new(participants, Some(42));
    match runner.run_game() {
        Err(e) => assert_eq!(e, InvalidActionIndex { uid: 5, index: 1000 }),
        Ok(_) => panic!("the first seat always answers out of range"),
    }
}

#[test]
fn take_turn_refuses_an_index_out_of_range_and_changes_nothing() {
    let mut game = GameState::from_deck(vec![1, 2, 3], ordered_deck());
    let n = game.legal_actions(1).len();
    let before: Vec<[u8; 6]> = (0..3).map(|i| hand_of(&game, i)).collect();
    assert_eq!(game.take_turn(n), Err(InvalidActionIndex { uid: 1, index: n }));
    let after: Vec<[u8; 6]> = (0..3).map(|i| hand_of(&game, i)).collect();
    assert_eq!(before, after);
    assert_eq!(game.current_player_index(), 0);
    assert!(game.current_trick().is_empty());
}

#[test]
fn take_turn_plays_the_chosen_action() {
    let mut game = GameState::from_deck(vec![1, 2, 3], ordered_deck());
    let actions = game.legal_actions(1);
    // The first action of a hand holding ones is the single one.
    assert!(actions[0] == Combo::new_single(1));
    assert_eq!(game.take_turn(0), Ok(false));
    assert_eq!(game.player(0).rank_count(1), 1);
    assert_eq!(game.current_trick().len(), 1);
    assert_eq!(game.current_trick()[0].player_uid, 1);
    assert_eq!(game.current_player_index(), 1);
}

#[test]
fn every_turn_spends_cards_and_keeps_the_seats() {
    for n in 3..=6u8 {
        let uids: Vec<u8> = (1..=n).map(|i| i * 10).collect();
        let mut game = GameState::new(uids.clone(), Some(n as u64));
        let mut turns = 0;
        loop {
            let cards_before = cards_in_hands(&game);
            let over = game.take_turn(0).unwrap();
            turns += 1;
            assert!(cards_in_hands(&game) < cards_before);
            assert!(score_total(&game) <= 210);
            if !over {
                let pts = game.available_points();
                assert!(pts.len() <= game.active_player_count() as usize);
                for k in 1..pts.len() {
                    assert!(pts[k - 1] >= pts[k]);
                }
            }
            for (i, uid) in uids.iter().enumerate() {
                assert_eq!(game.player(i).uid(), *uid);
            }
            if over {
                break;
            }
            let cur = game.current_player_index() as usize;
            assert!(!game.player(cur).is_empty());
        }
        assert!(turns <= 60);
    }
}

#[test]
fn test_choose_action_valid_index() {
    let view_source = GameState::new(vec![1, 2, 3], None);
    for seed in [0u64, 1, 2, 99, 123456789] {
        for len in 1..10usize {
            let agent = RandomAgent::new(Some(seed));
            let mut actions: ArrayVec<Combo, MAX_LEGAL_ACTIONS> = ArrayVec::new();
            for i in 0..len {
                actions.push(Combo::new_single((i % 6) as u8 + 1));
            }
            for _ in 0..20 {
                let index = agent.choose_action(view_source.scrub_state(1), &actions);
                assert!(index < actions.len());
            }
        }
    }
}
