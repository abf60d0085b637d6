use rainbow::constants::MAX_RANK;
use rainbow::game::combo::Combo;
use rainbow::game::game_state::GameState;
use rainbow::game::trick_type::TrickType;

fn uids(num_players: u8) -> Vec<u8> {
    (1..=num_players).collect()
}

#[test]
fn test_game_state_new() {
    for num_players in 3..=6 {
        let game = GameState::new(uids(num_players), Some(42));

        assert_eq!(game.available_points().len(), num_players as usize);
        assert_eq!(game.players().len(), num_players as usize);
        assert!(game.current_trick().is_empty());
        assert_eq!(game.current_trick_type(), TrickType::Open);
        assert_eq!(game.current_player_index(), 0);
        assert_eq!(game.active_player_count(), num_players);
        assert!(!game.is_game_over());
    }
}

#[test]
fn test_legal_actions_singles() {
    for num_players in 3..=6 {
        let mut game = GameState::new(uids(num_players), Some(42));

        game.set_player_hand(0, [2, 2, 0, 0, 0, 0]);
        game.set_trick_type(TrickType::Run);

        let legal_actions = game.legal_actions(1);

        assert_eq!(legal_actions.len(), 3);
        assert!(legal_actions.contains(&Combo::new_single(1)));
        assert!(legal_actions.contains(&Combo::new_single(2)));
        assert!(!legal_actions.contains(&Combo::new_single(3)));
        assert!(!legal_actions.contains(&Combo::new_single(4)));
        assert!(!legal_actions.contains(&Combo::new_single(5)));
        assert!(!legal_actions.contains(&Combo::new_single(6)));
    }
}

#[test]
fn test_legal_actions_sets() {
    for num_players in 3..=6 {
        let mut game = GameState::new(uids(num_players), Some(42));

        game.set_player_hand(0, [0, 3, 0, 3, 3, 0]);
        game.set_trick_type(TrickType::Group);

        let legal_actions = game.legal_actions(1);

        assert_eq!(legal_actions.len(), 9);

        assert!(!legal_actions.contains(&Combo::new_single(1)));
        assert!(legal_actions.contains(&Combo::new_single(2)));
        assert!(!legal_actions.contains(&Combo::new_single(3)));
        assert!(legal_actions.contains(&Combo::new_single(4)));
        assert!(legal_actions.contains(&Combo::new_single(5)));
        assert!(!legal_actions.contains(&Combo::new_single(6)));

        assert!(legal_actions.contains(&Combo::new_set(2, 2)));
        assert!(legal_actions.contains(&Combo::new_set(2, 3)));
        assert!(legal_actions.contains(&Combo::new_set(4, 2)));
        assert!(legal_actions.contains(&Combo::new_set(4, 3)));
        assert!(legal_actions.contains(&Combo::new_set(5, 2)));
        assert!(legal_actions.contains(&Combo::new_set(5, 3)));

        assert!(!legal_actions.contains(&Combo::new_run(4, 5)));
    }
}

#[test]
fn test_legal_actions_runs() {
    for num_players in 3..=6 {
        let mut game = GameState::new(uids(num_players), Some(42));

        game.set_player_hand(0, [2, 3, 1, 3, 0, 3]);
        game.set_trick_type(TrickType::Run);

        let legal_actions = game.legal_actions(1);

        assert_eq!(legal_actions.len(), 11);

        assert!(legal_actions.contains(&Combo::new_single(1)));
        assert!(legal_actions.contains(&Combo::new_single(2)));
        assert!(legal_actions.contains(&Combo::new_single(3)));
        assert!(legal_actions.contains(&Combo::new_single(4)));
        assert!(!legal_actions.contains(&Combo::new_single(5)));
        assert!(legal_actions.contains(&Combo::new_single(6)));

        assert!(legal_actions.contains(&Combo::new_run(1, 4)));
        assert!(!legal_actions.contains(&Combo::new_run(1, 5)));
    }
}

#[test]
fn test_legal_actions_open() {
    for num_players in 3..=6 {
        let mut game = GameState::new(uids(num_players), Some(42));

        game.set_player_hand(0, [0, 0, 2, 2, 0, 0]);
        assert_eq!(game.current_trick_type(), TrickType::Open);

        let legal_actions = game.legal_actions(1);

        assert_eq!(legal_actions.len(), 5);

        assert!(legal_actions.contains(&Combo::new_single(3)));
        assert!(legal_actions.contains(&Combo::new_single(4)));
    }
}

#[test]
fn test_apply_action_to_single() {
    for num_players in 3..=6 {
        let mut game = GameState::new(uids(num_players), Some(42));

        game.set_player_hand(0, [0, 0, 0, 0, 2, 0]);
        assert_eq!(game.current_trick_type(), TrickType::Open);

        game.apply_action(Combo::new_single(5));
        assert_eq!(game.current_trick_type(), TrickType::Open);
        assert_eq!(game.player(0).rank_count(5), 1);
    }
}

#[test]
fn test_apply_action_to_set() {
    for num_players in 3..=6 {
        let mut game = GameState::new(uids(num_players), Some(42));

        game.set_player_hand(0, [0, 0, 0, 0, 0, 3]);
        assert_eq!(game.current_trick_type(), TrickType::Open);

        game.apply_action(Combo::new_set(6, 2));
        assert_eq!(game.current_trick_type(), TrickType::Group);
        assert_eq!(game.player(0).rank_count(6), 1);
    }
}

#[test]
fn test_apply_action_to_run() {
    for num_players in 3..=6 {
        let mut game = GameState::new(uids(num_players), Some(42));

        game.set_player_hand(0, [1, 2, 1, 1, 0, 0]);
        assert_eq!(game.current_trick_type(), TrickType::Open);

        game.apply_action(Combo::new_run(1, 4));
        assert_eq!(game.current_trick_type(), TrickType::Run);
        assert_eq!(game.player(0).rank_count(1), 0);
        assert_eq!(game.player(0).rank_count(2), 1);
        assert_eq!(game.player(0).rank_count(3), 0);
        assert_eq!(game.player(0).rank_count(4), 0);
        assert_eq!(game.player(0).rank_count(5), 0);
        assert_eq!(game.player(0).rank_count(6), 0);
    }
}

#[test]
fn test_empty_hand_inactivity() {
    for num_players in 3..=6 {
        let mut game = GameState::new(uids(num_players), Some(42));

        game.set_player_hand(0, [1, 1, 1, 1, 1, 1]);
        game.apply_action(Combo::new_run(1, 6));
        for i in 1..num_players as usize {
            game.set_player_hand(i, [2, 2, 2, 2, 2, 2]);
            game.apply_action(Combo::new_single(2));
        }

        assert_eq!(game.current_player_index(), 1);
        assert_eq!(game.active_player_count(), num_players - 1);
    }
}

#[test]
fn test_scrub_state() {
    for num_players in 3..=6 {
        let mut game = GameState::new(uids(num_players), Some(42));

        // give players specific points to differentiate them
        for i in 0..num_players as usize {
            game.add_player_points(i, (i as u8 + 1) * 10);
        }

        let my_uid = 1;
        let view = game.scrub_state(my_uid);

        // verify personal data is fully intact
        assert_eq!(view.my_uid, my_uid);
        assert_eq!(view.my_points, 10); // Player 1 (index 0) gets 10 points
        assert_eq!(view.my_hand, game.player(0).hand());

        // verify global state is correctly copied
        assert_eq!(view.available_points, *game.available_points());
        assert_eq!(view.current_trick_type, game.current_trick_type());
        assert_eq!(view.current_player_index, game.current_player_index());
        assert_eq!(view.active_player_count, game.active_player_count());

        // verify opponents are scrubbed (no hand contents, just sizes)
        assert_eq!(view.opponents.len(), num_players as usize - 1);
        for opponent_view in view.opponents {
            // ensure the player calling scrub_state is NOT in the opponents list
            assert_ne!(opponent_view.uid, my_uid);

            let seated_player = game
                .players()
                .iter()
                .find(|p| p.uid() == opponent_view.uid)
                .unwrap();

            assert_eq!(opponent_view.hand_size, seated_player.hand_size());
            assert_eq!(opponent_view.points, seated_player.points());
        }
    }
}

#[test]
fn test_trick_resolution() {
    let mut game = GameState::new(vec![1, 2, 3], Some(42));

    // give players specific cards
    game.set_player_hand(0, [1, 1, 0, 0, 0, 0]);
    game.set_player_hand(1, [1, 0, 0, 0, 1, 0]);
    game.set_player_hand(2, [1, 0, 0, 1, 0, 0]);

    // play cards in turn order
    game.apply_action(Combo::new_single(2));
    game.apply_action(Combo::new_single(5));
    game.apply_action(Combo::new_single(4));

    // p2 played the 5, so p2 wins and goes next
    assert_eq!(game.current_player_index(), 1);

    // trick state should reset
    assert!(game.current_trick().is_empty());
    assert_eq!(game.current_trick_type(), TrickType::Open);
}

#[test]
fn test_trick_resolution_tie() {
    let mut game = GameState::new(vec![1, 2, 3], Some(42));

    // give players cards with a tie for highest
    game.set_player_hand(0, [1, 0, 0, 0, 0, 1]);
    game.set_player_hand(1, [1, 0, 0, 1, 0, 0]);
    game.set_player_hand(2, [1, 0, 0, 0, 0, 1]);

    // play the cards
    game.apply_action(Combo::new_single(6));
    game.apply_action(Combo::new_single(4));
    game.apply_action(Combo::new_single(6));

    // p1 played the 6 first, so p1 should win the tie
    assert_eq!(game.current_player_index(), 0);
}

#[test]
fn test_next_round_points() {
    let mut game = GameState::new(vec![1, 2, 3], Some(42));

    // empty hands to control exactly what is played
    for i in 0..3 {
        game.set_player_hand(i, [0; MAX_RANK]);
    }

    // setup players so they can play two 3s and two 4s total
    game.set_player_hand(0, [1, 0, 3, 0, 0, 0]);
    game.set_player_hand(1, [1, 0, 0, 2, 0, 0]);
    game.set_player_hand(2, [1, 0, 0, 2, 0, 0]);

    // play the cards
    game.apply_action(Combo::new_set(3, 2));
    game.apply_action(Combo::new_single(4));
    game.apply_action(Combo::new_single(4));

    // the trick had two 3s and two 4s.
    println!("{:?}", game.available_points());
    assert!(game.available_points().contains(&8));
    assert!(game.available_points().contains(&6));
}

#[test]
fn test_game_over_trigger() {
    let mut game = GameState::new(vec![1, 2, 3, 4], Some(42));

    for i in 0..4 {
        game.set_player_hand(i, [0; MAX_RANK]);
    }

    game.set_player_hand(0, [1, 0, 0, 0, 0, 0]);
    game.set_player_hand(1, [2, 0, 0, 0, 0, 0]);
    game.set_player_hand(2, [1, 0, 0, 0, 0, 0]);
    game.set_player_hand(3, [3, 0, 0, 0, 0, 0]);

    game.apply_action(Combo::new_single(1));
    game.apply_action(Combo::new_single(1));
    game.apply_action(Combo::new_single(1));
    game.apply_action(Combo::new_single(1));

    assert!(game.is_game_over());
}
