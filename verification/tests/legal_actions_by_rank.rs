use rainbow::game::combo::{Combo, ComboKind};
use rainbow::game::game_state::GameState;
use rainbow::game::trick_type::TrickType;

#[test]
fn test_get_legal_actions_singles() {
    let mut game = GameState::new(vec![1, 2, 3], Some(42));

    game.set_player_hand(0, [2, 2, 0, 0, 0, 0]);
    game.set_trick_type(TrickType::Run);

    let legal_actions = game.legal_actions(1);

    assert_eq!(legal_actions.len(), 3);
    assert!(legal_actions.contains(&Combo::new_single(1)));
    assert!(legal_actions.contains(&Combo::new_single(2)));
    assert!(!legal_actions.contains(&Combo::new_single(3)));
    assert!(!legal_actions.contains(&Combo::new_single(4)));
    assert!(!legal_actions.contains(&Combo::new_single(5)));
    assert!(!legal_actions.contains(&Combo::new_single(6)));
}

#[test]
fn test_get_legal_actions_sets() {
    let mut game = GameState::new(vec![1, 2, 3], Some(42));

    game.set_player_hand(0, [0, 3, 0, 3, 3, 0]);
    game.set_trick_type(TrickType::Group);

    let legal_actions = game.legal_actions(1);

    assert_eq!(legal_actions.len(), 9);

    assert!(!legal_actions.contains(&Combo::new_single(1)));
    assert!(legal_actions.contains(&Combo::new_single(2)));
    assert!(!legal_actions.contains(&Combo::new_single(3)));
    assert!(legal_actions.contains(&Combo::new_single(4)));
    assert!(legal_actions.contains(&Combo::new_single(5)));
    assert!(!legal_actions.contains(&Combo::new_single(6)));

    assert!(legal_actions.contains(&Combo::new_set(2, 2)));
    assert!(legal_actions.contains(&Combo::new_set(2, 3)));
    assert!(legal_actions.contains(&Combo::new_set(4, 2)));
    assert!(legal_actions.contains(&Combo::new_set(4, 3)));
    assert!(legal_actions.contains(&Combo::new_set(5, 2)));
    assert!(legal_actions.contains(&Combo::new_set(5, 3)));

    assert!(!legal_actions.contains(&Combo::new_run(4, 5)));
    // a set of one card is never offered
    assert!(!legal_actions
        .iter()
        .any(|c| c.kind() == ComboKind::Group { rank: 2, count: 1 }));
}

#[test]
fn test_get_legal_actions_runs() {
    let mut game = GameState::new(vec![1, 2, 3], Some(42));

    game.set_player_hand(0, [2, 3, 1, 3, 0, 3]);
    game.set_trick_type(TrickType::Run);

    let legal_actions = game.legal_actions(1);

    assert_eq!(legal_actions.len(), 11);

    assert!(legal_actions.contains(&Combo::new_single(1)));
    assert!(legal_actions.contains(&Combo::new_single(2)));
    assert!(legal_actions.contains(&Combo::new_single(3)));
    assert!(legal_actions.contains(&Combo::new_single(4)));
    assert!(!legal_actions.contains(&Combo::new_single(5)));
    assert!(legal_actions.contains(&Combo::new_single(6)));

    assert!(legal_actions.contains(&Combo::new_run(1, 4)));
    assert!(!legal_actions.contains(&Combo::new_run(1, 5)));
    assert!(!legal_actions.contains(&Combo::new_set(4, 3)));
}
