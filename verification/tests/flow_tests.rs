use clrs::end_game::GameEnded;
use clrs::flow::{
    check_game_ended, handle_restart_game_events, remove_restart_game_screen, restart_game_in_menu, GameState,
    RestartGame, RestartGameEvent, RestartState,
};

#[test]
fn a_restart_goes_through_the_menu_back_to_playing() {
    let mut s = RestartState { restart_game: None, blockers: vec![] };
    assert_eq!(handle_restart_game_events(&mut s, &vec![]), None);
    assert_eq!(handle_restart_game_events(&mut s, &vec![RestartGameEvent]), Some(GameState::Menu));
    assert_eq!(s.restart_game, Some(RestartGame));
    assert_eq!(s.blockers.len(), 1);
    assert_eq!(restart_game_in_menu(&mut s), Some(GameState::Playing));
    assert_eq!(s.restart_game, None);
    assert_eq!(restart_game_in_menu(&mut s), None);
    remove_restart_game_screen(&mut s);
    assert!(s.blockers.is_empty());
}

#[test]
fn a_recorded_end_moves_the_game_to_ended() {
    let mut none: Option<GameEnded> = None;
    assert_eq!(check_game_ended(&mut none), None);
    let ended = GameEnded { player_won: true, winning_id: 0 };
    let mut some = Some(ended);
    assert_eq!(check_game_ended(&mut some), Some((ended, GameState::Ended)));
    assert_eq!(some, None);
}
