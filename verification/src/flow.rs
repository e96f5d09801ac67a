//! The states the game moves through, and how ending and restarting a game
//! move it between them.

use vstd::prelude::*;
use crate::end_game::GameEnded;

verus! {

/// Where the game is: loading its assets, showing the splash screen,
/// playing, paused, over, or in the main menu.
#[derive(Clone, Copy, PartialEq, Eq, Structural, Debug, Hash)]
pub enum GameState {
    Loading,
    Splash,
    Playing,
    Paused,
    Ended,
    Menu,
}

/// Marks that the main menu is to start a new game at once.
#[derive(Clone, Copy, PartialEq, Eq, Structural, Debug, Hash)]
pub struct RestartGame;

/// Marks a screen that hides the menu while a game restarts.
#[derive(Clone, Copy, PartialEq, Eq, Structural, Debug, Hash)]
pub struct RestartGameBlocker;

/// Asks for the game to be restarted.
#[derive(Clone, Copy, PartialEq, Eq, Structural, Debug, Hash)]
pub struct RestartGameEvent;

/// Where a restart stands: whether the menu is to start a new game at once,
/// and the screens hiding the menu meanwhile.
pub struct RestartState {
    pub restart_game: Option<RestartGame>,
    pub blockers: Vec<RestartGameBlocker>,
}

/// Takes the end of a game out of the game's world: when the game recorded
/// an end, it is handed on and the game moves to its ended state.
pub fn check_game_ended(game_ended: &mut Option<GameEnded>) -> (r: Option<(GameEnded, GameState)>)
    ensures
        *final(game_ended) is None,
        r == match *old(game_ended) {
            Some(e) => Some((e, GameState::Ended)),
            None => None::<(GameEnded, GameState)>,
        },
{
    match game_ended.take() {
        Some(e) => Some((e, GameState::Ended)),
        None => None,
    }
}

/// Handles the restart requests of a frame: each sends the game to the main
/// menu, marks that the menu is to start a new game, and puts up a screen
/// hiding the menu. Returns the state to move to, if any.
pub fn handle_restart_game_events(state: &mut RestartState, events: &Vec<RestartGameEvent>) -> (next: Option<GameState>)
    ensures
        events@.len() == 0 ==> next is None && final(state).restart_game == old(state).restart_game,
        events@.len() > 0 ==> next == Some(GameState::Menu) && final(state).restart_game == Some(RestartGame),
        final(state).blockers@.len() == old(state).blockers@.len() + events@.len(),
{
    let mut next: Option<GameState> = None;
    let mut i: usize = 0;
    while i < events.len()
        invariant
            i <= events@.len(),
            state.blockers@.len() == old(state).blockers@.len() + i,
            i == 0 ==> next is None && state.restart_game == old(state).restart_game,
            i > 0 ==> next == Some(GameState::Menu) && state.restart_game == Some(RestartGame),
        decreases events@.len() - i,
    {
        next = Some(GameState::Menu);
        state.restart_game = Some(RestartGame);
        state.blockers.push(RestartGameBlocker);
        i = i + 1;
    }
    next
}

/// On entering the main menu: when a restart is marked, the mark is taken
/// away and the game moves straight on to playing.
pub fn restart_game_in_menu(state: &mut RestartState) -> (next: Option<GameState>)
    ensures
        final(state).restart_game is None,
        final(state).blockers@ == old(state).blockers@,
        next == if old(state).restart_game is Some {
            Some(GameState::Playing)
        } else {
            None::<GameState>
        },
{
    match state.restart_game.take() {
        Some(_) => Some(GameState::Playing),
        None => None,
    }
}

/// On entering play: every screen hiding the menu comes down.
pub fn remove_restart_game_screen(state: &mut RestartState)
    ensures
        final(state).blockers@.len() == 0,
        final(state).restart_game == old(state).restart_game,
{
    state.blockers = Vec::new();
}

} // verus!
