//! What the menus hold and what choosing an entry sets off.

use crate::level::MazeLevel;
use crate::settings::{AppState, GameSettings};
use vstd::prelude::*;

verus! {

/// How far in front of everything else the menu is drawn.
pub const MENU_ZINDEX: i32 = 0x7fff_fff5;

/// What choosing an entry of a menu sets off.
#[derive(Debug, Clone, Copy, PartialEq, Eq, Structural)]
pub enum MenuAction {
    /// Go to another state of the program.
    ChangeState(AppState),
    /// Run the piece of the program with this number, and go to another
    /// state if one is given.
    RunSystem { system: usize, next_state: Option<AppState> },
    /// Go on to the next size of maze.
    CycleComplexity,
    /// Leave the program.
    Exit,
}

/// One entry of a menu.
#[derive(Debug, Clone)]
pub struct MenuItem {
    pub label: String,
    pub action: MenuAction,
}

/// A menu: its entries from top to bottom.
#[derive(Debug, Clone)]
pub struct MenuDef {
    pub items: Vec<MenuItem>,
}

/// Whether a new game has been asked for, as against going on with a paused
/// one.
#[derive(Debug, Clone, Copy, PartialEq, Eq, Structural)]
pub struct NewGameRequested(pub bool);

impl Default for NewGameRequested {
    fn default() -> (requested: NewGameRequested)
        ensures
            requested.0 == false,
    {
        NewGameRequested(false)
    }
}

/// The start menu holds "New Game", the size of the maze and, if the program
/// can be left, "Exit".
pub open spec fn is_start_menu(items: Seq<MenuItem>, new_game_system: usize, with_exit: bool) -> bool {
    &&& items.len() == if with_exit {
        3int
    } else {
        2int
    }
    &&& items[0].label@ == "New Game"@
    &&& items[0].action == (MenuAction::RunSystem {
        system: new_game_system,
        next_state: Some(AppState::InGame),
    })
    &&& items[1].label@ == "Size: 30x30"@
    &&& items[1].action == MenuAction::CycleComplexity
    &&& with_exit ==> items[2].label@ == "Exit"@ && items[2].action == MenuAction::Exit
}

/// The pause menu holds "Resume", "Restart", the size of the maze and, if the
/// program can be left, "Exit".
pub open spec fn is_pause_menu(items: Seq<MenuItem>, restart_system: usize, with_exit: bool) -> bool {
    &&& items.len() == if with_exit {
        4int
    } else {
        3int
    }
    &&& items[0].label@ == "Resume"@
    &&& items[0].action == MenuAction::ChangeState(AppState::InGame)
    &&& items[1].label@ == "Restart"@
    &&& items[1].action == (MenuAction::RunSystem {
        system: restart_system,
        next_state: Some(AppState::InGame),
    })
    &&& items[2].label@ == "Size: 30x30"@
    &&& items[2].action == MenuAction::CycleComplexity
    &&& with_exit ==> items[3].label@ == "Exit"@ && items[3].action == MenuAction::Exit
}

/// The start menu, in which "New Game" runs the piece of the program numbered
/// `new_game_system`.
pub fn build_start_menu(new_game_system: usize, with_exit: bool) -> (menu: MenuDef)
    ensures
        is_start_menu(menu.items@, new_game_system, with_exit),
{
    let mut items: Vec<MenuItem> = Vec::new();
    items.push(
        MenuItem {
            label: "New Game".to_owned(),
            action: MenuAction::RunSystem {
                system: new_game_system,
                next_state: Some(AppState::InGame),
            },
        },
    );
    items.push(MenuItem { label: "Size: 30x30".to_owned(), action: MenuAction::CycleComplexity });
    if with_exit {
        items.push(MenuItem { label: "Exit".to_owned(), action: MenuAction::Exit });
    }
    MenuDef { items }
}

/// The pause menu, in which "Restart" runs the piece of the program numbered
/// `restart_system`.
pub fn build_pause_menu(restart_system: usize, with_exit: bool) -> (menu: MenuDef)
    ensures
        is_pause_menu(menu.items@, restart_system, with_exit),
{
    let mut items: Vec<MenuItem> = Vec::new();
    items.push(
        MenuItem { label: "Resume".to_owned(), action: MenuAction::ChangeState(AppState::InGame) },
    );
    items.push(
        MenuItem {
            label: "Restart".to_owned(),
            action: MenuAction::RunSystem {
                system: restart_system,
                next_state: Some(AppState::InGame),
            },
        },
    );
    items.push(MenuItem { label: "Size: 30x30".to_owned(), action: MenuAction::CycleComplexity });
    if with_exit {
        items.push(MenuItem { label: "Exit".to_owned(), action: MenuAction::Exit });
    }
    MenuDef { items }
}

/// What is set off when the key that chooses is pressed: the action of the
/// entry picked out. Nothing is set off if that key is not pressed, or if no
/// entry stands at `selection`.
pub fn activate_menu(items: &Vec<MenuItem>, selection: usize, pressed: bool) -> (action: Option<
    MenuAction,
>)
    ensures
        action == if pressed && selection < items.len() {
            Some(items@[selection as int].action)
        } else {
            None
        },
{
    if !pressed {
        return None;
    }
    if selection < items.len() {
        Some(items[selection].action)
    } else {
        None
    }
}

/// Takes note that a new game is asked for.
pub fn new_game(new_game_requested: &mut NewGameRequested)
    ensures
        final(new_game_requested).0 == true,
{
    new_game_requested.0 = true;
}

/// Begins the game anew in a fresh maze of the size that is set.
pub fn restart_game(level: &mut MazeLevel, settings: &GameSettings)
    requires
        old(level).generation < u32::MAX,
    ensures
        final(level).wf(),
        final(level).placed_apart(),
        final(level).width == 2 * settings.complexity.rooms() + 1,
        final(level).height == 2 * settings.complexity.rooms() + 1,
        final(level).generation == old(level).generation + 1,
{
    let (x, y) = settings.complexity.maze_size();
    level.regenerate_with_size(x, y);
}

/// On entering the game: if a new game was asked for, the request is taken
/// off, and the maze is rebuilt in the size that is set unless it has that
/// size already. Without a request nothing happens.
pub fn apply_complexity(
    level: &mut MazeLevel,
    settings: &GameSettings,
    new_game_requested: &mut NewGameRequested,
)
    requires
        old(level).generation < u32::MAX,
    ensures
        final(new_game_requested).0 == false,
        !old(new_game_requested).0 || (old(level).width == settings.complexity.rooms() && old(
            level,
        ).height == settings.complexity.rooms()) ==> *final(level) == *old(level),
        old(new_game_requested).0 && !(old(level).width == settings.complexity.rooms() && old(
            level,
        ).height == settings.complexity.rooms()) ==> {
            &&& final(level).wf()
            &&& final(level).placed_apart()
            &&& final(level).width == 2 * settings.complexity.rooms() + 1
            &&& final(level).height == 2 * settings.complexity.rooms() + 1
            &&& final(level).generation == old(level).generation + 1
        },
{
    if !new_game_requested.0 {
        return ;
    }
    new_game_requested.0 = false;
    let (x, y) = settings.complexity.maze_size();
    let size = level.dimensions();
    if size.0 != x || size.1 != y {
        level.regenerate_with_size(x, y);
    }
}

/// Goes on to the next size of maze.
pub fn cycle_complexity(settings: &mut GameSettings)
    ensures
        final(settings).complexity == old(settings).complexity.following(),
{
    settings.complexity = settings.complexity.next();
}

} // verus!
