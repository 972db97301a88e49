//! The states of the program, the sizes a maze can have, and the place of the
//! mini map on the window.

use vstd::prelude::*;

verus! {

/// What the program is showing.
#[derive(Debug, Clone, Copy, PartialEq, Eq, Hash, Structural)]
pub enum AppState {
    /// The start menu; the program begins here.
    Menu,
    /// The game itself.
    InGame,
    /// The pause menu over the game.
    Paused,
}

impl Default for AppState {
    fn default() -> (state: AppState)
        ensures
            state == AppState::Menu,
    {
        AppState::Menu
    }
}

impl AppState {
    /// The state that the Escape key leads to: the game pauses, the pause
    /// menu goes back to the game. From the start menu Escape leaves the
    /// program, which is `None`.
    pub fn after_escape(self) -> (next: Option<AppState>)
        ensures
            self == AppState::Menu ==> next.is_none(),
            self == AppState::InGame ==> next == Some(AppState::Paused),
            self == AppState::Paused ==> next == Some(AppState::InGame),
    {
        match self {
            AppState::Menu => None,
            AppState::InGame => Some(AppState::Paused),
            AppState::Paused => Some(AppState::InGame),
        }
    }
}

/// How large a maze is to be.
#[derive(Debug, Clone, Copy, PartialEq, Eq, Structural)]
pub enum Complexity {
    /// 15 by 15 rooms.
    Small,
    /// 30 by 30 rooms.
    Medium,
    /// 60 by 60 rooms.
    Large,
}

impl Default for Complexity {
    fn default() -> (complexity: Complexity)
        ensures
            complexity == Complexity::Medium,
    {
        Complexity::Medium
    }
}

impl Complexity {
    /// Number of rooms along each side.
    pub open spec fn rooms(self) -> int {
        match self {
            Complexity::Small => 15,
            Complexity::Medium => 30,
            Complexity::Large => 60,
        }
    }

    /// The size that follows in the cycle small, medium, large, small.
    pub open spec fn following(self) -> Complexity {
        match self {
            Complexity::Small => Complexity::Medium,
            Complexity::Medium => Complexity::Large,
            Complexity::Large => Complexity::Small,
        }
    }

    /// Number of rooms along the two sides.
    pub fn maze_size(self) -> (size: (usize, usize))
        ensures
            size.0 == self.rooms(),
            size.1 == self.rooms(),
    {
        match self {
            Complexity::Small => (15, 15),
            Complexity::Medium => (30, 30),
            Complexity::Large => (60, 60),
        }
    }

    /// The size that follows in the cycle small, medium, large, small.
    pub fn next(self) -> (following: Complexity)
        ensures
            following == self.following(),
    {
        match self {
            Complexity::Small => Complexity::Medium,
            Complexity::Medium => Complexity::Large,
            Complexity::Large => Complexity::Small,
        }
    }

    /// The size as the menu shows it.
    pub fn label(self) -> (text: &'static str)
        ensures
            self == Complexity::Small ==> text@ == "15x15"@,
            self == Complexity::Medium ==> text@ == "30x30"@,
            self == Complexity::Large ==> text@ == "60x60"@,
    {
        match self {
            Complexity::Small => "15x15",
            Complexity::Medium => "30x30",
            Complexity::Large => "60x60",
        }
    }
}

/// Going on three times from any size leads back to it, past the two others.
pub proof fn lemma_sizes_cycle(complexity: Complexity)
    ensures
        complexity.following().following().following() == complexity,
        complexity.following() != complexity,
        complexity.following().following() != complexity,
{
}

/// What the player has chosen for the game.
#[derive(Debug, Clone, Copy, PartialEq, Eq, Structural)]
pub struct GameSettings {
    pub complexity: Complexity,
}

impl Default for GameSettings {
    fn default() -> (settings: GameSettings)
        ensures
            settings.complexity == Complexity::Medium,
    {
        GameSettings { complexity: Complexity::Medium }
    }
}

/// The entry of a menu that is picked out, counted from the top.
#[derive(Debug, Clone, Copy, PartialEq, Eq, Structural)]
pub struct MenuSelection(pub usize);

impl Default for MenuSelection {
    fn default() -> (selection: MenuSelection)
        ensures
            selection.0 == 0,
    {
        MenuSelection(0)
    }
}

/// The entry picked out after one step up from `selection` in a menu of
/// `count` entries: the last entry follows on the first.
pub open spec fn stepped_up(selection: int, count: int) -> int {
    if selection == 0 {
        count - 1
    } else {
        selection - 1
    }
}

/// The entry picked out after one step down: the first entry follows on the
/// last.
pub open spec fn stepped_down(selection: int, count: int) -> int {
    (selection + 1) % count
}

impl MenuSelection {
    /// Moves the selection in a menu of `count` entries: up if `up` is set,
    /// then down if `down` is set. An empty menu keeps its selection.
    pub fn navigate(&mut self, count: usize, up: bool, down: bool)
        requires
            count > 0 && down && !up ==> old(self).0 < usize::MAX,
        ensures
            count == 0 ==> final(self).0 == old(self).0,
            count > 0 ==> final(self).0 == ({
                let after_up = if up {
                    stepped_up(old(self).0 as int, count as int)
                } else {
                    old(self).0 as int
                };
                if down {
                    stepped_down(after_up, count as int)
                } else {
                    after_up
                }
            }),
    {
        if count == 0 {
            return ;
        }
        if up {
            self.0 = if self.0 == 0 {
                count - 1
            } else {
                self.0 - 1
            };
        }
        if down {
            self.0 = (self.0 + 1) % count;
        }
    }
}

/// Place and size of the mini map, in pixels, on a window of the given size:
/// a square a quarter of the window wide, or a third of it high if that is
/// less, in the top right corner, 4 pixels from the edges.
pub open spec fn mini_map_square(window_width: int, window_height: int) -> ((int, int), (int, int)) {
    let size = if window_width / 4 <= window_height / 3 {
        window_width / 4
    } else {
        window_height / 3
    };
    ((window_width - size - 4, 4), (size, size))
}

/// Place (`.0`) and size (`.1`) of the mini map on a window that has room
/// for it: see `mini_map_square`.
pub fn update_mini_map_viewport(window_width: u32, window_height: u32) -> (viewport: (
    (u32, u32),
    (u32, u32),
))
    requires
        mini_map_square(window_width as int, window_height as int).0.0 >= 0,
    ensures
        ((viewport.0.0 as int, viewport.0.1 as int), (viewport.1.0 as int, viewport.1.1 as int))
            == mini_map_square(window_width as int, window_height as int),
{
    let quarter: u32 = window_width / 4;
    let third: u32 = window_height / 3;
    let mini_size: u32 = if quarter <= third {
        quarter
    } else {
        third
    };
    let margin: u32 = 4u32;
    ((window_width - mini_size - margin, margin), (mini_size, mini_size))
}

} // verus!
