//! Turning key presses into steps of the player, and driving each step from
//! one cell to the next over time.

use crate::cells::is_open;
use crate::grid::{closest_direction, direction_delta, rotated, Directions, Vec2i, Vec3i};
use crate::level::MazeLevel;
use vstd::prelude::*;

verus! {

/// Time that one step from a cell to the next takes, in microseconds.
pub const MOVEMENT_TIME: u64 = 200_000;

/// Which of the keys that matter are held down.
#[derive(Debug, Clone, Copy, PartialEq, Eq, Structural)]
pub struct PressedKeys {
    /// Either shift key: while held, the arrows steer the camera.
    pub shift: bool,
    pub up: bool,
    pub right: bool,
    pub down: bool,
    pub left: bool,
}

/// A step in flight: the time spent on it so far, in microseconds, and its
/// direction.
#[derive(Debug, Clone, Copy, PartialEq, Eq, Structural)]
pub struct AnimationState {
    pub time: u64,
    pub direction_index: usize,
}

/// The step in flight, or `None` while the player rests in a cell.
#[derive(Debug, Clone, Copy, PartialEq, Eq, Structural)]
pub struct PlayerAnimation(pub Option<AnimationState>);

/// The direction that the keys ask for, or `None` if they ask for none.
#[derive(Debug, Clone, Copy, PartialEq, Eq, Structural)]
pub struct PressedDirectionIndex(pub Option<usize>);

/// The layout number that some part of the program has last acted on.
#[derive(Debug, Clone, Copy, PartialEq, Eq, Structural)]
pub struct TrackedGeneration(pub Option<u32>);

/// What is to happen to the player's place on screen after a frame.
#[derive(Debug, Clone, Copy, PartialEq, Eq, Structural)]
pub enum VisualUpdate {
    /// Nothing moves.
    Stay,
    /// Move along direction `direction_index` by the share `delta /
    /// MOVEMENT_TIME` of a cell.
    Glide { direction_index: usize, delta: u64 },
    /// Put the player on the middle of this cell.
    Snap(Vec2i),
}

/// The quarter turns that the keys ask for: 0, 1, 2, 3 for up, right, down,
/// left, the first of these that is held; nothing while shift is held.
pub open spec fn pressed_delta(keys: PressedKeys) -> Option<i32> {
    if keys.shift {
        None
    } else if keys.up {
        Some(0i32)
    } else if keys.right {
        Some(1i32)
    } else if keys.down {
        Some(2i32)
    } else if keys.left {
        Some(3i32)
    } else {
        None
    }
}

/// The cell one step from `p` in direction `direction_index`.
pub open spec fn stepped(p: (int, int), direction_index: int) -> (int, int) {
    (p.0 + direction_delta(direction_index).0, p.1 + direction_delta(direction_index).1)
}

/// One step from `p` stays within `i32`, whatever its direction.
pub open spec fn can_step_anywhere(p: Vec2i) -> bool {
    i32::MIN < p.0 < i32::MAX && i32::MIN < p.1 < i32::MAX
}

/// Two steps in a row from `p` in direction `direction_index` stay within
/// `i32`.
pub open spec fn can_step_twice(p: Vec2i, direction_index: int) -> bool {
    &&& i32::MIN <= p.0 + 2 * direction_delta(direction_index).0 <= i32::MAX
    &&& i32::MIN <= p.1 + 2 * direction_delta(direction_index).1 <= i32::MAX
}

/// The step in flight, if there is one, leads into an open cell of `level`,
/// and so does not take the player into a wall or off the grid.
pub open spec fn step_is_legal(level: MazeLevel, animation: PlayerAnimation) -> bool {
    animation.0 matches Some(a) ==> a.direction_index < 4 && is_open(
        level.grid(),
        stepped(level.player_position@, a.direction_index as int),
    )
}

/// The direction on the grid that the keys ask for when the camera looks
/// along `forward`.
pub open spec fn wanted_direction(forward: Vec3i, delta: i32) -> int {
    rotated(closest_direction(forward), delta as int)
}

/// The state after the keys have been read: `.0` is the step in flight, `.1`
/// the direction asked for. A key with no camera changes nothing. A key with
/// a camera sets the direction asked for, and begins a step if none is in
/// flight and the cell in that direction is open. No key clears the
/// direction asked for.
pub open spec fn after_input(
    g: Seq<Seq<char>>,
    player: (int, int),
    keys: PressedKeys,
    camera_forward: Option<Vec3i>,
    animation: PlayerAnimation,
    asked: PressedDirectionIndex,
) -> (PlayerAnimation, PressedDirectionIndex) {
    match pressed_delta(keys) {
        Some(delta) => match camera_forward {
            Some(forward) => {
                let index = wanted_direction(forward, delta);
                (
                    if animation.0.is_none() && is_open(g, stepped(player, index)) {
                        PlayerAnimation(
                            Some(AnimationState { time: 0, direction_index: index as usize }),
                        )
                    } else {
                        animation
                    },
                    PressedDirectionIndex(Some(index as usize)),
                )
            },
            None => (animation, asked),
        },
        None => (animation, PressedDirectionIndex(None)),
    }
}

/// Time spent on a step after `delta` more microseconds; it stops at
/// `u64::MAX`.
pub open spec fn time_after(time: u64, delta: u64) -> u64 {
    if time + delta > u64::MAX {
        u64::MAX
    } else {
        (time + delta) as u64
    }
}

/// The keys' quarter turns: see `pressed_delta`.
pub fn get_pressed_index_delta(keys: PressedKeys) -> (delta: Option<i32>)
    ensures
        delta == pressed_delta(keys),
        delta matches Some(d) ==> 0 <= d < 4,
{
    if !keys.shift {
        if keys.up {
            Some(0)
        } else if keys.right {
            Some(1)
        } else if keys.down {
            Some(2)
        } else if keys.left {
            Some(3)
        } else {
            None
        }
    } else {
        None
    }
}

/// Reads the keys: see `after_input`. The level is only looked at.
pub fn keyboard_input_system(
    keys: PressedKeys,
    level: &MazeLevel,
    camera_forward: Option<Vec3i>,
    animation: &mut PlayerAnimation,
    direction_index: &mut PressedDirectionIndex,
)
    requires
        level.shape_ok(),
        can_step_anywhere(level.player_position),
    ensures
        (*final(animation), *final(direction_index)) == after_input(
            level.grid(),
            level.player_position@,
            keys,
            camera_forward,
            *old(animation),
            *old(direction_index),
        ),
        step_is_legal(*level, *old(animation)) ==> step_is_legal(*level, *final(animation)),
{
    match get_pressed_index_delta(keys) {
        Some(index_delta) => {
            match camera_forward {
                Some(forward) => {
                    let up_direction_index = Directions::get_closest(forward);
                    let index = Directions::rotate(up_direction_index, index_delta as usize);
                    direction_index.0 = Some(index);
                    let next_position = level.player_position.get_next(index);
                    if animation.0.is_none() && level.is_cell_empty(next_position) {
                        animation.0 = Some(AnimationState { time: 0, direction_index: index });
                    }
                },
                None => {},
            }
        },
        None => {
            direction_index.0 = None;
        },
    }
}

/// A step toward a cell that is not open is not begun: the player at rest
/// stays at rest, whatever the keys and the camera are.
pub proof fn lemma_wall_move_rejected(
    g: Seq<Seq<char>>,
    player: (int, int),
    keys: PressedKeys,
    forward: Vec3i,
    asked: PressedDirectionIndex,
)
    requires
        pressed_delta(keys) matches Some(delta) && !is_open(
            g,
            stepped(player, wanted_direction(forward, delta)),
        ),
    ensures
        after_input(g, player, keys, Some(forward), PlayerAnimation(None), asked).0
            == PlayerAnimation(None),
{
}

/// Moves a step in flight on by `delta` microseconds.
///
/// While the step has taken less than `MOVEMENT_TIME`, the player glides on.
/// Once it has taken that long, the player's cell becomes the next cell in
/// the step's direction. If that direction is still asked for and the cell
/// after the next is open too, a new step begins at once, with the time that
/// went beyond `MOVEMENT_TIME` already spent on it; otherwise the player comes
/// to rest in the middle of the new cell. With no step in flight nothing
/// happens.
pub fn animate_player_movement(
    level: &mut MazeLevel,
    delta: u64,
    animation: &mut PlayerAnimation,
    direction_index: &PressedDirectionIndex,
) -> (update: VisualUpdate)
    requires
        old(animation).0 matches Some(a) ==> old(level).shape_ok() && a.direction_index < 4
            && can_step_twice(old(level).player_position, a.direction_index as int),
    ensures
        final(level).width == old(level).width,
        final(level).height == old(level).height,
        final(level).map == old(level).map,
        final(level).exit_position == old(level).exit_position,
        final(level).generation == old(level).generation,
        step_is_legal(*old(level), *old(animation)) ==> step_is_legal(
            *final(level),
            *final(animation),
        ),
        step_is_legal(*old(level), *old(animation)) && old(level).wf() ==> final(level).wf(),
        match old(animation).0 {
            None => {
                &&& update == VisualUpdate::Stay
                &&& *final(animation) == *old(animation)
                &&& final(level).player_position == old(level).player_position
            },
            Some(a) => {
                let time = time_after(a.time, delta);
                let direction = a.direction_index;
                let arrived = stepped(old(level).player_position@, direction as int);
                if time < MOVEMENT_TIME {
                    &&& update == (VisualUpdate::Glide { direction_index: direction, delta })
                    &&& *final(animation) == PlayerAnimation(
                        Some(AnimationState { time, direction_index: direction }),
                    )
                    &&& final(level).player_position == old(level).player_position
                } else {
                    &&& final(level).player_position@ == arrived
                    &&& if direction_index.0 == Some(direction) && is_open(
                        old(level).grid(),
                        stepped(arrived, direction as int),
                    ) {
                        &&& update == (VisualUpdate::Glide { direction_index: direction, delta })
                        &&& *final(animation) == PlayerAnimation(
                            Some(
                                AnimationState {
                                    time: (time - MOVEMENT_TIME) as u64,
                                    direction_index: direction,
                                },
                            ),
                        )
                    } else {
                        &&& update == VisualUpdate::Snap(final(level).player_position)
                        &&& *final(animation) == PlayerAnimation(None)
                    }
                }
            },
        },
{
    match animation.0 {
        None => VisualUpdate::Stay,
        Some(state) => {
            let time: u64 = if state.time > u64::MAX - delta {
                u64::MAX
            } else {
                state.time + delta
            };
            let direction = state.direction_index;
            if time < MOVEMENT_TIME {
                animation.0 = Some(AnimationState { time, direction_index: direction });
                VisualUpdate::Glide { direction_index: direction, delta }
            } else {
                level.player_position = level.player_position.get_next(direction);
                let next_next_position = level.player_position.get_next(direction);
                let asked_again = match direction_index.0 {
                    Some(asked) => asked == direction,
                    None => false,
                };
                if asked_again && level.is_cell_empty(next_next_position) {
                    animation.0 = Some(
                        AnimationState { time: time - MOVEMENT_TIME, direction_index: direction },
                    );
                    VisualUpdate::Glide { direction_index: direction, delta }
                } else {
                    animation.0 = None;
                    VisualUpdate::Snap(level.player_position)
                }
            }
        },
    }
}

impl TrackedGeneration {
    /// Takes note of the layout number `generation`. Returns whether it
    /// differs from the number noted before, that is, whether the maze has
    /// changed since.
    pub fn observe(&mut self, generation: u32) -> (changed: bool)
        ensures
            changed == (old(self).0 != Some(generation)),
            final(self).0 == Some(generation),
    {
        let changed = match self.0 {
            Some(seen) => seen != generation,
            None => true,
        };
        self.0 = Some(generation);
        changed
    }
}

/// Brings the player in line with the maze after it has been rebuilt: if the
/// layout number is new to `noted`, a step in flight is dropped and the
/// cell to put the player on is returned.
pub fn reset_player_on_maze_change(
    level: &MazeLevel,
    noted: &mut TrackedGeneration,
    animation: &mut PlayerAnimation,
) -> (place: Option<Vec2i>)
    ensures
        final(noted).0 == Some(level.generation),
        old(noted).0 == Some(level.generation) ==> place.is_none() && *final(animation) == *old(
            animation,
        ),
        old(noted).0 != Some(level.generation) ==> place == Some(level.player_position)
            && *final(animation) == PlayerAnimation(None) && step_is_legal(
            *level,
            *final(animation),
        ),
{
    if noted.observe(level.generation) {
        animation.0 = None;
        Some(level.player_position)
    } else {
        None
    }
}

} // verus!
