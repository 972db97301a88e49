//! Marker types by which the program around this library names its parts.

use vstd::prelude::*;

verus! {

/// Names the point in start-up at which the main camera exists.
#[derive(Debug, Hash, PartialEq, Eq, Clone, Copy, Structural)]
pub struct CameraSwawned;

/// Names the point in start-up at which the camera for the overlays exists.
#[derive(Debug, Hash, PartialEq, Eq, Clone, Copy, Structural)]
pub struct OverlayCameraSpawned;

/// Marks the one flat camera that every overlay draws through.
#[derive(Debug, PartialEq, Eq, Clone, Copy, Structural)]
pub struct OverlayCamera;

/// Marks the exit of the maze among the things in the scene.
#[derive(Debug, PartialEq, Eq, Clone, Copy, Structural)]
pub struct ExitPoint;

/// Names the group of parts that make up the game proper.
#[derive(Debug, PartialEq, Eq, Clone, Copy, Structural)]
pub struct MazeGamePlugins;

/// Names the group of parts that serve development only.
#[derive(Debug, PartialEq, Eq, Clone, Copy, Structural)]
pub struct ToolsPlugins;

} // verus!
