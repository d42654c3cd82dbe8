//! Sindri: the engine-independent core of a small 2D game framework.
//!
//! Entity storage, hierarchy, undoable editor commands, a game-state stack,
//! grids and pathfinding, tile maps, input state and asset bookkeeping.
use vstd::prelude::*;

pub mod world;
pub mod entities;
pub mod hierarchy;
pub mod commands;
pub mod pathfinding;
pub mod grid;
pub mod component;
pub mod state;
pub mod scene;
pub mod input;
pub mod render;
pub mod assets;
pub mod runtime;
pub mod platform;
pub mod navigation;
pub mod cameras;
pub mod scripting;
pub mod patching;
pub mod draw;

verus! {

} // verus!
