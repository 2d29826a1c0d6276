//! Procedural-level and visibility core of a small grid-based exploration
//! game: random room placement, corridor routing over a mutable cell grid,
//! integer line-of-sight with fog-of-war memory, and a movement gate.

pub mod cell;
pub mod character;
pub mod draw_buffer;
pub mod grid;
pub mod gs_funcs;
pub mod key_state;
pub mod rng;
pub mod runtime_error;
pub mod walker;
pub mod window_buffer;

pub use cell::Cell;
pub use character::Character;
pub use character::Color;
pub use draw_buffer::DrawBuffer;
pub use key_state::KeyState;
pub use rng::GameRng;
pub use runtime_error::RuntimeError;
pub use walker::Walker;
pub use window_buffer::WindowBuffer;
