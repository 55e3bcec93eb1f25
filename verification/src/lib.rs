//! Conway's Game of Life on a fixed-size grid whose edges wrap around.
//!
//! The mathematical model of a grid is [`board::Board`]: its dimensions and
//! the set of its live coordinates. [`world::World`] is the executable grid.
//! It caches the number of live neighbours in every cell and keeps the cache
//! equal to the model's count through every mutation, so that a generation
//! costs work only where a cell is born or dies.
//!
//! - [`board`]: the model, the rule of the game and the laws that hold of it.
//! - [`world`]: the grid, its mutations and queries, and the generation step.
//! - [`pattern`]: the text form of a pattern and how it reads back.
//! - [`random`]: the random source behind random seeding and colours.
//! - [`window_buffer`], [`render`]: a pixel buffer and painting a grid into it.
//! - [`marks`]: cells marked with the mouse and toggled on release.

pub mod board;
pub mod marks;
pub mod pattern;
pub mod random;
pub mod render;
pub mod window_buffer;
pub mod world;

pub use marks::Marks;
pub use render::draw_world;
pub use window_buffer::WindowBuffer;
pub use world::{Cell, World, WorldError};
