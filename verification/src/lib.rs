//! Verified core of a shared-terminal artillery arena: the destructible terrain,
//! the integer side of each worm's controls, the kill feed, and the ANSI renderer.
pub mod rng;
pub mod game;
pub mod terrain;
pub mod worm;
pub mod text;
pub mod render;
pub mod canvas;
pub mod feed;
pub mod session;
pub mod web;
