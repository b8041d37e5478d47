//! A predator-prey (Wa-Tor) simulation on a toroidal grid.

pub mod board;
pub mod compact;
pub mod entity;
pub mod geometry;
pub mod random;
pub mod world;
pub mod sim;
pub mod laws;
