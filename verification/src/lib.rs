//! Turn-based strategy on a hexagonal grid: cube coordinates, the world of
//! tiles, armies and their orders, fog of war and a scoring AI.

pub mod cubic;
pub mod world;
pub mod ai;
pub mod fog;
pub mod river;
pub mod network;
pub mod cli;
pub mod game;
pub mod rng;
pub mod laws;
pub mod notation;
pub mod editor;
pub mod rules;
pub mod text;
