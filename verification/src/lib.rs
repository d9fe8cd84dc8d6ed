pub mod bitmap;
pub mod game;
pub mod grid;
pub mod renderer;
pub mod rng;
pub mod sprite;
pub mod track;
