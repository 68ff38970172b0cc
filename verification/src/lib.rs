pub mod count;
pub mod grid;
pub mod solver;
pub mod rng;
pub mod game;
pub mod text;
pub mod app;
pub mod state;
pub mod ui;
pub mod theme;
