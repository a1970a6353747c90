pub mod cli;
pub mod colors;
pub mod game;
pub mod util;
