pub mod shape;
pub mod tetris;
