pub mod action;
pub mod board;
pub mod direction;
pub mod line;
pub mod random;
pub mod replay;
pub mod text;
pub mod tile;
