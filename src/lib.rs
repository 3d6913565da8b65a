//! A Minesweeper grid engine: mine placement, neighbour counting, flood-fill
//! reveal and the win check, each with a verified contract.
pub mod grid;
