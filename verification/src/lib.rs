pub mod cell;
pub mod cell_state;
pub mod life_grid;
pub mod pattern;
pub mod pattern_parser;
