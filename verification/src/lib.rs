//! Encoding of Takuzu (Binairo) puzzles as boolean satisfiability problems,
//! and decoding of solver results back into grids.

pub mod cnf;
pub mod combinatorics;
pub mod grid;
pub mod grid_read;
pub mod logic_utils;
pub mod rules;
pub mod sat;
pub mod solution;
pub mod solver;
pub mod text;

pub use cnf::{CNFFile, Literal, SolveError};
pub use combinatorics::{combinations, pairs};
pub use grid::{Cell, Grid};
pub use grid_read::{fill_grid_from_file, parse_grid, published_grids, size};
pub use logic_utils::dnf_to_cnf;
pub use rules::{write_all, write_rule_1, write_rule_2, write_rule_3};
pub use sat::{create_grid, model_to_grid, read_sat_file, Error};
