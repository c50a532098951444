//! Solver and history tools for the tumbler-lock minigame: a lock has N tumblers, each
//! plate on a 1..7 track, and is open when every plate sits on 4.
use vstd::prelude::*;

pub mod browse;
pub mod catalog;
pub mod history;
pub mod history_facts;
pub mod input_facts;
pub mod readback;
pub mod laws;
pub mod model;
pub mod render;
pub mod rules;
pub mod screens;
pub mod solver;
pub mod text;
pub mod text_facts;
pub mod walk;

pub use browse::{matching_locks, pick_locks};
pub use catalog::{parse_catalog, Catalog, I18n};
pub use history::{
    parse_history, parse_input, parse_int_array, parse_solution_steps, Lock, DEFAULT_FILE,
    MAX_TUMBLERS, MIN_TUMBLERS,
};
pub use render::{input_block, lock_markdown, remove_lock, replace_lock, solution_lines};
pub use rules::{apply_click, build_matrix, goal, rule_to_delta};
pub use solver::{solve, solve_lock, Solution};
pub use walk::{keycap, parse_start, sel_index, step_from_lock, StepState};

verus! {

} // verus!
