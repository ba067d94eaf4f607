//! Deadlock avoidance by the banker's safety search: given what is free of
//! each resource type and what every process holds and may yet claim, find
//! the order in which the processes can run to completion one at a time.

pub mod input;
pub mod process;
pub mod safety;
pub mod schedule;
pub mod text;
pub mod vector;

pub use input::{build_state, parse_number, parse_row, parse_rows, read_state, InputError};
pub use process::{ConstructionError, Process, ProcessView, RanProcess, RanProcessView};
pub use safety::{bankers_algorithm, is_well_posed, SafetyError};
pub use text::{decimal_text, join_vec};
pub use vector::{add_vec, is_less_than, is_less_than_or_equal, subtract_vec};
