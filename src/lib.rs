use vstd::prelude::*;

pub mod choice;
pub mod desktop;
pub mod order;
pub mod rmenu;
pub mod sources;
pub mod text;

pub use choice::Choice;
pub use rmenu::{alpha_sort_entries, filter_entries, sort_entries, CliArgs};

verus! {

} // verus!
