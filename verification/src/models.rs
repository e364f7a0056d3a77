pub mod git_object;
pub mod stats;
