pub mod diff;
pub mod diff_reversal;
pub mod paths;
pub mod stats;
