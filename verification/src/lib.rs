//! Reading and analysing git repositories: object formats, commit and tree
//! parsing, SHA-1, line diffs, repository statistics and the state of the
//! terminal browser.
pub mod analyzer;
pub mod git_parser;
pub mod models;
pub mod text;
pub mod tui_ui;
