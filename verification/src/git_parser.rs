pub mod commit_parser;
pub mod hex;
pub mod object_reader;
pub mod repo;
pub mod sha1;
pub mod tree_parser;
