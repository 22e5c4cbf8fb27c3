pub mod bfc;
pub mod bfc_result;
pub mod config;
pub mod git;
pub mod graph;
pub mod graph_store;
pub mod hunk;
pub mod text;
pub mod utils;
pub mod vertex;
pub mod szz;
