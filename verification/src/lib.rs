pub mod text;
pub mod sort;
pub mod tutorial;
pub mod load;
pub mod window;
pub mod pattern;
pub mod filter;
pub mod graph;
pub mod links;
pub mod views;
pub mod flat;
pub mod render;
pub mod meta;
pub mod headers;
pub mod cli;
pub mod laws;
pub mod view_laws;
pub mod graph_laws;
