pub mod cli;
pub mod render;
pub mod scan;
