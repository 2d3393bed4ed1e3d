pub mod ascii;
pub mod budget;
pub mod cli;
pub mod commands;
pub mod engine;
pub mod human;
pub mod interactive;
pub mod laws;
pub mod model;
pub mod names;
pub mod order;
pub mod output;
pub mod paths;
pub mod search;
pub mod sources;
pub mod text;
