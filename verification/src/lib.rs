pub mod text;
pub mod proto;
pub mod graph;
pub mod engine;
pub mod locate;
pub mod registry;
pub mod scheduler;
pub mod cli;
pub mod inference;
pub mod node;
pub mod controller;
pub mod store;
pub mod retrieval;
pub mod tools;
