pub mod abstraction;
pub mod btree;
pub mod database;
pub mod simulation;
pub mod text;
