pub mod catalog;
pub mod command;
pub mod database;
pub mod order;
pub mod package;
pub mod text;
