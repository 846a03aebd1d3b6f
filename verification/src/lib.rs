//! A personal task tracker: tasks with a name, a description, a weight and
//! tags, kept in a collection keyed by the digest of the name, and driven by
//! a sequence of commands read off the command line.

pub mod commands;
pub mod error;
pub mod executor;
pub mod heap;
pub mod select;
pub mod stack;
pub mod table;
pub mod tags;
pub mod task;
pub mod text;
pub mod tokenizer;
