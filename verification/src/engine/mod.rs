//! The engine that owns the books.

pub mod match_engine;
