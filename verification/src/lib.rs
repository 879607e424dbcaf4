//! Anaphor: a terminal context resolver. This crate holds its logic, each
//! function proved against its contract: configuration resolution, JSON
//! values, tool-request parsing, the context budget, prompt building and
//! terminal rendering.
pub mod budget;
pub mod config;
pub mod json;
pub mod llm;
pub mod prompt;
pub mod render;
pub mod text;
pub mod tools;
pub mod types;
