//! The abstract syntax tree and its annotation.
pub mod grammar;
pub mod json;
pub mod library;
pub mod names;
pub mod annotation;
