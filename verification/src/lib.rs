//! Scope annotation of a JSON abstract syntax tree, and the variable-length
//! integer format used when writing it out.
pub mod ast;
pub mod bytes;
