//! An incremental JSON parser: a value can be fed in chunks, and the parser
//! keeps an incomplete value between them.
pub mod json_reader;
pub mod laws;
pub mod model;
pub mod parsers;
pub mod reading;
pub mod string_reader;
