//! A second home of the escape decoder.

pub mod charsub;
