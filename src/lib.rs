//! Golden-file test files: a directive grammar, a scanner that splits a file into stanzas,
//! a serializer that writes them back, and the run engine that checks or rewrites cases.
pub mod text;
pub mod error;
pub mod directive;
pub mod case;
pub mod file;
pub mod laws;
pub mod run;
pub mod walk;
