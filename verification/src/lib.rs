//! A vendoring tool's core: the configuration language that names libraries
//! and their build steps, and the rules by which the steps are run.

pub mod config;
pub mod executor;
pub mod laws;
pub mod lex;
pub mod ordered;
pub mod parser;
pub mod process;
pub mod substitute;
pub mod text;
