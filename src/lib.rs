//! A small virtual machine for the eight-operator tape language: a lexer,
//! a run-length folder, a jump resolver and a step-wise execution engine.
pub mod token;
pub mod lexer;
pub mod error;
pub mod resolve;
pub mod engine;
pub mod fold;
pub mod equiv;
