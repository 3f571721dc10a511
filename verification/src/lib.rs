//! A verified interpreter for the classic eight-instruction tape language.
//!
//! The crate is split into a mathematical model of the machine
//! ([`semantics`]), the executable interpreter proved against that model
//! ([`interp`]), and general laws of the model ([`laws`]).

pub mod interp;
pub mod laws;
pub mod semantics;
