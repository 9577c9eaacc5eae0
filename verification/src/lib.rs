//! Petri-net and text-playground environments: a parser for Petri-net
//! command lists, a simulator that fires transitions step by step, a DOT
//! renderer, and a word-capitalizing text transformer, each with its
//! behaviour stated as a contract.
pub mod text;
pub mod command;
pub mod parser;
pub mod steps;
pub mod dot_generator;
pub mod env;
pub mod playground;
pub mod petrinet;
pub mod random;
pub mod laws;
pub mod round_trip;
pub mod parse_laws;
pub mod steps_laws;
pub mod text_laws;

pub use command::{PCommand, PCommands, ParseError};
pub use dot_generator::dot;
pub use parser::{parse_pcommands, PetrinetParsing};
pub use steps::steps;
