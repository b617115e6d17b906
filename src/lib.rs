//! Small verified programs: a ranked-pairs election resolver with its graph, two
//! other voting methods, ciphers, word and card-number checks, and typed prompts
//! over byte streams.
pub mod graph;
pub mod election;
pub mod plurality;
pub mod runoff;
pub mod prompt;
pub mod rust50;
pub mod cash;
pub mod credit;
pub mod hello;
pub mod mario;
pub mod caesar;
pub mod readability;
pub mod scrabble;
pub mod substitution;
pub mod recover;
pub mod speller;
