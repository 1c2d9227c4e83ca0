//! Verified core of a Boggle word game: tracing words on a 4 by 4 letter
//! grid, dictionary look-ups, scoring a round and laying out the results.
pub mod text;
pub mod board;
pub mod dict;
pub mod results;
pub mod input;
pub mod dice;
pub mod server;
