//! Puzzle solutions over plain text: each module reads the bytes of its
//! puzzle input and computes the answer, with contracts that say exactly
//! which answer comes out.
pub mod text;
pub mod grid;
pub mod calibration;
pub mod cubes;
pub mod schematic;
pub mod scratchcards;
pub mod almanac;
pub mod races;
pub mod camel_cards;
pub mod network;
pub mod oasis;
