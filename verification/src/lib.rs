//! A pattern-search engine for the game of Go: a rules-accurate 19x19 board
//! that replays move lists and resolves captures, a compact binary codec for
//! placements and capture records, total parsers for game metadata, a corpus
//! builder that normalizes and deduplicates games, and a symmetry-aware
//! position matcher with empty-area scoring.
use vstd::prelude::*;

pub mod board;
pub mod codec;
pub mod engine;
pub mod facade;
pub mod builder;
pub mod game;
pub mod matcher;
pub mod meta;
pub mod position;
pub mod result;
pub mod symmetry;
pub mod text;

verus! {

} // verus!
