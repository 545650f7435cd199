use vstd::prelude::*;

pub mod text;
pub mod rules;
pub mod cellset;
pub mod simulation;
pub mod analysis;
pub mod rle;
pub mod patterns;
pub mod starts;
pub mod roundtrip;
pub mod line;
pub mod controls;
pub mod terminator;
pub mod board;
pub mod translation;
pub mod plain_rle;
