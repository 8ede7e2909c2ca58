//! Autonomous robots collecting resources on a generated map: the rules of the
//! simulation, stated as contracts and proved.

pub mod app;
pub mod channel;
pub mod cli;
pub mod collector;
pub mod grid;
pub mod ledger;
pub mod map;
pub mod mission;
pub mod nearest;
pub mod occupancy;
pub mod open_set;
pub mod rng;
pub mod scout;
pub mod search;
pub mod simulation;
pub mod tally;
pub mod ui;
pub mod wave;
pub mod world;
