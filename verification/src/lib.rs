//! Exact equities of three-card starting hands in Super Hold'em.
#![allow(unused_imports)]

pub mod best;
pub mod cards;
pub mod classes;
pub mod counts;
pub mod decimal;
pub mod draws;
pub mod equity;
pub mod few;
pub mod forms;
pub mod holdings;
pub mod json;
pub mod names;
pub mod parts;
pub mod patterns;
pub mod progress;
pub mod ranking;
pub mod ranks;
pub mod representatives;
pub mod results;
pub mod score;
pub mod state;
pub mod straight;
pub mod strength;
pub mod suit_counts;
pub mod suits;
pub mod symmetry;
pub mod tallies;
pub mod ties;
