//! Splits a roster of rated players into teams of equal size that are as even
//! as possible on each rated skill.
//!
//! `model` builds the integer assignment model that a mixed-integer solver
//! minimises, `solution` turns the solver's answer back into teams and checks
//! it, `objective` evaluates the balance of a given assignment, and `report`
//! describes finished teams.

pub mod model;
pub mod objective;
pub mod player;
pub mod report;
pub mod solution;
