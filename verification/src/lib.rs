//! Derivation graph diffing: compares two build-recipe graphs and renders a
//! bounded, human-readable report of what changed, collapsing shared
//! substructure that carries no new information.

pub mod derivation;
pub mod diff;
pub mod order;
pub mod render;
pub mod seqdiff;
pub mod strings_set;
