//! Leafline: an oppositional strategy game engine, with the rules of the
//! game stated and proved in Verus.
pub mod space;
pub mod script;
pub mod identity;
pub mod life;
pub mod motion;
pub mod lookahead;
pub mod preservation;
pub mod substrate;
pub mod landmark;
pub mod mind;
pub mod bound;
pub mod laws;
pub mod fidelity;
pub mod uci;
pub mod correspondence;
pub mod lattice;
pub mod ascension;
pub mod reach;
