//! A 2-D ball physics core: fixed-radius circles under gravity, moved
//! by Stoermer-Verlet integration over position history, confined to a
//! rectangle by positional clipping, and pushed apart by a single pass
//! of pairwise positional collision resolution, driven at a fixed
//! sub-stepped timestep.
//!
//! Every scalar is a fixed-point `i64` (`maths::SCALE` units per world
//! unit), so the arithmetic the contracts describe is the arithmetic
//! the code performs.  Each public operation's contract states exactly
//! which function of the integer model it computes; `laws` proves the
//! global properties of those models.

pub mod ball;
pub mod laws;
pub mod maths;
pub mod physics;
pub mod render;
