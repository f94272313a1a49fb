//! Lindenmayer systems: deterministic string rewriting with production rules,
//! the grammar of parametric successor strings, the pseudo-random generator of
//! stochastic systems and the command alphabet of turtle interpretation.
pub mod expr;
pub mod parametric;
pub mod rule;
pub mod stochastic;
pub mod system;
mod text;
pub mod turtle;

pub use rule::ProductionRule;
pub use system::LSystem;
