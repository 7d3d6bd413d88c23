//! Turn an L-system grammar into a musical note sequence.
//!
//! The library rewrites a symbol string through generations of parallel
//! production-rule substitution, then interprets the result as a series of
//! pitch/duration events driven by a cyclic musical scale.

pub mod interp;
pub mod lsystem;
pub mod midi;
pub mod note;
pub mod parser;
