//! Synthesis of a distributed-element (transmission-line) realization of a
//! lumped lowpass ladder filter prototype.
//!
//! The engine works on exact rational magnitudes, reduced to lowest terms at
//! every step: every identity of the pair transformer is stated and proved as
//! exact rational arithmetic, and a result that would not fit the machine
//! representation is reported as an overflow error rather than approximated.
//! Each function's contract says exactly when that happens: success is owed
//! whenever the exact computation fits.  The representable domain is the set
//! of inputs whose exact magnitudes, in lowest terms, keep every intermediate
//! component within `u128`; for the four-decimal prototype table that is the
//! orders up to 3 — the exact lowest-terms results of order 4 already need
//! 67-digit components, and of order 10 over a thousand digits, so no
//! fixed-width exact representation reaches them.

pub mod element;
pub mod engine;
pub mod ladder;
pub mod rat;
