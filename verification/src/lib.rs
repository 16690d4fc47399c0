//! Cut-list planning: given the supplies of stock and the parts wanted of
//! each material, say which parts to cut from which piece.
//!
//! Lengths and prices are exact rational numbers. The solver places the
//! parts greedily; what it returns and what it reports are stated over the
//! plan that it follows, and so is what holds of every plan: each part is cut
//! as often as it is wanted, no pattern is longer than its piece, no supply
//! is used beyond its limit.

pub mod entry;
pub mod modeling;
pub mod rational;
pub mod size;
pub mod solvers;
pub mod units;
pub mod utils;
