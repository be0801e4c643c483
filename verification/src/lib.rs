//! Chemical stoichiometry: formula parsing and equation balancing.
//!
//! A formula string is parsed into exact integer atom counts; a reaction
//! (lists of reactant and product compounds) is balanced by finding the
//! smallest positive integer molar coefficients that conserve every
//! element, and the result is re-checked with exact integer arithmetic
//! before it is returned.

pub mod chemdraw;
pub mod counts;
pub mod elements;
pub mod model;
pub mod numbers;
pub mod parse;
pub mod ratio;
pub mod reaction_list;
pub mod solve;

pub use elements::Element;
pub use elements::get_element_by_id;
