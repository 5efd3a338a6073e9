//! What holds of every pattern and every text: laws that relate the
//! compiler, the machine and the search.

pub mod alternation;
pub mod anchoring;
pub mod atoms;
pub mod bounds;
pub mod classes;
pub mod layout;
pub mod literals;
pub mod parts;
pub mod plain;
pub mod repetition;
pub mod rounds;
pub mod safety;
pub mod search;
pub mod size;
pub mod structure;
pub mod wellformed;
pub mod wire;
