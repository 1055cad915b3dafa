//! Outfit completion over reduced, ordered decision diagrams.
//!
//! `bdd` holds the node arena and its combinators, `item` the named items
//! and families, `closet` the compiler from declarations to a diagram,
//! `outfit` the completion walker, and `forest` the enumeration of the sets
//! a diagram holds.
pub mod bdd;
pub mod item;
pub mod closet;
pub mod outfit;
pub mod forest;
