//! Exact combinatorial building blocks for geometry on the unit 3-sphere.
//!
//! - `even_permutations` enumerates the even permutations of a list of values, proved
//!   against a description of the arrangements it reports; for distinct entries it
//!   reports exactly the even permutations. `inversions` holds the parity facts behind
//!   that.
//! - `hexacosichoron` lists the 120 vertices of the 600-cell in exact form (coordinates
//!   as golden-ratio levels), proved to lie on the unit sphere and to be pairwise distinct.

pub mod even_permutations;
pub mod hexacosichoron;
pub mod inversions;

pub use even_permutations::even_permutations;
