//! A procedurally carved cheese wheel.
//!
//! A wheel is an implicit field, negative inside the cheese: a cylinder, minus a
//! wedge, minus bubbles whose places are hashed from a seed. The field is sampled
//! on a grid, and its surface is extracted as triangles. No solid is ever cut as a
//! mesh: every subtraction is a maximum on the field.
//!
//! * [`scalar`]: single-precision numbers as bit patterns, with their order.
//! * [`rounding`]: counts, quotients and products, rounded to single precision.
//! * [`scatter`]: the hash, and the bubbles that a seed decides on.
//! * [`wheel`]: the measurements of a wheel and its field.
//! * [`grid`], [`scan`], [`sums`]: grid points, walks over boxes of them, and sums
//!   over those.
//! * [`nets`]: surface nets over any field.
//! * [`surface`], [`closed`], [`turned`]: what holds of every surface net.
//! * [`mesh`]: the net of a wheel as a renderer's mesh.
//! * [`lattice`]: a cube of wheels, from a whole round to the thinnest sliver.

pub mod closed;
pub mod grid;
pub mod lattice;
pub mod mesh;
pub mod nets;
pub mod rounding;
pub mod scalar;
pub mod scan;
pub mod scatter;
pub mod sums;
pub mod surface;
pub mod turned;
pub mod wheel;

pub use grid::GridPoint;
pub use lattice::{bite_for_cell, chunk_size, mise_en_place, Recipe, GRID_RES};
pub use mesh::build_cheese_mesh;
pub use nets::{field_gradient, stitch, surface_nets, Around, Crossing, Embedding, Net};
pub use scalar::Scalar;
pub use scatter::{bubble, swiss_hash, Bubble};
pub use wheel::{cheese_field, sd_capped_cylinder, CapTerms, CheeseSpec, Measures};
