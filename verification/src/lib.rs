//! Conversion between raster (labeled grid) and vector (polyline / ring)
//! representations of gridded regions.
//!
//! The crate offers three operations:
//! - [`rasterize_linestring`]: the ordered sequence of integer grid cells a
//!   polyline geometrically touches (supercover traversal of each segment);
//! - [`marching_squares`]: the unit boundary edges separating each label's
//!   cells from differently-labeled neighbors, including the outer border;
//! - [`edges_to_multilinestring`]: assembly of one label's unordered boundary
//!   edges into ordered closed rings, consulting the grid to route correctly
//!   through degree-four "knot" vertices.

mod assemble;
mod extract;
mod geometry;
mod grid;
mod laws;
mod raster;

pub use assemble::cb_at;
pub use assemble::consume_steps;
pub use assemble::degrees_ok;
pub use assemble::knots_cb;
pub use assemble::edges_to_multilinestring;
pub use assemble::find_first;
pub use assemble::is_trace;
pub use assemble::knot_exit_spec;
pub use assemble::nbrs;
pub use assemble::ring_closed;
pub use assemble::ring_wf;
pub use assemble::rings_msets;
pub use assemble::step_spec;
pub use assemble::workings;
pub use assemble::AssembleError;
pub use extract::emits_edge;
pub use extract::marching_squares;
pub use extract::EdgeMap;
pub use geometry::Coord;
pub use geometry::Edge;
pub use geometry::SignedCoord;
pub use grid::Grid;
pub use laws::lemma_extracted_edges_pass_validation;
pub use laws::lemma_extraction_is_manifold;
pub use laws::lemma_rings_cover_extraction;
pub use raster::rasterize_linestring;
