//! Mesh-processing building blocks for texture-aware remeshing: a collapsible
//! manifold built on a disjoint-set forest, sorted-merge of adjacency lists,
//! chart boundary bookkeeping and integer bounding boxes.
use vstd::prelude::*;

pub mod aabb;
pub mod boundary;
pub mod boundary_loop;
pub mod chart_edges;
pub mod chart_wedges;
pub mod clustering;
pub mod corners;
pub mod dithering;
pub mod dual_grid;
pub mod gap_fill;
pub mod hysteresis;
pub mod manifold;
pub mod measure_flat;
pub mod merge;
pub mod options;
pub mod pixels;
pub mod qem;
pub mod relaxation;
pub mod union_find;
pub mod weighting;

verus! {

} // verus!
