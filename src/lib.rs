//! Index and bookkeeping core of a simulated-annealing engine for elastic planar
//! curves: integer-grid rectangles, a region quadtree over bounded items, an arena
//! of interleaved anchor/tangent pairs, a nearest-cell sampling grid, and the
//! acceptance statistics that drive adaptive proposal scales.
pub mod counter;
pub mod population;
pub mod quad_tree;
pub mod random;
pub mod rect;
pub mod sampler;
pub mod storage;
