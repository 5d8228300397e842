//! A graph library built around two ideas: graph representations that expose a
//! small capability surface (vertex and edge enumeration, incidence, endpoint
//! lookup, reversal), and generic algorithms written once against that surface.
//!
//! The dense representations store nothing but their vertex count: every edge
//! is a closed-form integer code, invertible in constant time (`codec`,
//! `complete`, `pairgraph`).  The sparse representation is an immutable
//! adjacency list built once through a builder (`static_graph`).  Over the
//! shared capability surface (`graphs`) run a visitor-driven breadth first
//! traversal engine (`traverse`, `distances`) and the structural queries:
//! connectivity, cycle and tree tests (`algs`), cut vertices and cut edges
//! (`cut`), and minimum spanning trees (`kruskal`, `prim`, `unionfind`).
//! A parent-pointer dynamic forest (`parentpointer`) rounds the set out.

use vstd::prelude::*;

pub mod algs;
pub mod codec;
pub mod complete;
pub mod cut;
pub mod distances;
pub mod graphs;
pub mod kruskal;
pub mod pairgraph;
pub mod parentpointer;
pub mod prim;
pub mod props;
pub mod static_graph;
pub mod traverse;
pub mod unionfind;

verus! {

} // verus!
