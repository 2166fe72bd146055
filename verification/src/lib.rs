//! Discrete core of a finite-element mesh visualisation pipeline: the text
//! of its files, the lookup of paths in its configuration, the checks on its
//! mesh indices, the winding of its triangles in the two face sets, and the
//! vertex layout of its port overlay.
//!
//! The numeric work on coordinates and measurements (areas, normals, scaling)
//! is done by the caller. This library decides which text writes a number,
//! which node goes where and in what order, and which inputs are rejected.

pub mod config;
pub mod mesh;
pub mod numeral;
pub mod numpy_compat;
pub mod text;
