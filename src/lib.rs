//! Dense row-major matrices and their product, computed either by a
//! lane-cascade dot product or by plain scalar accumulation.
//!
//! `matrix` holds storage and layout, `lanes` the lane cascade and the dot
//! products over it, `multiply` the two products and the dispatch between
//! them. The products are exact: entries are integers, so every partial
//! sum is represented without rounding and both strategies agree.
pub mod lanes;
pub mod matrix;
pub mod multiply;
