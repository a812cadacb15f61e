//! Conversions between linear offsets, per-axis subscripts and centered
//! coordinates for arrays stored in column-major order.

pub mod coord;
pub mod error;
pub mod laws;
pub mod model;
pub mod permute;
pub mod strides;
pub mod subscript;

pub use error::IndexError;
pub use strides::{calc_strides_col_major, strides_col_major};
pub use subscript::{idx_to_sub_col_major, sub_to_idx_col_major};
pub use coord::{coord_to_idx_col_major, idx_to_coord_col_major};
pub use permute::idx_map;
