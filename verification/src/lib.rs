//! Direct binary search halftoning on 16.16 fixed-point numbers.
pub mod blocks;
pub mod context;
pub mod delta_laws;
pub mod drift_laws;
pub mod entry_laws;
pub mod error_laws;
pub mod event_laws;
pub mod filter;
pub mod fixed;
pub mod fold;
pub mod follow_laws;
pub mod grid_laws;
pub mod input;
pub mod input_laws;
pub mod kernel;
pub mod kernel_laws;
pub mod map_laws;
pub mod measure_laws;
pub mod neighbour_laws;
pub mod number_laws;
pub mod ops;
pub mod overlap_laws;
pub mod phase_laws;
pub mod picture;
pub mod picture_laws;
pub mod plane;
pub mod progress;
pub mod render;
pub mod residue_laws;
pub mod rest_laws;
pub mod search;
pub mod search_laws;
pub mod shift_laws;
pub mod still_laws;
pub mod sums;
pub mod swap_laws;
pub mod tap_laws;
pub mod usual_laws;
pub mod walk_laws;
