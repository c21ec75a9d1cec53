//! Verified decision logic of a periodic box-shaped transit search.
//!
//! Float values enter as their IEEE-754 bit patterns; every comparison the
//! search makes (median selection, outlier clipping, the deepest window, the
//! deepest duration, the strongest candidate) is taken on integer order keys
//! that order exactly as the values do. The bucket and segment bookkeeping
//! is integer arithmetic throughout.
pub mod binning;
pub mod box_search;
pub mod clipping;
pub mod float_order;
pub mod segments;
pub mod selection;
pub mod statistics;
pub mod sweep;
