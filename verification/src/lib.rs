//! Burrows-Wheeler Transform construction over a numerically encoded text
//! with an externally supplied suffix array.

pub mod bwt;
