//! Reading order of the layout elements of one document page.
//!
//! The library splits the elements into regular flowing text and masked
//! structural elements, orders the regular ones by recursive cuts at empty
//! projection gaps, and folds the masked ones back in by a weighted distance.
//! Coordinates are integers in a unit the caller picks (pixels, or a finer
//! fixed-point unit).
use vstd::prelude::*;

pub mod traits;
pub mod histogram;
pub mod utils;
pub mod matching;
pub mod reading_order;
pub mod reinsertion;
pub mod trace;
