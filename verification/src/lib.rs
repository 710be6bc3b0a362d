//! Dot-density tile pipeline: joins polygon geometry to per-area population
//! counts, redistributes "not stated" counts, samples dots inside polygons,
//! masks water, rasterizes Web-Mercator tiles, and answers point-location
//! queries.
//!
//! Geometry is held in fixed-point integer coordinates; the scale is chosen
//! by the caller and never inspected here.
#![verifier::loop_isolation(false)]

pub mod config;
pub mod counts;
pub mod data;
pub mod geom;
pub mod masking;
pub mod processing;
pub mod render;
pub mod server;
pub mod types;

use vstd::prelude::*;

verus! {

} // verus!
