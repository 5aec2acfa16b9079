//! A verified cache-aside weather-forecast pipeline.
//!
//! The library covers the logic of a forecast lookup service backed by a
//! read-through cache: scraping two temperature fields out of loosely
//! structured HTML, normalizing them into a typed forecast record, encoding
//! and decoding that record for the cache, and the hit/miss/expiry decisions
//! of the cache-aside orchestrator.  Network transport (the upstream HTTP
//! fetch and the key-value store protocol) is left to the surrounding
//! application; everything that decides or computes lives here.
#![verifier::loop_isolation(false)]

use vstd::prelude::*;

pub mod cache;
pub mod codec;
pub mod decimal;
pub mod errors;
pub mod forecast;
pub mod html;
pub mod service;
