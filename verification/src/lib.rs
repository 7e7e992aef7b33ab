//! Core of an LLM routing gateway.

use vstd::prelude::*;

pub mod auth;
pub mod breaker;
pub mod calendar;
pub mod config;
pub mod crypto;
pub mod ctx;
pub mod extract;
pub mod filter;
pub mod json;
pub mod limit;
pub mod load;
pub mod model;
pub mod peer;
pub mod provider_client;
pub mod proxy;
pub mod rewrite;
pub mod router;
pub mod rows;
pub mod scan;
pub mod sse;
pub mod swrr;
pub mod text;
pub mod upstream;

verus! {

} // verus!
