//! A pool of upstream HTTP(S) proxy endpoints with latency-based routing.
//!
//! The crate keeps a registry of proxy endpoint records, folds latency
//! measurements from a probing sweep back into it, selects an upstream
//! per a pluggable strategy, and plans how an inbound request is relayed
//! through the chosen proxy.

pub mod strutil;

pub mod structs;
pub use structs::IpInfo;
pub use structs::IpList;
pub use structs::RecordV;

pub mod registry;
pub use registry::CandidateFilter;
pub use registry::Registry;

pub mod route;
pub use route::Router;
pub use route::Strategy;

pub mod latency;
pub use latency::ProbeError;

pub mod api;
pub use api::Header;
