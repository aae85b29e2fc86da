//! The HP backend: discovery through HPLIP's tools and DNS-SD, and walk-up registration.
pub mod backend;
pub mod http;
pub mod mdns;
pub mod probe;
pub mod walkup;
pub mod xml;
