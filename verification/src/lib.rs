//! Connection-routing and load-balancing core of a multi-application TCP
//! layer-4 reverse proxy.
//!
//! The library maps listening ports to application target pools, selects
//! backend targets round-robin through a shared per-application counter,
//! and drives the per-listener dispatch decisions. Socket handling and
//! configuration-file loading live outside the library, which only ever
//! works on plain values.

pub mod proxy;
