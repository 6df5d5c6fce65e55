//! An SSDP (UPnP 1.1) discovery engine: parses M-SEARCH probes, renders
//! NOTIFY advertisements and search responses, plans multicast group
//! membership and per-interface broadcast passes, and arbitrates the
//! shutdown byebye burst.
//!
//! Sockets, timers and tasks live with the caller, which feeds datagrams
//! in and sends the returned datagrams out; the engine itself touches the
//! system only to read the interface table.

pub mod codec;
pub mod config;
pub mod engine;
pub mod iface;
pub mod laws;
pub mod net;
pub mod pass;
pub mod shutdown;
pub mod text;
