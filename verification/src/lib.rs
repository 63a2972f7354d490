//! Fleet inventory and health checking: a registry of managed hosts, the
//! classification of devices found on a network, and the decision logic of a
//! bounded, deadline-driven probe engine with its report aggregation.
//!
//! The library holds no sockets and no clocks. Callers perform the network
//! work, hand in what they observed together with the current time, and get
//! back the next thing to do.

pub mod address;
pub mod check;
pub mod client;
pub mod discovery;
pub mod host;
pub mod policy;
pub mod probe;
pub mod range;
pub mod registry;
pub mod report;
pub mod server;
pub mod text;
