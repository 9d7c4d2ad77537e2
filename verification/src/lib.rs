//! The core of a rendezvous server: the registry of announced peers, the
//! rules by which network events change it, the plan of a liveness tick and
//! the start-up configuration.
pub mod address;
mod clock;
pub mod config;
pub mod dispatch;
pub mod registry;
pub mod scheduler;
