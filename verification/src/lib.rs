//! State engine for a terminal dashboard that watches fiber schedulers,
//! connection pools and actor systems: bounded rolling histories, cyclic
//! selection lists, deterministic forest rendering and per-tab dispatch.

pub mod app;
pub mod ensemble;
pub mod history;
pub mod tree;
pub mod list;
pub mod model;
