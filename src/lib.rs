//! Watches a service registry and turns what it holds into a sorted,
//! render-ready description of the services hosted elsewhere.
pub mod order;
pub mod model;
pub mod reconcile;
pub mod document;
pub mod schedule;
pub mod laws;
pub mod config;
