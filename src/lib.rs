//! A lease-based coordination registry: processes publish service endpoints
//! under a shared key, and others claim one unleased (or expired) endpoint.
//!
//! `message` frames the header-tagged envelope exchanged on a connection,
//! `service` holds the registry and its lease rules, and `handlers` decides
//! what a listener replies to each request.

pub mod message;
pub mod service;
pub mod handlers;
