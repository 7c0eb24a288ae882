//! Sensor readings: validation, a bounded cache of the latest ones, and the
//! decisions an ingest service takes around its database and its clients.
//!
//! Nothing here performs I/O. Sockets, SQL and exporters belong to the
//! program around the library, which hands plain values in and carries the
//! answers out.
pub mod api;
pub mod buffer;
pub mod cache;
pub mod config;
pub mod db;
pub mod readings;
pub mod residency;
pub mod startup;
pub mod telemetry;
pub mod text;
pub mod timestamp;
