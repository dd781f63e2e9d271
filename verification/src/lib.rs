//! A reverse-proxy load balancer's dispatch engine.
//!
//! The pieces, leaves first: `registry` holds the configured backends and
//! their live state (connection counts, response times, the alive/dead
//! partition); `selector` implements the six selection policies over the
//! alive set; `health` applies probe sweeps to the partition; `dispatch`
//! does the per-request reserve/release bookkeeping; `config` reads the
//! startup snapshot; `algorithm` and `text` are the small vocabularies the
//! others share.
//!
//! The surrounding process owns all I/O: it probes, listens, and forwards,
//! and hands this crate only plain values.

pub mod algorithm;
pub mod config;
pub mod dispatch;
pub mod health;
pub mod registry;
pub mod selector;
pub mod text;
