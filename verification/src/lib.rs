//! CueMap: a temporal-associative memory store.
//!
//! A keyed content repository indexed by short string tags ("cues"),
//! supporting recall by weighted cue intersection with recency and
//! reinforcement factors. Scores are fixed-point integers in micro-units
//! (1.0 == 1_000_000), since the ranking formulas are proved exact here.

pub mod auth;
pub mod chunker;
mod ext;
pub mod text;
mod fixed;
pub mod engine;
pub mod grounding;
pub mod jobs;
pub mod multi_tenant;
pub mod nl;
pub mod normalization;
pub mod persistence;
pub mod projects;
pub mod record;
pub mod scoring;
pub mod structures;
pub mod taxonomy;

pub use fixed::SCALE;
