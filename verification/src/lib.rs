//! A matchmaker: players queue with a skill rating and a region, and are matched
//! ten at a time into two teams of five.

pub mod api;
pub mod arithmetic_laws;
pub mod bounds;
pub mod clock;
pub mod config;
pub mod double;
pub mod draft;
pub mod draft_laws;
pub mod history;
pub mod laws;
pub mod lists;
pub mod match_laws;
pub mod matchmaker;
pub mod metrics;
pub mod model;
pub mod oldest;
pub mod player;
pub mod rating;
pub mod regions;
pub mod requests;
pub mod rounding;
pub mod settings_laws;
pub mod shard;
pub mod shortlist;
pub mod state_laws;
pub mod text;
