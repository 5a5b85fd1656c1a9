//! A ranked record store for a capture-the-flag scoreboard: records keyed by
//! user name, a rank index ordered by descending score and ascending name, a
//! materialized ranking view, and the commit protocol that keeps all three in
//! step.

pub mod order;
pub mod rank_index;
pub mod record;
pub mod text;
pub mod view;
pub mod store;
pub mod laws;
pub mod auth;
pub mod challenge;
pub mod account;
pub mod timestamp;
pub mod web;
